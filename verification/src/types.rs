//! Plain records exchanged between the engine, the books and their callers.

pub use crate::registry::{GlobalOrderRegistry, OrderRegistry};
use vstd::prelude::*;

verus! {

/// One resting order as stored in a half-book's arena. `next` and `prev` are
/// arena indices of the neighbours in the FIFO queue of the order's price.
#[derive(Clone, Copy, Debug, PartialEq, Eq)]
pub struct OrderNode {
    pub initial_quantity: u32,
    pub current_quantity: u32,
    /// The limit price at which the order rests.
    pub market_limit: u32,
    pub next: Option<usize>,
    pub prev: Option<usize>,
}

/// The FIFO queue of one price: its two ends and its aggregates.
#[derive(Clone, Copy, Debug, PartialEq, Eq)]
pub struct PriceLevel {
    pub head: usize,
    pub tail: usize,
    pub order_count: u32,
    pub total_quantity: u32,
}

/// How an incoming order trades.
#[derive(Clone, Copy, Debug, PartialEq, Eq)]
pub enum OrderType {
    /// Trades at once against the opposite side, no further than the
    /// protective price if one is given; what is left over is discarded.
    Market(Option<u32>),
    /// Trades up to its limit price; what is left over rests in the book.
    Limit,
}

/// A new order as submitted to the engine.
#[derive(Clone, Copy, Debug, PartialEq, Eq)]
pub struct NewOrder {
    pub engine_order_id: u128,
    /// The limit price; required for `OrderType::Limit`, ignored otherwise.
    pub price: Option<u32>,
    /// The size with which the order is recorded when it rests.
    pub initial_quantity: u32,
    /// The quantity that is still to be traded.
    pub current_quantity: u32,
    pub is_buy_side: bool,
    pub security_id: u128,
    pub order_type: OrderType,
}

/// Names a resting order inside one order book.
#[derive(Clone, Copy, Debug, PartialEq, Eq)]
pub struct CancelOrder {
    pub is_buy_side: bool,
    pub order_index: usize,
}

/// A change requested for the resting order at `order_index`.
#[derive(Clone, Copy, Debug, PartialEq, Eq)]
pub struct ModifyOrder {
    pub order_index: usize,
    pub is_buy_side: bool,
    pub new_price: Option<u32>,
    pub new_quantity: Option<u32>,
}

/// Where a resting order lives: its book, its side and its arena slot.
#[derive(Clone, Copy, Debug, PartialEq, Eq)]
pub struct OrderLocation {
    pub security_id: u128,
    pub is_buy_side: bool,
    pub order_index: usize,
}

/// What a modification did to the order. Every outcome but `Inplace` took the
/// order out of its queue; the fields say how it has to be submitted again.
#[derive(Clone, Copy, Debug, PartialEq, Eq)]
pub enum ModifyOutcome {
    Inplace,
    Repriced { new_price: u32, old_initial_qty: u32, old_current_qty: u32 },
    Requantized { old_price: u32, new_initial_qty: u32, old_current_qty: u32 },
    Both { new_price: u32, new_initial_qty: u32, old_current_qty: u32 },
}

/// Why a submission was turned down.
#[derive(Clone, Copy, Debug, PartialEq, Eq)]
pub enum Reason {
    /// No order with this id is resting.
    NotFound,
    /// The quantity of the order, or the new quantity asked for, is zero.
    ZeroQuantity,
    /// A limit order came without a price.
    MissingPrice,
    /// An order with this id is already resting.
    DuplicateOrderId,
    /// The price level cannot take the order without one of its 32-bit
    /// aggregates overflowing.
    LevelFull,
}

/// The result of a cancellation.
#[derive(Clone, Copy, Debug, PartialEq, Eq)]
pub enum CancelOutcome {
    Success,
    Failed { reason: Reason },
}

/// One execution between a resting order (the maker) and an incoming one.
#[derive(Clone, Copy, Debug, PartialEq, Eq)]
pub struct Fill {
    pub maker_order_id: u128,
    pub taker_order_id: u128,
    /// The price of the maker's level.
    pub price: u32,
    pub quantity: u32,
    /// The side of the incoming order.
    pub taker_is_buy_side: bool,
}

/// The terminal disposition of a new order.
#[derive(Clone, Copy, Debug, PartialEq, Eq)]
pub enum SubmitOutcome {
    /// The order was processed; `resting_id` is its id if a remainder rests.
    Accepted { resting_id: Option<u128> },
    Rejected { reason: Reason },
}

/// What a new order did: its executions in the order in which they happened,
/// the quantity that was not executed, and the disposition.
#[derive(Debug)]
pub struct MatchReport {
    pub outcome: SubmitOutcome,
    pub fills: Vec<Fill>,
    pub remaining: u32,
}

/// The terminal disposition of a modification.
#[derive(Clone, Copy, Debug, PartialEq, Eq)]
pub enum ModifyResult {
    Inplace,
    Repriced,
    Requantized,
    Both,
    /// The request asked for nothing that differs from the resting order.
    Unchanged,
    NotFound,
    Rejected { reason: Reason },
}

/// What a modification did, with the executions of a resubmitted order.
#[derive(Debug)]
pub struct ModifyReport {
    pub result: ModifyResult,
    pub fills: Vec<Fill>,
}

/// One line of a depth snapshot.
#[derive(Clone, Copy, Debug, PartialEq, Eq)]
pub struct PriceLevelDepth {
    pub price_level: u32,
    pub quantity: u32,
}

/// A depth snapshot: bids from the highest price down, asks from the lowest
/// price up.
#[derive(Debug)]
pub struct BookDepth {
    pub bid_depth: Vec<PriceLevelDepth>,
    pub ask_depth: Vec<PriceLevelDepth>,
}

/// Why an order book refused a request.
#[derive(Clone, Copy, Debug, PartialEq, Eq)]
pub enum BookError {
    /// The order has nothing left to trade, or the new quantity is zero.
    EmptyOrder,
    /// The price level cannot take the order without one of its 32-bit
    /// aggregates overflowing.
    LevelFull,
    /// The slot that was named does not hold the order that was named.
    NoSuchOrder,
}

/// What the decision table of a modification says for a resting order:
/// nothing, if the request names no price other than the order's and no
/// quantity; a change of both, if it names another price and a quantity; a
/// new price alone; a larger size, which gives up the place in the queue; or
/// a size within the recorded one, which is edited in place.
pub open spec fn modify_decision(
    node: OrderNode,
    new_price: Option<u32>,
    new_quantity: Option<u32>,
) -> Option<ModifyOutcome> {
    let old_current_qty = node.current_quantity;
    match new_price {
        Some(new_price) if new_price != node.market_limit => match new_quantity {
            Some(new_initial_qty) => Some(
                ModifyOutcome::Both { new_price, new_initial_qty, old_current_qty },
            ),
            None => Some(
                ModifyOutcome::Repriced {
                    new_price,
                    old_initial_qty: node.initial_quantity,
                    old_current_qty,
                },
            ),
        },
        _ => match new_quantity {
            Some(new_initial_qty) => if new_initial_qty > node.initial_quantity {
                Some(
                    ModifyOutcome::Requantized {
                        old_price: node.market_limit,
                        new_initial_qty,
                        old_current_qty,
                    },
                )
            } else {
                Some(ModifyOutcome::Inplace)
            },
            None => None,
        },
    }
}

/// Applies the decision table of a modification to a resting order.
pub fn decide_modify(node: &OrderNode, new_price: Option<u32>, new_quantity: Option<u32>) -> (r:
    Option<ModifyOutcome>)
    ensures
        r == modify_decision(*node, new_price, new_quantity),
{
    let old_current_qty = node.current_quantity;
    let moved: Option<u32> = match new_price {
        Some(p) => if p != node.market_limit {
            Some(p)
        } else {
            None
        },
        None => None,
    };
    match moved {
        Some(new_price) => match new_quantity {
            Some(new_initial_qty) => Some(
                ModifyOutcome::Both { new_price, new_initial_qty, old_current_qty },
            ),
            None => Some(
                ModifyOutcome::Repriced {
                    new_price,
                    old_initial_qty: node.initial_quantity,
                    old_current_qty,
                },
            ),
        },
        None => match new_quantity {
            Some(new_initial_qty) => if new_initial_qty > node.initial_quantity {
                Some(
                    ModifyOutcome::Requantized {
                        old_price: node.market_limit,
                        new_initial_qty,
                        old_current_qty,
                    },
                )
            } else {
                Some(ModifyOutcome::Inplace)
            },
            None => None,
        },
    }
}

} // verus!
