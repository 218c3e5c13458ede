//! The order book of one security: a half-book of bids and one of asks.

pub use crate::half_book::HalfBook;
use crate::ladder::{
    depth_of, ladder_append, ladder_remove, ladder_resize, BookView, RestingOrder,
};
use crate::types::{
    decide_modify, modify_decision, BookDepth, BookError, CancelOrder, ModifyOrder, ModifyOutcome,
    OrderNode,
};
use vstd::prelude::*;

verus! {

/// The book of one security.
pub struct OrderBook {
    pub security_id: u128,
    pub ask: HalfBook,
    pub bid: HalfBook,
}

impl View for OrderBook {
    type V = BookView;

    open spec fn view(&self) -> BookView {
        BookView { bids: self.bid@, asks: self.ask@ }
    }
}

impl OrderBook {
    /// Both half-books are consistent.
    pub open spec fn wf(&self) -> bool {
        self.ask.wf() && self.bid.wf()
    }

    /// The half-book of one side.
    pub open spec fn side(&self, is_buy_side: bool) -> HalfBook {
        if is_buy_side {
            self.bid
        } else {
            self.ask
        }
    }

    /// Whether the slot `order_index` of the given side holds the order
    /// `order_id`.
    pub open spec fn holds(&self, order_id: u128, is_buy_side: bool, order_index: usize) -> bool {
        self.side(is_buy_side).slots().contains_pair(order_index, order_id)
    }

    /// No bid is priced at or above an ask.
    pub open spec fn uncrossed(&self) -> bool {
        forall|b: u32, a: u32|
            #![trigger self.bid@.contains_key(b), self.ask@.contains_key(a)]
            self.bid@.contains_key(b) && self.ask@.contains_key(a) ==> b < a
    }

    /// An empty book for the security `security_id`.
    pub fn new(security_id: u128) -> (r: Self)
        ensures
            r.wf(),
            r.security_id == security_id,
            r.bid@ == Map::<u32, Seq<RestingOrder>>::empty(),
            r.ask@ == Map::<u32, Seq<RestingOrder>>::empty(),
            r.bid.slots() == Map::<usize, u128>::empty(),
            r.ask.slots() == Map::<usize, u128>::empty(),
            r.bid.order_pool@.len() == 0 && r.bid.free_list@.len() == 0,
            r.ask.order_pool@.len() == 0 && r.ask.free_list@.len() == 0,
            r.uncrossed(),
    {
        Self { security_id, ask: HalfBook::new(), bid: HalfBook::new() }
    }

    /// Rests a buy order at the back of the bid queue of its price. Fails,
    /// and changes nothing, if the order has nothing left to trade or the
    /// level cannot take it.
    pub fn create_buy_order(&mut self, order_id: u128, resting_order: OrderNode) -> (r: Result<
        usize,
        BookError,
    >)
        requires
            old(self).wf(),
        ensures
            final(self).wf(),
            final(self).security_id == old(self).security_id,
            final(self).ask == old(self).ask,
            match r {
                Ok(slot) => {
                    &&& old(self).bid.append_error(
                        resting_order.market_limit,
                        resting_order.current_quantity,
                    ) is None
                    &&& slot == old(self).bid.next_slot()
                    &&& !old(self).bid.occupied(slot)
                    &&& final(self).bid@ == ladder_append(
                        old(self).bid@,
                        resting_order.market_limit,
                        RestingOrder {
                            order_id,
                            slot,
                            initial_quantity: resting_order.initial_quantity,
                            current_quantity: resting_order.current_quantity,
                        },
                    )
                    &&& final(self).bid.slots() == old(self).bid.slots().insert(slot, order_id)
                    &&& final(self).bid.free_list@ == if old(self).bid.free_list@.len() > 0 {
                        old(self).bid.free_list@.drop_last()
                    } else {
                        old(self).bid.free_list@
                    }
                    &&& final(self).bid.order_pool@.len() == if old(self).bid.free_list@.len() > 0 {
                        old(self).bid.order_pool@.len()
                    } else {
                        old(self).bid.order_pool@.len() + 1
                    }
                },
                Err(e) => {
                    &&& old(self).bid.append_error(
                        resting_order.market_limit,
                        resting_order.current_quantity,
                    ) == Some(e)
                    &&& final(self).bid == old(self).bid
                },
            },
    {
        self.bid.append(order_id, resting_order)
    }

    /// Rests a sell order at the back of the ask queue of its price. Fails,
    /// and changes nothing, if the order has nothing left to trade or the
    /// level cannot take it.
    pub fn create_sell_order(&mut self, order_id: u128, resting_order: OrderNode) -> (r: Result<
        usize,
        BookError,
    >)
        requires
            old(self).wf(),
        ensures
            final(self).wf(),
            final(self).security_id == old(self).security_id,
            final(self).bid == old(self).bid,
            match r {
                Ok(slot) => {
                    &&& old(self).ask.append_error(
                        resting_order.market_limit,
                        resting_order.current_quantity,
                    ) is None
                    &&& slot == old(self).ask.next_slot()
                    &&& !old(self).ask.occupied(slot)
                    &&& final(self).ask@ == ladder_append(
                        old(self).ask@,
                        resting_order.market_limit,
                        RestingOrder {
                            order_id,
                            slot,
                            initial_quantity: resting_order.initial_quantity,
                            current_quantity: resting_order.current_quantity,
                        },
                    )
                    &&& final(self).ask.slots() == old(self).ask.slots().insert(slot, order_id)
                    &&& final(self).ask.free_list@ == if old(self).ask.free_list@.len() > 0 {
                        old(self).ask.free_list@.drop_last()
                    } else {
                        old(self).ask.free_list@
                    }
                    &&& final(self).ask.order_pool@.len() == if old(self).ask.free_list@.len() > 0 {
                        old(self).ask.order_pool@.len()
                    } else {
                        old(self).ask.order_pool@.len() + 1
                    }
                },
                Err(e) => {
                    &&& old(self).ask.append_error(
                        resting_order.market_limit,
                        resting_order.current_quantity,
                    ) == Some(e)
                    &&& final(self).ask == old(self).ask
                },
            },
    {
        self.ask.append(order_id, resting_order)
    }

    /// Whether the slot of the given side holds the order.
    fn holds_order(&self, order_id: u128, is_buy_side: bool, order_index: usize) -> (r: bool)
        requires
            self.wf(),
        ensures
            r == self.holds(order_id, is_buy_side, order_index),
    {
        if is_buy_side {
            self.bid.holds_order(order_id, order_index)
        } else {
            self.ask.holds_order(order_id, order_index)
        }
    }

    /// Takes the order `order_id` out of the slot that `order` names and
    /// frees the slot. Fails, and changes nothing, if that slot does not
    /// hold the order.
    pub fn cancel_order(&mut self, order_id: u128, order: CancelOrder) -> (r: Result<(), BookError>)
        requires
            old(self).wf(),
        ensures
            final(self).wf(),
            final(self).security_id == old(self).security_id,
            final(self).side(!order.is_buy_side) == old(self).side(!order.is_buy_side),
            match r {
                Ok(()) => {
                    let before = old(self).side(order.is_buy_side);
                    let after = final(self).side(order.is_buy_side);
                    &&& old(self).holds(order_id, order.is_buy_side, order.order_index)
                    &&& after@ == ladder_remove(
                        before@,
                        before.node(order.order_index).market_limit,
                        before.position(order.order_index),
                    )
                    &&& after.slots() == before.slots().remove(order.order_index)
                    &&& after.free_list@ == before.free_list@.push(order.order_index)
                    &&& after.order_pool@.len() == before.order_pool@.len()
                },
                Err(e) => {
                    &&& !old(self).holds(order_id, order.is_buy_side, order.order_index)
                    &&& e == BookError::NoSuchOrder
                    &&& *final(self) == *old(self)
                },
            },
    {
        if !self.holds_order(order_id, order.is_buy_side, order.order_index) {
            return Err(BookError::NoSuchOrder);
        }
        if order.is_buy_side {
            self.bid.unlink(order.order_index);
        } else {
            self.ask.unlink(order.order_index);
        }
        Ok(())
    }

    /// Applies a modification to the order `order_id` in the slot that
    /// `order` names, as the decision table says; see `modify_decision`.
    /// An edit in place keeps the order where it is, records the new size
    /// and caps what is left by it. Every other change takes the order out
    /// of the book: the outcome says with which price and quantities it is
    /// to be submitted again. Fails, and changes nothing, if the slot does
    /// not hold the order or the new quantity is zero.
    pub fn modify_order(&mut self, order_id: u128, order: ModifyOrder) -> (r: Result<
        Option<ModifyOutcome>,
        BookError,
    >)
        requires
            old(self).wf(),
        ensures
            final(self).wf(),
            final(self).security_id == old(self).security_id,
            final(self).side(!order.is_buy_side) == old(self).side(!order.is_buy_side),
            ({
                let before = old(self).side(order.is_buy_side);
                let after = final(self).side(order.is_buy_side);
                let node = before.node(order.order_index);
                let pos = before.position(order.order_index);
                match r {
                    Err(e) => {
                        &&& *final(self) == *old(self)
                        &&& e == if !old(self).holds(
                            order_id,
                            order.is_buy_side,
                            order.order_index,
                        ) {
                            BookError::NoSuchOrder
                        } else {
                            BookError::EmptyOrder
                        }
                        &&& !old(self).holds(order_id, order.is_buy_side, order.order_index)
                            || order.new_quantity == Some(0u32)
                    },
                    Ok(outcome) => {
                        &&& old(self).holds(order_id, order.is_buy_side, order.order_index)
                        &&& order.new_quantity != Some(0u32)
                        &&& outcome == modify_decision(node, order.new_price, order.new_quantity)
                        &&& match outcome {
                            None => *final(self) == *old(self),
                            Some(ModifyOutcome::Inplace) => {
                                &&& after@ == ladder_resize(
                                    before@,
                                    node.market_limit,
                                    pos,
                                    order.new_quantity->0,
                                    if node.current_quantity <= order.new_quantity->0 {
                                        node.current_quantity
                                    } else {
                                        order.new_quantity->0
                                    },
                                )
                                &&& after.slots() == before.slots()
                                &&& after.free_list@ == before.free_list@
                                &&& after.order_pool@.len() == before.order_pool@.len()
                            },
                            Some(_) => {
                                &&& after@ == ladder_remove(before@, node.market_limit, pos)
                                &&& after.slots() == before.slots().remove(order.order_index)
                                &&& after.free_list@ == before.free_list@.push(order.order_index)
                                &&& after.order_pool@.len() == before.order_pool@.len()
                            },
                        }
                    },
                }
            }),
    {
        if !self.holds_order(order_id, order.is_buy_side, order.order_index) {
            return Err(BookError::NoSuchOrder);
        }
        if let Some(q) = order.new_quantity {
            if q == 0 {
                return Err(BookError::EmptyOrder);
            }
        }
        let node = if order.is_buy_side {
            self.bid.order_pool[order.order_index].unwrap()
        } else {
            self.ask.order_pool[order.order_index].unwrap()
        };
        let outcome = decide_modify(&node, order.new_price, order.new_quantity);
        match outcome {
            None => {},
            Some(ModifyOutcome::Inplace) => {
                let new_quantity = order.new_quantity.unwrap();
                if order.is_buy_side {
                    self.bid.reduce(order.order_index, new_quantity);
                } else {
                    self.ask.reduce(order.order_index, new_quantity);
                }
            },
            Some(_) => {
                if order.is_buy_side {
                    self.bid.unlink(order.order_index);
                } else {
                    self.ask.unlink(order.order_index);
                }
            },
        }
        Ok(outcome)
    }

    /// The depth of the book: bids from the highest price down, asks from
    /// the lowest price up, each line with the total quantity that rests at
    /// its price; at most `levels_count` lines a side if a number is given.
    pub fn depth(&self, levels_count: Option<usize>) -> (r: BookDepth)
        requires
            self.wf(),
        ensures
            r.bid_depth@ == depth_of(self.bid@, false, levels_count),
            r.ask_depth@ == depth_of(self.ask@, true, levels_count),
    {
        let ask_depth = self.ask.depth(true, levels_count);
        let bid_depth = self.bid.depth(false, levels_count);
        BookDepth { bid_depth, ask_depth }
    }
}

} // verus!
