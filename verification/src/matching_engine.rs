//! The matching engine: one order book for each security, and the registry
//! that takes the id of each resting order to the slot in which it rests.

use crate::half_book::HalfBook;
use crate::ladder::{
    accepts_price, depth_line, depth_of, fills_total, is_best, ladder_append, ladder_ok,
    ladder_remove, ladder_resize, lemma_append_then_remove, lemma_best_of_empty,
    lemma_best_unique, lemma_match_conserves, lemma_match_without_fills,
    lemma_queue_total_nonneg, lemma_queue_total_remove, lemma_queue_total_update, level_full,
    match_ladder,
    price_acceptable, queue_total, BookView, Ladder, RestingOrder, Taker,
};
use crate::orderbook::OrderBook;
use crate::registry::GlobalOrderRegistry;
use crate::types::{
    decide_modify, modify_decision, BookDepth, CancelOrder, CancelOutcome, Fill, MatchReport,
    ModifyOrder, ModifyOutcome, ModifyReport, ModifyResult, NewOrder, OrderLocation, OrderNode,
    OrderType, Reason, SubmitOutcome,
};
use std::collections::HashMap;
use vstd::prelude::*;

verus! {

/// Whether the slot of the given side of the book of `sec` holds an order.
spec fn slot_taken(books: Map<u128, OrderBook>, sec: u128, side: bool, slot: usize) -> bool {
    books.contains_key(sec) && books[sec].side(side).slots().contains_key(slot)
}

/// The id of the order in a slot that holds one.
spec fn slot_owner(books: Map<u128, OrderBook>, sec: u128, side: bool, slot: usize) -> u128 {
    books[sec].side(side).slots()[slot]
}

/// The registry and the books describe the same set of resting orders: each
/// registered order is in the slot that the registry names, and each order
/// in a slot is registered there.
spec fn registry_consistent(reg: Map<u128, OrderLocation>, books: Map<u128, OrderBook>) -> bool {
    &&& forall|id: u128| #[trigger]
        reg.contains_key(id) ==> {
            &&& slot_taken(books, reg[id].security_id, reg[id].is_buy_side, reg[id].order_index)
            &&& slot_owner(books, reg[id].security_id, reg[id].is_buy_side, reg[id].order_index)
                == id
        }
    &&& forall|sec: u128, side: bool, slot: usize| #[trigger]
        slot_taken(books, sec, side, slot) ==> {
            &&& reg.contains_key(slot_owner(books, sec, side, slot))
            &&& reg[slot_owner(books, sec, side, slot)] == (OrderLocation {
                security_id: sec,
                is_buy_side: side,
                order_index: slot,
            })
        }
}

/// Every book is consistent, none is crossed, and each is filed under the
/// security that it is for.
spec fn books_ok(books: Map<u128, OrderBook>) -> bool {
    forall|sec: u128| #[trigger]
        books.contains_key(sec) ==> books[sec].wf() && books[sec].uncrossed()
            && books[sec].security_id == sec
}

/// Consistency survives when an order leaves its slot and the registry.
proof fn lemma_registry_remove(
    reg: Map<u128, OrderLocation>,
    books: Map<u128, OrderBook>,
    sec: u128,
    side: bool,
    slot: usize,
    after: OrderBook,
)
    requires
        registry_consistent(reg, books),
        slot_taken(books, sec, side, slot),
        after.side(side).slots() == books[sec].side(side).slots().remove(slot),
        after.side(!side).slots() == books[sec].side(!side).slots(),
    ensures
        registry_consistent(
            reg.remove(slot_owner(books, sec, side, slot)),
            books.insert(sec, after),
        ),
{
    let id = slot_owner(books, sec, side, slot);
    let reg2 = reg.remove(id);
    let books2 = books.insert(sec, after);
    assert(reg.contains_key(id));
    assert forall|other: u128| #[trigger] reg2.contains_key(other) implies {
        &&& slot_taken(
            books2,
            reg2[other].security_id,
            reg2[other].is_buy_side,
            reg2[other].order_index,
        )
        &&& slot_owner(
            books2,
            reg2[other].security_id,
            reg2[other].is_buy_side,
            reg2[other].order_index,
        ) == other
    } by {
        assert(reg.contains_key(other));
        let loc = reg[other];
        assert(slot_taken(books, loc.security_id, loc.is_buy_side, loc.order_index));
        if loc.security_id == sec {
            if loc.is_buy_side == side {
                assert(loc.order_index != slot);
            } else {
                assert(loc.is_buy_side == !side);
            }
        }
    }
    assert forall|s: u128, b: bool, k: usize| #[trigger] slot_taken(books2, s, b, k) implies {
        &&& reg2.contains_key(slot_owner(books2, s, b, k))
        &&& reg2[slot_owner(books2, s, b, k)] == (OrderLocation {
            security_id: s,
            is_buy_side: b,
            order_index: k,
        })
    } by {
        if s == sec {
            if b != side {
                assert(b == !side);
            }
        }
        assert(slot_taken(books, s, b, k));
        assert(slot_owner(books2, s, b, k) == slot_owner(books, s, b, k));
        assert(slot_taken(books, sec, side, slot));
    }
}

/// Consistency survives when an order enters a free slot and the registry.
proof fn lemma_registry_insert(
    reg: Map<u128, OrderLocation>,
    books: Map<u128, OrderBook>,
    sec: u128,
    side: bool,
    slot: usize,
    id: u128,
    after: OrderBook,
)
    requires
        registry_consistent(reg, books),
        books.contains_key(sec),
        !reg.contains_key(id),
        !slot_taken(books, sec, side, slot),
        after.side(side).slots() == books[sec].side(side).slots().insert(slot, id),
        after.side(!side).slots() == books[sec].side(!side).slots(),
    ensures
        registry_consistent(
            reg.insert(id, OrderLocation { security_id: sec, is_buy_side: side, order_index: slot }),
            books.insert(sec, after),
        ),
{
    let reg2 = reg.insert(
        id,
        OrderLocation { security_id: sec, is_buy_side: side, order_index: slot },
    );
    let books2 = books.insert(sec, after);
    assert forall|other: u128| #[trigger] reg2.contains_key(other) implies {
        &&& slot_taken(
            books2,
            reg2[other].security_id,
            reg2[other].is_buy_side,
            reg2[other].order_index,
        )
        &&& slot_owner(
            books2,
            reg2[other].security_id,
            reg2[other].is_buy_side,
            reg2[other].order_index,
        ) == other
    } by {
        if other != id {
            assert(reg.contains_key(other));
            let loc = reg[other];
            assert(slot_taken(books, loc.security_id, loc.is_buy_side, loc.order_index));
            if loc.security_id == sec && loc.is_buy_side != side {
                assert(loc.is_buy_side == !side);
            }
        }
    }
    assert forall|s: u128, b: bool, k: usize| #[trigger] slot_taken(books2, s, b, k) implies {
        &&& reg2.contains_key(slot_owner(books2, s, b, k))
        &&& reg2[slot_owner(books2, s, b, k)] == (OrderLocation {
            security_id: s,
            is_buy_side: b,
            order_index: k,
        })
    } by {
        if s == sec && b != side {
            assert(b == !side);
        }
        if !(s == sec && b == side && k == slot) {
            assert(slot_taken(books, s, b, k));
            assert(slot_owner(books2, s, b, k) == slot_owner(books, s, b, k));
        }
    }
}

/// Consistency survives a change of a book that leaves its slots as they
/// are.
proof fn lemma_registry_same_slots(
    reg: Map<u128, OrderLocation>,
    books: Map<u128, OrderBook>,
    sec: u128,
    after: OrderBook,
)
    requires
        registry_consistent(reg, books),
        books.contains_key(sec),
        after.bid.slots() == books[sec].bid.slots(),
        after.ask.slots() == books[sec].ask.slots(),
    ensures
        registry_consistent(reg, books.insert(sec, after)),
{
    let books2 = books.insert(sec, after);
    assert forall|other: u128| #[trigger] reg.contains_key(other) implies {
        &&& slot_taken(
            books2,
            reg[other].security_id,
            reg[other].is_buy_side,
            reg[other].order_index,
        )
        &&& slot_owner(
            books2,
            reg[other].security_id,
            reg[other].is_buy_side,
            reg[other].order_index,
        ) == other
    } by {
        let loc = reg[other];
        assert(slot_taken(books, loc.security_id, loc.is_buy_side, loc.order_index));
    }
    assert forall|s: u128, b: bool, k: usize| #[trigger] slot_taken(books2, s, b, k) implies {
        &&& reg.contains_key(slot_owner(books2, s, b, k))
        &&& reg[slot_owner(books2, s, b, k)] == (OrderLocation {
            security_id: s,
            is_buy_side: b,
            order_index: k,
        })
    } by {
        assert(slot_taken(books, s, b, k));
        assert(slot_owner(books2, s, b, k) == slot_owner(books, s, b, k));
    }
}

/// Consistency survives the arrival of a book without orders.
proof fn lemma_registry_new_book(
    reg: Map<u128, OrderLocation>,
    books: Map<u128, OrderBook>,
    sec: u128,
    book: OrderBook,
)
    requires
        registry_consistent(reg, books),
        !books.contains_key(sec),
        book.bid.slots() == Map::<usize, u128>::empty(),
        book.ask.slots() == Map::<usize, u128>::empty(),
    ensures
        registry_consistent(reg, books.insert(sec, book)),
{
    let books2 = books.insert(sec, book);
    assert forall|other: u128| #[trigger] reg.contains_key(other) implies {
        &&& slot_taken(
            books2,
            reg[other].security_id,
            reg[other].is_buy_side,
            reg[other].order_index,
        )
        &&& slot_owner(
            books2,
            reg[other].security_id,
            reg[other].is_buy_side,
            reg[other].order_index,
        ) == other
    } by {
        let loc = reg[other];
        assert(slot_taken(books, loc.security_id, loc.is_buy_side, loc.order_index));
    }
    assert forall|s: u128, b: bool, k: usize| #[trigger] slot_taken(books2, s, b, k) implies {
        &&& reg.contains_key(slot_owner(books2, s, b, k))
        &&& reg[slot_owner(books2, s, b, k)] == (OrderLocation {
            security_id: s,
            is_buy_side: b,
            order_index: k,
        })
    } by {
        if s != sec {
            assert(slot_taken(books, s, b, k));
        }
    }
}

/// The book with `own` as the side of an incoming order and `opposite` as
/// the side it trades against.
spec fn joined(security_id: u128, is_buy_side: bool, own: HalfBook, opposite: HalfBook) -> OrderBook {
    if is_buy_side {
        OrderBook { security_id, ask: opposite, bid: own }
    } else {
        OrderBook { security_id, ask: own, bid: opposite }
    }
}

/// The price up to which an order trades: the price of a limit order, the
/// protective price of a market order if it has one.
pub open spec fn order_limit(order: NewOrder) -> Option<u32> {
    match order.order_type {
        OrderType::Limit => order.price,
        OrderType::Market(cap) => cap,
    }
}

/// What matching needs to know of an order.
pub open spec fn taker_of(order: NewOrder) -> Taker {
    Taker {
        order_id: order.engine_order_id,
        is_buy: order.is_buy_side,
        limit: order_limit(order),
    }
}

/// A report for an order that was turned down.
fn rejected(reason: Reason, quantity: u32) -> (report: MatchReport)
    ensures
        report.outcome == (SubmitOutcome::Rejected { reason }),
        report.fills@ == Seq::<Fill>::empty(),
        fills_total(report.fills@) == 0,
        report.remaining == quantity,
{
    MatchReport { outcome: SubmitOutcome::Rejected { reason }, fills: Vec::new(), remaining: quantity }
}

/// A book stays uncrossed when no price is added to either side.
proof fn lemma_fewer_prices_uncrossed(before: OrderBook, after: OrderBook)
    requires
        before.uncrossed(),
        forall|p: u32| #[trigger] after.bid@.contains_key(p) ==> before.bid@.contains_key(p),
        forall|p: u32| #[trigger] after.ask@.contains_key(p) ==> before.ask@.contains_key(p),
    ensures
        after.uncrossed(),
{
    assert forall|b: u32, a: u32|
        #![trigger after.bid@.contains_key(b), after.ask@.contains_key(a)]
        after.bid@.contains_key(b) && after.ask@.contains_key(a) implies b < a by {
        assert(before.bid@.contains_key(b) && before.ask@.contains_key(a));
    }
}

/// The engine: the book of each security that has been seen, and the
/// registry of the orders that rest in them.
pub struct MatchingEngine {
    _book: HashMap<u128, OrderBook>,
    _global_registry: GlobalOrderRegistry,
}

/// The model of the engine: the book of each security that has been seen,
/// and the place of each resting order.
pub struct EngineView {
    pub books: Map<u128, BookView>,
    pub registry: Map<u128, OrderLocation>,
}

impl View for MatchingEngine {
    type V = EngineView;

    open spec fn view(&self) -> EngineView {
        EngineView {
            books: Map::new(
                |s: u128| self.has_book(s),
                |s: u128| BookView { bids: self.ladder(s, true), asks: self.ladder(s, false) },
            ),
            registry: self.registry(),
        }
    }
}

impl MatchingEngine {
    /// The engine is consistent: every book is, no book is crossed, and the
    /// registry holds exactly the orders that rest in the books, each with
    /// the place where it rests.
    pub closed spec fn wf(&self) -> bool {
        &&& books_ok(self._book@)
        &&& registry_consistent(self._global_registry@, self._book@)
    }

    /// Whether the engine has a book for the security.
    pub closed spec fn has_book(&self, security_id: u128) -> bool {
        self._book@.contains_key(security_id)
    }

    /// One side of the book of a security; empty if the engine has no book
    /// for it.
    pub closed spec fn ladder(&self, security_id: u128, is_buy_side: bool) -> Ladder {
        if self._book@.contains_key(security_id) {
            self._book@[security_id].side(is_buy_side)@
        } else {
            Map::empty()
        }
    }

    /// The registry: the place of each resting order.
    pub closed spec fn registry(&self) -> Map<u128, OrderLocation> {
        self._global_registry@
    }

    /// The occupied slots of one side of the book of a security, each with
    /// the id of the order it holds.
    pub closed spec fn slots(&self, security_id: u128, is_buy_side: bool) -> Map<usize, u128> {
        if self._book@.contains_key(security_id) {
            self._book@[security_id].side(is_buy_side).slots()
        } else {
            Map::empty()
        }
    }

    /// The free-list of one side of the book of a security: the slots of
    /// its arena that hold no order, the one that was freed last at the end.
    pub closed spec fn free_list(&self, security_id: u128, is_buy_side: bool) -> Seq<usize> {
        if self._book@.contains_key(security_id) {
            self._book@[security_id].side(is_buy_side).free_list@
        } else {
            Seq::empty()
        }
    }

    /// The number of slots of the arena of one side of the book of a
    /// security.
    pub closed spec fn arena_len(&self, security_id: u128, is_buy_side: bool) -> nat {
        if self._book@.contains_key(security_id) {
            self._book@[security_id].side(is_buy_side).order_pool@.len()
        } else {
            0
        }
    }

    /// The slot that the next order to rest on one side of the book of a
    /// security will take: the slot that was freed last, or a new slot at
    /// the end of the arena if no slot is free.
    pub open spec fn next_slot(&self, security_id: u128, is_buy_side: bool) -> usize {
        if self.free_list(security_id, is_buy_side).len() > 0 {
            self.free_list(security_id, is_buy_side).last()
        } else {
            self.arena_len(security_id, is_buy_side) as usize
        }
    }

    /// One side of a book is in `post` as it is in `self`.
    pub open spec fn side_unchanged(
        &self,
        post: &MatchingEngine,
        security_id: u128,
        is_buy_side: bool,
    ) -> bool {
        &&& post.ladder(security_id, is_buy_side) == self.ladder(security_id, is_buy_side)
        &&& post.free_list(security_id, is_buy_side) == self.free_list(security_id, is_buy_side)
        &&& post.arena_len(security_id, is_buy_side) == self.arena_len(security_id, is_buy_side)
    }

    /// The node of a registered order.
    pub closed spec fn resting_node(&self, order_id: u128) -> OrderNode {
        let loc = self._global_registry@[order_id];
        self._book@[loc.security_id].side(loc.is_buy_side).node(loc.order_index)
    }

    /// The price at which a registered order rests.
    pub closed spec fn resting_price(&self, order_id: u128) -> u32 {
        let loc = self._global_registry@[order_id];
        self._book@[loc.security_id].side(loc.is_buy_side).node(loc.order_index).market_limit
    }

    /// The position of a registered order in the queue of its price.
    pub closed spec fn resting_position(&self, order_id: u128) -> int {
        let loc = self._global_registry@[order_id];
        self._book@[loc.security_id].side(loc.is_buy_side).position(loc.order_index)
    }

    /// An engine without books and without orders.
    pub fn new() -> (r: Self)
        ensures
            r.wf(),
            r@ == (EngineView { books: Map::empty(), registry: Map::empty() }),
            r.registry() == Map::<u128, OrderLocation>::empty(),
            forall|s: u128| !r.has_book(s),
            forall|s: u128, b: bool|
                #![trigger r.ladder(s, b)]
                #![trigger r.free_list(s, b)]
                #![trigger r.arena_len(s, b)]
                {
                    &&& r.ladder(s, b) == Map::<u32, Seq<RestingOrder>>::empty()
                    &&& r.free_list(s, b) == Seq::<usize>::empty()
                    &&& r.arena_len(s, b) == 0
                },
    {
        let r = Self { _book: HashMap::new(), _global_registry: GlobalOrderRegistry::new() };
        assert(r@.books =~= Map::<u128, BookView>::empty());
        r
    }

    /// Finds a registered order: its slot, its side, its security and the
    /// book in which it rests.
    fn get_orderbook(&self, global_order_id: u128) -> (r: Option<(usize, bool, u128, &OrderBook)>)
        requires
            self.wf(),
        ensures
            match r {
                None => !self.registry().contains_key(global_order_id),
                Some((order_index, is_buy_side, security_id, book)) => {
                    &&& self.registry().contains_key(global_order_id)
                    &&& self.registry()[global_order_id] == (OrderLocation {
                        security_id,
                        is_buy_side,
                        order_index,
                    })
                    &&& self._book@.contains_key(security_id)
                    &&& *book == self._book@[security_id]
                    &&& book.holds(global_order_id, is_buy_side, order_index)
                },
            },
    {
        let loc: OrderLocation = match self._global_registry.get_details(&global_order_id) {
            Some(l) => *l,
            None => {
                return None;
            },
        };
        assert(slot_taken(self._book@, loc.security_id, loc.is_buy_side, loc.order_index));
        match self._book.get(&loc.security_id) {
            Some(book) => Some((loc.order_index, loc.is_buy_side, loc.security_id, book)),
            None => None,
        }
    }

    /// Where an order rests, if it is registered.
    pub fn locate(&self, global_order_id: u128) -> (r: Option<OrderLocation>)
        requires
            self.wf(),
        ensures
            r == if self.registry().contains_key(global_order_id) {
                Some(self.registry()[global_order_id])
            } else {
                None
            },
    {
        match self._global_registry.get_details(&global_order_id) {
            Some(loc) => Some(*loc),
            None => None,
        }
    }

    /// The node of a resting order, if the order is registered: its price,
    /// its recorded size, what it has left, and its neighbours in the queue.
    pub fn resting_order(&self, global_order_id: u128) -> (r: Option<OrderNode>)
        requires
            self.wf(),
        ensures
            r == if self.registry().contains_key(global_order_id) {
                Some(self.resting_node(global_order_id))
            } else {
                None
            },
    {
        match self.get_orderbook(global_order_id) {
            Some((order_index, is_buy_side, _, book)) => {
                if is_buy_side {
                    book.bid.order_pool[order_index]
                } else {
                    book.ask.order_pool[order_index]
                }
            },
            None => None,
        }
    }

    /// Why the engine turns a new order down, if it does: the order has
    /// nothing to trade, it is a limit order without a price, an order with
    /// its id is resting, or it is a limit order and the level of its price
    /// on its side could not take its whole quantity.
    pub open spec fn rejection(&self, order: NewOrder) -> Option<Reason> {
        if order.current_quantity == 0 {
            Some(Reason::ZeroQuantity)
        } else if order.order_type is Limit && order.price is None {
            Some(Reason::MissingPrice)
        } else if self.registry().contains_key(order.engine_order_id) {
            Some(Reason::DuplicateOrderId)
        } else if order.order_type is Limit && level_full(
            self.ladder(order.security_id, order.is_buy_side),
            order.price->0,
            order.current_quantity,
        ) {
            Some(Reason::LevelFull)
        } else {
            None
        }
    }

    /// What the engine does with an order that it accepts, from the state
    /// `self` to the state `post`: the order trades against the opposite
    /// side of the book of its security as `match_ladder` says; what is left
    /// of a limit order rests at the back of the queue of its price on its
    /// own side, in the slot `next_slot`, and is registered; what is left of
    /// a market order is dropped. Makers that were used up are no longer
    /// registered and their slots join the free-list in the order in which
    /// they were used up; no other registration and no other book changes.
    pub open spec fn accepted(
        &self,
        order: NewOrder,
        post: &MatchingEngine,
        fills: Seq<Fill>,
        remaining: u32,
        outcome: SubmitOutcome,
    ) -> bool {
        let sec = order.security_id;
        let buy = order.is_buy_side;
        let id = order.engine_order_id;
        let m = match_ladder(self.ladder(sec, !buy), taker_of(order), order.current_quantity);
        let rests = order.order_type is Limit && m.remaining > 0;
        &&& fills == m.fills
        &&& remaining == m.remaining
        &&& outcome == (SubmitOutcome::Accepted {
            resting_id: if rests {
                Some(id)
            } else {
                None
            },
        })
        &&& post.has_book(sec)
        &&& post.ladder(sec, !buy) == m.ladder
        &&& post.ladder(sec, buy) == if rests {
            ladder_append(
                self.ladder(sec, buy),
                order.price->0,
                RestingOrder {
                    order_id: id,
                    slot: post.registry()[id].order_index,
                    initial_quantity: order.initial_quantity,
                    current_quantity: m.remaining,
                },
            )
        } else {
            self.ladder(sec, buy)
        }
        &&& post.registry().contains_key(id) == rests
        &&& rests ==> post.registry()[id] == (OrderLocation {
            security_id: sec,
            is_buy_side: buy,
            order_index: self.next_slot(sec, buy),
        })
        &&& forall|other: u128|
            other != id && #[trigger] post.registry().contains_key(other) ==> {
                &&& self.registry().contains_key(other)
                &&& post.registry()[other] == self.registry()[other]
            }
        &&& post.free_list(sec, !buy) == self.free_list(sec, !buy) + m.freed
        &&& post.arena_len(sec, !buy) == self.arena_len(sec, !buy)
        &&& post.free_list(sec, buy) == if rests && self.free_list(sec, buy).len() > 0 {
            self.free_list(sec, buy).drop_last()
        } else {
            self.free_list(sec, buy)
        }
        &&& post.arena_len(sec, buy) == if rests && self.free_list(sec, buy).len() == 0 {
            self.arena_len(sec, buy) + 1
        } else {
            self.arena_len(sec, buy)
        }
        &&& forall|s: u128, b: bool| s != sec ==> #[trigger] self.side_unchanged(post, s, b)
        &&& forall|s: u128| s != sec ==> #[trigger] post.has_book(s) == self.has_book(s)
    }

    /// Takes a new order. An order that `rejection` turns down changes
    /// nothing. Any other order trades against the opposite side of the book
    /// of its security, which is made if it is the first order for that
    /// security, best price first and earliest arrival first within a price,
    /// while something of it is left and it accepts the best price. What is
    /// left of a limit order then rests; what is left of a market order is
    /// dropped.
    pub fn match_order(&mut self, order: NewOrder) -> (report: MatchReport)
        requires
            old(self).wf(),
        ensures
            final(self).wf(),
            fills_total(report.fills@) + report.remaining == order.current_quantity,
            match old(self).rejection(order) {
                Some(reason) => {
                    &&& report.outcome == (SubmitOutcome::Rejected { reason })
                    &&& report.fills@ == Seq::<Fill>::empty()
                    &&& report.remaining == order.current_quantity
                    &&& *final(self) == *old(self)
                },
                None => old(self).accepted(
                    order,
                    final(self),
                    report.fills@,
                    report.remaining,
                    report.outcome,
                ),
            },
    {
        let id = order.engine_order_id;
        let sec = order.security_id;
        let buy = order.is_buy_side;
        let quantity = order.current_quantity;
        if quantity == 0 {
            return rejected(Reason::ZeroQuantity, quantity);
        }
        let limit: Option<u32> = match order.order_type {
            OrderType::Limit => order.price,
            OrderType::Market(cap) => cap,
        };
        let rest_price: Option<u32> = match order.order_type {
            OrderType::Limit => order.price,
            OrderType::Market(_) => None,
        };
        if let OrderType::Limit = order.order_type {
            if rest_price.is_none() {
                return rejected(Reason::MissingPrice, quantity);
            }
        }
        if self._global_registry.get_details(&id).is_some() {
            return rejected(Reason::DuplicateOrderId, quantity);
        }
        if let Some(p) = rest_price {
            if let Some(known) = self._book.get(&sec) {
                let full = if buy {
                    known.bid.check_append(p, quantity)
                } else {
                    known.ask.check_append(p, quantity)
                };
                if full.is_some() {
                    return rejected(Reason::LevelFull, quantity);
                }
            }
        }
        assert(old(self).rejection(order) is None);
        let ghost books0 = self._book@;
        let ghost reg0 = self._global_registry@;
        let book = match self._book.remove(&sec) {
            Some(b) => b,
            None => OrderBook::new(sec),
        };
        let ghost book0 = book;
        let ghost others = self._book@;
        let security_id = book.security_id;
        let (mut opposite, own) = if buy {
            (book.ask, book.bid)
        } else {
            (book.bid, book.ask)
        };
        let ghost taker = taker_of(order);
        let ghost target = match_ladder(opposite@, taker, quantity);
        let ghost mut stop: Option<u32> = None;
        proof {
            lemma_best_of_empty(buy);
            assert(others =~= books0.remove(sec));
            assert(joined(security_id, buy, own, opposite) == book0);
            if books0.contains_key(sec) {
                assert(others.insert(sec, book0) =~= books0);
            } else {
                lemma_registry_new_book(reg0, books0, sec, book0);
                assert(others =~= books0);
            }
        }
        let mut remaining = quantity;
        let mut fills: Vec<Fill> = Vec::new();
        let mut open = true;
        while remaining > 0 && open
            invariant
                opposite.wf(),
                own == book0.side(buy),
                book0.wf(),
                book0.uncrossed(),
                security_id == book0.security_id,
                self._book@ == others,
                taker == taker_of(order),
                limit == taker.limit,
                id == order.engine_order_id,
                buy == order.is_buy_side,
                sec == order.security_id,
                remaining <= quantity,
                registry_consistent(
                    self._global_registry@,
                    others.insert(sec, joined(security_id, buy, own, opposite)),
                ),
                !self._global_registry@.contains_key(id),
                forall|other: u128| #[trigger]
                    self._global_registry@.contains_key(other) ==> reg0.contains_key(other)
                        && self._global_registry@[other] == reg0[other],
                forall|p: u32| #[trigger]
                    opposite@.contains_key(p) ==> book0.side(!buy)@.contains_key(p),
                ({
                    let m = match_ladder(opposite@, taker, remaining);
                    &&& target.ladder == m.ladder
                    &&& target.fills == fills@ + m.fills
                    &&& target.remaining == m.remaining
                    &&& book0.side(!buy).free_list@ + target.freed == opposite.free_list@
                        + m.freed
                }),
                opposite.order_pool@.len() == book0.side(!buy).order_pool@.len(),
                !open ==> match stop {
                    None => opposite@ == Map::<u32, Seq<RestingOrder>>::empty(),
                    Some(b) => is_best(opposite@, b, buy) && !price_acceptable(buy, limit, b),
                },
            decreases remaining + if open { 1int } else { 0int },
        {
            match opposite.best(buy) {
                None => {
                    open = false;
                    proof {
                        stop = None;
                    }
                },
                Some(price) => {
                    if accepts_price(buy, limit, price) {
                        let ghost before = opposite;
                        let ghost reg = self._global_registry@;
                        let ghost books = others.insert(
                            sec,
                            joined(security_id, buy, own, before),
                        );
                        let ghost m_before = match_ladder(before@, taker, remaining);
                        let ghost fills_before = fills@;
                        let taken = opposite.take(price, remaining);
                        let fill = Fill {
                            maker_order_id: taken.maker_order_id,
                            taker_order_id: id,
                            price,
                            quantity: taken.quantity,
                            taker_is_buy_side: buy,
                        };
                        fills.push(fill);
                        remaining = remaining - taken.quantity;
                        if taken.exhausted {
                            self._global_registry.delete(&taken.maker_order_id);
                        }
                        proof {
                            let after = joined(security_id, buy, own, opposite);
                            assert(books.insert(sec, after) =~= others.insert(sec, after));
                            assert(slot_taken(books, sec, !buy, taken.slot));
                            assert(slot_owner(books, sec, !buy, taken.slot)
                                == taken.maker_order_id);
                            assert(reg.contains_key(taken.maker_order_id));
                            if taken.exhausted {
                                lemma_registry_remove(reg, books, sec, !buy, taken.slot, after);
                            } else {
                                lemma_registry_same_slots(reg, books, sec, after);
                            }
                            let m = match_ladder(opposite@, taker, remaining);
                            assert(m_before.fills =~= seq![fill] + m.fills);
                            assert(fills@ + m.fills =~= fills_before + m_before.fills);
                            assert(opposite.free_list@ + m.freed =~= before.free_list@
                                + m_before.freed);
                        }
                    } else {
                        open = false;
                        proof {
                            stop = Some(price);
                        }
                    }
                },
            }
        }
        proof {
            lemma_match_conserves(book0.side(!buy)@, taker, quantity);
            match stop {
                None => {},
                Some(b) => {
                    if !open {
                        lemma_best_unique(opposite@, b, buy);
                    }
                },
            }
            assert(target.ladder == opposite@);
            assert(target.fills =~= fills@);
            assert(target.remaining == remaining);
            assert(opposite.free_list@ =~= book0.side(!buy).free_list@ + target.freed);
        }
        let mut book = if buy {
            OrderBook { security_id, ask: opposite, bid: own }
        } else {
            OrderBook { security_id, ask: own, bid: opposite }
        };
        proof {
            assert(book == joined(security_id, buy, own, opposite));
            lemma_fewer_prices_uncrossed(book0, book);
        }
        let ghost matched = book;
        let ghost reg1 = self._global_registry@;
        let mut resting_id: Option<u128> = None;
        if let Some(p) = rest_price {
            if remaining > 0 {
                let node = OrderNode {
                    initial_quantity: order.initial_quantity,
                    current_quantity: remaining,
                    market_limit: p,
                    next: None,
                    prev: None,
                };
                let placed = if buy {
                    book.create_buy_order(id, node)
                } else {
                    book.create_sell_order(id, node)
                };
                if let Ok(slot) = placed {
                    self._global_registry.insert(
                        id,
                        OrderLocation { security_id: sec, is_buy_side: buy, order_index: slot },
                    );
                    resting_id = Some(id);
                    proof {
                        let books = others.insert(sec, matched);
                        lemma_registry_insert(reg1, books, sec, buy, slot, id, book);
                        assert(books.insert(sec, book) =~= others.insert(sec, book));
                    }
                }
            }
        }
        self._book.insert(sec, book);
        proof {
            assert(self.free_list(sec, !buy) =~= old(self).free_list(sec, !buy) + target.freed);
            assert(self.free_list(sec, buy) =~= if resting_id is Some && old(self).free_list(
                sec,
                buy,
            ).len() > 0 {
                old(self).free_list(sec, buy).drop_last()
            } else {
                old(self).free_list(sec, buy)
            });
            assert forall|s: u128, b: bool| s != sec implies #[trigger] old(self).side_unchanged(
                self,
                s,
                b,
            ) by {}
        }
        MatchReport { outcome: SubmitOutcome::Accepted { resting_id }, fills, remaining }
    }

    /// What the engine answers to a request to modify an order: that no
    /// such order is registered; that the new quantity is zero; otherwise
    /// what the decision table says for the resting order, unless the order
    /// would move to another price whose level on its side could not take
    /// what the order has left.
    pub open spec fn modify_result(
        &self,
        order_id: u128,
        new_price: Option<u32>,
        new_qty: Option<u32>,
    ) -> ModifyResult {
        let loc = self.registry()[order_id];
        let node = self.resting_node(order_id);
        let own = self.ladder(loc.security_id, loc.is_buy_side);
        if !self.registry().contains_key(order_id) {
            ModifyResult::NotFound
        } else if new_qty == Some(0u32) {
            ModifyResult::Rejected { reason: Reason::ZeroQuantity }
        } else {
            match modify_decision(node, new_price, new_qty) {
                None => ModifyResult::Unchanged,
                Some(ModifyOutcome::Inplace) => ModifyResult::Inplace,
                Some(ModifyOutcome::Requantized { .. }) => ModifyResult::Requantized,
                Some(ModifyOutcome::Repriced { new_price, .. }) => if level_full(
                    own,
                    new_price,
                    node.current_quantity,
                ) {
                    ModifyResult::Rejected { reason: Reason::LevelFull }
                } else {
                    ModifyResult::Repriced
                },
                Some(ModifyOutcome::Both { new_price, .. }) => if level_full(
                    own,
                    new_price,
                    node.current_quantity,
                ) {
                    ModifyResult::Rejected { reason: Reason::LevelFull }
                } else {
                    ModifyResult::Both
                },
            }
        }
    }

    /// The limit order as which a modified order is submitted again: with
    /// the new price if one was given, the new size if one was given, and
    /// the quantity that the resting order had left.
    pub open spec fn resubmission(
        &self,
        order_id: u128,
        new_price: Option<u32>,
        new_qty: Option<u32>,
    ) -> NewOrder {
        let loc = self.registry()[order_id];
        let node = self.resting_node(order_id);
        NewOrder {
            engine_order_id: order_id,
            price: Some(
                match new_price {
                    Some(p) => p,
                    None => node.market_limit,
                },
            ),
            initial_quantity: match new_qty {
                Some(q) => q,
                None => node.initial_quantity,
            },
            current_quantity: node.current_quantity,
            is_buy_side: loc.is_buy_side,
            security_id: loc.security_id,
            order_type: OrderType::Limit,
        }
    }

    /// What an edit in place does, from the state `self` to the state
    /// `post`: the order keeps its place, is recorded with the new size, and
    /// has left no more than that size. Nothing else changes.
    pub open spec fn edited_in_place(&self, order_id: u128, new_qty: u32, post: &MatchingEngine) -> bool {
        let loc = self.registry()[order_id];
        let node = self.resting_node(order_id);
        &&& post.registry() == self.registry()
        &&& post.ladder(loc.security_id, loc.is_buy_side) == ladder_resize(
            self.ladder(loc.security_id, loc.is_buy_side),
            node.market_limit,
            self.resting_position(order_id),
            new_qty,
            if node.current_quantity <= new_qty {
                node.current_quantity
            } else {
                new_qty
            },
        )
        &&& post.free_list(loc.security_id, loc.is_buy_side) == self.free_list(
            loc.security_id,
            loc.is_buy_side,
        )
        &&& post.arena_len(loc.security_id, loc.is_buy_side) == self.arena_len(
            loc.security_id,
            loc.is_buy_side,
        )
        &&& forall|s: u128, b: bool|
            s != loc.security_id || b != loc.is_buy_side ==> #[trigger] self.side_unchanged(
                post,
                s,
                b,
            )
        &&& forall|s: u128| #[trigger] post.has_book(s) == self.has_book(s)
    }

    /// What a modification that gives up the order's place does, from the
    /// state `self` to the state `post`: the order leaves its queue and the
    /// registry, then `order` is taken as a new order: it trades against the
    /// opposite side, and what is left of it rests at the back of the queue
    /// of its price, in the slot that it had, and is registered again.
    pub open spec fn resubmitted(&self, order: NewOrder, post: &MatchingEngine, fills: Seq<Fill>) -> bool {
        let sec = order.security_id;
        let buy = order.is_buy_side;
        let id = order.engine_order_id;
        let left = ladder_remove(
            self.ladder(sec, buy),
            self.resting_node(id).market_limit,
            self.resting_position(id),
        );
        let m = match_ladder(self.ladder(sec, !buy), taker_of(order), order.current_quantity);
        let rests = m.remaining > 0;
        &&& fills == m.fills
        &&& post.ladder(sec, !buy) == m.ladder
        &&& post.ladder(sec, buy) == if rests {
            ladder_append(
                left,
                order.price->0,
                RestingOrder {
                    order_id: id,
                    slot: post.registry()[id].order_index,
                    initial_quantity: order.initial_quantity,
                    current_quantity: m.remaining,
                },
            )
        } else {
            left
        }
        &&& post.registry().contains_key(id) == rests
        &&& rests ==> post.registry()[id] == self.registry()[id]
        &&& forall|other: u128|
            other != id && #[trigger] post.registry().contains_key(other) ==> {
                &&& self.registry().contains_key(other)
                &&& post.registry()[other] == self.registry()[other]
            }
        &&& post.free_list(sec, !buy) == self.free_list(sec, !buy) + m.freed
        &&& post.arena_len(sec, !buy) == self.arena_len(sec, !buy)
        &&& post.free_list(sec, buy) == if rests {
            self.free_list(sec, buy)
        } else {
            self.free_list(sec, buy).push(self.registry()[id].order_index)
        }
        &&& post.arena_len(sec, buy) == self.arena_len(sec, buy)
        &&& forall|s: u128, b: bool| s != sec ==> #[trigger] self.side_unchanged(post, s, b)
        &&& forall|s: u128| #[trigger] post.has_book(s) == self.has_book(s)
    }

    /// Modifies a resting order; `modify_result` says with what result. A
    /// request for an order that is not registered, with a quantity of zero,
    /// that asks for nothing new, or that a full level turns down, changes
    /// nothing. A size within the recorded one is edited in place and the
    /// order keeps its place in the queue. Any other change gives the place
    /// up: the order leaves the book and the registry and is submitted again
    /// as a limit order, so that it trades if it now crosses the market.
    pub fn modify(&mut self, global_order_id: u128, new_price: Option<u32>, new_qty: Option<u32>) -> (report: ModifyReport)
        requires
            old(self).wf(),
        ensures
            final(self).wf(),
            report.result == old(self).modify_result(global_order_id, new_price, new_qty),
            match report.result {
                ModifyResult::NotFound | ModifyResult::Unchanged | ModifyResult::Rejected { .. } => {
                    &&& *final(self) == *old(self)
                    &&& report.fills@ == Seq::<Fill>::empty()
                },
                ModifyResult::Inplace => {
                    &&& old(self).edited_in_place(global_order_id, new_qty->0, final(self))
                    &&& report.fills@ == Seq::<Fill>::empty()
                },
                ModifyResult::Repriced | ModifyResult::Requantized | ModifyResult::Both => old(
                    self,
                ).resubmitted(
                    old(self).resubmission(global_order_id, new_price, new_qty),
                    final(self),
                    report.fills@,
                ),
            },
    {
        let (order_index, buy, sec, known) = match self.get_orderbook(global_order_id) {
            Some(found) => found,
            None => {
                return ModifyReport { result: ModifyResult::NotFound, fills: Vec::new() };
            },
        };
        let loc = OrderLocation { security_id: sec, is_buy_side: buy, order_index };
        if let Some(q) = new_qty {
            if q == 0 {
                return ModifyReport {
                    result: ModifyResult::Rejected { reason: Reason::ZeroQuantity },
                    fills: Vec::new(),
                };
            }
        }
        let ghost books = self._book@;
        let ghost reg = self._global_registry@;
        let ghost before = books[sec];
        proof {
            assert(slot_taken(books, sec, buy, loc.order_index));
            before.side(buy).lemma_position(loc.order_index);
            before.side(buy).lemma_entry(
                before.side(buy).node(loc.order_index).market_limit,
                before.side(buy).position(loc.order_index),
            );
        }
        let half = if buy {
            &known.bid
        } else {
            &known.ask
        };
        let node = half.order_pool[loc.order_index].unwrap();
        let decision = decide_modify(&node, new_price, new_qty);
        let request = ModifyOrder {
            order_index: loc.order_index,
            is_buy_side: buy,
            new_price,
            new_quantity: new_qty,
        };
        let result: ModifyResult;
        let target: u32;
        let new_initial: u32;
        match decision {
            None => {
                return ModifyReport { result: ModifyResult::Unchanged, fills: Vec::new() };
            },
            Some(ModifyOutcome::Inplace) => {
                let mut book = self._book.remove(&sec).unwrap();
                let _edited = book.modify_order(global_order_id, request);
                self._book.insert(sec, book);
                proof {
                    lemma_registry_same_slots(reg, books, sec, book);
                    assert(self._book@ =~= books.insert(sec, book));
                    lemma_fewer_prices_uncrossed(before, book);
                }
                return ModifyReport { result: ModifyResult::Inplace, fills: Vec::new() };
            },
            Some(ModifyOutcome::Repriced { new_price, old_initial_qty, old_current_qty }) => {
                if half.check_append(new_price, node.current_quantity).is_some() {
                    return ModifyReport {
                        result: ModifyResult::Rejected { reason: Reason::LevelFull },
                        fills: Vec::new(),
                    };
                }
                result = ModifyResult::Repriced;
                target = new_price;
                new_initial = old_initial_qty;
            },
            Some(ModifyOutcome::Requantized { old_price, new_initial_qty, old_current_qty }) => {
                result = ModifyResult::Requantized;
                target = old_price;
                new_initial = new_initial_qty;
            },
            Some(ModifyOutcome::Both { new_price, new_initial_qty, old_current_qty }) => {
                if half.check_append(new_price, node.current_quantity).is_some() {
                    return ModifyReport {
                        result: ModifyResult::Rejected { reason: Reason::LevelFull },
                        fills: Vec::new(),
                    };
                }
                result = ModifyResult::Both;
                target = new_price;
                new_initial = new_initial_qty;
            },
        }
        self._global_registry.delete(&global_order_id);
        let mut book = self._book.remove(&sec).unwrap();
        let _unlinked = book.modify_order(global_order_id, request);
        self._book.insert(sec, book);
        let order = NewOrder {
            engine_order_id: global_order_id,
            price: Some(target),
            initial_quantity: new_initial,
            current_quantity: node.current_quantity,
            is_buy_side: buy,
            security_id: sec,
            order_type: OrderType::Limit,
        };
        proof {
            assert(slot_owner(books, sec, buy, loc.order_index) == global_order_id);
            lemma_registry_remove(reg, books, sec, buy, loc.order_index, book);
            assert(self._book@ =~= books.insert(sec, book));
            lemma_fewer_prices_uncrossed(before, book);
            assert(order == old(self).resubmission(global_order_id, new_price, new_qty));
            let own = before.side(buy)@;
            let pos = before.side(buy).position(loc.order_index);
            before.side(buy).lemma_level_bounds(node.market_limit);
            before.side(buy).lemma_entry(node.market_limit, pos);
            lemma_queue_total_remove(own[node.market_limit], pos);
            assert(self.rejection(order) is None);
        }
        let ghost mid = *self;
        let report = self.match_order(order);
        proof {
            let slot = loc.order_index;
            assert(mid.free_list(sec, buy) == old(self).free_list(sec, buy).push(slot));
            assert(old(self).free_list(sec, buy).push(slot).drop_last() =~= old(self).free_list(
                sec,
                buy,
            ));
            assert forall|s: u128, b: bool| s != sec implies #[trigger] old(self).side_unchanged(
                self,
                s,
                b,
            ) by {
                assert(mid.side_unchanged(self, s, b));
            }
        }
        ModifyReport { result, fills: report.fills }
    }

    /// What a cancellation does, from the state `self` to the state `post`:
    /// the order leaves its queue and the registry, and its slot joins the
    /// free-list of its side. Nothing else changes.
    pub open spec fn cancelled(&self, order_id: u128, post: &MatchingEngine) -> bool {
        let loc = self.registry()[order_id];
        &&& post.registry() == self.registry().remove(order_id)
        &&& post.ladder(loc.security_id, loc.is_buy_side) == ladder_remove(
            self.ladder(loc.security_id, loc.is_buy_side),
            self.resting_price(order_id),
            self.resting_position(order_id),
        )
        &&& post.free_list(loc.security_id, loc.is_buy_side) == self.free_list(
            loc.security_id,
            loc.is_buy_side,
        ).push(loc.order_index)
        &&& post.arena_len(loc.security_id, loc.is_buy_side) == self.arena_len(
            loc.security_id,
            loc.is_buy_side,
        )
        &&& forall|s: u128, b: bool|
            s != loc.security_id || b != loc.is_buy_side ==> #[trigger] self.side_unchanged(
                post,
                s,
                b,
            )
        &&& forall|s: u128| #[trigger] post.has_book(s) == self.has_book(s)
    }

    /// Cancels a resting order: takes it out of its queue, frees its slot
    /// and removes it from the registry. Fails, and changes nothing, if no
    /// order with this id is registered.
    pub fn cancel(&mut self, global_order_id: u128) -> (r: CancelOutcome)
        requires
            old(self).wf(),
        ensures
            final(self).wf(),
            match r {
                CancelOutcome::Failed { reason } => {
                    &&& reason == Reason::NotFound
                    &&& !old(self).registry().contains_key(global_order_id)
                    &&& *final(self) == *old(self)
                },
                CancelOutcome::Success => {
                    &&& old(self).registry().contains_key(global_order_id)
                    &&& old(self).cancelled(global_order_id, final(self))
                },
            },
    {
        let loc: OrderLocation = match self.get_orderbook(global_order_id) {
            Some((order_index, is_buy_side, security_id, _)) => OrderLocation {
                security_id,
                is_buy_side,
                order_index,
            },
            None => {
                return CancelOutcome::Failed { reason: Reason::NotFound };
            },
        };
        let ghost books = self._book@;
        let ghost reg = self._global_registry@;
        assert(slot_taken(books, loc.security_id, loc.is_buy_side, loc.order_index));
        self._global_registry.delete(&global_order_id);
        let mut book = self._book.remove(&loc.security_id).unwrap();
        let _done = book.cancel_order(
            global_order_id,
            CancelOrder { is_buy_side: loc.is_buy_side, order_index: loc.order_index },
        );
        self._book.insert(loc.security_id, book);
        proof {
            let before = books[loc.security_id];
            assert(slot_owner(books, loc.security_id, loc.is_buy_side, loc.order_index)
                == global_order_id);
            lemma_registry_remove(
                reg,
                books,
                loc.security_id,
                loc.is_buy_side,
                loc.order_index,
                book,
            );
            assert(self._book@ =~= books.insert(loc.security_id, book));
            before.side(loc.is_buy_side).lemma_position(loc.order_index);
            lemma_fewer_prices_uncrossed(before, book);
        }
        CancelOutcome::Success
    }

    /// The depth of the book of a security: bids from the highest price
    /// down, asks from the lowest price up, at most `levels_count` lines a
    /// side if a number is given. Both sides are empty if the engine has no
    /// book for the security.
    pub fn depth(&self, security_id: u128, levels_count: Option<usize>) -> (r: BookDepth)
        requires
            self.wf(),
        ensures
            r.bid_depth@ == depth_of(self.ladder(security_id, true), false, levels_count),
            r.ask_depth@ == depth_of(self.ladder(security_id, false), true, levels_count),
    {
        match self._book.get(&security_id) {
            Some(book) => book.depth(levels_count),
            None => {
                let r = BookDepth { bid_depth: Vec::new(), ask_depth: Vec::new() };
                assert(r.bid_depth@ =~= depth_of(
                    self.ladder(security_id, true),
                    false,
                    levels_count,
                ));
                assert(r.ask_depth@ =~= depth_of(
                    self.ladder(security_id, false),
                    true,
                    levels_count,
                ));
                r
            },
        }
    }

    /// Every registered order rests where the registry says: the slot that
    /// the registry names is occupied by the order, and the order is in the
    /// queue of its price at its position, with the quantities of its node.
    pub proof fn lemma_registered_rests(&self, order_id: u128)
        requires
            self.wf(),
            self.registry().contains_key(order_id),
        ensures
            ({
                let loc = self.registry()[order_id];
                let side = self.ladder(loc.security_id, loc.is_buy_side);
                let price = self.resting_price(order_id);
                let pos = self.resting_position(order_id);
                let node = self.resting_node(order_id);
                &&& self.has_book(loc.security_id)
                &&& self.slots(loc.security_id, loc.is_buy_side).contains_pair(
                    loc.order_index,
                    order_id,
                )
                &&& side.contains_key(price)
                &&& 0 <= pos < side[price].len()
                &&& side[price][pos] == (RestingOrder {
                    order_id,
                    slot: loc.order_index,
                    initial_quantity: node.initial_quantity,
                    current_quantity: node.current_quantity,
                })
                &&& node.market_limit == price
                &&& node.current_quantity > 0
            }),
    {
        let loc = self.registry()[order_id];
        let half = self._book@[loc.security_id].side(loc.is_buy_side);
        assert(slot_taken(self._book@, loc.security_id, loc.is_buy_side, loc.order_index));
        half.lemma_position(loc.order_index);
        half.lemma_entry(half.node(loc.order_index).market_limit, half.position(loc.order_index));
    }

    /// Every order that rests is registered, with the place where it rests:
    /// so no id rests twice, and the registry holds exactly the orders of
    /// the books.
    pub proof fn lemma_resting_registered(
        &self,
        security_id: u128,
        is_buy_side: bool,
        price: u32,
        pos: int,
    )
        requires
            self.wf(),
            self.ladder(security_id, is_buy_side).contains_key(price),
            0 <= pos < self.ladder(security_id, is_buy_side)[price].len(),
        ensures
            ({
                let entry = self.ladder(security_id, is_buy_side)[price][pos];
                &&& self.registry().contains_key(entry.order_id)
                &&& self.registry()[entry.order_id] == (OrderLocation {
                    security_id,
                    is_buy_side,
                    order_index: entry.slot,
                })
                &&& self.resting_price(entry.order_id) == price
                &&& self.resting_position(entry.order_id) == pos
            }),
    {
        let half = self._book@[security_id].side(is_buy_side);
        half.lemma_entry(price, pos);
        let entry = half@[price][pos];
        assert(slot_taken(self._book@, security_id, is_buy_side, entry.slot));
    }

    /// No id rests twice: two orders of the books with the same id are the
    /// same order.
    pub proof fn lemma_ids_unique(
        &self,
        first: OrderLocation,
        first_price: u32,
        first_pos: int,
        second: OrderLocation,
        second_price: u32,
        second_pos: int,
    )
        requires
            self.wf(),
            self.ladder(first.security_id, first.is_buy_side).contains_key(first_price),
            0 <= first_pos < self.ladder(first.security_id, first.is_buy_side)[first_price].len(),
            self.ladder(first.security_id, first.is_buy_side)[first_price][first_pos].slot
                == first.order_index,
            self.ladder(second.security_id, second.is_buy_side).contains_key(second_price),
            0 <= second_pos < self.ladder(
                second.security_id,
                second.is_buy_side,
            )[second_price].len(),
            self.ladder(second.security_id, second.is_buy_side)[second_price][second_pos].slot
                == second.order_index,
            self.ladder(first.security_id, first.is_buy_side)[first_price][first_pos].order_id
                == self.ladder(
                second.security_id,
                second.is_buy_side,
            )[second_price][second_pos].order_id,
        ensures
            first == second,
            first_price == second_price,
            first_pos == second_pos,
    {
        self.lemma_resting_registered(
            first.security_id,
            first.is_buy_side,
            first_price,
            first_pos,
        );
        self.lemma_resting_registered(
            second.security_id,
            second.is_buy_side,
            second_price,
            second_pos,
        );
    }

    /// Every occupied slot of a book holds a registered order, and the
    /// registry names that slot for it.
    pub proof fn lemma_slot_registered(&self, security_id: u128, is_buy_side: bool, slot: usize)
        requires
            self.wf(),
            self.slots(security_id, is_buy_side).contains_key(slot),
        ensures
            self.registry().contains_key(self.slots(security_id, is_buy_side)[slot]),
            self.registry()[self.slots(security_id, is_buy_side)[slot]] == (OrderLocation {
                security_id,
                is_buy_side,
                order_index: slot,
            }),
    {
        assert(slot_taken(self._book@, security_id, is_buy_side, slot));
    }

    /// Every slot of an arena either holds an order or is in the free-list
    /// of its side, never both, and no slot is in a free-list twice.
    pub proof fn lemma_slot_free_or_occupied(
        &self,
        security_id: u128,
        is_buy_side: bool,
        slot: usize,
    )
        requires
            self.wf(),
            slot < self.arena_len(security_id, is_buy_side),
        ensures
            self.slots(security_id, is_buy_side).contains_key(slot) <==> !self.free_list(
                security_id,
                is_buy_side,
            ).contains(slot),
            self.free_list(security_id, is_buy_side).no_duplicates(),
            forall|k: int|
                0 <= k < self.free_list(security_id, is_buy_side).len() ==> (#[trigger] self.free_list(
                    security_id,
                    is_buy_side,
                )[k]) < self.arena_len(security_id, is_buy_side),
    {
        self._book@[security_id].side(is_buy_side).lemma_free_or_occupied(slot);
    }

    /// No book is crossed: every bid is priced below every ask of the same
    /// security.
    pub proof fn lemma_no_crossed_book(&self, security_id: u128, bid: u32, ask: u32)
        requires
            self.wf(),
            self.ladder(security_id, true).contains_key(bid),
            self.ladder(security_id, false).contains_key(ask),
        ensures
            bid < ask,
    {
        let book = self._book@[security_id];
        assert(book.uncrossed());
        assert(book.bid@.contains_key(bid) && book.ask@.contains_key(ask));
    }

    /// No queue of a book is empty, no resting order has nothing left, and
    /// the aggregates of every level fit in 32 bits.
    pub proof fn lemma_ladder_bounds(&self, security_id: u128, is_buy_side: bool)
        requires
            self.wf(),
        ensures
            ladder_ok(self.ladder(security_id, is_buy_side)),
            forall|p: u32| #[trigger]
                self.ladder(security_id, is_buy_side).contains_key(p) ==> {
                    &&& self.ladder(security_id, is_buy_side)[p].len() <= u32::MAX
                    &&& 0 < queue_total(self.ladder(security_id, is_buy_side)[p]) <= u32::MAX
                },
    {
        if self._book@.contains_key(security_id) {
            let half = self._book@[security_id].side(is_buy_side);
            half.lemma_view_ok();
            assert forall|p: u32| #[trigger] half@.contains_key(p) implies half@[p].len()
                <= u32::MAX && 0 < queue_total(half@[p]) <= u32::MAX by {
                half.lemma_level_bounds(p);
            }
        }
    }

    /// Two consistent engines with the same books have the same registry.
    proof fn lemma_same_books_same_registry(&self, other: &MatchingEngine)
        requires
            self.wf(),
            other.wf(),
            forall|s: u128, b: bool| #[trigger] self.ladder(s, b) == other.ladder(s, b),
        ensures
            self.registry() == other.registry(),
    {
        assert forall|id: u128| #[trigger] self.registry().contains_key(id) implies other.registry().contains_key(
            id,
        ) && other.registry()[id] == self.registry()[id] by {
            self.lemma_registered_rests(id);
            let loc = self.registry()[id];
            assert(self.ladder(loc.security_id, loc.is_buy_side) == other.ladder(
                loc.security_id,
                loc.is_buy_side,
            ));
            other.lemma_resting_registered(
                loc.security_id,
                loc.is_buy_side,
                self.resting_price(id),
                self.resting_position(id),
            );
        }
        assert forall|id: u128| #[trigger] other.registry().contains_key(id) implies self.registry().contains_key(
            id,
        ) by {
            other.lemma_registered_rests(id);
            let loc = other.registry()[id];
            assert(self.ladder(loc.security_id, loc.is_buy_side) == other.ladder(
                loc.security_id,
                loc.is_buy_side,
            ));
            self.lemma_resting_registered(
                loc.security_id,
                loc.is_buy_side,
                other.resting_price(id),
                other.resting_position(id),
            );
        }
        assert(self.registry() =~= other.registry());
    }

    /// An order that comes to rest without trading and is then cancelled
    /// leaves the books and the registry as they were before it came, and
    /// the cancellation makes the free-list of its side one slot longer.
    pub proof fn lemma_rest_then_cancel(
        &self,
        order: NewOrder,
        rested: &MatchingEngine,
        fills: Seq<Fill>,
        remaining: u32,
        cancelled: &MatchingEngine,
    )
        requires
            self.wf(),
            rested.wf(),
            cancelled.wf(),
            self.rejection(order) is None,
            self.accepted(
                order,
                rested,
                fills,
                remaining,
                SubmitOutcome::Accepted { resting_id: Some(order.engine_order_id) },
            ),
            fills.len() == 0,
            rested.cancelled(order.engine_order_id, cancelled),
        ensures
            cancelled.registry() == self.registry(),
            forall|s: u128, b: bool| #[trigger] cancelled.ladder(s, b) == self.ladder(s, b),
            cancelled.free_list(order.security_id, order.is_buy_side).len() == rested.free_list(
                order.security_id,
                order.is_buy_side,
            ).len() + 1,
    {
        let sec = order.security_id;
        let buy = order.is_buy_side;
        let id = order.engine_order_id;
        let own = self.ladder(sec, buy);
        let price = order.price->0;
        lemma_match_without_fills(self.ladder(sec, !buy), taker_of(order), order.current_quantity);
        self.lemma_ladder_bounds(sec, buy);
        let entry = RestingOrder {
            order_id: id,
            slot: rested.registry()[id].order_index,
            initial_quantity: order.initial_quantity,
            current_quantity: remaining,
        };
        lemma_append_then_remove(own, price, entry);
        let grown = ladder_append(own, price, entry);
        assert(rested.ladder(sec, buy) == grown);
        rested.lemma_resting_registered(sec, buy, price, grown[price].len() - 1);
        assert forall|s: u128, b: bool| #[trigger] cancelled.ladder(s, b) == self.ladder(s, b) by {
            if s == sec && b != buy {
                assert(b == !buy);
            }
            if s != sec || b != buy {
                assert(rested.side_unchanged(cancelled, s, b));
            }
            if s != sec {
                assert(self.side_unchanged(rested, s, b));
            }
        }
        cancelled.lemma_same_books_same_registry(self);
    }

    /// An edit in place keeps the order at its position in its queue and
    /// every other order as it was; the depth line of the price goes down by
    /// what the order lost.
    pub proof fn lemma_edit_in_place(&self, order_id: u128, new_qty: u32, post: &MatchingEngine)
        requires
            self.wf(),
            self.registry().contains_key(order_id),
            self.edited_in_place(order_id, new_qty, post),
        ensures
            ({
                let loc = self.registry()[order_id];
                let before = self.ladder(loc.security_id, loc.is_buy_side);
                let after = post.ladder(loc.security_id, loc.is_buy_side);
                let price = self.resting_price(order_id);
                let pos = self.resting_position(order_id);
                let had = self.resting_node(order_id).current_quantity;
                let has = if had <= new_qty {
                    had
                } else {
                    new_qty
                };
                &&& after.contains_key(price)
                &&& after[price].len() == before[price].len()
                &&& after[price][pos] == (RestingOrder {
                    initial_quantity: new_qty,
                    current_quantity: has,
                    ..before[price][pos]
                })
                &&& forall|j: int|
                    0 <= j < after[price].len() && j != pos ==> #[trigger] after[price][j]
                        == before[price][j]
                &&& depth_line(after, price).quantity == depth_line(before, price).quantity - (had
                    - has)
            }),
    {
        let loc = self.registry()[order_id];
        let before = self.ladder(loc.security_id, loc.is_buy_side);
        let price = self.resting_price(order_id);
        let pos = self.resting_position(order_id);
        let had = self.resting_node(order_id).current_quantity;
        let has = if had <= new_qty {
            had
        } else {
            new_qty
        };
        self.lemma_registered_rests(order_id);
        self.lemma_ladder_bounds(loc.security_id, loc.is_buy_side);
        let entry = RestingOrder {
            initial_quantity: new_qty,
            current_quantity: has,
            ..before[price][pos]
        };
        lemma_queue_total_update(before[price], pos, entry);
        lemma_queue_total_nonneg(before[price].update(pos, entry));
        let after = post.ladder(loc.security_id, loc.is_buy_side);
        assert(after[price] == before[price].update(pos, entry));
    }
}

} // verus!
