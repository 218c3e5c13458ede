//! One side of an order book: an arena of order nodes, a free-list of
//! recyclable slots, and an ordered map from price to the FIFO queue of the
//! orders that rest at it.

use crate::ladder::{
    best_price, depth_line, depth_of, is_best, ladder_append, ladder_ok, ladder_remove,
    ladder_resize, lemma_depth_lines, lemma_queue_total_nonneg, lemma_queue_total_remove,
    lemma_queue_total_update, level_full, lists_prices, queue_total, Ladder, RestingOrder,
};
use crate::types::{BookError, OrderNode, PriceLevel, PriceLevelDepth};
use std::collections::BTreeMap;
use vstd::prelude::*;
use vstd::std_specs::btree::increasing_seq;
use vstd::std_specs::cmp::OrdSpec;
use vstd::std_specs::iter::IteratorSpec;

verus! {

/// `BTreeMap::first_key_value`, of which the key is kept: the minimum key of
/// the map, or nothing if the map is empty.
#[verifier::external_body]
fn first_price(levels: &BTreeMap<u32, PriceLevel>) -> (r: Option<u32>)
    ensures
        r matches Some(p) ==> levels@.contains_key(p) && forall|q: u32|
            levels@.contains_key(q) ==> p <= q,
        r is None ==> forall|q: u32| !levels@.contains_key(q),
{
    match levels.first_key_value() {
        Some((price, _)) => Some(*price),
        None => None,
    }
}

/// `BTreeMap::last_key_value`, of which the key is kept: the maximum key of
/// the map, or nothing if the map is empty.
#[verifier::external_body]
fn last_price(levels: &BTreeMap<u32, PriceLevel>) -> (r: Option<u32>)
    ensures
        r matches Some(p) ==> levels@.contains_key(p) && forall|q: u32|
            levels@.contains_key(q) ==> p >= q,
        r is None ==> forall|q: u32| !levels@.contains_key(q),
{
    match levels.last_key_value() {
        Some((price, _)) => Some(*price),
        None => None,
    }
}

/// Keys that a `BTreeMap` hands out in increasing order are strictly
/// ascending integers.
proof fn lemma_increasing_prices(prices: Seq<u32>)
    requires
        increasing_seq(prices),
    ensures
        forall|i: int, j: int| 0 <= i < j < prices.len() ==> prices[i] < prices[j],
{
    broadcast use vstd::laws_cmp::group_laws_cmp;
    broadcast use vstd::std_specs::btree::group_btree_axioms;

    assert(vstd::laws_cmp::obeys_cmp::<u32>());
    assert forall|i: int, j: int| 0 <= i < j < prices.len() implies prices[i] < prices[j] by {
        assert(prices[i].cmp_spec(&prices[j]) is Less);
    }
}

/// What one step of matching took from the head of a queue.
#[derive(Clone, Copy, Debug, PartialEq, Eq)]
pub struct Taken {
    pub maker_order_id: u128,
    /// The slot of the maker.
    pub slot: usize,
    /// The quantity that traded.
    pub quantity: u32,
    /// Whether the maker was used up and left the book.
    pub exhausted: bool,
}

/// The bids or the asks of one book. The orders live in `order_pool`; the
/// orders of one price are chained through their `next` and `prev` links,
/// and `price_map` holds the two ends and the aggregates of each chain.
pub struct HalfBook {
    pub price_map: BTreeMap<u32, PriceLevel>,
    pub order_pool: Vec<Option<OrderNode>>,
    /// Slots of the arena that hold no order; the last one is reused first.
    pub free_list: Vec<usize>,
    /// The id of the order in each slot of the arena.
    pub order_ids: Vec<u128>,
    /// For each price, the slots of its orders from the head of the queue to
    /// its tail.
    pub queues: Ghost<Map<u32, Seq<usize>>>,
    /// For each occupied slot, its position in the queue of its price.
    pub ranks: Ghost<Map<usize, int>>,
}

impl View for HalfBook {
    type V = Ladder;

    closed spec fn view(&self) -> Ladder {
        Map::new(|p: u32| self.queues@.contains_key(p), |p: u32| self.queue_view(p))
    }
}

impl HalfBook {
    /// Whether `slot` holds an order.
    pub open spec fn occupied(&self, slot: usize) -> bool {
        slot < self.order_pool@.len() && self.order_pool@[slot as int] is Some
    }

    /// The node in an occupied slot.
    pub open spec fn node(&self, slot: usize) -> OrderNode {
        self.order_pool@[slot as int]->0
    }

    /// The occupied slots, each with the id of the order it holds.
    pub open spec fn slots(&self) -> Map<usize, u128> {
        Map::new(|s: usize| self.occupied(s), |s: usize| self.order_ids@[s as int])
    }

    /// The slots of the queue at `price`, head first.
    pub closed spec fn chain(&self, price: u32) -> Seq<usize> {
        self.queues@[price]
    }

    /// The position of the order in `slot` within the queue of its price.
    pub closed spec fn position(&self, slot: usize) -> int {
        self.ranks@[slot]
    }

    /// The order in `slot` as the model sees it.
    pub open spec fn resting(&self, slot: usize) -> RestingOrder {
        RestingOrder {
            order_id: self.order_ids@[slot as int],
            slot,
            initial_quantity: self.node(slot).initial_quantity,
            current_quantity: self.node(slot).current_quantity,
        }
    }

    /// The queue at `price` as the model sees it.
    spec fn queue_view(&self, price: u32) -> Seq<RestingOrder> {
        Seq::new(self.queues@[price].len(), |j: int| self.resting(self.queues@[price][j]))
    }

    /// The slot at position `j` of the queue at `price` holds an order of
    /// that price with something left, whose links name its neighbours in
    /// the queue and whose rank is `j`.
    spec fn linked(&self, price: u32, j: int) -> bool {
        let q = self.queues@[price];
        let s = q[j];
        &&& self.occupied(s)
        &&& self.node(s).market_limit == price
        &&& self.node(s).current_quantity > 0
        &&& self.node(s).prev == (if j == 0 {
            None
        } else {
            Some(q[j - 1])
        })
        &&& self.node(s).next == (if j + 1 == q.len() {
            None
        } else {
            Some(q[j + 1])
        })
        &&& self.ranks@[s] == j
    }

    /// The level at `price` describes its queue: the two ends, the number
    /// of orders and the total of what they have left.
    spec fn level_ok(&self, price: u32) -> bool {
        let q = self.queues@[price];
        let l = self.price_map@[price];
        &&& q.len() >= 1
        &&& l.order_count == q.len()
        &&& l.head == q[0]
        &&& l.tail == q[q.len() - 1]
        &&& l.total_quantity == queue_total(self.queue_view(price))
    }

    /// The order in `slot` is in the queue of its price, at its rank.
    spec fn placed(&self, slot: usize) -> bool {
        let p = self.node(slot).market_limit;
        &&& self.queues@.contains_key(p)
        &&& 0 <= self.ranks@[slot] < self.queues@[p].len()
        &&& self.queues@[p][self.ranks@[slot]] == slot
    }

    /// The free-list holds the slots without an order, each once.
    spec fn free_ok(&self) -> bool {
        &&& self.free_list@.no_duplicates()
        &&& forall|k: int|
            0 <= k < self.free_list@.len() ==> {
                &&& (#[trigger] self.free_list@[k]) < self.order_pool@.len()
                &&& self.order_pool@[self.free_list@[k] as int] is None
            }
        &&& forall|s: usize|
            s < self.order_pool@.len() && !(#[trigger] self.occupied(s))
                ==> self.free_list@.contains(s)
    }

    /// The half-book is consistent: every price of the map has a non-empty
    /// queue whose nodes are linked in both directions from head to tail,
    /// its aggregates are those of the queue, every occupied slot is in
    /// exactly one queue, and every other slot is exactly once in the
    /// free-list.
    pub closed spec fn wf(&self) -> bool {
        &&& self.order_ids@.len() == self.order_pool@.len()
        &&& forall|p: u32|
            #![trigger self.queues@.contains_key(p)]
            #![trigger self.price_map@.contains_key(p)]
            self.queues@.contains_key(p) <==> self.price_map@.contains_key(p)
        &&& forall|p: u32| self.queues@.contains_key(p) ==> #[trigger] self.level_ok(p)
        &&& forall|p: u32, j: int|
            self.queues@.contains_key(p) && 0 <= j < self.queues@[p].len()
                ==> #[trigger] self.linked(p, j)
        &&& forall|s: usize| self.occupied(s) ==> #[trigger] self.placed(s)
        &&& self.free_ok()
    }

    /// The slot that the next order to rest will take: the last entry of the
    /// free-list, or a new slot at the end of the arena if the list is empty.
    pub open spec fn next_slot(&self) -> usize {
        if self.free_list@.len() > 0 {
            self.free_list@.last()
        } else {
            self.order_pool@.len() as usize
        }
    }

    /// Why the half-book cannot take an order of `quantity` at `price`, if
    /// it cannot.
    pub open spec fn append_error(&self, price: u32, quantity: u32) -> Option<BookError> {
        if quantity == 0 {
            Some(BookError::EmptyOrder)
        } else if level_full(self@, price, quantity) {
            Some(BookError::LevelFull)
        } else {
            None
        }
    }

    /// An empty half-book.
    pub fn new() -> (r: Self)
        ensures
            r.wf(),
            r@ == Map::<u32, Seq<RestingOrder>>::empty(),
            r.slots() == Map::<usize, u128>::empty(),
            r.order_pool@.len() == 0,
            r.free_list@.len() == 0,
    {
        let r = Self {
            price_map: BTreeMap::new(),
            order_pool: Vec::new(),
            free_list: Vec::new(),
            order_ids: Vec::new(),
            queues: Ghost(Map::empty()),
            ranks: Ghost(Map::empty()),
        };
        assert(r@ =~= Map::<u32, Seq<RestingOrder>>::empty());
        assert(r.slots() =~= Map::<usize, u128>::empty());
        r
    }

    /// Stores `node` for the order `order_id` in the slot `next_slot()`.
    fn allocate(&mut self, order_id: u128, node: OrderNode) -> (slot: usize)
        requires
            old(self).order_ids@.len() == old(self).order_pool@.len(),
            old(self).free_ok(),
        ensures
            slot == old(self).next_slot(),
            !old(self).occupied(slot),
            final(self).price_map == old(self).price_map,
            final(self).queues == old(self).queues,
            final(self).ranks == old(self).ranks,
            old(self).free_list@.len() > 0 ==> {
                &&& final(self).free_list@ == old(self).free_list@.drop_last()
                &&& final(self).order_pool@ == old(self).order_pool@.update(slot as int, Some(node))
                &&& final(self).order_ids@ == old(self).order_ids@.update(slot as int, order_id)
            },
            old(self).free_list@.len() == 0 ==> {
                &&& final(self).free_list@ == old(self).free_list@
                &&& final(self).order_pool@ == old(self).order_pool@.push(Some(node))
                &&& final(self).order_ids@ == old(self).order_ids@.push(order_id)
            },
    {
        match self.free_list.pop() {
            Some(slot) => {
                self.order_pool[slot] = Some(node);
                self.order_ids[slot] = order_id;
                slot
            },
            None => {
                self.order_pool.push(Some(node));
                self.order_ids.push(order_id);
                self.order_pool.len() - 1
            },
        }
    }

    /// Says why the half-book cannot take an order of `quantity` at `price`,
    /// if it cannot.
    pub fn check_append(&self, price: u32, quantity: u32) -> (r: Option<BookError>)
        requires
            self.wf(),
        ensures
            r == self.append_error(price, quantity),
    {
        if quantity == 0 {
            return Some(BookError::EmptyOrder);
        }
        match self.price_map.get(&price) {
            Some(level) => {
                proof {
                    assert(self.queues@.contains_key(price));
                    assert(self.level_ok(price));
                }
                if level.total_quantity > u32::MAX - quantity || level.order_count == u32::MAX {
                    Some(BookError::LevelFull)
                } else {
                    None
                }
            },
            None => {
                assert(!self.queues@.contains_key(price));
                None
            },
        }
    }

    /// Rests the order `order_id` at the back of the queue of its price,
    /// `order.market_limit`, with the quantities of `order`; the links of
    /// `order` are ignored. Returns the slot that holds it.
    pub fn append(&mut self, order_id: u128, order: OrderNode) -> (r: Result<usize, BookError>)
        requires
            old(self).wf(),
        ensures
            final(self).wf(),
            match r {
                Ok(slot) => {
                    &&& old(self).append_error(order.market_limit, order.current_quantity) is None
                    &&& slot == old(self).next_slot()
                    &&& !old(self).occupied(slot)
                    &&& final(self)@ == ladder_append(
                        old(self)@,
                        order.market_limit,
                        RestingOrder {
                            order_id,
                            slot,
                            initial_quantity: order.initial_quantity,
                            current_quantity: order.current_quantity,
                        },
                    )
                    &&& final(self).slots() == old(self).slots().insert(slot, order_id)
                    &&& final(self).free_list@ == if old(self).free_list@.len() > 0 {
                        old(self).free_list@.drop_last()
                    } else {
                        old(self).free_list@
                    }
                    &&& final(self).order_pool@.len() == if old(self).free_list@.len() > 0 {
                        old(self).order_pool@.len()
                    } else {
                        old(self).order_pool@.len() + 1
                    }
                },
                Err(e) => {
                    &&& old(self).append_error(order.market_limit, order.current_quantity) == Some(e)
                    &&& *final(self) == *old(self)
                },
            },
    {
        let price = order.market_limit;
        let quantity = order.current_quantity;
        if let Some(e) = self.check_append(price, quantity) {
            return Err(e);
        }
        let found: Option<PriceLevel> = match self.price_map.get(&price) {
            Some(level) => Some(*level),
            None => None,
        };
        match found {
            Some(level) => {
                let tail = level.tail;
                let ghost q = self.queues@[price];
                proof {
                    assert(self.level_ok(price));
                    assert(self.linked(price, q.len() - 1));
                }
                let node = OrderNode {
                    initial_quantity: order.initial_quantity,
                    current_quantity: quantity,
                    market_limit: price,
                    next: None,
                    prev: Some(tail),
                };
                let slot = self.allocate(order_id, node);
                let mut last = self.order_pool[tail].unwrap();
                last.next = Some(slot);
                self.order_pool[tail] = Some(last);
                self.price_map.insert(
                    price,
                    PriceLevel {
                        head: level.head,
                        tail: slot,
                        order_count: level.order_count + 1,
                        total_quantity: level.total_quantity + quantity,
                    },
                );
                proof {
                    self.queues@ = self.queues@.insert(price, q.push(slot));
                    self.ranks@ = self.ranks@.insert(slot, q.len() as int);
                    old(self).lemma_appended(self, order_id, order, slot);
                }
                Ok(slot)
            },
            None => {
                let node = OrderNode {
                    initial_quantity: order.initial_quantity,
                    current_quantity: quantity,
                    market_limit: price,
                    next: None,
                    prev: None,
                };
                let slot = self.allocate(order_id, node);
                self.price_map.insert(
                    price,
                    PriceLevel { head: slot, tail: slot, order_count: 1, total_quantity: quantity },
                );
                proof {
                    self.queues@ = self.queues@.insert(price, seq![slot]);
                    self.ranks@ = self.ranks@.insert(slot, 0);
                    old(self).lemma_appended(self, order_id, order, slot);
                }
                Ok(slot)
            },
        }
    }

    /// The state that `append` builds is consistent and has the order at the
    /// back of its queue.
    proof fn lemma_appended(&self, next: &HalfBook, order_id: u128, order: OrderNode, slot: usize)
        requires
            self.wf(),
            order.current_quantity > 0,
            self.append_error(order.market_limit, order.current_quantity) is None,
            slot == self.next_slot(),
            !self.occupied(slot),
            next.free_list@ == (if self.free_list@.len() > 0 {
                self.free_list@.drop_last()
            } else {
                self.free_list@
            }),
            next.order_ids@ == (if self.free_list@.len() > 0 {
                self.order_ids@.update(slot as int, order_id)
            } else {
                self.order_ids@.push(order_id)
            }),
            next.order_pool@.len() == next.order_ids@.len(),
            next.occupied(slot),
            next.node(slot) == (OrderNode {
                initial_quantity: order.initial_quantity,
                current_quantity: order.current_quantity,
                market_limit: order.market_limit,
                next: None,
                prev: if self.queues@.contains_key(order.market_limit) {
                    Some(self.price_map@[order.market_limit].tail)
                } else {
                    None
                },
            }),
            forall|s: usize|
                s < self.order_pool@.len() && s != slot && !(self.queues@.contains_key(
                    order.market_limit,
                ) && s == self.price_map@[order.market_limit].tail)
                    ==> next.order_pool@[s as int] == self.order_pool@[s as int],
            self.queues@.contains_key(order.market_limit) ==> {
                let tail = self.price_map@[order.market_limit].tail;
                &&& next.occupied(tail)
                &&& next.node(tail) == (OrderNode { next: Some(slot), ..self.node(tail) })
            },
            next.price_map@ == self.price_map@.insert(
                order.market_limit,
                if self.queues@.contains_key(order.market_limit) {
                    PriceLevel {
                        head: self.price_map@[order.market_limit].head,
                        tail: slot,
                        order_count: (self.price_map@[order.market_limit].order_count + 1) as u32,
                        total_quantity: (self.price_map@[order.market_limit].total_quantity
                            + order.current_quantity) as u32,
                    }
                } else {
                    PriceLevel {
                        head: slot,
                        tail: slot,
                        order_count: 1,
                        total_quantity: order.current_quantity,
                    }
                },
            ),
            next.queues@ == self.queues@.insert(
                order.market_limit,
                if self.queues@.contains_key(order.market_limit) {
                    self.queues@[order.market_limit].push(slot)
                } else {
                    seq![slot]
                },
            ),
            next.ranks@ == self.ranks@.insert(
                slot,
                if self.queues@.contains_key(order.market_limit) {
                    self.queues@[order.market_limit].len() as int
                } else {
                    0
                },
            ),
        ensures
            next.wf(),
            next@ == ladder_append(
                self@,
                order.market_limit,
                RestingOrder {
                    order_id,
                    slot,
                    initial_quantity: order.initial_quantity,
                    current_quantity: order.current_quantity,
                },
            ),
            next.slots() == self.slots().insert(slot, order_id),
    {
        let price = order.market_limit;
        let had = self.queues@.contains_key(price);
        let q = self.queues@[price];
        let entry = RestingOrder {
            order_id,
            slot,
            initial_quantity: order.initial_quantity,
            current_quantity: order.current_quantity,
        };
        if had {
            assert(self.level_ok(price));
            assert(self.linked(price, q.len() - 1));
        }
        // Every slot that was in a queue keeps what the model reads of it.
        assert forall|p: u32, j: int|
            #![trigger self.queues@[p][j]]
            self.queues@.contains_key(p) && 0 <= j < self.queues@[p].len() implies {
                let s = self.queues@[p][j];
                &&& s != slot
                &&& next.occupied(s)
                &&& next.resting(s) == self.resting(s)
                &&& next.node(s).market_limit == self.node(s).market_limit
                &&& next.node(s).prev == self.node(s).prev
                &&& (!(had && p == price && j == q.len() - 1) ==> next.node(s).next == self.node(
                    s,
                ).next)
                &&& next.ranks@[s] == self.ranks@[s]
            } by {
            assert(self.linked(p, j));
            let s = self.queues@[p][j];
            if had && s == self.price_map@[price].tail {
                assert(self.placed(s));
            }
        }
        assert forall|p: u32| next.queues@.contains_key(p) && p != price implies next.queue_view(p)
            == self.queue_view(p) by {
            assert(next.queue_view(p) =~= self.queue_view(p));
        }
        if had {
            assert(next.queue_view(price).drop_last() =~= self.queue_view(price));
            assert(next.queue_view(price).last() == entry);
        } else {
            assert(next.queue_view(price).drop_last() =~= Seq::<RestingOrder>::empty());
            assert(next.queue_view(price).last() == entry);
            assert(next.queue_view(price) =~= seq![entry]);
        }
        assert(queue_total(Seq::<RestingOrder>::empty()) == 0);
        assert(queue_total(next.queue_view(price)) == queue_total(
            next.queue_view(price).drop_last(),
        ) + entry.current_quantity);
        assert forall|p: u32| next.queues@.contains_key(p) implies #[trigger] next.level_ok(p) by {
            if p != price {
                assert(self.level_ok(p));
                assert(next.queue_view(p) == self.queue_view(p));
            }
        }
        assert forall|p: u32, j: int|
            next.queues@.contains_key(p) && 0 <= j < next.queues@[p].len() implies #[trigger] next.linked(
            p,
            j,
        ) by {
            if p != price {
                assert(self.linked(p, j));
            } else if had && j < q.len() {
                assert(self.linked(p, j));
            }
        }
        assert forall|s: usize| next.occupied(s) implies #[trigger] next.placed(s) by {
            if s != slot {
                assert(self.occupied(s));
                assert(self.placed(s));
            }
        }
        assert(next.free_ok()) by {
            assert forall|s: usize|
                s < next.order_pool@.len() && !(#[trigger] next.occupied(s)) implies next.free_list@.contains(
                s,
            ) by {
                assert(!self.occupied(s));
                assert(self.free_list@.contains(s));
                let k = choose|k: int| 0 <= k < self.free_list@.len() && self.free_list@[k] == s;
                assert(next.free_list@[k] == s);
            }
        }
        assert(next@ =~= ladder_append(self@, price, entry)) by {
            if had {
                assert(next.queue_view(price) =~= self.queue_view(price).push(entry));
            }
        }
        assert(next.slots() =~= self.slots().insert(slot, order_id));
    }

    /// Takes the order in `slot` out of its queue and frees the slot. The
    /// neighbours are linked to each other, the level loses the order's
    /// remaining quantity, and a level that becomes empty leaves the map.
    /// Returns the node that was in the slot.
    pub fn unlink(&mut self, slot: usize) -> (node: OrderNode)
        requires
            old(self).wf(),
            old(self).occupied(slot),
        ensures
            final(self).wf(),
            node == old(self).node(slot),
            final(self)@ == ladder_remove(old(self)@, node.market_limit, old(self).position(slot)),
            final(self).slots() == old(self).slots().remove(slot),
            final(self).free_list@ == old(self).free_list@.push(slot),
            final(self).order_pool@.len() == old(self).order_pool@.len(),
    {
        let node = self.order_pool[slot].unwrap();
        let price = node.market_limit;
        let ghost q = self.queues@[price];
        let ghost pos = self.ranks@[slot];
        proof {
            assert(self.placed(slot));
            assert(self.level_ok(price));
            assert(self.linked(price, pos));
            if pos > 0 {
                assert(self.linked(price, pos - 1));
            }
            if pos + 1 < q.len() {
                assert(self.linked(price, pos + 1));
            }
            assert(self.linked(price, 0));
            assert(self.linked(price, q.len() - 1));
            lemma_queue_total_remove(self.queue_view(price), pos);
            lemma_queue_total_nonneg(self.queue_view(price).remove(pos));
        }
        let level: PriceLevel = match self.price_map.get(&price) {
            Some(l) => *l,
            None => PriceLevel { head: slot, tail: slot, order_count: 1, total_quantity: 0 },
        };
        if let Some(before) = node.prev {
            let mut n = self.order_pool[before].unwrap();
            n.next = node.next;
            self.order_pool[before] = Some(n);
        }
        if let Some(after) = node.next {
            let mut n = self.order_pool[after].unwrap();
            n.prev = node.prev;
            self.order_pool[after] = Some(n);
        }
        if level.order_count == 1 {
            self.price_map.remove(&price);
        } else {
            let head = if level.head == slot {
                node.next.unwrap()
            } else {
                level.head
            };
            let tail = if level.tail == slot {
                node.prev.unwrap()
            } else {
                level.tail
            };
            self.price_map.insert(
                price,
                PriceLevel {
                    head,
                    tail,
                    order_count: level.order_count - 1,
                    total_quantity: level.total_quantity - node.current_quantity,
                },
            );
        }
        self.order_pool[slot] = None;
        self.free_list.push(slot);
        proof {
            let old_ranks = self.ranks@;
            let before = *old(self);
            self.queues@ = if q.len() == 1 {
                self.queues@.remove(price)
            } else {
                self.queues@.insert(price, q.remove(pos))
            };
            self.ranks@ = Map::new(
                |s: usize| true,
                |s: usize|
                    if before.occupied(s) && before.node(s).market_limit == price && old_ranks[s]
                        > pos {
                        old_ranks[s] - 1
                    } else {
                        old_ranks[s]
                    },
            );
            old(self).lemma_unlinked(self, slot);
        }
        node
    }

    /// The state that `unlink` builds is consistent and lacks exactly the
    /// order that was in `slot`.
    proof fn lemma_unlinked(&self, next: &HalfBook, slot: usize)
        requires
            self.wf(),
            self.occupied(slot),
            next.order_ids@ == self.order_ids@,
            next.order_pool@.len() == self.order_pool@.len(),
            next.free_list@ == self.free_list@.push(slot),
            !next.occupied(slot),
            forall|s: usize|
                s < self.order_pool@.len() && s != slot && self.node(slot).prev != Some(s)
                    && self.node(slot).next != Some(s) ==> next.order_pool@[s as int]
                    == self.order_pool@[s as int],
            self.node(slot).prev matches Some(b) ==> next.occupied(b) && next.node(b) == (OrderNode {
                next: self.node(slot).next,
                ..self.node(b)
            }),
            self.node(slot).next matches Some(a) ==> next.occupied(a) && next.node(a) == (OrderNode {
                prev: self.node(slot).prev,
                ..self.node(a)
            }),
            ({
                let price = self.node(slot).market_limit;
                let level = self.price_map@[price];
                let q = self.queues@[price];
                let pos = self.ranks@[slot];
                &&& next.price_map@ == (if q.len() == 1 {
                    self.price_map@.remove(price)
                } else {
                    self.price_map@.insert(
                        price,
                        PriceLevel {
                            head: if level.head == slot {
                                self.node(slot).next->0
                            } else {
                                level.head
                            },
                            tail: if level.tail == slot {
                                self.node(slot).prev->0
                            } else {
                                level.tail
                            },
                            order_count: (level.order_count - 1) as u32,
                            total_quantity: (level.total_quantity - self.node(
                                slot,
                            ).current_quantity) as u32,
                        },
                    )
                })
                &&& next.queues@ == (if q.len() == 1 {
                    self.queues@.remove(price)
                } else {
                    self.queues@.insert(price, q.remove(pos))
                })
                &&& forall|s: usize|
                    next.ranks@[s] == (if self.occupied(s) && self.node(s).market_limit == price
                        && self.ranks@[s] > pos {
                        self.ranks@[s] - 1
                    } else {
                        self.ranks@[s]
                    })
            }),
        ensures
            next.wf(),
            next@ == ladder_remove(self@, self.node(slot).market_limit, self.position(slot)),
            next.slots() == self.slots().remove(slot),
    {
        let price = self.node(slot).market_limit;
        let q = self.queues@[price];
        let pos = self.ranks@[slot];
        let gone = self.node(slot);
        assert(self.placed(slot));
        assert(self.level_ok(price));
        assert(self.linked(price, pos));
        if pos > 0 {
            assert(self.linked(price, pos - 1));
        }
        if pos + 1 < q.len() {
            assert(self.linked(price, pos + 1));
        }
        assert(self.linked(price, 0));
        assert(self.linked(price, q.len() - 1));
        q.remove_ensures(pos);
        // What the model reads of the other slots of a queue is unchanged.
        assert forall|p: u32, j: int|
            #![trigger self.queues@[p][j]]
            self.queues@.contains_key(p) && 0 <= j < self.queues@[p].len() && !(p == price && j
                == pos) implies {
                let s = self.queues@[p][j];
                &&& s != slot
                &&& next.occupied(s)
                &&& next.resting(s) == self.resting(s)
                &&& next.node(s).market_limit == p
                &&& next.node(s).current_quantity > 0
                &&& (!(p == price && j == pos + 1) ==> next.node(s).prev == self.node(s).prev)
                &&& (p == price && j == pos + 1 ==> next.node(s).prev == gone.prev)
                &&& (!(p == price && j == pos - 1) ==> next.node(s).next == self.node(s).next)
                &&& (p == price && j == pos - 1 ==> next.node(s).next == gone.next)
                &&& next.ranks@[s] == (if p == price && j > pos {
                    j - 1
                } else {
                    j
                })
            } by {
            assert(self.linked(p, j));
        }
        lemma_queue_total_remove(self.queue_view(price), pos);
        lemma_queue_total_nonneg(self.queue_view(price).remove(pos));
        assert(self.queue_view(price)[pos].current_quantity == gone.current_quantity);
        assert forall|p: u32| next.queues@.contains_key(p) && p != price implies next.queue_view(p)
            == self.queue_view(p) by {
            assert(next.queue_view(p) =~= self.queue_view(p));
        }
        if q.len() > 1 {
            assert(next.queue_view(price) =~= self.queue_view(price).remove(pos)) by {
                self.queue_view(price).remove_ensures(pos);
            }
        }
        assert forall|p: u32| next.queues@.contains_key(p) implies #[trigger] next.level_ok(p) by {
            if p != price {
                assert(self.level_ok(p));
                assert(next.queue_view(p) == self.queue_view(p));
            }
        }
        assert forall|p: u32, j: int|
            next.queues@.contains_key(p) && 0 <= j < next.queues@[p].len() implies #[trigger] next.linked(
            p,
            j,
        ) by {
            if p != price {
                assert(self.linked(p, j));
            } else if j < pos {
                assert(self.linked(p, j));
            } else {
                assert(self.linked(p, j + 1));
            }
        }
        assert forall|s: usize| next.occupied(s) implies #[trigger] next.placed(s) by {
            assert(self.occupied(s));
            assert(self.placed(s));
            let p = self.node(s).market_limit;
            assert(self.linked(p, self.ranks@[s]));
        }
        assert(next.free_ok()) by {
            assert forall|k: int| 0 <= k < next.free_list@.len() implies {
                &&& (#[trigger] next.free_list@[k]) < next.order_pool@.len()
                &&& next.order_pool@[next.free_list@[k] as int] is None
            } by {
                if k < self.free_list@.len() {
                    let s = self.free_list@[k];
                    assert(!self.occupied(s));
                }
            }
            assert forall|s: usize|
                s < next.order_pool@.len() && !(#[trigger] next.occupied(s)) implies next.free_list@.contains(
                s,
            ) by {
                if s == slot {
                    assert(next.free_list@[self.free_list@.len() as int] == s);
                } else {
                    assert(!self.occupied(s));
                    assert(self.free_list@.contains(s));
                    let k = choose|k: int| 0 <= k < self.free_list@.len() && self.free_list@[k] == s;
                    assert(next.free_list@[k] == s);
                }
            }
            assert(next.free_list@.no_duplicates()) by {
                assert forall|i: int, j: int|
                    0 <= i < next.free_list@.len() && 0 <= j < next.free_list@.len() && i
                        != j implies next.free_list@[i] != next.free_list@[j] by {
                    if i < self.free_list@.len() {
                        assert(!self.occupied(self.free_list@[i]));
                    }
                    if j < self.free_list@.len() {
                        assert(!self.occupied(self.free_list@[j]));
                    }
                }
            }
        }
        assert(next@ =~= ladder_remove(self@, price, pos));
        assert(next.slots() =~= self.slots().remove(slot));
    }

    /// Records the order in `slot` with the size `initial` and leaves it
    /// `current` to trade, which is no more than it had. Its place in the
    /// queue is kept.
    fn resize(&mut self, slot: usize, initial: u32, current: u32)
        requires
            old(self).wf(),
            old(self).occupied(slot),
            0 < current <= old(self).node(slot).current_quantity,
        ensures
            final(self).wf(),
            final(self)@ == ladder_resize(
                old(self)@,
                old(self).node(slot).market_limit,
                old(self).position(slot),
                initial,
                current,
            ),
            final(self).slots() == old(self).slots(),
            final(self).free_list@ == old(self).free_list@,
            final(self).order_pool@.len() == old(self).order_pool@.len(),
            final(self).occupied(slot),
            final(self).node(slot) == (OrderNode {
                initial_quantity: initial,
                current_quantity: current,
                ..old(self).node(slot)
            }),
            final(self).position(slot) == old(self).position(slot),
    {
        let mut node = self.order_pool[slot].unwrap();
        let price = node.market_limit;
        let ghost pos = self.ranks@[slot];
        let ghost entry = RestingOrder {
            initial_quantity: initial,
            current_quantity: current,
            ..self.resting(slot)
        };
        proof {
            assert(self.placed(slot));
            assert(self.level_ok(price));
            assert(self.linked(price, pos));
            lemma_queue_total_update(self.queue_view(price), pos, entry);
            lemma_queue_total_nonneg(self.queue_view(price).update(pos, entry));
        }
        let level: PriceLevel = match self.price_map.get(&price) {
            Some(l) => *l,
            None => PriceLevel { head: slot, tail: slot, order_count: 1, total_quantity: 0 },
        };
        let released: u32 = node.current_quantity - current;
        node.initial_quantity = initial;
        node.current_quantity = current;
        self.order_pool[slot] = Some(node);
        self.price_map.insert(
            price,
            PriceLevel {
                head: level.head,
                tail: level.tail,
                order_count: level.order_count,
                total_quantity: level.total_quantity - released,
            },
        );
        proof {
            let before = *old(self);
            assert forall|p: u32, j: int|
                #![trigger before.queues@[p][j]]
                before.queues@.contains_key(p) && 0 <= j < before.queues@[p].len() && !(p == price
                    && j == pos) implies {
                    let s = before.queues@[p][j];
                    &&& s != slot
                    &&& self.resting(s) == before.resting(s)
                } by {
                assert(before.linked(p, j));
            }
            assert(self.queue_view(price) =~= before.queue_view(price).update(pos, entry));
            assert forall|p: u32| self.queues@.contains_key(p) implies #[trigger] self.level_ok(
                p,
            ) by {
                assert(before.level_ok(p));
                if p != price {
                    assert(self.queue_view(p) =~= before.queue_view(p));
                }
            }
            assert forall|p: u32, j: int|
                self.queues@.contains_key(p) && 0 <= j < self.queues@[p].len() implies #[trigger] self.linked(
                p,
                j,
            ) by {
                assert(before.linked(p, j));
            }
            assert forall|s: usize| self.occupied(s) implies #[trigger] self.placed(s) by {
                assert(before.occupied(s));
                assert(before.placed(s));
            }
            assert(self.free_ok()) by {
                assert forall|s: usize|
                    s < self.order_pool@.len() && !(#[trigger] self.occupied(s)) implies self.free_list@.contains(
                    s,
                ) by {
                    assert(!before.occupied(s));
                }
            }
            assert forall|p: u32| self.queues@.contains_key(p) && p != price implies self.queue_view(
                p,
            ) == before.queue_view(p) by {
                assert(self.queue_view(p) =~= before.queue_view(p));
            }
            assert(before.queue_view(price)[pos] == before.resting(slot));
            assert(self@[price] == before@[price].update(pos, entry));
            assert(self@ =~= ladder_resize(before@, price, pos, initial, current));
            assert(self.slots() =~= before.slots());
        }
    }

    /// Records the order in `slot` with the size `new_quantity`; what it has
    /// left to trade is capped by that size. The order keeps its place in the
    /// queue of its price.
    pub fn reduce(&mut self, slot: usize, new_quantity: u32)
        requires
            old(self).wf(),
            old(self).occupied(slot),
            new_quantity > 0,
        ensures
            final(self).wf(),
            final(self)@ == ladder_resize(
                old(self)@,
                old(self).node(slot).market_limit,
                old(self).position(slot),
                new_quantity,
                if old(self).node(slot).current_quantity <= new_quantity {
                    old(self).node(slot).current_quantity
                } else {
                    new_quantity
                },
            ),
            final(self).slots() == old(self).slots(),
            final(self).free_list@ == old(self).free_list@,
            final(self).order_pool@.len() == old(self).order_pool@.len(),
            final(self).position(slot) == old(self).position(slot),
    {
        let node = self.order_pool[slot].unwrap();
        proof {
            assert(self.placed(slot));
            assert(self.linked(node.market_limit, self.ranks@[slot]));
        }
        let current: u32 = if node.current_quantity <= new_quantity {
            node.current_quantity
        } else {
            new_quantity
        };
        self.resize(slot, new_quantity, current);
    }

    /// Trades `quantity` against the order at the head of the queue at
    /// `price`. If `quantity` covers what the order has left, the order is
    /// used up and leaves the book; otherwise it keeps the difference.
    pub fn take(&mut self, price: u32, quantity: u32) -> (taken: Taken)
        requires
            old(self).wf(),
            old(self)@.contains_key(price),
        ensures
            final(self).wf(),
            old(self)@[price].len() > 0,
            ({
                let maker = old(self)@[price][0];
                &&& maker.current_quantity > 0
                &&& old(self).slots().contains_pair(maker.slot, maker.order_id)
                &&& taken.maker_order_id == maker.order_id
                &&& taken.slot == maker.slot
                &&& taken.exhausted == (quantity >= maker.current_quantity)
                &&& taken.quantity == if taken.exhausted {
                    maker.current_quantity
                } else {
                    quantity
                }
                &&& final(self)@ == if taken.exhausted {
                    ladder_remove(old(self)@, price, 0)
                } else {
                    ladder_resize(
                        old(self)@,
                        price,
                        0,
                        maker.initial_quantity,
                        (maker.current_quantity - quantity) as u32,
                    )
                }
                &&& final(self).slots() == if taken.exhausted {
                    old(self).slots().remove(maker.slot)
                } else {
                    old(self).slots()
                }
                &&& final(self).free_list@ == if taken.exhausted {
                    old(self).free_list@.push(maker.slot)
                } else {
                    old(self).free_list@
                }
                &&& final(self).order_pool@.len() == old(self).order_pool@.len()
            }),
    {
        proof {
            assert(self.level_ok(price));
            assert(self.linked(price, 0));
        }
        let level: PriceLevel = match self.price_map.get(&price) {
            Some(l) => *l,
            None => PriceLevel { head: 0, tail: 0, order_count: 1, total_quantity: 0 },
        };
        let slot = level.head;
        let node = self.order_pool[slot].unwrap();
        let maker_order_id = self.order_ids[slot];
        if quantity >= node.current_quantity {
            self.unlink(slot);
            Taken { maker_order_id, slot, quantity: node.current_quantity, exhausted: true }
        } else {
            self.resize(slot, node.initial_quantity, node.current_quantity - quantity);
            Taken { maker_order_id, slot, quantity, exhausted: false }
        }
    }

    /// The best price of the half-book: the lowest one if `lowest`, the
    /// highest one otherwise; nothing if no order rests.
    pub fn best(&self, lowest: bool) -> (r: Option<u32>)
        requires
            self.wf(),
        ensures
            r == best_price(self@, lowest),
            r matches Some(p) ==> is_best(self@, p, lowest),
            r is None ==> self@ == Map::<u32, Seq<RestingOrder>>::empty(),
    {
        let r = if lowest {
            first_price(&self.price_map)
        } else {
            last_price(&self.price_map)
        };
        proof {
            match r {
                Some(p) => {
                    assert(self.queues@.contains_key(p));
                    assert(is_best(self@, p, lowest)) by {
                        assert forall|other: u32| #[trigger]
                            self@.contains_key(other) implies if lowest {
                            p <= other
                        } else {
                            p >= other
                        } by {
                            assert(self.price_map@.contains_key(other));
                        }
                    }
                    let c = choose|c: u32| is_best(self@, c, lowest);
                    assert(self@.contains_key(c));
                    assert(self@.contains_key(p));
                },
                None => {
                    assert forall|c: u32| !is_best(self@, c, lowest) by {
                        if self@.contains_key(c) {
                            assert(self.price_map@.contains_key(c));
                        }
                    }
                    assert forall|c: u32| !self@.contains_key(c) by {
                        if self@.contains_key(c) {
                            assert(self.price_map@.contains_key(c));
                        }
                    }
                    assert(self@ =~= Map::<u32, Seq<RestingOrder>>::empty());
                },
            }
        }
        r
    }

    /// Every level of the half-book, lowest price first.
    fn levels_ascending(&self) -> (all: Vec<PriceLevelDepth>)
        requires
            self.wf(),
        ensures
            all@.len() == self@.dom().len(),
            lists_prices(all@.map_values(|l: PriceLevelDepth| l.price_level), self@, true),
            forall|i: int|
                0 <= i < all@.len() ==> #[trigger] all@[i] == depth_line(self@, all@[i].price_level),
    {
        let mut all: Vec<PriceLevelDepth> = Vec::new();
        let ghost entries = self.price_map.iter().remaining();
        let ghost keys = entries.map_values(|kv: (&u32, &PriceLevel)| *kv.0);
        for kv in it: self.price_map.iter()
            invariant
                it.seq() == entries,
                entries == self.price_map.iter().remaining(),
                keys == entries.map_values(|kv: (&u32, &PriceLevel)| *kv.0),
                increasing_seq(keys),
                all@.len() == it.index(),
                forall|i: int|
                    0 <= i < all@.len() ==> #[trigger] all@[i] == (PriceLevelDepth {
                        price_level: *entries[i].0,
                        quantity: entries[i].1.total_quantity,
                    }),
        {
            all.push(PriceLevelDepth { price_level: *kv.0, quantity: kv.1.total_quantity });
        }
        proof {
            broadcast use vstd::std_specs::btree::group_btree_axioms;

            let prices = all@.map_values(|l: PriceLevelDepth| l.price_level);
            assert(prices =~= keys);
            lemma_increasing_prices(keys);
            assert(self@.dom() =~= self.price_map@.dom());
            assert forall|i: int| 0 <= i < prices.len() implies self@.contains_key(
                #[trigger] prices[i],
            ) by {
                assert(self.price_map@.contains_key(*entries[i].0));
            }
            assert forall|p: u32| #[trigger] self@.contains_key(p) implies prices.contains(p) by {
                assert(self.price_map@.contains_key(p));
                let pair = (&p, &self.price_map@[p]);
                assert(entries.contains(pair));
                let i = choose|i: int| 0 <= i < entries.len() && entries[i] == pair;
                assert(prices[i] == p);
            }
            assert forall|i: int| 0 <= i < all@.len() implies #[trigger] all@[i] == depth_line(
                self@,
                all@[i].price_level,
            ) by {
                let p = *entries[i].0;
                assert(self.price_map@.contains_key(p));
                assert(self.price_map@[p] == *entries[i].1);
                assert(self.level_ok(p));
            }
        }
        all
    }

    /// The depth of the half-book: one line for each price, best price first
    /// (the lowest one if `lowest`, the highest one otherwise), with the
    /// total quantity that rests at it; at most `levels_count` lines if a
    /// number is given.
    pub fn depth(&self, lowest: bool, levels_count: Option<usize>) -> (lines: Vec<PriceLevelDepth>)
        requires
            self.wf(),
        ensures
            lines@ == depth_of(self@, lowest, levels_count),
    {
        let all = self.levels_ascending();
        let total: usize = all.len();
        let count: usize = match levels_count {
            Some(n) => if n < total {
                n
            } else {
                total
            },
            None => total,
        };
        let ghost prices = Seq::new(
            total as nat,
            |k: int|
                if lowest {
                    all@[k].price_level
                } else {
                    all@[total - 1 - k].price_level
                },
        );
        let mut lines: Vec<PriceLevelDepth> = Vec::new();
        let mut i: usize = 0;
        while i < count
            invariant
                i <= count <= total,
                total == all@.len(),
                lines@.len() == i,
                forall|k: int|
                    0 <= k < i ==> #[trigger] lines@[k] == if lowest {
                        all@[k]
                    } else {
                        all@[total - 1 - k]
                    },
            decreases count - i,
        {
            let line = if lowest {
                all[i]
            } else {
                all[total - 1 - i]
            };
            lines.push(line);
            i += 1;
        }
        proof {
            let ascending = all@.map_values(|l: PriceLevelDepth| l.price_level);
            assert(lists_prices(prices, self@, lowest)) by {
                assert forall|p: u32| #[trigger] self@.contains_key(p) implies prices.contains(
                    p,
                ) by {
                    assert(ascending.contains(p));
                    let j = choose|j: int| 0 <= j < ascending.len() && ascending[j] == p;
                    if lowest {
                        assert(prices[j] == p);
                    } else {
                        assert(prices[total - 1 - j] == p);
                    }
                }
                assert forall|a: int, b: int| 0 <= a < b < prices.len() implies if lowest {
                    prices[a] < prices[b]
                } else {
                    prices[a] > prices[b]
                } by {
                    if lowest {
                        assert(ascending[a] < ascending[b]);
                    } else {
                        assert(ascending[total - 1 - b] < ascending[total - 1 - a]);
                    }
                }
                assert forall|k: int| 0 <= k < prices.len() implies self@.contains_key(
                    #[trigger] prices[k],
                ) by {
                    if lowest {
                        assert(self@.contains_key(ascending[k]));
                    } else {
                        assert(self@.contains_key(ascending[total - 1 - k]));
                    }
                }
            }
            let asked: nat = match levels_count {
                Some(n) => n as nat,
                None => self@.dom().len(),
            };
            lemma_depth_lines(prices, self@, lowest, asked);
            assert(lines@ =~= depth_of(self@, lowest, levels_count));
        }
        lines
    }

    /// Whether `slot` holds the order `order_id`.
    pub fn holds_order(&self, order_id: u128, slot: usize) -> (r: bool)
        requires
            self.wf(),
        ensures
            r == self.slots().contains_pair(slot, order_id),
    {
        slot < self.order_pool.len() && self.order_pool[slot].is_some() && self.order_ids[slot]
            == order_id
    }

    /// Every entry of the model is an order of the arena: its slot is
    /// occupied by the order with its id and its quantities, which has
    /// something left, rests at the entry's price and has the entry's
    /// position.
    pub proof fn lemma_entry(&self, price: u32, pos: int)
        requires
            self.wf(),
            self@.contains_key(price),
            0 <= pos < self@[price].len(),
        ensures
            self.occupied(self@[price][pos].slot),
            self@[price][pos] == self.resting(self@[price][pos].slot),
            self@[price][pos].current_quantity > 0,
            self.node(self@[price][pos].slot).market_limit == price,
            self.position(self@[price][pos].slot) == pos,
            self.chain(price)[pos] == self@[price][pos].slot,
            self.chain(price).len() == self@[price].len(),
    {
        assert(self.linked(price, pos));
    }

    /// An occupied slot is where its rank says: in the queue of its price, at
    /// its position.
    pub proof fn lemma_position(&self, slot: usize)
        requires
            self.wf(),
            self.occupied(slot),
        ensures
            self@.contains_key(self.node(slot).market_limit),
            0 <= self.position(slot) < self@[self.node(slot).market_limit].len(),
            self@[self.node(slot).market_limit][self.position(slot)] == self.resting(slot),
            self.chain(self.node(slot).market_limit)[self.position(slot)] == slot,
    {
        assert(self.placed(slot));
    }

    /// The queue of a level is the chain of its nodes: it has `order_count`
    /// nodes, none twice, starts at `head` and ends at `tail`; each node's
    /// `next` is the node after it and each node's `prev` the node before
    /// it, so that walking `next` from the head ends at the tail after
    /// `order_count` nodes and walking `prev` from the tail is the reverse;
    /// and `total_quantity` is the sum of what the nodes have left.
    pub proof fn lemma_level_chain(&self, price: u32)
        requires
            self.wf(),
            self.price_map@.contains_key(price),
        ensures
            ({
                let chain = self.chain(price);
                let level = self.price_map@[price];
                &&& chain.len() == level.order_count
                &&& chain.len() >= 1
                &&& chain[0] == level.head
                &&& chain[chain.len() - 1] == level.tail
                &&& chain.no_duplicates()
                &&& forall|j: int|
                    0 <= j < chain.len() ==> {
                        &&& self.occupied(#[trigger] chain[j])
                        &&& self.node(chain[j]).market_limit == price
                        &&& self.node(chain[j]).current_quantity > 0
                        &&& self.node(chain[j]).next == if j + 1 < chain.len() {
                            Some(chain[j + 1])
                        } else {
                            None
                        }
                        &&& self.node(chain[j]).prev == if j > 0 {
                            Some(chain[j - 1])
                        } else {
                            None
                        }
                    }
                &&& self@.contains_key(price)
                &&& self@[price].len() == chain.len()
                &&& forall|j: int|
                    0 <= j < chain.len() ==> #[trigger] self@[price][j] == self.resting(chain[j])
                &&& level.total_quantity == queue_total(self@[price])
            }),
    {
        let chain = self.chain(price);
        assert(self.queues@.contains_key(price));
        assert(self.level_ok(price));
        assert forall|j: int| 0 <= j < chain.len() implies {
            &&& self.occupied(#[trigger] chain[j])
            &&& self.node(chain[j]).market_limit == price
            &&& self.node(chain[j]).current_quantity > 0
            &&& self.node(chain[j]).next == if j + 1 < chain.len() {
                Some(chain[j + 1])
            } else {
                None
            }
            &&& self.node(chain[j]).prev == if j > 0 {
                Some(chain[j - 1])
            } else {
                None
            }
        } by {
            assert(self.linked(price, j));
        }
        assert forall|i: int, j: int|
            0 <= i < chain.len() && 0 <= j < chain.len() && i != j implies chain[i]
            != chain[j] by {
            assert(self.linked(price, i));
            assert(self.linked(price, j));
        }
    }

    /// Every slot of the arena either holds an order or is in the free-list,
    /// never both, and no slot is in the free-list twice.
    pub proof fn lemma_free_or_occupied(&self, slot: usize)
        requires
            self.wf(),
            slot < self.order_pool@.len(),
        ensures
            self.occupied(slot) <==> !self.free_list@.contains(slot),
            self.free_list@.no_duplicates(),
            forall|k: int|
                0 <= k < self.free_list@.len() ==> (#[trigger] self.free_list@[k])
                    < self.order_pool@.len(),
    {
        if self.free_list@.contains(slot) {
            let k = choose|k: int| 0 <= k < self.free_list@.len() && self.free_list@[k] == slot;
            assert(self.free_list@[k] == slot);
        }
    }

    /// The model of a consistent half-book has no empty queue and no order
    /// with nothing left.
    pub proof fn lemma_view_ok(&self)
        requires
            self.wf(),
        ensures
            ladder_ok(self@),
    {
        assert forall|p: u32| #[trigger] self@.contains_key(p) implies self@[p].len() > 0
            && forall|j: int|
            0 <= j < self@[p].len() ==> (#[trigger] self@[p][j]).current_quantity > 0 by {
            assert(self.level_ok(p));
            assert forall|j: int| 0 <= j < self@[p].len() implies (
            #[trigger] self@[p][j]).current_quantity > 0 by {
                assert(self.linked(p, j));
            }
        }
    }

    /// The aggregates of every level fit in 32 bits, and no level is empty.
    pub proof fn lemma_level_bounds(&self, price: u32)
        requires
            self.wf(),
            self@.contains_key(price),
        ensures
            1 <= self@[price].len() <= u32::MAX,
            0 < queue_total(self@[price]) <= u32::MAX,
            self.price_map@.contains_key(price),
            self.price_map@[price].order_count == self@[price].len(),
            self.price_map@[price].total_quantity == queue_total(self@[price]),
    {
        assert(self.level_ok(price));
        assert(self.linked(price, 0));
        lemma_queue_total_remove(self@[price], 0);
        lemma_queue_total_nonneg(self@[price].remove(0));
    }
}

} // verus!
