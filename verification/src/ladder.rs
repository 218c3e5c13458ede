//! The mathematical model of one side of a book, and of matching against it.
//!
//! A ladder takes each price at which orders rest to the queue of those
//! orders, earliest arrival first. The functions here say what appending,
//! removing, editing, matching and listing do to a ladder; the lemmas state
//! what follows: time priority, conservation of quantity, and how the depth
//! relates to the sorted prices.

use crate::types::{Fill, PriceLevelDepth};
use vstd::prelude::*;

verus! {

/// A resting order as the model sees it.
pub struct RestingOrder {
    pub order_id: u128,
    /// The arena slot that holds the order.
    pub slot: usize,
    pub initial_quantity: u32,
    pub current_quantity: u32,
}

/// One side of a book: each price at which orders rest, with the queue of
/// those orders, earliest arrival first.
pub type Ladder = Map<u32, Seq<RestingOrder>>;

/// The model of the book of one security: its two sides.
pub struct BookView {
    pub bids: Ladder,
    pub asks: Ladder,
}

/// Every queue of the ladder has an order, and every order has something
/// left to trade.
pub open spec fn ladder_ok(ladder: Ladder) -> bool {
    forall|p: u32| #[trigger]
        ladder.contains_key(p) ==> ladder[p].len() > 0 && forall|j: int|
            0 <= j < ladder[p].len() ==> (#[trigger] ladder[p][j]).current_quantity > 0
}

/// The sum of the remaining quantities of a queue.
pub open spec fn queue_total(queue: Seq<RestingOrder>) -> int
    decreases queue.len(),
{
    if queue.len() == 0 {
        0
    } else {
        queue_total(queue.drop_last()) + queue.last().current_quantity
    }
}

/// Whether the queue at `price` cannot take `quantity` more: its total, or
/// the number of its orders, would no longer fit in 32 bits.
pub open spec fn level_full(ladder: Ladder, price: u32, quantity: u32) -> bool {
    ladder.contains_key(price) && (queue_total(ladder[price]) + quantity > u32::MAX
        || ladder[price].len() >= u32::MAX)
}

/// The ladder with `order` at the back of the queue at `price`.
pub open spec fn ladder_append(ladder: Ladder, price: u32, order: RestingOrder) -> Ladder {
    if ladder.contains_key(price) {
        ladder.insert(price, ladder[price].push(order))
    } else {
        ladder.insert(price, seq![order])
    }
}

/// The ladder without the order at position `pos` of the queue at `price`;
/// a queue that becomes empty leaves the ladder.
pub open spec fn ladder_remove(ladder: Ladder, price: u32, pos: int) -> Ladder {
    if ladder[price].len() <= 1 {
        ladder.remove(price)
    } else {
        ladder.insert(price, ladder[price].remove(pos))
    }
}

/// The ladder in which the order at position `pos` of the queue at `price`
/// has `current` left and is recorded with the size `initial`.
pub open spec fn ladder_resize(ladder: Ladder, price: u32, pos: int, initial: u32, current: u32) -> Ladder {
    ladder.insert(
        price,
        ladder[price].update(
            pos,
            RestingOrder { initial_quantity: initial, current_quantity: current, ..ladder[price][pos] },
        ),
    )
}

/// `price` is the best price of the ladder: the lowest one if `lowest`, the
/// highest one otherwise.
pub open spec fn is_best(ladder: Ladder, price: u32, lowest: bool) -> bool {
    &&& ladder.contains_key(price)
    &&& forall|other: u32| #[trigger]
        ladder.contains_key(other) ==> if lowest {
            price <= other
        } else {
            price >= other
        }
}

/// The best price of the ladder, if it has any price.
pub open spec fn best_price(ladder: Ladder, lowest: bool) -> Option<u32> {
    if exists|p: u32| is_best(ladder, p, lowest) {
        Some(choose|p: u32| is_best(ladder, p, lowest))
    } else {
        None
    }
}

/// Whether an incoming order may trade at `best`, the best price of the
/// opposite side: a buyer with a limit pays no more than it, a seller with a
/// limit takes no less; without a limit every price is acceptable.
pub open spec fn price_acceptable(taker_is_buy: bool, limit: Option<u32>, best: u32) -> bool {
    match limit {
        None => true,
        Some(p) => if taker_is_buy {
            p >= best
        } else {
            p <= best
        },
    }
}

/// Tells whether an incoming order may trade at `best`.
pub fn accepts_price(taker_is_buy: bool, limit: Option<u32>, best: u32) -> (r: bool)
    ensures
        r == price_acceptable(taker_is_buy, limit, best),
{
    match limit {
        None => true,
        Some(p) => if taker_is_buy {
            p >= best
        } else {
            p <= best
        },
    }
}

/// An incoming order's parameters, as matching needs them.
pub struct Taker {
    pub order_id: u128,
    pub is_buy: bool,
    pub limit: Option<u32>,
}

/// The result of matching: the opposite ladder afterwards, the executions in
/// the order in which they happened, the quantity that found no
/// counterparty, and the slots of the orders that were used up, in the order
/// in which they were.
pub struct Matched {
    pub ladder: Ladder,
    pub fills: Seq<Fill>,
    pub remaining: u32,
    pub freed: Seq<usize>,
}

/// The execution of `quantity` against the resting order `maker`.
pub open spec fn fill_of(taker: Taker, maker: RestingOrder, price: u32, quantity: u32) -> Fill {
    Fill {
        maker_order_id: maker.order_id,
        taker_order_id: taker.order_id,
        price,
        quantity,
        taker_is_buy_side: taker.is_buy,
    }
}

/// Matching `quantity` of an incoming order against the opposite ladder:
/// while something is left, the ladder has a best price and the incoming
/// order accepts it, the order at the front of the best queue trades. It is
/// used up and leaves the ladder if the incoming quantity covers it;
/// otherwise it keeps the difference and matching ends.
pub open spec fn match_ladder(ladder: Ladder, taker: Taker, quantity: u32) -> Matched
    decreases quantity,
{
    let stop = Matched { ladder, fills: Seq::empty(), remaining: quantity, freed: Seq::empty() };
    match best_price(ladder, taker.is_buy) {
        None => stop,
        Some(price) => {
            let maker = ladder[price][0];
            if quantity == 0 || !price_acceptable(taker.is_buy, taker.limit, price)
                || maker.current_quantity == 0 {
                stop
            } else if quantity >= maker.current_quantity {
                let rest = match_ladder(
                    ladder_remove(ladder, price, 0),
                    taker,
                    (quantity - maker.current_quantity) as u32,
                );
                Matched {
                    ladder: rest.ladder,
                    fills: seq![fill_of(taker, maker, price, maker.current_quantity)] + rest.fills,
                    remaining: rest.remaining,
                    freed: seq![maker.slot] + rest.freed,
                }
            } else {
                Matched {
                    ladder: ladder_resize(
                        ladder,
                        price,
                        0,
                        maker.initial_quantity,
                        (maker.current_quantity - quantity) as u32,
                    ),
                    fills: seq![fill_of(taker, maker, price, quantity)],
                    remaining: 0,
                    freed: Seq::empty(),
                }
            }
        },
    }
}

/// The sum of the quantities of a sequence of executions.
pub open spec fn fills_total(fills: Seq<Fill>) -> int
    decreases fills.len(),
{
    if fills.len() == 0 {
        0
    } else {
        fills_total(fills.drop_last()) + fills.last().quantity
    }
}

/// The depth line of the queue at `price`: the price with the queue's total.
pub open spec fn depth_line(ladder: Ladder, price: u32) -> PriceLevelDepth {
    PriceLevelDepth { price_level: price, quantity: queue_total(ladder[price]) as u32 }
}

/// The depth lines of the first `count` prices of the ladder, best price
/// first; all of them if the ladder has fewer prices.
pub open spec fn depth_lines(ladder: Ladder, lowest: bool, count: nat) -> Seq<PriceLevelDepth>
    decreases count,
{
    match best_price(ladder, lowest) {
        None => Seq::empty(),
        Some(price) => if count == 0 {
            Seq::empty()
        } else {
            seq![depth_line(ladder, price)] + depth_lines(
                ladder.remove(price),
                lowest,
                (count - 1) as nat,
            )
        },
    }
}

/// The depth of a ladder, truncated to `levels` prices if a number is given.
pub open spec fn depth_of(ladder: Ladder, lowest: bool, levels: Option<usize>) -> Seq<
    PriceLevelDepth,
> {
    match levels {
        Some(n) => depth_lines(ladder, lowest, n as nat),
        None => depth_lines(ladder, lowest, ladder.dom().len()),
    }
}

/// `prices` lists every price of the ladder once, best price first.
pub open spec fn lists_prices(prices: Seq<u32>, ladder: Ladder, lowest: bool) -> bool {
    &&& forall|i: int| 0 <= i < prices.len() ==> ladder.contains_key(#[trigger] prices[i])
    &&& forall|p: u32| #[trigger] ladder.contains_key(p) ==> prices.contains(p)
    &&& forall|i: int, j: int|
        0 <= i < j < prices.len() ==> if lowest {
            prices[i] < prices[j]
        } else {
            prices[i] > prices[j]
        }
}

/// `after` is what trading at the front leaves of the queue `before`: some
/// orders at the front are gone, the first one that stays is the same order
/// with no more left than it had, and all behind it are untouched.
pub open spec fn queue_follows(after: Seq<RestingOrder>, before: Seq<RestingOrder>) -> bool {
    let gone = before.len() - after.len();
    &&& gone >= 0
    &&& forall|j: int|
        0 <= j < after.len() ==> {
            &&& (#[trigger] after[j]).order_id == before[j + gone].order_id
            &&& after[j].slot == before[j + gone].slot
            &&& after[j].initial_quantity == before[j + gone].initial_quantity
            &&& after[j].current_quantity <= before[j + gone].current_quantity
            &&& j > 0 ==> after[j] == before[j + gone]
        }
}

/// `after` is what trading leaves of the ladder `before`: no new price, and
/// at each price what trading at the front leaves of the queue.
pub open spec fn ladder_follows(after: Ladder, before: Ladder) -> bool {
    forall|p: u32| #[trigger]
        after.contains_key(p) ==> before.contains_key(p) && queue_follows(after[p], before[p])
}

/// A queue's total is the sum of what its orders have left, so it is never
/// negative.
pub proof fn lemma_queue_total_nonneg(queue: Seq<RestingOrder>)
    ensures
        queue_total(queue) >= 0,
    decreases queue.len(),
{
    if queue.len() > 0 {
        lemma_queue_total_nonneg(queue.drop_last());
    }
}

/// Taking one order out of a queue lowers its total by what that order had
/// left.
pub proof fn lemma_queue_total_remove(queue: Seq<RestingOrder>, pos: int)
    requires
        0 <= pos < queue.len(),
    ensures
        queue_total(queue.remove(pos)) == queue_total(queue) - queue[pos].current_quantity,
    decreases queue.len(),
{
    if pos == queue.len() - 1 {
        assert(queue.remove(pos) =~= queue.drop_last());
    } else {
        assert(queue.remove(pos).drop_last() =~= queue.drop_last().remove(pos));
        assert(queue.remove(pos).last() == queue.last());
        lemma_queue_total_remove(queue.drop_last(), pos);
    }
}

/// Replacing one order of a queue changes its total by the difference of
/// what the two orders have left.
pub proof fn lemma_queue_total_update(queue: Seq<RestingOrder>, pos: int, order: RestingOrder)
    requires
        0 <= pos < queue.len(),
    ensures
        queue_total(queue.update(pos, order)) == queue_total(queue) - queue[pos].current_quantity
            + order.current_quantity,
    decreases queue.len(),
{
    if pos == queue.len() - 1 {
        assert(queue.update(pos, order).drop_last() =~= queue.drop_last());
    } else {
        assert(queue.update(pos, order).drop_last() =~= queue.drop_last().update(pos, order));
        lemma_queue_total_update(queue.drop_last(), pos, order);
    }
}

/// A ladder has one best price at most.
pub proof fn lemma_best_unique(ladder: Ladder, price: u32, lowest: bool)
    requires
        is_best(ladder, price, lowest),
    ensures
        best_price(ladder, lowest) == Some(price),
{
    let c = choose|p: u32| is_best(ladder, p, lowest);
    assert(ladder.contains_key(c));
    assert(ladder.contains_key(price));
}

/// A ladder without prices has no best price.
pub proof fn lemma_best_of_empty(lowest: bool)
    ensures
        best_price(Map::<u32, Seq<RestingOrder>>::empty(), lowest) is None,
{
    let empty = Map::<u32, Seq<RestingOrder>>::empty();
    assert forall|p: u32| !is_best(empty, p, lowest) by {
        assert(!empty.contains_key(p));
    }
}

/// The best price of a ladder is the first one of a list of its prices that
/// starts at the best.
pub proof fn lemma_best_is_first(prices: Seq<u32>, ladder: Ladder, lowest: bool)
    requires
        lists_prices(prices, ladder, lowest),
    ensures
        best_price(ladder, lowest) == if prices.len() == 0 {
            None
        } else {
            Some(prices[0])
        },
{
    if prices.len() == 0 {
        assert forall|p: u32| !is_best(ladder, p, lowest) by {
            if ladder.contains_key(p) {
                assert(prices.contains(p));
            }
        }
    } else {
        assert(is_best(ladder, prices[0], lowest)) by {
            assert forall|other: u32| #[trigger] ladder.contains_key(other) implies if lowest {
                prices[0] <= other
            } else {
                prices[0] >= other
            } by {
                assert(prices.contains(other));
                let j = choose|j: int| 0 <= j < prices.len() && prices[j] == other;
                assert(prices[j] == other);
            }
        }
        let c = choose|p: u32| is_best(ladder, p, lowest);
        assert(ladder.contains_key(c));
        assert(ladder.contains_key(prices[0]));
    }
}

/// The depth of a ladder follows a list of its prices that starts at the
/// best: line `i` is that of the `i`-th price.
pub proof fn lemma_depth_lines(prices: Seq<u32>, ladder: Ladder, lowest: bool, count: nat)
    requires
        lists_prices(prices, ladder, lowest),
    ensures
        depth_lines(ladder, lowest, count).len() == if count <= prices.len() {
            count
        } else {
            prices.len()
        },
        forall|i: int|
            0 <= i < depth_lines(ladder, lowest, count).len() ==> #[trigger] depth_lines(
                ladder,
                lowest,
                count,
            )[i] == depth_line(ladder, prices[i]),
    decreases count,
{
    lemma_best_is_first(prices, ladder, lowest);
    if prices.len() > 0 && count > 0 {
        let rest = ladder.remove(prices[0]);
        let tail = prices.drop_first();
        assert(lists_prices(tail, rest, lowest)) by {
            assert forall|p: u32| #[trigger] rest.contains_key(p) implies tail.contains(p) by {
                assert(ladder.contains_key(p));
                assert(prices.contains(p));
                let j = choose|j: int| 0 <= j < prices.len() && prices[j] == p;
                assert(tail[j - 1] == p);
            }
            assert forall|i: int| 0 <= i < tail.len() implies rest.contains_key(
                #[trigger] tail[i],
            ) by {
                assert(tail[i] == prices[i + 1]);
            }
        }
        lemma_depth_lines(tail, rest, lowest, (count - 1) as nat);
        let lines = depth_lines(ladder, lowest, count);
        let more = depth_lines(rest, lowest, (count - 1) as nat);
        assert(lines == seq![depth_line(ladder, prices[0])] + more);
        assert forall|i: int| 0 <= i < lines.len() implies #[trigger] lines[i] == depth_line(
            ladder,
            prices[i],
        ) by {
            if i > 0 {
                assert(lines[i] == more[i - 1]);
                assert(tail[i - 1] == prices[i]);
                assert(more[i - 1] == depth_line(rest, tail[i - 1]));
            }
        }
    }
}

/// An order that comes to rest is the last of its queue: every order that
/// was there before keeps its position, which is smaller than the position
/// of the new order, and no other queue changes.
pub proof fn lemma_append_at_back(ladder: Ladder, price: u32, order: RestingOrder)
    ensures
        ({
            let grown = ladder_append(ladder, price, order);
            let before = if ladder.contains_key(price) {
                ladder[price].len()
            } else {
                0
            };
            &&& grown.contains_key(price)
            &&& grown[price].len() == before + 1
            &&& grown[price][before as int] == order
            &&& forall|j: int| 0 <= j < before ==> #[trigger] grown[price][j] == ladder[price][j]
            &&& forall|p: u32|
                p != price ==> (#[trigger] grown.contains_key(p) == ladder.contains_key(p))
                    && grown[p] == ladder[p]
        }),
{
}

/// Taking out the order that was appended last gives the ladder back.
pub proof fn lemma_append_then_remove(ladder: Ladder, price: u32, order: RestingOrder)
    requires
        ladder_ok(ladder),
    ensures
        ladder_remove(
            ladder_append(ladder, price, order),
            price,
            ladder_append(ladder, price, order)[price].len() - 1,
        ) == ladder,
{
    let grown = ladder_append(ladder, price, order);
    let back = ladder_remove(grown, price, grown[price].len() - 1);
    if ladder.contains_key(price) {
        assert(ladder[price].len() > 0);
        assert(ladder[price].push(order).remove(ladder[price].len() as int) =~= ladder[price]);
    }
    assert(back =~= ladder);
}

/// Time priority: matching takes orders from the front of a queue only.
/// At every price that is left, the orders that are left are the last ones
/// of the queue, in their order; an order that arrived earlier than one that
/// traded has been used up.
pub proof fn lemma_match_fifo(ladder: Ladder, taker: Taker, quantity: u32)
    requires
        ladder_ok(ladder),
    ensures
        ladder_follows(match_ladder(ladder, taker, quantity).ladder, ladder),
        ladder_ok(match_ladder(ladder, taker, quantity).ladder),
    decreases quantity,
{
    let m = match_ladder(ladder, taker, quantity);
    match best_price(ladder, taker.is_buy) {
        None => {},
        Some(price) => {
            let maker = ladder[price][0];
            if quantity == 0 || !price_acceptable(taker.is_buy, taker.limit, price)
                || maker.current_quantity == 0 {
            } else if quantity >= maker.current_quantity {
                let next = ladder_remove(ladder, price, 0);
                let left = (quantity - maker.current_quantity) as u32;
                assert(ladder.contains_key(price)) by {
                    let c = choose|p: u32| is_best(ladder, p, taker.is_buy);
                    assert(is_best(ladder, c, taker.is_buy));
                }
                assert(ladder_ok(next)) by {
                    assert forall|p: u32| #[trigger] next.contains_key(p) implies next[p].len() > 0
                        && forall|j: int|
                        0 <= j < next[p].len() ==> (#[trigger] next[p][j]).current_quantity
                            > 0 by {
                        assert(ladder.contains_key(p));
                        if p == price {
                            assert forall|j: int| 0 <= j < next[p].len() implies (
                            #[trigger] next[p][j]).current_quantity > 0 by {
                                assert(next[p][j] == ladder[p][j + 1]);
                            }
                        }
                    }
                }
                lemma_match_fifo(next, taker, left);
                assert forall|p: u32| #[trigger] m.ladder.contains_key(p) implies ladder.contains_key(
                    p,
                ) && queue_follows(m.ladder[p], ladder[p]) by {
                    assert(next.contains_key(p));
                    assert(queue_follows(m.ladder[p], next[p]));
                    if p == price {
                        let a = m.ladder[p];
                        let n = next[p];
                        let b = ladder[p];
                        assert(n == b.remove(0));
                        assert forall|j: int| 0 <= j < a.len() implies {
                            &&& (#[trigger] a[j]).order_id == b[j + (b.len() - a.len())].order_id
                            &&& a[j].slot == b[j + (b.len() - a.len())].slot
                            &&& a[j].initial_quantity == b[j + (b.len() - a.len())].initial_quantity
                            &&& a[j].current_quantity <= b[j + (b.len() - a.len())].current_quantity
                            &&& j > 0 ==> a[j] == b[j + (b.len() - a.len())]
                        } by {
                            assert(n[j + (n.len() - a.len())] == b[j + (b.len() - a.len())]);
                        }
                    }
                }
            } else {
                assert(ladder.contains_key(price)) by {
                    let c = choose|p: u32| is_best(ladder, p, taker.is_buy);
                    assert(is_best(ladder, c, taker.is_buy));
                }
                assert(m.ladder[price][0].order_id == maker.order_id);
                assert forall|p: u32| #[trigger] m.ladder.contains_key(p) implies ladder.contains_key(
                    p,
                ) && queue_follows(m.ladder[p], ladder[p]) && m.ladder[p].len() > 0 && forall|j: int|
                    0 <= j < m.ladder[p].len() ==> (#[trigger] m.ladder[p][j]).current_quantity
                        > 0 by {
                    assert(ladder.contains_key(p));
                    if p == price {
                        assert forall|j: int| 0 <= j < m.ladder[p].len() implies (
                        #[trigger] m.ladder[p][j]).current_quantity > 0 by {
                            if j > 0 {
                                assert(m.ladder[p][j] == ladder[p][j]);
                            }
                        }
                    }
                }
            }
        },
    }
}

/// The total of a sequence of executions that starts with `first` is the
/// quantity of `first` and the total of the others.
pub proof fn lemma_fills_total_prepend(first: Fill, others: Seq<Fill>)
    ensures
        fills_total(seq![first] + others) == first.quantity + fills_total(others),
    decreases others.len(),
{
    let all = seq![first] + others;
    if others.len() == 0 {
        assert(all.drop_last() =~= Seq::<Fill>::empty());
        assert(fills_total(all.drop_last()) == 0);
    } else {
        assert(all.drop_last() =~= seq![first] + others.drop_last());
        assert(all.last() == others.last());
        lemma_fills_total_prepend(first, others.drop_last());
    }
}

/// Conservation of quantity: what an incoming order brings is what its
/// executions took and what is left of it.
pub proof fn lemma_match_conserves(ladder: Ladder, taker: Taker, quantity: u32)
    ensures
        fills_total(match_ladder(ladder, taker, quantity).fills) + match_ladder(
            ladder,
            taker,
            quantity,
        ).remaining == quantity,
    decreases quantity,
{
    match best_price(ladder, taker.is_buy) {
        None => {},
        Some(price) => {
            let maker = ladder[price][0];
            if quantity == 0 || !price_acceptable(taker.is_buy, taker.limit, price)
                || maker.current_quantity == 0 {
            } else if quantity >= maker.current_quantity {
                let left = (quantity - maker.current_quantity) as u32;
                let rest = match_ladder(ladder_remove(ladder, price, 0), taker, left);
                lemma_match_conserves(ladder_remove(ladder, price, 0), taker, left);
                lemma_fills_total_prepend(
                    fill_of(taker, maker, price, maker.current_quantity),
                    rest.fills,
                );
            } else {
                lemma_fills_total_prepend(fill_of(taker, maker, price, quantity), Seq::empty());
                assert(seq![fill_of(taker, maker, price, quantity)] + Seq::<Fill>::empty() =~= seq![
                    fill_of(taker, maker, price, quantity),
                ]);
            }
        },
    }
}

/// An incoming order without executions leaves the ladder as it was and
/// keeps its whole quantity.
pub proof fn lemma_match_without_fills(ladder: Ladder, taker: Taker, quantity: u32)
    requires
        match_ladder(ladder, taker, quantity).fills.len() == 0,
    ensures
        match_ladder(ladder, taker, quantity).ladder == ladder,
        match_ladder(ladder, taker, quantity).remaining == quantity,
        match_ladder(ladder, taker, quantity).freed == Seq::<usize>::empty(),
{
}

} // verus!
