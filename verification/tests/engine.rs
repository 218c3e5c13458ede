use order_book::matching_engine::MatchingEngine;
use order_book::types::{
    BookDepth, CancelOutcome, Fill, MatchReport, ModifyResult, NewOrder, OrderLocation, OrderType,
    PriceLevelDepth, Reason, SubmitOutcome,
};

const SEC: u128 = 0x5ec0_0000_0000_0000_0000_0000_0000_0001;
const OTHER_SEC: u128 = 0x5ec0_0000_0000_0000_0000_0000_0000_0002;
const A: u128 = 0xa;
const B: u128 = 0xb;
const C: u128 = 0xc;
const X: u128 = 0x10;

fn limit(id: u128, is_buy_side: bool, price: u32, quantity: u32) -> NewOrder {
    NewOrder {
        engine_order_id: id,
        price: Some(price),
        initial_quantity: quantity,
        current_quantity: quantity,
        is_buy_side,
        security_id: SEC,
        order_type: OrderType::Limit,
    }
}

fn market(id: u128, is_buy_side: bool, cap: Option<u32>, quantity: u32) -> NewOrder {
    NewOrder {
        engine_order_id: id,
        price: None,
        initial_quantity: quantity,
        current_quantity: quantity,
        is_buy_side,
        security_id: SEC,
        order_type: OrderType::Market(cap),
    }
}

fn line(price_level: u32, quantity: u32) -> PriceLevelDepth {
    PriceLevelDepth { price_level, quantity }
}

fn fill(maker: u128, taker: u128, price: u32, quantity: u32, taker_is_buy_side: bool) -> Fill {
    Fill { maker_order_id: maker, taker_order_id: taker, price, quantity, taker_is_buy_side }
}

fn assert_depth(depth: &BookDepth, bids: &[PriceLevelDepth], asks: &[PriceLevelDepth]) {
    assert_eq!(depth.bid_depth.as_slice(), bids);
    assert_eq!(depth.ask_depth.as_slice(), asks);
}

fn assert_rests(report: &MatchReport, id: u128) {
    assert_eq!(report.outcome, SubmitOutcome::Accepted { resting_id: Some(id) });
}

fn assert_rejected(report: &MatchReport, reason: Reason, quantity: u32) {
    assert_eq!(report.outcome, SubmitOutcome::Rejected { reason });
    assert!(report.fills.is_empty());
    assert_eq!(report.remaining, quantity);
}

#[test]
fn limit_buy_rests_and_is_partly_filled_by_a_sell_at_its_price() {
    let mut engine = MatchingEngine::new();
    let report = engine.match_order(limit(A, true, 100, 10));
    assert_rests(&report, A);
    assert!(report.fills.is_empty());
    assert_eq!(report.remaining, 10);
    assert_depth(&engine.depth(SEC, None), &[line(100, 10)], &[]);

    let report = engine.match_order(limit(B, false, 100, 4));
    assert_eq!(report.fills, vec![fill(A, B, 100, 4, false)]);
    assert_eq!(report.remaining, 0);
    assert_eq!(report.outcome, SubmitOutcome::Accepted { resting_id: None });
    assert_depth(&engine.depth(SEC, None), &[line(100, 6)], &[]);
}

#[test]
fn market_sell_takes_best_price_first_and_earliest_order_first() {
    let mut engine = MatchingEngine::new();
    assert_rests(&engine.match_order(limit(A, true, 100, 5)), A);
    assert_rests(&engine.match_order(limit(B, true, 100, 3)), B);
    assert_rests(&engine.match_order(limit(C, true, 101, 2)), C);

    let report = engine.match_order(market(X, false, None, 8));
    assert_eq!(
        report.fills,
        vec![fill(C, X, 101, 2, false), fill(A, X, 100, 5, false), fill(B, X, 100, 1, false)]
    );
    assert_eq!(report.remaining, 0);
    assert_eq!(report.outcome, SubmitOutcome::Accepted { resting_id: None });
    assert_depth(&engine.depth(SEC, None), &[line(100, 2)], &[]);
}

#[test]
fn modify_in_place_keeps_priority_and_a_larger_size_gives_it_up() {
    let mut engine = MatchingEngine::new();
    assert_rests(&engine.match_order(limit(A, false, 50, 10)), A);

    let report = engine.modify(A, None, Some(6));
    assert_eq!(report.result, ModifyResult::Inplace);
    assert!(report.fills.is_empty());
    assert_depth(&engine.depth(SEC, None), &[], &[line(50, 6)]);

    let report = engine.modify(A, None, Some(20));
    assert_eq!(report.result, ModifyResult::Requantized);
    assert!(report.fills.is_empty());
    assert_depth(&engine.depth(SEC, None), &[], &[line(50, 6)]);

    // B arrives after the resubmitted A, so A is consumed first.
    assert_rests(&engine.match_order(limit(B, false, 50, 4)), B);
    let report = engine.match_order(market(X, true, None, 7));
    assert_eq!(report.fills, vec![fill(A, X, 50, 6, true), fill(B, X, 50, 1, true)]);
    assert_depth(&engine.depth(SEC, None), &[], &[line(50, 3)]);
}

#[test]
fn in_place_edit_keeps_the_place_in_the_queue() {
    let mut engine = MatchingEngine::new();
    assert_rests(&engine.match_order(limit(A, false, 50, 10)), A);
    assert_rests(&engine.match_order(limit(B, false, 50, 10)), B);
    assert_eq!(engine.modify(A, None, Some(6)).result, ModifyResult::Inplace);
    assert_depth(&engine.depth(SEC, None), &[], &[line(50, 16)]);

    let report = engine.match_order(market(X, true, None, 8));
    assert_eq!(report.fills, vec![fill(A, X, 50, 6, true), fill(B, X, 50, 2, true)]);
}

#[test]
fn larger_size_moves_the_order_behind_later_arrivals() {
    let mut engine = MatchingEngine::new();
    assert_rests(&engine.match_order(limit(A, false, 50, 10)), A);
    assert_rests(&engine.match_order(limit(B, false, 50, 10)), B);
    assert_eq!(engine.modify(A, None, Some(11)).result, ModifyResult::Requantized);
    assert_depth(&engine.depth(SEC, None), &[], &[line(50, 20)]);

    let report = engine.match_order(market(X, true, None, 12));
    assert_eq!(report.fills, vec![fill(B, X, 50, 10, true), fill(A, X, 50, 2, true)]);
}

#[test]
fn in_place_edit_above_what_is_left_changes_the_recorded_size_only() {
    let mut engine = MatchingEngine::new();
    assert_rests(&engine.match_order(limit(A, false, 50, 10)), A);
    // 7 of A trade, 3 are left of a recorded size of 10.
    let report = engine.match_order(market(X, true, None, 7));
    assert_eq!(report.fills, vec![fill(A, X, 50, 7, true)]);
    assert_eq!(engine.modify(A, None, Some(5)).result, ModifyResult::Inplace);
    assert_depth(&engine.depth(SEC, None), &[], &[line(50, 3)]);
    // A size above the recorded 5 now gives the place up.
    assert_eq!(engine.modify(A, None, Some(6)).result, ModifyResult::Requantized);
    assert_depth(&engine.depth(SEC, None), &[], &[line(50, 3)]);
}

#[test]
fn cancel_removes_the_order_and_a_second_cancel_finds_nothing() {
    let mut engine = MatchingEngine::new();
    assert_rests(&engine.match_order(limit(A, true, 100, 5)), A);
    assert_eq!(engine.cancel(A), CancelOutcome::Success);
    assert_depth(&engine.depth(SEC, None), &[], &[]);
    assert_eq!(engine.cancel(A), CancelOutcome::Failed { reason: Reason::NotFound });
    assert_depth(&engine.depth(SEC, None), &[], &[]);
}

#[test]
fn cancel_of_an_unknown_order_changes_nothing() {
    let mut engine = MatchingEngine::new();
    assert_eq!(engine.cancel(A), CancelOutcome::Failed { reason: Reason::NotFound });
    assert_rests(&engine.match_order(limit(A, true, 100, 5)), A);
    assert_eq!(engine.cancel(B), CancelOutcome::Failed { reason: Reason::NotFound });
    assert_depth(&engine.depth(SEC, None), &[line(100, 5)], &[]);
}

#[test]
fn cancel_in_the_middle_of_a_queue_keeps_the_order_of_the_others() {
    let mut engine = MatchingEngine::new();
    assert_rests(&engine.match_order(limit(A, true, 100, 1)), A);
    assert_rests(&engine.match_order(limit(B, true, 100, 2)), B);
    assert_rests(&engine.match_order(limit(C, true, 100, 4)), C);
    assert_eq!(engine.cancel(B), CancelOutcome::Success);
    assert_depth(&engine.depth(SEC, None), &[line(100, 5)], &[]);
    let report = engine.match_order(market(X, false, None, 5));
    assert_eq!(report.fills, vec![fill(A, X, 100, 1, false), fill(C, X, 100, 4, false)]);
    assert_depth(&engine.depth(SEC, None), &[], &[]);
}

#[test]
fn market_sell_with_a_protective_price_stops_below_it() {
    let mut engine = MatchingEngine::new();
    assert_rests(&engine.match_order(limit(A, true, 100, 5)), A);
    assert_rests(&engine.match_order(limit(B, true, 99, 5)), B);

    // A seller who asks for 100 at least trades at 100 and not at 99.
    let report = engine.match_order(market(X, false, Some(100), 100));
    assert_eq!(report.fills, vec![fill(A, X, 100, 5, false)]);
    assert_eq!(report.remaining, 95);
    assert_eq!(report.outcome, SubmitOutcome::Accepted { resting_id: None });
    // What is left of a market order is dropped.
    assert_depth(&engine.depth(SEC, None), &[line(99, 5)], &[]);
}

#[test]
fn market_sell_with_a_low_protective_price_takes_every_bid() {
    let mut engine = MatchingEngine::new();
    assert_rests(&engine.match_order(limit(A, true, 100, 5)), A);
    assert_rests(&engine.match_order(limit(B, true, 99, 5)), B);
    let report = engine.match_order(market(X, false, Some(99), 100));
    assert_eq!(report.fills, vec![fill(A, X, 100, 5, false), fill(B, X, 99, 5, false)]);
    assert_eq!(report.remaining, 90);
    assert_depth(&engine.depth(SEC, None), &[], &[]);
}

#[test]
fn market_buy_with_a_protective_price_stops_above_it() {
    let mut engine = MatchingEngine::new();
    assert_rests(&engine.match_order(limit(A, false, 50, 5)), A);
    assert_rests(&engine.match_order(limit(B, false, 51, 5)), B);
    assert_rests(&engine.match_order(limit(C, false, 52, 5)), C);
    let report = engine.match_order(market(X, true, Some(51), 100));
    assert_eq!(report.fills, vec![fill(A, X, 50, 5, true), fill(B, X, 51, 5, true)]);
    assert_eq!(report.remaining, 90);
    assert_depth(&engine.depth(SEC, None), &[], &[line(52, 5)]);
}

#[test]
fn crossing_limit_sell_fills_at_the_makers_price_and_rests_the_remainder() {
    let mut engine = MatchingEngine::new();
    assert_rests(&engine.match_order(limit(A, true, 101, 10)), A);
    let report = engine.match_order(limit(B, false, 100, 15));
    assert_eq!(report.fills, vec![fill(A, B, 101, 10, false)]);
    assert_eq!(report.remaining, 5);
    assert_rests(&report, B);
    assert_depth(&engine.depth(SEC, None), &[], &[line(100, 5)]);
    // A is used up and no longer known.
    assert_eq!(engine.cancel(A), CancelOutcome::Failed { reason: Reason::NotFound });
    assert_eq!(engine.cancel(B), CancelOutcome::Success);
}

#[test]
fn limit_buy_does_not_trade_above_its_price() {
    let mut engine = MatchingEngine::new();
    assert_rests(&engine.match_order(limit(A, false, 101, 5)), A);
    let report = engine.match_order(limit(B, true, 100, 5));
    assert!(report.fills.is_empty());
    assert_rests(&report, B);
    assert_depth(&engine.depth(SEC, None), &[line(100, 5)], &[line(101, 5)]);
}

#[test]
fn market_order_into_an_empty_book_is_accepted_without_fills() {
    let mut engine = MatchingEngine::new();
    let report = engine.match_order(market(X, true, None, 7));
    assert_eq!(report.outcome, SubmitOutcome::Accepted { resting_id: None });
    assert!(report.fills.is_empty());
    assert_eq!(report.remaining, 7);
    assert_depth(&engine.depth(SEC, None), &[], &[]);
}

#[test]
fn order_with_zero_quantity_is_rejected() {
    let mut engine = MatchingEngine::new();
    assert_rejected(&engine.match_order(limit(A, true, 100, 0)), Reason::ZeroQuantity, 0);
    assert_rejected(&engine.match_order(market(A, true, None, 0)), Reason::ZeroQuantity, 0);
    assert_depth(&engine.depth(SEC, None), &[], &[]);
}

#[test]
fn limit_order_without_a_price_is_rejected() {
    let mut engine = MatchingEngine::new();
    let mut order = limit(A, true, 100, 5);
    order.price = None;
    assert_rejected(&engine.match_order(order), Reason::MissingPrice, 5);
    assert_depth(&engine.depth(SEC, None), &[], &[]);
}

#[test]
fn order_with_the_id_of_a_resting_order_is_rejected() {
    let mut engine = MatchingEngine::new();
    assert_rests(&engine.match_order(limit(A, true, 100, 5)), A);
    assert_rejected(&engine.match_order(limit(A, false, 100, 5)), Reason::DuplicateOrderId, 5);
    assert_rejected(&engine.match_order(market(A, false, None, 5)), Reason::DuplicateOrderId, 5);
    assert_depth(&engine.depth(SEC, None), &[line(100, 5)], &[]);
}

#[test]
fn limit_order_that_would_overflow_its_level_is_rejected() {
    let mut engine = MatchingEngine::new();
    assert_rests(&engine.match_order(limit(A, true, 100, u32::MAX - 1)), A);
    assert_rejected(&engine.match_order(limit(B, true, 100, 2)), Reason::LevelFull, 2);
    assert_depth(&engine.depth(SEC, None), &[line(100, u32::MAX - 1)], &[]);
    assert_rests(&engine.match_order(limit(B, true, 100, 1)), B);
    assert_depth(&engine.depth(SEC, None), &[line(100, u32::MAX)], &[]);
}

#[test]
fn fills_and_remainder_add_up_to_the_incoming_quantity() {
    let mut engine = MatchingEngine::new();
    assert_rests(&engine.match_order(limit(A, false, 10, 3)), A);
    assert_rests(&engine.match_order(limit(B, false, 11, 4)), B);
    assert_rests(&engine.match_order(limit(C, false, 13, 5)), C);
    let report = engine.match_order(limit(X, true, 12, 20));
    let filled: u32 = report.fills.iter().map(|f| f.quantity).sum();
    assert_eq!(filled, 7);
    assert_eq!(filled + report.remaining, 20);
    assert_rests(&report, X);
    assert_depth(&engine.depth(SEC, None), &[line(12, 13)], &[line(13, 5)]);
}

#[test]
fn best_bid_stays_below_best_ask() {
    let mut engine = MatchingEngine::new();
    let orders = [
        limit(1, true, 100, 5),
        limit(2, false, 105, 5),
        limit(3, true, 105, 3),
        limit(4, false, 100, 4),
        limit(5, true, 103, 9),
        limit(6, false, 101, 20),
        limit(7, true, 102, 1),
    ];
    for order in orders {
        engine.match_order(order);
        let depth = engine.depth(SEC, Some(1));
        if let (Some(bid), Some(ask)) = (depth.bid_depth.first(), depth.ask_depth.first()) {
            assert!(bid.price_level < ask.price_level);
        }
    }
    assert_depth(&engine.depth(SEC, None), &[line(100, 1)], &[line(101, 10), line(105, 2)]);
}

#[test]
fn rest_then_cancel_gives_the_book_back() {
    let mut engine = MatchingEngine::new();
    assert_rests(&engine.match_order(limit(A, true, 100, 5)), A);
    assert_rests(&engine.match_order(limit(B, false, 110, 5)), B);
    assert_rests(&engine.match_order(limit(C, true, 100, 2)), C);
    assert_depth(&engine.depth(SEC, None), &[line(100, 7)], &[line(110, 5)]);
    assert_eq!(engine.cancel(C), CancelOutcome::Success);
    assert_depth(&engine.depth(SEC, None), &[line(100, 5)], &[line(110, 5)]);
    // The id is free again.
    assert_rests(&engine.match_order(limit(C, true, 99, 1)), C);
}

#[test]
fn depth_lists_bids_downwards_and_asks_upwards() {
    let mut engine = MatchingEngine::new();
    let mut id: u128 = 1;
    for price in [98u32, 100, 99, 97] {
        assert_rests(&engine.match_order(limit(id, true, price, 1)), id);
        id += 1;
    }
    for price in [103u32, 101, 104, 102] {
        assert_rests(&engine.match_order(limit(id, false, price, 2)), id);
        id += 1;
    }
    assert_depth(
        &engine.depth(SEC, None),
        &[line(100, 1), line(99, 1), line(98, 1), line(97, 1)],
        &[line(101, 2), line(102, 2), line(103, 2), line(104, 2)],
    );
    assert_depth(
        &engine.depth(SEC, Some(2)),
        &[line(100, 1), line(99, 1)],
        &[line(101, 2), line(102, 2)],
    );
    assert_depth(&engine.depth(SEC, Some(0)), &[], &[]);
    assert_depth(
        &engine.depth(SEC, Some(9)),
        &[line(100, 1), line(99, 1), line(98, 1), line(97, 1)],
        &[line(101, 2), line(102, 2), line(103, 2), line(104, 2)],
    );
}

#[test]
fn depth_of_an_unknown_security_is_empty() {
    let mut engine = MatchingEngine::new();
    assert_depth(&engine.depth(SEC, None), &[], &[]);
    assert_rests(&engine.match_order(limit(A, true, 100, 5)), A);
    assert_depth(&engine.depth(OTHER_SEC, None), &[], &[]);
    assert_depth(&engine.depth(OTHER_SEC, Some(3)), &[], &[]);
}

#[test]
fn books_of_different_securities_do_not_trade_with_each_other() {
    let mut engine = MatchingEngine::new();
    assert_rests(&engine.match_order(limit(A, true, 100, 5)), A);
    let mut sell = limit(B, false, 90, 5);
    sell.security_id = OTHER_SEC;
    let report = engine.match_order(sell);
    assert!(report.fills.is_empty());
    assert_rests(&report, B);
    assert_depth(&engine.depth(SEC, None), &[line(100, 5)], &[]);
    assert_depth(&engine.depth(OTHER_SEC, None), &[], &[line(90, 5)]);
}

#[test]
fn modify_of_an_unknown_order_finds_nothing() {
    let mut engine = MatchingEngine::new();
    let report = engine.modify(A, Some(10), Some(10));
    assert_eq!(report.result, ModifyResult::NotFound);
    assert!(report.fills.is_empty());
}

#[test]
fn modify_to_zero_quantity_is_rejected() {
    let mut engine = MatchingEngine::new();
    assert_rests(&engine.match_order(limit(A, true, 100, 5)), A);
    let report = engine.modify(A, None, Some(0));
    assert_eq!(report.result, ModifyResult::Rejected { reason: Reason::ZeroQuantity });
    let report = engine.modify(A, Some(101), Some(0));
    assert_eq!(report.result, ModifyResult::Rejected { reason: Reason::ZeroQuantity });
    assert_depth(&engine.depth(SEC, None), &[line(100, 5)], &[]);
}

#[test]
fn modify_that_asks_for_nothing_new_changes_nothing() {
    let mut engine = MatchingEngine::new();
    assert_rests(&engine.match_order(limit(A, true, 100, 5)), A);
    assert_rests(&engine.match_order(limit(B, true, 100, 5)), B);
    assert_eq!(engine.modify(A, None, None).result, ModifyResult::Unchanged);
    assert_eq!(engine.modify(A, Some(100), None).result, ModifyResult::Unchanged);
    // A is still first.
    let report = engine.match_order(market(X, false, None, 1));
    assert_eq!(report.fills, vec![fill(A, X, 100, 1, false)]);
}

#[test]
fn modify_with_the_old_price_follows_the_quantity_rules() {
    let mut engine = MatchingEngine::new();
    assert_rests(&engine.match_order(limit(A, true, 100, 5)), A);
    assert_eq!(engine.modify(A, Some(100), Some(4)).result, ModifyResult::Inplace);
    assert_depth(&engine.depth(SEC, None), &[line(100, 4)], &[]);
    assert_eq!(engine.modify(A, Some(100), Some(9)).result, ModifyResult::Requantized);
    assert_depth(&engine.depth(SEC, None), &[line(100, 4)], &[]);
}

#[test]
fn repriced_order_moves_to_the_back_of_the_new_level() {
    let mut engine = MatchingEngine::new();
    assert_rests(&engine.match_order(limit(A, true, 100, 5)), A);
    assert_rests(&engine.match_order(limit(B, true, 101, 3)), B);
    let report = engine.modify(A, Some(101), None);
    assert_eq!(report.result, ModifyResult::Repriced);
    assert!(report.fills.is_empty());
    assert_depth(&engine.depth(SEC, None), &[line(101, 8)], &[]);
    let report = engine.match_order(market(X, false, None, 4));
    assert_eq!(report.fills, vec![fill(B, X, 101, 3, false), fill(A, X, 101, 1, false)]);
}

#[test]
fn repriced_order_that_crosses_the_market_trades() {
    let mut engine = MatchingEngine::new();
    assert_rests(&engine.match_order(limit(A, true, 100, 5)), A);
    assert_rests(&engine.match_order(limit(B, false, 105, 3)), B);
    let report = engine.modify(A, Some(105), None);
    assert_eq!(report.result, ModifyResult::Repriced);
    assert_eq!(report.fills, vec![fill(B, A, 105, 3, true)]);
    assert_depth(&engine.depth(SEC, None), &[line(105, 2)], &[]);
    assert_eq!(engine.cancel(B), CancelOutcome::Failed { reason: Reason::NotFound });
    assert_eq!(engine.cancel(A), CancelOutcome::Success);
}

#[test]
fn repriced_order_that_is_filled_whole_no_longer_rests() {
    let mut engine = MatchingEngine::new();
    assert_rests(&engine.match_order(limit(A, true, 100, 5)), A);
    assert_rests(&engine.match_order(limit(B, false, 105, 9)), B);
    let report = engine.modify(A, Some(106), None);
    assert_eq!(report.result, ModifyResult::Repriced);
    assert_eq!(report.fills, vec![fill(B, A, 105, 5, true)]);
    assert_depth(&engine.depth(SEC, None), &[], &[line(105, 4)]);
    assert_eq!(engine.cancel(A), CancelOutcome::Failed { reason: Reason::NotFound });
}

#[test]
fn change_of_price_and_quantity_keeps_what_was_left() {
    let mut engine = MatchingEngine::new();
    assert_rests(&engine.match_order(limit(A, true, 100, 10)), A);
    let report = engine.match_order(market(X, false, None, 4));
    assert_eq!(report.fills, vec![fill(A, X, 100, 4, false)]);
    let report = engine.modify(A, Some(99), Some(50));
    assert_eq!(report.result, ModifyResult::Both);
    assert!(report.fills.is_empty());
    assert_depth(&engine.depth(SEC, None), &[line(99, 6)], &[]);
    // The recorded size is now 50, so 20 is an edit in place.
    assert_eq!(engine.modify(A, None, Some(20)).result, ModifyResult::Inplace);
    assert_depth(&engine.depth(SEC, None), &[line(99, 6)], &[]);
}

#[test]
fn reprice_into_a_full_level_is_rejected() {
    let mut engine = MatchingEngine::new();
    assert_rests(&engine.match_order(limit(A, true, 100, u32::MAX)), A);
    assert_rests(&engine.match_order(limit(B, true, 99, 1)), B);
    let report = engine.modify(B, Some(100), None);
    assert_eq!(report.result, ModifyResult::Rejected { reason: Reason::LevelFull });
    assert!(report.fills.is_empty());
    let report = engine.modify(B, Some(100), Some(7));
    assert_eq!(report.result, ModifyResult::Rejected { reason: Reason::LevelFull });
    assert_depth(&engine.depth(SEC, None), &[line(100, u32::MAX), line(99, 1)], &[]);
    // A larger size at the order's own price always fits.
    assert_eq!(engine.modify(A, None, Some(u32::MAX)).result, ModifyResult::Inplace);
}

#[test]
fn slots_are_reused_after_fills_and_cancels() {
    let mut engine = MatchingEngine::new();
    for round in 0..50u128 {
        let base = round * 10;
        assert_rests(&engine.match_order(limit(base + 1, true, 100, 5)), base + 1);
        assert_rests(&engine.match_order(limit(base + 2, true, 100, 5)), base + 2);
        assert_rests(&engine.match_order(limit(base + 3, true, 99, 5)), base + 3);
        assert_eq!(engine.cancel(base + 2), CancelOutcome::Success);
        let report = engine.match_order(market(base + 4, false, None, 10));
        assert_eq!(
            report.fills,
            vec![fill(base + 1, base + 4, 100, 5, false), fill(base + 3, base + 4, 99, 5, false)]
        );
        assert_depth(&engine.depth(SEC, None), &[], &[]);
    }
}

#[test]
fn registry_names_the_slot_of_every_resting_order() {
    let mut engine = MatchingEngine::new();
    assert_eq!(engine.locate(A), None);
    assert_eq!(engine.resting_order(A), None);
    assert_rests(&engine.match_order(limit(A, true, 100, 5)), A);
    assert_rests(&engine.match_order(limit(B, true, 100, 3)), B);
    assert_rests(&engine.match_order(limit(C, false, 101, 2)), C);
    let place = |is_buy_side, order_index| {
        Some(OrderLocation { security_id: SEC, is_buy_side, order_index })
    };
    assert_eq!(engine.locate(A), place(true, 0));
    assert_eq!(engine.locate(B), place(true, 1));
    assert_eq!(engine.locate(C), place(false, 0));
    let a = engine.resting_order(A).unwrap();
    assert_eq!((a.market_limit, a.initial_quantity, a.current_quantity), (100, 5, 5));
    assert_eq!((a.prev, a.next), (None, Some(1)));
    let b = engine.resting_order(B).unwrap();
    assert_eq!((b.prev, b.next), (Some(0), None));

    // A is used up, B is partly filled: A leaves the registry, B stays.
    let report = engine.match_order(market(X, false, None, 6));
    assert_eq!(report.fills, vec![fill(A, X, 100, 5, false), fill(B, X, 100, 1, false)]);
    assert_eq!(engine.locate(A), None);
    assert_eq!(engine.locate(X), None);
    assert_eq!(engine.locate(B), place(true, 1));
    let b = engine.resting_order(B).unwrap();
    assert_eq!((b.initial_quantity, b.current_quantity), (3, 2));
    assert_eq!((b.prev, b.next), (None, None));
}

#[test]
fn rest_then_cancel_gives_the_registry_back() {
    let mut engine = MatchingEngine::new();
    assert_rests(&engine.match_order(limit(A, true, 100, 5)), A);
    assert_rests(&engine.match_order(limit(B, false, 110, 5)), B);
    let before = (engine.locate(A), engine.locate(B), engine.locate(C));
    assert_rests(&engine.match_order(limit(C, true, 100, 2)), C);
    assert!(engine.locate(C).is_some());
    assert_eq!(engine.cancel(C), CancelOutcome::Success);
    assert_eq!((engine.locate(A), engine.locate(B), engine.locate(C)), before);
}

#[test]
fn freed_slot_goes_to_the_next_order_of_that_side() {
    let mut engine = MatchingEngine::new();
    assert_rests(&engine.match_order(limit(A, true, 100, 5)), A);
    assert_rests(&engine.match_order(limit(B, true, 99, 5)), B);
    assert_rests(&engine.match_order(limit(C, true, 98, 5)), C);
    assert_eq!(engine.cancel(A), CancelOutcome::Success);
    assert_eq!(engine.cancel(C), CancelOutcome::Success);
    assert_rests(&engine.match_order(limit(X, true, 97, 1)), X);
    assert_eq!(engine.locate(X).unwrap().order_index, 2);
    assert_rests(&engine.match_order(limit(A, true, 97, 1)), A);
    assert_eq!(engine.locate(A).unwrap().order_index, 0);
    assert_rests(&engine.match_order(limit(C, true, 97, 1)), C);
    assert_eq!(engine.locate(C).unwrap().order_index, 3);
}

#[test]
fn resubmitted_order_keeps_its_slot() {
    let mut engine = MatchingEngine::new();
    assert_rests(&engine.match_order(limit(A, true, 100, 5)), A);
    assert_rests(&engine.match_order(limit(B, true, 100, 5)), B);
    let before = engine.locate(A);
    assert_eq!(engine.modify(A, Some(99), None).result, ModifyResult::Repriced);
    assert_eq!(engine.locate(A), before);
    let a = engine.resting_order(A).unwrap();
    assert_eq!((a.market_limit, a.initial_quantity, a.current_quantity), (99, 5, 5));
}
