use order_book::ladder::accepts_price;
use order_book::registry::{GlobalOrderRegistry, OrderRegistry};
use order_book::tracing::{Span, SpanName, Tracing};
use order_book::types::OrderLocation;
use uuid::Uuid;

#[test]
fn buyer_accepts_prices_up_to_the_limit() {
    assert!(accepts_price(true, Some(100), 99));
    assert!(accepts_price(true, Some(100), 100));
    assert!(!accepts_price(true, Some(100), 101));
    assert!(accepts_price(true, None, u32::MAX));
}

#[test]
fn seller_accepts_prices_down_to_the_limit() {
    assert!(accepts_price(false, Some(100), 101));
    assert!(accepts_price(false, Some(100), 100));
    assert!(!accepts_price(false, Some(100), 99));
    assert!(accepts_price(false, None, 0));
}

#[test]
fn order_registry_records_and_forgets_slots() {
    let mut registry = OrderRegistry::new();
    assert!(!registry.order_exist(1));
    assert_eq!(registry.insert(1, 10), None);
    assert_eq!(registry.insert(2, 20), None);
    assert_eq!(registry.insert(1, 11), Some(10));
    assert!(registry.order_exist(1));
    assert_eq!(*registry.get_idx(1), 11);
    assert_eq!(*registry.get_idx(2), 20);
    assert_eq!(registry.delete_key(1), Some(11));
    assert_eq!(registry.delete_key(1), None);
    assert!(!registry.order_exist(1));
    assert!(registry.order_exist(2));
}

#[test]
fn global_registry_records_and_forgets_locations() {
    let here = OrderLocation { security_id: 5, is_buy_side: true, order_index: 3 };
    let there = OrderLocation { security_id: 6, is_buy_side: false, order_index: 0 };
    let mut registry = GlobalOrderRegistry::new();
    assert_eq!(registry.get_details(&1), None);
    assert_eq!(registry.insert(1, here), None);
    assert_eq!(registry.get_details(&1), Some(&here));
    assert_eq!(registry.insert(1, there), Some(here));
    assert_eq!(registry.get_details(&1), Some(&there));
    assert_eq!(registry.delete(&2), None);
    assert_eq!(registry.delete(&1), Some(there));
    assert_eq!(registry.get_details(&1), None);
}

#[test]
fn empty_span_has_no_field() {
    let span = Span::empty(SpanName::Depth);
    assert_eq!(span.name, SpanName::Depth);
    assert_eq!(span.order_id, None);
    assert_eq!(span.security_id, None);
    assert_eq!(span.filled, None);
    assert_eq!(span.success_status, None);
    assert_eq!(span.status, None);
    assert_eq!(span.reason, None);
    assert_eq!(span.modify_reason, None);
    assert_eq!(span.intermediate_error, None);
    assert_eq!(span.order_type, None);
    assert_eq!(span.is_buy_side, None);
    assert_eq!(span.levels_consumed, None);
    assert_eq!(span.orders_touched, None);
    assert_eq!(span.actual_time, None);
}

#[test]
fn match_order_span_records_what_it_is_given() {
    let span = Tracing::match_order_span(
        "order-1".to_string(),
        None,
        None,
        "limit",
        true,
        None,
        Some(3),
        None,
    );
    let mut expected = Span::empty(SpanName::MatchOrder);
    expected.order_id = Some("order-1".to_string());
    expected.order_type = Some("limit");
    expected.is_buy_side = Some(true);
    expected.orders_touched = Some(3);
    assert_eq!(span, expected);
}

#[test]
fn modify_span_records_what_it_is_given() {
    let span = Tracing::modify_span(
        "order-2".to_string(),
        false,
        Some("exhausted"),
        None,
        Some("none"),
        "market",
        false,
        2,
        5,
    );
    let mut expected = Span::empty(SpanName::Modify);
    expected.order_id = Some("order-2".to_string());
    expected.filled = Some(false);
    expected.reason = Some("exhausted");
    expected.intermediate_error = Some("none");
    expected.order_type = Some("market");
    expected.is_buy_side = Some(false);
    expected.levels_consumed = Some(2);
    expected.orders_touched = Some(5);
    assert_eq!(span, expected);
}

#[test]
fn cancel_span_writes_the_id_in_hyphenated_form() {
    let id: u128 = 0xa1a2a3a4b1b2c1c2d1d2d3d4d5d6d7d8;
    let span = Tracing::cancel_span(id, true, "done");
    let mut expected = Span::empty(SpanName::Cancel);
    expected.order_id = Some("a1a2a3a4-b1b2-c1c2-d1d2-d3d4d5d6d7d8".to_string());
    expected.success_status = Some(true);
    expected.reason = Some("done");
    assert_eq!(span, expected);

    let span = Tracing::cancel_span(0x1f, false, "order not found");
    assert_eq!(span.order_id, Some("00000000-0000-0000-0000-00000000001f".to_string()));
    assert_eq!(span.success_status, Some(false));
    let span = Tracing::cancel_span(u128::MAX, false, "order not found");
    assert_eq!(span.order_id, Some("ffffffff-ffff-ffff-ffff-ffffffffffff".to_string()));
}

#[test]
fn depth_span_writes_the_security_if_it_is_given() {
    let span = Tracing::depth_span(None, None, None);
    assert_eq!(span, Span::empty(SpanName::Depth));

    let id: u128 = 0x0123456789abcdef_fedcba9876543210;
    let span = Tracing::depth_span(Some(id), Some("success"), Some("None"));
    let mut expected = Span::empty(SpanName::Depth);
    expected.security_id = Some("01234567-89ab-cdef-fedc-ba9876543210".to_string());
    expected.status = Some("success");
    expected.reason = Some("None");
    assert_eq!(span, expected);
}

#[test]
fn span_ids_read_back_as_the_same_uuid() {
    for id in [0u128, 1, 0xdead_beef, u128::MAX / 3, u128::MAX] {
        let span = Tracing::cancel_span(id, true, "done");
        let text = span.order_id.unwrap();
        assert_eq!(text.len(), 36);
        assert_eq!(Uuid::parse_str(&text).unwrap().as_u128(), id);
    }
}
