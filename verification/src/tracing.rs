//! Structured trace records for the engine's operations. A span is a plain
//! record; whoever runs the engine hands it to a sink of their choice.

use vstd::prelude::*;

verus! {

/// The lower-case hexadecimal digit for a value below 16.
pub open spec fn hex_digit(value: int) -> char {
    seq!['0', '1', '2', '3', '4', '5', '6', '7', '8', '9', 'a', 'b', 'c', 'd', 'e', 'f'][value]
}

/// The power `16^n`.
pub open spec fn pow16(n: nat) -> nat
    decreases n,
{
    if n == 0 {
        1
    } else {
        16 * pow16((n - 1) as nat)
    }
}

/// The `k`-th of the 32 hexadecimal digits of a 128-bit value, counted from
/// the most significant one.
pub open spec fn nibble(id: u128, k: int) -> int {
    (id as int / pow16((31 - k) as nat) as int) % 16
}

/// The number of hyphens before position `i` of the hyphenated form.
pub open spec fn hyphens_before(i: int) -> int {
    if i < 8 {
        0
    } else if i < 13 {
        1
    } else if i < 18 {
        2
    } else if i < 23 {
        3
    } else {
        4
    }
}

/// The hyphenated form of a 128-bit id: its 32 lower-case hexadecimal
/// digits, most significant first, in groups of 8, 4, 4, 4 and 12 with a
/// hyphen between two groups.
pub open spec fn hyphenated(id: u128) -> Seq<char> {
    Seq::new(
        36,
        |i: int|
            if i == 8 || i == 13 || i == 18 || i == 23 {
                '-'
            } else {
                hex_digit(nibble(id, i - hyphens_before(i)))
            },
    )
}

/// `Uuid::from_u128` and the `Display` of its `hyphenated` adapter, through
/// `to_string`: the UUID whose big-endian bytes are those of `id`, written
/// as 36 characters, lower-case hexadecimal digits in groups of 8, 4, 4, 4
/// and 12 with hyphens between them.
#[verifier::external_body]
fn id_text(id: u128) -> (text: String)
    ensures
        text@ == hyphenated(id),
{
    uuid::Uuid::from_u128(id).hyphenated().to_string()
}

/// The operation that a span describes.
#[derive(Clone, Copy, Debug, PartialEq, Eq)]
pub enum SpanName {
    MatchOrder,
    Modify,
    Cancel,
    Depth,
}

/// A trace record: the operation and the fields recorded for it. A field
/// that is `None` has not been recorded.
#[derive(Clone, Debug, PartialEq, Eq)]
pub struct Span {
    pub name: SpanName,
    /// The order id in hyphenated form.
    pub order_id: Option<String>,
    /// The security id in hyphenated form.
    pub security_id: Option<String>,
    pub filled: Option<bool>,
    pub success_status: Option<bool>,
    pub status: Option<&'static str>,
    pub reason: Option<&'static str>,
    pub modify_reason: Option<&'static str>,
    pub intermediate_error: Option<&'static str>,
    pub order_type: Option<&'static str>,
    pub is_buy_side: Option<bool>,
    pub levels_consumed: Option<u32>,
    pub orders_touched: Option<u32>,
    pub actual_time: Option<u64>,
}

impl Span {
    /// The span of an operation with no field recorded.
    pub open spec fn blank(name: SpanName) -> Span {
        Span {
            name,
            order_id: None,
            security_id: None,
            filled: None,
            success_status: None,
            status: None,
            reason: None,
            modify_reason: None,
            intermediate_error: None,
            order_type: None,
            is_buy_side: None,
            levels_consumed: None,
            orders_touched: None,
            actual_time: None,
        }
    }

    /// A span of the operation `name` with no field recorded.
    pub fn empty(name: SpanName) -> (span: Span)
        ensures
            span == Span::blank(name),
    {
        Span {
            name,
            order_id: None,
            security_id: None,
            filled: None,
            success_status: None,
            status: None,
            reason: None,
            modify_reason: None,
            intermediate_error: None,
            order_type: None,
            is_buy_side: None,
            levels_consumed: None,
            orders_touched: None,
            actual_time: None,
        }
    }
}

/// Makes the spans of the engine's operations.
pub struct Tracing {}

impl Tracing {
    /// The span of a new order. The order's id, its type and its side are
    /// known when the order comes in; the other fields are recorded if they
    /// are given.
    pub fn match_order_span(
        order_id: String,
        filled: Option<bool>,
        reason: Option<&'static str>,
        order_type: &'static str,
        is_buy_side: bool,
        levels_consumed: Option<u32>,
        orders_touched: Option<u32>,
        actual_time: Option<u64>,
    ) -> (span: Span)
        ensures
            span == (Span {
                order_id: Some(order_id),
                filled,
                reason,
                order_type: Some(order_type),
                is_buy_side: Some(is_buy_side),
                levels_consumed,
                orders_touched,
                actual_time,
                ..Span::blank(SpanName::MatchOrder)
            }),
    {
        let mut span = Span::empty(SpanName::MatchOrder);
        span.order_id = Some(order_id);
        span.filled = filled;
        span.reason = reason;
        span.order_type = Some(order_type);
        span.is_buy_side = Some(is_buy_side);
        span.levels_consumed = levels_consumed;
        span.orders_touched = orders_touched;
        span.actual_time = actual_time;
        span
    }

    /// The span of a modification.
    pub fn modify_span(
        order_id: String,
        filled: bool,
        reason: Option<&'static str>,
        modify_reason: Option<&'static str>,
        intermediate_error: Option<&'static str>,
        order_type: &'static str,
        is_buy_side: bool,
        levels_consumed: u32,
        orders_touched: u32,
    ) -> (span: Span)
        ensures
            span == (Span {
                order_id: Some(order_id),
                filled: Some(filled),
                reason,
                modify_reason,
                intermediate_error,
                order_type: Some(order_type),
                is_buy_side: Some(is_buy_side),
                levels_consumed: Some(levels_consumed),
                orders_touched: Some(orders_touched),
                ..Span::blank(SpanName::Modify)
            }),
    {
        let mut span = Span::empty(SpanName::Modify);
        span.order_id = Some(order_id);
        span.filled = Some(filled);
        span.reason = reason;
        span.modify_reason = modify_reason;
        span.intermediate_error = intermediate_error;
        span.order_type = Some(order_type);
        span.is_buy_side = Some(is_buy_side);
        span.levels_consumed = Some(levels_consumed);
        span.orders_touched = Some(orders_touched);
        span
    }

    /// The span of a cancellation; the order's id is recorded in hyphenated
    /// form.
    pub fn cancel_span(order_id: u128, success_status: bool, reason: &'static str) -> (span: Span)
        ensures
            span.order_id is Some,
            span.order_id->0@ == hyphenated(order_id),
            span.success_status == Some(success_status),
            span.reason == Some(reason),
            (Span { order_id: None, ..span }) == (Span {
                success_status: Some(success_status),
                reason: Some(reason),
                ..Span::blank(SpanName::Cancel)
            }),
    {
        let mut span = Span::empty(SpanName::Cancel);
        span.order_id = Some(id_text(order_id));
        span.success_status = Some(success_status);
        span.reason = Some(reason);
        span
    }

    /// The span of a depth query; the security's id, if it is given, is
    /// recorded in hyphenated form.
    pub fn depth_span(
        security_id: Option<u128>,
        status: Option<&'static str>,
        reason: Option<&'static str>,
    ) -> (span: Span)
        ensures
            span.security_id is Some == security_id is Some,
            security_id is Some ==> span.security_id->0@ == hyphenated(security_id->0),
            (Span { security_id: None, ..span }) == (Span {
                status,
                reason,
                ..Span::blank(SpanName::Depth)
            }),
    {
        let mut span = Span::empty(SpanName::Depth);
        span.security_id = match security_id {
            Some(id) => Some(id_text(id)),
            None => None,
        };
        span.status = status;
        span.reason = reason;
        span
    }
}

} // verus!
