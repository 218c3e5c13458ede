//! A limit order book matching engine with price-time priority.
//!
//! Each security has an order book made of two half-books (bids and asks).
//! A half-book keeps its resting orders in a pooled arena; the orders of one
//! price level form a doubly-linked FIFO queue threaded through that arena,
//! and an ordered map takes each price to its level. The engine routes
//! submissions to the books and keeps a registry from order id to the slot
//! in which the order rests.
//!
//! Every executable function is verified against a contract stated over the
//! mathematical model in [`ladder`].

pub mod half_book;
pub mod ladder;
pub mod matching_engine;
pub mod orderbook;
pub mod registry;
pub mod tracing;
pub mod types;
