//! Bounded-concurrency, order-preserving task scheduling, with the small
//! HTTP and validation utilities that accompany it.
//!
//! The heart of the crate is [`task`]: a pull-based scheduler that runs at
//! most `limit` operations at once and emits their results strictly in
//! submission order, plus a materializing batch variant. The remaining
//! modules hold cookie and header parsing, path-variable extraction and
//! value validators.

pub mod advisory_lock;
pub mod http;
pub mod map_into;
pub mod task;
pub mod text;
pub mod url;
pub mod validate;
