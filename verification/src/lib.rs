//! An in-memory, log-structured key/value object store.
//!
//! Objects are never overwritten in place: every write appends a new
//! record to an append-only log built from fixed-size segments, and an
//! index maps each live key to the log location of its newest version.
//! Per-segment liveness counters account for superseded records so that
//! a compactor can later reclaim space.

pub mod codec;
pub mod common;
pub mod index;
pub mod segment;
pub mod store;
pub mod thelog;
