//! A small persistent store for short timestamped messages ("notes").
//!
//! The crate covers the store's core: the delimited on-disk record codec,
//! full-log replay, a monotonic id allocator seeded from the replayed log,
//! and an insertion-ordered in-memory index answering listing and
//! latest-match queries. File handling, HTTP routing and wire framing are
//! left to the surrounding program.

pub mod codec;
pub mod date;
pub mod digits;
pub mod log;
pub mod split;
pub mod store;
