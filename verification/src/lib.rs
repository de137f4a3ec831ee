//! The memory arena underneath a zero-copy message format: segments of
//! fixed-size words, bounds-checked addressing, and bump allocation.
//!
//! A message is a collection of *segments*, each a contiguous run of 8-byte
//! words. While a message is read, segments are immutable views that gate
//! every dereference through a bounds check. While a message is built,
//! segments additionally carry a bump-allocation cursor, and the owning
//! arena grows by appending fresh segments, never by moving old ones.

pub mod common;
pub mod segment;
pub mod arena;
