//! What the operations promise.
//!
//! Each law speaks of what callers hand in and get back: the arguments of calls and
//! the results that the calls may have.

pub mod blocks;
pub mod descents;
pub mod integers;
pub mod measures;
pub mod nearest;
pub mod orders;
pub mod pairs;
pub mod radius;
pub mod trees;
pub mod words;
