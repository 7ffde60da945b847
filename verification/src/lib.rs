//! A bucketed hash map whose buckets each carry a guard flag, together with
//! the xxHash-style key hashing it uses and helpers that build datasets of
//! keys and random values.

pub mod concurent_map;
pub mod dataset;
pub mod hasher;

pub use concurent_map::{GuardCell, LocklessMap};
