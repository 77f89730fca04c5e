//! An in-process time-to-live key-value cache.
//!
//! The cache maps string keys to values, each paired with an absolute
//! expiration instant. Time is modelled as a plain `u64` tick count that the
//! caller supplies; every operation is verified for every possible clock
//! reading.

pub mod cache;
pub mod laws;
