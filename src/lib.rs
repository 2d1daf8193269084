//! Deduplication of content reposted inside scoped conversations: an
//! exact-match occurrence store, a perceptual-hash index that retires stale
//! entries while it searches, per-user counters and ranked leaderboards, all
//! kept in one ordered byte-keyed store.
use vstd::prelude::*;

pub mod board;
pub mod codec;
pub mod commands;
pub mod config;
pub mod exact;
pub mod index;
pub mod keys;
pub mod links;
pub mod phash;
pub mod records;
pub mod store;
pub mod workflow;

verus! {

} // verus!
