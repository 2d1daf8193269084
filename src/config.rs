//! Settings fixed when the process starts.
use vstd::prelude::*;

verus! {

/// Images whose hashes differ in fewer bits than this are the same image.
pub const SIMILARITY_THRESHOLD: u64 = 4;

/// Seconds after which an index entry that nothing touched may be retired.
pub const TTL_SECONDS: i64 = 864000;

/// Rows a leaderboard shows before only ties may extend it.
pub const MAX_LEN: usize = 20;

/// Rows a leaderboard never goes beyond.
pub const LAST_LEN_HARD: usize = 30;

/// The process-wide settings, passed by reference to each operation.
#[derive(Clone, Copy, Debug)]
pub struct Config {
    /// A match needs a Hamming distance strictly below this.
    pub similarity_threshold: u64,
    /// Age, in seconds, beyond which an index entry is expired.
    pub ttl_seconds: i64,
    /// Soft cap of a leaderboard.
    pub max_len: usize,
    /// Hard cap of a leaderboard.
    pub last_len_hard: usize,
    /// When set, expired entries are only reported, never removed.
    pub dry_run: bool,
}

impl Config {
    /// The settings the service runs with.
    pub fn standard() -> (r: Config)
        ensures
            r.similarity_threshold == SIMILARITY_THRESHOLD,
            r.ttl_seconds == TTL_SECONDS,
            r.max_len == MAX_LEN,
            r.last_len_hard == LAST_LEN_HARD,
            r.dry_run,
    {
        Config {
            similarity_threshold: SIMILARITY_THRESHOLD,
            ttl_seconds: TTL_SECONDS,
            max_len: MAX_LEN,
            last_len_hard: LAST_LEN_HARD,
            dry_run: true,
        }
    }
}

} // verus!
