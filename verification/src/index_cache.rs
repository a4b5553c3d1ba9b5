//! Auditing a cached complete-root snapshot against a fresh rebuild.

use vstd::prelude::*;

use crate::bytes::bytes_equal;

verus! {

/// Outcome of auditing the cache of one root.
#[derive(Clone, Copy, Debug, PartialEq, Eq, Structural)]
pub enum CacheVerify {
    /// The cached record rebuilds byte for byte.
    Match,
    /// No cache file exists yet.
    Missing,
    /// A cache file exists but differs from the rebuild.
    Mismatch,
}

/// Classifies what was found at the cache path against the fresh record:
/// a readable record matches only when it is byte-identical; with no
/// readable record, something present at the path is tampering and reports
/// a mismatch, never a clean miss.
pub fn classify_cached_record(cached: Option<&[u8]>, fresh: &[u8], path_present: bool) -> (r: CacheVerify)
    ensures
        match cached {
            Some(c) => r == if c@ == fresh@ {
                CacheVerify::Match
            } else {
                CacheVerify::Mismatch
            },
            None => r == if path_present {
                CacheVerify::Mismatch
            } else {
                CacheVerify::Missing
            },
        },
{
    match cached {
        Some(record) => {
            if bytes_equal(record, fresh) {
                CacheVerify::Match
            } else {
                CacheVerify::Mismatch
            }
        },
        None => {
            if path_present {
                CacheVerify::Mismatch
            } else {
                CacheVerify::Missing
            }
        },
    }
}

} // verus!
