//! Semantic memory search: the filters a candidate memory must pass,
//! and how many candidates a search looks at. Similarity scoring is
//! floating point and stays with the caller.

use vstd::prelude::*;

verus! {

/// Memory searcher: ranks memories by similarity to a query embedding.
pub struct MemorySearcher;

/// A memory passes a search's filters: from the requested source, and
/// no earlier than `after` and no later than `before` when those are
/// given.
pub open spec fn passes_spec(
    source: Seq<char>,
    timestamp: i64,
    source_filter: Option<Seq<char>>,
    after: Option<i64>,
    before: Option<i64>,
) -> bool {
    &&& match source_filter {
        Some(s) => source == s,
        None => true,
    }
    &&& match after {
        Some(a) => timestamp >= a,
        None => true,
    }
    &&& match before {
        Some(b) => timestamp <= b,
        None => true,
    }
}

pub open spec fn opt_view(o: Option<&str>) -> Option<Seq<char>> {
    match o {
        Some(s) => Some(s@),
        None => None,
    }
}

impl MemorySearcher {
    /// Whether a memory from `source` at `timestamp` passes the filters.
    pub fn passes_filters(
        source: &str,
        timestamp: i64,
        source_filter: Option<&str>,
        after: Option<i64>,
        before: Option<i64>,
    ) -> (r: bool)
        ensures
            r == passes_spec(source@, timestamp, opt_view(source_filter), after, before),
    {
        if let Some(src) = source_filter {
            if !crate::text::str_eq(source, src) {
                return false;
            }
        }
        if let Some(a) = after {
            if timestamp < a {
                return false;
            }
        }
        if let Some(b) = before {
            if timestamp > b {
                return false;
            }
        }
        true
    }

    /// How many of the best-scored memories a search fetches: twice the
    /// limit, so that filtered ones can be made up for.
    pub fn candidates(limit: usize) -> (r: usize)
        requires
            limit * 2 <= usize::MAX,
        ensures
            r == limit * 2,
    {
        limit * 2
    }
}

} // verus!
