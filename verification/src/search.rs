//! Options for a search session.
//!
//! The storage engine, its persisted index and the terminal front end are
//! outside collaborators; this module holds only the plain values they hand
//! to the search core. A query whose text tokenizes to no terms is the
//! "nothing to search" condition, surfaced to the caller rather than
//! scanned with; it is the one boundary error the core itself can detect.

use vstd::prelude::*;

use crate::highlight::spec_query_terms;
use crate::lexer::tokenize;

verus! {

/// How many search results to show when the caller names no limit.
pub const DEFAULT_LIMIT: usize = 3;

/// What one search run needs: where the index lives, how many results to
/// return, and the phrase to search for.
pub struct SearchOpts {
    /// The directory that the index is located in.
    pub index_dir: String,
    /// The maximum number of search results to return.
    pub limit: usize,
    /// The phrase to search for, as raw query text.
    pub query: Vec<u8>,
}

impl SearchOpts {
    pub fn new(index_dir: String, limit: usize, query: Vec<u8>) -> (o: SearchOpts)
        ensures
            o.index_dir@ == index_dir@,
            o.limit == limit,
            o.query@ == query@,
    {
        SearchOpts { index_dir, limit, query }
    }

    /// Whether the query text holds at least one token. A query without
    /// tokens would build an empty phrase, which never matches: callers
    /// surface it as "nothing to search" instead of scanning.
    pub fn has_phrase(&self) -> (r: bool)
        ensures
            r == (spec_query_terms(self.query@).len() > 0),
    {
        let lex = tokenize(self.query.as_slice());
        lex.tokens.len() > 0
    }
}

} // verus!
