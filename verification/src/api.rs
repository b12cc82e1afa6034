//! The decisions of the search endpoint: which queries it refuses, and what
//! it answers once the search results are in.
use vstd::prelude::*;

use crate::resolve::{resolution, resolve_repository, MatchResult};
use crate::scoring::Repository;
use crate::text::{chars_of, is_whitespace, string_of, whitespace};

verus! {

pub const BAD_REQUEST: u16 = 400;
pub const NOT_FOUND: u16 = 404;

/// A refusal of the search endpoint: an HTTP status and its message.
#[derive(Debug)]
pub struct SearchError {
    pub status: u16,
    pub message: String,
}

/// A query with nothing in it but whitespace (`str::trim` leaves it empty).
pub open spec fn blank(q: Seq<char>) -> bool {
    forall|i: int| 0 <= i < q.len() ==> whitespace(#[trigger] q[i])
}

/// Refuses a blank query with 400 "Query cannot be empty"; accepts any other.
pub fn check_search_query(q: &str) -> (r: Option<SearchError>)
    ensures
        r is Some <==> blank(q@),
        r is None <==> exists|i: int| 0 <= i < q@.len() && !whitespace(#[trigger] q@[i]),
        r matches Some(e) ==> e.status == BAD_REQUEST && e.message@ == "Query cannot be empty"@,
{
    let chars = chars_of(q);
    let mut i: usize = 0;
    while i < chars.len()
        invariant
            chars@ == q@,
            i <= chars.len(),
            forall|k: int| 0 <= k < i ==> whitespace(#[trigger] chars@[k]),
        decreases chars.len() - i,
    {
        if !is_whitespace(chars[i]) {
            return None;
        }
        i += 1;
    }
    let message = string_of(&chars_of("Query cannot be empty"));
    Some(SearchError { status: BAD_REQUEST, message })
}

/// The answer to a search once its results are in: the resolved repository,
/// or 404 "Could not confidently identify a repository".
pub fn search_reply<'a>(repositories: &'a [Repository], q: &str) -> (r: Result<
    MatchResult<'a>,
    SearchError,
>)
    ensures
        r matches Ok(m) ==> resolution(repositories@, q@, Some(m)),
        r matches Err(e) ==> resolution(repositories@, q@, None) && e.status == NOT_FOUND
            && e.message@ == "Could not confidently identify a repository"@,
{
    match resolve_repository(repositories, q) {
        Some(m) => Ok(m),
        None => {
            let message = string_of(&chars_of("Could not confidently identify a repository"));
            Err(SearchError { status: NOT_FOUND, message })
        },
    }
}

} // verus!
