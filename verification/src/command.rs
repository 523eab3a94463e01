//! What a `cfind` invocation asks for, decided from its flags.
use vstd::prelude::*;

verus! {

/// What to do for an invocation.
#[derive(Debug, Clone, Copy, PartialEq, Eq, Structural)]
pub enum Request {
    /// Rebuild the index and report on it.
    Index,
    /// Report where the index is and what it holds.
    Status,
    /// List the symbol kinds the index holds, after rebuilding it when
    /// `rebuild` (otherwise after bringing it up to date as needed).
    Kinds { rebuild: bool },
    /// Search, after rebuilding the index when `rebuild` (otherwise after
    /// bringing it up to date as needed).
    Search { rebuild: bool },
}

/// Why an invocation cannot be carried out.
#[derive(Debug, Clone, Copy, PartialEq, Eq, Structural)]
pub enum RequestError {
    /// There is neither a query nor a request to list kinds.
    QueryRequired,
}

impl RequestError {
    /// The message shown to the user.
    pub fn message(&self) -> (m: String)
        ensures
            m@ == "query required (or use --type to list indexed kinds)"@,
    {
        String::from_str("query required (or use --type to list indexed kinds)")
    }
}

/// The request that the flags make: `--index` without a query rebuilds and
/// reports; `--status` reports; otherwise a query or a bare `--type` is
/// needed, and `--index` means rebuilding first.
pub fn plan_request(index: bool, status: bool, has_query: bool, list_kinds: bool) -> (r: Result<Request, RequestError>)
    ensures
        r == (if index && !has_query {
            Ok::<Request, RequestError>(Request::Index)
        } else if status {
            Ok(Request::Status)
        } else if !has_query && !list_kinds {
            Err(RequestError::QueryRequired)
        } else if list_kinds {
            Ok(Request::Kinds { rebuild: index })
        } else {
            Ok(Request::Search { rebuild: index })
        }),
{
    if index && !has_query {
        Ok(Request::Index)
    } else if status {
        Ok(Request::Status)
    } else if !has_query && !list_kinds {
        Err(RequestError::QueryRequired)
    } else if list_kinds {
        Ok(Request::Kinds { rebuild: index })
    } else {
        Ok(Request::Search { rebuild: index })
    }
}

} // verus!
