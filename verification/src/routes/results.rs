//! The combined result listing's query shape.

use vstd::prelude::*;

verus! {

/// Query of the combined result listing: an optional filter, raw or
/// rendered.
#[derive(Debug, Clone, PartialEq, Eq)]
pub struct ResultsQueryParams {
    pub where_clause: Option<String>,
    pub raw: Option<bool>,
}

} // verus!
