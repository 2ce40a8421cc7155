//! The nested result listing's query shape.

use vstd::prelude::*;

verus! {

/// Query of the nested result listing: raw JSON or rendered HTML.
#[derive(Debug, Clone, Copy, PartialEq, Eq)]
pub struct CompetitionNestedQueryParams {
    pub raw: Option<bool>,
}

} // verus!
