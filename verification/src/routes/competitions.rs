//! The competition pages' query shapes.

pub mod results;

use vstd::prelude::*;

verus! {

/// Query of the competition page: raw JSON or rendered HTML.
#[derive(Debug, Clone, Copy, PartialEq, Eq)]
pub struct CompetitionNestedQueryParams {
    pub raw: Option<bool>,
}

} // verus!
