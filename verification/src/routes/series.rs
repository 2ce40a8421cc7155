//! The series page's query shape.

use vstd::prelude::*;

verus! {

/// Query of the series page: raw JSON or rendered HTML, and how many
/// competitions of history to show.
#[derive(Debug, Clone, Copy, PartialEq, Eq)]
pub struct SeriesQueryParams {
    pub raw: Option<bool>,
    pub max_num_comps: Option<u8>,
}

} // verus!
