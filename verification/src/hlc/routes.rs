//! The earlier generation's request-side types.

use vstd::prelude::*;

use crate::routes::CredentialsError;

verus! {

/// Why an insertion request fails: the values could not be stored, or the
/// caller's credentials were turned away.
#[derive(Debug, Clone, Copy, PartialEq, Eq)]
pub enum InsertError {
    Values,
    Credentials(CredentialsError),
}

impl From<CredentialsError> for InsertError {
    fn from(err: CredentialsError) -> (r: InsertError) {
        InsertError::Credentials(err)
    }
}

impl vstd::std_specs::convert::FromSpecImpl<CredentialsError> for InsertError {
    open spec fn obeys_from_spec() -> bool {
        true
    }

    open spec fn from_spec(err: CredentialsError) -> InsertError {
        InsertError::Credentials(err)
    }
}

/// Query of the single-competition results endpoint.
#[derive(Debug, Clone, PartialEq, Eq)]
pub struct CompetitionResultsQueryParams {
    pub competition_name: String,
    pub raw: Option<bool>,
}

/// Query of the result line-item endpoint: an optional filter, raw or
/// rendered.
#[derive(Debug, Clone, PartialEq, Eq)]
pub struct ResultLineItemsQueryParams {
    pub where_clause: Option<String>,
    pub raw: Option<bool>,
}

} // verus!
