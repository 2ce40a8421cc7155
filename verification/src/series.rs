//! Series: named sequences of competitions with a running leaderboard.
//!
//! Scores reach the library as the bit patterns of the upstream IEEE-754
//! doubles; the shaping here only carries them through, and the boundary
//! converts with `f64::to_bits`/`from_bits`. Ordering records by score is
//! floating-point work and stays at the boundary.

use vstd::prelude::*;

use crate::numbers::dec_str;

verus! {

/// A series as an admin submits it: its name and its scoring window.
#[derive(Debug, Clone, PartialEq, Eq)]
pub struct Series {
    name: String,
    first_n: Option<i16>,
    top_n: Option<i16>,
}

impl Series {
    pub closed spec fn spec_name(&self) -> Seq<char> {
        self.name@
    }

    pub closed spec fn spec_first_n(&self) -> Option<i16> {
        self.first_n
    }

    pub closed spec fn spec_top_n(&self) -> Option<i16> {
        self.top_n
    }

    pub fn new(name: String, first_n: Option<i16>, top_n: Option<i16>) -> (r: Series)
        ensures
            r.spec_name() == name@,
            r.spec_first_n() == first_n,
            r.spec_top_n() == top_n,
    {
        Series { name, first_n, top_n }
    }

    pub fn name(&self) -> (r: &String)
        ensures
            r@ == self.spec_name(),
    {
        &self.name
    }

    pub fn first_n(&self) -> (r: Option<i16>)
        ensures
            r == self.spec_first_n(),
    {
        self.first_n
    }

    pub fn top_n(&self) -> (r: Option<i16>)
        ensures
            r == self.spec_top_n(),
    {
        self.top_n
    }
}

/// Why a series page cannot be served.
#[derive(Debug, Clone, Copy, PartialEq, Eq)]
pub enum GetSeriesError {
    NotFound,
}

impl GetSeriesError {
    /// The response text of the error.
    pub fn message(&self) -> (m: &'static str)
        ensures
            m@ == "No series with that name was found"@,
    {
        "No series with that name was found"
    }
}

/// One competition's contribution to a player's series record.
#[derive(Debug, Clone, PartialEq, Eq)]
pub struct CompetitionResultRecordSummary {
    pub competition_name: String,
    pub frac_mp: u64,
}

/// One player's series leaderboard line: the aggregate scores and one slot
/// per counted competition, absent ones left as `None`.
#[derive(Debug, Clone, PartialEq, Eq)]
pub struct LeaderboardRecord {
    pub player_name: String,
    pub score: u64,
    pub mean_frac_mp: u64,
    pub competition_results: Vec<Option<CompetitionResultRecordSummary>>,
}

/// Everything the series page shows.
#[derive(Debug, Clone, PartialEq, Eq)]
pub struct SeriesView {
    pub series_name: String,
    pub past_competition_names: Vec<String>,
    pub leaderboard_records: Vec<LeaderboardRecord>,
    pub competition_scores_table_headers: Vec<String>,
}

/// Pad a player's per-competition slots with explicit absences up to the
/// number of competitions counted.
pub fn pad_competition_results(
    results: &mut Vec<Option<CompetitionResultRecordSummary>>,
    num_comps: usize,
)
    ensures
        final(results)@.len() == (if old(results)@.len() >= num_comps {
            old(results)@.len() as int
        } else {
            num_comps as int
        }),
        forall|j: int|
            0 <= j < old(results)@.len() ==> final(results)@[j] == #[trigger] old(results)@[j],
        forall|j: int| old(results)@.len() <= j < final(results)@.len() ==> final(results)@[j] is None,
{
    while results.len() < num_comps
        invariant
            results@.len() >= old(results)@.len(),
            results@.len() <= (if old(results)@.len() >= num_comps {
                old(results)@.len() as int
            } else {
                num_comps as int
            }),
            forall|j: int|
                0 <= j < old(results)@.len() ==> results@[j] == #[trigger] old(results)@[j],
            forall|j: int| old(results)@.len() <= j < results@.len() ==> results@[j] is None,
        decreases num_comps - results@.len(),
    {
        results.push(None);
    }
}

/// The column headers of the leaderboard table: `comp 1` through
/// `comp <num_comps>`.
pub fn competition_scores_table_headers(num_comps: u64) -> (headers: Vec<String>)
    requires
        num_comps < u64::MAX,
    ensures
        headers@.len() == num_comps,
        forall|i: int|
            0 <= i < num_comps ==> (#[trigger] headers@[i])@ == ("comp ")@ + dec_str(i + 1),
{
    let mut headers: Vec<String> = Vec::new();
    let mut i: u64 = 0;
    while i < num_comps
        invariant
            i <= num_comps,
            headers@.len() == i,
            forall|j: int|
                0 <= j < i ==> (#[trigger] headers@[j])@ == ("comp ")@ + dec_str(j + 1),
        decreases num_comps - i,
    {
        let mut h = String::new();
        h.append("comp ");
        h.append(crate::numbers::u64_to_string(i + 1).as_str());
        proof {
            assert(h@ =~= ("comp ")@ + dec_str(i + 1));
        }
        headers.push(h);
        i = i + 1;
    }
    headers
}

} // verus!
