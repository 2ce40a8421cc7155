//! The flat input rows of the standings nester.
//!
//! One row per player per game, as the precomputed standings view hands
//! them over. The aggregate fields (`final_rank`, `fractional_mp`,
//! `sum_mp`) are per player, repeated on each of the player's rows.
//!
//! `fractional_mp` reaches the library as the bit pattern of the upstream
//! IEEE-754 double; the nester only carries it through, so the bits are all
//! it needs, and the boundary converts with `f64::to_bits`/`from_bits`.

use vstd::prelude::*;

verus! {

/// A flat per-player-per-game standings row.
#[derive(Debug, Clone, PartialEq, Eq)]
pub struct SingleCompetitionResult {
    pub final_rank: i64,
    pub fractional_mp: u64,
    pub sum_mp: i64,
    pub player_name: String,
    pub base_seed_name: String,
    pub seed_matchpoints: i32,
    pub site_game_id: i64,
    pub replay_url: String,
    pub score: i16,
    pub turns: i16,
    pub game_duration_seconds: i32,
}

/// The mathematical value of a row: integers and character sequences.
pub struct RowModel {
    pub final_rank: int,
    pub fractional_mp: int,
    pub sum_mp: int,
    pub player_name: Seq<char>,
    pub base_seed_name: Seq<char>,
    pub seed_matchpoints: int,
    pub site_game_id: int,
    pub replay_url: Seq<char>,
    pub score: int,
    pub turns: int,
    pub game_duration_seconds: int,
}

impl View for SingleCompetitionResult {
    type V = RowModel;

    open spec fn view(&self) -> RowModel {
        RowModel {
            final_rank: self.final_rank as int,
            fractional_mp: self.fractional_mp as int,
            sum_mp: self.sum_mp as int,
            player_name: self.player_name@,
            base_seed_name: self.base_seed_name@,
            seed_matchpoints: self.seed_matchpoints as int,
            site_game_id: self.site_game_id as int,
            replay_url: self.replay_url@,
            score: self.score as int,
            turns: self.turns as int,
            game_duration_seconds: self.game_duration_seconds as int,
        }
    }
}

/// The models of a whole result set.
pub open spec fn rows_model(rows: Seq<SingleCompetitionResult>) -> Seq<RowModel> {
    rows.map_values(|r: SingleCompetitionResult| r@)
}

/// The views of a sequence of strings.
pub open spec fn strs_view(names: Seq<String>) -> Seq<Seq<char>> {
    names.map_values(|n: String| n@)
}

} // verus!
