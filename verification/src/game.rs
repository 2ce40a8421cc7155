//! Game submissions for one seed, and their write-side validation.
//!
//! Timestamps reach the library as Unix epoch seconds; the boundary
//! converts to and from its calendar types.

use vstd::prelude::*;

verus! {

/// Why a batch of seed games is rejected before anything is stored: one of
/// its games lists a different number of players than the competition
/// declares. The offending roster is carried along.
#[derive(Debug, Clone, PartialEq, Eq)]
pub enum SeedGamesError {
    Consistency { num_players: i16, players: Vec<String> },
}

impl SeedGamesError {
    /// A short description of the error.
    pub fn message(&self) -> (m: &'static str)
        ensures
            m@ == "Consistency error in competition results"@,
    {
        "Consistency error in competition results"
    }
}

/// One played game: who played it, its site id, outcome, and when.
#[derive(Debug, Clone, PartialEq, Eq)]
pub struct Game {
    pub players: Vec<String>,
    pub game_id: i64,
    pub score: i16,
    pub turns: i16,
    pub datetime_started: i64,
    pub datetime_ended: i64,
}

/// All games submitted for one seed of a competition.
#[derive(Debug, Clone, PartialEq, Eq)]
pub struct SeedGames {
    pub num_players: i16,
    pub variant_id: i32,
    pub base_seed_name: String,
    pub games: Vec<Game>,
}

/// An element-wise copy of a list of names.
fn clone_names(v: &Vec<String>) -> (r: Vec<String>)
    ensures
        r@ == v@,
{
    let mut r: Vec<String> = Vec::new();
    let mut i: usize = 0;
    while i < v.len()
        invariant
            i <= v@.len(),
            r@ =~= v@.take(i as int),
        decreases v@.len() - i,
    {
        r.push(v[i].clone());
        proof {
            assert(r@ =~= v@.take(i + 1));
        }
        i = i + 1;
    }
    proof {
        assert(v@.take(v@.len() as int) =~= v@);
    }
    r
}

/// The error names the declared count and carries the offending roster.
pub open spec fn consistency_error_about(e: SeedGamesError, np: i16, roster: Seq<String>) -> bool {
    match e {
        SeedGamesError::Consistency { num_players, players } => num_players == np && players@
            == roster,
    }
}

/// A game's roster agrees with the declared player count.
pub open spec fn game_count_ok(g: Game, num_players: i16) -> bool {
    num_players >= 0 && g.players@.len() == num_players as int
}

impl SeedGames {
    /// Accept the batch only if every game lists exactly the declared
    /// number of players; the whole batch is rejected on the first game
    /// that does not.
    pub fn validate(&self) -> (r: Result<(), SeedGamesError>)
        ensures
            r is Ok <==> (forall|i: int|
                0 <= i < self.games@.len() ==> game_count_ok(#[trigger] self.games@[i], self.num_players)),
            r matches Err(e) ==> exists|i: int|
                0 <= i < self.games@.len() && !game_count_ok(#[trigger] self.games@[i], self.num_players)
                    && consistency_error_about(e, self.num_players, self.games@[i].players@)
                    && (forall|j: int|
                    0 <= j < i ==> game_count_ok(#[trigger] self.games@[j], self.num_players)),
    {
        let mut i: usize = 0;
        while i < self.games.len()
            invariant
                i <= self.games@.len(),
                forall|j: int| 0 <= j < i ==> game_count_ok(#[trigger] self.games@[j], self.num_players),
            decreases self.games@.len() - i,
        {
            let g = &self.games[i];
            let ok = self.num_players >= 0 && g.players.len() == self.num_players as usize;
            if !ok {
                proof {
                    assert(!game_count_ok(self.games@[i as int], self.num_players));
                }
                return Err(
                    SeedGamesError::Consistency {
                        num_players: self.num_players,
                        players: clone_names(&g.players),
                    },
                );
            }
            i = i + 1;
        }
        Ok(())
    }
}

} // verus!
