//! The earlier generation of the site's data model: competition
//! definitions and submitted results, with their write-side validation.
//!
//! Calendar values reach the library as plain fields; the boundary
//! converts to and from its datetime types.

use vstd::prelude::*;

use crate::dates::{Date, UtcDateTime};

verus! {

/// Why a batch of competition results is rejected before anything is
/// stored: one of its games lists a different number of players than the
/// competition declares.
#[derive(Debug, Clone, PartialEq, Eq)]
pub enum CompetitionResultsError {
    Consistency { num_players: i16, players: Vec<String> },
}

impl CompetitionResultsError {
    /// A short description of the error.
    pub fn message(&self) -> (m: &'static str)
        ensures
            m@ == "Consistency error in competition results"@,
    {
        "Consistency error in competition results"
    }
}

/// A game variant as the site names it.
#[derive(Debug, Clone, PartialEq, Eq)]
pub struct Variant {
    pub id: i32,
    pub name: String,
}

/// A competition as an admin submits it, optional fields still unset.
#[derive(Debug, Clone, PartialEq, Eq)]
pub struct PartiallySpecifiedCompetition {
    pub num_players: i16,
    pub variant: String,
    pub end_time: Option<UtcDateTime>,
    pub deckplay_enabled: Option<bool>,
    pub empty_clues_enabled: Option<bool>,
    pub characters_enabled: Option<bool>,
    pub additional_rules: Option<String>,
    pub base_seed_names: Option<Vec<String>>,
}

/// A fully specified competition.
#[derive(Debug, Clone, PartialEq, Eq)]
pub struct Competition {
    pub num_players: i16,
    pub variant: String,
    pub end_time: UtcDateTime,
    pub deckplay_enabled: bool,
    pub empty_clues_enabled: bool,
    pub characters_enabled: bool,
    pub additional_rules: String,
    pub base_seed_names: Vec<String>,
}

/// One submitted game result.
#[derive(Debug, Clone, PartialEq, Eq)]
pub struct GameResult {
    pub players: Vec<String>,
    pub game_id: i64,
    pub score: i16,
    pub turns: i16,
    pub datetime_started: i64,
    pub datetime_ended: i64,
}

/// All submitted games of one seed.
#[derive(Debug, Clone, PartialEq, Eq)]
pub struct SeedResults {
    pub base_seed_name: String,
    pub games_results: Vec<GameResult>,
}

/// A whole submitted batch of results for one competition.
#[derive(Debug, Clone, PartialEq, Eq)]
pub struct CompetitionResults {
    pub num_players: i16,
    pub variant_id: i32,
    pub end_date: Date,
    pub seeds_results: Vec<SeedResults>,
}

/// The default seed name of this generation: the `hl-comp-` prefix, the
/// end date, and the seed's number.
pub open spec fn default_seed_name(d: Date, k: int) -> Seq<char> {
    ("hl-comp-")@ + crate::numbers::dec4(d.year as int) + ("-")@ + crate::numbers::dec2(
        d.month as int,
    ) + ("-")@ + crate::numbers::dec2(d.day as int) + ("-")@ + seq![crate::numbers::dec_digit(k)]
}

/// What filling a partial competition with an end time must produce.
pub open spec fn filled_spec(
    p: PartiallySpecifiedCompetition,
    end: UtcDateTime,
    c: Competition,
) -> bool {
    &&& c.num_players == p.num_players
    &&& c.variant == p.variant
    &&& c.end_time == end
    &&& c.deckplay_enabled == (match p.deckplay_enabled {
        Some(b) => b,
        None => true,
    })
    &&& c.empty_clues_enabled == (match p.empty_clues_enabled {
        Some(b) => b,
        None => true,
    })
    &&& c.characters_enabled == (match p.characters_enabled {
        Some(b) => b,
        None => true,
    })
    &&& (match p.additional_rules {
        Some(s) => c.additional_rules == s,
        None => c.additional_rules@.len() == 0,
    })
    &&& (match p.base_seed_names {
        Some(names) => c.base_seed_names == names,
        None => {
            &&& c.base_seed_names@.len() == 4
            &&& forall|k: int|
                0 <= k < 4 ==> (#[trigger] c.base_seed_names@[k])@ == default_seed_name(
                    end.date,
                    k + 1,
                )
        },
    })
}

impl PartiallySpecifiedCompetition {
    /// Fill the given end time and every unset field's default: this
    /// generation turns every optional rule on and names four seeds after
    /// the end date.
    pub fn fill_with_end_time(self, end: UtcDateTime) -> (c: Competition)
        requires
            self.base_seed_names is None ==> 0 <= end.date.year <= 9999 && end.date.month < 100
                && end.date.day < 100,
        ensures
            filled_spec(self, end, c),
    {
        let deckplay_enabled = match self.deckplay_enabled {
            Some(b) => b,
            None => true,
        };
        let empty_clues_enabled = match self.empty_clues_enabled {
            Some(b) => b,
            None => true,
        };
        let characters_enabled = match self.characters_enabled {
            Some(b) => b,
            None => true,
        };
        let additional_rules = match self.additional_rules {
            Some(s) => s,
            None => String::new(),
        };
        let base_seed_names = match self.base_seed_names {
            Some(names) => names,
            None => {
                let mut prefix = String::new();
                prefix.append("hl-comp-");
                prefix.append(crate::numbers::four_digit_string(end.date.year as u16).as_str());
                prefix.append("-");
                prefix.append(crate::numbers::two_digit_string(end.date.month).as_str());
                prefix.append("-");
                prefix.append(crate::numbers::two_digit_string(end.date.day).as_str());
                prefix.append("-");
                let ghost pv = ("hl-comp-")@ + crate::numbers::dec4(end.date.year as int) + ("-")@
                    + crate::numbers::dec2(end.date.month as int) + ("-")@
                    + crate::numbers::dec2(end.date.day as int) + ("-")@;
                proof {
                    assert(prefix@ =~= pv);
                }
                let mut names: Vec<String> = Vec::new();
                let mut n1 = prefix.clone();
                n1.append("1");
                let mut n2 = prefix.clone();
                n2.append("2");
                let mut n3 = prefix.clone();
                n3.append("3");
                let mut n4 = prefix.clone();
                n4.append("4");
                names.push(n1);
                names.push(n2);
                names.push(n3);
                names.push(n4);
                proof {
                    reveal_strlit("1");
                    reveal_strlit("2");
                    reveal_strlit("3");
                    reveal_strlit("4");
                    assert(names@[0]@ =~= default_seed_name(end.date, 1));
                    assert(names@[1]@ =~= default_seed_name(end.date, 2));
                    assert(names@[2]@ =~= default_seed_name(end.date, 3));
                    assert(names@[3]@ =~= default_seed_name(end.date, 4));
                }
                names
            },
        };
        Competition {
            num_players: self.num_players,
            variant: self.variant,
            end_time: end,
            deckplay_enabled,
            empty_clues_enabled,
            characters_enabled,
            additional_rules,
            base_seed_names,
        }
    }

    /// Fill every unset field with its default. A missing end time becomes
    /// 13:00 UTC on the default end day, as the clock decides; everything
    /// else is pinned by `filled_spec`.
    pub fn fill_missing_values_with_defaults(self) -> (r: Result<
        Competition,
        crate::competition::CompetitionDefaultsError,
    >)
        ensures
            r matches Ok(c) ==> filled_spec(self, c.end_time, c),
            r matches Ok(c) ==> (self.end_time matches Some(e) ==> c.end_time == e),
            r matches Ok(c) ==> (self.end_time is None ==> c.end_time.hour == 13
                && c.end_time.minute == 0 && c.end_time.second == 0),
            r matches Err(x) ==> x == crate::competition::CompetitionDefaultsError::DateOutOfRange,
            self.end_time matches Some(e) ==> (r is Err <==> (self.base_seed_names is None && !(0
                <= e.date.year <= 9999 && e.date.month < 100 && e.date.day < 100))),
    {
        let ghost s0 = self;
        let end = match self.end_time {
            Some(e) => e,
            None => {
                let (today, weekday) = crate::dates::current_utc_date();
                let days = crate::dates::days_until_default_end(weekday);
                match crate::dates::date_plus_days(&today, days) {
                    Some(d) => UtcDateTime { date: d, hour: 13, minute: 0, second: 0 },
                    None => {
                        return Err(crate::competition::CompetitionDefaultsError::DateOutOfRange);
                    },
                }
            },
        };
        if self.base_seed_names.is_none() {
            let y = end.date.year;
            if !(0 <= y && y <= 9999) || end.date.month >= 100 || end.date.day >= 100 {
                return Err(crate::competition::CompetitionDefaultsError::DateOutOfRange);
            }
        }
        let ghost e0 = end;
        let c = self.fill_with_end_time(end);
        proof {
            assert(filled_spec(s0, e0, c));
            assert(c.end_time == e0);
        }
        Ok(c)
    }
}

/// The error names the declared count and carries the offending roster.
pub open spec fn consistency_error_about(
    e: CompetitionResultsError,
    np: i16,
    roster: Seq<String>,
) -> bool {
    match e {
        CompetitionResultsError::Consistency { num_players, players } => num_players == np
            && players@ == roster,
    }
}

/// A game's roster agrees with the declared player count.
pub open spec fn result_count_ok(g: GameResult, num_players: i16) -> bool {
    num_players >= 0 && g.players@.len() == num_players as int
}

/// Every game of every seed agrees with the declared player count.
pub open spec fn results_consistent(cr: CompetitionResults) -> bool {
    forall|s: int, g: int|
        0 <= s < cr.seeds_results@.len() && 0 <= g
            < (#[trigger] cr.seeds_results@[s]).games_results@.len() ==> result_count_ok(
            #[trigger] cr.seeds_results@[s].games_results@[g],
            cr.num_players,
        )
}

/// An element-wise copy of a list of names.
fn clone_names(v: &Vec<String>) -> (r: Vec<String>)
    ensures
        r@ == v@,
{
    let mut r: Vec<String> = Vec::new();
    let mut i: usize = 0;
    while i < v.len()
        invariant
            i <= v@.len(),
            r@ =~= v@.take(i as int),
        decreases v@.len() - i,
    {
        r.push(v[i].clone());
        proof {
            assert(r@ =~= v@.take(i + 1));
        }
        i = i + 1;
    }
    proof {
        assert(v@.take(v@.len() as int) =~= v@);
    }
    r
}

impl CompetitionResults {
    /// Accept the batch only if every game of every seed lists exactly the
    /// declared number of players; the whole batch is rejected otherwise.
    pub fn validate(&self) -> (r: Result<(), CompetitionResultsError>)
        ensures
            r is Ok <==> results_consistent(*self),
            r matches Err(e) ==> exists|s: int, g: int|
                0 <= s < self.seeds_results@.len() && 0 <= g
                    < (#[trigger] self.seeds_results@[s]).games_results@.len()
                    && !result_count_ok(
                    #[trigger] self.seeds_results@[s].games_results@[g],
                    self.num_players,
                ) && consistency_error_about(
                    e,
                    self.num_players,
                    self.seeds_results@[s].games_results@[g].players@,
                ) && (forall|s2: int, g2: int|
                    0 <= s2 < s && 0 <= g2
                        < (#[trigger] self.seeds_results@[s2]).games_results@.len()
                        ==> result_count_ok(
                        #[trigger] self.seeds_results@[s2].games_results@[g2],
                        self.num_players,
                    )) && (forall|g2: int|
                    0 <= g2 < g ==> result_count_ok(
                        #[trigger] self.seeds_results@[s].games_results@[g2],
                        self.num_players,
                    )),
    {
        let mut s: usize = 0;
        while s < self.seeds_results.len()
            invariant
                s <= self.seeds_results@.len(),
                forall|s2: int, g: int|
                    0 <= s2 < s && 0 <= g
                        < (#[trigger] self.seeds_results@[s2]).games_results@.len()
                        ==> result_count_ok(
                        #[trigger] self.seeds_results@[s2].games_results@[g],
                        self.num_players,
                    ),
            decreases self.seeds_results@.len() - s,
        {
            let seed_results = &self.seeds_results[s];
            let mut g: usize = 0;
            while g < seed_results.games_results.len()
                invariant
                    g <= seed_results.games_results@.len(),
                    seed_results == &self.seeds_results[s as int],
                    s < self.seeds_results@.len(),
                    forall|s2: int, g2: int|
                        0 <= s2 < s && 0 <= g2
                            < (#[trigger] self.seeds_results@[s2]).games_results@.len()
                            ==> result_count_ok(
                            #[trigger] self.seeds_results@[s2].games_results@[g2],
                            self.num_players,
                        ),
                    forall|g2: int|
                        0 <= g2 < g ==> result_count_ok(
                            #[trigger] seed_results.games_results@[g2],
                            self.num_players,
                        ),
                decreases seed_results.games_results@.len() - g,
            {
                let game = &seed_results.games_results[g];
                let ok = self.num_players >= 0 && game.players.len()
                    == self.num_players as usize;
                if !ok {
                    let err = CompetitionResultsError::Consistency {
                        num_players: self.num_players,
                        players: clone_names(&game.players),
                    };
                    proof {
                        let si = s as int;
                        let gi = g as int;
                        assert(!result_count_ok(
                            self.seeds_results@[si].games_results@[gi],
                            self.num_players,
                        ));
                        assert(consistency_error_about(
                            err,
                            self.num_players,
                            self.seeds_results@[si].games_results@[gi].players@,
                        ));
                        assert(exists|s2: int, g2: int|
                            0 <= s2 < self.seeds_results@.len() && 0 <= g2
                                < (#[trigger] self.seeds_results@[s2]).games_results@.len()
                                && !result_count_ok(
                                #[trigger] self.seeds_results@[s2].games_results@[g2],
                                self.num_players,
                            ) && consistency_error_about(
                                err,
                                self.num_players,
                                self.seeds_results@[s2].games_results@[g2].players@,
                            ) && (forall|s3: int, g3: int|
                                0 <= s3 < s2 && 0 <= g3
                                    < (#[trigger] self.seeds_results@[s3]).games_results@.len()
                                    ==> result_count_ok(
                                    #[trigger] self.seeds_results@[s3].games_results@[g3],
                                    self.num_players,
                                )) && (forall|g3: int|
                                0 <= g3 < g2 ==> result_count_ok(
                                    #[trigger] self.seeds_results@[s2].games_results@[g3],
                                    self.num_players,
                                ))) by {
                            assert(0 <= si < self.seeds_results@.len() && 0 <= gi
                                < self.seeds_results@[si].games_results@.len()
                                && !result_count_ok(
                                self.seeds_results@[si].games_results@[gi],
                                self.num_players,
                            ) && consistency_error_about(
                                err,
                                self.num_players,
                                self.seeds_results@[si].games_results@[gi].players@,
                            ) && (forall|s3: int, g3: int|
                                0 <= s3 < si && 0 <= g3
                                    < (#[trigger] self.seeds_results@[s3]).games_results@.len()
                                    ==> result_count_ok(
                                    #[trigger] self.seeds_results@[s3].games_results@[g3],
                                    self.num_players,
                                )) && (forall|g3: int|
                                0 <= g3 < gi ==> result_count_ok(
                                    #[trigger] self.seeds_results@[si].games_results@[g3],
                                    self.num_players,
                                )));
                        }
                    }
                    return Err(err);
                }
                g = g + 1;
            }
            s = s + 1;
        }
        Ok(())
    }
}

} // verus!
