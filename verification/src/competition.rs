//! Competition definitions: filling an admin's partial submission with
//! defaults, the derived display quantities, and the competition-level
//! entry into the standings nester.

use vstd::prelude::*;

use crate::dates::{Date, UtcDateTime, current_utc_date, date_plus_days, days_until_default_end};
use crate::nested::{
    NestError, TeamResults, has_oversized_team, nest_rows_with_seed_names, nest_teams_post,
    teams_model,
};
use crate::numbers::{
    dec2, dec4, dec_digit, dec_signed, four_digit_string, i64_to_string, leftover_seconds_of,
    minutes_of, trunc_div, trunc_rem, two_digit_string,
};
use crate::rows::{SingleCompetitionResult, rows_model, strs_view};

verus! {

/// A clock setting: base time and per-turn increment, in seconds.
#[derive(Debug, Clone, Copy, PartialEq, Eq)]
pub struct TimeControl {
    pub base_time_seconds: i16,
    pub turn_time_seconds: i16,
}

/// The rules one competition is played under.
#[derive(Debug, Clone, PartialEq, Eq)]
pub struct CompetitionRuleset {
    pub num_players: i16,
    pub variant_name: String,
    pub end_datetime: UtcDateTime,
    pub deckplay_enabled: bool,
    pub empty_clues_enabled: bool,
    pub characters_enabled: bool,
    pub scoring_type: String,
    pub time_control: Option<TimeControl>,
    pub additional_rules: Option<String>,
}

/// A fully specified competition.
#[derive(Debug, Clone, PartialEq, Eq)]
pub struct Competition {
    pub ruleset: CompetitionRuleset,
    pub base_seed_names: Vec<String>,
    pub series_names: Vec<String>,
}

/// A competition as an admin submits it, optional fields still unset.
#[derive(Debug, Clone, PartialEq, Eq)]
pub struct PartiallySpecifiedCompetition {
    pub num_players: i16,
    pub variant_name: String,
    pub end_datetime: Option<UtcDateTime>,
    pub deckplay_enabled: Option<bool>,
    pub empty_clues_enabled: Option<bool>,
    pub characters_enabled: Option<bool>,
    pub scoring_type: Option<String>,
    pub time_control: Option<TimeControl>,
    pub additional_rules: Option<String>,
    pub base_seed_names: Option<Vec<String>>,
    pub series_names: Option<Vec<String>>,
}

/// Why defaults cannot be filled in: the computed or supplied end date
/// falls outside the years a default seed name can spell.
#[derive(Debug, Clone, Copy, PartialEq, Eq)]
pub enum CompetitionDefaultsError {
    DateOutOfRange,
}

/// The default seed name for a competition ending on a date: the `hc-`
/// prefix, the date, and the seed's number.
pub open spec fn default_seed_name(d: Date, k: int) -> Seq<char> {
    ("hc-")@ + dec4(d.year as int) + ("-")@ + dec2(d.month as int) + ("-")@ + dec2(d.day as int)
        + ("-")@ + seq![dec_digit(k)]
}

/// What filling a partial competition with an end datetime must produce.
pub open spec fn filled_spec(
    p: PartiallySpecifiedCompetition,
    end: UtcDateTime,
    c: Competition,
) -> bool {
    &&& c.ruleset.num_players == p.num_players
    &&& c.ruleset.variant_name == p.variant_name
    &&& c.ruleset.end_datetime == end
    &&& c.ruleset.deckplay_enabled == (match p.deckplay_enabled {
        Some(b) => b,
        None => true,
    })
    &&& c.ruleset.empty_clues_enabled == (match p.empty_clues_enabled {
        Some(b) => b,
        None => false,
    })
    &&& c.ruleset.characters_enabled == (match p.characters_enabled {
        Some(b) => b,
        None => false,
    })
    &&& (match p.scoring_type {
        Some(s) => c.ruleset.scoring_type == s,
        None => c.ruleset.scoring_type@ == ("standard")@,
    })
    &&& c.ruleset.time_control == p.time_control
    &&& c.ruleset.additional_rules == p.additional_rules
    &&& (match p.base_seed_names {
        Some(names) => c.base_seed_names == names,
        None => {
            &&& c.base_seed_names@.len() == 4
            &&& forall|k: int|
                0 <= k < 4 ==> (#[trigger] c.base_seed_names@[k])@ == default_seed_name(
                    end.date,
                    k + 1,
                )
        },
    })
    &&& (match p.series_names {
        Some(names) => c.series_names == names,
        None => c.series_names@.len() == 0,
    })
}

impl PartiallySpecifiedCompetition {
    /// Fill the given end datetime and every unset field's default: deck
    /// plays on, empty clues and characters off, standard scoring, four
    /// seeds named after the end date, no series.
    pub fn fill_with_end_datetime(self, end: UtcDateTime) -> (c: Competition)
        requires
            self.base_seed_names is None ==> 0 <= end.date.year <= 9999 && end.date.month < 100
                && end.date.day < 100,
        ensures
            filled_spec(self, end, c),
    {
        let deckplay_enabled = match self.deckplay_enabled {
            Some(b) => b,
            None => true,
        };
        let empty_clues_enabled = match self.empty_clues_enabled {
            Some(b) => b,
            None => false,
        };
        let characters_enabled = match self.characters_enabled {
            Some(b) => b,
            None => false,
        };
        let scoring_type = match self.scoring_type {
            Some(s) => s,
            None => "standard".to_owned(),
        };
        let base_seed_names = match self.base_seed_names {
            Some(names) => names,
            None => {
                let mut prefix = String::new();
                prefix.append("hc-");
                prefix.append(four_digit_string(end.date.year as u16).as_str());
                prefix.append("-");
                prefix.append(two_digit_string(end.date.month).as_str());
                prefix.append("-");
                prefix.append(two_digit_string(end.date.day).as_str());
                prefix.append("-");
                let ghost pv = ("hc-")@ + dec4(end.date.year as int) + ("-")@ + dec2(
                    end.date.month as int,
                ) + ("-")@ + dec2(end.date.day as int) + ("-")@;
                proof {
                    assert(prefix@ =~= pv);
                }
                let mut names: Vec<String> = Vec::new();
                let mut n1 = prefix.clone();
                n1.append("1");
                let mut n2 = prefix.clone();
                n2.append("2");
                let mut n3 = prefix.clone();
                n3.append("3");
                let mut n4 = prefix.clone();
                n4.append("4");
                names.push(n1);
                names.push(n2);
                names.push(n3);
                names.push(n4);
                proof {
                    reveal_strlit("1");
                    reveal_strlit("2");
                    reveal_strlit("3");
                    reveal_strlit("4");
                    assert(names@[0]@ =~= default_seed_name(end.date, 1));
                    assert(names@[1]@ =~= default_seed_name(end.date, 2));
                    assert(names@[2]@ =~= default_seed_name(end.date, 3));
                    assert(names@[3]@ =~= default_seed_name(end.date, 4));
                }
                names
            },
        };
        let series_names = match self.series_names {
            Some(names) => names,
            None => Vec::new(),
        };
        Competition {
            ruleset: CompetitionRuleset {
                num_players: self.num_players,
                variant_name: self.variant_name,
                end_datetime: end,
                deckplay_enabled,
                empty_clues_enabled,
                characters_enabled,
                scoring_type,
                time_control: self.time_control,
                additional_rules: self.additional_rules,
            },
            base_seed_names,
            series_names,
        }
    }

    /// Fill every unset field with its default. A missing end datetime
    /// becomes 13:00 UTC on the default end day: the Monday after next
    /// for competitions created early in the week, one week later
    /// otherwise. The clock decides which day that is; everything else is
    /// pinned by `filled_spec`.
    pub fn fill_missing_values_with_defaults(self) -> (r: Result<
        Competition,
        CompetitionDefaultsError,
    >)
        ensures
            r matches Ok(c) ==> filled_spec(self, c.ruleset.end_datetime, c),
            r matches Ok(c) ==> (self.end_datetime matches Some(e) ==> c.ruleset.end_datetime
                == e),
            r matches Ok(c) ==> (self.end_datetime is None ==> c.ruleset.end_datetime.hour == 13
                && c.ruleset.end_datetime.minute == 0 && c.ruleset.end_datetime.second == 0),
            r matches Err(x) ==> x == CompetitionDefaultsError::DateOutOfRange,
            self.end_datetime matches Some(e) ==> (r is Err <==> (self.base_seed_names is None
                && !(0 <= e.date.year <= 9999 && e.date.month < 100 && e.date.day < 100))),
    {
        let end = match self.end_datetime {
            Some(e) => e,
            None => {
                let (today, weekday) = current_utc_date();
                let days = days_until_default_end(weekday);
                match date_plus_days(&today, days) {
                    Some(d) => UtcDateTime { date: d, hour: 13, minute: 0, second: 0 },
                    None => {
                        return Err(CompetitionDefaultsError::DateOutOfRange);
                    },
                }
            },
        };
        if self.base_seed_names.is_none() {
            let y = end.date.year;
            if !(0 <= y && y <= 9999) || end.date.month >= 100 || end.date.day >= 100 {
                return Err(CompetitionDefaultsError::DateOutOfRange);
            }
        }
        let ghost e0 = end;
        let c = self.fill_with_end_datetime(end);
        proof {
            assert(filled_spec(self, e0, c));
            assert(c.ruleset.end_datetime == e0);
        }
        Ok(c)
    }
}

/// The query-string value of a flag.
pub open spec fn bool_str(b: bool) -> Seq<char> {
    if b {
        ("true")@
    } else {
        ("false")@
    }
}

/// The name a result depends on: how urlencoding spells a string in a
/// query component.
pub uninterp spec fn uri_encoded(s: Seq<char>) -> Seq<char>;

/// Relies on urlencoding::encode: percent-encodes every byte except ASCII
/// alphanumerics and `-`, `_`, `.`, `~`; a function of the characters
/// alone.
#[verifier::external_body]
fn uri_encode(s: &str) -> (r: String)
    ensures
        r@ == uri_encoded(s@),
        s@.len() == 0 ==> r@.len() == 0,
{
    urlencoding::encode(s).into_owned()
}

/// The table-creation link of one seed.
pub open spec fn create_table_url(
    variant_name: Seq<char>,
    deckplay_enabled: bool,
    empty_clues_enabled: bool,
    characters_enabled: bool,
    time_control: Option<TimeControl>,
    seed: Seq<char>,
) -> Seq<char> {
    ("https://hanab.live/create-table?name=!seed%20")@ + uri_encoded(seed) + ("&variantName=")@
        + uri_encoded(variant_name) + ("&deckPlays=")@ + bool_str(deckplay_enabled) + (
    "&emptyClues=")@ + bool_str(empty_clues_enabled) + ("&detrimentalCharacters=")@ + bool_str(
        characters_enabled,
    ) + (match time_control {
        None => Seq::<char>::empty(),
        Some(tc) => ("&timed=true&timeBase=")@ + dec_signed(tc.base_time_seconds as int) + (
        "&timePerTurn=")@ + dec_signed(tc.turn_time_seconds as int),
    })
}

/// The query-string value of a flag, as a string.
fn bool_string(b: bool) -> (s: &'static str)
    ensures
        s@ == bool_str(b),
{
    if b {
        "true"
    } else {
        "false"
    }
}

impl Competition {
    /// One table-creation link per seed, in seed order.
    pub fn generate_create_table_urls(&self) -> (urls: Vec<String>)
        ensures
            urls@.len() == self.base_seed_names@.len(),
            forall|i: int|
                0 <= i < urls@.len() ==> (#[trigger] urls@[i])@ == create_table_url(
                    self.ruleset.variant_name@,
                    self.ruleset.deckplay_enabled,
                    self.ruleset.empty_clues_enabled,
                    self.ruleset.characters_enabled,
                    self.ruleset.time_control,
                    self.base_seed_names@[i]@,
                ),
    {
        let mut tc_part = String::new();
        match &self.ruleset.time_control {
            None => {},
            Some(tc) => {
                tc_part.append("&timed=true&timeBase=");
                tc_part.append(i64_to_string(tc.base_time_seconds as i64).as_str());
                tc_part.append("&timePerTurn=");
                tc_part.append(i64_to_string(tc.turn_time_seconds as i64).as_str());
            },
        }
        proof {
            match self.ruleset.time_control {
                None => {
                    assert(tc_part@ =~= Seq::<char>::empty());
                },
                Some(tc) => {
                    assert(tc_part@ =~= ("&timed=true&timeBase=")@ + dec_signed(
                        tc.base_time_seconds as int,
                    ) + ("&timePerTurn=")@ + dec_signed(tc.turn_time_seconds as int));
                },
            }
        }
        let encoded_variant = uri_encode(self.ruleset.variant_name.as_str());
        let mut urls: Vec<String> = Vec::new();
        let mut i: usize = 0;
        while i < self.base_seed_names.len()
            invariant
                i <= self.base_seed_names@.len(),
                urls@.len() == i,
                encoded_variant@ == uri_encoded(self.ruleset.variant_name@),
                tc_part@ == (match self.ruleset.time_control {
                    None => Seq::<char>::empty(),
                    Some(tc) => ("&timed=true&timeBase=")@ + dec_signed(
                        tc.base_time_seconds as int,
                    ) + ("&timePerTurn=")@ + dec_signed(tc.turn_time_seconds as int),
                }),
                forall|j: int|
                    0 <= j < i ==> (#[trigger] urls@[j])@ == create_table_url(
                        self.ruleset.variant_name@,
                        self.ruleset.deckplay_enabled,
                        self.ruleset.empty_clues_enabled,
                        self.ruleset.characters_enabled,
                        self.ruleset.time_control,
                        self.base_seed_names@[j]@,
                    ),
            decreases self.base_seed_names@.len() - i,
        {
            let encoded_seed = uri_encode(self.base_seed_names[i].as_str());
            let mut url = String::new();
            url.append("https://hanab.live/create-table?name=!seed%20");
            url.append(encoded_seed.as_str());
            url.append("&variantName=");
            url.append(encoded_variant.as_str());
            url.append("&deckPlays=");
            url.append(bool_string(self.ruleset.deckplay_enabled));
            url.append("&emptyClues=");
            url.append(bool_string(self.ruleset.empty_clues_enabled));
            url.append("&detrimentalCharacters=");
            url.append(bool_string(self.ruleset.characters_enabled));
            url.append(tc_part.as_str());
            proof {
                assert(url@ =~= create_table_url(
                    self.ruleset.variant_name@,
                    self.ruleset.deckplay_enabled,
                    self.ruleset.empty_clues_enabled,
                    self.ruleset.characters_enabled,
                    self.ruleset.time_control,
                    self.base_seed_names@[i as int]@,
                ));
            }
            urls.push(url);
            i = i + 1;
        }
        urls
    }
}

/// One seed name with its table-creation link, side by side for display.
#[derive(Debug, Clone, PartialEq, Eq)]
pub struct BaseSeedNameCreateTableUrlPair {
    base_seed_name: String,
    create_table_url: String,
}

impl BaseSeedNameCreateTableUrlPair {
    /// The seed name of the pair.
    pub closed spec fn spec_base_seed_name(&self) -> Seq<char> {
        self.base_seed_name@
    }

    /// The link of the pair.
    pub closed spec fn spec_create_table_url(&self) -> Seq<char> {
        self.create_table_url@
    }

    pub fn base_seed_name(&self) -> (r: &String)
        ensures
            r@ == self.spec_base_seed_name(),
    {
        &self.base_seed_name
    }

    pub fn create_table_url(&self) -> (r: &String)
        ensures
            r@ == self.spec_create_table_url(),
    {
        &self.create_table_url
    }
}

/// The clock setting as displayed: whole minutes, a colon, leftover
/// seconds, for the base time and the increment.
pub open spec fn formatted_time_control_spec(time_control: Option<TimeControl>) -> Seq<char> {
    match time_control {
        None => Seq::<char>::empty(),
        Some(tc) => dec_signed(trunc_div(tc.base_time_seconds as int, 60)) + (":")@ + dec_signed(
            trunc_rem(tc.base_time_seconds as int, 60),
        ) + (" + ")@ + dec_signed(trunc_div(tc.turn_time_seconds as int, 60)) + (":")@
            + dec_signed(trunc_rem(tc.turn_time_seconds as int, 60)),
    }
}

/// A competition with everything its pages display: its name, one
/// table-creation link per seed, and the formatted clock setting.
#[derive(Debug, Clone, PartialEq, Eq)]
pub struct CompetitionWithDerivedQuantities {
    pub competition: Competition,
    pub competition_name: String,
    pub create_table_urls: Vec<BaseSeedNameCreateTableUrlPair>,
    pub formatted_time_control: String,
}

impl CompetitionWithDerivedQuantities {
    /// Derive the display quantities of a competition.
    pub fn new(competition: Competition, competition_name: String) -> (r: Self)
        ensures
            r.competition == competition,
            r.competition_name == competition_name,
            r.formatted_time_control@ == formatted_time_control_spec(
                competition.ruleset.time_control,
            ),
            r.create_table_urls@.len() == competition.base_seed_names@.len(),
            forall|i: int|
                0 <= i < r.create_table_urls@.len() ==> (#[trigger] r.create_table_urls@[i]).spec_base_seed_name()
                    == competition.base_seed_names@[i]@
                    && r.create_table_urls@[i].spec_create_table_url() == create_table_url(
                    competition.ruleset.variant_name@,
                    competition.ruleset.deckplay_enabled,
                    competition.ruleset.empty_clues_enabled,
                    competition.ruleset.characters_enabled,
                    competition.ruleset.time_control,
                    competition.base_seed_names@[i]@,
                ),
    {
        let urls = competition.generate_create_table_urls();
        let mut pairs: Vec<BaseSeedNameCreateTableUrlPair> = Vec::new();
        let mut i: usize = 0;
        let mut urls = urls;
        let ghost urlsv = urls@;
        while i < competition.base_seed_names.len()
            invariant
                i <= competition.base_seed_names@.len(),
                urls@ =~= urlsv.skip(i as int),
                urlsv.len() == competition.base_seed_names@.len(),
                pairs@.len() == i,
                forall|j: int|
                    0 <= j < urlsv.len() ==> (#[trigger] urlsv[j])@ == create_table_url(
                        competition.ruleset.variant_name@,
                        competition.ruleset.deckplay_enabled,
                        competition.ruleset.empty_clues_enabled,
                        competition.ruleset.characters_enabled,
                        competition.ruleset.time_control,
                        competition.base_seed_names@[j]@,
                    ),
                forall|j: int|
                    0 <= j < i ==> (#[trigger] pairs@[j]).spec_base_seed_name()
                        == competition.base_seed_names@[j]@ && pairs@[j].spec_create_table_url()
                        == urlsv[j]@,
            decreases competition.base_seed_names@.len() - i,
        {
            let ghost upre = urls@;
            let url = urls.remove(0);
            proof {
                assert(url == urlsv[i as int]);
                assert(urls@ =~= urlsv.skip(i + 1)) by {
                    assert forall|j: int| 0 <= j < urls@.len() implies urls@[j] == urlsv[i + 1
                        + j] by {
                        assert(urls@[j] == upre[j + 1]);
                    }
                }
            }
            let pair = BaseSeedNameCreateTableUrlPair {
                base_seed_name: competition.base_seed_names[i].clone(),
                create_table_url: url,
            };
            pairs.push(pair);
            i = i + 1;
        }
        let mut formatted = String::new();
        match &competition.ruleset.time_control {
            None => {},
            Some(tc) => {
                formatted.append(i64_to_string(minutes_of(tc.base_time_seconds) as i64).as_str());
                formatted.append(":");
                formatted.append(
                    i64_to_string(leftover_seconds_of(tc.base_time_seconds) as i64).as_str(),
                );
                formatted.append(" + ");
                formatted.append(i64_to_string(minutes_of(tc.turn_time_seconds) as i64).as_str());
                formatted.append(":");
                formatted.append(
                    i64_to_string(leftover_seconds_of(tc.turn_time_seconds) as i64).as_str(),
                );
            },
        }
        proof {
            match competition.ruleset.time_control {
                None => {
                    assert(formatted@ =~= formatted_time_control_spec(
                        competition.ruleset.time_control,
                    ));
                },
                Some(tc) => {
                    assert(formatted@ =~= formatted_time_control_spec(
                        competition.ruleset.time_control,
                    ));
                },
            }
        }
        CompetitionWithDerivedQuantities {
            competition,
            competition_name,
            create_table_urls: pairs,
            formatted_time_control: formatted,
        }
    }
}

/// The raw joined row a competition is read back as, ids included.
#[derive(Debug, Clone, PartialEq, Eq)]
pub struct CompetitionRulesetWithIds {
    pub competition_id: i16,
    pub variant_id: i32,
    pub num_players: i16,
    pub variant_name: String,
    pub end_datetime: UtcDateTime,
    pub deckplay_enabled: bool,
    pub empty_clues_enabled: bool,
    pub characters_enabled: bool,
    pub scoring_type: String,
    pub base_time_seconds: Option<i16>,
    pub turn_time_seconds: Option<i16>,
    pub additional_rules: Option<String>,
}

/// Why a read-back ruleset is rejected: its two time-control columns must
/// be set together or not at all.
#[derive(Debug, Clone, Copy, PartialEq, Eq)]
pub enum RulesetError {
    SplitTimeControl,
}

/// Assemble a competition from a read-back ruleset row and its seed and
/// series names. The two time-control columns are composite: both set or
/// both null; anything else is rejected.
pub fn competition_from_ruleset_with_ids(
    ruleset_with_ids: CompetitionRulesetWithIds,
    base_seed_names: Vec<String>,
    series_names: Vec<String>,
) -> (r: Result<Competition, RulesetError>)
    ensures
        r is Err <==> (ruleset_with_ids.base_time_seconds is Some
            != ruleset_with_ids.turn_time_seconds is Some),
        r matches Ok(c) ==> {
            &&& c.ruleset.num_players == ruleset_with_ids.num_players
            &&& c.ruleset.variant_name == ruleset_with_ids.variant_name
            &&& c.ruleset.end_datetime == ruleset_with_ids.end_datetime
            &&& c.ruleset.deckplay_enabled == ruleset_with_ids.deckplay_enabled
            &&& c.ruleset.empty_clues_enabled == ruleset_with_ids.empty_clues_enabled
            &&& c.ruleset.characters_enabled == ruleset_with_ids.characters_enabled
            &&& c.ruleset.scoring_type == ruleset_with_ids.scoring_type
            &&& c.ruleset.time_control == (match (
                ruleset_with_ids.base_time_seconds,
                ruleset_with_ids.turn_time_seconds,
            ) {
                (Some(b), Some(t)) => Some(
                    TimeControl { base_time_seconds: b, turn_time_seconds: t },
                ),
                _ => None,
            })
            &&& c.ruleset.additional_rules == ruleset_with_ids.additional_rules
            &&& c.base_seed_names == base_seed_names
            &&& c.series_names == series_names
        },
{
    let time_control = match (
        &ruleset_with_ids.base_time_seconds,
        &ruleset_with_ids.turn_time_seconds,
    ) {
        (None, None) => None,
        (Some(b), Some(t)) => Some(
            TimeControl { base_time_seconds: *b, turn_time_seconds: *t },
        ),
        _ => {
            return Err(RulesetError::SplitTimeControl);
        },
    };
    Ok(
        Competition {
            ruleset: CompetitionRuleset {
                num_players: ruleset_with_ids.num_players,
                variant_name: ruleset_with_ids.variant_name,
                end_datetime: ruleset_with_ids.end_datetime,
                deckplay_enabled: ruleset_with_ids.deckplay_enabled,
                empty_clues_enabled: ruleset_with_ids.empty_clues_enabled,
                characters_enabled: ruleset_with_ids.characters_enabled,
                scoring_type: ruleset_with_ids.scoring_type,
                time_control,
                additional_rules: ruleset_with_ids.additional_rules,
            },
            base_seed_names,
            series_names,
        },
    )
}

/// The competition-level nested leaderboard: the competition with its
/// display quantities, and one entry per team.
#[derive(Debug, Clone, PartialEq, Eq)]
pub struct CompetitionNestedResults {
    pub competition_with_derived_quantities: CompetitionWithDerivedQuantities,
    pub team_results: Vec<TeamResults>,
}

/// Nest a competition's flat rows, keyed by the competition's declared
/// team size, with one result slot per seed the competition declares, in
/// the declared order: a declared seed nobody played keeps its column as
/// an explicit gap. The competition's display data rides along unchanged.
pub fn nest_competition_results(
    competition: CompetitionWithDerivedQuantities,
    flat_results: Vec<SingleCompetitionResult>,
) -> (r: Result<CompetitionNestedResults, NestError>)
    requires
        competition.competition.ruleset.num_players >= 1,
    ensures
        r is Err <==> has_oversized_team(
            rows_model(flat_results@),
            competition.competition.ruleset.num_players as int,
        ),
        r matches Err(e) ==> e == NestError::OversizedTeam,
        r matches Ok(out) ==> out.competition_with_derived_quantities == competition
            && nest_teams_post(
            rows_model(flat_results@),
            competition.competition.ruleset.num_players as int,
            strs_view(competition.competition.base_seed_names@),
            teams_model(out.team_results@),
        ),
{
    let team_size = competition.competition.ruleset.num_players;
    let ghost cv = competition;
    let ghost rv0 = rows_model(flat_results@);
    match nest_rows_with_seed_names(
        &flat_results,
        team_size,
        &competition.competition.base_seed_names,
    ) {
        Err(e) => Err(e),
        Ok(team_results) => {
            let out = CompetitionNestedResults {
                competition_with_derived_quantities: competition,
                team_results,
            };
            proof {
                assert(out.competition_with_derived_quantities == cv);
                assert(nest_teams_post(
                    rv0,
                    team_size as int,
                    strs_view(cv.competition.base_seed_names@),
                    teams_model(out.team_results@),
                ));
            }
            Ok(out)
        },
    }
}

} // verus!
