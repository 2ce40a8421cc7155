use hanabi_standings::competition::{
    Competition, CompetitionNestedResults, CompetitionRuleset, CompetitionRulesetWithIds,
    CompetitionWithDerivedQuantities, PartiallySpecifiedCompetition, RulesetError, TimeControl,
    competition_from_ruleset_with_ids, nest_competition_results,
};
use hanabi_standings::dates::{Date, UtcDateTime, current_utc_date, date_plus_days, days_until_default_end};
use hanabi_standings::game::{Game, SeedGames, SeedGamesError};
use hanabi_standings::hlc::model::CompetitionResults;
use hanabi_standings::hlc::model::GameResult as HlcGameResult;
use hanabi_standings::hlc::model::SeedResults;
use hanabi_standings::hlc::routes::InsertError;
use hanabi_standings::numbers::{four_digit_string, i64_to_string, leftover_seconds_of, minutes_of, two_digit_string, u64_to_string};
use hanabi_standings::order::{str_eq, str_lt};
use hanabi_standings::routes::{AdminCredentials, CredentialsError};
use hanabi_standings::series::{
    CompetitionResultRecordSummary, GetSeriesError, Series, competition_scores_table_headers,
    pad_competition_results,
};

fn end_of(y: i32, m: u8, d: u8) -> UtcDateTime {
    UtcDateTime { date: Date { year: y, month: m, day: d }, hour: 13, minute: 0, second: 0 }
}

fn partial(seeds: Option<Vec<String>>) -> PartiallySpecifiedCompetition {
    PartiallySpecifiedCompetition {
        num_players: 3,
        variant_name: "No Variant".to_string(),
        end_datetime: Some(end_of(2026, 1, 5)),
        deckplay_enabled: None,
        empty_clues_enabled: None,
        characters_enabled: None,
        scoring_type: None,
        time_control: None,
        additional_rules: None,
        base_seed_names: seeds,
        series_names: None,
    }
}

#[test]
fn defaults_fill_unset_fields() {
    let c = partial(None).fill_missing_values_with_defaults().unwrap();
    assert_eq!(c.ruleset.num_players, 3);
    assert!(c.ruleset.deckplay_enabled);
    assert!(!c.ruleset.empty_clues_enabled);
    assert!(!c.ruleset.characters_enabled);
    assert_eq!(c.ruleset.scoring_type, "standard");
    assert_eq!(
        c.base_seed_names,
        vec![
            "hc-2026-01-05-1".to_string(),
            "hc-2026-01-05-2".to_string(),
            "hc-2026-01-05-3".to_string(),
            "hc-2026-01-05-4".to_string(),
        ]
    );
    assert!(c.series_names.is_empty());
}

#[test]
fn defaults_keep_set_fields() {
    let mut p = partial(Some(vec!["my-seed".to_string()]));
    p.deckplay_enabled = Some(false);
    p.scoring_type = Some("speedrun".to_string());
    let c = p.fill_missing_values_with_defaults().unwrap();
    assert!(!c.ruleset.deckplay_enabled);
    assert_eq!(c.ruleset.scoring_type, "speedrun");
    assert_eq!(c.base_seed_names, vec!["my-seed".to_string()]);
}

#[test]
fn defaults_without_end_use_a_monday_1300() {
    let mut p = partial(None);
    p.end_datetime = None;
    let c = p.fill_missing_values_with_defaults().unwrap();
    assert_eq!(c.ruleset.end_datetime.hour, 13);
    assert_eq!(c.ruleset.end_datetime.minute, 0);
    assert_eq!(c.ruleset.end_datetime.second, 0);
    assert_eq!(c.base_seed_names.len(), 4);
}

#[test]
fn default_end_table() {
    let days: Vec<u8> = (0..7).map(days_until_default_end).collect();
    assert_eq!(days, vec![14, 13, 12, 18, 17, 16, 15]);
}

#[test]
fn calendar_addition_handles_leap_years() {
    let d = Date { year: 2020, month: 2, day: 28 };
    let r = date_plus_days(&d, 1).unwrap();
    assert_eq!(r, Date { year: 2020, month: 2, day: 29 });
    let r2 = date_plus_days(&d, 2).unwrap();
    assert_eq!(r2, Date { year: 2020, month: 3, day: 1 });
}

#[test]
fn current_date_is_in_range() {
    let (d, wd) = current_utc_date();
    assert!((1..=12).contains(&d.month));
    assert!((1..=31).contains(&d.day));
    assert!(wd < 7);
}

#[test]
fn create_table_urls_encode_each_seed() {
    let c = Competition {
        ruleset: CompetitionRuleset {
            num_players: 2,
            variant_name: "Black (6 Suits)".to_string(),
            end_datetime: end_of(2026, 1, 5),
            deckplay_enabled: true,
            empty_clues_enabled: false,
            characters_enabled: false,
            scoring_type: "standard".to_string(),
            time_control: Some(TimeControl { base_time_seconds: 300, turn_time_seconds: 25 }),
            additional_rules: None,
        },
        base_seed_names: vec!["hc test-1".to_string()],
        series_names: vec![],
    };
    let urls = c.generate_create_table_urls();
    assert_eq!(urls.len(), 1);
    assert_eq!(
        urls[0],
        "https://hanab.live/create-table?name=!seed%20hc%20test-1\
         &variantName=Black%20%286%20Suits%29&deckPlays=true&emptyClues=false\
         &detrimentalCharacters=false&timed=true&timeBase=300&timePerTurn=25"
    );
}

#[test]
fn derived_quantities_format_the_clock() {
    let c = Competition {
        ruleset: CompetitionRuleset {
            num_players: 2,
            variant_name: "No Variant".to_string(),
            end_datetime: end_of(2026, 1, 5),
            deckplay_enabled: true,
            empty_clues_enabled: true,
            characters_enabled: false,
            scoring_type: "standard".to_string(),
            time_control: Some(TimeControl { base_time_seconds: 300, turn_time_seconds: 25 }),
            additional_rules: None,
        },
        base_seed_names: vec!["x-1".to_string(), "x-2".to_string()],
        series_names: vec![],
    };
    let d = CompetitionWithDerivedQuantities::new(c, "2026-01-05".to_string());
    assert_eq!(d.formatted_time_control, "5:0 + 0:25");
    assert_eq!(d.create_table_urls.len(), 2);
    assert_eq!(d.create_table_urls[0].base_seed_name().as_str(), "x-1");
    assert!(d.create_table_urls[1].create_table_url().contains("x-2"));
}

#[test]
fn ruleset_with_ids_rejects_split_time_control() {
    let base = CompetitionRulesetWithIds {
        competition_id: 1,
        variant_id: 2,
        num_players: 2,
        variant_name: "No Variant".to_string(),
        end_datetime: end_of(2026, 1, 5),
        deckplay_enabled: true,
        empty_clues_enabled: false,
        characters_enabled: false,
        scoring_type: "standard".to_string(),
        base_time_seconds: Some(120),
        turn_time_seconds: None,
        additional_rules: None,
    };
    let r = competition_from_ruleset_with_ids(base.clone(), vec![], vec![]);
    assert_eq!(r, Err(RulesetError::SplitTimeControl));
    let mut both = base;
    both.turn_time_seconds = Some(20);
    let c = competition_from_ruleset_with_ids(both, vec!["s".to_string()], vec![]).unwrap();
    assert_eq!(
        c.ruleset.time_control,
        Some(TimeControl { base_time_seconds: 120, turn_time_seconds: 20 })
    );
}

#[test]
fn competition_nester_carries_the_competition_along() {
    let c = Competition {
        ruleset: CompetitionRuleset {
            num_players: 1,
            variant_name: "No Variant".to_string(),
            end_datetime: end_of(2026, 1, 5),
            deckplay_enabled: true,
            empty_clues_enabled: false,
            characters_enabled: false,
            scoring_type: "standard".to_string(),
            time_control: None,
            additional_rules: None,
        },
        base_seed_names: vec!["s1".to_string()],
        series_names: vec![],
    };
    let d = CompetitionWithDerivedQuantities::new(c, "comp".to_string());
    let rows = vec![hanabi_standings::rows::SingleCompetitionResult {
        final_rank: 1,
        fractional_mp: (1.0f64).to_bits(),
        sum_mp: 2,
        player_name: "alice".to_string(),
        base_seed_name: "s1".to_string(),
        seed_matchpoints: 2,
        site_game_id: 1,
        replay_url: "u".to_string(),
        score: 25,
        turns: 50,
        game_duration_seconds: 600,
    }];
    let out: CompetitionNestedResults = nest_competition_results(d, rows).unwrap();
    assert_eq!(out.competition_with_derived_quantities.competition_name, "comp");
    assert_eq!(out.team_results.len(), 1);
}

#[test]
fn seed_games_validate_checks_the_player_count() {
    let game = |players: Vec<&str>| Game {
        players: players.into_iter().map(|s| s.to_string()).collect(),
        game_id: 1,
        score: 20,
        turns: 55,
        datetime_started: 1_600_000_000,
        datetime_ended: 1_600_003_000,
    };
    let sg = SeedGames {
        num_players: 2,
        variant_id: 1,
        base_seed_name: "s".to_string(),
        games: vec![game(vec!["a", "b"]), game(vec!["a", "b"])],
    };
    assert!(sg.validate().is_ok());
    let bad = SeedGames { games: vec![game(vec!["a"])], ..sg };
    match bad.validate() {
        Err(SeedGamesError::Consistency { num_players, players }) => {
            assert_eq!(num_players, 2);
            assert_eq!(players, vec!["a".to_string()]);
        }
        other => panic!("expected a consistency error, got {:?}", other),
    }
}

#[test]
fn hlc_validate_checks_every_seed() {
    let game = |players: Vec<&str>| HlcGameResult {
        players: players.into_iter().map(|s| s.to_string()).collect(),
        game_id: 1,
        score: 20,
        turns: 55,
        datetime_started: 1_600_000_000,
        datetime_ended: 1_600_003_000,
    };
    let cr = CompetitionResults {
        num_players: 2,
        variant_id: 1,
        end_date: Date { year: 2026, month: 1, day: 5 },
        seeds_results: vec![
            SeedResults { base_seed_name: "s1".to_string(), games_results: vec![game(vec!["a", "b"])] },
            SeedResults { base_seed_name: "s2".to_string(), games_results: vec![game(vec!["a"])] },
        ],
    };
    assert!(cr.validate().is_err());
    let ok = CompetitionResults {
        seeds_results: vec![SeedResults {
            base_seed_name: "s1".to_string(),
            games_results: vec![game(vec!["a", "b"])],
        }],
        ..cr
    };
    assert!(ok.validate().is_ok());
}

#[test]
fn credentials_parse_and_check() {
    let lines: Vec<String> = vec![
        "# a comment".to_string(),
        "".to_string(),
        "admin:SECRET-REDACTED".to_string(),
        "other:pw:with:colons".to_string(),
    ];
    let creds = AdminCredentials::from_lines(&lines).unwrap();
    assert_eq!(creds.0.len(), 2);
    assert_eq!(creds.lookup("admin").unwrap().as_str(), "SECRET-REDACTED");
    assert_eq!(creds.lookup("other").unwrap().as_str(), "pw:with:colons");
    assert!(creds.lookup("nobody").is_none());
    assert!(creds.check("admin", Some("SECRET-REDACTED")).is_ok());
    assert_eq!(
        creds.check("admin", None),
        Err(CredentialsError::MissingPassword)
    );
    assert_eq!(
        creds.check("admin", Some("wrong")),
        Err(CredentialsError::BadCredentials)
    );
    assert_eq!(
        creds.check("nobody", Some("x")),
        Err(CredentialsError::BadCredentials)
    );
}

#[test]
fn credentials_reject_a_line_without_a_colon() {
    let lines = vec!["justonename".to_string()];
    assert_eq!(
        AdminCredentials::from_lines(&lines),
        Err(CredentialsError::Parse)
    );
}

#[test]
fn later_credential_lines_win() {
    let lines = vec!["u:first".to_string(), "u:second".to_string()];
    let creds = AdminCredentials::from_lines(&lines).unwrap();
    assert_eq!(creds.lookup("u").unwrap().as_str(), "second");
}

#[test]
fn credential_error_responses() {
    assert_eq!(CredentialsError::Parse.status_code(), 400);
    assert_eq!(CredentialsError::MissingPassword.status_code(), 400);
    assert_eq!(CredentialsError::BadCredentials.status_code(), 401);
    assert_eq!(
        CredentialsError::BadCredentials.message(),
        "credentials did not match any known admin"
    );
    let wrapped: InsertError = CredentialsError::Parse.into();
    assert_eq!(wrapped, InsertError::Credentials(CredentialsError::Parse));
}

#[test]
fn decimal_renderings() {
    assert_eq!(u64_to_string(0), "0");
    assert_eq!(u64_to_string(7), "7");
    assert_eq!(u64_to_string(12345), "12345");
    assert_eq!(two_digit_string(3), "03");
    assert_eq!(two_digit_string(42), "42");
    assert_eq!(four_digit_string(2026), "2026");
    assert_eq!(four_digit_string(7), "0007");
}

#[test]
fn string_order_is_lexicographic() {
    assert!(str_lt("a", "b"));
    assert!(str_lt("a", "ab"));
    assert!(!str_lt("b", "a"));
    assert!(!str_lt("a", "a"));
    assert!(str_lt("s1", "s2"));
    assert!(str_eq("same", "same"));
    assert!(!str_eq("same", "Same"));
}

#[test]
fn series_headers_and_padding() {
    let headers = competition_scores_table_headers(3);
    assert_eq!(
        headers,
        vec!["comp 1".to_string(), "comp 2".to_string(), "comp 3".to_string()]
    );
    let mut results = vec![Some(CompetitionResultRecordSummary {
        competition_name: "c1".to_string(),
        frac_mp: (0.5f64).to_bits(),
    })];
    pad_competition_results(&mut results, 3);
    assert_eq!(results.len(), 3);
    assert!(results[0].is_some());
    assert!(results[1].is_none());
    assert!(results[2].is_none());
}

#[test]
fn series_accessors_and_error() {
    let s = Series::new("All-time".to_string(), Some(5), None);
    assert_eq!(s.name().as_str(), "All-time");
    assert_eq!(s.first_n(), Some(5));
    assert_eq!(s.top_n(), None);
    assert_eq!(
        GetSeriesError::NotFound.message(),
        "No series with that name was found"
    );
}

#[test]
fn competition_nester_aligns_to_declared_seeds() {
    // The competition declares s1, s2 and s3; the one team only played s1
    // and s3, so s2 keeps its column as an explicit gap.
    let c = Competition {
        ruleset: CompetitionRuleset {
            num_players: 1,
            variant_name: "No Variant".to_string(),
            end_datetime: end_of(2026, 1, 5),
            deckplay_enabled: true,
            empty_clues_enabled: false,
            characters_enabled: false,
            scoring_type: "standard".to_string(),
            time_control: None,
            additional_rules: None,
        },
        base_seed_names: vec!["s1".to_string(), "s2".to_string(), "s3".to_string()],
        series_names: vec![],
    };
    let d = CompetitionWithDerivedQuantities::new(c, "comp".to_string());
    let row = |seed: &str, game_id: i64| hanabi_standings::rows::SingleCompetitionResult {
        final_rank: 1,
        fractional_mp: (1.0f64).to_bits(),
        sum_mp: 4,
        player_name: "alice".to_string(),
        base_seed_name: seed.to_string(),
        seed_matchpoints: 2,
        site_game_id: game_id,
        replay_url: "u".to_string(),
        score: 25,
        turns: 50,
        game_duration_seconds: 600,
    };
    let rows = vec![row("s1", 1), row("s3", 3)];
    let out = nest_competition_results(d, rows).unwrap();
    assert_eq!(out.team_results.len(), 1);
    let team = &out.team_results[0];
    assert_eq!(team.game_results.len(), 3);
    assert_eq!(team.game_results[0].as_ref().unwrap().site_game_id, 1);
    assert!(team.game_results[1].is_none());
    assert_eq!(team.game_results[2].as_ref().unwrap().site_game_id, 3);
}

#[test]
fn declared_seed_nobody_played_keeps_its_column() {
    let c = Competition {
        ruleset: CompetitionRuleset {
            num_players: 1,
            variant_name: "No Variant".to_string(),
            end_datetime: end_of(2026, 1, 5),
            deckplay_enabled: true,
            empty_clues_enabled: false,
            characters_enabled: false,
            scoring_type: "standard".to_string(),
            time_control: None,
            additional_rules: None,
        },
        base_seed_names: vec!["fresh".to_string()],
        series_names: vec![],
    };
    let d = CompetitionWithDerivedQuantities::new(c, "comp".to_string());
    let out = nest_competition_results(d, Vec::new()).unwrap();
    assert!(out.team_results.is_empty());
}

#[test]
fn negative_clock_settings_render_signed() {
    let c = Competition {
        ruleset: CompetitionRuleset {
            num_players: 2,
            variant_name: "No Variant".to_string(),
            end_datetime: end_of(2026, 1, 5),
            deckplay_enabled: true,
            empty_clues_enabled: false,
            characters_enabled: false,
            scoring_type: "standard".to_string(),
            time_control: Some(TimeControl { base_time_seconds: -90, turn_time_seconds: -5 }),
            additional_rules: None,
        },
        base_seed_names: vec!["x".to_string()],
        series_names: vec![],
    };
    let urls = c.generate_create_table_urls();
    assert!(urls[0].ends_with("&timed=true&timeBase=-90&timePerTurn=-5"));
    let d = CompetitionWithDerivedQuantities::new(c, "n".to_string());
    assert_eq!(d.formatted_time_control, "-1:-30 + 0:-5");
}

#[test]
fn signed_renderings() {
    assert_eq!(i64_to_string(0), "0");
    assert_eq!(i64_to_string(-7), "-7");
    assert_eq!(i64_to_string(i64::MIN), "-9223372036854775808");
    assert_eq!(minutes_of(-90), -1);
    assert_eq!(leftover_seconds_of(-90), -30);
    assert_eq!(minutes_of(125), 2);
    assert_eq!(leftover_seconds_of(125), 5);
}

#[test]
fn credential_entries_keep_file_order() {
    let lines: Vec<String> = vec![
        "zeta:1".to_string(),
        "# skip".to_string(),
        "alpha:2".to_string(),
    ];
    let creds = AdminCredentials::from_lines(&lines).unwrap();
    assert_eq!(creds.0.len(), 2);
    assert_eq!(creds.0[0].0.as_str(), "zeta");
    assert_eq!(creds.0[0].1.as_str(), "1");
    assert_eq!(creds.0[1].0.as_str(), "alpha");
    assert_eq!(creds.0[1].1.as_str(), "2");
}

#[test]
fn validate_reports_the_first_offender() {
    let game = |players: Vec<&str>, id: i64| Game {
        players: players.into_iter().map(|s| s.to_string()).collect(),
        game_id: id,
        score: 20,
        turns: 55,
        datetime_started: 1_600_000_000,
        datetime_ended: 1_600_003_000,
    };
    let sg = SeedGames {
        num_players: 2,
        variant_id: 1,
        base_seed_name: "s".to_string(),
        games: vec![
            game(vec!["a", "b"], 1),
            game(vec!["only"], 2),
            game(vec!["x", "y", "z"], 3),
        ],
    };
    match sg.validate() {
        Err(SeedGamesError::Consistency { players, .. }) => {
            assert_eq!(players, vec!["only".to_string()]);
        }
        other => panic!("expected a consistency error, got {:?}", other),
    }
}

#[test]
fn hlc_validate_reports_the_first_offender() {
    let game = |players: Vec<&str>| HlcGameResult {
        players: players.into_iter().map(|s| s.to_string()).collect(),
        game_id: 1,
        score: 20,
        turns: 55,
        datetime_started: 1_600_000_000,
        datetime_ended: 1_600_003_000,
    };
    let cr = CompetitionResults {
        num_players: 2,
        variant_id: 1,
        end_date: Date { year: 2026, month: 1, day: 5 },
        seeds_results: vec![
            SeedResults {
                base_seed_name: "s1".to_string(),
                games_results: vec![game(vec!["a", "b"]), game(vec!["first"])],
            },
            SeedResults {
                base_seed_name: "s2".to_string(),
                games_results: vec![game(vec!["second"])],
            },
        ],
    };
    match cr.validate() {
        Err(hanabi_standings::hlc::model::CompetitionResultsError::Consistency {
            players, ..
        }) => {
            assert_eq!(players, vec!["first".to_string()]);
        }
        other => panic!("expected a consistency error, got {:?}", other),
    }
}
