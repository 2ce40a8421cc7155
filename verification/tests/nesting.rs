use hanabi_standings::rows::SingleCompetitionResult;
use hanabi_standings::nested::{
    CompetitionNestedResults, GameResult, NestError, TeamResults,
    nested_results_from_single_competition_results,
};

fn row(
    player: &str,
    seed: &str,
    game_id: i64,
    final_rank: i64,
    sum_mp: i64,
    frac: f64,
) -> SingleCompetitionResult {
    SingleCompetitionResult {
        final_rank,
        fractional_mp: frac.to_bits(),
        sum_mp,
        player_name: player.to_string(),
        base_seed_name: seed.to_string(),
        seed_matchpoints: 2,
        site_game_id: game_id,
        replay_url: format!("https://example.org/replay/{}", game_id),
        score: 25,
        turns: 60,
        game_duration_seconds: 1200,
    }
}

fn names(players: &[Option<&str>]) -> Vec<Option<String>> {
    players.iter().map(|p| p.map(|s| s.to_string())).collect()
}

#[test]
fn empty_input_gives_empty_output() {
    let out = nested_results_from_single_competition_results(Vec::new(), 2).unwrap();
    assert_eq!(out.base_seed_names, Vec::<String>::new());
    assert_eq!(out.team_size, 2);
    assert!(out.team_results.is_empty());
}

#[test]
fn two_players_one_game_form_one_team() {
    let rows = vec![
        row("alice", "s1", 100, 1, 2, 0.5),
        row("bob", "s1", 100, 1, 2, 0.5),
    ];
    let out = nested_results_from_single_competition_results(rows, 2).unwrap();
    assert_eq!(out.base_seed_names, vec!["s1".to_string()]);
    assert_eq!(out.team_results.len(), 1);
    let team = &out.team_results[0];
    assert_eq!(team.players, names(&[Some("alice"), Some("bob")]));
    assert_eq!(team.game_results.len(), 1);
    let game = team.game_results[0].as_ref().unwrap();
    assert_eq!(game.site_game_id, 100);
    assert_eq!(game.score, 25);
    assert_eq!(team.final_rank, 1);
    assert_eq!(team.sum_mp, 2);
    assert_eq!(team.fractional_mp, (0.5f64).to_bits());
}

#[test]
fn absent_seed_leaves_a_gap_in_canonical_order() {
    // One team plays s1 and s3; another player's game defines s2.
    let rows = vec![
        row("alice", "s3", 103, 1, 4, 0.9),
        row("alice", "s1", 101, 1, 4, 0.9),
        row("carol", "s2", 102, 2, 2, 0.4),
    ];
    let out = nested_results_from_single_competition_results(rows, 1).unwrap();
    assert_eq!(
        out.base_seed_names,
        vec!["s1".to_string(), "s2".to_string(), "s3".to_string()]
    );
    assert_eq!(out.team_results.len(), 2);
    let alice = &out.team_results[0];
    assert_eq!(alice.players, names(&[Some("alice")]));
    assert_eq!(alice.game_results.len(), 3);
    assert_eq!(alice.game_results[0].as_ref().unwrap().site_game_id, 101);
    assert!(alice.game_results[1].is_none());
    assert_eq!(alice.game_results[2].as_ref().unwrap().site_game_id, 103);
    let carol = &out.team_results[1];
    assert_eq!(carol.players, names(&[Some("carol")]));
    assert!(carol.game_results[0].is_none());
    assert_eq!(carol.game_results[1].as_ref().unwrap().site_game_id, 102);
    assert!(carol.game_results[2].is_none());
}

#[test]
fn solo_player_three_seeds_no_padding() {
    let rows = vec![
        row("dora", "a", 1, 1, 6, 1.0),
        row("dora", "b", 2, 1, 6, 1.0),
        row("dora", "c", 3, 1, 6, 1.0),
    ];
    let out = nested_results_from_single_competition_results(rows, 1).unwrap();
    assert_eq!(out.team_results.len(), 1);
    let team = &out.team_results[0];
    assert_eq!(team.players, names(&[Some("dora")]));
    assert!(team.game_results.iter().all(|g| g.is_some()));
    assert_eq!(team.game_results.len(), 3);
}

#[test]
fn tied_teams_keep_first_appearance_order() {
    // Both teams hold final_rank 1; beta's rows come first in the input.
    let rows = vec![
        row("beta", "s1", 201, 1, 2, 0.5),
        row("alpha", "s1", 200, 1, 2, 0.5),
    ];
    let out = nested_results_from_single_competition_results(rows, 1).unwrap();
    assert_eq!(out.team_results.len(), 2);
    assert_eq!(out.team_results[0].players, names(&[Some("beta")]));
    assert_eq!(out.team_results[1].players, names(&[Some("alpha")]));
    assert_eq!(out.team_results[0].final_rank, out.team_results[1].final_rank);
}

#[test]
fn teams_sorted_by_final_rank() {
    let rows = vec![
        row("worst", "s1", 300, 3, 0, 0.0),
        row("best", "s1", 301, 1, 4, 1.0),
        row("mid", "s1", 302, 2, 2, 0.5),
    ];
    let out = nested_results_from_single_competition_results(rows, 1).unwrap();
    let ranks: Vec<i64> = out.team_results.iter().map(|t| t.final_rank).collect();
    assert_eq!(ranks, vec![1, 2, 3]);
    assert_eq!(out.team_results[0].players, names(&[Some("best")]));
}

#[test]
fn roster_padded_to_team_size_and_sorted() {
    let rows = vec![
        row("zoe", "s1", 400, 1, 2, 0.5),
        row("abe", "s1", 400, 1, 2, 0.5),
    ];
    let out = nested_results_from_single_competition_results(rows, 4).unwrap();
    let team = &out.team_results[0];
    assert_eq!(
        team.players,
        names(&[Some("abe"), Some("zoe"), None, None])
    );
}

#[test]
fn oversized_roster_is_an_error() {
    let rows = vec![
        row("alice", "s1", 500, 1, 2, 0.5),
        row("bob", "s1", 500, 1, 2, 0.5),
    ];
    let out = nested_results_from_single_competition_results(rows, 1);
    assert_eq!(out, Err(NestError::OversizedTeam));
}

#[test]
fn same_input_twice_gives_identical_output() {
    let build = || {
        vec![
            row("alice", "s2", 601, 2, 2, 0.25),
            row("alice", "s1", 600, 2, 2, 0.25),
            row("bob", "s2", 601, 2, 2, 0.25),
            row("bob", "s1", 600, 2, 2, 0.25),
            row("carol", "s1", 602, 1, 4, 0.75),
            row("dave", "s1", 602, 1, 4, 0.75),
        ]
    };
    let out1 = nested_results_from_single_competition_results(build(), 2).unwrap();
    let out2 = nested_results_from_single_competition_results(build(), 2).unwrap();
    assert_eq!(out1, out2);
}

#[test]
fn shuffled_input_keeps_partition_and_alignment() {
    let rows = vec![
        row("alice", "s1", 700, 1, 4, 0.8),
        row("alice", "s2", 701, 1, 4, 0.8),
        row("bob", "s1", 700, 1, 4, 0.8),
        row("bob", "s2", 701, 1, 4, 0.8),
        row("carol", "s1", 702, 2, 2, 0.3),
        row("dave", "s1", 702, 2, 2, 0.3),
    ];
    let mut shuffled = rows.clone();
    shuffled.reverse();
    shuffled.swap(0, 3);
    let out1 = nested_results_from_single_competition_results(rows, 2).unwrap();
    let out2 = nested_results_from_single_competition_results(shuffled, 2).unwrap();
    assert_eq!(out1.base_seed_names, out2.base_seed_names);
    let shape = |o: &CompetitionNestedResults| {
        let mut teams: Vec<(Vec<Option<String>>, Vec<bool>)> = o
            .team_results
            .iter()
            .map(|t| {
                (
                    t.players.clone(),
                    t.game_results.iter().map(|g| g.is_some()).collect(),
                )
            })
            .collect();
        teams.sort();
        teams
    };
    assert_eq!(shape(&out1), shape(&out2));
}

#[test]
fn duplicate_game_result_structures_compare_by_value() {
    let g1 = GameResult {
        seed_matchpoints: 2,
        score: 25,
        turns: 60,
        site_game_id: 1,
        replay_url: "u".to_string(),
        game_duration_seconds: 9,
    };
    let g2 = g1.clone();
    assert_eq!(g1, g2);
    let t = TeamResults {
        players: names(&[Some("a")]),
        final_rank: 1,
        fractional_mp: 0,
        sum_mp: 0,
        game_results: vec![Some(g1)],
    };
    assert_eq!(t.players.len(), 1);
}
