//! The standings nester: flat rows in, ranked nested leaderboard out.
//!
//! A team is not stored anywhere; it is the set of players who played
//! exactly the same multiset of games. The nester derives that grouping,
//! lays every team's results out against the canonical (sorted) list of
//! seed names with explicit gaps, pads rosters to the competition's team
//! size, and ranks the teams.

use vstd::prelude::*;
use vstd::multiset::Multiset;

use crate::order::lex_lt;
use crate::rows::{RowModel, SingleCompetitionResult, rows_model, strs_view};

verus! {

// ---------------------------------------------------------------------------
// Output types
// ---------------------------------------------------------------------------

/// One game of one team, in nested form. Player-independent: every member
/// of the team shares the game, so the row-level aggregate and name fields
/// are dropped.
#[derive(Debug, Clone, PartialEq, Eq)]
pub struct GameResult {
    pub seed_matchpoints: i32,
    pub score: i16,
    pub turns: i16,
    pub site_game_id: i64,
    pub replay_url: String,
    pub game_duration_seconds: i32,
}

/// One team of the leaderboard: its padded, sorted roster, its aggregate
/// standing, and one slot per canonical seed, absent seeds left as `None`.
#[derive(Debug, Clone, PartialEq, Eq)]
pub struct TeamResults {
    pub players: Vec<Option<String>>,
    pub final_rank: i64,
    pub fractional_mp: u64,
    pub sum_mp: i64,
    pub game_results: Vec<Option<GameResult>>,
}

/// The whole nested leaderboard of one competition.
#[derive(Debug, Clone, PartialEq, Eq)]
pub struct CompetitionNestedResults {
    pub base_seed_names: Vec<String>,
    pub team_size: i16,
    pub team_results: Vec<TeamResults>,
}

/// The one way nesting can fail: the rows contain a team with more members
/// than the competition's declared team size, so its roster cannot be laid
/// out in `team_size` slots.
#[derive(Debug, Clone, PartialEq, Eq)]
pub enum NestError {
    OversizedTeam,
}

// ---------------------------------------------------------------------------
// Models of the output types
// ---------------------------------------------------------------------------

pub struct GameModel {
    pub seed_matchpoints: int,
    pub score: int,
    pub turns: int,
    pub site_game_id: int,
    pub replay_url: Seq<char>,
    pub game_duration_seconds: int,
}

impl View for GameResult {
    type V = GameModel;

    open spec fn view(&self) -> GameModel {
        GameModel {
            seed_matchpoints: self.seed_matchpoints as int,
            score: self.score as int,
            turns: self.turns as int,
            site_game_id: self.site_game_id as int,
            replay_url: self.replay_url@,
            game_duration_seconds: self.game_duration_seconds as int,
        }
    }
}

pub struct TeamModel {
    pub players: Seq<Option<Seq<char>>>,
    pub final_rank: int,
    pub fractional_mp: int,
    pub sum_mp: int,
    pub game_results: Seq<Option<GameModel>>,
}

impl View for TeamResults {
    type V = TeamModel;

    open spec fn view(&self) -> TeamModel {
        TeamModel {
            players: self.players@.map_values(
                |p: Option<String>|
                    match p {
                        Some(name) => Some(name@),
                        None => None,
                    },
            ),
            final_rank: self.final_rank as int,
            fractional_mp: self.fractional_mp as int,
            sum_mp: self.sum_mp as int,
            game_results: self.game_results@.map_values(
                |g: Option<GameResult>|
                    match g {
                        Some(gr) => Some(gr@),
                        None => None,
                    },
            ),
        }
    }
}

pub struct NestModel {
    pub base_seed_names: Seq<Seq<char>>,
    pub team_size: int,
    pub team_results: Seq<TeamModel>,
}

impl View for CompetitionNestedResults {
    type V = NestModel;

    open spec fn view(&self) -> NestModel {
        NestModel {
            base_seed_names: strs_view(self.base_seed_names@),
            team_size: self.team_size as int,
            team_results: self.team_results@.map_values(|t: TeamResults| t@),
        }
    }
}

// ---------------------------------------------------------------------------
// The model of the nesting itself
// ---------------------------------------------------------------------------

/// The players appearing in the rows.
#[verifier::opaque]
pub open spec fn players_of(rows: Seq<RowModel>) -> Set<Seq<char>> {
    rows.map_values(|r: RowModel| r.player_name).to_set()
}

/// The multiset of game ids a player appears in.
#[verifier::opaque]
pub open spec fn games_of(rows: Seq<RowModel>, p: Seq<char>) -> Multiset<int> {
    rows.filter(|r: RowModel| r.player_name == p).map_values(
        |r: RowModel| r.site_game_id,
    ).to_multiset()
}

/// The team-detection rule: two players form a team exactly when they
/// appear in the same multiset of games. This is a structural inference,
/// not a stored fact; it is exact only because every member of a team
/// plays the same games.
pub open spec fn same_team(rows: Seq<RowModel>, p: Seq<char>, q: Seq<char>) -> bool {
    games_of(rows, p) == games_of(rows, q)
}

/// The distinct seed names appearing in the rows.
#[verifier::opaque]
pub open spec fn seed_set(rows: Seq<RowModel>) -> Set<Seq<char>> {
    rows.map_values(|r: RowModel| r.base_seed_name).to_set()
}

/// `names` is the canonical seed order: the distinct seeds of the rows,
/// sorted lexicographically ascending.
pub open spec fn is_canonical_seed_list(rows: Seq<RowModel>, names: Seq<Seq<char>>) -> bool {
    &&& forall|i: int, j: int| 0 <= i < j < names.len() ==> lex_lt(names[i], names[j])
    &&& forall|n: Seq<char>| #[trigger] names.contains(n) <==> seed_set(rows).contains(n)
}

/// The first index at or after `k` whose element satisfies `pred`, or
/// `s.len()` if there is none.
pub open spec fn first_match_from<A>(s: Seq<A>, pred: spec_fn(A) -> bool, k: int) -> int
    decreases s.len() - k,
{
    if k < 0 || k >= s.len() {
        s.len() as int
    } else if pred(s[k]) {
        k
    } else {
        first_match_from(s, pred, k + 1)
    }
}

pub proof fn lemma_first_match_from<A>(s: Seq<A>, pred: spec_fn(A) -> bool, k: int)
    requires
        0 <= k <= s.len(),
    ensures
        k <= first_match_from(s, pred, k) <= s.len(),
        first_match_from(s, pred, k) < s.len() ==> pred(s[first_match_from(s, pred, k)]),
        forall|j: int| k <= j < first_match_from(s, pred, k) ==> !pred(s[j]),
        (exists|j: int| k <= j < s.len() && pred(s[j])) ==> first_match_from(s, pred, k) < s.len(),
    decreases s.len() - k,
{
    if k < s.len() && !pred(s[k]) {
        lemma_first_match_from(s, pred, k + 1);
    }
}

/// Whether row `i` belongs to the team of player `p0`.
pub open spec fn row_of_team(rows: Seq<RowModel>, p0: Seq<char>) -> spec_fn(RowModel) -> bool {
    |r: RowModel| same_team(rows, r.player_name, p0)
}

/// The index of the first row belonging to the team of `p0`; teams are
/// ranked by their aggregate fields, which this row carries, and tied teams
/// keep the order in which they first appear in the input.
pub open spec fn team_first_idx(rows: Seq<RowModel>, p0: Seq<char>) -> int {
    first_match_from(rows, row_of_team(rows, p0), 0)
}

/// The index of the first row of `p0`'s team played on `seed`, or
/// `rows.len()` if the team never played that seed.
/// Whether a row belongs to `p0`'s team and was played on `seed`.
pub open spec fn row_of_team_on_seed(rows: Seq<RowModel>, p0: Seq<char>, seed: Seq<char>) -> spec_fn(
    RowModel,
) -> bool {
    |r: RowModel| same_team(rows, r.player_name, p0) && r.base_seed_name == seed
}

pub open spec fn slot_idx(rows: Seq<RowModel>, p0: Seq<char>, seed: Seq<char>) -> int {
    first_match_from(rows, row_of_team_on_seed(rows, p0, seed), 0)
}

/// The nested form of one row: its game-level fields.
pub open spec fn game_of_row(r: RowModel) -> GameModel {
    GameModel {
        seed_matchpoints: r.seed_matchpoints,
        score: r.score,
        turns: r.turns,
        site_game_id: r.site_game_id,
        replay_url: r.replay_url,
        game_duration_seconds: r.game_duration_seconds,
    }
}

/// The models of a list of team entries.
pub open spec fn teams_model(ts: Seq<TeamResults>) -> Seq<TeamModel> {
    ts.map_values(|t: TeamResults| t@)
}

/// An absent roster slot.
pub open spec fn absent_slot() -> spec_fn(Option<Seq<char>>) -> bool {
    |p: Option<Seq<char>>| p is None
}

/// The number of leading `Some` entries of a padded roster.
pub open spec fn roster_len(players: Seq<Option<Seq<char>>>) -> int {
    first_match_from(players, absent_slot(), 0)
}

/// What one output team entry must look like.
///
/// Its roster is the full team of its first player, sorted ascending and
/// padded with `None` to the team size; its per-seed slots follow the
/// canonical seed order, each either the first input row of the team on
/// that seed or an explicit gap; its aggregate fields come from the team's
/// first input row.
pub open spec fn team_entry_ok(
    rows: Seq<RowModel>,
    names: Seq<Seq<char>>,
    team_size: int,
    t: TeamModel,
) -> bool {
    let m = roster_len(t.players);
    let p0 = t.players[0].unwrap();
    let f = team_first_idx(rows, p0);
    &&& t.players.len() == team_size
    &&& 1 <= m
    &&& forall|j: int| 0 <= j < m ==> t.players[j] is Some
    &&& forall|j: int| m <= j < t.players.len() ==> t.players[j] is None
    &&& forall|j1: int, j2: int|
        0 <= j1 < j2 < m ==> lex_lt(t.players[j1].unwrap(), t.players[j2].unwrap())
    &&& forall|q: Seq<char>|
        (players_of(rows).contains(q) && same_team(rows, q, p0)) <==> (exists|j: int|
            0 <= j < m && t.players[j] == Some(q))
    &&& t.game_results.len() == names.len()
    &&& forall|i: int|
        0 <= i < names.len() ==> {
            let si = slot_idx(rows, p0, names[i]);
            &&& (#[trigger] t.game_results[i] is Some <==> si < rows.len())
            &&& (si < rows.len() ==> t.game_results[i] == Some(game_of_row(rows[si])))
        }
    &&& 0 <= f < rows.len()
    &&& t.final_rank == rows[f].final_rank
    &&& t.fractional_mp == rows[f].fractional_mp
    &&& t.sum_mp == rows[f].sum_mp
}

/// The first player of team entry `k`.
pub open spec fn entry_lead(teams: Seq<TeamModel>, k: int) -> Seq<char> {
    teams[k].players[0].unwrap()
}

/// What nesting against a given seed list produces: one exact entry per
/// team, every input player covered, no team twice, and the entries
/// ordered by rank with ties in order of first appearance. The seed list
/// is whatever the caller supplies; each entry carries one slot per name,
/// in the list's order.
pub open spec fn nest_teams_post(
    rows: Seq<RowModel>,
    team_size: int,
    names: Seq<Seq<char>>,
    teams: Seq<TeamModel>,
) -> bool {
    &&& forall|k: int|
        0 <= k < teams.len() ==> team_entry_ok(rows, names, team_size, #[trigger] teams[k])
    &&& forall|q: Seq<char>|
        players_of(rows).contains(q) ==> exists|k: int|
            0 <= k < teams.len() && #[trigger] teams[k].players.contains(Some(q))
    &&& forall|k1: int, k2: int|
        0 <= k1 < k2 < teams.len() ==> !same_team(rows, entry_lead(teams, k1), entry_lead(teams, k2))
    &&& forall|k1: int, k2: int|
        #![trigger teams[k1], teams[k2]]
        0 <= k1 < k2 < teams.len() ==> {
            let t1 = teams[k1];
            let t2 = teams[k2];
            t1.final_rank < t2.final_rank || (t1.final_rank == t2.final_rank && team_first_idx(
                rows,
                entry_lead(teams, k1),
            ) < team_first_idx(rows, entry_lead(teams, k2)))
        }
}

/// The full statement of what row-level nesting produces when it
/// succeeds: the seed columns are the rows' own, in canonical order.
pub open spec fn nest_post(rows: Seq<RowModel>, team_size: int, out: NestModel) -> bool {
    &&& is_canonical_seed_list(rows, out.base_seed_names)
    &&& out.team_size == team_size
    &&& nest_teams_post(rows, team_size, out.base_seed_names, out.team_results)
}

// ---------------------------------------------------------------------------
// Canonical seed order
// ---------------------------------------------------------------------------

/// The strings are strictly ascending in lexicographic order.
pub open spec fn sorted_strs(names: Seq<String>) -> bool {
    forall|i: int, j: int| 0 <= i < j < names.len() ==> lex_lt(names[i]@, names[j]@)
}

/// Some string of `names` reads `n`.
pub open spec fn has_str(names: Seq<String>, n: Seq<char>) -> bool {
    exists|i: int| 0 <= i < names.len() && names[i]@ == n
}

/// Place `seed` into the strictly sorted list `names`, keeping it sorted
/// and duplicate-free.
fn insert_seed(names: &mut Vec<String>, seed: &String)
    requires
        sorted_strs(old(names)@),
    ensures
        sorted_strs(final(names)@),
        forall|n: Seq<char>|
            #[trigger] has_str(final(names)@, n) <==> (has_str(old(names)@, n) || n == seed@),
{
    let mut pos: usize = 0;
    while pos < names.len() && crate::order::str_lt(names[pos].as_str(), seed.as_str())
        invariant
            pos <= names@.len(),
            sorted_strs(names@),
            names == old(names),
            forall|j: int| 0 <= j < pos ==> lex_lt(names@[j]@, seed@),
        decreases names@.len() - pos,
    {
        pos = pos + 1;
    }
    if pos < names.len() && names[pos] == *seed {
        proof {
            assert(has_str(names@, seed@)) by {
                assert(names@[pos as int]@ == seed@);
            }
        }
        return ;
    }
    proof {
        if pos < names@.len() {
            crate::order::lemma_lex_total(names@[pos as int]@, seed@);
        }
    }
    let ghost pre = names@;
    let cloned = seed.clone();
    names.insert(pos, cloned);
    proof {
        pre.insert_ensures(pos as int, *seed);
        assert(names@[pos as int]@ == seed@);
        assert forall|i: int, j: int| 0 <= i < j < names@.len() implies lex_lt(
            names@[i]@,
            names@[j]@,
        ) by {
            let p = pos as int;
            if j < p {
                assert(names@[i] == pre[i] && names@[j] == pre[j]);
            } else if i < p && j == p {
                assert(names@[i] == pre[i]);
            } else if i < p && j > p {
                assert(names@[i] == pre[i] && names@[j] == pre[j - 1]);
                if j - 1 == p {
                    crate::order::lemma_lex_transitive(pre[i]@, seed@, pre[p]@);
                } else {
                    crate::order::lemma_lex_transitive(pre[i]@, seed@, pre[p]@);
                    crate::order::lemma_lex_transitive(pre[i]@, pre[p]@, pre[j - 1]@);
                }
            } else if i == p {
                assert(names@[j] == pre[j - 1]);
                if j - 1 > p {
                    crate::order::lemma_lex_transitive(seed@, pre[p]@, pre[j - 1]@);
                }
            } else {
                assert(names@[i] == pre[i - 1] && names@[j] == pre[j - 1]);
            }
        }
        assert forall|n: Seq<char>| #[trigger]
            has_str(names@, n) <==> (has_str(pre, n) || n == seed@) by {
            if has_str(names@, n) {
                let i = choose|i: int| 0 <= i < names@.len() && names@[i]@ == n;
                if i < pos as int {
                    assert(pre[i]@ == n);
                } else if i == pos as int {
                } else {
                    assert(pre[i - 1]@ == n);
                }
            }
            if has_str(pre, n) {
                let i = choose|i: int| 0 <= i < pre.len() && pre[i]@ == n;
                if i < pos as int {
                    assert(names@[i]@ == n);
                } else {
                    assert(names@[i + 1]@ == n);
                }
            }
            if n == seed@ {
                assert(names@[pos as int]@ == n);
            }
        }
    }
}

/// The distinct seed names of the rows, sorted ascending: the canonical
/// column order of the leaderboard.
pub fn canonical_seed_names(rows: &Vec<SingleCompetitionResult>) -> (names: Vec<String>)
    ensures
        sorted_strs(names@),
        is_canonical_seed_list(rows_model(rows@), strs_view(names@)),
{
    let ghost rv = rows_model(rows@);
    let mut names: Vec<String> = Vec::new();
    let mut i: usize = 0;
    while i < rows.len()
        invariant
            i <= rows@.len(),
            rv == rows_model(rows@),
            sorted_strs(names@),
            forall|n: Seq<char>|
                #[trigger] has_str(names@, n) <==> (exists|t: int|
                    0 <= t < i && rv[t].base_seed_name == n),
        decreases rows@.len() - i,
    {
        let ghost pre = names@;
        insert_seed(&mut names, &rows[i].base_seed_name);
        proof {
            assert(rv[i as int].base_seed_name == rows@[i as int].base_seed_name@);
            assert forall|n: Seq<char>| #[trigger]
                has_str(names@, n) <==> (exists|t: int|
                    0 <= t < i + 1 && rv[t].base_seed_name == n) by {
                if has_str(names@, n) {
                    if has_str(pre, n) {
                        let t = choose|t: int| 0 <= t < i && rv[t].base_seed_name == n;
                        assert(0 <= t < i + 1 && rv[t].base_seed_name == n);
                    } else {
                        assert(rv[i as int].base_seed_name == n);
                    }
                }
            }
        }
        i = i + 1;
    }
    proof {
        reveal(seed_set);
        assert forall|n: Seq<char>| #[trigger]
            strs_view(names@).contains(n) <==> seed_set(rv).contains(n) by {
            assert(strs_view(names@).contains(n) <==> has_str(names@, n)) by {
                if strs_view(names@).contains(n) {
                    let i = choose|i: int| 0 <= i < strs_view(names@).len() && strs_view(names@)[i]
                        == n;
                    assert(names@[i]@ == n);
                }
                if has_str(names@, n) {
                    let i = choose|i: int| 0 <= i < names@.len() && names@[i]@ == n;
                    assert(strs_view(names@)[i] == n);
                }
            }
            assert(seed_set(rv).contains(n) <==> (exists|t: int|
                0 <= t < rv.len() && rv[t].base_seed_name == n)) by {
                if seed_set(rv).contains(n) {
                    let m = rv.map_values(|r: RowModel| r.base_seed_name);
                    let t = choose|t: int| 0 <= t < m.len() && m[t] == n;
                    assert(rv[t].base_seed_name == n);
                }
                if exists|t: int| 0 <= t < rv.len() && rv[t].base_seed_name == n {
                    let t = choose|t: int| 0 <= t < rv.len() && rv[t].base_seed_name == n;
                    let m = rv.map_values(|r: RowModel| r.base_seed_name);
                    assert(m[t] == n);
                    assert(m.contains(n));
                }
            }
        }
        assert forall|i: int, j: int|
            0 <= i < j < strs_view(names@).len() implies lex_lt(
            strs_view(names@)[i],
            strs_view(names@)[j],
        ) by {
            assert(strs_view(names@)[i] == names@[i]@);
            assert(strs_view(names@)[j] == names@[j]@);
        }
    }
    names
}

// ---------------------------------------------------------------------------
// Grouping rows by player
// ---------------------------------------------------------------------------

/// One player and the indices of their rows, in input order.
struct PlayerGroup {
    name: String,
    row_idxs: Vec<usize>,
}

/// `t` occurs among the indices.
spec fn has_idx(idxs: Seq<usize>, t: int) -> bool {
    exists|a: int| 0 <= a < idxs.len() && idxs[a] == t
}

/// The group holds exactly the indices of `rv`'s first `upto` rows whose
/// player is the group's, in increasing order.
spec fn group_ok(rv: Seq<RowModel>, upto: int, g: PlayerGroup) -> bool {
    &&& g.row_idxs@.len() > 0
    &&& forall|a: int, b: int|
        0 <= a < b < g.row_idxs@.len() ==> g.row_idxs@[a] < g.row_idxs@[b]
    &&& forall|a: int|
        0 <= a < g.row_idxs@.len() ==> 0 <= #[trigger] g.row_idxs@[a] < upto
            && rv[g.row_idxs@[a] as int].player_name == g.name@
    &&& forall|t: int|
        0 <= t < upto && rv[t].player_name == g.name@ ==> has_idx(g.row_idxs@, t)
}

/// The groups partition the first `upto` rows by player, in order of each
/// player's first appearance.
spec fn player_groups_ok(rv: Seq<RowModel>, gs: Seq<PlayerGroup>, upto: int) -> bool {
    &&& forall|k: int| 0 <= k < gs.len() ==> group_ok(rv, upto, #[trigger] gs[k])
    &&& forall|k1: int, k2: int|
        #![trigger gs[k1], gs[k2]]
        0 <= k1 < k2 < gs.len() ==> gs[k1].name@ != gs[k2].name@ && gs[k1].row_idxs@[0]
            < gs[k2].row_idxs@[0]
    &&& forall|t: int|
        #![trigger rv[t]]
        0 <= t < upto ==> exists|k: int| 0 <= k < gs.len() && #[trigger] gs[k].name@ == rv[
            t
        ].player_name
}

/// Group the rows by player. Every row index lands in exactly one group;
/// groups appear in the order their players first appear in the input.
fn group_players(rows: &Vec<SingleCompetitionResult>) -> (groups: Vec<PlayerGroup>)
    ensures
        player_groups_ok(rows_model(rows@), groups@, rows_model(rows@).len() as int),
{
    let ghost rv = rows_model(rows@);
    let mut groups: Vec<PlayerGroup> = Vec::new();
    let n = rows.len();
    let mut i: usize = 0;
    while i < n
        invariant
            n == rows@.len(),
            i <= n,
            rv == rows_model(rows@),
            player_groups_ok(rv, groups@, i as int),
        decreases n - i,
    {
        let mut k: usize = 0;
        while k < groups.len() && !(groups[k].name == rows[i].player_name)
            invariant
                k <= groups@.len(),
                n == rows@.len(),
                i < n,
                rv == rows_model(rows@),
                forall|j: int| 0 <= j < k ==> #[trigger] groups@[j].name@ != rv[i as int].player_name,
            decreases groups@.len() - k,
        {
            k = k + 1;
        }
        proof {
            assert(rv[i as int].player_name == rows@[i as int].player_name@);
        }
        let ghost pre = groups@;
        if k < groups.len() {
            let mut g = groups.remove(k);
            g.row_idxs.push(i);
            let ghost g2 = g;
            groups.insert(k, g);
            proof {
                pre.remove_ensures(k as int);
                pre.remove(k as int).insert_ensures(k as int, g2);
                assert forall|j: int| 0 <= j < groups@.len() && j != k implies groups@[j] == pre[j] by {
                    if j < k {
                        assert(groups@[j] == pre.remove(k as int)[j]);
                    } else {
                        assert(groups@[j] == pre.remove(k as int)[j - 1]);
                    }
                }
                assert(groups@[k as int] == g2);
                assert(groups@.len() == pre.len());
                assert(g2.name@ == rv[i as int].player_name);
                assert(g2.row_idxs@ == pre[k as int].row_idxs@.push(i));
                assert(group_ok(rv, i + 1, g2)) by {
                    let old_idxs = pre[k as int].row_idxs@;
                    assert(forall|a: int|
                        0 <= a < old_idxs.len() ==> #[trigger] g2.row_idxs@[a] == old_idxs[a]);
                    assert(g2.row_idxs@[old_idxs.len() as int] == i);
                    assert forall|t: int|
                        0 <= t < i + 1 && rv[t].player_name == g2.name@ implies has_idx(
                        g2.row_idxs@,
                        t,
                    ) by {
                        if t < i {
                            assert(group_ok(rv, i as int, pre[k as int]));
                            assert(g2.name@ == pre[k as int].name@);
                            assert(has_idx(old_idxs, t));
                            let a = choose|a: int|
                                0 <= a < old_idxs.len() && old_idxs[a] == t;
                            assert(g2.row_idxs@[a] == t);
                        } else {
                            assert(g2.row_idxs@[old_idxs.len() as int] == t);
                        }
                    }
                }
                assert forall|k2: int|
                    0 <= k2 < groups@.len() && k2 != k implies group_ok(
                    rv,
                    i + 1,
                    #[trigger] groups@[k2],
                ) by {
                    assert(groups@[k2] == pre[k2]);
                    assert(group_ok(rv, i as int, pre[k2]));
                    assert forall|t: int|
                        0 <= t < i + 1 && rv[t].player_name == groups@[k2].name@ implies has_idx(
                        groups@[k2].row_idxs@,
                        t,
                    ) by {
                        if t == i {
                            if k2 < k {
                                assert(pre[k2].name@ != rv[i as int].player_name);
                            } else {
                                assert(pre[k as int].name@ == rv[i as int].player_name);
                                assert(pre[k2].name@ != pre[k as int].name@);
                            }
                        }
                    }
                }
                assert(g2.row_idxs@[0] == pre[k as int].row_idxs@[0]);
                assert forall|k1: int, k2: int|
                    #![trigger groups@[k1], groups@[k2]]
                    0 <= k1 < k2 < groups@.len() implies groups@[k1].name@ != groups@[k2].name@
                    && groups@[k1].row_idxs@[0] < groups@[k2].row_idxs@[0] by {
                    assert(pre[k1].name@ != pre[k2].name@ && pre[k1].row_idxs@[0]
                        < pre[k2].row_idxs@[0]);
                    if k1 == k {
                        assert(groups@[k1].name@ == pre[k1].name@);
                        assert(groups@[k1].row_idxs@[0] == pre[k1].row_idxs@[0]);
                    } else if k2 == k {
                        assert(groups@[k2].name@ == pre[k2].name@);
                        assert(groups@[k2].row_idxs@[0] == pre[k2].row_idxs@[0]);
                    }
                }
                assert forall|t: int| #![trigger rv[t]] 0 <= t < i + 1 implies exists|k2: int|
                    0 <= k2 < groups@.len() && #[trigger] groups@[k2].name@ == rv[
                    t
                ].player_name by {
                    if t < i {
                        let k2 = choose|k2: int|
                            0 <= k2 < pre.len() && #[trigger] pre[k2].name@ == rv[t].player_name;
                        if k2 == k {
                            assert(groups@[k2].name@ == rv[t].player_name);
                        } else {
                            assert(groups@[k2].name@ == rv[t].player_name);
                        }
                    } else {
                        assert(groups@[k as int].name@ == rv[t].player_name);
                    }
                }
            }
        } else {
            let mut idxs: Vec<usize> = Vec::new();
            idxs.push(i);
            let g = PlayerGroup { name: rows[i].player_name.clone(), row_idxs: idxs };
            groups.push(g);
            proof {
                assert(groups@ == pre.push(g));
                assert(groups@[pre.len() as int].row_idxs@ =~= seq![i]);
                assert(group_ok(rv, i + 1, groups@[pre.len() as int])) by {
                    assert(groups@[pre.len() as int].row_idxs@[0] == i);
                    assert forall|t: int|
                        0 <= t < i + 1 && rv[t].player_name == groups@[pre.len() as int].name@
                        implies has_idx(groups@[pre.len() as int].row_idxs@, t) by {
                        if t < i {
                            let k2 = choose|k2: int|
                                0 <= k2 < pre.len() && #[trigger] pre[k2].name@ == rv[
                                t
                            ].player_name;
                            assert(false);
                        } else {
                            assert(groups@[pre.len() as int].row_idxs@[0] == t);
                        }
                    }
                }
                assert forall|k2: int|
                    0 <= k2 < pre.len() implies group_ok(rv, i + 1, #[trigger] groups@[k2]) by {
                    assert(groups@[k2] == pre[k2]);
                    assert forall|t: int|
                        0 <= t < i + 1 && rv[t].player_name == groups@[k2].name@ implies has_idx(
                        groups@[k2].row_idxs@,
                        t,
                    ) by {
                        if t == i {
                            assert(pre[k2].name@ != rv[i as int].player_name);
                        }
                    }
                }
                assert forall|k1: int, k2: int|
                    #![trigger groups@[k1], groups@[k2]]
                    0 <= k1 < k2 < groups@.len() implies groups@[k1].name@ != groups@[k2].name@
                    && groups@[k1].row_idxs@[0] < groups@[k2].row_idxs@[0] by {
                    if k2 == pre.len() {
                        assert(groups@[k1] == pre[k1]);
                        assert(pre[k1].name@ != rv[i as int].player_name);
                        assert(pre[k1].row_idxs@[0] < i);
                    }
                }
                assert forall|t: int| #![trigger rv[t]] 0 <= t < i + 1 implies exists|k2: int|
                    0 <= k2 < groups@.len() && #[trigger] groups@[k2].name@ == rv[
                    t
                ].player_name by {
                    if t < i {
                        let k2 = choose|k2: int|
                            0 <= k2 < pre.len() && #[trigger] pre[k2].name@ == rv[t].player_name;
                        assert(groups@[k2].name@ == rv[t].player_name);
                    } else {
                        assert(groups@[pre.len() as int].name@ == rv[t].player_name);
                    }
                }
            }
        }
        i = i + 1;
    }
    groups
}

// ---------------------------------------------------------------------------
// Team keys: a player's sorted list of game ids
// ---------------------------------------------------------------------------

/// The game ids of the rows at the given indices.
spec fn ids_of(rv: Seq<RowModel>, idxs: Seq<usize>) -> Seq<int> {
    idxs.map_values(|t: usize| rv[t as int].site_game_id)
}

/// Non-decreasing game ids.
pub open spec fn sorted_ids(s: Seq<i64>) -> bool {
    forall|a: int, b: int| 0 <= a < b < s.len() ==> s[a] <= s[b]
}

/// The mathematical value of a key.
pub open spec fn key_model(key: Seq<i64>) -> Seq<int> {
    key.map_values(|x: i64| x as int)
}

/// If `idxs` lists exactly the rows whose player is `p`, then the game ids
/// found at those indices are, as a multiset, exactly the games of `p`.
proof fn lemma_exact_idxs_games(rv: Seq<RowModel>, idxs: Seq<usize>, p: Seq<char>)
    requires
        forall|a: int, b: int| 0 <= a < b < idxs.len() ==> idxs[a] < idxs[b],
        forall|a: int|
            0 <= a < idxs.len() ==> #[trigger] idxs[a] < rv.len() && rv[idxs[a] as int].player_name
                == p,
        forall|t: int| 0 <= t < rv.len() && rv[t].player_name == p ==> has_idx(idxs, t),
    ensures
        ids_of(rv, idxs).to_multiset() == games_of(rv, p),
    decreases rv.len(),
{
    broadcast use vstd::seq_lib::group_to_multiset_ensures;

    reveal(Seq::filter);
    reveal(games_of);
    let pred = |r: RowModel| r.player_name == p;
    let gseq = rv.filter(pred).map_values(|r: RowModel| r.site_game_id);
    if rv.len() == 0 {
        assert(idxs.len() == 0) by {
            if idxs.len() > 0 {
                assert(idxs[0] < rv.len());
            }
        }
        assert(ids_of(rv, idxs) =~= gseq);
    } else {
        let n = rv.len() - 1;
        let head = rv.drop_last();
        if pred(rv.last()) {
            assert(has_idx(idxs, n));
            let a0 = choose|a: int| 0 <= a < idxs.len() && idxs[a] == n;
            assert(a0 == idxs.len() - 1) by {
                if a0 < idxs.len() - 1 {
                    assert(idxs[a0] < idxs[idxs.len() - 1]);
                    assert(idxs[idxs.len() - 1] < rv.len());
                }
            }
            let hidxs = idxs.drop_last();
            assert forall|a: int|
                0 <= a < hidxs.len() implies #[trigger] hidxs[a] < head.len()
                && head[hidxs[a] as int].player_name == p by {
                assert(hidxs[a] == idxs[a]);
                assert(idxs[a] < idxs[idxs.len() - 1]);
                assert(head[hidxs[a] as int] == rv[idxs[a] as int]);
            }
            assert forall|t: int|
                0 <= t < head.len() && head[t].player_name == p implies has_idx(hidxs, t) by {
                assert(head[t] == rv[t]);
                assert(has_idx(idxs, t));
                let a = choose|a: int| 0 <= a < idxs.len() && idxs[a] == t;
                assert(a != idxs.len() - 1);
                assert(hidxs[a] == t);
            }
            lemma_exact_idxs_games(head, hidxs, p);
            assert(ids_of(rv, idxs) =~= ids_of(head, hidxs).push(rv[n].site_game_id)) by {
                assert forall|a: int| 0 <= a < hidxs.len() implies ids_of(rv, idxs)[a] == ids_of(
                    head,
                    hidxs,
                )[a] by {
                    assert(idxs[a] < n);
                    assert(head[hidxs[a] as int] == rv[idxs[a] as int]);
                }
                assert(ids_of(rv, idxs)[idxs.len() - 1] == rv[n].site_game_id);
            }
            assert(rv.filter(pred) == head.filter(pred).push(rv.last()));
            let hgseq = head.filter(pred).map_values(|r: RowModel| r.site_game_id);
            assert(gseq =~= hgseq.push(rv[n].site_game_id));
            assert(ids_of(rv, idxs).to_multiset() =~= gseq.to_multiset());
        } else {
            assert forall|a: int|
                0 <= a < idxs.len() implies #[trigger] idxs[a] < head.len()
                && head[idxs[a] as int].player_name == p by {
                assert(idxs[a] < rv.len());
                if idxs[a] == n {
                    assert(rv[idxs[a] as int].player_name == p);
                }
                assert(head[idxs[a] as int] == rv[idxs[a] as int]);
            }
            assert forall|t: int|
                0 <= t < head.len() && head[t].player_name == p implies has_idx(idxs, t) by {
                assert(head[t] == rv[t]);
            }
            lemma_exact_idxs_games(head, idxs, p);
            assert(ids_of(rv, idxs) =~= ids_of(head, idxs)) by {
                assert forall|a: int| 0 <= a < idxs.len() implies ids_of(rv, idxs)[a] == ids_of(
                    head,
                    idxs,
                )[a] by {
                    assert(idxs[a] < n + 1 && idxs[a] != n);
                    assert(head[idxs[a] as int] == rv[idxs[a] as int]);
                }
            }
            assert(rv.filter(pred) == head.filter(pred));
            let hgseq = head.filter(pred).map_values(|r: RowModel| r.site_game_id);
            assert(gseq =~= hgseq);
        }
    }
}

/// Build the key of one player: their game ids, sorted ascending.
fn game_id_key(rows: &Vec<SingleCompetitionResult>, idxs: &Vec<usize>) -> (key: Vec<i64>)
    requires
        forall|a: int| 0 <= a < idxs@.len() ==> #[trigger] idxs@[a] < rows@.len(),
    ensures
        sorted_ids(key@),
        key_model(key@).to_multiset() == ids_of(rows_model(rows@), idxs@).to_multiset(),
{
    broadcast use vstd::seq_lib::group_to_multiset_ensures;
    broadcast use vstd::seq_lib::to_multiset_insert;

    let ghost rv = rows_model(rows@);
    let mut key: Vec<i64> = Vec::new();
    let mut c: usize = 0;
    while c < idxs.len()
        invariant
            c <= idxs@.len(),
            rv == rows_model(rows@),
            forall|a: int| 0 <= a < idxs@.len() ==> #[trigger] idxs@[a] < rows@.len(),
            sorted_ids(key@),
            key_model(key@).to_multiset() == ids_of(rv, idxs@.take(c as int)).to_multiset(),
        decreases idxs@.len() - c,
    {
        let t = idxs[c];
        let x = rows[t].site_game_id;
        proof {
            assert(rv[t as int].site_game_id == x as int);
        }
        let mut pos: usize = 0;
        while pos < key.len() && key[pos] < x
            invariant
                pos <= key@.len(),
                forall|j: int| 0 <= j < pos ==> key@[j] < x,
            decreases key@.len() - pos,
        {
            pos = pos + 1;
        }
        let ghost pre = key@;
        key.insert(pos, x);
        proof {
            pre.insert_ensures(pos as int, x);
            assert forall|a: int, b: int| 0 <= a < b < key@.len() implies key@[a] <= key@[b] by {
                let p = pos as int;
                if b < p {
                } else if a < p && b == p {
                } else if a < p && b > p {
                    assert(key@[b] == pre[b - 1]);
                    assert(pre[p] <= pre[b - 1]);
                } else if a == p {
                    assert(key@[b] == pre[b - 1]);
                    assert(x <= pre[p] || p >= pre.len());
                    assert(pre[p] <= pre[b - 1]);
                } else {
                    assert(key@[a] == pre[a - 1] && key@[b] == pre[b - 1]);
                }
            }
            assert(key_model(key@) =~= key_model(pre).insert(pos as int, x as int)) by {
                pre.insert_ensures(pos as int, x);
            }
            assert(ids_of(rv, idxs@.take(c + 1)) =~= ids_of(rv, idxs@.take(c as int)).push(
                rv[t as int].site_game_id,
            ));
            vstd::seq_lib::to_multiset_insert(key_model(pre), pos as int, x as int);
            vstd::seq_lib::to_multiset_build(
                ids_of(rv, idxs@.take(c as int)),
                rv[t as int].site_game_id,
            );
            assert(key_model(key@).to_multiset() == ids_of(rv, idxs@.take(c + 1)).to_multiset());
        }
        c = c + 1;
    }
    proof {
        assert(idxs@.take(idxs@.len() as int) =~= idxs@);
    }
    key
}

/// Equal keys mean the same team; a key pins a player's game multiset.
proof fn lemma_keys_same_team(
    rv: Seq<RowModel>,
    key1: Seq<i64>,
    key2: Seq<i64>,
    p1: Seq<char>,
    p2: Seq<char>,
)
    requires
        sorted_ids(key1),
        sorted_ids(key2),
        key_model(key1).to_multiset() == games_of(rv, p1),
        key_model(key2).to_multiset() == games_of(rv, p2),
    ensures
        key1 == key2 <==> same_team(rv, p1, p2),
{
    if key1 == key2 {
        assert(games_of(rv, p1) == games_of(rv, p2));
    }
    if same_team(rv, p1, p2) {
        let leq = |a: int, b: int| a <= b;
        assert(vstd::relations::total_ordering(leq));
        assert(vstd::relations::sorted_by(key_model(key1), leq)) by {
            assert forall|a: int, b: int|
                0 <= a < b < key_model(key1).len() implies leq(
                key_model(key1)[a],
                key_model(key1)[b],
            ) by {
                assert(key1[a] <= key1[b]);
            }
        }
        assert(vstd::relations::sorted_by(key_model(key2), leq)) by {
            assert forall|a: int, b: int|
                0 <= a < b < key_model(key2).len() implies leq(
                key_model(key2)[a],
                key_model(key2)[b],
            ) by {
                assert(key2[a] <= key2[b]);
            }
        }
        vstd::seq_lib::lemma_sorted_unique(key_model(key1), key_model(key2), leq);
        assert(key1 =~= key2) by {
            assert(key_model(key1) =~= key_model(key2));
            assert forall|a: int| 0 <= a < key1.len() implies key1[a] == key2[a] by {
                assert(key_model(key1)[a] == key_model(key2)[a]);
            }
        }
    }
}

// ---------------------------------------------------------------------------
// Grouping players into teams by key
// ---------------------------------------------------------------------------

/// One inferred team while it is being assembled: its key, its members in
/// order of first appearance, all their row indices, and the index of the
/// team's first row in the input.
struct TeamGroup {
    key: Vec<i64>,
    members: Vec<String>,
    row_idxs: Vec<usize>,
    first: usize,
}

spec fn team_lead(tg: TeamGroup) -> Seq<char> {
    tg.members@[0]@
}

/// Internal consistency of one team under assembly.
spec fn team_group_ok(rv: Seq<RowModel>, tg: TeamGroup) -> bool {
    &&& tg.members@.len() > 0
    &&& sorted_ids(tg.key@)
    &&& key_model(tg.key@).to_multiset() == games_of(rv, team_lead(tg))
    &&& forall|j: int|
        0 <= j < tg.members@.len() ==> players_of(rv).contains(#[trigger] tg.members@[j]@)
            && same_team(rv, tg.members@[j]@, team_lead(tg))
    &&& forall|j1: int, j2: int|
        0 <= j1 < j2 < tg.members@.len() ==> tg.members@[j1]@ != tg.members@[j2]@
    &&& forall|a: int|
        0 <= a < tg.row_idxs@.len() ==> #[trigger] tg.row_idxs@[a] < rv.len() && same_team(
            rv,
            rv[tg.row_idxs@[a] as int].player_name,
            team_lead(tg),
        )
    &&& forall|t: int|
        #![trigger rv[t]]
        0 <= t < rv.len() && has_str(tg.members@, rv[t].player_name) ==> has_idx(tg.row_idxs@, t)
    &&& tg.first < rv.len()
    &&& same_team(rv, rv[tg.first as int].player_name, team_lead(tg))
    &&& forall|t: int|
        #![trigger rv[t]]
        0 <= t < tg.first ==> !same_team(rv, rv[t].player_name, team_lead(tg))
}

/// Everything one fully assembled team satisfies: its loop facts, an
/// exact roster, exact row indices, and a minimal first row.
spec fn team_final_one(rv: Seq<RowModel>, tg: TeamGroup) -> bool {
    &&& team_group_ok(rv, tg)
    &&& forall|q: Seq<char>|
        #![trigger has_str(tg.members@, q)]
        (players_of(rv).contains(q) && same_team(rv, q, team_lead(tg))) <==> has_str(
            tg.members@,
            q,
        )
    &&& forall|t: int|
        #![trigger rv[t]]
        0 <= t < rv.len() && same_team(rv, rv[t].player_name, team_lead(tg)) ==> has_idx(
            tg.row_idxs@,
            t,
        )
    &&& team_first_idx(rv, team_lead(tg)) == tg.first
}

/// What holds of the assembled teams once every player group is placed.
spec fn teams_final_ok(rv: Seq<RowModel>, ts: Seq<TeamGroup>) -> bool {
    &&& forall|k: int| 0 <= k < ts.len() ==> team_final_one(rv, #[trigger] ts[k])
    &&& forall|k1: int, k2: int|
        #![trigger ts[k1], ts[k2]]
        0 <= k1 < k2 < ts.len() ==> !same_team(rv, team_lead(ts[k1]), team_lead(ts[k2]))
            && ts[k1].first < ts[k2].first
    &&& forall|q: Seq<char>|
        players_of(rv).contains(q) ==> exists|k: int|
            0 <= k < ts.len() && has_str(#[trigger] ts[k].members@, q)
}

/// Where a search with `first_match_from` must land.
pub proof fn lemma_first_match_is<A>(s: Seq<A>, pred: spec_fn(A) -> bool, x: int)
    requires
        0 <= x <= s.len(),
        forall|j: int| 0 <= j < x ==> !pred(s[j]),
        x < s.len() ==> pred(s[x]),
    ensures
        first_match_from(s, pred, 0) == x,
{
    lemma_first_match_from(s, pred, 0);
    let fm = first_match_from(s, pred, 0);
    if x < s.len() {
        assert(fm < s.len());
        if fm < x {
            assert(!pred(s[fm]));
        }
        if fm > x {
            assert(!pred(s[x]));
        }
    } else {
        if fm < s.len() {
            assert(!pred(s[fm]));
        }
    }
}

/// Whether two keys are the same sequence.
fn keys_equal(a: &Vec<i64>, b: &Vec<i64>) -> (r: bool)
    ensures
        r == (a@ == b@),
{
    if a.len() != b.len() {
        return false;
    }
    let mut i: usize = 0;
    while i < a.len()
        invariant
            a@.len() == b@.len(),
            i <= a@.len(),
            forall|j: int| 0 <= j < i ==> a@[j] == b@[j],
        decreases a@.len() - i,
    {
        if a[i] != b[i] {
            return false;
        }
        i = i + 1;
    }
    proof {
        assert(a@ =~= b@);
    }
    true
}

/// Append all of `src` to `dst`.
fn push_idxs(dst: &mut Vec<usize>, src: &Vec<usize>)
    ensures
        final(dst)@ == old(dst)@ + src@,
{
    let mut c: usize = 0;
    while c < src.len()
        invariant
            c <= src@.len(),
            dst@ == old(dst)@ + src@.take(c as int),
        decreases src@.len() - c,
    {
        dst.push(src[c]);
        proof {
            assert(dst@ =~= old(dst)@ + src@.take(c + 1));
        }
        c = c + 1;
    }
    proof {
        assert(src@.take(src@.len() as int) =~= src@);
    }
}

/// The loop facts of team assembly after the first `c` player groups are
/// placed.
spec fn teams_inv(rv: Seq<RowModel>, gs: Seq<PlayerGroup>, ts: Seq<TeamGroup>, c: int) -> bool {
    &&& forall|k: int| 0 <= k < ts.len() ==> team_group_ok(rv, #[trigger] ts[k])
    &&& forall|k1: int, k2: int|
        #![trigger ts[k1], ts[k2]]
        0 <= k1 < k2 < ts.len() ==> !same_team(rv, team_lead(ts[k1]), team_lead(ts[k2]))
            && ts[k1].first < ts[k2].first
    &&& forall|k2: int|
        #![trigger gs[k2]]
        0 <= k2 < c ==> exists|kk: int|
            0 <= kk < ts.len() && has_str(#[trigger] ts[kk].members@, gs[k2].name@)
    &&& forall|kk: int, n: Seq<char>|
        #![trigger has_str(ts[kk].members@, n)]
        0 <= kk < ts.len() && has_str(ts[kk].members@, n) ==> exists|k2: int|
            0 <= k2 < c && gs[k2].name@ == n
    &&& forall|kk: int|
        0 <= kk < ts.len() ==> exists|k2: int|
            0 <= k2 < c && #[trigger] ts[kk].first == gs[k2].row_idxs@[0]
}

/// Joining an existing team preserves the loop facts.
#[verifier::rlimit(100)]
#[verifier::spinoff_prover]
proof fn lemma_team_join(
    rv: Seq<RowModel>,
    gs: Seq<PlayerGroup>,
    pre: Seq<TeamGroup>,
    ts2: Seq<TeamGroup>,
    c: int,
    kk: int,
    key: Seq<i64>,
)
    requires
        player_groups_ok(rv, gs, rv.len() as int),
        0 <= c < gs.len(),
        teams_inv(rv, gs, pre, c),
        sorted_ids(key),
        key_model(key).to_multiset() == games_of(rv, gs[c].name@),
        players_of(rv).contains(gs[c].name@),
        0 <= kk < pre.len(),
        pre[kk].key@ == key,
        ts2.len() == pre.len(),
        forall|j: int| 0 <= j < ts2.len() && j != kk ==> #[trigger] ts2[j] == pre[j],
        ts2[kk].members@ == pre[kk].members@.push(gs[c].name),
        ts2[kk].row_idxs@ == pre[kk].row_idxs@ + gs[c].row_idxs@,
        ts2[kk].key@ == pre[kk].key@,
        ts2[kk].first == pre[kk].first,
    ensures
        teams_inv(rv, gs, ts2, c + 1),
{
    let g_name = gs[c].name;
    let told = pre[kk];
    let tg2 = ts2[kk];
    assert(group_ok(rv, rv.len() as int, gs[c]));
    lemma_keys_same_team(rv, told.key@, key, team_lead(told), g_name@);
    assert(same_team(rv, g_name@, team_lead(told)));
    assert(team_lead(tg2) == team_lead(told)) by {
        assert(tg2.members@[0] == told.members@[0]);
    }
    let mlen = told.members@.len() as int;
    assert(tg2.members@[mlen]@ == g_name@);
    assert(team_group_ok(rv, tg2)) by {
        assert forall|j1: int, j2: int|
            0 <= j1 < j2 < tg2.members@.len() implies tg2.members@[j1]@ != tg2.members@[j2]@ by {
            if j2 == mlen {
                assert(has_str(told.members@, told.members@[j1]@));
                let k2 = choose|k2: int| 0 <= k2 < c && gs[k2].name@ == told.members@[j1]@;
                assert(gs[k2].name@ != gs[c].name@);
            }
        }
        assert forall|a: int|
            0 <= a < tg2.row_idxs@.len() implies #[trigger] tg2.row_idxs@[a] < rv.len()
            && same_team(rv, rv[tg2.row_idxs@[a] as int].player_name, team_lead(tg2)) by {
            let olen = told.row_idxs@.len() as int;
            if a < olen {
                assert(tg2.row_idxs@[a] == told.row_idxs@[a]);
            } else {
                assert(tg2.row_idxs@[a] == gs[c].row_idxs@[a - olen]);
                assert(rv[tg2.row_idxs@[a] as int].player_name == g_name@);
            }
        }
        assert forall|t: int|
            #![trigger rv[t]]
            0 <= t < rv.len() && has_str(tg2.members@, rv[t].player_name) implies has_idx(
            tg2.row_idxs@,
            t,
        ) by {
            let j = choose|j: int|
                0 <= j < tg2.members@.len() && tg2.members@[j]@ == rv[t].player_name;
            let olen = told.row_idxs@.len() as int;
            if j < mlen {
                assert(has_str(told.members@, rv[t].player_name));
                assert(has_idx(told.row_idxs@, t));
                let a = choose|a: int| 0 <= a < told.row_idxs@.len() && told.row_idxs@[a] == t;
                assert(tg2.row_idxs@[a] == t);
            } else {
                assert(rv[t].player_name == g_name@);
                assert(has_idx(gs[c].row_idxs@, t));
                let a = choose|a: int| 0 <= a < gs[c].row_idxs@.len() && gs[c].row_idxs@[a] == t;
                assert(tg2.row_idxs@[olen + a] == t);
            }
        }
    }
    assert forall|k2: int| #![trigger gs[k2]] 0 <= k2 < c + 1 implies exists|kx: int|
        0 <= kx < ts2.len() && has_str(#[trigger] ts2[kx].members@, gs[k2].name@) by {
        if k2 == c {
            assert(tg2.members@[mlen]@ == gs[c].name@);
            assert(has_str(ts2[kk].members@, gs[k2].name@));
        } else {
            let kx = choose|kx: int|
                0 <= kx < pre.len() && has_str(#[trigger] pre[kx].members@, gs[k2].name@);
            if kx == kk {
                let j = choose|j: int|
                    0 <= j < told.members@.len() && told.members@[j]@ == gs[k2].name@;
                assert(tg2.members@[j]@ == gs[k2].name@);
                assert(has_str(ts2[kx].members@, gs[k2].name@));
            } else {
                assert(has_str(ts2[kx].members@, gs[k2].name@));
            }
        }
    }
    assert forall|kx: int, n: Seq<char>|
        #![trigger has_str(ts2[kx].members@, n)]
        0 <= kx < ts2.len() && has_str(ts2[kx].members@, n) implies exists|k2: int|
        0 <= k2 < c + 1 && gs[k2].name@ == n by {
        if kx == kk {
            let j = choose|j: int| 0 <= j < tg2.members@.len() && tg2.members@[j]@ == n;
            if j < mlen {
                assert(told.members@[j]@ == n);
                assert(has_str(told.members@, n));
                let k2 = choose|k2: int| 0 <= k2 < c && gs[k2].name@ == n;
                assert(0 <= k2 < c + 1 && gs[k2].name@ == n);
            } else {
                assert(gs[c].name@ == n);
            }
        } else {
            assert(has_str(pre[kx].members@, n));
            let k2 = choose|k2: int| 0 <= k2 < c && gs[k2].name@ == n;
            assert(0 <= k2 < c + 1 && gs[k2].name@ == n);
        }
    }
    assert forall|kx: int| 0 <= kx < ts2.len() implies exists|k2: int|
        0 <= k2 < c + 1 && #[trigger] ts2[kx].first == gs[k2].row_idxs@[0] by {
        let k2 = choose|k2: int| 0 <= k2 < c && #[trigger] pre[kx].first == gs[k2].row_idxs@[0];
        assert(ts2[kx].first == pre[kx].first);
    }
    assert forall|k1: int, k2: int|
        #![trigger ts2[k1], ts2[k2]]
        0 <= k1 < k2 < ts2.len() implies !same_team(rv, team_lead(ts2[k1]), team_lead(ts2[k2]))
        && ts2[k1].first < ts2[k2].first by {
        assert(!same_team(rv, team_lead(pre[k1]), team_lead(pre[k2])) && pre[k1].first
            < pre[k2].first);
        if k1 == kk {
            assert(team_lead(ts2[k1]) == team_lead(pre[k1]));
        } else if k2 == kk {
            assert(team_lead(ts2[k2]) == team_lead(pre[k2]));
        }
    }
}

/// Starting a fresh team preserves the loop facts: no earlier row can
/// belong to it, or its player would already sit in a team with this key.
#[verifier::rlimit(100)]
#[verifier::spinoff_prover]
proof fn lemma_team_create(
    rv: Seq<RowModel>,
    gs: Seq<PlayerGroup>,
    pre: Seq<TeamGroup>,
    ts2: Seq<TeamGroup>,
    c: int,
    key: Seq<i64>,
)
    requires
        player_groups_ok(rv, gs, rv.len() as int),
        0 <= c < gs.len(),
        teams_inv(rv, gs, pre, c),
        sorted_ids(key),
        key_model(key).to_multiset() == games_of(rv, gs[c].name@),
        players_of(rv).contains(gs[c].name@),
        forall|j: int| 0 <= j < pre.len() ==> #[trigger] pre[j].key@ != key,
        ts2.len() == pre.len() + 1,
        forall|j: int| 0 <= j < pre.len() ==> #[trigger] ts2[j] == pre[j],
        ts2[pre.len() as int].members@ =~= seq![gs[c].name],
        ts2[pre.len() as int].row_idxs@ == gs[c].row_idxs@,
        ts2[pre.len() as int].key@ == key,
        ts2[pre.len() as int].first == gs[c].row_idxs@[0],
    ensures
        teams_inv(rv, gs, ts2, c + 1),
{
    let g_name = gs[c].name;
    let tgv = ts2[pre.len() as int];
    assert(group_ok(rv, rv.len() as int, gs[c]));
    assert(team_lead(tgv) == g_name@);
    assert forall|t: int|
        #![trigger rv[t]]
        0 <= t < tgv.first implies !same_team(rv, rv[t].player_name, g_name@) by {
        if same_team(rv, rv[t].player_name, g_name@) {
            let p2 = rv[t].player_name;
            let k2 = choose|k2: int| 0 <= k2 < gs.len() && #[trigger] gs[k2].name@ == p2;
            assert(group_ok(rv, rv.len() as int, gs[k2]));
            assert(has_idx(gs[k2].row_idxs@, t));
            let a = choose|a: int| 0 <= a < gs[k2].row_idxs@.len() && gs[k2].row_idxs@[a] == t;
            assert(gs[k2].row_idxs@[0] <= gs[k2].row_idxs@[a]) by {
                if a > 0 {
                    assert(gs[k2].row_idxs@[0] < gs[k2].row_idxs@[a]);
                }
            }
            assert(k2 != c);
            assert(k2 < c) by {
                if k2 > c {
                    assert(gs[c].row_idxs@[0] < gs[k2].row_idxs@[0]);
                }
            }
            let kx = choose|kx: int|
                0 <= kx < pre.len() && has_str(#[trigger] pre[kx].members@, p2);
            let j = choose|j: int| 0 <= j < pre[kx].members@.len() && pre[kx].members@[j]@ == p2;
            assert(same_team(rv, p2, team_lead(pre[kx])));
            assert(same_team(rv, g_name@, team_lead(pre[kx])));
            lemma_keys_same_team(rv, pre[kx].key@, key, team_lead(pre[kx]), g_name@);
            assert(pre[kx].key@ == key);
            assert(false);
        }
    }
    assert(same_team(rv, rv[tgv.first as int].player_name, g_name@)) by {
        assert(rv[tgv.first as int].player_name == g_name@);
    }
    assert(team_group_ok(rv, tgv)) by {
        assert forall|t: int|
            #![trigger rv[t]]
            0 <= t < rv.len() && has_str(tgv.members@, rv[t].player_name) implies has_idx(
            tgv.row_idxs@,
            t,
        ) by {
            assert(tgv.members@[0]@ == g_name@);
            assert(rv[t].player_name == g_name@);
            assert(has_idx(gs[c].row_idxs@, t));
        }
        assert forall|a: int|
            0 <= a < tgv.row_idxs@.len() implies #[trigger] tgv.row_idxs@[a] < rv.len()
            && same_team(rv, rv[tgv.row_idxs@[a] as int].player_name, team_lead(tgv)) by {
            assert(rv[tgv.row_idxs@[a] as int].player_name == g_name@);
        }
    }
    assert forall|k1: int, k2: int|
        #![trigger ts2[k1], ts2[k2]]
        0 <= k1 < k2 < ts2.len() implies !same_team(rv, team_lead(ts2[k1]), team_lead(ts2[k2]))
        && ts2[k1].first < ts2[k2].first by {
        if k2 == pre.len() {
            assert(ts2[k1] == pre[k1]);
            lemma_keys_same_team(rv, pre[k1].key@, key, team_lead(pre[k1]), g_name@);
            assert(pre[k1].key@ != key);
            assert(!same_team(rv, team_lead(pre[k1]), g_name@));
            let k3 = choose|k3: int|
                0 <= k3 < c && #[trigger] pre[k1].first == gs[k3].row_idxs@[0];
            assert(gs[k3].row_idxs@[0] < gs[c].row_idxs@[0]);
        }
    }
    assert forall|k2: int| #![trigger gs[k2]] 0 <= k2 < c + 1 implies exists|kx: int|
        0 <= kx < ts2.len() && has_str(#[trigger] ts2[kx].members@, gs[k2].name@) by {
        if k2 == c {
            assert(tgv.members@[0]@ == gs[c].name@);
            assert(has_str(ts2[pre.len() as int].members@, gs[k2].name@));
        } else {
            let kx = choose|kx: int|
                0 <= kx < pre.len() && has_str(#[trigger] pre[kx].members@, gs[k2].name@);
            assert(has_str(ts2[kx].members@, gs[k2].name@));
        }
    }
    assert forall|kx: int, n: Seq<char>|
        #![trigger has_str(ts2[kx].members@, n)]
        0 <= kx < ts2.len() && has_str(ts2[kx].members@, n) implies exists|k2: int|
        0 <= k2 < c + 1 && gs[k2].name@ == n by {
        if kx == pre.len() {
            let j = choose|j: int| 0 <= j < tgv.members@.len() && tgv.members@[j]@ == n;
            assert(gs[c].name@ == n);
        } else {
            assert(has_str(pre[kx].members@, n));
            let k2 = choose|k2: int| 0 <= k2 < c && gs[k2].name@ == n;
            assert(0 <= k2 < c + 1 && gs[k2].name@ == n);
        }
    }
    assert forall|kx: int| 0 <= kx < ts2.len() implies exists|k2: int|
        0 <= k2 < c + 1 && #[trigger] ts2[kx].first == gs[k2].row_idxs@[0] by {
        if kx == pre.len() {
            assert(ts2[kx].first == gs[c].row_idxs@[0]);
        } else {
            let k2 = choose|k2: int|
                0 <= k2 < c && #[trigger] pre[kx].first == gs[k2].row_idxs@[0];
            assert(ts2[kx].first == gs[k2].row_idxs@[0]);
        }
    }
}

/// After the last player group is placed, every roster is exact: it
/// holds exactly the players of its team.
#[verifier::rlimit(100)]
#[verifier::spinoff_prover]
proof fn lemma_teams_rosters_exact(rv: Seq<RowModel>, gs: Seq<PlayerGroup>, ts: Seq<TeamGroup>)
    requires
        player_groups_ok(rv, gs, rv.len() as int),
        teams_inv(rv, gs, ts, gs.len() as int),
    ensures
        forall|k: int, q: Seq<char>|
            #![trigger has_str(ts[k].members@, q)]
            0 <= k < ts.len() ==> ((players_of(rv).contains(q) && same_team(
                rv,
                q,
                team_lead(ts[k]),
            )) <==> has_str(ts[k].members@, q)),
        forall|q: Seq<char>|
            players_of(rv).contains(q) ==> exists|k: int|
                0 <= k < ts.len() && has_str(#[trigger] ts[k].members@, q),
{
    assert forall|k: int, q: Seq<char>|
        #![trigger has_str(ts[k].members@, q)]
        0 <= k < ts.len() implies ((players_of(rv).contains(q) && same_team(
        rv,
        q,
        team_lead(ts[k]),
    )) <==> has_str(ts[k].members@, q)) by {
        if players_of(rv).contains(q) && same_team(rv, q, team_lead(ts[k])) {
            reveal(players_of);
            let m = rv.map_values(|r: RowModel| r.player_name);
            assert(m.contains(q));
            let t = choose|t: int| 0 <= t < m.len() && m[t] == q;
            assert(rv[t].player_name == q);
            let k2 = choose|k2: int| 0 <= k2 < gs.len() && #[trigger] gs[k2].name@ == q;
            let kx = choose|kx: int|
                0 <= kx < ts.len() && has_str(#[trigger] ts[kx].members@, gs[k2].name@);
            assert(same_team(rv, q, team_lead(ts[kx]))) by {
                let j = choose|j: int| 0 <= j < ts[kx].members@.len() && ts[kx].members@[j]@ == q;
            }
            assert(kx == k) by {
                if kx != k {
                    assert(same_team(rv, team_lead(ts[k]), team_lead(ts[kx])));
                    if kx < k {
                        assert(!same_team(rv, team_lead(ts[kx]), team_lead(ts[k])));
                    }
                }
            }
        }
        if has_str(ts[k].members@, q) {
            let j = choose|j: int| 0 <= j < ts[k].members@.len() && ts[k].members@[j]@ == q;
            assert(players_of(rv).contains(ts[k].members@[j]@));
        }
    }
    assert forall|q: Seq<char>| players_of(rv).contains(q) implies exists|k: int|
        0 <= k < ts.len() && has_str(#[trigger] ts[k].members@, q) by {
        reveal(players_of);
        let m = rv.map_values(|r: RowModel| r.player_name);
        assert(m.contains(q));
        let t = choose|t: int| 0 <= t < m.len() && m[t] == q;
        assert(rv[t].player_name == q);
        let k2 = choose|k2: int| 0 <= k2 < gs.len() && #[trigger] gs[k2].name@ == q;
        let kx = choose|kx: int|
            0 <= kx < ts.len() && has_str(#[trigger] ts[kx].members@, gs[k2].name@);
        assert(has_str(ts[kx].members@, q));
    }
}

/// Once every player group is placed, the loop facts give the full
/// statement: rosters are exact, firsts are minimal, everyone is covered.
#[verifier::rlimit(100)]
#[verifier::spinoff_prover]
proof fn lemma_teams_finalize(rv: Seq<RowModel>, gs: Seq<PlayerGroup>, ts: Seq<TeamGroup>)
    requires
        player_groups_ok(rv, gs, rv.len() as int),
        teams_inv(rv, gs, ts, gs.len() as int),
    ensures
        teams_final_ok(rv, ts),
{
    lemma_teams_rosters_exact(rv, gs, ts);
    assert forall|k: int, t: int|
        #![trigger ts[k], rv[t]]
        0 <= k < ts.len() && 0 <= t < rv.len() && same_team(
        rv,
        rv[t].player_name,
        team_lead(ts[k]),
    ) implies has_idx(ts[k].row_idxs@, t) by {
        let q = rv[t].player_name;
        assert(players_of(rv).contains(q)) by {
            reveal(players_of);
            let m = rv.map_values(|r: RowModel| r.player_name);
            assert(m[t] == q);
            assert(m.contains(q));
        }
        assert(has_str(ts[k].members@, q));
    }
    assert forall|k: int|
        0 <= k < ts.len() implies team_first_idx(rv, team_lead(#[trigger] ts[k])) == ts[k].first by {
        let lead = team_lead(ts[k]);
        let pred = row_of_team(rv, lead);
        assert forall|j: int| 0 <= j < ts[k].first implies !pred(rv[j]) by {
            assert(!same_team(rv, rv[j].player_name, lead));
        }
        assert(pred(rv[ts[k].first as int]));
        lemma_first_match_is(rv, pred, ts[k].first as int);
    }
    assert forall|k: int| 0 <= k < ts.len() implies team_final_one(rv, #[trigger] ts[k]) by {
        assert(team_group_ok(rv, ts[k]));
    }
}

/// Gather the player groups into teams: players with equal keys share one.
#[verifier::rlimit(100)]
fn group_teams(rows: &Vec<SingleCompetitionResult>, groups: &Vec<PlayerGroup>) -> (teams: Vec<
    TeamGroup,
>)
    requires
        player_groups_ok(rows_model(rows@), groups@, rows_model(rows@).len() as int),
    ensures
        teams_final_ok(rows_model(rows@), teams@),
{
    let ghost rv = rows_model(rows@);
    let ghost gs = groups@;
    let mut teams: Vec<TeamGroup> = Vec::new();
    let mut c: usize = 0;
    while c < groups.len()
        invariant
            c <= gs.len(),
            rv == rows_model(rows@),
            gs == groups@,
            player_groups_ok(rv, gs, rv.len() as int),
            teams_inv(rv, gs, teams@, c as int),
        decreases gs.len() - c,
    {
        let g_name = &groups[c].name;
        let g_idxs = &groups[c].row_idxs;
        proof {
            assert(group_ok(rv, rv.len() as int, gs[c as int]));
        }
        let key = game_id_key(rows, g_idxs);
        proof {
            lemma_exact_idxs_games(rv, g_idxs@, g_name@);
            assert(key_model(key@).to_multiset() == games_of(rv, g_name@));
            assert(players_of(rv).contains(g_name@)) by {
                reveal(players_of);
                let t0 = g_idxs@[0];
                assert(rv[t0 as int].player_name == g_name@);
                let m = rv.map_values(|r: RowModel| r.player_name);
                assert(m[t0 as int] == g_name@);
                assert(m.contains(g_name@));
            }
        }
        let mut kk: usize = 0;
        while kk < teams.len() && !keys_equal(&teams[kk].key, &key)
            invariant
                kk <= teams@.len(),
                forall|j: int| 0 <= j < kk ==> #[trigger] teams@[j].key@ != key@,
            decreases teams@.len() - kk,
        {
            kk = kk + 1;
        }
        let ghost pre = teams@;
        if kk < teams.len() {
            let mut tg = teams.remove(kk);
            tg.members.push(g_name.clone());
            push_idxs(&mut tg.row_idxs, g_idxs);
            let ghost tg2 = tg;
            teams.insert(kk, tg);
            proof {
                pre.remove_ensures(kk as int);
                pre.remove(kk as int).insert_ensures(kk as int, tg2);
                assert forall|j: int|
                    0 <= j < teams@.len() && j != kk implies #[trigger] teams@[j] == pre[j] by {
                    if j < kk {
                        assert(teams@[j] == pre.remove(kk as int)[j]);
                    } else {
                        assert(teams@[j] == pre.remove(kk as int)[j - 1]);
                    }
                }
                assert(teams@[kk as int] == tg2);
                assert(tg2.members@ == pre[kk as int].members@.push(gs[c as int].name)) by {
                    assert(*g_name == gs[c as int].name);
                }
                lemma_team_join(rv, gs, pre, teams@, c as int, kk as int, key@);
            }
        } else {
            let mut members: Vec<String> = Vec::new();
            members.push(g_name.clone());
            let mut row_idxs: Vec<usize> = Vec::new();
            push_idxs(&mut row_idxs, g_idxs);
            let first = g_idxs[0];
            let tg = TeamGroup { key, members, row_idxs, first };
            let ghost tgv = tg;
            teams.push(tg);
            proof {
                assert(teams@ == pre.push(tgv));
                assert(teams@[pre.len() as int] == tgv);
                assert(tgv.members@ =~= seq![gs[c as int].name]) by {
                    assert(tgv.members@.len() == 1);
                    assert(tgv.members@[0] == gs[c as int].name);
                }
                assert(tgv.row_idxs@ =~= gs[c as int].row_idxs@);
                lemma_team_create(rv, gs, pre, teams@, c as int, tgv.key@);
            }
        }
        c = c + 1;
    }
    proof {
        lemma_teams_finalize(rv, gs, teams@);
    }
    teams
}

// ---------------------------------------------------------------------------
// From assembled teams to output entries
// ---------------------------------------------------------------------------

/// Searches keyed to two players of one team land on the same rows.
proof fn lemma_same_team_searches(rv: Seq<RowModel>, p0: Seq<char>, lead: Seq<char>, seed: Seq<char>)
    requires
        same_team(rv, p0, lead),
    ensures
        slot_idx(rv, p0, seed) == slot_idx(rv, lead, seed),
        team_first_idx(rv, p0) == team_first_idx(rv, lead),
{
    let pl = row_of_team_on_seed(rv, lead, seed);
    let pp = row_of_team_on_seed(rv, p0, seed);
    let x = first_match_from(rv, pl, 0);
    lemma_first_match_from(rv, pl, 0);
    assert forall|j: int| 0 <= j < x implies !pp(rv[j]) by {
        assert(!pl(rv[j]));
    }
    if x < rv.len() {
        assert(pl(rv[x]));
        assert(pp(rv[x]));
    }
    lemma_first_match_is(rv, pp, x);
    let ql = row_of_team(rv, lead);
    let qp = row_of_team(rv, p0);
    let y = first_match_from(rv, ql, 0);
    lemma_first_match_from(rv, ql, 0);
    assert forall|j: int| 0 <= j < y implies !qp(rv[j]) by {
        assert(!ql(rv[j]));
    }
    if y < rv.len() {
        assert(ql(rv[y]));
        assert(qp(rv[y]));
    }
    lemma_first_match_is(rv, qp, y);
}

/// Players of one team count the same teammates.
proof fn lemma_team_size_of_same(rv: Seq<RowModel>, p: Seq<char>, q: Seq<char>)
    requires
        same_team(rv, p, q),
    ensures
        team_size_of(rv, p) == team_size_of(rv, q),
{
    assert(players_of(rv).filter(|x: Seq<char>| same_team(rv, x, p)) =~= players_of(rv).filter(
        |x: Seq<char>| same_team(rv, x, q),
    ));
}

/// A sorted, deduplicated roster of a team counts the team's size.
proof fn lemma_roster_card(rv: Seq<RowModel>, tg: TeamGroup, roster: Seq<String>)
    requires
        team_final_one(rv, tg),
        sorted_strs(roster),
        forall|n: Seq<char>| #[trigger] has_str(roster, n) <==> has_str(tg.members@, n),
    ensures
        team_size_of(rv, team_lead(tg)) == roster.len(),
{
    let lead = team_lead(tg);
    let sv = strs_view(roster);
    assert(sv.no_duplicates()) by {
        assert forall|i: int, j: int| 0 <= i < j < sv.len() implies sv[i] != sv[j] by {
            assert(lex_lt(roster[i]@, roster[j]@));
            crate::order::lemma_lex_asymmetric(roster[i]@, roster[j]@);
        }
    }
    sv.unique_seq_to_set();
    let fs = players_of(rv).filter(|x: Seq<char>| same_team(rv, x, lead));
    assert(sv.to_set() =~= fs) by {
        assert forall|n: Seq<char>| sv.to_set().contains(n) implies fs.contains(n) by {
            assert(sv.contains(n));
            let i = choose|i: int| 0 <= i < sv.len() && sv[i] == n;
            assert(roster[i]@ == n);
            assert(has_str(roster, n));
            assert(has_str(tg.members@, n));
        }
        assert forall|n: Seq<char>| fs.contains(n) implies sv.to_set().contains(n) by {
            assert(players_of(rv).contains(n) && same_team(rv, n, lead));
            assert(has_str(tg.members@, n));
            assert(has_str(roster, n));
            let i = choose|i: int| 0 <= i < roster.len() && roster[i]@ == n;
            assert(sv[i] == n);
            assert(sv.contains(n));
        }
    }
}

/// The team's members, sorted ascending without duplicates.
fn sorted_roster(members: &Vec<String>) -> (roster: Vec<String>)
    ensures
        sorted_strs(roster@),
        forall|n: Seq<char>| #[trigger] has_str(roster@, n) <==> has_str(members@, n),
{
    let mut roster: Vec<String> = Vec::new();
    let mut j: usize = 0;
    while j < members.len()
        invariant
            j <= members@.len(),
            sorted_strs(roster@),
            forall|n: Seq<char>|
                #[trigger] has_str(roster@, n) <==> (exists|j2: int|
                    0 <= j2 < j && members@[j2]@ == n),
        decreases members@.len() - j,
    {
        let ghost pre = roster@;
        insert_seed(&mut roster, &members[j]);
        proof {
            assert forall|n: Seq<char>| #[trigger]
                has_str(roster@, n) <==> (exists|j2: int|
                    0 <= j2 < j + 1 && members@[j2]@ == n) by {
                if has_str(roster@, n) {
                    if has_str(pre, n) {
                        let j2 = choose|j2: int| 0 <= j2 < j && members@[j2]@ == n;
                        assert(0 <= j2 < j + 1 && members@[j2]@ == n);
                    } else {
                        assert(members@[j as int]@ == n);
                    }
                }
            }
        }
        j = j + 1;
    }
    proof {
        assert forall|n: Seq<char>| #[trigger]
            has_str(roster@, n) <==> has_str(members@, n) by {
            if has_str(members@, n) {
                let j2 = choose|j2: int| 0 <= j2 < members@.len() && members@[j2]@ == n;
            }
        }
    }
    roster
}

/// The roster padded with explicit absences up to the team size.
fn padded_players(roster: Vec<String>, team_size: usize) -> (players: Vec<Option<String>>)
    requires
        roster@.len() <= team_size,
    ensures
        players@.len() == team_size,
        forall|j: int|
            0 <= j < roster@.len() ==> players@[j] == Some(#[trigger] roster@[j]),
        forall|j: int| roster@.len() <= j < team_size ==> players@[j] is None,
{
    let ghost rv = roster@;
    let mut players: Vec<Option<String>> = Vec::new();
    let mut roster = roster;
    let mut j: usize = 0;
    let m = roster.len();
    while j < m
        invariant
            j <= m,
            m == roster@.len(),
            roster@ == rv,
            players@.len() == j,
            forall|j2: int| 0 <= j2 < j ==> players@[j2] == Some(#[trigger] rv[j2]),
        decreases m - j,
    {
        players.push(Some(roster[j].clone()));
        proof {
            assert(players@[j as int] == Some(rv[j as int]));
        }
        j = j + 1;
    }
    while players.len() < team_size
        invariant
            players@.len() >= rv.len(),
            players@.len() <= team_size,
            forall|j2: int| 0 <= j2 < rv.len() ==> players@[j2] == Some(#[trigger] rv[j2]),
            forall|j2: int| rv.len() <= j2 < players@.len() ==> players@[j2] is None,
        decreases team_size - players@.len(),
    {
        players.push(None);
    }
    players
}

/// One slot per canonical seed: the team's first row on that seed, or a gap.
fn team_slots(rows: &Vec<SingleCompetitionResult>, names: &Vec<String>, tg: &TeamGroup) -> (slots:
    Vec<Option<GameResult>>)
    requires
        team_final_one(rows_model(rows@), *tg),
    ensures
        slots@.len() == names@.len(),
        forall|i: int|
            0 <= i < names@.len() ==> {
                let si = slot_idx(rows_model(rows@), team_lead(*tg), names@[i]@);
                &&& (#[trigger] slots@[i] is Some <==> si < rows_model(rows@).len())
                &&& (si < rows_model(rows@).len() ==> slots@[i] is Some && slots@[i].unwrap()@
                    == game_of_row(rows_model(rows@)[si]))
            },
{
    let ghost rv = rows_model(rows@);
    let mut slots: Vec<Option<GameResult>> = Vec::new();
    let mut i: usize = 0;
    while i < names.len()
        invariant
            i <= names@.len(),
            rv == rows_model(rows@),
            team_final_one(rv, *tg),
            slots@.len() == i,
            forall|i2: int|
                0 <= i2 < i ==> {
                    let si = slot_idx(rv, team_lead(*tg), names@[i2]@);
                    &&& (#[trigger] slots@[i2] is Some <==> si < rv.len())
                    &&& (si < rv.len() ==> slots@[i2] is Some && slots@[i2].unwrap()@
                        == game_of_row(rv[si]))
                },
        decreases names@.len() - i,
    {
        let seed = &names[i];
        let ghost pred = row_of_team_on_seed(rv, team_lead(*tg), seed@);
        let mut best: usize = 0;
        let mut found = false;
        let mut a: usize = 0;
        while a < tg.row_idxs.len()
            invariant
                a <= tg.row_idxs@.len(),
                rv == rows_model(rows@),
                team_final_one(rv, *tg),
                pred == row_of_team_on_seed(rv, team_lead(*tg), names@[i as int]@),
                seed@ == names@[i as int]@,
                !found ==> forall|a2: int|
                    0 <= a2 < a ==> !pred(rv[#[trigger] tg.row_idxs@[a2] as int]),
                found ==> best < rv.len() && pred(rv[best as int]) && has_idx(tg.row_idxs@, best as int),
                found ==> forall|a2: int|
                    0 <= a2 < a && pred(rv[#[trigger] tg.row_idxs@[a2] as int]) ==> best
                        <= tg.row_idxs@[a2],
            decreases tg.row_idxs@.len() - a,
        {
            let t = tg.row_idxs[a];
            if rows[t].base_seed_name == *seed {
                proof {
                    assert(rv[t as int].base_seed_name == seed@);
                    assert(same_team(rv, rv[t as int].player_name, team_lead(*tg)));
                    assert(pred(rv[t as int]));
                }
                if !found || t < best {
                    best = t;
                    found = true;
                    proof {
                        assert(has_idx(tg.row_idxs@, best as int)) by {
                            assert(tg.row_idxs@[a as int] == best);
                        }
                    }
                }
            } else {
                proof {
                    assert(!pred(rv[t as int]));
                }
            }
            a = a + 1;
        }
        proof {
            let si = slot_idx(rv, team_lead(*tg), seed@);
            if found {
                assert forall|j: int| 0 <= j < best implies !pred(rv[j]) by {
                    if pred(rv[j]) {
                        assert(has_idx(tg.row_idxs@, j));
                        let a2 = choose|a2: int|
                            0 <= a2 < tg.row_idxs@.len() && tg.row_idxs@[a2] == j;
                        assert(pred(rv[tg.row_idxs@[a2] as int]));
                        assert(best <= tg.row_idxs@[a2]);
                    }
                }
                lemma_first_match_is(rv, pred, best as int);
                assert(si == best);
            } else {
                assert forall|j: int| 0 <= j < rv.len() implies !pred(rv[j]) by {
                    if pred(rv[j]) {
                        assert(has_idx(tg.row_idxs@, j));
                        let a2 = choose|a2: int|
                            0 <= a2 < tg.row_idxs@.len() && tg.row_idxs@[a2] == j;
                        assert(pred(rv[tg.row_idxs@[a2] as int]));
                    }
                }
                lemma_first_match_is(rv, pred, rv.len() as int);
                assert(si == rv.len());
            }
        }
        if found {
            let r = &rows[best];
            let gr = GameResult {
                seed_matchpoints: r.seed_matchpoints,
                score: r.score,
                turns: r.turns,
                site_game_id: r.site_game_id,
                replay_url: r.replay_url.clone(),
                game_duration_seconds: r.game_duration_seconds,
            };
            proof {
                assert(gr@ == game_of_row(rv[best as int]));
            }
            slots.push(Some(gr));
        } else {
            slots.push(None);
        }
        i = i + 1;
    }
    slots
}

/// All pieces of one output entry, assembled: it satisfies the entry
/// contract.
#[verifier::rlimit(60)]
proof fn lemma_entry_ok(
    rv: Seq<RowModel>,
    nm: Seq<Seq<char>>,
    team_size: int,
    tg: TeamGroup,
    roster: Seq<String>,
    entry: TeamModel,
)
    requires
        team_final_one(rv, tg),
        sorted_strs(roster),
        forall|n: Seq<char>| #[trigger] has_str(roster, n) <==> has_str(tg.members@, n),
        1 <= roster.len() <= team_size,
        entry.players.len() == team_size,
        forall|j: int| 0 <= j < roster.len() ==> entry.players[j] == Some(#[trigger] roster[j]@),
        forall|j: int| roster.len() <= j < team_size ==> entry.players[j] is None,
        entry.game_results.len() == nm.len(),
        forall|i: int|
            0 <= i < nm.len() ==> {
                let si = slot_idx(rv, team_lead(tg), nm[i]);
                &&& (#[trigger] entry.game_results[i] is Some <==> si < rv.len())
                &&& (si < rv.len() ==> entry.game_results[i] == Some(game_of_row(rv[si])))
            },
        entry.final_rank == rv[tg.first as int].final_rank,
        entry.fractional_mp == rv[tg.first as int].fractional_mp,
        entry.sum_mp == rv[tg.first as int].sum_mp,
    ensures
        team_entry_ok(rv, nm, team_size, entry),
        same_team(rv, entry.players[0].unwrap(), team_lead(tg)),
        team_first_idx(rv, entry.players[0].unwrap()) == tg.first,
{
    let m = roster.len() as int;
    let lead = team_lead(tg);
    assert(roster_len(entry.players) == m) by {
        let pred = absent_slot();
        assert forall|j: int| 0 <= j < m implies !pred(entry.players[j]) by {
            assert(entry.players[j] == Some(roster[j]@));
        }
        if m < entry.players.len() {
            assert(pred(entry.players[m]));
        }
        lemma_first_match_is(entry.players, pred, m);
    }
    let p0 = entry.players[0].unwrap();
    assert(p0 == roster[0]@);
    assert(has_str(roster, roster[0]@));
    assert(has_str(tg.members@, p0));
    assert(players_of(rv).contains(p0) && same_team(rv, p0, lead));
    assert forall|j1: int, j2: int|
        0 <= j1 < j2 < m implies lex_lt(
        entry.players[j1].unwrap(),
        entry.players[j2].unwrap(),
    ) by {
        assert(entry.players[j1] == Some(roster[j1]@));
        assert(entry.players[j2] == Some(roster[j2]@));
    }
    assert forall|q: Seq<char>|
        (players_of(rv).contains(q) && same_team(rv, q, p0)) <==> (exists|j: int|
            0 <= j < m && #[trigger] entry.players[j] == Some(q)) by {
        if players_of(rv).contains(q) && same_team(rv, q, p0) {
            assert(same_team(rv, q, lead));
            assert(has_str(tg.members@, q));
            assert(has_str(roster, q));
            let j = choose|j: int| 0 <= j < roster.len() && roster[j]@ == q;
            assert(entry.players[j] == Some(q));
        }
        if exists|j: int| 0 <= j < m && #[trigger] entry.players[j] == Some(q) {
            let j = choose|j: int| 0 <= j < m && #[trigger] entry.players[j] == Some(q);
            assert(entry.players[j] == Some(roster[j]@));
            assert(roster[j]@ == q);
            assert(has_str(roster, q));
            assert(has_str(tg.members@, q));
        }
    }
    assert forall|i: int|
        0 <= i < nm.len() implies {
        let si = slot_idx(rv, p0, nm[i]);
        &&& (#[trigger] entry.game_results[i] is Some <==> si < rv.len())
        &&& (si < rv.len() ==> entry.game_results[i] == Some(game_of_row(rv[si])))
    } by {
        lemma_same_team_searches(rv, p0, lead, nm[i]);
    }
    lemma_same_team_searches(rv, p0, lead, p0);
    assert(team_first_idx(rv, p0) == tg.first);
    let mm = roster_len(entry.players);
    assert(mm == m);
    assert(entry.players.len() == team_size);
    assert(1 <= mm);
    assert forall|j: int| 0 <= j < mm implies entry.players[j] is Some by {
        assert(entry.players[j] == Some(roster[j]@));
    }
    assert(forall|j: int| mm <= j < entry.players.len() ==> entry.players[j] is None);
    assert(entry.game_results.len() == nm.len());
    assert(0 <= team_first_idx(rv, p0) < rv.len());
    assert(entry.final_rank == rv[team_first_idx(rv, p0)].final_rank);
    assert(entry.fractional_mp == rv[team_first_idx(rv, p0)].fractional_mp);
    assert(entry.sum_mp == rv[team_first_idx(rv, p0)].sum_mp);
    assert(team_entry_ok(rv, nm, team_size, entry));
}

/// One output entry together with its team's first row index, the
/// tie-break key of the final ordering.
struct RankedTeam {
    entry: TeamResults,
    first: usize,
}

/// The strict order of the final leaderboard: rank first, then order of
/// first appearance in the input.
spec fn rt_lt(a: RankedTeam, b: RankedTeam) -> bool {
    a.entry.final_rank < b.entry.final_rank || (a.entry.final_rank == b.entry.final_rank
        && a.first < b.first)
}

/// One ranked entry is fully formed.
spec fn re_ok(rv: Seq<RowModel>, nm: Seq<Seq<char>>, team_size: int, e: RankedTeam) -> bool {
    &&& team_entry_ok(rv, nm, team_size, e.entry@)
    &&& e.entry@.players.len() > 0
    &&& e.entry@.players[0] is Some
    &&& team_first_idx(rv, e.entry@.players[0].unwrap()) == e.first
}

/// Sort the entries by rank, ties kept in first-appearance order.
fn sort_entries(entries: Vec<RankedTeam>) -> (out: Vec<RankedTeam>)
    requires
        forall|k1: int, k2: int|
            #![trigger entries@[k1], entries@[k2]]
            0 <= k1 < k2 < entries@.len() ==> entries@[k1].first != entries@[k2].first,
    ensures
        out@.to_multiset() == entries@.to_multiset(),
        forall|k1: int, k2: int|
            #![trigger out@[k1], out@[k2]]
            0 <= k1 < k2 < out@.len() ==> rt_lt(out@[k1], out@[k2]),
{
    broadcast use vstd::seq_lib::group_to_multiset_ensures;

    let ghost input = entries@;
    let mut entries = entries;
    let mut out: Vec<RankedTeam> = Vec::new();
    let mut c: usize = 0;
    let n = entries.len();
    while c < n
        invariant
            c <= n,
            n == input.len(),
            entries@ =~= input.skip(c as int),
            out@.to_multiset() == input.take(c as int).to_multiset(),
            forall|k1: int, k2: int|
                #![trigger input[k1], input[k2]]
                0 <= k1 < k2 < input.len() ==> input[k1].first != input[k2].first,
            forall|k1: int, k2: int|
                #![trigger out@[k1], out@[k2]]
                0 <= k1 < k2 < out@.len() ==> rt_lt(out@[k1], out@[k2]),
        decreases n - c,
    {
        let ghost epre = entries@;
        let e = entries.remove(0);
        proof {
            assert(e == input[c as int]);
            assert(entries@ =~= input.skip(c + 1)) by {
                assert forall|j: int| 0 <= j < entries@.len() implies entries@[j] == input[c + 1
                    + j] by {
                    assert(entries@[j] == epre[j + 1]);
                    assert(epre[j + 1] == input[c as int + j + 1]);
                }
            }
        }
        let mut pos: usize = 0;
        while pos < out.len() && (out[pos].entry.final_rank < e.entry.final_rank
            || (out[pos].entry.final_rank == e.entry.final_rank && out[pos].first < e.first))
            invariant
                pos <= out@.len(),
                forall|j: int| 0 <= j < pos ==> rt_lt(#[trigger] out@[j], e),
            decreases out@.len() - pos,
        {
            pos = pos + 1;
        }
        let ghost pre = out@;
        proof {
            if (pos as int) < pre.len() {
                assert(!rt_lt(pre[pos as int], e));
                let x = pre[pos as int];
                vstd::seq_lib::to_multiset_contains(pre, x);
                assert(pre.contains(x));
                assert(input.take(c as int).to_multiset().contains(x));
                vstd::seq_lib::to_multiset_contains(input.take(c as int), x);
                assert(input.take(c as int).contains(x));
                let j = choose|j: int|
                    0 <= j < input.take(c as int).len() && input.take(c as int)[j] == x;
                assert(input[j] == x);
                assert(input[j].first != input[c as int].first);
                assert(rt_lt(e, x)) by {
                    if !rt_lt(e, x) {
                        assert(e.entry.final_rank == x.entry.final_rank);
                        assert(e.first == x.first);
                    }
                }
            }
        }
        out.insert(pos, e);
        proof {
            pre.insert_ensures(pos as int, e);
            vstd::seq_lib::to_multiset_insert(pre, pos as int, e);
            assert(input.take(c + 1) =~= input.take(c as int).push(input[c as int]));
            vstd::seq_lib::to_multiset_build(input.take(c as int), input[c as int]);
            assert(out@.to_multiset() == input.take(c + 1).to_multiset());
            assert forall|k1: int, k2: int|
                #![trigger out@[k1], out@[k2]]
                0 <= k1 < k2 < out@.len() implies rt_lt(out@[k1], out@[k2]) by {
                let p = pos as int;
                if k2 < p {
                    assert(out@[k1] == pre[k1] && out@[k2] == pre[k2]);
                } else if k1 < p && k2 == p {
                    assert(out@[k1] == pre[k1]);
                } else if k1 < p && k2 > p {
                    assert(out@[k1] == pre[k1] && out@[k2] == pre[k2 - 1]);
                } else if k1 == p {
                    assert(out@[k2] == pre[k2 - 1]);
                    assert(rt_lt(e, pre[p]));
                    if k2 - 1 > p {
                        assert(rt_lt(pre[p], pre[k2 - 1]));
                    }
                } else {
                    assert(out@[k1] == pre[k1 - 1] && out@[k2] == pre[k2 - 1]);
                }
            }
        }
        c = c + 1;
    }
    proof {
        assert(input.take(n as int) =~= input);
    }
    out
}

// ---------------------------------------------------------------------------
// The nester itself
// ---------------------------------------------------------------------------

/// Nest flat rows into ranked team entries, one result slot per name of
/// the given seed list, in the list's order.
///
/// Teams are inferred from equal game multisets, rosters are sorted and
/// padded to `team_size`, a listed seed a team did not play yields an
/// explicit gap, and teams come out ordered by `final_rank`, ties in
/// order of first appearance. A roster larger than `team_size` cannot be
/// laid out and is reported as an error instead of being truncated.
#[verifier::rlimit(100)]
pub fn nest_rows_with_seed_names(
    rows: &Vec<SingleCompetitionResult>,
    team_size: i16,
    names: &Vec<String>,
) -> (res: Result<Vec<TeamResults>, NestError>)
    requires
        team_size >= 1,
    ensures
        res is Err <==> has_oversized_team(rows_model(rows@), team_size as int),
        res matches Err(e) ==> e == NestError::OversizedTeam,
        res matches Ok(ts) ==> nest_teams_post(
            rows_model(rows@),
            team_size as int,
            strs_view(names@),
            teams_model(ts@),
        ),
{
    broadcast use vstd::seq_lib::group_to_multiset_ensures;

    let ghost rv = rows_model(rows@);
    let ghost nmv = strs_view(names@);
    let groups = group_players(rows);
    let teams = group_teams(rows, &groups);
    let ghost tsv = teams@;
    let ts_usize = team_size as usize;
    let mut entries: Vec<RankedTeam> = Vec::new();
    let mut k: usize = 0;
    while k < teams.len()
        invariant
            k <= tsv.len(),
            rv == rows_model(rows@),
            nmv == strs_view(names@),
            tsv == teams@,
            ts_usize == team_size as usize,
            team_size >= 1,
            teams_final_ok(rv, tsv),
            entries@.len() == k,
            forall|k2: int| 0 <= k2 < k ==> re_ok(rv, nmv, team_size as int, #[trigger] entries@[k2]),
            forall|k2: int|
                0 <= k2 < k ==> same_team(
                    rv,
                    (#[trigger] entries@[k2]).entry@.players[0].unwrap(),
                    team_lead(tsv[k2]),
                ) && entries@[k2].first == tsv[k2].first,
            forall|k2: int|
                0 <= k2 < k ==> team_size_of(rv, team_lead(#[trigger] tsv[k2])) <= team_size,
        decreases tsv.len() - k,
    {
        let roster = sorted_roster(&teams[k].members);
        proof {
            assert(team_final_one(rv, tsv[k as int]));
            lemma_roster_card(rv, tsv[k as int], roster@);
            assert(roster@.len() >= 1) by {
                assert(has_str(tsv[k as int].members@, tsv[k as int].members@[0]@));
                assert(has_str(roster@, tsv[k as int].members@[0]@));
            }
        }
        if roster.len() > ts_usize {
            proof {
                let lead = team_lead(tsv[k as int]);
                assert(players_of(rv).contains(lead));
                assert(team_size_of(rv, lead) > team_size);
                assert(has_oversized_team(rv, team_size as int));
            }
            return Err(NestError::OversizedTeam);
        }
        let ghost rosterv = roster@;
        let players = padded_players(roster, ts_usize);
        let slots = team_slots(rows, &names, &teams[k]);
        let f = teams[k].first;
        proof {
            assert(tsv[k as int].first < rv.len());
        }
        let fr = &rows[f];
        let entry = TeamResults {
            players,
            final_rank: fr.final_rank,
            fractional_mp: fr.fractional_mp,
            sum_mp: fr.sum_mp,
            game_results: slots,
        };
        proof {
            let em = entry@;
            assert forall|j: int|
                0 <= j < rosterv.len() implies em.players[j] == Some(#[trigger] rosterv[j]@) by {
                assert(entry.players@[j] == Some(rosterv[j]));
            }
            assert forall|j: int|
                rosterv.len() <= j < team_size implies em.players[j] is None by {
                assert(entry.players@[j] is None);
            }
            assert forall|i: int|
                0 <= i < nmv.len() implies {
                let si = slot_idx(rv, team_lead(tsv[k as int]), nmv[i]);
                &&& (#[trigger] em.game_results[i] is Some <==> si < rv.len())
                &&& (si < rv.len() ==> em.game_results[i] == Some(game_of_row(rv[si])))
            } by {
                assert(nmv[i] == names@[i]@);
                let si = slot_idx(rv, team_lead(tsv[k as int]), names@[i]@);
                assert(slots@[i] is Some <==> si < rv.len());
                if si < rv.len() {
                    assert(slots@[i].unwrap()@ == game_of_row(rv[si]));
                    assert(em.game_results[i] == Some(slots@[i].unwrap()@));
                }
            }
            assert(em.final_rank == rv[tsv[k as int].first as int].final_rank);
            assert(em.fractional_mp == rv[tsv[k as int].first as int].fractional_mp);
            assert(em.sum_mp == rv[tsv[k as int].first as int].sum_mp);
            lemma_entry_ok(rv, nmv, team_size as int, tsv[k as int], rosterv, em);
        }
        let rt = RankedTeam { entry, first: f };
        entries.push(rt);
        k = k + 1;
    }
    proof {
        assert forall|p: Seq<char>|
            players_of(rv).contains(p) implies team_size_of(rv, p) <= team_size by {
            let kx = choose|kx: int|
                0 <= kx < tsv.len() && has_str(#[trigger] tsv[kx].members@, p);
            assert(players_of(rv).contains(p) && same_team(rv, p, team_lead(tsv[kx])));
            lemma_team_size_of_same(rv, p, team_lead(tsv[kx]));
        }
        assert(!has_oversized_team(rv, team_size as int));
        assert forall|k1: int, k2: int|
            #![trigger entries@[k1], entries@[k2]]
            0 <= k1 < k2 < entries@.len() implies entries@[k1].first != entries@[k2].first by {
            assert(tsv[k1].first < tsv[k2].first);
        }
    }
    let ghost entriesv = entries@;
    let mut sorted = sort_entries(entries);
    let ghost sortedv = sorted@;
    let mut team_results: Vec<TeamResults> = Vec::new();
    let mut k2: usize = 0;
    let sn = sorted.len();
    while k2 < sn
        invariant
            k2 <= sn,
            sn == sortedv.len(),
            sorted@ =~= sortedv.skip(k2 as int),
            team_results@.len() == k2,
            forall|j: int| 0 <= j < k2 ==> team_results@[j] == (#[trigger] sortedv[j]).entry,
        decreases sn - k2,
    {
        let ghost spre = sorted@;
        let rt = sorted.remove(0);
        proof {
            assert(rt == sortedv[k2 as int]);
            assert(sorted@ =~= sortedv.skip(k2 + 1)) by {
                assert forall|j: int| 0 <= j < sorted@.len() implies sorted@[j] == sortedv[k2 + 1
                    + j] by {
                    assert(sorted@[j] == spre[j + 1]);
                }
            }
        }
        team_results.push(rt.entry);
        k2 = k2 + 1;
    }
    proof {
        let om = teams_model(team_results@);
        assert(om.len() == sortedv.len());
        assert forall|j: int|
            0 <= j < sortedv.len() implies om[j] == (#[trigger] sortedv[j]).entry@ by {
            assert(team_results@[j] == sortedv[j].entry);
        }
        assert forall|j: int|
            0 <= j < sortedv.len() implies re_ok(rv, nmv, team_size as int, #[trigger] sortedv[j])
            && (exists|a: int|
            0 <= a < entriesv.len() && #[trigger] entriesv[a] == sortedv[j]) by {
            vstd::seq_lib::to_multiset_contains(sortedv, sortedv[j]);
            assert(sortedv.contains(sortedv[j]));
            vstd::seq_lib::to_multiset_contains(entriesv, sortedv[j]);
            assert(entriesv.contains(sortedv[j]));
            let a = choose|a: int| 0 <= a < entriesv.len() && entriesv[a] == sortedv[j];
            assert(re_ok(rv, nmv, team_size as int, entriesv[a]));
        }
        assert forall|q: Seq<char>|
            players_of(rv).contains(q) implies exists|kx: int|
            0 <= kx < om.len() && #[trigger] om[kx].players.contains(Some(q)) by {
            let kt = choose|kt: int|
                0 <= kt < tsv.len() && has_str(#[trigger] tsv[kt].members@, q);
            assert(players_of(rv).contains(q) && same_team(rv, q, team_lead(tsv[kt])));
            let e0 = entriesv[kt];
            let p0 = e0.entry@.players[0].unwrap();
            assert(same_team(rv, p0, team_lead(tsv[kt])));
            assert(same_team(rv, q, p0));
            assert(team_entry_ok(rv, nmv, team_size as int, e0.entry@));
            let m = roster_len(e0.entry@.players);
            lemma_first_match_from(e0.entry@.players, absent_slot(), 0);
            assert(m <= e0.entry@.players.len());
            assert(exists|j: int| 0 <= j < m && e0.entry@.players[j] == Some(q));
            let j = choose|j: int| 0 <= j < m && e0.entry@.players[j] == Some(q);
            vstd::seq_lib::to_multiset_contains(entriesv, e0);
            assert(entriesv.contains(e0)) by {
                assert(entriesv[kt] == e0);
            }
            vstd::seq_lib::to_multiset_contains(sortedv, e0);
            assert(sortedv.contains(e0));
            let kx = choose|kx: int| 0 <= kx < sortedv.len() && sortedv[kx] == e0;
            assert(om[kx] == e0.entry@);
            assert(om[kx].players[j] == Some(q));
            assert(om[kx].players.contains(Some(q)));
        }
        assert forall|ka: int, kb: int|
            #![trigger om[ka], om[kb]]
            0 <= ka < kb < om.len() implies !same_team(rv, entry_lead(om, ka), entry_lead(om, kb))
            && (om[ka].final_rank < om[kb].final_rank || (om[ka].final_rank == om[kb].final_rank
            && team_first_idx(rv, entry_lead(om, ka)) < team_first_idx(
            rv,
            entry_lead(om, kb),
        ))) by {
            let ea = sortedv[ka];
            let eb = sortedv[kb];
            assert(rt_lt(ea, eb));
            assert(ea != eb) by {
                if ea == eb {
                    assert(!rt_lt(ea, ea));
                }
            }
            let a = choose|a: int| 0 <= a < entriesv.len() && #[trigger] entriesv[a] == ea;
            let b = choose|b: int| 0 <= b < entriesv.len() && #[trigger] entriesv[b] == eb;
            assert(a != b);
            let pa = ea.entry@.players[0].unwrap();
            let pb = eb.entry@.players[0].unwrap();
            assert(same_team(rv, pa, team_lead(tsv[a])));
            assert(same_team(rv, pb, team_lead(tsv[b])));
            assert(!same_team(rv, team_lead(tsv[a]), team_lead(tsv[b]))) by {
                if a < b {
                } else {
                    assert(!same_team(rv, team_lead(tsv[b]), team_lead(tsv[a])));
                }
            }
            assert(entry_lead(om, ka) == pa && entry_lead(om, kb) == pb);
            assert(om[ka].final_rank == ea.entry@.final_rank);
            assert(om[kb].final_rank == eb.entry@.final_rank);
            assert(team_first_idx(rv, pa) == ea.first && team_first_idx(rv, pb) == eb.first);
            assert(ea.entry@.final_rank == ea.entry.final_rank as int);
            assert(eb.entry@.final_rank == eb.entry.final_rank as int);
        }
        assert forall|j: int|
            0 <= j < om.len() implies team_entry_ok(
            rv,
            nmv,
            team_size as int,
            #[trigger] om[j],
        ) by {
            assert(om[j] == sortedv[j].entry@);
        }
        assert(nest_teams_post(rv, team_size as int, nmv, om));
    }
    Ok(team_results)
}

/// Nest flat per-player-per-game rows into the ranked leaderboard.
///
/// The seed columns are derived from the rows themselves: the distinct
/// seed names that occur, sorted ascending. Everything else is
/// `nest_rows_with_seed_names` against that canonical list.
pub fn nested_results_from_single_competition_results(
    flat_results: Vec<SingleCompetitionResult>,
    team_size: i16,
) -> (res: Result<CompetitionNestedResults, NestError>)
    requires
        team_size >= 1,
    ensures
        res is Err <==> has_oversized_team(rows_model(flat_results@), team_size as int),
        res matches Ok(out) ==> nest_post(rows_model(flat_results@), team_size as int, out@),
        res matches Err(e) ==> e == NestError::OversizedTeam,
{
    let ghost rv = rows_model(flat_results@);
    let names = canonical_seed_names(&flat_results);
    match nest_rows_with_seed_names(&flat_results, team_size, &names) {
        Err(e) => Err(e),
        Ok(team_results) => {
            let out = CompetitionNestedResults { base_seed_names: names, team_size, team_results };
            proof {
                assert(out@.team_results =~= teams_model(out.team_results@));
                assert(nest_post(rv, team_size as int, out@));
            }
            Ok(out)
        },
    }
}

// ---------------------------------------------------------------------------
// Laws of the nested output
// ---------------------------------------------------------------------------

/// Law: the output is complete. Every team entry holds exactly the team
/// size of roster slots and one result slot per canonical seed name.
pub proof fn lemma_nest_completeness(rv: Seq<RowModel>, team_size: int, out: NestModel)
    requires
        nest_post(rv, team_size, out),
    ensures
        forall|k: int|
            0 <= k < out.team_results.len() ==> (#[trigger] out.team_results[k]).players.len()
                == team_size,
        forall|k: int|
            0 <= k < out.team_results.len() ==> (#[trigger] out.team_results[k]).game_results.len()
                == out.base_seed_names.len(),
{
}

/// Law: the rosters partition the input's players. Every player of the
/// input sits in some team's roster, every filled roster slot names an
/// input player, and no player sits in two different teams.
pub proof fn lemma_nest_partition(rv: Seq<RowModel>, team_size: int, out: NestModel)
    requires
        nest_post(rv, team_size, out),
    ensures
        forall|q: Seq<char>|
            players_of(rv).contains(q) ==> exists|k: int|
                0 <= k < out.team_results.len() && #[trigger] out.team_results[k].players.contains(
                    Some(q),
                ),
        forall|k: int, j: int|
            #![trigger out.team_results[k].players[j]]
            0 <= k < out.team_results.len() && 0 <= j < out.team_results[k].players.len()
                && out.team_results[k].players[j] is Some ==> players_of(rv).contains(
                out.team_results[k].players[j].unwrap(),
            ),
        forall|k1: int, k2: int, q: Seq<char>|
            #![trigger out.team_results[k1].players.contains(Some(q)), out.team_results[k2].players.contains(Some(q))]
            0 <= k1 < out.team_results.len() && 0 <= k2 < out.team_results.len() && k1 != k2
                ==> !(out.team_results[k1].players.contains(Some(q))
                && out.team_results[k2].players.contains(Some(q))),
{
    assert forall|k: int, j: int|
        #![trigger out.team_results[k].players[j]]
        0 <= k < out.team_results.len() && 0 <= j < out.team_results[k].players.len()
            && out.team_results[k].players[j] is Some implies players_of(rv).contains(
        out.team_results[k].players[j].unwrap(),
    ) by {
        let t = out.team_results[k];
        let m = roster_len(t.players);
        assert(j < m) by {
            if j >= m {
                assert(t.players[j] is None);
            }
        }
        let q = t.players[j].unwrap();
        assert(exists|j2: int| 0 <= j2 < m && t.players[j2] == Some(q)) by {
            assert(t.players[j] == Some(q));
        }
    }
    assert forall|k1: int, k2: int, q: Seq<char>|
        #![trigger out.team_results[k1].players.contains(Some(q)), out.team_results[k2].players.contains(Some(q))]
        0 <= k1 < out.team_results.len() && 0 <= k2 < out.team_results.len() && k1 != k2 implies !(
    out.team_results[k1].players.contains(Some(q)) && out.team_results[k2].players.contains(
        Some(q),
    )) by {
        if out.team_results[k1].players.contains(Some(q)) && out.team_results[k2].players.contains(
            Some(q),
        ) {
            let t1 = out.team_results[k1];
            let t2 = out.team_results[k2];
            let j1 = choose|j: int| 0 <= j < t1.players.len() && t1.players[j] == Some(q);
            let j2 = choose|j: int| 0 <= j < t2.players.len() && t2.players[j] == Some(q);
            let m1 = roster_len(t1.players);
            let m2 = roster_len(t2.players);
            assert(j1 < m1) by {
                if j1 >= m1 {
                    assert(t1.players[j1] is None);
                }
            }
            assert(j2 < m2) by {
                if j2 >= m2 {
                    assert(t2.players[j2] is None);
                }
            }
            let p1 = t1.players[0].unwrap();
            let p2 = t2.players[0].unwrap();
            assert(players_of(rv).contains(q) && same_team(rv, q, p1)) by {
                assert(exists|j: int| 0 <= j < m1 && t1.players[j] == Some(q)) by {
                    assert(t1.players[j1] == Some(q));
                }
            }
            assert(players_of(rv).contains(q) && same_team(rv, q, p2)) by {
                assert(exists|j: int| 0 <= j < m2 && t2.players[j] == Some(q)) by {
                    assert(t2.players[j2] == Some(q));
                }
            }
            assert(same_team(rv, entry_lead(out.team_results, k1), entry_lead(out.team_results, k2)));
            if k1 < k2 {
                assert(!same_team(rv, entry_lead(out.team_results, k1), entry_lead(out.team_results, k2)));
            } else {
                assert(!same_team(rv, entry_lead(out.team_results, k2), entry_lead(out.team_results, k1)));
            }
        }
    }
}

/// Law: the output is ranked. Team entries come out non-decreasing in
/// `final_rank`.
pub proof fn lemma_nest_rank_sorted(rv: Seq<RowModel>, team_size: int, out: NestModel)
    requires
        nest_post(rv, team_size, out),
    ensures
        forall|k1: int, k2: int|
            #![trigger out.team_results[k1], out.team_results[k2]]
            0 <= k1 < k2 < out.team_results.len() ==> out.team_results[k1].final_rank
                <= out.team_results[k2].final_rank,
{
}

/// Two strictly sorted lists with the same members are the same list.
proof fn lemma_sorted_same_elements(n1: Seq<Seq<char>>, n2: Seq<Seq<char>>)
    requires
        forall|i: int, j: int| 0 <= i < j < n1.len() ==> lex_lt(n1[i], n1[j]),
        forall|i: int, j: int| 0 <= i < j < n2.len() ==> lex_lt(n2[i], n2[j]),
        forall|x: Seq<char>| #[trigger] n1.contains(x) <==> n2.contains(x),
    ensures
        n1 =~= n2,
    decreases n1.len(),
{
    if n1.len() == 0 {
        if n2.len() > 0 {
            assert(n2.contains(n2[0]));
            assert(n1.contains(n2[0]));
        }
    } else {
        assert(n1.contains(n1[0]));
        assert(n2.contains(n1[0]));
        assert(n2.len() > 0);
        assert(n1[0] == n2[0]) by {
            crate::order::lemma_lex_total(n1[0], n2[0]);
            if lex_lt(n1[0], n2[0]) {
                let j = choose|j: int| 0 <= j < n2.len() && n2[j] == n1[0];
                assert(j >= 1) by {
                    if j == 0 {
                        crate::order::lemma_lex_asymmetric(n1[0], n2[0]);
                    }
                }
                assert(lex_lt(n2[0], n2[j]));
                crate::order::lemma_lex_transitive(n1[0], n2[0], n2[j]);
                crate::order::lemma_lex_asymmetric(n1[0], n1[0]);
            } else if lex_lt(n2[0], n1[0]) {
                assert(n1.contains(n2[0]));
                let j = choose|j: int| 0 <= j < n1.len() && n1[j] == n2[0];
                assert(j >= 1) by {
                    if j == 0 {
                        crate::order::lemma_lex_asymmetric(n2[0], n1[0]);
                    }
                }
                assert(lex_lt(n1[0], n1[j]));
                crate::order::lemma_lex_transitive(n2[0], n1[0], n1[j]);
                crate::order::lemma_lex_asymmetric(n2[0], n2[0]);
            }
        }
        let t1 = n1.skip(1);
        let t2 = n2.skip(1);
        assert forall|i: int, j: int| 0 <= i < j < t1.len() implies lex_lt(t1[i], t1[j]) by {
            assert(t1[i] == n1[i + 1] && t1[j] == n1[j + 1]);
        }
        assert forall|i: int, j: int| 0 <= i < j < t2.len() implies lex_lt(t2[i], t2[j]) by {
            assert(t2[i] == n2[i + 1] && t2[j] == n2[j + 1]);
        }
        assert forall|x: Seq<char>| #[trigger] t1.contains(x) implies t2.contains(x) by {
            let i = choose|i: int| 0 <= i < t1.len() && t1[i] == x;
            assert(n1[i + 1] == x);
            assert(n1.contains(x));
            assert(n2.contains(x));
            let j = choose|j: int| 0 <= j < n2.len() && n2[j] == x;
            assert(lex_lt(n1[0], x));
            assert(j >= 1) by {
                if j == 0 {
                    crate::order::lemma_lex_asymmetric(n1[0], x);
                }
            }
            assert(t2[j - 1] == x);
        }
        assert forall|x: Seq<char>| #[trigger] t2.contains(x) implies t1.contains(x) by {
            let i = choose|i: int| 0 <= i < t2.len() && t2[i] == x;
            assert(n2[i + 1] == x);
            assert(n2.contains(x));
            assert(n1.contains(x));
            let j = choose|j: int| 0 <= j < n1.len() && n1[j] == x;
            assert(lex_lt(n2[0], x));
            assert(j >= 1) by {
                if j == 0 {
                    crate::order::lemma_lex_asymmetric(n2[0], x);
                }
            }
            assert(t1[j - 1] == x);
        }
        lemma_sorted_same_elements(t1, t2);
        assert forall|i: int| 0 <= i < n1.len() implies n1[i] == n2[i] by {
            if i >= 1 {
                assert(n1[i] == t1[i - 1] && n2[i] == t2[i - 1]);
            }
        }
    }
}

/// Law (determinism of the columns): the rows pin the canonical seed list
/// completely; two nestings of the same rows show the same columns.
pub proof fn lemma_canonical_seed_list_unique(
    rv: Seq<RowModel>,
    n1: Seq<Seq<char>>,
    n2: Seq<Seq<char>>,
)
    requires
        is_canonical_seed_list(rv, n1),
        is_canonical_seed_list(rv, n2),
    ensures
        n1 == n2,
{
    assert forall|x: Seq<char>| #[trigger] n1.contains(x) implies n2.contains(x) by {
        assert(seed_set(rv).contains(x));
    }
    assert forall|x: Seq<char>| #[trigger] n2.contains(x) implies n1.contains(x) by {
        assert(seed_set(rv).contains(x));
    }
    assert forall|x: Seq<char>| #[trigger] n1.contains(x) <==> n2.contains(x) by {}
    lemma_sorted_same_elements(n1, n2);
}

/// Law (shuffle-invariance of the columns): reordering the input rows
/// leaves the canonical seed list unchanged.
pub proof fn lemma_seed_list_shuffle_invariant(
    rv1: Seq<RowModel>,
    rv2: Seq<RowModel>,
    n1: Seq<Seq<char>>,
    n2: Seq<Seq<char>>,
)
    requires
        rv1.to_multiset() == rv2.to_multiset(),
        is_canonical_seed_list(rv1, n1),
        is_canonical_seed_list(rv2, n2),
    ensures
        n1 == n2,
{
    broadcast use vstd::seq_lib::group_to_multiset_ensures;

    reveal(seed_set);
    assert forall|x: Seq<char>| #[trigger]
        seed_set(rv1).contains(x) implies seed_set(rv2).contains(x) by {
        let m1 = rv1.map_values(|r: RowModel| r.base_seed_name);
        let t = choose|t: int| 0 <= t < m1.len() && m1[t] == x;
        let r = rv1[t];
        assert(rv1.contains(r));
        vstd::seq_lib::to_multiset_contains(rv1, r);
        vstd::seq_lib::to_multiset_contains(rv2, r);
        assert(rv2.contains(r));
        let t2 = choose|t2: int| 0 <= t2 < rv2.len() && rv2[t2] == r;
        let m2 = rv2.map_values(|r2: RowModel| r2.base_seed_name);
        assert(m2[t2] == x);
        assert(m2.contains(x));
    }
    assert forall|x: Seq<char>| #[trigger]
        seed_set(rv2).contains(x) implies seed_set(rv1).contains(x) by {
        let m2 = rv2.map_values(|r2: RowModel| r2.base_seed_name);
        let t = choose|t: int| 0 <= t < m2.len() && m2[t] == x;
        let r = rv2[t];
        assert(rv2.contains(r));
        vstd::seq_lib::to_multiset_contains(rv2, r);
        vstd::seq_lib::to_multiset_contains(rv1, r);
        assert(rv1.contains(r));
        let t2 = choose|t2: int| 0 <= t2 < rv1.len() && rv1[t2] == r;
        let m1 = rv1.map_values(|r2: RowModel| r2.base_seed_name);
        assert(m1[t2] == x);
        assert(m1.contains(x));
    }
    assert forall|x: Seq<char>| #[trigger] n1.contains(x) implies n2.contains(x) by {
        assert(seed_set(rv1).contains(x));
        assert(seed_set(rv2).contains(x));
    }
    assert forall|x: Seq<char>| #[trigger] n2.contains(x) implies n1.contains(x) by {
        assert(seed_set(rv2).contains(x));
        assert(seed_set(rv1).contains(x));
    }
    assert(forall|x: Seq<char>| #[trigger] n1.contains(x) <==> n2.contains(x));
    lemma_sorted_same_elements(n1, n2);
}

/// The size of a player's team: how many distinct players share their
/// multiset of games.
pub open spec fn team_size_of(rows: Seq<RowModel>, p: Seq<char>) -> int {
    players_of(rows).filter(|q: Seq<char>| same_team(rows, q, p)).len() as int
}

/// Nesting fails exactly when some team outgrows the declared team size.
pub open spec fn has_oversized_team(rows: Seq<RowModel>, team_size: int) -> bool {
    exists|p: Seq<char>|
        #[trigger] players_of(rows).contains(p) && team_size_of(rows, p) > team_size
}

} // verus!
