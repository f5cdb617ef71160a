use vstd::prelude::*;
use crate::capacity::Capacity;
use crate::graph::{partners_idle, lemma_flow_fits, 
    Graph, Edge, finite_total, lemma_no_unbounded_reach, cut_value, cut_finite, separates, lemma_cut_value_push2,
    is_max_flow_value,
};
use crate::grid::{lemma_mul_le, lemma_mul_step, total, lemma_total_combine, lemma_total_zero};

verus! {

/// Number of unordered pairs among the first `k` items: `k * (k - 1) / 2`.
pub open spec fn pairs_below(k: int) -> int {
    k * (k - 1) / 2
}

proof fn lemma_pairs_step(k: int)
    requires
        k >= 0,
    ensures
        pairs_below(k + 1) == pairs_below(k) + k,
        pairs_below(k) >= 0,
{
    assert((k + 1) * k == k * (k - 1) + 2 * k) by (nonlinear_arith);
    assert(k * (k - 1) >= 0) by (nonlinear_arith)
        requires
            k >= 0,
    ;
    assert((k * (k - 1) + 2 * k) / 2 == k * (k - 1) / 2 + k) by (nonlinear_arith);
}

proof fn lemma_pairs_mono(a: int, b: int)
    requires
        0 <= a <= b,
    ensures
        pairs_below(a) <= pairs_below(b),
    decreases b - a,
{
    if a < b {
        lemma_pairs_mono(a, b - 1);
        lemma_pairs_step(b - 1);
    } else {
        lemma_pairs_step(a);
    }
}

/// The node of the game between teams `i` and `j` (`1 <= j < i < n`): the
/// games come after the `n - 1` nodes of the teams, pair by pair.
pub open spec fn game_node(n: int, i: int, j: int) -> int {
    pairs_below(i - 1) + (j - 1) + (n - 1)
}

/// Different pairs of teams have different game nodes, all after the team
/// nodes and before the source.
proof fn lemma_game_node(n: int, i: int, j: int, i2: int, j2: int)
    requires
        1 <= j < i < n,
        1 <= j2 < i2 < n,
    ensures
        n - 1 <= game_node(n, i, j) < pairs_below(n - 1) + (n - 1),
        game_node(n, i, j) == game_node(n, i2, j2) ==> i == i2 && j == j2,
{
    lemma_pairs_step(i - 1);
    lemma_pairs_mono(i, n - 1);
    lemma_pairs_step(i2 - 1);
    lemma_pairs_mono(i2, n - 1);
    if i < i2 {
        lemma_pairs_mono(i, i2 - 1);
    } else if i2 < i {
        lemma_pairs_mono(i2, i - 1);
    }
}

/// The games still to play between the teams `i` and `j`, both in `teams`,
/// for `1 <= j < i`, summed over `j`.
pub open spec fn games_with(games: Seq<Vec<u64>>, teams: Set<int>, i: int) -> spec_fn(int) -> int {
    |j: int|
        if 1 <= j && teams.contains(i) && teams.contains(j) {
            games[i]@[j] as int
        } else {
            0
        }
}

/// The games still to play between team `i` and the teams before it, both in
/// `teams` (`0` for team 0).
pub open spec fn inside_row(games: Seq<Vec<u64>>, teams: Set<int>) -> spec_fn(int) -> int {
    |i: int| if 1 <= i { total(games_with(games, teams, i), i) } else { 0 }
}

/// The games still to play between two teams of `teams` (other than team 0).
pub open spec fn games_inside(games: Seq<Vec<u64>>, n: int, teams: Set<int>) -> int {
    total(inside_row(games, teams), n)
}

/// How many more wins team `i` may take without passing `max_wins`, if it is
/// in `teams` and is not team 0.
pub open spec fn room_row(score: Seq<u64>, max_wins: int, teams: Set<int>) -> spec_fn(int) -> int {
    |i: int| if 1 <= i && teams.contains(i) { max_wins - score[i] } else { 0 }
}

/// How many more wins the teams of `teams` (other than team 0) may take
/// without passing `max_wins`.
pub open spec fn room_inside(score: Seq<u64>, max_wins: int, n: int, teams: Set<int>) -> int {
    total(room_row(score, max_wins, teams), n)
}

/// Team 0 can still come first: no other team has passed what team 0 can
/// reach, and no group of other teams has more games left among themselves
/// than wins they may still take.
pub open spec fn can_win(score: Seq<u64>, coming: Seq<u64>, games: Seq<Vec<u64>>, n: int) -> bool {
    let max_wins = score[0] + coming[0];
    &&& forall|i: int| 1 <= i < n ==> #[trigger] score[i] <= max_wins
    &&& forall|teams: Set<int>| #[trigger] games_inside(games, n, teams) <= room_inside(score, max_wins, n, teams)
}

/// What the edges of team `i` and of its games with the teams before it
/// carry out of the cut `S`.
spec fn team_cut(score: Seq<u64>, max_wins: int, games: Seq<Vec<u64>>, n: int, cut: Set<int>) -> spec_fn(int) -> int {
    |i: int|
        if 1 <= i {
            (if cut.contains(i - 1) {
                max_wins - score[i]
            } else {
                0
            }) + total(game_cut(games, n, cut, i), i)
        } else {
            0
        }
}

/// What the edge from the source to the game between `i` and `j` carries
/// out of the cut `S`.
spec fn game_cut(games: Seq<Vec<u64>>, n: int, cut: Set<int>, i: int) -> spec_fn(int) -> int {
    |j: int|
        if 1 <= j {
            if cut.contains(game_node(n, i, j)) {
                0
            } else {
                games[i]@[j] as int
            }
        } else {
            0
        }
}

/// The games still to play between team `i` and the teams before it.
spec fn row_games(games: Seq<Vec<u64>>, i: int) -> spec_fn(int) -> int {
    |j: int|
        if 1 <= j {
            games[i]@[j] as int
        } else {
            0
        }
}

/// The games still to play between teams other than team 0, below `k`.
spec fn games_upto(games: Seq<Vec<u64>>, k: int) -> int {
    total(row_total(games), k)
}

/// The games still to play between team `i` and the teams before it, other
/// than team 0.
spec fn row_total(games: Seq<Vec<u64>>) -> spec_fn(int) -> int {
    |i: int| if 1 <= i { total(row_games(games, i), i) } else { 0 }
}

/// The node of a game leads, without bound, to one of its two teams.
spec fn game_edge(n: int, u: int, v: int) -> bool {
    exists|i: int, j: int| 1 <= j < i < n && #[trigger] game_node(n, i, j) == u && (v == i - 1 || v == j - 1)
}

/// An edge from `u` to `v` of unbounded capacity is among the edges.
spec fn has_unbounded(edges: Seq<Edge>, u: int, v: int) -> bool {
    exists|e: int| 0 <= e < edges.len() && #[trigger] edges[e].node1 == u && edges[e].node2 == v && edges[e].capacity is Infinity
}

/// Whether team 0 can still finish with at least as many wins as every other
/// team: it wins all its remaining games, and the games left between the
/// other teams (`games_mat`) can be shared out so that no team passes it.
/// Decided by a maximum flow from the games to the teams.
#[verifier::spinoff_prover]
#[verifier::rlimit(40)]
pub fn solve(n: usize, current_score: &[u64], coming_games: &[u64], games_mat: &[Vec<u64>]) -> (possible: bool)
    requires
        1 <= n,
        current_score@.len() == n,
        coming_games@.len() == n,
        games_mat@.len() == n,
        forall|i: int| 0 <= i < n ==> (#[trigger] games_mat@[i])@.len() == n,
        8 * (n * n) + 64 < usize::MAX,
        forall|i: int| 0 <= i < n ==> #[trigger] current_score@[i] * (8 * (n * n) + 64) <= u64::MAX,
        coming_games@[0] * (8 * (n * n) + 64) <= u64::MAX,
        forall|i: int, j: int| 0 <= i < n && 0 <= j < n ==> #[trigger] games_mat@[i]@[j] * (8 * (n * n) + 64) <= u64::MAX,
    ensures
        possible == can_win(current_score@, coming_games@, games_mat@, n as int),
{
    let ghost nn = n as int;
    let ghost lim: int = u64::MAX as int / (8 * (nn * nn) + 64);
    proof {
        lemma_pairs_step(nn - 1);
        lemma_pairs_mono(nn - 1, nn);
        assert((nn - 1) * (nn + 2) / 2 == pairs_below(nn - 1) + 2 * (nn - 1)) by (nonlinear_arith)
            requires
                nn >= 1,
        ;
        lemma_mul_le(0, nn, 0, nn);
        assert(pairs_below(nn) <= nn * nn) by (nonlinear_arith)
            requires
                nn >= 1,
        ;
        assert((nn - 1) * (nn + 2) <= 4 * (nn * nn) + 64) by (nonlinear_arith)
            requires
                nn >= 1,
        ;
    }
    let s = (n - 1) * (n + 2) / 2;
    let t = s + 1;
    let mut graph = Graph::new(t + 1);
    let ghost d: int = 8 * (nn * nn) + 64;
    proof {
        lemma_below_lim(current_score@[0] as int, d);
        lemma_below_lim(coming_games@[0] as int, d);
        assert(2 * lim <= u64::MAX) by (nonlinear_arith)
            requires
                lim * d <= u64::MAX,
                d >= 64,
                lim >= 0,
        ;
    }
    let max_wins = current_score[0] + coming_games[0];
    let mut total_games: u64 = 0;
    let ghost mut adds: int = 0;
    let mut i: usize = 1;
    proof {
        reveal_with_fuel(total, 2);
        assert(games_upto(games_mat@, 1) == 0);
        assert forall|cut: Set<int>| separates(cut, s as int, t as int) implies #[trigger] cut_value(graph.edges(), cut) == total(
            team_cut(current_score@, max_wins as int, games_mat@, nn, cut),
            1,
        ) by {}
    }
    while i < n
        invariant
            graph.wf(),
            partners_idle(graph.edges()),
            graph.node_count() == s + 2,
            t == s + 1,
            nn == n,
            1 <= n,
            s == pairs_below(nn - 1) + 2 * (nn - 1),
            pairs_below(nn) <= nn * nn,
            8 * (n * n) + 64 < usize::MAX,
            d == 8 * (nn * nn) + 64,
            lim == u64::MAX as int / d,
            current_score@.len() == n,
            games_mat@.len() == n,
            forall|i2: int| 0 <= i2 < n ==> (#[trigger] games_mat@[i2])@.len() == n,
            forall|i2: int| 0 <= i2 < n ==> #[trigger] current_score@[i2] * d <= u64::MAX,
            forall|i2: int, j2: int| 0 <= i2 < n && 0 <= j2 < n ==> #[trigger] games_mat@[i2]@[j2] * d <= u64::MAX,
            max_wins <= 2 * lim,
            1 <= i <= n,
            adds <= (i - 1) + 3 * pairs_below(i - 1),
            graph.edges().len() == 2 * adds,
            0 <= finite_total(graph.edges()) <= 2 * lim * adds,
            total_games <= lim * pairs_below(i - 1),
            forall|e: int| 0 <= e < graph.edges().len() && (#[trigger] graph.edges()[e]).node1 == s ==> graph.edges()[e].capacity is Finite,
            max_wins == current_score@[0] + coming_games@[0],
            forall|i2: int| 1 <= i2 < i ==> #[trigger] current_score@[i2] <= max_wins,
            total_games == games_upto(games_mat@, i as int),
            forall|e: int|
                0 <= e < graph.edges().len() && (#[trigger] graph.edges()[e]).capacity is Infinity ==> game_edge(
                    nn,
                    graph.edges()[e].node1 as int,
                    graph.edges()[e].node2 as int,
                ),
            forall|i2: int, j2: int|
                1 <= j2 < i2 < i ==> has_unbounded(graph.edges(), #[trigger] game_node(nn, i2, j2), i2 - 1) && has_unbounded(
                    graph.edges(),
                    game_node(nn, i2, j2),
                    j2 - 1,
                ),
            forall|cut: Set<int>|
                separates(cut, s as int, t as int) ==> #[trigger] cut_value(graph.edges(), cut) == total(team_cut(current_score@, max_wins as int, games_mat@, nn, cut), i as int),
        decreases n - i,
    {
        if current_score[i] > max_wins {
            proof {
                assert(!(current_score@[i as int] <= max_wins));
            }
            return false;
        }
        let allowed_wins = max_wins - current_score[i];
        proof {
            lemma_pairs_mono((i - 1) as int, nn - 1);
            lemma_pairs_step((i - 1) as int);
            lemma_mul_step(adds, 2 * lim);
            lemma_adds_bound(i as int, nn, adds);
            lemma_edge_room(nn, adds);
        }
        let ghost before = graph.edges();
        graph.add_edge(i - 1, t, Capacity::Finite(allowed_wins));
        proof {
            adds = adds + 1;
            let e2 = graph.edges();
            assert forall|cut: Set<int>| separates(cut, s as int, t as int) implies #[trigger] cut_value(
                graph.edges(),
                cut,
            ) == total(team_cut(current_score@, max_wins as int, games_mat@, nn, cut), i as int) + (if cut.contains(i - 1) { allowed_wins as int } else { 0 }) + total(
                game_cut(games_mat@, nn, cut, i as int),
                1,
            ) by {
                lemma_cut_value_push2(before, cut, e2[before.len() as int], e2[before.len() + 1int]);
                assert(e2 == before.push(e2[before.len() as int]).push(e2[before.len() + 1int]));
                reveal_with_fuel(total, 2);
            }
            assert forall|e: int|
                0 <= e < e2.len() && (#[trigger] e2[e]).capacity is Infinity implies game_edge(nn, e2[e].node1 as int, e2[e].node2 as int) by {
                assert(e2[e] == before[e]);
            }
            assert forall|i2: int, j2: int|
                1 <= j2 < i2 < i implies has_unbounded(e2, #[trigger] game_node(nn, i2, j2), i2 - 1) && has_unbounded(
                e2,
                game_node(nn, i2, j2),
                j2 - 1,
            ) by {
                assert forall|e: int| 0 <= e < before.len() implies e2[e] == before[e] by {}
                lemma_unbounded_kept(before, e2, game_node(nn, i2, j2), i2 - 1);
                lemma_unbounded_kept(before, e2, game_node(nn, i2, j2), j2 - 1);
            }
            assert(total(row_games(games_mat@, i as int), 1) == 0) by {
                reveal_with_fuel(total, 2);
            }
        }
        let mut j: usize = 1;
        while j < i
            invariant
                graph.wf(),
                partners_idle(graph.edges()),
                graph.node_count() == s + 2,
                nn == n,
                1 <= i < n,
                1 <= j <= i,
                s == pairs_below(nn - 1) + 2 * (nn - 1),
                pairs_below(nn) <= nn * nn,
                8 * (n * n) + 64 < usize::MAX,
                d == 8 * (nn * nn) + 64,
                lim == u64::MAX as int / d,
                games_mat@.len() == n,
                forall|i2: int| 0 <= i2 < n ==> (#[trigger] games_mat@[i2])@.len() == n,
                forall|i2: int, j2: int| 0 <= i2 < n && 0 <= j2 < n ==> #[trigger] games_mat@[i2]@[j2] * d <= u64::MAX,
                adds <= i + 3 * pairs_below(i - 1) + 3 * (j - 1),
                graph.edges().len() == 2 * adds,
                0 <= finite_total(graph.edges()) <= 2 * lim * adds,
                total_games <= lim * (pairs_below(i - 1) + (j - 1)),
                forall|e: int| 0 <= e < graph.edges().len() && (#[trigger] graph.edges()[e]).node1 == s ==> graph.edges()[e].capacity is Finite,
                t == s + 1,
                total_games == games_upto(games_mat@, i as int) + total(row_games(games_mat@, i as int), j as int),
                forall|e: int|
                    0 <= e < graph.edges().len() && (#[trigger] graph.edges()[e]).capacity is Infinity ==> game_edge(
                        nn,
                        graph.edges()[e].node1 as int,
                        graph.edges()[e].node2 as int,
                    ),
                forall|i2: int, j2: int|
                    1 <= j2 < i2 < i ==> has_unbounded(graph.edges(), #[trigger] game_node(nn, i2, j2), i2 - 1)
                        && has_unbounded(graph.edges(), game_node(nn, i2, j2), j2 - 1),
                forall|j2: int|
                    1 <= j2 < j ==> has_unbounded(graph.edges(), #[trigger] game_node(nn, i as int, j2), i - 1)
                        && has_unbounded(graph.edges(), game_node(nn, i as int, j2), j2 - 1),
                forall|cut: Set<int>|
                    separates(cut, s as int, t as int) ==> #[trigger] cut_value(graph.edges(), cut) == total(team_cut(current_score@, max_wins as int, games_mat@, nn, cut), i as int) + (if cut.contains(i - 1) { allowed_wins as int } else { 0 }) + total(game_cut(games_mat@, nn, cut, i as int), j as int),
            decreases i - j,
        {
            proof {
                lemma_pairs_mono(i as int, nn - 1);
                lemma_pairs_step((i - 1) as int);
                lemma_adds_bound(i as int, nn, adds);
                lemma_mul_step(adds, 2 * lim);
                lemma_mul_step(adds + 1, 2 * lim);
                lemma_mul_step(adds + 2, 2 * lim);
                lemma_below_lim(games_mat@[i as int]@[j as int] as int, d);
                lemma_mul_step(pairs_below(i - 1) + (j - 1), lim);
                lemma_pairs_mono(i as int, nn);
                lemma_total_bound(lim, pairs_below(i - 1) + j, nn, d);
                lemma_edge_room(nn, adds + 2);
                lemma_mul_le(0, (i - 1) as int, 0, (i - 2) as int);
                lemma_mul_le((i - 1) as int, nn, (i - 2) as int, nn);
                assert((i - 1) * (i - 2) / 2 == pairs_below(i - 1));
            }
            let wrap_edge = (i - 1) * (i - 2) / 2 + j - 1;
            let ev = wrap_edge + n - 1;
            let games_ij = games_mat[i][j];
            proof {
                assert(ev == game_node(nn, i as int, j as int));
                lemma_game_node(nn, i as int, j as int, i as int, j as int);
            }
            let ghost b0 = graph.edges();
            graph.add_edge(s, ev, Capacity::Finite(games_ij));
            let ghost b1 = graph.edges();
            graph.add_edge(ev, i - 1, Capacity::Infinity);
            let ghost b2 = graph.edges();
            graph.add_edge(ev, j - 1, Capacity::Infinity);
            proof {
                let k = pairs_below(i - 1) + (j - 1);
                assert(total_games + games_ij <= lim * (k + 1)) by {
                    assert(games_mat@[i as int]@[j as int] * d <= u64::MAX);
                    lemma_below_lim(games_ij as int, d);
                    assert(games_ij <= lim);
                    assert(total_games <= lim * k);
                    assert(lim * k + lim == lim * (k + 1)) by (nonlinear_arith);
                }
                assert(lim * (k + 1) <= u64::MAX);
            }
            total_games += games_ij;
            proof {
                adds = adds + 3;
                let b3 = graph.edges();
                lemma_h_pair_step(b0, b1, b2, b3, games_mat@, nn, i as int, j as int, s as int, t as int);
                assert forall|e: int|
                    0 <= e < b3.len() && (#[trigger] b3[e]).capacity is Infinity implies game_edge(
                    nn,
                    b3[e].node1 as int,
                    b3[e].node2 as int,
                ) by {
                    if e < b0.len() {
                        assert(b3[e] == b0[e]);
                    }
                }
                assert forall|i2: int, j2: int|
                    1 <= j2 < i2 < i implies has_unbounded(b3, #[trigger] game_node(nn, i2, j2), i2 - 1) && has_unbounded(
                    b3,
                    game_node(nn, i2, j2),
                    j2 - 1,
                ) by {
                    lemma_unbounded_kept(b0, b3, game_node(nn, i2, j2), i2 - 1);
                    lemma_unbounded_kept(b0, b3, game_node(nn, i2, j2), j2 - 1);
                }
                assert forall|j2: int|
                    1 <= j2 < j + 1 implies has_unbounded(b3, #[trigger] game_node(nn, i as int, j2), i - 1) && has_unbounded(
                    b3,
                    game_node(nn, i as int, j2),
                    j2 - 1,
                ) by {
                    if j2 < j {
                        lemma_unbounded_kept(b0, b3, game_node(nn, i as int, j2), i - 1);
                        lemma_unbounded_kept(b0, b3, game_node(nn, i as int, j2), j2 - 1);
                    }
                }
                assert(total(row_games(games_mat@, i as int), j + 1) == total(row_games(games_mat@, i as int), j as int) + games_ij);
                assert forall|cut: Set<int>| separates(cut, s as int, t as int) implies #[trigger] cut_value(b3, cut) == total(
                    team_cut(current_score@, max_wins as int, games_mat@, nn, cut),
                    i as int,
                ) + (if cut.contains(i - 1) { allowed_wins as int } else { 0 }) + total(game_cut(games_mat@, nn, cut, i as int), j + 1) by {
                    assert(cut_value(b0, cut) == total(team_cut(current_score@, max_wins as int, games_mat@, nn, cut), i as int) + (if cut.contains(i - 1) { allowed_wins as int } else { 0 }) + total(game_cut(games_mat@, nn, cut, i as int), j as int));
                    assert(total(game_cut(games_mat@, nn, cut, i as int), j + 1) == total(game_cut(games_mat@, nn, cut, i as int), j as int) + game_cut(games_mat@, nn, cut, i as int)(j as int));
                }
            }
            j += 1;
        }
        proof {
            lemma_pairs_step((i - 1) as int);
        }
        i += 1;
    }
    proof {
        lemma_adds_bound(nn, nn, adds);
        lemma_no_unbounded_reach(graph.edges(), s as int, t as int);
        lemma_finite_total_fits(lim, adds, nn, d, finite_total(graph.edges()));
    }
    let ghost edges = graph.edges();
    proof {
        graph.lemma_wf();
        lemma_flow_fits(graph.edges());
    }
    let max_flow = graph.max_flow(s, t);
    proof {
        lemma_flow_decides(edges, current_score@, coming_games@, games_mat@, nn, s as int, t as int, max_flow->0 as int);
    }
    max_flow == Capacity::Finite(total_games)
}

/// What team `i` and its games carry out of a cut, against the teams whose
/// nodes the cut holds: at least the room of those teams plus the games of
/// team `i`, less the games between two of those teams; exactly that when the
/// cut holds the node of every game between two of them.
proof fn lemma_team_cut_row(
    score: Seq<u64>,
    max_wins: int,
    games: Seq<Vec<u64>>,
    nn: int,
    cut: Set<int>,
    teams: Set<int>,
    i: int,
)
    requires
        0 <= i < nn,
        games.len() == nn,
        forall|i2: int| 0 <= i2 < nn ==> (#[trigger] games[i2])@.len() == nn,
        forall|i2: int| 1 <= i2 < nn ==> (cut.contains(i2 - 1) <==> #[trigger] teams.contains(i2)),
        forall|i2: int, j2: int|
            1 <= j2 < i2 < nn && cut.contains(#[trigger] game_node(nn, i2, j2)) ==> teams.contains(i2) && teams.contains(j2),
    ensures
        team_cut(score, max_wins, games, nn, cut)(i) >= room_row(score, max_wins, teams)(i) + row_total(games)(i) - inside_row(
            games,
            teams,
        )(i),
        (forall|i2: int, j2: int|
            1 <= j2 < i2 < nn && teams.contains(i2) && teams.contains(j2) ==> cut.contains(#[trigger] game_node(nn, i2, j2)))
            ==> team_cut(score, max_wins, games, nn, cut)(i) == room_row(score, max_wins, teams)(i) + row_total(games)(i)
            - inside_row(games, teams)(i),
{
    if 1 <= i {
        let gc = game_cut(games, nn, cut, i);
        let rg = row_games(games, i);
        let gw = games_with(games, teams, i);
        let zero = |j: int| 0int;
        assert forall|j: int| 0 <= j < i implies #[trigger] gc(j) >= zero(j) + rg(j) - gw(j) by {
            if 1 <= j {
                if cut.contains(game_node(nn, i, j)) {
                    assert(teams.contains(i) && teams.contains(j));
                }
            }
        }
        lemma_total_combine(gc, zero, rg, gw, i);
        lemma_total_zero(zero, i);
        if forall|i2: int, j2: int|
            1 <= j2 < i2 < nn && teams.contains(i2) && teams.contains(j2) ==> cut.contains(#[trigger] game_node(nn, i2, j2)) {
            assert forall|j: int| 0 <= j < i implies #[trigger] gc(j) == zero(j) + rg(j) - gw(j) by {
                if 1 <= j {
                    if teams.contains(i) && teams.contains(j) {
                        assert(cut.contains(game_node(nn, i, j)));
                    }
                }
            }
        }
    }
}

/// The cut that holds the source alone carries every game out of it.
proof fn lemma_source_cut(edges: Seq<Edge>, score: Seq<u64>, max_wins: int, games: Seq<Vec<u64>>, nn: int, s: int, t: int)
    requires
        nn >= 1,
        games.len() == nn,
        forall|i2: int| 0 <= i2 < nn ==> (#[trigger] games[i2])@.len() == nn,
        s == pairs_below(nn - 1) + 2 * (nn - 1),
        t == s + 1,
        forall|e: int| 0 <= e < edges.len() && (#[trigger] edges[e]).node1 == s ==> edges[e].capacity is Finite,
        forall|cut: Set<int>|
            separates(cut, s, t) ==> #[trigger] cut_value(edges, cut) == total(team_cut(score, max_wins, games, nn, cut), nn),
    ensures
        separates(set![s], s, t),
        cut_finite(edges, set![s]),
        cut_value(edges, set![s]) == games_upto(games, nn),
{
    let cut = set![s];
    lemma_pairs_step(nn - 1);
    let none = Set::<int>::empty();
    assert forall|i: int| 0 <= i < nn implies #[trigger] team_cut(score, max_wins, games, nn, cut)(i) == room_row(
        score,
        max_wins,
        none,
    )(i) + row_total(games)(i) - inside_row(games, none)(i) by {
        assert forall|i2: int, j2: int|
            1 <= j2 < i2 < nn && cut.contains(#[trigger] game_node(nn, i2, j2)) implies none.contains(i2) && none.contains(j2) by {
            lemma_game_node(nn, i2, j2, i2, j2);
        }
        lemma_team_cut_row(score, max_wins, games, nn, cut, none, i);
        if 1 <= i {
            let gw = games_with(games, none, i);
            lemma_total_zero(gw, i);
        }
    }
    lemma_total_combine(team_cut(score, max_wins, games, nn, cut), room_row(score, max_wins, none), row_total(games), inside_row(games, none), nn);
    lemma_total_zero(room_row(score, max_wins, none), nn);
    assert forall|i: int| 0 <= i < nn implies #[trigger] inside_row(games, none)(i) == 0 by {
        if 1 <= i {
            lemma_total_zero(games_with(games, none, i), i);
        }
    }
    lemma_total_zero(inside_row(games, none), nn);
}

/// Every finite cut that separates the source from the sink carries out of
/// it at least the games, plus the room, less the games inside, of the teams
/// whose nodes it holds.
proof fn lemma_cut_lower(edges: Seq<Edge>, score: Seq<u64>, max_wins: int, games: Seq<Vec<u64>>, nn: int, s: int, t: int, cut: Set<int>)
    requires
        nn >= 1,
        games.len() == nn,
        forall|i2: int| 0 <= i2 < nn ==> (#[trigger] games[i2])@.len() == nn,
        s == pairs_below(nn - 1) + 2 * (nn - 1),
        t == s + 1,
        separates(cut, s, t),
        cut_finite(edges, cut),
        forall|i2: int, j2: int|
            1 <= j2 < i2 < nn ==> has_unbounded(edges, #[trigger] game_node(nn, i2, j2), i2 - 1) && has_unbounded(
                edges,
                game_node(nn, i2, j2),
                j2 - 1,
            ),
        forall|c: Set<int>|
            separates(c, s, t) ==> #[trigger] cut_value(edges, c) == total(team_cut(score, max_wins, games, nn, c), nn),
    ensures
        ({
            let teams = Set::new(|i: int| 1 <= i < nn && cut.contains(i - 1));
            cut_value(edges, cut) >= room_inside(score, max_wins, nn, teams) + games_upto(games, nn) - games_inside(games, nn, teams)
        }),
{
    let teams = Set::new(|i: int| 1 <= i < nn && cut.contains(i - 1));
    assert forall|i2: int, j2: int|
        1 <= j2 < i2 < nn && cut.contains(#[trigger] game_node(nn, i2, j2)) implies teams.contains(i2) && teams.contains(j2) by {
        let g = game_node(nn, i2, j2);
        let e1 = choose|e: int| 0 <= e < edges.len() && #[trigger] edges[e].node1 == g && edges[e].node2 == i2 - 1 && edges[e].capacity is Infinity;
        let e2 = choose|e: int| 0 <= e < edges.len() && #[trigger] edges[e].node1 == g && edges[e].node2 == j2 - 1 && edges[e].capacity is Infinity;
        assert(edges[e1].capacity is Infinity);
        assert(edges[e2].capacity is Infinity);
    }
    assert forall|i: int| 0 <= i < nn implies #[trigger] team_cut(score, max_wins, games, nn, cut)(i) >= room_row(
        score,
        max_wins,
        teams,
    )(i) + row_total(games)(i) - inside_row(games, teams)(i) by {
        lemma_team_cut_row(score, max_wins, games, nn, cut, teams, i);
    }
    lemma_total_combine(team_cut(score, max_wins, games, nn, cut), room_row(score, max_wins, teams), row_total(games), inside_row(games, teams), nn);
}

/// The nodes of a cut made for `teams`: the source, the teams of `teams`, and
/// the games between two of them.
spec fn cut_for(nn: int, s: int, teams: Set<int>) -> Set<int> {
    Set::new(
        |v: int|
            v == s || (0 <= v < nn - 1 && teams.contains(v + 1)) || exists|i: int, j: int|
                1 <= j < i < nn && teams.contains(i) && teams.contains(j) && #[trigger] game_node(nn, i, j) == v,
    )
}

/// The cut made for `teams` separates the source from the sink, is finite,
/// and carries out of it exactly the games, plus the room, less the games
/// inside, of `teams`.
proof fn lemma_cut_upper(edges: Seq<Edge>, score: Seq<u64>, max_wins: int, games: Seq<Vec<u64>>, nn: int, s: int, t: int, teams: Set<int>)
    requires
        nn >= 1,
        games.len() == nn,
        forall|i2: int| 0 <= i2 < nn ==> (#[trigger] games[i2])@.len() == nn,
        s == pairs_below(nn - 1) + 2 * (nn - 1),
        t == s + 1,
        forall|e: int|
            0 <= e < edges.len() && (#[trigger] edges[e]).capacity is Infinity ==> game_edge(
                nn,
                edges[e].node1 as int,
                edges[e].node2 as int,
            ),
        forall|c: Set<int>|
            separates(c, s, t) ==> #[trigger] cut_value(edges, c) == total(team_cut(score, max_wins, games, nn, c), nn),
    ensures
        separates(cut_for(nn, s, teams), s, t),
        cut_finite(edges, cut_for(nn, s, teams)),
        cut_value(edges, cut_for(nn, s, teams)) == room_inside(score, max_wins, nn, teams) + games_upto(games, nn) - games_inside(
            games,
            nn,
            teams,
        ),
{
    let cut = cut_for(nn, s, teams);
    lemma_pairs_step(nn - 1);
    assert forall|i: int, j: int| 1 <= j < i < nn implies cut.contains(#[trigger] game_node(nn, i, j)) == (teams.contains(i)
        && teams.contains(j)) by {
        lemma_game_node(nn, i, j, i, j);
        if cut.contains(game_node(nn, i, j)) {
            let (i2, j2) = choose|i2: int, j2: int|
                1 <= j2 < i2 < nn && teams.contains(i2) && teams.contains(j2) && #[trigger] game_node(nn, i2, j2) == game_node(nn, i, j);
            lemma_game_node(nn, i, j, i2, j2);
        }
    }
    assert forall|i: int| 1 <= i < nn implies (cut.contains(i - 1) <==> #[trigger] teams.contains(i)) by {
        if cut.contains(i - 1) && !(0 <= i - 1 < nn - 1 && teams.contains(i)) {
            let (i2, j2) = choose|i2: int, j2: int|
                1 <= j2 < i2 < nn && teams.contains(i2) && teams.contains(j2) && #[trigger] game_node(nn, i2, j2) == i - 1;
            lemma_game_node(nn, i2, j2, i2, j2);
        }
    }
    assert(!cut.contains(t)) by {
        if cut.contains(t) {
            let (i2, j2) = choose|i2: int, j2: int|
                1 <= j2 < i2 < nn && teams.contains(i2) && teams.contains(j2) && #[trigger] game_node(nn, i2, j2) == t;
            lemma_game_node(nn, i2, j2, i2, j2);
        }
    }
    assert forall|e: int|
        0 <= e < edges.len() && cut.contains(edges[e].node1 as int) && !cut.contains(edges[e].node2 as int)
            implies #[trigger] edges[e].capacity is Finite by {
        if edges[e].capacity is Infinity {
            assert(game_edge(nn, edges[e].node1 as int, edges[e].node2 as int));
            let (i, j) = choose|i: int, j: int|
                1 <= j < i < nn && #[trigger] game_node(nn, i, j) == edges[e].node1 as int && (edges[e].node2 == i - 1 || edges[e].node2 == j - 1);
            assert(teams.contains(i) && teams.contains(j));
        }
    }
    assert forall|i: int| 0 <= i < nn implies #[trigger] team_cut(score, max_wins, games, nn, cut)(i) == room_row(
        score,
        max_wins,
        teams,
    )(i) + row_total(games)(i) - inside_row(games, teams)(i) by {
        lemma_team_cut_row(score, max_wins, games, nn, cut, teams, i);
    }
    lemma_total_combine(team_cut(score, max_wins, games, nn, cut), room_row(score, max_wins, teams), row_total(games), inside_row(games, teams), nn);
}

/// With no other team past what team 0 can reach, all the games can be
/// played out exactly when team 0 can still come first.
proof fn lemma_flow_decides(
    edges: Seq<Edge>,
    score: Seq<u64>,
    coming: Seq<u64>,
    games: Seq<Vec<u64>>,
    nn: int,
    s: int,
    t: int,
    flow: int,
)
    requires
        nn >= 1,
        score.len() == nn,
        coming.len() == nn,
        games.len() == nn,
        forall|i2: int| 0 <= i2 < nn ==> (#[trigger] games[i2])@.len() == nn,
        forall|i2: int| 1 <= i2 < nn ==> #[trigger] score[i2] <= score[0] + coming[0],
        s == pairs_below(nn - 1) + 2 * (nn - 1),
        t == s + 1,
        is_max_flow_value(edges, s, t, flow),
        forall|e: int| 0 <= e < edges.len() && (#[trigger] edges[e]).node1 == s ==> edges[e].capacity is Finite,
        forall|e: int|
            0 <= e < edges.len() && (#[trigger] edges[e]).capacity is Infinity ==> game_edge(
                nn,
                edges[e].node1 as int,
                edges[e].node2 as int,
            ),
        forall|i2: int, j2: int|
            1 <= j2 < i2 < nn ==> has_unbounded(edges, #[trigger] game_node(nn, i2, j2), i2 - 1) && has_unbounded(
                edges,
                game_node(nn, i2, j2),
                j2 - 1,
            ),
        forall|c: Set<int>|
            separates(c, s, t) ==> #[trigger] cut_value(edges, c) == total(
                team_cut(score, score[0] + coming[0], games, nn, c),
                nn,
            ),
    ensures
        (flow == games_upto(games, nn)) == can_win(score, coming, games, nn),
{
    let mw = score[0] + coming[0];
    lemma_source_cut(edges, score, mw, games, nn, s, t);
    assert(flow <= cut_value(edges, set![s]));
    if can_win(score, coming, games, nn) {
        let c = choose|c: Set<int>| separates(c, s, t) && cut_finite(edges, c) && cut_value(edges, c) == flow;
        lemma_cut_lower(edges, score, mw, games, nn, s, t, c);
        let teams = Set::new(|i: int| 1 <= i < nn && c.contains(i - 1));
        assert(games_inside(games, nn, teams) <= room_inside(score, mw, nn, teams));
    } else {
        let teams = choose|teams: Set<int>| !(#[trigger] games_inside(games, nn, teams) <= room_inside(score, mw, nn, teams));
        lemma_cut_upper(edges, score, mw, games, nn, s, t, teams);
        assert(flow <= cut_value(edges, cut_for(nn, s, teams)));
    }
}

/// An edge of unbounded capacity stays when edges are added after it.
proof fn lemma_unbounded_kept(before: Seq<Edge>, after: Seq<Edge>, u: int, v: int)
    requires
        has_unbounded(before, u, v),
        before.len() <= after.len(),
        forall|e: int| 0 <= e < before.len() ==> after[e] == before[e],
    ensures
        has_unbounded(after, u, v),
{
    let e = choose|e: int| 0 <= e < before.len() && #[trigger] before[e].node1 == u && before[e].node2 == v && before[e].capacity is Infinity;
    assert(after[e] == before[e]);
}

/// Adding the three edges of the game between `i` and `j`: the source's edge
/// to the game, of the games still to play, and the game's two unbounded
/// edges to the teams.
proof fn lemma_h_pair_step(
    b0: Seq<Edge>,
    b1: Seq<Edge>,
    b2: Seq<Edge>,
    b3: Seq<Edge>,
    games: Seq<Vec<u64>>,
    nn: int,
    i: int,
    j: int,
    s: int,
    t: int,
)
    requires
        1 <= j < i < nn,
        games.len() == nn,
        games[i]@.len() == nn,
        s == pairs_below(nn - 1) + 2 * (nn - 1),
        t == s + 1,
        0 <= s,
        b1 == b0.push(Edge { node1: game_node(nn, i, j) as usize, node2: s as usize, capacity: Capacity::Finite(0), is_real: false }).push(
            Edge { node1: s as usize, node2: game_node(nn, i, j) as usize, capacity: Capacity::Finite(games[i]@[j]), is_real: true },
        ),
        b2 == b1.push(Edge { node1: (i - 1) as usize, node2: game_node(nn, i, j) as usize, capacity: Capacity::Finite(0), is_real: false }).push(
            Edge { node1: game_node(nn, i, j) as usize, node2: (i - 1) as usize, capacity: Capacity::Infinity, is_real: true },
        ),
        b3 == b2.push(Edge { node1: (j - 1) as usize, node2: game_node(nn, i, j) as usize, capacity: Capacity::Finite(0), is_real: false }).push(
            Edge { node1: game_node(nn, i, j) as usize, node2: (j - 1) as usize, capacity: Capacity::Infinity, is_real: true },
        ),
        game_node(nn, i, j) <= usize::MAX,
        s <= usize::MAX,
    ensures
        b3.len() == b0.len() + 6,
        forall|e: int| 0 <= e < b0.len() ==> b3[e] == b0[e],
        forall|e: int|
            b0.len() <= e < b3.len() && (#[trigger] b3[e]).capacity is Infinity ==> game_edge(nn, b3[e].node1 as int, b3[e].node2 as int),
        forall|e: int| b0.len() <= e < b3.len() && (#[trigger] b3[e]).node1 == s ==> b3[e].capacity is Finite,
        has_unbounded(b3, game_node(nn, i, j), i - 1),
        has_unbounded(b3, game_node(nn, i, j), j - 1),
        forall|cut: Set<int>|
            separates(cut, s, t) ==> #[trigger] cut_value(b3, cut) == cut_value(b0, cut) + game_cut(games, nn, cut, i)(j),
{
    let g = game_node(nn, i, j);
    lemma_game_node(nn, i, j, i, j);
    let n0 = b0.len() as int;
    assert(b3[n0 + 3] == b2[n0 + 3]);
    assert(b3[n0 + 5].node1 == g);
    assert(has_unbounded(b3, g, j - 1));
    assert(b3[n0 + 3].node1 == g);
    assert(has_unbounded(b3, g, i - 1));
    assert forall|e: int|
        n0 <= e < b3.len() && (#[trigger] b3[e]).capacity is Infinity implies game_edge(nn, b3[e].node1 as int, b3[e].node2 as int) by {
        assert(game_node(nn, i, j) == g);
    }
    assert forall|cut: Set<int>| separates(cut, s, t) implies #[trigger] cut_value(b3, cut) == cut_value(b0, cut) + game_cut(
        games,
        nn,
        cut,
        i,
    )(j) by {
        lemma_cut_value_push2(b0, cut, b1[n0], b1[n0 + 1]);
        lemma_cut_value_push2(b1, cut, b2[n0 + 2], b2[n0 + 3]);
        lemma_cut_value_push2(b2, cut, b3[n0 + 4], b3[n0 + 5]);
    }
}

/// An entry whose multiple by `d` fits lies below the limit `u64::MAX / d`.
proof fn lemma_below_lim(e: int, d: int)
    requires
        d > 0,
        0 <= e,
        e * d <= u64::MAX,
    ensures
        e <= u64::MAX as int / d,
        (u64::MAX as int / d) * d <= u64::MAX,
        u64::MAX as int / d >= 0,
{
    assert(e <= u64::MAX as int / d) by (nonlinear_arith)
        requires
            d > 0,
            0 <= e,
            e * d <= u64::MAX,
    ;
    assert((u64::MAX as int / d) * d <= u64::MAX) by (nonlinear_arith)
        requires
            d > 0,
    ;
}

/// There is room for more edges.
proof fn lemma_edge_room(nn: int, adds: int)
    requires
        nn >= 1,
        adds <= nn + 3 * (nn * nn),
    ensures
        2 * adds + 4 <= 8 * (nn * nn) + 8,
{
    assert(2 * adds + 4 <= 8 * (nn * nn) + 8) by (nonlinear_arith)
        requires
            nn >= 1,
            adds <= nn + 3 * (nn * nn),
    ;
}

/// Edges added so far stay below the count for all teams.
proof fn lemma_adds_bound(i: int, nn: int, adds: int)
    requires
        1 <= i <= nn,
        adds <= i + 3 * pairs_below(i),
        pairs_below(nn) <= nn * nn,
    ensures
        adds <= nn + 3 * (nn * nn),
{
    lemma_pairs_mono(i, nn);
}

proof fn lemma_total_bound(lim: int, k: int, nn: int, d: int)
    requires
        0 <= k <= nn * nn,
        d == 8 * (nn * nn) + 64,
        lim * d <= u64::MAX,
        lim >= 0,
    ensures
        lim * k <= u64::MAX,
{
    assert(lim * k <= lim * d) by (nonlinear_arith)
        requires
            0 <= k <= d,
            lim >= 0,
    ;
}

proof fn lemma_finite_total_fits(lim: int, adds: int, nn: int, d: int, ft: int)
    requires
        nn >= 1,
        0 <= adds <= nn + 3 * (nn * nn),
        d == 8 * (nn * nn) + 64,
        lim * d <= u64::MAX,
        lim >= 0,
        0 <= ft <= 2 * lim * adds,
    ensures
        ft <= u64::MAX,
{
    assert(2 * lim * adds <= lim * d) by (nonlinear_arith)
        requires
            nn >= 1,
            0 <= adds <= nn + 3 * (nn * nn),
            d == 8 * (nn * nn) + 64,
            lim >= 0,
    ;
}

} // verus!
