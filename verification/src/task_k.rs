use vstd::prelude::*;
use crate::capacity::Capacity;
use crate::graph::{partners_idle, lemma_flow_fits, Graph, finite_total, lemma_no_unbounded_reach, cut_value, cut_finite, separates, residual_side, lemma_cut_value_push2};
use crate::grid::{lemma_mul_le, total, lemma_total_zero, lemma_total_combine, lemma_total_congruent, lemma_total_point};

verus! {

/// Every pair joins two different nodes among `1..=n`.
pub open spec fn pairs_ok(n: int, pairs: Seq<[usize; 2]>) -> bool {
    forall|k: int|
        0 <= k < pairs.len() ==> {
            &&& 1 <= (#[trigger] pairs[k])[0] <= n
            &&& 1 <= pairs[k][1] <= n
            &&& pairs[k][0] != pairs[k][1]
        }
}

/// The number of pairs among the first `k` with both ends in `nodes`.
pub open spec fn inner_count(pairs: Seq<[usize; 2]>, nodes: Set<int>, k: int) -> int
    decreases k,
{
    if k <= 0 {
        0
    } else {
        inner_count(pairs, nodes, k - 1) + if nodes.contains(pairs[k - 1][0] as int) && nodes.contains(
            pairs[k - 1][1] as int,
        ) {
            1int
        } else {
            0int
        }
    }
}

/// The number of pairs among the first `k` with exactly one end in `nodes`.
pub open spec fn cross_count(pairs: Seq<[usize; 2]>, nodes: Set<int>, k: int) -> int
    decreases k,
{
    if k <= 0 {
        0
    } else {
        cross_count(pairs, nodes, k - 1) + if nodes.contains(pairs[k - 1][0] as int) != nodes.contains(
            pairs[k - 1][1] as int,
        ) {
            1int
        } else {
            0int
        }
    }
}

/// One for a node of `nodes` among `1..`, zero otherwise.
pub open spec fn member(nodes: Set<int>) -> spec_fn(int) -> int {
    |v: int| if 1 <= v && nodes.contains(v) { 1int } else { 0int }
}

/// The nodes marked in `marks`.
pub open spec fn marked(marks: Seq<bool>) -> Set<int> {
    Set::new(|v: int| 0 <= v < marks.len() && marks[v])
}

/// The number of nodes of `nodes` among `1..=n`.
pub open spec fn size_within(nodes: Set<int>, n: int) -> int {
    total(member(nodes), n + 1)
}

/// The nodes listed in `list`.
pub open spec fn nodes_of(list: Seq<usize>) -> Set<int> {
    Set::new(|v: int| exists|k: int| 0 <= k < list.len() && list[k] as int == v)
}

/// The number of the first `k` pairs that touch `v`, counting a pair once
/// for each end.
pub open spec fn degree(pairs: Seq<[usize; 2]>, v: int, k: int) -> int
    decreases k,
{
    if k <= 0 {
        0
    } else {
        degree(pairs, v, k - 1) + (if pairs[k - 1][0] as int == v { 1int } else { 0int }) + (if pairs[k - 1][1] as int
            == v {
            1int
        } else {
            0int
        })
    }
}

/// The degree of each node of `nodes` among `1..`, zero for the others.
spec fn member_degree(pairs: Seq<[usize; 2]>, nodes: Set<int>, k: int) -> spec_fn(int) -> int {
    |v: int| if 1 <= v && nodes.contains(v) { degree(pairs, v, k) } else { 0int }
}

/// The degrees of the nodes of `nodes` add up to twice their inner pairs
/// plus the pairs that leave them.
proof fn lemma_degree_sum(pairs: Seq<[usize; 2]>, nodes: Set<int>, n: int, k: int)
    requires
        pairs_ok(n, pairs),
        0 <= k <= pairs.len(),
    ensures
        total(member_degree(pairs, nodes, k), n + 1) == 2 * inner_count(pairs, nodes, k) + cross_count(pairs, nodes, k),
    decreases k,
{
    if k == 0 {
        lemma_total_zero(member_degree(pairs, nodes, 0), n + 1);
    } else {
        lemma_degree_sum(pairs, nodes, n, k - 1);
        let u = pairs[k - 1][0] as int;
        let w = pairs[k - 1][1] as int;
        let cu: int = if nodes.contains(u) { 1 } else { 0 };
        let cw: int = if nodes.contains(w) { 1 } else { 0 };
        let a = |v: int| if v == u { cu } else { 0int };
        let b = |v: int| if v == w { cw } else { 0int };
        let before = member_degree(pairs, nodes, k - 1);
        let after = member_degree(pairs, nodes, k);
        let ab = |v: int| a(v) + b(v);
        let zero = |v: int| 0int;
        assert forall|v: int| 0 <= v < n + 1 implies #[trigger] after(v) == before(v) + ab(v) - zero(v) by {}
        lemma_total_combine(after, before, ab, zero, n + 1);
        lemma_total_zero(zero, n + 1);
        assert forall|v: int| 0 <= v < n + 1 implies #[trigger] ab(v) == a(v) + b(v) - zero(v) by {}
        lemma_total_combine(ab, a, b, zero, n + 1);
        lemma_total_point(cu, u, n + 1);
        lemma_total_point(cw, w, n + 1);
    }
}

/// A sum of `c` times the terms is `c` times the sum.
proof fn lemma_total_scale(f: spec_fn(int) -> int, g: spec_fn(int) -> int, c: int, upto: int)
    requires
        forall|v: int| 0 <= v < upto ==> #[trigger] g(v) == c * f(v),
    ensures
        total(g, upto) == c * total(f, upto),
    decreases upto,
{
    if upto > 0 {
        lemma_total_scale(f, g, c, upto - 1);
        assert(c * total(f, upto - 1) + c * f(upto - 1) == c * (total(f, upto - 1) + f(upto - 1))) by (nonlinear_arith);
    }
}

/// Sets that agree on the nodes `1..=n` have the same inner pairs and size.
proof fn lemma_agree_within(pairs: Seq<[usize; 2]>, a: Set<int>, b: Set<int>, n: int, k: int)
    requires
        pairs_ok(n, pairs),
        0 <= k <= pairs.len(),
        forall|v: int| 1 <= v <= n ==> (#[trigger] a.contains(v) <==> b.contains(v)),
    ensures
        inner_count(pairs, a, k) == inner_count(pairs, b, k),
        cross_count(pairs, a, k) == cross_count(pairs, b, k),
        size_within(a, n) == size_within(b, n),
    decreases k,
{
    if k > 0 {
        lemma_agree_within(pairs, a, b, n, k - 1);
        assert(a.contains(pairs[k - 1][0] as int) == b.contains(pairs[k - 1][0] as int));
        assert(a.contains(pairs[k - 1][1] as int) == b.contains(pairs[k - 1][1] as int));
    } else {
        assert forall|v: int| 0 <= v < n + 1 implies #[trigger] member(a)(v) == member(b)(v) by {
            if 1 <= v {
                assert(a.contains(v) == b.contains(v));
            }
        }
        lemma_total_congruent(member(a), member(b), n + 1);
    }
}

/// At most all the pairs lie inside a set.
proof fn lemma_inner_le(pairs: Seq<[usize; 2]>, nodes: Set<int>, k: int)
    requires
        0 <= k <= pairs.len(),
    ensures
        0 <= inner_count(pairs, nodes, k) <= k,
        0 <= cross_count(pairs, nodes, k) <= k,
    decreases k,
{
    if k > 0 {
        lemma_inner_le(pairs, nodes, k - 1);
    }
}

/// A set holds at most `n` nodes among `1..=n`, and none if it holds none
/// of them.
proof fn lemma_size_within(nodes: Set<int>, n: int, k: int)
    requires
        0 <= k <= n + 1,
    ensures
        0 <= total(member(nodes), k) <= k,
        k >= 1 ==> total(member(nodes), k) <= k - 1,
        total(member(nodes), k) == 0 ==> forall|v: int| 1 <= v < k ==> !#[trigger] nodes.contains(v),
    decreases k,
{
    if k > 0 {
        lemma_size_within(nodes, n, k - 1);
        if k == 1 {
            reveal_with_fuel(total, 2);
        }
    }
}

/// What the network for a density guess `p / q` needs of its sizes.
pub open spec fn network_fits(n: int, m: int) -> bool {
    &&& 1 <= n
    &&& 4 * n + 2 * m + 16 < usize::MAX
    &&& (2 * n + 2 * m) * (n * m + 2 * m) <= u64::MAX
    &&& n * m * n <= u64::MAX
}

/// The products that the search computes fit in a `u64`.
proof fn lemma_fits(n: int, m: int)
    requires
        network_fits(n, m),
        0 <= m,
    ensures
        n * m + 2 * m <= u64::MAX,
        (m + 1) * n + 1 <= u64::MAX,
        0 <= n * m <= n * m * n,
{
    assert(n * m + 2 * m <= (2 * n + 2 * m) * (n * m + 2 * m)) by (nonlinear_arith)
        requires
            n >= 1,
            m >= 0,
    ;
    assert(n * m <= n * m * n) by (nonlinear_arith)
        requires
            n >= 1,
            m >= 0,
    ;
    if m >= 1 {
        assert((m + 1) * n + 1 <= (2 * n + 2 * m) * (n * m + 2 * m)) by (nonlinear_arith)
            requires
                n >= 1,
                m >= 1,
        ;    } else {
        assert((m + 1) * n == n) by (nonlinear_arith)
            requires
                m == 0,
        ;
    }
    assert(usize::MAX <= u64::MAX);
    assert((m + 1) * n == n * m + n) by (nonlinear_arith);
}

/// The number of pairs that touch each node, indexed from zero to `n`.
fn degrees(n: usize, pairs: &[[usize; 2]]) -> (deg: Vec<u64>)
    requires
        pairs_ok(n as int, pairs@),
        network_fits(n as int, pairs@.len() as int),
    ensures
        deg@.len() == n + 1,
        forall|v: int| 0 <= v <= n ==> #[trigger] deg@[v] <= pairs@.len(),
        forall|v: int| 0 <= v <= n ==> #[trigger] deg@[v] == degree(pairs@, v, pairs@.len() as int),
{
    let mut deg: Vec<u64> = vec![0; n + 1];
    let mut k: usize = 0;
    while k < pairs.len()
        invariant
            k <= pairs@.len(),
            deg@.len() == n + 1,
            pairs_ok(n as int, pairs@),
            network_fits(n as int, pairs@.len() as int),
            forall|v: int| 0 <= v <= n ==> #[trigger] deg@[v] <= k,
            forall|v: int| 0 <= v <= n ==> #[trigger] deg@[v] == degree(pairs@, v, k as int),
        decreases pairs@.len() - k,
    {
        let u = pairs[k][0];
        let w = pairs[k][1];
        deg.set(u, deg[u] + 1);
        deg.set(w, deg[w] + 1);
        k += 1;
    }
    deg
}

/// Each capacity of the network is at most `n * m + 2 * m`.
proof fn lemma_caps(n: int, m: int, q: int, p: int, d: int)
    requires
        0 <= q <= n,
        0 <= p <= m,
        0 <= d <= m,
    ensures
        0 <= q * d <= q * m,
        q * m <= n * m,
        q * m - q * d + 2 * p <= n * m + 2 * m,
{
    lemma_mul_le(q, q, d, m);
    lemma_mul_le(q, n, m, m);
}

/// One more edge adds at most `big` to a total bounded by `added * big`.
proof fn lemma_one_more(added: int, big: int, c: int)
    requires
        0 <= c <= big,
    ensures
        (added + 1) * big == added * big + big,
        (added + 2) * big == added * big + 2 * big,
{
    assert((added + 1) * big == added * big + big) by (nonlinear_arith);
    assert((added + 2) * big == added * big + 2 * big) by (nonlinear_arith);
}

/// What the edges of node `v` carry out of a cut `S` that holds the source
/// and not the sink: the source's edge to `v` when `v` is outside, `v`'s
/// edge to the sink when it is inside.
spec fn node_weight(q: int, m: int, p: int, deg: Seq<u64>, cut: Set<int>) -> spec_fn(int) -> int {
    |v: int|
        if 1 <= v {
            if cut.contains(v) {
                q * m - q * deg[v] + 2 * p
            } else {
                q * m
            }
        } else {
            0int
        }
}

/// The capacity of a cut of the network for the guess `p / q` that holds the
/// source and the nodes of `cut`.
pub open spec fn density_cut_value(q: int, m: int, p: int, n: int, pairs: Seq<[usize; 2]>, cut: Set<int>) -> int {
    q * m * n + 2 * p * size_within(cut, n) - 2 * q * inner_count(pairs, cut, pairs.len() as int)
}

/// The sum of ones over `1..upto`.
proof fn lemma_total_ones(upto: int)
    requires
        upto >= 1,
    ensures
        total(|v: int| if 1 <= v { 1int } else { 0int }, upto) == upto - 1,
    decreases upto,
{
    if upto > 1 {
        lemma_total_ones(upto - 1);
    } else {
        reveal_with_fuel(total, 2);
    }
}

/// The nodes' edges and the pairs' edges add up to the capacity formula.
proof fn lemma_cut_formula(q: int, m: int, p: int, n: int, pairs: Seq<[usize; 2]>, deg: Seq<u64>, cut: Set<int>)
    requires
        pairs_ok(n, pairs),
        pairs.len() == m,
        n >= 1,
        deg.len() == n + 1,
        forall|v: int| 0 <= v <= n ==> #[trigger] deg[v] == degree(pairs, v, m),
    ensures
        total(node_weight(q, m, p, deg, cut), n + 1) + q * cross_count(pairs, cut, m) == density_cut_value(
            q,
            m,
            p,
            n,
            pairs,
            cut,
        ),
{
    let one = |v: int| if 1 <= v { 1int } else { 0int };
    let a = |v: int| (q * m) * one(v);
    let b = |v: int| (2 * p) * member(cut)(v);
    let md = member_degree(pairs, cut, m);
    let c = |v: int| q * md(v);
    let nw = node_weight(q, m, p, deg, cut);
    assert forall|v: int| 0 <= v < n + 1 implies #[trigger] nw(v) == a(v) + b(v) - c(v) by {
        if 1 <= v {
            assert(deg[v] == degree(pairs, v, m));
            assert(one(v) == 1);
            assert(a(v) == q * m);
            if cut.contains(v) {
                assert(member(cut)(v) == 1);
                assert(b(v) == 2 * p);
                assert(md(v) == degree(pairs, v, m));
                assert(c(v) == q * deg[v]);
            } else {
                assert(member(cut)(v) == 0);
                assert(b(v) == 0);
                assert(md(v) == 0);
                assert(c(v) == 0);
            }
        } else {
            assert(one(v) == 0);
            assert(member(cut)(v) == 0);
            assert(md(v) == 0);
            assert(a(v) == 0 && b(v) == 0 && c(v) == 0);
        }
    }
    lemma_total_combine(nw, a, b, c, n + 1);
    lemma_total_scale(one, a, q * m, n + 1);
    lemma_total_ones(n + 1);
    lemma_total_scale(member(cut), b, 2 * p, n + 1);
    lemma_total_scale(md, c, q, n + 1);
    lemma_degree_sum(pairs, cut, n, m);
    let i = inner_count(pairs, cut, m);
    let x = cross_count(pairs, cut, m);
    assert(q * (2 * i + x) == 2 * q * i + q * x) by (nonlinear_arith);
    assert((q * m) * n == q * m * n) by (nonlinear_arith);
}

/// The network that tells whether some set of nodes is denser than `p / q`:
/// the source feeds each node with `q * m`, each node `v` feeds the sink
/// with `q * m + 2 * p - q * deg[v]`, and each pair is joined both ways with
/// `q`. Returns the maximum flow and the nodes left on the source side of a
/// minimum cut.
fn density_cut(n: usize, pairs: &[[usize; 2]], deg: &Vec<u64>, p: u64, q: u64) -> (res: (u64, Vec<bool>))
    requires
        pairs_ok(n as int, pairs@),
        network_fits(n as int, pairs@.len() as int),
        deg@.len() == n + 1,
        forall|v: int| 0 <= v <= n ==> #[trigger] deg@[v] <= pairs@.len(),
        q <= n,
        p <= pairs@.len(),
        forall|v: int| 0 <= v <= n ==> #[trigger] deg@[v] == degree(pairs@, v, pairs@.len() as int),
    ensures
        res.1@.len() == n + 2,
        res.1@[0],
        !res.1@[n + 1],
        forall|cut: Set<int>|
            separates(cut, 0, n + 1) ==> res.0 <= #[trigger] density_cut_value(q as int, pairs@.len() as int, p as int, n as int, pairs@, cut),
        res.0 == density_cut_value(q as int, pairs@.len() as int, p as int, n as int, pairs@, marked(res.1@)),
{
    let m = pairs.len() as u64;
    let ghost big: int = n * m + 2 * m;
    proof {
        lemma_mul_le(0, n as int, 0, m as int);
        lemma_mul_le(q as int, n as int, m as int, m as int);
        lemma_fits(n as int, m as int);
    }
    let mut graph = Graph::new(n + 2);
    let s: usize = 0;
    let t: usize = n + 1;
    let ghost mut added: int = 0;
    let mut v: usize = 1;
    proof {
        reveal_with_fuel(total, 2);
    }
    while v <= n
        invariant
            graph.wf(),
            graph.node_count() == n + 2,
            network_fits(n as int, m as int),
            m == pairs@.len(),
            big == n * m + 2 * m,
            deg@.len() == n + 1,
            forall|v2: int| 0 <= v2 <= n ==> #[trigger] deg@[v2] <= m,
            q <= n,
            p <= m,
            q * m <= n * m,
            n * m + 2 * m <= u64::MAX,
            s == 0,
            t == n + 1,
            1 <= v <= n + 1,
            added == 2 * (v - 1),
            graph.edges().len() == 4 * (v - 1),
            0 <= finite_total(graph.edges()) <= added * big,
            forall|e: int| 0 <= e < graph.edges().len() ==> (#[trigger] graph.edges()[e]).capacity is Finite,
            forall|cut: Set<int>|
                separates(cut, 0, n + 1) ==> #[trigger] cut_value(graph.edges(), cut) == total(
                    node_weight(q as int, m as int, p as int, deg@, cut),
                    v as int,
                ),
        decreases n + 1 - v,
    {
        proof {
            lemma_caps(n as int, m as int, q as int, p as int, deg@[v as int] as int);
            lemma_one_more(added, big, (q * m) as int);
        }
        let feed = q * m;
        let drain = q * m - q * deg[v] + 2 * p;
        let ghost b0 = graph.edges();
        graph.add_edge(s, v, Capacity::Finite(feed));
        let ghost b1 = graph.edges();
        graph.add_edge(v, t, Capacity::Finite(drain));
        proof {
            added = added + 2;
            let b2 = graph.edges();
            let n0 = b0.len() as int;
            assert forall|cut: Set<int>| separates(cut, 0, n + 1) implies #[trigger] cut_value(b2, cut) == total(
                node_weight(q as int, m as int, p as int, deg@, cut),
                v + 1,
            ) by {
                lemma_cut_value_push2(b0, cut, b1[n0], b1[n0 + 1]);
                lemma_cut_value_push2(b1, cut, b2[n0 + 2], b2[n0 + 3]);
            }
        }
        v += 1;
    }
    let mut k: usize = 0;
    while k < pairs.len()
        invariant
            graph.wf(),
            graph.node_count() == n + 2,
            network_fits(n as int, m as int),
            pairs_ok(n as int, pairs@),
            m == pairs@.len(),
            big == n * m + 2 * m,
            q <= n,
            s == 0,
            t == n + 1,
            k <= m,
            added == 2 * n + 2 * k,
            graph.edges().len() == 4 * n + 2 * k,
            0 <= finite_total(graph.edges()) <= added * big,
            forall|e: int| 0 <= e < graph.edges().len() ==> (#[trigger] graph.edges()[e]).capacity is Finite,
            forall|cut: Set<int>|
                separates(cut, 0, n + 1) ==> #[trigger] cut_value(graph.edges(), cut) == total(
                    node_weight(q as int, m as int, p as int, deg@, cut),
                    n + 1,
                ) + q * cross_count(pairs@, cut, k as int),
        decreases m - k,
    {
        proof {
            lemma_mul_le(q as int, n as int, 1, m as int);
            lemma_one_more(added, big, q as int);
        }
        let u = pairs[k][0];
        let w = pairs[k][1];
        let ghost b0 = graph.edges();
        graph.add_biedge(u, w, Capacity::Finite(q));
        proof {
            added = added + 2;
            let b1 = graph.edges();
            let n0 = b0.len() as int;
            assert forall|cut: Set<int>| separates(cut, 0, n + 1) implies #[trigger] cut_value(b1, cut) == total(
                node_weight(q as int, m as int, p as int, deg@, cut),
                n + 1,
            ) + q * cross_count(pairs@, cut, k + 1) by {
                lemma_cut_value_push2(b0, cut, b1[n0], b1[n0 + 1]);
                let x = cross_count(pairs@, cut, k as int);
                let c: int = if cut.contains(u as int) != cut.contains(w as int) { 1 } else { 0 };
                assert(cross_count(pairs@, cut, k + 1) == x + c);
                assert(q * (x + c) == q * x + q * c) by (nonlinear_arith);
            }
        }
        k += 1;
    }
    proof {
        lemma_mul_le(added, 2 * n + 2 * m, big, big);
        lemma_no_unbounded_reach(graph.edges(), s as int, t as int);
    }
    let ghost e0 = graph.edges();
    proof {
        assert forall|cut: Set<int>| separates(cut, 0, n + 1) implies #[trigger] cut_value(e0, cut) == density_cut_value(
            q as int,
            m as int,
            p as int,
            n as int,
            pairs@,
            cut,
        ) && cut_finite(e0, cut) by {
            lemma_cut_formula(q as int, m as int, p as int, n as int, pairs@, deg@, cut);
        }
    }
    proof {
        graph.lemma_wf();
        assert(partners_idle(graph.edges())) by {
            reveal(partners_idle);
        }
        lemma_flow_fits(graph.edges());
    }
    let flow = graph.max_flow(s, t).unwrap();
    let reachable = graph.find_reachable_capable(s);
    proof {
        let side = residual_side(graph.edges(), 0);
        assert(cut_value(e0, side) == flow);
        assert(cut_value(e0, side) == density_cut_value(q as int, m as int, p as int, n as int, pairs@, side));
        assert forall|v: int| 1 <= v <= n implies (#[trigger] side.contains(v) <==> marked(reachable@).contains(v)) by {}
        lemma_agree_within(pairs@, side, marked(reachable@), n as int, m as int);
        assert(reachable@[0] == side.contains(0));
        assert(reachable@[n + 1] == side.contains(n + 1));
        assert forall|cut: Set<int>| separates(cut, 0, n + 1) implies flow <= #[trigger] density_cut_value(
            q as int,
            m as int,
            p as int,
            n as int,
            pairs@,
            cut,
        ) by {
            assert(cut_value(e0, cut) == density_cut_value(q as int, m as int, p as int, n as int, pairs@, cut));
        }
    }
    (flow, reachable)
}

/// No pair lies inside a set of one node, nor inside an empty set.
proof fn lemma_inner_small(pairs: Seq<[usize; 2]>, n: int, nodes: Set<int>, k: int)
    requires
        pairs_ok(n, pairs),
        0 <= k <= pairs.len(),
        forall|v: int, w: int| 1 <= v <= n && 1 <= w <= n && nodes.contains(v) && nodes.contains(w) ==> v == w,
    ensures
        inner_count(pairs, nodes, k) == 0,
    decreases k,
{
    if k > 0 {
        lemma_inner_small(pairs, n, nodes, k - 1);
        assert(pairs[k - 1][0] != pairs[k - 1][1]);
    }
}

/// A denser guess raises `n * n * p / q` by at least one, and it stays at
/// most `m * n * n`.
proof fn lemma_density_rises(n: int, m: int, p: int, q: int, p2: int, q2: int)
    requires
        1 <= q <= n,
        1 <= q2 <= n,
        0 <= p,
        0 <= p2 <= m,
        p2 * q > p * q2,
    ensures
        (n * n * p2) / q2 >= (n * n * p) / q + 1,
        (n * n * p2) / q2 <= m * n * n,
{
    let a = n * n * p;
    let b = n * n * p2;
    let x = a / q + 1;
    assert(a >= 0 && b >= 0) by (nonlinear_arith)
        requires
            a == n * n * p,
            b == n * n * p2,
            n >= 1,
            p >= 0,
            p2 >= 0,
    ;
    assert((a / q) * q <= a) by (nonlinear_arith)
        requires
            q >= 1,
            a >= 0,
    ;
    assert(x * q <= a + q) by (nonlinear_arith)
        requires
            x == a / q + 1,
            (a / q) * q <= a,
    ;
    assert(b * q - a * q2 >= n * n) by (nonlinear_arith)
        requires
            b == n * n * p2,
            a == n * n * p,
            p2 * q >= p * q2 + 1,
            n >= 1,
    ;
    assert(q * q2 <= n * n) by (nonlinear_arith)
        requires
            1 <= q <= n,
            1 <= q2 <= n,
    ;
    assert(x * q * q2 <= b * q) by (nonlinear_arith)
        requires
            x * q <= a + q,
            b * q - a * q2 >= n * n,
            q * q2 <= n * n,
            q2 >= 1,
    ;
    assert(x * q2 <= b) by (nonlinear_arith)
        requires
            x * q * q2 <= b * q,
            q >= 1,
    ;
    assert(x <= b / q2) by (nonlinear_arith)
        requires
            x * q2 <= b,
            q2 >= 1,
    ;
    assert(b / q2 <= b) by (nonlinear_arith)
        requires
            b >= 0,
            q2 >= 1,
    ;
    assert(b <= m * n * n) by (nonlinear_arith)
        requires
            b == n * n * p2,
            p2 <= m,
            n >= 1,
    ;
}

/// The guess `n * n * p / q` is at most `m * n * n`.
proof fn lemma_density_bound(n: int, m: int, p: int, q: int)
    requires
        1 <= q,
        1 <= n,
        0 <= p <= m,
    ensures
        0 <= (n * n * p) / q <= m * n * n,
{
    assert(0 <= n * n * p <= m * n * n) by (nonlinear_arith)
        requires
            0 <= p <= m,
            n >= 1,
    ;
    assert((n * n * p) / q <= n * n * p) by (nonlinear_arith)
        requires
            n * n * p >= 0,
            q >= 1,
    ;
    assert(0 <= (n * n * p) / q) by (nonlinear_arith)
        requires
            n * n * p >= 0,
            q >= 1,
    ;
}

/// A densest set of nodes of the graph on nodes `1..=n` with the given
/// pairs as edges: one whose number of inner pairs divided by its size is
/// largest, so that no set of nodes has more inner pairs per node. Found by
/// raising a guess of the density `p / q`, starting from zero, to the
/// density of the source side of a minimum cut of the network for the
/// guess, until no set beats the guess. Returns the nodes of the set in
/// increasing order.
pub fn solve(n: usize, pairs: &[[usize; 2]]) -> (answer: Vec<usize>)
    requires
        pairs_ok(n as int, pairs@),
        network_fits(n as int, pairs@.len() as int),
    ensures
        answer@.len() >= 1,
        forall|k: int| 0 <= k < answer@.len() ==> 1 <= #[trigger] answer@[k] <= n,
        forall|a: int, b: int| 0 <= a < b < answer@.len() ==> answer@[a] < answer@[b],
        answer@.len() == size_within(nodes_of(answer@), n as int),
        forall|nodes: Set<int>|
            #[trigger] inner_count(pairs@, nodes, pairs@.len() as int) * answer@.len() <= inner_count(
                pairs@,
                nodes_of(answer@),
                pairs@.len() as int,
            ) * size_within(nodes, n as int),
{
    let m = pairs.len() as u64;
    let ghost mm = m as int;
    let ghost nn = n as int;
    let deg = degrees(n, pairs);
    let mut best: Vec<usize> = vec![1];
    let mut p: u64 = 0;
    let mut q: u64 = 1;
    proof {
        lemma_fits(nn, mm);
        let one = nodes_of(best@);
        assert(best@[0] == 1);
        assert forall|v: int| 0 <= v < nn + 1 implies #[trigger] member(one)(v) == (|u: int| if u == 1 { 1int } else { 0int })(v) by {
            if v == 1 {
                assert(one.contains(1));
            }
        }
        lemma_total_congruent(member(one), |u: int| if u == 1 { 1int } else { 0int }, nn + 1);
        lemma_total_point(1, 1, nn + 1);
        lemma_inner_small(pairs@, nn, one, mm);
        lemma_density_bound(nn, mm, 0, 1);
    }
    loop
        invariant
            pairs_ok(nn, pairs@),
            network_fits(nn, mm),
            mm == m,
            m == pairs@.len(),
            nn == n,
            deg@.len() == n + 1,
            forall|v: int| 0 <= v <= n ==> #[trigger] deg@[v] <= m,
            forall|v: int| 0 <= v <= n ==> #[trigger] deg@[v] == degree(pairs@, v, mm),
            1 <= q <= n,
            p <= m,
            best@.len() == q,
            forall|k: int| 0 <= k < best@.len() ==> 1 <= #[trigger] best@[k] <= n,
            forall|a: int, b: int| 0 <= a < b < best@.len() ==> best@[a] < best@[b],
            p == inner_count(pairs@, nodes_of(best@), mm),
            q == size_within(nodes_of(best@), nn),
            0 <= (nn * nn * p) / (q as int) <= mm * nn * nn,
        ensures
            forall|nodes: Set<int>|
                #[trigger] inner_count(pairs@, nodes, mm) * q <= p * size_within(nodes, nn),
        decreases mm * nn * nn - (nn * nn * p) / (q as int),
    {
        let (flow, reachable) = density_cut(n, pairs, &deg, p, q);
        proof {
            lemma_fits(nn, mm);
            lemma_mul_le(q as int, nn, mm, mm);
            lemma_mul_le(q * mm, nn * mm, nn, nn);
        }
        if flow >= q * m * (n as u64) {
            proof {
                assert forall|nodes: Set<int>| #[trigger] inner_count(pairs@, nodes, mm) * q <= p * size_within(nodes, nn) by {
                    let cut = nodes.insert(0).remove(nn + 1);
                    assert forall|v: int| 1 <= v <= nn implies (#[trigger] nodes.contains(v) <==> cut.contains(v)) by {}
                    lemma_agree_within(pairs@, nodes, cut, nn, mm);
                    assert(separates(cut, 0, nn + 1));
                    let i = inner_count(pairs@, nodes, mm);
                    let z = size_within(nodes, nn);
                    assert(flow <= density_cut_value(q as int, mm, p as int, nn, pairs@, cut));
                    assert(flow <= q * mm * nn + 2 * p * z - 2 * q * i);
                    assert(i * q <= p * z) by (nonlinear_arith)
                        requires
                            flow >= q * mm * nn,
                            flow <= q * mm * nn + 2 * p * z - 2 * q * i,
                    ;
                }
            }
            break;
        }
        let ghost side = marked(reachable@);
        let mut chosen: Vec<usize> = Vec::new();
        let mut v: usize = 1;
        proof {
            reveal_with_fuel(total, 2);
        }
        while v <= n
            invariant
                reachable@.len() == n + 2,
                side == marked(reachable@),
                network_fits(nn, mm),
                nn == n,
                mm == m,
                1 <= v <= n + 1,
                chosen@.len() == total(member(side), v as int),
                forall|k: int| 0 <= k < chosen@.len() ==> 1 <= #[trigger] chosen@[k] < v,
                forall|a: int, b: int| 0 <= a < b < chosen@.len() ==> chosen@[a] < chosen@[b],
                forall|u: int| #[trigger] nodes_of(chosen@).contains(u) <==> (1 <= u < v && side.contains(u)),
            decreases n + 1 - v,
        {
            proof {
                lemma_size_within(side, nn, v as int);
            }
            if reachable[v] {
                let ghost before = chosen@;
                chosen.push(v);
                proof {
                    assert forall|u: int| #[trigger] nodes_of(chosen@).contains(u) <==> (1 <= u < v + 1 && side.contains(u)) by {
                        if nodes_of(chosen@).contains(u) {
                            let k = choose|k: int| 0 <= k < chosen@.len() && chosen@[k] as int == u;
                            if k < before.len() {
                                assert(nodes_of(before).contains(u));
                            }
                        }
                        if 1 <= u < v + 1 && side.contains(u) {
                            if u < v {
                                assert(nodes_of(before).contains(u));
                                let k = choose|k: int| 0 <= k < before.len() && before[k] as int == u;
                                assert(chosen@[k] == before[k]);
                            } else {
                                assert(chosen@[before.len() as int] as int == u);
                            }
                        }
                    }
                }
            } else {
                proof {
                    assert forall|u: int| #[trigger] nodes_of(chosen@).contains(u) <==> (1 <= u < v + 1 && side.contains(u)) by {}
                }
            }
            v += 1;
        }
        let ghost new_set = nodes_of(chosen@);
        proof {
            lemma_size_within(side, nn, nn + 1);
            assert forall|u: int| 1 <= u <= nn implies (#[trigger] side.contains(u) <==> new_set.contains(u)) by {}
            lemma_agree_within(pairs@, side, new_set, nn, mm);
            let i = inner_count(pairs@, side, mm);
            let z = size_within(side, nn);
            assert(flow == q * mm * nn + 2 * p * z - 2 * q * i);
            assert(q * i > p * z) by (nonlinear_arith)
                requires
                    flow < q * mm * nn,
                    flow == q * mm * nn + 2 * p * z - 2 * q * i,
            ;
            if z == 0 {
                lemma_inner_small(pairs@, nn, side, mm);
                assert(q * i == 0 && p * z == 0) by (nonlinear_arith)
                    requires
                        i == 0,
                        z == 0,
                ;
            }
            lemma_inner_le(pairs@, side, mm);
            assert(chosen@.len() == z);
        }
        let mut inner: u64 = 0;
        let mut k: usize = 0;
        while k < pairs.len()
            invariant
                reachable@.len() == n + 2,
                side == marked(reachable@),
                pairs_ok(nn, pairs@),
                nn == n,
                k <= pairs@.len(),
                inner == inner_count(pairs@, side, k as int),
                inner <= k,
            decreases pairs@.len() - k,
        {
            if reachable[pairs[k][0]] && reachable[pairs[k][1]] {
                inner += 1;
            }
            k += 1;
        }
        proof {
            lemma_density_rises(nn, mm, p as int, q as int, inner as int, chosen@.len() as int);
        }
        p = inner;
        q = chosen.len() as u64;
        best = chosen;
    }
    best
}

} // verus!
