use vstd::prelude::*;
use crate::capacity::{Capacity, cap_add, cap_sub, cap_min, cap_le, cap_add_ok, cap_sub_ok};
use crate::grid::total;

verus! {

/// A directed edge of a flow network with its remaining capacity. Edges are
/// added in pairs: an edge at an odd index is the one that was asked for
/// (`is_real`), the one just before it runs the other way.
#[derive(Debug, Clone, Copy, PartialEq, Eq, Structural)]
pub struct Edge {
    pub node1: usize,
    pub node2: usize,
    pub capacity: Capacity,
    pub is_real: bool,
}

/// The index of the edge paired with edge `i` (`i ^ 1`).
pub open spec fn rev(i: int) -> int {
    if i % 2 == 0 { i + 1 } else { i - 1 }
}

/// The edges form pairs of opposite edges between nodes below `n`.
pub open spec fn edges_wf(edges: Seq<Edge>, n: nat) -> bool {
    &&& edges.len() % 2 == 0
    &&& forall|i: int| 0 <= i < edges.len() ==> {
        &&& (#[trigger] edges[i]).node1 < n
        &&& edges[i].node2 < n
        &&& edges[i].node1 == edges[rev(i)].node2
        &&& edges[i].node2 == edges[rev(i)].node1
        &&& edges[i].is_real == (i % 2 == 1)
    }
}

/// The two sequences of edges differ only in their capacities.
pub open spec fn same_shape(a: Seq<Edge>, b: Seq<Edge>) -> bool {
    &&& a.len() == b.len()
    &&& forall|i: int| 0 <= i < a.len() ==> {
        &&& (#[trigger] a[i]).node1 == b[i].node1
        &&& a[i].node2 == b[i].node2
        &&& a[i].is_real == b[i].is_real
    }
}

/// Capacity left on the edge, in the residual network.
pub open spec fn usable(e: Edge) -> bool {
    e.capacity != Capacity::Finite(0)
}

/// Unbounded capacity on the edge.
pub open spec fn unbounded(e: Edge) -> bool {
    e.capacity == Capacity::Infinity
}

/// `p` lists indices of edges that satisfy `ok` and lead from `s` to `t`
/// one after the other.
pub open spec fn is_walk(edges: Seq<Edge>, p: Seq<int>, s: int, t: int, ok: spec_fn(Edge) -> bool) -> bool {
    &&& (p.len() == 0 ==> s == t)
    &&& (p.len() > 0 ==> edges[p[0]].node1 == s && edges[p[p.len() - 1]].node2 == t)
    &&& forall|k: int| 0 <= k < p.len() ==> 0 <= #[trigger] p[k] < edges.len() && ok(edges[p[k]])
    &&& forall|k: int| 0 <= k < p.len() - 1 ==> edges[#[trigger] p[k]].node2 == edges[p[k + 1]].node1
}

/// `t` can be reached from `s` over edges that satisfy `ok`.
pub open spec fn reachable(edges: Seq<Edge>, s: int, t: int, ok: spec_fn(Edge) -> bool) -> bool {
    exists|p: Seq<int>| is_walk(edges, p, s, t, ok)
}

/// Total of the finite capacities among the first `k` edges.
pub open spec fn finite_total_prefix(edges: Seq<Edge>, k: int) -> int
    decreases k,
{
    if k <= 0 {
        0
    } else {
        finite_total_prefix(edges, k - 1) + match edges[k - 1].capacity {
            Capacity::Finite(c) => c as int,
            Capacity::Infinity => 0,
        }
    }
}

/// Total of the finite capacities of all edges.
pub open spec fn finite_total(edges: Seq<Edge>) -> int {
    finite_total_prefix(edges, edges.len() as int)
}


/// `t` can be reached from `s` over edges that satisfy `ok`, through nodes
/// none of which `marked` holds, `s` and `t` included.
pub open spec fn reachable_avoiding(
    edges: Seq<Edge>,
    s: int,
    t: int,
    ok: spec_fn(Edge) -> bool,
    marked: Seq<bool>,
) -> bool {
    exists|p: Seq<int>|
        {
            &&& is_walk(edges, p, s, t, ok)
            &&& !marked[s]
            &&& forall|k: int| 0 <= k < p.len() ==> !marked[edges[#[trigger] p[k]].node2 as int]
        }
}

/// The number of entries of `marked` that are not set.
pub open spec fn count_unmarked(marked: Seq<bool>) -> nat
    decreases marked.len(),
{
    if marked.len() == 0 {
        0
    } else {
        count_unmarked(marked.drop_last()) + if marked.last() { 0nat } else { 1nat }
    }
}

/// Setting more entries never adds unset ones, and setting a new one removes one.
proof fn lemma_count_unmarked_monotone(a: Seq<bool>, b: Seq<bool>)
    requires
        a.len() == b.len(),
        forall|i: int| 0 <= i < a.len() && #[trigger] a[i] ==> b[i],
    ensures
        count_unmarked(b) <= count_unmarked(a),
        (exists|i: int| 0 <= i < a.len() && !a[i] && b[i]) ==> count_unmarked(b) < count_unmarked(a),
    decreases a.len(),
{
    if a.len() > 0 {
        let a2 = a.drop_last();
        let b2 = b.drop_last();
        assert forall|i: int| 0 <= i < a2.len() && #[trigger] a2[i] implies b2[i] by {
            assert(a[i]);
        }
        lemma_count_unmarked_monotone(a2, b2);
        if exists|i: int| 0 <= i < a.len() && !a[i] && b[i] {
            let i = choose|i: int| 0 <= i < a.len() && !a[i] && b[i];
            if i < a.len() - 1 {
                assert(!a2[i] && b2[i]);
            }
        }
    }
}

/// A walk stays a walk for a weaker condition on its edges.
pub proof fn lemma_walk_weaken(
    edges: Seq<Edge>,
    p: Seq<int>,
    s: int,
    t: int,
    ok1: spec_fn(Edge) -> bool,
    ok2: spec_fn(Edge) -> bool,
)
    requires
        is_walk(edges, p, s, t, ok1),
        forall|e: Edge| #[trigger] ok1(e) ==> ok2(e),
    ensures
        is_walk(edges, p, s, t, ok2),
{
    assert forall|k: int| 0 <= k < p.len() implies 0 <= #[trigger] p[k] < edges.len() && ok2(edges[p[k]]) by {
        assert(ok1(edges[p[k]]));
    }
}

/// An edge from `s` followed by a walk from its end is a walk from `s`.
pub proof fn lemma_walk_prepend(
    edges: Seq<Edge>,
    i: int,
    p: Seq<int>,
    t: int,
    ok: spec_fn(Edge) -> bool,
)
    requires
        0 <= i < edges.len(),
        ok(edges[i]),
        is_walk(edges, p, edges[i].node2 as int, t, ok),
    ensures
        is_walk(edges, seq![i].add(p), edges[i].node1 as int, t, ok),
{
    let q = seq![i].add(p);
    assert forall|k: int| 0 <= k < q.len() implies 0 <= #[trigger] q[k] < edges.len() && ok(edges[q[k]]) by {
        if k > 0 {
            assert(q[k] == p[k - 1]);
        }
    }
    assert forall|k: int| 0 <= k < q.len() - 1 implies edges[#[trigger] q[k]].node2 == edges[q[k + 1]].node1 by {
        if k > 0 {
            assert(q[k] == p[k - 1]);
        }
        assert(q[k + 1] == p[k]);
    }
}

/// A walk followed by one more edge from its end is a walk.
pub proof fn lemma_walk_append(
    edges: Seq<Edge>,
    p: Seq<int>,
    s: int,
    i: int,
    ok: spec_fn(Edge) -> bool,
)
    requires
        0 <= i < edges.len(),
        ok(edges[i]),
        is_walk(edges, p, s, edges[i].node1 as int, ok),
    ensures
        is_walk(edges, p.push(i), s, edges[i].node2 as int, ok),
{
    let q = p.push(i);
    assert forall|k: int| 0 <= k < q.len() implies 0 <= #[trigger] q[k] < edges.len() && ok(edges[q[k]]) by {
        if k < p.len() {
            assert(q[k] == p[k]);
        }
    }
    assert forall|k: int| 0 <= k < q.len() - 1 implies edges[#[trigger] q[k]].node2 == edges[q[k + 1]].node1 by {
        assert(q[k] == p[k]);
        if k + 1 < p.len() {
            assert(q[k + 1] == p[k + 1]);
        }
    }
}

/// A set of nodes that holds `s` and every end of a usable edge that leaves
/// one of its nodes holds every node that a walk from `s` reaches.
pub proof fn lemma_closed_holds_reachable(
    edges: Seq<Edge>,
    p: Seq<int>,
    s: int,
    t: int,
    ok: spec_fn(Edge) -> bool,
    inside: spec_fn(int) -> bool,
)
    requires
        is_walk(edges, p, s, t, ok),
        inside(s),
        forall|i: int| 0 <= i < edges.len() && inside(edges[i].node1 as int) && #[trigger] ok(edges[i]) ==> inside(edges[i].node2 as int),
    ensures
        inside(t),
    decreases p.len(),
{
    if p.len() > 0 {
        let q = p.drop_last();
        let last = p[p.len() - 1];
        let mid = edges[last].node1 as int;
        assert(is_walk(edges, q, s, mid, ok)) by {
            assert forall|k: int| 0 <= k < q.len() implies 0 <= #[trigger] q[k] < edges.len() && ok(edges[q[k]]) by {
                assert(q[k] == p[k]);
            }
            assert forall|k: int| 0 <= k < q.len() - 1 implies edges[#[trigger] q[k]].node2 == edges[q[k + 1]].node1 by {
                assert(q[k] == p[k]);
                assert(q[k + 1] == p[k + 1]);
            }
            if q.len() > 0 {
                assert(q[q.len() - 1] == p[p.len() - 2]);
            }
        }
        lemma_closed_holds_reachable(edges, q, s, mid, ok, inside);
        assert(ok(edges[p[p.len() - 1]]));
    }
}


/// A walk from a newly marked node through nodes that were not marked before
/// ends at a marked node, when every usable edge leaving a newly marked node
/// ends at a marked node.
proof fn lemma_avoiding_walk_marked(
    edges: Seq<Edge>,
    p: Seq<int>,
    s: int,
    t: int,
    ok: spec_fn(Edge) -> bool,
    before: Seq<bool>,
    after: Seq<bool>,
)
    requires
        is_walk(edges, p, s, t, ok),
        after[s],
        !before[s],
        forall|k: int| 0 <= k < p.len() ==> !before[edges[#[trigger] p[k]].node2 as int],
        forall|i: int|
            0 <= i < edges.len() && after[edges[i].node1 as int] && !before[edges[i].node1 as int]
                && #[trigger] ok(edges[i]) ==> after[edges[i].node2 as int],
    ensures
        after[t],
    decreases p.len(),
{
    if p.len() > 0 {
        let q = p.drop_last();
        let last = p[p.len() - 1];
        let mid = edges[last].node1 as int;
        assert(is_walk(edges, q, s, mid, ok)) by {
            assert forall|k: int| 0 <= k < q.len() implies 0 <= #[trigger] q[k] < edges.len() && ok(edges[q[k]]) by {
                assert(q[k] == p[k]);
            }
            assert forall|k: int| 0 <= k < q.len() - 1 implies edges[#[trigger] q[k]].node2 == edges[q[k + 1]].node1 by {
                assert(q[k] == p[k]);
                assert(q[k + 1] == p[k + 1]);
            }
            if q.len() > 0 {
                assert(q[q.len() - 1] == p[p.len() - 2]);
            }
        }
        assert forall|k: int| 0 <= k < q.len() implies !before[edges[#[trigger] q[k]].node2 as int] by {
            assert(q[k] == p[k]);
        }
        lemma_avoiding_walk_marked(edges, q, s, mid, ok, before, after);
        assert(ok(edges[p[p.len() - 1]]));
        if q.len() > 0 {
            assert(q[q.len() - 1] == p[p.len() - 2]);
            assert(!before[edges[p[p.len() - 2]].node2 as int]);
        }
    }
}


/// Nodes newly marked by a search from `w`, the end of an edge from `s`, are
/// reachable from `s` through nodes not marked at first.
proof fn lemma_marks_extend(
    edges: Seq<Edge>,
    ei: int,
    s: int,
    ok: spec_fn(Edge) -> bool,
    start: Seq<bool>,
    before: Seq<bool>,
    after: Seq<bool>,
)
    requires
        0 <= ei < edges.len(),
        edges[ei].node1 == s,
        ok(edges[ei]),
        0 <= s < start.len(),
        forall|i: int| 0 <= i < edges.len() ==> (#[trigger] edges[i]).node2 < start.len(),
        start.len() == before.len(),
        before.len() == after.len(),
        !start[s],
        forall|v: int| 0 <= v < start.len() && #[trigger] start[v] ==> before[v],
        forall|v: int|
            0 <= v < start.len() && #[trigger] before[v] && !start[v] ==> reachable_avoiding(edges, s, v, ok, start),
        forall|v: int|
            0 <= v < start.len() && #[trigger] after[v] && !before[v] ==> reachable_avoiding(
                edges,
                edges[ei].node2 as int,
                v,
                ok,
                before,
            ),
    ensures
        forall|v: int|
            0 <= v < start.len() && #[trigger] after[v] && !start[v] ==> reachable_avoiding(edges, s, v, ok, start),
{
    let w = edges[ei].node2 as int;
    assert forall|v: int| 0 <= v < start.len() && #[trigger] after[v] && !start[v] implies reachable_avoiding(
        edges,
        s,
        v,
        ok,
        start,
    ) by {
        if !before[v] {
            let p = choose|p: Seq<int>|
                {
                    &&& is_walk(edges, p, w, v, ok)
                    &&& !before[w]
                    &&& forall|k2: int| 0 <= k2 < p.len() ==> !before[edges[#[trigger] p[k2]].node2 as int]
                };
            lemma_walk_prepend(edges, ei, p, v, ok);
            let q = seq![ei].add(p);
            assert forall|k2: int| 0 <= k2 < q.len() implies !start[edges[#[trigger] q[k2]].node2 as int] by {
                let x = edges[q[k2]].node2 as int;
                if k2 == 0 {
                    assert(!before[w]);
                    assert(x == w);
                } else {
                    assert(q[k2] == p[k2 - 1]);
                    assert(0 <= p[k2 - 1] < edges.len());
                    assert(!before[edges[p[k2 - 1]].node2 as int]);
                }
                assert(0 <= x < start.len());
                assert(!before[x]);
                if start[x] {
                    assert(before[x]);
                }
            }
            assert(is_walk(edges, q, s, v, ok));
        }
    }
}


/// Reaching over edges of one kind gives reaching over edges of any weaker kind.
pub proof fn lemma_reachable_avoiding_weaken(
    edges: Seq<Edge>,
    s: int,
    t: int,
    ok1: spec_fn(Edge) -> bool,
    ok2: spec_fn(Edge) -> bool,
    marked: Seq<bool>,
)
    requires
        reachable_avoiding(edges, s, t, ok1, marked),
        forall|e: Edge| #[trigger] ok1(e) ==> ok2(e),
    ensures
        reachable_avoiding(edges, s, t, ok2, marked),
{
    let p = choose|p: Seq<int>|
        {
            &&& is_walk(edges, p, s, t, ok1)
            &&& !marked[s]
            &&& forall|k: int| 0 <= k < p.len() ==> !marked[edges[#[trigger] p[k]].node2 as int]
        };
    lemma_walk_weaken(edges, p, s, t, ok1, ok2);
}

/// With nothing marked, reaching through unmarked nodes is plain reaching.
pub proof fn lemma_reachable_avoiding_none(
    edges: Seq<Edge>,
    s: int,
    t: int,
    ok: spec_fn(Edge) -> bool,
    marked: Seq<bool>,
)
    requires
        forall|i: int| 0 <= i < edges.len() ==> (#[trigger] edges[i]).node2 < marked.len(),
        0 <= s < marked.len(),
        forall|v: int| 0 <= v < marked.len() ==> !#[trigger] marked[v],
    ensures
        reachable_avoiding(edges, s, t, ok, marked) == reachable(edges, s, t, ok),
{
    if reachable(edges, s, t, ok) {
        let p = choose|p: Seq<int>| is_walk(edges, p, s, t, ok);
        assert forall|k: int| 0 <= k < p.len() implies !marked[edges[#[trigger] p[k]].node2 as int] by {
            assert(0 <= p[k] < edges.len());
        }
    }
}

/// One more edge, to a node not marked, extends a walk through unmarked nodes.
pub proof fn lemma_reachable_avoiding_extend(
    edges: Seq<Edge>,
    s: int,
    i: int,
    ok: spec_fn(Edge) -> bool,
    marked: Seq<bool>,
)
    requires
        0 <= i < edges.len(),
        ok(edges[i]),
        reachable_avoiding(edges, s, edges[i].node1 as int, ok, marked),
        !marked[edges[i].node2 as int],
    ensures
        reachable_avoiding(edges, s, edges[i].node2 as int, ok, marked),
{
    let p = choose|p: Seq<int>|
        {
            &&& is_walk(edges, p, s, edges[i].node1 as int, ok)
            &&& !marked[s]
            &&& forall|k: int| 0 <= k < p.len() ==> !marked[edges[#[trigger] p[k]].node2 as int]
        };
    lemma_walk_append(edges, p, s, i, ok);
    let q = p.push(i);
    assert forall|k: int| 0 <= k < q.len() implies !marked[edges[#[trigger] q[k]].node2 as int] by {
        if k < p.len() {
            assert(q[k] == p[k]);
        }
    }
}

/// A node other than `s` reached through unmarked nodes is entered by an
/// edge that satisfies `ok` from `s` or from another node so reached.
pub proof fn lemma_reachable_avoiding_last(
    edges: Seq<Edge>,
    s: int,
    v: int,
    ok: spec_fn(Edge) -> bool,
    marked: Seq<bool>,
) -> (i: int)
    requires
        reachable_avoiding(edges, s, v, ok, marked),
        v != s,
    ensures
        0 <= i < edges.len(),
        ok(edges[i]),
        edges[i].node2 == v,
        edges[i].node1 == s || reachable_avoiding(edges, s, edges[i].node1 as int, ok, marked),
{
    let p = choose|p: Seq<int>|
        {
            &&& is_walk(edges, p, s, v, ok)
            &&& !marked[s]
            &&& forall|k: int| 0 <= k < p.len() ==> !marked[edges[#[trigger] p[k]].node2 as int]
        };
    let i = p[p.len() - 1];
    assert(0 <= p[p.len() - 1] < edges.len());
    if p.len() > 1 {
        let q = p.subrange(0, p.len() - 1);
        let u = edges[p[p.len() - 2]].node2 as int;
        assert(edges[p[p.len() - 2]].node2 == edges[p[p.len() - 1]].node1);
        assert forall|k: int| 0 <= k < q.len() implies 0 <= #[trigger] q[k] < edges.len() && ok(edges[q[k]]) by {
            assert(q[k] == p[k]);
        }
        assert forall|k: int| 0 <= k < q.len() - 1 implies edges[#[trigger] q[k]].node2 == edges[q[k + 1]].node1 by {
            assert(q[k] == p[k]);
            assert(q[k + 1] == p[k + 1]);
        }
        assert(is_walk(edges, q, s, u, ok));
        assert forall|k: int| 0 <= k < q.len() implies !marked[edges[#[trigger] q[k]].node2 as int] by {
            assert(q[k] == p[k]);
        }
    }
    i
}

/// A filter on edges may accept `e`: it can return `true` for it.
pub open spec fn filter_may_pass<F: Fn(&Edge) -> bool>(filter: &F, e: Edge) -> bool {
    call_ensures(*filter, (&e,), true)
}

/// A filter on edges must accept `e`: it returns nothing but `true` for it.
pub open spec fn filter_must_pass<F: Fn(&Edge) -> bool>(filter: &F, e: Edge) -> bool {
    forall|r: bool| call_ensures(*filter, (&e,), r) ==> r
}

/// A filter that can be called on every edge.
pub open spec fn filter_total<F: Fn(&Edge) -> bool>(filter: &F) -> bool {
    forall|e: Edge| call_requires(*filter, (&e,))
}

/// A real edge with capacity left: what `mark_reachable_capable` follows.
pub open spec fn capable_real(e: Edge) -> bool {
    e.capacity != Capacity::Finite(0) && e.is_real
}


/// Along every augmenting path from `s` to `t` whose smallest capacity is
/// finite, that amount can be taken from each edge and added to each paired
/// edge within what a `u64` holds.
pub open spec fn paths_pushable(edges: Seq<Edge>, s: int, t: int) -> bool {
    forall|p: Seq<int>|
        augmenting_path(edges, p, s, t) && #[trigger] path_min(edges, p) is Finite ==> path_pushable(
            edges,
            p,
            path_min(edges, p)->0,
        )
}

/// The finite capacities add up to what a `u64` holds, and the paired edge
/// of each unbounded edge can take that total on top of its own capacity.
pub open spec fn flow_fits(edges: Seq<Edge>) -> bool {
    &&& finite_total(edges) <= u64::MAX
    &&& forall|x: int|
        0 <= x < edges.len() && unbounded(#[trigger] edges[x]) ==> cap_add_ok(
            edges[rev(x)].capacity,
            Capacity::Finite(finite_total(edges) as u64),
        )
}

/// No edge of `p` occurs twice, and no edge of `p` is paired with one of `p`.
pub open spec fn pair_distinct(p: Seq<int>) -> bool {
    &&& forall|a: int, b: int| 0 <= a < p.len() && 0 <= b < p.len() && a != b ==> #[trigger] p[a] != #[trigger] p[b]
    &&& forall|a: int, b: int| 0 <= a < p.len() && 0 <= b < p.len() ==> #[trigger] p[a] != rev(#[trigger] p[b])
}

/// `p` is a path of edges with capacity left from `s` to `t` along which a
/// flow can be pushed.
pub open spec fn augmenting_path(edges: Seq<Edge>, p: Seq<int>, s: int, t: int) -> bool {
    &&& is_walk(edges, p, s, t, |e: Edge| usable(e))
    &&& pair_distinct(p)
}

/// The smallest capacity along `p` (unbounded for no edge).
pub open spec fn path_min(edges: Seq<Edge>, p: Seq<int>) -> Capacity
    decreases p.len(),
{
    if p.len() == 0 {
        Capacity::Infinity
    } else {
        cap_min(path_min(edges, p.drop_first()), edges[p[0]].capacity)
    }
}

/// The edges after `f` is pushed along edge `i`: its capacity falls by `f`
/// and that of its paired edge rises by `f`.
pub open spec fn push_one(edges: Seq<Edge>, i: int, f: Capacity) -> Seq<Edge> {
    let e1 = edges.update(i, Edge { capacity: cap_sub(edges[i].capacity, f), ..edges[i] });
    e1.update(rev(i), Edge { capacity: cap_add(e1[rev(i)].capacity, f), ..e1[rev(i)] })
}

/// The edges after `f` is pushed along `p[j]`, `p[j + 1]`, ..., the last
/// edge first.
pub open spec fn push_from(edges: Seq<Edge>, p: Seq<int>, j: int, f: Capacity) -> Seq<Edge>
    decreases p.len() - j,
{
    if j < 0 || j >= p.len() {
        edges
    } else {
        push_one(push_from(edges, p, j + 1, f), p[j], f)
    }
}

/// The edges after `f` is pushed along the whole path `p`.
pub open spec fn push_path(edges: Seq<Edge>, p: Seq<int>, f: Capacity) -> Seq<Edge> {
    push_from(edges, p, 0, f)
}

/// Pushing along `p[j..]` keeps the shape of the edges and touches no edge but
/// those of `p[j..]` and their paired edges.
pub proof fn lemma_push_from_frame(edges: Seq<Edge>, p: Seq<int>, j: int, f: Capacity)
    requires
        0 <= j <= p.len(),
        edges.len() % 2 == 0,
        forall|k: int| 0 <= k < p.len() ==> 0 <= #[trigger] p[k] < edges.len(),
    ensures
        same_shape(push_from(edges, p, j, f), edges),
        forall|x: int|
            0 <= x < edges.len() && (forall|k: int| j <= k < p.len() ==> x != #[trigger] p[k] && x != rev(p[k]))
                ==> #[trigger] push_from(edges, p, j, f)[x] == edges[x],
    decreases p.len() - j,
{
    if j < p.len() {
        lemma_push_from_frame(edges, p, j + 1, f);
        let i = p[j];
        assert(0 <= rev(i) < edges.len());
        let e0 = push_from(edges, p, j + 1, f);
        let e2 = push_from(edges, p, j, f);
        assert forall|x: int|
            0 <= x < edges.len() && (forall|k: int| j <= k < p.len() ==> x != #[trigger] p[k] && x != rev(p[k]))
                implies #[trigger] e2[x] == edges[x] by {
            assert(x != p[j] && x != rev(p[j]));
            assert forall|k: int| j + 1 <= k < p.len() implies x != #[trigger] p[k] && x != rev(p[k]) by {
                assert(j <= k);
            }
        }
    }
}

/// Pushing along `p[j - 1]` after `p[j..]` touches that edge and its pair
/// only, and they had not been touched before.
pub proof fn lemma_push_from_step(edges: Seq<Edge>, p: Seq<int>, j: int, f: Capacity)
    requires
        1 <= j <= p.len(),
        edges.len() % 2 == 0,
        forall|k: int| 0 <= k < p.len() ==> 0 <= #[trigger] p[k] < edges.len(),
        pair_distinct(p),
    ensures
        push_from(edges, p, j, f)[p[j - 1]] == edges[p[j - 1]],
        push_from(edges, p, j, f)[rev(p[j - 1])] == edges[rev(p[j - 1])],
        push_from(edges, p, j - 1, f) == push_one(push_from(edges, p, j, f), p[j - 1], f),
{
    lemma_push_from_frame(edges, p, j, f);
    let x = p[j - 1];
    assert(0 <= rev(x) < edges.len());
    assert forall|k: int| j <= k < p.len() implies x != #[trigger] p[k] && x != rev(p[k]) by {
        assert(p[j - 1] != p[k]);
        assert(p[j - 1] != rev(p[k]));
    }
    assert forall|k: int| j <= k < p.len() implies rev(x) != #[trigger] p[k] && rev(x) != rev(p[k]) by {
        assert(p[k] != rev(p[j - 1]));
        assert(p[j - 1] != p[k]);
    }
}

/// The smallest capacity on a path is at most that of each edge on it, and
/// when it is finite it is the capacity of one of its edges.
pub proof fn lemma_path_min(edges: Seq<Edge>, p: Seq<int>)
    ensures
        forall|k: int| 0 <= k < p.len() ==> cap_le(path_min(edges, p), #[trigger] edges[p[k]].capacity),
        path_min(edges, p) is Finite ==> exists|k: int|
            0 <= k < p.len() && #[trigger] edges[p[k]].capacity == path_min(edges, p),
    decreases p.len(),
{
    if p.len() > 0 {
        let q = p.drop_first();
        lemma_path_min(edges, q);
        assert forall|k: int| 0 <= k < p.len() implies cap_le(path_min(edges, p), #[trigger] edges[p[k]].capacity) by {
            if k > 0 {
                assert(p[k] == q[k - 1]);
            }
        }
        if path_min(edges, p) is Finite {
            if path_min(edges, p) != edges[p[0]].capacity {
                let k = choose|k: int| 0 <= k < q.len() && #[trigger] edges[q[k]].capacity == path_min(edges, q);
                assert(p[k + 1] == q[k]);
            }
        }
    }
}


/// Nodes that a search has reached: those whose entry in `last_edge` is set.
pub open spec fn seen_marks(last_edge: Seq<usize>) -> Seq<bool> {
    Seq::new(last_edge.len(), |v: int| last_edge[v] != usize::MAX)
}

/// The search tree that `last_edge` records: every reached node but `s`
/// names the usable edge it was reached by, from a node reached earlier.
pub open spec fn search_tree(edges: Seq<Edge>, last_edge: Seq<usize>, rank: Seq<int>, s: int) -> bool {
    &&& rank.len() == last_edge.len()
    &&& 0 <= s < last_edge.len()
    &&& last_edge[s] == usize::MAX - 1
    &&& forall|v: int|
        0 <= v < last_edge.len() && v != s && #[trigger] last_edge[v] != usize::MAX ==> {
            &&& last_edge[v] < edges.len()
            &&& edges[last_edge[v] as int].node2 == v
            &&& usable(edges[last_edge[v] as int])
            &&& last_edge[edges[last_edge[v] as int].node1 as int] != usize::MAX
            &&& rank[edges[last_edge[v] as int].node1 as int] < rank[v]
        }
}


/// Edges of the same shape as well-formed ones are well formed.
pub proof fn lemma_wf_same_shape(a: Seq<Edge>, b: Seq<Edge>, n: nat)
    requires
        edges_wf(a, n),
        same_shape(b, a),
    ensures
        edges_wf(b, n),
{
    assert forall|i: int| 0 <= i < b.len() implies {
        &&& (#[trigger] b[i]).node1 < n
        &&& b[i].node2 < n
        &&& b[i].node1 == b[rev(i)].node2
        &&& b[i].node2 == b[rev(i)].node1
        &&& b[i].is_real == (i % 2 == 1)
    } by {
        assert(a[i].node1 == b[i].node1);
        assert(a[rev(i)].node1 == b[rev(i)].node1);
    }
}


/// Recording a newly reached node `w` by edge `ei` keeps the search tree,
/// and leaves one node fewer unreached.
proof fn lemma_search_step(
    edges: Seq<Edge>,
    before: Seq<usize>,
    after: Seq<usize>,
    start: Seq<usize>,
    rank: Seq<int>,
    next: int,
    s: int,
    w: int,
    ei: int,
)
    requires
        search_tree(edges, before, rank, s),
        0 <= w < before.len(),
        before[w] == usize::MAX,
        0 <= ei < edges.len(),
        edges[ei].node2 == w,
        usable(edges[ei]),
        forall|i: int| 0 <= i < edges.len() ==> (#[trigger] edges[i]).node1 < before.len(),
        before[edges[ei].node1 as int] != usize::MAX,
        after == before.update(w, ei as usize),
        ei < usize::MAX - 1,
        forall|u: int| 0 <= u < before.len() ==> #[trigger] rank[u] < next,
        start.len() == before.len(),
        forall|u: int| 0 <= u < before.len() && #[trigger] start[u] != usize::MAX ==> before[u] != usize::MAX,
    ensures
        search_tree(edges, after, rank.update(w, next), s),
        forall|u: int| 0 <= u < before.len() && #[trigger] start[u] != usize::MAX ==> after[u] != usize::MAX,
        count_unmarked(seen_marks(after)) < count_unmarked(seen_marks(start)),
        count_unmarked(seen_marks(after)) < count_unmarked(seen_marks(before)),
{
    let r2 = rank.update(w, next);
    assert(w != s);
    assert forall|v: int|
        0 <= v < after.len() && v != s && #[trigger] after[v] != usize::MAX implies {
            &&& after[v] < edges.len()
            &&& edges[after[v] as int].node2 == v
            &&& usable(edges[after[v] as int])
            &&& after[edges[after[v] as int].node1 as int] != usize::MAX
            &&& r2[edges[after[v] as int].node1 as int] < r2[v]
        } by {
        if v != w {
            assert(before[v] != usize::MAX);
            let p = edges[before[v] as int].node1 as int;
            assert(before[p] != usize::MAX);
            assert(p != w);
        } else {
            assert(after[v] as int == ei);
            let p = edges[ei].node1 as int;
            assert(p != w);
            assert(after[p] == before[p]);
        }
    }
    lemma_count_unmarked_monotone(seen_marks(start), seen_marks(after));
    lemma_count_unmarked_monotone(seen_marks(before), seen_marks(after));
    assert(!seen_marks(before)[w] && seen_marks(after)[w]);
    assert(!seen_marks(start)[w] && seen_marks(after)[w]);
}


/// A search whose reached nodes are closed under usable edges has reached
/// every node reachable from `s`.
proof fn lemma_search_complete(edges: Seq<Edge>, last_edge: Seq<usize>, s: int, t: int)
    requires
        0 <= s < last_edge.len(),
        last_edge[s] != usize::MAX,
        forall|i: int| 0 <= i < edges.len() ==> (#[trigger] edges[i]).node1 < last_edge.len() && edges[i].node2 < last_edge.len(),
        forall|i: int|
            0 <= i < edges.len() && last_edge[edges[i].node1 as int] != usize::MAX
                && #[trigger] usable(edges[i]) ==> last_edge[edges[i].node2 as int] != usize::MAX,
    ensures
        reachable(edges, s, t, |e: Edge| usable(e)) ==> last_edge[t] != usize::MAX,
{
    let ok = |e: Edge| usable(e);
    let inside = |x: int| 0 <= x < last_edge.len() && last_edge[x] != usize::MAX;
    assert forall|i: int| 0 <= i < edges.len() && inside(edges[i].node1 as int) && #[trigger] ok(edges[i])
        implies inside(edges[i].node2 as int) by {
        assert(usable(edges[i]));
    }
    if reachable(edges, s, t, ok) {
        let p = choose|p: Seq<int>| is_walk(edges, p, s, t, ok);
        lemma_closed_holds_reachable(edges, p, s, t, ok, inside);
    }
}


/// The edges are well formed, and each node lists exactly the edges that leave
/// it.
#[verifier::opaque]
closed spec fn graph_core_wf(edges: Seq<Edge>, idx: Seq<Vec<usize>>) -> bool {
    &&& edges_wf(edges, idx.len())
    &&& edges.len() + 2 < usize::MAX
    &&& forall|v: int, k: int|
        0 <= v < idx.len() && 0 <= k < idx[v]@.len() ==> {
            &&& #[trigger] idx[v]@[k] < edges.len()
            &&& edges[idx[v]@[k] as int].node1 == v
        }
    &&& forall|i: int| 0 <= i < edges.len() ==> #[trigger] idx[edges[i].node1 as int]@.contains(i as usize)
}


/// The finite capacity that an edge adds to the cut `S`: its capacity when it
/// leaves `S`, nothing otherwise.
pub open spec fn cut_weight(e: Edge, cut: Set<int>) -> int {
    if cut.contains(e.node1 as int) && !cut.contains(e.node2 as int) {
        match e.capacity {
            Capacity::Finite(c) => c as int,
            Capacity::Infinity => 0,
        }
    } else {
        0
    }
}

/// Total capacity of the first `k` edges that leave `S`.
pub open spec fn cut_sum(edges: Seq<Edge>, cut: Set<int>, k: int) -> int
    decreases k,
{
    if k <= 0 {
        0
    } else {
        cut_sum(edges, cut, k - 1) + cut_weight(edges[k - 1], cut)
    }
}

/// The capacity of the cut `S`: the total capacity of the edges that leave it.
pub open spec fn cut_value(edges: Seq<Edge>, cut: Set<int>) -> int {
    cut_sum(edges, cut, edges.len() as int)
}

/// No edge of unbounded capacity leaves `S`.
pub open spec fn cut_finite(edges: Seq<Edge>, cut: Set<int>) -> bool {
    forall|i: int|
        0 <= i < edges.len() && cut.contains(edges[i].node1 as int) && !cut.contains(edges[i].node2 as int)
            ==> #[trigger] edges[i].capacity is Finite
}

/// `S` separates `s` from `t`.
pub open spec fn separates(cut: Set<int>, s: int, t: int) -> bool {
    cut.contains(s) && !cut.contains(t)
}

/// The difference of two cuts' capacities, edge by edge.
pub proof fn lemma_cut_diff(edges: Seq<Edge>, x: Set<int>, y: Set<int>, k: int)
    requires
        0 <= k <= edges.len(),
    ensures
        cut_sum(edges, y, k) - cut_sum(edges, x, k) == total(
            |i: int| cut_weight(edges[i], y) - cut_weight(edges[i], x),
            k,
        ),
    decreases k,
{
    if k > 0 {
        lemma_cut_diff(edges, x, y, k - 1);
    }
}

/// Adding two edges adds what they carry out of the cut `S`.
pub proof fn lemma_cut_value_push2(edges: Seq<Edge>, cut: Set<int>, a: Edge, b: Edge)
    ensures
        cut_value(edges.push(a).push(b), cut) == cut_value(edges, cut) + cut_weight(a, cut) + cut_weight(b, cut),
{
    let e2 = edges.push(a).push(b);
    let n = edges.len() as int;
    assert forall|i: int| 0 <= i < n implies edges[i] == e2[i] by {}
    lemma_cut_sum_prefix(edges, e2, cut, n);
    assert(e2[n] == a);
    assert(e2[n + 1] == b);
    assert(cut_sum(e2, cut, n + 2) == cut_sum(e2, cut, n + 1) + cut_weight(b, cut));
    assert(cut_sum(e2, cut, n + 1) == cut_sum(e2, cut, n) + cut_weight(a, cut));
}

/// Sequences that agree on their first `k` edges agree on those edges'
/// capacity out of `S`.
pub proof fn lemma_cut_sum_prefix(a: Seq<Edge>, b: Seq<Edge>, cut: Set<int>, k: int)
    requires
        0 <= k <= a.len(),
        k <= b.len(),
        forall|i: int| 0 <= i < k ==> a[i] == b[i],
    ensures
        cut_sum(a, cut, k) == cut_sum(b, cut, k),
    decreases k,
{
    if k > 0 {
        lemma_cut_sum_prefix(a, b, cut, k - 1);
    }
}

/// The capacity of a cut lies between zero and the total finite capacity.
pub proof fn lemma_cut_sum_bounds(edges: Seq<Edge>, cut: Set<int>, k: int)
    requires
        0 <= k <= edges.len(),
    ensures
        0 <= cut_sum(edges, cut, k) <= finite_total_prefix(edges, k),
    decreases k,
{
    if k > 0 {
        lemma_cut_sum_bounds(edges, cut, k - 1);
    }
}

/// Two finite capacities of different edges add up to at most the total.
pub proof fn lemma_two_finite_le_total(edges: Seq<Edge>, x: int, y: int, k: int)
    requires
        0 <= x < k,
        0 <= y < k,
        x != y,
        k <= edges.len(),
        edges[x].capacity is Finite,
        edges[y].capacity is Finite,
    ensures
        edges[x].capacity->0 + edges[y].capacity->0 <= finite_total_prefix(edges, k),
    decreases k,
{
    lemma_finite_total_nonneg(edges, k - 1);
    if x < k - 1 && y < k - 1 {
        lemma_two_finite_le_total(edges, x, y, k - 1);
    } else if x == k - 1 {
        lemma_one_finite_le_total(edges, y, k - 1);
    } else {
        lemma_one_finite_le_total(edges, x, k - 1);
    }
}

/// One finite capacity is at most the total.
pub proof fn lemma_one_finite_le_total(edges: Seq<Edge>, x: int, k: int)
    requires
        0 <= x < k <= edges.len(),
        edges[x].capacity is Finite,
    ensures
        edges[x].capacity->0 <= finite_total_prefix(edges, k),
    decreases k,
{
    lemma_finite_total_nonneg(edges, k - 1);
    if x < k - 1 {
        lemma_one_finite_le_total(edges, x, k - 1);
    }
}

/// The total finite capacity is not negative.
pub proof fn lemma_finite_total_nonneg(edges: Seq<Edge>, k: int)
    requires
        k <= edges.len(),
    ensures
        finite_total_prefix(edges, k) >= 0,
    decreases k,
{
    if k > 0 {
        lemma_finite_total_nonneg(edges, k - 1);
    }
}

/// Changing one edge changes the capacity of a cut by the change of its weight.
pub proof fn lemma_cut_sum_update(edges: Seq<Edge>, cut: Set<int>, i: int, e: Edge, k: int)
    requires
        0 <= i < edges.len(),
        0 <= k <= edges.len(),
    ensures
        cut_sum(edges.update(i, e), cut, k) == cut_sum(edges, cut, k) + if i < k {
            cut_weight(e, cut) - cut_weight(edges[i], cut)
        } else {
            0
        },
    decreases k,
{
    if k > 0 {
        lemma_cut_sum_update(edges, cut, i, e, k - 1);
        assert(edges.update(i, e)[k - 1] == if k - 1 == i { e } else { edges[k - 1] });
    }
}



/// Each edge runs opposite to its paired edge.
#[verifier::opaque]
pub open spec fn edges_paired(edges: Seq<Edge>) -> bool {
    forall|x: int|
        0 <= x < edges.len() ==> (#[trigger] edges[x]).node1 == edges[rev(x)].node2 && edges[x].node2 == edges[rev(x)].node1
}

/// `fv` can be taken from every edge of `p` and added to every paired edge.
#[verifier::opaque]
pub open spec fn path_pushable(edges: Seq<Edge>, p: Seq<int>, fv: u64) -> bool {
    &&& forall|k: int| 0 <= k < p.len() ==> cap_sub_ok(#[trigger] edges[p[k]].capacity, Capacity::Finite(fv))
    &&& forall|k: int| 0 <= k < p.len() ==> cap_add_ok(edges[rev(#[trigger] p[k])].capacity, Capacity::Finite(fv))
}

proof fn lemma_paired_at(edges: Seq<Edge>, x: int)
    requires
        edges_paired(edges),
        0 <= x < edges.len(),
    ensures
        edges[x].node1 == edges[rev(x)].node2,
        edges[x].node2 == edges[rev(x)].node1,
{
    reveal(edges_paired);
}

proof fn lemma_pushable_at(edges: Seq<Edge>, p: Seq<int>, fv: u64, k: int)
    requires
        path_pushable(edges, p, fv),
        0 <= k < p.len(),
    ensures
        cap_sub_ok(edges[p[k]].capacity, Capacity::Finite(fv)),
        cap_add_ok(edges[rev(p[k])].capacity, Capacity::Finite(fv)),
{
    reveal(path_pushable);
}

/// One for a node outside `S`, zero for a node inside.
pub open spec fn outside(cut: Set<int>, v: int) -> int {
    if cut.contains(v) { 0 } else { 1 }
}

/// Pushing a finite amount along one edge changes the capacity of a cut by
/// that amount times the difference of the sides of the edge's ends.
proof fn lemma_push_one_cut(edges: Seq<Edge>, i: int, fv: u64, cut: Set<int>)
    requires
        edges.len() % 2 == 0,
        0 <= i < edges.len(),
        edges[i].node1 == edges[rev(i)].node2,
        edges[i].node2 == edges[rev(i)].node1,
        cap_sub_ok(edges[i].capacity, Capacity::Finite(fv)),
        cap_add_ok(edges[rev(i)].capacity, Capacity::Finite(fv)),
        cut_finite(edges, cut),
    ensures
        cut_finite(push_one(edges, i, Capacity::Finite(fv)), cut),
        cut_value(push_one(edges, i, Capacity::Finite(fv)), cut) == cut_value(edges, cut) + fv * (outside(
            cut,
            edges[i].node1 as int,
        ) - outside(cut, edges[i].node2 as int)),
{
    let f = Capacity::Finite(fv);
    let r = rev(i);
    assert(0 <= r < edges.len() && r != i);
    let ea = Edge { capacity: cap_sub(edges[i].capacity, f), ..edges[i] };
    let e1 = edges.update(i, ea);
    let eb = Edge { capacity: cap_add(e1[r].capacity, f), ..e1[r] };
    let e2 = e1.update(r, eb);
    assert(e2 == push_one(edges, i, f));
    lemma_cut_sum_update(edges, cut, i, ea, edges.len() as int);
    lemma_cut_sum_update(e1, cut, r, eb, edges.len() as int);
    assert(e1[r] == edges[r]);
    let n1 = edges[i].node1 as int;
    let n2 = edges[i].node2 as int;
    let d1 = cut_weight(ea, cut) - cut_weight(edges[i], cut);
    let d2 = cut_weight(eb, cut) - cut_weight(edges[r], cut);
    let a = outside(cut, n1);
    let b = outside(cut, n2);
    if cut.contains(n1) && !cut.contains(n2) {
        assert(edges[i].capacity is Finite);
        assert(d1 == -fv);
        assert(d2 == 0);
        assert(fv * (a - b) == -fv) by (nonlinear_arith)
            requires
                a == 0,
                b == 1,
        ;
    } else if cut.contains(n2) && !cut.contains(n1) {
        assert(edges[r].capacity is Finite);
        assert(d1 == 0);
        assert(d2 == fv);
        assert(fv * (a - b) == fv) by (nonlinear_arith)
            requires
                a == 1,
                b == 0,
        ;
    } else {
        assert(d1 == 0);
        assert(d2 == 0);
        assert(fv * (a - b) == 0) by (nonlinear_arith)
            requires
                a == b,
        ;
    }
    assert forall|x: int|
        0 <= x < e2.len() && cut.contains(e2[x].node1 as int) && !cut.contains(e2[x].node2 as int)
            implies #[trigger] e2[x].capacity is Finite by {
        if x != i && x != r {
            assert(e2[x] == edges[x]);
        }
    }
}


/// `lemma_push_one_cut` for an intermediate state that agrees with the
/// starting edges at `i` and at its paired edge.
proof fn lemma_push_one_cut_mid(edges: Seq<Edge>, mid: Seq<Edge>, i: int, fv: u64, cut: Set<int>)
    requires
        edges.len() % 2 == 0,
        0 <= i < edges.len(),
        same_shape(mid, edges),
        mid[i] == edges[i],
        mid[rev(i)] == edges[rev(i)],
        edges[i].node1 == edges[rev(i)].node2,
        edges[i].node2 == edges[rev(i)].node1,
        cap_sub_ok(edges[i].capacity, Capacity::Finite(fv)),
        cap_add_ok(edges[rev(i)].capacity, Capacity::Finite(fv)),
        cut_finite(mid, cut),
    ensures
        cut_finite(push_one(mid, i, Capacity::Finite(fv)), cut),
        cut_value(push_one(mid, i, Capacity::Finite(fv)), cut) == cut_value(mid, cut) + fv * (outside(
            cut,
            edges[i].node1 as int,
        ) - outside(cut, edges[i].node2 as int)),
{
    assert(0 <= rev(i) < edges.len());
    lemma_push_one_cut(mid, i, fv, cut);
}

/// Pushing a finite amount along `p[j..]` changes the capacity of a cut by
/// that amount times the difference of the sides of the ends of `p[j..]`.
#[verifier::spinoff_prover]
proof fn lemma_push_from_cut(edges: Seq<Edge>, p: Seq<int>, j: int, t: int, fv: u64, cut: Set<int>)
    requires
        edges.len() % 2 == 0,
        0 <= j <= p.len(),
        p.len() > 0,
        edges_paired(edges),
        forall|k: int| 0 <= k < p.len() ==> 0 <= #[trigger] p[k] < edges.len(),
        forall|k: int| 0 <= k < p.len() - 1 ==> edges[#[trigger] p[k]].node2 == edges[p[k + 1]].node1,
        edges[p[p.len() - 1]].node2 == t,
        pair_distinct(p),
        path_pushable(edges, p, fv),
        cut_finite(edges, cut),
    ensures
        cut_finite(push_from(edges, p, j, Capacity::Finite(fv)), cut),
        cut_value(push_from(edges, p, j, Capacity::Finite(fv)), cut) == cut_value(edges, cut) + fv * (outside(
            cut,
            if j == p.len() { t } else { edges[p[j]].node1 as int },
        ) - outside(cut, t)),
    decreases p.len() - j,
{
    let f = Capacity::Finite(fv);
    if j < p.len() {
        lemma_push_from_cut(edges, p, j + 1, t, fv, cut);
        lemma_push_from_step(edges, p, j + 1, f);
        lemma_push_from_frame(edges, p, j + 1, f);
        let mid = push_from(edges, p, j + 1, f);
        let i = p[j];
        assert(0 <= rev(i) < edges.len());
        lemma_pushable_at(edges, p, fv, j);
        lemma_paired_at(edges, i);
        lemma_push_one_cut_mid(edges, mid, i, fv, cut);
        let a = outside(cut, edges[i].node1 as int);
        let b = outside(cut, edges[i].node2 as int);
        let c = outside(cut, if j + 1 == p.len() { t } else { edges[p[j + 1]].node1 as int });
        if j + 1 < p.len() {
            assert(edges[p[j]].node2 == edges[p[j + 1]].node1);
        }
        assert(b == c);
        let tt = outside(cut, t);
        assert(fv * (a - b) + fv * (c - tt) == fv * (a - tt)) by (nonlinear_arith)
            requires
                b == c,
        ;
    }
}


/// `v` is the largest amount of flow from `s` to `t`: the capacity of some cut
/// that separates them, and at most that of every such cut.
pub open spec fn is_max_flow_value(edges: Seq<Edge>, s: int, t: int, v: int) -> bool {
    &&& exists|cut: Set<int>| separates(cut, s, t) && cut_finite(edges, cut) && cut_value(edges, cut) == v
    &&& forall|cut: Set<int>| separates(cut, s, t) && cut_finite(edges, cut) ==> v <= #[trigger] cut_value(edges, cut)
}


/// Well-formed edges run opposite to their paired edges.
pub proof fn lemma_edges_paired(edges: Seq<Edge>, n: nat)
    requires
        edges_wf(edges, n),
    ensures
        edges_paired(edges),
{
    reveal(edges_paired);
}

/// Pushing a finite amount along an augmenting path from `s` to `t` lowers
/// the capacity of every cut between them by that amount.
#[verifier::spinoff_prover]
pub proof fn lemma_push_path_cut(edges: Seq<Edge>, n: nat, p: Seq<int>, s: int, t: int, cut: Set<int>)
    requires
        edges_wf(edges, n),
        augmenting_path(edges, p, s, t),
        p.len() > 0,
        path_min(edges, p) is Finite,
        path_pushable(edges, p, path_min(edges, p)->0),
        separates(cut, s, t),
        cut_finite(edges, cut),
    ensures
        cut_finite(push_path(edges, p, path_min(edges, p)), cut),
        cut_value(push_path(edges, p, path_min(edges, p)), cut) == cut_value(edges, cut) - path_min(edges, p)->0,
{
    let f = path_min(edges, p);
    let fv = f->0;
    lemma_edges_paired(edges, n);
    assert(forall|k: int| 0 <= k < p.len() ==> 0 <= #[trigger] p[k] < edges.len());
    assert(forall|k: int| 0 <= k < p.len() - 1 ==> edges[#[trigger] p[k]].node2 == edges[p[k + 1]].node1);
    assert(edges[p[0]].node1 == s);
    assert(edges[p[p.len() - 1]].node2 == t);
    lemma_push_from_cut(edges, p, 0, t, fv, cut);
    assert(fv * (outside(cut, s) - outside(cut, t)) == -fv) by (nonlinear_arith)
        requires
            outside(cut, s) == 0,
            outside(cut, t) == 1,
    ;
}

/// Pushing a finite amount `fv` along a path keeps every capacity finite or
/// unbounded as it was, and raises no finite capacity by more than `fv`.
pub proof fn lemma_push_from_caps(edges: Seq<Edge>, p: Seq<int>, j: int, fv: u64)
    requires
        edges.len() % 2 == 0,
        0 <= j <= p.len(),
        forall|k: int| 0 <= k < p.len() ==> 0 <= #[trigger] p[k] < edges.len(),
        pair_distinct(p),
        path_pushable(edges, p, fv),
    ensures
        forall|x: int| 0 <= x < edges.len() ==> unbounded(#[trigger] push_from(edges, p, j, Capacity::Finite(fv))[x]) == unbounded(edges[x]),
        forall|x: int|
            0 <= x < edges.len() && (#[trigger] push_from(edges, p, j, Capacity::Finite(fv))[x]).capacity is Finite
                ==> push_from(edges, p, j, Capacity::Finite(fv))[x].capacity->0 <= edges[x].capacity->0 + fv,
    decreases p.len() - j,
{
    let f = Capacity::Finite(fv);
    lemma_push_from_frame(edges, p, j, f);
    if j < p.len() {
        lemma_push_from_frame(edges, p, j + 1, f);
        lemma_push_from_caps(edges, p, j + 1, fv);
        lemma_push_from_step(edges, p, j + 1, f);
        lemma_pushable_at(edges, p, fv, j);
        let i = p[j];
        assert(0 <= rev(i) < edges.len());
        assert(rev(i) != i);
        let mid = push_from(edges, p, j + 1, f);
        let nxt = push_from(edges, p, j, f);
        assert(nxt == push_one(mid, i, f));
        assert(mid[i] == edges[i]);
        assert(mid[rev(i)] == edges[rev(i)]);
        assert forall|x: int| 0 <= x < edges.len() implies unbounded(#[trigger] nxt[x]) == unbounded(edges[x]) by {
            if x != i && x != rev(i) {
                assert(nxt[x] == mid[x]);
            }
        }
        assert forall|x: int|
            0 <= x < edges.len() && (#[trigger] nxt[x]).capacity is Finite implies nxt[x].capacity->0 <= edges[x].capacity->0 + fv by {
            if x != i && x != rev(i) {
                assert(nxt[x] == mid[x]);
            }
        }
    }
}

/// The capacity of an edge and of its paired edge, both finite.
pub open spec fn pair_sum(edges: Seq<Edge>, x: int) -> int {
    edges[x].capacity->0 + edges[rev(x)].capacity->0
}

/// Pushing a finite amount along one edge keeps the total capacity of each
/// pair of finite paired edges.
proof fn lemma_push_one_pair(mid: Seq<Edge>, i: int, fv: u64, x: int)
    requires
        mid.len() % 2 == 0,
        0 <= i < mid.len(),
        0 <= x < mid.len(),
        mid[x].capacity is Finite,
        mid[rev(x)].capacity is Finite,
        cap_sub_ok(mid[i].capacity, Capacity::Finite(fv)),
        cap_add_ok(mid[rev(i)].capacity, Capacity::Finite(fv)),
    ensures
        pair_sum(push_one(mid, i, Capacity::Finite(fv)), x) == pair_sum(mid, x),
{
    let f = Capacity::Finite(fv);
    let nxt = push_one(mid, i, f);
    assert(0 <= rev(i) < mid.len() && rev(i) != i && rev(rev(i)) == i);
    assert(0 <= rev(x) < mid.len() && rev(rev(x)) == x);
    if x == i {
        assert(nxt[i].capacity == cap_sub(mid[i].capacity, f));
        assert(nxt[rev(i)].capacity == cap_add(mid[rev(i)].capacity, f));
    } else if x == rev(i) {
        assert(nxt[i].capacity == cap_sub(mid[i].capacity, f));
        assert(nxt[rev(i)].capacity == cap_add(mid[rev(i)].capacity, f));
    } else {
        assert(nxt[x] == mid[x]);
        assert(nxt[rev(x)] == mid[rev(x)]);
    }
}

/// Pushing a finite amount along a path keeps the total capacity of every
/// pair of finite paired edges.
#[verifier::spinoff_prover]
#[verifier::rlimit(30)]
pub proof fn lemma_push_from_pairs(edges: Seq<Edge>, p: Seq<int>, j: int, fv: u64)
    requires
        edges.len() % 2 == 0,
        0 <= j <= p.len(),
        forall|k: int| 0 <= k < p.len() ==> 0 <= #[trigger] p[k] < edges.len(),
        pair_distinct(p),
        path_pushable(edges, p, fv),
    ensures
        forall|x: int|
            0 <= x < edges.len() && edges[x].capacity is Finite && edges[rev(x)].capacity is Finite
                ==> #[trigger] pair_sum(push_from(edges, p, j, Capacity::Finite(fv)), x) == pair_sum(edges, x),
    decreases p.len() - j,
{
    let f = Capacity::Finite(fv);
    if j < p.len() {
        lemma_push_from_pairs(edges, p, j + 1, fv);
        lemma_push_from_caps(edges, p, j + 1, fv);
        lemma_push_from_step(edges, p, j + 1, f);
        lemma_pushable_at(edges, p, fv, j);
        lemma_push_from_frame(edges, p, j + 1, f);
        let i = p[j];
        let mid = push_from(edges, p, j + 1, f);
        assert(mid[i] == edges[i]);
        assert(mid[rev(i)] == edges[rev(i)]);
        assert forall|x: int|
            0 <= x < edges.len() && edges[x].capacity is Finite && edges[rev(x)].capacity is Finite
                implies #[trigger] pair_sum(push_from(edges, p, j, f), x) == pair_sum(edges, x) by {
            assert(pair_sum(mid, x) == pair_sum(edges, x));
            assert(0 <= rev(x) < edges.len());
            assert(!unbounded(edges[x]) && !unbounded(edges[rev(x)]));
            assert(unbounded(mid[x]) == unbounded(edges[x]));
            assert(unbounded(mid[rev(x)]) == unbounded(edges[rev(x)]));
            lemma_push_one_pair(mid, i, fv, x);
        }
    }
}

/// Every capacity on a path whose smallest capacity is unbounded is unbounded.
pub proof fn lemma_path_min_unbounded(edges: Seq<Edge>, p: Seq<int>)
    requires
        path_min(edges, p) == Capacity::Infinity,
    ensures
        forall|k: int| 0 <= k < p.len() ==> unbounded(#[trigger] edges[p[k]]),
{
    lemma_path_min(edges, p);
    assert forall|k: int| 0 <= k < p.len() implies unbounded(#[trigger] edges[p[k]]) by {
        assert(cap_le(Capacity::Infinity, edges[p[k]].capacity));
    }
}

/// A cut whose leaving edges all have zero capacity has capacity zero.
pub proof fn lemma_cut_sum_zero(edges: Seq<Edge>, cut: Set<int>, k: int)
    requires
        0 <= k <= edges.len(),
        forall|i: int|
            0 <= i < edges.len() && cut.contains(edges[i].node1 as int) && !cut.contains(edges[i].node2 as int)
                ==> #[trigger] edges[i].capacity == Capacity::Finite(0),
    ensures
        cut_sum(edges, cut, k) == 0,
    decreases k,
{
    if k > 0 {
        lemma_cut_sum_zero(edges, cut, k - 1);
    }
}


/// The nodes reachable from `s` over unbounded edges form a cut with no
/// unbounded edge leaving it, when `t` is not among them.
pub proof fn lemma_unbounded_closure_cut(edges: Seq<Edge>, n: nat, s: int, t: int)
    requires
        edges_wf(edges, n),
        !reachable(edges, s, t, |e: Edge| unbounded(e)),
    ensures
        separates(Set::new(|v: int| reachable(edges, s, v, |e: Edge| unbounded(e))), s, t),
        cut_finite(edges, Set::new(|v: int| reachable(edges, s, v, |e: Edge| unbounded(e)))),
{
    let unb = |e: Edge| unbounded(e);
    let cut = Set::new(|v: int| reachable(edges, s, v, unb));
    assert(is_walk(edges, Seq::<int>::empty(), s, s, unb));
    assert(cut.contains(s));
    assert forall|i: int|
        0 <= i < edges.len() && cut.contains(edges[i].node1 as int) && !cut.contains(edges[i].node2 as int)
            implies #[trigger] edges[i].capacity is Finite by {
        if edges[i].capacity == Capacity::Infinity {
            let p = choose|p: Seq<int>| is_walk(edges, p, s, edges[i].node1 as int, unb);
            lemma_walk_append(edges, p, s, i, unb);
        }
    }
}

/// What holds of the edges `cur` after a flow of `f` has been pushed from `s`
/// to `t` through the edges `e0`: the same edges are unbounded, no finite
/// capacity rose by more than `f`, and every cut between `s` and `t` without
/// unbounded edges lost exactly `f` of its capacity.
#[verifier::opaque]
pub open spec fn flow_state(e0: Seq<Edge>, cur: Seq<Edge>, s: int, t: int, f: int) -> bool {
    &&& same_shape(cur, e0)
    &&& 0 <= f
    &&& forall|x: int| 0 <= x < e0.len() ==> unbounded(#[trigger] cur[x]) == unbounded(e0[x])
    &&& forall|x: int|
        0 <= x < e0.len() && (#[trigger] cur[x]).capacity is Finite ==> cur[x].capacity->0 <= e0[x].capacity->0 + f
    &&& forall|cut: Set<int>|
        separates(cut, s, t) && cut_finite(e0, cut) ==> cut_finite(cur, cut) && #[trigger] cut_value(cur, cut) + f
            == cut_value(e0, cut)
    &&& pairs_kept(e0, cur)
}

/// Every pair of finite paired edges of `e0` has the same total capacity in
/// `cur`.
pub open spec fn pairs_kept(e0: Seq<Edge>, cur: Seq<Edge>) -> bool {
    forall|x: int|
        0 <= x < e0.len() && e0[x].capacity is Finite && e0[rev(x)].capacity is Finite ==> #[trigger] pair_sum(cur, x)
            == pair_sum(e0, x)
}

/// Before any flow is pushed the state holds.
pub proof fn lemma_flow_state_start(e0: Seq<Edge>, s: int, t: int)
    ensures
        flow_state(e0, e0, s, t, 0),
{
    reveal(flow_state);
}

/// A cut between `s` and `t` without unbounded edges lost `f` of its capacity.
pub proof fn lemma_flow_state_cut(e0: Seq<Edge>, cur: Seq<Edge>, s: int, t: int, f: int, cut: Set<int>)
    requires
        flow_state(e0, cur, s, t, f),
        separates(cut, s, t),
        cut_finite(e0, cut),
    ensures
        cut_finite(cur, cut),
        cut_value(cur, cut) + f == cut_value(e0, cut),
        same_shape(cur, e0),
{
    reveal(flow_state);
}

/// A walk from inside `S` to outside it takes an edge that leaves `S`.
pub proof fn lemma_walk_leaves(edges: Seq<Edge>, p: Seq<int>, s: int, t: int, ok: spec_fn(Edge) -> bool, cut: Set<int>) -> (k: int)
    requires
        is_walk(edges, p, s, t, ok),
        cut.contains(s),
        !cut.contains(t),
    ensures
        0 <= k < p.len(),
        cut.contains(edges[p[k]].node1 as int),
        !cut.contains(edges[p[k]].node2 as int),
    decreases p.len(),
{
    if !cut.contains(edges[p[0]].node2 as int) {
        0
    } else {
        let q = p.drop_first();
        let v = edges[p[0]].node2 as int;
        assert(p.len() > 1);
        assert(is_walk(edges, q, v, t, ok)) by {
            assert forall|k: int| 0 <= k < q.len() implies 0 <= #[trigger] q[k] < edges.len() && ok(edges[q[k]]) by {
                assert(q[k] == p[k + 1]);
            }
            assert forall|k: int| 0 <= k < q.len() - 1 implies edges[#[trigger] q[k]].node2 == edges[q[k + 1]].node1 by {
                assert(q[k] == p[k + 1]);
                assert(q[k + 1] == p[k + 2]);
            }
            assert(edges[p[0]].node2 == edges[p[1]].node1);
        }
        let k = lemma_walk_leaves(edges, q, v, t, ok, cut);
        assert(q[k] == p[k + 1]);
        k + 1
    }
}

/// What one edge adds to a cut is at most the cut's capacity.
pub proof fn lemma_edge_le_cut(edges: Seq<Edge>, cut: Set<int>, i: int, k: int)
    requires
        0 <= i < k <= edges.len(),
    ensures
        cut_weight(edges[i], cut) <= cut_sum(edges, cut, k),
    decreases k,
{
    lemma_cut_sum_bounds(edges, cut, k - 1);
    if i < k - 1 {
        lemma_edge_le_cut(edges, cut, i, k - 1);
    }
}

/// The paired edge of each unbounded edge has capacity zero or none bound,
/// as where no flow has been pushed yet.
#[verifier::opaque]
pub open spec fn partners_idle(edges: Seq<Edge>) -> bool {
    forall|x: int|
        0 <= x < edges.len() && unbounded(#[trigger] edges[x]) ==> edges[rev(x)].capacity == Capacity::Finite(0)
            || unbounded(edges[rev(x)])
}

/// Adding a pair of edges, where the partner of an unbounded new edge is
/// unbounded or empty, keeps the partners of unbounded edges idle.
proof fn lemma_partners_added(before: Seq<Edge>, after: Seq<Edge>)
    requires
        before.len() % 2 == 0,
        after.len() == before.len() + 2,
        forall|i: int| 0 <= i < before.len() ==> #[trigger] after[i] == before[i],
        unbounded(after[before.len() as int]) ==> unbounded(after[before.len() + 1int]),
        unbounded(after[before.len() + 1int]) ==> unbounded(after[before.len() as int])
            || after[before.len() as int].capacity == Capacity::Finite(0),
    ensures
        partners_idle(before) ==> partners_idle(after),
{
    reveal(partners_idle);
    if partners_idle(before) {
        assert forall|x: int| 0 <= x < after.len() && unbounded(#[trigger] after[x]) implies after[rev(x)].capacity
            == Capacity::Finite(0) || unbounded(after[rev(x)]) by {
            if x < before.len() {
                assert(after[x] == before[x]);
                assert(0 <= rev(x) < before.len());
                assert(after[rev(x)] == before[rev(x)]);
            }
        }
    }
}

/// Where the finite capacities add up to what a `u64` holds and no flow has
/// been pushed along an unbounded edge, the capacities fit for a maximum
/// flow.
pub proof fn lemma_flow_fits(edges: Seq<Edge>)
    requires
        partners_idle(edges),
        finite_total(edges) <= u64::MAX,
    ensures
        flow_fits(edges),
{
    reveal(partners_idle);
    lemma_finite_total_nonneg(edges, edges.len() as int);
}

/// Where twice the total of the finite capacities fits in a `u64`, the
/// capacities fit for a maximum flow.
pub proof fn lemma_flow_fits_twice(edges: Seq<Edge>, n: nat)
    requires
        edges_wf(edges, n),
        2 * finite_total(edges) <= u64::MAX,
    ensures
        flow_fits(edges),
{
    lemma_finite_total_nonneg(edges, edges.len() as int);
    assert forall|x: int| 0 <= x < edges.len() && unbounded(#[trigger] edges[x]) implies cap_add_ok(
        edges[rev(x)].capacity,
        Capacity::Finite(finite_total(edges) as u64),
    ) by {
        if edges[rev(x)].capacity is Finite {
            lemma_one_finite_le_total(edges, rev(x), edges.len() as int);
        }
    }
}

/// The paired edge of an edge with at least `fv` left can take `fv`, where
/// `fv` is at most what the flow `f` has left to push.
proof fn lemma_pushable_edge(e0: Seq<Edge>, cur: Seq<Edge>, f: int, x: int, fv: u64, room: int)
    requires
        e0.len() == cur.len(),
        e0.len() % 2 == 0,
        0 <= x < e0.len(),
        flow_fits(e0),
        0 <= f,
        forall|y: int| 0 <= y < e0.len() ==> unbounded(#[trigger] cur[y]) == unbounded(e0[y]),
        forall|y: int|
            0 <= y < e0.len() && (#[trigger] cur[y]).capacity is Finite ==> cur[y].capacity->0 <= e0[y].capacity->0 + f,
        pairs_kept(e0, cur),
        cap_le(Capacity::Finite(fv), cur[x].capacity),
        fv + f <= room <= finite_total(e0),
    ensures
        cap_add_ok(cur[rev(x)].capacity, Capacity::Finite(fv)),
{
    assert(0 <= rev(x) < cur.len());
    if cur[rev(x)].capacity is Finite {
        assert(!unbounded(cur[rev(x)]));
        assert(!unbounded(e0[rev(x)]));
        if cur[x].capacity is Finite {
            assert(!unbounded(cur[x]));
            assert(!unbounded(e0[x]));
            assert(pair_sum(cur, x) == pair_sum(e0, x));
            assert(rev(x) != x);
            lemma_two_finite_le_total(e0, x, rev(x), e0.len() as int);
        } else {
            assert(unbounded(e0[x]));
            assert(cap_add_ok(e0[rev(x)].capacity, Capacity::Finite(finite_total(e0) as u64)));
            assert(cur[rev(x)].capacity->0 <= e0[rev(x)].capacity->0 + f);
        }
    }
}

/// While flow is pushed from a network whose capacities fit, every
/// augmenting path can take its smallest capacity.
#[verifier::rlimit(40)]
pub proof fn lemma_pushable_during_flow(e0: Seq<Edge>, cur: Seq<Edge>, n: nat, s: int, t: int, f: int, s_inf: Set<int>)
    requires
        flow_state(e0, cur, s, t, f),
        edges_wf(e0, n),
        flow_fits(e0),
        separates(s_inf, s, t),
        cut_finite(e0, s_inf),
    ensures
        paths_pushable(cur, s, t),
{
    reveal(flow_state);
    assert(cut_finite(cur, s_inf) && cut_value(cur, s_inf) + f == cut_value(e0, s_inf));
    lemma_cut_sum_bounds(e0, s_inf, e0.len() as int);
    let room = cut_value(e0, s_inf);
    assert forall|p: Seq<int>| augmenting_path(cur, p, s, t) && #[trigger] path_min(cur, p) is Finite implies path_pushable(
        cur,
        p,
        path_min(cur, p)->0,
    ) by {
        let fv = path_min(cur, p)->0;
        lemma_path_min(cur, p);
        let k0 = lemma_walk_leaves(cur, p, s, t, |e: Edge| usable(e), s_inf);
        assert(0 <= p[k0] < cur.len());
        assert(cur[p[k0]].capacity is Finite);
        assert(cap_le(path_min(cur, p), cur[p[k0]].capacity));
        lemma_edge_le_cut(cur, s_inf, p[k0], cur.len() as int);
        assert(fv + f <= room);
        reveal(path_pushable);
        assert forall|k: int| 0 <= k < p.len() implies cap_add_ok(cur[rev(#[trigger] p[k])].capacity, Capacity::Finite(fv)) by {
            assert(cap_le(path_min(cur, p), cur[p[k]].capacity));
            lemma_pushable_edge(e0, cur, f, p[k], fv, room);
        }
        assert forall|k: int| 0 <= k < p.len() implies cap_sub_ok(#[trigger] cur[p[k]].capacity, Capacity::Finite(fv)) by {
            assert(cap_le(path_min(cur, p), cur[p[k]].capacity));
        }
    }
}

/// What a round of the flow loop pushes is finite: a path of unbounded
/// capacities would lead from `s` to `t`.
pub proof fn lemma_subflow_finite(e0: Seq<Edge>, cur: Seq<Edge>, s: int, t: int, f: int, p: Seq<int>)
    requires
        flow_state(e0, cur, s, t, f),
        !reachable(e0, s, t, |e: Edge| unbounded(e)),
        augmenting_path(cur, p, s, t),
    ensures
        path_min(cur, p) is Finite,
{
    reveal(flow_state);
    if path_min(cur, p) == Capacity::Infinity {
        lemma_path_min_unbounded(cur, p);
        let unb = |e: Edge| unbounded(e);
        assert(is_walk(e0, p, s, t, unb)) by {
            assert forall|k: int| 0 <= k < p.len() implies 0 <= #[trigger] p[k] < e0.len() && unb(e0[p[k]]) by {
                assert(unbounded(cur[p[k]]));
            }
            assert forall|k: int| 0 <= k < p.len() - 1 implies e0[#[trigger] p[k]].node2 == e0[p[k + 1]].node1 by {
                assert(cur[p[k]].node2 == cur[p[k + 1]].node1);
            }
        }
    }
}

/// Pushing a finite amount along an augmenting path keeps the flow state with
/// the flow raised by that amount.
#[verifier::spinoff_prover]
#[verifier::rlimit(40)]
pub proof fn lemma_flow_state_push(e0: Seq<Edge>, cur: Seq<Edge>, n: nat, s: int, t: int, f: int, p: Seq<int>)
    requires
        flow_state(e0, cur, s, t, f),
        edges_wf(cur, n),
        augmenting_path(cur, p, s, t),
        p.len() > 0,
        path_min(cur, p) is Finite,
        path_pushable(cur, p, path_min(cur, p)->0),
    ensures
        flow_state(e0, push_path(cur, p, path_min(cur, p)), s, t, f + path_min(cur, p)->0),
{
    reveal(flow_state);
    let sub = path_min(cur, p);
    let fv = sub->0;
    let next = push_path(cur, p, sub);
    lemma_push_from_frame(cur, p, 0, sub);
    lemma_push_from_caps(cur, p, 0, fv);
    assert forall|cut: Set<int>| separates(cut, s, t) && cut_finite(e0, cut) implies cut_finite(next, cut)
        && #[trigger] cut_value(next, cut) + (f + fv) == cut_value(e0, cut) by {
        assert(cut_finite(cur, cut) && cut_value(cur, cut) + f == cut_value(e0, cut));
        lemma_push_path_cut(cur, n, p, s, t, cut);
    }
    assert forall|x: int| 0 <= x < e0.len() implies unbounded(#[trigger] next[x]) == unbounded(e0[x]) by {
        assert(unbounded(cur[x]) == unbounded(e0[x]));
    }
    assert forall|x: int|
        0 <= x < e0.len() && (#[trigger] next[x]).capacity is Finite implies next[x].capacity->0 <= e0[x].capacity->0 + (f + fv) by {
        assert(!unbounded(cur[x]));
        assert(cur[x].capacity->0 <= e0[x].capacity->0 + f);
    }
    assert(pairs_kept(e0, next)) by {
        lemma_push_from_pairs(cur, p, 0, fv);
        assert forall|x: int|
            0 <= x < e0.len() && e0[x].capacity is Finite && e0[rev(x)].capacity is Finite implies #[trigger] pair_sum(
            next,
            x,
        ) == pair_sum(e0, x) by {
            assert(0 <= rev(x) < e0.len());
            assert(unbounded(cur[x]) == unbounded(e0[x]));
            assert(unbounded(cur[rev(x)]) == unbounded(e0[rev(x)]));
            assert(pair_sum(cur, x) == pair_sum(e0, x));
        }
    }
}

/// Where no path of edges with capacity left leads from `s` to `t`, no path
/// of edges of unbounded capacity does either: so `max_flow` run again on
/// the edges that it leaves takes its finite branch, returns a flow of zero
/// and leaves the edges as they are.
pub proof fn lemma_flow_again_zero(edges: Seq<Edge>, s: int, t: int)
    requires
        !reachable(edges, s, t, |e: Edge| usable(e)),
    ensures
        !reachable(edges, s, t, |e: Edge| unbounded(e)),
{
    let unb = |e: Edge| unbounded(e);
    let ok = |e: Edge| usable(e);
    if reachable(edges, s, t, unb) {
        let p = choose|p: Seq<int>| is_walk(edges, p, s, t, unb);
        assert forall|e: Edge| #[trigger] unb(e) implies ok(e) by {}
        lemma_walk_weaken(edges, p, s, t, unb, ok);
    }
}

/// Over edges of any capacity, reaching `v` from `u` is reaching `u` from
/// `v`: every edge has its paired edge back. So what `find_reachable_any`
/// finds from `u` holds `v` exactly when what it finds from `v` holds `u`.
pub proof fn lemma_reachable_any_symmetric(edges: Seq<Edge>, n: nat, u: int, v: int)
    requires
        edges_wf(edges, n),
        reachable(edges, u, v, |e: Edge| true),
    ensures
        reachable(edges, v, u, |e: Edge| true),
{
    let any = |e: Edge| true;
    let p = choose|p: Seq<int>| is_walk(edges, p, u, v, any);
    let len = p.len() as int;
    let q = Seq::new(p.len(), |k: int| rev(p[len - 1 - k]));
    assert forall|k: int| 0 <= k < q.len() implies 0 <= #[trigger] q[k] < edges.len() && any(edges[q[k]]) by {
        let x = p[len - 1 - k];
        assert(0 <= x < edges.len());
        assert(edges[x].node1 == edges[rev(x)].node2);
    }
    assert forall|k: int| 0 <= k < q.len() - 1 implies edges[#[trigger] q[k]].node2 == edges[q[k + 1]].node1 by {
        let x = p[len - 1 - k];
        let y = p[len - 2 - k];
        assert(edges[y].node2 == edges[p[len - 2 - k + 1]].node1);
        assert(edges[x].node1 == edges[rev(x)].node2);
        assert(edges[y].node2 == edges[rev(y)].node1);
    }
    if len > 0 {
        let x = p[len - 1];
        let y = p[0];
        assert(edges[x].node2 == edges[rev(x)].node1);
        assert(edges[y].node1 == edges[rev(y)].node2);
        assert(q[0] == rev(x));
        assert(q[len - 1] == rev(y));
    }
    assert(is_walk(edges, q, v, u, any));
}

/// The nodes reachable from `s` over edges with capacity left.
pub open spec fn residual_side(edges: Seq<Edge>, s: int) -> Set<int> {
    Set::new(|v: int| reachable(edges, s, v, |e: Edge| usable(e)))
}

/// When no augmenting path is left, the flow pushed is the maximum flow, and
/// the nodes still reachable from `s` form a cut of that capacity.
pub proof fn lemma_flow_final(e0: Seq<Edge>, fin: Seq<Edge>, s: int, t: int, f: int)
    requires
        flow_state(e0, fin, s, t, f),
        !reachable(fin, s, t, |e: Edge| usable(e)),
    ensures
        is_max_flow_value(e0, s, t, f),
        separates(residual_side(fin, s), s, t),
        cut_finite(e0, residual_side(fin, s)),
        cut_value(e0, residual_side(fin, s)) == f,
{
    reveal(flow_state);
    let usb = |e: Edge| usable(e);
    let best = residual_side(fin, s);
    assert(is_walk(fin, Seq::<int>::empty(), s, s, usb));
    assert(best.contains(s));
    assert forall|i: int|
        0 <= i < fin.len() && best.contains(fin[i].node1 as int) && !best.contains(fin[i].node2 as int)
            implies #[trigger] fin[i].capacity == Capacity::Finite(0) by {
        if fin[i].capacity != Capacity::Finite(0) {
            let p = choose|p: Seq<int>| is_walk(fin, p, s, fin[i].node1 as int, usb);
            lemma_walk_append(fin, p, s, i, usb);
        }
    }
    assert forall|i: int|
        0 <= i < e0.len() && best.contains(e0[i].node1 as int) && !best.contains(e0[i].node2 as int)
            implies #[trigger] e0[i].capacity is Finite by {
        assert(fin[i].capacity == Capacity::Finite(0));
        assert(!unbounded(fin[i]));
    }
    lemma_cut_sum_zero(fin, best, fin.len() as int);
    assert(separates(best, s, t));
    assert(cut_value(fin, best) + f == cut_value(e0, best));
    assert forall|cut: Set<int>| separates(cut, s, t) && cut_finite(e0, cut) implies f <= #[trigger] cut_value(e0, cut) by {
        assert(cut_finite(fin, cut) && cut_value(fin, cut) + f == cut_value(e0, cut));
        lemma_cut_sum_bounds(fin, cut, fin.len() as int);
    }
}


/// The finite capacity of an edge (zero when unbounded).
pub open spec fn finite_part(c: Capacity) -> int {
    match c {
        Capacity::Finite(x) => x as int,
        Capacity::Infinity => 0,
    }
}

/// Adding a pair of edges adds their finite capacities to the total.
pub proof fn lemma_finite_total_push2(edges: Seq<Edge>, a: Edge, b: Edge)
    ensures
        finite_total(edges.push(a).push(b)) == finite_total(edges) + finite_part(a.capacity) + finite_part(b.capacity),
{
    let e1 = edges.push(a);
    let e2 = e1.push(b);
    lemma_finite_total_prefix_same(edges, e1, edges.len() as int);
    lemma_finite_total_prefix_same(e1, e2, e1.len() as int);
}

/// The total over a prefix depends on the prefix alone.
pub proof fn lemma_finite_total_prefix_same(a: Seq<Edge>, b: Seq<Edge>, k: int)
    requires
        0 <= k <= a.len(),
        k <= b.len(),
        forall|i: int| 0 <= i < k ==> a[i] == b[i],
    ensures
        finite_total_prefix(a, k) == finite_total_prefix(b, k),
    decreases k,
{
    if k > 0 {
        lemma_finite_total_prefix_same(a, b, k - 1);
    }
}


/// When every edge leaving `s` has finite capacity, no other node can be
/// reached from `s` over unbounded edges.
pub proof fn lemma_no_unbounded_reach(edges: Seq<Edge>, s: int, t: int)
    requires
        s != t,
        forall|i: int| 0 <= i < edges.len() && (#[trigger] edges[i]).node1 == s ==> edges[i].capacity is Finite,
    ensures
        !reachable(edges, s, t, |e: Edge| unbounded(e)),
{
    let unb = |e: Edge| unbounded(e);
    if reachable(edges, s, t, unb) {
        let p = choose|p: Seq<int>| is_walk(edges, p, s, t, unb);
        assert(unb(edges[p[0]]));
    }
}

/// A flow network: a list of paired edges, the edges leaving each node, and
/// a buffer for the search of augmenting paths.
#[derive(Debug, Clone)]
pub struct Graph {
    edge_heap: Vec<Edge>,
    edge_idx: Vec<Vec<usize>>,
    last_edge_buf: Vec<usize>,
}

impl Graph {
    /// The edges, in the order they were added.
    pub closed spec fn edges(&self) -> Seq<Edge> {
        self.edge_heap@
    }

    /// The number of nodes.
    pub closed spec fn node_count(&self) -> nat {
        self.edge_idx@.len()
    }

    /// The indices of the edges that leave node `v`.
    pub closed spec fn out_edges(&self, v: int) -> Seq<usize> {
        self.edge_idx@[v]@
    }

    /// The internal consistency of the graph.
    pub closed spec fn wf(&self) -> bool {
        &&& self.wf_core()
        &&& self.last_edge_buf@.len() == self.node_count()
    }

    /// The consistency of the edges and of the lists of edges leaving each node.
    closed spec fn wf_core(&self) -> bool {
        graph_core_wf(self.edge_heap@, self.edge_idx@)
    }

    /// What a well-formed graph shows of its edges.
    pub proof fn lemma_wf(&self)
        requires
            self.wf(),
        ensures
            edges_wf(self.edges(), self.node_count()),
            self.edges().len() + 2 < usize::MAX,
    {
        reveal(graph_core_wf);
    }


    proof fn lemma_core_unfold(&self)
        requires
            self.wf_core(),
        ensures
            edges_wf(self.edges(), self.node_count()),
            self.edges().len() + 2 < usize::MAX,
            forall|i: int| 0 <= i < self.edges().len() ==> (#[trigger] self.edges()[i]).node1 < self.node_count(),
            forall|v: int, k: int|
                0 <= v < self.node_count() && 0 <= k < self.out_edges(v).len() ==> {
                    &&& #[trigger] self.out_edges(v)[k] < self.edges().len()
                    &&& self.edges()[self.out_edges(v)[k] as int].node1 == v
                },
            forall|i: int|
                0 <= i < self.edges().len() ==> #[trigger] self.out_edges(self.edges()[i].node1 as int).contains(i as usize),
    {
        reveal(graph_core_wf);
    }

    proof fn lemma_core_fold(&self)
        requires
            edges_wf(self.edges(), self.node_count()),
            self.edges().len() + 2 < usize::MAX,
            forall|v: int, k: int|
                0 <= v < self.node_count() && 0 <= k < self.out_edges(v).len() ==> {
                    &&& #[trigger] self.out_edges(v)[k] < self.edges().len()
                    &&& self.edges()[self.out_edges(v)[k] as int].node1 == v
                },
            forall|i: int|
                0 <= i < self.edges().len() ==> #[trigger] self.out_edges(self.edges()[i].node1 as int).contains(i as usize),
        ensures
            self.wf_core(),
    {
        reveal(graph_core_wf);
        let idx = self.edge_idx@;
        let edges = self.edges();
        assert forall|v: int, k: int| 0 <= v < idx.len() && 0 <= k < idx[v]@.len() implies {
            &&& #[trigger] idx[v]@[k] < edges.len()
            &&& edges[idx[v]@[k] as int].node1 == v
        } by {
            assert(self.out_edges(v)[k] == idx[v]@[k]);
        }
        assert forall|i: int| 0 <= i < edges.len() implies #[trigger] idx[edges[i].node1 as int]@.contains(i as usize) by {
            assert(self.out_edges(edges[i].node1 as int).contains(i as usize));
        }
    }

    /// A graph with `n_nodes` nodes and no edges.
    pub fn new(n_nodes: usize) -> (g: Self)
        ensures
            g.wf(),
            g.node_count() == n_nodes,
            g.edges() == Seq::<Edge>::empty(),
            partners_idle(g.edges()),
    {
        reveal(graph_core_wf);
        reveal(partners_idle);
        let mut edge_idx: Vec<Vec<usize>> = Vec::new();
        let mut i: usize = 0;
        while i < n_nodes
            invariant
                i <= n_nodes,
                edge_idx@.len() == i,
                forall|v: int| 0 <= v < i ==> (#[trigger] edge_idx@[v])@.len() == 0,
            decreases n_nodes - i,
        {
            edge_idx.push(Vec::new());
            i += 1;
        }
        let g = Graph { edge_heap: Vec::new(), edge_idx, last_edge_buf: vec![0; n_nodes] };
        assert forall|v: int, k: int|
            0 <= v < g.node_count() && 0 <= k < g.out_edges(v).len() implies {
                &&& #[trigger] g.out_edges(v)[k] < g.edges().len()
                &&& g.edges()[g.out_edges(v)[k] as int].node1 == v
            } by {
            assert(g.edge_idx@[v]@.len() == 0);
        }
        g
    }

    /// The number of nodes.
    pub fn n_nodes(&self) -> (r: usize)
        ensures
            r == self.node_count(),
    {
        self.edge_idx.len()
    }

    /// The number of edges, counting each reverse edge.
    pub fn n_edges(&self) -> (r: usize)
        ensures
            r == self.edges().len(),
    {
        self.edge_heap.len()
    }

    fn add_one_edge(&mut self, node1: usize, node2: usize, capacity: Capacity, is_real: bool) -> (pos: usize)
        requires
            node1 < old(self).node_count(),
            node2 < old(self).node_count(),
            old(self).edges().len() + 1 < usize::MAX,
            old(self).last_edge_buf@.len() == old(self).node_count(),
            forall|i: int| 0 <= i < old(self).edges().len() ==> (#[trigger] old(self).edges()[i]).node1 < old(self).node_count(),
            forall|v: int, k: int|
                0 <= v < old(self).node_count() && 0 <= k < old(self).out_edges(v).len() ==> {
                    &&& #[trigger] old(self).out_edges(v)[k] < old(self).edges().len()
                    &&& old(self).edges()[old(self).out_edges(v)[k] as int].node1 == v
                },
            forall|i: int|
                0 <= i < old(self).edges().len() ==> #[trigger] old(self).out_edges(
                    old(self).edges()[i].node1 as int,
                ).contains(i as usize),
        ensures
            pos == old(self).edges().len(),
            final(self).edges() == old(self).edges().push(
                Edge { node1, node2, capacity, is_real },
            ),
            final(self).node_count() == old(self).node_count(),
            final(self).last_edge_buf@.len() == final(self).node_count(),
            forall|i: int| 0 <= i < final(self).edges().len() ==> (#[trigger] final(self).edges()[i]).node1 < final(self).node_count(),
            forall|v: int, k: int|
                0 <= v < final(self).node_count() && 0 <= k < final(self).out_edges(v).len() ==> {
                    &&& #[trigger] final(self).out_edges(v)[k] < final(self).edges().len()
                    &&& final(self).edges()[final(self).out_edges(v)[k] as int].node1 == v
                },
            forall|i: int|
                0 <= i < final(self).edges().len() ==> #[trigger] final(self).out_edges(
                    final(self).edges()[i].node1 as int,
                ).contains(i as usize),
    {
        let pos = self.edge_heap.len();
        self.edge_idx[node1].push(pos);
        self.edge_heap.push(Edge { node1, node2, capacity, is_real });
        proof {
            let g = *self;
            let og = *old(self);
            assert forall|v: int| 0 <= v < og.node_count() implies #[trigger] g.out_edges(v) == if v == node1 {
                og.out_edges(v).push(pos)
            } else {
                og.out_edges(v)
            } by {}
            assert forall|v: int, k: int|
                0 <= v < g.node_count() && 0 <= k < g.out_edges(v).len() implies {
                    &&& #[trigger] g.out_edges(v)[k] < g.edges().len()
                    &&& g.edges()[g.out_edges(v)[k] as int].node1 == v
                } by {
                if v != node1 || k < og.out_edges(v).len() {
                    assert(g.out_edges(v)[k] == og.out_edges(v)[k]);
                }
            }
            assert forall|i: int| 0 <= i < g.edges().len() implies #[trigger] g.out_edges(
                g.edges()[i].node1 as int,
            ).contains(i as usize) by {
                if i < og.edges().len() {
                    let v = og.edges()[i].node1 as int;
                    assert(og.out_edges(v).contains(i as usize));
                    let k = choose|k: int| 0 <= k < og.out_edges(v).len() && og.out_edges(v)[k] == i as usize;
                    assert(og.edges()[i] == g.edges()[i]);
                    assert(g.out_edges(v)[k] == i as usize);
                } else {
                    assert(g.out_edges(node1 as int)[og.out_edges(node1 as int).len() as int] == i as usize);
                }
            }
        }
        pos
    }

    /// Adds an edge from `node1` to `node2` with the given capacity, and the
    /// reverse edge with capacity zero before it. Returns the index of the
    /// edge from `node1` to `node2`.
    pub fn add_edge(&mut self, node1: usize, node2: usize, capacity: Capacity) -> (pos: usize)
        requires
            old(self).wf(),
            node1 < old(self).node_count(),
            node2 < old(self).node_count(),
            old(self).edges().len() + 4 < usize::MAX,
        ensures
            final(self).wf(),
            final(self).node_count() == old(self).node_count(),
            finite_total(final(self).edges()) == finite_total(old(self).edges()) + finite_part(capacity),
            pos == old(self).edges().len() + 1,
            final(self).edges() == old(self).edges().push(
                Edge { node1: node2, node2: node1, capacity: Capacity::Finite(0), is_real: false },
            ).push(Edge { node1, node2, capacity, is_real: true }),
            partners_idle(old(self).edges()) ==> partners_idle(final(self).edges()),
    {
        proof {
            self.lemma_core_unfold();
        }
        self.add_one_edge(node2, node1, Capacity::Finite(0), false);
        let pos = self.add_one_edge(node1, node2, capacity, true);
        proof {
            self.lemma_pair_added(old(self).edges());
            self.lemma_core_fold();
            lemma_finite_total_push2(old(self).edges(), self.edges()[old(self).edges().len() as int], self.edges()[old(self).edges().len() + 1int]);
            let og = *old(self);
            og.lemma_wf();
            lemma_partners_added(og.edges(), self.edges());
        }
        pos
    }

    /// Adds an edge in each direction between `node1` and `node2`, both with
    /// the given capacity. Returns the index of the edge from `node1` to
    /// `node2`.
    pub fn add_biedge(&mut self, node1: usize, node2: usize, capacity: Capacity) -> (pos: usize)
        requires
            old(self).wf(),
            node1 < old(self).node_count(),
            node2 < old(self).node_count(),
            old(self).edges().len() + 4 < usize::MAX,
        ensures
            final(self).wf(),
            final(self).node_count() == old(self).node_count(),
            finite_total(final(self).edges()) == finite_total(old(self).edges()) + 2 * finite_part(capacity),
            pos == old(self).edges().len() + 1,
            final(self).edges() == old(self).edges().push(
                Edge { node1: node2, node2: node1, capacity, is_real: false },
            ).push(Edge { node1, node2, capacity, is_real: true }),
            partners_idle(old(self).edges()) ==> partners_idle(final(self).edges()),
    {
        proof {
            self.lemma_core_unfold();
        }
        self.add_one_edge(node2, node1, capacity, false);
        let pos = self.add_one_edge(node1, node2, capacity, true);
        proof {
            self.lemma_pair_added(old(self).edges());
            self.lemma_core_fold();
            lemma_finite_total_push2(old(self).edges(), self.edges()[old(self).edges().len() as int], self.edges()[old(self).edges().len() + 1int]);
            let og = *old(self);
            og.lemma_wf();
            lemma_partners_added(og.edges(), self.edges());
        }
        pos
    }

    proof fn lemma_pair_added(&self, before: Seq<Edge>)
        requires
            edges_wf(before, self.node_count()),
            self.edges().len() == before.len() + 2,
            forall|i: int| 0 <= i < before.len() ==> self.edges()[i] == before[i],
            self.edges()[before.len() as int].node1 == self.edges()[before.len() + 1int].node2,
            self.edges()[before.len() as int].node2 == self.edges()[before.len() + 1int].node1,
            !self.edges()[before.len() as int].is_real,
            self.edges()[before.len() + 1int].is_real,
            self.edges()[before.len() + 1int].node1 < self.node_count(),
            self.edges()[before.len() + 1int].node2 < self.node_count(),
        ensures
            edges_wf(self.edges(), self.node_count()),
    {
        let e = self.edges();
        assert forall|i: int| 0 <= i < e.len() implies {
            &&& (#[trigger] e[i]).node1 < self.node_count()
            &&& e[i].node2 < self.node_count()
            &&& e[i].node1 == e[rev(i)].node2
            &&& e[i].node2 == e[rev(i)].node1
            &&& e[i].is_real == (i % 2 == 1)
        } by {
            if i < before.len() {
                assert(before[i] == e[i]);
                assert(before[rev(i)] == e[rev(i)]);
            }
        }
    }


    /// Marks in `out` node `s` and every node that can be reached from it over
    /// edges that `filter` accepts, through nodes not marked yet. A node that
    /// is already marked is neither entered nor passed through.
    pub fn mark_reachable<F: Fn(&Edge) -> bool>(&self, s: usize, out: &mut [bool], filter: &F)
        requires
            self.wf(),
            s < self.node_count(),
            old(out)@.len() == self.node_count(),
            filter_total(filter),
        ensures
            final(out)@.len() == old(out)@.len(),
            forall|v: int|
                0 <= v < old(out)@.len() && #[trigger] final(out)@[v] && !old(out)@[v] ==> reachable_avoiding(
                    self.edges(),
                    s as int,
                    v,
                    |e: Edge| filter_may_pass(filter, e),
                    old(out)@,
                ),
            forall|v: int|
                0 <= v < old(out)@.len() && reachable_avoiding(
                    self.edges(),
                    s as int,
                    v,
                    |e: Edge| filter_must_pass(filter, e),
                    old(out)@,
                ) ==> #[trigger] final(out)@[v],
            forall|v: int| 0 <= v < old(out)@.len() && #[trigger] old(out)@[v] ==> final(out)@[v],
            final(out)@[s as int],
            forall|i: int|
                0 <= i < self.edges().len() && final(out)@[self.edges()[i].node1 as int]
                    && !old(out)@[self.edges()[i].node1 as int] && #[trigger] filter_must_pass(
                    filter,
                    self.edges()[i],
                ) ==> final(out)@[self.edges()[i].node2 as int],
        decreases count_unmarked(old(out)@),
    {
        proof {
            reveal(graph_core_wf);
        }
        reveal(graph_core_wf);
        if out[s] {
            proof {
                let ok = |e: Edge| filter_must_pass(filter, e);
                assert forall|v: int|
                    0 <= v < old(out)@.len() && reachable_avoiding(self.edges(), s as int, v, ok, old(out)@)
                        implies #[trigger] out@[v] by {}
            }
            return;
        }
        let ghost start = out@;
        out[s] = true;
        proof {
            assert(out@ == start.update(s as int, true));
            let may = |e: Edge| filter_may_pass(filter, e);
            assert(is_walk(self.edges(), Seq::<int>::empty(), s as int, s as int, may));
        }
        let n_out = self.edge_idx[s].len();
        let mut k: usize = 0;
        while k < n_out
            invariant
                self.wf(),
                s < self.node_count(),
                filter_total(filter),
                n_out == self.out_edges(s as int).len(),
                k <= n_out,
                !start[s as int],
                start == old(out)@,
                out@.len() == start.len(),
                start.len() == self.node_count(),
                out@[s as int],
                forall|v: int| 0 <= v < start.len() && #[trigger] start[v] ==> out@[v],
                forall|v: int|
                    0 <= v < start.len() && #[trigger] out@[v] && !start[v] ==> reachable_avoiding(
                        self.edges(),
                        s as int,
                        v,
                        |e: Edge| filter_may_pass(filter, e),
                        start,
                    ),
                forall|i: int|
                    0 <= i < self.edges().len() && out@[self.edges()[i].node1 as int]
                        && !start[self.edges()[i].node1 as int] && self.edges()[i].node1 != s
                        && #[trigger] filter_must_pass(filter, self.edges()[i])
                        ==> out@[self.edges()[i].node2 as int],
                forall|j: int|
                    0 <= j < k && #[trigger] filter_must_pass(filter, self.edges()[self.out_edges(s as int)[j] as int])
                        ==> out@[self.edges()[self.out_edges(s as int)[j] as int].node2 as int],
            decreases n_out - k,
        {
            proof {
                reveal(graph_core_wf);
            }
            let ei = self.edge_idx[s][k];
            let e = &self.edge_heap[ei];
            let pass = filter(e);
            if pass {
                let w = e.node2;
                let ghost before = out@;
                proof {
                    assert(!start[s as int] && before[s as int]);
                    lemma_count_unmarked_monotone(start, before);
                }
                self.mark_reachable(w, out, filter);
                proof {
                    let may = |e: Edge| filter_may_pass(filter, e);
                    assert(may(self.edges()[ei as int]));
                    lemma_marks_extend(self.edges(), ei as int, s as int, may, start, before, out@);
                }
            }
            k += 1;
        }
        proof {
            let g = self.edges();
            let must = |e: Edge| filter_must_pass(filter, e);
            assert forall|i: int|
                0 <= i < g.len() && out@[g[i].node1 as int] && !start[g[i].node1 as int]
                    && #[trigger] filter_must_pass(filter, g[i]) implies out@[g[i].node2 as int] by {
                if g[i].node1 == s {
                    assert(self.out_edges(s as int).contains(i as usize));
                    let j = choose|j: int| 0 <= j < n_out && self.out_edges(s as int)[j] == i as usize;
                    assert(filter_must_pass(filter, g[self.out_edges(s as int)[j] as int]));
                }
            }
            assert forall|v: int|
                0 <= v < start.len() && reachable_avoiding(g, s as int, v, must, start) implies #[trigger] out@[v] by {
                let p = choose|p: Seq<int>|
                    {
                        &&& is_walk(g, p, s as int, v, must)
                        &&& !start[s as int]
                        &&& forall|k2: int| 0 <= k2 < p.len() ==> !start[g[#[trigger] p[k2]].node2 as int]
                    };
                assert forall|i: int| 0 <= i < g.len() && out@[g[i].node1 as int] && !start[g[i].node1 as int]
                    && #[trigger] must(g[i]) implies out@[g[i].node2 as int] by {
                    assert(filter_must_pass(filter, g[i]));
                }
                lemma_avoiding_walk_marked(g, p, s as int, v, must, start, out@);
            }
        }
    }


    /// Marks in `out` node `s` and every node reachable from it through nodes
    /// not marked yet, over any edges.
    pub fn mark_reachable_any(&self, s: usize, out: &mut [bool])
        requires
            self.wf(),
            s < self.node_count(),
            old(out)@.len() == self.node_count(),
        ensures
            final(out)@.len() == old(out)@.len(),
            forall|v: int|
                0 <= v < old(out)@.len() ==> #[trigger] final(out)@[v] == (old(out)@[v] || reachable_avoiding(
                    self.edges(),
                    s as int,
                    v,
                    |e: Edge| true,
                    old(out)@,
                )),
    {
        let filter = |e: &Edge| -> (r: bool)
            ensures
                r,
            { true };
        self.mark_reachable(s, out, &filter);
        proof {
            let any = |e: Edge| true;
            let must = |e: Edge| filter_must_pass(&filter, e);
            let may = |e: Edge| filter_may_pass(&filter, e);
            assert forall|e: Edge| #[trigger] any(e) implies must(e) by {}
            assert forall|e: Edge| #[trigger] may(e) implies any(e) by {}
            assert forall|v: int| 0 <= v < old(out)@.len() implies #[trigger] out@[v] == (old(out)@[v]
                || reachable_avoiding(self.edges(), s as int, v, any, old(out)@)) by {
                if reachable_avoiding(self.edges(), s as int, v, any, old(out)@) {
                    lemma_reachable_avoiding_weaken(self.edges(), s as int, v, any, must, old(out)@);
                }
                if out@[v] && !old(out)@[v] {
                    lemma_reachable_avoiding_weaken(self.edges(), s as int, v, may, any, old(out)@);
                }
            }
        }
    }

    /// Marks in `out` node `s` and every node reachable from it through nodes
    /// not marked yet, over edges that were asked for and have capacity left.
    pub fn mark_reachable_capable(&self, s: usize, out: &mut [bool])
        requires
            self.wf(),
            s < self.node_count(),
            old(out)@.len() == self.node_count(),
        ensures
            final(out)@.len() == old(out)@.len(),
            forall|v: int|
                0 <= v < old(out)@.len() ==> #[trigger] final(out)@[v] == (old(out)@[v] || reachable_avoiding(
                    self.edges(),
                    s as int,
                    v,
                    |e: Edge| capable_real(e),
                    old(out)@,
                )),
    {
        let filter = |e: &Edge| -> (r: bool)
            ensures
                r == capable_real(*e),
            { e.capacity != Capacity::Finite(0) && e.is_real };
        self.mark_reachable(s, out, &filter);
        proof {
            let cap = |e: Edge| capable_real(e);
            let must = |e: Edge| filter_must_pass(&filter, e);
            let may = |e: Edge| filter_may_pass(&filter, e);
            assert forall|e: Edge| #[trigger] cap(e) implies must(e) by {}
            assert forall|e: Edge| #[trigger] may(e) implies cap(e) by {}
            assert forall|v: int| 0 <= v < old(out)@.len() implies #[trigger] out@[v] == (old(out)@[v]
                || reachable_avoiding(self.edges(), s as int, v, cap, old(out)@)) by {
                if reachable_avoiding(self.edges(), s as int, v, cap, old(out)@) {
                    lemma_reachable_avoiding_weaken(self.edges(), s as int, v, cap, must, old(out)@);
                }
                if out@[v] && !old(out)@[v] {
                    lemma_reachable_avoiding_weaken(self.edges(), s as int, v, may, cap, old(out)@);
                }
            }
        }
    }

    /// For each node, whether it can be reached from `s` over edges that
    /// `filter` accepts: every node reachable over edges it must accept is
    /// marked, and every marked node is reachable over edges it may accept.
    pub fn find_reachable<F: Fn(&Edge) -> bool>(&self, s: usize, filter: &F) -> (out: Vec<bool>)
        requires
            self.wf(),
            s < self.node_count(),
            filter_total(filter),
        ensures
            out@.len() == self.node_count(),
            forall|v: int|
                0 <= v < out@.len() && #[trigger] out@[v] ==> reachable(
                    self.edges(),
                    s as int,
                    v,
                    |e: Edge| filter_may_pass(filter, e),
                ),
            forall|v: int|
                0 <= v < out@.len() && reachable(
                    self.edges(),
                    s as int,
                    v,
                    |e: Edge| filter_must_pass(filter, e),
                ) ==> #[trigger] out@[v],
    {
        let mut out: Vec<bool> = vec![false; self.n_nodes()];
        let ghost start = out@;
        proof {
            self.lemma_wf();
        }
        self.mark_reachable(s, out.as_mut_slice(), filter);
        proof {
            let may = |e: Edge| filter_may_pass(filter, e);
            let must = |e: Edge| filter_must_pass(filter, e);
            assert forall|v: int| 0 <= v < out@.len() && #[trigger] out@[v] implies reachable(
                self.edges(),
                s as int,
                v,
                may,
            ) by {
                lemma_reachable_avoiding_none(self.edges(), s as int, v, may, start);
            }
            assert forall|v: int| 0 <= v < out@.len() && reachable(self.edges(), s as int, v, must)
                implies #[trigger] out@[v] by {
                lemma_reachable_avoiding_none(self.edges(), s as int, v, must, start);
            }
        }
        out
    }

    /// For each node, whether it can be reached from `s` over any edges.
    pub fn find_reachable_any(&self, s: usize) -> (out: Vec<bool>)
        requires
            self.wf(),
            s < self.node_count(),
        ensures
            out@.len() == self.node_count(),
            forall|v: int|
                0 <= v < out@.len() ==> #[trigger] out@[v] == reachable(self.edges(), s as int, v, |e: Edge| true),
    {
        let filter = |e: &Edge| -> (r: bool)
            ensures
                r,
            { true };
        let out = self.find_reachable(s, &filter);
        proof {
            let any = |e: Edge| true;
            let must = |e: Edge| filter_must_pass(&filter, e);
            let may = |e: Edge| filter_may_pass(&filter, e);
            assert forall|e: Edge| #[trigger] any(e) implies must(e) by {}
            assert forall|v: int| 0 <= v < out@.len() implies #[trigger] out@[v] == reachable(
                self.edges(),
                s as int,
                v,
                any,
            ) by {
                if reachable(self.edges(), s as int, v, any) {
                    let p = choose|p: Seq<int>| is_walk(self.edges(), p, s as int, v, any);
                    lemma_walk_weaken(self.edges(), p, s as int, v, any, must);
                }
                if out@[v] {
                    let p = choose|p: Seq<int>| is_walk(self.edges(), p, s as int, v, may);
                    lemma_walk_weaken(self.edges(), p, s as int, v, may, any);
                }
            }
        }
        out
    }

    /// For each node, whether it can be reached from `s` over edges with
    /// capacity left.
    pub fn find_reachable_capable(&self, s: usize) -> (out: Vec<bool>)
        requires
            self.wf(),
            s < self.node_count(),
        ensures
            out@.len() == self.node_count(),
            forall|v: int|
                0 <= v < out@.len() ==> #[trigger] out@[v] == reachable(self.edges(), s as int, v, |e: Edge| usable(e)),
    {
        let filter = |e: &Edge| -> (r: bool)
            ensures
                r == usable(*e),
            { e.capacity != Capacity::Finite(0) };
        let out = self.find_reachable(s, &filter);
        proof {
            let cap = |e: Edge| usable(e);
            let must = |e: Edge| filter_must_pass(&filter, e);
            let may = |e: Edge| filter_may_pass(&filter, e);
            assert forall|e: Edge| #[trigger] cap(e) implies must(e) by {}
            assert forall|e: Edge| #[trigger] may(e) implies cap(e) by {}
            assert forall|v: int| 0 <= v < out@.len() implies #[trigger] out@[v] == reachable(
                self.edges(),
                s as int,
                v,
                cap,
            ) by {
                if reachable(self.edges(), s as int, v, cap) {
                    let p = choose|p: Seq<int>| is_walk(self.edges(), p, s as int, v, cap);
                    lemma_walk_weaken(self.edges(), p, s as int, v, cap, must);
                }
                if out@[v] {
                    let p = choose|p: Seq<int>| is_walk(self.edges(), p, s as int, v, may);
                    lemma_walk_weaken(self.edges(), p, s as int, v, may, cap);
                }
            }
        }
        out
    }



    /// Changing capacities alone keeps the graph consistent.
    proof fn lemma_wf_core_kept(&self, before: Graph)
        requires
            before.wf_core(),
            same_shape(self.edges(), before.edges()),
            self.edge_idx == before.edge_idx,
        ensures
            self.wf_core(),
    {
        reveal(graph_core_wf);
        lemma_wf_same_shape(before.edges(), self.edges(), before.node_count());
        assert forall|v: int, k: int|
            0 <= v < self.node_count() && 0 <= k < self.out_edges(v).len() implies {
                &&& #[trigger] self.out_edges(v)[k] < self.edges().len()
                &&& self.edges()[self.out_edges(v)[k] as int].node1 == v
            } by {
            assert(before.out_edges(v)[k] < before.edges().len());
            assert(before.edges()[before.out_edges(v)[k] as int].node1 == v);
        }
        assert forall|i: int| 0 <= i < self.edges().len() implies #[trigger] self.out_edges(
            self.edges()[i].node1 as int,
        ).contains(i as usize) by {
            assert(before.out_edges(before.edges()[i].node1 as int).contains(i as usize));
        }
    }


    proof fn lemma_wf_core_edges(&self)
        requires
            self.wf_core(),
        ensures
            edges_wf(self.edges(), self.node_count()),
            self.edges().len() + 2 < usize::MAX,
    {
        reveal(graph_core_wf);
    }

    /// Breadth-first search from `s` over edges with capacity left: records in
    /// `last_edge` the edge each reached node was first reached by.
    #[verifier::spinoff_prover]
    #[verifier::rlimit(50)]
    fn search(&self, s: usize, last_edge: &mut Vec<usize>) -> (rank: Ghost<Seq<int>>)
        requires
            self.wf_core(),
            s < self.node_count(),
            old(last_edge)@.len() == self.node_count(),
        ensures
            final(last_edge)@.len() == self.node_count(),
            search_tree(self.edges(), final(last_edge)@, rank@, s as int),
            rank@[s as int] == 0,
            forall|v: int| 0 <= v < self.node_count() ==> #[trigger] rank@[v] >= 0,
            forall|i: int|
                0 <= i < self.edges().len() && final(last_edge)@[self.edges()[i].node1 as int] != usize::MAX
                    && #[trigger] usable(self.edges()[i]) ==> final(last_edge)@[self.edges()[i].node2 as int] != usize::MAX,
    {
        reveal(graph_core_wf);
        let ghost e0 = self.edges();
        let n = self.edge_idx.len();
        let mut i: usize = 0;
        while i < last_edge.len()
            invariant
                i <= last_edge@.len(),
                last_edge@.len() == n,
                forall|v: int| 0 <= v < i ==> #[trigger] last_edge@[v] == usize::MAX,
            decreases last_edge@.len() - i,
        {
            proof {
                reveal(graph_core_wf);
            }
            last_edge[i] = usize::MAX;
            i += 1;
        }
        let mut queue: std::collections::VecDeque<usize> = std::collections::VecDeque::new();
        queue.push_back(s);
        last_edge[s] = usize::MAX - 1;
        let ghost mut rank: Seq<int> = Seq::new(n as nat, |v: int| 0int);
        let ghost mut next: int = 1;
        proof {
            assert(search_tree(e0, last_edge@, rank, s as int));
            assert(queue@[0] == s);
        }
        while queue.len() > 0
            invariant
                self.wf_core(),
                self.edges() == e0,
                n == self.node_count(),
                s < n,
                last_edge@.len() == n,
                search_tree(e0, last_edge@, rank, s as int),
                forall|k: int| 0 <= k < queue@.len() ==> #[trigger] queue@[k] < n && last_edge@[queue@[k] as int] != usize::MAX,
                forall|v: int|
                    0 <= v < n && #[trigger] last_edge@[v] != usize::MAX ==> queue@.contains(v as usize) || (forall|i: int|
                        0 <= i < e0.len() && e0[i].node1 == v && #[trigger] usable(e0[i]) ==> last_edge@[e0[i].node2 as int] != usize::MAX),
                forall|v: int| 0 <= v < n ==> #[trigger] rank[v] < next,
                forall|v: int| 0 <= v < n ==> #[trigger] rank[v] >= 0,
                rank[s as int] == 0,
                next >= 1,
            decreases count_unmarked(seen_marks(last_edge@)), queue@.len(),
        {
            proof {
                reveal(graph_core_wf);
            }
            let ghost le_start = last_edge@;
            let ghost q_start = queue@;
            let v = match queue.pop_front() {
                Some(v) => v,
                None => {
                    proof {
                        assert(false);
                    }
                    0
                },
            };
            proof {
                assert(q_start[0] == v);
                assert(queue@ == q_start.drop_first());
                assert forall|u: int|
                    0 <= u < n && u != v && #[trigger] last_edge@[u] != usize::MAX && q_start.contains(u as usize)
                        implies queue@.contains(u as usize) by {
                    let k = choose|k: int| 0 <= k < q_start.len() && q_start[k] == u as usize;
                    assert(k != 0);
                    assert(queue@[k - 1] == u as usize);
                }
                assert forall|k2: int| 0 <= k2 < queue@.len() implies #[trigger] queue@[k2] < n && last_edge@[queue@[k2] as int] != usize::MAX by {
                    assert(queue@[k2] == q_start[k2 + 1]);
                }
            }
            let deg = self.edge_idx[v].len();
            let mut k: usize = 0;
            while k < deg
                invariant
                    self.wf_core(),
                    self.edges() == e0,
                    n == self.node_count(),
                    v < n,
                    s < n,
                    deg == self.out_edges(v as int).len(),
                    k <= deg,
                    last_edge@.len() == n,
                    last_edge@[v as int] != usize::MAX,
                    search_tree(e0, last_edge@, rank, s as int),
                    forall|k2: int| 0 <= k2 < queue@.len() ==> #[trigger] queue@[k2] < n && last_edge@[queue@[k2] as int] != usize::MAX,
                    forall|u: int|
                        0 <= u < n && u != v && #[trigger] last_edge@[u] != usize::MAX ==> queue@.contains(u as usize) || (forall|i: int|
                            0 <= i < e0.len() && e0[i].node1 == u && #[trigger] usable(e0[i]) ==> last_edge@[e0[i].node2 as int] != usize::MAX),
                    forall|j: int|
                        0 <= j < k && #[trigger] usable(e0[self.out_edges(v as int)[j] as int]) ==> last_edge@[e0[self.out_edges(v as int)[j] as int].node2 as int] != usize::MAX,
                    forall|u: int| 0 <= u < n ==> #[trigger] rank[u] < next,
                    forall|u: int| 0 <= u < n ==> #[trigger] rank[u] >= 0,
                    rank[s as int] == 0,
                    next >= 1,
                    le_start.len() == n,
                    forall|u: int| 0 <= u < n && #[trigger] le_start[u] != usize::MAX ==> last_edge@[u] != usize::MAX,
                    count_unmarked(seen_marks(last_edge@)) <= count_unmarked(seen_marks(le_start)),
                    count_unmarked(seen_marks(last_edge@)) == count_unmarked(seen_marks(le_start)) ==> queue@.len() < q_start.len(),
                decreases deg - k,
            {
                proof {
                    reveal(graph_core_wf);
                }
                let ei = self.edge_idx[v][k];
                let e = self.edge_heap[ei];
                if e.capacity.is_zero() {
                } else if last_edge[e.node2] != usize::MAX {
                } else {
                    let ghost before = last_edge@;
                    let ghost q_before = queue@;
                    let w = e.node2;
                    last_edge[w] = ei;
                    queue.push_back(w);
                    proof {
                        lemma_search_step(e0, before, last_edge@, le_start, rank, next, s as int, w as int, ei as int);
                        rank = rank.update(w as int, next);
                        next = next + 1;
                        assert(queue@[queue@.len() - 1] == w);
                        assert forall|u: int|
                            0 <= u < n && u != v && #[trigger] last_edge@[u] != usize::MAX && u != w && q_before.contains(u as usize)
                                implies queue@.contains(u as usize) by {
                            let k3 = choose|k3: int| 0 <= k3 < q_before.len() && q_before[k3] == u as usize;
                            assert(queue@[k3] == u as usize);
                        }
                        assert forall|k2: int| 0 <= k2 < queue@.len() implies #[trigger] queue@[k2] < n && last_edge@[queue@[k2] as int] != usize::MAX by {
                            if k2 < q_before.len() {
                                assert(queue@[k2] == q_before[k2]);
                            }
                        }
                    }
                }
                k += 1;
            }
            proof {
                assert forall|i: int| 0 <= i < e0.len() && e0[i].node1 == v && #[trigger] usable(e0[i]) implies last_edge@[e0[i].node2 as int] != usize::MAX by {
                    assert(self.out_edges(v as int).contains(i as usize));
                    let j = choose|j: int| 0 <= j < deg && self.out_edges(v as int)[j] == i as usize;
                }
            }
        }
        proof {
            assert forall|i: int|
                0 <= i < e0.len() && last_edge@[e0[i].node1 as int] != usize::MAX
                    && #[trigger] usable(e0[i]) implies last_edge@[e0[i].node2 as int] != usize::MAX by {
                let v = e0[i].node1 as int;
                assert(0 <= v < n);
                if queue@.contains(v as usize) {
                    let k = choose|k: int| 0 <= k < queue@.len() && queue@[k] == v as usize;
                }
            }
        }
        Ghost(rank)
    }

    /// Follows the search tree back from `t` to `s`: returns the smallest
    /// capacity on the way and the path of edges from `s` to `t`.
    fn trace_path(&self, s: usize, t: usize, last_edge: &Vec<usize>, Ghost(rank): Ghost<Seq<int>>) -> (r: (
        Capacity,
        Ghost<Seq<int>>,
    ))
        requires
            self.wf_core(),
            s < self.node_count(),
            t < self.node_count(),
            s != t,
            last_edge@.len() == self.node_count(),
            search_tree(self.edges(), last_edge@, rank, s as int),
            rank[s as int] == 0,
            forall|v: int| 0 <= v < self.node_count() ==> #[trigger] rank[v] >= 0,
            last_edge@[t as int] != usize::MAX,
        ensures
            augmenting_path(self.edges(), r.1@, s as int, t as int),
            r.1@.len() > 0,
            r.0 == path_min(self.edges(), r.1@),
            forall|k: int| 0 <= k < r.1@.len() ==> #[trigger] r.1@[k] == last_edge@[self.edges()[r.1@[k]].node2 as int] as int,
            forall|k: int| 0 <= k < r.1@.len() ==> self.edges()[#[trigger] r.1@[k]].node2 != s,
    {
        reveal(graph_core_wf);
        let ghost e0 = self.edges();
        let n = self.edge_idx.len();
        let mut flow = Capacity::Infinity;
        let mut pos = t;
        let ghost mut path: Seq<int> = Seq::empty();
        proof {
            assert(is_walk(e0, path, t as int, t as int, |e: Edge| usable(e)));
        }
        while pos != s
            invariant
                self.wf_core(),
                self.edges() == e0,
                n == self.node_count(),
                last_edge@.len() == n,
                search_tree(e0, last_edge@, rank, s as int),
                forall|v: int| 0 <= v < n ==> #[trigger] rank[v] >= 0,
                rank[s as int] == 0,
                pos < n,
                last_edge@[pos as int] != usize::MAX,
                is_walk(e0, path, pos as int, t as int, |e: Edge| usable(e)),
                flow == path_min(e0, path),
                forall|k: int| 0 <= k < path.len() ==> #[trigger] path[k] == last_edge@[e0[path[k]].node2 as int] as int,
                forall|k: int| 0 <= k < path.len() ==> rank[pos as int] < rank[e0[#[trigger] path[k]].node2 as int],
                forall|a: int, b: int|
                    0 <= a < b < path.len() ==> rank[e0[#[trigger] path[a]].node2 as int] < rank[e0[#[trigger] path[b]].node2 as int],
            decreases rank[pos as int],
        {
            proof {
                reveal(graph_core_wf);
            }
            let ei = last_edge[pos];
            let cap = self.edge_heap[ei].capacity;
            let ghost old_path = path;
            flow = flow.min(cap);
            let next_pos = self.edge_heap[ei].node1;
            proof {
                lemma_walk_prepend(e0, ei as int, old_path, t as int, |e: Edge| usable(e));
                path = seq![ei as int].add(old_path);
                assert(path.drop_first() == old_path);
                assert forall|k: int| 0 <= k < path.len() implies #[trigger] path[k] == last_edge@[e0[path[k]].node2 as int] as int by {
                    if k > 0 {
                        assert(path[k] == old_path[k - 1]);
                    }
                }
                assert forall|k: int| 0 <= k < path.len() implies rank[next_pos as int] < rank[e0[#[trigger] path[k]].node2 as int] by {
                    if k > 0 {
                        assert(path[k] == old_path[k - 1]);
                    }
                }
                assert forall|a: int, b: int|
                    0 <= a < b < path.len() implies rank[e0[#[trigger] path[a]].node2 as int] < rank[e0[#[trigger] path[b]].node2 as int] by {
                    assert(path[b] == old_path[b - 1]);
                    if a > 0 {
                        assert(path[a] == old_path[a - 1]);
                    }
                }
            }
            pos = next_pos;
        }
        proof {
            assert(e0.len() % 2 == 0);
            assert forall|k: int| 0 <= k < path.len() implies e0[#[trigger] path[k]].node2 != s by {
                assert(rank[s as int] < rank[e0[path[k]].node2 as int]);
            }
            assert forall|a: int, b: int| 0 <= a < path.len() && 0 <= b < path.len() && a != b implies #[trigger] path[a] != #[trigger] path[b] by {
                if a < b {
                    assert(rank[e0[path[a]].node2 as int] < rank[e0[path[b]].node2 as int]);
                } else {
                    assert(rank[e0[path[b]].node2 as int] < rank[e0[path[a]].node2 as int]);
                }
            }
            assert forall|a: int, b: int| 0 <= a < path.len() && 0 <= b < path.len() implies #[trigger] path[a] != rev(#[trigger] path[b]) by {
                let x = path[a];
                let y = path[b];
                assert(0 <= x < e0.len() && 0 <= y < e0.len());
                assert(e0[x].node2 != s);
                assert(e0[y].node2 != s);
                if x == rev(y) {
                    assert(e0[x].node1 == e0[y].node2);
                    assert(e0[x].node2 == e0[y].node1);
                    assert(rank[e0[x].node1 as int] < rank[e0[x].node2 as int]);
                    assert(rank[e0[y].node1 as int] < rank[e0[y].node2 as int]);
                }
            }
        }
        (flow, Ghost(path))
    }

    /// Pushes `flow` along the path that the search tree records from `s` to
    /// `t`.
    #[verifier::spinoff_prover]
    #[verifier::rlimit(40)]
    fn push_along(&mut self, s: usize, t: usize, last_edge: &Vec<usize>, flow: Capacity, Ghost(path): Ghost<Seq<int>>)
        requires
            old(self).wf_core(),
            s < old(self).node_count(),
            t < old(self).node_count(),
            last_edge@.len() == old(self).node_count(),
            flow is Finite ==> path_pushable(old(self).edges(), path, flow->0),
            augmenting_path(old(self).edges(), path, s as int, t as int),
            path.len() > 0,
            flow == path_min(old(self).edges(), path),
            forall|k: int| 0 <= k < path.len() ==> #[trigger] path[k] == last_edge@[old(self).edges()[path[k]].node2 as int] as int,
            forall|k: int| 0 <= k < path.len() ==> old(self).edges()[#[trigger] path[k]].node2 != s,
        ensures
            final(self).edges() == push_path(old(self).edges(), path, flow),
            final(self).edge_idx == old(self).edge_idx,
            final(self).last_edge_buf == old(self).last_edge_buf,
    {
        reveal(graph_core_wf);
        let ghost e0 = self.edges();
        let n = self.edge_idx.len();
        let ghost j0 = path.len() as int;
        proof {
            lemma_path_min(e0, path);
        }
        let mut pos = t;
        let ghost mut j: int = j0;
        while pos != s
            invariant
                edges_wf(e0, n as nat),
                e0.len() + 2 < usize::MAX,
                self.edge_idx == old(self).edge_idx,
                self.last_edge_buf == old(self).last_edge_buf,
                n == self.node_count(),
                last_edge@.len() == n,
                augmenting_path(e0, path, s as int, t as int),
                path.len() == j0,
                j0 > 0,
                0 <= j <= j0,
                self.edges() == push_from(e0, path, j, flow),
                flow == path_min(e0, path),
                flow is Finite ==> path_pushable(e0, path, flow->0),
                pos == if j == j0 { t as int } else { e0[path[j]].node1 as int },
                (pos == s) == (j == 0),
                forall|k: int| 0 <= k < path.len() ==> #[trigger] path[k] == last_edge@[e0[path[k]].node2 as int] as int,
                forall|k: int| 0 <= k < path.len() ==> cap_le(flow, #[trigger] e0[path[k]].capacity),
                flow is Finite ==> exists|k: int| 0 <= k < path.len() && #[trigger] e0[path[k]].capacity == flow,
                forall|k: int| 0 <= k < path.len() ==> e0[#[trigger] path[k]].node2 != s,
            decreases j,
        {
            let ei = last_edge[pos];
            proof {
                assert(pos == e0[path[j - 1]].node2);
                assert(ei == path[j - 1]);
                lemma_push_from_step(e0, path, j, flow);
                lemma_push_from_frame(e0, path, j, flow);
                assert(0 <= rev(ei as int) < e0.len());
            }
            let c = self.edge_heap[ei].capacity;
            self.edge_heap[ei].capacity = c - flow;
            assert((ei ^ 1usize) as int == (if ei % 2 == 0 { ei + 1 } else { ei - 1 })) by (bit_vector);
            let r = ei ^ 1;
            proof {
                if flow is Finite {
                    lemma_pushable_at(e0, path, flow->0, j - 1);
                }
            }
            let c2 = self.edge_heap[r].capacity;
            self.edge_heap[r].capacity = c2 + flow;
            let next_pos = self.edge_heap[ei].node1;
            proof {
                assert(self.edges() == push_one(push_from(e0, path, j, flow), path[j - 1], flow));
                j = j - 1;
                if j > 0 {
                    assert(e0[path[j - 1]].node2 == e0[path[j]].node1);
                }
            }
            pos = next_pos;
        }
    }

    /// Searches, breadth first, for a path of edges with capacity left from
    /// `s` to `t`. When there is none, returns zero and leaves the graph as it
    /// is. Otherwise pushes along the path found the smallest capacity on it
    /// and returns that amount. Whichever augmenting path is found, that
    /// amount must fit on top of each paired edge along it.
    #[verifier::spinoff_prover]
    pub fn mark_subflow(&mut self, s: usize, t: usize) -> (flow: Capacity)
        requires
            old(self).wf(),
            s < old(self).node_count(),
            t < old(self).node_count(),
            s != t,
            paths_pushable(old(self).edges(), s as int, t as int),
        ensures
            final(self).wf(),
            final(self).node_count() == old(self).node_count(),
            same_shape(final(self).edges(), old(self).edges()),
            flow is Finite ==> pairs_kept(old(self).edges(), final(self).edges()),
            !reachable(old(self).edges(), s as int, t as int, |e: Edge| usable(e)) ==> {
                &&& flow == Capacity::Finite(0)
                &&& final(self).edges() == old(self).edges()
            },
            reachable(old(self).edges(), s as int, t as int, |e: Edge| usable(e)) ==> exists|p: Seq<int>|
                {
                    &&& augmenting_path(old(self).edges(), p, s as int, t as int)
                    &&& p.len() > 0
                    &&& flow == path_min(old(self).edges(), p)
                    &&& final(self).edges() == push_path(old(self).edges(), p, flow)
                },
            flow == Capacity::Finite(0) <==> !reachable(old(self).edges(), s as int, t as int, |e: Edge| usable(e)),
    {
        let ghost e0 = self.edges();
        let mut last_edge: Vec<usize> = Vec::new();
        std::mem::swap(&mut last_edge, &mut self.last_edge_buf);
        let rank = self.search(s, &mut last_edge);
        proof {
            self.lemma_wf_core_edges();
            lemma_search_complete(e0, last_edge@, s as int, t as int);
        }
        if last_edge[t] == usize::MAX {
            std::mem::swap(&mut last_edge, &mut self.last_edge_buf);
            proof {
                self.lemma_wf_core_kept(*old(self));
            }
            return Capacity::Finite(0);
        }
        let (flow, path) = self.trace_path(s, t, &last_edge, rank);
        proof {
            if flow is Finite {
                assert(path_min(e0, path@) is Finite);
            }
        }
        self.push_along(s, t, &last_edge, flow, path);
        let ghost mid = *self;
        std::mem::swap(&mut last_edge, &mut self.last_edge_buf);
        proof {
            let ok = |e: Edge| usable(e);
            lemma_push_from_frame(e0, path@, 0, flow);
            self.lemma_wf_core_kept(*old(self));
            lemma_path_min(e0, path@);
            assert(is_walk(e0, path@, s as int, t as int, ok));
            assert(flow != Capacity::Finite(0)) by {
                if flow == Capacity::Finite(0) {
                    let k = choose|k: int| 0 <= k < path@.len() && #[trigger] e0[path@[k]].capacity == flow;
                    assert(ok(e0[path@[k]]));
                }
            }
            if flow is Finite {
                old(self).lemma_wf_core_edges();
                lemma_push_from_pairs(e0, path@, 0, flow->0);
            }
        }
        flow
    }

    /// Whether `t` can be reached from `s` over edges of unbounded capacity.
    fn reaches_unbounded(&self, s: usize, t: usize) -> (r: bool)
        requires
            self.wf(),
            s < self.node_count(),
            t < self.node_count(),
        ensures
            r == reachable(self.edges(), s as int, t as int, |e: Edge| unbounded(e)),
    {
        let filter = |e: &Edge| -> (r: bool)
            ensures
                r == unbounded(*e),
            { e.capacity == Capacity::Infinity };
        let out = self.find_reachable(s, &filter);
        proof {
            let unb = |e: Edge| unbounded(e);
            let must = |e: Edge| filter_must_pass(&filter, e);
            let may = |e: Edge| filter_may_pass(&filter, e);
            assert forall|e: Edge| #[trigger] unb(e) implies must(e) by {}
            assert forall|e: Edge| #[trigger] may(e) implies unb(e) by {}
            if reachable(self.edges(), s as int, t as int, unb) {
                let p = choose|p: Seq<int>| is_walk(self.edges(), p, s as int, t as int, unb);
                lemma_walk_weaken(self.edges(), p, s as int, t as int, unb, must);
            }
            if out@[t as int] {
                let p = choose|p: Seq<int>| is_walk(self.edges(), p, s as int, t as int, may);
                lemma_walk_weaken(self.edges(), p, s as int, t as int, may, unb);
            }
        }
        out[t]
    }

    /// Pushes flow from `s` to `t` along shortest augmenting paths until none
    /// is left, and returns the total pushed: the maximum flow, which is the
    /// capacity of a smallest cut between `s` and `t`. When `t` can be reached
    /// from `s` over edges of unbounded capacity, the maximum flow is
    /// unbounded and the graph is left as it is. The finite capacities must
    /// add up to what a `u64` holds, and the paired edge of each unbounded
    /// edge must take that total on top of its own, as it does where it is
    /// empty.
    pub fn max_flow(&mut self, s: usize, t: usize) -> (flow: Capacity)
        requires
            old(self).wf(),
            s < old(self).node_count(),
            t < old(self).node_count(),
            s != t,
            flow_fits(old(self).edges()),
        ensures
            final(self).wf(),
            final(self).node_count() == old(self).node_count(),
            same_shape(final(self).edges(), old(self).edges()),
            reachable(old(self).edges(), s as int, t as int, |e: Edge| unbounded(e)) ==> {
                &&& flow == Capacity::Infinity
                &&& final(self).edges() == old(self).edges()
            },
            !reachable(old(self).edges(), s as int, t as int, |e: Edge| unbounded(e)) ==> {
                &&& flow is Finite
                &&& (!reachable(old(self).edges(), s as int, t as int, |e: Edge| usable(e)) ==> {
                    &&& flow == Capacity::Finite(0)
                    &&& final(self).edges() == old(self).edges()
                })
                &&& is_max_flow_value(old(self).edges(), s as int, t as int, flow->0 as int)
                &&& !reachable(final(self).edges(), s as int, t as int, |e: Edge| usable(e))
                &&& separates(residual_side(final(self).edges(), s as int), s as int, t as int)
                &&& cut_finite(old(self).edges(), residual_side(final(self).edges(), s as int))
                &&& cut_value(old(self).edges(), residual_side(final(self).edges(), s as int)) == flow->0
                &&& pairs_kept(old(self).edges(), final(self).edges())
                &&& forall|x: int|
                    0 <= x < old(self).edges().len() ==> unbounded(#[trigger] final(self).edges()[x]) == unbounded(
                        old(self).edges()[x],
                    )
                &&& forall|cut: Set<int>|
                    separates(cut, s as int, t as int) && cut_finite(old(self).edges(), cut) ==> cut_finite(
                        final(self).edges(),
                        cut,
                    ) && #[trigger] cut_value(final(self).edges(), cut) + flow->0 == cut_value(old(self).edges(), cut)
            },
    {
        if self.reaches_unbounded(s, t) {
            return Capacity::Infinity;
        }
        let ghost e0 = self.edges();
        let ghost n = self.node_count();
        let ghost unb = |e: Edge| unbounded(e);
        let ghost s_inf = Set::new(|v: int| reachable(e0, s as int, v, unb));
        proof {
            self.lemma_wf();
            lemma_unbounded_closure_cut(e0, n, s as int, t as int);
            lemma_cut_sum_bounds(e0, s_inf, e0.len() as int);
        }
        let mut flow = Capacity::Finite(0);
        proof {
            lemma_flow_state_start(e0, s as int, t as int);
        }
        loop
            invariant_except_break
                self.wf(),
                self.node_count() == n,
                edges_wf(e0, n),
                s < n,
                t < n,
                s != t,
                flow_fits(e0),
                !reachable(e0, s as int, t as int, unb),
                unb == (|e: Edge| unbounded(e)),
                separates(s_inf, s as int, t as int),
                cut_finite(e0, s_inf),
                0 <= cut_value(e0, s_inf) <= finite_total(e0),
                flow is Finite,
                flow_state(e0, self.edges(), s as int, t as int, flow->0 as int),
                !reachable(e0, s as int, t as int, |e: Edge| usable(e)) ==> flow == Capacity::Finite(0) && self.edges()
                    == e0,
            ensures
                self.wf(),
                self.node_count() == n,
                flow is Finite,
                !reachable(e0, s as int, t as int, |e: Edge| usable(e)) ==> flow == Capacity::Finite(0) && self.edges()
                    == e0,
                !reachable(self.edges(), s as int, t as int, |e: Edge| usable(e)),
                flow_state(e0, self.edges(), s as int, t as int, flow->0 as int),
            decreases cut_value(self.edges(), s_inf),
        {
            let ghost cur = self.edges();
            let ghost f = flow->0 as int;
            proof {
                self.lemma_wf();
                lemma_pushable_during_flow(e0, cur, n, s as int, t as int, f, s_inf);
                lemma_flow_state_cut(e0, cur, s as int, t as int, f, s_inf);
                lemma_wf_same_shape(e0, cur, n);
            }
            let sub = self.mark_subflow(s, t);
            proof {
                if sub != Capacity::Finite(0) {
                    let p = choose|p: Seq<int>|
                        {
                            &&& augmenting_path(cur, p, s as int, t as int)
                            &&& p.len() > 0
                            &&& sub == path_min(cur, p)
                            &&& self.edges() == push_path(cur, p, sub)
                        };
                    lemma_subflow_finite(e0, cur, s as int, t as int, f, p);
                    lemma_flow_state_push(e0, cur, n, s as int, t as int, f, p);
                    lemma_flow_state_cut(e0, self.edges(), s as int, t as int, f + sub->0, s_inf);
                    lemma_cut_sum_bounds(self.edges(), s_inf, self.edges().len() as int);
                }
            }
            flow = flow + sub;
            match sub {
                Capacity::Finite(0) => break,
                Capacity::Finite(_) => {},
                Capacity::Infinity => break,
            }
        }
        proof {
            lemma_flow_final(e0, self.edges(), s as int, t as int, flow->0 as int);
            lemma_flow_state_cut(e0, self.edges(), s as int, t as int, flow->0 as int, s_inf);
            reveal(flow_state);
        }
        flow
    }

    /// The edge at index `i`.
    pub fn edge(&self, i: usize) -> (e: Edge)
        requires
            i < self.edges().len(),
        ensures
            e == self.edges()[i as int],
    {
        self.edge_heap[i]
    }
}

} // verus!
