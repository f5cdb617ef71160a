use vstd::prelude::*;
use crate::capacity::Capacity;
use crate::grid::{
    lists_len, lemma_lists_len_le, total, indicator, lemma_total_zero, lemma_total_combine, lemma_total_point,
    lemma_total_injective_where, lemma_total_le, lemma_total_congruent,
};
use crate::graph::{
    Graph, Edge, capable_real, reachable_avoiding, lemma_reachable_avoiding_extend,
    lemma_reachable_avoiding_last, is_walk,
};

verus! {

/// Every pair of a left node `i` (from one) and a right node `j` in
/// `edges[i - 1]` has `i` in `left` or `j` in `right`.
pub open spec fn covers(edges: Seq<Vec<usize>>, m: int, left: Seq<usize>, right: Seq<usize>) -> bool {
    forall|i: int, k: int|
        0 <= i < m && 0 <= k < edges[i]@.len() ==> left.contains((i + 1) as usize) || right.contains(
            #[trigger] edges[i]@[k],
        )
}

/// The entries of `list` rise strictly and lie in `1..=bound`.
pub open spec fn increasing_within(list: Seq<usize>, bound: int) -> bool {
    &&& forall|k: int| 0 <= k < list.len() ==> 1 <= #[trigger] list[k] <= bound
    &&& forall|a: int, b: int| 0 <= a < b < list.len() ==> list[a] < list[b]
}

/// The edges of the alternating network: a left node `i` leads to each right
/// node it is joined to but its partner, and the partner leads back to `i`.
/// Every real edge has capacity one, every reverse edge capacity zero.
spec fn network_edges(g: Seq<Edge>, m: int, edges: Seq<Vec<usize>>, max_pair: Seq<usize>) -> bool {
    forall|e: int|
        0 <= e < g.len() ==> {
            &&& (#[trigger] g[e]).is_real ==> g[e].capacity == Capacity::Finite(1)
            &&& !g[e].is_real ==> g[e].capacity == Capacity::Finite(0)
            &&& g[e].is_real && g[e].node2 < m ==> {
                &&& max_pair[g[e].node2 as int] != 0
                &&& g[e].node1 == m + max_pair[g[e].node2 as int] - 1
            }
            &&& g[e].is_real && g[e].node2 >= m ==> {
                &&& g[e].node1 < m
                &&& edges[g[e].node1 as int]@.contains((g[e].node2 - m + 1) as usize)
                &&& g[e].node2 - m + 1 != max_pair[g[e].node1 as int]
            }
        }
}

/// Each left node among the first `upto` leads to the right nodes it is
/// joined to, its partner aside.
spec fn forward_edges(g: Seq<Edge>, m: int, edges: Seq<Vec<usize>>, max_pair: Seq<usize>, upto: int) -> bool {
    forall|i: int, k: int|
        0 <= i < upto && 0 <= k < edges[i]@.len() && #[trigger] edges[i]@[k] != max_pair[i] ==> exists|e: int|
            0 <= e < g.len() && #[trigger] g[e].is_real && g[e].node1 == i && g[e].node2 == m + edges[i]@[k] - 1
}

/// Each matched left node among the first `upto` is entered from its partner.
spec fn partner_edges(g: Seq<Edge>, m: int, max_pair: Seq<usize>, upto: int) -> bool {
    forall|i: int|
        0 <= i < upto && #[trigger] max_pair[i] != 0 ==> exists|e: int|
            0 <= e < g.len() && #[trigger] g[e].is_real && g[e].node1 == m + max_pair[i] - 1 && g[e].node2 == i
}

/// Edges added after the first `before.len()` keep the partners' edges.
proof fn lemma_partner_edges_kept(before: Seq<Edge>, after: Seq<Edge>, m: int, max_pair: Seq<usize>, upto: int)
    requires
        partner_edges(before, m, max_pair, upto),
        before.len() <= after.len(),
        forall|e: int| 0 <= e < before.len() ==> after[e] == before[e],
    ensures
        partner_edges(after, m, max_pair, upto),
{
    assert forall|i: int| 0 <= i < upto && #[trigger] max_pair[i] != 0 implies exists|e: int|
        0 <= e < after.len() && #[trigger] after[e].is_real && after[e].node1 == m + max_pair[i] - 1 && after[e].node2 == i by {
        let e = choose|e: int|
            0 <= e < before.len() && #[trigger] before[e].is_real && before[e].node1 == m + max_pair[i] - 1 && before[e].node2 == i;
        assert(after[e] == before[e]);
    }
}

/// Marked nodes lead over real edges with capacity only to marked nodes.
spec fn marks_closed(g: Seq<Edge>, marks: Seq<bool>) -> bool {
    forall|e: int| 0 <= e < g.len() && capable_real(#[trigger] g[e]) && marks[g[e].node1 as int] ==> marks[g[e].node2 as int]
}

/// Each marked node is a free left node or is entered by a real edge with
/// capacity from a marked node.
spec fn marks_grounded(g: Seq<Edge>, marks: Seq<bool>, m: int, max_pair: Seq<usize>) -> bool {
    forall|v: int|
        0 <= v < marks.len() && #[trigger] marks[v] ==> (v < m && max_pair[v] == 0) || exists|e: int|
            0 <= e < g.len() && capable_real(#[trigger] g[e]) && g[e].node2 == v && marks[g[e].node1 as int]
}

/// Pushing `x` adds `x` and keeps every entry.
proof fn lemma_push_contains(list: Seq<usize>, x: usize)
    ensures
        forall|y: usize| #[trigger] list.push(x).contains(y) <==> (list.contains(y) || y == x),
        list.push(x)[list.len() as int] == x,
{
    assert forall|y: usize| #[trigger] list.push(x).contains(y) <==> (list.contains(y) || y == x) by {
        if list.contains(y) {
            let k = choose|k: int| 0 <= k < list.len() && list[k] == y;
            assert(list.push(x)[k] == y);
        }
        if y == x {
            assert(list.push(x)[list.len() as int] == y);
        }
        if list.push(x).contains(y) && y != x {
            let k = choose|k: int| 0 <= k < list.len() + 1 && #[trigger] list.push(x)[k] == y;
            assert(list[k] == y);
        }
    }
}

/// One step of an alternating path, nodes numbered as in the network (left
/// node `i + 1` is `i`, right node `j` is `m + j - 1`): from a left node to
/// each right node it is joined to but its partner, and from a partner back
/// to its left node.
pub open spec fn alt_step(edges: Seq<Vec<usize>>, max_pair: Seq<usize>, m: int, u: int, v: int) -> bool {
    ||| 0 <= u < m && exists|k: int|
        0 <= k < edges[u]@.len() && v == m + #[trigger] edges[u]@[k] - 1 && edges[u]@[k] != max_pair[u]
    ||| 0 <= v < m && max_pair[v] != 0 && u == m + max_pair[v] - 1
}

/// `p` is an alternating path from a free left node.
pub open spec fn alt_walk(edges: Seq<Vec<usize>>, max_pair: Seq<usize>, m: int, p: Seq<int>) -> bool {
    &&& p.len() >= 1
    &&& 0 <= p[0] < m
    &&& max_pair[p[0]] == 0
    &&& forall|k: int| #![trigger p[k]] 0 <= k < p.len() - 1 ==> alt_step(edges, max_pair, m, p[k], p[k + 1])
}

/// An alternating path from a free left node reaches `v`.
pub open spec fn alt_reached(edges: Seq<Vec<usize>>, max_pair: Seq<usize>, m: int, v: int) -> bool {
    exists|p: Seq<int>| #[trigger] alt_walk(edges, max_pair, m, p) && p.last() == v
}

/// A walk over real edges with capacity from a free left node is an
/// alternating path.
proof fn lemma_walk_to_alt(
    g: Seq<Edge>,
    m: int,
    edges: Seq<Vec<usize>>,
    max_pair: Seq<usize>,
    p: Seq<int>,
    i: int,
    v: int,
)
    requires
        network_edges(g, m, edges, max_pair),
        is_walk(g, p, i, v, |e: Edge| capable_real(e)),
        0 <= i < m,
        max_pair[i] == 0,
    ensures
        alt_reached(edges, max_pair, m, v),
{
    let cap = |e: Edge| capable_real(e);
    let q = Seq::new((p.len() + 1) as nat, |k: int| if k == 0 { i } else { g[p[k - 1]].node2 as int });
    assert forall|k: int| #![trigger q[k]] 0 <= k < q.len() - 1 implies alt_step(edges, max_pair, m, q[k], q[k + 1]) by {
        assert(0 <= p[k] < g.len() && cap(g[p[k]]));
        let e = g[p[k]];
        if k == 0 {
            assert(e.node1 == i);
        } else {
            assert(g[p[k - 1]].node2 == g[p[k]].node1);
        }
        assert(q[k] == e.node1 && q[k + 1] == e.node2);
        if e.node2 >= m {
            let x = (e.node2 - m + 1) as usize;
            assert(edges[e.node1 as int]@.contains(x));
            let k2 = choose|k2: int| 0 <= k2 < edges[e.node1 as int]@.len() && edges[e.node1 as int]@[k2] == x;
            assert(e.node2 == m + edges[e.node1 as int]@[k2] - 1);
        }
    }
    if p.len() > 0 {
        assert(q.last() == g[p[p.len() - 1]].node2);
    }
    assert(alt_walk(edges, max_pair, m, q));
}

/// Marks closed under the alternating steps, on every free left node, lie
/// on every node an alternating path reaches.
#[verifier::rlimit(40)]
proof fn lemma_alt_marked(
    g: Seq<Edge>,
    m: int,
    n: int,
    edges: Seq<Vec<usize>>,
    max_pair: Seq<usize>,
    marks: Seq<bool>,
    p: Seq<int>,
    k: int,
)
    requires
        edges.len() == m,
        max_pair.len() == m,
        forall|i: int| 0 <= i < m ==> #[trigger] max_pair[i] <= n,
        forall|i: int, k2: int| 0 <= i < m && 0 <= k2 < edges[i]@.len() ==> 1 <= #[trigger] edges[i]@[k2] <= n,
        marks.len() == m + n,
        marks_closed(g, marks),
        forward_edges(g, m, edges, max_pair, m),
        partner_edges(g, m, max_pair, m),
        network_edges(g, m, edges, max_pair),
        forall|i: int| 0 <= i < m && max_pair[i] == 0 ==> #[trigger] marks[i],
        alt_walk(edges, max_pair, m, p),
        0 <= k < p.len(),
    ensures
        0 <= p[k] < m + n,
        marks[p[k]],
    decreases k,
{
    if k > 0 {
        lemma_alt_marked(g, m, n, edges, max_pair, marks, p, k - 1);
        let u = p[k - 1];
        let v = p[k];
        assert(alt_step(edges, max_pair, m, u, v));
        if 0 <= u < m && exists|k2: int|
            0 <= k2 < edges[u]@.len() && v == m + #[trigger] edges[u]@[k2] - 1 && edges[u]@[k2] != max_pair[u] {
            let k2 = choose|k2: int|
                0 <= k2 < edges[u]@.len() && v == m + #[trigger] edges[u]@[k2] - 1 && edges[u]@[k2] != max_pair[u];
            let e = choose|e: int|
                0 <= e < g.len() && #[trigger] g[e].is_real && g[e].node1 == u && g[e].node2 == m + edges[u]@[k2] - 1;
            assert(capable_real(g[e]));
        } else {
            let e = choose|e: int|
                0 <= e < g.len() && #[trigger] g[e].is_real && g[e].node1 == m + max_pair[v] - 1 && g[e].node2 == v;
            assert(capable_real(g[e]));
        }
    }
}

/// The alternating network of the bipartite graph and its matching.
fn build_network(m: usize, n: usize, edges: &[Vec<usize>], max_pair: &[usize]) -> (graph: Graph)
    requires
        edges@.len() == m,
        max_pair@.len() == m,
        m + n < usize::MAX / 4,
        2 * m + 2 * lists_len(edges@, m as int) + 8 < usize::MAX,
        forall|i: int| 0 <= i < m ==> #[trigger] max_pair@[i] <= n,
        forall|i: int, k: int| 0 <= i < m && 0 <= k < edges@[i]@.len() ==> 1 <= #[trigger] edges@[i]@[k] <= n,
    ensures
        graph.wf(),
        graph.node_count() == m + n,
        network_edges(graph.edges(), m as int, edges@, max_pair@),
        forward_edges(graph.edges(), m as int, edges@, max_pair@, m as int),
        partner_edges(graph.edges(), m as int, max_pair@, m as int),
{
    let mut graph = Graph::new(m + n);
    proof {
        lemma_lists_len_le(edges@, 0, m as int);
    }
    let mut i: usize = 0;
    while i < m
        invariant
            graph.wf(),
            graph.node_count() == m + n,
            i <= m,
            edges@.len() == m,
            max_pair@.len() == m,
            m + n < usize::MAX / 4,
            graph.edges().len() <= 2 * i + 2 * lists_len(edges@, i as int),
            2 * m + 2 * lists_len(edges@, m as int) + 8 < usize::MAX,
            forall|i2: int| 0 <= i2 < m ==> #[trigger] max_pair@[i2] <= n,
            forall|i2: int, k: int|
                0 <= i2 < m && 0 <= k < edges@[i2]@.len() ==> 1 <= #[trigger] edges@[i2]@[k] <= n,
            network_edges(graph.edges(), m as int, edges@, max_pair@),
            forward_edges(graph.edges(), m as int, edges@, max_pair@, i as int),
            partner_edges(graph.edges(), m as int, max_pair@, i as int),
        decreases m - i,
    {
        proof {
            lemma_lists_len_le(edges@, i as int + 1, m as int);
        }
        if max_pair[i] != 0 {
            let ghost before = graph.edges();
            let pos = graph.add_edge(m + max_pair[i] - 1, i, Capacity::Finite(1));
            proof {
                assert forall|e: int| 0 <= e < before.len() implies graph.edges()[e] == before[e] by {}
                lemma_partner_edges_kept(before, graph.edges(), m as int, max_pair@, i as int);
                assert(graph.edges()[pos as int].is_real);
                assert forall|i2: int, k: int|
                    0 <= i2 < i && 0 <= k < edges@[i2]@.len() && #[trigger] edges@[i2]@[k] != max_pair@[i2] implies exists|e: int|
                    0 <= e < graph.edges().len() && #[trigger] graph.edges()[e].is_real && graph.edges()[e].node1 == i2
                        && graph.edges()[e].node2 == m + edges@[i2]@[k] - 1 by {
                    let e = choose|e: int|
                        0 <= e < before.len() && #[trigger] before[e].is_real && before[e].node1 == i2 && before[e].node2
                            == m + edges@[i2]@[k] - 1;
                    assert(graph.edges()[e] == before[e]);
                }
            }
        }
        let list = &edges[i];
        let mut k: usize = 0;
        while k < list.len()
            invariant
                graph.wf(),
                graph.node_count() == m + n,
                i < m,
                edges@.len() == m,
                max_pair@.len() == m,
                list@ == edges@[i as int]@,
                k <= list@.len(),
                m + n < usize::MAX / 4,
                graph.edges().len() <= 2 * i + 2 + 2 * lists_len(edges@, i as int) + 2 * k,
                lists_len(edges@, i as int + 1) == lists_len(edges@, i as int) + list@.len(),
                2 * (i + 1) + 2 * lists_len(edges@, i as int + 1) + 8 < usize::MAX,
                forall|i2: int| 0 <= i2 < m ==> #[trigger] max_pair@[i2] <= n,
                forall|k2: int| 0 <= k2 < list@.len() ==> 1 <= #[trigger] list@[k2] <= n,
                network_edges(graph.edges(), m as int, edges@, max_pair@),
                forward_edges(graph.edges(), m as int, edges@, max_pair@, i as int),
                partner_edges(graph.edges(), m as int, max_pair@, i + 1),
                forall|k2: int|
                    0 <= k2 < k && #[trigger] list@[k2] != max_pair@[i as int] ==> exists|e: int|
                        0 <= e < graph.edges().len() && #[trigger] graph.edges()[e].is_real && graph.edges()[e].node1
                            == i && graph.edges()[e].node2 == m + list@[k2] - 1,
            decreases list@.len() - k,
        {
            let j = list[k];
            proof {
                assert(edges@[i as int]@[k as int] == j);
                assert(edges@[i as int]@.contains(j));
            }
            if j != max_pair[i] {
                let ghost before = graph.edges();
                let pos = graph.add_edge(i, m + j - 1, Capacity::Finite(1));
                proof {
                    assert forall|e: int| 0 <= e < before.len() implies graph.edges()[e] == before[e] by {}
                    lemma_partner_edges_kept(before, graph.edges(), m as int, max_pair@, i + 1);
                    assert forall|i2: int, k2: int|
                        0 <= i2 < i && 0 <= k2 < edges@[i2]@.len() && #[trigger] edges@[i2]@[k2] != max_pair@[i2] implies exists|e: int|
                        0 <= e < graph.edges().len() && #[trigger] graph.edges()[e].is_real && graph.edges()[e].node1
                            == i2 && graph.edges()[e].node2 == m + edges@[i2]@[k2] - 1 by {
                        let e = choose|e: int|
                            0 <= e < before.len() && #[trigger] before[e].is_real && before[e].node1 == i2
                                && before[e].node2 == m + edges@[i2]@[k2] - 1;
                        assert(graph.edges()[e] == before[e]);
                    }
                    assert forall|k2: int|
                        0 <= k2 < k + 1 && #[trigger] list@[k2] != max_pair@[i as int] implies exists|e: int|
                        0 <= e < graph.edges().len() && #[trigger] graph.edges()[e].is_real && graph.edges()[e].node1
                            == i && graph.edges()[e].node2 == m + list@[k2] - 1 by {
                        if k2 < k {
                            let e = choose|e: int|
                                0 <= e < before.len() && #[trigger] before[e].is_real && before[e].node1 == i
                                    && before[e].node2 == m + list@[k2] - 1;
                            assert(graph.edges()[e] == before[e]);
                        } else {
                            assert(graph.edges()[pos as int].is_real);
                        }
                    }
                }
            }
            k += 1;
        }
        proof {
            assert forall|i2: int, k2: int|
                0 <= i2 < i + 1 && 0 <= k2 < edges@[i2]@.len() && #[trigger] edges@[i2]@[k2] != max_pair@[i2] implies exists|e: int|
                0 <= e < graph.edges().len() && #[trigger] graph.edges()[e].is_real && graph.edges()[e].node1 == i2
                    && graph.edges()[e].node2 == m + edges@[i2]@[k2] - 1 by {
                if i2 == i {
                    assert(list@[k2] == edges@[i2]@[k2]);
                }
            }
        }
        i += 1;
    }
    graph
}

/// Marks every node that an alternating path from a free left node reaches.
fn mark_from_free(graph: &Graph, m: usize, n: usize, max_pair: &[usize], Ghost(edges): Ghost<Seq<Vec<usize>>>) -> (reachable: Vec<bool>)
    requires
        graph.wf(),
        graph.node_count() == m + n,
        max_pair@.len() == m,
        edges.len() == m,
        forall|i: int| 0 <= i < m ==> #[trigger] max_pair@[i] <= n,
        forall|i: int, k: int| 0 <= i < m && 0 <= k < edges[i]@.len() ==> 1 <= #[trigger] edges[i]@[k] <= n,
        network_edges(graph.edges(), m as int, edges, max_pair@),
        forward_edges(graph.edges(), m as int, edges, max_pair@, m as int),
        partner_edges(graph.edges(), m as int, max_pair@, m as int),
    ensures
        reachable@.len() == m + n,
        marks_closed(graph.edges(), reachable@),
        marks_grounded(graph.edges(), reachable@, m as int, max_pair@),
        forall|i: int| 0 <= i < m && max_pair@[i] == 0 ==> #[trigger] reachable@[i],
        forall|v: int| 0 <= v < m + n ==> (#[trigger] reachable@[v] <==> alt_reached(edges, max_pair@, m as int, v)),
{
    let ghost g = graph.edges();
    let mut reachable: Vec<bool> = vec![false; graph.n_nodes()];
    proof {
        assert forall|e: int| 0 <= e < g.len() && capable_real(#[trigger] g[e]) && reachable@[g[e].node1 as int] implies reachable@[g[e].node2 as int] by {
            graph.lemma_wf();
        }
    }
    let mut i: usize = 0;
    while i < m
        invariant
            graph.wf(),
            graph.edges() == g,
            graph.node_count() == m + n,
            i <= m,
            max_pair@.len() == m,
            reachable@.len() == m + n,
            marks_closed(g, reachable@),
            marks_grounded(g, reachable@, m as int, max_pair@),
            forall|i2: int| 0 <= i2 < i && max_pair@[i2] == 0 ==> #[trigger] reachable@[i2],
            network_edges(g, m as int, edges, max_pair@),
            forall|v: int| 0 <= v < m + n && #[trigger] reachable@[v] ==> alt_reached(edges, max_pair@, m as int, v),
        decreases m - i,
    {
        if max_pair[i] == 0 {
            let ghost old_marks = reachable@;
            graph.mark_reachable_capable(i, reachable.as_mut_slice());
            proof {
                let cap = |e: Edge| capable_real(e);
                let new_marks = reachable@;
                assert(new_marks[i as int]) by {
                    if !old_marks[i as int] {
                        assert(reachable_avoiding(g, i as int, i as int, cap, old_marks)) by {
                            assert(crate::graph::is_walk(g, Seq::<int>::empty(), i as int, i as int, cap));
                        }
                    }
                }
                assert forall|e: int|
                    0 <= e < g.len() && capable_real(#[trigger] g[e]) && new_marks[g[e].node1 as int] implies new_marks[g[e].node2
                    as int] by {
                    graph.lemma_wf();
                    if !old_marks[g[e].node1 as int] && !old_marks[g[e].node2 as int] {
                        assert(cap(g[e]));
                        lemma_reachable_avoiding_extend(g, i as int, e, cap, old_marks);
                    }
                }
                assert forall|v: int| 0 <= v < new_marks.len() && #[trigger] new_marks[v] implies (v < m
                    && max_pair@[v] == 0) || exists|e: int|
                    0 <= e < g.len() && capable_real(#[trigger] g[e]) && g[e].node2 == v && new_marks[g[e].node1 as int] by {
                    if old_marks[v] {
                        if !(v < m && max_pair@[v] == 0) {
                            let e = choose|e: int|
                                0 <= e < g.len() && capable_real(#[trigger] g[e]) && g[e].node2 == v
                                    && old_marks[g[e].node1 as int];
                            graph.lemma_wf();
                            assert(new_marks[g[e].node1 as int]);
                        }
                    } else if v != i {
                        let e = lemma_reachable_avoiding_last(g, i as int, v, cap, old_marks);
                        graph.lemma_wf();
                        assert(new_marks[g[e].node1 as int]);
                    }
                }
                assert forall|v: int| 0 <= v < m + n && #[trigger] new_marks[v] implies alt_reached(
                    edges,
                    max_pair@,
                    m as int,
                    v,
                ) by {
                    if !old_marks[v] {
                        assert(reachable_avoiding(g, i as int, v, cap, old_marks));
                        let p = choose|p: Seq<int>|
                            {
                                &&& crate::graph::is_walk(g, p, i as int, v, cap)
                                &&& !old_marks[i as int]
                                &&& forall|k: int| 0 <= k < p.len() ==> !old_marks[g[#[trigger] p[k]].node2 as int]
                            };
                        lemma_walk_to_alt(g, m as int, edges, max_pair@, p, i as int, v);
                    }
                }
            }
        }
        i += 1;
    }
    proof {
        assert forall|v: int| 0 <= v < m + n implies (#[trigger] reachable@[v] <==> alt_reached(
            edges,
            max_pair@,
            m as int,
            v,
        )) by {
            if alt_reached(edges, max_pair@, m as int, v) {
                let p = choose|p: Seq<int>| #[trigger] alt_walk(edges, max_pair@, m as int, p) && p.last() == v;
                lemma_alt_marked(g, m as int, n as int, edges, max_pair@, reachable@, p, p.len() - 1);
            }
        }
    }
    reachable
}

/// A smallest set of nodes that touches every edge of the bipartite graph
/// with `m` left nodes and `n` right nodes (left node `i + 1` is joined to
/// the right nodes in `edges[i]`), given a largest matching: `max_pair[i]`
/// is the partner of left node `i + 1`, or zero. The left nodes returned
/// are those that no alternating path from a free left node reaches, the
/// right nodes those that one reaches.
#[verifier::rlimit(40)]
pub fn solve(m: usize, n: usize, edges: &[Vec<usize>], max_pair: &[usize]) -> (answer: (Vec<usize>, Vec<usize>))
    requires
        edges@.len() == m,
        max_pair@.len() == m,
        m + n < usize::MAX / 4,
        2 * m + 2 * lists_len(edges@, m as int) + 8 < usize::MAX,
        forall|i: int| 0 <= i < m ==> #[trigger] max_pair@[i] <= n,
        forall|i: int, k: int| 0 <= i < m && 0 <= k < edges@[i]@.len() ==> 1 <= #[trigger] edges@[i]@[k] <= n,
    ensures
        increasing_within(answer.0@, m as int),
        increasing_within(answer.1@, n as int),
        covers(edges@, m as int, answer.0@, answer.1@),
        forall|i: int| 0 <= i < m && max_pair@[i] == 0 ==> !answer.0@.contains((i + 1) as usize),
        forall|i: int|
            0 <= i < m && #[trigger] max_pair@[i] != 0 ==> (answer.0@.contains((i + 1) as usize) <==> !answer.1@.contains(
                max_pair@[i],
            )),
        forall|i: int|
            0 <= i < m ==> (answer.0@.contains((i + 1) as usize) <==> !#[trigger] alt_reached(edges@, max_pair@, m as int, i)),
        forall|j: int|
            1 <= j <= n ==> (answer.1@.contains(j as usize) <==> #[trigger] alt_reached(
                edges@,
                max_pair@,
                m as int,
                m + j - 1,
            )),
{
    let graph = build_network(m, n, edges, max_pair);
    let ghost g = graph.edges();
    let reachable = mark_from_free(&graph, m, n, max_pair, Ghost(edges@));
    proof {
        graph.lemma_wf();
        assert forall|i2: int, k: int|
            0 <= i2 < m && 0 <= k < edges@[i2]@.len() && reachable@[i2] implies #[trigger] reachable@[m + edges@[i2]@[k]
            - 1] by {
            let j = edges@[i2]@[k];
            if j != max_pair@[i2] {
                let e = choose|e: int|
                    0 <= e < g.len() && #[trigger] g[e].is_real && g[e].node1 == i2 && g[e].node2 == m + edges@[i2]@[k] - 1;
                assert(capable_real(g[e]));
            } else {
                let e = choose|e: int|
                    0 <= e < g.len() && capable_real(#[trigger] g[e]) && g[e].node2 == i2 && reachable@[g[e].node1 as int];
            }
        }
    }
    let mut answer1: Vec<usize> = Vec::new();
    let mut answer2: Vec<usize> = Vec::new();
    let mut i: usize = 0;
    while i < m
        invariant
            i <= m,
            reachable@.len() == m + n,
            m + n < usize::MAX / 4,
            increasing_within(answer1@, m as int),
            forall|k: int| 0 <= k < answer1@.len() ==> #[trigger] answer1@[k] <= i,
            forall|i2: int| 0 <= i2 < i ==> (answer1@.contains((i2 + 1) as usize) <==> !#[trigger] reachable@[i2]),
        decreases m - i,
    {
        if !reachable[i] {
            proof {
                lemma_push_contains(answer1@, (i + 1) as usize);
            }
            answer1.push(i + 1);
        }
        i += 1;
    }
    let mut j: usize = 0;
    while j < n
        invariant
            j <= n,
            reachable@.len() == m + n,
            m + n < usize::MAX / 4,
            increasing_within(answer2@, n as int),
            forall|k: int| 0 <= k < answer2@.len() ==> #[trigger] answer2@[k] <= j,
            forall|j2: int| 0 <= j2 < j ==> (answer2@.contains((j2 + 1) as usize) <==> #[trigger] reachable@[m + j2]),
        decreases n - j,
    {
        if reachable[m + j] {
            proof {
                lemma_push_contains(answer2@, (j + 1) as usize);
            }
            answer2.push(j + 1);
        }
        j += 1;
    }
    proof {
        assert forall|i2: int, k: int| 0 <= i2 < m && 0 <= k < edges@[i2]@.len() implies answer1@.contains(
            (i2 + 1) as usize,
        ) || answer2@.contains(#[trigger] edges@[i2]@[k]) by {
            if !answer1@.contains((i2 + 1) as usize) {
                assert(reachable@[i2]);
                let j2 = edges@[i2]@[k] - 1;
                assert(reachable@[m + edges@[i2]@[k] - 1]);
                assert(reachable@[m + j2]);
                assert(answer2@.contains((j2 + 1) as usize));
            }
        }
    }
    proof {
        assert forall|i2: int|
            0 <= i2 < m && #[trigger] max_pair@[i2] != 0 implies (answer1@.contains((i2 + 1) as usize) <==> !answer2@.contains(
            max_pair@[i2],
        )) by {
            let j2 = max_pair@[i2] - 1;
            assert(max_pair@[i2] == (j2 + 1) as usize);
            assert(answer2@.contains(max_pair@[i2]) <==> reachable@[m + j2]);
            if reachable@[m + j2] {
                let e = choose|e: int|
                    0 <= e < g.len() && #[trigger] g[e].is_real && g[e].node1 == m + max_pair@[i2] - 1 && g[e].node2 == i2;
                assert(capable_real(g[e]));
            }
            if reachable@[i2] {
                let e = choose|e: int| 0 <= e < g.len() && capable_real(#[trigger] g[e]) && g[e].node2 == i2 && reachable@[g[e].node1 as int];
            }
        }
        assert forall|i2: int| 0 <= i2 < m && max_pair@[i2] == 0 implies !answer1@.contains((i2 + 1) as usize) by {
            assert(reachable@[i2]);
        }
        assert forall|i2: int| 0 <= i2 < m implies (answer1@.contains((i2 + 1) as usize) <==> !#[trigger] alt_reached(
            edges@,
            max_pair@,
            m as int,
            i2,
        )) by {
            assert(reachable@[i2] <==> alt_reached(edges@, max_pair@, m as int, i2));
        }
        assert forall|j2: int| 1 <= j2 <= n implies (answer2@.contains(j2 as usize) <==> #[trigger] alt_reached(
            edges@,
            max_pair@,
            m as int,
            m + j2 - 1,
        )) by {
            assert(reachable@[m + j2 - 1] <==> alt_reached(edges@, max_pair@, m as int, m + j2 - 1));
            assert(answer2@.contains(((j2 - 1) + 1) as usize) <==> reachable@[m + (j2 - 1)]);
        }
    }
    (answer1, answer2)
}

/// The numbers `x` below the bound with `x + 1` in `list`.
pub open spec fn in_list(list: Seq<usize>) -> spec_fn(int) -> bool {
    |x: int| list.contains((x + 1) as usize)
}

/// A strictly rising list within `1..=bound` has as many entries as numbers
/// below `bound` whose successor it holds.
pub proof fn lemma_rising_count(list: Seq<usize>, bound: int)
    requires
        increasing_within(list, bound),
        0 <= bound < usize::MAX,
    ensures
        list.len() == total(indicator(in_list(list)), bound),
    decreases list.len(),
{
    let ind = indicator(in_list(list));
    if list.len() == 0 {
        assert forall|x: int| 0 <= x < bound implies #[trigger] ind(x) == 0 by {}
        lemma_total_zero(ind, bound);
    } else {
        let rest = list.drop_last();
        let last = list.last();
        assert(last == list[list.len() - 1]);
        assert(increasing_within(rest, bound)) by {
            assert forall|k: int| 0 <= k < rest.len() implies 1 <= #[trigger] rest[k] <= bound by {
                assert(rest[k] == list[k]);
            }
        }
        lemma_rising_count(rest, bound);
        let ir = indicator(in_list(rest));
        let pt = |x: int| if x == last - 1 { 1int } else { 0int };
        let zero = |x: int| 0int;
        assert forall|x: int| 0 <= x < bound implies #[trigger] ind(x) == ir(x) + pt(x) - zero(x) by {
            let y = (x + 1) as usize;
            assert(y == x + 1);
            if list.contains(y) {
                let k = choose|k: int| 0 <= k < list.len() && list[k] == y;
                if k < rest.len() {
                    assert(rest[k] == y);
                    assert(list[k] < last);
                }
            }
            if rest.contains(y) {
                let k = choose|k: int| 0 <= k < rest.len() && rest[k] == y;
                assert(list[k] == y);
                assert(list[k] < last);
            }
            if x == last - 1 {
                assert(list[list.len() - 1] == y);
            }
        }
        assert forall|x: int| 0 <= x < bound implies #[trigger] ind(x) >= ir(x) + pt(x) - zero(x) by {
            assert(ind(x) == ir(x) + pt(x) - zero(x));
        }
        lemma_total_combine(ind, ir, pt, zero, bound);
        lemma_total_zero(zero, bound);
        lemma_total_point(1, last - 1, bound);
    }
}

/// `max_pair` is a matching: each partner is within `1..=n` and joined to
/// its left node, and no right node is the partner of two left nodes.
pub open spec fn is_matching(edges: Seq<Vec<usize>>, max_pair: Seq<usize>, m: int, n: int) -> bool {
    &&& forall|i: int| 0 <= i < m ==> #[trigger] max_pair[i] <= n
    &&& forall|i: int| 0 <= i < m && #[trigger] max_pair[i] != 0 ==> edges[i]@.contains(max_pair[i])
    &&& forall|i1: int, i2: int|
        0 <= i1 < m && 0 <= i2 < m && i1 != i2 && max_pair[i1] != 0 ==> #[trigger] max_pair[i1] != #[trigger] max_pair[i2]
}

/// No alternating path from a free left node reaches a free right node.
pub open spec fn no_augmenting(edges: Seq<Vec<usize>>, max_pair: Seq<usize>, m: int, n: int) -> bool {
    forall|j: int|
        1 <= j <= n && #[trigger] alt_reached(edges, max_pair, m, m + j - 1) ==> exists|i: int|
            0 <= i < m && max_pair[i] == j
}

/// The matched left nodes.
pub open spec fn matched(max_pair: Seq<usize>) -> spec_fn(int) -> bool {
    |i: int| max_pair[i] != 0
}

/// The matched left nodes whose partner is in `right`.
pub open spec fn partner_in(max_pair: Seq<usize>, right: Seq<usize>) -> spec_fn(int) -> bool {
    |i: int| max_pair[i] != 0 && right.contains(max_pair[i])
}

/// Every cover has at least one node for each matched pair.
proof fn lemma_cover_at_least_matched(
    edges: Seq<Vec<usize>>,
    max_pair: Seq<usize>,
    m: int,
    n: int,
    c0: Seq<usize>,
    c1: Seq<usize>,
)
    requires
        0 <= m,
        0 <= n,
        edges.len() == m,
        max_pair.len() == m,
        is_matching(edges, max_pair, m, n),
        covers(edges, m, c0, c1),
    ensures
        total(indicator(matched(max_pair)), m) <= total(indicator(in_list(c0)), m) + total(indicator(in_list(c1)), n),
{
    let mm = indicator(matched(max_pair));
    let z0 = indicator(in_list(c0));
    let z1 = indicator(partner_in(max_pair, c1));
    let zero = |i: int| 0int;
    let sum = |i: int| z0(i) + z1(i);
    assert forall|i: int| 0 <= i < m implies #[trigger] mm(i) <= sum(i) by {
        if max_pair[i] != 0 {
            assert(edges[i]@.contains(max_pair[i]));
            let k = choose|k: int| 0 <= k < edges[i]@.len() && edges[i]@[k] == max_pair[i];
            assert(c0.contains((i + 1) as usize) || c1.contains(edges[i]@[k]));
        }
    }
    lemma_total_le(mm, sum, m);
    assert forall|i: int| 0 <= i < m implies #[trigger] sum(i) >= z0(i) + z1(i) - zero(i) by {}
    assert forall|i: int| 0 <= i < m implies #[trigger] sum(i) == z0(i) + z1(i) - zero(i) by {}
    lemma_total_combine(sum, z0, z1, zero, m);
    lemma_total_zero(zero, m);
    let g = indicator(in_list(c1));
    let b = partner_in(max_pair, c1);
    let idx = |i: int| max_pair[i] - 1;
    assert forall|i: int| 0 <= i < m && #[trigger] b(i) implies 0 <= idx(i) < n && g(idx(i)) >= 1 by {
        assert(max_pair[i] <= n);
        assert(((max_pair[i] - 1) + 1) as usize == max_pair[i]);
    }
    assert forall|i1: int, i2: int| 0 <= i1 < m && 0 <= i2 < m && i1 != i2 && b(i1) && b(i2) implies #[trigger] idx(i1)
        != #[trigger] idx(i2) by {
        assert(max_pair[i1] != max_pair[i2]);
    }
    assert forall|x: int| 0 <= x < n implies #[trigger] g(x) >= 0 by {}
    lemma_total_injective_where(g, b, idx, m, n);
}

/// The nodes that `solve` returns, under no augmenting path, are no more
/// than the matched pairs.
proof fn lemma_answer_at_most_matched(
    edges: Seq<Vec<usize>>,
    max_pair: Seq<usize>,
    m: int,
    n: int,
    a0: Seq<usize>,
    a1: Seq<usize>,
)
    requires
        0 <= m < usize::MAX,
        0 <= n < usize::MAX,
        max_pair.len() == m,
        is_matching(edges, max_pair, m, n),
        no_augmenting(edges, max_pair, m, n),
        forall|i: int| 0 <= i < m && max_pair[i] == 0 ==> !a0.contains((i + 1) as usize),
        forall|i: int|
            0 <= i < m && #[trigger] max_pair[i] != 0 ==> (a0.contains((i + 1) as usize) <==> !a1.contains(max_pair[i])),
        forall|j: int| 1 <= j <= n ==> (a1.contains(j as usize) <==> #[trigger] alt_reached(edges, max_pair, m, m + j - 1)),
    ensures
        total(indicator(in_list(a0)), m) + total(indicator(in_list(a1)), n) <= total(indicator(matched(max_pair)), m),
{
    let x = indicator(in_list(a0));
    let y = indicator(partner_in(max_pair, a1));
    let mm = indicator(matched(max_pair));
    let zero = |i: int| 0int;
    assert forall|i: int| 0 <= i < m implies #[trigger] mm(i) == x(i) + y(i) - zero(i) by {
        if max_pair[i] != 0 {
            assert(a0.contains((i + 1) as usize) <==> !a1.contains(max_pair[i]));
        }
    }
    assert forall|i: int| 0 <= i < m implies #[trigger] mm(i) >= x(i) + y(i) - zero(i) by {
        assert(mm(i) == x(i) + y(i) - zero(i));
    }
    lemma_total_combine(mm, x, y, zero, m);
    lemma_total_zero(zero, m);
    let g = y;
    let b = in_list(a1);
    let idx = |j: int| choose|i: int| 0 <= i < m && max_pair[i] == j + 1;
    assert forall|j: int| 0 <= j < n && #[trigger] b(j) implies 0 <= idx(j) < m && g(idx(j)) >= 1 by {
        let jj = j + 1;
        assert((jj as usize) == (j + 1) as usize);
        assert(a1.contains(jj as usize));
        assert(alt_reached(edges, max_pair, m, m + jj - 1));
        assert(exists|i: int| 0 <= i < m && max_pair[i] == jj);
        let i = idx(j);
        assert(0 <= i < m && max_pair[i] == j + 1);
        assert(max_pair[i] == (j + 1) as usize);
    }
    assert forall|j1: int, j2: int| 0 <= j1 < n && 0 <= j2 < n && j1 != j2 && b(j1) && b(j2) implies #[trigger] idx(j1)
        != #[trigger] idx(j2) by {
        let jj1 = j1 + 1;
        let jj2 = j2 + 1;
        assert(alt_reached(edges, max_pair, m, m + jj1 - 1));
        assert(alt_reached(edges, max_pair, m, m + jj2 - 1));
        assert(exists|i: int| 0 <= i < m && max_pair[i] == jj1);
        assert(exists|i: int| 0 <= i < m && max_pair[i] == jj2);
    }
    assert forall|i: int| 0 <= i < m implies #[trigger] g(i) >= 0 by {}
    lemma_total_injective_where(g, b, idx, n, m);
}

/// Cutting out the part between two visits of one node keeps an alternating
/// path: some alternating path to the same end visits no node twice.
proof fn lemma_simple_walk(edges: Seq<Vec<usize>>, max_pair: Seq<usize>, m: int, p: Seq<int>) -> (q: Seq<int>)
    requires
        alt_walk(edges, max_pair, m, p),
    ensures
        alt_walk(edges, max_pair, m, q),
        q.last() == p.last(),
        forall|a: int, b: int| 0 <= a < b < q.len() ==> q[a] != q[b],
    decreases p.len(),
{
    if exists|a: int, b: int| 0 <= a < b < p.len() && p[a] == p[b] {
        let (a, b) = choose|a: int, b: int| 0 <= a < b < p.len() && p[a] == p[b];
        let r = p.subrange(0, a) + p.subrange(b, p.len() as int);
        assert(r.len() == p.len() - (b - a));
        assert(r[0] == p[0]);
        assert forall|k: int| #![trigger r[k]] 0 <= k < r.len() - 1 implies alt_step(edges, max_pair, m, r[k], r[k + 1]) by {
            if k < a - 1 {
                assert(r[k] == p[k] && r[k + 1] == p[k + 1]);
                let _ = p[k];
            } else if k == a - 1 {
                assert(r[k] == p[k] && r[k + 1] == p[b]);
                let _ = p[k];
            } else {
                assert(r[k] == p[k - a + b] && r[k + 1] == p[k - a + b + 1]);
                let _ = p[k - a + b];
            }
        }
        assert(r.last() == p.last());
        lemma_simple_walk(edges, max_pair, m, r)
    } else {
        p
    }
}

/// `max_pair` is a largest matching.
pub open spec fn is_maximum(edges: Seq<Vec<usize>>, max_pair: Seq<usize>, m: int, n: int) -> bool {
    &&& is_matching(edges, max_pair, m, n)
    &&& forall|other: Seq<usize>|
        #[trigger] is_matching(edges, other, m, n) ==> total(indicator(matched(other)), m) <= total(
            indicator(matched(max_pair)),
            m,
        )
}

/// The step of an alternating path out of the left node `q[a]` goes to a
/// right node joined to it, and the step out of a right node goes to the
/// left node matched to it.
proof fn lemma_alt_sides(edges: Seq<Vec<usize>>, max_pair: Seq<usize>, m: int, n: int, q: Seq<int>, a: int)
    requires
        alt_walk(edges, max_pair, m, q),
        0 <= a < q.len() - 1,
        edges.len() == m,
        forall|i: int, k: int| 0 <= i < m && 0 <= k < edges[i]@.len() ==> 1 <= #[trigger] edges[i]@[k] <= n,
    ensures
        q[a] < m ==> 0 <= q[a] && m <= q[a + 1] < m + n && edges[q[a]]@.contains((q[a + 1] - m + 1) as usize) && q[a
            + 1] - m + 1 != max_pair[q[a]],
        q[a] >= m ==> 0 <= q[a + 1] < m && max_pair[q[a + 1]] != 0 && q[a] == m + max_pair[q[a + 1]] - 1,
{
    let _ = q[a];
    assert(alt_step(edges, max_pair, m, q[a], q[a + 1]));
    if q[a] < m && !(0 <= q[a + 1] < m && max_pair[q[a + 1]] != 0 && q[a] == m + max_pair[q[a + 1]] - 1) {
        let k = choose|k: int|
            0 <= k < edges[q[a]]@.len() && q[a + 1] == m + #[trigger] edges[q[a]]@[k] - 1 && edges[q[a]]@[k] != max_pair[q[a]];
        assert(edges[q[a]]@[k] == (q[a + 1] - m + 1) as usize);
    }
}

/// The left node `i` on the path `q`, where it is.
spec fn path_index(q: Seq<int>, i: int) -> int {
    choose|a: int| 0 <= a < q.len() && q[a] == i
}

/// The matching `max_pair` switched along the path `q`: each left node on
/// it takes the right node after it.
spec fn switched(max_pair: Seq<usize>, m: int, q: Seq<int>) -> Seq<usize> {
    Seq::new(
        m as nat,
        |i: int|
            if exists|a: int| 0 <= a < q.len() && q[a] == i {
                (q[path_index(q, i) + 1] - m + 1) as usize
            } else {
                max_pair[i]
            },
    )
}

/// An alternating path from a free left node to a free right node gives a
/// larger matching: a largest matching leaves none.
pub proof fn lemma_maximum_no_augmenting(edges: Seq<Vec<usize>>, max_pair: Seq<usize>, m: int, n: int)
    requires
        0 <= m,
        0 <= n,
        edges.len() == m,
        max_pair.len() == m,
        forall|i: int, k: int| 0 <= i < m && 0 <= k < edges[i]@.len() ==> 1 <= #[trigger] edges[i]@[k] <= n,
        is_maximum(edges, max_pair, m, n),
    ensures
        no_augmenting(edges, max_pair, m, n),
{
    assert forall|j: int|
        1 <= j <= n && #[trigger] alt_reached(edges, max_pair, m, m + j - 1) implies exists|i: int|
        0 <= i < m && max_pair[i] == j by {
        if !exists|i: int| 0 <= i < m && max_pair[i] == j {
            let p0 = choose|p: Seq<int>| #[trigger] alt_walk(edges, max_pair, m, p) && p.last() == m + j - 1;
            let q = lemma_simple_walk(edges, max_pair, m, p0);
            assert(augmenting(edges, max_pair, m, q, j));
            lemma_switched_matching(edges, max_pair, m, n, q, j);
            lemma_switched_count(edges, max_pair, m, n, q, j);
            assert(is_matching(edges, switched(max_pair, m, q), m, n));
        }
    }
}

/// A path from a free left node to the free right node `j` that visits no
/// node twice.
spec fn augmenting(edges: Seq<Vec<usize>>, max_pair: Seq<usize>, m: int, q: Seq<int>, j: int) -> bool {
    &&& alt_walk(edges, max_pair, m, q)
    &&& q.last() == m + j - 1
    &&& forall|a: int, b: int| 0 <= a < b < q.len() ==> q[a] != q[b]
    &&& !exists|i: int| 0 <= i < m && max_pair[i] == j
}

/// A left node on the path takes in the switched matching the right node
/// after it, joined to it.
proof fn lemma_on_path(edges: Seq<Vec<usize>>, max_pair: Seq<usize>, m: int, n: int, q: Seq<int>, j: int, i: int)
    requires
        edges.len() == m,
        max_pair.len() == m,
        forall|i2: int, k: int| 0 <= i2 < m && 0 <= k < edges[i2]@.len() ==> 1 <= #[trigger] edges[i2]@[k] <= n,
        augmenting(edges, max_pair, m, q, j),
        1 <= j <= n,
        0 <= i < m,
        exists|a: int| 0 <= a < q.len() && q[a] == i,
    ensures
        0 <= path_index(q, i) < q.len() - 1,
        q[path_index(q, i)] == i,
        m <= q[path_index(q, i) + 1] < m + n,
        edges[i]@.contains((q[path_index(q, i) + 1] - m + 1) as usize),
        switched(max_pair, m, q)[i] == (q[path_index(q, i) + 1] - m + 1) as usize,
        1 <= switched(max_pair, m, q)[i] <= n,
{
    let a = path_index(q, i);
    assert(0 <= a < q.len() && q[a] == i);
    if a == q.len() - 1 {
        assert(q[a] >= m);
    }
    lemma_alt_sides(edges, max_pair, m, n, q, a);
}

/// Switching a matching along a path without repeated nodes from a free
/// left node to the free right node `j` gives a matching.
#[verifier::rlimit(40)]
proof fn lemma_switched_matching(edges: Seq<Vec<usize>>, max_pair: Seq<usize>, m: int, n: int, q: Seq<int>, j: int)
    requires
        0 <= m,
        0 <= n,
        edges.len() == m,
        max_pair.len() == m,
        forall|i: int, k: int| 0 <= i < m && 0 <= k < edges[i]@.len() ==> 1 <= #[trigger] edges[i]@[k] <= n,
        is_matching(edges, max_pair, m, n),
        augmenting(edges, max_pair, m, q, j),
        1 <= j <= n,
    ensures
        is_matching(edges, switched(max_pair, m, q), m, n),
{
    let np = switched(max_pair, m, q);
    let last = q.len() - 1;
    assert forall|i: int| 0 <= i < m implies #[trigger] np[i] <= n by {
        if exists|a: int| 0 <= a < q.len() && q[a] == i {
            lemma_on_path(edges, max_pair, m, n, q, j, i);
        }
    }
    assert forall|i: int| 0 <= i < m && #[trigger] np[i] != 0 implies edges[i]@.contains(np[i]) by {
        if exists|a: int| 0 <= a < q.len() && q[a] == i {
            lemma_on_path(edges, max_pair, m, n, q, j, i);
        }
    }
    assert forall|i1: int, i2: int|
        0 <= i1 < m && 0 <= i2 < m && i1 != i2 && np[i1] != 0 implies #[trigger] np[i1] != #[trigger] np[i2] by {
        let on1 = exists|a: int| 0 <= a < q.len() && q[a] == i1;
        let on2 = exists|a: int| 0 <= a < q.len() && q[a] == i2;
        if on1 && on2 {
            lemma_on_path(edges, max_pair, m, n, q, j, i1);
            lemma_on_path(edges, max_pair, m, n, q, j, i2);
            let a1 = path_index(q, i1);
            let a2 = path_index(q, i2);
            assert(a1 != a2);
            assert(q[a1 + 1] != q[a2 + 1]);
        } else if on1 || on2 {
            let (ia, ib) = if on1 { (i1, i2) } else { (i2, i1) };
            lemma_on_path(edges, max_pair, m, n, q, j, ia);
            let a = path_index(q, ia);
            assert(np[ib] == max_pair[ib]);
            if np[ia] == np[ib] {
                if a + 1 == last {
                    assert(max_pair[ib] == j);
                } else {
                    lemma_alt_sides(edges, max_pair, m, n, q, a + 1);
                    let c = q[a + 2];
                    assert(max_pair[c] == max_pair[ib]);
                    assert(c == ib);
                }
            }
        }
    }
}

/// Switching along such a path matches one more left node.
proof fn lemma_switched_count(edges: Seq<Vec<usize>>, max_pair: Seq<usize>, m: int, n: int, q: Seq<int>, j: int)
    requires
        0 <= m,
        0 <= n,
        edges.len() == m,
        max_pair.len() == m,
        forall|i: int, k: int| 0 <= i < m && 0 <= k < edges[i]@.len() ==> 1 <= #[trigger] edges[i]@[k] <= n,
        augmenting(edges, max_pair, m, q, j),
        1 <= j <= n,
    ensures
        total(indicator(matched(switched(max_pair, m, q))), m) >= total(indicator(matched(max_pair)), m) + 1,
{
    let np = switched(max_pair, m, q);
    let old_c = indicator(matched(max_pair));
    let new_c = indicator(matched(np));
    let u = q[0];
    let pt = |v: int| if v == u { 1int } else { 0int };
    let zero = |i: int| 0int;
    assert forall|i: int| 0 <= i < m implies #[trigger] new_c(i) >= old_c(i) + pt(i) - zero(i) by {
        if exists|a: int| 0 <= a < q.len() && q[a] == i {
            lemma_on_path(edges, max_pair, m, n, q, j, i);
        } else {
            assert(i != q[0]);
        }
    }
    lemma_total_combine(new_c, old_c, pt, zero, m);
    lemma_total_zero(zero, m);
    lemma_total_point(1, u, m);
}

/// Given a largest matching, two lists with what `solve` ensures of its
/// answer (the left nodes no alternating path from a free left node
/// reaches, the right nodes one reaches) form a cover no larger than any
/// other: the answer is a smallest cover.
pub proof fn lemma_smallest_cover(
    edges: Seq<Vec<usize>>,
    max_pair: Seq<usize>,
    m: int,
    n: int,
    a0: Seq<usize>,
    a1: Seq<usize>,
    c0: Seq<usize>,
    c1: Seq<usize>,
)
    requires
        0 <= m < usize::MAX,
        0 <= n < usize::MAX,
        edges.len() == m,
        max_pair.len() == m,
        forall|i: int, k: int| 0 <= i < m && 0 <= k < edges[i]@.len() ==> 1 <= #[trigger] edges[i]@[k] <= n,
        is_maximum(edges, max_pair, m, n),
        increasing_within(a0, m),
        increasing_within(a1, n),
        forall|i: int| 0 <= i < m ==> (a0.contains((i + 1) as usize) <==> !#[trigger] alt_reached(edges, max_pair, m, i)),
        forall|j: int| 1 <= j <= n ==> (a1.contains(j as usize) <==> #[trigger] alt_reached(edges, max_pair, m, m + j - 1)),
        forall|i: int| 0 <= i < m && max_pair[i] == 0 ==> !a0.contains((i + 1) as usize),
        forall|i: int|
            0 <= i < m && #[trigger] max_pair[i] != 0 ==> (a0.contains((i + 1) as usize) <==> !a1.contains(max_pair[i])),
        covers(edges, m, c0, c1),
        increasing_within(c0, m),
        increasing_within(c1, n),
    ensures
        a0.len() + a1.len() <= c0.len() + c1.len(),
{
    lemma_maximum_no_augmenting(edges, max_pair, m, n);
    lemma_rising_count(a0, m);
    lemma_rising_count(a1, n);
    lemma_rising_count(c0, m);
    lemma_rising_count(c1, n);
    lemma_answer_at_most_matched(edges, max_pair, m, n, a0, a1);
    lemma_cover_at_least_matched(edges, max_pair, m, n, c0, c1);
}

} // verus!
