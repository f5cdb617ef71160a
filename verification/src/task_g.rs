use vstd::prelude::*;
use crate::capacity::Capacity;
use crate::graph::{partners_idle, lemma_flow_fits, 
    Graph, Edge, finite_total, lemma_no_unbounded_reach, cut_value, cut_finite, separates, lemma_cut_value_push2,
    residual_side,
};
use crate::grid::{lists_len, lemma_lists_len_le, total, lemma_total_sub, lemma_total_congruent, lemma_total_zero};

verus! {

/// Sum of the absolute values of the first `k` entries.
pub open spec fn abs_sum(u: Seq<i64>, k: int) -> int
    decreases k,
{
    if k <= 0 {
        0
    } else {
        abs_sum(u, k - 1) + if u[k - 1] >= 0 { u[k - 1] as int } else { -(u[k - 1] as int) }
    }
}

proof fn lemma_abs_sum_le(u: Seq<i64>, a: int, b: int)
    requires
        0 <= a <= b,
    ensures
        0 <= abs_sum(u, a) <= abs_sum(u, b),
    decreases b - a,
{
    if a < b {
        lemma_abs_sum_le(u, a, b - 1);
    } else {
        lemma_abs_sum_nonneg(u, a);
    }
}

proof fn lemma_abs_sum_nonneg(u: Seq<i64>, a: int)
    ensures
        0 <= abs_sum(u, a),
    decreases a,
{
    if a > 0 {
        lemma_abs_sum_nonneg(u, a - 1);
    }
}

/// What task `i` adds when the tasks in `chosen` are done: its usefulness
/// if it is among them, nothing otherwise.
pub open spec fn task_gain(u: Seq<i64>, chosen: Set<int>) -> spec_fn(int) -> int {
    |i: int|
        if chosen.contains(i) {
            u[i] as int
        } else {
            0
        }
}

/// The total usefulness of the tasks in `chosen`.
pub open spec fn gain(u: Seq<i64>, chosen: Set<int>) -> int {
    total(task_gain(u, chosen), u.len() as int)
}

/// Every task in `chosen` has the tasks it needs in `chosen` too.
pub open spec fn closed_under(deps: Seq<Vec<usize>>, chosen: Set<int>) -> bool {
    forall|i: int, k: int|
        0 <= i < deps.len() && 0 <= k < deps[i]@.len() && chosen.contains(i) ==> chosen.contains(
            #[trigger] deps[i]@[k] - 1,
        )
}

/// The gain of the first `k` tasks lies within their total size.
proof fn lemma_gain_bound(u: Seq<i64>, chosen: Set<int>, k: int)
    requires
        0 <= k <= u.len(),
    ensures
        -abs_sum(u, k) <= total(task_gain(u, chosen), k) <= abs_sum(u, k),
    decreases k,
{
    if k > 0 {
        lemma_gain_bound(u, chosen, k - 1);
    }
}

/// An edge from `i` to `j` of unbounded capacity is among the edges.
pub open spec fn has_unbounded(edges: Seq<Edge>, i: int, j: int) -> bool {
    exists|e: int| 0 <= e < edges.len() && #[trigger] edges[e].node1 == i && edges[e].node2 == j && edges[e].capacity is Infinity
}

/// Task `i` (from zero) needs task `j` (from zero).
pub open spec fn dep_edge(deps: Seq<Vec<usize>>, i: int, j: int) -> bool {
    0 <= i < deps.len() && exists|k: int| 0 <= k < deps[i]@.len() && #[trigger] deps[i]@[k] - 1 == j
}

/// The usefulness of task `i` when it is useful, zero otherwise.
spec fn useful_part(u: Seq<i64>) -> spec_fn(int) -> int {
    |i: int|
        if u[i] >= 0 {
            u[i] as int
        } else {
            0
        }
}

/// What task `i` adds to the capacity of the cut `S` of the network.
spec fn task_cut(u: Seq<i64>, cut: Set<int>) -> spec_fn(int) -> int {
    |i: int|
        if u[i] >= 0 {
            if cut.contains(i) {
                0
            } else {
                u[i] as int
            }
        } else {
            if cut.contains(i) {
                -(u[i] as int)
            } else {
                0
            }
        }
}

/// A cut that keeps the tasks in `S` costs the useful tasks left out and
/// the harmful tasks kept: the total usefulness of the useful tasks less
/// the gain of the tasks kept.
proof fn lemma_cut_gain(u: Seq<i64>, cut: Set<int>)
    ensures
        total(task_cut(u, cut), u.len() as int) == total(useful_part(u), u.len() as int) - gain(u, cut),
{
    let f = task_cut(u, cut);
    let g = useful_part(u);
    let h = task_gain(u, cut);
    assert forall|k: int| 0 <= k < u.len() implies #[trigger] f(k) == g(k) - h(k) by {}
    lemma_total_sub(f, g, h, u.len() as int);
}

/// The largest total usefulness of a set of tasks closed under dependencies
/// (task `i` needs each task `j` in `dependencies[i]`, counted from one).
/// Computed as the sum over the source side of a minimum cut of the network
/// where the source feeds each useful task, each harmful task feeds the sink,
/// and each dependency is an edge of unbounded capacity.
pub fn solve(usefulness: &[i64], dependencies: &[Vec<usize>]) -> (best: u64)
    requires
        usefulness@.len() == dependencies@.len(),
        usefulness@.len() + 2 <= usize::MAX,
        forall|i: int| 0 <= i < usefulness@.len() ==> #[trigger] usefulness@[i] > i64::MIN,
        abs_sum(usefulness@, usefulness@.len() as int) <= i64::MAX,
        forall|i: int, k: int|
            0 <= i < dependencies@.len() && 0 <= k < dependencies@[i]@.len() ==> 1 <= #[trigger] dependencies@[i]@[k]
                <= usefulness@.len(),
        2 * usefulness@.len() + 2 * lists_len(dependencies@, dependencies@.len() as int) + 8 < usize::MAX,
    ensures
        exists|chosen: Set<int>| closed_under(dependencies@, chosen) && #[trigger] gain(usefulness@, chosen) == best,
        forall|chosen: Set<int>| closed_under(dependencies@, chosen) ==> #[trigger] gain(usefulness@, chosen) <= best,
{
    let n = usefulness.len();
    let mut graph = Graph::new(n + 2);
    proof {
        lemma_lists_len_le(dependencies@, 0, dependencies@.len() as int);
    }
    let s = n;
    let t = s + 1;
    let mut i: usize = 0;
    while i < n
        invariant
            graph.wf(),
            graph.node_count() == n + 2,
            partners_idle(graph.edges()),
            n == usefulness@.len(),
            s == n,
            t == n + 1,
            i <= n,
            graph.edges().len() == 2 * i,
            lists_len(dependencies@, dependencies@.len() as int) >= 0,
            finite_total(graph.edges()) == abs_sum(usefulness@, i as int),
            forall|i2: int| 0 <= i2 < n ==> #[trigger] usefulness@[i2] > i64::MIN,
            2 * n + 2 * lists_len(dependencies@, dependencies@.len() as int) + 8 < usize::MAX,
            forall|e: int| 0 <= e < graph.edges().len() ==> (#[trigger] graph.edges()[e]).capacity is Finite,
            forall|cut: Set<int>|
                separates(cut, s as int, t as int) ==> #[trigger] cut_value(graph.edges(), cut) == total(
                    task_cut(usefulness@, cut),
                    i as int,
                ),
        decreases n - i,
    {
        let ghost before = graph.edges();
        if usefulness[i] >= 0 {
            graph.add_edge(s, i, Capacity::Finite(usefulness[i] as u64));
        } else {
            graph.add_edge(i, t, Capacity::Finite((-usefulness[i]) as u64));
        }
        proof {
            let e2 = graph.edges();
            assert forall|cut: Set<int>| separates(cut, s as int, t as int) implies #[trigger] cut_value(
                graph.edges(),
                cut,
            ) == total(task_cut(usefulness@, cut), i + 1) by {
                lemma_cut_value_push2(before, cut, e2[before.len() as int], e2[before.len() + 1int]);
                assert(e2 == before.push(e2[before.len() as int]).push(e2[before.len() + 1int]));
            }
        }
        i += 1;
    }
    let mut i: usize = 0;
    while i < n
        invariant
            graph.wf(),
            graph.node_count() == n + 2,
            partners_idle(graph.edges()),
            n == usefulness@.len(),
            n == dependencies@.len(),
            s == n,
            t == n + 1,
            i <= n,
            graph.edges().len() == 2 * n + 2 * lists_len(dependencies@, i as int),
            finite_total(graph.edges()) == abs_sum(usefulness@, n as int),
            forall|i2: int, k: int|
                0 <= i2 < dependencies@.len() && 0 <= k < dependencies@[i2]@.len() ==> 1 <= #[trigger] dependencies@[i2]@[k]
                    <= n,
            2 * n + 2 * lists_len(dependencies@, dependencies@.len() as int) + 8 < usize::MAX,
            forall|e: int| 0 <= e < graph.edges().len() && (#[trigger] graph.edges()[e]).node1 == s ==> graph.edges()[e].capacity is Finite,
            forall|e: int| 0 <= e < graph.edges().len() && (#[trigger] graph.edges()[e]).capacity is Infinity ==> dep_edge(
                dependencies@,
                graph.edges()[e].node1 as int,
                graph.edges()[e].node2 as int,
            ),
            forall|i2: int, k2: int|
                0 <= i2 < i && 0 <= k2 < dependencies@[i2]@.len() ==> #[trigger] has_unbounded(
                    graph.edges(),
                    i2,
                    dependencies@[i2]@[k2] - 1,
                ),
            forall|cut: Set<int>|
                separates(cut, s as int, t as int) ==> #[trigger] cut_value(graph.edges(), cut) == total(task_cut(usefulness@, cut), n as int),
        decreases n - i,
    {
        let deps = &dependencies[i];
        let mut k: usize = 0;
        proof {
            lemma_lists_len_le(dependencies@, i as int + 1, dependencies@.len() as int);
        }
        while k < deps.len()
            invariant
                graph.wf(),
                graph.node_count() == n + 2,
                partners_idle(graph.edges()),
                n == usefulness@.len(),
                n == dependencies@.len(),
                s == n,
                i < n,
                deps@ == dependencies@[i as int]@,
                k <= deps@.len(),
                graph.edges().len() == 2 * n + 2 * lists_len(dependencies@, i as int) + 2 * k,
                lists_len(dependencies@, i as int + 1) == lists_len(dependencies@, i as int) + deps@.len(),
                lists_len(dependencies@, i as int + 1) <= lists_len(dependencies@, dependencies@.len() as int),
                finite_total(graph.edges()) == abs_sum(usefulness@, n as int),
                forall|k2: int| 0 <= k2 < deps@.len() ==> 1 <= #[trigger] deps@[k2] <= n,
                2 * n + 2 * lists_len(dependencies@, dependencies@.len() as int) + 8 < usize::MAX,
                forall|e: int| 0 <= e < graph.edges().len() && (#[trigger] graph.edges()[e]).node1 == s ==> graph.edges()[e].capacity is Finite,
                forall|e: int| 0 <= e < graph.edges().len() && (#[trigger] graph.edges()[e]).capacity is Infinity ==> dep_edge(
                    dependencies@,
                    graph.edges()[e].node1 as int,
                    graph.edges()[e].node2 as int,
                ),
                forall|i2: int, k2: int|
                    0 <= i2 < i && 0 <= k2 < dependencies@[i2]@.len() ==> #[trigger] has_unbounded(
                        graph.edges(),
                        i2,
                        dependencies@[i2]@[k2] - 1,
                    ),
                forall|k2: int| 0 <= k2 < k ==> #[trigger] has_unbounded(graph.edges(), i as int, deps@[k2] - 1),
                forall|cut: Set<int>|
                    separates(cut, s as int, t as int) ==> #[trigger] cut_value(graph.edges(), cut) == total(task_cut(usefulness@, cut), n as int),
            decreases deps@.len() - k,
        {
            let j = deps[k] - 1;
            let ghost before = graph.edges();
            let pos = graph.add_edge(i, j, Capacity::Infinity);
            proof {
                let e2 = graph.edges();
                assert forall|cut: Set<int>| separates(cut, s as int, t as int) implies #[trigger] cut_value(
                    graph.edges(),
                    cut,
                ) == total(task_cut(usefulness@, cut), n as int) by {
                    lemma_cut_value_push2(before, cut, e2[before.len() as int], e2[before.len() + 1int]);
                    assert(e2 == before.push(e2[before.len() as int]).push(e2[before.len() + 1int]));
                }
                assert(deps@[k as int] == dependencies@[i as int]@[k as int]);
                assert forall|e: int| 0 <= e < e2.len() && (#[trigger] e2[e]).capacity is Infinity implies dep_edge(
                    dependencies@,
                    e2[e].node1 as int,
                    e2[e].node2 as int,
                ) by {
                    if e < before.len() {
                        assert(e2[e] == before[e]);
                    }
                }
                assert forall|i2: int, k2: int|
                    0 <= i2 < i && 0 <= k2 < dependencies@[i2]@.len() implies #[trigger] has_unbounded(
                    e2,
                    i2,
                    dependencies@[i2]@[k2] - 1,
                ) by {
                    assert(has_unbounded(before, i2, dependencies@[i2]@[k2] - 1));
                    let e = choose|e: int| 0 <= e < before.len() && #[trigger] before[e].node1 == i2 && before[e].node2
                        == dependencies@[i2]@[k2] - 1 && before[e].capacity is Infinity;
                    assert(e2[e] == before[e]);
                }
                assert forall|k2: int| 0 <= k2 < k + 1 implies #[trigger] has_unbounded(e2, i as int, deps@[k2] - 1) by {
                    if k2 < k {
                        assert(has_unbounded(before, i as int, deps@[k2] - 1));
                        let e = choose|e: int| 0 <= e < before.len() && #[trigger] before[e].node1 == i && before[e].node2
                            == deps@[k2] - 1 && before[e].capacity is Infinity;
                        assert(e2[e] == before[e]);
                    } else {
                        assert(e2[pos as int].node1 == i);
                    }
                }
            }
            k += 1;
        }
        proof {
            assert forall|i2: int, k2: int|
                0 <= i2 < i + 1 && 0 <= k2 < dependencies@[i2]@.len() implies #[trigger] has_unbounded(
                graph.edges(),
                i2,
                dependencies@[i2]@[k2] - 1,
            ) by {
                if i2 == i {
                    assert(deps@[k2] == dependencies@[i2]@[k2]);
                    assert(has_unbounded(graph.edges(), i as int, deps@[k2] - 1));
                }
            }
        }
        i += 1;
    }
    proof {
        lemma_no_unbounded_reach(graph.edges(), s as int, t as int);
    }
    let ghost e0 = graph.edges();
    proof {
        graph.lemma_wf();
        lemma_flow_fits(graph.edges());
    }
    let flow = graph.max_flow(s, t);
    let reachable = graph.find_reachable_capable(s);
    let ghost rset = residual_side(graph.edges(), s as int);
    let mut result: i64 = 0;
    let mut i: usize = 0;
    while i < n
        invariant
            n == usefulness@.len(),
            reachable@.len() == n + 2,
            i <= n,
            forall|v: int| 0 <= v < n + 2 ==> #[trigger] reachable@[v] == rset.contains(v),
            result == total(task_gain(usefulness@, rset), i as int),
            abs_sum(usefulness@, n as int) <= i64::MAX,
        decreases n - i,
    {
        proof {
            lemma_gain_bound(usefulness@, rset, i as int + 1);
            lemma_abs_sum_le(usefulness@, i as int + 1, n as int);
        }
        if reachable[i] {
            result += usefulness[i];
        }
        i += 1;
    }
    proof {
        let u = usefulness@;
        let deps = dependencies@;
        let fv = flow->0 as int;
        let p = total(useful_part(u), n as int);
        lemma_cut_gain(u, rset);
        assert(gain(u, rset) == p - fv);
        assert forall|i2: int, k2: int|
            0 <= i2 < deps.len() && 0 <= k2 < deps[i2]@.len() && rset.contains(i2) implies rset.contains(
            #[trigger] deps[i2]@[k2] - 1,
        ) by {
            assert(has_unbounded(e0, i2, deps[i2]@[k2] - 1));
            let e = choose|e: int| 0 <= e < e0.len() && #[trigger] e0[e].node1 == i2 && e0[e].node2 == deps[i2]@[k2] - 1
                && e0[e].capacity is Infinity;
        }
        assert forall|chosen: Set<int>| closed_under(deps, chosen) implies #[trigger] gain(u, chosen) <= p - fv by {
            let cut = chosen.insert(s as int).remove(t as int);
            assert(separates(cut, s as int, t as int));
            assert forall|e: int|
                0 <= e < e0.len() && cut.contains(e0[e].node1 as int) && !cut.contains(e0[e].node2 as int) implies #[trigger] e0[e].capacity is Finite by {
                if e0[e].capacity is Infinity {
                    assert(dep_edge(deps, e0[e].node1 as int, e0[e].node2 as int));
                    let k = choose|k: int| 0 <= k < deps[e0[e].node1 as int]@.len() && #[trigger] deps[e0[e].node1 as int]@[k] - 1 == e0[e].node2;
                    assert(chosen.contains(e0[e].node1 as int));
                    assert(chosen.contains(deps[e0[e].node1 as int]@[k] - 1));
                }
            }
            assert(cut_finite(e0, cut));
            assert(fv <= cut_value(e0, cut));
            lemma_cut_gain(u, cut);
            let g1 = task_gain(u, chosen);
            let g2 = task_gain(u, cut);
            assert forall|k: int| 0 <= k < n implies #[trigger] g1(k) == g2(k) by {}
            lemma_total_congruent(g1, g2, n as int);
        }
        assert(closed_under(deps, Set::<int>::empty()));
        let z = task_gain(u, Set::<int>::empty());
        assert forall|k: int| 0 <= k < n implies #[trigger] z(k) == 0 by {}
        lemma_total_zero(z, n as int);
        assert(gain(u, Set::<int>::empty()) <= p - fv);
        assert(result >= 0);
    }
    result as u64
}

} // verus!
