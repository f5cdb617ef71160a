use vstd::prelude::*;
use crate::capacity::Capacity;
use crate::graph::{partners_idle, lemma_flow_fits, 
    Graph, Edge, finite_total, lemma_no_unbounded_reach, same_shape, cut_value, cut_weight, finite_part, lemma_cut_diff,
    pairs_kept, pair_sum, unbounded, separates, cut_finite, rev, residual_side,
};
use crate::grid::{
    lists_len, lemma_lists_len_le, total, lemma_total_congruent, lemma_total_split, lemma_total_point, lemma_total_sub,
    lemma_total_zero, lemma_total_two, lemma_total_injective,
};

verus! {

/// `pair` is a pair of a worker `a` (from one, at most `n`) and a job `b`
/// (from one) that worker `a` can do.
pub open spec fn admissible(edges: Seq<Vec<usize>>, n: int, pair: [usize; 2]) -> bool {
    &&& 1 <= pair[0] <= n
    &&& edges[pair[0] - 1]@.contains(pair[1])
}

/// The two edges added for the `k`-th listed pair `(v, u)`: worker `v`'s edge
/// to job `u` (numbered from one) and its paired edge.
pub open spec fn init_pair_ok(e: Seq<Edge>, n: int, listed: Seq<(int, int)>, k: int) -> bool {
    &&& e[2 * k] == Edge {
        node1: (n + listed[k].1 - 1) as usize,
        node2: listed[k].0 as usize,
        capacity: Capacity::Finite(0),
        is_real: false,
    }
    &&& e[2 * k + 1] == Edge {
        node1: listed[k].0 as usize,
        node2: (n + listed[k].1 - 1) as usize,
        capacity: Capacity::Finite(1),
        is_real: true,
    }
}

/// The four edges of worker `v`, starting at `base`: from the source to the
/// worker's copy, and from the copy to the worker, each with its pair.
pub open spec fn worker_ok(e: Seq<Edge>, base: int, n: int, m: int, v: int) -> bool {
    let s = 2 * (n + m);
    let u = n + m + v;
    &&& e[base] == Edge { node1: u as usize, node2: s as usize, capacity: Capacity::Finite(0), is_real: false }
    &&& e[base + 1] == Edge { node1: s as usize, node2: u as usize, capacity: Capacity::Finite(1), is_real: true }
    &&& e[base + 2] == Edge { node1: v as usize, node2: u as usize, capacity: Capacity::Finite(0), is_real: false }
    &&& e[base + 3] == Edge { node1: u as usize, node2: v as usize, capacity: Capacity::Finite(1), is_real: true }
}

/// The four edges of job `j` (from zero), starting at `base`: from the job to
/// its copy, and from the copy to the sink, each with its pair.
pub open spec fn job_ok(e: Seq<Edge>, base: int, n: int, m: int, j: int) -> bool {
    let t = 2 * (n + m) + 1;
    let a = n + j;
    let b = n + m + a;
    &&& e[base] == Edge { node1: b as usize, node2: a as usize, capacity: Capacity::Finite(0), is_real: false }
    &&& e[base + 1] == Edge { node1: a as usize, node2: b as usize, capacity: Capacity::Finite(1), is_real: true }
    &&& e[base + 2] == Edge { node1: t as usize, node2: b as usize, capacity: Capacity::Finite(0), is_real: false }
    &&& e[base + 3] == Edge { node1: b as usize, node2: t as usize, capacity: Capacity::Finite(1), is_real: true }
}

/// The whole network: the listed pairs' edges, then the workers', then the
/// jobs'.
pub open spec fn network_ok(e: Seq<Edge>, n: int, m: int, listed: Seq<(int, int)>) -> bool {
    let l = listed.len() as int;
    &&& e.len() == 2 * l + 4 * n + 4 * m
    &&& forall|k: int| 0 <= k < l ==> #[trigger] init_pair_ok(e, n, listed, k)
    &&& forall|v: int| 0 <= v < n ==> #[trigger] worker_ok(e, 2 * l + 4 * v, n, m, v)
    &&& forall|j: int| 0 <= j < m ==> #[trigger] job_ok(e, 2 * l + 4 * n + 4 * j, n, m, j)
}

/// The listed pairs are the admissible pairs, worker by worker.
pub open spec fn listed_ok(edges: Seq<Vec<usize>>, n: int, m: int, listed: Seq<(int, int)>) -> bool {
    &&& forall|k: int|
        0 <= k < listed.len() ==> {
            &&& 0 <= (#[trigger] listed[k]).0 < n
            &&& 1 <= listed[k].1 <= m
            &&& edges[listed[k].0]@.contains(listed[k].1 as usize)
        }
    &&& forall|v: int, i: int| 0 <= v < n && 0 <= i < edges[v]@.len() ==> listed.contains((v, #[trigger] edges[v]@[i] as int))
    &&& forall|a: int, b: int| 0 <= a < b < listed.len() ==> (#[trigger] listed[a]).0 <= (#[trigger] listed[b]).0
}

/// Pushing two edges keeps the earlier ones.
proof fn lemma_push2_keeps(before: Seq<Edge>, a: Edge, b: Edge)
    ensures
        forall|x: int| 0 <= x < before.len() ==> #[trigger] before.push(a).push(b)[x] == before[x],
        before.push(a).push(b)[before.len() as int] == a,
        before.push(a).push(b)[before.len() + 1int] == b,
        before.push(a).push(b).len() == before.len() + 2,
{
}

/// The network of the assignment: source, copies of workers, workers, jobs,
/// copies of jobs and sink, every edge of capacity one.
fn build_network(n: usize, m: usize, edges: &[Vec<usize>]) -> (res: (Graph, Vec<usize>, Ghost<Seq<(int, int)>>))
    requires
        edges@.len() == n,
        forall|v: int, k: int|
            0 <= v < n && 0 <= k < edges@[v]@.len() ==> 1 <= #[trigger] edges@[v]@[k] <= m,
        4 * (n + m) + 2 * lists_len(edges@, n as int) + 8 < usize::MAX,
        lists_len(edges@, n as int) + 2 * (n + m) <= u64::MAX,
    ensures
        res.0.wf(),
        res.0.node_count() == 2 * (n + m) + 2,
        res.2@.len() == lists_len(edges@, n as int),
        network_ok(res.0.edges(), n as int, m as int, res.2@),
        listed_ok(edges@, n as int, m as int, res.2@),
        res.1@.len() == res.2@.len(),
        forall|k: int| 0 <= k < res.1@.len() ==> #[trigger] res.1@[k] == 2 * k + 1,
        finite_total(res.0.edges()) == lists_len(edges@, n as int) + 2 * (n + m),
        forall|x: int| 0 <= x < res.0.edges().len() ==> (#[trigger] res.0.edges()[x]).capacity is Finite,
{
    proof {
        lemma_lists_len_le(edges@, 0, n as int);
    }
    let ghost total = lists_len(edges@, n as int);
    let mut g = Graph::new(2 * (n + m) + 2);
    let s = 2 * (n + m);
    let t = s + 1;
    let ghost mut listed: Seq<(int, int)> = Seq::empty();
    let mut init_edges: Vec<usize> = Vec::new();
    let mut v: usize = 0;
    while v < n
        invariant
            g.wf(),
            g.node_count() == 2 * (n + m) + 2,
            s == 2 * (n + m),
            t == s + 1,
            v <= n,
            edges@.len() == n,
            total == lists_len(edges@, n as int),
            g.edges().len() == 2 * lists_len(edges@, v as int),
            listed.len() == lists_len(edges@, v as int),
            init_edges@.len() == listed.len(),
            forall|k: int| 0 <= k < init_edges@.len() ==> #[trigger] init_edges@[k] == 2 * k + 1,
            finite_total(g.edges()) == lists_len(edges@, v as int),
            forall|v2: int, k: int|
                0 <= v2 < n && 0 <= k < edges@[v2]@.len() ==> 1 <= #[trigger] edges@[v2]@[k] <= m,
            4 * (n + m) + 2 * total + 8 < usize::MAX,
            forall|k: int| 0 <= k < listed.len() ==> #[trigger] init_pair_ok(g.edges(), n as int, listed, k),
            forall|k: int|
                0 <= k < listed.len() ==> {
                    &&& 0 <= (#[trigger] listed[k]).0 < v
                    &&& 1 <= listed[k].1 <= m
                    &&& edges@[listed[k].0]@.contains(listed[k].1 as usize)
                },
            forall|a: int, b: int| 0 <= a < b < listed.len() ==> (#[trigger] listed[a]).0 <= (#[trigger] listed[b]).0,
            forall|v2: int, i: int|
                0 <= v2 < v && 0 <= i < edges@[v2]@.len() ==> listed.contains((v2, #[trigger] edges@[v2]@[i] as int)),
            forall|e: int| 0 <= e < g.edges().len() ==> (#[trigger] g.edges()[e]).capacity is Finite,
        decreases n - v,
    {
        let list = &edges[v];
        proof {
            lemma_lists_len_le(edges@, v as int + 1, n as int);
        }
        let mut k: usize = 0;
        while k < list.len()
            invariant
                g.wf(),
                g.node_count() == 2 * (n + m) + 2,
                v < n,
                edges@.len() == n,
                list@ == edges@[v as int]@,
                k <= list@.len(),
                total == lists_len(edges@, n as int),
                lists_len(edges@, v as int + 1) == lists_len(edges@, v as int) + list@.len(),
                lists_len(edges@, v as int + 1) <= total,
                g.edges().len() == 2 * (lists_len(edges@, v as int) + k),
                listed.len() == lists_len(edges@, v as int) + k,
                init_edges@.len() == listed.len(),
                forall|k2: int| 0 <= k2 < init_edges@.len() ==> #[trigger] init_edges@[k2] == 2 * k2 + 1,
                finite_total(g.edges()) == lists_len(edges@, v as int) + k,
                forall|k2: int| 0 <= k2 < list@.len() ==> 1 <= #[trigger] list@[k2] <= m,
                4 * (n + m) + 2 * total + 8 < usize::MAX,
                forall|k2: int| 0 <= k2 < listed.len() ==> #[trigger] init_pair_ok(g.edges(), n as int, listed, k2),
                forall|k2: int|
                    0 <= k2 < listed.len() ==> {
                        &&& 0 <= (#[trigger] listed[k2]).0 <= v
                        &&& 1 <= listed[k2].1 <= m
                        &&& edges@[listed[k2].0]@.contains(listed[k2].1 as usize)
                    },
                forall|a: int, b: int| 0 <= a < b < listed.len() ==> (#[trigger] listed[a]).0 <= (#[trigger] listed[b]).0,
                forall|v2: int, i: int|
                    0 <= v2 < v && 0 <= i < edges@[v2]@.len() ==> listed.contains((v2, #[trigger] edges@[v2]@[i] as int)),
                forall|i: int| 0 <= i < k ==> listed.contains((v as int, #[trigger] list@[i] as int)),
                forall|e: int| 0 <= e < g.edges().len() ==> (#[trigger] g.edges()[e]).capacity is Finite,
            decreases list@.len() - k,
        {
            let u = list[k];
            let ghost before = g.edges();
            let pos = g.add_edge(v, n + u - 1, Capacity::Finite(1));
            init_edges.push(pos);
            proof {
                let a = before.len() as int;
                lemma_push2_keeps(before, g.edges()[a], g.edges()[a + 1]);
                let old_listed = listed;
                listed = listed.push((v as int, u as int));
                assert forall|a: int, b: int| 0 <= a < b < listed.len() implies (#[trigger] listed[a]).0 <= (
                #[trigger] listed[b]).0 by {
                    assert(listed[a] == old_listed[a]);
                    if b < old_listed.len() {
                        assert(listed[b] == old_listed[b]);
                    }
                }
                assert(list@[k as int] == u);
                assert(list@.contains(u));
                assert forall|k2: int| 0 <= k2 < listed.len() implies #[trigger] init_pair_ok(g.edges(), n as int, listed, k2) by {
                    if k2 < old_listed.len() {
                        assert(init_pair_ok(before, n as int, old_listed, k2));
                        assert(listed[k2] == old_listed[k2]);
                    }
                }
                assert forall|v2: int, i: int|
                    0 <= v2 < v && 0 <= i < edges@[v2]@.len() implies listed.contains((v2, #[trigger] edges@[v2]@[i] as int)) by {
                    let x = (v2, edges@[v2]@[i] as int);
                    assert(old_listed.contains(x));
                    let k2 = choose|k2: int| 0 <= k2 < old_listed.len() && old_listed[k2] == x;
                    assert(listed[k2] == old_listed[k2]);
                }
                assert forall|i: int| 0 <= i < k + 1 implies listed.contains((v as int, #[trigger] list@[i] as int)) by {
                    let x = (v as int, list@[i] as int);
                    if i < k {
                        assert(old_listed.contains(x));
                        let k2 = choose|k2: int| 0 <= k2 < old_listed.len() && old_listed[k2] == x;
                        assert(listed[k2] == old_listed[k2]);
                    } else {
                        assert(listed[old_listed.len() as int] == x);
                    }
                }
            }
            k += 1;
        }
        proof {
            assert forall|v2: int, i: int|
                0 <= v2 < v + 1 && 0 <= i < edges@[v2]@.len() implies listed.contains((v2, #[trigger] edges@[v2]@[i] as int)) by {
                if v2 == v {
                    assert(list@[i] == edges@[v2]@[i]);
                }
            }
        }
        v += 1;
    }
    let ghost l = listed.len() as int;
    let mut v: usize = 0;
    while v < n
        invariant
            g.wf(),
            g.node_count() == 2 * (n + m) + 2,
            s == 2 * (n + m),
            v <= n,
            total == lists_len(edges@, n as int),
            l == total,
            listed.len() == l,
            init_edges@.len() == l,
            forall|k: int| 0 <= k < init_edges@.len() ==> #[trigger] init_edges@[k] == 2 * k + 1,
            g.edges().len() == 2 * total + 4 * v,
            finite_total(g.edges()) == total + 2 * v,
            4 * (n + m) + 2 * total + 8 < usize::MAX,
            forall|k: int| 0 <= k < l ==> #[trigger] init_pair_ok(g.edges(), n as int, listed, k),
            forall|v2: int| 0 <= v2 < v ==> #[trigger] worker_ok(g.edges(), 2 * l + 4 * v2, n as int, m as int, v2),
            forall|e: int| 0 <= e < g.edges().len() ==> (#[trigger] g.edges()[e]).capacity is Finite,
        decreases n - v,
    {
        let u = n + m + v;
        let ghost before = g.edges();
        g.add_edge(s, u, Capacity::Finite(1));
        let ghost mid = g.edges();
        g.add_edge(u, v, Capacity::Finite(1));
        proof {
            let a = before.len() as int;
            lemma_push2_keeps(before, mid[a], mid[a + 1]);
            lemma_push2_keeps(mid, g.edges()[a + 2], g.edges()[a + 3]);
            assert forall|k: int| 0 <= k < l implies #[trigger] init_pair_ok(g.edges(), n as int, listed, k) by {
                assert(init_pair_ok(before, n as int, listed, k));
            }
            assert forall|v2: int| 0 <= v2 < v + 1 implies #[trigger] worker_ok(g.edges(), 2 * l + 4 * v2, n as int, m as int, v2) by {
                if v2 < v {
                    assert(worker_ok(before, 2 * l + 4 * v2, n as int, m as int, v2));
                }
            }
        }
        v += 1;
    }
    let mut j: usize = 0;
    while j < m
        invariant
            g.wf(),
            g.node_count() == 2 * (n + m) + 2,
            s == 2 * (n + m),
            t == s + 1,
            j <= m,
            total == lists_len(edges@, n as int),
            l == total,
            listed.len() == l,
            init_edges@.len() == l,
            forall|k: int| 0 <= k < init_edges@.len() ==> #[trigger] init_edges@[k] == 2 * k + 1,
            g.edges().len() == 2 * total + 4 * n + 4 * j,
            finite_total(g.edges()) == total + 2 * n + 2 * j,
            4 * (n + m) + 2 * total + 8 < usize::MAX,
            forall|k: int| 0 <= k < l ==> #[trigger] init_pair_ok(g.edges(), n as int, listed, k),
            forall|v2: int| 0 <= v2 < n ==> #[trigger] worker_ok(g.edges(), 2 * l + 4 * v2, n as int, m as int, v2),
            forall|j2: int| 0 <= j2 < j ==> #[trigger] job_ok(g.edges(), 2 * l + 4 * n + 4 * j2, n as int, m as int, j2),
            forall|e: int| 0 <= e < g.edges().len() ==> (#[trigger] g.edges()[e]).capacity is Finite,
        decreases m - j,
    {
        let a = n + j;
        let b = n + m + a;
        let ghost before = g.edges();
        g.add_edge(a, b, Capacity::Finite(1));
        let ghost mid = g.edges();
        g.add_edge(b, t, Capacity::Finite(1));
        proof {
            let x = before.len() as int;
            lemma_push2_keeps(before, mid[x], mid[x + 1]);
            lemma_push2_keeps(mid, g.edges()[x + 2], g.edges()[x + 3]);
            assert forall|k: int| 0 <= k < l implies #[trigger] init_pair_ok(g.edges(), n as int, listed, k) by {
                assert(init_pair_ok(before, n as int, listed, k));
            }
            assert forall|v2: int| 0 <= v2 < n implies #[trigger] worker_ok(g.edges(), 2 * l + 4 * v2, n as int, m as int, v2) by {
                assert(worker_ok(before, 2 * l + 4 * v2, n as int, m as int, v2));
            }
            assert forall|j2: int| 0 <= j2 < j + 1 implies #[trigger] job_ok(g.edges(), 2 * l + 4 * n + 4 * j2, n as int, m as int, j2) by {
                if j2 < j {
                    assert(job_ok(before, 2 * l + 4 * n + 4 * j2, n as int, m as int, j2));
                }
            }
        }
        j += 1;
    }
    (g, init_edges, Ghost(listed))
}

/// Where edge `i` of the network lies: a quotient and remainder by 4 past
/// `base`.
pub proof fn lemma_split4(i: int, base: int)
    requires
        base <= i,
    ensures
        i == base + 4 * ((i - base) / 4) + (i - base) % 4,
        0 <= (i - base) % 4 < 4,
        0 <= (i - base) / 4,
{
    assert(i - base == 4 * ((i - base) / 4) + (i - base) % 4) by (nonlinear_arith);
    assert(0 <= (i - base) % 4 < 4) by (nonlinear_arith);
    assert(0 <= (i - base) / 4) by (nonlinear_arith)
        requires
            base <= i,
    ;
}

/// The listed pairs' edges of worker `v`, each counted by its capacity.
pub open spec fn worker_term(e: Seq<Edge>, listed: Seq<(int, int)>, v: int) -> spec_fn(int) -> int {
    |x: int| if x % 2 == 1 && listed[x / 2].0 == v { finite_part(e[x].capacity) } else { 0int }
}

/// The listed pairs' edges into job `u` (from one), each counted by its
/// capacity.
pub open spec fn job_term(e: Seq<Edge>, listed: Seq<(int, int)>, u: int) -> spec_fn(int) -> int {
    |x: int| if x % 2 == 1 && listed[x / 2].1 == u { finite_part(e[x].capacity) } else { 0int }
}

/// Edges with the nodes of the network.
pub open spec fn shaped_like(e: Seq<Edge>, e0: Seq<Edge>, n: int, m: int, listed: Seq<(int, int)>) -> bool {
    &&& network_ok(e0, n, m, listed)
    &&& same_shape(e, e0)
    &&& 0 <= m
    &&& 0 <= n
    &&& 2 * (n + m) + 2 <= usize::MAX
    &&& forall|k: int| 0 <= k < listed.len() ==> 0 <= (#[trigger] listed[k]).0 < n && 1 <= listed[k].1 <= m
}

/// Moving worker `v` into the cut that holds the source and `v`'s copy adds
/// `v`'s listed edges and takes away the edge from its copy.
proof fn lemma_worker_balance(e: Seq<Edge>, e0: Seq<Edge>, n: int, m: int, listed: Seq<(int, int)>, v: int)
    requires
        shaped_like(e, e0, n, m, listed),
        0 <= v < n,
    ensures
        cut_value(e, set![2 * (n + m), n + m + v].insert(v)) - cut_value(e, set![2 * (n + m), n + m + v]) == total(
            worker_term(e, listed, v),
            2 * (listed.len() as int),
        ) - finite_part(e[2 * listed.len() + 4 * v + 3].capacity),
{
    let l = listed.len() as int;
    let len = e.len() as int;
    let x = set![2 * (n + m), n + m + v];
    let y = x.insert(v);
    let copy = 2 * l + 4 * v + 3;
    lemma_cut_diff(e, x, y, len);
    let d = |i: int| cut_weight(e[i], y) - cut_weight(e[i], x);
    let wt = worker_term(e, listed, v);
    let a = |i: int| if i < 2 * l { wt(i) } else if i == copy { -finite_part(e[i].capacity) } else { 0int };
    assert forall|i: int| 0 <= i < len implies #[trigger] d(i) == a(i) by {
        assert(e[i].node1 == e0[i].node1 && e[i].node2 == e0[i].node2);
        if i < 2 * l {
            let k = i / 2;
            assert(init_pair_ok(e0, n, listed, k));
            assert(0 <= listed[k].0 < n && 1 <= listed[k].1 <= m);
            if i % 2 == 0 {
                assert(i == 2 * k);
                assert(d(i) == a(i));
            } else {
                assert(i == 2 * k + 1);
                assert(d(i) == a(i));
            }
        } else if i < 2 * l + 4 * n {
            lemma_split4(i, 2 * l);
            let w = (i - 2 * l) / 4;
            assert(worker_ok(e0, 2 * l + 4 * w, n, m, w));
            assert(d(i) == a(i));
        } else {
            lemma_split4(i, 2 * l + 4 * n);
            let j = (i - 2 * l - 4 * n) / 4;
            assert(job_ok(e0, 2 * l + 4 * n + 4 * j, n, m, j));
            assert(d(i) == a(i));
        }
    }
    lemma_total_congruent(d, a, len);
    lemma_total_split(a, 2 * l, 4 * n + 4 * m);
    assert forall|i: int| 0 <= i < 2 * l implies #[trigger] a(i) == wt(i) by {}
    lemma_total_congruent(a, wt, 2 * l);
    let c = -finite_part(e[copy].capacity);
    let pt = |z: int| if z == 4 * v + 3 { c } else { 0int };
    let sh = |z: int| a(2 * l + z);
    assert forall|z: int| 0 <= z < 4 * n + 4 * m implies #[trigger] sh(z) == pt(z) by {}
    lemma_total_congruent(sh, pt, 4 * n + 4 * m);
    lemma_total_point(c, 4 * v + 3, 4 * n + 4 * m);
}

/// The cut that holds the source, the workers and their copies.
pub open spec fn workers_side(n: int, m: int) -> Set<int> {
    Set::new(|z: int| z == 2 * (n + m) || 0 <= z < n || n + m <= z < 2 * n + m)
}

/// Moving job `u` (from one) into the cut that holds the source, the workers
/// and their copies adds the job's edge to its copy and takes away the
/// listed edges into the job.
proof fn lemma_job_balance(e: Seq<Edge>, e0: Seq<Edge>, n: int, m: int, listed: Seq<(int, int)>, u: int)
    requires
        shaped_like(e, e0, n, m, listed),
        1 <= u <= m,
    ensures
        cut_value(e, workers_side(n, m).insert(n + u - 1)) - cut_value(e, workers_side(n, m)) == finite_part(
            e[2 * listed.len() + 4 * n + 4 * (u - 1) + 1].capacity,
        ) - total(job_term(e, listed, u), 2 * (listed.len() as int)),
{
    let l = listed.len() as int;
    let len = e.len() as int;
    let x = workers_side(n, m);
    let y = x.insert(n + u - 1);
    let jedge = 2 * l + 4 * n + 4 * (u - 1) + 1;
    lemma_cut_diff(e, x, y, len);
    let d = |i: int| cut_weight(e[i], y) - cut_weight(e[i], x);
    let jt = job_term(e, listed, u);
    let a = |i: int| if i < 2 * l { -jt(i) } else if i == jedge { finite_part(e[i].capacity) } else { 0int };
    assert forall|i: int| 0 <= i < len implies #[trigger] d(i) == a(i) by {
        assert(e[i].node1 == e0[i].node1 && e[i].node2 == e0[i].node2);
        if i < 2 * l {
            let k = i / 2;
            assert(init_pair_ok(e0, n, listed, k));
            assert(0 <= listed[k].0 < n && 1 <= listed[k].1 <= m);
            if i % 2 == 0 {
                assert(i == 2 * k);
                assert(d(i) == a(i));
            } else {
                assert(i == 2 * k + 1);
                assert(d(i) == a(i));
            }
        } else if i < 2 * l + 4 * n {
            lemma_split4(i, 2 * l);
            let w = (i - 2 * l) / 4;
            assert(worker_ok(e0, 2 * l + 4 * w, n, m, w));
            assert(d(i) == a(i));
        } else {
            lemma_split4(i, 2 * l + 4 * n);
            let j = (i - 2 * l - 4 * n) / 4;
            assert(job_ok(e0, 2 * l + 4 * n + 4 * j, n, m, j));
            assert(d(i) == a(i));
        }
    }
    lemma_total_congruent(d, a, len);
    lemma_total_split(a, 2 * l, 4 * n + 4 * m);
    let neg = |i: int| -jt(i);
    let zero = |i: int| 0int;
    assert forall|i: int| 0 <= i < 2 * l implies #[trigger] a(i) == zero(i) - jt(i) by {}
    lemma_total_sub(a, zero, jt, 2 * l);
    lemma_total_zero(zero, 2 * l);
    let c = finite_part(e[jedge].capacity);
    let pt = |z: int| if z == 4 * n + 4 * (u - 1) + 1 { c } else { 0int };
    let sh = |z: int| a(2 * l + z);
    assert forall|z: int| 0 <= z < 4 * n + 4 * m implies #[trigger] sh(z) == pt(z) by {}
    lemma_total_congruent(sh, pt, 4 * n + 4 * m);
    lemma_total_point(c, 4 * n + 4 * (u - 1) + 1, 4 * n + 4 * m);
}

/// Pushing flow through the network leaves each listed pair's edge with
/// capacity zero or one.
pub open spec fn flow_facts(e0: Seq<Edge>, fin: Seq<Edge>, f: int, s: int, t: int) -> bool {
    &&& pairs_kept(e0, fin)
    &&& forall|x: int| 0 <= x < e0.len() ==> unbounded(#[trigger] fin[x]) == unbounded(e0[x])
    &&& forall|cut: Set<int>|
        separates(cut, s, t) && cut_finite(e0, cut) ==> #[trigger] cut_value(fin, cut) + f == cut_value(e0, cut)
    &&& forall|x: int| 0 <= x < e0.len() ==> (#[trigger] e0[x]).capacity is Finite
}

/// One for a listed edge whose capacity is used up, zero otherwise: `sel`
/// picks the listed pairs that count.
pub open spec fn used(fin: Seq<Edge>, x: int, sel: bool) -> int {
    if x % 2 == 1 && sel && fin[x].capacity == Capacity::Finite(0) { 1int } else { 0int }
}

/// A listed edge is used up exactly when its capacity fell from one.
proof fn lemma_used_edge(e0: Seq<Edge>, fin: Seq<Edge>, n: int, m: int, listed: Seq<(int, int)>, f: int, x: int)
    requires
        shaped_like(fin, e0, n, m, listed),
        flow_facts(e0, fin, f, 2 * (n + m), 2 * (n + m) + 1),
        0 <= x < 2 * listed.len(),
        x % 2 == 1,
    ensures
        (if fin[x].capacity == Capacity::Finite(0) { 1int } else { 0int }) == finite_part(e0[x].capacity) - finite_part(
            fin[x].capacity,
        ),
        finite_part(e0[x].capacity) == 1,
{
    let k = x / 2;
    assert(x == 2 * k + 1);
    assert(init_pair_ok(e0, n, listed, k));
    assert(rev(x) == x - 1);
    assert(!unbounded(e0[x]) && !unbounded(e0[x - 1]));
    assert(!unbounded(fin[x]) && !unbounded(fin[x - 1]));
    assert(pair_sum(fin, x) == pair_sum(e0, x));
}

/// Two listed edges of one worker are never both used up.
proof fn lemma_worker_once(e0: Seq<Edge>, fin: Seq<Edge>, n: int, m: int, listed: Seq<(int, int)>, f: int, xa: int, xb: int)
    requires
        shaped_like(fin, e0, n, m, listed),
        shaped_like(e0, e0, n, m, listed),
        flow_facts(e0, fin, f, 2 * (n + m), 2 * (n + m) + 1),
        0 <= xa < xb < 2 * listed.len(),
        xa % 2 == 1,
        xb % 2 == 1,
        listed[xa / 2].0 == listed[xb / 2].0,
        fin[xa].capacity == Capacity::Finite(0),
    ensures
        fin[xb].capacity != Capacity::Finite(0),
{
    let l = listed.len() as int;
    let v = listed[xa / 2].0;
    assert(0 <= v < n);
    let s = 2 * (n + m);
    let t = s + 1;
    let x = set![s, n + m + v];
    let y = x.insert(v);
    lemma_worker_balance(fin, e0, n, m, listed, v);
    lemma_worker_balance(e0, e0, n, m, listed, v);
    assert(separates(x, s, t) && separates(y, s, t));
    assert(cut_finite(e0, x) && cut_finite(e0, y));
    assert(cut_value(fin, x) + f == cut_value(e0, x));
    assert(cut_value(fin, y) + f == cut_value(e0, y));
    let ind = |z: int| used(fin, z, listed[z / 2].0 == v);
    let w0 = worker_term(e0, listed, v);
    let w1 = worker_term(fin, listed, v);
    assert forall|z: int| 0 <= z < 2 * l implies #[trigger] ind(z) == w0(z) - w1(z) by {
        if z % 2 == 1 {
            lemma_used_edge(e0, fin, n, m, listed, f, z);
        }
    }
    lemma_total_sub(ind, w0, w1, 2 * l);
    let copy = 2 * l + 4 * v + 3;
    assert(worker_ok(e0, 2 * l + 4 * v, n, m, v));
    assert(!unbounded(fin[copy]));
    if fin[xb].capacity == Capacity::Finite(0) {
        assert forall|z: int| 0 <= z < 2 * l implies #[trigger] ind(z) >= 0 by {}
        lemma_total_two(ind, xa, xb, 2 * l);
    }
}

/// Two listed edges into one job are never both used up.
proof fn lemma_job_once(e0: Seq<Edge>, fin: Seq<Edge>, n: int, m: int, listed: Seq<(int, int)>, f: int, xa: int, xb: int)
    requires
        shaped_like(fin, e0, n, m, listed),
        shaped_like(e0, e0, n, m, listed),
        flow_facts(e0, fin, f, 2 * (n + m), 2 * (n + m) + 1),
        0 <= xa < xb < 2 * listed.len(),
        xa % 2 == 1,
        xb % 2 == 1,
        listed[xa / 2].1 == listed[xb / 2].1,
        fin[xa].capacity == Capacity::Finite(0),
    ensures
        fin[xb].capacity != Capacity::Finite(0),
{
    let l = listed.len() as int;
    let u = listed[xa / 2].1;
    assert(1 <= u <= m);
    let s = 2 * (n + m);
    let t = s + 1;
    let x = workers_side(n, m);
    let y = x.insert(n + u - 1);
    lemma_job_balance(fin, e0, n, m, listed, u);
    lemma_job_balance(e0, e0, n, m, listed, u);
    assert(separates(x, s, t) && separates(y, s, t));
    assert(cut_finite(e0, x) && cut_finite(e0, y));
    assert(cut_value(fin, x) + f == cut_value(e0, x));
    assert(cut_value(fin, y) + f == cut_value(e0, y));
    let ind = |z: int| used(fin, z, listed[z / 2].1 == u);
    let j0 = job_term(e0, listed, u);
    let j1 = job_term(fin, listed, u);
    assert forall|z: int| 0 <= z < 2 * l implies #[trigger] ind(z) == j0(z) - j1(z) by {
        if z % 2 == 1 {
            lemma_used_edge(e0, fin, n, m, listed, f, z);
        }
    }
    lemma_total_sub(ind, j0, j1, 2 * l);
    let jedge = 2 * l + 4 * n + 4 * (u - 1) + 1;
    assert(job_ok(e0, 2 * l + 4 * n + 4 * (u - 1), n, m, u - 1));
    assert(!unbounded(fin[jedge]));
    if fin[xb].capacity == Capacity::Finite(0) {
        assert forall|z: int| 0 <= z < 2 * l implies #[trigger] ind(z) >= 0 by {}
        lemma_total_two(ind, xa, xb, 2 * l);
    }
}

/// The listed pairs' edges, each counted by its capacity.
pub open spec fn listed_term(e: Seq<Edge>) -> spec_fn(int) -> int {
    |x: int| if x % 2 == 1 { finite_part(e[x].capacity) } else { 0int }
}

/// The cut that holds the source, the workers and their copies carries out
/// exactly the listed pairs' edges.
proof fn lemma_workers_side_value(e: Seq<Edge>, e0: Seq<Edge>, n: int, m: int, listed: Seq<(int, int)>)
    requires
        shaped_like(e, e0, n, m, listed),
    ensures
        cut_value(e, workers_side(n, m)) == total(listed_term(e), 2 * (listed.len() as int)),
{
    let l = listed.len() as int;
    let len = e.len() as int;
    let w = workers_side(n, m);
    let none = Set::<int>::empty();
    lemma_cut_diff(e, none, w, len);
    lemma_cut_sum_zero_set(e, len);
    let d = |i: int| cut_weight(e[i], w) - cut_weight(e[i], none);
    let lt = listed_term(e);
    let a = |i: int| if i < 2 * l { lt(i) } else { 0int };
    assert forall|i: int| 0 <= i < len implies #[trigger] d(i) == a(i) by {
        assert(e[i].node1 == e0[i].node1 && e[i].node2 == e0[i].node2);
        if i < 2 * l {
            let k = i / 2;
            assert(init_pair_ok(e0, n, listed, k));
            assert(0 <= listed[k].0 < n && 1 <= listed[k].1 <= m);
            if i % 2 == 0 {
                assert(i == 2 * k);
                assert(d(i) == a(i));
            } else {
                assert(i == 2 * k + 1);
                assert(d(i) == a(i));
            }
        } else if i < 2 * l + 4 * n {
            lemma_split4(i, 2 * l);
            let v = (i - 2 * l) / 4;
            assert(worker_ok(e0, 2 * l + 4 * v, n, m, v));
            assert(d(i) == a(i));
        } else {
            lemma_split4(i, 2 * l + 4 * n);
            let j = (i - 2 * l - 4 * n) / 4;
            assert(job_ok(e0, 2 * l + 4 * n + 4 * j, n, m, j));
            assert(d(i) == a(i));
        }
    }
    lemma_total_congruent(d, a, len);
    lemma_total_split(a, 2 * l, 4 * n + 4 * m);
    assert forall|i: int| 0 <= i < 2 * l implies #[trigger] a(i) == lt(i) by {}
    lemma_total_congruent(a, lt, 2 * l);
    let sh = |z: int| a(2 * l + z);
    assert forall|z: int| 0 <= z < 4 * n + 4 * m implies #[trigger] sh(z) == 0 by {}
    lemma_total_zero(sh, 4 * n + 4 * m);
}

/// No edge leaves the empty cut.
pub proof fn lemma_cut_sum_zero_set(e: Seq<Edge>, k: int)
    requires
        0 <= k <= e.len(),
    ensures
        crate::graph::cut_sum(e, Set::<int>::empty(), k) == 0,
    decreases k,
{
    if k > 0 {
        lemma_cut_sum_zero_set(e, k - 1);
    }
}

/// As many listed edges are used up as the flow pushed.
proof fn lemma_used_count(e0: Seq<Edge>, fin: Seq<Edge>, n: int, m: int, listed: Seq<(int, int)>, f: int)
    requires
        shaped_like(fin, e0, n, m, listed),
        shaped_like(e0, e0, n, m, listed),
        flow_facts(e0, fin, f, 2 * (n + m), 2 * (n + m) + 1),
    ensures
        total(|x: int| used(fin, x, true), 2 * (listed.len() as int)) == f,
{
    let l = listed.len() as int;
    let s = 2 * (n + m);
    let t = s + 1;
    let w = workers_side(n, m);
    lemma_workers_side_value(fin, e0, n, m, listed);
    lemma_workers_side_value(e0, e0, n, m, listed);
    assert(separates(w, s, t));
    assert(cut_finite(e0, w));
    assert(cut_value(fin, w) + f == cut_value(e0, w));
    let ind = |x: int| used(fin, x, true);
    let a = listed_term(e0);
    let b = listed_term(fin);
    assert forall|x: int| 0 <= x < 2 * l implies #[trigger] ind(x) == a(x) - b(x) by {
        if x % 2 == 1 {
            lemma_used_edge(e0, fin, n, m, listed, f, x);
        }
    }
    lemma_total_sub(ind, a, b, 2 * l);
}

/// `pairs` gives jobs to workers they can do, no worker and no job twice.
pub open spec fn is_assignment(edges: Seq<Vec<usize>>, n: int, pairs: Seq<[usize; 2]>) -> bool {
    &&& forall|i: int| 0 <= i < pairs.len() ==> admissible(edges, n, #[trigger] pairs[i])
    &&& forall|a: int, b: int|
        0 <= a < b < pairs.len() ==> (#[trigger] pairs[a])[0] != (#[trigger] pairs[b])[0] && pairs[a][1] != pairs[b][1]
}

/// The listed edge of the pair `[a, b]`.
spec fn listed_at(listed: Seq<(int, int)>, pair: [usize; 2]) -> int {
    choose|k: int| 0 <= k < listed.len() && listed[k] == (pair[0] - 1, pair[1] as int)
}

/// The first edge on the way source, worker's copy, worker, job, job's copy,
/// sink of the pair `[a, b]` that leaves the cut `S`.
spec fn crossing_edge(listed: Seq<(int, int)>, n: int, m: int, cut: Set<int>, pair: [usize; 2]) -> int {
    let l = listed.len() as int;
    let v = pair[0] - 1;
    let j = pair[1] - 1;
    if !cut.contains(n + m + v) {
        2 * l + 4 * v + 1
    } else if !cut.contains(v) {
        2 * l + 4 * v + 3
    } else if !cut.contains(n + j) {
        2 * listed_at(listed, pair) + 1
    } else if !cut.contains(2 * n + m + j) {
        2 * l + 4 * n + 4 * j + 1
    } else {
        2 * l + 4 * n + 4 * j + 3
    }
}

/// Every cut that separates the source from the sink carries out at least
/// as much as any assignment has pairs.
proof fn lemma_cut_covers(
    e0: Seq<Edge>,
    n: int,
    m: int,
    listed: Seq<(int, int)>,
    edges: Seq<Vec<usize>>,
    pairs: Seq<[usize; 2]>,
    cut: Set<int>,
)
    requires
        shaped_like(e0, e0, n, m, listed),
        listed_ok(edges, n, m, listed),
        is_assignment(edges, n, pairs),
        separates(cut, 2 * (n + m), 2 * (n + m) + 1),
    ensures
        cut_value(e0, cut) >= pairs.len(),
{
    let l = listed.len() as int;
    let len = e0.len() as int;
    let none = Set::<int>::empty();
    lemma_cut_diff(e0, none, cut, len);
    lemma_cut_sum_zero_set(e0, len);
    let g = |x: int| cut_weight(e0[x], cut) - cut_weight(e0[x], none);
    let idx = |i: int| crossing_edge(listed, n, m, cut, pairs[i]);
    assert forall|i: int| 0 <= i < pairs.len() implies {
        &&& 0 <= #[trigger] idx(i) < len
        &&& g(idx(i)) >= 1
        &&& 0 <= listed_at(listed, pairs[i]) < l
        &&& listed[listed_at(listed, pairs[i])] == (pairs[i][0] - 1, pairs[i][1] as int)
    } by {
        let pair = pairs[i];
        assert(admissible(edges, n, pair));
        let v = pair[0] - 1;
        let j = pair[1] - 1;
        assert(edges[v]@.contains(pair[1]));
        let q = choose|q: int| 0 <= q < edges[v]@.len() && edges[v]@[q] == pair[1];
        assert(listed.contains((v, edges[v]@[q] as int)));
        let k = listed_at(listed, pair);
        assert(0 <= k < l && listed[k] == (v, pair[1] as int));
        assert(0 <= listed[k].0 < n && 1 <= listed[k].1 <= m);
        assert(init_pair_ok(e0, n, listed, k));
        assert(worker_ok(e0, 2 * l + 4 * v, n, m, v));
        assert(job_ok(e0, 2 * l + 4 * n + 4 * j, n, m, j));
    }
    assert forall|i: int, i2: int|
        0 <= i < pairs.len() && 0 <= i2 < pairs.len() && i != i2 implies #[trigger] idx(i) != #[trigger] idx(i2) by {
        let (a, b) = if i < i2 { (i, i2) } else { (i2, i) };
        assert(pairs[a][0] != pairs[b][0] && pairs[a][1] != pairs[b][1]);
        assert(admissible(edges, n, pairs[i]) && admissible(edges, n, pairs[i2]));
        assert(0 <= listed_at(listed, pairs[i]) < l);
        assert(0 <= listed_at(listed, pairs[i2]) < l);
        assert(listed[listed_at(listed, pairs[i])] == (pairs[i][0] - 1, pairs[i][1] as int));
        assert(listed[listed_at(listed, pairs[i2])] == (pairs[i2][0] - 1, pairs[i2][1] as int));
        assert(1 <= pairs[i][1] <= m) by {
            let k = listed_at(listed, pairs[i]);
            assert(1 <= listed[k].1 <= m);
        }
        assert(1 <= pairs[i2][1] <= m) by {
            let k = listed_at(listed, pairs[i2]);
            assert(1 <= listed[k].1 <= m);
        }
    }
    assert forall|x: int| 0 <= x < len implies #[trigger] g(x) >= 0 by {}
    lemma_total_injective(g, idx, pairs.len() as int, len);
}

/// The pairs read from the used-up listed edges are admissible, and no worker
/// and no job comes twice among them.
proof fn lemma_answer_matching(
    e0: Seq<Edge>,
    fin: Seq<Edge>,
    n: int,
    m: int,
    listed: Seq<(int, int)>,
    f: int,
    edges: Seq<Vec<usize>>,
    answer: Seq<[usize; 2]>,
    xs: Seq<int>,
)
    requires
        shaped_like(fin, e0, n, m, listed),
        shaped_like(e0, e0, n, m, listed),
        flow_facts(e0, fin, f, 2 * (n + m), 2 * (n + m) + 1),
        listed_ok(edges, n, m, listed),
        answer.len() == xs.len(),
        forall|a: int| 0 <= a < xs.len() ==> {
            &&& 0 <= #[trigger] xs[a] < 2 * listed.len()
            &&& xs[a] % 2 == 1
            &&& fin[xs[a]].capacity == Capacity::Finite(0)
            &&& answer[a] == [(listed[xs[a] / 2].0 + 1) as usize, listed[xs[a] / 2].1 as usize]
        },
        forall|a: int, b: int| 0 <= a < b < xs.len() ==> #[trigger] xs[a] < #[trigger] xs[b],
    ensures
        forall|a: int| 0 <= a < answer.len() ==> admissible(edges, n, #[trigger] answer[a]),
        forall|a: int, b: int|
            0 <= a < b < answer.len() ==> (#[trigger] answer[a])[0] != (#[trigger] answer[b])[0] && answer[a][1]
                != answer[b][1],
{
    let l = listed.len() as int;
    assert forall|a: int| 0 <= a < answer.len() implies admissible(edges, n, #[trigger] answer[a]) by {
        let k = xs[a] / 2;
        assert(0 <= k < l);
        assert(0 <= listed[k].0 < n && 1 <= listed[k].1 <= m);
    }
    assert forall|a: int, b: int|
        0 <= a < b < answer.len() implies (#[trigger] answer[a])[0] != (#[trigger] answer[b])[0] && answer[a][1]
        != answer[b][1] by {
        let xa = xs[a];
        let xb = xs[b];
        assert(xa < xb);
        let ka = xa / 2;
        let kb = xb / 2;
        assert(0 <= ka < l && 0 <= kb < l);
        assert(0 <= listed[ka].0 < n && 1 <= listed[ka].1 <= m);
        assert(0 <= listed[kb].0 < n && 1 <= listed[kb].1 <= m);
        if answer[a][0] == answer[b][0] {
            lemma_worker_once(e0, fin, n, m, listed, f, xa, xb);
        }
        if answer[a][1] == answer[b][1] {
            lemma_job_once(e0, fin, n, m, listed, f, xa, xb);
        }
    }
}

/// A largest assignment of workers to jobs: worker `v` (from one) can do the
/// jobs listed in `edges[v - 1]`, among `m` jobs numbered from one. Each pair
/// `[a, b]` returned gives worker `a` job `b`; no worker and no job comes
/// twice. The assignment is read from a maximum flow through source, copies
/// of workers, workers, jobs, copies of jobs and sink, every edge of
/// capacity one.
pub fn solve(n: usize, m: usize, edges: &[Vec<usize>]) -> (answer: Vec<[usize; 2]>)
    requires
        edges@.len() == n,
        forall|v: int, k: int|
            0 <= v < n && 0 <= k < edges@[v]@.len() ==> 1 <= #[trigger] edges@[v]@[k] <= m,
        4 * (n + m) + 2 * lists_len(edges@, n as int) + 8 < usize::MAX,
        lists_len(edges@, n as int) + 2 * (n + m) <= u64::MAX,
    ensures
        is_assignment(edges@, n as int, answer@),
        forall|pairs: Seq<[usize; 2]>| #[trigger] is_assignment(edges@, n as int, pairs) ==> pairs.len() <= answer@.len(),
        forall|a: int, b: int| 0 <= a < b < answer@.len() ==> (#[trigger] answer@[a])[0] < (#[trigger] answer@[b])[0],
{
    let (mut g, init_edges, Ghost(listed)) = build_network(n, m, edges);
    let s = 2 * (n + m);
    let t = s + 1;
    let ghost l = listed.len() as int;
    let ghost nn = n as int;
    let ghost mm = m as int;
    proof {
        lemma_no_unbounded_reach(g.edges(), s as int, t as int);
    }
    let ghost e0 = g.edges();
    proof {
        g.lemma_wf();
        assert(partners_idle(g.edges())) by {
            reveal(partners_idle);
        }
        lemma_flow_fits(g.edges());
    }
    let flow = g.max_flow(s, t);
    let ghost fin = g.edges();
    let ghost f = flow->0 as int;
    proof {
        assert forall|cut: Set<int>| separates(cut, s as int, t as int) && cut_finite(e0, cut) implies #[trigger] cut_value(
            fin,
            cut,
        ) + f == cut_value(e0, cut) by {}
        assert(flow_facts(e0, fin, f, s as int, t as int));
        assert(shaped_like(fin, e0, nn, mm, listed));
        assert(shaped_like(e0, e0, nn, mm, listed));
    }
    let mut answer: Vec<[usize; 2]> = Vec::new();
    let ghost mut xs: Seq<int> = Seq::empty();
    let mut i: usize = 0;
    while i < init_edges.len()
        invariant
            i <= init_edges@.len(),
            init_edges@.len() == l,
            l == listed.len(),
            l == lists_len(edges@, n as int),
            forall|k: int| 0 <= k < init_edges@.len() ==> #[trigger] init_edges@[k] == 2 * k + 1,
            g.edges() == fin,
            shaped_like(fin, e0, nn, mm, listed),
            listed_ok(edges@, nn, mm, listed),
            nn == n,
            answer@.len() == xs.len(),
            answer@.len() <= i,
            answer@.len() == total(|x: int| used(fin, x, true), 2 * i),
            forall|a: int| 0 <= a < xs.len() ==> {
                &&& 0 <= #[trigger] xs[a] < 2 * i
                &&& xs[a] % 2 == 1
                &&& fin[xs[a]].capacity == Capacity::Finite(0)
                &&& answer@[a] == [(listed[xs[a] / 2].0 + 1) as usize, listed[xs[a] / 2].1 as usize]
            },
            forall|a: int, b: int| 0 <= a < b < xs.len() ==> #[trigger] xs[a] < #[trigger] xs[b],
        decreases init_edges@.len() - i,
    {
        let e = g.edge(init_edges[i]);
        proof {
            let x = 2 * i + 1;
            assert(init_pair_ok(e0, nn, listed, i as int));
            assert(x / 2 == i);
            let u = |z: int| used(fin, z, true);
            assert(total(u, 2 * i + 1) == total(u, 2 * i) + u(2 * i));
            assert(total(u, 2 * i + 2) == total(u, 2 * i + 1) + u(2 * i + 1));
            assert(u(2 * i) == 0);
        }
        if e.capacity == Capacity::Finite(0) {
            let pair = [e.node1 + 1, e.node2 - n + 1];
            proof {
                xs = xs.push(2 * i + 1);
            }
            answer.push(pair);
        }
        i += 1;
    }
    proof {
        lemma_answer_matching(e0, fin, nn, mm, listed, f, edges@, answer@, xs);
        assert forall|a: int, b: int| 0 <= a < b < answer@.len() implies (#[trigger] answer@[a])[0] < (
        #[trigger] answer@[b])[0] by {
            assert(xs[a] < xs[b]);
            assert(xs[a] / 2 <= xs[b] / 2);
            if xs[a] / 2 < xs[b] / 2 {
                assert(listed[xs[a] / 2].0 <= listed[xs[b] / 2].0);
            }
            assert(answer@[a][0] != answer@[b][0]);
        }
        lemma_used_count(e0, fin, nn, mm, listed, f);
        let best = residual_side(fin, s as int);
        assert(cut_value(e0, best) == f);
        assert forall|pairs: Seq<[usize; 2]>| #[trigger] is_assignment(edges@, n as int, pairs) implies pairs.len() <= answer@.len() by {
            lemma_cut_covers(e0, nn, mm, listed, edges@, pairs, best);
        }
    }
    answer
}

} // verus!
