use vstd::prelude::*;
use std::collections::VecDeque;
use crate::strings::{calc_zfun_inplace, is_z_value};

pub use crate::strings::{ceil2, ilog2};

verus! {

/// Fills `z` with the Z-function of `s`, except that `z[0]` is set to zero.
/// The two slices must have the same length, at least two.
pub fn calc_zfun(s: &[char], z: &mut [usize])
    requires
        s@.len() == old(z)@.len(),
        s@.len() >= 2,
    ensures
        final(z)@.len() == s@.len(),
        final(z)@[0] == 0,
        forall|i: int| 1 <= i < s@.len() ==> is_z_value(s@, i, #[trigger] final(z)@[i] as int),
{
    calc_zfun_inplace(s, z);
    z[0] = 0;
}

/// An entry of a list of edges leaving a node: the node it leads to, the
/// position of the paired edge in that node's list, the capacity left, and
/// whether it is an edge of the input (rather than the reverse of one).
#[derive(Debug, Clone, Copy)]
pub struct Edge {
    pub node: usize,
    pub rev_pos: usize,
    pub capacity: i32,
    pub is_fwd: bool,
}

/// A network with unit capacities, kept as lists of edges leaving each node.
#[derive(Debug)]
pub struct Graph {
    pub n_nodes: usize,
    pub n_edges: usize,
    pub edges: Vec<Vec<Edge>>,
}

/// The edge at position `k` of the list of node `u`.
pub open spec fn at(adj: Seq<Vec<Edge>>, u: int, k: int) -> Edge {
    adj[u]@[k]
}

/// Position `k` is in the list of node `u`.
pub open spec fn valid_pos(adj: Seq<Vec<Edge>>, u: int, k: int) -> bool {
    0 <= u < adj.len() && 0 <= k < adj[u]@.len()
}

/// Every edge has a paired edge back, one of the two from the input; their
/// capacities are zero or one and add up to one.
pub open spec fn paired(adj: Seq<Vec<Edge>>) -> bool {
    forall|u: int, k: int|
        valid_pos(adj, u, k) ==> {
            let e = #[trigger] at(adj, u, k);
            &&& e.node < adj.len()
            &&& e.rev_pos < adj[e.node as int]@.len()
            &&& at(adj, e.node as int, e.rev_pos as int).node == u
            &&& at(adj, e.node as int, e.rev_pos as int).rev_pos == k
            &&& at(adj, e.node as int, e.rev_pos as int).is_fwd != e.is_fwd
            &&& 0 <= e.capacity <= 1
            &&& e.capacity + at(adj, e.node as int, e.rev_pos as int).capacity == 1
        }
}

/// The two networks differ only in their capacities.
pub open spec fn same_structure(a: Seq<Vec<Edge>>, b: Seq<Vec<Edge>>) -> bool {
    &&& a.len() == b.len()
    &&& forall|u: int| 0 <= u < a.len() ==> (#[trigger] a[u])@.len() == b[u]@.len()
    &&& forall|u: int, k: int|
        valid_pos(a, u, k) ==> {
            &&& (#[trigger] at(a, u, k)).node == at(b, u, k).node
            &&& at(a, u, k).rev_pos == at(b, u, k).rev_pos
            &&& at(a, u, k).is_fwd == at(b, u, k).is_fwd
        }
}

/// Each edge from the input, counted from one, joins two different nodes.
pub open spec fn input_ok(n: int, edges_inp: Seq<[usize; 2]>) -> bool {
    forall|k: int|
        0 <= k < edges_inp.len() ==> {
            &&& 1 <= (#[trigger] edges_inp[k])[0] <= n
            &&& 1 <= edges_inp[k][1] <= n
            &&& edges_inp[k][0] != edges_inp[k][1]
        }
}

/// Each edge of the network that comes from the input joins nodes (counted
/// from zero) that the input joins (counted from one).
pub open spec fn from_input(adj: Seq<Vec<Edge>>, edges_inp: Seq<[usize; 2]>) -> bool {
    forall|u: int, k: int|
        valid_pos(adj, u, k) && (#[trigger] at(adj, u, k)).is_fwd ==> edges_inp.contains(
            [(u + 1) as usize, (at(adj, u, k).node + 1) as usize],
        )
}

/// The node reached from `s` after the first `k` steps of `el`, each step
/// taking the edge at the given position of the current node's list.
pub open spec fn follow(adj: Seq<Vec<Edge>>, s: int, el: Seq<usize>, k: int) -> int
    decreases k,
{
    if k <= 0 {
        s
    } else {
        at(adj, follow(adj, s, el, k - 1), el[k - 1] as int).node as int
    }
}

/// Following `el` from `s` takes existing edges and ends at `t`.
pub open spec fn is_path(adj: Seq<Vec<Edge>>, s: int, el: Seq<usize>, t: int) -> bool {
    &&& forall|k: int| 0 <= k < el.len() ==> valid_pos(adj, follow(adj, s, el, k), #[trigger] el[k] as int)
    &&& follow(adj, s, el, el.len() as int) == t
}

/// Every edge that `el` takes from `s` has capacity left.
pub open spec fn path_capable(adj: Seq<Vec<Edge>>, s: int, el: Seq<usize>) -> bool {
    forall|k: int| 0 <= k < el.len() ==> at(adj, follow(adj, s, el, k), #[trigger] el[k] as int).capacity != 0
}

/// The number of entries of `back` not yet set.
pub open spec fn count_unset(back: Seq<usize>) -> nat
    decreases back.len(),
{
    if back.len() == 0 {
        0
    } else {
        count_unset(back.drop_last()) + if back.last() == usize::MAX {
            1nat
        } else {
            0nat
        }
    }
}

proof fn lemma_count_unset_set(back: Seq<usize>, v: int, x: usize)
    requires
        0 <= v < back.len(),
        back[v] == usize::MAX,
        x != usize::MAX,
    ensures
        count_unset(back.update(v, x)) + 1 == count_unset(back),
    decreases back.len(),
{
    let b2 = back.update(v, x);
    if v == back.len() - 1 {
        assert(b2.drop_last() == back.drop_last());
    } else {
        assert(b2.drop_last() == back.drop_last().update(v, x));
        lemma_count_unset_set(back.drop_last(), v, x);
    }
}

/// A step taken first: following `x` then `el` from `u` goes where `el`
/// goes from the end of the edge `x`.
proof fn lemma_follow_prepend(adj: Seq<Vec<Edge>>, u: int, x: usize, el: Seq<usize>, k: int)
    requires
        0 <= k <= el.len(),
    ensures
        follow(adj, u, seq![x] + el, k + 1) == follow(adj, at(adj, u, x as int).node as int, el, k),
    decreases k,
{
    let q = seq![x] + el;
    let w = at(adj, u, x as int).node as int;
    if k > 0 {
        lemma_follow_prepend(adj, u, x, el, k - 1);
        assert(q[k] == el[k - 1]);
        assert(follow(adj, u, q, k + 1) == at(adj, follow(adj, u, q, k), q[k] as int).node as int);
        assert(follow(adj, w, el, k) == at(adj, follow(adj, w, el, k - 1), el[k - 1] as int).node as int);
    } else {
        assert(q[0] == x);
        assert(follow(adj, u, q, 0) == u);
        assert(follow(adj, u, q, 1) == at(adj, follow(adj, u, q, 0), q[0] as int).node as int);
    }
}

/// Following a prefix of `el` goes where `el` goes after as many steps.
proof fn lemma_follow_push(adj: Seq<Vec<Edge>>, s: int, el: Seq<usize>, x: usize, k: int)
    requires
        0 <= k <= el.len(),
    ensures
        follow(adj, s, el.push(x), k) == follow(adj, s, el, k),
    decreases k,
{
    if k > 0 {
        lemma_follow_push(adj, s, el, x, k - 1);
        assert(el.push(x)[k - 1] == el[k - 1]);
    }
}

/// Following the same steps in a network of the same structure leads to the
/// same nodes.
proof fn lemma_follow_same(a: Seq<Vec<Edge>>, b: Seq<Vec<Edge>>, s: int, el: Seq<usize>, k: int)
    requires
        same_structure(a, b),
        0 <= k <= el.len(),
        forall|j: int| 0 <= j < el.len() ==> valid_pos(a, follow(a, s, el, j), #[trigger] el[j] as int),
    ensures
        follow(a, s, el, k) == follow(b, s, el, k),
    decreases k,
{
    if k > 0 {
        lemma_follow_same(a, b, s, el, k - 1);
        assert(valid_pos(a, follow(a, s, el, k - 1), el[k - 1] as int));
    }
}

/// The entries of `v` in the opposite order.
fn reversed(v: &Vec<usize>) -> (r: Vec<usize>)
    ensures
        r@ == v@.reverse(),
{
    let mut r: Vec<usize> = Vec::new();
    let mut k = v.len();
    while k > 0
        invariant
            k <= v@.len(),
            r@.len() == v@.len() - k,
            forall|j: int| 0 <= j < r@.len() ==> r@[j] == v@[v@.len() - 1 - j],
        decreases k,
    {
        k -= 1;
        r.push(v[k]);
    }
    assert(r@ =~= v@.reverse());
    r
}

/// An edge with capacity left, followed by a path with capacity left from
/// its end, is a path with capacity left.
proof fn lemma_path_prepend(adj: Seq<Vec<Edge>>, u: int, x: usize, r: Seq<usize>, t: int)
    requires
        valid_pos(adj, u, x as int),
        at(adj, u, x as int).capacity != 0,
        is_path(adj, at(adj, u, x as int).node as int, r, t),
        path_capable(adj, at(adj, u, x as int).node as int, r),
    ensures
        is_path(adj, u, seq![x] + r, t),
        path_capable(adj, u, seq![x] + r),
{
    let q = seq![x] + r;
    let w = at(adj, u, x as int).node as int;
    assert forall|k: int| 0 <= k < q.len() implies valid_pos(adj, follow(adj, u, q, k), #[trigger] q[k] as int)
        && at(adj, follow(adj, u, q, k), q[k] as int).capacity != 0 by {
        if k > 0 {
            lemma_follow_prepend(adj, u, x, r, k - 1);
            assert(q[k] == r[k - 1]);
        } else {
            assert(q[0] == x);
        }
    }
    lemma_follow_prepend(adj, u, x, r, r.len() as int);
}

/// Having the structure of a network with the structure of a third is
/// having the structure of the third.
proof fn lemma_same_structure_trans(a: Seq<Vec<Edge>>, b: Seq<Vec<Edge>>, c: Seq<Vec<Edge>>)
    requires
        same_structure(a, b),
        same_structure(b, c),
    ensures
        same_structure(a, c),
{
    assert forall|u: int, k: int| valid_pos(a, u, k) implies {
        &&& (#[trigger] at(a, u, k)).node == at(c, u, k).node
        &&& at(a, u, k).rev_pos == at(c, u, k).rev_pos
        &&& at(a, u, k).is_fwd == at(c, u, k).is_fwd
    } by {
        assert(valid_pos(b, u, k));
    }
}

/// Moving the capacity of an edge onto its paired edge keeps the network
/// consistent.
proof fn lemma_flip(cur: Seq<Vec<Edge>>, nw: Seq<Vec<Edge>>, u: int, k: int, c: int)
    requires
        paired(cur),
        valid_pos(cur, u, k),
        c == at(cur, at(cur, u, k).node as int, at(cur, u, k).rev_pos as int).capacity,
        nw.len() == cur.len(),
        forall|w: int| 0 <= w < nw.len() ==> (#[trigger] nw[w])@.len() == cur[w]@.len(),
        forall|w: int, p: int| valid_pos(cur, w, p) ==> #[trigger] at(nw, w, p) == if w == u && p == k {
            Edge { capacity: (at(cur, u, k).capacity + c) as i32, ..at(cur, w, p) }
        } else if w == at(cur, u, k).node && p == at(cur, u, k).rev_pos {
            Edge { capacity: (at(cur, w, p).capacity - c) as i32, ..at(cur, w, p) }
        } else {
            at(cur, w, p)
        },
    ensures
        paired(nw),
        same_structure(nw, cur),
{
    let v = at(cur, u, k).node as int;
    let r = at(cur, u, k).rev_pos as int;
    assert(valid_pos(cur, v, r));
    assert forall|w: int, p: int| valid_pos(nw, w, p) implies {
        let e = #[trigger] at(nw, w, p);
        &&& e.node < nw.len()
        &&& e.rev_pos < nw[e.node as int]@.len()
        &&& at(nw, e.node as int, e.rev_pos as int).node == w
        &&& at(nw, e.node as int, e.rev_pos as int).rev_pos == p
        &&& at(nw, e.node as int, e.rev_pos as int).is_fwd != e.is_fwd
        &&& 0 <= e.capacity <= 1
        &&& e.capacity + at(nw, e.node as int, e.rev_pos as int).capacity == 1
    } by {
        assert(valid_pos(cur, w, p));
        let e0 = at(cur, w, p);
        assert(valid_pos(cur, e0.node as int, e0.rev_pos as int));
        let _ = at(nw, e0.node as int, e0.rev_pos as int);
    }
    assert forall|w: int, p: int| valid_pos(nw, w, p) implies {
        &&& (#[trigger] at(nw, w, p)).node == at(cur, w, p).node
        &&& at(nw, w, p).rev_pos == at(cur, w, p).rev_pos
        &&& at(nw, w, p).is_fwd == at(cur, w, p).is_fwd
    } by {
        assert(valid_pos(cur, w, p));
    }
}

/// `back` records, for each node found (but `s`), the position of the edge
/// back to the node it was found from; that node was found earlier (or is
/// `s`), with a smaller rank, over an edge with capacity left.
pub open spec fn bfs_tree(adj: Seq<Vec<Edge>>, back: Seq<usize>, rank: Seq<int>, s: int) -> bool {
    &&& rank.len() == back.len()
    &&& rank[s] == 0
    &&& forall|v: int| 0 <= v < rank.len() ==> #[trigger] rank[v] >= 0
    &&& forall|v: int|
        0 <= v < back.len() && v != s && #[trigger] back[v] != usize::MAX ==> {
            let r = at(adj, v, back[v] as int);
            &&& back[v] < adj[v]@.len()
            &&& (r.node == s || back[r.node as int] != usize::MAX)
            &&& rank[r.node as int] < rank[v]
            &&& at(adj, r.node as int, r.rev_pos as int).capacity != 0
        }
}

/// Node `v` has been found by the search from `s`.
pub open spec fn found(back: Seq<usize>, s: int, v: int) -> bool {
    v == s || back[v] != usize::MAX
}

/// Every edge with capacity left out of node `u` leads to a found node.
pub open spec fn done_at(adj: Seq<Vec<Edge>>, back: Seq<usize>, s: int, u: int) -> bool {
    forall|k: int|
        valid_pos(adj, u, k) && (#[trigger] at(adj, u, k)).capacity != 0 ==> found(back, s, at(adj, u, k).node as int)
}

/// Finding more nodes keeps a node done.
proof fn lemma_done_grows(adj: Seq<Vec<Edge>>, b1: Seq<usize>, b2: Seq<usize>, s: int, u: int)
    requires
        done_at(adj, b1, s, u),
        b1.len() == b2.len(),
        forall|v: int| 0 <= v < b1.len() && b1[v] != usize::MAX ==> #[trigger] b2[v] != usize::MAX,
        paired(adj),
        b1.len() == adj.len(),
    ensures
        done_at(adj, b2, s, u),
{
    assert forall|k: int| valid_pos(adj, u, k) && (#[trigger] at(adj, u, k)).capacity != 0 implies found(
        b2,
        s,
        at(adj, u, k).node as int,
    ) by {
        assert(found(b1, s, at(adj, u, k).node as int));
    }
}

/// When every found node is done, following edges with capacity left from
/// `s` only finds found nodes.
proof fn lemma_found_along(adj: Seq<Vec<Edge>>, back: Seq<usize>, s: int, el: Seq<usize>, k: int)
    requires
        paired(adj),
        back.len() == adj.len(),
        0 <= s < adj.len(),
        forall|v: int| 0 <= v < adj.len() && found(back, s, v) ==> #[trigger] done_at(adj, back, s, v),
        forall|j: int| 0 <= j < el.len() ==> valid_pos(adj, follow(adj, s, el, j), #[trigger] el[j] as int),
        path_capable(adj, s, el),
        0 <= k <= el.len(),
    ensures
        0 <= follow(adj, s, el, k) < adj.len(),
        found(back, s, follow(adj, s, el, k)),
    decreases k,
{
    if k > 0 {
        lemma_found_along(adj, back, s, el, k - 1);
        let u = follow(adj, s, el, k - 1);
        assert(done_at(adj, back, s, u));
        assert(valid_pos(adj, u, el[k - 1] as int));
        assert(at(adj, u, el[k - 1] as int).capacity != 0);
    }
}

/// Some step of `el` from `u` takes the edge at position `k` of node `w`.
pub open spec fn on_path(adj: Seq<Vec<Edge>>, u: int, el: Seq<usize>, w: int, k: int) -> bool {
    exists|j: int| 0 <= j < el.len() && #[trigger] follow(adj, u, el, j) == w && el[j] == k
}

/// The capacity in `b` of the edge paired with the edge that step `j` of
/// `el` from `u` takes in `a`.
pub open spec fn back_cap(a: Seq<Vec<Edge>>, b: Seq<Vec<Edge>>, u: int, el: Seq<usize>, j: int) -> int {
    let e = at(a, follow(a, u, el, j), el[j] as int);
    at(b, e.node as int, e.rev_pos as int).capacity as int
}

/// `b` is `a` with one unit pushed along `el` from `u`: only the edges that
/// `el` takes have less capacity than in `a`, and the edge paired with each
/// of them has capacity.
#[verifier::opaque]
pub open spec fn pushed_along(a: Seq<Vec<Edge>>, b: Seq<Vec<Edge>>, u: int, el: Seq<usize>) -> bool {
    &&& forall|w: int, k: int|
        valid_pos(a, w, k) && (#[trigger] at(b, w, k)).capacity < at(a, w, k).capacity ==> on_path(a, u, el, w, k)
    &&& forall|j: int| 0 <= j < el.len() ==> #[trigger] back_cap(a, b, u, el, j) != 0
}

/// The ranks rise at each step of `el` from `u`.
pub open spec fn rising(adj: Seq<Vec<Edge>>, rank: Seq<int>, u: int, el: Seq<usize>) -> bool {
    forall|j: int| #![trigger el[j]] 0 <= j < el.len() ==> rank[follow(adj, u, el, j)] < rank[follow(adj, u, el, j + 1)]
}

/// Along rising ranks, the rank after `j` steps is at least `j` above the
/// start's.
proof fn lemma_rising_lower(adj: Seq<Vec<Edge>>, rank: Seq<int>, u: int, el: Seq<usize>, j: int)
    requires
        rising(adj, rank, u, el),
        0 <= j <= el.len(),
    ensures
        rank[follow(adj, u, el, j)] >= rank[u] + j,
    decreases j,
{
    if j > 0 {
        lemma_rising_lower(adj, rank, u, el, j - 1);
        let _ = el[j - 1];
    }
}

/// Along rising ranks, the rank after `b` steps is at least `b - a` above
/// the rank after `a` steps.
proof fn lemma_rising_between(adj: Seq<Vec<Edge>>, rank: Seq<int>, u: int, el: Seq<usize>, a: int, b: int)
    requires
        rising(adj, rank, u, el),
        0 <= a <= b <= el.len(),
    ensures
        rank[follow(adj, u, el, b)] >= rank[follow(adj, u, el, a)] + (b - a),
    decreases b - a,
{
    if a < b {
        lemma_rising_between(adj, rank, u, el, a, b - 1);
        let _ = el[b - 1];
    }
}

/// The nodes that `el` passes from `u` are all different.
#[verifier::opaque]
pub open spec fn distinct_nodes(adj: Seq<Vec<Edge>>, u: int, el: Seq<usize>) -> bool {
    forall|a: int, b: int| 0 <= a < b <= el.len() ==> #[trigger] follow(adj, u, el, a) != #[trigger] follow(adj, u, el, b)
}

/// One step back along the search tree, from `node` to the node it was
/// found from, extends the pushed path.
proof fn lemma_push_step(
    e0: Seq<Vec<Edge>>,
    before: Seq<Vec<Edge>>,
    after: Seq<Vec<Edge>>,
    rank: Seq<int>,
    back: Seq<usize>,
    s: int,
    node: int,
    r: Seq<usize>,
)
    requires
        paired(e0),
        paired(before),
        same_structure(before, e0),
        same_structure(after, e0),
        bfs_tree(e0, back, rank, s),
        back.len() == e0.len(),
        0 <= node < e0.len(),
        node != s,
        back[node] != usize::MAX,
        forall|j: int| 0 <= j < r.len() ==> valid_pos(e0, follow(e0, node, r, j), #[trigger] r[j] as int),
        rising(e0, rank, node, r),
        pushed_along(e0, before, node, r),
        forall|w: int, p: int|
            valid_pos(before, w, p) ==> #[trigger] at(after, w, p).capacity as int == if w == node && p == back[node] {
                at(before, node, back[node] as int).capacity + at(
                    before,
                    at(e0, node, back[node] as int).node as int,
                    at(e0, node, back[node] as int).rev_pos as int,
                ).capacity
            } else if w == at(e0, node, back[node] as int).node && p == at(e0, node, back[node] as int).rev_pos {
                0int
            } else {
                at(before, w, p).capacity as int
            },
    ensures
        rising(e0, rank, at(e0, node, back[node] as int).node as int, seq![at(e0, node, back[node] as int).rev_pos] + r),
        pushed_along(e0, after, at(e0, node, back[node] as int).node as int, seq![at(e0, node, back[node] as int).rev_pos] + r),
{
    reveal(pushed_along);
    let b = back[node] as int;
    let e = at(e0, node, b);
    let uu = e.node as int;
    let x = e.rev_pos;
    let r2 = seq![x] + r;
    assert(valid_pos(e0, node, b));
    assert(valid_pos(e0, uu, x as int));
    assert(at(e0, uu, x as int).node == node && at(e0, uu, x as int).rev_pos == b);
    assert(rank[uu] < rank[node]);
    assert(at(e0, uu, x as int).capacity != 0);
    lemma_follow_prepend(e0, uu, x, r, 0);
    assert(follow(e0, uu, r2, 0) == uu);
    assert(r2[0] == x);
    assert forall|j: int| #![trigger r2[j]] 0 <= j < r2.len() implies rank[follow(e0, uu, r2, j)] < rank[follow(
        e0,
        uu,
        r2,
        j + 1,
    )] by {
        lemma_follow_prepend(e0, uu, x, r, j);
        if j > 0 {
            lemma_follow_prepend(e0, uu, x, r, j - 1);
            assert(r2[j] == r[j - 1]);
        }
    }
    assert(!on_path(e0, node, r, uu, x as int)) by {
        if on_path(e0, node, r, uu, x as int) {
            let j = choose|j: int| 0 <= j < r.len() && #[trigger] follow(e0, node, r, j) == uu && r[j] == x as int;
            lemma_rising_lower(e0, rank, node, r, j);
        }
    }
    assert forall|w: int, k: int|
        valid_pos(e0, w, k) && (#[trigger] at(after, w, k)).capacity < at(e0, w, k).capacity implies on_path(
        e0,
        uu,
        r2,
        w,
        k,
    ) by {
        assert(valid_pos(before, w, k));
        if w == uu && k == x {
            assert(follow(e0, uu, r2, 0) == w && r2[0] == k);
        } else {
            assert(at(before, w, k).capacity < at(e0, w, k).capacity) by {
                if w == node && k == b {
                    assert(valid_pos(before, uu, x as int));
                    assert(0 <= at(before, uu, x as int).capacity);
                }
            }
            let j = choose|j: int| 0 <= j < r.len() && #[trigger] follow(e0, node, r, j) == w && r[j] == k;
            lemma_follow_prepend(e0, uu, x, r, j);
            assert(r2[j + 1] == r[j]);
            assert(follow(e0, uu, r2, j + 1) == w && r2[j + 1] == k);
        }
    }
    assert forall|j: int| 0 <= j < r2.len() implies #[trigger] back_cap(e0, after, uu, r2, j) != 0 by {
        if j == 0 {
            assert(valid_pos(before, uu, x as int));
            assert(at(before, uu, x as int).capacity >= at(e0, uu, x as int).capacity);
            assert(valid_pos(before, node, b));
            assert(0 <= at(before, node, b).capacity);
        } else {
            lemma_follow_prepend(e0, uu, x, r, j - 1);
            lemma_follow_prepend(e0, uu, x, r, j);
            assert(r2[j] == r[j - 1]);
            assert(back_cap(e0, before, node, r, j - 1) != 0);
            let st = at(e0, follow(e0, node, r, j - 1), r[j - 1] as int);
            assert(valid_pos(e0, follow(e0, node, r, j - 1), r[j - 1] as int));
            assert(st.node as int == follow(e0, node, r, j));
            lemma_rising_lower(e0, rank, node, r, j);
            assert(valid_pos(e0, st.node as int, st.rev_pos as int));
            assert(valid_pos(before, st.node as int, st.rev_pos as int));
        }
    }
}

/// Position `p` of the list of node `u` holds the forward edge or the edge
/// back made for input edge `k`.
pub open spec fn listed_as(edges_inp: Seq<[usize; 2]>, fpos: Seq<int>, rpos: Seq<int>, u: int, p: int, k: int) -> bool {
    &&& 0 <= k < edges_inp.len()
    &&& ((edges_inp[k][0] - 1 == u && fpos[k] == p) || (edges_inp[k][1] - 1 == u && rpos[k] == p))
}

/// Position `p` of the list of node `u` holds the forward edge or the edge
/// back made for some input edge.
pub open spec fn listed(edges_inp: Seq<[usize; 2]>, fpos: Seq<int>, rpos: Seq<int>, u: int, p: int) -> bool {
    exists|k: int| #[trigger] listed_as(edges_inp, fpos, rpos, u, p, k)
}

/// `fpos[k]` is the position, in the list of the node that input edge `k`
/// leaves, of the edge made for it: forward, to the node it enters, paired
/// with the edge back at position `rpos[k]` of the list of the node it
/// enters. Each list holds these edges and no others, those of later input
/// edges later.
#[verifier::opaque]
pub open spec fn input_positions(adj: Seq<Vec<Edge>>, edges_inp: Seq<[usize; 2]>, fpos: Seq<int>, rpos: Seq<int>) -> bool {
    &&& fpos.len() == edges_inp.len()
    &&& rpos.len() == edges_inp.len()
    &&& forall|k: int|
        0 <= k < edges_inp.len() ==> {
            &&& valid_pos(adj, edges_inp[k][0] - 1, #[trigger] fpos[k])
            &&& at(adj, edges_inp[k][0] - 1, fpos[k]).node == edges_inp[k][1] - 1
            &&& at(adj, edges_inp[k][0] - 1, fpos[k]).is_fwd
            &&& at(adj, edges_inp[k][0] - 1, fpos[k]).rev_pos == rpos[k]
            &&& valid_pos(adj, edges_inp[k][1] - 1, rpos[k])
            &&& at(adj, edges_inp[k][1] - 1, rpos[k]).node == edges_inp[k][0] - 1
            &&& !at(adj, edges_inp[k][1] - 1, rpos[k]).is_fwd
        }
    &&& forall|k1: int, k2: int|
        0 <= k1 < k2 < edges_inp.len() && edges_inp[k1][0] == edges_inp[k2][0] ==> #[trigger] fpos[k1] < #[trigger] fpos[k2]
    &&& forall|k1: int, k2: int|
        0 <= k1 < k2 < edges_inp.len() && edges_inp[k1][1] == edges_inp[k2][1] ==> #[trigger] rpos[k1] < #[trigger] rpos[k2]
    &&& forall|k1: int, k2: int|
        0 <= k1 < k2 < edges_inp.len() && edges_inp[k1][0] == edges_inp[k2][1] ==> #[trigger] fpos[k1] < #[trigger] rpos[k2]
    &&& forall|k1: int, k2: int|
        0 <= k1 < k2 < edges_inp.len() && edges_inp[k1][1] == edges_inp[k2][0] ==> #[trigger] rpos[k1] < #[trigger] fpos[k2]
    &&& forall|u: int, p: int| #[trigger] valid_pos(adj, u, p) ==> listed(edges_inp, fpos, rpos, u, p)
}

impl Graph {
    /// The network is consistent.
    pub open spec fn wf(&self) -> bool {
        &&& self.edges@.len() == self.n_nodes
        &&& paired(self.edges@)
        &&& forall|u: int| 0 <= u < self.n_nodes ==> (#[trigger] self.edges@[u])@.len() < usize::MAX
    }

    /// The network of the `n` nodes and the input edges (counted from one),
    /// each with capacity one and a reverse edge of capacity zero.
    pub fn new(n: usize, edges_inp: &[[usize; 2]]) -> (g: Self)
        requires
            input_ok(n as int, edges_inp@),
            2 * edges_inp@.len() + 2 < usize::MAX,
        ensures
            g.wf(),
            g.n_nodes == n,
            from_input(g.edges@, edges_inp@),
            g.n_edges == edges_inp@.len(),
            exists|fpos: Seq<int>, rpos: Seq<int>| input_positions(g.edges@, edges_inp@, fpos, rpos),
            forall|u: int, k: int| valid_pos(g.edges@, u, k) ==> (#[trigger] at(g.edges@, u, k)).capacity == (if at(
                g.edges@,
                u,
                k,
            ).is_fwd {
                1int
            } else {
                0int
            }),
    {
        let mut edges: Vec<Vec<Edge>> = Vec::new();
        let mut i: usize = 0;
        while i < n
            invariant
                i <= n,
                edges@.len() == i,
                forall|v: int| 0 <= v < i ==> (#[trigger] edges@[v])@.len() == 0,
            decreases n - i,
        {
            edges.push(Vec::new());
            i += 1;
        }
        let mut k: usize = 0;
        let ghost mut fpos: Seq<int> = Seq::empty();
        let ghost mut rpos: Seq<int> = Seq::empty();
        proof {
            reveal(input_positions);
        }
        while k < edges_inp.len()
            invariant
                k <= edges_inp@.len(),
                edges@.len() == n,
                input_positions(edges@, edges_inp@.subrange(0, k as int), fpos, rpos),
                input_ok(n as int, edges_inp@),
                2 * edges_inp@.len() + 2 < usize::MAX,
                forall|v: int| 0 <= v < n ==> (#[trigger] edges@[v])@.len() <= 2 * k,
                paired(edges@),
                from_input(edges@, edges_inp@),
                forall|u: int, k2: int| valid_pos(edges@, u, k2) ==> (#[trigger] at(edges@, u, k2)).capacity == (if at(
                    edges@,
                    u,
                    k2,
                ).is_fwd {
                    1int
                } else {
                    0int
                }),
            decreases edges_inp@.len() - k,
        {
            let u = edges_inp[k][0] - 1;
            let v = edges_inp[k][1] - 1;
            let i = edges[u].len();
            let j = edges[v].len();
            let ghost before = edges@;
            let ghost fpos0 = fpos;
            let ghost rpos0 = rpos;
            proof {
                reveal(input_positions);
            }
            edges[u].push(Edge { node: v, rev_pos: j, capacity: 1, is_fwd: true });
            edges[v].push(Edge { node: u, rev_pos: i, capacity: 0, is_fwd: false });
            proof {
                reveal(input_positions);
                let adj = edges@;
                fpos = fpos.push(i as int);
                rpos = rpos.push(j as int);
                let pre0 = edges_inp@.subrange(0, k as int);
                let pre = edges_inp@.subrange(0, k + 1);
                assert(adj[u as int]@ == before[u as int]@.push(Edge { node: v, rev_pos: j, capacity: 1, is_fwd: true }));
                assert(adj[v as int]@ == before[v as int]@.push(Edge { node: u, rev_pos: i, capacity: 0, is_fwd: false }));
                assert forall|k2: int| 0 <= k2 < pre.len() implies {
                    &&& valid_pos(adj, pre[k2][0] - 1, #[trigger] fpos[k2])
                    &&& at(adj, pre[k2][0] - 1, fpos[k2]).node == pre[k2][1] - 1
                    &&& at(adj, pre[k2][0] - 1, fpos[k2]).is_fwd
                    &&& at(adj, pre[k2][0] - 1, fpos[k2]).rev_pos == rpos[k2]
                    &&& valid_pos(adj, pre[k2][1] - 1, rpos[k2])
                    &&& at(adj, pre[k2][1] - 1, rpos[k2]).node == pre[k2][0] - 1
                    &&& !at(adj, pre[k2][1] - 1, rpos[k2]).is_fwd
                } by {
                    if k2 < k {
                        assert(pre[k2] == pre0[k2]);
                        assert(fpos[k2] == fpos0[k2]);
                        assert(rpos[k2] == rpos0[k2]);
                        assert(valid_pos(before, pre0[k2][0] - 1, fpos0[k2]));
                        assert(valid_pos(before, pre0[k2][1] - 1, rpos0[k2]));
                    } else {
                        assert(pre[k2] == edges_inp@[k as int]);
                    }
                }
                assert forall|k1: int, k2: int|
                    0 <= k1 < k2 < pre.len() && pre[k1][0] == pre[k2][0] implies #[trigger] fpos[k1] < #[trigger] fpos[k2] by {
                    assert(pre[k1] == pre0[k1]);
                    assert(fpos[k1] == fpos0[k1]);
                    assert(valid_pos(before, pre0[k1][0] - 1, fpos0[k1]));
                    if k2 < k {
                        assert(pre[k2] == pre0[k2]);
                        assert(fpos[k2] == fpos0[k2]);
                    } else {
                        assert(pre[k2] == edges_inp@[k as int]);
                    }
                }
                assert forall|k1: int, k2: int|
                    0 <= k1 < k2 < pre.len() && pre[k1][1] == pre[k2][1] implies #[trigger] rpos[k1] < #[trigger] rpos[k2] by {
                    assert(pre[k1] == pre0[k1]);
                    assert(rpos[k1] == rpos0[k1]);
                    assert(valid_pos(before, pre0[k1][0] - 1, fpos0[k1]));
                    assert(valid_pos(before, pre0[k1][1] - 1, rpos0[k1]));
                    if k2 < k {
                        assert(pre[k2] == pre0[k2]);
                        assert(rpos[k2] == rpos0[k2]);
                    } else {
                        assert(pre[k2] == edges_inp@[k as int]);
                    }
                }
                assert forall|k1: int, k2: int|
                    0 <= k1 < k2 < pre.len() && pre[k1][0] == pre[k2][1] implies #[trigger] fpos[k1] < #[trigger] rpos[k2] by {
                    assert(pre[k1] == pre0[k1]);
                    assert(fpos[k1] == fpos0[k1]);
                    assert(valid_pos(before, pre0[k1][0] - 1, fpos0[k1]));
                    if k2 < k {
                        assert(pre[k2] == pre0[k2]);
                        assert(rpos[k2] == rpos0[k2]);
                    } else {
                        assert(pre[k2] == edges_inp@[k as int]);
                    }
                }
                assert forall|k1: int, k2: int|
                    0 <= k1 < k2 < pre.len() && pre[k1][1] == pre[k2][0] implies #[trigger] rpos[k1] < #[trigger] fpos[k2] by {
                    assert(pre[k1] == pre0[k1]);
                    assert(rpos[k1] == rpos0[k1]);
                    assert(valid_pos(before, pre0[k1][0] - 1, fpos0[k1]));
                    assert(valid_pos(before, pre0[k1][1] - 1, rpos0[k1]));
                    if k2 < k {
                        assert(pre[k2] == pre0[k2]);
                        assert(fpos[k2] == fpos0[k2]);
                    } else {
                        assert(pre[k2] == edges_inp@[k as int]);
                    }
                }
                assert forall|w: int, p: int| #[trigger] valid_pos(adj, w, p) implies listed(pre, fpos, rpos, w, p) by {
                    if valid_pos(before, w, p) {
                        assert(listed(pre0, fpos0, rpos0, w, p));
                        let k1 = choose|k1: int| #[trigger] listed_as(pre0, fpos0, rpos0, w, p, k1);
                        assert(pre[k1] == pre0[k1]);
                        assert(fpos[k1] == fpos0[k1]);
                        assert(rpos[k1] == rpos0[k1]);
                        assert(listed_as(pre, fpos, rpos, w, p, k1));
                    } else {
                        assert(pre[k as int] == edges_inp@[k as int]);
                        if w == u {
                            assert(fpos[k as int] == p);
                        } else {
                            assert(rpos[k as int] == p);
                        }
                        assert(listed_as(pre, fpos, rpos, w, p, k as int));
                    }
                }
                assert(edges_inp@[k as int] == [(u + 1) as usize, (v + 1) as usize]);
                assert forall|w: int| 0 <= w < n implies (#[trigger] adj[w])@ == if w == u {
                    before[w]@.push(Edge { node: v, rev_pos: j, capacity: 1, is_fwd: true })
                } else if w == v {
                    before[w]@.push(Edge { node: u, rev_pos: i, capacity: 0, is_fwd: false })
                } else {
                    before[w]@
                } by {}
                assert forall|w: int, p: int| valid_pos(adj, w, p) implies {
                    let e = #[trigger] at(adj, w, p);
                    &&& e.node < adj.len()
                    &&& e.rev_pos < adj[e.node as int]@.len()
                    &&& at(adj, e.node as int, e.rev_pos as int).node == w
                    &&& at(adj, e.node as int, e.rev_pos as int).rev_pos == p
                    &&& at(adj, e.node as int, e.rev_pos as int).is_fwd != e.is_fwd
                    &&& 0 <= e.capacity <= 1
                    &&& e.capacity + at(adj, e.node as int, e.rev_pos as int).capacity == 1
                } by {
                    if valid_pos(before, w, p) {
                        let e0 = at(before, w, p);
                        assert(at(adj, w, p) == e0);
                        assert(at(adj, e0.node as int, e0.rev_pos as int) == at(before, e0.node as int, e0.rev_pos as int));
                    }
                }
                assert forall|w: int, p: int|
                    valid_pos(adj, w, p) && (#[trigger] at(adj, w, p)).is_fwd implies edges_inp@.contains(
                    [(w + 1) as usize, (at(adj, w, p).node + 1) as usize],
                ) by {
                    if valid_pos(before, w, p) {
                        assert(at(adj, w, p) == at(before, w, p));
                    } else {
                        assert(w == u);
                        assert(edges_inp@[k as int] == [(w + 1) as usize, (at(adj, w, p).node + 1) as usize]);
                    }
                }
                assert forall|w: int, p: int| valid_pos(adj, w, p) implies (#[trigger] at(adj, w, p)).capacity == (if at(
                    adj,
                    w,
                    p,
                ).is_fwd {
                    1int
                } else {
                    0int
                }) by {
                    if valid_pos(before, w, p) {
                        assert(at(adj, w, p) == at(before, w, p));
                    }
                }
            }
            k += 1;
        }
        proof {
            assert(edges_inp@.subrange(0, k as int) == edges_inp@);
        }
        Graph { n_nodes: n, n_edges: edges_inp.len(), edges }
    }

    /// Searches breadth first for a path of edges with capacity left from `s`
    /// to `t`. When there is none, returns `None` and leaves the network as
    /// it is. Otherwise pushes one unit along the path and returns the
    /// positions of its edges, in order from `s`.
    #[verifier::spinoff_prover]
    pub fn subflow(&mut self, s: usize, t: usize) -> (result: Option<Vec<usize>>)
        requires
            old(self).wf(),
            s < old(self).n_nodes,
            t < old(self).n_nodes,
        ensures
            final(self).wf(),
            final(self).n_nodes == old(self).n_nodes,
            final(self).n_edges == old(self).n_edges,
            same_structure(final(self).edges@, old(self).edges@),
            match result {
                Some(el) => {
                    &&& is_path(old(self).edges@, s as int, el@, t as int)
                    &&& path_capable(old(self).edges@, s as int, el@)
                    &&& pushed_along(old(self).edges@, final(self).edges@, s as int, el@)
                    &&& distinct_nodes(old(self).edges@, s as int, el@)
                },
                None => {
                    &&& final(self).edges@ == old(self).edges@
                    &&& forall|el: Seq<usize>| #[trigger] is_path(old(self).edges@, s as int, el, t as int) ==> !path_capable(
                        old(self).edges@,
                        s as int,
                        el,
                    )
                },
            },
    {
        if s == t {
            proof {
                reveal(pushed_along);
                reveal(distinct_nodes);
            }
            return Some(Vec::new());
        }
        let ghost e0 = self.edges@;
        let n = self.n_nodes;
        let mut back_edge: Vec<usize> = vec![usize::MAX; n];
        let ghost mut rank: Seq<int> = Seq::new(n as nat, |v: int| 0int);
        let mut queue: VecDeque<usize> = VecDeque::new();
        queue.push_back(s);
        proof {
            assert(queue@[0] == s);
            assert(queue@.contains(s));
        }
        while queue.len() > 0
            invariant
                self.wf(),
                self.edges@ == e0,
                n == self.n_nodes,
                s < n,
                t < n,
                back_edge@.len() == n,
                bfs_tree(e0, back_edge@, rank, s as int),
                forall|q: int|
                    0 <= q < queue@.len() ==> #[trigger] queue@[q] < n && (queue@[q] == s || back_edge@[queue@[q] as int]
                        != usize::MAX),
                forall|v: int|
                    0 <= v < n && found(back_edge@, s as int, v) && !queue@.contains(v as usize) ==> #[trigger] done_at(
                        e0,
                        back_edge@,
                        s as int,
                        v,
                    ),
            decreases 2 * count_unset(back_edge@) + queue@.len(),
        {
            let ghost q0 = queue@;
            let u = queue.pop_front().unwrap();
            proof {
                assert forall|v: int|
                    0 <= v < n && v != u && found(back_edge@, s as int, v) && !queue@.contains(v as usize) implies #[trigger] done_at(
                    e0,
                    back_edge@,
                    s as int,
                    v,
                ) by {
                    if q0.contains(v as usize) {
                        let i = choose|i: int| 0 <= i < q0.len() && q0[i] == v as usize;
                        assert(queue@[i - 1] == q0[i]);
                    }
                }
            }
            let ghost m0 = 2 * count_unset(back_edge@) + queue@.len();
            let mut ei: usize = 0;
            while ei < self.edges[u].len()
                invariant
                    self.wf(),
                    self.edges@ == e0,
                    n == self.n_nodes,
                    s < n,
                    u < n,
                    u == s || back_edge@[u as int] != usize::MAX,
                    ei <= e0[u as int]@.len(),
                    back_edge@.len() == n,
                    bfs_tree(e0, back_edge@, rank, s as int),
                    forall|q: int|
                        0 <= q < queue@.len() ==> #[trigger] queue@[q] < n && (queue@[q] == s
                            || back_edge@[queue@[q] as int] != usize::MAX),
                    2 * count_unset(back_edge@) + queue@.len() <= m0,
                    paired(e0),
                    e0.len() == n,
                    forall|k: int|
                        0 <= k < ei && valid_pos(e0, u as int, k) && (#[trigger] at(e0, u as int, k)).capacity != 0 ==> found(
                            back_edge@,
                            s as int,
                            at(e0, u as int, k).node as int,
                        ),
                    forall|v: int|
                        0 <= v < n && v != u && found(back_edge@, s as int, v) && !queue@.contains(v as usize) ==> #[trigger] done_at(
                            e0,
                            back_edge@,
                            s as int,
                            v,
                        ),
                decreases e0[u as int]@.len() - ei,
            {
                let e = self.edges[u][ei];
                let v = e.node;
                proof {
                    assert(e == at(e0, u as int, ei as int));
                }
                if e.capacity != 0 && back_edge[v] == usize::MAX {
                    let ghost b0 = back_edge@;
                    let ghost qa = queue@;
                    queue.push_back(v);
                    proof {
                        lemma_count_unset_set(back_edge@, v as int, e.rev_pos);
                        if v != s {
                            rank = rank.update(v as int, rank[u as int] + 1);
                        }
                    }
                    back_edge.set(v, e.rev_pos);
                    proof {
                        assert forall|w: int|
                            0 <= w < n && w != u && found(back_edge@, s as int, w) && !queue@.contains(w as usize) implies #[trigger] done_at(
                            e0,
                            back_edge@,
                            s as int,
                            w,
                        ) by {
                            if qa.contains(w as usize) {
                                let i = choose|i: int| 0 <= i < qa.len() && qa[i] == w as usize;
                                assert(queue@[i] == qa[i]);
                            }
                            assert(w != v) by {
                                assert(queue@[queue@.len() - 1] == v);
                            }
                            assert(found(b0, s as int, w));
                            lemma_done_grows(e0, b0, back_edge@, s as int, w);
                        }
                        assert forall|k: int|
                            0 <= k < ei + 1 && valid_pos(e0, u as int, k) && (#[trigger] at(e0, u as int, k)).capacity != 0 implies found(
                            back_edge@,
                            s as int,
                            at(e0, u as int, k).node as int,
                        ) by {
                            if k < ei {
                                assert(found(b0, s as int, at(e0, u as int, k).node as int));
                            }
                        }
                        assert forall|q: int|
                            0 <= q < queue@.len() implies #[trigger] queue@[q] < n && (queue@[q] == s
                                || back_edge@[queue@[q] as int] != usize::MAX) by {
                            if q < queue@.len() - 1 {
                                assert(queue@[q] == queue@.drop_last()[q]);
                            }
                        }
                    }
                }
                ei += 1;
            }
        }
        if back_edge[t] == usize::MAX {
            proof {
                assert forall|v: int| 0 <= v < e0.len() && found(back_edge@, s as int, v) implies #[trigger] done_at(
                    e0,
                    back_edge@,
                    s as int,
                    v,
                ) by {
                    assert(!queue@.contains(v as usize));
                }
                assert forall|el: Seq<usize>| #[trigger] is_path(e0, s as int, el, t as int) implies !path_capable(
                    e0,
                    s as int,
                    el,
                ) by {
                    if path_capable(e0, s as int, el) {
                        lemma_found_along(e0, back_edge@, s as int, el, el.len() as int);
                    }
                }
            }
            return None;
        }
        let mut result: Vec<usize> = Vec::new();
        let mut node = t;
        proof {
            assert(result@.reverse() =~= Seq::<usize>::empty());
            reveal(pushed_along);
        }
        let ghost ne = self.n_edges;
        while node != s
            invariant
                self.wf(),
                self.n_edges == ne,
                same_structure(self.edges@, e0),
                paired(e0),
                n == self.n_nodes,
                e0.len() == n,
                s < n,
                node < n,
                back_edge@.len() == n,
                bfs_tree(e0, back_edge@, rank, s as int),
                node != s ==> back_edge@[node as int] != usize::MAX,
                is_path(e0, node as int, result@.reverse(), t as int),
                path_capable(e0, node as int, result@.reverse()),
                rising(e0, rank, node as int, result@.reverse()),
                pushed_along(e0, self.edges@, node as int, result@.reverse()),
            decreases rank[node as int],
        {
            let b = back_edge[node];
            proof {
                assert(valid_pos(e0, node as int, b as int));
                assert(self.edges@[node as int]@.len() == e0[node as int]@.len());
            }
            let ghost before = self.edges@;
            let e = self.push_back_along(node, b);
            proof {
                lemma_same_structure_trans(self.edges@, before, e0);
                assert(at(before, node as int, b as int).node == at(e0, node as int, b as int).node);
                assert(at(before, node as int, b as int).rev_pos == at(e0, node as int, b as int).rev_pos);
                let x = e.rev_pos;
                assert(result@.push(x).reverse() == seq![x] + result@.reverse());
                lemma_path_prepend(e0, e.node as int, x, result@.reverse(), t as int);
                assert(back_edge@[node as int] != usize::MAX);
                assert(rank[e.node as int] < rank[node as int]);
                lemma_push_step(e0, before, self.edges@, rank, back_edge@, s as int, node as int, result@.reverse());
            }
            result.push(e.rev_pos);
            node = e.node;
        }
        proof {
            reveal(distinct_nodes);
            let r = result@.reverse();
            assert forall|a: int, b: int| 0 <= a < b <= r.len() implies #[trigger] follow(e0, s as int, r, a) != #[trigger] follow(
                e0,
                s as int,
                r,
                b,
            ) by {
                lemma_rising_between(e0, rank, s as int, r, a, b);
            }
        }
        Some(reversed(&result))
    }

    /// Moves the capacity of the edge into `node` at position `b` of its
    /// list onto that edge, from the edge that it pairs with. Returns the
    /// edge at that position.
    fn push_back_along(&mut self, node: usize, b: usize) -> (e: Edge)
        requires
            old(self).wf(),
            valid_pos(old(self).edges@, node as int, b as int),
        ensures
            final(self).wf(),
            final(self).n_nodes == old(self).n_nodes,
            final(self).n_edges == old(self).n_edges,
            same_structure(final(self).edges@, old(self).edges@),
            e.node == at(old(self).edges@, node as int, b as int).node,
            e.rev_pos == at(old(self).edges@, node as int, b as int).rev_pos,
            forall|w: int, p: int|
                valid_pos(old(self).edges@, w, p) ==> #[trigger] at(final(self).edges@, w, p).capacity as int == if w == node
                    && p == b {
                    at(old(self).edges@, node as int, b as int).capacity + at(
                        old(self).edges@,
                        e.node as int,
                        e.rev_pos as int,
                    ).capacity
                } else if w == e.node && p == e.rev_pos {
                    0int
                } else {
                    at(old(self).edges@, w, p).capacity as int
                },
    {
        let ghost cur = self.edges@;
        let e = self.edges[node][b];
        proof {
            assert(e == at(cur, node as int, b as int));
            assert(e.node < cur.len() && e.rev_pos < cur[e.node as int]@.len());
        }
        let cap = self.edges[e.node][e.rev_pos].capacity;
        self.edges[node][b].capacity = e.capacity + cap;
        self.edges[e.node][e.rev_pos].capacity = self.edges[e.node][e.rev_pos].capacity - cap;
        proof {
            let nw = self.edges@;
            let v = e.node as int;
            let r = e.rev_pos as int;
            assert(at(cur, v, r).node == node && at(cur, v, r).rev_pos == b);
            assert((v, r) != (node as int, b as int));
            assert forall|w: int| 0 <= w < nw.len() implies (#[trigger] nw[w])@.len() == cur[w]@.len() by {}
            assert forall|w: int, p: int| valid_pos(cur, w, p) implies #[trigger] at(nw, w, p) == if w == node && p
                == b {
                Edge { capacity: (e.capacity + cap) as i32, ..at(cur, w, p) }
            } else if w == v && p == r {
                Edge { capacity: (at(cur, v, r).capacity - cap) as i32, ..at(cur, w, p) }
            } else {
                at(cur, w, p)
            } by {}
            lemma_flip(cur, nw, node as int, b as int, cap as int);
        }
        e
    }
}

/// The entries `p[k]` and `p[k + 1]` are joined by an input edge.
pub open spec fn step_ok(edges_inp: Seq<[usize; 2]>, p: Seq<usize>, k: int) -> bool {
    edges_inp.contains([p[k], p[k + 1]])
}

/// `p` lists nodes (counted from one) from `s` to `t`, each next to the one
/// before over an input edge.
pub open spec fn input_walk(edges_inp: Seq<[usize; 2]>, p: Seq<usize>, s: int, t: int) -> bool {
    &&& p.len() >= 1
    &&& p[0] == s
    &&& p[p.len() - 1] == t
    &&& forall|k: int| 0 <= k < p.len() - 1 ==> #[trigger] step_ok(edges_inp, p, k)
}

/// `a` comes before `b` in lexicographic order.
pub open spec fn lex_lt(a: Seq<usize>, b: Seq<usize>) -> bool
    decreases a.len(),
{
    if a.len() == 0 {
        b.len() > 0
    } else if b.len() == 0 {
        false
    } else if a[0] != b[0] {
        a[0] < b[0]
    } else {
        lex_lt(a.drop_first(), b.drop_first())
    }
}

/// Whether `a` comes before `b` in lexicographic order.
pub fn lex_less(a: &Vec<usize>, b: &Vec<usize>) -> (r: bool)
    ensures
        r == lex_lt(a@, b@),
{
    let mut i: usize = 0;
    proof {
        assert(a@.subrange(0, a@.len() as int) =~= a@);
        assert(b@.subrange(0, b@.len() as int) =~= b@);
    }
    while i < a.len() && i < b.len() && a[i] == b[i]
        invariant
            i <= a@.len(),
            i <= b@.len(),
            lex_lt(a@, b@) == lex_lt(a@.subrange(i as int, a@.len() as int), b@.subrange(i as int, b@.len() as int)),
        decreases a@.len() - i,
    {
        proof {
            let sa = a@.subrange(i as int, a@.len() as int);
            let sb = b@.subrange(i as int, b@.len() as int);
            assert(sa.drop_first() == a@.subrange(i + 1, a@.len() as int));
            assert(sb.drop_first() == b@.subrange(i + 1, b@.len() as int));
        }
        i += 1;
    }
    proof {
        let sa = a@.subrange(i as int, a@.len() as int);
        let sb = b@.subrange(i as int, b@.len() as int);
        if i < a@.len() && i < b@.len() {
            assert(sa[0] == a@[i as int] && sb[0] == b@[i as int]);
        }
    }
    if i < a.len() && i < b.len() {
        a[i] < b[i]
    } else {
        i == a.len() && i < b.len()
    }
}

/// One more node over an input edge extends a walk.
proof fn lemma_input_walk_push(edges_inp: Seq<[usize; 2]>, p: Seq<usize>, s: int, u: int, w: usize)
    requires
        input_walk(edges_inp, p, s, u),
        edges_inp.contains([u as usize, w]),
    ensures
        input_walk(edges_inp, p.push(w), s, w as int),
{
    let q = p.push(w);
    assert forall|k: int| 0 <= k < q.len() - 1 implies #[trigger] step_ok(edges_inp, q, k) by {
        if k < p.len() - 1 {
            assert(step_ok(edges_inp, p, k));
            assert(q[k] == p[k] && q[k + 1] == p[k + 1]);
        } else {
            assert(q[k] == p[p.len() - 1] && q[k + 1] == w);
        }
    }
}

/// A network with the structure of one built from the input still has its
/// forward edges from the input.
proof fn lemma_from_input_same(a: Seq<Vec<Edge>>, b: Seq<Vec<Edge>>, edges_inp: Seq<[usize; 2]>)
    requires
        same_structure(a, b),
        from_input(b, edges_inp),
    ensures
        from_input(a, edges_inp),
{
    assert forall|u: int, k: int|
        valid_pos(a, u, k) && (#[trigger] at(a, u, k)).is_fwd implies edges_inp.contains(
        [(u + 1) as usize, (at(a, u, k).node + 1) as usize],
    ) by {
        assert(valid_pos(b, u, k));
        assert(at(b, u, k).is_fwd);
    }
}

/// A path of one network follows the same nodes in another of the same
/// structure.
proof fn lemma_path_same(a: Seq<Vec<Edge>>, b: Seq<Vec<Edge>>, s: int, el: Seq<usize>, t: int)
    requires
        same_structure(a, b),
        is_path(b, s, el, t),
    ensures
        is_path(a, s, el, t),
        forall|k: int| 0 <= k <= el.len() ==> #[trigger] follow(a, s, el, k) == follow(b, s, el, k),
{
    assert(same_structure(b, a)) by {
        assert forall|u: int, k: int| valid_pos(b, u, k) implies {
            &&& (#[trigger] at(b, u, k)).node == at(a, u, k).node
            &&& at(b, u, k).rev_pos == at(a, u, k).rev_pos
            &&& at(b, u, k).is_fwd == at(a, u, k).is_fwd
        } by {
            assert(valid_pos(a, u, k));
        }
    }
    assert forall|k: int| 0 <= k <= el.len() implies #[trigger] follow(a, s, el, k) == follow(b, s, el, k) by {
        lemma_follow_same(b, a, s, el, k);
    }
    assert forall|k: int| 0 <= k < el.len() implies valid_pos(a, follow(a, s, el, k), #[trigger] el[k] as int) by {
        assert(valid_pos(b, follow(b, s, el, k), el[k] as int));
    }
}

/// A path of a network passes different nodes in any network of the same
/// structure when it does in the first.
proof fn lemma_distinct_same(a: Seq<Vec<Edge>>, b: Seq<Vec<Edge>>, s: int, el: Seq<usize>, t: int)
    requires
        same_structure(a, b),
        is_path(b, s, el, t),
        distinct_nodes(b, s, el),
    ensures
        distinct_nodes(a, s, el),
{
    reveal(distinct_nodes);
    lemma_path_same(a, b, s, el, t);
    assert forall|x: int, y: int| 0 <= x < y <= el.len() implies #[trigger] follow(a, s, el, x) != #[trigger] follow(
        a,
        s,
        el,
        y,
    ) by {
        assert(follow(b, s, el, x) != follow(b, s, el, y));
    }
}

/// Step `j` of `el2` from `s` runs back along the edge that step `k` of
/// `el1` from `s` takes.
pub open spec fn cancels(a: Seq<Vec<Edge>>, s: int, el1: Seq<usize>, el2: Seq<usize>, j: int, k: int) -> bool {
    let e2 = at(a, follow(a, s, el2, j), el2[j] as int);
    &&& 0 <= k < el1.len()
    &&& !e2.is_fwd
    &&& follow(a, s, el1, k) == e2.node
    &&& el1[k] == e2.rev_pos
}

/// Every step of `el2` that runs back along an edge runs back along an
/// edge that `el1` takes, and those edges come along `el1` in the order in
/// which `el2` runs back along them.
pub open spec fn cancels_in_order(a: Seq<Vec<Edge>>, s: int, el1: Seq<usize>, el2: Seq<usize>) -> bool {
    &&& forall|j: int|
        0 <= j < el2.len() && !(#[trigger] at(a, follow(a, s, el2, j), el2[j] as int)).is_fwd ==> exists|k: int|
            #[trigger] cancels(a, s, el1, el2, j, k)
    &&& forall|j1: int, j2: int, k1: int, k2: int|
        0 <= j1 < j2 < el2.len() && #[trigger] cancels(a, s, el1, el2, j1, k1) && #[trigger] cancels(a, s, el1, el2, j2, k2)
            ==> k1 < k2
}

/// Untangles the paths `el1` and `el2` from `s` to `t` of the network `g`
/// (the first made of input edges only, the second possibly running back
/// along edges of the first) into two walks over input edges, listed as
/// nodes counted from one.
#[verifier::spinoff_prover]
#[verifier::rlimit(100)]
fn untangle(
    g: &Graph,
    edges_inp: &[[usize; 2]],
    n: usize,
    s: usize,
    t: usize,
    el1: &Vec<usize>,
    el2: &Vec<usize>,
) -> (res: Option<(Vec<usize>, Vec<usize>)>)
    requires
        g.wf(),
        g.n_nodes == n,
        n < usize::MAX,
        s < n,
        t < n,
        from_input(g.edges@, edges_inp@),
        is_path(g.edges@, s as int, el1@, t as int),
        is_path(g.edges@, s as int, el2@, t as int),
        forall|k: int| 0 <= k < el1@.len() ==> (#[trigger] at(g.edges@, follow(g.edges@, s as int, el1@, k), el1@[k] as int)).is_fwd,
        distinct_nodes(g.edges@, s as int, el1@),
    ensures
        res is Some <==> cancels_in_order(g.edges@, s as int, el1@, el2@),
        res matches Some(paths) ==> {
            &&& input_walk(edges_inp@, paths.0@, s + 1, t + 1)
            &&& input_walk(edges_inp@, paths.1@, s + 1, t + 1)
        },
        el1@.len() == 0 && el2@.len() == 0 ==> (res matches Some(paths) && paths.0@ == seq![(s + 1) as usize]
            && paths.1@ == seq![(s + 1) as usize]),
{
    let ghost a = g.edges@;
    proof {
        reveal(distinct_nodes);
    }
    let mut path1: Vec<usize> = vec![s + 1];
    let mut path2: Vec<usize> = vec![s + 1];

    let mut pos1 = s;
    let mut pos2 = s;
    let mut i: usize = 0;
    let mut j: usize = 0;
    while j < el2.len()
        invariant
            g.edges@ == a,
            g.wf(),
            g.n_nodes == n,
            n < usize::MAX,
            t < n,
            from_input(a, edges_inp@),
            is_path(a, s as int, el1@, t as int),
            is_path(a, s as int, el2@, t as int),
            forall|k: int| 0 <= k < el1@.len() ==> (#[trigger] at(a, follow(a, s as int, el1@, k), el1@[k] as int)).is_fwd,
            i <= el1@.len(),
            j <= el2@.len(),
            pos1 == follow(a, s as int, el1@, i as int),
            pos2 == follow(a, s as int, el2@, j as int),
            pos1 < n,
            pos2 < n,
            input_walk(edges_inp@, path1@, s + 1, pos1 + 1),
            input_walk(edges_inp@, path2@, s + 1, pos2 + 1),
            forall|a1: int, b1: int|
                0 <= a1 < b1 <= el1@.len() ==> #[trigger] follow(a, s as int, el1@, a1) != #[trigger] follow(
                    a,
                    s as int,
                    el1@,
                    b1,
                ),
            forall|j1: int, k1: int| 0 <= j1 < j && #[trigger] cancels(a, s as int, el1@, el2@, j1, k1) ==> k1 < i,
            forall|j1: int|
                0 <= j1 < j && !(#[trigger] at(a, follow(a, s as int, el2@, j1), el2@[j1] as int)).is_fwd ==> exists|k: int|
                    #[trigger] cancels(a, s as int, el1@, el2@, j1, k),
            forall|j1: int, j2: int, k1: int, k2: int|
                0 <= j1 < j2 < j && #[trigger] cancels(a, s as int, el1@, el2@, j1, k1) && #[trigger] cancels(
                    a,
                    s as int,
                    el1@,
                    el2@,
                    j2,
                    k2,
                ) ==> k1 < k2,
            i > 0 ==> exists|j1: int| 0 <= j1 < j && #[trigger] cancels(a, s as int, el1@, el2@, j1, i - 1),
            j == 0 ==> path1@ == seq![(s + 1) as usize] && path2@ == seq![(s + 1) as usize],
        decreases el2@.len() - j,
    {
        proof {
            assert(valid_pos(a, pos2 as int, el2@[j as int] as int));
        }
        let e2 = g.edges[pos2][el2[j]];
        if e2.is_fwd {
            let next = e2.node;
            proof {
                assert(e2 == at(a, pos2 as int, el2@[j as int] as int));
                lemma_input_walk_push(edges_inp@, path2@, s + 1, pos2 + 1, (next + 1) as usize);
            }
            path2.push(next + 1);
            pos2 = next;
        } else {
            proof {
                assert(e2 == at(a, pos2 as int, el2@[j as int] as int));
            }
            let ghost i0 = i;
            let mut found = false;
            while !found && i < el1.len()
                invariant
                    g.edges@ == a,
                    g.wf(),
                    g.n_nodes == n,
                    n < usize::MAX,
                    from_input(a, edges_inp@),
                    is_path(a, s as int, el1@, t as int),
                    is_path(a, s as int, el2@, t as int),
                    forall|k: int| 0 <= k < el1@.len() ==> (#[trigger] at(a, follow(a, s as int, el1@, k), el1@[k] as int)).is_fwd,
                    i <= el1@.len(),
                    j < el2@.len(),
                    e2 == at(a, follow(a, s as int, el2@, j as int), el2@[j as int] as int),
                    pos1 == follow(a, s as int, el1@, i as int),
                    !found ==> pos2 == follow(a, s as int, el2@, j as int),
                    found ==> pos2 == follow(a, s as int, el2@, j + 1),
                    pos1 < n,
                    pos2 < n,
                    input_walk(edges_inp@, path1@, s + 1, pos1 + 1),
                    input_walk(edges_inp@, path2@, s + 1, pos2 + 1),
                    !e2.is_fwd,
                    i0 <= i,
                    !found ==> forall|k: int| i0 <= k < i ==> !#[trigger] cancels(a, s as int, el1@, el2@, j as int, k),
                    found ==> i >= 1 && i0 <= i - 1 && cancels(a, s as int, el1@, el2@, j as int, i - 1),
                decreases el1@.len() - i,
            {
                proof {
                    assert(valid_pos(a, pos1 as int, el1@[i as int] as int));
                }
                if pos1 == e2.node && el1[i] == e2.rev_pos {
                    proof {
                        let u2 = follow(a, s as int, el2@, j as int);
                        assert(valid_pos(a, u2, el2@[j as int] as int));
                        assert(at(a, pos1 as int, el1@[i as int] as int).node == u2);
                    }
                    std::mem::swap(&mut pos1, &mut pos2);
                    std::mem::swap(&mut path1, &mut path2);
                    i += 1;
                    found = true;
                } else {
                    let e1 = g.edges[pos1][el1[i]];
                    let next = e1.node;
                    proof {
                        assert(e1 == at(a, pos1 as int, el1@[i as int] as int));
                        assert(e1.is_fwd);
                        lemma_input_walk_push(edges_inp@, path1@, s + 1, pos1 + 1, (next + 1) as usize);
                    }
                    path1.push(next + 1);
                    pos1 = next;
                    i += 1;
                }
            }
            if !found {
                proof {
                    if cancels_in_order(a, s as int, el1@, el2@) {
                        let _ = at(a, follow(a, s as int, el2@, j as int), el2@[j as int] as int);
                        let k = choose|k: int| #[trigger] cancels(a, s as int, el1@, el2@, j as int, k);
                        assert(k < i0);
                        let j1 = choose|j1: int| 0 <= j1 < j && #[trigger] cancels(a, s as int, el1@, el2@, j1, i0 - 1);
                        assert(i0 - 1 < k);
                    }
                }
                return None;
            }
            proof {
                assert forall|k: int| #[trigger] cancels(a, s as int, el1@, el2@, j as int, k) implies k == i - 1 by {
                    if k != i - 1 {
                        if k < i - 1 {
                            assert(follow(a, s as int, el1@, k) != follow(a, s as int, el1@, i - 1));
                        } else {
                            assert(follow(a, s as int, el1@, i - 1) != follow(a, s as int, el1@, k));
                        }
                    }
                }
            }
        }
        j += 1;
    }
    proof {
        assert(cancels_in_order(a, s as int, el1@, el2@));
    }
    while i < el1.len()
        invariant
            g.edges@ == a,
            g.wf(),
            g.n_nodes == n,
            n < usize::MAX,
            from_input(a, edges_inp@),
            is_path(a, s as int, el1@, t as int),
            forall|k: int| 0 <= k < el1@.len() ==> (#[trigger] at(a, follow(a, s as int, el1@, k), el1@[k] as int)).is_fwd,
            i <= el1@.len(),
            pos1 == follow(a, s as int, el1@, i as int),
            pos1 < n,
            input_walk(edges_inp@, path1@, s + 1, pos1 + 1),
            el1@.len() == 0 && el2@.len() == 0 ==> path1@ == seq![(s + 1) as usize] && path2@ == seq![(s + 1) as usize],
        decreases el1@.len() - i,
    {
        proof {
            assert(valid_pos(a, pos1 as int, el1@[i as int] as int));
        }
        let e1 = g.edges[pos1][el1[i]];
        let next = e1.node;
        proof {
            assert(e1 == at(a, pos1 as int, el1@[i as int] as int));
            lemma_input_walk_push(edges_inp@, path1@, s + 1, pos1 + 1, (next + 1) as usize);
        }
        path1.push(next + 1);
        pos1 = next;
        i += 1;
    }
    Some((path1, path2))
}

/// The first path found runs over input edges only: in the new network
/// only they have capacity.
proof fn lemma_first_forward(a: Seq<Vec<Edge>>, g0: Seq<Vec<Edge>>, s: int, el: Seq<usize>, t: int)
    requires
        same_structure(a, g0),
        is_path(g0, s, el, t),
        path_capable(g0, s, el),
        forall|u: int, k: int| valid_pos(g0, u, k) ==> (#[trigger] at(g0, u, k)).capacity == (if at(g0, u, k).is_fwd {
            1int
        } else {
            0int
        }),
    ensures
        forall|k: int| 0 <= k < el.len() ==> (#[trigger] at(a, follow(a, s, el, k), el[k] as int)).is_fwd,
{
    lemma_path_same(a, g0, s, el, t);
    assert forall|k: int| 0 <= k < el.len() implies (#[trigger] at(a, follow(a, s, el, k), el[k] as int)).is_fwd by {
        let u = follow(g0, s, el, k);
        assert(follow(a, s, el, k) == u);
        assert(at(g0, u, el[k] as int).capacity != 0);
        assert(valid_pos(g0, u, el[k] as int));
        assert(valid_pos(a, u, el[k] as int));
    }
}

/// A path that visits no node twice and ends where it starts is empty.
proof fn lemma_no_loop(adj: Seq<Vec<Edge>>, s: int, el: Seq<usize>, t: int)
    requires
        is_path(adj, s, el, t),
        distinct_nodes(adj, s, el),
        s == t,
    ensures
        el.len() == 0,
{
    reveal(distinct_nodes);
    if el.len() > 0 {
        assert(follow(adj, s, el, 0) != follow(adj, s, el, el.len() as int));
    }
}

/// Of two different sequences at most one comes first.
proof fn lemma_lex_lt_asym(a: Seq<usize>, b: Seq<usize>)
    requires
        lex_lt(a, b),
    ensures
        !lex_lt(b, a),
    decreases a.len(),
{
    if a.len() > 0 && b.len() > 0 && a[0] == b[0] {
        lemma_lex_lt_asym(a.drop_first(), b.drop_first());
    }
}

/// Two paths from `s` to `t` (counted from one) that share no edge, each
/// listed as its nodes, the lexicographically larger first; `None` when
/// the searches find no two such paths. The second path found may run back
/// along edges of the first: the two are then untangled by swapping their
/// tails at each edge so cancelled, which needs those edges to come along
/// the first path in the order in which the second runs back along them;
/// `None` too where they do not.
/// Where `s` and `t` are the same node, both paths are that node alone.
#[verifier::spinoff_prover]
#[verifier::rlimit(80)]
pub fn solve(n: usize, s: usize, t: usize, edges_inp: &[[usize; 2]]) -> (answer: Option<[Vec<usize>; 2]>)
    requires
        1 <= s <= n,
        1 <= t <= n,
        n < usize::MAX,
        input_ok(n as int, edges_inp@),
        2 * edges_inp@.len() + 2 < usize::MAX,
    ensures
        answer matches Some(paths) ==> {
            &&& input_walk(edges_inp@, paths[0]@, s as int, t as int)
            &&& input_walk(edges_inp@, paths[1]@, s as int, t as int)
            &&& !lex_lt(paths[0]@, paths[1]@)
        },
        s == t ==> (answer matches Some(paths) && paths[0]@ == seq![s] && paths[1]@ == seq![s]),
{
    let s = s - 1;
    let t = t - 1;
    let mut g = Graph::new(n, edges_inp);
    let ghost g0 = g.edges@;
    let el1 = match g.subflow(s, t) {
        Some(el) => el,
        None => {
            proof {
                if s == t {
                    assert(is_path(g0, s as int, Seq::<usize>::empty(), t as int));
                }
            }
            return None;
        },
    };
    let ghost g1 = g.edges@;
    let el2 = match g.subflow(s, t) {
        Some(el) => el,
        None => {
            proof {
                if s == t {
                    assert(is_path(g1, s as int, Seq::<usize>::empty(), t as int));
                }
            }
            return None;
        },
    };
    let ghost a = g.edges@;
    proof {
        if s == t {
            lemma_no_loop(g0, s as int, el1@, t as int);
            lemma_no_loop(g1, s as int, el2@, t as int);
        }
        lemma_same_structure_trans(a, g1, g0);
        lemma_from_input_same(a, g0, edges_inp@);
        lemma_path_same(a, g0, s as int, el1@, t as int);
        lemma_path_same(a, g1, s as int, el2@, t as int);
        lemma_first_forward(a, g0, s as int, el1@, t as int);
        lemma_distinct_same(a, g0, s as int, el1@, t as int);
    }
    match untangle(&g, edges_inp, n, s, t, &el1, &el2) {
        None => None,
        Some((path1, path2)) => {
            if !lex_less(&path1, &path2) {
                let paths = [path1, path2];
                assert(paths[0]@ == path1@ && paths[1]@ == path2@);
                Some(paths)
            } else {
                proof {
                    lemma_lex_lt_asym(path1@, path2@);
                }
                let paths = [path2, path1];
                assert(paths[0]@ == path2@ && paths[1]@ == path1@);
                Some(paths)
            }
        },
    }
}

} // verus!
