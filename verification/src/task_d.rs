use vstd::prelude::*;
use crate::capacity::Capacity;
use crate::graph::{partners_idle, lemma_flow_fits, 
    Graph, Edge, finite_total, lemma_no_unbounded_reach, same_shape, cut_value, cut_weight, finite_part, lemma_cut_diff,
    rev, unbounded, pair_sum, separates, cut_finite, is_walk, reachable_avoiding,
    lemma_reachable_avoiding_extend, residual_side,
};
use crate::grid::{total, indicator, lemma_total_injective_where, lemma_total_ones, lemma_total_congruent, lemma_total_split, lemma_total_point, lemma_total_sub, lemma_total_zero, lemma_total_two,
    lemma_total_combine};
use crate::task_a::{worker_term, job_term, listed_term, lemma_split4, lemma_cut_sum_zero_set, flow_facts, used};

verus! {

/// A taxi order: when it starts, in minutes, where the passenger is picked
/// up and where the passenger is taken.
#[derive(Debug, Clone, Copy, PartialEq, Eq, Structural)]
pub struct Order {
    pub epoch: u64,
    pub sx: u64,
    pub sy: u64,
    pub tx: u64,
    pub ty: u64,
}

/// The distance between `a` and `b`.
pub open spec fn dist(a: u64, b: u64) -> int {
    if a >= b {
        a - b
    } else {
        b - a
    }
}

/// The distance between two numbers.
pub fn abs_diff(a: u64, b: u64) -> (d: u64)
    ensures
        d == dist(a, b),
{
    if a >= b {
        a - b
    } else {
        b - a
    }
}

/// The minute at which the taxi that served `a` reaches the start of `b`.
pub open spec fn arrival(a: Order, b: Order) -> int {
    a.epoch + dist(a.tx, a.sx) + dist(a.ty, a.sy) + dist(a.tx, b.sx) + dist(a.ty, b.sy)
}

/// The taxi that served `a` can take `b` too, arriving before it starts.
pub open spec fn can_precede(a: Order, b: Order) -> bool {
    arrival(a, b) < b.epoch
}

impl Order {
    /// The order that starts at `hours:minutes` and goes from `(sx, sy)` to
    /// `(tx, ty)`.
    pub fn new(hours: u64, minutes: u64, sx: u64, sy: u64, tx: u64, ty: u64) -> (o: Self)
        requires
            60 * hours + minutes <= u64::MAX,
        ensures
            o == (Order { epoch: (60 * hours + minutes) as u64, sx, sy, tx, ty }),
    {
        Order { epoch: 60 * hours + minutes, sx, sy, tx, ty }
    }

    /// Whether the taxi that served `self` can take `that` afterwards.
    pub fn precedes(self, that: Order) -> (r: bool)
        requires
            arrival(self, that) <= u64::MAX,
        ensures
            r == can_precede(self, that),
    {
        self.epoch + abs_diff(self.tx, self.sx) + abs_diff(self.ty, self.sy) + abs_diff(self.tx, that.sx) + abs_diff(
            self.ty,
            that.sy,
        ) < that.epoch
    }
}

/// The two edges of the `k`-th listed pair `(i, j)`: from order `i` to the
/// copy of order `j`, and its paired edge.
pub open spec fn link_ok(e: Seq<Edge>, n: int, listed: Seq<(int, int)>, k: int) -> bool {
    &&& e[2 * k] == Edge {
        node1: (n + listed[k].1) as usize,
        node2: listed[k].0 as usize,
        capacity: Capacity::Finite(0),
        is_real: false,
    }
    &&& e[2 * k + 1] == Edge {
        node1: listed[k].0 as usize,
        node2: (n + listed[k].1) as usize,
        capacity: Capacity::Finite(1),
        is_real: true,
    }
}

/// The four edges of order `i`, from `base`: from the source to the order,
/// and from the order's copy to the sink, each with its pair.
pub open spec fn order_ok(e: Seq<Edge>, base: int, n: int, i: int) -> bool {
    let s = 2 * n;
    let t = 2 * n + 1;
    &&& e[base] == Edge { node1: i as usize, node2: s as usize, capacity: Capacity::Finite(0), is_real: false }
    &&& e[base + 1] == Edge { node1: s as usize, node2: i as usize, capacity: Capacity::Finite(1), is_real: true }
    &&& e[base + 2] == Edge { node1: t as usize, node2: (n + i) as usize, capacity: Capacity::Finite(0), is_real: false }
    &&& e[base + 3] == Edge { node1: (n + i) as usize, node2: t as usize, capacity: Capacity::Finite(1), is_real: true }
}

/// The network of the orders: the listed pairs' edges, then the orders'.
pub open spec fn orders_network(e: Seq<Edge>, n: int, listed: Seq<(int, int)>) -> bool {
    let l = listed.len() as int;
    &&& e.len() == 2 * l + 4 * n
    &&& forall|k: int| 0 <= k < l ==> #[trigger] link_ok(e, n, listed, k)
    &&& forall|i: int| 0 <= i < n ==> #[trigger] order_ok(e, 2 * l + 4 * i, n, i)
}

/// The listed pairs are the pairs of orders where the first can precede the
/// second.
pub open spec fn listed_links(orders: Seq<Order>, listed: Seq<(int, int)>) -> bool {
    &&& forall|k: int|
        0 <= k < listed.len() ==> {
            &&& 0 <= (#[trigger] listed[k]).0 < orders.len()
            &&& 0 <= listed[k].1 < orders.len()
            &&& can_precede(orders[listed[k].0], orders[listed[k].1])
        }
    &&& forall|i: int, j: int|
        0 <= i < orders.len() && 0 <= j < orders.len() && can_precede(#[trigger] orders[i], #[trigger] orders[j])
            ==> listed.contains((i, j))
}

/// The network of the orders: source, orders, copies of the orders, sink,
/// every edge of capacity one.
fn build_orders(orders: &[Order]) -> (res: (Graph, Vec<usize>, Ghost<Seq<(int, int)>>))
    requires
        forall|i: int, j: int| 0 <= i < orders@.len() && 0 <= j < orders@.len() ==> arrival(
            #[trigger] orders@[i],
            #[trigger] orders@[j],
        ) <= u64::MAX,
        2 * orders@.len() * orders@.len() + 4 * orders@.len() + 8 < usize::MAX,
        orders@.len() * orders@.len() + 2 * orders@.len() <= u64::MAX,
    ensures
        res.0.wf(),
        res.0.node_count() == 2 * orders@.len() + 2,
        orders_network(res.0.edges(), orders@.len() as int, res.2@),
        listed_links(orders@, res.2@),
        res.2@.len() <= orders@.len() * orders@.len(),
        res.1@.len() == res.2@.len(),
        forall|k: int| 0 <= k < res.1@.len() ==> #[trigger] res.1@[k] == 2 * k + 1,
        finite_total(res.0.edges()) == res.2@.len() + 2 * orders@.len(),
        forall|x: int| 0 <= x < res.0.edges().len() ==> (#[trigger] res.0.edges()[x]).capacity is Finite,
{
    let n = orders.len();
    proof {
        assert(2 * n * n == 2 * (n * n)) by (nonlinear_arith);
    }
    let mut h = Graph::new(2 * n + 2);
    let s = 2 * n;
    let t = s + 1;
    let mut og_edges: Vec<usize> = Vec::new();
    let ghost mut listed: Seq<(int, int)> = Seq::empty();
    let mut i: usize = 0;
    while i < n
        invariant
            h.wf(),
            h.node_count() == 2 * n + 2,
            n == orders@.len(),
            i <= n,
            0 <= listed.len() <= i * n,
            h.edges().len() == 2 * listed.len(),
            og_edges@.len() == listed.len(),
            forall|k: int| 0 <= k < og_edges@.len() ==> #[trigger] og_edges@[k] == 2 * k + 1,
            finite_total(h.edges()) == listed.len(),
            forall|i2: int, j2: int| 0 <= i2 < n && 0 <= j2 < n ==> arrival(
                #[trigger] orders@[i2],
                #[trigger] orders@[j2],
            ) <= u64::MAX,
            2 * n * n + 4 * n + 8 < usize::MAX,
            2 * n * n == 2 * (n * n),
            n * n + 2 * n <= u64::MAX,
            forall|k: int| 0 <= k < listed.len() ==> #[trigger] link_ok(h.edges(), n as int, listed, k),
            forall|k: int|
                0 <= k < listed.len() ==> {
                    &&& 0 <= (#[trigger] listed[k]).0 < i
                    &&& 0 <= listed[k].1 < n
                    &&& can_precede(orders@[listed[k].0], orders@[listed[k].1])
                },
            forall|i2: int, j2: int|
                0 <= i2 < i && 0 <= j2 < n && can_precede(#[trigger] orders@[i2], #[trigger] orders@[j2]) ==> listed.contains(
                    (i2, j2),
                ),
            forall|e: int| 0 <= e < h.edges().len() ==> (#[trigger] h.edges()[e]).capacity is Finite,
        decreases n - i,
    {
        proof {
            assert(i * n + n <= n * n) by (nonlinear_arith)
                requires
                    i < n,
            ;
        }
        let mut j: usize = 0;
        while j < n
            invariant
                h.wf(),
                h.node_count() == 2 * n + 2,
                n == orders@.len(),
                i < n,
                j <= n,
                0 <= listed.len() <= i * n + j,
                h.edges().len() == 2 * listed.len(),
                og_edges@.len() == listed.len(),
                forall|k: int| 0 <= k < og_edges@.len() ==> #[trigger] og_edges@[k] == 2 * k + 1,
                finite_total(h.edges()) == listed.len(),
                forall|i2: int, j2: int| 0 <= i2 < n && 0 <= j2 < n ==> arrival(
                    #[trigger] orders@[i2],
                    #[trigger] orders@[j2],
                ) <= u64::MAX,
                2 * n * n + 4 * n + 8 < usize::MAX,
                2 * n * n == 2 * (n * n),
                n * n + 2 * n <= u64::MAX,
                i * n + n <= n * n,
                forall|k: int| 0 <= k < listed.len() ==> #[trigger] link_ok(h.edges(), n as int, listed, k),
                forall|k: int|
                    0 <= k < listed.len() ==> {
                        &&& 0 <= (#[trigger] listed[k]).0 <= i
                        &&& 0 <= listed[k].1 < n
                        &&& can_precede(orders@[listed[k].0], orders@[listed[k].1])
                    },
                forall|i2: int, j2: int|
                    0 <= i2 < i && 0 <= j2 < n && can_precede(#[trigger] orders@[i2], #[trigger] orders@[j2])
                        ==> listed.contains((i2, j2)),
                forall|j2: int|
                    0 <= j2 < j && can_precede(orders@[i as int], #[trigger] orders@[j2]) ==> listed.contains((i as int, j2)),
                forall|e: int| 0 <= e < h.edges().len() ==> (#[trigger] h.edges()[e]).capacity is Finite,
            decreases n - j,
        {
            proof {
                assert(orders@[i as int] == orders[i as int]);
            }
            if orders[i].precedes(orders[j]) {
                let ghost before = h.edges();
                let ghost old_listed = listed;
                let pos = h.add_edge(i, n + j, Capacity::Finite(1));
                og_edges.push(pos);
                proof {
                    listed = listed.push((i as int, j as int));
                    let a = before.len() as int;
                    assert forall|k: int| 0 <= k < listed.len() implies #[trigger] link_ok(h.edges(), n as int, listed, k) by {
                        if k < old_listed.len() {
                            assert(link_ok(before, n as int, old_listed, k));
                            assert(listed[k] == old_listed[k]);
                            assert(h.edges()[2 * k] == before[2 * k]);
                            assert(h.edges()[2 * k + 1] == before[2 * k + 1]);
                        }
                    }
                    assert forall|i2: int, j2: int|
                        0 <= i2 < i && 0 <= j2 < n && can_precede(#[trigger] orders@[i2], #[trigger] orders@[j2]) implies listed.contains(
                        (i2, j2),
                    ) by {
                        let k2 = choose|k2: int| 0 <= k2 < old_listed.len() && old_listed[k2] == (i2, j2);
                        assert(listed[k2] == old_listed[k2]);
                    }
                    assert forall|j2: int|
                        0 <= j2 < j + 1 && can_precede(orders@[i as int], #[trigger] orders@[j2]) implies listed.contains(
                        (i as int, j2),
                    ) by {
                        if j2 < j {
                            let k2 = choose|k2: int| 0 <= k2 < old_listed.len() && old_listed[k2] == (i as int, j2);
                            assert(listed[k2] == old_listed[k2]);
                        } else {
                            assert(listed[old_listed.len() as int] == (i as int, j2));
                        }
                    }
                }
            }
            j += 1;
        }
        proof {
            assert((i + 1) * n == i * n + n) by (nonlinear_arith);
            assert forall|i2: int, j2: int|
                0 <= i2 < i + 1 && 0 <= j2 < n && can_precede(#[trigger] orders@[i2], #[trigger] orders@[j2]) implies listed.contains(
                (i2, j2),
            ) by {
                if i2 == i {
                    assert(can_precede(orders@[i as int], orders@[j2]));
                }
            }
        }
        i += 1;
    }
    let ghost l = listed.len() as int;
    let mut i: usize = 0;
    while i < n
        invariant
            h.wf(),
            h.node_count() == 2 * n + 2,
            s == 2 * n,
            t == s + 1,
            i <= n,
            l == listed.len(),
            0 <= l <= n * n,
            h.edges().len() == 2 * l + 4 * i,
            finite_total(h.edges()) == l + 2 * i,
            2 * n * n + 4 * n + 8 < usize::MAX,
            2 * n * n == 2 * (n * n),
            n * n + 2 * n <= u64::MAX,
            forall|k: int| 0 <= k < l ==> #[trigger] link_ok(h.edges(), n as int, listed, k),
            forall|i2: int| 0 <= i2 < i ==> #[trigger] order_ok(h.edges(), 2 * l + 4 * i2, n as int, i2),
            forall|e: int| 0 <= e < h.edges().len() ==> (#[trigger] h.edges()[e]).capacity is Finite,
        decreases n - i,
    {
        let ghost before = h.edges();
        h.add_edge(s, i, Capacity::Finite(1));
        let ghost mid = h.edges();
        h.add_edge(n + i, t, Capacity::Finite(1));
        proof {
            let a = before.len() as int;
            assert forall|x: int| 0 <= x < a implies #[trigger] h.edges()[x] == before[x] by {}
            assert forall|k: int| 0 <= k < l implies #[trigger] link_ok(h.edges(), n as int, listed, k) by {
                assert(link_ok(before, n as int, listed, k));
                assert(h.edges()[2 * k] == before[2 * k]);
                assert(h.edges()[2 * k + 1] == before[2 * k + 1]);
            }
            assert forall|i2: int| 0 <= i2 < i + 1 implies #[trigger] order_ok(h.edges(), 2 * l + 4 * i2, n as int, i2) by {
                if i2 < i {
                    assert(order_ok(before, 2 * l + 4 * i2, n as int, i2));
                    assert(h.edges()[2 * l + 4 * i2] == before[2 * l + 4 * i2]);
                    assert(h.edges()[2 * l + 4 * i2 + 1] == before[2 * l + 4 * i2 + 1]);
                    assert(h.edges()[2 * l + 4 * i2 + 2] == before[2 * l + 4 * i2 + 2]);
                    assert(h.edges()[2 * l + 4 * i2 + 3] == before[2 * l + 4 * i2 + 3]);
                }
            }
        }
        i += 1;
    }
    (h, og_edges, Ghost(listed))
}

/// Edges with the nodes of the network of the orders.
pub open spec fn orders_shaped(e: Seq<Edge>, e0: Seq<Edge>, n: int, listed: Seq<(int, int)>) -> bool {
    &&& orders_network(e0, n, listed)
    &&& same_shape(e, e0)
    &&& 0 <= n
    &&& 2 * n + 2 <= usize::MAX
    &&& forall|k: int| 0 <= k < listed.len() ==> 0 <= (#[trigger] listed[k]).0 < n && 0 <= listed[k].1 < n
}

/// The cut that holds the source and the orders (not their copies).
pub open spec fn orders_side(n: int) -> Set<int> {
    Set::new(|z: int| z == 2 * n || 0 <= z < n)
}

/// Moving order `i` into the cut that holds the source alone adds `i`'s
/// listed edges and takes away the source's edge to `i`.
proof fn lemma_out_balance(e: Seq<Edge>, e0: Seq<Edge>, n: int, listed: Seq<(int, int)>, i: int)
    requires
        orders_shaped(e, e0, n, listed),
        0 <= i < n,
    ensures
        cut_value(e, set![2 * n].insert(i)) - cut_value(e, set![2 * n]) == total(
            worker_term(e, listed, i),
            2 * (listed.len() as int),
        ) - finite_part(e[2 * listed.len() + 4 * i + 1].capacity),
{
    let l = listed.len() as int;
    let len = e.len() as int;
    let x = set![2 * n];
    let y = x.insert(i);
    let src = 2 * l + 4 * i + 1;
    lemma_cut_diff(e, x, y, len);
    let d = |z: int| cut_weight(e[z], y) - cut_weight(e[z], x);
    let wt = worker_term(e, listed, i);
    let a = |z: int| if z < 2 * l { wt(z) } else if z == src { -finite_part(e[z].capacity) } else { 0int };
    assert forall|z: int| 0 <= z < len implies #[trigger] d(z) == a(z) by {
        assert(e[z].node1 == e0[z].node1 && e[z].node2 == e0[z].node2);
        if z < 2 * l {
            let k = z / 2;
            assert(link_ok(e0, n, listed, k));
            assert(0 <= listed[k].0 < n && 0 <= listed[k].1 < n);
            if z % 2 == 0 {
                assert(z == 2 * k);
                assert(d(z) == a(z));
            } else {
                assert(z == 2 * k + 1);
                assert(d(z) == a(z));
            }
        } else {
            lemma_split4(z, 2 * l);
            let w = (z - 2 * l) / 4;
            assert(order_ok(e0, 2 * l + 4 * w, n, w));
            assert(d(z) == a(z));
        }
    }
    lemma_total_congruent(d, a, len);
    lemma_total_split(a, 2 * l, 4 * n);
    assert forall|z: int| 0 <= z < 2 * l implies #[trigger] a(z) == wt(z) by {}
    lemma_total_congruent(a, wt, 2 * l);
    let c = -finite_part(e[src].capacity);
    let pt = |z: int| if z == 4 * i + 1 { c } else { 0int };
    let sh = |z: int| a(2 * l + z);
    assert forall|z: int| 0 <= z < 4 * n implies #[trigger] sh(z) == pt(z) by {}
    lemma_total_congruent(sh, pt, 4 * n);
    lemma_total_point(c, 4 * i + 1, 4 * n);
}

/// Moving the copy of order `j` into the cut that holds the source and the
/// orders adds the copy's edge to the sink and takes away the listed edges
/// into the copy.
proof fn lemma_in_balance(e: Seq<Edge>, e0: Seq<Edge>, n: int, listed: Seq<(int, int)>, j: int)
    requires
        orders_shaped(e, e0, n, listed),
        0 <= j < n,
    ensures
        cut_value(e, orders_side(n).insert(n + j)) - cut_value(e, orders_side(n)) == finite_part(
            e[2 * listed.len() + 4 * j + 3].capacity,
        ) - total(job_term(e, listed, j), 2 * (listed.len() as int)),
{
    let l = listed.len() as int;
    let len = e.len() as int;
    let x = orders_side(n);
    let y = x.insert(n + j);
    let snk = 2 * l + 4 * j + 3;
    lemma_cut_diff(e, x, y, len);
    let d = |z: int| cut_weight(e[z], y) - cut_weight(e[z], x);
    let jt = job_term(e, listed, j);
    let a = |z: int| if z < 2 * l { -jt(z) } else if z == snk { finite_part(e[z].capacity) } else { 0int };
    assert forall|z: int| 0 <= z < len implies #[trigger] d(z) == a(z) by {
        assert(e[z].node1 == e0[z].node1 && e[z].node2 == e0[z].node2);
        if z < 2 * l {
            let k = z / 2;
            assert(link_ok(e0, n, listed, k));
            assert(0 <= listed[k].0 < n && 0 <= listed[k].1 < n);
            if z % 2 == 0 {
                assert(z == 2 * k);
                assert(d(z) == a(z));
            } else {
                assert(z == 2 * k + 1);
                assert(d(z) == a(z));
            }
        } else {
            lemma_split4(z, 2 * l);
            let w = (z - 2 * l) / 4;
            assert(order_ok(e0, 2 * l + 4 * w, n, w));
            assert(d(z) == a(z));
        }
    }
    lemma_total_congruent(d, a, len);
    lemma_total_split(a, 2 * l, 4 * n);
    let zero = |z: int| 0int;
    assert forall|z: int| 0 <= z < 2 * l implies #[trigger] a(z) == zero(z) - jt(z) by {}
    lemma_total_sub(a, zero, jt, 2 * l);
    lemma_total_zero(zero, 2 * l);
    let c = finite_part(e[snk].capacity);
    let pt = |z: int| if z == 4 * j + 3 { c } else { 0int };
    let sh = |z: int| a(2 * l + z);
    assert forall|z: int| 0 <= z < 4 * n implies #[trigger] sh(z) == pt(z) by {}
    lemma_total_congruent(sh, pt, 4 * n);
    lemma_total_point(c, 4 * j + 3, 4 * n);
}

/// The cut that holds the source and the orders carries out exactly the
/// listed pairs' edges.
proof fn lemma_orders_side_value(e: Seq<Edge>, e0: Seq<Edge>, n: int, listed: Seq<(int, int)>)
    requires
        orders_shaped(e, e0, n, listed),
    ensures
        cut_value(e, orders_side(n)) == total(listed_term(e), 2 * (listed.len() as int)),
{
    let l = listed.len() as int;
    let len = e.len() as int;
    let w = orders_side(n);
    let none = Set::<int>::empty();
    lemma_cut_diff(e, none, w, len);
    lemma_cut_sum_zero_set(e, len);
    let d = |z: int| cut_weight(e[z], w) - cut_weight(e[z], none);
    let lt = listed_term(e);
    let a = |z: int| if z < 2 * l { lt(z) } else { 0int };
    assert forall|z: int| 0 <= z < len implies #[trigger] d(z) == a(z) by {
        assert(e[z].node1 == e0[z].node1 && e[z].node2 == e0[z].node2);
        if z < 2 * l {
            let k = z / 2;
            assert(link_ok(e0, n, listed, k));
            assert(0 <= listed[k].0 < n && 0 <= listed[k].1 < n);
            if z % 2 == 0 {
                assert(z == 2 * k);
                assert(d(z) == a(z));
            } else {
                assert(z == 2 * k + 1);
                assert(d(z) == a(z));
            }
        } else {
            lemma_split4(z, 2 * l);
            let v = (z - 2 * l) / 4;
            assert(order_ok(e0, 2 * l + 4 * v, n, v));
            assert(d(z) == a(z));
        }
    }
    lemma_total_congruent(d, a, len);
    lemma_total_split(a, 2 * l, 4 * n);
    assert forall|z: int| 0 <= z < 2 * l implies #[trigger] a(z) == lt(z) by {}
    lemma_total_congruent(a, lt, 2 * l);
    let sh = |z: int| a(2 * l + z);
    assert forall|z: int| 0 <= z < 4 * n implies #[trigger] sh(z) == 0 by {}
    lemma_total_zero(sh, 4 * n);
}

/// A listed edge is used up exactly when its capacity fell from one.
proof fn lemma_used_link(e0: Seq<Edge>, fin: Seq<Edge>, n: int, listed: Seq<(int, int)>, f: int, x: int)
    requires
        orders_shaped(fin, e0, n, listed),
        flow_facts(e0, fin, f, 2 * n, 2 * n + 1),
        0 <= x < 2 * listed.len(),
        x % 2 == 1,
    ensures
        (if fin[x].capacity == Capacity::Finite(0) { 1int } else { 0int }) == finite_part(e0[x].capacity) - finite_part(
            fin[x].capacity,
        ),
        finite_part(e0[x].capacity) == 1,
{
    let k = x / 2;
    assert(x == 2 * k + 1);
    assert(link_ok(e0, n, listed, k));
    assert(rev(x) == x - 1);
    assert(!unbounded(e0[x]) && !unbounded(e0[x - 1]));
    assert(!unbounded(fin[x]) && !unbounded(fin[x - 1]));
    assert(pair_sum(fin, x) == pair_sum(e0, x));
}

/// Two used-up listed edges from one order, or into one order's copy, are
/// the same edge.
proof fn lemma_used_once(e0: Seq<Edge>, fin: Seq<Edge>, n: int, listed: Seq<(int, int)>, f: int, xa: int, xb: int, from: bool)
    requires
        orders_shaped(fin, e0, n, listed),
        orders_shaped(e0, e0, n, listed),
        flow_facts(e0, fin, f, 2 * n, 2 * n + 1),
        0 <= xa < xb < 2 * listed.len(),
        xa % 2 == 1,
        xb % 2 == 1,
        from ==> listed[xa / 2].0 == listed[xb / 2].0,
        !from ==> listed[xa / 2].1 == listed[xb / 2].1,
        fin[xa].capacity == Capacity::Finite(0),
    ensures
        fin[xb].capacity != Capacity::Finite(0),
{
    let l = listed.len() as int;
    let sn = 2 * n;
    let tn = sn + 1;
    assert(0 <= listed[xa / 2].0 < n && 0 <= listed[xa / 2].1 < n);
    let (x, y) = if from {
        let i = listed[xa / 2].0;
        lemma_out_balance(fin, e0, n, listed, i);
        lemma_out_balance(e0, e0, n, listed, i);
        assert(order_ok(e0, 2 * l + 4 * i, n, i));
        assert(!unbounded(fin[2 * l + 4 * i + 1]));
        (set![sn], set![sn].insert(i))
    } else {
        let j = listed[xa / 2].1;
        lemma_in_balance(fin, e0, n, listed, j);
        lemma_in_balance(e0, e0, n, listed, j);
        assert(order_ok(e0, 2 * l + 4 * j, n, j));
        assert(!unbounded(fin[2 * l + 4 * j + 3]));
        (orders_side(n), orders_side(n).insert(n + j))
    };
    assert(separates(x, sn, tn) && separates(y, sn, tn));
    assert(cut_finite(e0, x) && cut_finite(e0, y));
    assert(cut_value(fin, x) + f == cut_value(e0, x));
    assert(cut_value(fin, y) + f == cut_value(e0, y));
    let sel = |z: int| if from { listed[z / 2].0 == listed[xa / 2].0 } else { listed[z / 2].1 == listed[xa / 2].1 };
    let ind = |z: int| used(fin, z, sel(z));
    let t0 = if from { worker_term(e0, listed, listed[xa / 2].0) } else { job_term(e0, listed, listed[xa / 2].1) };
    let t1 = if from { worker_term(fin, listed, listed[xa / 2].0) } else { job_term(fin, listed, listed[xa / 2].1) };
    assert forall|z: int| 0 <= z < 2 * l implies #[trigger] ind(z) == t0(z) - t1(z) by {
        if z % 2 == 1 {
            lemma_used_link(e0, fin, n, listed, f, z);
        }
    }
    lemma_total_sub(ind, t0, t1, 2 * l);
    if fin[xb].capacity == Capacity::Finite(0) {
        assert forall|z: int| 0 <= z < 2 * l implies #[trigger] ind(z) >= 0 by {}
        lemma_total_two(ind, xa, xb, 2 * l);
    }
}

/// As many listed edges are used up as the flow pushed.
proof fn lemma_used_total(e0: Seq<Edge>, fin: Seq<Edge>, n: int, listed: Seq<(int, int)>, f: int)
    requires
        orders_shaped(fin, e0, n, listed),
        orders_shaped(e0, e0, n, listed),
        flow_facts(e0, fin, f, 2 * n, 2 * n + 1),
    ensures
        total(|x: int| used(fin, x, true), 2 * (listed.len() as int)) == f,
{
    let l = listed.len() as int;
    let w = orders_side(n);
    lemma_orders_side_value(fin, e0, n, listed);
    lemma_orders_side_value(e0, e0, n, listed);
    assert(separates(w, 2 * n, 2 * n + 1));
    assert(cut_finite(e0, w));
    assert(cut_value(fin, w) + f == cut_value(e0, w));
    let ind = |x: int| used(fin, x, true);
    let a = listed_term(e0);
    let b = listed_term(fin);
    assert forall|x: int| 0 <= x < 2 * l implies #[trigger] ind(x) == a(x) - b(x) by {
        if x % 2 == 1 {
            lemma_used_link(e0, fin, n, listed, f, x);
        }
    }
    lemma_total_sub(ind, a, b, 2 * l);
}

/// The listed edge at `x` is used up by the flow.
pub open spec fn link_used(fin: Seq<Edge>, listed: Seq<(int, int)>, x: int) -> bool {
    0 <= x < 2 * listed.len() && x % 2 == 1 && fin[x].capacity == Capacity::Finite(0)
}

/// Order `i` is followed by another in the flow.
pub open spec fn has_next(fin: Seq<Edge>, listed: Seq<(int, int)>, i: int) -> bool {
    exists|x: int| #[trigger] link_used(fin, listed, x) && listed[x / 2].0 == i
}

/// The order that follows order `i` in the flow.
pub open spec fn next_of(fin: Seq<Edge>, listed: Seq<(int, int)>, i: int) -> int {
    listed[(choose|x: int| #[trigger] link_used(fin, listed, x) && listed[x / 2].0 == i) / 2].1
}

/// The order reached from `v` after `k` steps along the flow, staying at the
/// last order of its chain.
pub open spec fn chain(fin: Seq<Edge>, listed: Seq<(int, int)>, v: int, k: int) -> int
    decreases k,
{
    if k <= 0 {
        v
    } else {
        let c = chain(fin, listed, v, k - 1);
        if has_next(fin, listed, c) {
            next_of(fin, listed, c)
        } else {
            c
        }
    }
}

/// What the flow says of the orders: the used listed edges leave each
/// order and enter each order's copy at most once, and join orders that can
/// follow one another.
pub open spec fn flow_links(orders: Seq<Order>, fin: Seq<Edge>, listed: Seq<(int, int)>) -> bool {
    &&& forall|k: int|
        0 <= k < listed.len() ==> {
            &&& 0 <= (#[trigger] listed[k]).0 < orders.len()
            &&& 0 <= listed[k].1 < orders.len()
            &&& can_precede(orders[listed[k].0], orders[listed[k].1])
        }
    &&& forall|xa: int, xb: int|
        #[trigger] link_used(fin, listed, xa) && #[trigger] link_used(fin, listed, xb) && listed[xa / 2].0 == listed[xb
            / 2].0 ==> xa == xb
    &&& forall|xa: int, xb: int|
        #[trigger] link_used(fin, listed, xa) && #[trigger] link_used(fin, listed, xb) && listed[xa / 2].1 == listed[xb
            / 2].1 ==> xa == xb
}

/// The order that follows another starts later, and the used edge from an
/// order leads to the order that follows it.
proof fn lemma_next(orders: Seq<Order>, fin: Seq<Edge>, listed: Seq<(int, int)>, i: int)
    requires
        flow_links(orders, fin, listed),
        has_next(fin, listed, i),
    ensures
        0 <= next_of(fin, listed, i) < orders.len(),
        0 <= i < orders.len(),
        orders[i].epoch < orders[next_of(fin, listed, i)].epoch,
        can_precede(orders[i], orders[next_of(fin, listed, i)]),
        forall|x: int| #[trigger] link_used(fin, listed, x) && listed[x / 2].0 == i ==> listed[x / 2].1 == next_of(fin, listed, i),
{
    let x = choose|x: int| #[trigger] link_used(fin, listed, x) && listed[x / 2].0 == i;
    assert(0 <= x / 2 < listed.len());
    assert(can_precede(orders[listed[x / 2].0], orders[listed[x / 2].1]));
    assert forall|x2: int| #[trigger] link_used(fin, listed, x2) && listed[x2 / 2].0 == i implies listed[x2 / 2].1 == next_of(
        fin,
        listed,
        i,
    ) by {
        assert(x2 == x);
    }
}

/// A chain stays on orders, and once at an order with nothing after it stays
/// there.
proof fn lemma_chain_basic(orders: Seq<Order>, fin: Seq<Edge>, listed: Seq<(int, int)>, v: int, k: int)
    requires
        flow_links(orders, fin, listed),
        0 <= v < orders.len(),
        0 <= k,
    ensures
        0 <= chain(fin, listed, v, k) < orders.len(),
        !has_next(fin, listed, v) ==> chain(fin, listed, v, k) == v,
    decreases k,
{
    if k > 0 {
        lemma_chain_basic(orders, fin, listed, v, k - 1);
        let c = chain(fin, listed, v, k - 1);
        if has_next(fin, listed, c) {
            lemma_next(orders, fin, listed, c);
        }
    }
}

/// Following the flow from `v` for `k` steps without reaching the end of the
/// chain passes later and later orders.
proof fn lemma_chain_rises(orders: Seq<Order>, fin: Seq<Edge>, listed: Seq<(int, int)>, v: int, a: int, b: int)
    requires
        flow_links(orders, fin, listed),
        0 <= v < orders.len(),
        0 <= a < b,
        forall|k: int| 0 <= k < b ==> #[trigger] has_next(fin, listed, chain(fin, listed, v, k)),
    ensures
        orders[chain(fin, listed, v, a)].epoch < orders[chain(fin, listed, v, b)].epoch,
    decreases b - a,
{
    lemma_chain_basic(orders, fin, listed, v, b - 1);
    let c = chain(fin, listed, v, b - 1);
    assert(has_next(fin, listed, c));
    lemma_next(orders, fin, listed, c);
    if a < b - 1 {
        lemma_chain_rises(orders, fin, listed, v, a, b - 1);
    }
}

/// Within `n - 1` steps every chain reaches an order with nothing after it,
/// and stays there.
proof fn lemma_chain_ends(orders: Seq<Order>, fin: Seq<Edge>, listed: Seq<(int, int)>, v: int, k: int)
    requires
        flow_links(orders, fin, listed),
        0 <= v < orders.len(),
        orders.len() - 1 <= k,
    ensures
        !has_next(fin, listed, chain(fin, listed, v, k)),
        chain(fin, listed, v, k) == chain(fin, listed, v, orders.len() - 1),
    decreases k,
{
    let n = orders.len() as int;
    if k > n - 1 {
        lemma_chain_ends(orders, fin, listed, v, k - 1);
    } else {
        if has_next(fin, listed, chain(fin, listed, v, n - 1)) {
            assert forall|j: int| 0 <= j < n implies #[trigger] has_next(fin, listed, chain(fin, listed, v, j)) by {
                if !has_next(fin, listed, chain(fin, listed, v, j)) {
                    lemma_chain_stays(orders, fin, listed, v, j, n - 1);
                }
            }
            let w = Seq::new(n as nat, |j: int| chain(fin, listed, v, j));
            assert forall|j: int| 0 <= j < n implies 0 <= #[trigger] w[j] < n by {
                lemma_chain_basic(orders, fin, listed, v, j);
            }
            assert forall|a: int, b: int| 0 <= a < b < n implies w[a] != w[b] by {
                lemma_chain_rises(orders, fin, listed, v, a, b);
            }
            crate::task_l::lemma_pigeonhole(w, n);
            lemma_chain_basic(orders, fin, listed, v, n);
            let last = chain(fin, listed, v, n);
            assert(w.contains(last));
            let j = choose|j: int| 0 <= j < w.len() && w[j] == last;
            assert forall|q: int| 0 <= q < n + 1 implies #[trigger] has_next(fin, listed, chain(fin, listed, v, q)) by {
                if q == n {
                    assert(chain(fin, listed, v, n) == w[j]);
                    assert(has_next(fin, listed, chain(fin, listed, v, j)));
                }
            }
            lemma_chain_rises(orders, fin, listed, v, j, n);
        }
    }
}

/// Once a chain reaches an order with nothing after it, it stays there.
proof fn lemma_chain_stays(orders: Seq<Order>, fin: Seq<Edge>, listed: Seq<(int, int)>, v: int, a: int, b: int)
    requires
        flow_links(orders, fin, listed),
        0 <= v < orders.len(),
        0 <= a <= b,
        !has_next(fin, listed, chain(fin, listed, v, a)),
    ensures
        chain(fin, listed, v, b) == chain(fin, listed, v, a),
    decreases b - a,
{
    if a < b {
        lemma_chain_stays(orders, fin, listed, v, a, b - 1);
    }
}

/// The chain from an order with a follower, one step on, is the chain from
/// the follower.
proof fn lemma_chain_shift(orders: Seq<Order>, fin: Seq<Edge>, listed: Seq<(int, int)>, u: int, k: int)
    requires
        flow_links(orders, fin, listed),
        has_next(fin, listed, u),
        0 <= k,
    ensures
        chain(fin, listed, u, k + 1) == chain(fin, listed, next_of(fin, listed, u), k),
    decreases k,
{
    if k > 0 {
        lemma_chain_shift(orders, fin, listed, u, k - 1);
        let w = next_of(fin, listed, u);
        assert(chain(fin, listed, u, k) == chain(fin, listed, w, k - 1));
    } else {
        reveal_with_fuel(chain, 2);
    }
}

/// The end of the chain of an order.
pub open spec fn chain_end(orders: Seq<Order>, fin: Seq<Edge>, listed: Seq<(int, int)>, v: int) -> int {
    chain(fin, listed, v, orders.len() - 1)
}

/// An order and the one that follows it end the same chain.
proof fn lemma_end_shared(orders: Seq<Order>, fin: Seq<Edge>, listed: Seq<(int, int)>, u: int)
    requires
        flow_links(orders, fin, listed),
        has_next(fin, listed, u),
    ensures
        chain_end(orders, fin, listed, u) == chain_end(orders, fin, listed, next_of(fin, listed, u)),
        !has_next(fin, listed, chain_end(orders, fin, listed, u)),
{
    let n = orders.len() as int;
    lemma_next(orders, fin, listed, u);
    let w = next_of(fin, listed, u);
    lemma_chain_shift(orders, fin, listed, u, n - 1);
    lemma_chain_ends(orders, fin, listed, u, n);
    lemma_chain_ends(orders, fin, listed, w, n - 1);
    lemma_chain_ends(orders, fin, listed, u, n - 1);
}

/// Each edge of the graph of chains joins the ends of a used listed edge,
/// one way or the other.
#[verifier::opaque]
pub open spec fn graph_edges_linked(ge: Seq<Edge>, fin: Seq<Edge>, listed: Seq<(int, int)>) -> bool {
    forall|y: int| 0 <= y < ge.len() ==> #[trigger] edge_linked(ge, fin, listed, y)
}

/// Edge `y` joins the ends of a used listed edge, one way or the other.
pub open spec fn edge_linked(ge: Seq<Edge>, fin: Seq<Edge>, listed: Seq<(int, int)>, y: int) -> bool {
    exists|x: int|
        #[trigger] link_used(fin, listed, x) && ((ge[y].node1 == listed[x / 2].0 && ge[y].node2 == listed[x / 2].1) || (
        ge[y].node1 == listed[x / 2].1 && ge[y].node2 == listed[x / 2].0))
}

/// Each used listed edge has an edge of the graph of chains from its order
/// to the order that follows.
#[verifier::opaque]
pub open spec fn links_forward(ge: Seq<Edge>, fin: Seq<Edge>, listed: Seq<(int, int)>) -> bool {
    forall|x: int|
        #[trigger] link_used(fin, listed, x) ==> exists|y: int|
            0 <= y < ge.len() && #[trigger] ge[y].node1 == listed[x / 2].0 && ge[y].node2 == listed[x / 2].1
}

/// Each used listed edge has an edge of the graph of chains back from the
/// order that follows to its order.
#[verifier::opaque]
pub open spec fn links_backward(ge: Seq<Edge>, fin: Seq<Edge>, listed: Seq<(int, int)>) -> bool {
    forall|x: int|
        #[trigger] link_used(fin, listed, x) ==> exists|y: int|
            0 <= y < ge.len() && #[trigger] ge[y].node1 == listed[x / 2].1 && ge[y].node2 == listed[x / 2].0
}

/// The edges of the graph of chains are the used listed edges, both ways.
pub open spec fn chain_graph(ge: Seq<Edge>, fin: Seq<Edge>, listed: Seq<(int, int)>) -> bool {
    &&& graph_edges_linked(ge, fin, listed)
    &&& links_forward(ge, fin, listed)
    &&& links_backward(ge, fin, listed)
}

/// The used listed edge that an edge of the graph of chains joins.
proof fn lemma_graph_edge(fin: Seq<Edge>, listed: Seq<(int, int)>, ge: Seq<Edge>, y: int) -> (x: int)
    requires
        chain_graph(ge, fin, listed),
        0 <= y < ge.len(),
    ensures
        link_used(fin, listed, x),
        (ge[y].node1 == listed[x / 2].0 && ge[y].node2 == listed[x / 2].1) || (ge[y].node1 == listed[x / 2].1
            && ge[y].node2 == listed[x / 2].0),
{
    reveal(graph_edges_linked);
    assert(edge_linked(ge, fin, listed, y));
    choose|x: int|
        #[trigger] link_used(fin, listed, x) && ((ge[y].node1 == listed[x / 2].0 && ge[y].node2 == listed[x / 2].1) || (
        ge[y].node1 == listed[x / 2].1 && ge[y].node2 == listed[x / 2].0))
}

/// The edges of the graph of chains along a used listed edge, forward and
/// back.
proof fn lemma_link_edges(fin: Seq<Edge>, listed: Seq<(int, int)>, ge: Seq<Edge>, x: int) -> (yz: (int, int))
    requires
        chain_graph(ge, fin, listed),
        link_used(fin, listed, x),
    ensures
        0 <= yz.0 < ge.len(),
        ge[yz.0].node1 == listed[x / 2].0,
        ge[yz.0].node2 == listed[x / 2].1,
        0 <= yz.1 < ge.len(),
        ge[yz.1].node1 == listed[x / 2].1,
        ge[yz.1].node2 == listed[x / 2].0,
{
    reveal(links_forward);
    reveal(links_backward);
    let y = choose|y: int| 0 <= y < ge.len() && #[trigger] ge[y].node1 == listed[x / 2].0 && ge[y].node2 == listed[x / 2].1;
    let z = choose|z: int| 0 <= z < ge.len() && #[trigger] ge[z].node1 == listed[x / 2].1 && ge[z].node2 == listed[x / 2].0;
    (y, z)
}

/// Both ends of an edge of the graph of chains end the same chain.
proof fn lemma_edge_same_end(orders: Seq<Order>, fin: Seq<Edge>, listed: Seq<(int, int)>, ge: Seq<Edge>, y: int)
    requires
        flow_links(orders, fin, listed),
        chain_graph(ge, fin, listed),
        0 <= y < ge.len(),
    ensures
        chain_end(orders, fin, listed, ge[y].node1 as int) == chain_end(orders, fin, listed, ge[y].node2 as int),
{
    let x = lemma_graph_edge(fin, listed, ge, y);
    let a = listed[x / 2].0;
    assert(has_next(fin, listed, a));
    lemma_next(orders, fin, listed, a);
    lemma_end_shared(orders, fin, listed, a);
}

/// Every walk in the graph of chains stays within one chain.
proof fn lemma_walk_same_end(
    orders: Seq<Order>,
    fin: Seq<Edge>,
    listed: Seq<(int, int)>,
    ge: Seq<Edge>,
    p: Seq<int>,
    s0: int,
    t0: int,
    k: int,
)
    requires
        flow_links(orders, fin, listed),
        chain_graph(ge, fin, listed),
        is_walk(ge, p, s0, t0, |e: Edge| true),
        0 <= k <= p.len(),
    ensures
        chain_end(orders, fin, listed, s0) == chain_end(
            orders,
            fin,
            listed,
            if k == 0 { s0 } else { ge[p[k - 1]].node2 as int },
        ),
    decreases k,
{
    if k > 0 {
        lemma_walk_same_end(orders, fin, listed, ge, p, s0, t0, k - 1);
        assert(0 <= p[k - 1] < ge.len());
        lemma_edge_same_end(orders, fin, listed, ge, p[k - 1]);
        if k - 1 > 0 {
            assert(ge[p[k - 2]].node2 == ge[p[k - 1]].node1);
        }
    }
}

/// The marks are closed under the edges of the graph of chains.
pub open spec fn marks_closed(ge: Seq<Edge>, marks: Seq<bool>) -> bool {
    forall|y: int| 0 <= y < ge.len() && marks[(#[trigger] ge[y]).node1 as int] ==> marks[ge[y].node2 as int]
}

/// From an unmarked order the walk along its chain reaches the chain's end
/// through unmarked orders only.
proof fn lemma_reach_end(
    orders: Seq<Order>,
    fin: Seq<Edge>,
    listed: Seq<(int, int)>,
    ge: Seq<Edge>,
    marks: Seq<bool>,
    i: int,
    k: int,
)
    requires
        flow_links(orders, fin, listed),
        chain_graph(ge, fin, listed),
                marks.len() == orders.len(),
        marks_closed(ge, marks),
        0 <= i < orders.len(),
        !marks[i],
        0 <= k,
    ensures
        reachable_avoiding(ge, i, chain(fin, listed, i, k), |e: Edge| true, marks),
        !marks[chain(fin, listed, i, k)],
    decreases k,
{
    let any = |e: Edge| true;
    if k == 0 {
        assert(is_walk(ge, Seq::<int>::empty(), i, i, any));
    } else {
        lemma_reach_end(orders, fin, listed, ge, marks, i, k - 1);
        let c = chain(fin, listed, i, k - 1);
        if has_next(fin, listed, c) {
            lemma_reach_step(orders, fin, listed, ge, marks, i, c);
        }
    }
}

/// One step along a chain keeps the walk through unmarked orders.
proof fn lemma_reach_step(
    orders: Seq<Order>,
    fin: Seq<Edge>,
    listed: Seq<(int, int)>,
    ge: Seq<Edge>,
    marks: Seq<bool>,
    i: int,
    c: int,
)
    requires
        flow_links(orders, fin, listed),
        chain_graph(ge, fin, listed),
                marks.len() == orders.len(),
        marks_closed(ge, marks),
        reachable_avoiding(ge, i, c, |e: Edge| true, marks),
        !marks[c],
        has_next(fin, listed, c),
    ensures
        reachable_avoiding(ge, i, next_of(fin, listed, c), |e: Edge| true, marks),
        !marks[next_of(fin, listed, c)],
{
    let any = |e: Edge| true;
    lemma_next(orders, fin, listed, c);
    let x = choose|x: int| #[trigger] link_used(fin, listed, x) && listed[x / 2].0 == c;
    let (y, z) = lemma_link_edges(fin, listed, ge, x);
    assert(ge[y].node2 == next_of(fin, listed, c));
    assert(!marks[ge[y].node2 as int]) by {
        if marks[ge[y].node2 as int] {
            assert(marks[ge[z].node1 as int]);
        }
    }
    lemma_reachable_avoiding_extend(ge, i, y, any, marks);
}

/// One for a marked order with nothing after it.
pub open spec fn marked_end(fin: Seq<Edge>, listed: Seq<(int, int)>, marks: Seq<bool>) -> spec_fn(int) -> int {
    |v: int| if marks[v] && !has_next(fin, listed, v) { 1int } else { 0int }
}

/// Marking all that an unmarked order reaches keeps the marks closed and
/// marks exactly one more end of a chain.
proof fn lemma_mark_step(
    orders: Seq<Order>,
    fin: Seq<Edge>,
    listed: Seq<(int, int)>,
    ge: Seq<Edge>,
    old_marks: Seq<bool>,
    new_marks: Seq<bool>,
    i: int,
)
    requires
        flow_links(orders, fin, listed),
        chain_graph(ge, fin, listed),
        nodes_below(ge, orders.len() as int),
        old_marks.len() == orders.len(),
        new_marks.len() == orders.len(),
        marks_closed(ge, old_marks),
        0 <= i < orders.len(),
        !old_marks[i],
        forall|v: int|
            0 <= v < orders.len() ==> #[trigger] new_marks[v] == (old_marks[v] || reachable_avoiding(
                ge,
                i,
                v,
                |e: Edge| true,
                old_marks,
            )),
    ensures
        marks_closed(ge, new_marks),
        total(marked_end(fin, listed, new_marks), orders.len() as int) == total(
            marked_end(fin, listed, old_marks),
            orders.len() as int,
        ) + 1,
{
    let n = orders.len() as int;
    let any = |e: Edge| true;
    assert forall|y: int| 0 <= y < ge.len() && new_marks[(#[trigger] ge[y]).node1 as int] implies new_marks[ge[y].node2
        as int] by {
        let u = ge[y].node1 as int;
        let v = ge[y].node2 as int;
        assert(0 <= u < n && 0 <= v < n);
        if !old_marks[u] {
            assert(reachable_avoiding(ge, i, u, any, old_marks));
            if !old_marks[v] {
                lemma_reachable_avoiding_extend(ge, i, y, any, old_marks);
            }
        }
    }
    let end = chain_end(orders, fin, listed, i);
    lemma_reach_end(orders, fin, listed, ge, old_marks, i, n - 1);
    lemma_chain_ends(orders, fin, listed, i, n - 1);
    lemma_chain_basic(orders, fin, listed, i, n - 1);
    let a = marked_end(fin, listed, new_marks);
    let b = marked_end(fin, listed, old_marks);
    let pt = |v: int| if v == end { 1int } else { 0int };
    assert forall|v: int| 0 <= v < n implies #[trigger] a(v) == b(v) + pt(v) - 0int by {
        if v == end {
            assert(new_marks[v]);
        } else if new_marks[v] && !old_marks[v] && !has_next(fin, listed, v) {
            assert(reachable_avoiding(ge, i, v, any, old_marks));
            let p = choose|p: Seq<int>|
                {
                    &&& is_walk(ge, p, i, v, any)
                    &&& !old_marks[i]
                    &&& forall|k: int| 0 <= k < p.len() ==> !old_marks[ge[#[trigger] p[k]].node2 as int]
                };
            lemma_walk_same_end(orders, fin, listed, ge, p, i, v, p.len() as int);
            lemma_chain_basic(orders, fin, listed, v, n - 1);
        }
    }
    let zero = |v: int| 0int;
    assert forall|v: int| 0 <= v < n implies #[trigger] a(v) >= b(v) + pt(v) - zero(v) by {
        assert(a(v) == b(v) + pt(v) - 0int);
    }
    assert forall|v: int| 0 <= v < n implies #[trigger] a(v) == b(v) + pt(v) - zero(v) by {
        assert(a(v) == b(v) + pt(v) - 0int);
    }
    lemma_total_combine(a, b, pt, zero, n);
    lemma_total_zero(zero, n);
    lemma_total_point(1, end, n);
}

/// `next` gives, for each order, the order that the same taxi serves next,
/// or `-1` where that taxi serves no more: each next order can be reached in
/// time, and no order comes next after two orders.
pub open spec fn is_plan(orders: Seq<Order>, next: Seq<int>) -> bool {
    &&& next.len() == orders.len()
    &&& forall|i: int|
        0 <= i < next.len() ==> #[trigger] next[i] == -1 || (0 <= next[i] < orders.len() && can_precede(
            orders[i],
            orders[next[i]],
        ))
    &&& forall|i: int, j: int|
        0 <= i < next.len() && 0 <= j < next.len() && i != j && next[i] != -1 ==> #[trigger] next[i]
            != #[trigger] next[j]
}

/// The orders after which a plan has its taxi serve another.
pub open spec fn has_link(next: Seq<int>) -> spec_fn(int) -> bool {
    |i: int| next[i] != -1
}

/// The taxis that a plan needs: one for each order that comes next after
/// no other.
pub open spec fn taxis(next: Seq<int>) -> int {
    next.len() - total(indicator(has_link(next)), next.len() as int)
}

/// The listed pair `(i, j)`.
spec fn listed_index(listed: Seq<(int, int)>, i: int, j: int) -> int {
    choose|k: int| 0 <= k < listed.len() && listed[k] == (i, j)
}

/// The first edge on the way source, order `i`, copy of order `j`, sink that
/// leaves the cut.
spec fn plan_cross(listed: Seq<(int, int)>, n: int, cut: Set<int>, i: int, j: int) -> int {
    let l = listed.len() as int;
    if !cut.contains(i) {
        2 * l + 4 * i + 1
    } else if !cut.contains(n + j) {
        2 * listed_index(listed, i, j) + 1
    } else {
        2 * l + 4 * j + 3
    }
}

/// Every cut that separates the source from the sink carries out at least
/// as much as any plan has orders followed by another.
proof fn lemma_plan_covers(
    e0: Seq<Edge>,
    n: int,
    listed: Seq<(int, int)>,
    orders: Seq<Order>,
    next: Seq<int>,
    cut: Set<int>,
)
    requires
        orders_shaped(e0, e0, n, listed),
        listed_links(orders, listed),
        orders.len() == n,
        is_plan(orders, next),
        separates(cut, 2 * n, 2 * n + 1),
    ensures
        cut_value(e0, cut) >= total(indicator(has_link(next)), n),
{
    let l = listed.len() as int;
    let len = e0.len() as int;
    let none = Set::<int>::empty();
    lemma_cut_diff(e0, none, cut, len);
    lemma_cut_sum_zero_set(e0, len);
    let g = |x: int| cut_weight(e0[x], cut) - cut_weight(e0[x], none);
    let b = has_link(next);
    let idx = |i: int| plan_cross(listed, n, cut, i, next[i]);
    assert forall|i: int| 0 <= i < n && #[trigger] b(i) implies {
        &&& 0 <= idx(i) < len
        &&& g(idx(i)) >= 1
        &&& 0 <= listed_index(listed, i, next[i]) < l
        &&& listed[listed_index(listed, i, next[i])] == (i, next[i])
        &&& 0 <= next[i] < n
    } by {
        let j = next[i];
        assert(next[i] == -1 || (0 <= next[i] < n && can_precede(orders[i], orders[next[i]])));
        assert(can_precede(orders[i], orders[j]));
        assert(listed.contains((i, j)));
        let k = listed_index(listed, i, j);
        assert(0 <= k < l && listed[k] == (i, j));
        assert(link_ok(e0, n, listed, k));
        assert(order_ok(e0, 2 * l + 4 * i, n, i));
        assert(order_ok(e0, 2 * l + 4 * j, n, j));
    }
    assert forall|i: int, i2: int|
        0 <= i < n && 0 <= i2 < n && i != i2 && b(i) && b(i2) implies #[trigger] idx(i) != #[trigger] idx(i2) by {
        assert(b(i) && b(i2));
        assert(next[i] != next[i2]);
        assert(0 <= listed_index(listed, i, next[i]) < l);
        assert(0 <= listed_index(listed, i2, next[i2]) < l);
    }
    assert forall|x: int| 0 <= x < len implies #[trigger] g(x) >= 0 by {}
    lemma_total_injective_where(g, b, idx, n, len);
}

/// The orders that are followed by another in the flow.
pub open spec fn followed(fin: Seq<Edge>, listed: Seq<(int, int)>) -> spec_fn(int) -> bool {
    |v: int| has_next(fin, listed, v)
}

/// The used-up listed edges.
pub open spec fn used_links(fin: Seq<Edge>, listed: Seq<(int, int)>) -> spec_fn(int) -> bool {
    |x: int| link_used(fin, listed, x)
}

/// No more listed edges are used up than orders are followed by another.
proof fn lemma_used_le_followed(orders: Seq<Order>, fin: Seq<Edge>, listed: Seq<(int, int)>)
    requires
        flow_links(orders, fin, listed),
    ensures
        total(|x: int| used(fin, x, true), 2 * (listed.len() as int)) <= total(
            indicator(followed(fin, listed)),
            orders.len() as int,
        ),
{
    let l = listed.len() as int;
    let n = orders.len() as int;
    let u = |x: int| used(fin, x, true);
    let b = used_links(fin, listed);
    let ib = indicator(b);
    assert forall|x: int| 0 <= x < 2 * l implies #[trigger] u(x) == ib(x) by {}
    lemma_total_congruent(u, ib, 2 * l);
    let g = indicator(followed(fin, listed));
    let idx = |x: int| listed[x / 2].0;
    assert forall|x: int| 0 <= x < 2 * l && #[trigger] b(x) implies 0 <= idx(x) < n && g(idx(x)) >= 1 by {
        assert(link_used(fin, listed, x));
        assert(0 <= x / 2 < l);
        assert(0 <= listed[x / 2].0 < n);
        assert(has_next(fin, listed, listed[x / 2].0));
    }
    assert forall|x: int, y: int|
        0 <= x < 2 * l && 0 <= y < 2 * l && x != y && b(x) && b(y) implies #[trigger] idx(x) != #[trigger] idx(y) by {
        assert(link_used(fin, listed, x) && link_used(fin, listed, y));
    }
    assert forall|v: int| 0 <= v < n implies #[trigger] g(v) >= 0 by {}
    lemma_total_injective_where(g, b, idx, 2 * l, n);
}

/// The plan that follows the flow: each order is followed by the order that
/// follows it in the flow, where there is one.
pub open spec fn flow_plan(n: int, fin: Seq<Edge>, listed: Seq<(int, int)>) -> Seq<int> {
    Seq::new(n as nat, |v: int| if has_next(fin, listed, v) { next_of(fin, listed, v) } else { -1 })
}

/// The plan that follows the flow is a plan, with a link from each order
/// that is followed by another.
proof fn lemma_flow_plan(orders: Seq<Order>, fin: Seq<Edge>, listed: Seq<(int, int)>)
    requires
        flow_links(orders, fin, listed),
    ensures
        is_plan(orders, flow_plan(orders.len() as int, fin, listed)),
        taxis(flow_plan(orders.len() as int, fin, listed)) == orders.len() - total(
            indicator(followed(fin, listed)),
            orders.len() as int,
        ),
{
    let n = orders.len() as int;
    let next = flow_plan(n, fin, listed);
    assert forall|i: int| 0 <= i < next.len() implies #[trigger] next[i] == -1 || (0 <= next[i] < orders.len()
        && can_precede(orders[i], orders[next[i]])) by {
        if has_next(fin, listed, i) {
            lemma_next(orders, fin, listed, i);
        }
    }
    assert forall|i: int, j: int|
        0 <= i < next.len() && 0 <= j < next.len() && i != j && next[i] != -1 implies #[trigger] next[i]
        != #[trigger] next[j] by {
        if has_next(fin, listed, i) && has_next(fin, listed, j) && next_of(fin, listed, i) == next_of(fin, listed, j) {
            let xa = choose|x: int| #[trigger] link_used(fin, listed, x) && listed[x / 2].0 == i;
            let xb = choose|x: int| #[trigger] link_used(fin, listed, x) && listed[x / 2].0 == j;
            assert(listed[xa / 2].1 == listed[xb / 2].1);
            assert(xa == xb);
        }
        if has_next(fin, listed, i) {
            lemma_next(orders, fin, listed, i);
        }
    }
    let a = indicator(has_link(next));
    let c = indicator(followed(fin, listed));
    assert forall|v: int| 0 <= v < n implies #[trigger] a(v) == c(v) by {
        if has_next(fin, listed, v) {
            lemma_next(orders, fin, listed, v);
        }
    }
    lemma_total_congruent(a, c, n);
}

/// The used-up listed edges leave each order and enter each order's copy at
/// most once.
proof fn lemma_flow_links(
    orders: Seq<Order>,
    e0: Seq<Edge>,
    fin: Seq<Edge>,
    n: int,
    listed: Seq<(int, int)>,
    f: int,
)
    requires
        orders_shaped(fin, e0, n, listed),
        orders_shaped(e0, e0, n, listed),
        flow_facts(e0, fin, f, 2 * n, 2 * n + 1),
        listed_links(orders, listed),
        orders.len() == n,
    ensures
        flow_links(orders, fin, listed),
{
    assert forall|xa: int, xb: int|
        #[trigger] link_used(fin, listed, xa) && #[trigger] link_used(fin, listed, xb) && listed[xa / 2].0 == listed[xb
            / 2].0 implies xa == xb by {
        if xa < xb {
            lemma_used_once(e0, fin, n, listed, f, xa, xb, true);
        } else if xb < xa {
            lemma_used_once(e0, fin, n, listed, f, xb, xa, true);
        }
    }
    assert forall|xa: int, xb: int|
        #[trigger] link_used(fin, listed, xa) && #[trigger] link_used(fin, listed, xb) && listed[xa / 2].1 == listed[xb
            / 2].1 implies xa == xb by {
        if xa < xb {
            lemma_used_once(e0, fin, n, listed, f, xa, xb, false);
        } else if xb < xa {
            lemma_used_once(e0, fin, n, listed, f, xb, xa, false);
        }
    }
}

/// The requirements of the graph of chains, read off the used-up listed
/// edges: `ge` has the pair of edges `2 * q`, `2 * q + 1` for the used-up
/// listed edge `xs[q]`, and every used-up listed edge is among them.
pub open spec fn read_off(fin: Seq<Edge>, listed: Seq<(int, int)>, ge: Seq<Edge>, xs: Seq<int>) -> bool {
    &&& ge.len() == 2 * xs.len()
    &&& forall|q: int|
        0 <= q < xs.len() ==> {
            &&& link_used(fin, listed, #[trigger] xs[q])
            &&& ge[2 * q + 1].node1 == listed[xs[q] / 2].0
            &&& ge[2 * q + 1].node2 == listed[xs[q] / 2].1
            &&& ge[2 * q].node1 == listed[xs[q] / 2].1
            &&& ge[2 * q].node2 == listed[xs[q] / 2].0
        }
    &&& forall|x: int| #[trigger] link_used(fin, listed, x) ==> exists|q: int| 0 <= q < xs.len() && xs[q] == x
}

/// Each edge read off the used-up listed edges joins the ends of one.
proof fn lemma_read_off_linked(fin: Seq<Edge>, listed: Seq<(int, int)>, ge: Seq<Edge>, xs: Seq<int>)
    requires
        read_off(fin, listed, ge, xs),
    ensures
        graph_edges_linked(ge, fin, listed),
{
    reveal(graph_edges_linked);
    assert forall|y: int| 0 <= y < ge.len() implies #[trigger] edge_linked(ge, fin, listed, y) by {
        let q = y / 2;
        assert(0 <= q < xs.len());
        let x = xs[q];
        assert(link_used(fin, listed, x));
        if y % 2 == 1 {
            assert(y == 2 * q + 1);
        } else {
            assert(y == 2 * q);
        }
    }
}

/// Each used-up listed edge is read off forward.
proof fn lemma_read_off_forward(fin: Seq<Edge>, listed: Seq<(int, int)>, ge: Seq<Edge>, xs: Seq<int>)
    requires
        read_off(fin, listed, ge, xs),
    ensures
        links_forward(ge, fin, listed),
{
    reveal(links_forward);
    assert forall|x: int| #[trigger] link_used(fin, listed, x) implies exists|y: int|
        0 <= y < ge.len() && #[trigger] ge[y].node1 == listed[x / 2].0 && ge[y].node2 == listed[x / 2].1 by {
        let q = choose|q: int| 0 <= q < xs.len() && xs[q] == x;
        assert(link_used(fin, listed, xs[q]));
        assert(ge[2 * q + 1].node1 == listed[x / 2].0);
    }
}

/// Each used-up listed edge is read off back.
proof fn lemma_read_off_backward(fin: Seq<Edge>, listed: Seq<(int, int)>, ge: Seq<Edge>, xs: Seq<int>)
    requires
        read_off(fin, listed, ge, xs),
    ensures
        links_backward(ge, fin, listed),
{
    reveal(links_backward);
    assert forall|x: int| #[trigger] link_used(fin, listed, x) implies exists|y: int|
        0 <= y < ge.len() && #[trigger] ge[y].node1 == listed[x / 2].1 && ge[y].node2 == listed[x / 2].0 by {
        let q = choose|q: int| 0 <= q < xs.len() && xs[q] == x;
        assert(link_used(fin, listed, xs[q]));
        assert(ge[2 * q].node1 == listed[x / 2].1);
    }
}

/// The nodes of the edges lie below `n`.
pub open spec fn nodes_below(ge: Seq<Edge>, n: int) -> bool {
    forall|y: int| 0 <= y < ge.len() ==> (#[trigger] ge[y]).node1 < n && ge[y].node2 < n
}

/// One step of the marking: marking what an unmarked order `i` reaches
/// marks `i` and one more end of a chain, and keeps the marks closed.
proof fn lemma_mark_loop_step(
    orders: Seq<Order>,
    fin: Seq<Edge>,
    listed: Seq<(int, int)>,
    ge: Seq<Edge>,
    old_marks: Seq<bool>,
    new_marks: Seq<bool>,
    i: int,
)
    requires
        flow_links(orders, fin, listed),
        chain_graph(ge, fin, listed),
        nodes_below(ge, orders.len() as int),
        old_marks.len() == orders.len(),
        new_marks.len() == orders.len(),
        marks_closed(ge, old_marks),
        0 <= i < orders.len(),
        !old_marks[i],
        forall|v: int|
            0 <= v < orders.len() ==> #[trigger] new_marks[v] == (old_marks[v] || reachable_avoiding(
                ge,
                i,
                v,
                |e: Edge| true,
                old_marks,
            )),
    ensures
        marks_closed(ge, new_marks),
        total(marked_end(fin, listed, new_marks), orders.len() as int) == total(
            marked_end(fin, listed, old_marks),
            orders.len() as int,
        ) + 1,
        new_marks[i],
        forall|v: int| 0 <= v < orders.len() && old_marks[v] ==> new_marks[v],
{
    lemma_mark_step(orders, fin, listed, ge, old_marks, new_marks, i);
    assert(is_walk(ge, Seq::<int>::empty(), i, i, |e: Edge| true));
    assert(reachable_avoiding(ge, i, i, |e: Edge| true, old_marks));
    assert(new_marks[i]);
}

/// With every order marked, the marked ends of chains are the orders that
/// no other follows in the flow, and their number is the fewest taxis that
/// serve all the orders.
proof fn lemma_chains_counted(
    orders: Seq<Order>,
    e0: Seq<Edge>,
    fin: Seq<Edge>,
    n: int,
    listed: Seq<(int, int)>,
    f: int,
    best: Set<int>,
    marks: Seq<bool>,
    answer: int,
)
    requires
        flow_links(orders, fin, listed),
        orders_shaped(fin, e0, n, listed),
        orders_shaped(e0, e0, n, listed),
        flow_facts(e0, fin, f, 2 * n, 2 * n + 1),
        listed_links(orders, listed),
        orders.len() == n,
        separates(best, 2 * n, 2 * n + 1),
        cut_value(e0, best) == f,
        marks.len() == n,
        forall|v: int| 0 <= v < n ==> marks[v],
        answer == total(marked_end(fin, listed, marks), n),
    ensures
        exists|next: Seq<int>| #[trigger] is_plan(orders, next) && taxis(next) == answer,
        forall|next: Seq<int>| #[trigger] is_plan(orders, next) ==> answer <= taxis(next),
{
    lemma_used_total(e0, fin, n, listed, f);
    lemma_used_le_followed(orders, fin, listed);
    let c = indicator(followed(fin, listed));
    let m = marked_end(fin, listed, marks);
    let one = |v: int| 1int;
    assert forall|v: int| 0 <= v < n implies #[trigger] m(v) == one(v) - c(v) by {}
    lemma_total_sub(m, one, c, n);
    lemma_total_ones(one, n);
    lemma_flow_plan(orders, fin, listed);
    let w = flow_plan(n, fin, listed);
    assert(is_plan(orders, w) && taxis(w) == answer);
    assert forall|next: Seq<int>| #[trigger] is_plan(orders, next) implies answer <= taxis(next) by {
        lemma_plan_covers(e0, n, listed, orders, next, best);
    }
}

/// The fewest taxis that serve all the orders, each taxi taking orders one
/// after the other: a taxi that served an order can take another when it
/// reaches the start of that order before the order's minute. Computed as
/// the number of chains left by a largest matching between orders and the
/// orders that can follow them.
pub fn solve(orders: &[Order]) -> (answer: usize)
    requires
        forall|i: int, j: int| 0 <= i < orders@.len() && 0 <= j < orders@.len() ==> arrival(
            #[trigger] orders@[i],
            #[trigger] orders@[j],
        ) <= u64::MAX,
        2 * orders@.len() * orders@.len() + 4 * orders@.len() + 8 < usize::MAX,
        orders@.len() * orders@.len() + 2 * orders@.len() <= u64::MAX,
    ensures
        exists|next: Seq<int>| #[trigger] is_plan(orders@, next) && taxis(next) == answer,
        forall|next: Seq<int>| #[trigger] is_plan(orders@, next) ==> answer <= taxis(next),
{
    let n = orders.len();
    let (mut h, og_edges, Ghost(listed)) = build_orders(orders);
    let s = 2 * n;
    let t = s + 1;
    let ghost l = listed.len() as int;
    let ghost nn = n as int;
    proof {
        assert(2 * n * n == 2 * (n * n)) by (nonlinear_arith);
        assert forall|x: int| 0 <= x < h.edges().len() && (#[trigger] h.edges()[x]).node1 == s implies h.edges()[x].capacity is Finite by {}
        lemma_no_unbounded_reach(h.edges(), s as int, t as int);
    }
    let ghost e0 = h.edges();
    proof {
        h.lemma_wf();
        assert(partners_idle(h.edges())) by {
            reveal(partners_idle);
        }
        lemma_flow_fits(h.edges());
    }
    let flow = h.max_flow(s, t);
    let ghost fin = h.edges();
    let ghost f = flow->0 as int;
    proof {
        assert forall|cut: Set<int>| separates(cut, s as int, t as int) && cut_finite(e0, cut) implies #[trigger] cut_value(
            fin,
            cut,
        ) + f == cut_value(e0, cut) by {}
        assert(flow_facts(e0, fin, f, s as int, t as int));
        assert(orders_shaped(fin, e0, nn, listed));
        assert(orders_shaped(e0, e0, nn, listed));
        lemma_flow_links(orders@, e0, fin, nn, listed, f);
    }
    let mut g = Graph::new(n);
    let ghost mut xs: Seq<int> = Seq::empty();
    let mut k: usize = 0;
    while k < og_edges.len()
        invariant
            g.wf(),
            g.node_count() == n,
            k <= og_edges@.len(),
            og_edges@.len() == l,
            l == listed.len(),
            l <= n * n,
            nn == n,
            2 * n * n + 4 * n + 8 < usize::MAX,
            2 * n * n == 2 * (n * n),
            forall|k2: int| 0 <= k2 < og_edges@.len() ==> #[trigger] og_edges@[k2] == 2 * k2 + 1,
            h.edges() == fin,
            orders_shaped(fin, e0, nn, listed),
            g.edges().len() == 2 * xs.len(),
            xs.len() <= k,
            forall|q: int|
                0 <= q < xs.len() ==> {
                    &&& link_used(fin, listed, #[trigger] xs[q])
                    &&& xs[q] < 2 * k
                    &&& g.edges()[2 * q + 1].node1 == listed[xs[q] / 2].0
                    &&& g.edges()[2 * q + 1].node2 == listed[xs[q] / 2].1
                    &&& g.edges()[2 * q].node1 == listed[xs[q] / 2].1
                    &&& g.edges()[2 * q].node2 == listed[xs[q] / 2].0
                },
            forall|x: int| #[trigger] link_used(fin, listed, x) && x < 2 * k ==> exists|q: int| 0 <= q < xs.len() && xs[q] == x,
        decreases og_edges@.len() - k,
    {
        let e = h.edge(og_edges[k]);
        proof {
            assert(og_edges@[k as int] == 2 * k + 1);
            assert(link_ok(e0, nn, listed, k as int));
            assert(e.node1 == e0[2 * k + 1].node1 && e.node2 == e0[2 * k + 1].node2);
            assert(0 <= listed[k as int].0 < n && 0 <= listed[k as int].1 < n);
            assert((2 * k + 1) / 2 == k);
        }
        if e.capacity == Capacity::Finite(0) {
            let ghost before = g.edges();
            let ghost old_xs = xs;
            g.add_edge(e.node1, e.node2 - n, Capacity::Finite(1));
            proof {
                xs = xs.push(2 * k + 1);
                assert forall|q: int| 0 <= q < xs.len() implies {
                    &&& link_used(fin, listed, #[trigger] xs[q])
                    &&& xs[q] < 2 * (k + 1)
                    &&& g.edges()[2 * q + 1].node1 == listed[xs[q] / 2].0
                    &&& g.edges()[2 * q + 1].node2 == listed[xs[q] / 2].1
                    &&& g.edges()[2 * q].node1 == listed[xs[q] / 2].1
                    &&& g.edges()[2 * q].node2 == listed[xs[q] / 2].0
                } by {
                    if q < old_xs.len() {
                        assert(xs[q] == old_xs[q]);
                        assert(g.edges()[2 * q + 1] == before[2 * q + 1]);
                        assert(g.edges()[2 * q] == before[2 * q]);
                    }
                }
                assert forall|x: int| #[trigger] link_used(fin, listed, x) && x < 2 * (k + 1) implies exists|q: int|
                    0 <= q < xs.len() && xs[q] == x by {
                    if x < 2 * k {
                        let q = choose|q: int| 0 <= q < old_xs.len() && old_xs[q] == x;
                        assert(xs[q] == old_xs[q]);
                    } else {
                        assert(x == 2 * k + 1);
                        assert(xs[old_xs.len() as int] == x);
                    }
                }
            }
        } else {
            proof {
                assert forall|x: int| #[trigger] link_used(fin, listed, x) && x < 2 * (k + 1) implies exists|q: int|
                    0 <= q < xs.len() && xs[q] == x by {
                    if x >= 2 * k {
                        assert(x == 2 * k + 1);
                    }
                }
            }
        }
        k += 1;
    }
    let ghost ge = g.edges();
    proof {
        g.lemma_wf();
        assert(read_off(fin, listed, ge, xs));
        lemma_read_off_linked(fin, listed, ge, xs);
        lemma_read_off_forward(fin, listed, ge, xs);
        lemma_read_off_backward(fin, listed, ge, xs);
        assert(nodes_below(ge, nn));
    }
    let mut reachable: Vec<bool> = vec![false; n];
    let mut answer: usize = 0;
    proof {
        let z = marked_end(fin, listed, reachable@);
        assert forall|v: int| 0 <= v < nn implies #[trigger] z(v) == 0 by {}
        lemma_total_zero(z, nn);
    }
    let mut i: usize = 0;
    while i < n
        invariant
            g.wf(),
            g.node_count() == n,
            g.edges() == ge,
            nodes_below(ge, nn),
            chain_graph(ge, fin, listed),
            flow_links(orders@, fin, listed),
            orders@.len() == n,
            nn == n,
            reachable@.len() == n,
            i <= n,
            answer <= i,
            answer == total(marked_end(fin, listed, reachable@), nn),
            marks_closed(ge, reachable@),
            forall|v: int| 0 <= v < i ==> reachable@[v],
        decreases n - i,
    {
        if !reachable[i] {
            let ghost old_marks = reachable@;
            g.mark_reachable_any(i, reachable.as_mut_slice());
            proof {
                lemma_mark_loop_step(orders@, fin, listed, ge, old_marks, reachable@, i as int);
            }
            answer += 1;
        }
        i += 1;
    }
    proof {
        lemma_chains_counted(orders@, e0, fin, nn, listed, f, residual_side(fin, s as int), reachable@, answer as int);
    }
    answer
}

} // verus!
