use vstd::prelude::*;
use crate::capacity::Capacity;
use crate::graph::{lemma_flow_fits_twice, Graph, Edge, finite_total, is_walk, unbounded, usable, same_shape, reachable, lemma_walk_append};
use crate::grid::{lemma_cell_index, lemma_mul_le};

verus! {

/// The cell `[x, y]` (from one) lies in the `m` by `n` field.
pub open spec fn in_field(m: int, n: int, cell: [usize; 2]) -> bool {
    1 <= cell[0] <= m && 1 <= cell[1] <= n
}

/// The capacity of the edge from the entry to the exit of cell `w`: zero for
/// a mountain, one for a cell that may be walled, unbounded otherwise.
pub open spec fn cell_cap(is_mountain: Seq<bool>, can_wall: Seq<bool>, w: int) -> Capacity {
    if is_mountain[w] {
        Capacity::Finite(0)
    } else if can_wall[w] {
        Capacity::Finite(1)
    } else {
        Capacity::Infinity
    }
}

/// The edges of the first `k` cells: entry to exit, with its pair.
pub open spec fn cell_edges(e: Seq<Edge>, is_mountain: Seq<bool>, can_wall: Seq<bool>, k: int) -> bool {
    forall|w: int|
        0 <= w < k ==> {
            &&& #[trigger] e[2 * w] == Edge {
                node1: (2 * w + 1) as usize,
                node2: (2 * w) as usize,
                capacity: Capacity::Finite(0),
                is_real: false,
            }
            &&& e[2 * w + 1] == Edge {
                node1: (2 * w) as usize,
                node2: (2 * w + 1) as usize,
                capacity: cell_cap(is_mountain, can_wall, w),
                is_real: true,
            }
        }
}

/// Cells `(x, y)` and `(x2, y2)`, from zero, are side by side in the field.
pub open spec fn neighbours(x: int, y: int, x2: int, y2: int) -> bool {
    ||| x2 == x + 1 && y2 == y
    ||| x2 + 1 == x && y2 == y
    ||| x2 == x && y2 == y + 1
    ||| x2 == x && y2 + 1 == y
}

/// Column `x` and row `y`, from zero, lie in the `m` by `n` field.
pub open spec fn in_grid(m: int, n: int, x: int, y: int) -> bool {
    0 <= x < m && 0 <= y < n
}

/// An edge added between cells: a paired edge of capacity zero, or an edge
/// without bound from the exit of a cell to the entry of a neighbour.
pub open spec fn link_edge(e: Edge, m: int, n: int) -> bool {
    ||| e.capacity == Capacity::Finite(0)
    ||| exists|x: int, y: int, x2: int, y2: int|
        in_grid(m, n, x, y) && in_grid(m, n, x2, y2) && #[trigger] neighbours(x, y, x2, y2) && e.node1 == 2 * (x + m * y)
            + 1 && e.node2 == 2 * (x2 + m * y2)
}

/// An edge without bound leads from `u` to `v`.
pub open spec fn has_link(e: Seq<Edge>, u: int, v: int) -> bool {
    exists|i: int| 0 <= i < e.len() && #[trigger] e[i].node1 == u && e[i].node2 == v && e[i].capacity is Infinity
}

/// The exit of cell `(x, y)` leads to the entries of its right and lower
/// neighbours, and their exits lead back to its entry.
pub open spec fn cell_links(e: Seq<Edge>, m: int, n: int, x: int, y: int) -> bool {
    &&& (x + 1 < m ==> has_link(e, 2 * (x + m * y) + 1, 2 * (x + 1 + m * y)) && has_link(
        e,
        2 * (x + 1 + m * y) + 1,
        2 * (x + m * y),
    ))
    &&& (y + 1 < n ==> has_link(e, 2 * (x + m * y) + 1, 2 * (x + m * (y + 1))) && has_link(
        e,
        2 * (x + m * (y + 1)) + 1,
        2 * (x + m * y),
    ))
}

/// The cells before `(x, y)` in row order have their links.
pub open spec fn links_done(e: Seq<Edge>, m: int, n: int, x: int, y: int) -> bool {
    forall|x2: int, y2: int|
        in_grid(m, n, x2, y2) && (y2 < y || (y2 == y && x2 < x)) ==> #[trigger] cell_links(e, m, n, x2, y2)
}

/// Adding edges keeps the links of what came before.
proof fn lemma_links_kept(before: Seq<Edge>, after: Seq<Edge>, m: int, n: int, x: int, y: int)
    requires
        links_done(before, m, n, x, y),
        before.len() <= after.len(),
        forall|i: int| 0 <= i < before.len() ==> after[i] == before[i],
    ensures
        links_done(after, m, n, x, y),
        forall|u: int, v: int| #[trigger] has_link(before, u, v) ==> has_link(after, u, v),
{
    assert forall|u: int, v: int| #[trigger] has_link(before, u, v) implies has_link(after, u, v) by {
        let i = choose|i: int| 0 <= i < before.len() && #[trigger] before[i].node1 == u && before[i].node2 == v && before[i].capacity is Infinity;
        assert(after[i] == before[i]);
    }
    assert forall|x2: int, y2: int| in_grid(m, n, x2, y2) && (y2 < y || (y2 == y && x2 < x)) implies #[trigger] cell_links(
        after,
        m,
        n,
        x2,
        y2,
    ) by {
        assert(cell_links(before, m, n, x2, y2));
    }
}

/// Adding an edge without bound from the exit of cell `(x, y)` to the entry
/// of its neighbour `(x2, y2)` keeps the edges between cells as they should
/// be, and links the two.
proof fn lemma_add_link(before: Seq<Edge>, after: Seq<Edge>, m: int, n: int, cells: int, x: int, y: int, x2: int, y2: int)
    requires
        in_grid(m, n, x, y),
        in_grid(m, n, x2, y2),
        neighbours(x, y, x2, y2),
        0 <= x + m * y < cells,
        0 <= x2 + m * y2 < cells,
        10 * cells + 8 < usize::MAX,
        after == before.push(
            Edge {
                node1: (2 * (x2 + m * y2)) as usize,
                node2: (2 * (x + m * y) + 1) as usize,
                capacity: Capacity::Finite(0),
                is_real: false,
            },
        ).push(
            Edge {
                node1: (2 * (x + m * y) + 1) as usize,
                node2: (2 * (x2 + m * y2)) as usize,
                capacity: Capacity::Infinity,
                is_real: true,
            },
        ),
        forall|i: int| 2 * cells <= i < before.len() ==> link_edge(#[trigger] before[i], m, n),
    ensures
        after.len() == before.len() + 2,
        forall|i: int| 0 <= i < before.len() ==> #[trigger] after[i] == before[i],
        forall|i: int| 2 * cells <= i < after.len() ==> link_edge(#[trigger] after[i], m, n),
        has_link(after, 2 * (x + m * y) + 1, 2 * (x2 + m * y2)),
{
    let k = before.len() as int;
    assert(after[k + 1].node1 == 2 * (x + m * y) + 1);
    assert(link_edge(after[k + 1], m, n));
    assert forall|i: int| 2 * cells <= i < after.len() implies link_edge(#[trigger] after[i], m, n) by {
        if i < k {
            assert(after[i] == before[i]);
        } else if i == k {
            assert(after[i].capacity == Capacity::Finite(0));
        }
    }
}

/// Cell `c` (from one) is neither a mountain nor a cell that may be walled.
pub open spec fn free_cell(mountains: Seq<[usize; 2]>, wall_options: Seq<[usize; 2]>, c: [usize; 2]) -> bool {
    !mountains.contains(c) && !wall_options.contains(c)
}

/// Cells `c` and `d` (from one) are side by side.
pub open spec fn side_by_side(c: [usize; 2], d: [usize; 2]) -> bool {
    neighbours(c[0] as int, c[1] as int, d[0] as int, d[1] as int)
}

/// `p` leads from `a` to `b` through free cells of the `m` by `n` field, each
/// beside the one before.
pub open spec fn free_path(
    m: int,
    n: int,
    mountains: Seq<[usize; 2]>,
    wall_options: Seq<[usize; 2]>,
    a: [usize; 2],
    b: [usize; 2],
    p: Seq<[usize; 2]>,
) -> bool {
    &&& p.len() >= 1
    &&& p[0] == a
    &&& p[p.len() - 1] == b
    &&& forall|i: int| 0 <= i < p.len() ==> in_field(m, n, #[trigger] p[i]) && free_cell(mountains, wall_options, p[i])
    &&& forall|i: int| 0 <= i < p.len() - 1 ==> side_by_side(#[trigger] p[i], p[i + 1])
}

/// The entry node of cell `c` (from one).
pub open spec fn entry(m: int, c: [usize; 2]) -> int {
    2 * ((c[0] - 1) + m * (c[1] - 1))
}

/// What the network of the field holds once built.
pub open spec fn field_network(
    e: Seq<Edge>,
    m: int,
    n: int,
    is_mountain: Seq<bool>,
    can_wall: Seq<bool>,
    mountains: Seq<[usize; 2]>,
    wall_options: Seq<[usize; 2]>,
) -> bool {
    &&& 1 <= m
    &&& 1 <= n
    &&& 10 * (n * m) + 8 < usize::MAX
    &&& e.len() >= 2 * (n * m)
    &&& cell_edges(e, is_mountain, can_wall, n * m)
    &&& forall|i: int| 2 * (n * m) <= i < e.len() ==> link_edge(#[trigger] e[i], m, n)
    &&& links_done(e, m, n, 0, n)
    &&& forall|x: int, y: int|
        in_grid(m, n, x, y) ==> (#[trigger] is_mountain[x + m * y] <==> mountains.contains([(x + 1) as usize, (y + 1) as usize]))
    &&& forall|x: int, y: int|
        in_grid(m, n, x, y) ==> (#[trigger] can_wall[x + m * y] <==> wall_options.contains([(x + 1) as usize, (y + 1) as usize]))
}

/// Where a walk over edges without bound from the entry of `a` has got to:
/// the cells passed, each beside the one before, all free but perhaps the
/// last; at the last cell's entry, or at its exit when it is free too.
spec fn walk_state(
    m: int,
    n: int,
    mountains: Seq<[usize; 2]>,
    wall_options: Seq<[usize; 2]>,
    a: [usize; 2],
    q: Seq<[usize; 2]>,
    cur: int,
) -> bool {
    &&& q.len() >= 1
    &&& q[0] == a
    &&& forall|i: int| 0 <= i < q.len() ==> #[trigger] in_field(m, n, q[i])
    &&& forall|i: int| 0 <= i < q.len() - 1 ==> free_cell(mountains, wall_options, #[trigger] q[i])
    &&& forall|i: int| 0 <= i < q.len() - 1 ==> side_by_side(#[trigger] q[i], q[i + 1])
    &&& (cur == entry(m, q[q.len() - 1]) || (cur == entry(m, q[q.len() - 1]) + 1 && free_cell(
        mountains,
        wall_options,
        q[q.len() - 1],
    )))
}

/// A step over a cell's own edge without bound leaves the walk at the exit of
/// that cell, which is free.
proof fn lemma_step_cell(
    e: Seq<Edge>,
    m: int,
    n: int,
    is_mountain: Seq<bool>,
    can_wall: Seq<bool>,
    mountains: Seq<[usize; 2]>,
    wall_options: Seq<[usize; 2]>,
    a: [usize; 2],
    q: Seq<[usize; 2]>,
    cur: int,
    i: int,
)
    requires
        field_network(e, m, n, is_mountain, can_wall, mountains, wall_options),
        walk_state(m, n, mountains, wall_options, a, q, cur),
        0 <= i < 2 * (n * m),
        e[i].node1 == cur,
        unbounded(e[i]),
    ensures
        walk_state(m, n, mountains, wall_options, a, q, e[i].node2 as int),
{
    let cells = n * m;
    let last = q[q.len() - 1];
    assert(in_field(m, n, last));
    let lx = last[0] - 1;
    let ly = last[1] - 1;
    lemma_wrap(lx, ly, m, n);
    let w = i / 2;
    assert(0 <= w < cells);
    assert(cell_edges(e, is_mountain, can_wall, cells));
    assert(e[2 * w].capacity == Capacity::Finite(0));
    assert(i == 2 * w + 1);
    assert(cell_cap(is_mountain, can_wall, w) == Capacity::Infinity);
    assert(cur == 2 * w);
    assert(lx + m * ly == w);
    assert(is_mountain[lx + m * ly] == mountains.contains([(lx + 1) as usize, (ly + 1) as usize]));
    assert(can_wall[lx + m * ly] == wall_options.contains([(lx + 1) as usize, (ly + 1) as usize]));
    assert([(lx + 1) as usize, (ly + 1) as usize] == last);
}

/// A step over an edge between cells leaves the walk at the entry of the
/// neighbour.
proof fn lemma_step_link(
    e: Seq<Edge>,
    m: int,
    n: int,
    is_mountain: Seq<bool>,
    can_wall: Seq<bool>,
    mountains: Seq<[usize; 2]>,
    wall_options: Seq<[usize; 2]>,
    a: [usize; 2],
    q: Seq<[usize; 2]>,
    cur: int,
    i: int,
) -> (q2: Seq<[usize; 2]>)
    requires
        field_network(e, m, n, is_mountain, can_wall, mountains, wall_options),
        walk_state(m, n, mountains, wall_options, a, q, cur),
        2 * (n * m) <= i < e.len(),
        e[i].node1 == cur,
        unbounded(e[i]),
    ensures
        walk_state(m, n, mountains, wall_options, a, q2, e[i].node2 as int),
{
    let last = q[q.len() - 1];
    assert(in_field(m, n, last));
    let lx = last[0] - 1;
    let ly = last[1] - 1;
    lemma_wrap(lx, ly, m, n);
    assert(link_edge(e[i], m, n));
    let (x, y, x2, y2) = choose|x: int, y: int, x2: int, y2: int|
        in_grid(m, n, x, y) && in_grid(m, n, x2, y2) && #[trigger] neighbours(x, y, x2, y2) && e[i].node1 == 2 * (x + m
            * y) + 1 && e[i].node2 == 2 * (x2 + m * y2);
    lemma_wrap(x, y, m, n);
    lemma_wrap(x2, y2, m, n);
    assert(m <= n * m && n <= n * m) by (nonlinear_arith)
        requires
            m >= 1,
            n >= 1,
    ;
    assert(cur == entry(m, last) + 1);
    lemma_same_cell(lx, ly, x, y, m);
    let next: [usize; 2] = [(x2 + 1) as usize, (y2 + 1) as usize];
    let q2 = q.push(next);
    assert(q2[q2.len() - 1] == next);
    assert(last == [(x + 1) as usize, (y + 1) as usize]);
    assert forall|j: int| 0 <= j < q2.len() implies #[trigger] in_field(m, n, q2[j]) by {
        if j < q.len() {
            assert(q2[j] == q[j]);
        }
    }
    assert forall|j: int| 0 <= j < q2.len() - 1 implies free_cell(mountains, wall_options, #[trigger] q2[j]) by {
        assert(q2[j] == q[j]);
    }
    assert forall|j: int| 0 <= j < q2.len() - 1 implies side_by_side(#[trigger] q2[j], q2[j + 1]) by {
        assert(q2[j] == q[j]);
        if j + 1 < q.len() {
            assert(q2[j + 1] == q[j + 1]);
        }
    }
    q2
}

/// A walk over edges without bound from the entry of `a` passes free cells
/// only, each beside the one before.
proof fn lemma_walk_cells(
    e: Seq<Edge>,
    m: int,
    n: int,
    is_mountain: Seq<bool>,
    can_wall: Seq<bool>,
    mountains: Seq<[usize; 2]>,
    wall_options: Seq<[usize; 2]>,
    a: [usize; 2],
    t: int,
    walk: Seq<int>,
    k: int,
) -> (q: Seq<[usize; 2]>)
    requires
        field_network(e, m, n, is_mountain, can_wall, mountains, wall_options),
        in_field(m, n, a),
        is_walk(e, walk, entry(m, a), t, |x: Edge| unbounded(x)),
        0 <= k <= walk.len(),
    ensures
        walk_state(m, n, mountains, wall_options, a, q, if k == 0 { entry(m, a) } else { e[walk[k - 1]].node2 as int }),
    decreases k,
{
    if k == 0 {
        let q = seq![a];
        assert(q[0] == a);
        q
    } else {
        let q = lemma_walk_cells(e, m, n, is_mountain, can_wall, mountains, wall_options, a, t, walk, k - 1);
        let cur = if k - 1 == 0 { entry(m, a) } else { e[walk[k - 2]].node2 as int };
        let i = walk[k - 1];
        let unb = |x: Edge| unbounded(x);
        assert(0 <= i < e.len() && unb(e[i]));
        assert(e[i].node1 == cur) by {
            if k - 1 > 0 {
                assert(e[walk[k - 2]].node2 == e[walk[k - 1]].node1);
            }
        }
        if i < 2 * (n * m) {
            lemma_step_cell(e, m, n, is_mountain, can_wall, mountains, wall_options, a, q, cur, i);
            q
        } else {
            lemma_step_link(e, m, n, is_mountain, can_wall, mountains, wall_options, a, q, cur, i)
        }
    }
}

/// The edge from the entry to the exit of a free cell has no bound.
proof fn lemma_free_cell_edge(
    e: Seq<Edge>,
    m: int,
    n: int,
    is_mountain: Seq<bool>,
    can_wall: Seq<bool>,
    mountains: Seq<[usize; 2]>,
    wall_options: Seq<[usize; 2]>,
    c: [usize; 2],
)
    requires
        field_network(e, m, n, is_mountain, can_wall, mountains, wall_options),
        in_field(m, n, c),
        free_cell(mountains, wall_options, c),
    ensures
        0 <= entry(m, c) + 1 < e.len(),
        e[entry(m, c) + 1].node1 == entry(m, c),
        e[entry(m, c) + 1].node2 == entry(m, c) + 1,
        unbounded(e[entry(m, c) + 1]),
{
    let x = c[0] - 1;
    let y = c[1] - 1;
    lemma_wrap(x, y, m, n);
    let w = x + m * y;
    assert(cell_edges(e, is_mountain, can_wall, n * m));
    assert(e[2 * w].capacity == Capacity::Finite(0));
    assert(e[2 * w + 1].node1 == 2 * w);
    assert(is_mountain[x + m * y] == mountains.contains([(x + 1) as usize, (y + 1) as usize]));
    assert(can_wall[x + m * y] == wall_options.contains([(x + 1) as usize, (y + 1) as usize]));
    assert([(x + 1) as usize, (y + 1) as usize] == c);
}

/// The exit of a cell leads without bound to the entry of each neighbour.
proof fn lemma_neighbour_link(
    e: Seq<Edge>,
    m: int,
    n: int,
    is_mountain: Seq<bool>,
    can_wall: Seq<bool>,
    mountains: Seq<[usize; 2]>,
    wall_options: Seq<[usize; 2]>,
    c: [usize; 2],
    d: [usize; 2],
)
    requires
        field_network(e, m, n, is_mountain, can_wall, mountains, wall_options),
        in_field(m, n, c),
        in_field(m, n, d),
        side_by_side(c, d),
    ensures
        has_link(e, entry(m, c) + 1, entry(m, d)),
{
    let x = c[0] - 1;
    let y = c[1] - 1;
    let x2 = d[0] - 1;
    let y2 = d[1] - 1;
    assert(m * (y + 1) == m * y + m) by (nonlinear_arith);
    assert(m * (y2 + 1) == m * y2 + m) by (nonlinear_arith);
    if x2 == x + 1 && y2 == y {
        assert(cell_links(e, m, n, x, y));
    } else if x2 + 1 == x && y2 == y {
        assert(cell_links(e, m, n, x2, y2));
    } else if x2 == x && y2 == y + 1 {
        assert(cell_links(e, m, n, x, y));
    } else {
        assert(cell_links(e, m, n, x2, y2));
    }
}

/// A path of free cells gives a walk over edges without bound from the entry
/// of its first cell to the exit of its `k`-th.
proof fn lemma_cells_walk(
    e: Seq<Edge>,
    m: int,
    n: int,
    is_mountain: Seq<bool>,
    can_wall: Seq<bool>,
    mountains: Seq<[usize; 2]>,
    wall_options: Seq<[usize; 2]>,
    a: [usize; 2],
    b: [usize; 2],
    p: Seq<[usize; 2]>,
    k: int,
) -> (w: Seq<int>)
    requires
        field_network(e, m, n, is_mountain, can_wall, mountains, wall_options),
        free_path(m, n, mountains, wall_options, a, b, p),
        1 <= k <= p.len(),
    ensures
        is_walk(e, w, entry(m, a), entry(m, p[k - 1]) + 1, |x: Edge| unbounded(x)),
    decreases k,
{
    let unb = |x: Edge| unbounded(x);
    let c = p[k - 1];
    assert(in_field(m, n, c) && free_cell(mountains, wall_options, c));
    lemma_free_cell_edge(e, m, n, is_mountain, can_wall, mountains, wall_options, c);
    if k == 1 {
        assert(is_walk(e, Seq::<int>::empty(), entry(m, a), entry(m, a), unb));
        lemma_walk_append(e, Seq::<int>::empty(), entry(m, a), entry(m, c) + 1, unb);
        Seq::<int>::empty().push(entry(m, c) + 1)
    } else {
        let w0 = lemma_cells_walk(e, m, n, is_mountain, can_wall, mountains, wall_options, a, b, p, k - 1);
        let prev = p[k - 2];
        assert(in_field(m, n, prev));
        assert(side_by_side(prev, c));
        lemma_neighbour_link(e, m, n, is_mountain, can_wall, mountains, wall_options, prev, c);
        let j = choose|j: int|
            0 <= j < e.len() && #[trigger] e[j].node1 == entry(m, prev) + 1 && e[j].node2 == entry(m, c) && e[j].capacity is Infinity;
        assert(unb(e[j]));
        lemma_walk_append(e, w0, entry(m, a), j, unb);
        lemma_walk_append(e, w0.push(j), entry(m, a), entry(m, c) + 1, unb);
        w0.push(j).push(entry(m, c) + 1)
    }
}

/// The flow from the entry of `a` to the exit of `b` has no bound exactly
/// when a path of free cells leads from `a` to `b`.
proof fn lemma_flow_path(
    e0: Seq<Edge>,
    m: int,
    n: int,
    is_mountain: Seq<bool>,
    can_wall: Seq<bool>,
    mountains: Seq<[usize; 2]>,
    wall_options: Seq<[usize; 2]>,
    a: [usize; 2],
    b: [usize; 2],
    flow: Capacity,
)
    requires
        field_network(e0, m, n, is_mountain, can_wall, mountains, wall_options),
        in_field(m, n, a),
        in_field(m, n, b),
        reachable(e0, entry(m, a), entry(m, b) + 1, |e: Edge| unbounded(e)) ==> flow == Capacity::Infinity,
        !reachable(e0, entry(m, a), entry(m, b) + 1, |e: Edge| unbounded(e)) ==> flow is Finite,
    ensures
        flow == Capacity::Infinity <==> exists|p: Seq<[usize; 2]>| #[trigger] free_path(m, n, mountains, wall_options, a, b, p),
{
    let unb = |x: Edge| unbounded(x);
    let s = entry(m, a);
    let t = entry(m, b) + 1;
    if flow is Finite {
        if exists|p: Seq<[usize; 2]>| #[trigger] free_path(m, n, mountains, wall_options, a, b, p) {
            let p = choose|p: Seq<[usize; 2]>| #[trigger] free_path(m, n, mountains, wall_options, a, b, p);
            let w = lemma_cells_walk(e0, m, n, is_mountain, can_wall, mountains, wall_options, a, b, p, p.len() as int);
            assert(p[p.len() - 1] == b);
            assert(reachable(e0, s, t, unb));
        }
    } else {
        let walk = choose|walk: Seq<int>| #[trigger] is_walk(e0, walk, s, t, unb);
        let q = lemma_walk_cells(e0, m, n, is_mountain, can_wall, mountains, wall_options, a, t, walk, walk.len() as int);
        assert(walk.len() > 0);
        let last = q[q.len() - 1];
        assert(in_field(m, n, last));
        lemma_wrap(last[0] - 1, last[1] - 1, m, n);
        lemma_wrap(b[0] - 1, b[1] - 1, m, n);
        lemma_same_cell(last[0] - 1, last[1] - 1, b[0] - 1, b[1] - 1, m);
        assert(last =~= b);
        assert forall|i: int| 0 <= i < q.len() implies in_field(m, n, #[trigger] q[i]) && free_cell(mountains, wall_options, q[i]) by {
            assert(in_field(m, n, q[i]));
        }
        assert(free_path(m, n, mountains, wall_options, a, b, q));
    }
}

/// The index of the cell in column `x` and row `y`, both from zero.
proof fn lemma_wrap(x: int, y: int, m: int, n: int)
    requires
        0 <= x < m,
        0 <= y < n,
    ensures
        0 <= x + m * y < n * m,
        m * y == y * m,
        x + m * y + 1 <= n * m,
        (x + 1 < m) ==> x + m * y + 1 < n * m,
        (y + 1 < n) ==> x + m * y + m < n * m,
        y > 0 ==> x + m * y - m == x + m * (y - 1),
{
    lemma_cell_index(y, x, n, m);
    assert(m * y == y * m) by (nonlinear_arith);
    if y + 1 < n {
        lemma_cell_index(y + 1, x, n, m);
        assert(m * (y + 1) == m * y + m) by (nonlinear_arith);
    }
    if y > 0 {
        assert(m * y - m == m * (y - 1)) by (nonlinear_arith);
    }
}

/// Each neighbour of cell `(x, y)` (from zero) that is no mountain has its
/// entry marked in `reach`.
spec fn neighbours_reached(is_mountain: Seq<bool>, reach: Seq<bool>, m: int, n: int, x: int, y: int) -> bool {
    &&& (x > 0 && !is_mountain[(x - 1) + m * y] ==> reach[2 * ((x - 1) + m * y)])
    &&& (y > 0 && !is_mountain[x + m * (y - 1)] ==> reach[2 * (x + m * (y - 1))])
    &&& (x + 1 < m && !is_mountain[(x + 1) + m * y] ==> reach[2 * ((x + 1) + m * y)])
    &&& (y + 1 < n && !is_mountain[x + m * (y + 1)] ==> reach[2 * (x + m * (y + 1))])
}

/// What the choice of walls rests on: the network `fin` left by the flow
/// has the shape of the network `e0` of the field and the same edges
/// without bound, `reach` marks what `fin` reaches from the entry of `a`,
/// every cell marked in `is_wall` is among `walls`, and a cell that may be
/// walled, is reached and is not marked has each neighbour that is no
/// mountain reached.
spec fn walls_chosen(
    e0: Seq<Edge>,
    fin: Seq<Edge>,
    m: int,
    n: int,
    is_mountain: Seq<bool>,
    can_wall: Seq<bool>,
    is_wall: Seq<bool>,
    reach: Seq<bool>,
    mountains: Seq<[usize; 2]>,
    wall_options: Seq<[usize; 2]>,
    walls: Seq<[usize; 2]>,
    a: [usize; 2],
) -> bool {
    &&& field_network(e0, m, n, is_mountain, can_wall, mountains, wall_options)
    &&& in_field(m, n, a)
    &&& same_shape(fin, e0)
    &&& forall|x: int| 0 <= x < e0.len() ==> unbounded(#[trigger] fin[x]) == unbounded(e0[x])
    &&& reach.len() == 2 * (n * m)
    &&& forall|v: int| 0 <= v < reach.len() ==> #[trigger] reach[v] == reachable(fin, entry(m, a), v, |e: Edge| usable(e))
    &&& forall|x: int, y: int|
        in_grid(m, n, x, y) && #[trigger] is_wall[x + m * y] ==> walls.contains([(x + 1) as usize, (y + 1) as usize])
    &&& forall|x: int, y: int|
        in_grid(m, n, x, y) && !#[trigger] is_wall[x + m * y] && can_wall[x + m * y] && reach[2 * (x + m * y)]
            ==> neighbours_reached(is_mountain, reach, m, n, x, y)
}

/// An edge of `e0` without bound is one of `fin` too, and extends a walk
/// over edges with capacity left.
proof fn lemma_extend_unbounded(e0: Seq<Edge>, fin: Seq<Edge>, s: int, u: int, i: int)
    requires
        same_shape(fin, e0),
        forall|x: int| 0 <= x < e0.len() ==> unbounded(#[trigger] fin[x]) == unbounded(e0[x]),
        0 <= i < e0.len(),
        e0[i].node1 == u,
        unbounded(e0[i]),
        reachable(fin, s, u, |e: Edge| usable(e)),
    ensures
        reachable(fin, s, e0[i].node2 as int, |e: Edge| usable(e)),
{
    let us = |e: Edge| usable(e);
    let w = choose|w: Seq<int>| is_walk(fin, w, s, u, us);
    assert(unbounded(fin[i]));
    assert(fin[i].node1 == e0[i].node1 && fin[i].node2 == e0[i].node2);
    lemma_walk_append(fin, w, s, i, us);
}

/// From a reached free cell the walk goes on, over edges without bound, to
/// the entry of a neighbour.
proof fn lemma_step_free(
    e0: Seq<Edge>,
    fin: Seq<Edge>,
    m: int,
    n: int,
    is_mountain: Seq<bool>,
    can_wall: Seq<bool>,
    mountains: Seq<[usize; 2]>,
    wall_options: Seq<[usize; 2]>,
    s: int,
    c: [usize; 2],
    d: [usize; 2],
)
    requires
        field_network(e0, m, n, is_mountain, can_wall, mountains, wall_options),
        same_shape(fin, e0),
        forall|x: int| 0 <= x < e0.len() ==> unbounded(#[trigger] fin[x]) == unbounded(e0[x]),
        in_field(m, n, c),
        in_field(m, n, d),
        side_by_side(c, d),
        free_cell(mountains, wall_options, c),
        reachable(fin, s, entry(m, c), |e: Edge| usable(e)),
    ensures
        reachable(fin, s, entry(m, d), |e: Edge| usable(e)),
{
    lemma_free_cell_edge(e0, m, n, is_mountain, can_wall, mountains, wall_options, c);
    lemma_extend_unbounded(e0, fin, s, entry(m, c), entry(m, c) + 1);
    lemma_neighbour_link(e0, m, n, is_mountain, can_wall, mountains, wall_options, c, d);
    let j = choose|j: int|
        0 <= j < e0.len() && #[trigger] e0[j].node1 == entry(m, c) + 1 && e0[j].node2 == entry(m, d)
            && e0[j].capacity is Infinity;
    lemma_extend_unbounded(e0, fin, s, entry(m, c) + 1, j);
}

/// Along a path of cells that are neither mountains nor walls, the entry of
/// each cell is reached from the entry of `a` in the network left by the
/// flow.
#[verifier::spinoff_prover]
#[verifier::rlimit(40)]
proof fn lemma_open_reached(
    e0: Seq<Edge>,
    fin: Seq<Edge>,
    m: int,
    n: int,
    is_mountain: Seq<bool>,
    can_wall: Seq<bool>,
    is_wall: Seq<bool>,
    reach: Seq<bool>,
    mountains: Seq<[usize; 2]>,
    wall_options: Seq<[usize; 2]>,
    walls: Seq<[usize; 2]>,
    a: [usize; 2],
    b: [usize; 2],
    p: Seq<[usize; 2]>,
    k: int,
)
    requires
        walls_chosen(e0, fin, m, n, is_mountain, can_wall, is_wall, reach, mountains, wall_options, walls, a),
        free_path(m, n, mountains, walls, a, b, p),
        0 <= k < p.len(),
    ensures
        reachable(fin, entry(m, a), entry(m, p[k]), |e: Edge| usable(e)),
    decreases k,
{
    let us = |e: Edge| usable(e);
    let s = entry(m, a);
    if k == 0 {
        assert(is_walk(fin, Seq::<int>::empty(), s, s, us));
    } else {
        lemma_open_reached(e0, fin, m, n, is_mountain, can_wall, is_wall, reach, mountains, wall_options, walls, a, b, p, k - 1);
        let c = p[k - 1];
        let d = p[k];
        assert(in_field(m, n, c) && free_cell(mountains, walls, c));
        assert(in_field(m, n, d) && free_cell(mountains, walls, d));
        assert(side_by_side(c, d));
        let x = c[0] - 1;
        let y = c[1] - 1;
        let x2 = d[0] - 1;
        let y2 = d[1] - 1;
        lemma_wrap(x, y, m, n);
        lemma_wrap(x2, y2, m, n);
        assert([(x + 1) as usize, (y + 1) as usize] == c);
        assert([(x2 + 1) as usize, (y2 + 1) as usize] == d);
        if !wall_options.contains(c) {
            lemma_step_free(e0, fin, m, n, is_mountain, can_wall, mountains, wall_options, s, c, d);
        } else {
            assert(can_wall[x + m * y]);
            assert(!is_wall[x + m * y]);
            assert(reach[2 * (x + m * y)]);
            assert(neighbours_reached(is_mountain, reach, m, n, x, y));
            assert(!is_mountain[x2 + m * y2]);
            assert(m * (y + 1) == m * y + m) by (nonlinear_arith);
            assert(reach[2 * (x2 + m * y2)]);
        }
    }
}

/// Once the walls stand, no path of cells that are neither mountains nor
/// walls joins `a` to `b`, where `b` is walled or may not be.
proof fn lemma_walls_separate(
    e0: Seq<Edge>,
    fin: Seq<Edge>,
    m: int,
    n: int,
    is_mountain: Seq<bool>,
    can_wall: Seq<bool>,
    is_wall: Seq<bool>,
    reach: Seq<bool>,
    mountains: Seq<[usize; 2]>,
    wall_options: Seq<[usize; 2]>,
    walls: Seq<[usize; 2]>,
    a: [usize; 2],
    b: [usize; 2],
    p: Seq<[usize; 2]>,
)
    requires
        walls_chosen(e0, fin, m, n, is_mountain, can_wall, is_wall, reach, mountains, wall_options, walls, a),
        in_field(m, n, b),
        !reachable(fin, entry(m, a), entry(m, b) + 1, |e: Edge| usable(e)),
        wall_options.contains(b) ==> walls.contains(b),
    ensures
        !free_path(m, n, mountains, walls, a, b, p),
{
    if free_path(m, n, mountains, walls, a, b, p) {
        let k = p.len() - 1;
        lemma_open_reached(e0, fin, m, n, is_mountain, can_wall, is_wall, reach, mountains, wall_options, walls, a, b, p, k);
        assert(in_field(m, n, p[k]) && free_cell(mountains, walls, p[k]));
        lemma_free_cell_edge(e0, m, n, is_mountain, can_wall, mountains, wall_options, b);
        lemma_extend_unbounded(e0, fin, entry(m, a), entry(m, b), entry(m, b) + 1);
    }
}

/// The fewest cells to wall, among the allowed ones, so that no path of
/// neighbouring cells free of mountains leads from `a` to `b` in the `m` by
/// `n` field; `None` when no choice of walls separates them (or they are the
/// same cell). Each cell is split into an entry and an exit node joined with
/// capacity zero for a mountain, one for a cell that may be walled, and
/// without bound otherwise; neighbours are joined without bound. The walls
/// are the cells on the edge of the source side of a minimum cut: each is
/// reached from `a` and has a neighbour, no mountain, that is not. Once they
/// stand, no path of cells that are neither mountains nor walls leads from
/// `a` to `b`, where `b` is walled or may not be.
pub fn solve(
    mn: [usize; 2],
    a: [usize; 2],
    b: [usize; 2],
    mountains: &[[usize; 2]],
    wall_options: &[[usize; 2]],
) -> (answer: Option<Vec<[usize; 2]>>)
    requires
        in_field(mn[0] as int, mn[1] as int, a),
        in_field(mn[0] as int, mn[1] as int, b),
        forall|k: int| 0 <= k < mountains@.len() ==> in_field(mn[0] as int, mn[1] as int, #[trigger] mountains@[k]),
        forall|k: int| 0 <= k < wall_options@.len() ==> in_field(mn[0] as int, mn[1] as int, #[trigger] wall_options@[k]),
        10 * (mn[0] * mn[1]) + 8 < usize::MAX,
    ensures
        answer is None <==> (a == b || exists|p: Seq<[usize; 2]>|
            #[trigger] free_path(mn[0] as int, mn[1] as int, mountains@, wall_options@, a, b, p)),
        answer matches Some(walls) ==> forall|k: int|
            0 <= k < walls@.len() ==> {
                &&& in_field(mn[0] as int, mn[1] as int, #[trigger] walls@[k])
                &&& wall_options@.contains(walls@[k])
            },
        answer matches Some(walls) ==> (wall_options@.contains(b) ==> walls@.contains(b)) ==> !exists|p: Seq<[usize; 2]>|
            #[trigger] free_path(mn[0] as int, mn[1] as int, mountains@, walls@, a, b, p),
{
    let m = mn[0];
    let n = mn[1];
    let xa = a[0];
    let ya = a[1];
    let xb = b[0];
    let yb = b[1];
    if xa == xb && ya == yb {
        proof {
            assert(a =~= b);
        }
        return None;
    }
    proof {
        lemma_mul_le(0, n as int, 0, m as int);
        assert(n * m == m * n) by (nonlinear_arith);
    }
    let ghost cells = (n * m) as int;
    let mut can_wall: Vec<bool> = vec![false; n * m];
    let mut is_mountain: Vec<bool> = vec![false; n * m];
    proof {
        assert forall|x: int, y: int|
            0 <= x < m && 0 <= y < n implies !#[trigger] can_wall@[x + m * y] by {
            lemma_wrap(x, y, m as int, n as int);
        }
    }
    let mut k: usize = 0;
    while k < wall_options.len()
        invariant
            k <= wall_options@.len(),
            can_wall@.len() == cells,
            cells == n * m,
            10 * cells + 8 < usize::MAX,
            m == mn[0],
            n == mn[1],
            forall|k2: int| 0 <= k2 < wall_options@.len() ==> in_field(m as int, n as int, #[trigger] wall_options@[k2]),
            forall|x: int, y: int|
                0 <= x < m && 0 <= y < n && #[trigger] can_wall@[x + m * y] ==> wall_options@.contains(
                    [(x + 1) as usize, (y + 1) as usize],
                ),
            forall|k2: int|
                0 <= k2 < k ==> can_wall@[(wall_options@[k2][0] - 1) + m * (wall_options@[k2][1] - 1)],
        decreases wall_options@.len() - k,
    {
        let x = wall_options[k][0] - 1;
        let y = wall_options[k][1] - 1;
        proof {
            lemma_wrap(x as int, y as int, m as int, n as int);
        }
        let ghost before = can_wall@;
        can_wall.set(x + m * y, true);
        proof {
            assert forall|x2: int, y2: int|
                0 <= x2 < m && 0 <= y2 < n && #[trigger] can_wall@[x2 + m * y2] implies wall_options@.contains(
                    [(x2 + 1) as usize, (y2 + 1) as usize],
                ) by {
                lemma_wrap(x2, y2, m as int, n as int);
                if x2 + m * y2 == x + m * y {
                    lemma_same_cell(x2, y2, x as int, y as int, m as int);
                    assert(wall_options@[k as int] == [(x2 + 1) as usize, (y2 + 1) as usize]);
                } else {
                    assert(before[x2 + m * y2]);
                }
            }
            assert forall|k2: int| 0 <= k2 < k + 1 implies can_wall@[(wall_options@[k2][0] - 1) + m * (wall_options@[k2][1]
                - 1)] by {
                if k2 < k {
                    let c = wall_options@[k2];
                    assert(in_field(m as int, n as int, c));
                    lemma_wrap(c[0] - 1, c[1] - 1, m as int, n as int);
                    assert(before[(c[0] - 1) + m * (c[1] - 1)]);
                }
            }
        }
        k += 1;
    }
    proof {
        assert forall|x: int, y: int|
            0 <= x < m && 0 <= y < n implies !#[trigger] is_mountain@[x + m * y] by {
            lemma_wrap(x, y, m as int, n as int);
        }
    }
    let mut k: usize = 0;
    while k < mountains.len()
        invariant
            k <= mountains@.len(),
            is_mountain@.len() == cells,
            cells == n * m,
            10 * cells + 8 < usize::MAX,
            m == mn[0],
            n == mn[1],
            forall|k2: int| 0 <= k2 < mountains@.len() ==> in_field(m as int, n as int, #[trigger] mountains@[k2]),
            forall|x: int, y: int|
                0 <= x < m && 0 <= y < n && #[trigger] is_mountain@[x + m * y] ==> mountains@.contains(
                    [(x + 1) as usize, (y + 1) as usize],
                ),
            forall|k2: int|
                0 <= k2 < k ==> is_mountain@[(mountains@[k2][0] - 1) + m * (mountains@[k2][1] - 1)],
        decreases mountains@.len() - k,
    {
        let x = mountains[k][0] - 1;
        let y = mountains[k][1] - 1;
        proof {
            lemma_wrap(x as int, y as int, m as int, n as int);
        }
        let ghost before = is_mountain@;
        is_mountain.set(x + m * y, true);
        proof {
            assert forall|x2: int, y2: int|
                0 <= x2 < m && 0 <= y2 < n && #[trigger] is_mountain@[x2 + m * y2] implies mountains@.contains(
                    [(x2 + 1) as usize, (y2 + 1) as usize],
                ) by {
                lemma_wrap(x2, y2, m as int, n as int);
                if x2 + m * y2 == x + m * y {
                    lemma_same_cell(x2, y2, x as int, y as int, m as int);
                    assert(mountains@[k as int] == [(x2 + 1) as usize, (y2 + 1) as usize]);
                } else {
                    assert(before[x2 + m * y2]);
                }
            }
            assert forall|k2: int| 0 <= k2 < k + 1 implies is_mountain@[(mountains@[k2][0] - 1) + m * (mountains@[k2][1]
                - 1)] by {
                if k2 < k {
                    let c = mountains@[k2];
                    assert(in_field(m as int, n as int, c));
                    lemma_wrap(c[0] - 1, c[1] - 1, m as int, n as int);
                    assert(before[(c[0] - 1) + m * (c[1] - 1)]);
                }
            }
        }
        k += 1;
    }
    proof {
        assert forall|x: int, y: int| in_grid(m as int, n as int, x, y) implies (#[trigger] is_mountain@[x + m * y]
            <==> mountains@.contains([(x + 1) as usize, (y + 1) as usize])) by {
            let c = [(x + 1) as usize, (y + 1) as usize];
            if mountains@.contains(c) {
                let k2 = choose|k2: int| 0 <= k2 < mountains@.len() && mountains@[k2] == c;
                assert(is_mountain@[(mountains@[k2][0] - 1) + m * (mountains@[k2][1] - 1)]);
            }
        }
        assert forall|x: int, y: int| in_grid(m as int, n as int, x, y) implies (#[trigger] can_wall@[x + m * y]
            <==> wall_options@.contains([(x + 1) as usize, (y + 1) as usize])) by {
            let c = [(x + 1) as usize, (y + 1) as usize];
            if wall_options@.contains(c) {
                let k2 = choose|k2: int| 0 <= k2 < wall_options@.len() && wall_options@[k2] == c;
                assert(can_wall@[(wall_options@[k2][0] - 1) + m * (wall_options@[k2][1] - 1)]);
            }
        }
    }
    let mut graph = Graph::new(2 * (m * n));
    proof {
        lemma_wrap(xa - 1, ya - 1, m as int, n as int);
        lemma_wrap(xb - 1, yb - 1, m as int, n as int);
    }
    let wrap_s = (xa - 1) + m * (ya - 1);
    let wrap_t = (xb - 1) + m * (yb - 1);
    let mut y: usize = 0;
    while y < n
        invariant
            graph.wf(),
            graph.node_count() == 2 * cells,
            cells == n * m,
            n * m == m * n,
            10 * cells + 8 < usize::MAX,
            is_mountain@.len() == cells,
            can_wall@.len() == cells,
            y <= n,
            graph.edges().len() == 2 * (y * m),
            0 <= finite_total(graph.edges()) <= y * m,
            cell_edges(graph.edges(), is_mountain@, can_wall@, y * m),
        decreases n - y,
    {
        let mut x: usize = 0;
        while x < m
            invariant
                graph.wf(),
                graph.node_count() == 2 * cells,
                cells == n * m,
                10 * cells + 8 < usize::MAX,
                is_mountain@.len() == cells,
                can_wall@.len() == cells,
                y < n,
                x <= m,
                graph.edges().len() == 2 * (y * m + x),
                0 <= finite_total(graph.edges()) <= y * m + x,
                cell_edges(graph.edges(), is_mountain@, can_wall@, y * m + x),
            decreases m - x,
        {
            proof {
                lemma_wrap(x as int, y as int, m as int, n as int);
            }
            let wrap = x + m * y;
            let cap = if is_mountain[wrap] {
                Capacity::Finite(0)
            } else if can_wall[wrap] {
                Capacity::Finite(1)
            } else {
                Capacity::Infinity
            };
            let ghost before = graph.edges();
            graph.add_edge(2 * wrap, 2 * wrap + 1, cap);
            proof {
                assert(wrap == y * m + x);
                assert forall|w: int| 0 <= w < y * m + x + 1 implies {
                    &&& #[trigger] graph.edges()[2 * w] == Edge {
                        node1: (2 * w + 1) as usize,
                        node2: (2 * w) as usize,
                        capacity: Capacity::Finite(0),
                        is_real: false,
                    }
                    &&& graph.edges()[2 * w + 1] == Edge {
                        node1: (2 * w) as usize,
                        node2: (2 * w + 1) as usize,
                        capacity: cell_cap(is_mountain@, can_wall@, w),
                        is_real: true,
                    }
                } by {
                    if w < y * m + x {
                        assert(before[2 * w] == graph.edges()[2 * w]);
                        assert(before[2 * w + 1] == graph.edges()[2 * w + 1]);
                    }
                }
            }
            x += 1;
        }
        proof {
            assert((y + 1) * m == y * m + m) by (nonlinear_arith);
        }
        y += 1;
    }
    let ghost mut added: int = cells;
    let ghost cell_part = graph.edges();
    proof {
        assert(n * m == n * m);
        assert forall|x2: int, y2: int| in_grid(m as int, n as int, x2, y2) && (y2 < 0 || (y2 == 0 && x2 < 0)) implies #[trigger] cell_links(
            graph.edges(),
            m as int,
            n as int,
            x2,
            y2,
        ) by {}
    }
    let mut y: usize = 0;
    while y < n
        invariant
            graph.wf(),
            graph.node_count() == 2 * cells,
            cells == n * m,
            10 * cells + 8 < usize::MAX,
            y <= n,
            cells <= added <= cells + 4 * (y * m),
            graph.edges().len() <= 2 * added,
            0 <= finite_total(graph.edges()) <= cells,
            cell_part.len() == 2 * cells,
            cell_part.len() <= graph.edges().len(),
            forall|i: int| 0 <= i < cell_part.len() ==> #[trigger] graph.edges()[i] == cell_part[i],
            forall|i: int| 2 * cells <= i < graph.edges().len() ==> link_edge(#[trigger] graph.edges()[i], m as int, n as int),
            links_done(graph.edges(), m as int, n as int, 0, y as int),
        decreases n - y,
    {
        let mut x: usize = 0;
        while x < m
            invariant
                graph.wf(),
                graph.node_count() == 2 * cells,
                cells == n * m,
                10 * cells + 8 < usize::MAX,
                y < n,
                x <= m,
                cells <= added <= cells + 4 * (y * m + x),
                graph.edges().len() <= 2 * added,
                0 <= finite_total(graph.edges()) <= cells,
                cell_part.len() == 2 * cells,
                cell_part.len() <= graph.edges().len(),
                forall|i: int| 0 <= i < cell_part.len() ==> #[trigger] graph.edges()[i] == cell_part[i],
                forall|i: int|
                    2 * cells <= i < graph.edges().len() ==> link_edge(#[trigger] graph.edges()[i], m as int, n as int),
                links_done(graph.edges(), m as int, n as int, x as int, y as int),
            decreases m - x,
        {
            proof {
                lemma_wrap(x as int, y as int, m as int, n as int);
                lemma_mul_le(y as int, n as int - 1, m as int, m as int);
                assert((n - 1) * m + m == n * m) by (nonlinear_arith);
                assert(m * (y + 1) == m * y + m) by (nonlinear_arith);
            }
            let ghost start = graph.edges();
            let wrap1 = x + m * y;
            if x + 1 < m {
                let wrap2 = wrap1 + 1;
                proof {
                    lemma_wrap(x + 1, y as int, m as int, n as int);
                }
                let ghost b0 = graph.edges();
                graph.add_edge(2 * wrap1 + 1, 2 * wrap2, Capacity::Infinity);
                proof {
                    lemma_add_link(b0, graph.edges(), m as int, n as int, cells, x as int, y as int, x + 1, y as int);
                }
                let ghost b1 = graph.edges();
                graph.add_edge(2 * wrap2 + 1, 2 * wrap1, Capacity::Infinity);
                proof {
                    lemma_add_link(b1, graph.edges(), m as int, n as int, cells, x + 1, y as int, x as int, y as int);
                    lemma_links_kept(b1, graph.edges(), m as int, n as int, 0, 0);
                }
            }
            let ghost mid = graph.edges();
            if y + 1 < n {
                let wrap3 = wrap1 + m;
                proof {
                    lemma_wrap(x as int, y + 1, m as int, n as int);
                }
                let ghost b0 = graph.edges();
                graph.add_edge(2 * wrap1 + 1, 2 * wrap3, Capacity::Infinity);
                proof {
                    lemma_add_link(b0, graph.edges(), m as int, n as int, cells, x as int, y as int, x as int, y + 1);
                }
                let ghost b1 = graph.edges();
                graph.add_edge(2 * wrap3 + 1, 2 * wrap1, Capacity::Infinity);
                proof {
                    lemma_add_link(b1, graph.edges(), m as int, n as int, cells, x as int, y + 1, x as int, y as int);
                    lemma_links_kept(b1, graph.edges(), m as int, n as int, 0, 0);
                }
            }
            proof {
                added = added + 4;
                let e = graph.edges();
                assert forall|i: int| 0 <= i < start.len() implies #[trigger] e[i] == start[i] by {}
                assert forall|i: int| 0 <= i < mid.len() implies #[trigger] e[i] == mid[i] by {}
                lemma_links_kept(start, e, m as int, n as int, x as int, y as int);
                lemma_links_kept(mid, e, m as int, n as int, 0, 0);
                assert(cell_links(e, m as int, n as int, x as int, y as int));
                assert forall|x2: int, y2: int|
                    in_grid(m as int, n as int, x2, y2) && (y2 < y || (y2 == y && x2 < x + 1)) implies #[trigger] cell_links(
                    e,
                    m as int,
                    n as int,
                    x2,
                    y2,
                ) by {
                    if !(x2 == x && y2 == y) {
                        assert(y2 < y || (y2 == y && x2 < x));
                    }
                }
            }
            x += 1;
        }
        proof {
            assert((y + 1) * m == y * m + m) by (nonlinear_arith);
            assert forall|x2: int, y2: int|
                in_grid(m as int, n as int, x2, y2) && (y2 < y + 1 || (y2 == y + 1 && x2 < 0)) implies #[trigger] cell_links(
                graph.edges(),
                m as int,
                n as int,
                x2,
                y2,
            ) by {
                assert(y2 < y || (y2 == y && x2 < m));
            }
        }
        y += 1;
    }
    proof {
        assert(2 * wrap_s != 2 * wrap_t + 1);
        let e = graph.edges();
        assert(cell_edges(e, is_mountain@, can_wall@, cells)) by {
            assert(cell_edges(cell_part, is_mountain@, can_wall@, cells));
            assert forall|w: int| 0 <= w < cells implies {
                &&& #[trigger] e[2 * w] == Edge {
                    node1: (2 * w + 1) as usize,
                    node2: (2 * w) as usize,
                    capacity: Capacity::Finite(0),
                    is_real: false,
                }
                &&& e[2 * w + 1] == Edge {
                    node1: (2 * w) as usize,
                    node2: (2 * w + 1) as usize,
                    capacity: cell_cap(is_mountain@, can_wall@, w),
                    is_real: true,
                }
            } by {
                assert(e[2 * w] == cell_part[2 * w]);
                assert(e[2 * w + 1] == cell_part[2 * w + 1]);
            }
        }
        assert(field_network(e, m as int, n as int, is_mountain@, can_wall@, mountains@, wall_options@));
        assert(entry(m as int, a) == 2 * wrap_s);
        assert(entry(m as int, b) + 1 == 2 * wrap_t + 1);
    }
    let ghost e0 = graph.edges();
    proof {
        graph.lemma_wf();
        lemma_flow_fits_twice(graph.edges(), graph.node_count());
    }
    let flow = graph.max_flow(2 * wrap_s, 2 * wrap_t + 1);
    proof {
        lemma_flow_path(e0, m as int, n as int, is_mountain@, can_wall@, mountains@, wall_options@, a, b, flow);
    }
    match flow {
        Capacity::Finite(_) => {
            let reach = graph.find_reachable_capable(2 * wrap_s);
            let ghost fin = graph.edges();
            let mut is_wall: Vec<bool> = vec![false; n * m];
            proof {
                assert forall|x: int, y: int|
                    0 <= x < m && 0 <= y < n implies !#[trigger] is_wall@[x + m * y] by {
                    lemma_wrap(x, y, m as int, n as int);
                }
            }
            let mut y: usize = 0;
            while y < n
                invariant
                    cells == n * m,
                    is_wall@.len() == cells,
                    is_mountain@.len() == cells,
                    can_wall@.len() == cells,
                    reach@.len() == 2 * cells,
                    10 * cells + 8 < usize::MAX,
                    y <= n,
                    forall|x2: int, y2: int|
                        0 <= x2 < m && 0 <= y2 < n && #[trigger] is_wall@[x2 + m * y2] ==> can_wall@[x2 + m * y2],
                    forall|x2: int, y2: int|
                        in_grid(m as int, n as int, x2, y2) && y2 < y && !#[trigger] is_wall@[x2 + m * y2]
                            && can_wall@[x2 + m * y2] && reach@[2 * (x2 + m * y2)] ==> neighbours_reached(
                            is_mountain@,
                            reach@,
                            m as int,
                            n as int,
                            x2,
                            y2,
                        ),
                decreases n - y,
            {
                let mut x: usize = 0;
                while x < m
                    invariant
                        cells == n * m,
                        is_wall@.len() == cells,
                        is_mountain@.len() == cells,
                        can_wall@.len() == cells,
                        reach@.len() == 2 * cells,
                        10 * cells + 8 < usize::MAX,
                        y < n,
                        x <= m,
                        forall|x2: int, y2: int|
                            0 <= x2 < m && 0 <= y2 < n && #[trigger] is_wall@[x2 + m * y2] ==> can_wall@[x2
                                + m * y2],
                        forall|x2: int, y2: int|
                            in_grid(m as int, n as int, x2, y2) && (y2 < y || (y2 == y && x2 < x))
                                && !#[trigger] is_wall@[x2 + m * y2] && can_wall@[x2 + m * y2] && reach@[2 * (x2 + m
                                * y2)] ==> neighbours_reached(is_mountain@, reach@, m as int, n as int, x2, y2),
                    decreases m - x,
                {
                    proof {
                        lemma_wrap(x as int, y as int, m as int, n as int);
                        assert(m * (y + 1) == m * y + m) by (nonlinear_arith);
                    }
                    let wrap = x + m * y;
                    if can_wall[wrap] && reach[2 * wrap] {
                        let wall = (x > 0 && !is_mountain[wrap - 1] && !reach[2 * (wrap - 1)])
                            || (y > 0 && !is_mountain[wrap - m] && !reach[2 * (wrap - m)])
                            || (x + 1 < m && !is_mountain[wrap + 1] && !reach[2 * (wrap + 1)])
                            || (y + 1 < n && !is_mountain[wrap + m] && !reach[2 * (wrap + m)]);
                        let ghost before = is_wall@;
                        is_wall.set(wrap, wall);
                        proof {
                            assert forall|x2: int, y2: int|
                                0 <= x2 < m && 0 <= y2 < n && #[trigger] is_wall@[x2 + m * y2] implies can_wall@[x2
                                + m * y2] by {
                                lemma_wrap(x2, y2, m as int, n as int);
                                if x2 + m * y2 != wrap {
                                    assert(before[x2 + m * y2]);
                                }
                            }
                            assert forall|x2: int, y2: int|
                                in_grid(m as int, n as int, x2, y2) && (y2 < y || (y2 == y && x2 < x + 1))
                                    && !#[trigger] is_wall@[x2 + m * y2] && can_wall@[x2 + m * y2] && reach@[2 * (x2
                                    + m * y2)] implies neighbours_reached(
                                is_mountain@,
                                reach@,
                                m as int,
                                n as int,
                                x2,
                                y2,
                            ) by {
                                lemma_wrap(x2, y2, m as int, n as int);
                                if x2 + m * y2 != wrap {
                                    assert(!before[x2 + m * y2]);
                                    if x2 == x && y2 == y {
                                        assert(false);
                                    }
                                } else {
                                    lemma_same_cell(x2, y2, x as int, y as int, m as int);
                                    assert(!wall);
                                }
                            }
                        }
                    } else {
                        proof {
                            assert forall|x2: int, y2: int|
                                in_grid(m as int, n as int, x2, y2) && (y2 < y || (y2 == y && x2 < x + 1))
                                    && !#[trigger] is_wall@[x2 + m * y2] && can_wall@[x2 + m * y2] && reach@[2 * (x2
                                    + m * y2)] implies neighbours_reached(
                                is_mountain@,
                                reach@,
                                m as int,
                                n as int,
                                x2,
                                y2,
                            ) by {
                                if x2 == x && y2 == y {
                                    assert(false);
                                }
                            }
                        }
                    }
                    x += 1;
                }
                y += 1;
            }
            let mut answer: Vec<[usize; 2]> = Vec::new();
            let mut y: usize = 0;
            while y < n
                invariant
                    cells == n * m,
                    10 * cells + 8 < usize::MAX,
                    m == mn[0],
                    n == mn[1],
                    is_wall@.len() == cells,
                    can_wall@.len() == cells,
                    y <= n,
                    forall|x2: int, y2: int|
                        0 <= x2 < m && 0 <= y2 < n && #[trigger] is_wall@[x2 + m * y2] ==> can_wall@[x2 + m * y2],
                    forall|x2: int, y2: int|
                        0 <= x2 < m && 0 <= y2 < n && #[trigger] can_wall@[x2 + m * y2] ==> wall_options@.contains(
                            [(x2 + 1) as usize, (y2 + 1) as usize],
                        ),
                    forall|k: int|
                        0 <= k < answer@.len() ==> {
                            &&& in_field(m as int, n as int, #[trigger] answer@[k])
                            &&& wall_options@.contains(answer@[k])
                        },
                    forall|x2: int, y2: int|
                        in_grid(m as int, n as int, x2, y2) && y2 < y && #[trigger] is_wall@[x2 + m * y2]
                            ==> answer@.contains([(x2 + 1) as usize, (y2 + 1) as usize]),
                decreases n - y,
            {
                let mut x: usize = 0;
                while x < m
                    invariant
                        cells == n * m,
                        10 * cells + 8 < usize::MAX,
                        m == mn[0],
                        n == mn[1],
                        is_wall@.len() == cells,
                        can_wall@.len() == cells,
                        y < n,
                        x <= m,
                        forall|x2: int, y2: int|
                            0 <= x2 < m && 0 <= y2 < n && #[trigger] is_wall@[x2 + m * y2] ==> can_wall@[x2
                                + m * y2],
                        forall|x2: int, y2: int|
                            0 <= x2 < m && 0 <= y2 < n && #[trigger] can_wall@[x2 + m * y2]
                                ==> wall_options@.contains([(x2 + 1) as usize, (y2 + 1) as usize]),
                        forall|k: int|
                            0 <= k < answer@.len() ==> {
                                &&& in_field(m as int, n as int, #[trigger] answer@[k])
                                &&& wall_options@.contains(answer@[k])
                            },
                        forall|x2: int, y2: int|
                            in_grid(m as int, n as int, x2, y2) && (y2 < y || (y2 == y && x2 < x))
                                && #[trigger] is_wall@[x2 + m * y2] ==> answer@.contains(
                                [(x2 + 1) as usize, (y2 + 1) as usize],
                            ),
                    decreases m - x,
                {
                    proof {
                        lemma_wrap(x as int, y as int, m as int, n as int);
                    }
                    let wrap = x + m * y;
                    if is_wall[wrap] {
                        proof {
                            assert(can_wall@[x + m * y]);
                        }
                        let ghost before = answer@;
                        answer.push([x + 1, y + 1]);
                        proof {
                            assert(answer@[before.len() as int] == [(x + 1) as usize, (y + 1) as usize]);
                            assert forall|x2: int, y2: int|
                                in_grid(m as int, n as int, x2, y2) && (y2 < y || (y2 == y && x2 < x + 1))
                                    && #[trigger] is_wall@[x2 + m * y2] implies answer@.contains(
                                [(x2 + 1) as usize, (y2 + 1) as usize],
                            ) by {
                                if x2 == x && y2 == y {
                                    assert([(x2 + 1) as usize, (y2 + 1) as usize] == [(x + 1) as usize, (y + 1) as usize]);
                                } else {
                                    let c = [(x2 + 1) as usize, (y2 + 1) as usize];
                                    assert(before.contains(c));
                                    let k = choose|k: int| 0 <= k < before.len() && before[k] == c;
                                    assert(answer@[k] == c);
                                }
                            }
                        }
                    } else {
                        proof {
                            assert forall|x2: int, y2: int|
                                in_grid(m as int, n as int, x2, y2) && (y2 < y || (y2 == y && x2 < x + 1))
                                    && #[trigger] is_wall@[x2 + m * y2] implies answer@.contains(
                                [(x2 + 1) as usize, (y2 + 1) as usize],
                            ) by {
                                if x2 == x && y2 == y {
                                    assert(false);
                                }
                            }
                        }
                    }
                    x += 1;
                }
                y += 1;
            }
            proof {
                let fm = m as int;
                let fn_ = n as int;
                assert(walls_chosen(
                    e0,
                    fin,
                    fm,
                    fn_,
                    is_mountain@,
                    can_wall@,
                    is_wall@,
                    reach@,
                    mountains@,
                    wall_options@,
                    answer@,
                    a,
                ));
                assert forall|p: Seq<[usize; 2]>| wall_options@.contains(b) ==> answer@.contains(b) implies !#[trigger] free_path(
                    fm,
                    fn_,
                    mountains@,
                    answer@,
                    a,
                    b,
                    p,
                ) by {
                    lemma_walls_separate(
                        e0,
                        fin,
                        fm,
                        fn_,
                        is_mountain@,
                        can_wall@,
                        is_wall@,
                        reach@,
                        mountains@,
                        wall_options@,
                        answer@,
                        a,
                        b,
                        p,
                    );
                }
            }
            Some(answer)
        },
        Capacity::Infinity => None,
    }
}

/// Two cells with the same index in a field of width `m` are the same cell.
proof fn lemma_same_cell(x1: int, y1: int, x2: int, y2: int, m: int)
    requires
        0 <= x1 < m,
        0 <= x2 < m,
        0 <= y1,
        0 <= y2,
        x1 + m * y1 == x2 + m * y2,
    ensures
        x1 == x2,
        y1 == y2,
{
    if y1 < y2 {
        assert(m * y1 + m <= m * y2) by (nonlinear_arith)
            requires
                y1 < y2,
                m >= 0,
        ;
    } else if y2 < y1 {
        assert(m * y2 + m <= m * y1) by (nonlinear_arith)
            requires
                y2 < y1,
                m >= 0,
        ;
    }
}

} // verus!
