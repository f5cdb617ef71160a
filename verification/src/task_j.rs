use vstd::prelude::*;
use crate::capacity::Capacity;
use crate::graph::{partners_idle, lemma_flow_fits, 
    Graph, finite_total, lemma_no_unbounded_reach, cut_value, cut_finite, separates, lemma_cut_value_push2,
    is_max_flow_value,
};
use crate::grid::{lemma_cell_index, lemma_mul_step, lemma_mul_le, total, lemma_total_congruent, lemma_total_zero, lemma_cell_split};
use crate::strings::chars_of;

verus! {


/// Two more edges allow for twice the largest capacity more.
proof fn lemma_two_more(added: int, big: int)
    ensures
        2 * (added + 1) * big == 2 * added * big + 2 * big,
{
    assert(2 * (added + 1) * big == 2 * added * big + 2 * big) by (nonlinear_arith);
}

/// What the cell with index `k` (row `k / m`, column `k % m`) costs when
/// the cells in `black` end black: `w` if it was black and turns white, `b`
/// if it was white and turns black.
pub open spec fn cell_cost(painting: Seq<&str>, m: int, w: int, b: int, black: Set<int>) -> spec_fn(int) -> int {
    |k: int|
        if painting[k / m]@[k % m] == 'B' {
            if black.contains(k) {
                0
            } else {
                w
            }
        } else {
            if black.contains(k) {
                b
            } else {
                0
            }
        }
}

/// `g` when exactly one of the cells `x` and `y` ends black.
pub open spec fn pair_cost(black: Set<int>, x: int, y: int, g: int) -> int {
    if black.contains(x) != black.contains(y) {
        g
    } else {
        0
    }
}

/// What the border between cell `k` and its left neighbour costs.
pub open spec fn left_cost(m: int, g: int, black: Set<int>) -> spec_fn(int) -> int {
    |k: int|
        if k % m > 0 {
            pair_cost(black, k - 1, k, g)
        } else {
            0
        }
}

/// What the border between cell `k` and its upper neighbour costs.
pub open spec fn up_cost(m: int, g: int, black: Set<int>) -> spec_fn(int) -> int {
    |k: int|
        if k >= m {
            pair_cost(black, k - m, k, g)
        } else {
            0
        }
}

/// The total cost of ending with the cells in `black` black (cells indexed
/// row by row) and the others white.
pub open spec fn recolor_cost(painting: Seq<&str>, n: int, m: int, w: int, b: int, g: int, black: Set<int>) -> int {
    total(cell_cost(painting, m, w, b, black), n * m) + total(left_cost(m, g, black), n * m) + total(
        up_cost(m, g, black),
        n * m,
    )
}

/// The cost depends only on which cells end black.
proof fn lemma_cost_cells_only(
    painting: Seq<&str>,
    n: int,
    m: int,
    w: int,
    b: int,
    g: int,
    x: Set<int>,
    y: Set<int>,
)
    requires
        0 <= n,
        0 <= m,
        forall|k: int| 0 <= k < n * m ==> x.contains(k) == y.contains(k),
    ensures
        recolor_cost(painting, n, m, w, b, g, x) == recolor_cost(painting, n, m, w, b, g, y),
{
    let c1 = cell_cost(painting, m, w, b, x);
    let c2 = cell_cost(painting, m, w, b, y);
    assert forall|k: int| 0 <= k < n * m implies #[trigger] c1(k) == c2(k) by {}
    lemma_total_congruent(c1, c2, n * m);
    let l1 = left_cost(m, g, x);
    let l2 = left_cost(m, g, y);
    assert forall|k: int| 0 <= k < n * m implies #[trigger] l1(k) == l2(k) by {
        if k % m > 0 {
            assert(k > 0) by (nonlinear_arith)
                requires
                    k % m > 0,
                    k >= 0,
                    m > 0,
            ;
            assert(x.contains(k - 1) == y.contains(k - 1));
        }
    }
    lemma_total_congruent(l1, l2, n * m);
    let u1 = up_cost(m, g, x);
    let u2 = up_cost(m, g, y);
    assert forall|k: int| 0 <= k < n * m implies #[trigger] u1(k) == u2(k) by {
        if k >= m {
            assert(x.contains(k - m) == y.contains(k - m));
        }
    }
    lemma_total_congruent(u1, u2, n * m);
}

/// The least total cost of recolouring the `n` by `m` painting: `w` for each
/// black cell made white, `b` for each white cell made black, `g` for each
/// pair of neighbouring cells left with different colours. Computed as the
/// maximum flow of the network where the source feeds each black cell with
/// capacity `w`, each white cell feeds the sink with capacity `b`, and
/// neighbouring cells are joined both ways with capacity `g`.
pub fn solve(nm: [usize; 2], wbg: [u64; 3], painting: &[&str]) -> (cost: u64)
    requires
        painting@.len() == nm[0],
        forall|i: int| 0 <= i < painting@.len() ==> (#[trigger] painting@[i])@.len() == nm[1],
        forall|i: int, j: int|
            0 <= i < painting@.len() && 0 <= j < nm[1] ==> (#[trigger] painting@[i]@[j] == 'B' || painting@[i]@[j] == 'W'),
        nm[0] * nm[1] * 6 + 8 < usize::MAX,
        6 * (nm[0] * nm[1]) * wbg[0] <= u64::MAX,
        6 * (nm[0] * nm[1]) * wbg[1] <= u64::MAX,
        6 * (nm[0] * nm[1]) * wbg[2] <= u64::MAX,
    ensures
        exists|black: Set<int>|
            #[trigger] recolor_cost(painting@, nm[0] as int, nm[1] as int, wbg[0] as int, wbg[1] as int, wbg[2] as int, black)
                == cost,
        forall|black: Set<int>|
            cost <= #[trigger] recolor_cost(painting@, nm[0] as int, nm[1] as int, wbg[0] as int, wbg[1] as int, wbg[2] as int, black),
{
    let n = nm[0];
    let m = nm[1];
    let w = wbg[0];
    let b = wbg[1];
    let g = wbg[2];
    proof {
        lemma_mul_le(0, n as int, 0, m as int);
    }
    let mut graph = Graph::new(n * m + 2);
    let s = graph.n_nodes() - 2;
    let t = s + 1;
    let ghost cells = (n * m) as int;
    let ghost big: int = if w >= b && w >= g { w as int } else if b >= g { b as int } else { g as int };
    let ghost mut added: int = 0;
    let mut i: usize = 0;
    while i < n
        invariant
            graph.wf(),
            graph.node_count() == cells + 2,
            cells == n * m,
            s == cells,
            t == cells + 1,
            n == nm[0],
            m == nm[1],
            painting@.len() == n,
            forall|i2: int| 0 <= i2 < painting@.len() ==> (#[trigger] painting@[i2])@.len() == m,
            forall|i2: int, j2: int|
                0 <= i2 < painting@.len() && 0 <= j2 < m ==> (#[trigger] painting@[i2]@[j2] == 'B' || painting@[i2]@[j2] == 'W'),
            n * m * 6 + 8 < usize::MAX,
            w <= big,
            b <= big,
            i <= n,
            added == i * m,
            graph.edges().len() == 2 * added,
            0 <= finite_total(graph.edges()) <= 2 * added * big,
            forall|e: int| 0 <= e < graph.edges().len() ==> (#[trigger] graph.edges()[e]).capacity is Finite,
            forall|cut: Set<int>|
                separates(cut, s as int, t as int) ==> #[trigger] cut_value(graph.edges(), cut) == total(
                    cell_cost(painting@, m as int, w as int, b as int, cut),
                    added,
                ),
        decreases n - i,
    {
        let row = chars_of(painting[i]);
        let mut j: usize = 0;
        while j < row.len()
            invariant
                graph.wf(),
                graph.node_count() == cells + 2,
                cells == n * m,
                s == cells,
                t == cells + 1,
                n * m * 6 + 8 < usize::MAX,
                row@.len() == m,
                i < n,
                j <= m,
                w <= big,
                b <= big,
                forall|j2: int| 0 <= j2 < m ==> (#[trigger] row@[j2] == 'B' || row@[j2] == 'W'),
                added == i * m + j,
                graph.edges().len() == 2 * added,
                0 <= finite_total(graph.edges()) <= 2 * added * big,
                forall|e: int| 0 <= e < graph.edges().len() ==> (#[trigger] graph.edges()[e]).capacity is Finite,
                row@ == painting@[i as int]@,
                forall|cut: Set<int>|
                    separates(cut, s as int, t as int) ==> #[trigger] cut_value(graph.edges(), cut) == total(
                        cell_cost(painting@, m as int, w as int, b as int, cut),
                        added,
                    ),
            decreases m - j,
        {
            proof {
                lemma_cell_index(i as int, j as int, n as int, m as int);
                lemma_two_more(added, big);
                lemma_cell_split(i as int, j as int, m as int);
            }
            let wrap = i * m + j;
            let c = row[j];
            let ghost before = graph.edges();
            if c == 'B' {
                graph.add_edge(s, wrap, Capacity::Finite(w));
            } else {
                graph.add_edge(wrap, t, Capacity::Finite(b));
            }
            proof {
                let e2 = graph.edges();
                assert forall|cut: Set<int>| separates(cut, s as int, t as int) implies #[trigger] cut_value(
                    graph.edges(),
                    cut,
                ) == total(cell_cost(painting@, m as int, w as int, b as int, cut), added + 1) by {
                    lemma_cut_value_push2(before, cut, e2[before.len() as int], e2[before.len() + 1int]);
                    assert(e2 == before.push(e2[before.len() as int]).push(e2[before.len() + 1int]));
                    assert(cut_value(before, cut) == total(cell_cost(painting@, m as int, w as int, b as int, cut), added));
                }
                added = added + 1;
            }
            j += 1;
        }
        proof {
            lemma_mul_step(i as int, m as int);
            lemma_mul_step(i - 1, m as int);
            if m == 0 {
                assert(i * m == 0 && (i + 1) * m == 0) by (nonlinear_arith)
                    requires
                        m == 0,
                ;
            }
        }
        i += 1;
    }
    let mut i: usize = 0;
    while i < n
        invariant
            graph.wf(),
            graph.node_count() == cells + 2,
            cells == n * m,
            s == cells,
            t == cells + 1,
            n == nm[0],
            m == nm[1],
            n * m * 6 + 8 < usize::MAX,
            g <= big,
            i <= n,
            added <= cells + i * m,
            graph.edges().len() == 2 * added,
            0 <= finite_total(graph.edges()) <= 2 * added * big,
            forall|e: int| 0 <= e < graph.edges().len() ==> (#[trigger] graph.edges()[e]).capacity is Finite,
            forall|cut: Set<int>|
                separates(cut, s as int, t as int) ==> #[trigger] cut_value(graph.edges(), cut) == total(cell_cost(painting@, m as int, w as int, b as int, cut), cells) + total(
                    left_cost(m as int, g as int, cut),
                    i * m,
                ),
        decreases n - i,
    {
        proof {
            if m >= 1 {
                lemma_cell_split(i as int, 0, m as int);
                assert forall|cut: Set<int>| separates(cut, s as int, t as int) implies #[trigger] cut_value(
                    graph.edges(),
                    cut,
                ) == total(cell_cost(painting@, m as int, w as int, b as int, cut), cells) + total(left_cost(m as int, g as int, cut), i * m + 1) by {
                    let lc = left_cost(m as int, g as int, cut);
                    assert(lc(i * m) == 0);
                }
            }
        }
        let mut j: usize = 1;
        while j < m
            invariant
                graph.wf(),
                graph.node_count() == cells + 2,
                cells == n * m,
                n * m * 6 + 8 < usize::MAX,
                i < n,
                1 <= j,
                m >= 1 ==> j <= m,
                m == 0 ==> j == 1,
                g <= big,
                added + 1 <= cells + i * m + j,
                graph.edges().len() == 2 * added,
                0 <= finite_total(graph.edges()) <= 2 * added * big,
                forall|e: int| 0 <= e < graph.edges().len() ==> (#[trigger] graph.edges()[e]).capacity is Finite,
                s == cells,
                t == cells + 1,
                forall|cut: Set<int>|
                    separates(cut, s as int, t as int) ==> #[trigger] cut_value(graph.edges(), cut) == total(cell_cost(painting@, m as int, w as int, b as int, cut), cells) + total(
                        left_cost(m as int, g as int, cut),
                        if m >= 1 { i * m + j } else { i * m },
                    ),
            decreases m - j,
        {
            proof {
                lemma_cell_index(i as int, j as int, n as int, m as int);
                lemma_two_more(added, big);
                lemma_cell_split(i as int, j as int, m as int);
            }
            let wrap1 = i * m + j - 1;
            let wrap2 = i * m + j;
            let ghost before = graph.edges();
            graph.add_biedge(wrap1, wrap2, Capacity::Finite(g));
            proof {
                let e2 = graph.edges();
                assert forall|cut: Set<int>| separates(cut, s as int, t as int) implies #[trigger] cut_value(
                    graph.edges(),
                    cut,
                ) == total(cell_cost(painting@, m as int, w as int, b as int, cut), cells) + total(left_cost(m as int, g as int, cut), if m >= 1 { i * m + j + 1 } else { i * m }) by {
                    lemma_cut_value_push2(before, cut, e2[before.len() as int], e2[before.len() + 1int]);
                    assert(e2 == before.push(e2[before.len() as int]).push(e2[before.len() + 1int]));
                    let lc = left_cost(m as int, g as int, cut);
                    assert(lc(i * m + j) == pair_cost(cut, wrap1 as int, wrap2 as int, g as int));
                }
                added = added + 1;
            }
            j += 1;
        }
        proof {
            lemma_mul_step(i as int, m as int);
            lemma_mul_step(i - 1, m as int);
            if m == 0 {
                assert(i * m == 0 && (i + 1) * m == 0) by (nonlinear_arith)
                    requires
                        m == 0,
                ;
            }
        }
        i += 1;
    }
    proof {
        if n >= 1 {
            assert(n * m == (n - 1) * m + m) by (nonlinear_arith);
            lemma_mul_le(1, n as int, m as int, m as int);
        } else {
            assert(n * m == 0) by (nonlinear_arith)
                requires
                    n == 0,
            ;
        }
        assert forall|cut: Set<int>| separates(cut, s as int, t as int) implies #[trigger] cut_value(graph.edges(), cut)
            == total(cell_cost(painting@, m as int, w as int, b as int, cut), cells) + total(left_cost(m as int, g as int, cut), cells) + total(
            up_cost(m as int, g as int, cut),
            1 * m,
        ) by {
            let uc = up_cost(m as int, g as int, cut);
            assert forall|k: int| 0 <= k < 1 * m implies #[trigger] uc(k) == 0 by {}
            lemma_total_zero(uc, 1 * m);
        }
    }
    let mut i: usize = 1;
    while i < n
        invariant
            graph.wf(),
            graph.node_count() == cells + 2,
            cells == n * m,
            s == cells,
            t == cells + 1,
            n == nm[0],
            m == nm[1],
            n * m * 6 + 8 < usize::MAX,
            g <= big,
            1 <= i,
            n >= 1 ==> i <= n,
            n == 0 ==> i == 1,
            added <= 2 * cells + (i - 1) * m,
            graph.edges().len() == 2 * added,
            0 <= finite_total(graph.edges()) <= 2 * added * big,
            forall|e: int| 0 <= e < graph.edges().len() ==> (#[trigger] graph.edges()[e]).capacity is Finite,
            forall|cut: Set<int>|
                separates(cut, s as int, t as int) ==> #[trigger] cut_value(graph.edges(), cut) == total(cell_cost(painting@, m as int, w as int, b as int, cut), cells) + total(
                    left_cost(m as int, g as int, cut),
                    cells,
                ) + total(up_cost(m as int, g as int, cut), i * m),
        decreases n - i,
    {
        let mut j: usize = 0;
        while j < m
            invariant
                graph.wf(),
                graph.node_count() == cells + 2,
                cells == n * m,
                n * m * 6 + 8 < usize::MAX,
                1 <= i < n,
                j <= m,
                g <= big,
                added <= 2 * cells + (i - 1) * m + j,
                graph.edges().len() == 2 * added,
                0 <= finite_total(graph.edges()) <= 2 * added * big,
                forall|e: int| 0 <= e < graph.edges().len() ==> (#[trigger] graph.edges()[e]).capacity is Finite,
                s == cells,
                t == cells + 1,
                forall|cut: Set<int>|
                    separates(cut, s as int, t as int) ==> #[trigger] cut_value(graph.edges(), cut) == total(cell_cost(painting@, m as int, w as int, b as int, cut), cells) + total(
                        left_cost(m as int, g as int, cut),
                        cells,
                    ) + total(up_cost(m as int, g as int, cut), i * m + j),
            decreases m - j,
        {
            proof {
                lemma_cell_index(i as int, j as int, n as int, m as int);
                lemma_cell_index((i - 1) as int, j as int, n as int, m as int);
                lemma_mul_step((i - 1) as int, m as int);
                lemma_two_more(added, big);
            }
            let wrap1 = (i - 1) * m + j;
            let wrap2 = i * m + j;
            let ghost before = graph.edges();
            graph.add_biedge(wrap1, wrap2, Capacity::Finite(g));
            proof {
                let e2 = graph.edges();
                assert forall|cut: Set<int>| separates(cut, s as int, t as int) implies #[trigger] cut_value(
                    graph.edges(),
                    cut,
                ) == total(cell_cost(painting@, m as int, w as int, b as int, cut), cells) + total(left_cost(m as int, g as int, cut), cells) + total(
                    up_cost(m as int, g as int, cut),
                    i * m + j + 1,
                ) by {
                    lemma_cut_value_push2(before, cut, e2[before.len() as int], e2[before.len() + 1int]);
                    assert(e2 == before.push(e2[before.len() as int]).push(e2[before.len() + 1int]));
                    let uc = up_cost(m as int, g as int, cut);
                    assert(uc(i * m + j) == pair_cost(cut, wrap1 as int, wrap2 as int, g as int));
                }
                added = added + 1;
            }
            j += 1;
        }
        proof {
            lemma_mul_step(i as int, m as int);
            lemma_mul_step(i - 1, m as int);
            if m == 0 {
                assert(i * m == 0 && (i + 1) * m == 0) by (nonlinear_arith)
                    requires
                        m == 0,
                ;
            }
        }
        i += 1;
    }
    proof {
        if n == 0 {
            assert(cells == 0) by (nonlinear_arith)
                requires
                    n == 0,
                    cells == n * m,
            ;
        }
        assert(added <= 3 * cells) by (nonlinear_arith)
            requires
                added <= 2 * cells + (i - 1) * m,
                n >= 1 ==> i == n,
                n == 0 ==> cells == 0 && i == 1,
                cells == n * m,
                m >= 0,
                i >= 1,
        ;
        lemma_mul_le(2 * added, 6 * cells, big, big);
        assert(2 * added * big == (2 * added) * big) by (nonlinear_arith);
        lemma_no_unbounded_reach(graph.edges(), s as int, t as int);
    }
    let ghost e0 = graph.edges();
    proof {
        graph.lemma_wf();
        assert(partners_idle(graph.edges())) by {
            reveal(partners_idle);
        }
        lemma_flow_fits(graph.edges());
    }
    let flow = graph.max_flow(s, t);
    proof {
        let (nn, mm, ww, bb, gg) = (n as int, m as int, w as int, b as int, g as int);
        assert forall|cut: Set<int>| separates(cut, s as int, t as int) implies cut_value(e0, cut) == recolor_cost(
            painting@,
            nn,
            mm,
            ww,
            bb,
            gg,
            cut,
        ) by {
            assert(cut_value(e0, cut) == total(cell_cost(painting@, mm, ww, bb, cut), cells) + total(
                left_cost(mm, gg, cut),
                cells,
            ) + total(up_cost(mm, gg, cut), cells));
        }
        let fv = flow->0 as int;
        assert(is_max_flow_value(e0, s as int, t as int, fv));
        let best = choose|cut: Set<int>| separates(cut, s as int, t as int) && cut_finite(e0, cut) && cut_value(e0, cut) == fv;
        assert(recolor_cost(painting@, nn, mm, ww, bb, gg, best) == fv);
        assert forall|black: Set<int>| fv <= #[trigger] recolor_cost(painting@, nn, mm, ww, bb, gg, black) by {
            let cut = black.insert(s as int).remove(t as int);
            assert(separates(cut, s as int, t as int));
            assert(cut_finite(e0, cut));
            assert(fv <= cut_value(e0, cut));
            lemma_cost_cells_only(painting@, nn, mm, ww, bb, gg, black, cut);
        }
    }
    flow.unwrap()
}

} // verus!
