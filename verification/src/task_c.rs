use vstd::prelude::*;
use crate::capacity::Capacity;
use crate::graph::{partners_idle, lemma_flow_fits, 
    Graph, Edge, finite_total, lemma_no_unbounded_reach, cut_value, separates, lemma_cut_value_push2, cut_finite,
    is_max_flow_value,
};
use crate::grid::{lemma_cell_index, lemma_mul_step, lemma_mul_le, total, grid_sum, row_sums, row_fn, lemma_grid_combine};
use crate::strings::chars_of;

verus! {

/// The characters a molecule is drawn with: an empty cell or an atom.
pub open spec fn is_cell(c: char) -> bool {
    c == '.' || c == 'H' || c == 'O' || c == 'N' || c == 'C'
}

/// The number of bonds an atom takes: one for hydrogen, two for oxygen,
/// three for nitrogen, four for carbon, none for an empty cell.
pub open spec fn valence(c: char) -> int {
    if c == 'H' {
        1
    } else if c == 'O' {
        2
    } else if c == 'N' {
        3
    } else if c == 'C' {
        4
    } else {
        0
    }
}

/// The total valence of the first `k` cells of a row.
pub open spec fn row_valence(row: Seq<char>, k: int) -> int
    decreases k,
{
    if k <= 0 {
        0
    } else {
        row_valence(row, k - 1) + valence(row[k - 1])
    }
}

/// The total valence of the first `k` rows.
pub open spec fn grid_valence(lines: Seq<&str>, k: int) -> int
    decreases k,
{
    if k <= 0 {
        0
    } else {
        grid_valence(lines, k - 1) + row_valence(lines[k - 1]@, lines[k - 1]@.len() as int)
    }
}

/// The valence of the cell in row `i` and column `j`, both from zero.
pub open spec fn cell_valence(lines: Seq<&str>) -> spec_fn(int, int) -> int {
    |i: int, j: int| valence(lines[i]@[j])
}

/// The cell in row `i` and column `j` is a white square of the chessboard.
pub open spec fn is_white(i: int, j: int) -> bool {
    (i + j) % 2 == 0
}

/// The valence on the white squares, or on the black ones.
pub open spec fn colour_valence(lines: Seq<&str>, white: bool) -> spec_fn(int, int) -> int {
    |i: int, j: int| if is_white(i, j) == white { valence(lines[i]@[j]) } else { 0int }
}

/// The valence of the white squares in `whites`, or of the black squares in
/// `blacks`.
pub open spec fn chosen_valence(lines: Seq<&str>, white: bool, chosen: Set<(int, int)>) -> spec_fn(int, int) -> int {
    |i: int, j: int| if is_white(i, j) == white && chosen.contains((i, j)) { valence(lines[i]@[j]) } else { 0int }
}

/// One for each pair of cells side by side along a row (the cell at `j` and
/// the one before it) whose white cell is in `whites` and whose black cell
/// is not in `blacks`.
pub open spec fn row_pairs_out(whites: Set<(int, int)>, blacks: Set<(int, int)>) -> spec_fn(int, int) -> int {
    |i: int, j: int|
        if j >= 1 {
            if is_white(i, j) {
                if whites.contains((i, j)) && !blacks.contains((i, j - 1)) { 1int } else { 0int }
            } else {
                if whites.contains((i, j - 1)) && !blacks.contains((i, j)) { 1int } else { 0int }
            }
        } else {
            0int
        }
}

/// The same for pairs of cells one above the other (the cell at `i` and the
/// one above it).
pub open spec fn column_pairs_out(whites: Set<(int, int)>, blacks: Set<(int, int)>) -> spec_fn(int, int) -> int {
    |i: int, j: int|
        if i >= 1 {
            if is_white(i, j) {
                if whites.contains((i, j)) && !blacks.contains((i - 1, j)) { 1int } else { 0int }
            } else {
                if whites.contains((i - 1, j)) && !blacks.contains((i, j)) { 1int } else { 0int }
            }
        } else {
            0int
        }
}

/// The atoms can share single bonds between neighbouring cells so that each
/// takes exactly its valence: the white squares hold as much valence as the
/// black ones, and no set of white atoms needs more bonds than any set of
/// black atoms can give plus the neighbour pairs that lead from the first
/// set out of the second.
pub open spec fn can_bond(lines: Seq<&str>, n: int, m: int) -> bool {
    &&& grid_sum(colour_valence(lines, true), n, m) == grid_sum(colour_valence(lines, false), n, m)
    &&& forall|whites: Set<(int, int)>, blacks: Set<(int, int)>|
        grid_sum(chosen_valence(lines, true, whites), n, m) <= grid_sum(chosen_valence(lines, false, blacks), n, m)
            + #[trigger] grid_sum(row_pairs_out(whites, blacks), n, m) + grid_sum(column_pairs_out(whites, blacks), n, m)
}

/// The entry node of the cell in row `i` and column `j`; its exit is the next.
pub open spec fn cell_node(m: int, i: int, j: int) -> int {
    2 * (i * m + j)
}

/// What the edges of a cell carry out of a cut `S` that holds the source and
/// not the sink: its own edge, and the source's edge to a white cell or a
/// black cell's edge to the sink.
pub open spec fn cell_cut(lines: Seq<&str>, m: int, cut: Set<int>) -> spec_fn(int, int) -> int {
    |i: int, j: int|
        {
            let a = cell_node(m, i, j);
            let v = valence(lines[i]@[j]);
            (if cut.contains(a) && !cut.contains(a + 1) { v } else { 0int }) + if is_white(i, j) {
                if !cut.contains(a) { v } else { 0int }
            } else {
                if cut.contains(a + 1) { v } else { 0int }
            }
        }
}

/// What the edge between a cell and the one before it in its row carries
/// out of a cut: from the white cell's exit to the black cell's entry.
pub open spec fn row_link_cut(m: int, cut: Set<int>) -> spec_fn(int, int) -> int {
    |i: int, j: int|
        if j >= 1 {
            if is_white(i, j) {
                if cut.contains(cell_node(m, i, j) + 1) && !cut.contains(cell_node(m, i, j - 1)) { 1int } else { 0int }
            } else {
                if cut.contains(cell_node(m, i, j - 1) + 1) && !cut.contains(cell_node(m, i, j)) { 1int } else { 0int }
            }
        } else {
            0int
        }
}

/// The same for the edge between a cell and the one above it.
pub open spec fn column_link_cut(m: int, cut: Set<int>) -> spec_fn(int, int) -> int {
    |i: int, j: int|
        if i >= 1 {
            if is_white(i, j) {
                if cut.contains(cell_node(m, i, j) + 1) && !cut.contains(cell_node(m, i - 1, j)) { 1int } else { 0int }
            } else {
                if cut.contains(cell_node(m, i - 1, j) + 1) && !cut.contains(cell_node(m, i, j)) { 1int } else { 0int }
            }
        } else {
            0int
        }
}

/// No edge runs above the first row.
proof fn lemma_total_zero_rows(m: int)
    ensures
        forall|cut: Set<int>| #[trigger] row_sums(column_link_cut(m, cut), m)(0) == 0,
{
    assert forall|cut: Set<int>| #[trigger] row_sums(column_link_cut(m, cut), m)(0) == 0 by {
        let f = row_fn(column_link_cut(m, cut), 0);
        assert forall|j: int| 0 <= j < m implies #[trigger] f(j) == 0 by {}
        crate::grid::lemma_total_zero(f, m);
    }
}

/// The capacity of a cut `S` of the network, cell by cell and pair by pair.
pub open spec fn full_cut(lines: Seq<&str>, n: int, m: int, cut: Set<int>) -> int {
    grid_sum(cell_cut(lines, m, cut), n, m) + grid_sum(row_link_cut(m, cut), n, m) + grid_sum(column_link_cut(m, cut), n, m)
}

/// The cells whose entry and exit a cut holds, and those whose entry it holds.
pub open spec fn cut_whites(m: int, cut: Set<int>) -> Set<(int, int)> {
    Set::new(|p: (int, int)| cut.contains(cell_node(m, p.0, p.1)) && cut.contains(cell_node(m, p.0, p.1) + 1))
}

/// The cells whose entry a cut holds.
pub open spec fn cut_blacks(m: int, cut: Set<int>) -> Set<(int, int)> {
    Set::new(|p: (int, int)| cut.contains(cell_node(m, p.0, p.1)))
}

/// A cut carries out at least the white valence, less the valence of the
/// white cells it holds whole, plus the valence of the black cells whose
/// entry it holds, plus the neighbour pairs that lead from the first out of
/// the second.
proof fn lemma_cut_lower(lines: Seq<&str>, n: int, m: int, cut: Set<int>)
    ensures
        ({
            let te = cut_whites(m, cut);
            let to = cut_blacks(m, cut);
            full_cut(lines, n, m, cut) >= grid_sum(colour_valence(lines, true), n, m) - grid_sum(chosen_valence(lines, true, te), n, m)
                + grid_sum(chosen_valence(lines, false, to), n, m) + grid_sum(row_pairs_out(te, to), n, m) + grid_sum(
                column_pairs_out(te, to),
                n,
                m,
            )
        }),
{
    let te = cut_whites(m, cut);
    let to = cut_blacks(m, cut);
    let f1 = cell_cut(lines, m, cut);
    let a1 = colour_valence(lines, true);
    let b1 = chosen_valence(lines, false, to);
    let c1 = chosen_valence(lines, true, te);
    assert forall|i: int, j: int| 0 <= i < n && 0 <= j < m implies #[trigger] f1(i, j) >= a1(i, j) + b1(i, j) - c1(i, j) by {
        assert(te.contains((i, j)) == (cut.contains(cell_node(m, i, j)) && cut.contains(cell_node(m, i, j) + 1)));
        assert(to.contains((i, j)) == cut.contains(cell_node(m, i, j)));
    }
    lemma_grid_combine(f1, a1, b1, c1, n, m);
    let zero = |i: int, j: int| 0int;
    let f2 = row_link_cut(m, cut);
    let a2 = row_pairs_out(te, to);
    assert forall|i: int, j: int| 0 <= i < n && 0 <= j < m implies #[trigger] f2(i, j) >= a2(i, j) + zero(i, j) - zero(i, j) by {
        assert(te.contains((i, j)) == (cut.contains(cell_node(m, i, j)) && cut.contains(cell_node(m, i, j) + 1)));
        assert(to.contains((i, j)) == cut.contains(cell_node(m, i, j)));
        assert(te.contains((i, j - 1)) == (cut.contains(cell_node(m, i, j - 1)) && cut.contains(cell_node(m, i, j - 1) + 1)));
        assert(to.contains((i, j - 1)) == cut.contains(cell_node(m, i, j - 1)));
    }
    lemma_grid_combine(f2, a2, zero, zero, n, m);
    let f3 = column_link_cut(m, cut);
    let a3 = column_pairs_out(te, to);
    assert forall|i: int, j: int| 0 <= i < n && 0 <= j < m implies #[trigger] f3(i, j) >= a3(i, j) + zero(i, j) - zero(i, j) by {
        assert(te.contains((i, j)) == (cut.contains(cell_node(m, i, j)) && cut.contains(cell_node(m, i, j) + 1)));
        assert(to.contains((i, j)) == cut.contains(cell_node(m, i, j)));
        assert(te.contains((i - 1, j)) == (cut.contains(cell_node(m, i - 1, j)) && cut.contains(cell_node(m, i - 1, j) + 1)));
        assert(to.contains((i - 1, j)) == cut.contains(cell_node(m, i - 1, j)));
    }
    lemma_grid_combine(f3, a3, zero, zero, n, m);
}

/// The cut made for white cells `te` and black cells `to`: the source, the
/// entry and exit of each white cell of `te`, and the entry of each black
/// cell of `to`.
pub open spec fn cut_for(n: int, m: int, te: Set<(int, int)>, to: Set<(int, int)>) -> Set<int> {
    Set::new(
        |x: int|
            x == 2 * (n * m) || exists|i: int, j: int|
                0 <= i < n && 0 <= j < m && #[trigger] cell_node(m, i, j) <= x <= cell_node(m, i, j) + 1 && ((is_white(i, j)
                    && te.contains((i, j))) || (!is_white(i, j) && to.contains((i, j)) && x == cell_node(m, i, j))),
    )
}

/// Different cells have nodes two apart at least.
proof fn lemma_nodes_apart(n: int, m: int, i: int, j: int, i2: int, j2: int)
    requires
        0 <= i < n,
        0 <= j < m,
        0 <= i2 < n,
        0 <= j2 < m,
        i * m + j == i2 * m + j2,
    ensures
        i == i2,
        j == j2,
{
    crate::grid::lemma_cell_split(i, j, m);
    crate::grid::lemma_cell_split(i2, j2, m);
}

/// Which nodes of a cell the cut made for `te` and `to` holds.
proof fn lemma_cut_for_cell(n: int, m: int, te: Set<(int, int)>, to: Set<(int, int)>, i: int, j: int)
    requires
        0 <= i < n,
        0 <= j < m,
    ensures
        cut_for(n, m, te, to).contains(cell_node(m, i, j)) == ((is_white(i, j) && te.contains((i, j))) || (!is_white(i, j)
            && to.contains((i, j)))),
        cut_for(n, m, te, to).contains(cell_node(m, i, j) + 1) == (is_white(i, j) && te.contains((i, j))),
{
    let cut = cut_for(n, m, te, to);
    lemma_cell_index(i, j, n, m);
    let a = cell_node(m, i, j);
    assert forall|x: int| x == a || x == a + 1 implies cut.contains(x) == (exists|i2: int, j2: int|
        0 <= i2 < n && 0 <= j2 < m && #[trigger] cell_node(m, i2, j2) <= x <= cell_node(m, i2, j2) + 1 && ((is_white(i2, j2)
            && te.contains((i2, j2))) || (!is_white(i2, j2) && to.contains((i2, j2)) && x == cell_node(m, i2, j2)))) by {
        assert(x != 2 * (n * m));
    }
    if cut.contains(a) || cut.contains(a + 1) {
        let x = if cut.contains(a) { a } else { a + 1 };
        let (i2, j2) = choose|i2: int, j2: int|
            0 <= i2 < n && 0 <= j2 < m && #[trigger] cell_node(m, i2, j2) <= x <= cell_node(m, i2, j2) + 1 && ((is_white(i2, j2)
                && te.contains((i2, j2))) || (!is_white(i2, j2) && to.contains((i2, j2)) && x == cell_node(m, i2, j2)));
        assert(i * m + j == i2 * m + j2);
        lemma_nodes_apart(n, m, i, j, i2, j2);
    }
    if (is_white(i, j) && te.contains((i, j))) || (!is_white(i, j) && to.contains((i, j))) {
        assert(cell_node(m, i, j) <= a <= cell_node(m, i, j) + 1);
    }
    if is_white(i, j) && te.contains((i, j)) {
        assert(cell_node(m, i, j) <= a + 1 <= cell_node(m, i, j) + 1);
    }
    if cut.contains(a + 1) {
        let (i2, j2) = choose|i2: int, j2: int|
            0 <= i2 < n && 0 <= j2 < m && #[trigger] cell_node(m, i2, j2) <= a + 1 <= cell_node(m, i2, j2) + 1 && ((is_white(i2, j2)
                && te.contains((i2, j2))) || (!is_white(i2, j2) && to.contains((i2, j2)) && a + 1 == cell_node(m, i2, j2)));
        assert(i * m + j == i2 * m + j2);
        lemma_nodes_apart(n, m, i, j, i2, j2);
    }
}

/// The cut made for `te` and `to` separates the source from the sink and
/// carries out exactly the white valence, less that of `te`, plus that of
/// `to`, plus the neighbour pairs that lead from `te` out of `to`.
proof fn lemma_cut_upper(lines: Seq<&str>, n: int, m: int, te: Set<(int, int)>, to: Set<(int, int)>)
    requires
        n >= 1,
        m >= 0,
    ensures
        separates(cut_for(n, m, te, to), 2 * (n * m), 2 * (n * m) + 1),
        full_cut(lines, n, m, cut_for(n, m, te, to)) == grid_sum(colour_valence(lines, true), n, m) - grid_sum(
            chosen_valence(lines, true, te),
            n,
            m,
        ) + grid_sum(chosen_valence(lines, false, to), n, m) + grid_sum(row_pairs_out(te, to), n, m) + grid_sum(
            column_pairs_out(te, to),
            n,
            m,
        ),
{
    let cut = cut_for(n, m, te, to);
    let t = 2 * (n * m) + 1;
    assert(!cut.contains(t)) by {
        if cut.contains(t) {
            let (i2, j2) = choose|i2: int, j2: int|
                0 <= i2 < n && 0 <= j2 < m && #[trigger] cell_node(m, i2, j2) <= t <= cell_node(m, i2, j2) + 1 && ((is_white(i2, j2)
                    && te.contains((i2, j2))) || (!is_white(i2, j2) && to.contains((i2, j2)) && t == cell_node(m, i2, j2)));
            lemma_cell_index(i2, j2, n, m);
        }
    }
    let f1 = cell_cut(lines, m, cut);
    let a1 = colour_valence(lines, true);
    let b1 = chosen_valence(lines, false, to);
    let c1 = chosen_valence(lines, true, te);
    assert forall|i: int, j: int| 0 <= i < n && 0 <= j < m implies #[trigger] f1(i, j) >= a1(i, j) + b1(i, j) - c1(i, j) by {
        lemma_cut_for_cell(n, m, te, to, i, j);
    }
    assert forall|i: int, j: int| 0 <= i < n && 0 <= j < m implies #[trigger] f1(i, j) == a1(i, j) + b1(i, j) - c1(i, j) by {
        lemma_cut_for_cell(n, m, te, to, i, j);
    }
    lemma_grid_combine(f1, a1, b1, c1, n, m);
    let zero = |i: int, j: int| 0int;
    let f2 = row_link_cut(m, cut);
    let a2 = row_pairs_out(te, to);
    assert forall|i: int, j: int| 0 <= i < n && 0 <= j < m implies #[trigger] f2(i, j) == a2(i, j) + zero(i, j) - zero(i, j) by {
        lemma_cut_for_cell(n, m, te, to, i, j);
        if j >= 1 {
            lemma_cut_for_cell(n, m, te, to, i, j - 1);
            assert(is_white(i, j - 1) != is_white(i, j));
        }
    }
    assert forall|i: int, j: int| 0 <= i < n && 0 <= j < m implies #[trigger] f2(i, j) >= a2(i, j) + zero(i, j) - zero(i, j) by {
        assert(f2(i, j) == a2(i, j) + zero(i, j) - zero(i, j));
    }
    lemma_grid_combine(f2, a2, zero, zero, n, m);
    let f3 = column_link_cut(m, cut);
    let a3 = column_pairs_out(te, to);
    assert forall|i: int, j: int| 0 <= i < n && 0 <= j < m implies #[trigger] f3(i, j) == a3(i, j) + zero(i, j) - zero(i, j) by {
        lemma_cut_for_cell(n, m, te, to, i, j);
        if i >= 1 {
            lemma_cut_for_cell(n, m, te, to, i - 1, j);
            assert(is_white(i - 1, j) != is_white(i, j));
        }
    }
    assert forall|i: int, j: int| 0 <= i < n && 0 <= j < m implies #[trigger] f3(i, j) >= a3(i, j) + zero(i, j) - zero(i, j) by {
        assert(f3(i, j) == a3(i, j) + zero(i, j) - zero(i, j));
    }
    lemma_grid_combine(f3, a3, zero, zero, n, m);
}

/// A grid of zero terms sums to zero.
proof fn lemma_grid_zero(f: spec_fn(int, int) -> int, n: int, m: int)
    requires
        forall|i: int, j: int| 0 <= i < n && 0 <= j < m ==> #[trigger] f(i, j) == 0,
    ensures
        grid_sum(f, n, m) == 0,
{
    assert forall|i: int| 0 <= i < n implies #[trigger] row_sums(f, m)(i) == 0 by {
        let fi = row_fn(f, i);
        assert forall|j: int| 0 <= j < m implies #[trigger] fi(j) == 0 by {
            assert(f(i, j) == 0);
        }
        crate::grid::lemma_total_zero(fi, m);
    }
    crate::grid::lemma_total_zero(row_sums(f, m), n);
}

/// The valence of a row, cell by cell.
proof fn lemma_row_valence(lines: Seq<&str>, i: int, j: int)
    requires
        0 <= j,
    ensures
        row_valence(lines[i]@, j) == total(row_fn(cell_valence(lines), i), j),
    decreases j,
{
    if j > 0 {
        lemma_row_valence(lines, i, j - 1);
    }
}

/// The valence of the grid is that of its white squares plus that of its
/// black ones.
proof fn lemma_grid_valence(lines: Seq<&str>, n: int, m: int, k: int)
    requires
        0 <= k <= n,
        forall|i: int| 0 <= i < n ==> (#[trigger] lines[i])@.len() == m,
    ensures
        grid_valence(lines, k) == total(row_sums(cell_valence(lines), m), k),
        k == n ==> grid_valence(lines, n) == grid_sum(colour_valence(lines, true), n, m) + grid_sum(
            colour_valence(lines, false),
            n,
            m,
        ),
    decreases k,
{
    if k > 0 {
        lemma_grid_valence(lines, n, m, k - 1);
        assert(lines[k - 1]@.len() == m);
        lemma_row_valence(lines, k - 1, m);
    }
    if k == n {
        let zero = |i: int, j: int| 0int;
        let cv = cell_valence(lines);
        assert forall|i: int, j: int| 0 <= i < n && 0 <= j < m implies #[trigger] cv(i, j) >= colour_valence(lines, true)(i, j)
            + colour_valence(lines, false)(i, j) - zero(i, j) by {}
        assert forall|i: int, j: int| 0 <= i < n && 0 <= j < m implies #[trigger] cv(i, j) == colour_valence(lines, true)(i, j)
            + colour_valence(lines, false)(i, j) - zero(i, j) by {}
        lemma_grid_combine(cv, colour_valence(lines, true), colour_valence(lines, false), zero, n, m);
        lemma_grid_zero(zero, n, m);
    }
}

/// Twice the maximum flow is the total valence exactly when the atoms can
/// share their bonds.
proof fn lemma_bond_decides(lines: Seq<&str>, n: int, m: int, e0: Seq<Edge>, f: int)
    requires
        n >= 1,
        m >= 0,
        forall|cut: Set<int>|
            separates(cut, 2 * (n * m), 2 * (n * m) + 1) ==> #[trigger] cut_value(e0, cut) == full_cut(lines, n, m, cut),
        forall|x: int| 0 <= x < e0.len() ==> (#[trigger] e0[x]).capacity is Finite,
        is_max_flow_value(e0, 2 * (n * m), 2 * (n * m) + 1, f),
    ensures
        (2 * f == grid_sum(colour_valence(lines, true), n, m) + grid_sum(colour_valence(lines, false), n, m)) == can_bond(
            lines,
            n,
            m,
        ),
{
    let s = 2 * (n * m);
    let t = s + 1;
    let white = grid_sum(colour_valence(lines, true), n, m);
    let black = grid_sum(colour_valence(lines, false), n, m);
    let none = Set::<(int, int)>::empty();
    let all = Set::<(int, int)>::full();
    assert forall|cut: Set<int>| #[trigger] cut_finite(e0, cut) by {}
    lemma_cut_upper(lines, n, m, none, none);
    lemma_grid_zero(chosen_valence(lines, true, none), n, m);
    lemma_grid_zero(chosen_valence(lines, false, none), n, m);
    lemma_grid_zero(row_pairs_out(none, none), n, m);
    lemma_grid_zero(column_pairs_out(none, none), n, m);
    assert(f <= cut_value(e0, cut_for(n, m, none, none)));
    assert(f <= white);
    lemma_cut_upper(lines, n, m, all, all);
    lemma_grid_zero(row_pairs_out(all, all), n, m);
    lemma_grid_zero(column_pairs_out(all, all), n, m);
    assert(f <= cut_value(e0, cut_for(n, m, all, all)));
    let cw = chosen_valence(lines, true, all);
    let cb = chosen_valence(lines, false, all);
    let zero = |i: int, j: int| 0int;
    assert forall|i: int, j: int| 0 <= i < n && 0 <= j < m implies #[trigger] cw(i, j) >= colour_valence(lines, true)(i, j)
        + zero(i, j) - zero(i, j) by {}
    assert forall|i: int, j: int| 0 <= i < n && 0 <= j < m implies #[trigger] cw(i, j) == colour_valence(lines, true)(i, j)
        + zero(i, j) - zero(i, j) by {}
    lemma_grid_combine(cw, colour_valence(lines, true), zero, zero, n, m);
    assert forall|i: int, j: int| 0 <= i < n && 0 <= j < m implies #[trigger] cb(i, j) >= colour_valence(lines, false)(i, j)
        + zero(i, j) - zero(i, j) by {}
    assert forall|i: int, j: int| 0 <= i < n && 0 <= j < m implies #[trigger] cb(i, j) == colour_valence(lines, false)(i, j)
        + zero(i, j) - zero(i, j) by {}
    lemma_grid_combine(cb, colour_valence(lines, false), zero, zero, n, m);
    assert(f <= black);
    if can_bond(lines, n, m) {
        let cut = choose|cut: Set<int>| separates(cut, s, t) && cut_finite(e0, cut) && cut_value(e0, cut) == f;
        lemma_cut_lower(lines, n, m, cut);
        let te = cut_whites(m, cut);
        let to = cut_blacks(m, cut);
        assert(grid_sum(chosen_valence(lines, true, te), n, m) <= grid_sum(chosen_valence(lines, false, to), n, m) + grid_sum(
            row_pairs_out(te, to),
            n,
            m,
        ) + grid_sum(column_pairs_out(te, to), n, m));
    }
    if 2 * f == white + black {
        assert forall|whites: Set<(int, int)>, blacks: Set<(int, int)>|
            grid_sum(chosen_valence(lines, true, whites), n, m) <= grid_sum(chosen_valence(lines, false, blacks), n, m)
                + #[trigger] grid_sum(row_pairs_out(whites, blacks), n, m) + grid_sum(column_pairs_out(whites, blacks), n, m) by {
            lemma_cut_upper(lines, n, m, whites, blacks);
            assert(f <= cut_value(e0, cut_for(n, m, whites, blacks)));
        }
    }
}

/// Row and column of a cell add up to less than the number of cells.
proof fn lemma_sum_index(i: int, j: int, n: int, m: int)
    requires
        0 <= i < n,
        0 <= j < m,
    ensures
        i + j < n * m,
{
    assert(i + j < n * m) by (nonlinear_arith)
        requires
            0 <= i < n,
            0 <= j < m,
    ;
}

/// Whether the atoms drawn in `lines` (a grid of equal rows of `.`, `H`,
/// `O`, `N` and `C`) can be joined by bonds between neighbouring cells, each
/// bond single, so that every atom takes exactly its valence, with at least
/// one atom present. Checked by a maximum flow from the cells of one colour
/// of the chessboard to those of the other: the answer is yes when the flow
/// fills half the total valence.
pub fn solve(lines: &[&str]) -> (valid: bool)
    requires
        lines@.len() >= 1,
        forall|i: int| 0 <= i < lines@.len() ==> (#[trigger] lines@[i])@.len() == lines@[0]@.len(),
        forall|i: int, j: int|
            0 <= i < lines@.len() && 0 <= j < lines@[0]@.len() ==> is_cell(#[trigger] lines@[i]@[j]),
        lines@.len() * lines@[0]@.len() * 8 + 8 < usize::MAX,
        10 * (lines@.len() * lines@[0]@.len()) <= u64::MAX,
    ensures
        valid == (grid_valence(lines@, lines@.len() as int) > 0 && can_bond(
            lines@,
            lines@.len() as int,
            lines@[0]@.len() as int,
        )),
{
    let n = lines.len();
    let first = chars_of(lines[0]);
    let m = first.len();
    proof {
        lemma_mul_le(0, n as int, 0, m as int);
        assert(2 * n * m == 2 * (n * m)) by (nonlinear_arith);
    }
    let ghost cells = (n * m) as int;
    let mut total_cap: u64 = 0;
    let mut g = Graph::new(2 * (n * m) + 2);
    let s = 2 * (n * m);
    let t = s + 1;
    let ghost mut added: int = 0;
    let mut i: usize = 0;
    while i < n
        invariant
            g.wf(),
            g.node_count() == 2 * cells + 2,
            cells == n * m,
            s == 2 * cells,
            t == s + 1,
            n == lines@.len(),
            m == lines@[0]@.len(),
            forall|i2: int| 0 <= i2 < lines@.len() ==> (#[trigger] lines@[i2])@.len() == m,
            forall|i2: int, j2: int| 0 <= i2 < lines@.len() && 0 <= j2 < m ==> is_cell(#[trigger] lines@[i2]@[j2]),
            n * m * 8 + 8 < usize::MAX,
            10 * cells <= u64::MAX,
            i <= n,
            added == i * m,
            g.edges().len() == 4 * added,
            0 <= finite_total(g.edges()) <= 8 * added,
            total_cap == grid_valence(lines@, i as int),
            0 <= total_cap <= 4 * added,
            forall|e: int| 0 <= e < g.edges().len() ==> (#[trigger] g.edges()[e]).capacity is Finite,
            forall|cut: Set<int>|
                separates(cut, s as int, t as int) ==> #[trigger] cut_value(g.edges(), cut) == total(
                    row_sums(cell_cut(lines@, m as int, cut), m as int),
                    i as int,
                ),
        decreases n - i,
    {
        let row = chars_of(lines[i]);
        let ghost before_row = total_cap as int;
        let mut j: usize = 0;
        while j < row.len()
            invariant
                g.wf(),
                g.node_count() == 2 * cells + 2,
                cells == n * m,
                s == 2 * cells,
                t == s + 1,
                n * m * 8 + 8 < usize::MAX,
                10 * cells <= u64::MAX,
                row@ == lines@[i as int]@,
                row@.len() == m,
                i < n,
                j <= m,
                forall|j2: int| 0 <= j2 < m ==> is_cell(#[trigger] row@[j2]),
                added == i * m + j,
                g.edges().len() == 4 * added,
                0 <= finite_total(g.edges()) <= 8 * added,
                total_cap == before_row + row_valence(row@, j as int),
                0 <= total_cap <= 4 * added,
                forall|e: int| 0 <= e < g.edges().len() ==> (#[trigger] g.edges()[e]).capacity is Finite,
                forall|cut: Set<int>|
                    separates(cut, s as int, t as int) ==> #[trigger] cut_value(g.edges(), cut) == total(
                        row_sums(cell_cut(lines@, m as int, cut), m as int),
                        i as int,
                    ) + total(row_fn(cell_cut(lines@, m as int, cut), i as int), j as int),
            decreases m - j,
        {
            proof {
                lemma_cell_index(i as int, j as int, n as int, m as int);
                lemma_sum_index(i as int, j as int, n as int, m as int);
            }
            let wrap = i * m + j;
            let c = row[j];
            let cap: u64 = if c == '.' {
                0
            } else if c == 'H' {
                1
            } else if c == 'O' {
                2
            } else if c == 'N' {
                3
            } else {
                4
            };
            total_cap = total_cap + cap;
            proof {
                assert(cap == valence(lines@[i as int]@[j as int]));
                assert(wrap == i * m + j);
            }
            let ghost b0 = g.edges();
            g.add_edge(2 * wrap, 2 * wrap + 1, Capacity::Finite(cap));
            let ghost b1 = g.edges();
            if (i + j) % 2 == 0 {
                g.add_edge(s, 2 * wrap, Capacity::Finite(cap));
            } else {
                g.add_edge(2 * wrap + 1, t, Capacity::Finite(cap));
            }
            proof {
                added = added + 1;
                let b2 = g.edges();
                let n0 = b0.len() as int;
                assert forall|cut: Set<int>| separates(cut, s as int, t as int) implies #[trigger] cut_value(b2, cut) == total(
                    row_sums(cell_cut(lines@, m as int, cut), m as int),
                    i as int,
                ) + total(row_fn(cell_cut(lines@, m as int, cut), i as int), j + 1) by {
                    lemma_cut_value_push2(b0, cut, b1[n0], b1[n0 + 1]);
                    lemma_cut_value_push2(b1, cut, b2[n0 + 2], b2[n0 + 3]);
                    assert(is_white(i as int, j as int) == ((i + j) % 2 == 0));
                }
            }
            j += 1;
        }
        proof {
            lemma_mul_step(i as int, m as int);
        }
        i += 1;
    }
    proof {
        assert(added == cells);
    }
    if total_cap == 0 {
        return false;
    }
    let mut i: usize = 0;
    while i < n
        invariant
            g.wf(),
            g.node_count() == 2 * cells + 2,
            cells == n * m,
            n * m * 8 + 8 < usize::MAX,
            10 * cells <= u64::MAX,
            i <= n,
            added <= cells + i * m,
            g.edges().len() == 4 * cells + 2 * (added - cells),
            0 <= finite_total(g.edges()) <= 8 * cells + (added - cells),
            cells <= added,
            forall|e: int| 0 <= e < g.edges().len() ==> (#[trigger] g.edges()[e]).capacity is Finite,
            s == 2 * cells,
            t == s + 1,
            forall|cut: Set<int>|
                separates(cut, s as int, t as int) ==> #[trigger] cut_value(g.edges(), cut) == grid_sum(
                    cell_cut(lines@, m as int, cut),
                    n as int,
                    m as int,
                ) + total(row_sums(row_link_cut(m as int, cut), m as int), i as int),
        decreases n - i,
    {
        let mut j: usize = 1;
        proof {
            reveal_with_fuel(total, 2);
        }
        while j < m
            invariant
                g.wf(),
                g.node_count() == 2 * cells + 2,
                cells == n * m,
                n * m * 8 + 8 < usize::MAX,
                10 * cells <= u64::MAX,
                i < n,
                1 <= j,
                m >= 1 ==> j <= m,
                m == 0 ==> j == 1,
                cells <= added,
                added + 1 <= cells + i * m + j,
                g.edges().len() == 4 * cells + 2 * (added - cells),
                0 <= finite_total(g.edges()) <= 8 * cells + (added - cells),
                forall|e: int| 0 <= e < g.edges().len() ==> (#[trigger] g.edges()[e]).capacity is Finite,
                s == 2 * cells,
                t == s + 1,
                forall|cut: Set<int>|
                    separates(cut, s as int, t as int) ==> #[trigger] cut_value(g.edges(), cut) == grid_sum(
                        cell_cut(lines@, m as int, cut),
                        n as int,
                        m as int,
                    ) + total(row_sums(row_link_cut(m as int, cut), m as int), i as int) + total(
                        row_fn(row_link_cut(m as int, cut), i as int),
                        j as int,
                    ),
            decreases m - j,
        {
            proof {
                lemma_cell_index(i as int, j as int, n as int, m as int);
                lemma_sum_index(i as int, j as int, n as int, m as int);
            }
            let wrap1 = i * m + j - 1;
            let wrap2 = i * m + j;
            let ghost b0 = g.edges();
            if (i + j) % 2 == 0 {
                g.add_edge(2 * wrap2 + 1, 2 * wrap1, Capacity::Finite(1));
            } else {
                g.add_edge(2 * wrap1 + 1, 2 * wrap2, Capacity::Finite(1));
            }
            proof {
                added = added + 1;
                let b1 = g.edges();
                let n0 = b0.len() as int;
                assert forall|cut: Set<int>| separates(cut, s as int, t as int) implies #[trigger] cut_value(b1, cut) == grid_sum(
                    cell_cut(lines@, m as int, cut),
                    n as int,
                    m as int,
                ) + total(row_sums(row_link_cut(m as int, cut), m as int), i as int) + total(
                    row_fn(row_link_cut(m as int, cut), i as int),
                    j + 1,
                ) by {
                    lemma_cut_value_push2(b0, cut, b1[n0], b1[n0 + 1]);
                    assert(is_white(i as int, j as int) == ((i + j) % 2 == 0));
                    assert(cell_node(m as int, i as int, j - 1) == 2 * wrap1);
                    assert(cell_node(m as int, i as int, j as int) == 2 * wrap2);
                }
            }
            j += 1;
        }
        proof {
            lemma_mul_step(i as int, m as int);
            if m == 0 {
                reveal_with_fuel(total, 2);
            }
            if m == 0 {
                assert(i * m == 0 && (i + 1) * m == 0) by (nonlinear_arith)
                    requires
                        m == 0,
                ;
            }
        }
        i += 1;
    }
    let mut i: usize = 1;
    proof {
        reveal_with_fuel(total, 2);
        lemma_total_zero_rows(m as int);
    }
    while i < n
        invariant
            g.wf(),
            g.node_count() == 2 * cells + 2,
            cells == n * m,
            n * m * 8 + 8 < usize::MAX,
            10 * cells <= u64::MAX,
            1 <= i <= n,
            cells <= added,
            added <= 2 * cells + (i - 1) * m,
            g.edges().len() == 4 * cells + 2 * (added - cells),
            0 <= finite_total(g.edges()) <= 8 * cells + (added - cells),
            forall|e: int| 0 <= e < g.edges().len() ==> (#[trigger] g.edges()[e]).capacity is Finite,
            s == 2 * cells,
            t == s + 1,
            forall|cut: Set<int>|
                separates(cut, s as int, t as int) ==> #[trigger] cut_value(g.edges(), cut) == grid_sum(
                    cell_cut(lines@, m as int, cut),
                    n as int,
                    m as int,
                ) + grid_sum(row_link_cut(m as int, cut), n as int, m as int) + total(
                    row_sums(column_link_cut(m as int, cut), m as int),
                    i as int,
                ),
        decreases n - i,
    {
        let mut j: usize = 0;
        while j < m
            invariant
                g.wf(),
                g.node_count() == 2 * cells + 2,
                cells == n * m,
                n * m * 8 + 8 < usize::MAX,
                10 * cells <= u64::MAX,
                1 <= i < n,
                j <= m,
                cells <= added,
                added <= 2 * cells + (i - 1) * m + j,
                g.edges().len() == 4 * cells + 2 * (added - cells),
                0 <= finite_total(g.edges()) <= 8 * cells + (added - cells),
                forall|e: int| 0 <= e < g.edges().len() ==> (#[trigger] g.edges()[e]).capacity is Finite,
                s == 2 * cells,
                t == s + 1,
                forall|cut: Set<int>|
                    separates(cut, s as int, t as int) ==> #[trigger] cut_value(g.edges(), cut) == grid_sum(
                        cell_cut(lines@, m as int, cut),
                        n as int,
                        m as int,
                    ) + grid_sum(row_link_cut(m as int, cut), n as int, m as int) + total(
                        row_sums(column_link_cut(m as int, cut), m as int),
                        i as int,
                    ) + total(row_fn(column_link_cut(m as int, cut), i as int), j as int),
            decreases m - j,
        {
            proof {
                lemma_cell_index(i as int, j as int, n as int, m as int);
                lemma_cell_index((i - 1) as int, j as int, n as int, m as int);
                lemma_sum_index(i as int, j as int, n as int, m as int);
                lemma_mul_step((i - 1) as int, m as int);
            }
            let wrap1 = (i - 1) * m + j;
            let wrap2 = i * m + j;
            let ghost b0 = g.edges();
            if (i + j) % 2 == 0 {
                g.add_edge(2 * wrap2 + 1, 2 * wrap1, Capacity::Finite(1));
            } else {
                g.add_edge(2 * wrap1 + 1, 2 * wrap2, Capacity::Finite(1));
            }
            proof {
                added = added + 1;
                let b1 = g.edges();
                let n0 = b0.len() as int;
                assert forall|cut: Set<int>| separates(cut, s as int, t as int) implies #[trigger] cut_value(b1, cut) == grid_sum(
                    cell_cut(lines@, m as int, cut),
                    n as int,
                    m as int,
                ) + grid_sum(row_link_cut(m as int, cut), n as int, m as int) + total(
                    row_sums(column_link_cut(m as int, cut), m as int),
                    i as int,
                ) + total(row_fn(column_link_cut(m as int, cut), i as int), j + 1) by {
                    lemma_cut_value_push2(b0, cut, b1[n0], b1[n0 + 1]);
                    assert(is_white(i as int, j as int) == ((i + j) % 2 == 0));
                    assert(cell_node(m as int, i - 1, j as int) == 2 * wrap1);
                    assert(cell_node(m as int, i as int, j as int) == 2 * wrap2);
                }
            }
            j += 1;
        }
        proof {
            lemma_mul_step(i as int, m as int);
            lemma_mul_step(i - 1, m as int);
        }
        i += 1;
    }
    proof {
        assert(added <= 3 * cells) by (nonlinear_arith)
            requires
                added <= 2 * cells + (i - 1) * m,
                i == n,
                cells == n * m,
                m >= 0,
                i >= 1,
        ;
        lemma_no_unbounded_reach(g.edges(), s as int, t as int);
    }
    let ghost e0 = g.edges();
    proof {
        g.lemma_wf();
        assert(partners_idle(g.edges())) by {
            reveal(partners_idle);
        }
        lemma_flow_fits(g.edges());
    }
    let achieved = g.max_flow(s, t).unwrap();
    proof {
        lemma_grid_valence(lines@, n as int, m as int, n as int);
        lemma_bond_decides(lines@, n as int, m as int, e0, achieved as int);
    }
    total_cap % 2 == 0 && achieved == total_cap / 2
}

} // verus!
