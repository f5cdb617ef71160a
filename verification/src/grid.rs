use vstd::prelude::*;

verus! {

/// The cell in row `i` and column `j` of an `n` by `m` grid has an index
/// below `n * m`.
pub proof fn lemma_cell_index(i: int, j: int, n: int, m: int)
    requires
        0 <= i < n,
        0 <= j < m,
    ensures
        0 <= i * m + j < n * m,
        i * m + j + 1 <= n * m,
        (i + 1) * m == i * m + m,
{
    assert(i * m + j < n * m) by (nonlinear_arith)
        requires
            0 <= i < n,
            0 <= j < m,
    ;
    assert((i + 1) * m == i * m + m) by (nonlinear_arith);
    assert(0 <= i * m) by (nonlinear_arith)
        requires
            0 <= i,
            0 <= m,
    ;
}

/// One more step of `c` adds `c` to a product.
pub proof fn lemma_mul_step(a: int, c: int)
    ensures
        (a + 1) * c == a * c + c,
        a * c + c == c * (a + 1),
{
    assert((a + 1) * c == a * c + c) by (nonlinear_arith);
    assert(c * (a + 1) == a * c + c) by (nonlinear_arith);
}

/// Products of non-negative numbers grow with their factors.
pub proof fn lemma_mul_le(a: int, b: int, c: int, d: int)
    requires
        0 <= a <= b,
        0 <= c <= d,
    ensures
        0 <= a * c <= b * d,
{
    assert(0 <= a * c <= b * d) by (nonlinear_arith)
        requires
            0 <= a <= b,
            0 <= c <= d,
    ;
}

/// Total length of the first `k` lists.
pub open spec fn lists_len(lists: Seq<Vec<usize>>, k: int) -> int
    decreases k,
{
    if k <= 0 {
        0
    } else {
        lists_len(lists, k - 1) + lists[k - 1]@.len()
    }
}

/// The total length of more lists is no smaller.
pub proof fn lemma_lists_len_le(lists: Seq<Vec<usize>>, a: int, b: int)
    requires
        0 <= a <= b,
    ensures
        0 <= lists_len(lists, a) <= lists_len(lists, b),
    decreases b - a,
{
    if a < b {
        lemma_lists_len_le(lists, a, b - 1);
    } else {
        lemma_lists_len_nonneg(lists, a);
    }
}

proof fn lemma_lists_len_nonneg(lists: Seq<Vec<usize>>, a: int)
    ensures
        0 <= lists_len(lists, a),
    decreases a,
{
    if a > 0 {
        lemma_lists_len_nonneg(lists, a - 1);
    }
}

/// The sum of `f(k)` over `0 <= k < upto`.
pub open spec fn total(f: spec_fn(int) -> int, upto: int) -> int
    decreases upto,
{
    if upto <= 0 {
        0
    } else {
        total(f, upto - 1) + f(upto - 1)
    }
}

/// Sums of terms that agree agree.
pub proof fn lemma_total_congruent(f: spec_fn(int) -> int, g: spec_fn(int) -> int, upto: int)
    requires
        forall|k: int| 0 <= k < upto ==> #[trigger] f(k) == g(k),
    ensures
        total(f, upto) == total(g, upto),
    decreases upto,
{
    if upto > 0 {
        lemma_total_congruent(f, g, upto - 1);
    }
}

/// A sum of zero terms is zero.
pub proof fn lemma_total_zero(f: spec_fn(int) -> int, upto: int)
    requires
        forall|k: int| 0 <= k < upto ==> #[trigger] f(k) == 0,
    ensures
        total(f, upto) == 0,
    decreases upto,
{
    if upto > 0 {
        lemma_total_zero(f, upto - 1);
    }
}

/// Row and column of the cell with index `i * m + j`.
pub proof fn lemma_cell_split(i: int, j: int, m: int)
    requires
        0 <= i,
        0 <= j < m,
    ensures
        (i * m + j) / m == i,
        (i * m + j) % m == j,
{
    vstd::arithmetic::div_mod::lemma_fundamental_div_mod_converse(i * m + j, m, i, j);
}

/// A sum of differences is the difference of the sums.
pub proof fn lemma_total_sub(f: spec_fn(int) -> int, g: spec_fn(int) -> int, h: spec_fn(int) -> int, upto: int)
    requires
        forall|k: int| 0 <= k < upto ==> #[trigger] f(k) == g(k) - h(k),
    ensures
        total(f, upto) == total(g, upto) - total(h, upto),
    decreases upto,
{
    if upto > 0 {
        lemma_total_sub(f, g, h, upto - 1);
    }
}

/// Terms no larger give a sum no larger.
pub proof fn lemma_total_le(f: spec_fn(int) -> int, g: spec_fn(int) -> int, upto: int)
    requires
        forall|k: int| 0 <= k < upto ==> #[trigger] f(k) <= g(k),
    ensures
        total(f, upto) <= total(g, upto),
    decreases upto,
{
    if upto > 0 {
        lemma_total_le(f, g, upto - 1);
    }
}

/// Terms at least `a + b - c` give a sum at least the sums' `a + b - c`, and
/// terms equal to it give that sum exactly.
pub proof fn lemma_total_combine(
    f: spec_fn(int) -> int,
    a: spec_fn(int) -> int,
    b: spec_fn(int) -> int,
    c: spec_fn(int) -> int,
    upto: int,
)
    requires
        forall|k: int| 0 <= k < upto ==> #[trigger] f(k) >= a(k) + b(k) - c(k),
    ensures
        total(f, upto) >= total(a, upto) + total(b, upto) - total(c, upto),
        (forall|k: int| 0 <= k < upto ==> #[trigger] f(k) == a(k) + b(k) - c(k)) ==> total(f, upto) == total(a, upto)
            + total(b, upto) - total(c, upto),
    decreases upto,
{
    if upto > 0 {
        lemma_total_combine(f, a, b, c, upto - 1);
    }
}

/// A sum with one term `c` at `u` and zero elsewhere is `c`.
pub proof fn lemma_total_point(c: int, u: int, upto: int)
    requires
        0 <= u < upto,
    ensures
        total(|v: int| if v == u { c } else { 0int }, upto) == c,
    decreases upto,
{
    let f = |v: int| if v == u { c } else { 0int };
    if upto - 1 > u {
        lemma_total_point(c, u, upto - 1);
    } else {
        lemma_total_zero(f, upto - 1);
    }
}

/// A sum over `a + b` terms is the sum over the first `a` plus the sum over
/// the next `b`.
pub proof fn lemma_total_split(f: spec_fn(int) -> int, a: int, b: int)
    requires
        0 <= a,
        0 <= b,
    ensures
        total(f, a + b) == total(f, a) + total(|x: int| f(a + x), b),
    decreases b,
{
    if b > 0 {
        lemma_total_split(f, a, b - 1);
    }
}

/// A sum of non-negative terms, two of which are one, is at least two.
pub proof fn lemma_total_two(f: spec_fn(int) -> int, x: int, y: int, upto: int)
    requires
        0 <= x < y < upto,
        forall|k: int| 0 <= k < upto ==> #[trigger] f(k) >= 0,
        f(x) >= 1,
        f(y) >= 1,
    ensures
        total(f, upto) >= 2,
    decreases upto,
{
    if upto - 1 > y {
        lemma_total_two(f, x, y, upto - 1);
    } else {
        lemma_total_one(f, x, upto - 1);
    }
}

/// A sum of non-negative terms, one of which is one, is at least one.
pub proof fn lemma_total_one(f: spec_fn(int) -> int, x: int, upto: int)
    requires
        0 <= x < upto,
        forall|k: int| 0 <= k < upto ==> #[trigger] f(k) >= 0,
        f(x) >= 1,
    ensures
        total(f, upto) >= 1,
    decreases upto,
{
    if upto - 1 > x {
        lemma_total_one(f, x, upto - 1);
    } else {
        lemma_total_nonneg(f, upto - 1);
    }
}

/// A sum of non-negative terms is non-negative.
pub proof fn lemma_total_nonneg(f: spec_fn(int) -> int, upto: int)
    requires
        forall|k: int| 0 <= k < upto ==> #[trigger] f(k) >= 0,
    ensures
        total(f, upto) >= 0,
    decreases upto,
{
    if upto > 0 {
        lemma_total_nonneg(f, upto - 1);
    }
}

/// A sum of non-negative terms is at least the number of distinct places
/// where a term is at least one.
pub proof fn lemma_total_injective(g: spec_fn(int) -> int, idx: spec_fn(int) -> int, k: int, upto: int)
    requires
        0 <= k,
        forall|i: int| 0 <= i < k ==> 0 <= #[trigger] idx(i) < upto,
        forall|i: int, j: int| 0 <= i < k && 0 <= j < k && i != j ==> #[trigger] idx(i) != #[trigger] idx(j),
        forall|x: int| 0 <= x < upto ==> #[trigger] g(x) >= 0,
        forall|i: int| 0 <= i < k ==> #[trigger] g(idx(i)) >= 1,
    ensures
        total(g, upto) >= k,
    decreases k,
{
    if k == 0 {
        lemma_total_nonneg(g, upto);
    } else {
        let p = idx(k - 1);
        let c = g(p);
        let g2 = |x: int| if x == p { 0int } else { g(x) };
        let pt = |v: int| if v == p { c } else { 0int };
        let zero = |x: int| 0int;
        assert forall|i: int| 0 <= i < k - 1 implies #[trigger] g2(idx(i)) >= 1 by {
            assert(idx(i) != idx(k - 1));
        }
        lemma_total_injective(g2, idx, k - 1, upto);
        assert forall|x: int| 0 <= x < upto implies #[trigger] g(x) >= g2(x) + pt(x) - zero(x) by {}
        assert forall|x: int| 0 <= x < upto implies #[trigger] g(x) == g2(x) + pt(x) - zero(x) by {}
        lemma_total_combine(g, g2, pt, zero, upto);
        lemma_total_zero(zero, upto);
        lemma_total_point(c, p, upto);
    }
}

/// One where `b` holds, zero elsewhere.
pub open spec fn indicator(b: spec_fn(int) -> bool) -> spec_fn(int) -> int {
    |i: int| if b(i) { 1int } else { 0int }
}

/// A sum of non-negative terms is at least the number of places below `k`
/// where `b` holds, when `idx` sends those places to distinct terms of at
/// least one.
pub proof fn lemma_total_injective_where(
    g: spec_fn(int) -> int,
    b: spec_fn(int) -> bool,
    idx: spec_fn(int) -> int,
    k: int,
    upto: int,
)
    requires
        0 <= k,
        forall|i: int| 0 <= i < k && #[trigger] b(i) ==> 0 <= idx(i) < upto,
        forall|i: int, j: int|
            0 <= i < k && 0 <= j < k && i != j && b(i) && b(j) ==> #[trigger] idx(i) != #[trigger] idx(j),
        forall|x: int| 0 <= x < upto ==> #[trigger] g(x) >= 0,
        forall|i: int| 0 <= i < k && #[trigger] b(i) ==> g(idx(i)) >= 1,
    ensures
        total(indicator(b), k) <= total(g, upto),
    decreases k,
{
    if k == 0 {
        lemma_total_nonneg(g, upto);
    } else if !b(k - 1) {
        lemma_total_injective_where(g, b, idx, k - 1, upto);
    } else {
        let p = idx(k - 1);
        let c = g(p);
        let g2 = |x: int| if x == p { c - 1 } else { g(x) };
        let pt = |v: int| if v == p { 1int } else { 0int };
        let zero = |x: int| 0int;
        assert forall|i: int| 0 <= i < k - 1 && #[trigger] b(i) implies g2(idx(i)) >= 1 by {
            assert(idx(i) != idx(k - 1));
        }
        assert forall|x: int| 0 <= x < upto implies #[trigger] g2(x) >= 0 by {}
        lemma_total_injective_where(g2, b, idx, k - 1, upto);
        assert forall|x: int| 0 <= x < upto implies #[trigger] g(x) >= g2(x) + pt(x) - zero(x) by {}
        assert forall|x: int| 0 <= x < upto implies #[trigger] g(x) == g2(x) + pt(x) - zero(x) by {}
        lemma_total_combine(g, g2, pt, zero, upto);
        lemma_total_zero(zero, upto);
        lemma_total_point(1, p, upto);
    }
}

/// A sum of ones counts its terms.
pub proof fn lemma_total_ones(f: spec_fn(int) -> int, upto: int)
    requires
        0 <= upto,
        forall|k: int| 0 <= k < upto ==> #[trigger] f(k) == 1,
    ensures
        total(f, upto) == upto,
    decreases upto,
{
    if upto > 0 {
        lemma_total_ones(f, upto - 1);
    }
}

/// The terms `f(i, j)` of row `i`.
pub open spec fn row_fn(f: spec_fn(int, int) -> int, i: int) -> spec_fn(int) -> int {
    |j: int| f(i, j)
}

/// The sum of `f(i, j)` over `0 <= j < m`, for each row `i`.
pub open spec fn row_sums(f: spec_fn(int, int) -> int, m: int) -> spec_fn(int) -> int {
    |i: int| total(row_fn(f, i), m)
}

/// The sum of `f(i, j)` over the first `n` rows of `m` columns.
pub open spec fn grid_sum(f: spec_fn(int, int) -> int, n: int, m: int) -> int {
    total(row_sums(f, m), n)
}

/// Terms at least `a + b - c` give a grid sum at least the sums' `a + b - c`,
/// and terms equal to it give that sum exactly.
pub proof fn lemma_grid_combine(
    f: spec_fn(int, int) -> int,
    a: spec_fn(int, int) -> int,
    b: spec_fn(int, int) -> int,
    c: spec_fn(int, int) -> int,
    n: int,
    m: int,
)
    requires
        forall|i: int, j: int| 0 <= i < n && 0 <= j < m ==> #[trigger] f(i, j) >= a(i, j) + b(i, j) - c(i, j),
    ensures
        grid_sum(f, n, m) >= grid_sum(a, n, m) + grid_sum(b, n, m) - grid_sum(c, n, m),
        (forall|i: int, j: int| 0 <= i < n && 0 <= j < m ==> #[trigger] f(i, j) == a(i, j) + b(i, j) - c(i, j))
            ==> grid_sum(f, n, m) == grid_sum(a, n, m) + grid_sum(b, n, m) - grid_sum(c, n, m),
{
    let rf = row_sums(f, m);
    let ra = row_sums(a, m);
    let rb = row_sums(b, m);
    let rc = row_sums(c, m);
    assert forall|i: int| 0 <= i < n implies #[trigger] rf(i) >= ra(i) + rb(i) - rc(i) by {
        let fi = row_fn(f, i);
        let ai = row_fn(a, i);
        let bi = row_fn(b, i);
        let ci = row_fn(c, i);
        assert forall|j: int| 0 <= j < m implies #[trigger] fi(j) >= ai(j) + bi(j) - ci(j) by {
            assert(f(i, j) >= a(i, j) + b(i, j) - c(i, j));
        }
        lemma_total_combine(fi, ai, bi, ci, m);
    }
    lemma_total_combine(rf, ra, rb, rc, n);
    if forall|i: int, j: int| 0 <= i < n && 0 <= j < m ==> #[trigger] f(i, j) == a(i, j) + b(i, j) - c(i, j) {
        assert forall|i: int| 0 <= i < n implies #[trigger] rf(i) == ra(i) + rb(i) - rc(i) by {
            let fi = row_fn(f, i);
            let ai = row_fn(a, i);
            let bi = row_fn(b, i);
            let ci = row_fn(c, i);
            assert forall|j: int| 0 <= j < m implies #[trigger] fi(j) >= ai(j) + bi(j) - ci(j) by {
                assert(f(i, j) == a(i, j) + b(i, j) - c(i, j));
            }
            assert forall|j: int| 0 <= j < m implies #[trigger] fi(j) == ai(j) + bi(j) - ci(j) by {
                assert(f(i, j) == a(i, j) + b(i, j) - c(i, j));
            }
            lemma_total_combine(fi, ai, bi, ci, m);
        }
        lemma_total_combine(rf, ra, rb, rc, n);
    }
}

} // verus!
