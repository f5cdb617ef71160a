use vstd::prelude::*;
use crate::strings::{calc_zfun, chars_of, is_z_function, is_z_value};
use crate::task_u::{is_period, lemma_period_z};
use vstd::arithmetic::div_mod::{
    lemma_small_mod, lemma_mod_add_multiples_vanish, lemma_mod_pos_bound, lemma_fundamental_div_mod,
    lemma_fundamental_div_mod_converse,
};

verus! {

/// `p` is the length of the shortest period of `s` (zero for the empty
/// string, the whole length when no shorter one exists).
pub open spec fn is_shortest_period(s: Seq<char>, p: int) -> bool {
    ||| s.len() == 0 && p == 0
    ||| {
        &&& s.len() > 0
        &&& 1 <= p <= s.len()
        &&& is_period(s, p)
        &&& forall|q: int| 1 <= q < p ==> !is_period(s, q)
    }
}

/// `c` is `a` followed by `b` with their first `len` characters merged: the
/// last `len` characters of `a` are the first `len` of `b`.
pub open spec fn is_merge(a: Seq<char>, b: Seq<char>, len: int, c: Seq<char>) -> bool {
    &&& 0 <= len <= b.len()
    &&& len <= a.len()
    &&& a.subrange(a.len() - len, a.len() as int) == b.subrange(0, len)
    &&& c == a + b.subrange(len, b.len() as int)
}

/// `b` occurs in `a` from position `i` on.
pub open spec fn occurs_at(a: Seq<char>, b: Seq<char>, i: int) -> bool {
    0 <= i && i + b.len() <= a.len() && a.subrange(i, i + b.len()) == b
}

/// The first characters of `s` up to its shortest period: the shortest
/// string whose repetition starts with `s`.
pub open spec fn period_prefix(s: Seq<char>) -> Seq<char> {
    s.subrange(0, choose|p: int| is_shortest_period(s, p))
}

/// A string has one shortest period.
proof fn lemma_shortest_period_unique(s: Seq<char>, p1: int, p2: int)
    requires
        is_shortest_period(s, p1),
        is_shortest_period(s, p2),
    ensures
        p1 == p2,
{
}

/// The shortest period's prefix of `s` is its first `p` characters, for its
/// shortest period `p`.
proof fn lemma_period_prefix(s: Seq<char>, p: int)
    requires
        is_shortest_period(s, p),
    ensures
        period_prefix(s) == s.subrange(0, p),
{
    let q = choose|q: int| is_shortest_period(s, q);
    lemma_shortest_period_unique(s, p, q);
}

/// The last `len` characters of `a` are the first `len` of `b`.
pub open spec fn overlaps(a: Seq<char>, b: Seq<char>, len: int) -> bool {
    &&& 0 <= len <= b.len()
    &&& len <= a.len()
    &&& a.subrange(a.len() - len, a.len() as int) == b.subrange(0, len)
}

/// `len` is the longest overlap of the end of `a` with the start of `b`.
pub open spec fn is_longest_overlap(a: Seq<char>, b: Seq<char>, len: int) -> bool {
    &&& overlaps(a, b, len)
    &&& forall|l2: int| len < l2 <= a.len() && l2 <= b.len() ==> !#[trigger] overlaps(a, b, l2)
}

/// `a` followed by `b`, merged along their longest overlap.
pub open spec fn merge_longest(a: Seq<char>, b: Seq<char>) -> Seq<char> {
    a + b.subrange(choose|len: int| is_longest_overlap(a, b, len), b.len() as int)
}

/// The merge along a longest overlap is the merge along `len`.
proof fn lemma_merge_longest(a: Seq<char>, b: Seq<char>, len: int)
    requires
        is_longest_overlap(a, b, len),
    ensures
        merge_longest(a, b) == a + b.subrange(len, b.len() as int),
{
    let l = choose|l: int| is_longest_overlap(a, b, l);
    if l < len {
        assert(!overlaps(a, b, len));
    }
    if len < l {
        assert(!overlaps(a, b, l));
    }
}

/// What the strings give when neither holds the other: among the shortest
/// period prefixes of `a` and `b` merged along their longest overlap, of the
/// reversed strings so merged, of `b` followed by `a`, and of the reversed
/// `b` followed by the reversed `a`, the first shortest in that order but
/// with the third before the second; a prefix of reversed strings is turned
/// back.
pub open spec fn combined(a: Seq<char>, b: Seq<char>) -> Seq<char> {
    let c1 = period_prefix(merge_longest(a, b));
    let c2 = period_prefix(merge_longest(a.reverse(), b.reverse()));
    let c3 = period_prefix(b + a);
    let c4 = period_prefix(b.reverse() + a.reverse());
    let m12 = if c2.len() < c1.len() { c2.len() } else { c1.len() };
    let m123 = if c3.len() < m12 { c3.len() } else { m12 };
    let m = if c4.len() < m123 { c4.len() } else { m123 };
    if c1.len() == m {
        c1
    } else if c3.len() == m {
        c3
    } else if c2.len() == m {
        c2.reverse()
    } else {
        c4.reverse()
    }
}

/// The shortest period prefix of `x` when it holds `y`, else the
/// combination of the two.
pub open spec fn cover_of(x: Seq<char>, y: Seq<char>) -> Seq<char> {
    if exists|i: int| #[trigger] occurs_at(x, y, i) {
        period_prefix(x)
    } else {
        combined(x, y)
    }
}

/// What `solve` gives for `a` and `b`: the cover of the shorter by the
/// longer, `a` counting as the longer when both are as long.
pub open spec fn shortest_cover(a: Seq<char>, b: Seq<char>) -> Seq<char> {
    if a.len() < b.len() {
        cover_of(b, a)
    } else {
        cover_of(a, b)
    }
}

/// `s` can be read off the endless repetition of `w`, from position `j` of
/// it on.
pub open spec fn read_from(w: Seq<char>, s: Seq<char>, j: int) -> bool {
    forall|t: int| 0 <= t < s.len() ==> #[trigger] s[t] == w[(j + t) % (w.len() as int)]
}

/// `s` occurs in the endless repetition of `w`.
pub open spec fn in_repetition(w: Seq<char>, s: Seq<char>) -> bool {
    s.len() == 0 || (w.len() >= 1 && exists|j: int| 0 <= j && #[trigger] read_from(w, s, j))
}

/// Trying the lengths from `q` on finds the shortest period.
proof fn lemma_period_search(s: Seq<char>, q: int) -> (p: int)
    requires
        1 <= q <= s.len(),
        forall|q2: int| 1 <= q2 < q ==> !is_period(s, q2),
    ensures
        is_shortest_period(s, p),
    decreases s.len() - q,
{
    if is_period(s, q) {
        q
    } else {
        if q == s.len() {
            assert(is_period(s, q));
        }
        lemma_period_search(s, q + 1)
    }
}

/// Every string has a shortest period.
pub proof fn lemma_shortest_exists(s: Seq<char>) -> (p: int)
    ensures
        is_shortest_period(s, p),
{
    if s.len() == 0 {
        0
    } else {
        lemma_period_search(s, 1)
    }
}

/// Trying the lengths from `l` down finds the longest overlap.
proof fn lemma_overlap_search(a: Seq<char>, b: Seq<char>, l: int) -> (len: int)
    requires
        0 <= l <= a.len(),
        l <= b.len(),
        forall|l2: int| l < l2 <= a.len() && l2 <= b.len() ==> !#[trigger] overlaps(a, b, l2),
    ensures
        is_longest_overlap(a, b, len),
    decreases l,
{
    if overlaps(a, b, l) {
        l
    } else {
        if l == 0 {
            assert(a.subrange(a.len() as int, a.len() as int) =~= b.subrange(0, 0));
        }
        lemma_overlap_search(a, b, l - 1)
    }
}

/// Along a period `p`, each character repeats the one at its place modulo
/// `p`.
proof fn lemma_period_at(s: Seq<char>, p: int, t: int)
    requires
        is_period(s, p),
        0 <= t < s.len(),
    ensures
        s[t] == s[t % p],
    decreases t,
{
    if t < p {
        lemma_small_mod(t as nat, p as nat);
    } else {
        assert(s[t - p] == s[(t - p) + p]);
        lemma_period_at(s, p, t - p);
        lemma_mod_add_multiples_vanish(t - p, p);
    }
}

/// What occurs in `c` occurs in the repetition of the shortest period
/// prefix of `c`.
proof fn lemma_occurs_cover(c: Seq<char>, s: Seq<char>, i: int)
    requires
        occurs_at(c, s, i),
    ensures
        in_repetition(period_prefix(c), s),
{
    if s.len() > 0 {
        let p = lemma_shortest_exists(c);
        lemma_period_prefix(c, p);
        let w = c.subrange(0, p);
        assert forall|t: int| 0 <= t < s.len() implies #[trigger] s[t] == w[(i + t) % (w.len() as int)] by {
            assert(s[t] == c.subrange(i, i + s.len())[t]);
            lemma_period_at(c, p, i + t);
            lemma_mod_pos_bound(i + t, p);
        }
        assert(read_from(w, s, i));
    }
}

/// Reading backwards: what occurs in the repetition of `w` occurs, turned
/// round, in the repetition of `w` turned round.
pub proof fn lemma_rev_cover(w: Seq<char>, s: Seq<char>)
    requires
        in_repetition(w, s),
    ensures
        in_repetition(w.reverse(), s.reverse()),
{
    if s.len() > 0 {
        let j = choose|j: int| 0 <= j && #[trigger] read_from(w, s, j);
        let l = w.len() as int;
        let n = s.len() as int;
        let c = j + n - 1;
        let j2 = (l - 1) * (c + 1);
        assert(j2 >= 0) by (nonlinear_arith)
            requires
                l >= 1,
                c >= 0,
                j2 == (l - 1) * (c + 1),
        ;
        let wr = w.reverse();
        let sr = s.reverse();
        assert forall|t: int| 0 <= t < sr.len() implies #[trigger] sr[t] == wr[(j2 + t) % (wr.len() as int)] by {
            assert(sr[t] == s[n - 1 - t]);
            assert(s[n - 1 - t] == w[(j + (n - 1 - t)) % l]);
            assert(j + (n - 1 - t) == c - t);
            let r = (c - t) % l;
            let q = (c - t) / l;
            lemma_fundamental_div_mod(c - t, l);
            lemma_mod_pos_bound(c - t, l);
            assert(q >= 0) by (nonlinear_arith)
                requires
                    c - t == l * q + r,
                    0 <= r < l,
                    c - t >= 0,
                    l >= 1,
            ;
            assert(q <= c) by (nonlinear_arith)
                requires
                    c - t == l * q + r,
                    0 <= r,
                    0 <= t,
                    l >= 1,
                    q >= 0,
            ;
            assert(j2 + t == (c - q) * l + (l - 1 - r)) by (nonlinear_arith)
                requires
                    j2 == (l - 1) * (c + 1),
                    c - t == l * q + r,
            ;
            lemma_fundamental_div_mod_converse(j2 + t, l, c - q, l - 1 - r);
            assert(wr[l - 1 - r] == w[l - 1 - (l - 1 - r)]);
        }
        assert(read_from(wr, sr, j2));
    }
}

/// A repetition that holds a non-empty string is at least as long as its
/// shortest period.
pub proof fn lemma_cover_min(w: Seq<char>, x: Seq<char>, p: int)
    requires
        in_repetition(w, x),
        is_shortest_period(x, p),
    ensures
        p <= w.len(),
{
    if x.len() > 0 {
        let l = w.len() as int;
        if l < x.len() {
            let j = choose|j: int| 0 <= j && #[trigger] read_from(w, x, j);
            assert forall|k: int| 0 <= k < x.len() - l implies #[trigger] x[k] == x[k + l] by {
                lemma_mod_add_multiples_vanish(j + k, l);
                assert(x[k + l] == w[(j + (k + l)) % l]);
                assert(x[k] == w[(j + k) % l]);
                assert(j + (k + l) == l + (j + k));
            }
            assert(is_period(x, l));
        }
    }
}

/// Both strings occur in the repetition of the shortest period prefix of
/// `x` merged with `y` along their longest overlap, and of `y` followed by
/// `x`.
proof fn lemma_candidates_cover(x: Seq<char>, y: Seq<char>)
    ensures
        in_repetition(period_prefix(merge_longest(x, y)), x),
        in_repetition(period_prefix(merge_longest(x, y)), y),
        in_repetition(period_prefix(y + x), x),
        in_repetition(period_prefix(y + x), y),
{
    let top = if x.len() < y.len() { x.len() as int } else { y.len() as int };
    let len = lemma_overlap_search(x, y, top);
    lemma_merge_longest(x, y, len);
    let m = merge_longest(x, y);
    let nx = x.len() as int;
    assert(m.subrange(0, nx) =~= x);
    lemma_occurs_cover(m, x, 0);
    assert(m.subrange(nx - len, nx - len + y.len()) =~= y) by {
        assert forall|t: int| 0 <= t < y.len() implies #[trigger] m.subrange(nx - len, nx - len + y.len())[t] == y[t] by {
            if t < len {
                assert(x.subrange(nx - len, nx)[t] == y.subrange(0, len)[t]);
            }
        }
    }
    lemma_occurs_cover(m, y, nx - len);
    let c = y + x;
    assert(c.subrange(0, y.len() as int) =~= y);
    assert(c.subrange(y.len() as int, y.len() + nx) =~= x);
    lemma_occurs_cover(c, y, 0);
    lemma_occurs_cover(c, x, y.len() as int);
}

/// The same for the strings turned round, with the result turned back.
proof fn lemma_candidates_cover_rev(x: Seq<char>, y: Seq<char>)
    ensures
        in_repetition(period_prefix(merge_longest(x.reverse(), y.reverse())).reverse(), x),
        in_repetition(period_prefix(merge_longest(x.reverse(), y.reverse())).reverse(), y),
        in_repetition(period_prefix(y.reverse() + x.reverse()).reverse(), x),
        in_repetition(period_prefix(y.reverse() + x.reverse()).reverse(), y),
{
    let xr = x.reverse();
    let yr = y.reverse();
    lemma_candidates_cover(xr, yr);
    lemma_rev_cover(period_prefix(merge_longest(xr, yr)), xr);
    lemma_rev_cover(period_prefix(merge_longest(xr, yr)), yr);
    lemma_rev_cover(period_prefix(yr + xr), xr);
    lemma_rev_cover(period_prefix(yr + xr), yr);
    assert(xr.reverse() =~= x);
    assert(yr.reverse() =~= y);
}

/// What `solve` gives holds both strings in its repetition; and where one
/// string occurs in the other, no string whose repetition holds both is
/// shorter.
pub proof fn lemma_cover(a: Seq<char>, b: Seq<char>)
    ensures
        in_repetition(shortest_cover(a, b), a),
        in_repetition(shortest_cover(a, b), b),
        (exists|i: int| #[trigger] occurs_at(a, b, i)) || (exists|i: int| #[trigger] occurs_at(b, a, i)) ==> forall|w: Seq<char>|
            in_repetition(w, a) && in_repetition(w, b) ==> shortest_cover(a, b).len() <= #[trigger] w.len(),
{
    let swap = a.len() < b.len();
    let x = if swap { b } else { a };
    let y = if swap { a } else { b };
    assert(shortest_cover(a, b) == cover_of(x, y));
    if exists|i: int| #[trigger] occurs_at(x, y, i) {
        let i = choose|i: int| #[trigger] occurs_at(x, y, i);
        assert(x.subrange(0, x.len() as int) =~= x);
        lemma_occurs_cover(x, x, 0);
        lemma_occurs_cover(x, y, i);
        let p = lemma_shortest_exists(x);
        lemma_period_prefix(x, p);
        assert forall|w: Seq<char>| in_repetition(w, a) && in_repetition(w, b) implies shortest_cover(a, b).len()
            <= #[trigger] w.len() by {
            lemma_cover_min(w, x, p);
        }
    } else {
        lemma_candidates_cover(x, y);
        lemma_candidates_cover_rev(x, y);
        if exists|i: int| #[trigger] occurs_at(a, b, i) {
            let i = choose|i: int| #[trigger] occurs_at(a, b, i);
            if swap {
                assert(false);
            }
        }
        if exists|i: int| #[trigger] occurs_at(b, a, i) {
            let i = choose|i: int| #[trigger] occurs_at(b, a, i);
            if !swap {
                assert(i == 0);
                assert(a =~= b.subrange(0, a.len() as int));
                assert(b =~= a);
                assert(a.subrange(0, b.len() as int) =~= b);
                assert(occurs_at(a, b, 0));
            }
        }
    }
}

/// A string turned round has the periods it had.
proof fn lemma_period_rev(s: Seq<char>, q: int)
    ensures
        is_period(s, q) <==> is_period(s.reverse(), q),
{
    let r = s.reverse();
    let n = s.len() as int;
    if is_period(s, q) {
        assert forall|j: int| 0 <= j < r.len() - q implies #[trigger] r[j] == r[j + q] by {
            assert(s[n - 1 - j - q] == s[(n - 1 - j - q) + q]);
        }
    }
    if is_period(r, q) {
        assert forall|j: int| 0 <= j < s.len() - q implies #[trigger] s[j] == s[j + q] by {
            assert(r[n - 1 - j - q] == r[(n - 1 - j - q) + q]);
        }
    }
}

/// A string turned round has the shortest period it had.
proof fn lemma_period_len_rev(s: Seq<char>)
    ensures
        period_prefix(s.reverse()).len() == period_prefix(s).len(),
{
    let p = lemma_shortest_exists(s);
    lemma_period_prefix(s, p);
    let r = s.reverse();
    assert forall|q: int| #![auto] 1 <= q <= s.len() implies (is_period(s, q) <==> is_period(r, q)) by {
        lemma_period_rev(s, q);
    }
    lemma_period_rev(s, p);
    assert(is_shortest_period(r, p));
    lemma_period_prefix(r, p);
}

/// Merging the strings turned round along their longest overlap gives, turned
/// round, the merge the other way.
proof fn lemma_merge_rev(x: Seq<char>, y: Seq<char>)
    ensures
        merge_longest(x.reverse(), y.reverse()) == merge_longest(y, x).reverse(),
{
    let xr = x.reverse();
    let yr = y.reverse();
    let nx = x.len() as int;
    let ny = y.len() as int;
    assert forall|l: int| overlaps(xr, yr, l) <==> overlaps(y, x, l) by {
        if 0 <= l <= nx && l <= ny {
            if overlaps(xr, yr, l) {
                assert(y.subrange(ny - l, ny) =~= x.subrange(0, l)) by {
                    assert forall|t: int| 0 <= t < l implies y.subrange(ny - l, ny)[t] == x.subrange(0, l)[t] by {
                        assert(xr.subrange(nx - l, nx)[l - 1 - t] == yr.subrange(0, l)[l - 1 - t]);
                    }
                }
            }
            if overlaps(y, x, l) {
                assert(xr.subrange(nx - l, nx) =~= yr.subrange(0, l)) by {
                    assert forall|t: int| 0 <= t < l implies xr.subrange(nx - l, nx)[t] == yr.subrange(0, l)[t] by {
                        assert(y.subrange(ny - l, ny)[l - 1 - t] == x.subrange(0, l)[l - 1 - t]);
                    }
                }
            }
        }
    }
    let top = if nx < ny { nx } else { ny };
    let len = lemma_overlap_search(y, x, top);
    assert(is_longest_overlap(xr, yr, len)) by {
        assert forall|l2: int| len < l2 <= xr.len() && l2 <= yr.len() implies !#[trigger] overlaps(xr, yr, l2) by {
            assert(!overlaps(y, x, l2));
        }
    }
    lemma_merge_longest(xr, yr, len);
    lemma_merge_longest(y, x, len);
    let lhs = xr + yr.subrange(len, ny);
    let rhs = (y + x.subrange(len, nx)).reverse();
    assert(overlaps(y, x, len));
    assert forall|t: int| 0 <= t < lhs.len() implies lhs[t] == rhs[t] by {
        let u = ny + nx - len - 1 - t;
        if nx - len <= t < nx {
            assert(y.subrange(ny - len, ny)[nx - 1 - t] == x.subrange(0, len)[nx - 1 - t]);
        }
    }
    assert(lhs =~= rhs);
}

/// Turning round the halves and their order turns round the whole.
proof fn lemma_concat_rev(x: Seq<char>, y: Seq<char>)
    ensures
        y.reverse() + x.reverse() == (x + y).reverse(),
{
    assert(y.reverse() + x.reverse() =~= (x + y).reverse());
}

/// The shortest period of a string is at most that of any string it
/// occurs in.
proof fn lemma_period_within(c: Seq<char>, s: Seq<char>, i: int)
    requires
        occurs_at(c, s, i),
    ensures
        period_prefix(s).len() <= period_prefix(c).len(),
{
    let p = lemma_shortest_exists(s);
    lemma_period_prefix(s, p);
    lemma_occurs_cover(c, s, i);
    lemma_cover_min(period_prefix(c), s, p);
}

/// Both strings occur in each of the four joins.
proof fn lemma_joins_hold(a: Seq<char>, b: Seq<char>)
    ensures
        period_prefix(a).len() <= period_prefix(a + b).len(),
        period_prefix(a).len() <= period_prefix(b + a).len(),
        period_prefix(a).len() <= period_prefix(merge_longest(a, b)).len(),
        period_prefix(a).len() <= period_prefix(merge_longest(b, a)).len(),
{
    let na = a.len() as int;
    let nb = b.len() as int;
    assert((a + b).subrange(0, na) =~= a);
    lemma_period_within(a + b, a, 0);
    assert((b + a).subrange(nb, nb + na) =~= a);
    lemma_period_within(b + a, a, nb);
    let top1 = if na < nb { na } else { nb };
    let l1 = lemma_overlap_search(a, b, top1);
    lemma_merge_longest(a, b, l1);
    assert(merge_longest(a, b).subrange(0, na) =~= a);
    lemma_period_within(merge_longest(a, b), a, 0);
    let l2 = lemma_overlap_search(b, a, top1);
    lemma_merge_longest(b, a, l2);
    let m = merge_longest(b, a);
    assert(m.subrange(nb - l2, nb - l2 + na) =~= a) by {
        assert forall|t: int| 0 <= t < na implies #[trigger] m.subrange(nb - l2, nb - l2 + na)[t] == a[t] by {
            if t < l2 {
                assert(b.subrange(nb - l2, nb)[t] == a.subrange(0, l2)[t]);
            }
        }
    }
    lemma_period_within(m, a, nb - l2);
}

/// What `solve` gives is no longer than the shortest period of either
/// string joined to the other, in either order, end to start or merged
/// along their longest overlap.
pub proof fn lemma_cover_short(a: Seq<char>, b: Seq<char>)
    ensures
        shortest_cover(a, b).len() <= period_prefix(a + b).len(),
        shortest_cover(a, b).len() <= period_prefix(b + a).len(),
        shortest_cover(a, b).len() <= period_prefix(merge_longest(a, b)).len(),
        shortest_cover(a, b).len() <= period_prefix(merge_longest(b, a)).len(),
{
    let swap = a.len() < b.len();
    let x = if swap { b } else { a };
    let y = if swap { a } else { b };
    assert(shortest_cover(a, b) == cover_of(x, y));
    if exists|i: int| #[trigger] occurs_at(x, y, i) {
        assert(b + a == y + x || b + a == x + y);
        lemma_joins_hold(x, y);
    } else {
        lemma_merge_rev(x, y);
        lemma_concat_rev(x, y);
        lemma_period_len_rev(merge_longest(y, x));
        lemma_period_len_rev(x + y);
        let c1 = period_prefix(merge_longest(x, y));
        let c2 = period_prefix(merge_longest(x.reverse(), y.reverse()));
        let c3 = period_prefix(y + x);
        let c4 = period_prefix(y.reverse() + x.reverse());
        assert(c2.len() == period_prefix(merge_longest(y, x)).len());
        assert(c4.len() == period_prefix(x + y).len());
        assert(c2.reverse().len() == c2.len());
        assert(c4.reverse().len() == c4.len());
        let r = combined(x, y);
        assert(r.len() <= c1.len() && r.len() <= c2.len() && r.len() <= c3.len() && r.len() <= c4.len());
    }
}

/// Appends `c` to `s`.
#[verifier::external_body]
fn string_push(s: &mut String, c: char)
    ensures
        final(s)@ == old(s)@.push(c),
{
    s.push(c);
}

/// The string made of the characters of `chars`.
pub fn string_of(chars: &[char]) -> (r: String)
    ensures
        r@ == chars@,
{
    let mut r = String::new();
    let mut i: usize = 0;
    while i < chars.len()
        invariant
            i <= chars@.len(),
            r@ == chars@.subrange(0, i as int),
        decreases chars@.len() - i,
    {
        proof {
            assert(chars@.subrange(0, i + 1) == chars@.subrange(0, i as int).push(chars@[i as int]));
        }
        string_push(&mut r, chars[i]);
        i += 1;
    }
    proof {
        assert(chars@.subrange(0, chars@.len() as int) == chars@);
    }
    r
}

/// The characters of `v` in the opposite order.
fn reversed_chars(v: &[char]) -> (r: Vec<char>)
    ensures
        r@ == v@.reverse(),
{
    let mut r: Vec<char> = Vec::new();
    let mut k = v.len();
    while k > 0
        invariant
            k <= v@.len(),
            r@.len() == v@.len() - k,
            forall|j: int| 0 <= j < r@.len() ==> r@[j] == v@[v@.len() - 1 - j],
        decreases k,
    {
        k -= 1;
        r.push(v[k]);
    }
    assert(r@ =~= v@.reverse());
    r
}

/// The characters of `s` from `from` up to `to`.
fn copy_range(s: &[char], from: usize, to: usize) -> (r: Vec<char>)
    requires
        from <= to <= s@.len(),
    ensures
        r@ == s@.subrange(from as int, to as int),
{
    let mut r: Vec<char> = Vec::new();
    let mut j: usize = from;
    while j < to
        invariant
            from <= j <= to,
            to <= s@.len(),
            r@ == s@.subrange(from as int, j as int),
        decreases to - j,
    {
        proof {
            assert(s@.subrange(from as int, j + 1) == s@.subrange(from as int, j as int).push(s@[j as int]));
        }
        r.push(s[j]);
        j += 1;
    }
    r
}

/// `a` followed by the characters of `b` from `from` on.
fn joined(a: &[char], b: &[char], from: usize) -> (r: Vec<char>)
    requires
        from <= b@.len(),
    ensures
        r@ == a@ + b@.subrange(from as int, b@.len() as int),
{
    let mut r: Vec<char> = Vec::new();
    let mut i: usize = 0;
    while i < a.len()
        invariant
            i <= a@.len(),
            r@ == a@.subrange(0, i as int),
        decreases a@.len() - i,
    {
        proof {
            assert(a@.subrange(0, i + 1) == a@.subrange(0, i as int).push(a@[i as int]));
        }
        r.push(a[i]);
        i += 1;
    }
    let mut j: usize = from;
    while j < b.len()
        invariant
            from <= j <= b@.len(),
            r@ == a@ + b@.subrange(from as int, j as int),
        decreases b@.len() - j,
    {
        proof {
            assert(b@.subrange(from as int, j + 1) == b@.subrange(from as int, j as int).push(b@[j as int]));
        }
        r.push(b[j]);
        j += 1;
    }
    proof {
        assert(a@.subrange(0, a@.len() as int) == a@);
    }
    r
}

/// The shortest period of `s`, as its first characters: the prefix of
/// length `i` for the smallest `i >= 1` such that `s` from `i` on is a
/// prefix of `s`, or `s` itself.
pub fn find_period(s: &[char]) -> (r: Vec<char>)
    ensures
        exists|p: int| is_shortest_period(s@, p) && r@ == s@.subrange(0, p),
        r@ == period_prefix(s@),
{
    let n = s.len();
    let zfun = calc_zfun(s);
    let mut i: usize = 1;
    while i < n
        invariant
            n == s@.len(),
            is_z_function(s@, zfun@),
            1 <= i,
            n > 0 ==> i <= n,
            forall|q: int| 1 <= q < i ==> !is_period(s@, q),
        decreases n - i,
    {
        proof {
            lemma_period_z(s@, i as int, zfun@[i as int] as int);
        }
        if i + zfun[i] == n {
            let r = copy_range(s, 0, i);
            proof {
                assert(is_shortest_period(s@, i as int));
                lemma_period_prefix(s@, i as int);
            }
            return r;
        }
        i += 1;
    }
    let r = copy_range(s, 0, n);
    proof {
        if n > 0 {
            assert(is_period(s@, n as int));
            assert(is_shortest_period(s@, n as int));
        } else {
            assert(is_shortest_period(s@, 0));
        }
        assert(s@.subrange(0, n as int) == s@);
        assert(r@ == s@);
        lemma_period_prefix(s@, n as int);
    }
    r
}

/// The shortest period of the merge of `sa` and `sb` with the longest
/// overlap found through `zfun`, the Z-function of `sb` followed by `sa`
/// (or of their plain concatenation when they do not overlap).
pub fn try_find(sa: &[char], sb: &[char], zfun: &[usize]) -> (r: Vec<char>)
    requires
        is_z_function(sb@ + sa@, zfun@),
        sa@.len() + sb@.len() < usize::MAX,
    ensures
        exists|len: int, c: Seq<char>, p: int|
            is_merge(sa@, sb@, len, c) && is_shortest_period(c, p) && r@ == c.subrange(0, p),
        r@ == period_prefix(merge_longest(sa@, sb@)),
{
    let n = sa.len();
    let m = sb.len();
    let ghost pat = sb@ + sa@;
    let mut found: Option<usize> = None;
    let mut i: usize = 0;
    while i < n
        invariant
            i <= n,
            n == sa@.len(),
            m == sb@.len(),
            pat == sb@ + sa@,
            n + m < usize::MAX,
            is_z_function(pat, zfun@),
            found matches Some(len) ==> len <= m && len <= n && sa@.subrange(n - len, n as int) == sb@.subrange(
                0,
                len as int,
            ) && is_longest_overlap(sa@, sb@, len as int),
            forall|l2: int| n - i < l2 <= n && l2 <= m ==> !#[trigger] overlaps(sa@, sb@, l2),
        ensures
            found is None ==> i == n,
        decreases n - i,
    {
        let z = zfun[m + i];
        proof {
            assert(is_z_value(pat, m + i, z as int));
            let l = n - i;
            if overlaps(sa@, sb@, l) {
                assert forall|t: int| 0 <= t < l implies #[trigger] pat[t] == pat[m + i + t] by {
                    assert(sa@.subrange(n - l, n as int)[t] == sb@.subrange(0, l)[t]);
                    assert(pat[t] == sb@[t]);
                    assert(pat[m + i + t] == sa@[i + t]);
                }
                if z < l {
                    assert(pat[z as int] == pat[m + i + z]);
                }
                assert(z == l);
            }
        }
        let len = if z < m {
            z
        } else {
            m
        };
        if i + len == n {
            proof {
                assert(is_z_value(pat, m + i, z as int));
                assert forall|j: int| 0 <= j < len implies sa@.subrange(n - len, n as int)[j] == sb@.subrange(
                    0,
                    len as int,
                )[j] by {
                    assert(pat[j] == pat[m + i + j]);
                    assert(pat[j] == sb@[j]);
                    assert(pat[m + i + j] == sa@[i + j]);
                }
                assert(sa@.subrange(n - len, n as int) =~= sb@.subrange(0, len as int));
                assert(overlaps(sa@, sb@, len as int));
                assert forall|l2: int| len < l2 <= n && l2 <= m implies !#[trigger] overlaps(sa@, sb@, l2) by {
                    if overlaps(sa@, sb@, l2) {
                        assert(n - i < l2);
                    }
                }
            }
            found = Some(len);
            break;
        }
        proof {
            assert(!overlaps(sa@, sb@, n - i));
        }
        i += 1;
    }
    let len = match found {
        Some(len) => len,
        None => 0,
    };
    proof {
        assert(sa@.subrange(n - 0, n as int) =~= sb@.subrange(0, 0));
    }
    let cand = joined(sa, sb, len);
    let r = find_period(&cand);
    proof {
        assert(is_merge(sa@, sb@, len as int, cand@));
        assert(is_longest_overlap(sa@, sb@, len as int)) by {
            if found is None {
                assert(sa@.subrange(n as int, n as int) =~= sb@.subrange(0, 0));
                assert(overlaps(sa@, sb@, 0));
            }
        }
        lemma_merge_longest(sa@, sb@, len as int);
    }
    r
}

/// The characters of `s` as a string, in the same or the opposite order.
fn finish(s: Vec<char>, reverse: bool) -> (r: String)
    ensures
        r@ == if reverse {
            s@.reverse()
        } else {
            s@
        },
{
    if reverse {
        let v = reversed_chars(&s);
        string_of(&v)
    } else {
        string_of(&s)
    }
}

/// A short string whose repetition holds both `a_str` and `b_str`: the
/// shortest period of the longer one when it holds the other, otherwise the
/// shortest among the periods of the two strings merged with the longest
/// overlap in either direction and of their concatenations.
pub fn solve(a_str: &str, b_str: &str) -> (answer: String)
    requires
        a_str@.len() + b_str@.len() + 1 < usize::MAX,
    ensures
        answer@.len() <= a_str@.len() + b_str@.len(),
        answer@ == shortest_cover(a_str@, b_str@),
        in_repetition(answer@, a_str@),
        in_repetition(answer@, b_str@),
        (exists|i: int| #[trigger] occurs_at(a_str@, b_str@, i)) || (exists|i: int| #[trigger] occurs_at(b_str@, a_str@, i))
            ==> forall|w: Seq<char>| in_repetition(w, a_str@) && in_repetition(w, b_str@) ==> answer@.len() <= #[trigger] w.len(),
        answer@.len() <= period_prefix(a_str@ + b_str@).len(),
        answer@.len() <= period_prefix(b_str@ + a_str@).len(),
        answer@.len() <= period_prefix(merge_longest(a_str@, b_str@)).len(),
        answer@.len() <= period_prefix(merge_longest(b_str@, a_str@)).len(),
    decreases (if a_str@.len() < b_str@.len() {
        1int
    } else {
        0int
    }),
{
    proof {
        lemma_cover(a_str@, b_str@);
        lemma_cover_short(a_str@, b_str@);
    }
    let sa1 = chars_of(a_str);
    let sb1 = chars_of(b_str);
    let n = sa1.len();
    let m = sb1.len();
    if n < m {
        let r = solve(b_str, a_str);
        return r;
    }
    let sa2 = reversed_chars(&sa1);
    let sb2 = reversed_chars(&sb1);
    let pat1 = joined(&sb1, &sa1, 0);
    let pat2 = joined(&sb2, &sa2, 0);
    proof {
        assert(sa1@.subrange(0, n as int) == sa1@);
        assert(sa2@.subrange(0, n as int) == sa2@);
    }
    let zfun1 = calc_zfun(&pat1);
    let zfun2 = calc_zfun(&pat2);
    let mut i: usize = 0;
    while i < n
        invariant
            i <= n,
            n == sa1@.len(),
            m == sb1@.len(),
            m <= n,
            n + m + 1 < usize::MAX,
            sa1@ == a_str@,
            sb1@ == b_str@,
            pat1@ == sb1@ + sa1@,
            is_z_function(pat1@, zfun1@),
            forall|i2: int| 0 <= i2 < i ==> !#[trigger] occurs_at(sa1@, sb1@, i2),
        decreases n - i,
    {
        proof {
            let z = zfun1@[m + i];
            assert(is_z_value(pat1@, m + i, z as int));
            if occurs_at(sa1@, sb1@, i as int) && z < m {
                assert(pat1@[z as int] == sb1@[z as int]);
                assert(pat1@[m + i + z] == sa1@[i + z]);
                assert(sa1@.subrange(i as int, i + m)[z as int] == sa1@[i + z]);
            }
        }
        if zfun1[m + i] >= m {
            proof {
                assert(is_z_value(pat1@, m + i, zfun1@[m + i] as int));
                assert forall|t: int| 0 <= t < m implies #[trigger] sa1@.subrange(i as int, i + m)[t] == sb1@[t] by {
                    assert(pat1@[t] == pat1@[m + i + t]);
                    assert(pat1@[t] == sb1@[t]);
                    assert(pat1@[m + i + t] == sa1@[i + t]);
                }
                assert(sa1@.subrange(i as int, i + m) =~= sb1@);
                assert(occurs_at(a_str@, b_str@, i as int));
            }
            let r = find_period(&sa1);
            proof {
                lemma_cover(a_str@, b_str@);
                lemma_cover_short(a_str@, b_str@);
            }
            return finish(r, false);
        }
        i += 1;
    }
    let cand1 = try_find(&sa1, &sb1, &zfun1);
    let cand2 = try_find(&sa2, &sb2, &zfun2);
    let cand3 = find_period(&pat1);
    let cand4 = find_period(&pat2);
    proof {
        assert forall|i: int| #[trigger] occurs_at(a_str@, b_str@, i) implies i == n && m == 0 by {
            if i < n {
                assert(!occurs_at(sa1@, sb1@, i));
            }
        }
        assert(sa2@.len() == n && sb2@.len() == m);
        assert(pat2@.len() == n + m);
        if m == 0 && n > 0 {
            assert(sa1@.subrange(0, 0) =~= sb1@);
            assert(occurs_at(sa1@, sb1@, 0));
        }
        if n == 0 {
            let (len, c, p) = choose|len: int, c: Seq<char>, p: int|
                is_merge(sa1@, sb1@, len, c) && is_shortest_period(c, p) && cand1@ == c.subrange(0, p);
            assert(c.len() == 0);
            assert(cand1@.len() == 0);
            assert(a_str@.subrange(0, 0) =~= cand1@);
            assert(is_shortest_period(a_str@, 0));
        }
    }
    let mut minlen = cand1.len();
    if cand2.len() < minlen {
        minlen = cand2.len();
    }
    if cand3.len() < minlen {
        minlen = cand3.len();
    }
    if cand4.len() < minlen {
        minlen = cand4.len();
    }
    let ghost first = cand1@;
    let ghost (c1, c2, c3, c4) = (cand1@, cand2@, cand3@, cand4@);
    let answer = if minlen == cand1.len() {
        finish(cand1, false)
    } else if minlen == cand3.len() {
        finish(cand3, false)
    } else if minlen == cand2.len() {
        finish(cand2, true)
    } else {
        finish(cand4, true)
    };
    proof {
        assert(c1 == period_prefix(merge_longest(a_str@, b_str@)));
        assert(c2 == period_prefix(merge_longest(a_str@.reverse(), b_str@.reverse())));
        assert(c3 == period_prefix(b_str@ + a_str@));
        assert(c4 == period_prefix(b_str@.reverse() + a_str@.reverse()));
        if n == 0 {
            assert(answer@ == first);
            assert(answer@ == a_str@.subrange(0, 0));
            assert(is_shortest_period(a_str@, 0));
            lemma_period_prefix(a_str@, 0);
            assert(a_str@.subrange(0, 0) =~= b_str@);
            assert(occurs_at(a_str@, b_str@, 0));
        } else {
            assert(!exists|i: int| #[trigger] occurs_at(a_str@, b_str@, i));
        }
    }
    answer
}

} // verus!
