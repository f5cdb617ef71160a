use vstd::prelude::*;
use vstd::set_lib::{lemma_int_range, lemma_subset_equality, set_int_range};
use crate::strings::chars_of;
use vstd::arithmetic::div_mod::{lemma_add_mod_noop, lemma_small_mod, lemma_mod_pos_bound};

verus! {

/// The number of the first `p` keys equal to `o`.
pub open spec fn cnt(keys: Seq<int>, p: int, o: int) -> int
    decreases p,
{
    if p <= 0 {
        0
    } else {
        cnt(keys, p - 1, o) + if keys[p - 1] == o {
            1int
        } else {
            0int
        }
    }
}

/// The number of the first `p` keys below `o`.
pub open spec fn below(keys: Seq<int>, p: int, o: int) -> int
    decreases p,
{
    if p <= 0 {
        0
    } else {
        below(keys, p - 1, o) + if keys[p - 1] < o {
            1int
        } else {
            0int
        }
    }
}

/// Where a stable counting sort by `keys` puts the item at position `q`.
pub open spec fn pos(keys: Seq<int>, q: int) -> int {
    below(keys, keys.len() as int, keys[q]) + cnt(keys, q, keys[q])
}

/// `x` is an entry of `v`.
pub open spec fn holds(v: Seq<u32>, x: int) -> bool {
    exists|t: int| 0 <= t < v.len() && #[trigger] v[t] == x
}

/// `v` holds each number below its length exactly once.
pub open spec fn is_perm(v: Seq<u32>) -> bool {
    &&& forall|t: int| 0 <= t < v.len() ==> #[trigger] v[t] < v.len()
    &&& forall|a: int, b: int| 0 <= a < b < v.len() ==> v[a] != v[b]
}

/// `sorted` is a permutation along which the ranks `ord` start at zero and
/// rise by at most one at a time.
pub open spec fn ranked(sorted: Seq<u32>, ord: Seq<u32>) -> bool {
    &&& is_perm(sorted)
    &&& ord.len() == sorted.len()
    &&& sorted.len() > 0 ==> ord[sorted[0] as int] == 0
    &&& forall|t: int|
        0 <= t < sorted.len() - 1 ==> ord[#[trigger] sorted[t] as int] <= ord[sorted[t + 1] as int] <= ord[sorted[t]
            as int] + 1
}

proof fn lemma_cnt_bounds(keys: Seq<int>, p: int, o: int)
    requires
        0 <= p,
    ensures
        0 <= cnt(keys, p, o) <= p,
        0 <= below(keys, p, o) <= p,
    decreases p,
{
    if p > 0 {
        lemma_cnt_bounds(keys, p - 1, o);
    }
}

proof fn lemma_cnt_mono(keys: Seq<int>, p1: int, p2: int, o: int)
    requires
        0 <= p1 <= p2,
    ensures
        cnt(keys, p1, o) <= cnt(keys, p2, o),
    decreases p2 - p1,
{
    if p1 < p2 {
        lemma_cnt_mono(keys, p1, p2 - 1, o);
    }
}

/// The keys below `o + 1` are those below `o` and those equal to `o`.
proof fn lemma_below_step(keys: Seq<int>, p: int, o: int)
    requires
        0 <= p,
    ensures
        below(keys, p, o + 1) == below(keys, p, o) + cnt(keys, p, o),
    decreases p,
{
    if p > 0 {
        lemma_below_step(keys, p - 1, o);
    }
}

proof fn lemma_below_mono(keys: Seq<int>, p: int, o1: int, o2: int)
    requires
        0 <= p,
        o1 <= o2,
    ensures
        below(keys, p, o1) <= below(keys, p, o2),
    decreases p,
{
    if p > 0 {
        lemma_below_mono(keys, p - 1, o1, o2);
    }
}

/// When every key is at most `kmax`, all keys are below `kmax + 1`.
proof fn lemma_below_all(keys: Seq<int>, p: int, kmax: int)
    requires
        0 <= p <= keys.len(),
        forall|q: int| 0 <= q < keys.len() ==> #[trigger] keys[q] <= kmax,
    ensures
        below(keys, p, kmax + 1) == p,
    decreases p,
{
    if p > 0 {
        lemma_below_all(keys, p - 1, kmax);
    }
}

/// The positions of a stable counting sort are distinct and lie within the
/// sequence.
proof fn lemma_pos(keys: Seq<int>, kmax: int, q: int, r: int)
    requires
        0 <= q < r < keys.len(),
        forall|x: int| 0 <= x < keys.len() ==> 0 <= #[trigger] keys[x] <= kmax,
    ensures
        0 <= pos(keys, q) < keys.len(),
        0 <= pos(keys, r) < keys.len(),
        pos(keys, q) != pos(keys, r),
{
    let n = keys.len() as int;
    lemma_pos_range(keys, kmax, q);
    lemma_pos_range(keys, kmax, r);
    let oq = keys[q];
    let or_ = keys[r];
    lemma_cnt_bounds(keys, q, oq);
    lemma_cnt_bounds(keys, r, or_);
    if oq == or_ {
        assert(cnt(keys, q + 1, oq) == cnt(keys, q, oq) + 1);
        lemma_cnt_mono(keys, q + 1, r, oq);
    } else if oq < or_ {
        lemma_below_mono(keys, n, oq + 1, or_);
    } else {
        lemma_below_mono(keys, n, or_ + 1, oq);
    }
}

proof fn lemma_pos_range(keys: Seq<int>, kmax: int, q: int)
    requires
        0 <= q < keys.len(),
        forall|x: int| 0 <= x < keys.len() ==> 0 <= #[trigger] keys[x] <= kmax,
    ensures
        0 <= pos(keys, q) < keys.len(),
        pos(keys, q) < below(keys, keys.len() as int, keys[q] + 1),
{
    let n = keys.len() as int;
    let o = keys[q];
    lemma_below_step(keys, n, o);
    lemma_cnt_mono(keys, q + 1, n, o);
    lemma_below_mono(keys, n, o + 1, kmax + 1);
    lemma_below_all(keys, n, kmax);
    lemma_cnt_bounds(keys, q, o);
    lemma_cnt_bounds(keys, n, o);
}

/// `n` distinct numbers below `n` are all the numbers below `n`.
pub proof fn lemma_pigeonhole(v: Seq<int>, n: int)
    requires
        v.len() == n,
        forall|t: int| 0 <= t < n ==> 0 <= #[trigger] v[t] < n,
        forall|a: int, b: int| 0 <= a < b < n ==> v[a] != v[b],
    ensures
        forall|x: int| 0 <= x < n ==> v.contains(x),
{
    assert(v.no_duplicates());
    v.unique_seq_to_set();
    lemma_int_range(0, n);
    assert(v.to_set().subset_of(set_int_range(0, n)));
    lemma_subset_equality(v.to_set(), set_int_range(0, n));
    assert forall|x: int| 0 <= x < n implies v.contains(x) by {
        assert(set_int_range(0, n).contains(x));
        assert(v.to_set().contains(x));
    }
}

/// A permutation holds every number below its length.
proof fn lemma_perm_onto(v: Seq<u32>)
    requires
        is_perm(v),
    ensures
        forall|x: int| 0 <= x < v.len() ==> #[trigger] holds(v, x),
{
    let w = Seq::new(v.len(), |t: int| v[t] as int);
    lemma_pigeonhole(w, v.len() as int);
    assert forall|x: int| 0 <= x < v.len() implies #[trigger] holds(v, x) by {
        assert(w.contains(x));
        let t = choose|t: int| 0 <= t < w.len() && w[t] == x;
        assert(v[t] == x);
    }
}

/// Along a ranked permutation every rank is at most the last one.
proof fn lemma_ranked_max(sorted: Seq<u32>, ord: Seq<u32>)
    requires
        ranked(sorted, ord),
        sorted.len() > 0,
    ensures
        forall|x: int| 0 <= x < sorted.len() ==> #[trigger] ord[x] <= ord[sorted[sorted.len() - 1] as int],
        ord[sorted[sorted.len() - 1] as int] < sorted.len(),
{
    let n = sorted.len() as int;
    assert forall|t1: int, t2: int| 0 <= t1 <= t2 < n implies ord[sorted[t1] as int] <= ord[sorted[t2] as int] && ord[
        sorted[t2] as int] <= ord[sorted[t1] as int] + (t2 - t1) by {
        lemma_ranked_chain(sorted, ord, t1, t2);
    }
    lemma_perm_onto(sorted);
    assert forall|x: int| 0 <= x < n implies #[trigger] ord[x] <= ord[sorted[n - 1] as int] by {
        assert(holds(sorted, x));
        let t = choose|t: int| 0 <= t < n && #[trigger] sorted[t] == x;
        assert(ord[sorted[t] as int] <= ord[sorted[n - 1] as int]);
    }
    assert(ord[sorted[n - 1] as int] <= ord[sorted[0] as int] + (n - 1));
}

proof fn lemma_ranked_chain(sorted: Seq<u32>, ord: Seq<u32>, t1: int, t2: int)
    requires
        ranked(sorted, ord),
        0 <= t1 <= t2 < sorted.len(),
    ensures
        ord[sorted[t1] as int] <= ord[sorted[t2] as int] <= ord[sorted[t1] as int] + (t2 - t1),
    decreases t2 - t1,
{
    if t1 < t2 {
        lemma_ranked_chain(sorted, ord, t1, t2 - 1);
        assert(ord[sorted[t2 - 1] as int] <= ord[sorted[t2] as int] <= ord[sorted[t2 - 1] as int] + 1);
    }
}

/// The first `p` items sit where a stable counting sort by `keys` puts
/// them.
pub open spec fn placed(keys: Seq<int>, items: Seq<u32>, out: Seq<u32>, p: int) -> bool {
    forall|q: int| 0 <= q < p ==> out[#[trigger] pos(keys, q)] == items[q]
}

/// Putting the next item in its place keeps the earlier ones.
proof fn lemma_place_step(keys: Seq<int>, items: Seq<u32>, out: Seq<u32>, p: int, kmax: int)
    requires
        0 <= p < keys.len(),
        out.len() == keys.len(),
        forall|x: int| 0 <= x < keys.len() ==> 0 <= #[trigger] keys[x] <= kmax,
        placed(keys, items, out, p),
    ensures
        0 <= pos(keys, p) < keys.len(),
        placed(keys, items, out.update(pos(keys, p), items[p]), p + 1),
{
    lemma_pos_range(keys, kmax, p);
    let out2 = out.update(pos(keys, p), items[p]);
    assert forall|q: int| 0 <= q < p + 1 implies out2[#[trigger] pos(keys, q)] == items[q] by {
        if q < p {
            lemma_pos(keys, kmax, q, p);
        }
    }
}

/// Once every item is placed, each slot holds the item placed there, and
/// the slots follow the order of the keys.
proof fn lemma_placed_all(keys: Seq<int>, items: Seq<u32>, out: Seq<u32>, kmax: int)
    requires
        out.len() == keys.len(),
        items.len() == keys.len(),
        forall|x: int| 0 <= x < keys.len() ==> 0 <= #[trigger] keys[x] <= kmax,
        placed(keys, items, out, keys.len() as int),
    ensures
        forall|t: int| 0 <= t < keys.len() ==> #[trigger] slot_of(keys, t),
        is_perm(items) ==> is_perm(out),
{
    let n = keys.len() as int;
    let w = Seq::new(n as nat, |q: int| pos(keys, q));
    assert forall|a: int, b: int| 0 <= a < b < n implies w[a] != w[b] by {
        lemma_pos(keys, kmax, a, b);
    }
    assert forall|q: int| 0 <= q < n implies 0 <= #[trigger] w[q] < n by {
        lemma_pos_range(keys, kmax, q);
    }
    lemma_pigeonhole(w, n);
    assert forall|t: int| 0 <= t < n implies #[trigger] slot_of(keys, t) by {
        assert(w.contains(t));
        let q = choose|q: int| 0 <= q < w.len() && w[q] == t;
        assert(pos(keys, q) == t);
    }
    if is_perm(items) {
        assert forall|t: int| 0 <= t < n implies #[trigger] out[t] < n by {
            assert(slot_of(keys, t));
            let q = choose|q: int| 0 <= q < n && #[trigger] pos(keys, q) == t;
            assert(out[pos(keys, q)] == items[q]);
        }
        assert forall|a: int, b: int| 0 <= a < b < n implies out[a] != out[b] by {
            assert(slot_of(keys, a));
            assert(slot_of(keys, b));
            let qa = choose|q: int| 0 <= q < n && #[trigger] pos(keys, q) == a;
            let qb = choose|q: int| 0 <= q < n && #[trigger] pos(keys, q) == b;
            assert(out[pos(keys, qa)] == items[qa]);
            assert(out[pos(keys, qb)] == items[qb]);
            if qa < qb {
                assert(items[qa] != items[qb]);
            } else if qb < qa {
                assert(items[qb] != items[qa]);
            }
        }
    }
}

/// Slot `t` is where some item goes.
pub open spec fn slot_of(keys: Seq<int>, t: int) -> bool {
    exists|q: int| 0 <= q < keys.len() && #[trigger] pos(keys, q) == t
}

/// An item put in an earlier slot has a key no larger.
proof fn lemma_pos_order(keys: Seq<int>, kmax: int, q1: int, q2: int)
    requires
        0 <= q1 < keys.len(),
        0 <= q2 < keys.len(),
        forall|x: int| 0 <= x < keys.len() ==> 0 <= #[trigger] keys[x] <= kmax,
        pos(keys, q1) < pos(keys, q2),
    ensures
        keys[q1] <= keys[q2],
{
    let n = keys.len() as int;
    if keys[q1] > keys[q2] {
        lemma_pos_range(keys, kmax, q2);
        lemma_below_mono(keys, n, keys[q2] + 1, keys[q1]);
        lemma_cnt_bounds(keys, q1, keys[q1]);
    }
}

/// The number of keys below `o` that occur among all the keys.
pub open spec fn present(keys: Seq<int>, o: int) -> int
    decreases o,
{
    if o <= 0 {
        0
    } else {
        present(keys, o - 1) + if cnt(keys, keys.len() as int, o - 1) > 0 {
            1int
        } else {
            0int
        }
    }
}

/// A key that occurs is counted.
proof fn lemma_cnt_pos(keys: Seq<int>, p: int, q: int)
    requires
        0 <= q < p,
    ensures
        cnt(keys, p, keys[q]) > 0,
    decreases p,
{
    if q < p - 1 {
        lemma_cnt_pos(keys, p - 1, q);
    }
    lemma_cnt_bounds(keys, p - 1, keys[q]);
}

/// A counted key occurs.
proof fn lemma_cnt_witness(keys: Seq<int>, p: int, o: int) -> (q: int)
    requires
        0 <= p <= keys.len(),
        cnt(keys, p, o) > 0,
    ensures
        0 <= q < p,
        keys[q] == o,
    decreases p,
{
    if keys[p - 1] == o {
        p - 1
    } else {
        lemma_cnt_witness(keys, p - 1, o)
    }
}

/// Keys that occur nowhere between `c1` and `c2` leave the count of
/// occurring keys as it was, but for `c1` itself.
proof fn lemma_present_gap(keys: Seq<int>, c1: int, c2: int)
    requires
        0 <= c1 <= c2,
        forall|c: int| c1 < c < c2 ==> cnt(keys, keys.len() as int, c) == 0,
    ensures
        present(keys, c2) == present(keys, c1) + if c1 < c2 && cnt(keys, keys.len() as int, c1) > 0 {
            1int
        } else {
            0int
        },
    decreases c2 - c1,
{
    if c1 < c2 {
        lemma_present_gap(keys, c1, c2 - 1);
    }
}

/// Stable counting sort of the positions by the keys, with the rank of each
/// key among the keys that occur, gives ranked positions.
proof fn lemma_init_ranked(keys: Seq<int>, out: Seq<u32>, ord: Seq<u32>, kmax: int)
    requires
        keys.len() > 0,
        out.len() == keys.len(),
        ord.len() == keys.len(),
        forall|x: int| 0 <= x < keys.len() ==> 0 <= #[trigger] keys[x] <= kmax,
        placed(keys, Seq::new(keys.len(), |q: int| q as u32), out, keys.len() as int),
        keys.len() <= u32::MAX,
        forall|q: int| 0 <= q < keys.len() ==> #[trigger] ord[q] == present(keys, keys[q]),
    ensures
        ranked(out, ord),
        forall|t1: int, t2: int| 0 <= t1 < t2 < keys.len() ==> keys[out[t1] as int] <= keys[out[t2] as int],
        forall|t1: int, t2: int|
            0 <= t1 < t2 < keys.len() && keys[out[t1] as int] == keys[out[t2] as int] ==> out[t1] < out[t2],
{
    let n = keys.len() as int;
    let items = Seq::new(keys.len(), |q: int| q as u32);
    assert forall|a: int, b: int| 0 <= a < b < n implies items[a] != items[b] by {}
    lemma_placed_all(keys, items, out, kmax);
    lemma_perm_onto(out);
    assert forall|t: int| 0 <= t < n implies #[trigger] pos(keys, out[t] as int) == t by {
        assert(slot_of(keys, t));
        let q = choose|q: int| 0 <= q < n && #[trigger] pos(keys, q) == t;
        assert(out[pos(keys, q)] == items[q]);
    }
    assert forall|t1: int, t2: int| 0 <= t1 < t2 < n implies keys[out[t1] as int] <= keys[out[t2] as int] by {
        assert(pos(keys, out[t1] as int) == t1);
        assert(pos(keys, out[t2] as int) == t2);
        lemma_pos_order(keys, kmax, out[t1] as int, out[t2] as int);
    }
    assert forall|t1: int, t2: int|
        0 <= t1 < t2 < n && keys[out[t1] as int] == keys[out[t2] as int] implies out[t1] < out[t2] by {
        assert(pos(keys, out[t1] as int) == t1);
        assert(pos(keys, out[t2] as int) == t2);
        assert(holds(out, out[t1] as int) && holds(out, out[t2] as int));
        lemma_pos_stable(keys, out[t1] as int, out[t2] as int);
    }
    let c0 = keys[out[0] as int];
    assert forall|c: int| 0 <= c < c0 implies cnt(keys, n, c) == 0 by {
        lemma_cnt_bounds(keys, n, c);
        if cnt(keys, n, c) > 0 {
            let y = lemma_cnt_witness(keys, n, c);
            assert(holds(out, y));
            let t = choose|t: int| 0 <= t < n && #[trigger] out[t] == y;
            assert(out[t] as int == y);
            assert(keys[out[t] as int] == c);
            if t > 0 {
                assert(keys[out[0] as int] <= keys[out[t] as int]);
            }
        }
    }
    lemma_present_zero(keys, c0);
    assert forall|t: int| 0 <= t < n - 1 implies ord[#[trigger] out[t] as int] <= ord[out[t + 1] as int] <= ord[
        out[t] as int] + 1 by {
        let c1 = keys[out[t] as int];
        let c2 = keys[out[t + 1] as int];
        assert(c1 <= c2);
        assert forall|c: int| c1 < c < c2 implies cnt(keys, n, c) == 0 by {
            lemma_cnt_bounds(keys, n, c);
            if cnt(keys, n, c) > 0 {
                let y = lemma_cnt_witness(keys, n, c);
                assert(holds(out, y));
                let t2 = choose|t2: int| 0 <= t2 < n && #[trigger] out[t2] == y;
                assert(keys[out[t2] as int] == c);
                if t2 <= t {
                    if t2 < t {
                        assert(keys[out[t2] as int] <= keys[out[t] as int]);
                    }
                } else if t2 > t + 1 {
                    assert(keys[out[t + 1] as int] <= keys[out[t2] as int]);
                }
            }
        }
        lemma_present_gap(keys, c1, c2);
        lemma_cnt_pos(keys, n, out[t] as int);
    }
}

/// No key is below zero.
proof fn lemma_below_zero(keys: Seq<int>, p: int)
    requires
        forall|x: int| 0 <= x < keys.len() ==> 0 <= #[trigger] keys[x],
        0 <= p <= keys.len(),
    ensures
        below(keys, p, 0) == 0,
    decreases p,
{
    if p > 0 {
        lemma_below_zero(keys, p - 1);
    }
}

/// No key below `o` occurs, so none is counted.
proof fn lemma_present_zero(keys: Seq<int>, o: int)
    requires
        forall|c: int| 0 <= c < o ==> cnt(keys, keys.len() as int, c) == 0,
    ensures
        present(keys, o) == 0,
    decreases o,
{
    if o > 0 {
        lemma_present_zero(keys, o - 1);
    }
}

/// The characters of `s` as numbers.
pub open spec fn char_keys(s: Seq<char>) -> Seq<int> {
    Seq::new(s.len(), |q: int| s[q] as usize as int)
}

/// Sorts the positions of `s` stably by their characters into
/// `sorted_out`, and ranks each position in `ord_out` by its character among
/// the characters that occur. Every character must be below 256.
pub fn sort_init_char(s: &[char], sorted_out: &mut [u32], ord_out: &mut [u32])
    requires
        old(sorted_out)@.len() == s@.len(),
        old(ord_out)@.len() == s@.len(),
        s@.len() > 0,
        s@.len() <= u32::MAX,
        forall|i: int| 0 <= i < s@.len() ==> (#[trigger] s@[i] as usize) < 256,
    ensures
        final(sorted_out)@.len() == s@.len(),
        final(ord_out)@.len() == s@.len(),
        ranked(final(sorted_out)@, final(ord_out)@),
        forall|t1: int, t2: int|
            0 <= t1 < t2 < s@.len() ==> s@[final(sorted_out)@[t1] as int] as usize <= s@[final(sorted_out)@[t2] as int] as usize,
        forall|t1: int, t2: int|
            0 <= t1 < t2 < s@.len() && s@[final(sorted_out)@[t1] as int] == s@[final(sorted_out)@[t2] as int] ==> final(sorted_out)@[t1]
                < final(sorted_out)@[t2],
        forall|q: int| 0 <= q < s@.len() ==> #[trigger] final(ord_out)@[q] == present(char_keys(s@), s@[q] as usize as int),
{
    let n = s.len();
    let ghost keys = Seq::new(s@.len(), |q: int| s@[q] as usize as int);
    let mut char_count: Vec<usize> = vec![0; 256];
    let mut i: usize = 0;
    while i < n
        invariant
            i <= n,
            n == s@.len(),
            n <= u32::MAX,
            keys == Seq::new(s@.len(), |q: int| s@[q] as usize as int),
            forall|q: int| 0 <= q < n ==> (#[trigger] s@[q] as usize) < 256,
            char_count@.len() == 256,
            forall|o: int| 0 <= o < 256 ==> #[trigger] char_count@[o] == cnt(keys, i as int, o),
        decreases n - i,
    {
        proof {
            assert((s@[i as int] as usize) < 256);
        }
        let c = s[i] as usize;
        proof {
            assert(keys[i as int] == c);
            lemma_cnt_bounds(keys, i as int, c as int);
        }
        char_count.set(c, char_count[c] + 1);
        i += 1;
    }
    let mut char_end: Vec<usize> = vec![0; 256];
    let mut ord_val: Vec<u32> = vec![0; 256];
    proof {
        assert forall|x: int| 0 <= x < keys.len() implies 0 <= #[trigger] keys[x] by {}
        lemma_below_zero(keys, n as int);
    }
    let mut i: usize = 0;
    while i < 255
        invariant
            i <= 255,
            n == s@.len(),
            n <= u32::MAX,
            keys.len() == n,
            char_count@.len() == 256,
            char_end@.len() == 256,
            ord_val@.len() == 256,
            forall|o: int| 0 <= o < 256 ==> #[trigger] char_count@[o] == cnt(keys, n as int, o),
            forall|o: int| 0 <= o <= i ==> #[trigger] char_end@[o] == below(keys, n as int, o),
            forall|o: int| 0 <= o <= i ==> #[trigger] ord_val@[o] == present(keys, o),
            forall|o: int| 0 <= o <= i ==> #[trigger] present(keys, o) <= o,
        decreases 255 - i,
    {
        proof {
            lemma_below_step(keys, n as int, i as int);
            lemma_cnt_bounds(keys, n as int, i as int);
            lemma_below_mono(keys, n as int, i + 1, 256);
            lemma_cnt_bounds(keys, n as int, 256);
        }
        char_end.set(i + 1, char_end[i] + char_count[i]);
        ord_val.set(i + 1, ord_val[i] + if char_count[i] != 0 {
            1
        } else {
            0
        });
        i += 1;
    }
    let ghost ends0 = char_end@;
    let mut i: usize = 0;
    while i < n
        invariant
            i <= n,
            n == s@.len(),
            n <= u32::MAX,
            keys == Seq::new(s@.len(), |q: int| s@[q] as usize as int),
            forall|q: int| 0 <= q < n ==> (#[trigger] s@[q] as usize) < 256,
            sorted_out@.len() == n,
            ord_out@.len() == n,
            char_end@.len() == 256,
            ord_val@.len() == 256,
            forall|o: int| 0 <= o < 256 ==> #[trigger] char_end@[o] == below(keys, n as int, o) + cnt(keys, i as int, o),
            forall|o: int| 0 <= o < 256 ==> #[trigger] ord_val@[o] == present(keys, o),
            placed(keys, Seq::new(keys.len(), |q: int| q as u32), sorted_out@, i as int),
            forall|q: int| 0 <= q < i ==> #[trigger] ord_out@[q] == present(keys, keys[q]),
        decreases n - i,
    {
        proof {
            assert((s@[i as int] as usize) < 256);
        }
        let cu = s[i] as usize;
        proof {
            assert(keys[i as int] == cu);
            assert forall|x: int| 0 <= x < keys.len() implies 0 <= #[trigger] keys[x] <= 255 by {
                assert((s@[x] as usize) < 256);
            }
            lemma_place_step(keys, Seq::new(keys.len(), |q: int| q as u32), sorted_out@, i as int, 255);
        }
        sorted_out[char_end[cu]] = i as u32;
        ord_out[i] = ord_val[cu];
        char_end.set(cu, char_end[cu] + 1);
        i += 1;
    }
    proof {
        assert forall|x: int| 0 <= x < keys.len() implies 0 <= #[trigger] keys[x] <= 255 by {
            assert((s@[x] as usize) < 256);
        }
        lemma_init_ranked(keys, sorted_out@, ord_out@, 255);
        assert forall|t1: int, t2: int| 0 <= t1 < t2 < s@.len() implies s@[sorted_out@[t1] as int] as usize <= s@[sorted_out@[t2] as int] as usize by {
            assert(keys[sorted_out@[t1] as int] <= keys[sorted_out@[t2] as int]);
        }
        assert forall|t1: int, t2: int|
            0 <= t1 < t2 < s@.len() && s@[sorted_out@[t1] as int] == s@[sorted_out@[t2] as int] implies sorted_out@[t1]
            < sorted_out@[t2] by {
            assert(keys[sorted_out@[t1] as int] == keys[sorted_out@[t2] as int]);
        }
        assert(keys == char_keys(s@));
    }
}

/// Items with equal keys keep their order.
proof fn lemma_pos_stable(keys: Seq<int>, q1: int, q2: int)
    requires
        0 <= q1 < keys.len(),
        0 <= q2 < keys.len(),
        keys[q1] == keys[q2],
        pos(keys, q1) < pos(keys, q2),
    ensures
        q1 < q2,
{
    if q2 <= q1 {
        lemma_cnt_mono(keys, q2, q1, keys[q1]);
    }
}

/// Along `sorted`, the rank in `ord_out` stays the same from step `t` to
/// the next exactly when the pair of ranks does.
pub open spec fn same_rank_step(ord: Seq<u32>, offset: int, sorted: Seq<u32>, ord_out: Seq<u32>, t: int) -> bool {
    (ord_out[sorted[t + 1] as int] == ord_out[sorted[t] as int]) == (pair_key(ord, offset, sorted[t + 1] as int)
        == pair_key(ord, offset, sorted[t] as int))
}

/// The pair of ranks by which `sort_step` orders position `x`: its own and
/// that of the position `offset` further on, around the end.
pub open spec fn pair_key(ord: Seq<u32>, offset: int, x: int) -> (u32, u32) {
    (ord[x], ord[(x + offset) % (ord.len() as int)])
}

/// `a` comes no later than `b` in lexicographic order.
pub open spec fn pair_le(a: (u32, u32), b: (u32, u32)) -> bool {
    a.0 < b.0 || (a.0 == b.0 && a.1 <= b.1)
}

/// One round of prefix doubling: sorts the positions by the pair of their
/// rank in `ord` and the rank of the position `offset` further on (around
/// the end), with two stable counting sorts (by the second rank, then by
/// the first), and ranks the pairs into `ord_out`. `sorted` must hold the
/// positions ranked by `ord`; the other three slices are work space.
/// The keys of the first counting sort: the rank of the position `offset`
/// further on, around the end.
pub open spec fn next_keys(ord: Seq<u32>, offset: int) -> Seq<int> {
    Seq::new(ord.len(), |i: int| ord[(i + offset) % (ord.len() as int)] as int)
}

/// The keys of the second counting sort: the rank of each position in `buf`.
pub open spec fn rank_keys(ord: Seq<u32>, buf: Seq<u32>) -> Seq<int> {
    Seq::new(buf.len(), |i: int| ord[buf[i] as int] as int)
}

/// The positions `0..n` in order.
pub open spec fn identity(n: nat) -> Seq<u32> {
    Seq::new(n, |q: int| q as u32)
}

/// Sorts the positions stably into `sorted_buf` by the rank of the position
/// `offset` further on.
fn sort_by_next(offset: usize, ord: &[u32], sorted_buf: &mut [u32], count: &mut [u32], end: &mut [u32], ord_max: usize)
    requires
        ord@.len() >= 1,
        ord@.len() <= u32::MAX,
        offset + ord@.len() < usize::MAX,
        ord_max < ord@.len(),
        forall|x: int| 0 <= x < ord@.len() ==> #[trigger] ord@[x] <= ord_max,
        old(sorted_buf)@.len() == ord@.len(),
        old(count)@.len() == ord@.len(),
        old(end)@.len() == ord@.len(),
    ensures
        final(sorted_buf)@.len() == ord@.len(),
        final(count)@.len() == ord@.len(),
        final(end)@.len() == ord@.len(),
        placed(next_keys(ord@, offset as int), identity(ord@.len()), final(sorted_buf)@, ord@.len() as int),
        is_perm(final(sorted_buf)@),
        forall|t: int| 0 <= t < ord@.len() ==> #[trigger] slot_of(next_keys(ord@, offset as int), t),
{
    let n = ord.len();
    let ghost k1 = next_keys(ord@, offset as int);
    proof {
        assert forall|x: int| 0 <= x < n implies 0 <= #[trigger] k1[x] <= ord_max by {
            assert(ord@[(x + offset) % (n as int)] <= ord_max);
        }
    }
    let mut o: usize = 0;
    while o <= ord_max
        invariant
            ord_max < n,
            count@.len() == n,
            o <= ord_max + 1,
            forall|o2: int| 0 <= o2 < o ==> #[trigger] count@[o2] == 0,
        decreases ord_max + 1 - o,
    {
        count[o] = 0;
        o += 1;
    }
    let mut i: usize = 0;
    while i < n
        invariant
            i <= n,
            n == ord@.len(),
            n <= u32::MAX,
            offset + n < usize::MAX,
            ord_max < n,
            count@.len() == n,
            k1 == Seq::new(n as nat, |i: int| ord@[(i + offset) % (n as int)] as int),
            forall|x: int| 0 <= x < n ==> 0 <= #[trigger] k1[x] <= ord_max,
            forall|o2: int| 0 <= o2 <= ord_max ==> #[trigger] count@[o2] == cnt(k1, i as int, o2),
        decreases n - i,
    {
        let o = ord[(i + offset) % n] as usize;
        proof {
            assert(k1[i as int] == o);
            lemma_cnt_bounds(k1, i as int, o as int);
        }
        count[o] = count[o] + 1;
        i += 1;
    }
    end[0] = 0;
    proof {
        lemma_below_zero(k1, n as int);
    }
    let mut i: usize = 1;
    while i <= ord_max
        invariant
            1 <= i <= ord_max + 1,
            n == ord@.len(),
            n <= u32::MAX,
            ord_max < n,
            count@.len() == n,
            end@.len() == n,
            k1.len() == n,
            forall|x: int| 0 <= x < n ==> 0 <= #[trigger] k1[x] <= ord_max,
            forall|o2: int| 0 <= o2 <= ord_max ==> #[trigger] count@[o2] == cnt(k1, n as int, o2),
            forall|o2: int| 0 <= o2 < i ==> #[trigger] end@[o2] == below(k1, n as int, o2),
        decreases ord_max + 1 - i,
    {
        proof {
            lemma_below_step(k1, n as int, i - 1);
            lemma_below_mono(k1, n as int, i as int, ord_max + 1);
            lemma_below_all(k1, n as int, ord_max as int);
        }
        end[i] = end[i - 1] + count[i - 1];
        i += 1;
    }
    let ghost items1 = Seq::new(n as nat, |q: int| q as u32);
    let mut i: usize = 0;
    while i < n
        invariant
            i <= n,
            n == ord@.len(),
            n <= u32::MAX,
            offset + n < usize::MAX,
            ord_max < n,
            end@.len() == n,
            sorted_buf@.len() == n,
            k1 == Seq::new(n as nat, |i: int| ord@[(i + offset) % (n as int)] as int),
            items1 == Seq::new(n as nat, |q: int| q as u32),
            forall|x: int| 0 <= x < n ==> 0 <= #[trigger] k1[x] <= ord_max,
            forall|o2: int| 0 <= o2 <= ord_max ==> #[trigger] end@[o2] == below(k1, n as int, o2) + cnt(k1, i as int, o2),
            placed(k1, items1, sorted_buf@, i as int),
        decreases n - i,
    {
        let o = ord[(i + offset) % n] as usize;
        proof {
            assert(k1[i as int] == o);
            lemma_place_step(k1, items1, sorted_buf@, i as int, ord_max as int);
        }
        sorted_buf[end[o] as usize] = i as u32;
        end[o] = end[o] + 1;
        i += 1;
    }
    proof {
        assert forall|a: int, b: int| 0 <= a < b < n implies items1[a] != items1[b] by {}
        lemma_placed_all(k1, items1, sorted_buf@, ord_max as int);
    }
    proof {
        assert(items1 == identity(ord@.len()));
    }
}

/// Sorts the positions listed in `sorted_buf` stably into `sorted` by
/// their rank.
fn sort_by_rank(ord: &[u32], sorted_buf: &[u32], sorted: &mut [u32], count: &mut [u32], end: &mut [u32], ord_max: usize)
    requires
        ord@.len() >= 1,
        ord@.len() <= u32::MAX,
        ord_max < ord@.len(),
        forall|x: int| 0 <= x < ord@.len() ==> #[trigger] ord@[x] <= ord_max,
        sorted_buf@.len() == ord@.len(),
        is_perm(sorted_buf@),
        old(sorted)@.len() == ord@.len(),
        old(count)@.len() == ord@.len(),
        old(end)@.len() == ord@.len(),
    ensures
        final(sorted)@.len() == ord@.len(),
        final(count)@.len() == ord@.len(),
        final(end)@.len() == ord@.len(),
        placed(rank_keys(ord@, sorted_buf@), sorted_buf@, final(sorted)@, ord@.len() as int),
        is_perm(final(sorted)@),
        forall|t: int| 0 <= t < ord@.len() ==> #[trigger] slot_of(rank_keys(ord@, sorted_buf@), t),
{
    let n = ord.len();
    let ghost buf = sorted_buf@;
    let ghost k2 = Seq::new(n as nat, |i: int| ord@[buf[i] as int] as int);
    proof {
        assert forall|x: int| 0 <= x < n implies 0 <= #[trigger] k2[x] <= ord_max by {
            assert(buf[x] < n);
            assert(ord@[buf[x] as int] <= ord_max);
        }
    }
    let mut o: usize = 0;
    while o <= ord_max
        invariant
            ord_max < n,
            count@.len() == n,
            o <= ord_max + 1,
            forall|o2: int| 0 <= o2 < o ==> #[trigger] count@[o2] == 0,
        decreases ord_max + 1 - o,
    {
        count[o] = 0;
        o += 1;
    }
    let mut i: usize = 0;
    while i < n
        invariant
            i <= n,
            n == ord@.len(),
            n <= u32::MAX,
            ord_max < n,
            count@.len() == n,
            sorted_buf@ == buf,
            buf.len() == n,
            is_perm(buf),
            k2 == Seq::new(n as nat, |i: int| ord@[buf[i] as int] as int),
            forall|x: int| 0 <= x < n ==> 0 <= #[trigger] k2[x] <= ord_max,
            forall|o2: int| 0 <= o2 <= ord_max ==> #[trigger] count@[o2] == cnt(k2, i as int, o2),
        decreases n - i,
    {
        let o = ord[sorted_buf[i] as usize] as usize;
        proof {
            assert(k2[i as int] == o);
            lemma_cnt_bounds(k2, i as int, o as int);
        }
        count[o] = count[o] + 1;
        i += 1;
    }
    end[0] = 0;
    proof {
        lemma_below_zero(k2, n as int);
    }
    let mut i: usize = 1;
    while i <= ord_max
        invariant
            1 <= i <= ord_max + 1,
            n == ord@.len(),
            n <= u32::MAX,
            ord_max < n,
            count@.len() == n,
            end@.len() == n,
            k2.len() == n,
            forall|x: int| 0 <= x < n ==> 0 <= #[trigger] k2[x] <= ord_max,
            forall|o2: int| 0 <= o2 <= ord_max ==> #[trigger] count@[o2] == cnt(k2, n as int, o2),
            forall|o2: int| 0 <= o2 < i ==> #[trigger] end@[o2] == below(k2, n as int, o2),
        decreases ord_max + 1 - i,
    {
        proof {
            lemma_below_step(k2, n as int, i - 1);
            lemma_below_mono(k2, n as int, i as int, ord_max + 1);
            lemma_below_all(k2, n as int, ord_max as int);
        }
        end[i] = end[i - 1] + count[i - 1];
        i += 1;
    }
    let mut i: usize = 0;
    while i < n
        invariant
            i <= n,
            n == ord@.len(),
            n <= u32::MAX,
            ord_max < n,
            end@.len() == n,
            sorted@.len() == n,
            sorted_buf@ == buf,
            buf.len() == n,
            is_perm(buf),
            k2 == Seq::new(n as nat, |i: int| ord@[buf[i] as int] as int),
            forall|x: int| 0 <= x < n ==> 0 <= #[trigger] k2[x] <= ord_max,
            forall|o2: int| 0 <= o2 <= ord_max ==> #[trigger] end@[o2] == below(k2, n as int, o2) + cnt(k2, i as int, o2),
            placed(k2, buf, sorted@, i as int),
        decreases n - i,
    {
        let x = sorted_buf[i];
        let o = ord[x as usize] as usize;
        proof {
            assert(k2[i as int] == o);
            lemma_place_step(k2, buf, sorted@, i as int, ord_max as int);
        }
        sorted[end[o] as usize] = x;
        end[o] = end[o] + 1;
        i += 1;
    }
    proof {
        lemma_placed_all(k2, buf, sorted@, ord_max as int);
        assert(k2 == rank_keys(ord@, buf));
    }
}

/// Ranks the pairs of ranks along `sorted`: zero for the first position,
/// one more each time the pair changes.
fn rank_pairs(offset: usize, ord: &[u32], sorted: &[u32], ord_out: &mut [u32])
    requires
        sorted@.len() >= 1,
        sorted@.len() <= u32::MAX,
        offset + sorted@.len() < usize::MAX,
        ord@.len() == sorted@.len(),
        old(ord_out)@.len() == sorted@.len(),
        is_perm(sorted@),
    ensures
        final(ord_out)@.len() == sorted@.len(),
        ranked(sorted@, final(ord_out)@),
        forall|t: int| 0 <= t < sorted@.len() - 1 ==> #[trigger] same_rank_step(ord@, offset as int, sorted@, final(ord_out)@, t),
{
    let n = sorted.len();
    let first = sorted[0] as usize;
    ord_out[first] = 0;
    let mut i: usize = 1;
    while i < n
        invariant
            1 <= i <= n,
            n == ord@.len(),
            n <= u32::MAX,
            offset + n < usize::MAX,
            sorted@.len() == n,
            ord_out@.len() == n,
            is_perm(sorted@),
            ord_out@[sorted@[0] as int] == 0,
            forall|t: int| 0 <= t < i ==> #[trigger] ord_out@[sorted@[t] as int] <= t,
            forall|t: int|
                0 <= t < i - 1 ==> ord_out@[#[trigger] sorted@[t] as int] <= ord_out@[sorted@[t + 1] as int]
                    <= ord_out@[sorted@[t] as int] + 1,
            forall|t: int| 0 <= t < i - 1 ==> #[trigger] same_rank_step(ord@, offset as int, sorted@, ord_out@, t),
        decreases n - i,
    {
        let j = sorted[i - 1] as usize;
        let k = sorted[i] as usize;
        let oj = (ord[j], ord[(j + offset) % n]);
        let ok = (ord[k], ord[(k + offset) % n]);
        proof {
            assert(ord_out@[sorted@[i - 1] as int] <= i - 1);
            assert forall|t: int| 0 <= t < i implies sorted@[t] != k by {
                assert(sorted@[t] != sorted@[i as int]);
            }
        }
        let step: u32 = if ok.0 != oj.0 || ok.1 != oj.1 {
            1
        } else {
            0
        };
        let ghost before = ord_out@;
        ord_out[k] = ord_out[j] + step;
        proof {
            assert forall|t: int| 0 <= t < i implies ord_out@[sorted@[t] as int] == before[sorted@[t] as int] by {
                assert(sorted@[t] != k);
            }
            assert forall|t: int| 0 <= t < i as int implies #[trigger] same_rank_step(ord@, offset as int, sorted@, ord_out@, t) by {
                if t < i - 1 {
                    assert(same_rank_step(ord@, offset as int, sorted@, before, t));
                    assert(ord_out@[sorted@[t + 1] as int] == before[sorted@[t + 1] as int]);
                } else {
                    assert(pair_key(ord@, offset as int, k as int) == (ok.0, ok.1));
                    assert(pair_key(ord@, offset as int, j as int) == (oj.0, oj.1));
                }
            }
        }
        i += 1;
    }
}

pub fn sort_step(
    offset: usize,
    ord: &[u32],
    sorted: &mut [u32],
    ord_out: &mut [u32],
    sorted_buf: &mut [u32],
    count: &mut [u32],
    end: &mut [u32],
)
    requires
        old(sorted)@.len() >= 1,
        old(sorted)@.len() <= u32::MAX,
        offset + old(sorted)@.len() < usize::MAX,
        ord@.len() == old(sorted)@.len(),
        old(ord_out)@.len() == old(sorted)@.len(),
        old(sorted_buf)@.len() == old(sorted)@.len(),
        old(count)@.len() == old(sorted)@.len(),
        old(end)@.len() == old(sorted)@.len(),
        ranked(old(sorted)@, ord@),
    ensures
        final(sorted)@.len() == old(sorted)@.len(),
        final(ord_out)@.len() == old(sorted)@.len(),
        final(sorted_buf)@.len() == old(sorted)@.len(),
        final(count)@.len() == old(sorted)@.len(),
        final(end)@.len() == old(sorted)@.len(),
        ranked(final(sorted)@, final(ord_out)@),
        forall|t1: int, t2: int|
            0 <= t1 < t2 < final(sorted)@.len() ==> pair_le(
                pair_key(ord@, offset as int, final(sorted)@[t1] as int),
                pair_key(ord@, offset as int, final(sorted)@[t2] as int),
            ),
        forall|t1: int, t2: int|
            0 <= t1 < t2 < final(sorted)@.len() && pair_key(ord@, offset as int, final(sorted)@[t1] as int) == pair_key(
                ord@,
                offset as int,
                final(sorted)@[t2] as int,
            ) ==> final(sorted)@[t1] < final(sorted)@[t2],
        forall|t: int|
            0 <= t < final(sorted)@.len() - 1 ==> #[trigger] same_rank_step(ord@, offset as int, final(sorted)@, final(ord_out)@, t),
{
    let n = sorted.len();
    proof {
        lemma_ranked_max(sorted@, ord@);
    }
    let ord_max = ord[sorted[n - 1] as usize] as usize;
    sort_by_next(offset, ord, sorted_buf, count, end, ord_max);
    sort_by_rank(ord, sorted_buf, sorted, count, end, ord_max);
    proof {
        let k1 = next_keys(ord@, offset as int);
        let k2 = rank_keys(ord@, sorted_buf@);
        assert forall|x: int| 0 <= x < n implies 0 <= #[trigger] k1[x] <= ord_max by {
            assert(ord@[(x + offset) % (n as int)] <= ord_max);
        }
        assert forall|x: int| 0 <= x < n implies 0 <= #[trigger] k2[x] <= ord_max by {
            assert(sorted_buf@[x] < n);
            assert(ord@[sorted_buf@[x] as int] <= ord_max);
        }
        lemma_pair_order(ord@, offset as int, k1, k2, sorted_buf@, sorted@, ord_max as int);
    }
    rank_pairs(offset, ord, sorted, ord_out);
}


/// Sorting stably by the second rank and then by the first sorts by the
/// pair of ranks.
proof fn lemma_pair_order(
    ord: Seq<u32>,
    offset: int,
    k1: Seq<int>,
    k2: Seq<int>,
    buf: Seq<u32>,
    sorted: Seq<u32>,
    kmax: int,
)
    requires
        ord.len() == k1.len(),
        k1 == next_keys(ord, offset),
        k2 == rank_keys(ord, buf),
        buf.len() == ord.len(),
        sorted.len() == ord.len(),
        ord.len() <= u32::MAX,
        forall|x: int| 0 <= x < k1.len() ==> 0 <= #[trigger] k1[x] <= kmax,
        forall|x: int| 0 <= x < k2.len() ==> 0 <= #[trigger] k2[x] <= kmax,
        placed(k1, identity(ord.len()), buf, ord.len() as int),
        placed(k2, buf, sorted, ord.len() as int),
        is_perm(buf),
        forall|t: int| 0 <= t < k1.len() ==> #[trigger] slot_of(k1, t),
        forall|t: int| 0 <= t < k2.len() ==> #[trigger] slot_of(k2, t),
    ensures
        forall|t1: int, t2: int|
            0 <= t1 < t2 < sorted.len() ==> pair_le(
                pair_key(ord, offset, sorted[t1] as int),
                pair_key(ord, offset, sorted[t2] as int),
            ),
        forall|t1: int, t2: int|
            0 <= t1 < t2 < sorted.len() && pair_key(ord, offset, #[trigger] sorted[t1] as int) == pair_key(
                ord,
                offset,
                #[trigger] sorted[t2] as int,
            ) ==> sorted[t1] < sorted[t2],
{
    let n = ord.len() as int;
    let items1 = identity(ord.len());
    assert forall|t1: int, t2: int| 0 <= t1 < t2 < n implies pair_le(
        pair_key(ord, offset, #[trigger] sorted[t1] as int),
        pair_key(ord, offset, sorted[t2] as int),
    ) && (pair_key(ord, offset, sorted[t1] as int) == pair_key(ord, offset, #[trigger] sorted[t2] as int) ==> sorted[t1]
        < sorted[t2]) by {
        assert(slot_of(k2, t1));
        assert(slot_of(k2, t2));
        let q1 = choose|q: int| 0 <= q < n && #[trigger] pos(k2, q) == t1;
        let q2 = choose|q: int| 0 <= q < n && #[trigger] pos(k2, q) == t2;
        assert(sorted[pos(k2, q1)] == buf[q1]);
        assert(sorted[pos(k2, q2)] == buf[q2]);
        lemma_pos_order(k2, kmax, q1, q2);
        let x1 = sorted[t1] as int;
        let x2 = sorted[t2] as int;
        assert(x1 == buf[q1] && x2 == buf[q2]);
        assert(k2[q1] == ord[x1] as int && k2[q2] == ord[x2] as int);
        if k2[q1] == k2[q2] {
            lemma_pos_stable(k2, q1, q2);
            assert(slot_of(k1, q1));
            assert(slot_of(k1, q2));
            let r1 = choose|r: int| 0 <= r < n && #[trigger] pos(k1, r) == q1;
            let r2 = choose|r: int| 0 <= r < n && #[trigger] pos(k1, r) == q2;
            assert(buf[pos(k1, r1)] == items1[r1]);
            assert(buf[pos(k1, r2)] == items1[r2]);
            assert(items1[r1] == r1 as u32 && items1[r2] == r2 as u32);
            assert(x1 == r1 && x2 == r2);
            lemma_pos_order(k1, kmax, r1, r2);
            assert(k1[r1] == ord[(r1 + offset) % n] as int);
            assert(k1[r2] == ord[(r2 + offset) % n] as int);
            if k1[r1] == k1[r2] {
                lemma_pos_stable(k1, r1, r2);
            }
        }
    }
}

/// Whether the two lists hold the same numbers in the same order.
fn same_entries(a: &Vec<u32>, b: &Vec<u32>) -> (r: bool)
    requires
        a@.len() == b@.len(),
    ensures
        r == (a@ == b@),
{
    let mut i: usize = 0;
    while i < a.len()
        invariant
            i <= a@.len(),
            a@.len() == b@.len(),
            forall|j: int| 0 <= j < i ==> a@[j] == b@[j],
        decreases a@.len() - i,
    {
        if a[i] != b[i] {
            return false;
        }
        i += 1;
    }
    assert(a@ =~= b@);
    true
}

/// Overwrites `dst` with the entries of `src`.
fn copy_entries(dst: &mut Vec<u32>, src: &Vec<u32>)
    requires
        old(dst)@.len() == src@.len(),
    ensures
        final(dst)@ == src@,
{
    let mut i: usize = 0;
    while i < src.len()
        invariant
            i <= src@.len(),
            dst@.len() == src@.len(),
            forall|j: int| 0 <= j < i ==> dst@[j] == src@[j],
        decreases src@.len() - i,
    {
        dst.set(i, src[i]);
        i += 1;
    }
    assert(dst@ =~= src@);
}

/// The first `l` characters of the rotation of `s` that starts at `x`,
/// read on around the end as often as needed.
pub open spec fn rot_prefix(s: Seq<char>, x: int, l: int) -> Seq<char> {
    Seq::new(l as nat, |t: int| s[(x + t) % (s.len() as int)])
}

/// `a` and `b` agree before place `k`, where `a` holds the smaller
/// character.
pub open spec fn differs_at(a: Seq<char>, b: Seq<char>, k: int) -> bool {
    &&& 0 <= k < a.len()
    &&& k < b.len()
    &&& forall|t: int| 0 <= t < k ==> a[t] == b[t]
    &&& (a[k] as usize) < (b[k] as usize)
}

/// `a` comes before `b` in lexicographic order, for sequences of one
/// length.
pub open spec fn seq_lt(a: Seq<char>, b: Seq<char>) -> bool {
    exists|k: int| #[trigger] differs_at(a, b, k)
}

/// The rotation of `s` from `x` comes before the rotation from `y`.
pub open spec fn rot_lt(s: Seq<char>, x: int, y: int) -> bool {
    seq_lt(rot_prefix(s, x, s.len() as int), rot_prefix(s, y, s.len() as int))
}

/// The starts of the rotations of `s` that come before `s` itself.
pub open spec fn smaller_rotations(s: Seq<char>) -> Set<int> {
    Set::new(|x: int| 0 <= x < s.len() && rot_lt(s, x, 0))
}

/// Different characters have different codes.
proof fn lemma_char_codes(c1: char, c2: char)
    ensures
        (c1 as usize) == (c2 as usize) ==> c1 == c2,
{
}

/// Two sequences of one length that agree before `k` either are equal or
/// differ first at some place, one way or the other.
proof fn lemma_first_diff(a: Seq<char>, b: Seq<char>, k: int)
    requires
        a.len() == b.len(),
        0 <= k <= a.len(),
        forall|t: int| 0 <= t < k ==> a[t] == b[t],
    ensures
        seq_lt(a, b) || a == b || seq_lt(b, a),
    decreases a.len() - k,
{
    if k == a.len() {
        assert(a =~= b);
    } else if a[k] == b[k] {
        lemma_first_diff(a, b, k + 1);
    } else if (a[k] as usize) < (b[k] as usize) {
        assert(differs_at(a, b, k));
    } else {
        lemma_char_codes(a[k], b[k]);
        assert((b[k] as usize) < (a[k] as usize));
        assert(differs_at(b, a, k));
    }
}

/// Lexicographic order of sequences of one length is a strict total order.
pub proof fn lemma_lt_total(a: Seq<char>, b: Seq<char>)
    requires
        a.len() == b.len(),
    ensures
        seq_lt(a, b) || a == b || seq_lt(b, a),
        !(seq_lt(a, b) && seq_lt(b, a)),
        !(seq_lt(a, b) && a == b),
{
    lemma_first_diff(a, b, 0);
    if seq_lt(a, b) {
        let k1 = choose|k: int| #[trigger] differs_at(a, b, k);
        if seq_lt(b, a) {
            let k2 = choose|k: int| #[trigger] differs_at(b, a, k);
            if k1 < k2 {
                assert(b[k1] == a[k1]);
            } else if k2 < k1 {
                assert(a[k2] == b[k2]);
            }
        }
    }
}

/// Lexicographic order of sequences of one length is transitive.
pub proof fn lemma_lt_trans(a: Seq<char>, b: Seq<char>, c: Seq<char>)
    requires
        a.len() == b.len(),
        b.len() == c.len(),
        seq_lt(a, b),
        seq_lt(b, c),
    ensures
        seq_lt(a, c),
{
    let k1 = choose|k: int| #[trigger] differs_at(a, b, k);
    let k2 = choose|k: int| #[trigger] differs_at(b, c, k);
    let k = if k1 < k2 { k1 } else { k2 };
    assert(differs_at(a, c, k));
}

/// Comparing two joined pairs of sequences compares the first parts, then
/// the second.
proof fn lemma_lt_concat(a1: Seq<char>, b1: Seq<char>, a2: Seq<char>, b2: Seq<char>)
    requires
        a1.len() == a2.len(),
        b1.len() == b2.len(),
    ensures
        seq_lt(a1 + b1, a2 + b2) <==> (seq_lt(a1, a2) || (a1 == a2 && seq_lt(b1, b2))),
        (a1 + b1 == a2 + b2) <==> (a1 == a2 && b1 == b2),
{
    let x = a1 + b1;
    let y = a2 + b2;
    let la = a1.len() as int;
    if seq_lt(a1, a2) {
        let k = choose|k: int| #[trigger] differs_at(a1, a2, k);
        assert(differs_at(x, y, k));
    }
    if a1 == a2 && seq_lt(b1, b2) {
        let k = choose|k: int| #[trigger] differs_at(b1, b2, k);
        assert forall|t: int| 0 <= t < la + k implies x[t] == y[t] by {
            if t >= la {
                assert(b1[t - la] == b2[t - la]);
            }
        }
        assert(differs_at(x, y, la + k));
    }
    if seq_lt(x, y) {
        let k = choose|k: int| #[trigger] differs_at(x, y, k);
        if k < la {
            assert forall|t: int| 0 <= t < k implies a1[t] == a2[t] by {
                assert(x[t] == y[t]);
            }
            assert(x[k] == a1[k] && y[k] == a2[k]);
            assert(differs_at(a1, a2, k));
        } else {
            assert(a1 =~= a2) by {
                assert forall|t: int| 0 <= t < la implies a1[t] == a2[t] by {
                    assert(x[t] == y[t]);
                }
            }
            assert forall|t: int| 0 <= t < k - la implies b1[t] == b2[t] by {
                assert(x[t + la] == y[t + la]);
            }
            assert(differs_at(b1, b2, k - la));
        }
    }
    if x == y {
        assert(a1 =~= a2) by {
            assert forall|t: int| 0 <= t < la implies a1[t] == a2[t] by {
                assert(x[t] == y[t]);
            }
        }
        assert(b1 =~= b2) by {
            assert forall|t: int| 0 <= t < b1.len() implies b1[t] == b2[t] by {
                assert(x[t + la] == y[t + la]);
            }
        }
    }
}

/// Where two prefixes of one length differ, they compare as the whole
/// sequences do.
proof fn lemma_lt_longer(a: Seq<char>, b: Seq<char>, l: int)
    requires
        a.len() == b.len(),
        0 <= l <= a.len(),
        a.subrange(0, l) != b.subrange(0, l),
    ensures
        seq_lt(a.subrange(0, l), b.subrange(0, l)) <==> seq_lt(a, b),
{
    let pa = a.subrange(0, l);
    let pb = b.subrange(0, l);
    if seq_lt(pa, pb) {
        let k = choose|k: int| #[trigger] differs_at(pa, pb, k);
        assert forall|t: int| 0 <= t < k implies a[t] == b[t] by {
            assert(pa[t] == pb[t]);
        }
        assert(pa[k] == a[k] && pb[k] == b[k]);
        assert(differs_at(a, b, k));
    }
    if seq_lt(pb, pa) {
        let k = choose|k: int| #[trigger] differs_at(pb, pa, k);
        assert forall|t: int| 0 <= t < k implies b[t] == a[t] by {
            assert(pb[t] == pa[t]);
        }
        assert(pa[k] == a[k] && pb[k] == b[k]);
        assert(differs_at(b, a, k));
    }
    lemma_lt_total(pa, pb);
    lemma_lt_total(a, b);
}

/// Where two sequences that agree on their first `l` places are equal,
/// they compare as those first places do.
proof fn lemma_lt_prefix(a: Seq<char>, b: Seq<char>, l: int)
    requires
        a.len() == b.len(),
        0 <= l <= a.len(),
        a.subrange(0, l) == b.subrange(0, l) ==> a == b,
    ensures
        seq_lt(a.subrange(0, l), b.subrange(0, l)) <==> seq_lt(a, b),
{
    if a.subrange(0, l) != b.subrange(0, l) {
        lemma_lt_longer(a, b, l);
    } else {
        lemma_lt_total(a, b);
        lemma_lt_total(a.subrange(0, l), b.subrange(0, l));
    }
}

/// The first `2 l` characters of a rotation are its first `l` followed by
/// the first `l` of the rotation `l` further on.
proof fn lemma_rot_double(s: Seq<char>, x: int, l: int)
    requires
        s.len() >= 1,
        0 <= x < s.len(),
        0 <= l <= s.len(),
    ensures
        rot_prefix(s, x, 2 * l) == rot_prefix(s, x, l) + rot_prefix(s, (x + l) % (s.len() as int), l),
{
    let n = s.len() as int;
    let lhs = rot_prefix(s, x, 2 * l);
    let rhs = rot_prefix(s, x, l) + rot_prefix(s, (x + l) % n, l);
    assert forall|t: int| 0 <= t < 2 * l implies lhs[t] == rhs[t] by {
        if t >= l {
            lemma_add_mod_noop(x + l, t - l, n);
            lemma_small_mod((t - l) as nat, n as nat);
            assert(x + l + (t - l) == x + t);
        }
    }
    assert(lhs =~= rhs);
}

/// Past the whole length, prefixes of rotations repeat the rotations: they
/// begin with them, and are equal where the rotations are.
proof fn lemma_rot_long(s: Seq<char>, x: int, y: int, l: int)
    requires
        s.len() >= 1,
        0 <= x < s.len(),
        0 <= y < s.len(),
        l >= s.len(),
    ensures
        rot_prefix(s, x, l).subrange(0, s.len() as int) == rot_prefix(s, x, s.len() as int),
        rot_prefix(s, x, s.len() as int) == rot_prefix(s, y, s.len() as int) ==> rot_prefix(s, x, l) == rot_prefix(
            s,
            y,
            l,
        ),
{
    let n = s.len() as int;
    assert(rot_prefix(s, x, l).subrange(0, n) =~= rot_prefix(s, x, n));
    if rot_prefix(s, x, n) == rot_prefix(s, y, n) {
        assert forall|t: int| 0 <= t < l implies rot_prefix(s, x, l)[t] == rot_prefix(s, y, l)[t] by {
            lemma_add_mod_noop(x, t, n);
            lemma_add_mod_noop(y, t, n);
            lemma_small_mod(x as nat, n as nat);
            lemma_small_mod(y as nat, n as nat);
            lemma_mod_pos_bound(t, n);
            assert(rot_prefix(s, x, n)[t % n] == rot_prefix(s, y, n)[t % n]);
        }
        assert(rot_prefix(s, x, l) =~= rot_prefix(s, y, l));
    }
}

/// `ord` ranks the positions of `s` as the first `l` characters of their
/// rotations compare.
#[verifier::opaque]
pub open spec fn ranks_prefixes(s: Seq<char>, ord: Seq<u32>, l: int) -> bool {
    &&& ord.len() == s.len()
    &&& forall|x: int, y: int|
        #![trigger ord[x], ord[y]]
        0 <= x < s.len() && 0 <= y < s.len() ==> {
            &&& (ord[x] < ord[y] <==> seq_lt(rot_prefix(s, x, l), rot_prefix(s, y, l)))
            &&& (ord[x] == ord[y] <==> rot_prefix(s, x, l) == rot_prefix(s, y, l))
        }
}

/// `sorted` lists the positions by rank in `ord`, equal ranks by position.
pub open spec fn by_rank(sorted: Seq<u32>, ord: Seq<u32>) -> bool {
    forall|t1: int, t2: int|
        0 <= t1 < t2 < sorted.len() ==> {
            ||| ord[#[trigger] sorted[t1] as int] < ord[#[trigger] sorted[t2] as int]
            ||| ord[sorted[t1] as int] == ord[sorted[t2] as int] && sorted[t1] < sorted[t2]
        }
}

/// `a` comes strictly before `b`.
pub open spec fn pair_lt(a: (u32, u32), b: (u32, u32)) -> bool {
    a.0 < b.0 || (a.0 == b.0 && a.1 < b.1)
}

/// Counting distinct keys does not go down.
proof fn lemma_present_mono(keys: Seq<int>, o1: int, o2: int)
    requires
        o1 <= o2,
    ensures
        present(keys, o1) <= present(keys, o2),
    decreases o2 - o1,
{
    if o1 < o2 {
        lemma_present_mono(keys, o1, o2 - 1);
    }
}

/// Ranking by the first character, with positions stably sorted by it,
/// ranks the prefixes of length one.
proof fn lemma_init_ranks(s: Seq<char>, sorted: Seq<u32>, ord: Seq<u32>)
    requires
        s.len() >= 1,
        sorted.len() == s.len(),
        ord.len() == s.len(),
        ranked(sorted, ord),
        forall|t1: int, t2: int|
            0 <= t1 < t2 < s.len() ==> s[sorted[t1] as int] as usize <= s[sorted[t2] as int] as usize,
        forall|t1: int, t2: int|
            0 <= t1 < t2 < s.len() && s[sorted[t1] as int] == s[sorted[t2] as int] ==> sorted[t1] < sorted[t2],
        forall|q: int| 0 <= q < s.len() ==> #[trigger] ord[q] == present(char_keys(s), s[q] as usize as int),
    ensures
        ranks_prefixes(s, ord, 1),
        by_rank(sorted, ord),
{
    let n = s.len() as int;
    let keys = char_keys(s);
    assert forall|x: int, y: int| 0 <= x < n && 0 <= y < n && (s[x] as usize) < (s[y] as usize) implies ord[x]
        < ord[y] by {
        lemma_cnt_pos(keys, n, x);
        assert(keys[x] == s[x] as usize as int);
        assert(present(keys, keys[x] + 1) == present(keys, keys[x]) + 1);
        lemma_present_mono(keys, keys[x] + 1, s[y] as usize as int);
    }
    reveal(ranks_prefixes);
    assert forall|x: int, y: int| #![trigger ord[x], ord[y]] 0 <= x < n && 0 <= y < n implies {
        &&& (ord[x] < ord[y] <==> seq_lt(rot_prefix(s, x, 1), rot_prefix(s, y, 1)))
        &&& (ord[x] == ord[y] <==> rot_prefix(s, x, 1) == rot_prefix(s, y, 1))
    } by {
        let a = rot_prefix(s, x, 1);
        let b = rot_prefix(s, y, 1);
        lemma_small_mod(x as nat, n as nat);
        lemma_small_mod(y as nat, n as nat);
        assert(a[0] == s[x] && b[0] == s[y]);
        lemma_char_codes(s[x], s[y]);
        if (s[x] as usize) < (s[y] as usize) {
            assert(differs_at(a, b, 0));
        } else if (s[y] as usize) < (s[x] as usize) {
            assert(differs_at(b, a, 0));
        } else {
            assert(a =~= b);
        }
        lemma_lt_total(a, b);
        if a == b {
            assert(a[0] == b[0]);
        }
    }
    assert forall|t1: int, t2: int| 0 <= t1 < t2 < n implies {
        ||| ord[#[trigger] sorted[t1] as int] < ord[#[trigger] sorted[t2] as int]
        ||| ord[sorted[t1] as int] == ord[sorted[t2] as int] && sorted[t1] < sorted[t2]
    } by {
        let x = sorted[t1] as int;
        let y = sorted[t2] as int;
        assert(x < n && y < n);
        lemma_char_codes(s[x], s[y]);
    }
}

/// Along the sorted positions the new ranks never fall, and stay the same
/// exactly while the pairs do.
proof fn lemma_pair_chain(ord: Seq<u32>, off: int, sorted: Seq<u32>, ord_out: Seq<u32>, t1: int, t2: int)
    requires
        ranked(sorted, ord_out),
        ord.len() == sorted.len(),
        0 <= t1 <= t2 < sorted.len(),
        forall|a: int, b: int|
            0 <= a < b < sorted.len() ==> pair_le(
                pair_key(ord, off, #[trigger] sorted[a] as int),
                pair_key(ord, off, #[trigger] sorted[b] as int),
            ),
        forall|t: int| 0 <= t < sorted.len() - 1 ==> #[trigger] same_rank_step(ord, off, sorted, ord_out, t),
    ensures
        ord_out[sorted[t1] as int] <= ord_out[sorted[t2] as int],
        (ord_out[sorted[t1] as int] == ord_out[sorted[t2] as int]) <==> (pair_key(ord, off, sorted[t1] as int)
            == pair_key(ord, off, sorted[t2] as int)),
    decreases t2 - t1,
{
    if t1 < t2 {
        lemma_pair_chain(ord, off, sorted, ord_out, t1, t2 - 1);
        assert(same_rank_step(ord, off, sorted, ord_out, t2 - 1));
        assert(ord_out[sorted[t2 - 1] as int] <= ord_out[sorted[t2] as int]);
        let p1 = pair_key(ord, off, sorted[t1] as int);
        let pm = pair_key(ord, off, sorted[t2 - 1] as int);
        let p2 = pair_key(ord, off, sorted[t2] as int);
        if t1 < t2 - 1 {
            assert(pair_le(p1, pm));
        }
        assert(pair_le(pm, p2));
        assert(pair_le(p1, p2));
    }
}

/// New ranks given along positions sorted by pairs rank the positions as
/// their pairs compare, and list them by rank.
proof fn lemma_pairs_ranked(ord: Seq<u32>, off: int, sorted: Seq<u32>, ord_out: Seq<u32>)
    requires
        ranked(sorted, ord_out),
        ord.len() == sorted.len(),
        forall|a: int, b: int|
            0 <= a < b < sorted.len() ==> pair_le(
                pair_key(ord, off, #[trigger] sorted[a] as int),
                pair_key(ord, off, #[trigger] sorted[b] as int),
            ),
        forall|a: int, b: int|
            0 <= a < b < sorted.len() && pair_key(ord, off, #[trigger] sorted[a] as int) == pair_key(
                ord,
                off,
                #[trigger] sorted[b] as int,
            ) ==> sorted[a] < sorted[b],
        forall|t: int| 0 <= t < sorted.len() - 1 ==> #[trigger] same_rank_step(ord, off, sorted, ord_out, t),
    ensures
        by_rank(sorted, ord_out),
        forall|x: int, y: int|
            #![trigger ord_out[x], ord_out[y]]
            0 <= x < sorted.len() && 0 <= y < sorted.len() ==> {
                &&& (ord_out[x] < ord_out[y] <==> pair_lt(pair_key(ord, off, x), pair_key(ord, off, y)))
                &&& (ord_out[x] == ord_out[y] <==> pair_key(ord, off, x) == pair_key(ord, off, y))
            },
{
    let n = sorted.len() as int;
    assert forall|t1: int, t2: int| 0 <= t1 < t2 < n implies {
        ||| ord_out[#[trigger] sorted[t1] as int] < ord_out[#[trigger] sorted[t2] as int]
        ||| ord_out[sorted[t1] as int] == ord_out[sorted[t2] as int] && sorted[t1] < sorted[t2]
    } by {
        lemma_pair_chain(ord, off, sorted, ord_out, t1, t2);
    }
    lemma_perm_onto(sorted);
    assert forall|x: int, y: int| #![trigger ord_out[x], ord_out[y]] 0 <= x < n && 0 <= y < n implies {
        &&& (ord_out[x] < ord_out[y] <==> pair_lt(pair_key(ord, off, x), pair_key(ord, off, y)))
        &&& (ord_out[x] == ord_out[y] <==> pair_key(ord, off, x) == pair_key(ord, off, y))
    } by {
        assert(holds(sorted, x));
        assert(holds(sorted, y));
        let tx = choose|t: int| 0 <= t < n && #[trigger] sorted[t] == x;
        let ty = choose|t: int| 0 <= t < n && #[trigger] sorted[t] == y;
        if tx <= ty {
            lemma_pair_chain(ord, off, sorted, ord_out, tx, ty);
            if tx < ty {
                assert(pair_le(pair_key(ord, off, sorted[tx] as int), pair_key(ord, off, sorted[ty] as int)));
            }
        } else {
            lemma_pair_chain(ord, off, sorted, ord_out, ty, tx);
            assert(pair_le(pair_key(ord, off, sorted[ty] as int), pair_key(ord, off, sorted[tx] as int)));
        }
    }
}

/// Ranks of the pairs of ranks of prefixes of length `l`, the second taken
/// `l` further on, rank the prefixes of length `2 l`.
proof fn lemma_step_ranks(s: Seq<char>, ord: Seq<u32>, ord_out: Seq<u32>, l: int)
    requires
        ranks_prefixes(s, ord, l),
        1 <= l < s.len(),
        ord_out.len() == s.len(),
        forall|x: int, y: int|
            #![trigger ord_out[x], ord_out[y]]
            0 <= x < s.len() && 0 <= y < s.len() ==> {
                &&& (ord_out[x] < ord_out[y] <==> pair_lt(pair_key(ord, l, x), pair_key(ord, l, y)))
                &&& (ord_out[x] == ord_out[y] <==> pair_key(ord, l, x) == pair_key(ord, l, y))
            },
    ensures
        ranks_prefixes(s, ord_out, 2 * l),
{
    let n = s.len() as int;
    reveal(ranks_prefixes);
    assert forall|x: int, y: int| #![trigger ord_out[x], ord_out[y]] 0 <= x < n && 0 <= y < n implies {
        &&& (ord_out[x] < ord_out[y] <==> seq_lt(rot_prefix(s, x, 2 * l), rot_prefix(s, y, 2 * l)))
        &&& (ord_out[x] == ord_out[y] <==> rot_prefix(s, x, 2 * l) == rot_prefix(s, y, 2 * l))
    } by {
        let x2 = (x + l) % n;
        let y2 = (y + l) % n;
        lemma_mod_pos_bound(x + l, n);
        lemma_mod_pos_bound(y + l, n);
        assert(pair_key(ord, l, x) == (ord[x], ord[x2]));
        assert(pair_key(ord, l, y) == (ord[y], ord[y2]));
        assert(ord[x] < ord[y] <==> seq_lt(rot_prefix(s, x, l), rot_prefix(s, y, l)));
        assert(ord[x] == ord[y] <==> rot_prefix(s, x, l) == rot_prefix(s, y, l));
        assert(ord[x2] < ord[y2] <==> seq_lt(rot_prefix(s, x2, l), rot_prefix(s, y2, l)));
        assert(ord[x2] == ord[y2] <==> rot_prefix(s, x2, l) == rot_prefix(s, y2, l));
        lemma_rot_double(s, x, l);
        lemma_rot_double(s, y, l);
        lemma_lt_concat(rot_prefix(s, x, l), rot_prefix(s, x2, l), rot_prefix(s, y, l), rot_prefix(s, y2, l));
    }
}

/// Once the prefixes reach the whole length, ranks compare the rotations
/// themselves.
proof fn lemma_rank_full(s: Seq<char>, ord: Seq<u32>, l: int)
    requires
        ranks_prefixes(s, ord, l),
        s.len() >= 1,
        l >= s.len(),
    ensures
        forall|x: int| 0 <= x < s.len() ==> (#[trigger] ord[x] < ord[0] <==> rot_lt(s, x, 0)),
{
    let n = s.len() as int;
    reveal(ranks_prefixes);
    assert forall|x: int| 0 <= x < n implies (#[trigger] ord[x] < ord[0] <==> rot_lt(s, x, 0)) by {
        lemma_rot_long(s, x, 0, l);
        lemma_rot_long(s, 0, x, l);
        lemma_lt_prefix(rot_prefix(s, x, l), rot_prefix(s, 0, l), n);
        assert(ord[x] < ord[0] <==> seq_lt(rot_prefix(s, x, l), rot_prefix(s, 0, l)));
    }
}

/// What `ranks_prefixes` says of two positions.
proof fn lemma_ranks_at(s: Seq<char>, ord: Seq<u32>, l: int, x: int, y: int)
    requires
        ranks_prefixes(s, ord, l),
        0 <= x < s.len(),
        0 <= y < s.len(),
    ensures
        ord[x] < ord[y] <==> seq_lt(rot_prefix(s, x, l), rot_prefix(s, y, l)),
        ord[x] == ord[y] <==> rot_prefix(s, x, l) == rot_prefix(s, y, l),
{
    reveal(ranks_prefixes);
}

/// Where the last rank along a ranked permutation is one less than its
/// length, no two positions share a rank.
proof fn lemma_ranks_distinct(sorted: Seq<u32>, ord: Seq<u32>)
    requires
        sorted.len() >= 1,
        ranked(sorted, ord),
        ord[sorted[sorted.len() - 1] as int] == sorted.len() - 1,
    ensures
        forall|x: int, y: int| 0 <= x < sorted.len() && 0 <= y < sorted.len() && x != y ==> #[trigger] ord[x] != #[trigger] ord[y],
{
    let n = sorted.len() as int;
    lemma_perm_onto(sorted);
    assert forall|t: int| 0 <= t < n implies #[trigger] ord[sorted[t] as int] == t by {
        lemma_ranked_chain(sorted, ord, 0, t);
        lemma_ranked_chain(sorted, ord, t, n - 1);
    }
    assert forall|x: int, y: int| 0 <= x < n && 0 <= y < n && x != y implies #[trigger] ord[x] != #[trigger] ord[y] by {
        assert(holds(sorted, x));
        assert(holds(sorted, y));
        let tx = choose|t: int| 0 <= t < n && #[trigger] sorted[t] == x;
        let ty = choose|t: int| 0 <= t < n && #[trigger] sorted[t] == y;
        assert(ord[sorted[tx] as int] == tx);
        assert(ord[sorted[ty] as int] == ty);
    }
}

/// Once no two positions share a rank, ranks compare the rotations
/// themselves.
proof fn lemma_rank_distinct(s: Seq<char>, ord: Seq<u32>, l: int, sorted: Seq<u32>)
    requires
        ranks_prefixes(s, ord, l),
        s.len() >= 1,
        l >= 1,
        sorted.len() == s.len(),
        ranked(sorted, ord),
        ord[sorted[s.len() - 1] as int] == s.len() - 1,
    ensures
        forall|x: int| 0 <= x < s.len() ==> (#[trigger] ord[x] < ord[0] <==> rot_lt(s, x, 0)),
{
    let n = s.len() as int;
    if l >= n {
        lemma_rank_full(s, ord, l);
    } else {
        lemma_ranks_distinct(sorted, ord);
        assert forall|x: int| 0 <= x < n implies (#[trigger] ord[x] < ord[0] <==> rot_lt(s, x, 0)) by {
            let a = rot_prefix(s, x, n);
            let b = rot_prefix(s, 0, n);
            if x == 0 {
                lemma_lt_total(a, b);
            } else {
                assert(ord[x] != ord[0]);
                lemma_ranks_at(s, ord, l, x, 0);
                assert(a.subrange(0, l) =~= rot_prefix(s, x, l));
                assert(b.subrange(0, l) =~= rot_prefix(s, 0, l));
                lemma_lt_longer(a, b, l);
            }
        }
    }
}

/// With the positions listed by ranks that compare rotations, the place of
/// position zero is the number of rotations that come before the string.
proof fn lemma_rank_position(s: Seq<char>, sorted: Seq<u32>, ord: Seq<u32>, i: int)
    requires
        sorted.len() == s.len(),
        is_perm(sorted),
        by_rank(sorted, ord),
        0 <= i < s.len(),
        sorted[i] == 0,
        forall|x: int| 0 <= x < s.len() ==> (#[trigger] ord[x] < ord[0] <==> rot_lt(s, x, 0)),
    ensures
        smaller_rotations(s).finite(),
        smaller_rotations(s).len() == i,
{
    let n = s.len() as int;
    let w = Seq::new(i as nat, |t: int| sorted[t] as int);
    assert(w.no_duplicates()) by {
        assert forall|a: int, b: int| 0 <= a < w.len() && 0 <= b < w.len() && a != b implies w[a] != w[b] by {
            if a < b {
                assert(sorted[a] != sorted[b]);
            } else {
                assert(sorted[b] != sorted[a]);
            }
        }
    }
    w.unique_seq_to_set();
    lemma_perm_onto(sorted);
    assert forall|x: int| #[trigger] smaller_rotations(s).contains(x) <==> w.to_set().contains(x) by {
        if w.to_set().contains(x) {
            assert(w.contains(x));
            let t = choose|t: int| 0 <= t < w.len() && w[t] == x;
            assert(sorted[t] < n);
            assert(ord[sorted[t] as int] < ord[sorted[i] as int] || (ord[sorted[t] as int] == ord[sorted[i] as int]
                && sorted[t] < sorted[i]));
        }
        if smaller_rotations(s).contains(x) {
            assert(holds(sorted, x));
            let tx = choose|t: int| 0 <= t < n && #[trigger] sorted[t] == x;
            if tx > i {
                assert(ord[sorted[i] as int] < ord[sorted[tx] as int] || (ord[sorted[i] as int] == ord[sorted[tx] as int]
                    && sorted[i] < sorted[tx]));
            }
            assert(tx != i);
            assert(w[tx] == x);
            assert(w.contains(x));
        }
    }
    assert(smaller_rotations(s) =~= w.to_set());
}

/// The place, counted from one, of the string itself among all its
/// rotations sorted: the rotations are ranked by their first character,
/// then by their first two, four, eight and so on, each round sorting by
/// the pair of ranks of a rotation and of the rotation that many characters
/// further on, until no two rotations share a rank and the order stops
/// changing, or the whole length is covered. Every character must be below
/// 256.
pub fn solve(input: &str) -> (answer: usize)
    requires
        input@.len() >= 1,
        input@.len() <= u32::MAX,
        2 * input@.len() < usize::MAX,
        forall|i: int| 0 <= i < input@.len() ==> (#[trigger] input@[i] as usize) < 256,
    ensures
        1 <= answer <= input@.len(),
        smaller_rotations(input@).finite(),
        answer == 1 + smaller_rotations(input@).len(),
{
    let s = chars_of(input);
    let n = s.len();
    let mut sorted: Vec<u32> = vec![0; n];
    let mut ord: Vec<u32> = vec![0; n];
    let mut ord_out: Vec<u32> = vec![0; n];
    sort_init_char(s.as_slice(), sorted.as_mut_slice(), ord.as_mut_slice());
    let mut buf1: Vec<u32> = vec![0; n];
    let mut buf2: Vec<u32> = vec![0; n];
    let mut buf3: Vec<u32> = vec![0; n];
    let mut sorted_prev: Vec<u32> = vec![0; n];
    copy_entries(&mut sorted_prev, &sorted);
    proof {
        lemma_init_ranks(s@, sorted@, ord@);
    }
    let mut offset: usize = 1;
    while offset < n
        invariant_except_break
            ranks_prefixes(s@, ord@, offset as int),
        invariant
            n == s@.len(),
            1 <= n <= u32::MAX,
            2 * n < usize::MAX,
            1 <= offset < 2 * n,
            sorted@.len() == n,
            ord@.len() == n,
            ord_out@.len() == n,
            buf1@.len() == n,
            buf2@.len() == n,
            buf3@.len() == n,
            sorted_prev@.len() == n,
            ranked(sorted@, ord@),
            by_rank(sorted@, ord@),
        ensures
            sorted@.len() == n,
            ord@.len() == n,
            ranked(sorted@, ord@),
            by_rank(sorted@, ord@),
            (offset >= n && ranks_prefixes(s@, ord@, offset as int)) || (forall|x: int|
                0 <= x < n ==> (#[trigger] ord@[x] < ord@[0] <==> rot_lt(s@, x, 0))),
        decreases 2 * n - offset,
    {
        let ghost ord0 = ord@;
        sort_step(
            offset,
            ord.as_slice(),
            sorted.as_mut_slice(),
            ord_out.as_mut_slice(),
            buf1.as_mut_slice(),
            buf2.as_mut_slice(),
            buf3.as_mut_slice(),
        );
        std::mem::swap(&mut ord, &mut ord_out);
        proof {
            lemma_pairs_ranked(ord0, offset as int, sorted@, ord@);
            lemma_step_ranks(s@, ord0, ord@, offset as int);
        }
        if same_entries(&sorted, &sorted_prev) && ord[sorted[n - 1] as usize] as usize == n - 1 {
            proof {
                lemma_rank_distinct(s@, ord@, 2 * offset as int, sorted@);
            }
            break;
        }
        copy_entries(&mut sorted_prev, &sorted);
        offset = 2 * offset;
    }
    proof {
        if offset >= n && ranks_prefixes(s@, ord@, offset as int) {
            lemma_rank_full(s@, ord@, offset as int);
        }
        lemma_perm_onto(sorted@);
        assert(holds(sorted@, 0));
    }
    let mut i: usize = 0;
    while sorted[i] != 0
        invariant
            i < n,
            sorted@.len() == n,
            forall|j: int| 0 <= j < i ==> sorted@[j] != 0,
            holds(sorted@, 0),
        decreases n - i,
    {
        i += 1;
        proof {
            if i == n {
                let t = choose|t: int| 0 <= t < sorted@.len() && #[trigger] sorted@[t] == 0;
                assert(sorted@[t] != 0);
            }
        }
    }
    proof {
        lemma_rank_position(s@, sorted@, ord@, i as int);
    }
    i + 1
}

} // verus!
