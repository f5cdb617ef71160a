use vstd::prelude::*;
use crate::strings::{is_z_function, is_z_value, is_p_function, is_p_value, is_border, common_prefix, lemma_border_of_border};

verus! {

/// Following the prefix function `p` down from border length `b` (taking
/// `p[b - 1]` for the next shorter border) meets length `l`.
pub open spec fn chain_from(p: Seq<usize>, b: int, l: int) -> bool
    decreases b,
{
    if b == l {
        true
    } else if b < l || b - 1 >= p.len() || p[b - 1] >= b {
        false
    } else {
        chain_from(p, p[b - 1] as int, l)
    }
}

/// Read from `p` alone: the prefix of length `l >= 1` is a border of the
/// prefix ending at `i`.
pub open spec fn border_by_p(p: Seq<usize>, i: int, l: int) -> bool {
    chain_from(p, p[i] as int, l)
}

/// For the prefix function of `s`, following the chain from a border `b` of
/// `s[..=i]` meets exactly the borders of length at most `b`.
proof fn lemma_chain_borders(s: Seq<char>, p: Seq<usize>, i: int, b: int, l: int)
    requires
        is_p_function(s, p),
        0 <= i < s.len(),
        is_border(s, i, b),
        1 <= l <= b,
    ensures
        chain_from(p, b, l) == is_border(s, i, l),
    decreases b,
{
    if b != l {
        let nb = p[b - 1] as int;
        assert(is_p_value(s, b - 1, nb));
        lemma_border_of_border(s, i, b, nb);
        assert(0 <= nb < b);
        assert(chain_from(p, b, l) == chain_from(p, nb, l));
        if l <= nb {
            lemma_chain_borders(s, p, i, nb, l);
        } else {
            lemma_border_of_border(s, i, b, l);
            assert(!is_border(s, b - 1, l));
        }
    }
}

/// `border_by_p` decides borders for the prefix function of `s`.
proof fn lemma_border_by_p(s: Seq<char>, p: Seq<usize>, i: int, l: int)
    requires
        is_p_function(s, p),
        0 <= i < s.len(),
        1 <= l,
    ensures
        border_by_p(p, i, l) == is_border(s, i, l),
{
    assert(is_p_value(s, i, p[i] as int));
    if l <= p[i] {
        lemma_chain_borders(s, p, i, p[i] as int, l);
    } else {
        assert(!chain_from(p, p[i] as int, l));
    }
}

/// Read from `p` alone: the prefix of length `k` occurs again at `t`.
pub open spec fn prefix_recurs(p: Seq<usize>, t: int, k: int) -> bool {
    border_by_p(p, t + k - 1, k)
}

/// Follows the chain of borders given by `p` from the longest border of the
/// prefix ending at `i` down to length `l`.
fn border_by_chain(p: &[usize], i: usize, l: usize) -> (r: bool)
    requires
        i < p@.len(),
        l >= 1,
    ensures
        r == border_by_p(p@, i as int, l as int),
{
    let mut b = p[i];
    while b > l
        invariant
            l >= 1,
            chain_from(p@, b as int, l as int) == border_by_p(p@, i as int, l as int),
        decreases b,
    {
        if b - 1 >= p.len() || p[b - 1] >= b {
            return false;
        }
        b = p[b - 1];
    }
    b == l
}

/// The Z-function of a string, computed from its prefix function: entry `t`
/// is the longest `k` such that every prefix of length `k' <= k` is a border
/// of the prefix ending at `t + k' - 1`, as the chains of `pfun` tell; entry
/// zero is the length.
pub fn solve(pfun: &[usize]) -> (zfun: Vec<usize>)
    ensures
        zfun@.len() == pfun@.len(),
        pfun@.len() > 0 ==> zfun@[0] == pfun@.len(),
        forall|t: int|
            1 <= t < pfun@.len() ==> {
                let k = #[trigger] zfun@[t] as int;
                &&& t + k <= pfun@.len()
                &&& forall|k2: int| 1 <= k2 <= k ==> #[trigger] prefix_recurs(pfun@, t, k2)
                &&& (t + k == pfun@.len() || !border_by_p(pfun@, t + k, k + 1))
            },
        forall|s: Seq<char>| is_p_function(s, pfun@) ==> is_z_function(s, zfun@),
{
    let n = pfun.len();
    let mut zfun: Vec<usize> = vec![0; n];
    if n == 0 {
        return zfun;
    }
    zfun.set(0, n);
    let mut t: usize = 1;
    while t < n
        invariant
            n == pfun@.len(),
            zfun@.len() == n,
            zfun@[0] == n,
            1 <= t <= n,
            forall|t2: int|
                1 <= t2 < t ==> {
                    let k = #[trigger] zfun@[t2] as int;
                    &&& t2 + k <= n
                    &&& forall|k2: int| 1 <= k2 <= k ==> #[trigger] prefix_recurs(pfun@, t2, k2)
                    &&& (t2 + k == n || !border_by_p(pfun@, t2 + k, k + 1))
                },
        decreases n - t,
    {
        let mut k: usize = 0;
        while t + k < n && border_by_chain(pfun, t + k, k + 1)
            invariant
                n == pfun@.len(),
                1 <= t < n,
                t + k <= n,
                forall|k2: int| 1 <= k2 <= k ==> #[trigger] prefix_recurs(pfun@, t as int, k2),
            decreases n - t - k,
        {
            k += 1;
        }
        zfun.set(t, k);
        t += 1;
    }
    proof {
        assert forall|s: Seq<char>| is_p_function(s, pfun@) implies is_z_function(s, zfun@) by {
            assert forall|t: int| 0 <= t < s.len() implies is_z_value(s, t, #[trigger] zfun@[t] as int) by {
                if t == 0 {
                    assert(common_prefix(s, 0, n as int));
                } else {
                    let k = zfun@[t] as int;
                    if k > 0 {
                        assert(prefix_recurs(pfun@, t, k));
                        lemma_border_by_p(s, pfun@, t + k - 1, k);
                        assert forall|j: int| 0 <= j < k implies #[trigger] s[j] == s[t + j] by {
                            assert(s[j] == s[t + k - 1 + 1 - k + j]);
                        }
                    }
                    if t + k < n {
                        lemma_border_by_p(s, pfun@, t + k, k + 1);
                        if s[k] == s[t + k] {
                            assert forall|j: int| 0 <= j < k + 1 implies #[trigger] s[j] == s[t + k + 1 - (k + 1) + j] by {
                                if j < k {
                                    assert(s[j] == s[t + j]);
                                }
                            }
                            assert(is_border(s, t + k, k + 1));
                        }
                    }
                }
            }
        }
    }
    zfun
}

} // verus!
