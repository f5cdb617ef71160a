use vstd::prelude::*;
use crate::strings::{is_z_function, is_z_value, is_p_function, is_p_value, is_border};

verus! {

/// `j` is the first position before `i` from whose successor a run of the
/// Z-function reaches `i` (or `i` itself when there is none).
pub open spec fn first_cover(z: Seq<usize>, i: int, j: int) -> bool {
    &&& 0 <= j <= i
    &&& (j == i || j + z[j + 1] >= i)
    &&& forall|j2: int| 0 <= j2 < j ==> j2 + #[trigger] z[j2 + 1] < i
}

/// When `z` is the Z-function of `s`, the first cover gives the longest
/// proper border of `s[..=i]`.
proof fn lemma_cover_is_border(s: Seq<char>, z: Seq<usize>, i: int, j: int)
    requires
        is_z_function(s, z),
        0 <= i < s.len(),
        first_cover(z, i, j),
    ensures
        is_p_value(s, i, i - j),
{
    let k = i - j;
    if j < i {
        let t = j + 1;
        assert(is_z_value(s, t, z[t] as int));
        assert forall|m: int| 0 <= m < k implies #[trigger] s[m] == s[i + 1 - k + m] by {
            assert(s[m] == s[t + m]);
        }
    }
    assert(is_border(s, i, k));
    assert forall|k2: int| k < k2 <= i implies !#[trigger] is_border(s, i, k2) by {
        if is_border(s, i, k2) {
            let t2 = i + 1 - k2;
            let zt = z[t2] as int;
            assert(is_z_value(s, t2, zt));
            if zt < k2 {
                assert(s[zt] == s[i + 1 - k2 + zt]);
            }
            assert((t2 - 1) + z[(t2 - 1) + 1] >= i);
        }
    }
}

/// The prefix function of a string, computed from its Z-function: entry `i`
/// is `i - j` for the first `j` whose next position starts a run of the
/// Z-function that reaches `i`.
pub fn solve(zfun: &[usize]) -> (pfun: Vec<usize>)
    requires
        forall|k: int| 0 <= k < zfun@.len() ==> #[trigger] zfun@[k] + zfun@.len() <= usize::MAX,
    ensures
        pfun@.len() == zfun@.len(),
        forall|i: int| 0 <= i < zfun@.len() ==> first_cover(zfun@, i, i - #[trigger] pfun@[i]),
        forall|s: Seq<char>| is_z_function(s, zfun@) ==> is_p_function(s, pfun@),
{
    let n = zfun.len();
    let mut pfun: Vec<usize> = vec![0; n];
    let mut j: usize = 0;
    let mut i: usize = 1;
    while i < n
        invariant
            n == zfun@.len(),
            pfun@.len() == n,
            forall|k: int| 0 <= k < n ==> #[trigger] zfun@[k] + n <= usize::MAX,
            1 <= i <= n || n == 0,
            j < i || n == 0,
            forall|j2: int| 0 <= j2 < j ==> j2 + #[trigger] zfun@[j2 + 1] < i - 1,
            pfun@[0] == 0 || n == 0,
            forall|i2: int| 0 <= i2 < i && i2 < n ==> first_cover(zfun@, i2, i2 - #[trigger] pfun@[i2]),
        decreases n - i,
    {
        while j < i && j + zfun[j + 1] < i
            invariant
                n == zfun@.len(),
                forall|k: int| 0 <= k < n ==> #[trigger] zfun@[k] + n <= usize::MAX,
                1 <= i < n,
                j <= i,
                forall|j2: int| 0 <= j2 < j ==> j2 + #[trigger] zfun@[j2 + 1] < i,
            decreases i - j,
        {
            j += 1;
        }
        pfun.set(i, i - j);
        proof {
            assert(first_cover(zfun@, i as int, j as int));
        }
        i += 1;
    }
    proof {
        if n > 0 {
            assert(first_cover(zfun@, 0, 0));
        }
        assert forall|s: Seq<char>| is_z_function(s, zfun@) implies is_p_function(s, pfun@) by {
            assert forall|i: int| 0 <= i < s.len() implies is_p_value(s, i, #[trigger] pfun@[i] as int) by {
                lemma_cover_is_border(s, zfun@, i, i - pfun@[i]);
            }
        }
    }
    pfun
}

} // verus!
