use vstd::prelude::*;
use crate::strings::{calc_zfun, chars_of, is_z_function, is_z_value};

verus! {

/// `p` is a period of `s`: every item equals the one `p` places further on.
pub open spec fn is_period(s: Seq<char>, p: int) -> bool {
    &&& 1 <= p
    &&& forall|j: int| 0 <= j < s.len() - p ==> #[trigger] s[j] == s[j + p]
}

/// A shift `i` is a period exactly when the suffix from `i` is a prefix.
pub proof fn lemma_period_z(s: Seq<char>, i: int, k: int)
    requires
        1 <= i < s.len(),
        is_z_value(s, i, k),
    ensures
        is_period(s, i) == (i + k == s.len()),
{
    if is_period(s, i) && i + k < s.len() {
        assert(s[k] == s[k + i]);
    }
    if i + k == s.len() {
        assert forall|j: int| 0 <= j < s.len() - i implies #[trigger] s[j] == s[j + i] by {
            assert(s[j] == s[i + j]);
        }
    }
}

/// The length of the shortest period of the string: the smallest `p >= 1`
/// such that each character equals the one `p` places further on (the whole
/// length when no shorter one exists, zero for the empty string).
pub fn solve(input: &str) -> (r: usize)
    ensures
        input@.len() == 0 ==> r == 0,
        input@.len() > 0 ==> {
            &&& 1 <= r <= input@.len()
            &&& is_period(input@, r as int)
            &&& forall|q: int| 1 <= q < r ==> !is_period(input@, q)
        },
{
    let s = chars_of(input);
    let n = s.len();
    let zfun = calc_zfun(s.as_slice());
    let mut i: usize = 1;
    while i < n
        invariant
            n == s@.len(),
            s@ == input@,
            is_z_function(s@, zfun@),
            1 <= i,
            n > 0 ==> i <= n,
            forall|q: int| 1 <= q < i ==> !is_period(s@, q),
        decreases n - i,
    {
        proof {
            lemma_period_z(s@, i as int, zfun@[i as int] as int);
        }
        if i + zfun[i] == n {
            return i;
        }
        i += 1;
    }
    proof {
        if n > 0 {
            assert(is_period(s@, n as int));
        }
    }
    n
}

} // verus!
