use vstd::prelude::*;
use vstd::arithmetic::power2::{pow2, lemma_pow2_unfold, lemma_pow2_pos, lemma_pow2_strictly_increases};
use vstd::bits::{lemma_usize_shl_is_mul, lemma_usize_pow2_no_overflow};

verus! {

/// `k` is the integer binary logarithm of `x`: `2^k <= x < 2^(k+1)`.
pub open spec fn is_ilog2(x: int, k: int) -> bool {
    &&& k >= 0
    &&& pow2(k as nat) <= x
    &&& x < pow2((k + 1) as nat)
}

/// A binary logarithm is unique.
pub proof fn lemma_ilog2_unique(x: int, k1: int, k2: int)
    requires
        is_ilog2(x, k1),
        is_ilog2(x, k2),
    ensures
        k1 == k2,
{
    if k1 < k2 {
        if k1 + 1 < k2 {
            lemma_pow2_strictly_increases((k1 + 1) as nat, k2 as nat);
        }
    } else if k2 < k1 {
        if k2 + 1 < k1 {
            lemma_pow2_strictly_increases((k2 + 1) as nat, k1 as nat);
        }
    }
}

fn ilog2_acc(x: usize, acc: u32) -> (r: u32)
    requires
        x >= 1,
        x < pow2((u32::MAX + 1 - acc) as nat),
    ensures
        is_ilog2(x as int, r - acc),
        r >= acc,
    decreases x,
{
    if x == 1 {
        proof {
            assert(pow2(0) == 1 && pow2(1) == 2) by {
                lemma_pow2_unfold(1);
                vstd::arithmetic::power2::lemma2_to64();
            }
        }
        acc
    } else {
        assert(x >> 1usize == x / 2) by (bit_vector);
        proof {
            let e = (u32::MAX + 1 - acc) as nat;
            if e <= 1 {
                vstd::arithmetic::power2::lemma2_to64();
                if e == 1 {
                    assert(pow2(1) == 2);
                } else {
                    assert(pow2(0) == 1);
                }
            }
            lemma_pow2_unfold(e);
        }
        let r = ilog2_acc(x >> 1, acc + 1);
        proof {
            let k = r - acc - 1;
            lemma_pow2_unfold((k + 1) as nat);
            lemma_pow2_unfold((k + 2) as nat);
            assert(x < pow2((k + 2) as nat)) by {
                assert(x / 2 + 1 <= pow2((k + 1) as nat));
            }
        }
        r
    }
}

/// The binary logarithm of `x`, rounded down. Panics on zero, so zero is
/// excluded.
pub fn ilog2(x: usize) -> (r: u32)
    requires
        x != 0,
    ensures
        is_ilog2(x as int, r as int),
        r < usize::BITS,
{
    proof {
        assert(usize::BITS == 32 || usize::BITS == 64);
        vstd::arithmetic::power2::lemma2_to64();
        vstd::arithmetic::power2::lemma2_to64_rest();
        lemma_pow2_strictly_increases(64, (u32::MAX + 1) as nat);
    }
    let r = ilog2_acc(x, 0);
    proof {
        if r >= usize::BITS {
            if r > usize::BITS {
                lemma_pow2_strictly_increases(usize::BITS as nat, r as nat);
            }
        }
    }
    r
}

/// The smallest power of two that is at least `x` (and `1` for zero).
pub fn ceil2(x: usize) -> (r: usize)
    requires
        x <= usize::MAX / 2,
    ensures
        exists|k: nat| r == pow2(k),
        r >= x,
        r >= 1,
        x >= 1 ==> r < 2 * x,
        x == 0 ==> r == 1,
{
    if x == 0 {
        proof {
            vstd::arithmetic::power2::lemma2_to64();
        }
        1
    } else {
        let k = ilog2(2 * x - 1);
        proof {
            lemma_usize_pow2_no_overflow(k as nat);
            lemma_usize_shl_is_mul(1, k as usize);
        }
        let r = 1usize << (k as usize);
        proof {
            lemma_pow2_pos(k as nat);
            if k > 0 {
                lemma_pow2_unfold(k as nat);
            }
            lemma_pow2_unfold((k + 1) as nat);
        }
        r
    }
}

/// The first `k` items of `s` equal the `k` items that start at `i`.
pub open spec fn common_prefix<T>(s: Seq<T>, i: int, k: int) -> bool {
    &&& 0 <= i
    &&& 0 <= k
    &&& i + k <= s.len()
    &&& forall|j: int| 0 <= j < k ==> #[trigger] s[j] == s[i + j]
}

/// `k` is the length of the longest common prefix of `s` and of its suffix
/// that starts at `i`: the Z-function of `s` at `i`.
pub open spec fn is_z_value<T>(s: Seq<T>, i: int, k: int) -> bool {
    &&& common_prefix(s, i, k)
    &&& (i + k == s.len() || s[k] != s[i + k])
}

/// `z` is the Z-function of `s`.
pub open spec fn is_z_function<T>(s: Seq<T>, z: Seq<usize>) -> bool {
    &&& z.len() == s.len()
    &&& forall|i: int| 0 <= i < s.len() ==> is_z_value(s, i, #[trigger] z[i] as int)
}

/// The Z-function has one value at each position.
pub proof fn lemma_z_value_unique<T>(s: Seq<T>, i: int, k1: int, k2: int)
    requires
        is_z_value(s, i, k1),
        is_z_value(s, i, k2),
    ensures
        k1 == k2,
{
    if k1 < k2 {
        assert(s[k1] == s[i + k1]);
    } else if k2 < k1 {
        assert(s[k2] == s[i + k2]);
    }
}

/// A string has one Z-function: the Z-function read off a prefix function
/// of the string and turned back gives the same sequence.
pub proof fn lemma_z_function_unique<T>(s: Seq<T>, z1: Seq<usize>, z2: Seq<usize>)
    requires
        is_z_function(s, z1),
        is_z_function(s, z2),
    ensures
        z1 == z2,
{
    assert forall|i: int| 0 <= i < z1.len() implies z1[i] == z2[i] by {
        lemma_z_value_unique(s, i, z1[i] as int, z2[i] as int);
    }
    assert(z1 =~= z2);
}

/// Fills `z` with the Z-function of `s`: `z[i]` is the length of the longest
/// common prefix of `s` and `s[i..]`, so that `z[0]` is the length of `s`.
/// The two slices must have the same length.
pub fn calc_zfun_inplace(s: &[char], z: &mut [usize])
    requires
        s@.len() == old(z)@.len(),
    ensures
        is_z_function(s@, final(z)@),
{
    let n = s.len();
    if n == 0 {
        return;
    }
    z[0] = n;
    if n == 1 {
        return;
    }
    let mut l: usize = 1;
    let mut r: usize = 1;
    z[1] = r - l;
    let mut i: usize = 1;
    while i < n
        invariant
                n == s@.len(),
            z@.len() == n,
            1 <= i <= n,
            1 <= l <= r <= n,
            i < r ==> l < i,
            common_prefix(s@, l as int, (r - l) as int),
            z@[0] == n,
            forall|j: int| 1 <= j < i ==> is_z_value(s@, j, #[trigger] z@[j] as int),
        decreases n - i,
    {
        let mut k: usize = 0;
        if i < r {
            let zl = z[i - l];
            k = if zl < r - i { zl } else { r - i };
            assert(common_prefix(s@, i as int, k as int)) by {
                assert forall|j: int| 0 <= j < k implies #[trigger] s@[j] == s@[i + j] by {
                    assert(s@[(i - l) + j] == s@[l + ((i - l) + j)]);
                    assert(s@[j] == s@[(i - l) + j]);
                }
            }
        }
        while i + k < n && s[k] == s[i + k]
            invariant
                        n == s@.len(),
                1 <= i < n,
                common_prefix(s@, i as int, k as int),
            decreases n - i - k,
        {
            k += 1;
        }
        z[i] = k;
        if i + k > r {
            l = i;
            r = i + k;
        }
        i += 1;
    }
}

/// The Z-function of `s`, as a new vector.
pub fn calc_zfun(s: &[char]) -> (z: Vec<usize>)
    requires
    ensures
        is_z_function(s@, z@),
{
    let mut zfun: Vec<usize> = vec![0; s.len()];
    calc_zfun_inplace(s, zfun.as_mut_slice());
    zfun
}

/// The prefix of length `k` of `s` is also a suffix of `s[..=i]`, and it is
/// shorter than `s[..=i]` (a proper border).
pub open spec fn is_border<T>(s: Seq<T>, i: int, k: int) -> bool {
    &&& 0 <= k <= i
    &&& i < s.len()
    &&& forall|j: int| 0 <= j < k ==> #[trigger] s[j] == s[i + 1 - k + j]
}

/// `k` is the length of the longest proper border of `s[..=i]`: the prefix
/// function of `s` at `i`.
pub open spec fn is_p_value<T>(s: Seq<T>, i: int, k: int) -> bool {
    &&& is_border(s, i, k)
    &&& forall|k2: int| k < k2 <= i ==> !#[trigger] is_border(s, i, k2)
}

/// `p` is the prefix function of `s`.
pub open spec fn is_p_function<T>(s: Seq<T>, p: Seq<usize>) -> bool {
    &&& p.len() == s.len()
    &&& forall|i: int| 0 <= i < s.len() ==> is_p_value(s, i, #[trigger] p[i] as int)
}

/// The prefix function has one value at each position.
pub proof fn lemma_p_value_unique<T>(s: Seq<T>, i: int, k1: int, k2: int)
    requires
        is_p_value(s, i, k1),
        is_p_value(s, i, k2),
    ensures
        k1 == k2,
{
}

/// A string has one prefix function.
pub proof fn lemma_p_function_unique<T>(s: Seq<T>, p1: Seq<usize>, p2: Seq<usize>)
    requires
        is_p_function(s, p1),
        is_p_function(s, p2),
    ensures
        p1 == p2,
{
    assert forall|i: int| 0 <= i < p1.len() implies p1[i] == p2[i] by {
        lemma_p_value_unique(s, i, p1[i] as int, p2[i] as int);
    }
    assert(p1 =~= p2);
}

/// A shorter border of `s[..=i]` is exactly a border of its border.
pub proof fn lemma_border_of_border<T>(s: Seq<T>, i: int, k: int, k2: int)
    requires
        is_border(s, i, k),
        0 <= k2 < k,
    ensures
        is_border(s, i, k2) <==> is_border(s, k - 1, k2),
{
    if is_border(s, i, k2) {
        assert forall|j: int| 0 <= j < k2 implies #[trigger] s[j] == s[k - 1 + 1 - k2 + j] by {
            assert(s[k - k2 + j] == s[i + 1 - k + (k - k2 + j)]);
            assert(s[j] == s[i + 1 - k2 + j]);
        }
    }
    if is_border(s, k - 1, k2) {
        assert forall|j: int| 0 <= j < k2 implies #[trigger] s[j] == s[i + 1 - k2 + j] by {
            assert(s[k - k2 + j] == s[i + 1 - k + (k - k2 + j)]);
            assert(s[j] == s[k - 1 + 1 - k2 + j]);
        }
    }
}

/// A border of `s[..=i]` of positive length is a border of `s[..i]` followed
/// by one more matching item.
proof fn lemma_border_extend<T>(s: Seq<T>, i: int, k: int)
    requires
        1 <= i < s.len(),
        0 <= k < i,
    ensures
        is_border(s, i, k + 1) <==> (is_border(s, i - 1, k) && s[k] == s[i]),
{
    if is_border(s, i, k + 1) {
        assert(s[k] == s[i + 1 - (k + 1) + k]);
        assert forall|j: int| 0 <= j < k implies #[trigger] s[j] == s[i - 1 + 1 - k + j] by {
            assert(s[j] == s[i + 1 - (k + 1) + j]);
        }
    }
    if is_border(s, i - 1, k) && s[k] == s[i] {
        assert forall|j: int| 0 <= j < k + 1 implies #[trigger] s[j] == s[i + 1 - (k + 1) + j] by {
            if j < k {
                assert(s[j] == s[i - 1 + 1 - k + j]);
            }
        }
    }
}

/// Fills `p` with the prefix function of `s`: `p[i]` is the length of the
/// longest proper prefix of `s[..=i]` that is also its suffix. The two slices
/// must have the same length.
pub fn calc_pfun_inplace(s: &[char], p: &mut [usize])
    requires
        s@.len() == old(p)@.len(),
    ensures
        is_p_function(s@, final(p)@),
{
    let n = s.len();
    if n == 0 {
        return;
    }
    p[0] = 0;
    let mut i: usize = 1;
    while i < n
        invariant
                n == s@.len(),
            p@.len() == n,
            1 <= i <= n,
            forall|j: int| 0 <= j < i ==> is_p_value(s@, j, #[trigger] p@[j] as int),
        decreases n - i,
    {
        let mut k = p[i - 1];
        assert(p@[i - 1] <= i - 1);
        while k != 0 && s[i] != s[k]
            invariant
                        n == s@.len(),
                p@.len() == n,
                1 <= i < n,
                forall|j: int| 0 <= j < i ==> is_p_value(s@, j, #[trigger] p@[j] as int),
                is_border(s@, i - 1, k as int),
                forall|k2: int|
                    k < k2 <= i - 1 && #[trigger] is_border(s@, i - 1, k2) ==> s@[k2] != s@[i as int],
            decreases k,
        {
            let k_next = p[k - 1];
            proof {
                assert(is_p_value(s@, k - 1, k_next as int));
                lemma_border_of_border(s@, i - 1, k as int, k_next as int);
                assert forall|k2: int|
                    k_next < k2 <= i - 1 && #[trigger] is_border(s@, i - 1, k2) implies s@[k2] != s@[i as int] by {
                    if k2 < k {
                        lemma_border_of_border(s@, i - 1, k as int, k2);
                    }
                }
            }
            k = k_next;
        }
        if s[i] == s[k] {
            k += 1;
        }
        proof {
            if k > 0 {
                lemma_border_extend(s@, i as int, (k - 1) as int);
            }
            assert forall|k2: int| k < k2 <= i implies !#[trigger] is_border(s@, i as int, k2) by {
                lemma_border_extend(s@, i as int, k2 - 1);
            }
            if k == 0 {
                assert(is_border(s@, i as int, 0));
            }
        }
        p[i] = k;
        i += 1;
    }
}

/// The prefix function of `s`, as a new vector.
pub fn calc_pfun(s: &[char]) -> (p: Vec<usize>)
    requires
    ensures
        is_p_function(s@, p@),
{
    let mut pfun: Vec<usize> = vec![0; s.len()];
    calc_pfun_inplace(s, pfun.as_mut_slice());
    pfun
}

/// The characters of `input`, in order.
pub fn chars_of(input: &str) -> (v: Vec<char>)
    ensures
        v@ == input@,
{
    broadcast use vstd::string::axiom_spec_iter;
    let mut v: Vec<char> = Vec::new();
    for c in it: input.chars()
        invariant
            v@ == it.seq().take(it.index() as int),
            it.seq() == input@,
    {
        v.push(c);
    }
    v
}

} // verus!
