use vstd::prelude::*;

verus! {

/// The `k` items before position `i` mirror the `k` items from `i` on: an even
/// palindrome of half-length `k` centred just before `i`.
pub open spec fn mirrored(c: Seq<usize>, i: int, k: int) -> bool {
    &&& 0 <= k <= i
    &&& i + k <= c.len()
    &&& forall|t: int| 0 <= t < k ==> #[trigger] c[i + t] == c[i - t - 1]
}

/// `k` is the largest half-length of an even palindrome centred just before
/// `i` (at most `i`, and within the sequence).
pub open spec fn max_mirrored(c: Seq<usize>, i: int, k: int) -> bool {
    &&& mirrored(c, i, k)
    &&& (k == i || i + k == c.len() || c[i + k] != c[i - k - 1])
}

/// For each `i` below `m`, in order, whose first `2 * i` items form a
/// palindrome: the length minus `i`.
pub open spec fn mirror_lengths(c: Seq<usize>, m: int) -> Seq<usize>
    decreases m,
{
    if m <= 0 {
        Seq::empty()
    } else if mirrored(c, m - 1, m - 1) {
        mirror_lengths(c, m - 1).push((c.len() - (m - 1)) as usize)
    } else {
        mirror_lengths(c, m - 1)
    }
}

/// Inside an even palindrome centred before `ce` that reaches `r`, each item
/// equals its mirror image.
proof fn lemma_mirror(c: Seq<usize>, ce: int, r: int, x: int)
    requires
        mirrored(c, ce, r - ce),
        2 * ce - r <= x < r,
    ensures
        c[x] == c[2 * ce - 1 - x],
{
    if x >= ce {
        assert(c[ce + (x - ce)] == c[ce - (x - ce) - 1]);
    } else {
        assert(c[ce + (ce - 1 - x)] == c[ce - (ce - 1 - x) - 1]);
    }
}

/// The lengths the row of cubes may have had before its mirror image was
/// appended to its end: `n - i` for each `i` such that the first `2 * i`
/// cubes form a palindrome, in increasing order of `i`.
pub fn solve(_m: usize, cubes: &[usize]) -> (answer: Vec<usize>)
    ensures
        answer@ == mirror_lengths(cubes@, cubes@.len() as int),
{
    let n = cubes.len();
    let mut max_paly: Vec<usize> = vec![0; n];
    let mut c: usize = 0;
    let mut r: usize = 0;
    let mut i: usize = 0;
    while i < n
        invariant
            n == cubes@.len(),
            max_paly@.len() == n,
            i <= n,
            i > 0 ==> c < i,
            i == 0 ==> r == 0,
            c <= r <= n,
            mirrored(cubes@, c as int, (r - c) as int),
            forall|i2: int| 0 <= i2 < i ==> max_mirrored(cubes@, i2, #[trigger] max_paly@[i2] as int),
        decreases n - i,
    {
        let mut k: usize = 0;
        if i < r {
            let j = c - (i - c);
            let mj = max_paly[j];
            k = if mj < r - i { mj } else { r - i };
            proof {
                assert(max_mirrored(cubes@, j as int, mj as int));
                assert forall|t: int| 0 <= t < k implies #[trigger] cubes@[i + t] == cubes@[i - t - 1] by {
                    lemma_mirror(cubes@, c as int, r as int, i + t);
                    lemma_mirror(cubes@, c as int, r as int, i - t - 1);
                    assert(cubes@[j + t] == cubes@[j - t - 1]);
                }
            }
        }
        let mut jj: usize = k;
        while jj < i && i + jj < n && cubes[i + jj] == cubes[i - jj - 1]
            invariant
                n == cubes@.len(),
                i < n,
                jj == k,
                mirrored(cubes@, i as int, k as int),
            decreases i - jj,
        {
            k += 1;
            jj += 1;
        }
        if i + k > r {
            c = i;
            r = i + k;
        }
        max_paly.set(i, k);
        i += 1;
    }
    let mut answer: Vec<usize> = Vec::new();
    let mut i: usize = 0;
    while i < n
        invariant
            n == cubes@.len(),
            max_paly@.len() == n,
            i <= n,
            forall|i2: int| 0 <= i2 < n ==> max_mirrored(cubes@, i2, #[trigger] max_paly@[i2] as int),
            answer@ == mirror_lengths(cubes@, i as int),
        decreases n - i,
    {
        proof {
            let k = max_paly@[i as int] as int;
            assert(max_mirrored(cubes@, i as int, k));
            if mirrored(cubes@, i as int, i as int) && k < i {
                assert(cubes@[i + k] == cubes@[i - k - 1]);
            }
        }
        if max_paly[i] == i {
            answer.push(n - i);
        }
        i += 1;
    }
    answer
}

} // verus!
