use vstd::prelude::*;
use crate::strings::{calc_pfun, calc_zfun, chars_of, is_border, is_p_function, is_p_value, is_z_function, is_z_value};

verus! {

/// The first `c` characters of `s` occur again from position `j` on.
pub open spec fn occurs(s: Seq<char>, j: int, c: int) -> bool {
    &&& 0 <= j
    &&& j + c <= s.len()
    &&& forall|t: int| 0 <= t < c ==> #[trigger] s[j + t] == s[t]
}

/// Position `i` lies in an occurrence of the first `c` characters that ends
/// by position `k`.
pub open spec fn stamped(s: Seq<char>, k: int, c: int, i: int) -> bool {
    exists|j: int| 0 <= j <= i < j + c && j + c <= k + 1 && #[trigger] occurs(s, j, c)
}

/// Stamping the first `c` characters of `s` again and again, each stamp
/// possibly over the earlier ones, can write `s[..=k]`.
pub open spec fn stamp_ok(s: Seq<char>, k: int, c: int) -> bool {
    &&& 1 <= c <= k + 1
    &&& forall|i: int| 0 <= i <= k ==> #[trigger] stamped(s, k, c, i)
}

/// Position `i` lies in an occurrence of the first `c` characters that the
/// Z-function `z` shows.
spec fn z_covered(z: Seq<usize>, c: int, i: int) -> bool {
    exists|j: int| 0 <= j <= i < j + c && #[trigger] z[j] >= c
}

/// A Z-value of at least `c` is an occurrence of the first `c` characters.
proof fn lemma_z_occurs(s: Seq<char>, z: Seq<usize>, j: int, c: int)
    requires
        is_z_function(s, z),
        0 <= j < s.len(),
        0 <= c,
    ensures
        z[j] >= c <==> occurs(s, j, c),
{
    assert(is_z_value(s, j, z[j] as int));
    if z[j] >= c {
        assert forall|t: int| 0 <= t < c implies #[trigger] s[j + t] == s[t] by {
            assert(s[t] == s[j + t]);
        }
    }
    if occurs(s, j, c) && z[j] < c {
        let zz = z[j] as int;
        assert(s[j + zz] == s[zz]);
    }
}

/// Whether the occurrences of the first `cand` characters that the
/// Z-function shows, among those from positions up to `k`, cover every
/// position up to `k`.
fn covers(zfun: &Vec<usize>, k: usize, cand: usize) -> (passes: bool)
    requires
        k < zfun@.len(),
        1 <= cand,
        k + cand < usize::MAX,
    ensures
        passes == forall|i: int| 0 <= i <= k ==> #[trigger] z_covered(zfun@, cand as int, i),
{
    let mut r: usize = 0;
    let ghost mut rj: int = 0;
    let mut i: usize = 0;
    while i <= k
        invariant
            i <= k + 1,
            k < zfun@.len(),
            1 <= cand,
            k + cand < usize::MAX,
            r > 0 ==> rj < i && r == rj + cand && zfun@[rj] >= cand && 0 <= rj,
            r <= i + cand,
            forall|j: int| 0 <= j < i && #[trigger] zfun@[j] >= cand ==> j + cand <= r,
            forall|i2: int| 0 <= i2 < i ==> #[trigger] z_covered(zfun@, cand as int, i2),
        decreases k + 1 - i,
    {
        if zfun[i] >= cand {
            r = i + cand;
            proof {
                rj = i as int;
            }
        }
        if i >= r {
            proof {
                if z_covered(zfun@, cand as int, i as int) {
                    let j = choose|j: int| 0 <= j <= i < j + cand && #[trigger] zfun@[j] >= cand;
                    if j < i {
                        assert(j + cand <= r);
                    }
                }
                assert(!z_covered(zfun@, cand as int, i as int));
            }
            return false;
        }
        proof {
            assert(rj <= i < rj + cand && zfun@[rj] >= cand);
            assert(z_covered(zfun@, cand as int, i as int));
        }
        i += 1;
    }
    true
}

/// For each prefix of `input`, the length of the shortest prefix that,
/// stamped again and again (each stamp possibly over the earlier ones),
/// writes it. A stamp shorter than the prefix must be one of its borders,
/// so only the borders are tried, shortest first.
pub fn solve(input: &str) -> (answer: Vec<usize>)
    requires
        input@.len() >= 1,
        2 * input@.len() < usize::MAX,
    ensures
        answer@.len() == input@.len(),
        forall|k: int|
            0 <= k < input@.len() ==> {
                &&& stamp_ok(input@, k, #[trigger] answer@[k] as int)
                &&& forall|c: int| 1 <= c < answer@[k] ==> !stamp_ok(input@, k, c)
            },
{
    let s = chars_of(input);
    let n = s.len();
    let zfun = calc_zfun(s.as_slice());
    let pfun = calc_pfun(s.as_slice());
    let mut min_nocheck: usize = 1;
    let mut max_nocheck: usize = 0;
    let mut answer: Vec<usize> = vec![0; n];
    answer.set(0, 1);
    proof {
        lemma_whole_stamp(s@, 0);
    }
    let mut k: usize = 1;
    while k < n
        invariant
            1 <= k <= n,
            n == s@.len(),
            s@ == input@,
            2 * n < usize::MAX,
            is_z_function(s@, zfun@),
            is_p_function(s@, pfun@),
            answer@.len() == n,
            min_nocheck > max_nocheck,
            forall|k2: int|
                0 <= k2 < k ==> {
                    &&& stamp_ok(s@, k2, #[trigger] answer@[k2] as int)
                    &&& forall|c: int| 1 <= c < answer@[k2] ==> !stamp_ok(s@, k2, c)
                },
            forall|k2: int| k <= k2 < n ==> #[trigger] answer@[k2] == 0,
        decreases n - k,
    {
        let ghost before = answer@;
        let mut cand = min_nocheck;
        while cand <= max_nocheck
            invariant
                min_nocheck > max_nocheck,
                cand == min_nocheck,
                answer@ == before,
            decreases max_nocheck - cand,
        {
            if cand > pfun[k] {
                break;
            }
            answer.set(k, cand);
            break;
        }
        proof {
            assert(is_p_value(s@, k as int, pfun@[k as int] as int));
        }
        let pk = pfun[k];
        let mut cand: usize = 1;
        let mut found = false;
        while cand <= pk && !found
            invariant
                1 <= k < n,
                n == s@.len(),
                2 * n < usize::MAX,
                is_z_function(s@, zfun@),
                is_p_value(s@, k as int, pk as int),
                pk <= k,
                1 <= cand <= pk + 1,
                answer@.len() == n,
                min_nocheck > max_nocheck,
                forall|k2: int|
                    0 <= k2 < k ==> {
                        &&& stamp_ok(s@, k2, #[trigger] answer@[k2] as int)
                        &&& forall|c: int| 1 <= c < answer@[k2] ==> !stamp_ok(s@, k2, c)
                    },
                forall|k2: int| k < k2 < n ==> #[trigger] answer@[k2] == 0,
                !found ==> answer@[k as int] == 0,
                !found ==> forall|c: int| 1 <= c < cand ==> !stamp_ok(s@, k as int, c),
                found ==> stamp_ok(s@, k as int, answer@[k as int] as int),
                found ==> forall|c: int| 1 <= c < answer@[k as int] ==> !stamp_ok(s@, k as int, c),
            decreases pk + 1 - cand, (if found { 0int } else { 1int }),
        {
            proof {
                lemma_z_occurs(s@, zfun@, k + 1 - cand, cand as int);
            }
            if zfun[k + 1 - cand] < cand {
                proof {
                    lemma_last_stamp(s@, k as int, cand as int);
                }
                cand += 1;
            } else if min_nocheck <= cand && cand <= max_nocheck {
                cand += 1;
            } else {
                let min_nocheck_new = usize::MAX;
                let max_nocheck_new = cand;
                let cand_passes = covers(&zfun, k, cand);
                proof {
                    lemma_covers_stamp(s@, zfun@, k as int, cand as int);
                }
                if cand_passes {
                    answer.set(k, cand);
                    min_nocheck = min_nocheck_new;
                    max_nocheck = max_nocheck_new;
                    found = true;
                } else {
                    cand += 1;
                }
            }
        }
        if answer[k] == 0 {
            proof {
                assert forall|c: int| 1 <= c < k + 1 implies !stamp_ok(s@, k as int, c) by {
                    if c > pk && stamp_ok(s@, k as int, c) {
                        lemma_stamp_border(s@, k as int, c);
                    }
                }
                lemma_whole_stamp(s@, k as int);
            }
            answer.set(k, k + 1);
        }
        k += 1;
    }
    answer
}

/// The whole prefix is a stamp for itself.
proof fn lemma_whole_stamp(s: Seq<char>, k: int)
    requires
        0 <= k < s.len(),
    ensures
        stamp_ok(s, k, k + 1),
{
    assert(occurs(s, 0, k + 1));
    assert forall|i: int| 0 <= i <= k implies #[trigger] stamped(s, k, k + 1, i) by {
        assert(occurs(s, 0, k + 1));
    }
}

/// A stamp must also end the prefix: the last position is covered only by
/// an occurrence ending there.
proof fn lemma_last_stamp(s: Seq<char>, k: int, c: int)
    requires
        0 <= k < s.len(),
        1 <= c <= k + 1,
        !occurs(s, k + 1 - c, c),
    ensures
        !stamp_ok(s, k, c),
{
    if stamp_ok(s, k, c) {
        assert(stamped(s, k, c, k));
        let j = choose|j: int| 0 <= j <= k < j + c && j + c <= k + 1 && #[trigger] occurs(s, j, c);
        assert(j == k + 1 - c);
    }
}

/// A stamp shorter than the prefix is a border of it.
proof fn lemma_stamp_border(s: Seq<char>, k: int, c: int)
    requires
        0 <= k < s.len(),
        1 <= c <= k,
        stamp_ok(s, k, c),
    ensures
        is_border(s, k, c),
{
    assert(stamped(s, k, c, k));
    let j = choose|j: int| 0 <= j <= k < j + c && j + c <= k + 1 && #[trigger] occurs(s, j, c);
    assert(j == k + 1 - c);
    assert forall|t: int| 0 <= t < c implies #[trigger] s[t] == s[k + 1 - c + t] by {
        assert(s[j + t] == s[t]);
    }
}

/// When the first `c` characters end the prefix, the Z-function shows a
/// covering exactly when stamping them writes the prefix.
proof fn lemma_covers_stamp(s: Seq<char>, z: Seq<usize>, k: int, c: int)
    requires
        is_z_function(s, z),
        0 <= k < s.len(),
        1 <= c <= k + 1,
        z[k + 1 - c] >= c,
    ensures
        (forall|i: int| 0 <= i <= k ==> #[trigger] z_covered(z, c, i)) == stamp_ok(s, k, c),
{
    lemma_z_occurs(s, z, k + 1 - c, c);
    if forall|i: int| 0 <= i <= k ==> #[trigger] z_covered(z, c, i) {
        assert forall|i: int| 0 <= i <= k implies #[trigger] stamped(s, k, c, i) by {
            assert(z_covered(z, c, i));
            let j = choose|j: int| 0 <= j <= i < j + c && #[trigger] z[j] >= c;
            if j + c <= k + 1 {
                lemma_z_occurs(s, z, j, c);
            } else {
                assert(occurs(s, k + 1 - c, c));
            }
        }
    }
    if stamp_ok(s, k, c) {
        assert forall|i: int| 0 <= i <= k implies #[trigger] z_covered(z, c, i) by {
            assert(stamped(s, k, c, i));
            let j = choose|j: int| 0 <= j <= i < j + c && j + c <= k + 1 && #[trigger] occurs(s, j, c);
            lemma_z_occurs(s, z, j, c);
        }
    }
}

} // verus!
