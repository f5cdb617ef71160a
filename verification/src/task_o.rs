use vstd::prelude::*;
use crate::strings::{calc_pfun, chars_of, is_border, is_p_function, is_p_value, lemma_p_value_unique};

verus! {

/// A command that writes the text: a character, or a copy of `p`
/// characters starting at position `j` (from one) of the text written so
/// far, the copy allowed to run into the characters it writes itself.
#[derive(Debug, Clone, Copy, PartialEq, Eq, Structural)]
pub enum SeqElem {
    Char(char),
    Repeat(usize, usize),
}

/// What a command costs: one for a character, five for a copy.
pub open spec fn elem_cost(e: SeqElem) -> int {
    match e {
        SeqElem::Char(_) => 1,
        SeqElem::Repeat(_, _) => 5,
    }
}

impl SeqElem {
    /// What the command costs.
    pub fn cost(self) -> (c: u64)
        ensures
            c == elem_cost(self),
    {
        match self {
            SeqElem::Char(_) => 1,
            SeqElem::Repeat(_, _) => 5,
        }
    }
}

/// The total cost of the commands.
pub open spec fn total_cost(prog: Seq<SeqElem>) -> int
    decreases prog.len(),
{
    if prog.len() == 0 {
        0
    } else {
        total_cost(prog.drop_last()) + elem_cost(prog.last())
    }
}

/// `out` followed by `p` characters copied one at a time from position
/// `src` on.
pub open spec fn copy_out(out: Seq<char>, src: int, p: nat) -> Seq<char>
    decreases p,
{
    if p == 0 {
        out
    } else {
        let o = copy_out(out, src, (p - 1) as nat);
        o.push(o[src + p - 1])
    }
}

/// The text that the commands write.
pub open spec fn run(prog: Seq<SeqElem>) -> Seq<char>
    decreases prog.len(),
{
    if prog.len() == 0 {
        Seq::empty()
    } else {
        let out = run(prog.drop_last());
        match prog.last() {
            SeqElem::Char(c) => out.push(c),
            SeqElem::Repeat(j, p) => copy_out(out, j - 1, p as nat),
        }
    }
}

/// Every copy starts at a position already written and copies something.
pub open spec fn valid_prog(prog: Seq<SeqElem>) -> bool
    decreases prog.len(),
{
    if prog.len() == 0 {
        true
    } else {
        &&& valid_prog(prog.drop_last())
        &&& match prog.last() {
            SeqElem::Char(_) => true,
            SeqElem::Repeat(j, p) => 1 <= j && j - 1 < run(prog.drop_last()).len() && p >= 1,
        }
    }
}

/// The commands that the table of best choices gives for the first `k + 1`
/// characters, found by following the choices back.
pub open spec fn backtrack(best: Seq<(u64, SeqElem)>, k: int) -> Seq<SeqElem>
    decreases k + 1,
{
    if k < 0 || k >= best.len() {
        Seq::empty()
    } else {
        match best[k].1 {
            SeqElem::Char(_) => backtrack(best, k - 1).push(best[k].1),
            SeqElem::Repeat(_, p) => if 1 <= p <= k {
                backtrack(best, k - p).push(best[k].1)
            } else {
                Seq::empty()
            },
        }
    }
}

/// The choices for the first `upto` positions each give commands that write
/// the text up to that position, at the recorded cost, at most one per
/// character.
pub open spec fn table_ok(best: Seq<(u64, SeqElem)>, s: Seq<char>, upto: int) -> bool {
    forall|k: int|
        0 <= k < upto ==> {
            let prog = #[trigger] backtrack(best, k);
            &&& valid_prog(prog)
            &&& run(prog) == s.subrange(0, k + 1)
            &&& total_cost(prog) == best[k].0
            &&& best[k].0 <= k + 1
            &&& match best[k].1 {
                SeqElem::Char(_) => true,
                SeqElem::Repeat(_, p) => 1 <= p <= k,
            }
        }
}

/// Adding choices at the end keeps the commands of the earlier ones.
proof fn lemma_backtrack_push(best: Seq<(u64, SeqElem)>, x: (u64, SeqElem), k: int)
    requires
        k < best.len(),
    ensures
        backtrack(best.push(x), k) == backtrack(best, k),
    decreases k + 1,
{
    if k >= 0 {
        assert(best.push(x)[k] == best[k]);
        match best[k].1 {
            SeqElem::Char(_) => lemma_backtrack_push(best, x, k - 1),
            SeqElem::Repeat(_, p) => if 1 <= p <= k {
                lemma_backtrack_push(best, x, k - p);
            },
        }
    }
}

/// Copying `q` characters from `j`, which repeat the characters `q` places
/// before the end, writes the text on.
proof fn lemma_copy_out(s: Seq<char>, start: int, j: int, q: nat)
    requires
        0 <= j < start,
        start + q <= s.len(),
        forall|t: int| 0 <= t < q ==> #[trigger] s[start + t] == s[j + t],
    ensures
        copy_out(s.subrange(0, start), j, q) == s.subrange(0, start + q),
    decreases q,
{
    if q > 0 {
        lemma_copy_out(s, start, j, (q - 1) as nat);
        let o = copy_out(s.subrange(0, start), j, (q - 1) as nat);
        assert(o[j + q - 1] == s[j + q - 1]);
        assert(s[start + (q - 1)] == s[j + (q - 1)]);
        assert(o.push(o[j + q - 1]) =~= s.subrange(0, start + q));
    }
}

/// Copying writes the text so far, then `p` more characters, each equal to
/// the one `out.len() - src` places before it.
proof fn lemma_copy_out_shape(out: Seq<char>, src: int, p: nat)
    requires
        0 <= src < out.len(),
    ensures
        copy_out(out, src, p).len() == out.len() + p,
        copy_out(out, src, p).subrange(0, out.len() as int) == out,
        forall|t: int| 0 <= t < p ==> #[trigger] copy_out(out, src, p)[out.len() + t] == copy_out(out, src, p)[src + t],
    decreases p,
{
    if p > 0 {
        lemma_copy_out_shape(out, src, (p - 1) as nat);
        let o = copy_out(out, src, (p - 1) as nat);
        let r = copy_out(out, src, p);
        assert(r == o.push(o[src + p - 1]));
        assert(r.subrange(0, out.len() as int) =~= o.subrange(0, out.len() as int));
        assert forall|t: int| 0 <= t < p implies #[trigger] r[out.len() + t] == r[src + t] by {
            if t < p - 1 {
                assert(o[out.len() + t] == o[src + t]);
            }
        }
    }
}

/// No list of commands costs less than nothing.
proof fn lemma_cost_nonneg(prog: Seq<SeqElem>)
    ensures
        total_cost(prog) >= 0,
    decreases prog.len(),
{
    if prog.len() > 0 {
        lemma_cost_nonneg(prog.drop_last());
    }
}

/// Commands that write one character less, at no higher cost: the last
/// character is dropped, or the last copy made one shorter.
proof fn lemma_truncate_one(prog: Seq<SeqElem>) -> (r: Seq<SeqElem>)
    requires
        valid_prog(prog),
        run(prog).len() >= 1,
    ensures
        valid_prog(r),
        run(r) == run(prog).drop_last(),
        total_cost(r) <= total_cost(prog),
{
    if prog.len() == 0 {
        assert(run(prog) == Seq::<char>::empty());
        prog
    } else {
        let rest = prog.drop_last();
        let out = run(rest);
        lemma_cost_nonneg(rest);
        match prog.last() {
            SeqElem::Char(c) => {
                assert(run(prog) == out.push(c));
                assert(run(prog).drop_last() =~= out);
                rest
            },
            SeqElem::Repeat(j, p) => {
                assert(run(prog) == copy_out(out, j - 1, p as nat));
                if p == 1 {
                    assert(copy_out(out, j - 1, 0) == out);
                    assert(run(prog).drop_last() =~= out);
                    rest
                } else {
                    let cmd = SeqElem::Repeat(j, (p - 1) as usize);
                    let r = rest.push(cmd);
                    assert(r.drop_last() =~= rest);
                    assert(r.last() == cmd);
                    assert(run(r) == copy_out(out, j - 1, (p - 1) as nat));
                    assert(run(prog).drop_last() =~= run(r));
                    r
                }
            },
        }
    }
}

/// Commands that write the first `a` characters of what `prog` writes, at
/// no higher cost.
proof fn lemma_truncate(prog: Seq<SeqElem>, a: int) -> (r: Seq<SeqElem>)
    requires
        valid_prog(prog),
        0 <= a <= run(prog).len(),
    ensures
        valid_prog(r),
        run(r) == run(prog).subrange(0, a),
        total_cost(r) <= total_cost(prog),
    decreases run(prog).len() - a,
{
    if a == run(prog).len() {
        assert(run(prog).subrange(0, a) =~= run(prog));
        prog
    } else {
        let q = lemma_truncate_one(prog);
        let r = lemma_truncate(q, a);
        assert(run(prog).drop_last().subrange(0, a) =~= run(prog).subrange(0, a));
        r
    }
}

/// The table of best choices keeps to the cheaper of the character and each
/// copy of the longest border, at each position from one up to `upto`.
pub open spec fn table_min(best: Seq<(u64, SeqElem)>, s: Seq<char>, upto: int) -> bool {
    forall|k: int|
        1 <= k < upto ==> {
            &&& #[trigger] best[k].0 <= best[k - 1].0 + 1
            &&& forall|j: int, p: int|
                0 <= j < k && 1 <= p && #[trigger] is_p_value(s.subrange(j, s.len() as int), k - j, p) ==> best[k].0
                    <= best[k - p].0 + 5
        }
}

/// No valid list of commands that writes the first `len` characters of `s`
/// costs less than the table's choice for them.
proof fn lemma_cost_lower(
    s: Seq<char>,
    best: Seq<(u64, SeqElem)>,
    pfuns: Seq<Vec<usize>>,
    prog: Seq<SeqElem>,
    len: int,
)
    requires
        best.len() == s.len(),
        pfuns.len() == s.len(),
        forall|j: int| 0 <= j < s.len() ==> is_p_function(s.subrange(j, s.len() as int), #[trigger] pfuns[j]@),
        table_min(best, s, s.len() as int),
        best[0].0 == 1,
        1 <= len <= s.len(),
        valid_prog(prog),
        run(prog) == s.subrange(0, len),
    ensures
        best[len - 1].0 <= total_cost(prog),
    decreases len,
{
    let n = s.len() as int;
    if prog.len() == 0 {
        assert(run(prog).len() == 0);
    } else {
        let rest = prog.drop_last();
        let out = run(rest);
        lemma_cost_nonneg(rest);
        match prog.last() {
            SeqElem::Char(c) => {
                assert(run(prog) == out.push(c));
                assert(out =~= s.subrange(0, len - 1));
                if len >= 2 {
                    lemma_cost_lower(s, best, pfuns, rest, len - 1);
                    assert(best[len - 1].0 <= best[len - 2].0 + 1);
                }
            },
            SeqElem::Repeat(j, p) => {
                let src = j - 1;
                let w = run(prog);
                assert(w == copy_out(out, src, p as nat));
                lemma_copy_out_shape(out, src, p as nat);
                let start = len - p;
                assert(out.len() == start);
                assert(out =~= s.subrange(0, start));
                assert(1 <= start);
                let k = len - 1;
                let sub = s.subrange(src, n);
                assert(is_p_function(sub, pfuns[src]@));
                let big = pfuns[src]@[k - src] as int;
                assert(is_p_value(sub, k - src, big));
                assert(is_border(sub, k - src, p as int)) by {
                    assert forall|t: int| 0 <= t < p implies #[trigger] sub[t] == sub[k - src + 1 - p + t] by {
                        assert(w[start + t] == w[src + t]);
                        assert(w[start + t] == s[start + t]);
                        assert(w[src + t] == s[src + t]);
                    }
                }
                assert(p <= big);
                let shorter = lemma_truncate(rest, len - big);
                assert(s.subrange(0, start).subrange(0, len - big) =~= s.subrange(0, len - big));
                lemma_cost_lower(s, best, pfuns, shorter, len - big);
                assert(best[k].0 <= best[k - big].0 + 5);
            },
        }
    }
}

/// The command that writes `c`.
fn char_elem(c: char) -> (e: SeqElem)
    ensures
        e == SeqElem::Char(c),
{
    SeqElem::Char(c)
}

/// The characters of `s` from `from` on.
fn suffix(s: &Vec<char>, from: usize) -> (r: Vec<char>)
    requires
        from <= s@.len(),
    ensures
        r@ == s@.subrange(from as int, s@.len() as int),
{
    let mut r: Vec<char> = Vec::new();
    let mut j: usize = from;
    while j < s.len()
        invariant
            from <= j <= s@.len(),
            r@ == s@.subrange(from as int, j as int),
        decreases s@.len() - j,
    {
        proof {
            assert(s@.subrange(from as int, j + 1) == s@.subrange(from as int, j as int).push(s@[j as int]));
        }
        r.push(s[j]);
        j += 1;
    }
    r
}

/// The commands in the opposite order.
fn reversed_cmds(v: &Vec<SeqElem>) -> (r: Vec<SeqElem>)
    ensures
        r@ == v@.reverse(),
{
    let mut r: Vec<SeqElem> = Vec::new();
    let mut k = v.len();
    while k > 0
        invariant
            k <= v@.len(),
            r@.len() == v@.len() - k,
            forall|j: int| 0 <= j < r@.len() ==> r@[j] == v@[v@.len() - 1 - j],
        decreases k,
    {
        k -= 1;
        r.push(v[k]);
    }
    assert(r@ =~= v@.reverse());
    r
}

/// A cheapest list of commands that writes exactly `string`, and its cost.
/// For each position the cheapest last command is chosen: the character
/// itself, or from each earlier position a copy of the longest border of the
/// text from there on. No other valid list that writes `string` costs less.
pub fn solve(string: &str) -> (res: (u64, Vec<SeqElem>))
    requires
        string@.len() >= 1,
        8 * string@.len() < u64::MAX,
    ensures
        valid_prog(res.1@),
        run(res.1@) == string@,
        res.0 == total_cost(res.1@),
        forall|prog: Seq<SeqElem>| valid_prog(prog) && run(prog) == string@ ==> res.0 <= #[trigger] total_cost(prog),
{
    let chars = chars_of(string);
    let n = chars.len();
    let mut pfuns: Vec<Vec<usize>> = Vec::new();
    let mut i: usize = 0;
    while i < n
        invariant
            i <= n,
            n == chars@.len(),
            pfuns@.len() == i,
            forall|j: int| 0 <= j < i ==> is_p_function(chars@.subrange(j, n as int), #[trigger] pfuns@[j]@),
        decreases n - i,
    {
        let sub = suffix(&chars, i);
        let pfun1 = calc_pfun(sub.as_slice());
        pfuns.push(pfun1);
        i += 1;
    }
    let mut best: Vec<(u64, SeqElem)> = Vec::new();
    let first = char_elem(chars[0]);
    best.push((1, first));
    proof {
        let prog = backtrack(best@, 0);
        assert(best@.len() == 1);
        assert(best@[0].1 == SeqElem::Char(chars@[0]));
        assert(backtrack(best@, -1) == Seq::<SeqElem>::empty());
        assert(prog == backtrack(best@, -1).push(best@[0].1));
        assert(prog =~= seq![SeqElem::Char(chars@[0])]);
        assert(prog.drop_last() =~= Seq::<SeqElem>::empty());
        assert(prog.last() == SeqElem::Char(chars@[0]));
        assert(run(prog.drop_last()) == Seq::<char>::empty());
        assert(run(prog) == Seq::<char>::empty().push(chars@[0]));
        assert(run(prog) =~= chars@.subrange(0, 1));
        assert(valid_prog(prog.drop_last()));
        assert(valid_prog(prog));
        assert(total_cost(prog.drop_last()) == 0);
        assert(total_cost(prog) == 1);
    }
    let mut i: usize = 1;
    while i < n
        invariant
            1 <= i <= n,
            n == chars@.len(),
            8 * n < u64::MAX,
            pfuns@.len() == n,
            forall|j: int| 0 <= j < n ==> is_p_function(chars@.subrange(j, n as int), #[trigger] pfuns@[j]@),
            best@.len() == i,
            table_ok(best@, chars@, i as int),
            table_min(best@, chars@, i as int),
            best@[0].0 == 1,
        decreases n - i,
    {
        proof {
            let prev = backtrack(best@, i - 1);
            assert(table_ok(best@, chars@, i as int));
            assert(run(prev) == chars@.subrange(0, i as int));
        }
        let mut best_cmd = char_elem(chars[i]);
        let mut best_cost = best[i - 1].0 + best_cmd.cost();
        proof {
            let prev = backtrack(best@, i - 1);
            let b2 = best@.push((best_cost, best_cmd));
            lemma_backtrack_push(best@, (best_cost, best_cmd), i - 1);
            assert(b2.len() == i + 1);
            assert(b2[i as int] == (best_cost, best_cmd));
            assert(backtrack(b2, i as int) == prev.push(best_cmd));
            assert(prev.push(best_cmd).drop_last() == prev);
            assert(run(prev.push(best_cmd)) =~= chars@.subrange(0, i + 1));
        }
        let mut j: usize = 0;
        while j < i
            invariant
                1 <= i < n,
                j <= i,
                n == chars@.len(),
                8 * n < u64::MAX,
                pfuns@.len() == n,
                forall|j2: int| 0 <= j2 < n ==> is_p_function(chars@.subrange(j2, n as int), #[trigger] pfuns@[j2]@),
                best@.len() == i,
                table_ok(best@, chars@, i as int),
                best_cost <= i + 1,
                best_cost <= best@[i - 1].0 + 1,
                forall|j2: int, q: int|
                    0 <= j2 < j && 1 <= q && #[trigger] is_p_value(chars@.subrange(j2, n as int), i - j2, q) ==> best_cost
                        <= best@[i - q].0 + 5,
                ({
                    let prog = backtrack(best@.push((best_cost, best_cmd)), i as int);
                    &&& valid_prog(prog)
                    &&& run(prog) == chars@.subrange(0, i + 1)
                    &&& total_cost(prog) == best_cost
                    &&& match best_cmd {
                        SeqElem::Char(_) => true,
                        SeqElem::Repeat(_, p) => 1 <= p <= i,
                    }
                }),
            decreases i - j,
        {
            let p = pfuns[j][i - j];
            let ghost before_cost = best_cost;
            proof {
                let sub = chars@.subrange(j as int, n as int);
                assert(is_p_function(sub, pfuns@[j as int]@));
                assert(is_p_value(sub, i - j, p as int));
            }
            if p != 0 {
                proof {
                    let _ = backtrack(best@, i - p);
                }
                let cmd = SeqElem::Repeat(j + 1, p);
                let cost = best[i - p].0 + cmd.cost();
                if best_cost > cost {
                    proof {
                        let sub = chars@.subrange(j as int, n as int);
                        assert(is_border(sub, i - j, p as int));
                        let start = i - p + 1;
                        assert forall|t: int| 0 <= t < p implies #[trigger] chars@[start + t] == chars@[j + t] by {
                            assert(sub[t] == sub[i - j + 1 - p + t]);
                        }
                        lemma_copy_out(chars@, start, j as int, p as nat);
                        let b2 = best@.push((cost, cmd));
                        lemma_backtrack_push(best@, (cost, cmd), i - p);
                        let prev = backtrack(best@, i - p);
                        assert(backtrack(b2, i as int) == prev.push(cmd));
                        assert(prev.push(cmd).drop_last() == prev);
                    }
                    best_cost = cost;
                    best_cmd = cmd;
                }
            }
            proof {
                let sub = chars@.subrange(j as int, n as int);
                assert forall|j2: int, q: int|
                    0 <= j2 < j + 1 && 1 <= q && #[trigger] is_p_value(chars@.subrange(j2, n as int), i - j2, q) implies best_cost
                    <= best@[i - q].0 + 5 by {
                    if j2 == j {
                        lemma_p_value_unique(sub, i - j, q, p as int);
                    } else {
                        assert(before_cost <= best@[i - q].0 + 5);
                    }
                }
            }
            j += 1;
        }
        let ghost old_best = best@;
        best.push((best_cost, best_cmd));
        proof {
            assert forall|k: int| 0 <= k < i + 1 implies {
                let prog = #[trigger] backtrack(best@, k);
                &&& valid_prog(prog)
                &&& run(prog) == chars@.subrange(0, k + 1)
                &&& total_cost(prog) == best@[k].0
                &&& best@[k].0 <= k + 1
                &&& match best@[k].1 {
                    SeqElem::Char(_) => true,
                    SeqElem::Repeat(_, p) => 1 <= p <= k,
                }
            } by {
                if k < i {
                    lemma_backtrack_push(old_best, (best_cost, best_cmd), k);
                    assert(best@[k] == old_best[k]);
                }
            }
            assert forall|k: int| 1 <= k < i + 1 implies {
                &&& #[trigger] best@[k].0 <= best@[k - 1].0 + 1
                &&& forall|j: int, q: int|
                    0 <= j < k && 1 <= q && #[trigger] is_p_value(chars@.subrange(j, chars@.len() as int), k - j, q) ==> best@[k].0
                        <= best@[k - q].0 + 5
            } by {
                if k < i {
                    assert(old_best[k].0 <= old_best[k - 1].0 + 1);
                    assert forall|j: int, q: int|
                        0 <= j < k && 1 <= q && #[trigger] is_p_value(chars@.subrange(j, chars@.len() as int), k - j, q) implies best@[k].0
                        <= best@[k - q].0 + 5 by {
                        assert(old_best[k].0 <= old_best[k - q].0 + 5);
                    }
                }
            }
        }
        i += 1;
    }
    let ghost full = backtrack(best@, n - 1);
    let mut answer: Vec<SeqElem> = Vec::new();
    let mut i = n;
    while i != 0
        invariant
            i <= n,
            n == chars@.len(),
            best@.len() == n,
            table_ok(best@, chars@, n as int),
            full == backtrack(best@, i - 1) + answer@.reverse(),
        decreases i,
    {
        let cmd = best[i - 1].1;
        proof {
            assert(table_ok(best@, chars@, n as int));
            let _ = backtrack(best@, i - 1);
            let rest = answer@.reverse();
            assert(answer@.push(cmd).reverse() == seq![cmd] + rest);
        }
        answer.push(cmd);
        match cmd {
            SeqElem::Char(_) => {
                proof {
                    assert(backtrack(best@, i - 1) == backtrack(best@, i - 2).push(cmd));
                    assert(full =~= backtrack(best@, i - 2) + answer@.reverse());
                }
                i -= 1;
            },
            SeqElem::Repeat(_, j) => {
                proof {
                    assert(backtrack(best@, i - 1) == backtrack(best@, i - 1 - j).push(cmd));
                    assert(full =~= backtrack(best@, i - 1 - j) + answer@.reverse());
                }
                i -= j;
            },
        };
    }
    proof {
        assert(backtrack(best@, -1) == Seq::<SeqElem>::empty());
        assert(full =~= answer@.reverse());
        assert(chars@.subrange(0, n as int) == chars@);
        assert forall|prog: Seq<SeqElem>| valid_prog(prog) && run(prog) == string@ implies best@[n - 1].0 <= #[trigger] total_cost(
            prog,
        ) by {
            lemma_cost_lower(chars@, best@, pfuns@, prog, n as int);
        }
    }
    let answer = reversed_cmds(&answer);
    (best[n - 1].0, answer)
}

} // verus!
