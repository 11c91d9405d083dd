//! Glob patterns over byte strings: `*`, `?`, `[set]`, `\` escape.
use vstd::prelude::*;
use vstd::slice::slice_subrange;

verus! {

pub const STAR: u8 = 42;

pub const QUESTION: u8 = 63;

pub const OPEN: u8 = 91;

pub const CLOSE: u8 = 93;

pub const BACKSLASH: u8 = 92;

pub const CARET: u8 = 94;

pub const BANG: u8 = 33;

pub const DASH: u8 = 45;

/// Whether `c` is a member of a set body: single bytes and `lo-hi` ranges,
/// read from left to right.
pub open spec fn set_has(set: Seq<u8>, c: u8) -> bool
    decreases set.len(),
{
    if set.len() == 0 {
        false
    } else if set.len() > 2 && set[1] == DASH {
        set[0] <= c <= set[2] || set_has(set.subrange(3, set.len() as int), c)
    } else {
        set[0] == c || set_has(set.subrange(1, set.len() as int), c)
    }
}

/// Position of the first `]` at or after `j`, or the end of the pattern.
pub open spec fn close_from(p: Seq<u8>, j: int) -> int
    decreases p.len() - j,
{
    if j >= p.len() {
        p.len() as int
    } else if p[j] == CLOSE {
        j
    } else {
        close_from(p, j + 1)
    }
}

/// Whether the set that opens at `i` is negated.
pub open spec fn negated(p: Seq<u8>, i: int) -> bool {
    i + 1 < p.len() && (p[i + 1] == CARET || p[i + 1] == BANG)
}

/// Where the body of the set that opens at `i` starts.
pub open spec fn set_start(p: Seq<u8>, i: int) -> int {
    if negated(p, i) {
        i + 2
    } else {
        i + 1
    }
}

/// The pattern position after the one-byte element at `i`, or `None` if that
/// element does not accept `c`. A set that is never closed accepts nothing.
pub open spec fn step(p: Seq<u8>, i: int, c: u8) -> Option<int> {
    if p[i] == QUESTION {
        Some(i + 1)
    } else if p[i] == OPEN {
        let from = set_start(p, i);
        let to = close_from(p, from);
        if to < p.len() && set_has(p.subrange(from, to), c) != negated(p, i) {
            Some(to + 1)
        } else {
            None
        }
    } else if p[i] == BACKSLASH && i + 1 < p.len() {
        if p[i + 1] == c {
            Some(i + 2)
        } else {
            None
        }
    } else if p[i] == c {
        Some(i + 1)
    } else {
        None
    }
}

/// Whether the pattern from `i` on matches the whole of the text from `k` on.
pub open spec fn matches_from(p: Seq<u8>, i: int, s: Seq<u8>, k: int) -> bool
    decreases p.len() - i, s.len() - k,
{
    if i >= p.len() {
        k == s.len()
    } else if p[i] == STAR {
        matches_from(p, i + 1, s, k) || (k < s.len() && matches_from(p, i, s, k + 1))
    } else {
        k < s.len() && match step(p, i, s[k]) {
            Some(j) => i < j <= p.len() && matches_from(p, j, s, k + 1),
            None => false,
        }
    }
}

/// Whether the whole text matches the pattern.
pub open spec fn glob(p: Seq<u8>, s: Seq<u8>) -> bool {
    matches_from(p, 0, s, 0)
}

proof fn lemma_close(p: Seq<u8>, j: int)
    requires
        0 <= j,
    ensures
        j <= p.len() ==> j <= close_from(p, j) <= p.len(),
        j > p.len() ==> close_from(p, j) == p.len(),
    decreases p.len() - j,
{
    if j < p.len() && p[j] != CLOSE {
        lemma_close(p, j + 1);
    }
}

proof fn lemma_step(p: Seq<u8>, i: int, c: u8)
    requires
        0 <= i < p.len(),
    ensures
        step(p, i, c) matches Some(j) ==> i < j <= p.len(),
{
    lemma_close(p, set_start(p, i));
}

/// A star matches exactly when what follows it matches some later suffix.
proof fn lemma_star(p: Seq<u8>, i: int, s: Seq<u8>, k: int)
    requires
        0 <= i < p.len(),
        p[i] == STAR,
        0 <= k <= s.len(),
    ensures
        matches_from(p, i, s, k) <==> exists|m: int|
            k <= m <= s.len() && #[trigger] matches_from(p, i + 1, s, m),
    decreases s.len() - k,
{
    reveal_with_fuel(matches_from, 2);
    let here = matches_from(p, i + 1, s, k);
    if k < s.len() {
        lemma_star(p, i, s, k + 1);
        assert(matches_from(p, i, s, k) == (here || matches_from(p, i, s, k + 1)));
    } else {
        assert(matches_from(p, i, s, k) == here);
    }
    let some = exists|m: int| k <= m <= s.len() && #[trigger] matches_from(p, i + 1, s, m);
    if some && !here {
        let m = choose|m: int| k <= m <= s.len() && #[trigger] matches_from(p, i + 1, s, m);
        assert(k + 1 <= m <= s.len() && matches_from(p, i + 1, s, m));
    }
    if here {
        assert(k <= k <= s.len() && matches_from(p, i + 1, s, k));
    }
}

/// What is known while the star at `sp` has swallowed the text up to `ss`: the
/// text matches iff it matches from here or the star swallows more, and a match
/// after the star always passes through the current pattern position.
spec fn star_inv(p: Seq<u8>, t: Seq<u8>, pi: int, si: int, sp: int, ss: int) -> bool {
    &&& 0 <= sp < p.len()
    &&& sp < pi
    &&& 0 <= ss <= si
    &&& glob(p, t) == (matches_from(p, pi, t, si) || exists|m: int|
        ss < m <= t.len() && #[trigger] matches_from(p, sp + 1, t, m))
    &&& forall|k: int|
        ss <= k <= t.len() && #[trigger] matches_from(p, sp + 1, t, k) ==> k + (si - ss) <= t.len()
            && matches_from(p, pi, t, k + (si - ss))
}

fn in_set(set: &[u8], c: u8) -> (r: bool)
    ensures
        r == set_has(set@, c),
{
    let n: usize = set.len();
    let mut i: usize = 0;
    assert(set@.subrange(0, n as int) =~= set@);
    while i < n
        invariant
            n == set@.len(),
            i <= n,
            set_has(set@, c) == set_has(set@.subrange(i as int, n as int), c),
        decreases n - i,
    {
        let ghost cur = set@.subrange(i as int, n as int);
        if n - i > 2 && set[i + 1] == DASH {
            if set[i] <= c && c <= set[i + 2] {
                return true;
            }
            assert(cur.subrange(3, cur.len() as int) =~= set@.subrange(i + 3, n as int));
            i += 3;
        } else {
            if set[i] == c {
                return true;
            }
            assert(cur.subrange(1, cur.len() as int) =~= set@.subrange(i + 1, n as int));
            i += 1;
        }
    }
    false
}

/// The pattern position after the element at `pi` if it accepts `c`.
fn advance(p: &[u8], pi: usize, c: u8) -> (r: Option<usize>)
    requires
        pi < p@.len(),
    ensures
        r is Some <==> step(p@, pi as int, c) is Some,
        r matches Some(j) ==> step(p@, pi as int, c) == Some(j as int) && pi < j <= p@.len(),
{
    let n: usize = p.len();
    proof {
        lemma_step(p@, pi as int, c);
    }
    if p[pi] == QUESTION {
        Some(pi + 1)
    } else if p[pi] == OPEN {
        let mut j: usize = pi + 1;
        let negate: bool = j < n && (p[j] == CARET || p[j] == BANG);
        if negate {
            j += 1;
        }
        let start: usize = j;
        while j < n && p[j] != CLOSE
            invariant
                n == p@.len(),
                start <= j <= n,
                close_from(p@, start as int) == close_from(p@, j as int),
            decreases n - j,
        {
            j += 1;
        }
        let set: &[u8] = slice_subrange(p, start, j);
        if j < n && in_set(set, c) != negate {
            Some(j + 1)
        } else {
            None
        }
    } else if p[pi] == BACKSLASH && n - pi > 1 {
        if p[pi + 1] == c {
            Some(pi + 2)
        } else {
            None
        }
    } else if p[pi] == c {
        Some(pi + 1)
    } else {
        None
    }
}

/// Glob matching. One pass with a single remembered star: when the text stops
/// matching, the last star swallows one more byte.
pub fn glob_match(pat: &[u8], s: &[u8]) -> (r: bool)
    ensures
        r == glob(pat@, s@),
{
    let pn: usize = pat.len();
    let sn: usize = s.len();
    let mut pi: usize = 0;
    let mut si: usize = 0;
    let mut star: Option<(usize, usize)> = None;
    let ghost p = pat@;
    let ghost t = s@;
    while si < sn
        invariant
            p == pat@,
            t == s@,
            pn == p.len(),
            sn == t.len(),
            pi <= pn,
            si <= sn,
            match star {
                None => glob(p, t) == matches_from(p, pi as int, t, si as int),
                Some((sp, ss)) => star_inv(p, t, pi as int, si as int, sp as int, ss as int),
            },
        decreases
                (match star {
                    None => pn + 1,
                    Some((sp, ss)) => pn - sp,
                }),
                (match star {
                    None => 0int,
                    Some((sp, ss)) => sn - ss,
                }),
                pn - pi,
    {
        if pi < pn {
            if pat[pi] == STAR {
                proof {
                    lemma_star(p, pi as int, t, si as int);
                    if let Some((sp, ss)) = star {
                        assert forall|m: int| ss < m <= sn && #[trigger] matches_from(
                            p,
                            sp + 1,
                            t,
                            m,
                        ) implies matches_from(p, pi as int, t, si as int) by {
                            let x = m + (si - ss);
                            assert(matches_from(p, pi as int, t, x));
                            lemma_star(p, pi as int, t, x);
                            let y = choose|y: int|
                                x <= y <= sn && #[trigger] matches_from(p, pi + 1, t, y);
                            assert(si <= y <= sn && matches_from(p, pi + 1, t, y));
                        }
                    }
                    assert(glob(p, t) <==> (matches_from(p, pi + 1, t, si as int) || exists|m: int|
                        si < m <= sn && #[trigger] matches_from(p, pi + 1, t, m)));
                }
                star = Some((pi, si));
                pi += 1;
                continue;
            }
            let hit: Option<usize> = advance(pat, pi, s[si]);
            if let Some(j) = hit {
                proof {
                    if let Some((sp, ss)) = star {
                        assert forall|k: int| ss <= k <= sn && #[trigger] matches_from(
                            p,
                            sp + 1,
                            t,
                            k,
                        ) implies k + (si + 1 - ss) <= sn && matches_from(
                            p,
                            j as int,
                            t,
                            k + (si + 1 - ss),
                        ) by {
                            assert(matches_from(p, pi as int, t, k + (si - ss)));
                        }
                    }
                }
                pi = j;
                si += 1;
                continue;
            }
        }
        assert(!matches_from(p, pi as int, t, si as int));
        match star {
            Some((sp, ss)) => {
                pi = sp + 1;
                si = ss + 1;
                star = Some((sp, ss + 1));
                proof {
                    if exists|m: int| ss < m <= sn && #[trigger] matches_from(p, sp + 1, t, m) {
                        let m = choose|m: int|
                            ss < m <= sn && #[trigger] matches_from(p, sp + 1, t, m);
                        assert(m == ss + 1 || ss + 1 < m);
                    }
                    assert forall|k: int| ss + 1 <= k <= sn && #[trigger] matches_from(
                        p,
                        sp + 1,
                        t,
                        k,
                    ) implies k + (si - (ss + 1)) <= sn && matches_from(
                        p,
                        pi as int,
                        t,
                        k + (si - (ss + 1)),
                    ) by {
                        assert(k + (si - (ss + 1)) == k);
                    }
                    assert(star_inv(p, t, pi as int, si as int, sp as int, ss + 1));
                }
            },
            None => {
                return false;
            },
        }
    }
    assert(glob(p, t) == matches_from(p, pi as int, t, sn as int));
    while pi < pn && pat[pi] == STAR
        invariant
            p == pat@,
            t == s@,
            pn == p.len(),
            sn == t.len(),
            pi <= pn,
            glob(p, t) == matches_from(p, pi as int, t, sn as int),
        decreases pn - pi,
    {
        pi += 1;
    }
    pi == pn
}

// ---------------------------------------------------------------------------
// What patterns mean, element by element
// ---------------------------------------------------------------------------

proof fn lemma_close_shift(p: Seq<u8>, d: int, j: int)
    requires
        0 <= d <= p.len(),
        0 <= j,
    ensures
        d + j <= p.len() ==> close_from(p.skip(d), j) + d == close_from(p, d + j),
        d + j > p.len() ==> close_from(p.skip(d), j) + d == p.len(),
    decreases p.len() - j,
{
    if d + j < p.len() && p[d + j] != CLOSE {
        lemma_close_shift(p, d, j + 1);
    }
}

proof fn lemma_step_shift(p: Seq<u8>, d: int, i: int, c: u8)
    requires
        0 <= d,
        0 <= i,
        d + i < p.len(),
    ensures
        step(p, d + i, c) == (match step(p.skip(d), i, c) {
            Some(j) => Some(d + j),
            None => None,
        }),
{
    let q = p.skip(d);
    lemma_close_shift(p, d, set_start(q, i));
    lemma_close(p, set_start(p, d + i));
    let from = set_start(q, i);
    let to = close_from(q, from);
    if from <= to < q.len() {
        assert(q.subrange(from, to) =~= p.subrange(d + from, d + to));
    }
}

/// Whether the rest of a pattern matches the rest of a text depends on the two
/// rests alone.
proof fn lemma_shift(p: Seq<u8>, d: int, i: int, s: Seq<u8>, e: int, k: int)
    requires
        0 <= d <= p.len(),
        0 <= i <= p.len() - d,
        0 <= e <= s.len(),
        0 <= k <= s.len() - e,
    ensures
        matches_from(p.skip(d), i, s.skip(e), k) == matches_from(p, d + i, s, e + k),
    decreases p.len() - i, s.len() - k,
{
    let q = p.skip(d);
    let t = s.skip(e);
    if i < q.len() {
        if q[i] == STAR {
            lemma_shift(p, d, i + 1, s, e, k);
            if k < t.len() {
                lemma_shift(p, d, i, s, e, k + 1);
            }
        } else if k < t.len() {
            lemma_step_shift(p, d, i, t[k]);
            lemma_step(q, i, t[k]);
            lemma_step(p, d + i, t[k]);
            if let Some(j) = step(q, i, t[k]) {
                lemma_shift(p, d, j, s, e, k + 1);
            }
        }
    }
}

/// The rest of a pattern after an element that takes up its first `n` bytes.
proof fn lemma_rest(p: Seq<u8>, n: int, q: Seq<u8>, s: Seq<u8>, k: int)
    requires
        0 <= n <= p.len(),
        p.skip(n) == q,
        0 <= k <= s.len(),
    ensures
        matches_from(p, n, s, k) == glob(q, s.skip(k)),
{
    lemma_shift(p, n, 0, s, k, 0);
}

/// Nothing matches only nothing.
pub proof fn an_empty_pattern_matches_nothing_else(s: Seq<u8>)
    ensures
        glob(Seq::empty(), s) <==> s.len() == 0,
{
}

/// A star stands for any run of bytes, the empty one too.
pub proof fn a_star_stands_for_any_run(q: Seq<u8>, s: Seq<u8>)
    ensures
        glob(seq![STAR] + q, s) <==> exists|k: int|
            0 <= k <= s.len() && #[trigger] glob(q, s.skip(k)),
{
    let p = seq![STAR] + q;
    assert(p.skip(1) =~= q);
    lemma_star(p, 0, s, 0);
    assert forall|k: int| 0 <= k <= s.len() implies #[trigger] matches_from(p, 1, s, k) == glob(
        q,
        s.skip(k),
    ) by {
        lemma_rest(p, 1, q, s, k);
    }
    if glob(p, s) {
        let m = choose|m: int| 0 <= m <= s.len() && #[trigger] matches_from(p, 1, s, m);
        assert(matches_from(p, 1, s, m));
        assert(glob(q, s.skip(m)));
    }
    if exists|k: int| 0 <= k <= s.len() && #[trigger] glob(q, s.skip(k)) {
        let k = choose|k: int| 0 <= k <= s.len() && #[trigger] glob(q, s.skip(k));
        assert(matches_from(p, 1, s, k));
    }
}

/// A question mark stands for any one byte.
pub proof fn a_question_mark_stands_for_one_byte(q: Seq<u8>, s: Seq<u8>)
    ensures
        glob(seq![QUESTION] + q, s) <==> s.len() > 0 && glob(q, s.skip(1)),
{
    let p = seq![QUESTION] + q;
    assert(p.skip(1) =~= q);
    if s.len() > 0 {
        lemma_rest(p, 1, q, s, 1);
    }
}

/// A byte that means nothing else stands for itself.
pub proof fn a_plain_byte_stands_for_itself(c: u8, q: Seq<u8>, s: Seq<u8>)
    requires
        c != 42 && c != 63 && c != 91 && c != 92,
    ensures
        glob(seq![c] + q, s) <==> s.len() > 0 && s[0] == c && glob(q, s.skip(1)),
{
    let p = seq![c] + q;
    assert(p.skip(1) =~= q);
    if s.len() > 0 {
        lemma_rest(p, 1, q, s, 1);
    }
}

/// A byte after a backslash stands for itself, whatever it is; so does a
/// backslash at the end.
pub proof fn an_escaped_byte_stands_for_itself(c: u8, q: Seq<u8>, s: Seq<u8>)
    ensures
        glob(seq![92u8, c] + q, s) <==> s.len() > 0 && s[0] == c && glob(q, s.skip(1)),
        glob(seq![92u8], s) <==> s == seq![92u8],
{
    let p = seq![92u8, c] + q;
    assert(p.skip(2) =~= q);
    if s.len() > 0 {
        lemma_rest(p, 2, q, s, 1);
        let b = seq![92u8];
        assert(b.skip(1) =~= Seq::empty());
        lemma_rest(b, 1, Seq::empty(), s, 1);
        if s.len() == 1 && s[0] == 92 {
            assert(s =~= b);
        }
    }
}

proof fn lemma_closes(p: Seq<u8>, j: int, to: int)
    requires
        0 <= j <= to < p.len(),
        p[to] == CLOSE,
        forall|i: int| j <= i < to ==> p[i] != CLOSE,
    ensures
        close_from(p, j) == to,
    decreases to - j,
{
    if j < to {
        lemma_closes(p, j + 1, to);
    }
}

proof fn lemma_never_closes(p: Seq<u8>, j: int)
    requires
        0 <= j,
        forall|i: int| j <= i < p.len() ==> p[i] != CLOSE,
    ensures
        close_from(p, j) == p.len(),
    decreases p.len() - j,
{
    if j < p.len() {
        lemma_never_closes(p, j + 1);
    }
}

/// A set stands for one byte that is in it, or, with a caret or an exclamation
/// mark in front, for one that is not.
pub proof fn a_set_stands_for_one_of_its_bytes(mark: u8, body: Seq<u8>, q: Seq<u8>, s: Seq<u8>)
    requires
        !body.contains(93),
        mark == 94 || mark == 33,
    ensures
        body.len() > 0 && body[0] != 94 && body[0] != 33 ==> (glob(
            seq![91u8] + body + seq![93u8] + q,
            s,
        ) <==> s.len() > 0 && set_has(body, s[0]) && glob(q, s.skip(1))),
        glob(seq![91u8, mark] + body + seq![93u8] + q, s) <==> s.len() > 0 && !set_has(body, s[0])
            && glob(q, s.skip(1)),
{
    if body.len() > 0 && body[0] != 94 && body[0] != 33 {
        let p = seq![91u8] + body + seq![93u8] + q;
        let n = body.len() as int;
        assert(p.skip(n + 2) =~= q);
        assert(p.subrange(1, n + 1) =~= body);
        assert(p[1] == body[0]);
        assert forall|i: int| 1 <= i < n + 1 implies p[i] != CLOSE by {
            assert(body.contains(body[i - 1]));
        }
        lemma_closes(p, 1, n + 1);
        if s.len() > 0 {
            lemma_rest(p, n + 2, q, s, 1);
        }
    }
    let p = seq![91u8, mark] + body + seq![93u8] + q;
    let n = body.len() as int;
    assert(p.skip(n + 3) =~= q);
    assert(p.subrange(2, n + 2) =~= body);
    assert forall|i: int| 2 <= i < n + 2 implies p[i] != CLOSE by {
        assert(body.contains(body[i - 2]));
    }
    lemma_closes(p, 2, n + 2);
    if s.len() > 0 {
        lemma_rest(p, n + 3, q, s, 1);
    }
}

/// A set that is never closed matches nothing.
pub proof fn an_open_set_matches_nothing(body: Seq<u8>, s: Seq<u8>)
    requires
        !body.contains(93),
    ensures
        !glob(seq![91u8] + body, s),
{
    let p = seq![91u8] + body;
    assert forall|i: int| 1 <= i < p.len() implies p[i] != CLOSE by {
        assert(body.contains(body[i - 1]));
    }
    lemma_never_closes(p, set_start(p, 0));
}

/// A set without ranges holds exactly the bytes that are listed in it.
pub proof fn a_set_holds_the_bytes_it_lists(body: Seq<u8>, c: u8)
    requires
        !body.contains(45),
    ensures
        set_has(body, c) <==> exists|i: int| 0 <= i < body.len() && #[trigger] body[i] == c,
    decreases body.len(),
{
    if body.len() > 0 {
        let rest = body.subrange(1, body.len() as int);
        assert forall|i: int| 0 <= i < rest.len() implies rest[i] != 45 by {
            assert(body.contains(body[i + 1]));
        }
        assert(body.len() > 1 ==> body.contains(body[1]));
        a_set_holds_the_bytes_it_lists(rest, c);
        if exists|i: int| 0 <= i < rest.len() && #[trigger] rest[i] == c {
            let i = choose|i: int| 0 <= i < rest.len() && #[trigger] rest[i] == c;
            assert(body[i + 1] == c);
        }
        if exists|i: int| 0 <= i < body.len() && #[trigger] body[i] == c {
            let i = choose|i: int| 0 <= i < body.len() && #[trigger] body[i] == c;
            if i > 0 {
                assert(rest[i - 1] == c);
            }
        }
    }
}

/// A range in a set holds the bytes between its ends, both included; what is
/// listed before it and what follows it is held too.
pub proof fn a_range_holds_the_bytes_between(pre: Seq<u8>, lo: u8, hi: u8, post: Seq<u8>, c: u8)
    requires
        !pre.contains(45),
        lo != 45,
    ensures
        set_has(pre + seq![lo, 45u8, hi] + post, c) <==> pre.contains(c) || lo <= c <= hi || set_has(
            post,
            c,
        ),
    decreases pre.len(),
{
    let set = pre + seq![lo, 45u8, hi] + post;
    if pre.len() == 0 {
        assert(set.subrange(3, set.len() as int) =~= post);
    } else {
        let rest = pre.subrange(1, pre.len() as int);
        assert forall|i: int| 0 <= i < rest.len() implies rest[i] != 45 by {
            assert(pre.contains(pre[i + 1]));
        }
        assert(pre.len() > 1 ==> pre.contains(pre[1]));
        assert(set.subrange(1, set.len() as int) =~= rest + seq![lo, 45u8, hi] + post);
        a_range_holds_the_bytes_between(rest, lo, hi, post, c);
        if pre.contains(c) {
            let i = choose|i: int| 0 <= i < pre.len() && pre[i] == c;
            if i > 0 {
                assert(rest[i - 1] == c);
            }
        }
        if rest.contains(c) {
            let i = choose|i: int| 0 <= i < rest.len() && rest[i] == c;
            assert(pre[i + 1] == c);
        }
    }
}

/// A key that a pattern spells out with a set in the middle is matched exactly
/// if its byte there is one of those listed.
pub proof fn a_listed_byte_in_the_middle(pre: Seq<u8>, body: Seq<u8>, post: Seq<u8>, s: Seq<u8>)
    requires
        forall|i: int|
            0 <= i < pre.len() ==> (#[trigger] pre[i]) != 42 && pre[i] != 63 && pre[i] != 91 && pre[i]
                != 92,
        forall|i: int|
            0 <= i < post.len() ==> (#[trigger] post[i]) != 42 && post[i] != 63 && post[i] != 91
                && post[i] != 92,
        !body.contains(93) && !body.contains(45),
        body.len() > 0 && body[0] != 94 && body[0] != 33,
    ensures
        glob(pre + seq![91u8] + body + seq![93u8] + post, s) <==> exists|i: int|
            0 <= i < body.len() && s == pre + seq![#[trigger] body[i]] + post,
    decreases pre.len(),
{
    if pre.len() > 0 {
        let p = pre + seq![91u8] + body + seq![93u8] + post;
        let rest = pre.skip(1);
        let q = rest + seq![91u8] + body + seq![93u8] + post;
        assert(p =~= seq![pre[0]] + q);
        a_plain_byte_stands_for_itself(pre[0], q, s);
        if s.len() > 0 {
            a_listed_byte_in_the_middle(rest, body, post, s.skip(1));
        }
        assert forall|i: int| 0 <= i < body.len() implies (s == pre + seq![#[trigger] body[i]] + post)
            == (s.len() > 0 && s[0] == pre[0] && s.skip(1) == rest + seq![body[i]] + post) by {
            let x = rest + seq![body[i]] + post;
            assert(pre + seq![body[i]] + post =~= seq![pre[0]] + x);
            assert((seq![pre[0]] + x).skip(1) =~= x);
            if s.len() > 0 && s[0] == pre[0] && s.skip(1) == x {
                assert(s =~= seq![s[0]] + s.skip(1));
            }
        }
    } else {
        assert(pre + seq![91u8] + body + seq![93u8] + post =~= seq![91u8] + body + seq![93u8] + post);
        a_set_stands_for_one_of_its_bytes(94, body, post, s);
        if s.len() > 0 {
            a_set_holds_the_bytes_it_lists(body, s[0]);
            a_plain_text_matches_itself(post, s.skip(1));
        }
        assert forall|i: int| 0 <= i < body.len() implies (s == pre + seq![#[trigger] body[i]] + post)
            == (s.len() > 0 && s[0] == body[i] && s.skip(1) == post) by {
            assert(pre + seq![body[i]] + post =~= seq![body[i]] + post);
            assert((seq![body[i]] + post).skip(1) =~= post);
            if s.len() > 0 && s[0] == body[i] && s.skip(1) == post {
                assert(s =~= seq![s[0]] + s.skip(1));
            }
        }
    }
}

/// A pattern that holds no special byte matches itself and nothing else.
pub proof fn a_plain_text_matches_itself(p: Seq<u8>, s: Seq<u8>)
    requires
        forall|i: int|
            0 <= i < p.len() ==> (#[trigger] p[i]) != 42 && p[i] != 63 && p[i] != 91 && p[i] != 92,
    ensures
        glob(p, s) <==> s == p,
    decreases p.len(),
{
    if p.len() == 0 {
        assert(p =~= Seq::empty());
        if s.len() == 0 {
            assert(s =~= p);
        }
    } else {
        let q = p.skip(1);
        assert(p =~= seq![p[0]] + q);
        a_plain_byte_stands_for_itself(p[0], q, s);
        if s.len() > 0 {
            a_plain_text_matches_itself(q, s.skip(1));
            if s[0] == p[0] && s.skip(1) == q {
                assert(s =~= seq![s[0]] + s.skip(1));
            }
        }
    }
}

} // verus!
