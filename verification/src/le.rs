//! Little-endian integers.
use vstd::prelude::*;

verus! {

/// The number that little-endian bytes stand for.
pub open spec fn value(s: Seq<u8>) -> nat
    decreases s.len(),
{
    if s.len() == 0 {
        0
    } else {
        s[0] as nat + 256 * value(s.drop_first())
    }
}

/// The lowest `n` bytes of a number, lowest first.
pub open spec fn digits(x: nat, n: nat) -> Seq<u8>
    decreases n,
{
    if n == 0 {
        Seq::empty()
    } else {
        seq![(x % 256) as u8] + digits(x / 256, (n - 1) as nat)
    }
}

/// One more than the largest number `n` bytes can hold.
pub open spec fn span(n: nat) -> nat
    decreases n,
{
    if n == 0 {
        1
    } else {
        256 * span((n - 1) as nat)
    }
}

pub open spec fn u32_of(s: Seq<u8>) -> u32 {
    value(s) as u32
}

pub open spec fn u64_of(s: Seq<u8>) -> u64 {
    value(s) as u64
}

pub open spec fn u32_le(x: u32) -> Seq<u8> {
    digits(x as nat, 4)
}

pub open spec fn u64_le(x: u64) -> Seq<u8> {
    digits(x as nat, 8)
}

pub proof fn lemma_span()
    ensures
        span(2) == 0x1_0000,
        span(4) == 0x1_0000_0000,
        span(8) == 0x1_0000_0000_0000_0000,
{
    reveal_with_fuel(span, 9);
}

pub proof fn lemma_value_bound(s: Seq<u8>)
    ensures
        value(s) < span(s.len()),
    decreases s.len(),
{
    if s.len() > 0 {
        lemma_value_bound(s.drop_first());
    }
}

pub proof fn lemma_digits(x: nat, n: nat)
    ensures
        digits(x, n).len() == n,
        x < span(n) ==> value(digits(x, n)) == x,
    decreases n,
{
    if n > 0 {
        let d = digits(x / 256, (n - 1) as nat);
        lemma_digits(x / 256, (n - 1) as nat);
        assert(digits(x, n).drop_first() =~= d);
        if x < span(n) {
            assert(x / 256 < span((n - 1) as nat));
        }
    }
}

pub proof fn lemma_value_digits(s: Seq<u8>)
    ensures
        digits(value(s), s.len()) == s,
    decreases s.len(),
{
    if s.len() > 0 {
        lemma_value_digits(s.drop_first());
        assert(digits(value(s), s.len()) =~= s) by {
            assert(value(s) % 256 == s[0]);
            assert(value(s) / 256 == value(s.drop_first()));
            assert(seq![s[0]] + s.drop_first() =~= s);
        }
    } else {
        assert(digits(value(s), s.len()) =~= s);
    }
}

/// Writing and reading back gives the number, reading and writing back the bytes.
pub proof fn le_round_trip()
    ensures
        forall|x: u32| (#[trigger] u32_le(x)).len() == 4 && u32_of(u32_le(x)) == x,
        forall|x: u64| (#[trigger] u64_le(x)).len() == 8 && u64_of(u64_le(x)) == x,
        forall|s: Seq<u8>| s.len() == 4 ==> u32_le(#[trigger] u32_of(s)) == s,
        forall|s: Seq<u8>| s.len() == 8 ==> u64_le(#[trigger] u64_of(s)) == s,
{
    lemma_span();
    assert forall|x: u32| (#[trigger] u32_le(x)).len() == 4 && u32_of(u32_le(x)) == x by {
        lemma_digits(x as nat, 4);
    }
    assert forall|x: u64| (#[trigger] u64_le(x)).len() == 8 && u64_of(u64_le(x)) == x by {
        lemma_digits(x as nat, 8);
    }
    assert forall|s: Seq<u8>| s.len() == 4 implies u32_le(#[trigger] u32_of(s)) == s by {
        lemma_value_bound(s);
        lemma_value_digits(s);
    }
    assert forall|s: Seq<u8>| s.len() == 8 implies u64_le(#[trigger] u64_of(s)) == s by {
        lemma_value_bound(s);
        lemma_value_digits(s);
    }
}

/// Zero bytes stand for zero.
pub proof fn lemma_zero_value(s: Seq<u8>)
    requires
        forall|i: int| 0 <= i < s.len() ==> s[i] == 0,
    ensures
        value(s) == 0,
    decreases s.len(),
{
    if s.len() > 0 {
        lemma_zero_value(s.drop_first());
    }
}

fn read(s: &[u8]) -> (x: u64)
    requires
        s@.len() <= 8,
    ensures
        x == value(s@),
{
    let mut x: u64 = 0;
    let mut n: usize = s.len();
    proof {
        assert(s@.subrange(n as int, n as int) =~= Seq::empty());
    }
    while n > 0
        invariant
            n <= s@.len() <= 8,
            x == value(s@.subrange(n as int, s@.len() as int)),
        decreases n,
    {
        proof {
            let t = s@.subrange(n - 1, s@.len() as int);
            assert(t.drop_first() =~= s@.subrange(n as int, s@.len() as int));
            lemma_value_bound(t);
            lemma_value_bound(t.drop_first());
            reveal_with_fuel(span, 9);
        }
        n -= 1;
        x = s[n] as u64 + 256 * x;
    }
    assert(s@.subrange(0, s@.len() as int) =~= s@);
    x
}

fn write(x: u64, n: usize) -> (s: Vec<u8>)
    ensures
        s@ == digits(x as nat, n as nat),
        s@.len() == n,
{
    let mut s: Vec<u8> = Vec::new();
    let mut rest: u64 = x;
    let mut left: usize = n;
    assert(s@ + digits(x as nat, n as nat) =~= digits(x as nat, n as nat));
    while left > 0
        invariant
            left <= n,
            s@.len() == n - left,
            s@ + digits(rest as nat, left as nat) == digits(x as nat, n as nat),
        decreases left,
    {
        let ghost before = s@;
        s.push((rest % 256) as u8);
        proof {
            assert(before + (seq![(rest as nat % 256) as u8] + digits(
                rest as nat / 256,
                (left - 1) as nat,
            )) =~= s@ + digits(rest as nat / 256, (left - 1) as nat));
        }
        rest = rest / 256;
        left -= 1;
    }
    assert(s@ + digits(rest as nat, 0) =~= s@);
    s
}

pub fn u32_from_le_bytes(s: &[u8]) -> (x: u32)
    requires
        s@.len() == 4,
    ensures
        x == u32_of(s@),
{
    proof {
        lemma_value_bound(s@);
        lemma_span();
    }
    read(s) as u32
}

pub fn u64_from_le_bytes(s: &[u8]) -> (x: u64)
    requires
        s@.len() == 8,
    ensures
        x == u64_of(s@),
{
    read(s)
}

pub fn u32_to_le_bytes(x: u32) -> (s: Vec<u8>)
    ensures
        s@ == u32_le(x),
        s@.len() == 4,
{
    write(x as u64, 4)
}

pub fn u64_to_le_bytes(x: u64) -> (s: Vec<u8>)
    ensures
        s@ == u64_le(x),
        s@.len() == 8,
{
    write(x, 8)
}

/// Numbers are written with their lowest byte first.
pub proof fn the_lowest_byte_comes_first(x: u32, y: u64)
    ensures
        ({
            let s = u32_le(x);
            s.len() == 4 && x == s[0] + 0x100 * s[1] + 0x1_0000 * s[2] + 0x100_0000 * s[3]
        }),
        ({
            let s = u64_le(y);
            s.len() == 8 && y == s[0] + 0x100 * s[1] + 0x1_0000 * s[2] + 0x100_0000 * s[3]
                + 0x1_0000_0000 * s[4] + 0x100_0000_0000 * s[5] + 0x1_0000_0000_0000 * s[6]
                + 0x100_0000_0000_0000 * s[7]
        }),
{
    le_round_trip();
    lemma_value_4(u32_le(x));
    lemma_value_bound(u32_le(x));
    lemma_value_8(u64_le(y));
    lemma_value_bound(u64_le(y));
    lemma_span();
}

proof fn lemma_value_4(s: Seq<u8>)
    requires
        s.len() == 4,
    ensures
        value(s) == s[0] + 0x100 * s[1] + 0x1_0000 * s[2] + 0x100_0000 * s[3],
{
    let a = s.drop_first();
    let b = a.drop_first();
    let c = b.drop_first();
    let d = c.drop_first();
    assert(value(d) == 0);
    assert(value(c) == c[0]);
    assert(value(b) == b[0] + 256 * value(c));
    assert(value(a) == a[0] + 256 * value(b));
    assert(value(s) == s[0] + 256 * value(a));
}

proof fn lemma_value_8(s: Seq<u8>)
    requires
        s.len() == 8,
    ensures
        value(s) == s[0] + 0x100 * s[1] + 0x1_0000 * s[2] + 0x100_0000 * s[3] + 0x1_0000_0000 * s[4]
            + 0x100_0000_0000 * s[5] + 0x1_0000_0000_0000 * s[6] + 0x100_0000_0000_0000 * s[7],
{
    let a = s.drop_first();
    let b = a.drop_first();
    let c = b.drop_first();
    let t = c.drop_first();
    lemma_value_4(t);
    assert(value(c) == c[0] + 256 * value(t));
    assert(value(b) == b[0] + 256 * value(c));
    assert(value(a) == a[0] + 256 * value(b));
    assert(value(s) == s[0] + 256 * value(a));
}

} // verus!
