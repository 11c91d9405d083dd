//! Integer facts shared by the log and the store.
use vstd::arithmetic::power2::pow2;
use vstd::prelude::*;

verus! {

pub proof fn lemma_mul_le(a: int, b: int, c: int)
    by (nonlinear_arith)
    requires
        a <= b,
        0 <= c,
    ensures
        a * c <= b * c,
{
}

pub proof fn lemma_mul_add(a: int, b: int, c: int)
    by (nonlinear_arith)
    ensures
        (a + b) * c == a * c + b * c,
        (a - b) * c == a * c - b * c,
        1 * c == c,
        0 * c == 0,
{
}

/// Page and offset of an address.
pub proof fn lemma_split(page: int, off: int, p: int)
    requires
        0 < p,
        0 <= off < p,
    ensures
        (page * p + off) / p == page,
        (page * p + off) % p == off,
{
    vstd::arithmetic::div_mod::lemma_fundamental_div_mod_converse(page * p + off, p, page, off);
}

pub proof fn lemma_div(a: int, p: int)
    requires
        0 < p,
    ensures
        a == (a / p) * p + a % p,
        0 <= a % p < p,
        0 <= a ==> 0 <= a / p <= a,
{
    vstd::arithmetic::div_mod::lemma_fundamental_div_mod(a, p);
    vstd::arithmetic::div_mod::lemma_mod_bound(a, p);
    assert((a / p) * p == p * (a / p)) by (nonlinear_arith);
    if 0 <= a {
        vstd::arithmetic::div_mod::lemma_div_pos_is_pos(a, p);
        vstd::arithmetic::div_mod::lemma_div_nonincreasing(a, p);
    }
}

/// Which page an address between two page starts is on.
pub proof fn lemma_page_bounds(a: int, lo: int, hi: int, p: int)
    requires
        0 < p,
        lo * p <= a < hi * p,
    ensures
        lo <= a / p < hi,
{
    lemma_div(a, p);
    assert(lo <= a / p < hi) by (nonlinear_arith)
        requires
            0 < p,
            lo * p <= a < hi * p,
            a == (a / p) * p + a % p,
            0 <= a % p < p,
    ;
}

/// Two pages of one window have different slots.
pub proof fn lemma_slots_differ(x: int, y: int, b: int)
    requires
        0 < b,
        x < y < x + b,
    ensures
        x % b != y % b,
{
    lemma_div(x, b);
    lemma_div(y, b);
    if x % b == y % b {
        assert(false) by (nonlinear_arith)
            requires
                x < y < x + b,
                0 < b,
                x == (x / b) * b + x % b,
                y == (y / b) * b + y % b,
                x % b == y % b,
        ;
    }
}

/// The smallest power of two that is at least `n` and at least 2.
pub fn next_power_of_two(n: usize) -> (r: usize)
    requires
        n <= usize::MAX / 2,
    ensures
        r >= n,
        r >= 2,
        r == 2 || r < 2 * n,
        exists|k: nat| r == #[trigger] pow2(k),
{
    let mut r: usize = 2;
    let ghost mut k: nat = 1;
    proof {
        vstd::arithmetic::power2::lemma2_to64();
    }
    while r < n
        invariant
            2 <= r,
            r == 2 || r < 2 * n,
            n <= usize::MAX / 2,
            r == pow2(k),
        decreases 2 * n - r,
    {
        proof {
            vstd::arithmetic::power2::lemma_pow2_unfold(k + 1);
            k = k + 1;
        }
        r = r * 2;
    }
    r
}

/// `2^bits` for page sizes.
pub fn power_of_two(bits: u32) -> (r: usize)
    requires
        bits <= 30,
    ensures
        r == pow2(bits as nat),
        r <= 0x4000_0000,
        bits >= 3 ==> r % 8 == 0,
        bits >= 9 ==> r >= 512,
{
    let mut r: usize = 1;
    let mut k: u32 = 0;
    proof {
        vstd::arithmetic::power2::lemma2_to64();
    }
    while k < bits
        invariant
            k <= bits <= 30,
            r == pow2(k as nat),
            k >= 3 ==> r % 8 == 0,
            k == 2 ==> r == 4,
            k == 1 ==> r == 2,
            k == 0 ==> r == 1,
            k >= 9 ==> r >= 512,
            r <= 0x4000_0000,
            k < 30 ==> r <= 0x2000_0000,
        decreases bits - k,
    {
        proof {
            vstd::arithmetic::power2::lemma_pow2_unfold((k + 1) as nat);
            vstd::arithmetic::power2::lemma2_to64();
            vstd::arithmetic::power2::lemma_pow2_strictly_increases((k + 1) as nat, 31);
            if k + 1 < 30 {
                vstd::arithmetic::power2::lemma_pow2_strictly_increases((k + 1) as nat, 30);
            }
            if k + 1 > 9 {
                vstd::arithmetic::power2::lemma_pow2_strictly_increases(9, (k + 1) as nat);
            }
            assert(pow2(30) == 0x4000_0000);
            assert(pow2(29) == 0x2000_0000);
            assert(pow2(9) == 512);
            if k + 1 < 29 {
                vstd::arithmetic::power2::lemma_pow2_strictly_increases((k + 1) as nat, 29);
            }
            if k + 1 < 30 {
                assert(pow2((k + 1) as nat) <= 0x2000_0000);
            }
        }
        r = r * 2;
        k = k + 1;
    }
    r
}

} // verus!
