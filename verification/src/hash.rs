//! 64-bit key hashing. The index takes the bucket from the low bits of the
//! hash and the tag from its top bits, so both ends must mix well. This is a
//! compact multiply-and-fold mixer.
use crate::le;
use crate::le::{u32_from_le_bytes, u64_from_le_bytes};
use vstd::prelude::*;
use vstd::slice::slice_subrange;

verus! {

pub const P0: u64 = 0xa076_1d64_78bd_642f;

pub const P1: u64 = 0xe703_7ed1_a0b4_28db;

pub const P2: u64 = 0x8ebc_6af0_9c88_c6e3;

/// Fold the 128-bit product of two words into one word.
pub open spec fn fold(a: u64, b: u64) -> u64 {
    let r = (a * b) as u128;
    (r as u64) ^ ((r >> 64) as u64)
}

/// Little-endian word at the front of `s`.
pub open spec fn word64(s: Seq<u8>) -> u64 {
    le::u64_of(s.subrange(0, 8))
}

/// Little-endian half word at the front of `s`.
pub open spec fn word32(s: Seq<u8>) -> u64 {
    le::u32_of(s.subrange(0, 4)) as u64
}

/// The running seed after every full 16-byte block of `s`.
pub open spec fn absorb(seed: u64, s: Seq<u8>) -> u64
    decreases s.len(),
{
    if s.len() < 16 {
        seed
    } else {
        let rest = s.subrange(16, s.len() as int);
        absorb(fold(word64(s) ^ P1, word64(s.subrange(8, s.len() as int)) ^ seed), rest)
    }
}

/// The two words a final partial block contributes.
pub open spec fn last_words(t: Seq<u8>) -> (u64, u64) {
    let n = t.len() as int;
    if n == 0 {
        (0, 0)
    } else if n < 4 {
        (((t[0] as u64) << 16) | ((t[n / 2] as u64) << 8) | (t[n - 1] as u64), 0)
    } else if n < 8 {
        (word32(t), word32(t.subrange(n - 4, n)))
    } else {
        (word64(t), word64(t.subrange(n - 8, n)))
    }
}

/// The hash of a key. (To be revealed where two keys have to be told apart.)
#[verifier::opaque]
pub open spec fn key_hash(key: Seq<u8>) -> u64 {
    let n = key.len() as u64;
    let seed = absorb(P0 ^ n.wrapping_mul(P1), key);
    let tail = key.subrange(key.len() - key.len() % 16, key.len() as int);
    let (a, b) = last_words(tail);
    let h = fold(a ^ P1, b ^ seed);
    fold(h ^ P2, ((h << 29) | (h >> 35)) ^ n)
}

fn mum(a: u64, b: u64) -> (r: u64)
    ensures
        r == fold(a, b),
{
    assert(a * b <= 0xffff_ffff_ffff_ffff * 0xffff_ffff_ffff_ffff) by (nonlinear_arith)
        requires
            a <= 0xffff_ffff_ffff_ffff,
            b <= 0xffff_ffff_ffff_ffff,
    ;
    let r: u128 = (a as u128) * (b as u128);
    (r as u64) ^ ((r >> 64) as u64)
}

fn read_u64(b: &[u8]) -> (r: u64)
    requires
        b@.len() >= 8,
    ensures
        r == word64(b@),
{
    u64_from_le_bytes(slice_subrange(b, 0, 8))
}

fn read_u32(b: &[u8]) -> (r: u64)
    requires
        b@.len() >= 4,
    ensures
        r == word32(b@),
{
    u32_from_le_bytes(slice_subrange(b, 0, 4)) as u64
}

/// Hash a key to 64 bits.
pub fn hash64(key: &[u8]) -> (h: u64)
    ensures
        h == key_hash(key@),
{
    proof {
        reveal(key_hash);
    }
    let len: usize = key.len();
    let mut seed: u64 = P0 ^ (len as u64).wrapping_mul(P1);
    let mut p: &[u8] = key;
    let mut at: usize = 0;
    assert(key@.subrange(0, len as int) =~= key@);
    let ghost whole = absorb(seed, key@);
    while p.len() >= 16
        invariant
            len == key@.len(),
            at <= len,
            at % 16 == 0,
            p@ == key@.subrange(at as int, len as int),
            absorb(seed, p@) == whole,
        decreases p@.len(),
    {
        let hi: &[u8] = slice_subrange(p, 8, p.len());
        seed = mum(read_u64(p) ^ P1, read_u64(hi) ^ seed);
        p = slice_subrange(p, 16, p.len());
        at = at + 16;
        assert(p@ =~= key@.subrange(at as int, len as int));
    }
    let n: usize = p.len();
    assert(at == len - len % 16);
    let (a, b): (u64, u64) = if n == 0 {
        (0, 0)
    } else if n < 4 {
        (((p[0] as u64) << 16) | ((p[n / 2] as u64) << 8) | (p[n - 1] as u64), 0)
    } else if n < 8 {
        (read_u32(p), read_u32(slice_subrange(p, n - 4, n)))
    } else {
        (read_u64(p), read_u64(slice_subrange(p, n - 8, n)))
    };
    let h: u64 = mum(a ^ P1, b ^ seed);
    mum(h ^ P2, ((h << 29) | (h >> 35)) ^ (len as u64))
}

} // verus!
