//! Byte-string helpers shared by every layer.
use vstd::prelude::*;
use vstd::slice::{slice_subrange, slice_to_vec};
use vstd::utf8::encode_utf8;

verus! {

/// The bytes of a text constant. (To be revealed where it matters which they are.)
#[verifier::opaque]
pub open spec fn text(s: &str) -> Seq<u8> {
    encode_utf8(s@)
}

/// The bytes of a text.
pub fn raw(s: &str) -> (r: &[u8])
    ensures
        r@ == text(s),
{
    proof {
        reveal(text);
    }
    s.as_bytes()
}

/// Bytes with every run that is not UTF-8 replaced, as
/// `String::from_utf8_lossy` does it.
pub uninterp spec fn lossy(b: Seq<u8>) -> Seq<u8>;

/// `String::from_utf8_lossy`: the text that the bytes hold, with what is not
/// UTF-8 replaced by U+FFFD. Claimed of it: the result depends on the bytes
/// alone, and ASCII comes back unchanged.
#[verifier::external_body]
pub(crate) fn from_utf8_lossy(b: &[u8]) -> (r: Vec<u8>)
    ensures
        r@ == lossy(b@),
        (forall|i: int| 0 <= i < b@.len() ==> #[trigger] b@[i] < 128) ==> r@ == b@,
{
    String::from_utf8_lossy(b).into_owned().into_bytes()
}

/// `s` with the bytes starting at `off` replaced by `t`.
pub open spec fn splice(s: Seq<u8>, off: int, t: Seq<u8>) -> Seq<u8> {
    s.subrange(0, off) + t + s.subrange(off + t.len(), s.len() as int)
}

/// `n` zero bytes.
pub open spec fn zeros(n: nat) -> Seq<u8> {
    Seq::new(n, |i: int| 0u8)
}

/// ASCII upper case of one byte.
pub open spec fn upper_byte(b: u8) -> u8 {
    if 97 <= b <= 122 {
        (b - 32) as u8
    } else {
        b
    }
}

/// ASCII upper case of a byte string.
pub open spec fn upper(s: Seq<u8>) -> Seq<u8> {
    s.map_values(|b: u8| upper_byte(b))
}

/// Whether two byte strings are equal.
pub fn bytes_eq(a: &[u8], b: &[u8]) -> (r: bool)
    ensures
        r == (a@ == b@),
{
    if a.len() != b.len() {
        return false;
    }
    let mut i: usize = 0;
    while i < a.len()
        invariant
            a@.len() == b@.len(),
            i <= a@.len(),
            forall|j: int| 0 <= j < i ==> a@[j] == b@[j],
        decreases a@.len() - i,
    {
        if a[i] != b[i] {
            return false;
        }
        i += 1;
    }
    assert(a@ =~= b@);
    true
}

/// ASCII upper case of one byte.
pub fn to_upper(b: u8) -> (r: u8)
    ensures
        r == upper_byte(b),
{
    if 97 <= b && b <= 122 {
        b - 32
    } else {
        b
    }
}

/// Whether two byte strings are equal up to ASCII case.
pub fn eq_ignore_case(a: &[u8], b: &[u8]) -> (r: bool)
    ensures
        r == (upper(a@) == upper(b@)),
{
    if a.len() != b.len() {
        assert(upper(a@).len() != upper(b@).len());
        return false;
    }
    let mut i: usize = 0;
    while i < a.len()
        invariant
            a@.len() == b@.len(),
            i <= a@.len(),
            forall|j: int| 0 <= j < i ==> upper_byte(a@[j]) == upper_byte(b@[j]),
        decreases a@.len() - i,
    {
        if to_upper(a[i]) != to_upper(b[i]) {
            assert(upper(a@)[i as int] != upper(b@)[i as int]);
            return false;
        }
        i += 1;
    }
    assert(upper(a@) =~= upper(b@));
    true
}

/// Append `s` to `out`.
pub fn push_all(out: &mut Vec<u8>, s: &[u8])
    ensures
        final(out)@ == old(out)@ + s@,
{
    out.extend_from_slice(s);
    assert(out@ =~= old(out)@ + s@);
}

/// A fresh copy of `s[from..to]`.
pub fn copy_range(s: &[u8], from: usize, to: usize) -> (r: Vec<u8>)
    requires
        from <= to <= s@.len(),
    ensures
        r@ == s@.subrange(from as int, to as int),
{
    slice_to_vec(slice_subrange(s, from, to))
}

/// A fresh copy of `s`.
pub fn to_vec(s: &[u8]) -> (r: Vec<u8>)
    ensures
        r@ == s@,
{
    slice_to_vec(s)
}

/// Overwrite `v[off..off + s.len()]` with `s`.
pub fn overwrite(v: &mut Vec<u8>, off: usize, s: &[u8])
    requires
        off + s@.len() <= old(v)@.len(),
    ensures
        final(v)@ == splice(old(v)@, off as int, s@),
        final(v)@.len() == old(v)@.len(),
{
    let ghost before = v@;
    let n: usize = v.len();
    let mut i: usize = 0;
    while i < s.len()
        invariant
            n == before.len(),
            off + s@.len() <= before.len(),
            i <= s@.len(),
            v@.len() == before.len(),
            forall|j: int|
                0 <= j < before.len() ==> v@[j] == (if off <= j < off + i {
                    s@[j - off]
                } else {
                    before[j]
                }),
        decreases s@.len() - i,
    {
        v[off + i] = s[i];
        i += 1;
    }
    assert(v@ =~= splice(before, off as int, s@));
}

/// A vector of `n` zero bytes.
pub fn zero_vec(n: usize) -> (r: Vec<u8>)
    ensures
        r@ == zeros(n as nat),
{
    let mut v: Vec<u8> = Vec::new();
    v.resize(n, 0);
    assert(v@ =~= zeros(n as nat)) by {
        assert forall|i: int| 0 <= i < n implies v@[i] == 0u8 by {
            assert(cloned::<u8>(0u8, v@[i]));
        }
    }
    v
}

} // verus!
