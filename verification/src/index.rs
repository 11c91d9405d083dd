//! Hash index.
//!
//! * A bucket is 8 x 64-bit entries (one cache line).
//! * Entries 0..6 hold `[tentative:1][tag:15][address:48]`. The **bucket
//!   index** comes from the *low* bits of the 64-bit key hash and the **tag**
//!   from the *high* 15 bits, so the tag is an independent discriminator
//!   within the bucket. Every record whose hash maps to the same (bucket, tag)
//!   lives on the reverse-linked chain rooted at `address`.
//! * Entry 7 is special: low 48 bits = address of an overflow bucket (0 =
//!   none), high 16 bits = the **bucket latch** (15-bit shared count +
//!   exclusive bit). The latch lives in the *first* bucket of a chain even
//!   when the entry is in an overflow bucket.
//!
//! Invariant: at most one non-tentative entry per (chain, tag), established by
//! the tentative-bit protocol in [`HashIndex::find_or_create_tag`].
//!
//! Latches never block: `try_lock_*` returns `false`, and the store turns that
//! into a later retry.
use crate::math::next_power_of_two;
use crate::record::{ADDRESS_MASK, TEMP_INVALID_ADDRESS};
use vstd::prelude::*;

verus! {

pub const ENTRIES_PER_BUCKET: usize = 7;

pub const OVERFLOW_ENTRY: usize = 7;

pub const TAG_BITS: u32 = 15;

pub const TAG_SHIFT: u32 = 48;

pub const TAG_MASK: u64 = 0x7fff_0000_0000_0000;

pub const TENTATIVE_BIT: u64 = 0x8000_0000_0000_0000;

// Latch bits in entry 7.
const SHARED_ONE: u64 = 0x1_0000_0000_0000;

const SHARED_MASK: u64 = 0x7fff_0000_0000_0000;

const EXCLUSIVE_BIT: u64 = 0x8000_0000_0000_0000;

#[derive(Clone, Copy)]
pub struct Bucket {
    pub entries: [u64; 8],
}

impl Bucket {
    fn new() -> (r: Self)
        ensures
            forall|i: int| 0 <= i < 8 ==> #[trigger] r.entries@[i] == 0,
    {
        Bucket { entries: [0;8] }
    }
}

// ---------------------------------------------------------------------------
// Entry words
// ---------------------------------------------------------------------------

pub open spec fn entry_address(w: u64) -> u64 {
    w & ADDRESS_MASK
}

pub open spec fn entry_tag(w: u64) -> u64 {
    (w & TAG_MASK) >> 48
}

pub open spec fn entry_tentative(w: u64) -> bool {
    w & TENTATIVE_BIT != 0
}

/// An entry that readers honour: in use for `tag` and not tentative.
pub open spec fn entry_live(w: u64, tag: u64) -> bool {
    w != 0 && entry_tag(w) == tag && !entry_tentative(w)
}

/// What the latch bits of an overflow word say.
pub struct LatchView {
    pub shared: u64,
    pub exclusive: bool,
}

pub open spec fn latch_of(w: u64) -> LatchView {
    LatchView { shared: (w & 0x7fff_0000_0000_0000) >> 48, exclusive: w & 0x8000_0000_0000_0000 != 0 }
}

proof fn lemma_entry_bits(tag: u64, address: u64, w: u64)
    by (bit_vector)
    ensures
        (((tag << 48) & 0x7fff_0000_0000_0000) | (address & 0xffff_ffff_ffff)) & 0xffff_ffff_ffff
            == address & 0xffff_ffff_ffff,
        ((((tag << 48) & 0x7fff_0000_0000_0000) | (address & 0xffff_ffff_ffff))
            & 0x7fff_0000_0000_0000) >> 48 == tag & 0x7fff,
        (((tag << 48) & 0x7fff_0000_0000_0000) | (address & 0xffff_ffff_ffff))
            & 0x8000_0000_0000_0000 == 0,
        ((((tag << 48) & 0x7fff_0000_0000_0000) | (address & 0xffff_ffff_ffff))
            | 0x8000_0000_0000_0000) & 0xffff_ffff_ffff == address & 0xffff_ffff_ffff,
        (((((tag << 48) & 0x7fff_0000_0000_0000) | (address & 0xffff_ffff_ffff))
            | 0x8000_0000_0000_0000) & 0x7fff_0000_0000_0000) >> 48 == tag & 0x7fff,
        ((((tag << 48) & 0x7fff_0000_0000_0000) | (address & 0xffff_ffff_ffff))
            | 0x8000_0000_0000_0000) & 0x8000_0000_0000_0000 != 0,
        tag <= 0x7fff ==> tag & 0x7fff == tag,
        tag & 0x7fff <= 0x7fff,
        address <= 0xffff_ffff_ffff ==> address & 0xffff_ffff_ffff == address,
        address & 0xffff_ffff_ffff <= 0xffff_ffff_ffff,
        0u64 & 0xffff_ffff_ffff == 0,
        0u64 & 0x8000_0000_0000_0000 == 0,
        (0u64 & 0x7fff_0000_0000_0000) >> 48 == 0,
        w >> 49 <= 0x7fff,
        (w & 0x7fff_0000_0000_0000) >> 48 <= 0x7fff,
        // linking an overflow bucket keeps the latch
        ((w & !0xffff_ffff_ffff) | address) & 0x7fff_0000_0000_0000 == (if address
            <= 0xffff_ffff_ffff {
            w & 0x7fff_0000_0000_0000
        } else {
            ((w & !0xffff_ffff_ffff) | address) & 0x7fff_0000_0000_0000
        }),
        address <= 0xffff_ffff_ffff ==> ((w & !0xffff_ffff_ffff) | address) & 0x8000_0000_0000_0000
            == w & 0x8000_0000_0000_0000,
        address <= 0xffff_ffff_ffff ==> ((w & !0xffff_ffff_ffff) | address) & 0xffff_ffff_ffff
            == address,
{
}

proof fn lemma_latch_bits(w: u64)
    by (bit_vector)
    ensures
        (w & 0x7fff_0000_0000_0000) >> 48 <= 0x7fff,
        (w & 0x7fff_0000_0000_0000 == 0x7fff_0000_0000_0000) == ((w & 0x7fff_0000_0000_0000) >> 48
            == 0x7fff),
        (w & 0x7fff_0000_0000_0000 == 0) == ((w & 0x7fff_0000_0000_0000) >> 48 == 0),
        // one more reader
        w & 0x7fff_0000_0000_0000 != 0x7fff_0000_0000_0000 ==> w + 0x1_0000_0000_0000
            <= 0xffff_ffff_ffff_ffff,
        w & 0x7fff_0000_0000_0000 != 0x7fff_0000_0000_0000 ==> ((((w + 0x1_0000_0000_0000) as u64)
            & 0x7fff_0000_0000_0000) >> 48) as int == ((w & 0x7fff_0000_0000_0000) >> 48) + 1,
        w & 0x7fff_0000_0000_0000 != 0x7fff_0000_0000_0000 ==> ((w + 0x1_0000_0000_0000) as u64)
            & 0x8000_0000_0000_0000 == w & 0x8000_0000_0000_0000,
        w & 0x7fff_0000_0000_0000 != 0x7fff_0000_0000_0000 ==> ((w + 0x1_0000_0000_0000) as u64)
            & 0xffff_ffff_ffff == w & 0xffff_ffff_ffff,
        // one reader less
        w & 0x7fff_0000_0000_0000 != 0 ==> w >= 0x1_0000_0000_0000,
        w & 0x7fff_0000_0000_0000 != 0 ==> ((((w - 0x1_0000_0000_0000) as u64)
            & 0x7fff_0000_0000_0000) >> 48) as int == ((w & 0x7fff_0000_0000_0000) >> 48) - 1,
        w & 0x7fff_0000_0000_0000 != 0 ==> ((w - 0x1_0000_0000_0000) as u64) & 0x8000_0000_0000_0000
            == w & 0x8000_0000_0000_0000,
        w & 0x7fff_0000_0000_0000 != 0 ==> ((w - 0x1_0000_0000_0000) as u64) & 0xffff_ffff_ffff == w
            & 0xffff_ffff_ffff,
        // the exclusive bit
        (w | 0x8000_0000_0000_0000) & 0x7fff_0000_0000_0000 == w & 0x7fff_0000_0000_0000,
        (w | 0x8000_0000_0000_0000) & 0x8000_0000_0000_0000 != 0,
        (w | 0x8000_0000_0000_0000) & 0xffff_ffff_ffff == w & 0xffff_ffff_ffff,
        (w & !0x8000_0000_0000_0000) & 0x7fff_0000_0000_0000 == w & 0x7fff_0000_0000_0000,
        (w & !0x8000_0000_0000_0000) & 0x8000_0000_0000_0000 == 0,
        (w & !0x8000_0000_0000_0000) & 0xffff_ffff_ffff == w & 0xffff_ffff_ffff,
        w & 0x8000_0000_0000_0000 == 0 ==> (w | 0x8000_0000_0000_0000) & !0x8000_0000_0000_0000
            == w,
{
}

proof fn lemma_mask(h: u64, m: u64)
    by (bit_vector)
    ensures
        h & m <= m,
{
}

/// Masking with a power of two less one is the remainder.
proof fn lemma_mask_mod(h: u64, n: u64)
    requires
        exists|k: nat| n == #[trigger] vstd::arithmetic::power2::pow2(k),
    ensures
        h & ((n - 1) as u64) == h % n,
{
    let k = choose|k: nat| n == #[trigger] vstd::arithmetic::power2::pow2(k);
    vstd::arithmetic::power2::lemma2_to64();
    if k >= 64 {
        if k > 64 {
            vstd::arithmetic::power2::lemma_pow2_strictly_increases(64, k);
        }
    }
    vstd::arithmetic::power2::lemma_pow2_pos(k);
    vstd::bits::lemma_u64_low_bits_mask_is_mod(h, k);
    assert(vstd::bits::low_bits_mask(k) == n - 1);
}

/// Decoded entry word.
#[derive(Clone, Copy, Debug, PartialEq, Eq, Structural)]
pub struct HashEntry(pub u64);

impl HashEntry {
    pub fn make(tag: u64, address: u64, tentative: bool) -> (r: Self)
        ensures
            entry_tag(r.0) == tag & 0x7fff,
            entry_address(r.0) == address & ADDRESS_MASK,
            entry_tentative(r.0) == tentative,
            address & ADDRESS_MASK != 0 ==> r.0 != 0,
            r.0 == made(tag, address, tentative),
    {
        let mut w: u64 = ((tag << 48) & TAG_MASK) | (address & ADDRESS_MASK);
        proof {
            lemma_entry_bits(tag, address, 0);
        }
        if tentative {
            w = w | TENTATIVE_BIT;
        }
        HashEntry(w)
    }

    pub fn address(self) -> (r: u64)
        ensures
            r == entry_address(self.0),
            r <= ADDRESS_MASK,
    {
        proof {
            lemma_entry_bits(0, self.0, 0);
        }
        self.0 & ADDRESS_MASK
    }

    pub fn tag(self) -> (r: u64)
        ensures
            r == entry_tag(self.0),
    {
        (self.0 & TAG_MASK) >> 48
    }

    pub fn is_tentative(self) -> (r: bool)
        ensures
            r == entry_tentative(self.0),
    {
        self.0 & TENTATIVE_BIT != 0
    }

    pub fn is_empty(self) -> (r: bool)
        ensures
            r == (self.0 == 0),
    {
        self.0 == 0
    }
}

/// The word of an entry with these fields.
pub open spec fn made(tag: u64, address: u64, tentative: bool) -> u64 {
    let w = ((tag << 48) & TAG_MASK) | (address & ADDRESS_MASK);
    if tentative {
        w | TENTATIVE_BIT
    } else {
        w
    }
}

/// An entry gives back the tag of 15 bits, the address of 48 bits and the mark
/// that it was made of.
pub proof fn an_entry_holds_what_it_was_made_of(tag: u64, address: u64, tentative: bool)
    requires
        tag <= 0x7fff,
        address <= 0xffff_ffff_ffff,
    ensures
        ({
            let w = made(tag, address, tentative);
            entry_tag(w) == tag && entry_address(w) == address && entry_tentative(w) == tentative
        }),
{
    let w = ((tag << 48) & TAG_MASK) | (address & ADDRESS_MASK);
    assert(((((tag << 48) & 0x7fff_0000_0000_0000) | (address & 0xffff_ffff_ffff))
        & 0x7fff_0000_0000_0000) >> 48 == tag && (((tag << 48) & 0x7fff_0000_0000_0000) | (address
        & 0xffff_ffff_ffff)) & 0xffff_ffff_ffff == address && (((tag << 48) & 0x7fff_0000_0000_0000)
        | (address & 0xffff_ffff_ffff)) & 0x8000_0000_0000_0000 == 0 && (((((tag << 48)
        & 0x7fff_0000_0000_0000) | (address & 0xffff_ffff_ffff)) | 0x8000_0000_0000_0000)
        & 0x7fff_0000_0000_0000) >> 48 == tag && ((((tag << 48) & 0x7fff_0000_0000_0000) | (address
        & 0xffff_ffff_ffff)) | 0x8000_0000_0000_0000) & 0xffff_ffff_ffff == address && ((((tag << 48)
        & 0x7fff_0000_0000_0000) | (address & 0xffff_ffff_ffff)) | 0x8000_0000_0000_0000)
        & 0x8000_0000_0000_0000 != 0) by (bit_vector)
        requires
            tag <= 0x7fff,
            address <= 0xffff_ffff_ffff,
    ;
}

/// A located slot: the bucket that holds it and its place there, plus the
/// main-table bucket index (for latching).
#[derive(Clone, Copy, Debug)]
pub struct SlotRef {
    pub node: usize,
    pub entry: usize,
    pub bucket: usize,
    pub tag: u64,
}

impl SlotRef {
    pub fn load(&self, index: &HashIndex) -> (r: HashEntry)
        requires
            index.inv(),
            index.holds(*self) || index.located(*self),
        ensures
            r.0 == index.slot_word(*self),
            !entry_tentative(r.0),
            index.holds(*self) ==> r.0 != 0 && entry_tag(r.0) == self.tag && index.lookup(
                self.bucket as int,
                self.tag,
            ) == Some(entry_address(r.0)),
    {
        proof {
            index.lemma_located(*self);
            if index.holds(*self) {
                index.lemma_held(*self);
            }
        }
        HashEntry(index.nodes[self.node].entries[self.entry])
    }

    /// Install `new_address` for this tag if the entry still equals `expected`.
    /// (Address 0 under tag 0 is the word of an empty slot.)
    pub fn try_cas(&self, index: &mut HashIndex, expected: HashEntry, new_address: u64) -> (r: bool)
        requires
            old(index).inv(),
            old(index).holds(*self),
        ensures
            final(index).inv(),
            final(index).located(*self),
            final(index).same_shape(old(index)),
            final(index).same_latches(old(index)),
            final(index).spare() == old(index).spare(),
            final(index).same_but(old(index), self.bucket as int, self.tag),
            r == (old(index).slot_word(*self) == expected.0),
            r ==> final(index).slot_word(*self) == made(self.tag, new_address, false),
            !r ==> *final(index) == *old(index),
            self.tag != 0 || new_address & ADDRESS_MASK != 0 ==> made(self.tag, new_address, false) != 0,
            r && made(self.tag, new_address, false) != 0 ==> {
                &&& final(index).holds(*self)
                &&& final(index).same_room(old(index))
                &&& final(index).lookup(self.bucket as int, self.tag) == Some(
                    new_address & ADDRESS_MASK,
                )
            },
            r && made(self.tag, new_address, false) == 0 ==> {
                &&& final(index).lookup(self.bucket as int, self.tag) is None
                &&& final(index).free(self.bucket as int) == old(index).free(self.bucket as int) + 1
            },
            forall|b: int|
                0 <= b < final(index).bucket_count() && b != self.bucket ==> #[trigger] final(index).free(
                    b,
                ) == old(index).free(b),
    {
        proof {
            index.lemma_held(*self);
            lemma_entry_bits(self.tag, new_address, 0);
        }
        if index.nodes[self.node].entries[self.entry] != expected.0 {
            return false;
        }
        let new = HashEntry::make(self.tag, new_address, false);
        index.put(self, new.0);
        proof {
            old(index).lemma_wrote(*index, *self, new.0);
        }
        true
    }

    /// Remove the entry entirely (elision) if it still equals `expected`. A slot
    /// whose entry is gone, or has made way for another, is left alone.
    pub fn try_elide(&self, index: &mut HashIndex, expected: HashEntry) -> (r: bool)
        requires
            old(index).inv(),
            old(index).holds(*self) || old(index).located(*self),
        ensures
            final(index).inv(),
            final(index).located(*self),
            final(index).same_shape(old(index)),
            final(index).same_latches(old(index)),
            final(index).spare() == old(index).spare(),
            r == (old(index).slot_word(*self) == expected.0),
            r ==> final(index).slot_word(*self) == 0,
            r && expected.0 != 0 ==> final(index).lookup(
                self.bucket as int,
                entry_tag(expected.0),
            ) is None && final(index).same_but(
                old(index),
                self.bucket as int,
                entry_tag(expected.0),
            ),
            r && expected.0 == 0 ==> final(index).same_entries(old(index)) && final(index).same_room(
                old(index),
            ),
            r && expected.0 != 0 ==> final(index).free(self.bucket as int) == old(index).free(
                self.bucket as int,
            ) + 1,
            forall|b: int|
                0 <= b < final(index).bucket_count() && b != self.bucket ==> #[trigger] final(index).free(
                    b,
                ) == old(index).free(b),
            old(index).holds(*self) && r ==> entry_tag(expected.0) == self.tag,
            !r ==> *final(index) == *old(index),
    {
        proof {
            index.lemma_located(*self);
        }
        if index.nodes[self.node].entries[self.entry] != expected.0 {
            return false;
        }
        let ghost o = *index;
        index.put(self, 0);
        proof {
            let w = o.slot_word(*self);
            if w == 0 {
                assert(index.nodes@ =~= o.nodes@) by {
                    assert forall|n: int| 0 <= n < o.nodes@.len() implies #[trigger] index.nodes@[n]
                        == o.nodes@[n] by {
                        assert forall|i: int| 0 <= i < 8 implies #[trigger] index.nodes@[n].entries@[i]
                            == o.nodes@[n].entries@[i] by {
                            assert(word_at(index.nodes@, n, i) == word_at(o.nodes@, n, i));
                        }
                        assert(index.nodes@[n].entries =~= o.nodes@[n].entries);
                    }
                }
            } else {
                let s = SlotRef { tag: entry_tag(w), ..*self };
                o.lemma_wrote(*index, s, 0);
            }
        }
        true
    }
}

pub struct HashIndex {
    /// The main table followed by the overflow arena.
    nodes: Vec<Bucket>,
    /// Size of the main table.
    size: usize,
    mask: u64,
    /// Next free overflow address (0 = no overflow bucket).
    overflow_next: u64,
    /// For each main bucket, the nodes of its chain.
    chains: Ghost<Seq<Seq<int>>>,
}

spec fn word_at(nodes: Seq<Bucket>, node: int, i: int) -> u64 {
    nodes[node].entries@[i]
}

/// Whether the entry at (`node`, `i`) is the live one of `tag` in chain `c`.
spec fn live_at(nodes: Seq<Bucket>, c: Seq<int>, tag: u64, node: int, i: int) -> bool {
    0 <= i < 7 && c.contains(node) && entry_live(word_at(nodes, node, i), tag)
}

spec fn dir(nodes: Seq<Bucket>, c: Seq<int>, tag: u64) -> Option<u64> {
    if exists|node: int, i: int| #[trigger] live_at(nodes, c, tag, node, i) {
        let (node, i) = choose|node: int, i: int| #[trigger] live_at(nodes, c, tag, node, i);
        Some(entry_address(word_at(nodes, node, i)))
    } else {
        None
    }
}

/// At most one live entry per tag in a chain, and none is tentative at rest.
spec fn chain_entries_ok(nodes: Seq<Bucket>, c: Seq<int>) -> bool {
    &&& forall|tag: u64, n1: int, i1: int, n2: int, i2: int|
        #[trigger] live_at(nodes, c, tag, n1, i1) && #[trigger] live_at(nodes, c, tag, n2, i2)
            ==> n1 == n2 && i1 == i2
    &&& forall|k: int, i: int|
        0 <= k < c.len() && 0 <= i < 7 ==> !entry_tentative(#[trigger] word_at(nodes, c[k], i))
}

/// The overflow pointers of chain `c` of main bucket `b` lead along it.
spec fn chain_links_ok(nodes: Seq<Bucket>, c: Seq<int>, b: int, size: int, next: int) -> bool {
    &&& c.len() >= 1
    &&& c[0] == b
    &&& forall|k: int| 1 <= k < c.len() ==> size <= #[trigger] c[k] < size + next - 1
    &&& forall|k: int|
        0 <= k < c.len() ==> entry_address(#[trigger] word_at(nodes, c[k], 7)) == (if k + 1
            < c.len() {
            c[k + 1] - size + 1
        } else {
            0
        })
}

spec fn chains_disjoint(chains: Seq<Seq<int>>) -> bool {
    forall|b1: int, k1: int, b2: int, k2: int|
        0 <= b1 < chains.len() && 0 <= b2 < chains.len() && 0 <= k1 < chains[b1].len() && 0 <= k2
            < chains[b2].len() && #[trigger] chains[b1][k1] == #[trigger] chains[b2][k2] ==> b1 == b2
            && k1 == k2
}

/// Whether position (`b1`, `k1`, `i1`) comes before (`b`, `k`, `i`) in a walk
/// over all chains.
spec fn before(b1: int, k1: int, i1: int, b: int, k: int, i: int) -> bool {
    b1 < b || (b1 == b && (k1 < k || (k1 == k && i1 < i)))
}

spec fn chain_has_free(nodes: Seq<Bucket>, c: Seq<int>) -> bool {
    exists|k: int, i: int|
        0 <= k < c.len() && 0 <= i < 7 && #[trigger] word_at(nodes, c[k], i) == 0
}

/// How many of the first `n` slots of a chain are empty.
spec fn vacant(nodes: Seq<Bucket>, c: Seq<int>, n: int) -> nat
    decreases n,
{
    if n <= 0 {
        0
    } else {
        vacant(nodes, c, n - 1) + (if word_at(nodes, c[(n - 1) / 7], (n - 1) % 7) == 0 {
            1nat
        } else {
            0nat
        })
    }
}

/// Chains with the same words have as many empty slots.
proof fn lemma_vacant_same(m: Seq<Bucket>, n: Seq<Bucket>, c: Seq<int>, d: Seq<int>, upto: int)
    requires
        forall|k: int, i: int|
            0 <= k && 7 * k + i < upto && 0 <= i < 7 ==> #[trigger] word_at(n, d[k], i) == word_at(m, c[k], i),
    ensures
        vacant(n, d, upto) == vacant(m, c, upto),
    decreases upto,
{
    if upto > 0 {
        lemma_vacant_same(m, n, c, d, upto - 1);
        let k = (upto - 1) / 7;
        let i = (upto - 1) % 7;
        assert(word_at(n, d[k], i) == word_at(m, c[k], i));
    }
}

/// Nor does it matter what the words are that are not empty.
proof fn lemma_vacant_alike(m: Seq<Bucket>, n: Seq<Bucket>, c: Seq<int>, upto: int)
    requires
        forall|k: int, i: int|
            0 <= k && 7 * k + i < upto && 0 <= i < 7 ==> ((#[trigger] word_at(n, c[k], i) == 0) == (word_at(
                m,
                c[k],
                i,
            ) == 0)),
    ensures
        vacant(n, c, upto) == vacant(m, c, upto),
    decreases upto,
{
    if upto > 0 {
        lemma_vacant_alike(m, n, c, upto - 1);
        let k = (upto - 1) / 7;
        let i = (upto - 1) % 7;
        assert((word_at(n, c[k], i) == 0) == (word_at(m, c[k], i) == 0));
    }
}

/// One empty slot is filled.
proof fn lemma_vacant_filled(m: Seq<Bucket>, n: Seq<Bucket>, c: Seq<int>, upto: int, k0: int, i0: int)
    requires
        0 <= k0,
        0 <= i0 < 7,
        7 * k0 + i0 < upto,
        word_at(m, c[k0], i0) == 0,
        word_at(n, c[k0], i0) != 0,
        forall|k: int, i: int|
            0 <= k && 7 * k + i < upto && 0 <= i < 7 && !(k == k0 && i == i0) ==> #[trigger] word_at(n, c[k], i)
                == word_at(m, c[k], i),
    ensures
        vacant(n, c, upto) + 1 == vacant(m, c, upto),
    decreases upto,
{
    let k = (upto - 1) / 7;
    let i = (upto - 1) % 7;
    if upto - 1 == 7 * k0 + i0 {
        assert(k == k0 && i == i0);
        assert forall|x: int, y: int| 0 <= x && 7 * x + y < upto - 1 && 0 <= y < 7 implies #[trigger] word_at(
            n,
            c[x],
            y,
        ) == word_at(m, c[x], y) by {
            assert(!(x == k0 && y == i0));
        }
        lemma_vacant_same(m, n, c, c, upto - 1);
    } else {
        lemma_vacant_filled(m, n, c, upto - 1, k0, i0);
        assert(7 * k + i < upto);
        assert(word_at(n, c[k], i) == word_at(m, c[k], i));
    }
}

/// Whether there is an empty slot.
proof fn lemma_vacant_some(nodes: Seq<Bucket>, c: Seq<int>, upto: int)
    ensures
        vacant(nodes, c, upto) > 0 <==> exists|k: int, i: int|
            0 <= k && 7 * k + i < upto && 0 <= i < 7 && #[trigger] word_at(nodes, c[k], i) == 0,
    decreases upto,
{
    if upto > 0 {
        lemma_vacant_some(nodes, c, upto - 1);
        let k = (upto - 1) / 7;
        let i = (upto - 1) % 7;
        if word_at(nodes, c[k], i) == 0 {
            assert(0 <= k && 7 * k + i < upto && 0 <= i < 7);
        } else if exists|x: int, y: int|
            0 <= x && 7 * x + y < upto && 0 <= y < 7 && #[trigger] word_at(nodes, c[x], y) == 0 {
            let (x, y) = choose|x: int, y: int|
                0 <= x && 7 * x + y < upto && 0 <= y < 7 && #[trigger] word_at(nodes, c[x], y) == 0;
            assert(7 * x + y < upto - 1) by {
                if 7 * x + y == upto - 1 {
                    assert(x == k && y == i);
                }
            }
            assert(word_at(nodes, c[x], y) == 0);
        }
    }
}

/// A blank bucket adds seven empty slots.
proof fn lemma_vacant_blank(m: Seq<Bucket>, n: Seq<Bucket>, c: Seq<int>, new: int)
    requires
        forall|k: int, i: int|
            0 <= k < c.len() && 0 <= i < 7 ==> #[trigger] word_at(n, c[k], i) == word_at(m, c[k], i),
        forall|i: int| 0 <= i < 7 ==> #[trigger] word_at(n, new, i) == 0,
    ensures
        vacant(n, c.push(new), 7 * (c.len() as int + 1)) == vacant(m, c, 7 * c.len() as int) + 7,
{
    let d = c.push(new);
    let l = 7 * c.len() as int;
    assert forall|k: int, i: int| 0 <= k && 7 * k + i < l && 0 <= i < 7 implies #[trigger] word_at(
        n,
        d[k],
        i,
    ) == word_at(m, c[k], i) by {
        assert(d[k] == c[k]);
    }
    lemma_vacant_same(m, n, c, d, l);
    assert(d[c.len() as int] == new);
    assert(forall|i: int| 0 <= i < 7 ==> #[trigger] word_at(n, d[(l + i) / 7], (l + i) % 7) == 0) by {
        assert forall|i: int| 0 <= i < 7 implies #[trigger] word_at(n, d[(l + i) / 7], (l + i) % 7) == 0 by {
            assert((l + i) / 7 == c.len() && (l + i) % 7 == i);
            assert(word_at(n, new, i) == 0);
        }
    }
    lemma_vacant_run(n, d, l, 7);
}

proof fn lemma_vacant_run(n: Seq<Bucket>, d: Seq<int>, l: int, j: int)
    requires
        l >= 0,
        0 <= j <= 7,
        forall|i: int| 0 <= i < 7 ==> #[trigger] word_at(n, d[(l + i) / 7], (l + i) % 7) == 0,
    ensures
        vacant(n, d, l + j) == vacant(n, d, l) + j,
    decreases j,
{
    if j > 0 {
        lemma_vacant_run(n, d, l, j - 1);
        let i = j - 1;
        assert(word_at(n, d[(l + i) / 7], (l + i) % 7) == 0);
        assert(l + j - 1 == l + i);
    }
}

/// Overflow buckets not handed out yet are blank.
spec fn arena_blank(nodes: Seq<Bucket>, from: int) -> bool {
    forall|node: int, i: int|
        from <= node < nodes.len() && 0 <= i < 8 ==> #[trigger] word_at(nodes, node, i) == 0
}

impl HashIndex {
    pub closed spec fn inv(&self) -> bool {
        &&& 2 <= self.size < self.nodes@.len()
        &&& self.nodes@.len() <= usize::MAX
        &&& self.mask == self.size - 1
        &&& 1 <= self.overflow_next <= self.nodes@.len() - self.size + 1
        &&& self.nodes@.len() - self.size <= ADDRESS_MASK
        &&& self.chains@.len() == self.size
        &&& forall|b: int|
            0 <= b < self.size ==> chain_links_ok(
                self.nodes@,
                #[trigger] self.chains@[b],
                b,
                self.size as int,
                self.overflow_next as int,
            )
        &&& forall|b: int|
            0 <= b < self.size ==> chain_entries_ok(self.nodes@, #[trigger] self.chains@[b])
        &&& chains_disjoint(self.chains@)
        &&& arena_blank(self.nodes@, self.size + self.overflow_next - 1)
    }

    /// Number of main buckets.
    pub closed spec fn bucket_count(&self) -> int {
        self.size as int
    }

    /// The address recorded for (`bucket`, `tag`), if there is an entry.
    pub closed spec fn lookup(&self, bucket: int, tag: u64) -> Option<u64> {
        dir(self.nodes@, self.chains@[bucket], tag)
    }

    /// The latch of a main bucket.
    pub closed spec fn latch(&self, bucket: int) -> LatchView {
        latch_of(word_at(self.nodes@, bucket, 7))
    }

    /// How many overflow buckets are left.
    pub closed spec fn spare(&self) -> int {
        self.nodes@.len() - self.size - (self.overflow_next - 1)
    }

    /// How many overflow buckets there are altogether.
    pub closed spec fn arena(&self) -> int {
        self.nodes@.len() - self.size
    }

    /// Whether an overflow bucket is left for a new tag.
    pub open spec fn room(&self) -> bool {
        self.spare() > 0
    }

    /// Whether an entry for (`bucket`, `tag`) exists or can be made: there is
    /// one already, or a free slot in the chain, or an overflow bucket left.
    pub open spec fn placeable(&self, bucket: int, tag: u64) -> bool {
        self.room() || self.lookup(bucket, tag) is Some || self.has_free(bucket)
    }

    /// How many slots in the chain of a bucket are free.
    pub closed spec fn free(&self, bucket: int) -> nat {
        vacant(self.nodes@, self.chains@[bucket], 7 * self.chains@[bucket].len() as int)
    }

    pub open spec fn has_free(&self, bucket: int) -> bool {
        self.free(bucket) > 0
    }

    /// A chain has a free slot if one of its words is empty.
    proof fn lemma_free(&self, bucket: int)
        ensures
            self.has_free(bucket) <==> chain_has_free(self.nodes@, self.chains@[bucket]),
    {
        let c = self.chains@[bucket];
        let n = 7 * c.len() as int;
        lemma_vacant_some(self.nodes@, c, n);
        if chain_has_free(self.nodes@, c) {
            let (k, i) = choose|k: int, i: int|
                0 <= k < c.len() && 0 <= i < 7 && #[trigger] word_at(self.nodes@, c[k], i) == 0;
            assert(7 * k + i < n);
            assert(word_at(self.nodes@, c[k], i) == 0);
        }
        if self.has_free(bucket) {
            let (k, i) = choose|k: int, i: int|
                0 <= k && 7 * k + i < n && 0 <= i < 7 && #[trigger] word_at(self.nodes@, c[k], i) == 0;
            assert(k < c.len());
            assert(word_at(self.nodes@, c[k], i) == 0);
        }
    }

    /// The bucket a hash belongs to.
    pub closed spec fn bucket_of(&self, hash: u64) -> int {
        (hash & self.mask) as int
    }

    /// Whether `s` is a slot of its bucket.
    pub closed spec fn located(&self, s: SlotRef) -> bool {
        &&& 0 <= s.bucket < self.size
        &&& s.entry < 7
        &&& self.chains@[s.bucket as int].contains(s.node as int)
    }

    /// Whether `s` is the slot of an entry that stands in the index.
    pub closed spec fn holds(&self, s: SlotRef) -> bool {
        &&& 0 <= s.bucket < self.size
        &&& s.entry < 7
        &&& s.tag <= 0x7fff
        &&& self.chains@[s.bucket as int].contains(s.node as int)
        &&& entry_live(word_at(self.nodes@, s.node as int, s.entry as int), s.tag)
    }

    /// The word in a slot.
    pub closed spec fn slot_word(&self, s: SlotRef) -> u64 {
        word_at(self.nodes@, s.node as int, s.entry as int)
    }

    /// Same buckets and latches as `other`.
    pub open spec fn same_shape(&self, other: &HashIndex) -> bool {
        &&& self.bucket_count() == other.bucket_count()
        &&& forall|h: u64| #[trigger] self.bucket_of(h) == other.bucket_of(h)
    }

    pub open spec fn same_latches(&self, other: &HashIndex) -> bool {
        forall|b: int| 0 <= b < self.bucket_count() ==> #[trigger] self.latch(b) == other.latch(b)
    }

    /// No latch is held.
    pub open spec fn latches_free(&self) -> bool {
        forall|b: int|
            0 <= b < self.bucket_count() ==> #[trigger] self.latch(b) == (LatchView {
                shared: 0,
                exclusive: false,
            })
    }

    /// As much room as in `other`, in every bucket and in the overflow arena.
    pub open spec fn same_room(&self, other: &HashIndex) -> bool {
        &&& self.spare() == other.spare()
        &&& forall|b: int|
            0 <= b < self.bucket_count() ==> #[trigger] self.free(b) == other.free(b)
    }

    /// What giving (`bucket`, `tag`) an entry costs: nothing if it has one, or is
    /// given none; else one slot of the bucket, after another overflow bucket if
    /// no slot was free. Other buckets keep what they have.
    pub open spec fn grown(&self, other: &HashIndex, bucket: int, tag: u64) -> bool {
        &&& other.lookup(bucket, tag) is Some ==> self.lookup(bucket, tag) is Some
        &&& if other.lookup(bucket, tag) is Some || self.lookup(bucket, tag) is None {
            self.same_room(other)
        } else {
            &&& if other.free(bucket) > 0 {
                self.spare() == other.spare() && self.free(bucket) == other.free(bucket) - 1
            } else {
                self.spare() == other.spare() - 1 && self.free(bucket) == 6
            }
            &&& forall|b: int|
                0 <= b < self.bucket_count() && b != bucket ==> #[trigger] self.free(b) == other.free(b)
        }
    }

    /// How many slots of the first `n` buckets are free.
    pub open spec fn free_upto(&self, n: int) -> int
        decreases n,
    {
        if n <= 0 {
            0
        } else {
            self.free_upto(n - 1) + self.free(n - 1)
        }
    }

    /// How many entries there is room for at least, in slots: those that are free
    /// and those of the overflow buckets that are left.
    pub open spec fn worth(&self) -> int {
        7 * self.spare() + self.free_upto(self.bucket_count())
    }

    /// No bucket was given another overflow bucket before its slots were used up.
    pub open spec fn compact(&self) -> bool {
        forall|b: int| 0 <= b < self.bucket_count() ==> #[trigger] self.free(b) <= 7
    }

    proof fn lemma_free_upto(o: &HashIndex, n: &HashIndex, bucket: int, upto: int)
        requires
            forall|b: int| 0 <= b < upto && b != bucket ==> #[trigger] n.free(b) == o.free(b),
        ensures
            n.free_upto(upto) == o.free_upto(upto) + (if 0 <= bucket < upto {
                n.free(bucket) - o.free(bucket)
            } else {
                0
            }),
        decreases upto,
    {
        if upto > 0 {
            Self::lemma_free_upto(o, n, bucket, upto - 1);
        }
    }

    proof fn lemma_free_bounds(&self, upto: int)
        requires
            forall|b: int| 0 <= b < upto ==> #[trigger] self.free(b) <= 7,
            0 <= upto,
        ensures
            self.free_upto(upto) <= 7 * upto,
            (forall|b: int| 0 <= b < upto ==> #[trigger] self.free(b) == 7) ==> self.free_upto(upto)
                == 7 * upto,
        decreases upto,
    {
        if upto > 0 {
            self.lemma_free_bounds(upto - 1);
        }
    }

    pub proof fn lemma_worth(&self)
        requires
            self.compact(),
        ensures
            self.worth() <= 7 * self.spare() + 7 * self.bucket_count(),
            (forall|b: int| 0 <= b < self.bucket_count() ==> #[trigger] self.free(b) == 7) ==> self.worth()
                == 7 * self.spare() + 7 * self.bucket_count(),
    {
        self.lemma_free_bounds(self.bucket_count());
    }

    /// A new entry uses up one slot.
    pub proof fn lemma_worth_step(o: &HashIndex, n: &HashIndex, bucket: int, tag: u64)
        requires
            n.bucket_count() == o.bucket_count(),
            0 <= bucket < o.bucket_count(),
            o.compact(),
            n.grown(o, bucket, tag),
        ensures
            n.compact(),
            n.worth() == o.worth() - (if o.lookup(bucket, tag) is None && n.lookup(bucket, tag) is Some {
                1int
            } else {
                0
            }),
    {
        assert(o.free(bucket) <= 7);
        assert(n.free(bucket) == n.free(bucket));
        Self::lemma_free_upto(o, n, bucket, o.bucket_count());
        assert forall|b: int| 0 <= b < n.bucket_count() implies #[trigger] n.free(b) <= 7 by {
            assert(o.free(b) <= 7);
        }
    }

    /// What keeps the free slots keeps what an entry has cost.
    pub proof fn lemma_grown_room(a: &HashIndex, b: &HashIndex, c: &HashIndex, bucket: int, tag: u64)
        requires
            a.bucket_count() == b.bucket_count() == c.bucket_count(),
            0 <= bucket < a.bucket_count(),
            b.grown(a, bucket, tag),
            c.same_room(b),
            c.lookup(bucket, tag) is Some <==> b.lookup(bucket, tag) is Some,
        ensures
            c.grown(a, bucket, tag),
    {
        assert(c.free(bucket) == b.free(bucket));
        assert forall|x: int| 0 <= x < c.bucket_count() && b.free(x) == a.free(x) implies #[trigger] c.free(
            x,
        ) == a.free(x) by {
            assert(c.free(x) == b.free(x));
        }
    }

    /// An entry is paid for once.
    pub proof fn lemma_grown_trans(a: &HashIndex, b: &HashIndex, c: &HashIndex, bucket: int, tag: u64)
        requires
            a.bucket_count() == b.bucket_count() == c.bucket_count(),
            0 <= bucket < a.bucket_count(),
            b.grown(a, bucket, tag),
            c.grown(b, bucket, tag),
        ensures
            c.grown(a, bucket, tag),
    {
        assert(b.free(bucket) == b.free(bucket) && c.free(bucket) == c.free(bucket));
        assert forall|x: int| 0 <= x < c.bucket_count() && x != bucket implies #[trigger] c.free(x)
            == a.free(x) by {
            assert(b.free(x) == a.free(x));
        }
    }

    /// Same entries as `other` for every (bucket, tag) but one.
    pub open spec fn same_but(&self, other: &HashIndex, bucket: int, tag: u64) -> bool {
        forall|b: int, t: u64|
            0 <= b < self.bucket_count() && (b != bucket || t != tag) ==> #[trigger] self.lookup(b, t)
                == other.lookup(b, t)
    }

    pub open spec fn same_entries(&self, other: &HashIndex) -> bool {
        forall|b: int, t: u64|
            0 <= b < self.bucket_count() ==> #[trigger] self.lookup(b, t) == other.lookup(b, t)
    }

    /// `size` buckets (rounded up to a power of two), plus an overflow arena.
    pub fn new(size: usize) -> (r: Self)
        requires
            size <= usize::MAX / 16,
            size <= 0x4000_0000_0000,
        ensures
            r.inv(),
            r.spare() == (if 2 * r.bucket_count() > 1024 {
                2 * r.bucket_count()
            } else {
                1024
            }),
            r.arena() == r.spare(),
            r.bucket_count() >= size,
            r.bucket_count() >= 2,
            r.bucket_count() == 2 || r.bucket_count() < 2 * size,
            exists|k: nat| r.bucket_count() == #[trigger] vstd::arithmetic::power2::pow2(k),
            forall|b: int| 0 <= b < r.bucket_count() ==> #[trigger] r.free(b) == 7,
            forall|b: int, t: u64|
                0 <= b < r.bucket_count() ==> #[trigger] r.lookup(b, t) == None::<u64>,
            forall|b: int, t: u64| #[trigger] r.placeable(b, t),
            forall|b: int|
                0 <= b < r.bucket_count() ==> #[trigger] r.latch(b) == (LatchView {
                    shared: 0,
                    exclusive: false,
                }),
            forall|h: u64| #[trigger] r.bucket_of(h) == h as int % r.bucket_count(),
            forall|h: u64| 0 <= #[trigger] r.bucket_of(h) < r.bucket_count(),
    {
        let n: usize = next_power_of_two(size);
        let arena: usize = if n * 2 > 1024 {
            n * 2
        } else {
            1024
        };
        let total: usize = n + arena;
        let mut nodes: Vec<Bucket> = Vec::new();
        let mut i: usize = 0;
        while i < total
            invariant
                i <= total,
                nodes@.len() == i,
                arena_blank(nodes@, 0),
            decreases total - i,
        {
            let ghost before = nodes@;
            nodes.push(Bucket::new());
            assert forall|node: int, j: int| 0 <= node < nodes@.len() && 0 <= j < 8 implies
                #[trigger] word_at(nodes@, node, j) == 0 by {
                if node < before.len() {
                    assert(word_at(before, node, j) == 0);
                }
            }
            i += 1;
        }
        let ghost chains = Seq::new(n as nat, |b: int| seq![b]);
        let r = HashIndex {
            nodes,
            size: n,
            mask: (n - 1) as u64,
            overflow_next: 1,
            chains: Ghost(chains),
        };
        proof {
            lemma_entry_bits(0, 0, 0);
            lemma_latch_bits(0);
            assert forall|b: int, t: u64| 0 <= b < n implies #[trigger] r.lookup(b, t)
                == None::<u64> by {
                assert forall|node: int, j: int| !live_at(r.nodes@, r.chains@[b], t, node, j) by {
                    if 0 <= j < 7 && r.chains@[b].contains(node) {
                        assert(word_at(r.nodes@, node, j) == 0);
                    }
                }
            }
            assert forall|b: int| 0 <= b < n implies chain_entries_ok(
                r.nodes@,
                #[trigger] r.chains@[b],
            ) by {
                assert forall|tag: u64, n1: int, i1: int| !#[trigger] live_at(
                    r.nodes@,
                    r.chains@[b],
                    tag,
                    n1,
                    i1,
                ) by {
                    if 0 <= i1 < 7 && r.chains@[b].contains(n1) {
                        assert(word_at(r.nodes@, n1, i1) == 0);
                    }
                }
            }
            assert forall|b: int| 0 <= b < n implies #[trigger] r.free(b) == 7 by {
                assert forall|i: int| 0 <= i < 7 implies #[trigger] word_at(r.nodes@, b, i) == 0 by {}
                lemma_vacant_blank(r.nodes@, r.nodes@, Seq::empty(), b);
                assert(Seq::<int>::empty().push(b) =~= r.chains@[b]);
            }
            assert forall|b: int| 0 <= b < n implies #[trigger] r.latch(b) == (LatchView {
                shared: 0,
                exclusive: false,
            }) by {
                assert(word_at(r.nodes@, b, 7) == 0);
            }
            assert forall|h: u64| 0 <= #[trigger] r.bucket_of(h) < r.bucket_count() by {
                lemma_mask(h, r.mask);
            }
            assert forall|h: u64| #[trigger] r.bucket_of(h) == h as int % r.bucket_count() by {
                lemma_mask_mod(h, n as u64);
            }
            assert forall|b: int| 0 <= b < n implies chain_links_ok(
                r.nodes@,
                #[trigger] r.chains@[b],
                b,
                n as int,
                1,
            ) by {
                assert(word_at(r.nodes@, b, 7) == 0);
            }
        }
        r
    }

    /// The low bits of a hash select the bucket.
    pub proof fn low_bits_select_the_bucket(&self, h: u64)
        requires
            self.inv(),
        ensures
            self.bucket_count() >= 1,
            self.bucket_of(h) == h & ((self.bucket_count() - 1) as u64),
    {
        lemma_mask(h, self.mask);
    }

    pub proof fn lemma_buckets(&self)
        requires
            self.inv(),
        ensures
            forall|h: u64| 0 <= #[trigger] self.bucket_of(h) < self.bucket_count(),
    {
        assert forall|h: u64| 0 <= #[trigger] self.bucket_of(h) < self.bucket_count() by {
            lemma_mask(h, self.mask);
        }
    }

    /// A tag has one slot.
    pub proof fn lemma_one_slot(&self, s: SlotRef, t: SlotRef)
        requires
            self.inv(),
            self.holds(s),
            self.holds(t),
            s.bucket == t.bucket,
            s.tag == t.tag,
        ensures
            s == t,
    {
        let c = self.chains@[s.bucket as int];
        assert(chain_entries_ok(self.nodes@, c));
        assert(live_at(self.nodes@, c, s.tag, s.node as int, s.entry as int));
        assert(live_at(self.nodes@, c, s.tag, t.node as int, t.entry as int));
    }

    /// A slot lies in the table, and nothing in it is tentative.
    proof fn lemma_located(&self, s: SlotRef)
        requires
            self.inv(),
            self.located(s),
        ensures
            s.node < self.nodes@.len(),
            !entry_tentative(self.slot_word(s)),
            self.slot_word(s) != 0 ==> entry_live(self.slot_word(s), entry_tag(self.slot_word(s))),
    {
        let c = self.chains@[s.bucket as int];
        let k = choose|k: int| 0 <= k < c.len() && c[k] == s.node;
        assert(chain_links_ok(
            self.nodes@,
            c,
            s.bucket as int,
            self.size as int,
            self.overflow_next as int,
        ));
        assert(chain_entries_ok(self.nodes@, c));
        assert(!entry_tentative(word_at(self.nodes@, c[k], s.entry as int)));
    }

    /// A slot in use is the entry of its bucket and tag.
    pub proof fn lemma_slot(&self, s: SlotRef)
        requires
            self.inv(),
            self.holds(s),
        ensures
            self.located(s),
            self.lookup(s.bucket as int, s.tag) == Some(entry_address(self.slot_word(s))),
            s.bucket < self.bucket_count(),
    {
        self.lemma_held(s);
    }

    /// An entry that exists needs no room.
    pub proof fn lemma_placeable(&self, bucket: int, tag: u64)
        ensures
            self.lookup(bucket, tag) is Some ==> self.placeable(bucket, tag),
            self.room() ==> self.placeable(bucket, tag),
    {
    }

    pub fn bucket_index(&self, hash: u64) -> (r: usize)
        requires
            self.inv(),
        ensures
            r == self.bucket_of(hash),
            r < self.bucket_count(),
    {
        proof {
            lemma_mask(hash, self.mask);
        }
        (hash & self.mask) as usize
    }

    pub fn tag_of(hash: u64) -> (r: u64)
        ensures
            r == hash >> 49,
            r <= 0x7fff,
    {
        proof {
            lemma_entry_bits(0, 0, hash);
        }
        hash >> 49
    }

    /// Whether an overflow bucket is left for a new tag.
    pub fn has_room(&self) -> (r: bool)
        requires
            self.inv(),
        ensures
            r == self.room(),
    {
        self.overflow_next <= (self.nodes.len() - self.size) as u64
    }

    /// The node after `node` in its chain, following the overflow pointer. The
    /// pointer shares its word with the bucket latch, so the address mask
    /// lives here and nowhere else.
    fn next_node(&self, node: usize, Ghost(b): Ghost<int>, Ghost(k): Ghost<int>) -> (r: Option<usize>)
        requires
            self.inv(),
            0 <= b < self.size,
            0 <= k < self.chains@[b].len(),
            node == self.chains@[b][k],
        ensures
            r is Some <==> k + 1 < self.chains@[b].len(),
            r matches Some(n) ==> n == self.chains@[b][k + 1],
    {
        assert(chain_links_ok(
            self.nodes@,
            self.chains@[b],
            b,
            self.size as int,
            self.overflow_next as int,
        ));
        let next: u64 = self.nodes[node].entries[OVERFLOW_ENTRY] & ADDRESS_MASK;
        assert(word_at(self.nodes@, self.chains@[b][k], 7) == self.nodes@[node as int].entries@[7]);
        if next == 0 {
            None
        } else {
            Some(self.size + (next - 1) as usize)
        }
    }

    /// Place of the live entry for `tag` in one bucket.
    fn scan_node(&self, node: usize, tag: u64) -> (r: Option<usize>)
        requires
            node < self.nodes@.len(),
        ensures
            r matches Some(i) ==> i < 7 && entry_live(
                word_at(self.nodes@, node as int, i as int),
                tag,
            ),
            r is None ==> forall|i: int|
                0 <= i < 7 ==> !entry_live(#[trigger] word_at(self.nodes@, node as int, i), tag),
    {
        let mut i: usize = 0;
        while i < ENTRIES_PER_BUCKET
            invariant
                node < self.nodes@.len(),
                i <= 7,
                forall|j: int|
                    0 <= j < i ==> !entry_live(#[trigger] word_at(self.nodes@, node as int, j), tag),
            decreases 7 - i,
        {
            let e = HashEntry(self.nodes[node].entries[i]);
            if !e.is_empty() && e.tag() == tag && !e.is_tentative() {
                return Some(i);
            }
            i += 1;
        }
        None
    }

    /// Find the non-tentative entry for `hash`'s tag, following overflow buckets.
    pub fn find_tag(&self, hash: u64) -> (r: Option<SlotRef>)
        requires
            self.inv(),
        ensures
            r is Some <==> self.lookup(self.bucket_of(hash), hash >> 49) is Some,
            r matches Some(s) ==> self.holds(s) && s.bucket == self.bucket_of(hash) && s.tag == hash
                >> 49 && self.lookup(s.bucket as int, s.tag) == Some(
                entry_address(self.slot_word(s)),
            ),
    {
        let bi: usize = self.bucket_index(hash);
        let tag: u64 = Self::tag_of(hash);
        let ghost c = self.chains@[bi as int];
        let mut node: usize = bi;
        let ghost mut k: int = 0;
        assert(chain_links_ok(
            self.nodes@,
            c,
            bi as int,
            self.size as int,
            self.overflow_next as int,
        ));
        loop
            invariant
                self.inv(),
                bi < self.size,
                tag <= 0x7fff,
                bi == self.bucket_of(hash),
                tag == hash >> 49,
                c == self.chains@[bi as int],
                chain_links_ok(
                    self.nodes@,
                    c,
                    bi as int,
                    self.size as int,
                    self.overflow_next as int,
                ),
                0 <= k < c.len(),
                node == c[k],
                forall|j: int, i: int|
                    0 <= j < k && 0 <= i < 7 ==> !entry_live(
                        #[trigger] word_at(self.nodes@, c[j], i),
                        tag,
                    ),
            decreases c.len() - k,
        {
            match self.scan_node(node, tag) {
                Some(i) => {
                    let s = SlotRef { node, entry: i, bucket: bi, tag };
                    proof {
                        assert(c.contains(node as int));
                        assert(live_at(self.nodes@, c, tag, node as int, i as int));
                        lemma_dir(self.nodes@, c, tag, node as int, i as int);
                    }
                    return Some(s);
                },
                None => {},
            }
            match self.next_node(node, Ghost(bi as int), Ghost(k)) {
                Some(n) => {
                    node = n;
                    proof {
                        k = k + 1;
                    }
                },
                None => {
                    proof {
                        lemma_dir_none(self.nodes@, c, tag);
                    }
                    return None;
                },
            }
        }
    }

    /// Whether [`HashIndex::find_or_create_tag`] can give this hash an entry.
    pub fn can_create_tag(&self, hash: u64) -> (r: bool)
        requires
            self.inv(),
        ensures
            r == self.placeable(self.bucket_of(hash), hash >> 49),
    {
        if self.has_room() || self.find_tag(hash).is_some() {
            return true;
        }
        let bi: usize = self.bucket_index(hash);
        let ghost c = self.chains@[bi as int];
        let mut node: usize = bi;
        let ghost mut k: int = 0;
        proof {
            self.lemma_free(bi as int);
        }
        assert(chain_links_ok(
            self.nodes@,
            c,
            bi as int,
            self.size as int,
            self.overflow_next as int,
        ));
        loop
            invariant
                self.inv(),
                !self.room(),
                bi < self.size,
                bi == self.bucket_of(hash),
                self.lookup(bi as int, hash >> 49) is None,
                c == self.chains@[bi as int],
                self.has_free(bi as int) <==> chain_has_free(self.nodes@, c),
                chain_links_ok(
                    self.nodes@,
                    c,
                    bi as int,
                    self.size as int,
                    self.overflow_next as int,
                ),
                0 <= k < c.len(),
                node == c[k],
                forall|j: int, i: int|
                    0 <= j < k && 0 <= i < 7 ==> #[trigger] word_at(self.nodes@, c[j], i) != 0,
            decreases c.len() - k,
        {
            let mut i: usize = 0;
            while i < ENTRIES_PER_BUCKET
                invariant
                    node < self.nodes@.len(),
                    i <= 7,
                    forall|j: int|
                        0 <= j < i ==> #[trigger] word_at(self.nodes@, node as int, j) != 0,
                    0 <= k < c.len(),
                    node == c[k],
                    c == self.chains@[bi as int],
                    self.has_free(bi as int) <==> chain_has_free(self.nodes@, c),
                    bi == self.bucket_of(hash),
                decreases 7 - i,
            {
                if self.nodes[node].entries[i] == 0 {
                    assert(word_at(self.nodes@, c[k], i as int) == 0);
                    return true;
                }
                i += 1;
            }
            match self.next_node(node, Ghost(bi as int), Ghost(k)) {
                Some(n) => {
                    node = n;
                    proof {
                        k = k + 1;
                    }
                },
                None => {
                    return false;
                },
            }
        }
    }

    /// Scan the chain for a matching tag or the first free slot; links an
    /// overflow bucket if the chain is full.
    fn find_tag_or_free(&mut self, bi: usize, tag: u64) -> (r: Result<SlotRef, SlotRef>)
        requires
            old(self).inv(),
            bi < old(self).bucket_count(),
            tag <= 0x7fff,
            old(self).placeable(bi as int, tag),
        ensures
            final(self).inv(),
            final(self).same_shape(old(self)),
            final(self).same_latches(old(self)),
            final(self).same_entries(old(self)),
            r is Ok <==> old(self).lookup(bi as int, tag) is Some,
            r is Ok || old(self).has_free(bi as int) ==> *final(self) == *old(self),
            !(r is Ok || old(self).has_free(bi as int)) ==> {
                &&& final(self).spare() == old(self).spare() - 1
                &&& final(self).free(bi as int) == 7
                &&& forall|b: int|
                    0 <= b < final(self).bucket_count() && b != bi ==> #[trigger] final(self).free(b)
                        == old(self).free(b)
            },
            r matches Ok(s) ==> final(self).holds(s) && s.bucket == bi && s.tag == tag && final(self).lookup(bi as int, tag) == Some(entry_address(final(self).slot_word(s))),
            r matches Err(s) ==> s.bucket == bi && s.tag == tag && s.entry < 7 && final(self).chains@[bi as int].contains(s.node as int) && word_at(
                final(self).nodes@,
                s.node as int,
                s.entry as int,
            ) == 0,
    {
        let ghost c = self.chains@[bi as int];
        let mut node: usize = bi;
        let ghost mut k: int = 0;
        let mut free: Option<SlotRef> = None;
        proof {
            self.lemma_free(bi as int);
        }
        assert(chain_links_ok(
            self.nodes@,
            c,
            bi as int,
            self.size as int,
            self.overflow_next as int,
        ));
        loop
            invariant
                *self == *old(self),
                self.inv(),
                self.placeable(bi as int, tag),
                bi < self.size,
                tag <= 0x7fff,
                c == self.chains@[bi as int],
                self.has_free(bi as int) <==> chain_has_free(self.nodes@, c),
                chain_links_ok(
                    self.nodes@,
                    c,
                    bi as int,
                    self.size as int,
                    self.overflow_next as int,
                ),
                0 <= k < c.len(),
                node == c[k],
                forall|j: int, i: int|
                    0 <= j < k && 0 <= i < 7 ==> !entry_live(
                        #[trigger] word_at(self.nodes@, c[j], i),
                        tag,
                    ),
                free is None ==> forall|j: int, i: int|
                    0 <= j < k && 0 <= i < 7 ==> #[trigger] word_at(self.nodes@, c[j], i) != 0,
                free matches Some(f) ==> f.bucket == bi && f.tag == tag && f.entry < 7
                    && c.contains(f.node as int) && word_at(
                    self.nodes@,
                    f.node as int,
                    f.entry as int,
                ) == 0,
            decreases c.len() - k,
        {
            match self.scan_node(node, tag) {
                Some(i) => {
                    proof {
                        assert(c.contains(node as int));
                        assert(live_at(self.nodes@, c, tag, node as int, i as int));
                        lemma_dir(self.nodes@, c, tag, node as int, i as int);
                    }
                    return Ok(SlotRef { node, entry: i, bucket: bi, tag });
                },
                None => {},
            }
            if free.is_none() {
                let mut i: usize = 0;
                while i < ENTRIES_PER_BUCKET && self.nodes[node].entries[i] != 0
                    invariant
                        node < self.nodes@.len(),
                        i <= 7,
                        forall|j: int|
                            0 <= j < i ==> #[trigger] word_at(self.nodes@, node as int, j) != 0,
                    decreases 7 - i,
                {
                    i += 1;
                }
                if i < ENTRIES_PER_BUCKET {
                    assert(c.contains(node as int));
                    free = Some(SlotRef { node, entry: i, bucket: bi, tag });
                }
            }
            match self.next_node(node, Ghost(bi as int), Ghost(k)) {
                Some(n) => {
                    node = n;
                    proof {
                        k = k + 1;
                    }
                },
                None => {
                    proof {
                        lemma_dir_none(self.nodes@, c, tag);
                    }
                    if let Some(f) = free {
                        proof {
                            let k0 = choose|k0: int| 0 <= k0 < c.len() && c[k0] == f.node;
                            assert(word_at(self.nodes@, c[k0], f.entry as int) == 0);
                        }
                        return Err(f);
                    }
                    // Chain full: link a new overflow bucket.
                    let new: usize = self.link_overflow(node, Ghost(bi as int));
                    return Err(SlotRef { node: new, entry: 0, bucket: bi, tag });
                },
            }
        }
    }

    /// Link a blank overflow bucket behind the last bucket of a chain,
    /// preserving the latch bits in the high 16 bits of entry 7.
    fn link_overflow(&mut self, node: usize, Ghost(b): Ghost<int>) -> (new: usize)
        requires
            old(self).inv(),
            old(self).room(),
            0 <= b < old(self).size,
            node == old(self).chains@[b].last(),
        ensures
            final(self).inv(),
            final(self).same_shape(old(self)),
            final(self).same_latches(old(self)),
            final(self).same_entries(old(self)),
            final(self).spare() == old(self).spare() - 1,
            final(self).free(b) == old(self).free(b) + 7,
            forall|x: int|
                0 <= x < final(self).bucket_count() && x != b ==> #[trigger] final(self).free(x)
                    == old(self).free(x),
            final(self).chains@[b].contains(new as int),
            forall|i: int|
                0 <= i < 7 ==> #[trigger] word_at(final(self).nodes@, new as int, i) == 0,
    {
        let ghost c = self.chains@[b];
        let ghost size = self.size as int;
        let ghost before = self.nodes@;
        proof {
            assert(chain_links_ok(before, c, b, size, self.overflow_next as int));
            assert(c[c.len() - 1] == node);
        }
        let addr: u64 = self.overflow_next;
        let new: usize = self.size + (addr - 1) as usize;
        self.overflow_next = addr + 1;
        let w: u64 = self.nodes[node].entries[OVERFLOW_ENTRY];
        let mut bucket = self.nodes[node];
        bucket.entries[OVERFLOW_ENTRY] = (w & !ADDRESS_MASK) | addr;
        self.nodes.set(node, bucket);
        proof {
            lemma_entry_bits(0, addr, w);
            let c2 = c.push(new as int);
            let old_chains = self.chains@;
            self.chains@ = old_chains.update(b, c2);
            let after = self.nodes@;
            assert forall|n: int, i: int| 0 <= n < before.len() && 0 <= i < 8 && !(n == node && i
                == 7) implies #[trigger] word_at(after, n, i) == word_at(before, n, i) by {}
            assert(c2.contains(new as int)) by {
                assert(c2[c2.len() - 1] == new);
            }
            assert forall|i: int| 0 <= i < 7 implies #[trigger] word_at(after, new as int, i)
                == 0 by {
                assert(word_at(before, new as int, i) == 0);
            }
            assert(word_at(before, new as int, 7) == 0);
            // new is in no chain yet
            assert forall|b1: int, k1: int| 0 <= b1 < old_chains.len() && 0 <= k1
                < old_chains[b1].len() implies #[trigger] old_chains[b1][k1] != new by {
                assert(chain_links_ok(before, old_chains[b1], b1, size, addr as int));
            }
            assert(chains_disjoint(self.chains@)) by {
                assert forall|b1: int, k1: int, b2: int, k2: int|
                    0 <= b1 < self.chains@.len() && 0 <= b2 < self.chains@.len() && 0 <= k1
                        < self.chains@[b1].len() && 0 <= k2 < self.chains@[b2].len()
                        && #[trigger] self.chains@[b1][k1] == #[trigger] self.chains@[b2][k2] implies b1
                    == b2 && k1 == k2 by {
                    let new1 = b1 == b && k1 == c.len();
                    let new2 = b2 == b && k2 == c.len();
                    if !new1 && !new2 {
                        assert(old_chains[b1][k1] == old_chains[b2][k2]);
                    } else if new1 && !new2 {
                        assert(old_chains[b2][k2] != new);
                    } else if !new1 && new2 {
                        assert(old_chains[b1][k1] != new);
                    }
                }
            }
            assert forall|b1: int| 0 <= b1 < size implies chain_links_ok(
                after,
                #[trigger] self.chains@[b1],
                b1,
                size,
                addr + 1,
            ) by {
                let d = old_chains[b1];
                assert(chain_links_ok(before, d, b1, size, addr as int));
                if b1 == b {
                    assert forall|k: int| 0 <= k < c2.len() implies entry_address(
                        #[trigger] word_at(after, c2[k], 7),
                    ) == (if k + 1 < c2.len() {
                        c2[k + 1] - size + 1
                    } else {
                        0
                    }) by {
                        if k < c.len() - 1 {
                            assert(c2[k] == c[k]);
                            assert(old_chains[b][k] != old_chains[b][c.len() - 1]);
                        } else if k == c.len() - 1 {
                            assert(c2[k] == node);
                        }
                    }
                    assert forall|k: int| 1 <= k < c2.len() implies size <= #[trigger] c2[k]
                        < size + addr by {
                        if k < c.len() {
                            assert(c2[k] == c[k]);
                        }
                    }
                } else {
                    assert forall|k: int| 0 <= k < d.len() implies #[trigger] d[k] != node by {
                        assert(old_chains[b][c.len() - 1] == node);
                        assert(old_chains[b1][k] == d[k]);
                    }
                }
            }
            assert forall|b1: int| 0 <= b1 < size implies chain_entries_ok(
                after,
                #[trigger] self.chains@[b1],
            ) && (forall|t: u64| #[trigger]
                dir(after, self.chains@[b1], t) == dir(before, old_chains[b1], t)) by {
                let d = old_chains[b1];
                assert(chain_links_ok(before, d, b1, size, addr as int));
                let blank = if b1 == b {
                    Some(new as int)
                } else {
                    None
                };
                lemma_extend(before, after, d, self.chains@[b1], blank);
            }
            assert forall|b1: int| 0 <= b1 < size implies #[trigger] self.free(b1) == (if b1 == b {
                old(self).free(b1) + 7
            } else {
                old(self).free(b1)
            }) by {
                let d = old_chains[b1];
                assert(chain_links_ok(before, d, b1, size, addr as int));
                assert forall|k: int, i: int| 0 <= k < d.len() && 0 <= i < 7 implies #[trigger] word_at(
                    after,
                    d[k],
                    i,
                ) == word_at(before, d[k], i) by {
                    assert(0 <= d[k] < before.len());
                }
                if b1 == b {
                    lemma_vacant_blank(before, after, c, new as int);
                } else {
                    lemma_vacant_same(before, after, d, d, 7 * d.len() as int);
                }
            }
            assert(arena_blank(after, size + addr)) by {
                assert forall|n: int, i: int| size + addr <= n < after.len() && 0 <= i < 8 implies
                    #[trigger] word_at(after, n, i) == 0 by {
                    assert(word_at(before, n, i) == 0);
                    assert(node < size + addr) by {
                        assert(c[c.len() - 1] == node);
                    }
                }
            }
            assert forall|b1: int| 0 <= b1 < size implies #[trigger] self.latch(b1) == old(self).latch(b1) by {
                assert(word_at(after, b1, 7) == if b1 == node {
                    (w & !ADDRESS_MASK) | addr
                } else {
                    word_at(before, b1, 7)
                });
            }
        }
        new
    }

    /// Is there an entry with this tag (tentative or not) other than `mine`?
    fn other_slot_with_tag(&self, bi: usize, tag: u64, mine: &SlotRef) -> (r: bool)
        requires
            bi < self.size,
            2 <= self.size < self.nodes@.len(),
            self.nodes@.len() <= usize::MAX,
            self.chains@.len() == self.size,
            chain_links_ok(
                self.nodes@,
                self.chains@[bi as int],
                bi as int,
                self.size as int,
                self.overflow_next as int,
            ),
            self.overflow_next <= self.nodes@.len() - self.size + 1,
        ensures
            r == exists|k: int, i: int|
                0 <= k < self.chains@[bi as int].len() && 0 <= i < 7 && !(self.chains@[bi as int][k]
                    == mine.node && i == mine.entry) && word_at(
                    self.nodes@,
                    self.chains@[bi as int][k],
                    i,
                ) != 0 && entry_tag(
                    #[trigger] word_at(self.nodes@, self.chains@[bi as int][k], i),
                ) == tag,
    {
        let ghost c = self.chains@[bi as int];
        let mut node: usize = bi;
        let ghost mut k: int = 0;
        loop
            invariant
                2 <= self.size < self.nodes@.len(),
                self.nodes@.len() <= usize::MAX,
                self.overflow_next <= self.nodes@.len() - self.size + 1,
                bi < self.size,
                c == self.chains@[bi as int],
                chain_links_ok(
                    self.nodes@,
                    c,
                    bi as int,
                    self.size as int,
                    self.overflow_next as int,
                ),
                0 <= k < c.len(),
                node == c[k],
                forall|j: int, i: int|
                    0 <= j < k && 0 <= i < 7 && !(c[j] == mine.node && i == mine.entry) && word_at(
                        self.nodes@,
                        c[j],
                        i,
                    ) != 0 ==> entry_tag(#[trigger] word_at(self.nodes@, c[j], i)) != tag,
            decreases c.len() - k,
        {
            let mut i: usize = 0;
            while i < ENTRIES_PER_BUCKET
                invariant
                    node < self.nodes@.len(),
                    0 <= k < c.len(),
                    node == c[k],
                    c == self.chains@[bi as int],
                    i <= 7,
                    forall|j: int|
                        0 <= j < i && !(c[k] == mine.node && j == mine.entry) && word_at(
                            self.nodes@,
                            c[k],
                            j,
                        ) != 0 ==> entry_tag(#[trigger] word_at(self.nodes@, c[k], j)) != tag,
                decreases 7 - i,
            {
                if !(node == mine.node && i == mine.entry) {
                    let e = HashEntry(self.nodes[node].entries[i]);
                    if !e.is_empty() && e.tag() == tag {
                        assert(entry_tag(word_at(self.nodes@, c[k], i as int)) == tag);
                        return true;
                    }
                }
                i += 1;
            }
            let next: u64 = self.nodes[node].entries[OVERFLOW_ENTRY] & ADDRESS_MASK;
            assert(word_at(self.nodes@, c[k], 7) == self.nodes@[node as int].entries@[7]);
            if next == 0 {
                return false;
            }
            node = self.size + (next - 1) as usize;
            proof {
                k = k + 1;
            }
        }
    }

    /// Find the entry for this tag, or claim a new one using the two-phase
    /// tentative protocol:
    ///
    /// 1. Put `{tentative, tag, TEMP_INVALID}` into a free slot.
    /// 2. Re-scan the whole chain for *any other* entry with the same tag.
    ///    If one exists, clear our slot and restart.
    /// 3. Otherwise clear the tentative bit.
    ///
    /// Readers ignore tentative entries, so a loser is never observed.
    pub fn find_or_create_tag(&mut self, hash: u64) -> (s: SlotRef)
        requires
            old(self).inv(),
            old(self).placeable(old(self).bucket_of(hash), hash >> 49),
        ensures
            final(self).inv(),
            final(self).same_shape(old(self)),
            final(self).same_latches(old(self)),
            final(self).holds(s),
            final(self).grown(old(self), s.bucket as int, s.tag),
            old(self).lookup(s.bucket as int, s.tag) is Some ==> *final(self) == *old(self),
            s.bucket == old(self).bucket_of(hash),
            s.tag == hash >> 49,
            final(self).same_but(old(self), s.bucket as int, s.tag),
            final(self).lookup(s.bucket as int, s.tag) == Some(
                entry_address(final(self).slot_word(s)),
            ),
            old(self).lookup(s.bucket as int, s.tag) matches Some(a) ==> final(self).lookup(
                s.bucket as int,
                s.tag,
            ) == Some(a),
            old(self).lookup(s.bucket as int, s.tag) is None ==> final(self).lookup(
                s.bucket as int,
                s.tag,
            ) == Some(TEMP_INVALID_ADDRESS),
    {
        let bi: usize = self.bucket_index(hash);
        let tag: u64 = Self::tag_of(hash);
        let free: SlotRef = match self.find_tag_or_free(bi, tag) {
            Ok(found) => {
                return found;
            },
            Err(free) => free,
        };
        let ghost mid = *self;
        let tentative = HashEntry::make(tag, TEMP_INVALID_ADDRESS, true);
        let word = HashEntry::make(tag, TEMP_INVALID_ADDRESS, false);
        proof {
            lemma_entry_bits(tag, TEMP_INVALID_ADDRESS, 0);
            assert(chain_links_ok(
                mid.nodes@,
                mid.chains@[bi as int],
                bi as int,
                mid.size as int,
                mid.overflow_next as int,
            ));
        }
        self.put(&free, tentative.0);
        let ghost tent = self.nodes@;
        proof {
            let c = mid.chains@[bi as int];
            assert forall|k: int| 0 <= k < c.len() implies #[trigger] word_at(tent, c[k], 7) == word_at(
                mid.nodes@,
                c[k],
                7,
            ) by {}
            assert(chain_links_ok(
                tent,
                c,
                bi as int,
                mid.size as int,
                mid.overflow_next as int,
            ));
        }
        if self.other_slot_with_tag(bi, tag, &free) {
            proof {
                let c = mid.chains@[bi as int];
                let (k, i) = choose|k: int, i: int|
                    0 <= k < c.len() && 0 <= i < 7 && !(c[k] == free.node && i == free.entry)
                        && word_at(tent, c[k], i) != 0 && entry_tag(#[trigger] word_at(tent, c[k], i))
                        == tag;
                assert(word_at(tent, c[k], i) == word_at(mid.nodes@, c[k], i));
                assert(c.contains(c[k]));
                assert(chain_entries_ok(mid.nodes@, c));
                assert(live_at(mid.nodes@, c, tag, c[k], i));
                assert(false);
            }
            self.put(&free, 0);
            return free;
        }
        self.put(&free, word.0);
        proof {
            assert(wrote(mid.nodes@, self.nodes@, free.node as int, free.entry as int, word.0));
            mid.lemma_wrote(*self, free, word.0);
        }
        free
    }

    fn put(&mut self, s: &SlotRef, w: u64)
        requires
            s.node < old(self).nodes@.len(),
            s.entry < 7,
        ensures
            wrote(old(self).nodes@, final(self).nodes@, s.node as int, s.entry as int, w),
            final(self).size == old(self).size,
            final(self).mask == old(self).mask,
            final(self).overflow_next == old(self).overflow_next,
            final(self).chains == old(self).chains,
    {
        let mut bucket = self.nodes[s.node];
        let e: usize = s.entry;
        bucket.entries[e] = w;
        self.nodes.set(s.node, bucket);
    }

    proof fn lemma_held(&self, s: SlotRef)
        requires
            self.inv(),
            self.holds(s),
        ensures
            self.lookup(s.bucket as int, s.tag) == Some(entry_address(self.slot_word(s))),
            s.bucket < self.bucket_count(),
            s.node < self.nodes@.len(),
    {
        let c = self.chains@[s.bucket as int];
        let k = choose|k: int| 0 <= k < c.len() && c[k] == s.node;
        assert(chain_links_ok(
            self.nodes@,
            c,
            s.bucket as int,
            self.size as int,
            self.overflow_next as int,
        ));
        assert(0 <= c[k] < self.nodes@.len());
        assert(chain_entries_ok(self.nodes@, c));
        assert(live_at(self.nodes@, c, s.tag, s.node as int, s.entry as int));
        lemma_dir(self.nodes@, c, s.tag, s.node as int, s.entry as int);
    }

    /// Writing one slot of a chain: how many are free then.
    proof fn lemma_wrote_free(self, after: HashIndex, s: SlotRef, w: u64, k0: int)
        requires
            self.inv(),
            s.bucket < self.size,
            s.entry < 7,
            0 <= k0 < self.chains@[s.bucket as int].len(),
            self.chains@[s.bucket as int][k0] == s.node,
            wrote(self.nodes@, after.nodes@, s.node as int, s.entry as int, w),
            after.chains == self.chains,
        ensures
            (w == 0) == (self.slot_word(s) == 0) ==> after.free(s.bucket as int) == self.free(
                s.bucket as int,
            ),
            w != 0 && self.slot_word(s) == 0 ==> after.free(s.bucket as int) == self.free(
                s.bucket as int,
            ) - 1,
            w == 0 && self.slot_word(s) != 0 ==> after.free(s.bucket as int) == self.free(
                s.bucket as int,
            ) + 1,
    {
        let b = s.bucket as int;
        let c = self.chains@[b];
        let nodes = self.nodes@;
        let nodes2 = after.nodes@;
        let n = 7 * c.len() as int;
        let i0 = s.entry as int;
        assert(chain_links_ok(nodes, c, b, self.size as int, self.overflow_next as int));
        assert forall|k: int, i: int|
            0 <= k && 7 * k + i < n && 0 <= i < 7 && !(k == k0 && i == i0) implies #[trigger] word_at(
            nodes2,
            c[k],
            i,
        ) == word_at(nodes, c[k], i) by {
            assert(0 <= c[k] < nodes.len());
            if k != k0 {
                assert(self.chains@[b][k] != self.chains@[b][k0]);
            }
        }
        assert(word_at(nodes2, c[k0], i0) == w);
        if (w == 0) == (self.slot_word(s) == 0) {
            lemma_vacant_alike(nodes, nodes2, c, n);
        } else if w != 0 {
            lemma_vacant_filled(nodes, nodes2, c, n, k0, i0);
        } else {
            assert forall|k: int, i: int|
                0 <= k && 7 * k + i < n && 0 <= i < 7 && !(k == k0 && i == i0) implies #[trigger] word_at(
                nodes,
                c[k],
                i,
            ) == word_at(nodes2, c[k], i) by {
                assert(word_at(nodes2, c[k], i) == word_at(nodes, c[k], i));
            }
            lemma_vacant_filled(nodes2, nodes, c, n, k0, i0);
        }
    }

    /// Writing one slot of a chain: the tag's entry changes, nothing else does.
    proof fn lemma_wrote(self, after: HashIndex, s: SlotRef, w: u64)
        requires
            self.inv(),
            s.bucket < self.size,
            s.entry < 7,
            self.chains@[s.bucket as int].contains(s.node as int),
            wrote(self.nodes@, after.nodes@, s.node as int, s.entry as int, w),
            after.size == self.size,
            after.mask == self.mask,
            after.overflow_next == self.overflow_next,
            after.chains == self.chains,
            w == 0 || entry_live(w, s.tag),
            self.slot_word(s) == 0 && self.lookup(s.bucket as int, s.tag) is None || entry_live(
                self.slot_word(s),
                s.tag,
            ),
        ensures
            after.inv(),
            after.same_shape(&self),
            after.same_latches(&self),
            after.same_but(&self, s.bucket as int, s.tag),
            after.spare() == self.spare(),
            after.slot_word(s) == w,
            forall|b: int|
                0 <= b < after.bucket_count() && b != s.bucket ==> #[trigger] after.free(b)
                    == self.free(b),
            (w == 0) == (self.slot_word(s) == 0) ==> after.free(s.bucket as int) == self.free(
                s.bucket as int,
            ),
            w != 0 && self.slot_word(s) == 0 ==> after.free(s.bucket as int) == self.free(
                s.bucket as int,
            ) - 1,
            w == 0 && self.slot_word(s) != 0 ==> after.free(s.bucket as int) == self.free(
                s.bucket as int,
            ) + 1,
            w != 0 ==> after.lookup(s.bucket as int, s.tag) == Some(entry_address(w)),
            w == 0 ==> after.lookup(s.bucket as int, s.tag) is None,
    {
        let size = self.size as int;
        let b = s.bucket as int;
        let n = s.node as int;
        let e = s.entry as int;
        let c = self.chains@[b];
        let nodes = self.nodes@;
        let nodes2 = after.nodes@;
        lemma_entry_bits(0, 0, 0);
        let k0 = choose|k: int| 0 <= k < c.len() && c[k] == n;
        assert(self.chains@[b][k0] == n);
        assert(chain_links_ok(nodes, c, b, size, self.overflow_next as int));
        assert forall|b1: int| 0 <= b1 < size implies chain_links_ok(
            nodes2,
            #[trigger] after.chains@[b1],
            b1,
            size,
            after.overflow_next as int,
        ) by {
            let d = self.chains@[b1];
            assert(chain_links_ok(nodes, d, b1, size, self.overflow_next as int));
            assert forall|k: int| 0 <= k < d.len() implies entry_address(
                #[trigger] word_at(nodes2, d[k], 7),
            ) == (if k + 1 < d.len() {
                d[k + 1] - size + 1
            } else {
                0
            }) by {
                assert(word_at(nodes2, d[k], 7) == word_at(nodes, d[k], 7));
            }
        }
        // other chains
        assert forall|b1: int| 0 <= b1 < size && b1 != b implies chain_entries_ok(
            nodes2,
            #[trigger] after.chains@[b1],
        ) && (forall|t: u64| #[trigger] dir(nodes2, after.chains@[b1], t) == dir(nodes, self.chains@[b1], t)) by {
            let d = self.chains@[b1];
            assert(chain_entries_ok(nodes, d));
            assert forall|k: int| 0 <= k < d.len() implies #[trigger] d[k] != n by {
                assert(self.chains@[b1][k] != self.chains@[b][k0]);
            }
            lemma_extend(nodes, nodes2, d, d, None);
        }
        assert forall|b1: int| 0 <= b1 < size && b1 != b implies #[trigger] after.free(b1) == self.free(b1) by {
            let d = self.chains@[b1];
            assert(chain_links_ok(nodes, d, b1, size, self.overflow_next as int));
            assert forall|k: int, i: int| 0 <= k && 7 * k + i < 7 * d.len() && 0 <= i < 7 implies #[trigger] word_at(
                nodes2,
                d[k],
                i,
            ) == word_at(nodes, d[k], i) by {
                assert(self.chains@[b1][k] != self.chains@[b][k0]);
                assert(0 <= d[k] < nodes.len());
            }
            lemma_vacant_same(nodes, nodes2, d, d, 7 * d.len() as int);
        }
        self.lemma_wrote_free(after, s, w, k0);
        // this chain
        assert(chain_entries_ok(nodes, c));
        assert forall|node: int, i: int|
            c.contains(node) && 0 <= i < 7 && !(node == n && i == e) implies #[trigger] word_at(
            nodes2,
            node,
            i,
        ) == word_at(nodes, node, i) by {
            let k = choose|k: int| 0 <= k < c.len() && c[k] == node;
            assert(chain_links_ok(nodes, c, b, size, self.overflow_next as int));
            assert(0 <= c[k] < nodes.len());
        }
        assert(word_at(nodes2, n, e) == w);
        assert forall|t: u64, node: int, i: int| #[trigger]
            live_at(nodes2, c, t, node, i) implies (node == n && i == e && t == s.tag && w != 0)
            || (live_at(nodes, c, t, node, i) && !(node == n && i == e)) by {}
        assert forall|t: u64, node: int, i: int| #[trigger]
            live_at(nodes, c, t, node, i) && !(node == n && i == e) implies t != s.tag && live_at(
            nodes2,
            c,
            t,
            node,
            i,
        ) by {
            if t == s.tag {
                if entry_live(self.slot_word(s), s.tag) {
                    assert(live_at(nodes, c, t, n, e));
                } else {
                    lemma_dir(nodes, c, t, node, i);
                }
            }
        }
        assert(chain_entries_ok(nodes2, c)) by {
            assert forall|k: int, i: int| 0 <= k < c.len() && 0 <= i < 7 implies !entry_tentative(
                #[trigger] word_at(nodes2, c[k], i),
            ) by {
                assert(!entry_tentative(word_at(nodes, c[k], i)));
                assert(c.contains(c[k]));
            }
            assert forall|tag: u64, n1: int, i1: int, n2: int, i2: int|
                #[trigger] live_at(nodes2, c, tag, n1, i1) && #[trigger] live_at(
                    nodes2,
                    c,
                    tag,
                    n2,
                    i2,
                ) implies n1 == n2 && i1 == i2 by {}
        }
        assert forall|t: u64| t != s.tag implies #[trigger] dir(nodes2, c, t) == dir(nodes, c, t) by {
            if exists|node: int, i: int| #[trigger] live_at(nodes, c, t, node, i) {
                let (node, i) = choose|node: int, i: int| #[trigger] live_at(nodes, c, t, node, i);
                assert(!(node == n && i == e));
                lemma_dir(nodes, c, t, node, i);
                lemma_dir(nodes2, c, t, node, i);
            } else {
                assert forall|node: int, i: int| !#[trigger] live_at(nodes2, c, t, node, i) by {
                    if live_at(nodes2, c, t, node, i) {
                        assert(live_at(nodes, c, t, node, i));
                    }
                }
            }
        }
        if w != 0 {
            assert(live_at(nodes2, c, s.tag, n, e));
            lemma_dir(nodes2, c, s.tag, n, e);
        } else {
            assert forall|node: int, i: int| !#[trigger] live_at(nodes2, c, s.tag, node, i) by {
                if live_at(nodes2, c, s.tag, node, i) {
                    assert(live_at(nodes, c, s.tag, node, i));
                }
            }
        }
        assert(arena_blank(nodes2, size + self.overflow_next - 1)) by {
            assert forall|node: int, i: int|
                size + self.overflow_next - 1 <= node < nodes2.len() && 0 <= i < 8 implies #[trigger] word_at(nodes2, node, i) == 0 by {
                assert(word_at(nodes, node, i) == 0);
                assert(c[k0] < size + self.overflow_next - 1);
            }
        }
        assert forall|b1: int| 0 <= b1 < size implies #[trigger] after.latch(b1) == self.latch(b1) by {
            assert(word_at(nodes2, b1, 7) == word_at(nodes, b1, 7));
        }
        assert forall|b1: int, t: u64|
            0 <= b1 < after.bucket_count() && (b1 != b || t != s.tag) implies #[trigger] after.lookup(b1, t)
            == self.lookup(b1, t) by {
            if b1 != b {
                assert(dir(nodes2, after.chains@[b1], t) == dir(nodes, self.chains@[b1], t));
            }
        }
    }

    /// `out` lists, with their places `from`, exactly the live entries before
    /// position (`b`, `k`, `i`) of a walk over all chains.
    spec fn collected(
        &self,
        out: Seq<(usize, u64, u64)>,
        from: Seq<(int, int)>,
        b: int,
        k: int,
        i: int,
    ) -> bool {
        &&& out.len() == from.len()
        &&& forall|j: int|
            0 <= j < out.len() ==> self.place_ok(#[trigger] out[j], from[j]) && before(
                out[j].0 as int,
                from[j].0,
                from[j].1,
                b,
                k,
                i,
            )
        &&& forall|b1: int, k1: int, i1: int|
            0 <= b1 < self.size && 0 <= k1 < self.chains@[b1].len() && 0 <= i1 < 7 && before(
                b1,
                k1,
                i1,
                b,
                k,
                i,
            ) && #[trigger] word_at(self.nodes@, self.chains@[b1][k1], i1) != 0 ==> exists|j: int|
                0 <= j < out.len() && (#[trigger] out[j]).0 == b1 && from[j] == (k1, i1)
        &&& forall|j1: int, j2: int|
            0 <= j1 < j2 < out.len() ==> (#[trigger] out[j1]).0 != (#[trigger] out[j2]).0
                || from[j1] != from[j2]
    }

    spec fn place_ok(&self, e: (usize, u64, u64), p: (int, int)) -> bool {
        &&& e.0 < self.size
        &&& 0 <= p.0 < self.chains@[e.0 as int].len()
        &&& 0 <= p.1 < 7
        &&& entry_live(word_at(self.nodes@, self.chains@[e.0 as int][p.0], p.1), e.1)
        &&& entry_address(word_at(self.nodes@, self.chains@[e.0 as int][p.0], p.1)) == e.2
    }

    proof fn lemma_collected_all(&self, out: Seq<(usize, u64, u64)>, from: Seq<(int, int)>)
        requires
            self.inv(),
            self.collected(out, from, self.size as int, 0, 0),
        ensures
            forall|j: int|
                0 <= j < out.len() ==> (#[trigger] out[j]).0 < self.bucket_count() && self.lookup(
                    out[j].0 as int,
                    out[j].1,
                ) == Some(out[j].2),
            forall|b: int, t: u64|
                0 <= b < self.bucket_count() && (#[trigger] self.lookup(b, t)) is Some ==> exists|
                    j: int,
                |
                    0 <= j < out.len() && (#[trigger] out[j]).0 == b && out[j].1 == t,
            forall|i: int, j: int|
                0 <= i < j < out.len() ==> (#[trigger] out[i]).0 != (#[trigger] out[j]).0 || out[i].1
                    != out[j].1,
    {
        assert forall|j: int| 0 <= j < out.len() implies (#[trigger] out[j]).0
            < self.bucket_count() && self.lookup(out[j].0 as int, out[j].1) == Some(
            out[j].2,
        ) && live_at(
            self.nodes@,
            self.chains@[out[j].0 as int],
            out[j].1,
            self.chains@[out[j].0 as int][from[j].0],
            from[j].1,
        ) by {
            assert(self.place_ok(out[j], from[j]));
            let c = self.chains@[out[j].0 as int];
            let node = c[from[j].0];
            assert(c.contains(node));
            assert(live_at(self.nodes@, c, out[j].1, node, from[j].1));
            assert(chain_entries_ok(self.nodes@, c));
            lemma_dir(self.nodes@, c, out[j].1, node, from[j].1);
        }
        assert forall|b: int, t: u64|
            0 <= b < self.bucket_count() && (#[trigger] self.lookup(b, t)) is Some implies exists|
            j: int,
        | 0 <= j < out.len() && (#[trigger] out[j]).0 == b && out[j].1 == t by {
            let c = self.chains@[b];
            let (node, i) = choose|node: int, i: int| #[trigger]
                live_at(self.nodes@, c, t, node, i);
            let k = choose|k: int| 0 <= k < c.len() && c[k] == node;
            assert(word_at(self.nodes@, self.chains@[b][k], i) != 0);
            assert(before(b, k, i, self.size as int, 0, 0));
            let j = choose|j: int|
                0 <= j < out.len() && (#[trigger] out[j]).0 == b && from[j] == (k, i);
            assert(self.place_ok(out[j], from[j]));
            assert(out[j].0 == b && out[j].1 == t);
        }
        assert forall|i: int, j: int| 0 <= i < j < out.len() implies (#[trigger] out[i]).0 != (
        #[trigger] out[j]).0 || out[i].1 != out[j].1 by {
            if out[i].0 == out[j].0 && out[i].1 == out[j].1 {
                let b = out[i].0 as int;
                let c = self.chains@[b];
                assert(self.place_ok(out[i], from[i]));
                assert(self.place_ok(out[j], from[j]));
                assert(chain_entries_ok(self.nodes@, c));
                assert(live_at(self.nodes@, c, out[i].1, c[from[i].0], from[i].1));
                assert(live_at(self.nodes@, c, out[i].1, c[from[j].0], from[j].1));
                assert(self.chains@[b][from[i].0] == self.chains@[b][from[j].0]);
                assert(from[i] == from[j]);
            }
        }
    }

    /// Visit every non-tentative entry: (bucket, tag, address).
    pub fn for_each_entry(&self) -> (r: Vec<(usize, u64, u64)>)
        requires
            self.inv(),
        ensures
            forall|j: int|
                0 <= j < r@.len() ==> (#[trigger] r@[j]).0 < self.bucket_count() && self.lookup(
                    r@[j].0 as int,
                    r@[j].1,
                ) == Some(r@[j].2),
            forall|b: int, t: u64|
                0 <= b < self.bucket_count() && (#[trigger] self.lookup(b, t)) is Some ==> exists|
                    j: int,
                |
                    0 <= j < r@.len() && (#[trigger] r@[j]).0 == b && r@[j].1 == t,
            forall|i: int, j: int|
                0 <= i < j < r@.len() ==> (#[trigger] r@[i]).0 != (#[trigger] r@[j]).0 || r@[i].1
                    != r@[j].1,
    {
        let mut out: Vec<(usize, u64, u64)> = Vec::new();
        let ghost mut from: Seq<(int, int)> = Seq::empty();
        let mut bi: usize = 0;
        while bi < self.size
            invariant
                self.inv(),
                bi <= self.size,
                self.collected(out@, from, bi as int, 0, 0),
            decreases self.size - bi,
        {
            let ghost c = self.chains@[bi as int];
            let mut node: usize = bi;
            let ghost mut k: int = 0;
            let mut more: bool = true;
            assert(chain_links_ok(
                self.nodes@,
                c,
                bi as int,
                self.size as int,
                self.overflow_next as int,
            ));
            while more
                invariant
                    self.inv(),
                    bi < self.size,
                    c == self.chains@[bi as int],
                    chain_links_ok(
                        self.nodes@,
                        c,
                        bi as int,
                        self.size as int,
                        self.overflow_next as int,
                    ),
                    more ==> 0 <= k < c.len() && node == c[k],
                    !more ==> k == c.len(),
                    self.collected(out@, from, bi as int, k, 0),
                decreases c.len() - k,
            {
                let mut i: usize = 0;
                while i < ENTRIES_PER_BUCKET
                    invariant
                        self.inv(),
                        bi < self.size,
                        c == self.chains@[bi as int],
                        chain_links_ok(
                            self.nodes@,
                            c,
                            bi as int,
                            self.size as int,
                            self.overflow_next as int,
                        ),
                        0 <= k < c.len(),
                        node == c[k],
                        i <= 7,
                        self.collected(out@, from, bi as int, k, i as int),
                    decreases 7 - i,
                {
                    let e = HashEntry(self.nodes[node].entries[i]);
                    let ghost w = word_at(self.nodes@, c[k], i as int);
                    let ghost out0 = out@;
                    let ghost from0 = from;
                    assert(w == e.0);
                    assert(!entry_tentative(w)) by {
                        assert(chain_entries_ok(self.nodes@, c));
                    }
                    if !e.is_empty() && !e.is_tentative() {
                        out.push((bi, e.tag(), e.address()));
                        proof {
                            from = from.push((k, i as int));
                        }
                    }
                    proof {
                        assert forall|b1: int, k1: int, i1: int|
                            0 <= b1 < self.size && 0 <= k1 < self.chains@[b1].len() && 0 <= i1 < 7
                                && before(b1, k1, i1, bi as int, k, i + 1) && #[trigger] word_at(
                                self.nodes@,
                                self.chains@[b1][k1],
                                i1,
                            ) != 0 implies exists|j: int|
                            0 <= j < out@.len() && (#[trigger] out@[j]).0 == b1 && from[j] == (
                                k1,
                                i1,
                            ) by {
                            if before(b1, k1, i1, bi as int, k, i as int) {
                                let j = choose|j: int|
                                    0 <= j < out0.len() && (#[trigger] out0[j]).0 == b1 && from0[j]
                                        == (k1, i1);
                                assert(out@[j] == out0[j] && from[j] == from0[j]);
                            } else {
                                let j = out@.len() - 1;
                                assert(out@[j].0 == b1 && from[j] == (k1, i1));
                            }
                        }
                        assert forall|j: int| 0 <= j < out@.len() implies self.place_ok(
                            #[trigger] out@[j],
                            from[j],
                        ) && before(
                            out@[j].0 as int,
                            from[j].0,
                            from[j].1,
                            bi as int,
                            k,
                            i + 1,
                        ) by {
                            if j < out0.len() {
                                assert(out@[j] == out0[j] && from[j] == from0[j]);
                            }
                        }
                        assert forall|j1: int, j2: int| 0 <= j1 < j2 < out@.len() implies (
                        #[trigger] out@[j1]).0 != (#[trigger] out@[j2]).0 || from[j1] != from[j2] by {
                            assert(out@[j1] == out0[j1] && from[j1] == from0[j1]);
                            if j2 < out0.len() {
                                assert(out@[j2] == out0[j2] && from[j2] == from0[j2]);
                            } else {
                                assert(before(
                                    out0[j1].0 as int,
                                    from0[j1].0,
                                    from0[j1].1,
                                    bi as int,
                                    k,
                                    i as int,
                                ));
                            }
                        }
                    }
                    i += 1;
                }
                match self.next_node(node, Ghost(bi as int), Ghost(k)) {
                    Some(n) => {
                        node = n;
                    },
                    None => {
                        more = false;
                    },
                }
                proof {
                    k = k + 1;
                }
            }
            bi += 1;
        }
        proof {
            self.lemma_collected_all(out@, from);
        }
        out
    }

    // ----------------------------------------------------------------------
    // Bucket latches (entry 7 of the main-table bucket)
    // ----------------------------------------------------------------------

    /// Replace the latch word of a bucket by one with the same overflow pointer.
    fn set_latch_word(&mut self, bucket: usize, w: u64)
        requires
            old(self).inv(),
            bucket < old(self).size,
            entry_address(w) == entry_address(word_at(old(self).nodes@, bucket as int, 7)),
        ensures
            final(self).inv(),
            final(self).same_shape(old(self)),
            final(self).same_entries(old(self)),
            final(self).same_room(old(self)),
            final(self).latch(bucket as int) == latch_of(w),
            word_at(final(self).nodes@, bucket as int, 7) == w,
            forall|b: int|
                0 <= b < final(self).bucket_count() && b != bucket ==> #[trigger] final(self).latch(b)
                    == old(self).latch(b),
            forall|s: SlotRef| #[trigger]
                old(self).holds(s) ==> final(self).holds(s) && final(self).slot_word(s) == old(self).slot_word(s),
    {
        let ghost before = self.nodes@;
        let mut b = self.nodes[bucket];
        b.entries[OVERFLOW_ENTRY] = w;
        self.nodes.set(bucket, b);
        proof {
            let after = self.nodes@;
            assert forall|n: int, i: int| 0 <= n < before.len() && 0 <= i < 8 && !(n == bucket && i
                == 7) implies #[trigger] word_at(after, n, i) == word_at(before, n, i) by {}
            assert forall|b1: int| 0 <= b1 < self.size implies chain_links_ok(
                after,
                #[trigger] self.chains@[b1],
                b1,
                self.size as int,
                self.overflow_next as int,
            ) && chain_entries_ok(after, self.chains@[b1]) && (forall|t: u64| #[trigger]
                dir(after, self.chains@[b1], t) == dir(before, self.chains@[b1], t)) by {
                let d = self.chains@[b1];
                assert(chain_links_ok(
                    before,
                    d,
                    b1,
                    self.size as int,
                    self.overflow_next as int,
                ));
                lemma_extend(before, after, d, d, None);
            }
            assert forall|b1: int| 0 <= b1 < self.size implies #[trigger] self.free(b1) == old(self).free(b1) by {
                let d = self.chains@[b1];
                assert(chain_links_ok(
                    before,
                    d,
                    b1,
                    self.size as int,
                    self.overflow_next as int,
                ));
                assert forall|k: int, i: int| 0 <= k && 7 * k + i < 7 * d.len() && 0 <= i < 7 implies #[trigger] word_at(
                    after,
                    d[k],
                    i,
                ) == word_at(before, d[k], i) by {
                    assert(0 <= d[k] < before.len());
                }
                lemma_vacant_same(before, after, d, d, 7 * d.len() as int);
            }
            assert forall|s: SlotRef| #[trigger] old(self).holds(s) implies self.holds(s)
                && self.slot_word(s) == old(self).slot_word(s) by {
                let d = self.chains@[s.bucket as int];
                assert(chain_links_ok(
                    before,
                    d,
                    s.bucket as int,
                    self.size as int,
                    self.overflow_next as int,
                ));
                let k = choose|k: int| 0 <= k < d.len() && d[k] == s.node;
                assert(0 <= d[k] < before.len());
            }
        }
    }

    pub fn try_lock_shared(&mut self, bucket: usize) -> (r: bool)
        requires
            old(self).inv(),
            bucket < old(self).bucket_count(),
        ensures
            final(self).inv(),
            final(self).same_shape(old(self)),
            final(self).same_entries(old(self)),
            final(self).same_room(old(self)),
            r == (!old(self).latch(bucket as int).exclusive && old(self).latch(bucket as int).shared
                < 0x7fff),
            final(self).latch(bucket as int) == (if r {
                LatchView {
                    shared: (old(self).latch(bucket as int).shared + 1) as u64,
                    exclusive: false,
                }
            } else {
                old(self).latch(bucket as int)
            }),
            forall|b: int|
                0 <= b < final(self).bucket_count() && b != bucket ==> #[trigger] final(self).latch(b)
                    == old(self).latch(b),
            forall|s: SlotRef| #[trigger]
                old(self).holds(s) ==> final(self).holds(s) && final(self).slot_word(s) == old(self).slot_word(s),
    {
        let cur: u64 = self.nodes[bucket].entries[OVERFLOW_ENTRY];
        assert(cur == word_at(self.nodes@, bucket as int, 7));
        proof {
            lemma_latch_bits(cur);
        }
        if cur & EXCLUSIVE_BIT != 0 || cur & SHARED_MASK == SHARED_MASK {
            return false;
        }
        self.set_latch_word(bucket, cur + SHARED_ONE);
        true
    }

    pub fn unlock_shared(&mut self, bucket: usize)
        requires
            old(self).inv(),
            bucket < old(self).bucket_count(),
            old(self).latch(bucket as int).shared > 0,
        ensures
            final(self).inv(),
            final(self).same_shape(old(self)),
            final(self).same_entries(old(self)),
            final(self).same_room(old(self)),
            final(self).latch(bucket as int) == (LatchView {
                shared: (old(self).latch(bucket as int).shared - 1) as u64,
                exclusive: old(self).latch(bucket as int).exclusive,
            }),
            forall|b: int|
                0 <= b < final(self).bucket_count() && b != bucket ==> #[trigger] final(self).latch(b)
                    == old(self).latch(b),
            forall|s: SlotRef| #[trigger]
                old(self).holds(s) ==> final(self).holds(s) && final(self).slot_word(s) == old(self).slot_word(s),
    {
        let cur: u64 = self.nodes[bucket].entries[OVERFLOW_ENTRY];
        assert(cur == word_at(self.nodes@, bucket as int, 7));
        proof {
            lemma_latch_bits(cur);
        }
        self.set_latch_word(bucket, cur - SHARED_ONE);
    }

    /// Set the exclusive bit (blocking new readers); if readers are present,
    /// release it again and return false.
    pub fn try_lock_exclusive(&mut self, bucket: usize) -> (r: bool)
        requires
            old(self).inv(),
            bucket < old(self).bucket_count(),
        ensures
            final(self).inv(),
            final(self).same_shape(old(self)),
            final(self).same_entries(old(self)),
            final(self).same_room(old(self)),
            r == (!old(self).latch(bucket as int).exclusive && old(self).latch(bucket as int).shared
                == 0),
            final(self).latch(bucket as int) == (if r {
                LatchView { shared: 0, exclusive: true }
            } else {
                old(self).latch(bucket as int)
            }),
            forall|b: int|
                0 <= b < final(self).bucket_count() && b != bucket ==> #[trigger] final(self).latch(b)
                    == old(self).latch(b),
            forall|s: SlotRef| #[trigger]
                old(self).holds(s) ==> final(self).holds(s) && final(self).slot_word(s) == old(self).slot_word(s),
    {
        let cur: u64 = self.nodes[bucket].entries[OVERFLOW_ENTRY];
        assert(cur == word_at(self.nodes@, bucket as int, 7));
        proof {
            lemma_latch_bits(cur);
        }
        if cur & EXCLUSIVE_BIT != 0 {
            return false;
        }
        self.set_latch_word(bucket, cur | EXCLUSIVE_BIT);
        if cur & SHARED_MASK == 0 {
            return true;
        }
        self.set_latch_word(bucket, cur);
        false
    }

    pub fn unlock_exclusive(&mut self, bucket: usize)
        requires
            old(self).inv(),
            bucket < old(self).bucket_count(),
            old(self).latch(bucket as int).exclusive,
        ensures
            final(self).inv(),
            final(self).same_shape(old(self)),
            final(self).same_entries(old(self)),
            final(self).same_room(old(self)),
            final(self).latch(bucket as int) == (LatchView {
                shared: old(self).latch(bucket as int).shared,
                exclusive: false,
            }),
            forall|b: int|
                0 <= b < final(self).bucket_count() && b != bucket ==> #[trigger] final(self).latch(b)
                    == old(self).latch(b),
            forall|s: SlotRef| #[trigger]
                old(self).holds(s) ==> final(self).holds(s) && final(self).slot_word(s) == old(self).slot_word(s),
    {
        let cur: u64 = self.nodes[bucket].entries[OVERFLOW_ENTRY];
        assert(cur == word_at(self.nodes@, bucket as int, 7));
        proof {
            lemma_latch_bits(cur);
        }
        self.set_latch_word(bucket, cur & !EXCLUSIVE_BIT);
    }

    pub fn is_locked_exclusive(&self, bucket: usize) -> (r: bool)
        requires
            self.inv(),
            bucket < self.bucket_count(),
        ensures
            r == self.latch(bucket as int).exclusive,
    {
        let cur: u64 = self.nodes[bucket].entries[OVERFLOW_ENTRY];
        assert(cur == word_at(self.nodes@, bucket as int, 7));
        cur & EXCLUSIVE_BIT != 0
    }

    /// Whether any reader holds the latch.
    pub fn is_locked_shared(&self, bucket: usize) -> (r: bool)
        requires
            self.inv(),
            bucket < self.bucket_count(),
        ensures
            r == (self.latch(bucket as int).shared > 0),
    {
        let cur: u64 = self.nodes[bucket].entries[OVERFLOW_ENTRY];
        assert(cur == word_at(self.nodes@, bucket as int, 7));
        proof {
            lemma_latch_bits(cur);
        }
        cur & SHARED_MASK != 0
    }

    /// Reset every entry (used by recovery and FLUSHALL).
    pub fn clear(&mut self)
        requires
            old(self).inv(),
        ensures
            final(self).inv(),
            final(self).same_shape(old(self)),
            final(self).spare() > 0,
            final(self).spare() >= old(self).spare(),
            final(self).spare() == final(self).arena(),
            final(self).arena() == old(self).arena(),
            forall|b: int| 0 <= b < final(self).bucket_count() ==> #[trigger] final(self).free(b) == 7,
            forall|b: int, t: u64|
                0 <= b < final(self).bucket_count() ==> #[trigger] final(self).lookup(b, t)
                    == None::<u64>,
            forall|b: int|
                0 <= b < final(self).bucket_count() ==> #[trigger] final(self).latch(b) == (
                LatchView { shared: 0, exclusive: false }),
    {
        let total: usize = self.nodes.len();
        let mut i: usize = 0;
        while i < total
            invariant
                total == self.nodes@.len(),
                i <= total,
                self.size == old(self).size,
                self.mask == old(self).mask,
                total == old(self).nodes@.len(),
                forall|node: int, j: int|
                    0 <= node < i && 0 <= j < 8 ==> #[trigger] word_at(self.nodes@, node, j) == 0,
            decreases total - i,
        {
            let ghost before = self.nodes@;
            let blank = Bucket::new();
            self.nodes.set(i, blank);
            assert forall|node: int, j: int| 0 <= node < i + 1 && 0 <= j < 8 implies
                #[trigger] word_at(self.nodes@, node, j) == 0 by {
                if node < i {
                    assert(word_at(before, node, j) == 0);
                }
            }
            i += 1;
        }
        self.overflow_next = 1;
        proof {
            let n = self.size as int;
            self.chains@ = Seq::new(n as nat, |b: int| seq![b]);
            lemma_entry_bits(0, 0, 0);
            lemma_latch_bits(0);
            assert forall|b: int, t: u64| 0 <= b < n implies #[trigger] self.lookup(b, t)
                == None::<u64> by {
                assert forall|node: int, j: int| !live_at(
                    self.nodes@,
                    self.chains@[b],
                    t,
                    node,
                    j,
                ) by {
                    if 0 <= j < 7 && self.chains@[b].contains(node) {
                        assert(word_at(self.nodes@, node, j) == 0);
                    }
                }
            }
            assert forall|b: int| 0 <= b < n implies chain_entries_ok(
                self.nodes@,
                #[trigger] self.chains@[b],
            ) by {
                assert forall|tag: u64, n1: int, i1: int| !#[trigger] live_at(
                    self.nodes@,
                    self.chains@[b],
                    tag,
                    n1,
                    i1,
                ) by {
                    if 0 <= i1 < 7 && self.chains@[b].contains(n1) {
                        assert(word_at(self.nodes@, n1, i1) == 0);
                    }
                }
            }
            assert forall|b: int| 0 <= b < n implies #[trigger] self.free(b) == 7 by {
                assert forall|i: int| 0 <= i < 7 implies #[trigger] word_at(self.nodes@, b, i) == 0 by {}
                lemma_vacant_blank(self.nodes@, self.nodes@, Seq::empty(), b);
                assert(Seq::<int>::empty().push(b) =~= self.chains@[b]);
            }
            assert forall|b: int| 0 <= b < n implies #[trigger] self.latch(b) == (LatchView {
                shared: 0,
                exclusive: false,
            }) by {
                assert(word_at(self.nodes@, b, 7) == 0);
            }
            assert forall|b: int| 0 <= b < n implies chain_links_ok(
                self.nodes@,
                #[trigger] self.chains@[b],
                b,
                n,
                1,
            ) by {
                assert(word_at(self.nodes@, b, 7) == 0);
            }
        }
    }
}

/// `after` is `before` with one entry word replaced.
spec fn wrote(before: Seq<Bucket>, after: Seq<Bucket>, node: int, e: int, w: u64) -> bool {
    &&& after.len() == before.len()
    &&& 0 <= node < before.len()
    &&& forall|n: int, i: int|
        0 <= n < before.len() && 0 <= i < 8 ==> #[trigger] word_at(after, n, i) == (if n == node && i
            == e {
            w
        } else {
            word_at(before, n, i)
        })
}

/// A chain whose entry words are untouched, possibly grown by a blank bucket,
/// has the same entries.
proof fn lemma_extend(
    before: Seq<Bucket>,
    after: Seq<Bucket>,
    d: Seq<int>,
    d2: Seq<int>,
    blank: Option<int>,
)
    requires
        chain_entries_ok(before, d),
        match blank {
            Some(n) => d2 == d.push(n) && forall|i: int|
                0 <= i < 7 ==> #[trigger] word_at(after, n, i) == 0,
            None => d2 == d,
        },
        forall|k: int, i: int|
            0 <= k < d.len() && 0 <= i < 7 ==> #[trigger] word_at(after, d[k], i) == word_at(
                before,
                d[k],
                i,
            ),
    ensures
        chain_entries_ok(after, d2),
        forall|t: u64| #[trigger] dir(after, d2, t) == dir(before, d, t),
{
    lemma_entry_bits(0, 0, 0);
    assert forall|t: u64, node: int, i: int| #[trigger]
        live_at(after, d2, t, node, i) implies live_at(before, d, t, node, i) && word_at(
        after,
        node,
        i,
    ) == word_at(before, node, i) by {
        let k = choose|k: int| 0 <= k < d2.len() && d2[k] == node;
        if k < d.len() {
            assert(d[k] == node);
            assert(word_at(after, d[k], i) == word_at(before, d[k], i));
        } else {
            assert(word_at(after, node, i) == 0);
        }
    }
    assert forall|t: u64, node: int, i: int| #[trigger]
        live_at(before, d, t, node, i) implies live_at(after, d2, t, node, i) && word_at(
        after,
        node,
        i,
    ) == word_at(before, node, i) by {
        let k = choose|k: int| 0 <= k < d.len() && d[k] == node;
        assert(d2[k] == node);
        assert(word_at(after, d[k], i) == word_at(before, d[k], i));
    }
    assert forall|k: int, i: int| 0 <= k < d2.len() && 0 <= i < 7 implies !entry_tentative(
        #[trigger] word_at(after, d2[k], i),
    ) by {
        if k < d.len() {
            assert(d2[k] == d[k]);
            assert(!entry_tentative(word_at(before, d[k], i)));
        }
    }
    assert(chain_entries_ok(after, d2));
    assert forall|t: u64| #[trigger] dir(after, d2, t) == dir(before, d, t) by {
        if exists|node: int, i: int| #[trigger] live_at(before, d, t, node, i) {
            let (node, i) = choose|node: int, i: int| #[trigger] live_at(before, d, t, node, i);
            lemma_dir(before, d, t, node, i);
            lemma_dir(after, d2, t, node, i);
        }
    }
}

proof fn lemma_dir(nodes: Seq<Bucket>, c: Seq<int>, tag: u64, node: int, i: int)
    requires
        chain_entries_ok(nodes, c),
        live_at(nodes, c, tag, node, i),
    ensures
        dir(nodes, c, tag) == Some(entry_address(word_at(nodes, node, i))),
{
}

proof fn lemma_dir_none(nodes: Seq<Bucket>, c: Seq<int>, tag: u64)
    requires
        forall|j: int, i: int|
            0 <= j < c.len() && 0 <= i < 7 ==> !entry_live(#[trigger] word_at(nodes, c[j], i), tag),
    ensures
        dir(nodes, c, tag) == None::<u64>,
{
    assert forall|node: int, i: int| !#[trigger] live_at(nodes, c, tag, node, i) by {
        if 0 <= i < 7 && c.contains(node) {
            let k = choose|k: int| 0 <= k < c.len() && c[k] == node;
            assert(!entry_live(word_at(nodes, c[k], i), tag));
        }
    }
}

} // verus!
