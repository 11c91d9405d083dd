//! Record layout in the hybrid log.
//!
//! ```text
//! +----------------+----------------+-------------+-------+---------------+
//! | RecordInfo 8B  | DataHeader 16B | [expiry 8B] |  key  | value (cap)   | pad to 8
//! +----------------+----------------+-------------+-------+---------------+
//! ```
//!
//! `RecordInfo` is one 64-bit word holding all structural state of a record:
//!
//! ```text
//!  63 .. 53 | 52     | 51       | 50           | 49    | 48        | 47 .. 0
//!  unused   | Sealed | Modified | InNewVersion | Valid | Tombstone | PreviousAddress
//! ```
//!
//! * `PreviousAddress`: next older record with the same (bucket, tag). Chains
//!   are strictly address-descending.
//! * `Valid`: cleared while a freshly allocated record is being filled.
//! * `Sealed`: set on the *old* record when an update is copied to the tail.
//! * `Tombstone`: logical delete.
//! * `InNewVersion`: written after the checkpoint version bump.
//!
//! The data header stores key length, value length, value capacity and flags.
//! The spare capacity lets an update grow the value in place.
use crate::bytes;
use crate::bytes::{copy_range, push_all, to_vec, zero_vec};
use crate::le;
use crate::le::{u32_from_le_bytes, u32_to_le_bytes, u64_from_le_bytes, u64_to_le_bytes};
use vstd::prelude::*;
use vstd::slice::slice_subrange;

verus! {

pub const ADDRESS_BITS: u32 = 48;

pub const ADDRESS_MASK: u64 = 0xffff_ffff_ffff;

pub const TOMBSTONE_BIT: u64 = 0x1_0000_0000_0000;

pub const VALID_BIT: u64 = 0x2_0000_0000_0000;

pub const IN_NEW_VERSION_BIT: u64 = 0x4_0000_0000_0000;

pub const MODIFIED_BIT: u64 = 0x8_0000_0000_0000;

pub const SEALED_BIT: u64 = 0x10_0000_0000_0000;

/// Address 0 is never valid.
pub const INVALID_ADDRESS: u64 = 0;

/// Placeholder stored in a freshly claimed index slot before any record exists.
pub const TEMP_INVALID_ADDRESS: u64 = 1;

// ---------------------------------------------------------------------------
// The header word
// ---------------------------------------------------------------------------

/// Previous address of a header word.
pub open spec fn prev_of(w: u64) -> u64 {
    w & ADDRESS_MASK
}

pub open spec fn valid_of(w: u64) -> bool {
    w & VALID_BIT != 0
}

pub open spec fn tombstone_of(w: u64) -> bool {
    w & TOMBSTONE_BIT != 0
}

pub open spec fn sealed_of(w: u64) -> bool {
    w & SEALED_BIT != 0
}

pub open spec fn new_version_of(w: u64) -> bool {
    w & IN_NEW_VERSION_BIT != 0
}

pub open spec fn modified_of(w: u64) -> bool {
    w & MODIFIED_BIT != 0
}

/// Everything a header word says.
#[verifier::ext_equal]
pub struct InfoView {
    pub prev: u64,
    pub tombstone: bool,
    pub valid: bool,
    pub in_new_version: bool,
    pub modified: bool,
    pub sealed: bool,
}

pub open spec fn info_of(w: u64) -> InfoView {
    InfoView {
        prev: prev_of(w),
        tombstone: tombstone_of(w),
        valid: valid_of(w),
        in_new_version: new_version_of(w),
        modified: modified_of(w),
        sealed: sealed_of(w),
    }
}

/// How each single-bit update and the address update act on the fields.
pub proof fn lemma_word_bits(w: u64, p: u64)
    by (bit_vector)
    ensures
        w & 0xffff_ffff_ffff <= 0xffff_ffff_ffff,
        w <= 0xffff_ffff_ffff ==> w & 0xffff_ffff_ffff == w,
        // set valid, clear sealed
        ((w | 0x2_0000_0000_0000) & !0x10_0000_0000_0000) & 0xffff_ffff_ffff == w & 0xffff_ffff_ffff,
        ((w | 0x2_0000_0000_0000) & !0x10_0000_0000_0000) & 0x1_0000_0000_0000 == w
            & 0x1_0000_0000_0000,
        ((w | 0x2_0000_0000_0000) & !0x10_0000_0000_0000) & 0x2_0000_0000_0000 != 0,
        ((w | 0x2_0000_0000_0000) & !0x10_0000_0000_0000) & 0x4_0000_0000_0000 == w
            & 0x4_0000_0000_0000,
        ((w | 0x2_0000_0000_0000) & !0x10_0000_0000_0000) & 0x8_0000_0000_0000 == w
            & 0x8_0000_0000_0000,
        ((w | 0x2_0000_0000_0000) & !0x10_0000_0000_0000) & 0x10_0000_0000_0000 == 0,
        // set sealed
        (w | 0x10_0000_0000_0000) & 0xffff_ffff_ffff == w & 0xffff_ffff_ffff,
        (w | 0x10_0000_0000_0000) & 0x1_0000_0000_0000 == w & 0x1_0000_0000_0000,
        (w | 0x10_0000_0000_0000) & 0x2_0000_0000_0000 == w & 0x2_0000_0000_0000,
        (w | 0x10_0000_0000_0000) & 0x4_0000_0000_0000 == w & 0x4_0000_0000_0000,
        (w | 0x10_0000_0000_0000) & 0x8_0000_0000_0000 == w & 0x8_0000_0000_0000,
        (w | 0x10_0000_0000_0000) & 0x10_0000_0000_0000 != 0,
        // clear sealed
        (w & !0x10_0000_0000_0000) & 0xffff_ffff_ffff == w & 0xffff_ffff_ffff,
        (w & !0x10_0000_0000_0000) & 0x1_0000_0000_0000 == w & 0x1_0000_0000_0000,
        (w & !0x10_0000_0000_0000) & 0x2_0000_0000_0000 == w & 0x2_0000_0000_0000,
        (w & !0x10_0000_0000_0000) & 0x4_0000_0000_0000 == w & 0x4_0000_0000_0000,
        (w & !0x10_0000_0000_0000) & 0x8_0000_0000_0000 == w & 0x8_0000_0000_0000,
        (w & !0x10_0000_0000_0000) & 0x10_0000_0000_0000 == 0,
        w & 0x10_0000_0000_0000 == 0 ==> w & !0x10_0000_0000_0000 == w,
        (w | 0x10_0000_0000_0000) & !0x10_0000_0000_0000 == w & !0x10_0000_0000_0000,
        // set sealed, clear valid
        ((w | 0x10_0000_0000_0000) & !0x2_0000_0000_0000) & 0xffff_ffff_ffff == w & 0xffff_ffff_ffff,
        ((w | 0x10_0000_0000_0000) & !0x2_0000_0000_0000) & 0x1_0000_0000_0000 == w
            & 0x1_0000_0000_0000,
        ((w | 0x10_0000_0000_0000) & !0x2_0000_0000_0000) & 0x2_0000_0000_0000 == 0,
        ((w | 0x10_0000_0000_0000) & !0x2_0000_0000_0000) & 0x4_0000_0000_0000 == w
            & 0x4_0000_0000_0000,
        ((w | 0x10_0000_0000_0000) & !0x2_0000_0000_0000) & 0x8_0000_0000_0000 == w
            & 0x8_0000_0000_0000,
        ((w | 0x10_0000_0000_0000) & !0x2_0000_0000_0000) & 0x10_0000_0000_0000 != 0,
        // clear valid
        (w & !0x2_0000_0000_0000) & 0xffff_ffff_ffff == w & 0xffff_ffff_ffff,
        (w & !0x2_0000_0000_0000) & 0x1_0000_0000_0000 == w & 0x1_0000_0000_0000,
        (w & !0x2_0000_0000_0000) & 0x2_0000_0000_0000 == 0,
        (w & !0x2_0000_0000_0000) & 0x4_0000_0000_0000 == w & 0x4_0000_0000_0000,
        (w & !0x2_0000_0000_0000) & 0x8_0000_0000_0000 == w & 0x8_0000_0000_0000,
        (w & !0x2_0000_0000_0000) & 0x10_0000_0000_0000 == w & 0x10_0000_0000_0000,
        // set tombstone
        (w | 0x1_0000_0000_0000) & 0xffff_ffff_ffff == w & 0xffff_ffff_ffff,
        (w | 0x1_0000_0000_0000) & 0x1_0000_0000_0000 != 0,
        (w | 0x1_0000_0000_0000) & 0x2_0000_0000_0000 == w & 0x2_0000_0000_0000,
        (w | 0x1_0000_0000_0000) & 0x4_0000_0000_0000 == w & 0x4_0000_0000_0000,
        (w | 0x1_0000_0000_0000) & 0x8_0000_0000_0000 == w & 0x8_0000_0000_0000,
        (w | 0x1_0000_0000_0000) & 0x10_0000_0000_0000 == w & 0x10_0000_0000_0000,
        // set modified
        (w | 0x8_0000_0000_0000) & 0xffff_ffff_ffff == w & 0xffff_ffff_ffff,
        (w | 0x8_0000_0000_0000) & 0x1_0000_0000_0000 == w & 0x1_0000_0000_0000,
        (w | 0x8_0000_0000_0000) & 0x2_0000_0000_0000 == w & 0x2_0000_0000_0000,
        (w | 0x8_0000_0000_0000) & 0x4_0000_0000_0000 == w & 0x4_0000_0000_0000,
        (w | 0x8_0000_0000_0000) & 0x8_0000_0000_0000 != 0,
        (w | 0x8_0000_0000_0000) & 0x10_0000_0000_0000 == w & 0x10_0000_0000_0000,
        // set the previous address
        ((w & !0xffff_ffff_ffff) | (p & 0xffff_ffff_ffff)) & 0xffff_ffff_ffff == p & 0xffff_ffff_ffff,
        ((w & !0xffff_ffff_ffff) | (p & 0xffff_ffff_ffff)) & 0x1_0000_0000_0000 == w
            & 0x1_0000_0000_0000,
        ((w & !0xffff_ffff_ffff) | (p & 0xffff_ffff_ffff)) & 0x2_0000_0000_0000 == w
            & 0x2_0000_0000_0000,
        ((w & !0xffff_ffff_ffff) | (p & 0xffff_ffff_ffff)) & 0x4_0000_0000_0000 == w
            & 0x4_0000_0000_0000,
        ((w & !0xffff_ffff_ffff) | (p & 0xffff_ffff_ffff)) & 0x8_0000_0000_0000 == w
            & 0x8_0000_0000_0000,
        ((w & !0xffff_ffff_ffff) | (p & 0xffff_ffff_ffff)) & 0x10_0000_0000_0000 == w
            & 0x10_0000_0000_0000,
        // a fresh word
        (p & 0xffff_ffff_ffff) & 0xffff_ffff_ffff == p & 0xffff_ffff_ffff,
        (p & 0xffff_ffff_ffff) & 0x1_0000_0000_0000 == 0,
        (p & 0xffff_ffff_ffff) & 0x2_0000_0000_0000 == 0,
        (p & 0xffff_ffff_ffff) & 0x4_0000_0000_0000 == 0,
        (p & 0xffff_ffff_ffff) & 0x8_0000_0000_0000 == 0,
        (p & 0xffff_ffff_ffff) & 0x10_0000_0000_0000 == 0,
        ((p & 0xffff_ffff_ffff) | 0x4_0000_0000_0000) & 0xffff_ffff_ffff == p & 0xffff_ffff_ffff,
        ((p & 0xffff_ffff_ffff) | 0x4_0000_0000_0000) & 0x1_0000_0000_0000 == 0,
        ((p & 0xffff_ffff_ffff) | 0x4_0000_0000_0000) & 0x2_0000_0000_0000 == 0,
        ((p & 0xffff_ffff_ffff) | 0x4_0000_0000_0000) & 0x4_0000_0000_0000 != 0,
        ((p & 0xffff_ffff_ffff) | 0x4_0000_0000_0000) & 0x8_0000_0000_0000 == 0,
        ((p & 0xffff_ffff_ffff) | 0x4_0000_0000_0000) & 0x10_0000_0000_0000 == 0,
        0u64 & 0x2_0000_0000_0000 == 0,
        0u64 & 0x10_0000_0000_0000 == 0,
{
}

/// Words that differ only in the seal, and both carry it, are the same.
pub proof fn lemma_sealed_unique(x: u64, y: u64)
    by (bit_vector)
    requires
        x & 0x10_0000_0000_0000 != 0,
        y & 0x10_0000_0000_0000 != 0,
        x & !0x10_0000_0000_0000 == y & !0x10_0000_0000_0000,
    ensures
        x == y,
{
}

/// A decoded `RecordInfo` word.
#[derive(Clone, Copy, Debug, PartialEq, Eq, Structural)]
pub struct RecordInfo(pub u64);

impl RecordInfo {
    pub fn new(previous_address: u64, in_new_version: bool) -> (r: Self)
        ensures
            r.0 == (if in_new_version {
                (previous_address & ADDRESS_MASK) | IN_NEW_VERSION_BIT
            } else {
                previous_address & ADDRESS_MASK
            }),
            info_of(r.0) == (InfoView {
                prev: prev_of(previous_address),
                tombstone: false,
                valid: false,
                in_new_version,
                modified: false,
                sealed: false,
            }),
    {
        let mut w: u64 = previous_address & ADDRESS_MASK;
        if in_new_version {
            w = w | IN_NEW_VERSION_BIT;
        }
        proof {
            lemma_word_bits(0, previous_address);
        }
        RecordInfo(w)
    }

    pub fn previous_address(self) -> (r: u64)
        ensures
            r == prev_of(self.0),
            r <= ADDRESS_MASK,
    {
        proof {
            lemma_word_bits(self.0, 0);
        }
        self.0 & ADDRESS_MASK
    }

    pub fn is_valid(self) -> (r: bool)
        ensures
            r == valid_of(self.0),
    {
        self.0 & VALID_BIT != 0
    }

    pub fn is_tombstone(self) -> (r: bool)
        ensures
            r == tombstone_of(self.0),
    {
        self.0 & TOMBSTONE_BIT != 0
    }

    pub fn is_sealed(self) -> (r: bool)
        ensures
            r == sealed_of(self.0),
    {
        self.0 & SEALED_BIT != 0
    }

    pub fn in_new_version(self) -> (r: bool)
        ensures
            r == new_version_of(self.0),
    {
        self.0 & IN_NEW_VERSION_BIT != 0
    }

    /// "Closed" = not usable by an in-flight operation: invalid or sealed.
    pub fn is_closed(self) -> (r: bool)
        ensures
            r == (!valid_of(self.0) || sealed_of(self.0)),
    {
        !self.is_valid() || self.is_sealed()
    }
}

/// Access to the header word of a record.
pub struct RecordInfoRef<'a>(pub &'a mut u64);

impl<'a> RecordInfoRef<'a> {
    pub fn load(&self) -> (r: RecordInfo)
        ensures
            r.0 == *old(self.0),
    {
        RecordInfo(*self.0)
    }

    pub fn store(&mut self, info: RecordInfo)
        ensures
            *final(self).0 == info.0,
            *final(final(self).0) == *final(old(self).0),
    {
        *self.0 = info.0;
    }

    /// Publish the record: set Valid and clear Sealed, which is set during fill.
    pub fn unseal_and_validate(&mut self)
        ensures
            *final(self).0 == (*old(self).0 | VALID_BIT) & !SEALED_BIT,
            info_of(*final(self).0) == (InfoView {
                valid: true,
                sealed: false,
                ..info_of(*old(self).0)
            }),
            *final(final(self).0) == *final(old(self).0),
    {
        proof {
            lemma_word_bits(*self.0, 0);
        }
        *self.0 = (*self.0 | VALID_BIT) & !SEALED_BIT;
    }

    /// Seal (copy source). Returns false if already sealed or invalid.
    pub fn try_seal(&mut self) -> (r: bool)
        ensures
            r == (valid_of(*old(self).0) && !sealed_of(*old(self).0)),
            info_of(*final(self).0) == (InfoView {
                sealed: info_of(*old(self).0).sealed || r,
                ..info_of(*old(self).0)
            }),
            !r ==> *final(self).0 == *old(self).0,
            r ==> *final(self).0 == *old(self).0 | SEALED_BIT,
            *final(final(self).0) == *final(old(self).0),
    {
        proof {
            lemma_word_bits(*self.0, 0);
        }
        let w: u64 = *self.0;
        if w & SEALED_BIT != 0 || w & VALID_BIT == 0 {
            return false;
        }
        *self.0 = w | SEALED_BIT;
        true
    }

    pub fn seal_and_invalidate(&mut self)
        ensures
            *final(self).0 == (*old(self).0 | SEALED_BIT) & !VALID_BIT,
            info_of(*final(self).0) == (InfoView {
                valid: false,
                sealed: true,
                ..info_of(*old(self).0)
            }),
            *final(final(self).0) == *final(old(self).0),
    {
        proof {
            lemma_word_bits(*self.0, 0);
        }
        *self.0 = (*self.0 | SEALED_BIT) & !VALID_BIT;
    }

    pub fn set_invalid(&mut self)
        ensures
            *final(self).0 == *old(self).0 & !VALID_BIT,
            info_of(*final(self).0) == (InfoView { valid: false, ..info_of(*old(self).0) }),
            *final(final(self).0) == *final(old(self).0),
    {
        proof {
            lemma_word_bits(*self.0, 0);
        }
        *self.0 = *self.0 & !VALID_BIT;
    }

    pub fn set_tombstone(&mut self)
        ensures
            *final(self).0 == *old(self).0 | TOMBSTONE_BIT,
            info_of(*final(self).0) == (InfoView { tombstone: true, ..info_of(*old(self).0) }),
            *final(final(self).0) == *final(old(self).0),
    {
        proof {
            lemma_word_bits(*self.0, 0);
        }
        *self.0 = *self.0 | TOMBSTONE_BIT;
    }

    pub fn set_modified(&mut self)
        ensures
            *final(self).0 == *old(self).0 | MODIFIED_BIT,
            info_of(*final(self).0) == (InfoView { modified: true, ..info_of(*old(self).0) }),
            *final(final(self).0) == *final(old(self).0),
    {
        proof {
            lemma_word_bits(*self.0, 0);
        }
        *self.0 = *self.0 | MODIFIED_BIT;
    }

    /// Replace the previous-address field if it still equals `expected`.
    pub fn try_update_previous_address(&mut self, expected: u64, new: u64) -> (r: bool)
        ensures
            r == (prev_of(*old(self).0) == prev_of(expected)),
            r ==> *final(self).0 == (*old(self).0 & !ADDRESS_MASK) | (new & ADDRESS_MASK),
            r ==> info_of(*final(self).0) == (InfoView {
                prev: prev_of(new),
                ..info_of(*old(self).0)
            }),
            !r ==> *final(self).0 == *old(self).0,
            *final(final(self).0) == *final(old(self).0),
    {
        proof {
            lemma_word_bits(*self.0, new);
        }
        let w: u64 = *self.0;
        if w & ADDRESS_MASK != expected & ADDRESS_MASK {
            return false;
        }
        *self.0 = (w & !ADDRESS_MASK) | (new & ADDRESS_MASK);
        true
    }
}

// ---------------------------------------------------------------------------
// Data header and layout arithmetic
// ---------------------------------------------------------------------------

pub const RECORD_INFO_SIZE: usize = 8;

pub const DATA_HEADER_SIZE: usize = 16;

pub const FIXED_HEADER_SIZE: usize = 24;

pub const EXPIRATION_SIZE: usize = 8;

pub const FLAG_HAS_EXPIRATION: u32 = 1;

/// Header bytes needed to compute a record's total size (read this much from
/// disk first, then the rest).
pub const MIN_DISK_READ: usize = 24;

/// `n` rounded up to a multiple of eight.
pub open spec fn round8(n: int) -> int {
    (n + 7) / 8 * 8
}

/// Bytes a record with these parts occupies.
pub open spec fn layout_size(key_len: int, value_cap: int, slot: bool) -> int {
    round8(
        FIXED_HEADER_SIZE + (if slot {
            EXPIRATION_SIZE as int
        } else {
            0
        }) + key_len + value_cap,
    )
}

/// What a record needs to look like; produced by the sizing callbacks so the
/// store can allocate before invoking the writer.
#[derive(Clone, Copy, Debug, PartialEq, Eq, Structural)]
pub struct RecordSizeInfo {
    pub key_len: usize,
    /// Bytes reserved for the value (at least the initial value length).
    pub value_cap: usize,
    pub has_expiration: bool,
}

impl RecordSizeInfo {
    pub open spec fn total(self) -> int {
        layout_size(self.key_len as int, self.value_cap as int, self.has_expiration)
    }

    pub fn total_size(&self) -> (r: usize)
        requires
            self.total() <= usize::MAX,
        ensures
            r == self.total(),
    {
        let raw: usize = FIXED_HEADER_SIZE + (if self.has_expiration {
            EXPIRATION_SIZE
        } else {
            0
        }) + self.key_len + self.value_cap;
        align8(raw)
    }
}

pub fn align8(n: usize) -> (r: usize)
    requires
        round8(n as int) <= usize::MAX,
    ensures
        r == round8(n as int),
        n <= r < n + 8,
        r % 8 == 0,
{
    let part: usize = n % 8;
    if part == 0 {
        n
    } else {
        n + (8 - part)
    }
}

/// A record as its parts.
#[verifier::ext_equal]
pub struct RecordView {
    pub word: u64,
    pub key: Seq<u8>,
    /// The whole value capacity.
    pub buf: Seq<u8>,
    /// How much of it is the value.
    pub len: int,
    pub flags: u32,
    /// Expiration timestamp; 0 when there is no slot for one.
    pub exp: i64,
}

impl RecordView {
    pub open spec fn slot(self) -> bool {
        self.flags % 2 == 1
    }

    pub open spec fn value(self) -> Seq<u8> {
        self.buf.subrange(0, self.len)
    }

    pub open spec fn size(self) -> int {
        layout_size(self.key.len() as int, self.buf.len() as int, self.slot())
    }

    pub open spec fn wf(self) -> bool {
        &&& self.key.len() <= u32::MAX
        &&& self.buf.len() <= u32::MAX
        &&& 0 <= self.len <= self.buf.len()
        &&& !self.slot() ==> self.exp == 0
    }

    /// The same record with another header word.
    pub open spec fn with_word(self, w: u64) -> RecordView {
        RecordView { word: w, ..self }
    }

    /// Same place in the log: key, capacity, slot and header word are those
    /// of `other`; only the value and the expiration may differ.
    pub open spec fn same_frame(self, other: RecordView) -> bool {
        &&& self.word == other.word
        &&& self.key == other.key
        &&& self.buf.len() == other.buf.len()
        &&& self.flags == other.flags
    }
}

/// Whether a record of `size` for `key` with no value yet is `r`.
pub open spec fn is_fresh(r: RecordView, key: Seq<u8>, size: RecordSizeInfo) -> bool {
    &&& r.key == key
    &&& r.buf == bytes::zeros(size.value_cap as nat)
    &&& r.len == 0
    &&& r.flags == (if size.has_expiration {
        1u32
    } else {
        0u32
    })
    &&& r.exp == 0
}

// ---------------------------------------------------------------------------
// Bytes of a record
// ---------------------------------------------------------------------------

pub open spec fn le32(v: u32) -> Seq<u8> {
    le::u32_le(v)
}

pub open spec fn le64(v: u64) -> Seq<u8> {
    le::u64_le(v)
}

pub open spec fn get32(s: Seq<u8>, at: int) -> u32 {
    le::u32_of(s.subrange(at, at + 4))
}

pub open spec fn get64(s: Seq<u8>, at: int) -> u64 {
    le::u64_of(s.subrange(at, at + 8))
}

/// The bytes before the key.
pub open spec fn header_bytes(r: RecordView) -> Seq<u8> {
    le64(r.word) + le32(r.key.len() as u32) + le32(r.len as u32) + le32(r.buf.len() as u32) + le32(
        r.flags,
    ) + (if r.slot() {
        le64(r.exp as u64)
    } else {
        Seq::<u8>::empty()
    })
}

/// The bytes a record occupies in the log.
pub open spec fn encode(r: RecordView) -> Seq<u8> {
    let body = header_bytes(r) + r.key + r.buf;
    body + bytes::zeros((r.size() - body.len()) as nat)
}

/// Total size a record header announces.
pub open spec fn header_total(hdr: Seq<u8>) -> int {
    layout_size(get32(hdr, 8) as int, get32(hdr, 16) as int, get32(hdr, 20) % 2 == 1)
}

/// The record laid out at the front of `s`, if there is a whole one.
pub open spec fn decode(s: Seq<u8>) -> Option<RecordView> {
    let kl = get32(s, 8) as int;
    let vl = get32(s, 12) as int;
    let vc = get32(s, 16) as int;
    let flags = get32(s, 20);
    let slot = flags % 2 == 1;
    let ko = if slot {
        32int
    } else {
        24int
    };
    if s.len() < 24 || s.len() < layout_size(kl, vc, slot) || vl > vc {
        None
    } else {
        Some(
            RecordView {
                word: get64(s, 0),
                key: s.subrange(ko, ko + kl),
                buf: s.subrange(ko + kl, ko + kl + vc),
                len: vl,
                flags,
                exp: if slot {
                    get64(s, 24) as i64
                } else {
                    0
                },
            },
        )
    }
}

pub proof fn lemma_cast_i64(x: i64)
    by (bit_vector)
    ensures
        (x as u64) as i64 == x,
{
}

pub proof fn lemma_size_facts(r: RecordView)
    requires
        r.wf(),
    ensures
        24 <= r.size(),
        r.size() % 8 == 0,
        r.size() <= r.key.len() + r.buf.len() + 39,
        header_bytes(r).len() == (if r.slot() {
            32int
        } else {
            24int
        }),
        encode(r).len() == r.size(),
        header_bytes(r).len() + r.key.len() + r.buf.len() <= r.size(),
{
    le::le_round_trip();
}

/// Reading back what was laid out, wherever it stands at the front.
pub proof fn lemma_decode_encode(r: RecordView, s: Seq<u8>)
    requires
        r.wf(),
        s.len() >= r.size(),
        s.subrange(0, r.size()) == encode(r),
    ensures
        decode(s) == Some(r),
        header_total(s) == r.size(),
        get64(s, 0) == r.word,
        get32(s, 8) == r.key.len(),
        get32(s, 16) == r.buf.len(),
{
    le::le_round_trip();
    lemma_size_facts(r);
    lemma_cast_i64(r.exp);
    let e = encode(r);
    let h = header_bytes(r);
    let ko = h.len() as int;
    assert forall|i: int| 0 <= i < r.size() implies s[i] == e[i] by {
        assert(s.subrange(0, r.size())[i] == s[i]);
    }
    assert(s.subrange(0, 8) =~= le64(r.word));
    assert(s.subrange(8, 12) =~= le32(r.key.len() as u32));
    assert(s.subrange(12, 16) =~= le32(r.len as u32));
    assert(s.subrange(16, 20) =~= le32(r.buf.len() as u32));
    assert(s.subrange(20, 24) =~= le32(r.flags));
    if r.slot() {
        assert(s.subrange(24, 32) =~= le64(r.exp as u64));
    }
    assert(s.subrange(ko, ko + r.key.len()) =~= r.key);
    assert(s.subrange(ko + r.key.len(), ko + r.key.len() + r.buf.len()) =~= r.buf);
    assert(decode(s).unwrap() =~= r);
}

/// A record taken out of the log.
pub struct RecordPtr {
    word: u64,
    key: Vec<u8>,
    buf: Vec<u8>,
    len: u32,
    flags: u32,
    exp: i64,
}

impl View for RecordPtr {
    type V = RecordView;

    closed spec fn view(&self) -> RecordView {
        RecordView {
            word: self.word,
            key: self.key@,
            buf: self.buf@,
            len: self.len as int,
            flags: self.flags,
            exp: self.exp,
        }
    }
}

impl RecordPtr {
    pub open spec fn wf(&self) -> bool {
        self@.wf()
    }

    /// Read a record from the front of `s`.
    pub fn new(s: &[u8]) -> (r: Option<Self>)
        ensures
            r is Some <==> decode(s@) is Some,
            r matches Some(p) ==> p.wf() && decode(s@) == Some(p@),
    {
        let n: usize = s.len();
        if n < FIXED_HEADER_SIZE {
            return None;
        }
        let word: u64 = u64_from_le_bytes(slice_subrange(s, 0, 8));
        let kl: u32 = u32_from_le_bytes(slice_subrange(s, 8, 12));
        let vl: u32 = u32_from_le_bytes(slice_subrange(s, 12, 16));
        let vc: u32 = u32_from_le_bytes(slice_subrange(s, 16, 20));
        let flags: u32 = u32_from_le_bytes(slice_subrange(s, 20, 24));
        let slot: bool = flags % 2 == 1;
        let ko: u64 = if slot {
            32
        } else {
            24
        };
        let total: u64 = (ko + kl as u64 + vc as u64 + 7) / 8 * 8;
        assert(total == layout_size(kl as int, vc as int, slot));
        if (n as u64) < total || vl > vc {
            return None;
        }
        let exp: i64 = if slot {
            u64_from_le_bytes(slice_subrange(s, 24, 32)) as i64
        } else {
            0
        };
        let ks: usize = ko as usize;
        let vs: usize = ks + kl as usize;
        let key: Vec<u8> = copy_range(s, ks, vs);
        let buf: Vec<u8> = copy_range(s, vs, vs + vc as usize);
        let r = RecordPtr { word, key, buf, len: vl, flags, exp };
        assert(decode(s@).unwrap() =~= r@);
        Some(r)
    }

    pub fn info(&mut self) -> (r: RecordInfoRef<'_>)
        ensures
            *r.0 == old(self)@.word,
            final(self)@ == old(self)@.with_word(*final(r.0)),
    {
        RecordInfoRef(&mut self.word)
    }

    /// The header word, decoded.
    pub fn load_info(&self) -> (r: RecordInfo)
        ensures
            r.0 == self@.word,
    {
        RecordInfo(self.word)
    }

    pub fn key_len(&self) -> (r: usize)
        ensures
            r == self@.key.len(),
    {
        self.key.len()
    }

    pub fn value_len(&self) -> (r: usize)
        requires
            self.wf(),
        ensures
            r == self@.len,
    {
        let n: usize = self.buf.len();
        assert(self.len <= n);
        self.len as usize
    }

    pub fn value_cap(&self) -> (r: usize)
        ensures
            r == self@.buf.len(),
    {
        self.buf.len()
    }

    pub fn flags(&self) -> (r: u32)
        ensures
            r == self@.flags,
    {
        self.flags
    }

    pub fn has_expiration_slot(&self) -> (r: bool)
        ensures
            r == self@.slot(),
    {
        self.flags % 2 == 1
    }

    pub fn key(&self) -> (r: &[u8])
        ensures
            r@ == self@.key,
    {
        self.key.as_slice()
    }

    pub fn value(&self) -> (r: &[u8])
        requires
            self.wf(),
        ensures
            r@ == self@.value(),
    {
        let n: usize = self.value_len();
        slice_subrange(self.buf.as_slice(), 0, n)
    }

    /// Mutable view over the whole value *capacity*.
    pub fn value_buf_mut(&mut self) -> (r: &mut [u8])
        ensures
            r@ == old(self)@.buf,
            r@.len() == final(r)@.len() ==> final(self)@ == (RecordView {
                buf: final(r)@,
                ..old(self)@
            }),
    {
        self.buf.as_mut_slice()
    }

    /// Overwrite part of the value capacity.
    pub fn write_at(&mut self, off: usize, v: &[u8])
        requires
            off + v@.len() <= old(self)@.buf.len(),
        ensures
            final(self)@ == (RecordView {
                buf: bytes::splice(old(self)@.buf, off as int, v@),
                ..old(self)@
            }),
            final(self)@.buf.len() == old(self)@.buf.len(),
    {
        bytes::overwrite(&mut self.buf, off, v);
    }

    pub fn set_value_len(&mut self, n: usize)
        requires
            old(self).wf(),
            n <= old(self)@.buf.len(),
        ensures
            final(self)@ == (RecordView { len: n as int, ..old(self)@ }),
    {
        self.len = n as u32;
    }

    /// Expiration timestamp (0 = none). Returns 0 when the record has no slot.
    pub fn expiration(&self) -> (r: i64)
        requires
            self.wf(),
        ensures
            r == self@.exp,
    {
        self.exp
    }

    /// Returns false if the record has no expiration slot (the caller must copy).
    pub fn set_expiration(&mut self, ts: i64) -> (r: bool)
        ensures
            r == old(self)@.slot(),
            r ==> final(self)@ == (RecordView { exp: ts, ..old(self)@ }),
            !r ==> final(self)@ == old(self)@,
    {
        if !self.has_expiration_slot() {
            return false;
        }
        self.exp = ts;
        true
    }

    /// Total bytes occupied by this record (8-aligned).
    pub fn total_size(&self) -> (r: usize)
        requires
            self@.size() <= usize::MAX,
        ensures
            r == self@.size(),
    {
        let size = RecordSizeInfo {
            key_len: self.key.len(),
            value_cap: self.buf.len(),
            has_expiration: self.has_expiration_slot(),
        };
        size.total_size()
    }

    /// A freshly allocated record: its header word is *sealed and invalid*
    /// until it is published in the index.
    pub fn init(
        previous_address: u64,
        in_new_version: bool,
        size: &RecordSizeInfo,
        key: &[u8],
    ) -> (r: Self)
        requires
            size.key_len == key@.len(),
            key@.len() <= u32::MAX,
            size.value_cap <= u32::MAX,
        ensures
            r.wf(),
            is_fresh(r@, key@, *size),
            r@.word == (if in_new_version {
                (previous_address & ADDRESS_MASK) | IN_NEW_VERSION_BIT
            } else {
                previous_address & ADDRESS_MASK
            }) | SEALED_BIT,
            info_of(r@.word) == (InfoView {
                prev: prev_of(previous_address),
                tombstone: false,
                valid: false,
                in_new_version,
                modified: false,
                sealed: true,
            }),
            r@.size() == size.total(),
    {
        let info = RecordInfo::new(previous_address, in_new_version);
        proof {
            lemma_word_bits(info.0, 0);
        }
        RecordPtr {
            word: info.0 | SEALED_BIT,
            key: to_vec(key),
            buf: zero_vec(size.value_cap),
            len: 0,
            flags: if size.has_expiration {
                FLAG_HAS_EXPIRATION
            } else {
                0
            },
            exp: 0,
        }
    }

    /// The bytes of this record as they stand in the log.
    pub fn to_bytes(&self) -> (r: Vec<u8>)
        requires
            self.wf(),
            self@.size() <= usize::MAX,
        ensures
            r@ == encode(self@),
    {
        let total: usize = self.total_size();
        let mut out: Vec<u8> = u64_to_le_bytes(self.word);
        push_all(&mut out, u32_to_le_bytes(self.key.len() as u32).as_slice());
        push_all(&mut out, u32_to_le_bytes(self.len).as_slice());
        push_all(&mut out, u32_to_le_bytes(self.buf.len() as u32).as_slice());
        push_all(&mut out, u32_to_le_bytes(self.flags).as_slice());
        if self.has_expiration_slot() {
            push_all(&mut out, u64_to_le_bytes(self.exp as u64).as_slice());
        }
        assert(out@ =~= header_bytes(self@));
        push_all(&mut out, self.key.as_slice());
        push_all(&mut out, self.buf.as_slice());
        proof {
            lemma_size_facts(self@);
        }
        let pad: Vec<u8> = zero_vec(total - out.len());
        push_all(&mut out, pad.as_slice());
        out
    }

    /// A copy of this record.
    pub fn duplicate(&self) -> (r: Self)
        requires
            self.wf(),
        ensures
            r@ == self@,
    {
        RecordPtr {
            word: self.word,
            key: to_vec(self.key.as_slice()),
            buf: to_vec(self.buf.as_slice()),
            len: self.len,
            flags: self.flags,
            exp: self.exp,
        }
    }
}

/// The header word of the record at the front of `s`.
pub fn peek_info(s: &[u8]) -> (r: RecordInfo)
    requires
        s@.len() >= 8,
    ensures
        r.0 == get64(s@, 0),
{
    RecordInfo(u64_from_le_bytes(slice_subrange(s, 0, 8)))
}

/// Whether the record at the front of `s` has this key.
pub fn peek_key_is(s: &[u8], key: &[u8]) -> (r: bool)
    requires
        decode(s@) is Some,
    ensures
        r == (decode(s@).unwrap().key == key@),
{
    let kl: u32 = u32_from_le_bytes(slice_subrange(s, 8, 12));
    let flags: u32 = u32_from_le_bytes(slice_subrange(s, 20, 24));
    let ko: usize = if flags % 2 == 1 {
        32
    } else {
        24
    };
    let n: usize = s.len();
    assert(ko + kl <= n);
    bytes::bytes_eq(slice_subrange(s, ko, ko + kl as usize), key)
}

/// Whether no record starts at the front of `s`: its header is blank.
pub open spec fn blank_header(s: Seq<u8>) -> bool {
    get64(s, 0) == 0 && get32(s, 8) == 0 && get32(s, 16) == 0
}

pub fn peek_blank(s: &[u8]) -> (r: bool)
    requires
        s@.len() >= 24,
    ensures
        r == blank_header(s@),
{
    let word: u64 = u64_from_le_bytes(slice_subrange(s, 0, 8));
    let kl: u32 = u32_from_le_bytes(slice_subrange(s, 8, 12));
    let vc: u32 = u32_from_le_bytes(slice_subrange(s, 16, 20));
    word == 0 && kl == 0 && vc == 0
}

/// Given the first `MIN_DISK_READ` bytes of a record, compute its total size;
/// `None` if it would not fit in memory.
pub fn total_size_from_header(hdr: &[u8]) -> (r: Option<usize>)
    requires
        hdr@.len() >= FIXED_HEADER_SIZE,
    ensures
        r is Some <==> header_total(hdr@) <= usize::MAX,
        r matches Some(n) ==> n == header_total(hdr@),
{
    let kl: u32 = u32_from_le_bytes(slice_subrange(hdr, 8, 12));
    let vc: u32 = u32_from_le_bytes(slice_subrange(hdr, 16, 20));
    let flags: u32 = u32_from_le_bytes(slice_subrange(hdr, 20, 24));
    let base: u64 = if flags % 2 == 1 {
        32
    } else {
        24
    };
    let total: u64 = (base + kl as u64 + vc as u64 + 7) / 8 * 8;
    if total > usize::MAX as u64 {
        return None;
    }
    Some(total as usize)
}

/// The bytes of a record decode back to it, whatever follows them.
pub proof fn record_round_trip(r: RecordView, rest: Seq<u8>)
    requires
        r.wf(),
    ensures
        decode(encode(r) + rest) == Some(r),
        header_total(encode(r) + rest) == r.size(),
{
    lemma_size_facts(r);
    let s = encode(r) + rest;
    assert(s.subrange(0, r.size()) =~= encode(r));
    lemma_decode_encode(r, s);
}

/// How a record lies in the log: the header word, the lengths of key and value,
/// the capacity, the flags, the expiration if there is a slot for one, the key,
/// and the value with its spare room; then zeros up to a multiple of eight.
pub proof fn a_record_is_laid_out(r: RecordView)
    requires
        r.wf(),
    ensures
        ({
            let s = encode(r);
            let k = if r.slot() {
                32int
            } else {
                24int
            };
            let n = r.key.len() as int;
            let c = r.buf.len() as int;
            &&& s.len() == r.size()
            &&& s.len() % 8 == 0
            &&& k + n + c <= s.len() < k + n + c + 8
            &&& s.subrange(0, 8) == le::u64_le(r.word)
            &&& s.subrange(8, 12) == le::u32_le(n as u32)
            &&& s.subrange(12, 16) == le::u32_le(r.len as u32)
            &&& s.subrange(16, 20) == le::u32_le(c as u32)
            &&& s.subrange(20, 24) == le::u32_le(r.flags)
            &&& r.slot() ==> s.subrange(24, 32) == le::u64_le(r.exp as u64)
            &&& s.subrange(k, k + n) == r.key
            &&& s.subrange(k + n, k + n + c) == r.buf
            &&& forall|i: int| k + n + c <= i < s.len() ==> #[trigger] s[i] == 0
        }),
{
    le::le_round_trip();
    let s = encode(r);
    let h = header_bytes(r);
    let n = r.key.len() as int;
    let c = r.buf.len() as int;
    let k = if r.slot() {
        32int
    } else {
        24int
    };
    assert(h.len() == k);
    assert(s.subrange(0, 8) =~= le::u64_le(r.word));
    assert(s.subrange(8, 12) =~= le::u32_le(n as u32));
    assert(s.subrange(12, 16) =~= le::u32_le(r.len as u32));
    assert(s.subrange(16, 20) =~= le::u32_le(c as u32));
    assert(s.subrange(20, 24) =~= le::u32_le(r.flags));
    if r.slot() {
        assert(s.subrange(24, 32) =~= le::u64_le(r.exp as u64));
    }
    assert(s.subrange(k, k + n) =~= r.key);
    assert(s.subrange(k + n, k + n + c) =~= r.buf);
}

/// What the bits of a header word say: the lowest 48 are the previous address,
/// and each of the five above says one thing of the record.
pub proof fn header_bits_have_their_places(w: u64)
    ensures
        prev_of(w) == w % 0x1_0000_0000_0000,
        tombstone_of(w) <==> (w / 0x1_0000_0000_0000) % 2 == 1,
        valid_of(w) <==> (w / 0x2_0000_0000_0000) % 2 == 1,
        new_version_of(w) <==> (w / 0x4_0000_0000_0000) % 2 == 1,
        modified_of(w) <==> (w / 0x8_0000_0000_0000) % 2 == 1,
        sealed_of(w) <==> (w / 0x10_0000_0000_0000) % 2 == 1,
{
    assert(w & 0xffff_ffff_ffff == w % 0x1_0000_0000_0000 && ((w & 0x1_0000_0000_0000 != 0) == ((w
        / 0x1_0000_0000_0000) % 2 == 1)) && ((w & 0x2_0000_0000_0000 != 0) == ((w
        / 0x2_0000_0000_0000) % 2 == 1)) && ((w & 0x4_0000_0000_0000 != 0) == ((w
        / 0x4_0000_0000_0000) % 2 == 1)) && ((w & 0x8_0000_0000_0000 != 0) == ((w
        / 0x8_0000_0000_0000) % 2 == 1)) && ((w & 0x10_0000_0000_0000 != 0) == ((w
        / 0x10_0000_0000_0000) % 2 == 1))) by (bit_vector);
}

} // verus!
