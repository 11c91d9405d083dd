//! The store: hash index + hybrid log + epoch, exposing the narrow-waist
//! interface Read, Upsert, Modify (RMW), Delete and Scan with application
//! callbacks.
//!
//! # Region decision
//!
//! Every operation hashes the key, finds/creates the index entry, takes the
//! bucket latch (shared for Read, exclusive for updates), walks the chain to
//! the newest record for the key, then branches **purely on that record's
//! address**:
//!
//! | record address is in              | Read            | Upsert                | RMW                        | Delete            |
//! |-----------------------------------|-----------------|-----------------------|----------------------------|-------------------|
//! | `[ReadOnly, Tail)` mutable        | `reader`        | `in_place_writer`     | `in_place_updater`         | tombstone in place|
//! | `[SafeReadOnly, ReadOnly)` fuzzy  | `reader`        | (search floor is RO)  | retry later                | copied tombstone  |
//! | `[Head, SafeReadOnly)` immutable  | `reader`        | new record at tail    | `copy_updater` to tail, seal old | copied tombstone |
//! | `[Begin, Head)` on disk           | read from disk  | blind insert at tail  | disk read, then copy-update| disk read, then tombstone |
//! | absent                            | NotFound        | `initial_writer`      | `initial_updater`          | NotFound          |
//!
//! # Checkpoint versioning
//! The store has a global `(phase, version)` word. During a checkpoint the
//! phase walks `REST -> PREPARE -> IN_PROGRESS -> WAIT_FLUSH -> REST`. Records
//! written while in `IN_PROGRESS/WAIT_FLUSH` carry `InNewVersion`; a v+1 thread
//! must never update a v record in place (it copies instead), and a thread
//! still in PREPARE that meets a v+1 record starts over.
use crate::bytes;
use crate::callbacks;
use crate::callbacks::{Notice, SessionFunctions};
use crate::chain;
use crate::chain::Recs;
use crate::device::Device;
use crate::epoch;
use crate::hash;
use crate::hash::hash64;
use crate::index;
use crate::index::{HashEntry, HashIndex, LatchView, SlotRef};
use crate::log;
use crate::log::{HybridLog, LogSettings, LogView, FIRST_VALID_ADDRESS, PAGE_HEADER_SIZE};
use crate::record;
use crate::record::{RecordInfo, RecordPtr, RecordSizeInfo, RecordView, SEALED_BIT};
use vstd::prelude::*;

verus! {

#[derive(Clone, Copy, Debug, PartialEq, Eq, Structural)]
pub enum Status {
    NotFound,
    Found,
    Created,
    InPlaceUpdated,
    CopyUpdated,
    /// The key existed and is now tombstoned.
    Deleted,
    /// The operation was cancelled by a `need_*` callback on an existing record.
    Canceled,
    /// Could not make progress (log full / IO error).
    Error,
}

impl Status {
    pub open spec fn updated(self) -> bool {
        self is Created || self is InPlaceUpdated || self is CopyUpdated || self is Deleted
    }

    pub fn is_updated(self) -> (r: bool)
        ensures
            r == self.updated(),
    {
        match self {
            Status::Created | Status::InPlaceUpdated | Status::CopyUpdated | Status::Deleted => true,
            _ => false,
        }
    }
}

// ---------------------------------------------------------------------------
// System state (phase + version)
// ---------------------------------------------------------------------------

#[derive(Clone, Copy, Debug, PartialEq, Eq, Structural)]
pub enum Phase {
    Rest,
    Prepare,
    InProgress,
    WaitFlush,
}

#[derive(Clone, Copy, Debug, PartialEq, Eq, Structural)]
pub struct SystemState {
    pub phase: Phase,
    pub version: u64,
}

pub open spec fn phase_number(p: Phase) -> u64 {
    match p {
        Phase::Rest => 0,
        Phase::Prepare => 1,
        Phase::InProgress => 2,
        Phase::WaitFlush => 3,
    }
}

proof fn lemma_state_bits(p: u64, v: u64)
    by (bit_vector)
    requires
        p <= 3,
    ensures
        ((p << 56) | (v & 0xff_ffff_ffff_ffff)) >> 56 == p,
        ((p << 56) | (v & 0xff_ffff_ffff_ffff)) & 0xff_ffff_ffff_ffff == v & 0xff_ffff_ffff_ffff,
        v <= 0xff_ffff_ffff_ffff ==> v & 0xff_ffff_ffff_ffff == v,
        v & 0xff_ffff_ffff_ffff <= 0xff_ffff_ffff_ffff,
{
}

/// A version read from the state word leaves room for the next one.
pub proof fn lemma_state_mask(w: u64)
    ensures
        SystemState::unpacked(w).version <= 0xff_ffff_ffff_ffff,
{
    lemma_state_bits(0, w);
}

impl SystemState {
    pub open spec fn packed(self) -> u64 {
        (phase_number(self.phase) << 56) | (self.version & 0xff_ffff_ffff_ffff)
    }

    pub open spec fn unpacked(w: u64) -> SystemState {
        SystemState {
            phase: if w >> 56 == 0 {
                Phase::Rest
            } else if w >> 56 == 1 {
                Phase::Prepare
            } else if w >> 56 == 2 {
                Phase::InProgress
            } else {
                Phase::WaitFlush
            },
            version: w & 0xff_ffff_ffff_ffff,
        }
    }

    pub fn pack(self) -> (r: u64)
        ensures
            r == self.packed(),
    {
        let p: u64 = match self.phase {
            Phase::Rest => 0,
            Phase::Prepare => 1,
            Phase::InProgress => 2,
            Phase::WaitFlush => 3,
        };
        (p << 56) | (self.version & 0xff_ffff_ffff_ffff)
    }

    pub fn unpack(w: u64) -> (r: Self)
        ensures
            r == Self::unpacked(w),
    {
        let p: u64 = w >> 56;
        let phase = if p == 0 {
            Phase::Rest
        } else if p == 1 {
            Phase::Prepare
        } else if p == 2 {
            Phase::InProgress
        } else {
            Phase::WaitFlush
        };
        SystemState { phase, version: w & 0xff_ffff_ffff_ffff }
    }

    pub open spec fn new_version(self) -> bool {
        self.phase is InProgress || self.phase is WaitFlush
    }

    pub fn in_new_version(self) -> (r: bool)
        ensures
            r == self.new_version(),
    {
        match self.phase {
            Phase::InProgress | Phase::WaitFlush => true,
            _ => false,
        }
    }
}

/// Packing keeps the phase and every version that fits 56 bits.
pub proof fn state_round_trip(s: SystemState)
    requires
        s.version <= 0xff_ffff_ffff_ffff,
    ensures
        SystemState::unpacked(s.packed()) == s,
{
    lemma_state_bits(phase_number(s.phase), s.version);
}

/// A packed word is the packing of what it says.
pub proof fn lemma_packed(s: SystemState)
    ensures
        SystemState::unpacked(s.packed()).packed() == s.packed(),
{
    let v = s.version & 0xff_ffff_ffff_ffff;
    lemma_state_bits(phase_number(s.phase), s.version);
    lemma_state_bits(phase_number(s.phase), v);
}

#[derive(Clone, Copy, Debug)]
pub struct StoreSettings {
    pub index_buckets: usize,
    pub log: LogSettings,
}

impl StoreSettings {
    pub open spec fn ok(&self) -> bool {
        &&& self.log.ok()
        &&& self.index_buckets <= usize::MAX / 16
        &&& self.index_buckets <= 0x4000_0000_0000
    }
}

impl Default for StoreSettings {
    fn default() -> (r: Self)
        ensures
            r.ok(),
            r.index_buckets == 0x1_0000,
            r.log.page_bits == 20,
            r.log.memory_pages == 64,
            r.log.mutable_fraction == (log::Fraction { num: 9, den: 10 }),
    {
        StoreSettings { index_buckets: 0x1_0000, log: LogSettings::default() }
    }
}

// ---------------------------------------------------------------------------
// The store
// ---------------------------------------------------------------------------

pub struct Store<D: Device> {
    pub index: HashIndex,
    pub log: HybridLog<D>,
    /// Packed phase and version.
    pub state_word: u64,
    /// Tail captured at checkpoint PREPARE; records at/after it with
    /// `InNewVersion` belong to version v+1.
    pub checkpoint_start: u64,
    /// Where the log began when all keys were last dropped: nothing below is
    /// part of a checkpoint.
    pub floor: u64,
    /// Thread id the next session gets.
    pub next_thread: u64,
    /// Every record of the log.
    pub recs: Ghost<Recs>,
    /// Their addresses in allocation order.
    pub order: Ghost<Seq<int>>,
}

/// The record of an entry that is live: neither absent nor a tombstone.
pub open spec fn live_body(r: RecordView) -> Option<RecordView> {
    if record::tombstone_of(r.word) {
        None
    } else {
        Some(callbacks::body(r))
    }
}

impl<D: Device> Store<D> {
    /// Everything but the exact place of the tail.
    pub open spec fn base(&self) -> bool {
        &&& self.index.inv()
        &&& self.log.inv()
        &&& chain::chains_ok(self.index, self.recs@)
        &&& chain::newest_open(self.index, self.recs@)
        &&& chain::all_placed(self.log@, self.recs@)
        &&& chain::tiled(self.log@, self.recs@, self.order@)
        &&& self.state_word == self.state().packed()
    }

    pub open spec fn inv(&self) -> bool {
        self.base() && chain::tight(self.log@, self.recs@, self.order@)
    }

    pub open spec fn state(&self) -> SystemState {
        SystemState::unpacked(self.state_word)
    }

    /// Address of the newest record of a key.
    pub open spec fn newest(&self, key: Seq<u8>) -> Option<int> {
        chain::newest(self.index, self.recs@, key)
    }

    /// What the store holds under a key.
    pub open spec fn get(&self, key: Seq<u8>) -> Option<RecordView> {
        match self.newest(key) {
            Some(a) => live_body(self.recs@[a]),
            None => None,
        }
    }

    /// Everything the store holds.
    pub open spec fn contents(&self) -> Map<Seq<u8>, RecordView> {
        Map::new(|k: Seq<u8>| self.get(k) is Some, |k: Seq<u8>| self.get(k).unwrap())
    }

    /// Nothing that was written since all keys were last dropped is missing from
    /// the index, and nothing older is in it.
    #[verifier::opaque]
    pub open spec fn whole(&self) -> bool {
        &&& chain::unbroken(self.index, self.recs@, self.floor as int)
        &&& forall|k: Seq<u8>| (#[trigger] self.newest(k)) matches Some(a) ==> a >= self.floor
        &&& FIRST_VALID_ADDRESS <= self.floor <= self.log@.tail()
    }

    /// Whether a record belongs to the new version of a running checkpoint.
    pub open spec fn in_new_version(&self, a: int, word: u64) -> bool {
        record::new_version_of(word) && a >= self.checkpoint_start
    }

    /// Whether the newest record of a key may be updated in place.
    pub open spec fn mutable(&self, key: Seq<u8>) -> bool {
        self.newest(key) matches Some(a) ==> a >= self.log@.ro && !(self.state().new_version()
            && !self.in_new_version(a, self.recs@[a].word))
    }

    /// Nothing but boundaries, latches and blank index entries has changed.
    pub open spec fn quiet(&self, o: &Self) -> bool {
        &&& self.recs == o.recs
        &&& self.order == o.order
        &&& self.same_settings(o)
        &&& self.index.same_shape(&o.index)
        &&& forall|b: int, t: u64|
            0 <= b < o.index.bucket_count() ==> #[trigger] self.index.lookup(b, t) == o.index.lookup(
                b,
                t,
            ) || (o.index.lookup(b, t) is None && self.index.lookup(b, t) == Some(1u64))
        &&& chain::log_wait(o.log@, self.log@)
    }

    pub open spec fn same_settings(&self, o: &Self) -> bool {
        &&& self.state_word == o.state_word
        &&& self.checkpoint_start == o.checkpoint_start
        &&& self.floor == o.floor
    }

    pub proof fn lemma_quiet(&self, o: &Self)
        requires
            o.base(),
            self.quiet(o),
        ensures
            forall|k: Seq<u8>| #[trigger] self.newest(k) == o.newest(k),
            forall|k: Seq<u8>| #[trigger] self.get(k) == o.get(k),
            forall|k: Seq<u8>|
                o.newest(k) is Some ==> #[trigger] chain::chain_head(self.index, k)
                    == chain::chain_head(o.index, k),
            self.contents() == o.contents(),
            o.whole() ==> self.whole(),
    {
        reveal(Store::whole);
        o.index.lemma_buckets();
        chain::lemma_reindex(o.index, self.index, o.recs@, o.floor as int);
        assert forall|k: Seq<u8>| o.newest(k) is Some implies #[trigger] chain::chain_head(self.index, k)
            == chain::chain_head(o.index, k) by {
            let h = hash::key_hash(k);
            assert(self.index.bucket_of(h) == o.index.bucket_of(h));
        }
        assert forall|k: Seq<u8>| #[trigger] self.get(k) == o.get(k) by {
            assert(self.newest(k) == o.newest(k));
        }
        assert(self.contents() =~= o.contents());
    }

    pub proof fn lemma_quiet_trans(a: &Self, b: &Self, c: &Self)
        requires
            a.base(),
            b.base(),
            b.quiet(a),
            c.quiet(b),
        ensures
            c.quiet(a),
    {
        a.index.lemma_buckets();
        chain::lemma_wait_trans(a.log@, b.log@, c.log@);
        assert forall|h: u64| #[trigger] c.index.bucket_of(h) == a.index.bucket_of(h) by {
            assert(b.index.bucket_of(h) == a.index.bucket_of(h));
        }
        assert forall|x: int, t: u64| 0 <= x < a.index.bucket_count() implies #[trigger] c.index.lookup(x, t)
            == a.index.lookup(x, t) || (a.index.lookup(x, t) is None && c.index.lookup(x, t) == Some(1u64)) by {
            assert(b.index.lookup(x, t) == a.index.lookup(x, t) || (a.index.lookup(x, t) is None
                && b.index.lookup(x, t) == Some(1u64)));
        }
    }

    pub fn new(settings: StoreSettings, device: D) -> (r: Self)
        requires
            settings.ok(),
        ensures
            r.inv(),
            r.contents() == Map::<Seq<u8>, RecordView>::empty(),
            r.state() == (SystemState { phase: Phase::Rest, version: 1 }),
            r.checkpoint_start == u64::MAX,
            r.floor == FIRST_VALID_ADDRESS,
            r.next_thread == 1,
            r.log@.settled(),
            epoch::idle(r.log@.slots),
            r.log@.epoch == 1,
            r.log@.content == device.content(),
            r.log@.durable == device.durable(),
            r.log@.dependable == device.dependable(),
            r.log@.tail_page == 0,
            r.index.bucket_count() >= settings.index_buckets,
            r.index.bucket_count() == 2 || r.index.bucket_count() < 2 * settings.index_buckets,
            forall|h: u64| #[trigger] r.index.bucket_of(h) == h as int % r.index.bucket_count(),
            r.log@.tail_off == FIRST_VALID_ADDRESS,
            r.log@.head == FIRST_VALID_ADDRESS,
            r.log@.ro == FIRST_VALID_ADDRESS,
            r.log@.psize == vstd::arithmetic::power2::pow2(settings.log.page_bits as nat),
            r.log@.bsize >= settings.log.memory_pages,
            r.log@.bsize == 2 || r.log@.bsize < 2 * settings.log.memory_pages,
            r.log@.mpages == log::mutable_share(r.log@.bsize, settings.log.mutable_fraction),
            forall|b: int| #![trigger r.index.latch(b)]
                0 <= b < r.index.bucket_count() ==> r.index.latch(b) == (LatchView {
                    shared: 0,
                    exclusive: false,
                }),
            forall|b: int, t: u64| #[trigger] r.index.placeable(b, t),
            r.index.spare() == (if 2 * r.index.bucket_count() > 1024 {
                2 * r.index.bucket_count()
            } else {
                1024
            }),
            r.index.arena() == r.index.spare(),
            forall|b: int| 0 <= b < r.index.bucket_count() ==> #[trigger] r.index.free(b) == 7,
            forall|tid: u64| tid != 0 ==> #[trigger] r.log.can_protect(tid),
            r.recs@ == Map::<int, RecordView>::empty(),
            r.whole(),
    {
        let index = HashIndex::new(settings.index_buckets);
        let log = HybridLog::new(settings.log, device);
        let state = SystemState { phase: Phase::Rest, version: 1 };
        let word: u64 = state.pack();
        proof {
            lemma_state_bits(0, 1);
        }
        let r = Store {
            index,
            log,
            state_word: word,
            checkpoint_start: u64::MAX,
            floor: FIRST_VALID_ADDRESS,
            next_thread: 1,
            recs: Ghost(Map::empty()),
            order: Ghost(Seq::empty()),
        };
        proof {
            reveal(Store::whole);
            r.index.lemma_buckets();
            assert forall|k: Seq<u8>| #[trigger] r.newest(k) == None::<int> by {
                assert(!r.recs@.dom().contains(chain::chain_head(r.index, k)));
            }
            assert(r.contents() =~= Map::<Seq<u8>, RecordView>::empty());
            let v = r.log@;
            assert forall|x: int| 64 <= x < v.psize && x >= v.head implies #[trigger] v.mem(x) == 0 by {
                crate::math::lemma_split(0, x, v.psize);
                crate::math::lemma_mul_add(0, 0, v.psize);
                crate::math::lemma_split(0, 0, v.bsize);
                crate::math::lemma_mul_add(0, 0, v.bsize);
                assert(v.pages[0] == bytes::zeros(v.psize as nat));
            }
            assert(chain::blank(v, 64, v.psize));
        }
        r
    }

    pub fn system_state(&self) -> (r: SystemState)
        ensures
            r == self.state(),
    {
        SystemState::unpack(self.state_word)
    }

    pub fn current_version(&self) -> (r: u64)
        ensures
            r == self.state().version,
    {
        self.system_state().version
    }

    /// Replace the global state if it is still `expected`.
    pub fn try_set_system_state(&mut self, expected: SystemState, new: SystemState) -> (r: bool)
        requires
            old(self).inv(),
            expected.version <= 0xff_ffff_ffff_ffff,
        ensures
            final(self).inv(),
            r == (old(self).state() == expected),
            *final(self) == (Store {
                state_word: if r {
                    new.packed()
                } else {
                    old(self).state_word
                },
                ..*old(self)
            }),
    {
        proof {
            state_round_trip(expected);
            lemma_packed(new);
        }
        if self.state_word != expected.pack() {
            return false;
        }
        self.state_word = new.pack();
        true
    }

    pub fn set_system_state(&mut self, s: SystemState)
        ensures
            final(self).state_word == final(self).state().packed(),
            *final(self) == (Store { state_word: s.packed(), ..*old(self) }),
    {
        proof {
            lemma_packed(s);
        }
        self.state_word = s.pack();
    }

    pub fn checkpoint_start_address(&self) -> (r: u64)
        ensures
            r == self.checkpoint_start,
    {
        self.checkpoint_start
    }

    pub fn set_checkpoint_start_address(&mut self, a: u64)
        ensures
            *final(self) == (Store { checkpoint_start: a, ..*old(self) }),
    {
        self.checkpoint_start = a;
    }

    /// Forget every key: the index starts over, and what the log holds can no
    /// longer be reached, nor will it be part of a checkpoint.
    pub fn clear(&mut self)
        requires
            old(self).inv(),
        ensures
            final(self).inv(),
            *final(self) == (Store {
                index: final(self).index,
                floor: old(self).log@.tail() as u64,
                ..*old(self)
            }),
            final(self).whole(),
            final(self).index.same_shape(&old(self).index),
            final(self).index.room(),
            forall|b: int|
                0 <= b < final(self).index.bucket_count() ==> #[trigger] final(self).index.free(b) == 7,
            forall|k: Seq<u8>| #[trigger] final(self).get(k) is None,
            final(self).contents() == Map::<Seq<u8>, RecordView>::empty(),
            forall|b: int|
                0 <= b < final(self).index.bucket_count() ==> #[trigger] final(self).index.latch(b) == (
                LatchView { shared: 0, exclusive: false }),
    {
        let ghost o = *self;
        self.index.clear();
        self.floor = self.log.tail_address();
        proof {
            reveal(Store::whole);
            self.index.lemma_buckets();
            assert forall|k: Seq<u8>| #[trigger] self.newest(k) is None by {
                let h = hash::key_hash(k);
                assert(self.index.lookup(self.index.bucket_of(h), h >> 49) is None);
            }
            assert forall|k: Seq<u8>| #[trigger] self.get(k) is None by {
                assert(self.newest(k) is None);
            }
            assert(self.contents() =~= Map::<Seq<u8>, RecordView>::empty());
            assert(chain::chains_ok(self.index, self.recs@)) by {
                assert forall|a: int| #[trigger] self.recs@.dom().contains(a) implies chain::prev(
                    self.recs@,
                    a,
                ) < a && (chain::prev(self.recs@, a) >= 64 ==> self.recs@.dom().contains(
                    chain::prev(self.recs@, a),
                ) && chain::same_chain(
                    self.index,
                    self.recs@[chain::prev(self.recs@, a)].key,
                    self.recs@[a].key,
                )) by {
                    let h1 = hash::key_hash(self.recs@[chain::prev(self.recs@, a)].key);
                    let h2 = hash::key_hash(self.recs@[a].key);
                    assert(self.index.bucket_of(h1) == o.index.bucket_of(h1));
                    assert(self.index.bucket_of(h2) == o.index.bucket_of(h2));
                }
            }
            assert(chain::newest_open(self.index, self.recs@)) by {
                assert forall|k: Seq<u8>| (#[trigger] chain::newest(self.index, self.recs@, k)) is Some implies
                    false by {
                    assert(self.newest(k) is None);
                }
            }
        }
    }

    fn record_in_new_version(&self, addr: u64, info: RecordInfo) -> (r: bool)
        ensures
            r == self.in_new_version(addr as int, info.0),
    {
        info.in_new_version() && addr >= self.checkpoint_start
    }
}

/// Where a walk along a chain ended.
pub enum Trace {
    Found(u64),
    Stopped(u64),
}

impl Trace {
    fn is_stopped(&self) -> (r: bool)
        ensures
            r == (self is Stopped),
    {
        match self {
            Trace::Stopped(_) => true,
            Trace::Found(_) => false,
        }
    }
}

impl<D: Device> Store<D> {
    // -- records ---------------------------------------------------------------

    /// A record in memory reads as what it is.
    pub proof fn lemma_in_memory(&self, a: int)
        requires
            self.base(),
            self.recs@.dom().contains(a),
            a >= self.log@.head,
        ensures
            self.log@.resident(a / self.log@.psize),
            record::decode(self.log@.rest_of_page(a)) == Some(self.recs@[a]),
            0 <= a <= record::ADDRESS_MASK,
    {
        let v = self.log@;
        let r = self.recs@[a];
        assert(chain::placed(v, a, r));
        record::lemma_size_facts(r);
        v.lemma_tail();
        v.lemma_resident(a);
        let s = v.rest_of_page(a);
        assert(s.subrange(0, r.size()) =~= v.mem_range(a, r.size()));
        record::lemma_decode_encode(r, s);
    }

    /// The record at an in-memory address.
    fn record_at(&self, a: u64) -> (r: RecordPtr)
        requires
            self.base(),
            self.recs@.dom().contains(a as int),
            a >= self.log@.head,
        ensures
            r.wf(),
            r@ == self.recs@[a as int],
    {
        proof {
            self.lemma_in_memory(a as int);
        }
        self.log.record_at(a)
    }

    /// Walk the in-memory chain from `addr` looking for `key`, not going below `min`.
    fn trace_back(&self, addr: u64, key: &[u8], min: u64) -> (r: Trace)
        requires
            self.base(),
            addr < 64 || self.recs@.dom().contains(addr as int),
            min >= self.log@.head,
        ensures
            r matches Trace::Found(a) ==> chain::find(self.recs@, addr as int, key@) == Some(a as int)
                && a >= min && self.recs@.dom().contains(a as int) && self.recs@[a as int].key
                == key@ && record::valid_of(self.recs@[a as int].word),
            r matches Trace::Stopped(a) ==> chain::find(self.recs@, addr as int, key@)
                == chain::find(self.recs@, a as int, key@) && (a < min || a < 64) && a <= addr && (a
                < 64 || self.recs@.dom().contains(a as int)),
            r matches Trace::Stopped(a) ==> chain::find(self.recs@, addr as int, key@) matches Some(x)
                ==> x < min,
    {
        let mut a: u64 = addr;
        while a >= min && a >= FIRST_VALID_ADDRESS
            invariant
                self.base(),
                min >= self.log@.head,
                a <= addr,
                a < 64 || self.recs@.dom().contains(a as int),
                chain::find(self.recs@, addr as int, key@) == chain::find(
                    self.recs@,
                    a as int,
                    key@,
                ),
            decreases a,
        {
            proof {
                self.lemma_in_memory(a as int);
            }
            let info: RecordInfo = self.log.info_at(a);
            if info.is_valid() && self.log.key_is(a, key) {
                return Trace::Found(a);
            }
            let next: u64 = info.previous_address();
            assert(chain::prev(self.recs@, a as int) == next);
            a = next;
        }
        proof {
            chain::lemma_find(self.recs@, a as int, key@);
        }
        Trace::Stopped(a)
    }

    /// A record below the head reads from the device as what it is, up to its seal.
    pub proof fn lemma_from_disk(&self, a: int)
        requires
            self.base(),
            self.recs@.dom().contains(a),
            a < self.log@.head,
        ensures
            ({
                let c = self.log@.content;
                let s = c.subrange(a, c.len() as int);
                let r = self.recs@[a];
                &&& record::header_total(s) == r.size()
                &&& 24 <= r.size() <= self.log@.psize
                &&& a + r.size() <= c.len()
                &&& a + r.size() <= self.log@.flushed
                &&& record::decode(c.subrange(a, a + r.size())) == Some(r) || record::decode(
                    c.subrange(a, a + r.size()),
                ) == Some(r.with_word(r.word & !SEALED_BIT))
            }),
    {
        let v = self.log@;
        let c = v.content;
        let r = self.recs@[a];
        assert(chain::placed(v, a, r));
        assert(chain::on_disk(c, a, r));
        record::lemma_size_facts(r);
        let s = c.subrange(a, c.len() as int);
        let t = c.subrange(a, a + r.size());
        let u = r.with_word(r.word & !SEALED_BIT);
        assert(u.wf() && u.size() == r.size());
        assert(s.subrange(0, r.size()) =~= t);
        assert(t.subrange(0, r.size()) =~= t);
        crate::math::lemma_div(a, v.psize);
        if t == record::encode(r) {
            record::lemma_decode_encode(r, s);
            record::lemma_decode_encode(r, t);
        } else {
            record::lemma_decode_encode(u, s);
            record::lemma_decode_encode(u, t);
        }
    }

    /// Read the chain on disk starting at `addr` until `key` matches or the
    /// chain ends. Sealed bits are meaningless on disk images and are cleared.
    fn find_on_disk(&self, addr: u64, key: &[u8]) -> (r: Option<RecordPtr>)
        requires
            self.base(),
            addr < 64 || self.recs@.dom().contains(addr as int),
            addr < self.log@.head,
        ensures
            r matches Some(p) ==> p.wf() && (chain::find(self.recs@, addr as int, key@) matches Some(
                a,
            ) && p@ == self.recs@[a].with_word(self.recs@[a].word & !SEALED_BIT)),
            r is None ==> chain::find(self.recs@, addr as int, key@) is None || self.log@.dependable
                < self.log@.flushed,
    {
        let mut a: u64 = addr;
        let begin: u64 = self.log.begin_address();
        while a >= begin && a >= FIRST_VALID_ADDRESS
            invariant
                self.base(),
                begin == 64,
                a < self.log@.head,
                a < 64 || self.recs@.dom().contains(a as int),
                chain::find(self.recs@, addr as int, key@) == chain::find(
                    self.recs@,
                    a as int,
                    key@,
                ),
            decreases a,
        {
            let ghost r = self.recs@[a as int];
            proof {
                self.lemma_from_disk(a as int);
                record::lemma_word_bits(r.word, 0);
            }
            let buf = match self.log.read_record_from_disk(a) {
                Ok(b) => b,
                Err(_) => {
                    return None;
                },
            };
            let mut rec: RecordPtr = match buf.record() {
                Some(p) => p,
                None => {
                    return None;
                },
            };
            let word: u64 = rec.load_info().0;
            let cleared: u64 = word & !SEALED_BIT;
            proof {
                record::lemma_word_bits(word, 0);
                record::lemma_word_bits(cleared, 0);
            }
            rec.info().store(RecordInfo(cleared));
            assert(rec@ =~= r.with_word(r.word & !SEALED_BIT));
            let info: RecordInfo = rec.load_info();
            if info.is_valid() && bytes::bytes_eq(rec.key(), key) {
                return Some(rec);
            }
            let next: u64 = info.previous_address();
            assert(chain::prev(self.recs@, a as int) == next);
            a = next;
        }
        None
    }

    // -- index ---------------------------------------------------------------

    /// The index slot of a hash; the caller made sure that there can be one.
    fn slot_for(&mut self, hash: u64) -> (s: SlotRef)
        requires
            old(self).inv(),
            old(self).index.placeable(old(self).index.bucket_of(hash), hash >> 49),
        ensures
            final(self).inv(),
            final(self).quiet(old(self)),
            final(self).log == old(self).log,
            final(self).next_thread == old(self).next_thread,
            final(self).index.same_latches(&old(self).index),
            final(self).index.grown(&old(self).index, s.bucket as int, s.tag),
            final(self).index.holds(s),
            s.bucket == final(self).index.bucket_of(hash),
            s.tag == hash >> 49,
    {
        let ghost i1 = self.index;
        proof {
            self.index.lemma_buckets();
            lemma_wait_refl(self.log@);
        }
        let s = self.index.find_or_create_tag(hash);
        proof {
            chain::lemma_reindex(i1, self.index, self.recs@, self.floor as int);
            assert(chain::newest_open(self.index, self.recs@)) by {
                assert forall|key: Seq<u8>| (#[trigger] chain::newest(self.index, self.recs@, key)) is Some implies
                    !record::sealed_of(
                    self.recs@[chain::newest(self.index, self.recs@, key).unwrap()].word,
                ) by {
                    assert(chain::newest(i1, self.recs@, key) == chain::newest(self.index, self.recs@, key));
                }
            }
            assert(self.index.bucket_of(hash) == i1.bucket_of(hash));
        }
        s
    }

    // -- space ---------------------------------------------------------------

    /// Reserve space for a record behind the last one.
    fn reserve(&mut self, size: usize) -> (r: Option<u64>)
        requires
            old(self).inv(),
            size >= 24,
            size % 8 == 0,
            size + PAGE_HEADER_SIZE <= old(self).log@.psize,
        ensures
            r is Some <==> log::alloc_ready(old(self).log@, size as int),
            r is None ==> final(self).inv() && final(self).quiet(old(self)) && final(self).index
                == old(self).index && log::alloc_waits(old(self).log@, final(self).log@),
            r matches Some(a) ==> {
                &&& final(self).base()
                &&& final(self).recs == old(self).recs
                &&& final(self).order == old(self).order
                &&& final(self).index == old(self).index
                &&& final(self).same_settings(old(self))
                &&& log::allocated(old(self).log@, final(self).log@, a as int, size as int)
                &&& a == log::alloc_at(old(self).log@, size as int)
                &&& spot(final(self).log@, final(self).recs@, final(self).order@, a as int, size as int)
            },
            final(self).next_thread == old(self).next_thread,
            final(self).log@.epoch <= old(self).log@.epoch + 2,
    {
        let ghost o = self.log@;
        let ghost recs = self.recs@;
        let ghost order = self.order@;
        let r: Option<u64> = self.log.try_allocate_retry_now(size);
        proof {
            let n = self.log@;
            o.lemma_tail();
            n.lemma_tail();
            match r {
                None => {
                    chain::lemma_wait_is_step(o, n);
                    chain::lemma_step(o, n, 0, recs, order);
                },
                Some(a) => {
                    lemma_reserved(o, n, a as int, size as int, recs, order);
                },
            }
        }
        r
    }
}

pub proof fn lemma_wait_refl(v: LogView)
    requires
        v.inv(),
    ensures
        chain::log_wait(v, v),
{
}

/// Blank space for a record of `size` bytes right behind the last one.
pub open spec fn spot(v: LogView, recs: Recs, order: Seq<int>, a: int, size: int) -> bool {
    &&& chain::next_place(v, recs, order, a)
    &&& forall|x: int| #[trigger] recs.dom().contains(x) ==> x + recs[x].size() <= a
    &&& 64 <= a % v.psize
    &&& a % v.psize + size <= v.psize
    &&& a + size == v.tail()
    &&& v.tail_page == a / v.psize
    &&& v.tail_off == a % v.psize + size
    &&& v.ro <= a
    &&& chain::uncut(v.bounds, a, size)
    &&& chain::blank(v, a, (v.tail_page + 1) * v.psize)
    &&& 64 <= a <= record::ADDRESS_MASK
}

proof fn lemma_reserved(o: LogView, n: LogView, a: int, size: int, recs: Recs, order: Seq<int>)
    requires
        o.inv(),
        n.inv(),
        chain::all_placed(o, recs),
        chain::tiled(o, recs, order),
        chain::tight(o, recs, order),
        log::alloc_ready(o, size),
        log::allocated(o, n, a, size),
        24 <= size,
        size + 64 <= o.psize,
    ensures
        chain::all_placed(n, recs),
        chain::tiled(n, recs, order),
        spot(n, recs, order, a, size),
{
    let p = o.psize;
    o.lemma_tail();
    n.lemma_tail();
    let turned = !(o.tail_off + size <= p);
    let next = o.tail_page + 1;
    crate::math::lemma_mul_add(next, 1, p);
    crate::math::lemma_mul_add(o.tail_page, 1, p);
    if turned {
        crate::math::lemma_split(next, 64, p);
    } else {
        crate::math::lemma_split(o.tail_page, o.tail_off, p);
    }
    assert(chain::mem_same(o, n)) by {
        assert forall|q: int| #[trigger] o.resident(q) implies n.page(q) == o.page(q) by {
            if turned {
                o.lemma_slot_kept(q);
            }
        }
    }
    assert(chain::log_step(o, n, 0));
    chain::lemma_step(o, n, 0, recs, order);
    assert forall|x: int| #[trigger] recs.dom().contains(x) implies x + recs[x].size() <= a by {
        assert(chain::placed(o, x, recs[x]));
    }
    // the place
    if order.len() > 0 {
        let last = order.last();
        assert(order[order.len() - 1] == last);
        assert(recs.dom().contains(last));
        let r = recs[last];
        record::lemma_size_facts(r);
        crate::math::lemma_div(last, p);
        chain::lemma_page_after(o, last, r);
        assert(chain::followed_at(o, recs, order, order.len() - 1));
        assert(chain::blank(o, last + r.size(), chain::page_after(o, last)));
    }
    // blank
    let hi = (n.tail_page + 1) * p;
    assert forall|x: int| a <= x < hi && x >= n.head implies #[trigger] n.mem(x) == 0 by {
        crate::math::lemma_page_bounds(x, n.tail_page, n.tail_page + 1, p);
        crate::math::lemma_div(x, p);
        if turned {
            assert(n.pages[next % o.bsize] == bytes::zeros(p as nat));
        } else {
            chain::lemma_mem_eq(o, n, x);
            if order.len() > 0 {
                assert(o.mem(x) == 0);
            } else {
                crate::math::lemma_mul_add(0, 1, p);
                assert(o.mem(x) == 0);
            }
        }
    }
    assert(chain::blank(n, a, hi));
}

/// The header word a record is published with.
pub open spec fn published(w: u64) -> u64 {
    (w | record::VALID_BIT) & !SEALED_BIT
}

impl<D: Device> Store<D> {
    /// Exactly the entry of `key` differs from `o`: it is now `g`.
    pub open spec fn changed(&self, o: &Self, key: Seq<u8>, g: Option<RecordView>) -> bool {
        &&& self.get(key) == g
        &&& forall|k: Seq<u8>| k != key ==> #[trigger] self.get(k) == o.get(k)
    }

    /// Publish a filled record: put it in front of its chain.
    fn publish(&mut self, slot: &SlotRef, entry: HashEntry, addr: u64, rec: &mut RecordPtr)
        requires
            old(self).base(),
            old(self).index.holds(*slot),
            old(self).index.slot_word(*slot) == entry.0,
            slot.bucket == old(self).index.bucket_of(hash::key_hash(old(rec)@.key)),
            slot.tag == hash::key_hash(old(rec)@.key) >> 49,
            spot(
                old(self).log@,
                old(self).recs@,
                old(self).order@,
                addr as int,
                old(rec)@.size(),
            ),
            old(rec).wf(),
            record::prev_of(old(rec)@.word) == index::entry_address(entry.0),
        ensures
            final(self).inv(),
            final(self).same_settings(old(self)),
            final(self).next_thread == old(self).next_thread,
            old(self).whole() && old(self).floor <= addr ==> final(self).whole(),
            final(self).index.same_shape(&old(self).index),
            final(self).index.same_latches(&old(self).index),
            final(self).index.same_room(&old(self).index),
            final(self).index.holds(*slot),
            final(rec).wf(),
            final(rec)@ == old(rec)@.with_word(final(rec)@.word),
            record::info_of(final(rec)@.word) == (record::InfoView {
                valid: true,
                sealed: false,
                ..record::info_of(old(rec)@.word)
            }),
            final(self).recs@ == old(self).recs@.insert(addr as int, final(rec)@),
            final(self).order@ == old(self).order@.push(addr as int),
            final(self).log@ == old(self).log@.with_record(addr as int, final(rec)@),
            final(self).newest(old(rec)@.key) == Some(addr as int),
            forall|k: Seq<u8>|
                k != old(rec)@.key ==> #[trigger] final(self).newest(k) == old(self).newest(k),
            final(self).changed(old(self), old(rec)@.key, live_body(final(rec)@)),
    {
        let ghost o = *self;
        let ghost r0 = rec@;
        let ghost key = rec@.key;
        proof {
            self.index.lemma_buckets();
            record::lemma_word_bits(addr, 0);
            record::lemma_size_facts(rec@);
        }
        let _done: bool = slot.try_cas(&mut self.index, entry, addr);
        rec.info().unseal_and_validate();
        let ghost r = rec@;
        proof {
            self.log@.lemma_tail();
            self.log@.lemma_resident(addr as int);
            assert(r.size() == r0.size());
            chain::lemma_append_placed(self.log@, o.recs@, o.order@, addr as int, r);
        }
        self.log.write_record(addr, rec);
        proof {
            self.recs@ = o.recs@.insert(addr as int, r);
            self.order@ = o.order@.push(addr as int);
            assert(chain::chain_head(o.index, key) == index::entry_address(entry.0)) by {
                o.index.lemma_slot(*slot);
            }
            chain::lemma_prepend(o.index, self.index, o.recs@, addr as int, r, o.floor as int);
            assert(o.whole() && o.floor <= addr ==> self.whole()) by {
                reveal(Store::whole);
                if o.whole() && o.floor <= addr {
                    assert forall|k: Seq<u8>| (#[trigger] self.newest(k)) matches Some(x) ==> x
                        >= self.floor by {
                        if k != key {
                            assert(self.newest(k) == o.newest(k));
                        }
                    }
                }
            }
            let recs2 = self.recs@;
            assert forall|k: Seq<u8>| k != key implies #[trigger] self.get(k) == o.get(k) && (self.newest(k) is Some ==> self.newest(k).unwrap() != addr) by {
                assert(self.newest(k) == o.newest(k));
                chain::lemma_find(o.recs@, chain::chain_head(o.index, k), k);
                if let Some(x) = o.newest(k) {
                    assert(o.recs@.dom().contains(x));
                    assert(x + o.recs@[x].size() <= addr);
                    record::lemma_size_facts(o.recs@[x]);
                }
            }
            assert(chain::newest_open(self.index, recs2)) by {
                assert forall|k: Seq<u8>| (#[trigger] chain::newest(self.index, recs2, k)) is Some implies
                    !record::sealed_of(recs2[chain::newest(self.index, recs2, k).unwrap()].word) by {
                    if k != key {
                        assert(self.newest(k) == o.newest(k));
                        assert(self.get(k) == o.get(k));
                        assert(chain::newest(o.index, o.recs@, k) is Some);
                    }
                }
            }
            assert(self.order@.last() == addr);
        }
    }

    /// Rewrite the record at an in-memory address, in the space it has.
    fn rewrite(&mut self, addr: u64, rec: &RecordPtr)
        requires
            old(self).inv(),
            old(self).recs@.dom().contains(addr as int),
            addr >= old(self).log@.head,
            rec.wf(),
            record::valid_of(rec@.word),
            record::valid_of(old(self).recs@[addr as int].word),
            rec@.key == old(self).recs@[addr as int].key,
            rec@.size() == old(self).recs@[addr as int].size(),
            record::prev_of(rec@.word) == record::prev_of(old(self).recs@[addr as int].word),
            addr < old(self).log@.flushed ==> rec@.with_word(rec@.word & !SEALED_BIT)
                == old(self).recs@[addr as int].with_word(
                old(self).recs@[addr as int].word & !SEALED_BIT,
            ) && record::sealed_of(rec@.word),
            old(self).newest(rec@.key) == Some(addr as int) ==> !record::sealed_of(rec@.word),
        ensures
            final(self).inv(),
            final(self).same_settings(old(self)),
            final(self).next_thread == old(self).next_thread,
            old(self).whole() ==> final(self).whole(),
            final(self).index == old(self).index,
            final(self).recs@ == old(self).recs@.insert(addr as int, rec@),
            final(self).order@ == old(self).order@,
            final(self).log@ == old(self).log@.with_record(addr as int, rec@),
            forall|k: Seq<u8>| #[trigger] final(self).newest(k) == old(self).newest(k),
            old(self).newest(rec@.key) == Some(addr as int) ==> final(self).changed(
                old(self),
                rec@.key,
                live_body(rec@),
            ),
            old(self).newest(rec@.key) != Some(addr as int) ==> forall|k: Seq<u8>| #[trigger]
                final(self).get(k) == old(self).get(k),
    {
        let ghost o = *self;
        proof {
            self.log@.lemma_tail();
            assert(chain::placed(self.log@, addr as int, self.recs@[addr as int]));
            self.log@.lemma_resident(addr as int);
            chain::lemma_rewrite_placed(self.log@, self.recs@, self.order@, addr as int, rec@);
        }
        self.log.write_record(addr, rec);
        proof {
            self.recs@ = o.recs@.insert(addr as int, rec@);
            chain::lemma_rewrite(o.index, o.recs@, addr as int, rec@, o.floor as int);
            assert(o.whole() ==> self.whole()) by {
                reveal(Store::whole);
                if o.whole() {
                    assert forall|k: Seq<u8>| (#[trigger] self.newest(k)) matches Some(x) ==> x
                        >= self.floor by {
                        assert(self.newest(k) == o.newest(k));
                    }
                }
            }
            let key = rec@.key;
            assert forall|k: Seq<u8>| #[trigger] self.newest(k) == o.newest(k) by {}
            assert forall|k: Seq<u8>| #[trigger] self.newest(k) == Some(addr as int) implies k == key by {
                chain::lemma_find(o.recs@, chain::chain_head(o.index, k), k);
                assert(o.newest(k) == Some(addr as int));
            }
            assert forall|k: Seq<u8>| self.newest(k) != Some(addr as int) implies #[trigger] self.get(k) == o.get(k) by {
                assert(self.newest(k) == o.newest(k));
            }
            assert forall|k: Seq<u8>| k != key implies #[trigger] self.get(k) == o.get(k) by {
                assert(self.newest(k) == o.newest(k));
            }
            assert(chain::newest_open(self.index, self.recs@)) by {
                assert forall|k: Seq<u8>| (#[trigger] chain::newest(self.index, self.recs@, k)) is Some implies
                    !record::sealed_of(self.recs@[chain::newest(self.index, self.recs@, k).unwrap()].word) by {
                    assert(self.newest(k) == o.newest(k));
                    assert(chain::newest(o.index, o.recs@, k) is Some);
                }
            }
        }
    }

    /// Seal a record that was copied away from, so that a racing in-place
    /// updater retries rather than writing to the stale copy.
    fn seal(&mut self, addr: u64)
        requires
            old(self).inv(),
            old(self).recs@.dom().contains(addr as int),
            addr >= old(self).log@.head,
            record::valid_of(old(self).recs@[addr as int].word),
            old(self).newest(old(self).recs@[addr as int].key) != Some(addr as int),
        ensures
            final(self).inv(),
            final(self).same_settings(old(self)),
            final(self).next_thread == old(self).next_thread,
            old(self).whole() ==> final(self).whole(),
            final(self).index == old(self).index,
            final(self).order@ == old(self).order@,
            final(self).recs@ == old(self).recs@.insert(
                addr as int,
                final(self).recs@[addr as int],
            ),
            callbacks::body(final(self).recs@[addr as int]) == callbacks::body(
                old(self).recs@[addr as int],
            ),
            record::tombstone_of(final(self).recs@[addr as int].word) == record::tombstone_of(
                old(self).recs@[addr as int].word,
            ),
            record::sealed_of(final(self).recs@[addr as int].word),
            final(self).log@ == (LogView { pages: final(self).log@.pages, ..old(self).log@ }),
            forall|k: Seq<u8>| #[trigger] final(self).newest(k) == old(self).newest(k),
            forall|k: Seq<u8>| #[trigger] final(self).get(k) == old(self).get(k),
    {
        let ghost o = *self;
        let mut rec: RecordPtr = self.record_at(addr);
        let ghost r0 = rec@;
        proof {
            record::lemma_word_bits(r0.word, 0);
            record::lemma_word_bits(r0.word | SEALED_BIT, 0);
            assert(chain::placed(o.log@, addr as int, r0));
        }
        let sealed: bool = rec.info().try_seal();
        if sealed {
            assert(rec@.with_word(rec@.word & !SEALED_BIT) =~= r0.with_word(r0.word & !SEALED_BIT));
            self.rewrite(addr, &rec);
            assert(callbacks::body(rec@) =~= callbacks::body(r0));
        } else {
            assert(self.recs@ =~= o.recs@.insert(addr as int, r0));
        }
    }

    /// Publish a filled record and seal the one it was copied from, if that is
    /// still in memory.
    fn append(
        &mut self,
        slot: &SlotRef,
        entry: HashEntry,
        addr: u64,
        rec: &mut RecordPtr,
        old_to_seal: Option<u64>,
    )
        requires
            old(self).base(),
            old(self).index.holds(*slot),
            old(self).index.slot_word(*slot) == entry.0,
            slot.bucket == old(self).index.bucket_of(hash::key_hash(old(rec)@.key)),
            slot.tag == hash::key_hash(old(rec)@.key) >> 49,
            spot(
                old(self).log@,
                old(self).recs@,
                old(self).order@,
                addr as int,
                old(rec)@.size(),
            ),
            old(rec).wf(),
            record::prev_of(old(rec)@.word) == index::entry_address(entry.0),
            old_to_seal matches Some(x) ==> old(self).recs@.dom().contains(x as int) && old(
                self).recs@[x as int].key == old(rec)@.key && record::valid_of(
                old(self).recs@[x as int].word,
            ),
        ensures
            final(self).inv(),
            final(self).same_settings(old(self)),
            final(self).next_thread == old(self).next_thread,
            old(self).whole() && old(self).floor <= addr ==> final(self).whole(),
            final(self).index.same_shape(&old(self).index),
            final(self).index.same_latches(&old(self).index),
            final(self).index.same_room(&old(self).index),
            final(self).index.lookup(slot.bucket as int, slot.tag) is Some,
            final(self).log@ == (LogView { pages: final(self).log@.pages, ..old(self).log@ }),
            final(self).newest(old(rec)@.key) == Some(addr as int),
            final(self).changed(
                old(self),
                old(rec)@.key,
                live_body(old(rec)@),
            ),
            final(self).recs@.dom().contains(addr as int),
            callbacks::body(final(self).recs@[addr as int]) == callbacks::body(old(rec)@),
            record::info_of(final(self).recs@[addr as int].word) == (record::InfoView {
                valid: true,
                sealed: false,
                ..record::info_of(old(rec)@.word)
            }),
            old_to_seal is None ==> final(self).recs@ == old(self).recs@.insert(
                addr as int,
                final(self).recs@[addr as int],
            ),
            old_to_seal matches Some(x) ==> x < addr && callbacks::body(
                final(self).recs@[x as int],
            ) == callbacks::body(old(self).recs@[x as int]) && record::tombstone_of(
                final(self).recs@[x as int].word,
            ) == record::tombstone_of(old(self).recs@[x as int].word) && (x >= final(self).log@.head
                ==> record::sealed_of(final(self).recs@[x as int].word)),
    {
        let ghost s = *self;
        let ghost r0 = rec@;
        self.publish(slot, entry, addr, rec);
        let ghost p = *self;
        assert(callbacks::body(rec@) =~= callbacks::body(r0));
        match old_to_seal {
            Some(old_addr) => {
                assert(s.recs@.dom().contains(old_addr as int));
                assert(old_addr + s.recs@[old_addr as int].size() <= addr);
                proof {
                    assert(chain::placed(s.log@, old_addr as int, s.recs@[old_addr as int]));
                    record::lemma_size_facts(s.recs@[old_addr as int]);
                }
                if old_addr >= self.log.head_address() {
                    self.seal(old_addr);
                }
            },
            None => {},
        }
        proof {
            assert forall|x: Seq<u8>| #[trigger] self.get(x) == p.get(x) by {}
            self.index.lemma_slot(*slot);
        }
    }

    // -- latches -----------------------------------------------------------------

    /// Whether a session can take the latch of a bucket right now.
    pub open spec fn latch_free(&self, bucket: int, exclusive: bool) -> bool {
        let l = self.index.latch(bucket);
        if exclusive {
            !l.exclusive && l.shared == 0
        } else {
            !l.exclusive && l.shared < 0x7fff
        }
    }

    /// Take the latch of a bucket; in transaction mode the session already
    /// holds it.
    fn lock(&mut self, txn_mode: bool, bucket: usize, exclusive: bool) -> (r: bool)
        requires
            old(self).inv(),
            bucket < old(self).index.bucket_count(),
        ensures
            final(self).inv(),
            r == (txn_mode || old(self).latch_free(bucket as int, exclusive)),
            *final(self) == (Store { index: final(self).index, ..*old(self) }),
            final(self).index.same_shape(&old(self).index),
            final(self).index.same_entries(&old(self).index),
            final(self).index.same_room(&old(self).index),
            final(self).newest_same(old(self)),
            old(self).whole() ==> final(self).whole(),
            !r ==> final(self).index.same_latches(&old(self).index),
            r ==> locked(&old(self).index, &final(self).index, txn_mode, bucket as int, exclusive),
            forall|s: SlotRef| #[trigger]
                old(self).index.holds(s) ==> final(self).index.holds(s) && final(
                    self).index.slot_word(s) == old(self).index.slot_word(s),
    {
        if txn_mode {
            proof {
                self.lemma_same_entries(self);
            }
            return true;
        }
        let ghost o = *self;
        let r: bool = if exclusive {
            self.index.try_lock_exclusive(bucket)
        } else {
            self.index.try_lock_shared(bucket)
        };
        proof {
            self.lemma_same_entries(&o);
        }
        r
    }

    /// Give the latch back.
    fn unlock(&mut self, txn_mode: bool, bucket: usize, exclusive: bool, Ghost(i0): Ghost<HashIndex>)
        requires
            old(self).inv(),
            bucket < old(self).index.bucket_count(),
            old(self).index.bucket_count() == i0.bucket_count(),
            txn_mode || i0.latch(bucket as int).exclusive == false,
            locked(&i0, &old(self).index, txn_mode, bucket as int, exclusive),
        ensures
            final(self).inv(),
            *final(self) == (Store { index: final(self).index, ..*old(self) }),
            final(self).index.same_shape(&old(self).index),
            final(self).index.same_entries(&old(self).index),
            final(self).index.same_room(&old(self).index),
            final(self).newest_same(old(self)),
            old(self).whole() ==> final(self).whole(),
            final(self).index.same_latches(&i0),
    {
        let ghost o = *self;
        if !txn_mode {
            if exclusive {
                self.index.unlock_exclusive(bucket);
            } else {
                self.index.unlock_shared(bucket);
            }
        }
        proof {
            self.lemma_same_entries(&o);
        }
    }

    /// Same newest record and entry for every key.
    pub open spec fn newest_same(&self, o: &Self) -> bool {
        &&& forall|k: Seq<u8>| #[trigger] self.newest(k) == o.newest(k)
        &&& forall|k: Seq<u8>| #[trigger] self.get(k) == o.get(k)
    }

    /// Latches play no part in what the index holds.
    pub proof fn lemma_same_entries(&self, o: &Self)
        requires
            o.inv(),
            self.index.inv(),
            *self == (Store { index: self.index, ..*o }),
            self.index.same_shape(&o.index),
            self.index.same_entries(&o.index),
        ensures
            self.inv(),
            self.newest_same(o),
            o.whole() ==> self.whole(),
    {
        o.index.lemma_buckets();
        reveal(Store::whole);
        chain::lemma_reindex(o.index, self.index, o.recs@, o.floor as int);
        assert forall|k: Seq<u8>| #[trigger] self.get(k) == o.get(k) by {
            assert(self.newest(k) == o.newest(k));
        }
        assert(chain::newest_open(self.index, self.recs@)) by {
            assert forall|k: Seq<u8>| (#[trigger] chain::newest(self.index, self.recs@, k)) is Some implies
                !record::sealed_of(self.recs@[chain::newest(self.index, self.recs@, k).unwrap()].word) by {
                assert(self.newest(k) == o.newest(k));
                assert(chain::newest(o.index, o.recs@, k) is Some);
            }
        }
    }
}

/// `n` is `o` with the latch of `bucket` taken once more, unless the session
/// is in transaction mode.
pub open spec fn locked(
    o: &HashIndex,
    n: &HashIndex,
    txn_mode: bool,
    bucket: int,
    exclusive: bool,
) -> bool {
    if txn_mode {
        n.same_latches(o)
    } else {
        &&& forall|b: int|
            0 <= b < o.bucket_count() && b != bucket ==> #[trigger] n.latch(b) == o.latch(b)
        &&& n.latch(bucket) == (if exclusive {
            LatchView { shared: 0, exclusive: true }
        } else {
            LatchView { shared: (o.latch(bucket).shared + 1) as u64, exclusive: false }
        })
        &&& !o.latch(bucket).exclusive
        &&& exclusive ==> o.latch(bucket).shared == 0
        &&& !exclusive ==> o.latch(bucket).shared < 0x7fff
    }
}

// ---------------------------------------------------------------------------
// Session
// ---------------------------------------------------------------------------

/// Outcome of one attempt of an operation.
enum Op {
    Done(Status),
    RetryNow,
    RetryLater,
    /// The chain led below HeadAddress; `addr` is the first on-disk address,
    /// `latest` the chain head at the time (for the in-memory re-check).
    RecordOnDisk { addr: u64, latest: u64 },
    CprShift,
}

#[derive(Clone, Copy, Debug, PartialEq, Eq, Structural)]
pub enum LockType {
    Shared,
    Exclusive,
}

/// Attempts after which an operation gives up.
pub const MAX_RETRIES: usize = 1_000_000;

/// How far an operation counts the epoch up at most.
pub const EPOCH_STEP: u64 = 4_000_004;

pub struct Session<F: SessionFunctions> {
    pub functions: F,
    /// Row owner in the epoch table.
    pub thread: u64,
    pub txn_mode: bool,
    pub txn_locks: Vec<(usize, LockType)>,
    pub state: SystemState,
}

/// What the callbacks have been told after an operation: once, what it came to,
/// unless a record was updated in place or nothing was done. `blind` is for an
/// upsert.
pub open spec fn told_after(told: Seq<Notice>, s: Status, key: Seq<u8>, blind: bool) -> Seq<Notice> {
    match s {
        Status::Created => told.push(
            if blind {
                Notice::Written(key)
            } else {
                Notice::Made(key)
            },
        ),
        Status::CopyUpdated => told.push(Notice::Copied(key)),
        Status::Deleted => told.push(Notice::Removed(key)),
        _ => told,
    }
}

// -- what operations answer ------------------------------------------------------

/// Read: the callback on the entry, if there is one.
pub open spec fn read_result<F: SessionFunctions>(
    g: Option<RecordView>,
    key: Seq<u8>,
    input: F::Input,
    o: F::OutputView,
) -> (Status, F::OutputView) {
    match g {
        None => (Status::NotFound, o),
        Some(b) => {
            let r = F::reader_spec(key, input, b, o);
            (if r.0 {
                Status::Found
            } else {
                Status::NotFound
            }, r.1)
        },
    }
}

/// Upsert: overwrite in place where that is possible, else write a new record.
pub open spec fn upsert_result<F: SessionFunctions>(
    g: Option<RecordView>,
    mutable: bool,
    key: Seq<u8>,
    input: F::Input,
    o: F::OutputView,
) -> (Status, RecordView, F::OutputView) {
    let tried = g is Some && mutable;
    let w = F::in_place_writer_spec(key, input, g.unwrap(), o);
    if tried && w.0 {
        (Status::InPlaceUpdated, w.1, w.2)
    } else {
        let n = F::initial_writer_spec(
            key,
            input,
            callbacks::fresh(key, F::upsert_size_spec(key, input)),
            if tried {
                w.2
            } else {
                o
            },
        );
        (Status::Created, n.0, n.1)
    }
}

/// RMW of an absent key.
pub open spec fn initial_result<F: SessionFunctions>(
    key: Seq<u8>,
    input: F::Input,
    o: F::OutputView,
) -> (Status, Option<RecordView>, F::OutputView) {
    let need = F::need_initial_update_spec(key, input, o);
    if need.0 {
        let n = F::initial_updater_spec(
            key,
            input,
            callbacks::fresh(key, F::initial_size_spec(key, input)),
            need.1,
        );
        (Status::Created, Some(n.0), n.1)
    } else {
        (Status::NotFound, None, need.1)
    }
}

/// RMW by copying.
pub open spec fn copy_result<F: SessionFunctions>(
    b: RecordView,
    key: Seq<u8>,
    input: F::Input,
    o: F::OutputView,
) -> (Status, Option<RecordView>, F::OutputView) {
    let d = F::need_copy_update_spec(key, input, b, o);
    match d.0 {
        callbacks::CopyDecision::Cancel => (Status::Canceled, Some(b), d.1),
        callbacks::CopyDecision::Delete => (Status::Deleted, None, d.1),
        callbacks::CopyDecision::Copy => {
            let n = F::copy_updater_spec(
                key,
                input,
                b,
                callbacks::fresh(key, F::copy_size_spec(key, input, b)),
                d.1,
            );
            (Status::CopyUpdated, Some(n.0), n.1)
        },
    }
}

/// RMW: in place where that is possible, by copying or anew elsewhere.
pub open spec fn rmw_result<F: SessionFunctions>(
    g: Option<RecordView>,
    mutable: bool,
    key: Seq<u8>,
    input: F::Input,
    o: F::OutputView,
) -> (Status, Option<RecordView>, F::OutputView) {
    match g {
        None => initial_result::<F>(key, input, o),
        Some(b) => if !mutable {
            copy_result::<F>(b, key, input, o)
        } else {
            let u = F::in_place_updater_spec(key, input, b, o);
            match u.0 {
                callbacks::InPlaceResult::Updated => (Status::InPlaceUpdated, Some(u.1), u.2),
                callbacks::InPlaceResult::Cancel => (Status::Found, Some(b), u.2),
                callbacks::InPlaceResult::Expired => initial_result::<F>(key, input, u.2),
                callbacks::InPlaceResult::Delete => (Status::Deleted, None, u.2),
                callbacks::InPlaceResult::NeedCopy => copy_result::<F>(b, key, input, u.2),
            }
        },
    }
}

/// The size of a tombstone record.
pub open spec fn tombstone_size(key: Seq<u8>) -> RecordSizeInfo {
    RecordSizeInfo { key_len: key.len() as usize, value_cap: 0, has_expiration: false }
}

/// Whether a record of this size fits a page.
pub open spec fn fits(psize: int, size: RecordSizeInfo) -> bool {
    size.total() + PAGE_HEADER_SIZE <= psize
}

/// Whether the record that an upsert may have to write fits a page.
pub open spec fn upsert_fits<F: SessionFunctions>(
    psize: int,
    key: Seq<u8>,
    input: F::Input,
) -> bool {
    fits(psize, F::upsert_size_spec(key, input))
}

/// Whether there is space right away for the record that an RMW with outcome `s`
/// needs, if it needs one.
pub open spec fn rmw_ready<F: SessionFunctions>(
    v: LogView,
    g: Option<RecordView>,
    key: Seq<u8>,
    input: F::Input,
    s: Status,
) -> bool {
    match s {
        Status::Created => log::alloc_ready(v, F::initial_size_spec(key, input).total()),
        Status::CopyUpdated => g matches Some(b) ==> log::alloc_ready(
            v,
            F::copy_size_spec(key, input, b).total(),
        ),
        Status::Deleted => log::alloc_ready(v, tombstone_size(key).total()),
        _ => true,
    }
}

/// Whether the record that an RMW with outcome `s` needs fits, if it needs one.
pub open spec fn rmw_room<F: SessionFunctions>(
    psize: int,
    g: Option<RecordView>,
    key: Seq<u8>,
    input: F::Input,
    s: Status,
) -> bool {
    match s {
        Status::Created => fits(psize, F::initial_size_spec(key, input)),
        Status::CopyUpdated => g matches Some(b) ==> fits(psize, F::copy_size_spec(key, input, b)),
        Status::Deleted => fits(psize, tombstone_size(key)),
        _ => true,
    }
}

impl<D: Device> Store<D> {
    /// The device serves everything the next page needs.
    pub open spec fn reliable(&self) -> bool {
        self.log@.dependable >= (self.log@.tail_page + 2) * self.log@.psize
    }

    /// Nothing on the device has to be read to answer for a key, or the device
    /// serves what was flushed to it.
    pub open spec fn known(&self, key: Seq<u8>) -> bool {
        self.newest(key) matches Some(a) ==> a >= self.log@.head || self.log@.dependable
            >= self.log@.flushed
    }

    /// The index has gained the entry of one key at most.
    pub open spec fn entered(&self, o: &Self, key: Seq<u8>) -> bool {
        self.index.grown(
            &o.index,
            o.index.bucket_of(hash::key_hash(key)),
            hash::key_hash(key) >> 49,
        )
    }

    pub proof fn lemma_entered(a: &Self, b: &Self, c: &Self, key: Seq<u8>)
        requires
            a.index.inv(),
            b.index.same_shape(&a.index),
            c.index.same_shape(&b.index),
            b.entered(a, key),
            c.entered(b, key),
        ensures
            c.entered(a, key),
    {
        let h = hash::key_hash(key);
        a.index.lemma_buckets();
        assert(b.index.bucket_of(h) == a.index.bucket_of(h));
        HashIndex::lemma_grown_trans(&a.index, &b.index, &c.index, a.index.bucket_of(h), h >> 49);
    }

    pub proof fn lemma_entered_none(o: &Self, n: &Self, key: Seq<u8>)
        requires
            o.index.inv(),
            n.index.same_shape(&o.index),
            n.index.same_entries(&o.index),
            n.index.same_room(&o.index),
        ensures
            n.entered(o, key),
    {
        let h = hash::key_hash(key);
        o.index.lemma_buckets();
        assert(n.index.lookup(o.index.bucket_of(h), h >> 49) == o.index.lookup(
            o.index.bucket_of(h),
            h >> 49,
        ));
    }

    /// Taking the slot of a key is all that an attempt adds to the index.
    proof fn lemma_entered_slot(o: &Self, a: &Self, n: &Self, key: Seq<u8>)
        requires
            o.index.inv(),
            a.index.same_shape(&o.index),
            n.index.same_shape(&o.index),
            a.entered(o, key),
            n.index.same_room(&a.index),
            ({
                let h = hash::key_hash(key);
                let b = o.index.bucket_of(h);
                n.index.lookup(b, h >> 49) is Some && a.index.lookup(b, h >> 49) is Some
            }),
        ensures
            n.entered(o, key),
    {
        let h = hash::key_hash(key);
        o.index.lemma_buckets();
        HashIndex::lemma_grown_room(&o.index, &a.index, &n.index, o.index.bucket_of(h), h >> 49);
    }

    pub proof fn lemma_reliable(&self)
        requires
            self.inv(),
            self.reliable(),
        ensures
            self.log@.device_good(),
            self.log@.dependable >= self.log@.flushed,
    {
        self.log@.lemma_tail();
        crate::math::lemma_mul_le(
            self.log@.tail_page + 1,
            self.log@.tail_page + 2,
            self.log@.psize,
        );
    }

    /// Nothing stands in the way of a session's operations: it has a row in the
    /// epoch table and nobody else is protected, the device is reliable, no
    /// checkpoint is being prepared and neither counter is near its end.
    pub open spec fn calm(&self, thread: u64) -> bool {
        &&& self.reliable()
        &&& self.log.can_protect(thread)
        &&& epoch::alone(self.log@.slots, thread)
        &&& self.log@.epoch <= u64::MAX - 64
        &&& (self.log@.tail_page + 2) * self.log@.psize <= log::ADDRESS_LIMIT
        &&& !(self.state().phase is Prepare)
    }

    /// The latch of the key's bucket can be taken.
    pub open spec fn open_for(&self, txn_mode: bool, key: Seq<u8>, exclusive: bool) -> bool {
        txn_mode || self.latch_free(self.index.bucket_of(hash::key_hash(key)), exclusive)
    }

    pub proof fn lemma_open_same(&self, o: &Self, txn_mode: bool, key: Seq<u8>, exclusive: bool)
        requires
            o.index.inv(),
            self.index.same_shape(&o.index),
            self.index.same_latches(&o.index),
        ensures
            self.open_for(txn_mode, key, exclusive) == o.open_for(txn_mode, key, exclusive),
    {
        let h = hash::key_hash(key);
        o.index.lemma_buckets();
        assert(self.index.bucket_of(h) == o.index.bucket_of(h));
        assert(self.index.latch(o.index.bucket_of(h)) == o.index.latch(o.index.bucket_of(h)));
    }

    /// A checkpoint is being prepared and the newest record of the key, at or
    /// above `edge`, belongs to the version after it: a thread that has not taken
    /// note of that version has to look at the state again first.
    pub open spec fn ahead(&self, key: Seq<u8>, edge: int) -> bool {
        self.state().phase is Prepare && (self.newest(key) matches Some(a) && a >= edge
            && self.in_new_version(a, self.recs@[a].word))
    }

    /// A thread can take up an operation on a key at once: it has a row in the
    /// epoch table, the latch can be taken, and no checkpoint stands in the way.
    pub open spec fn prompt(
        &self,
        thread: u64,
        txn_mode: bool,
        key: Seq<u8>,
        exclusive: bool,
        edge: int,
    ) -> bool {
        &&& self.log.can_protect(thread)
        &&& self.open_for(txn_mode, key, exclusive)
        &&& !self.ahead(key, edge)
    }

    /// The index has or can make an entry for the key.
    pub open spec fn indexable(&self, key: Seq<u8>) -> bool {
        self.index.placeable(
            self.index.bucket_of(hash::key_hash(key)),
            hash::key_hash(key) >> 49,
        )
    }

    /// Open a session. Each connection owns one.
    pub fn new_session<F: SessionFunctions>(&mut self, functions: F) -> (r: Session<F>)
        ensures
            *final(self) == (Store { next_thread: final(self).next_thread, ..*old(self) }),
            r.functions == functions,
            r.thread == old(self).next_thread,
            !r.txn_mode,
            r.txn_locks@.len() == 0,
            r.state == old(self).state(),
            old(self).next_thread < u64::MAX ==> final(self).next_thread == old(self).next_thread + 1,
            final(self).next_thread >= old(self).next_thread,
    {
        let thread: u64 = self.next_thread;
        if self.next_thread < u64::MAX {
            self.next_thread = self.next_thread + 1;
        }
        Session {
            functions,
            thread,
            txn_mode: false,
            txn_locks: Vec::new(),
            state: self.system_state(),
        }
    }
}

impl<F: SessionFunctions> Session<F> {
    pub fn current_version(&self) -> (r: u64)
        ensures
            r == self.state.version,
    {
        self.state.version
    }

    pub fn in_transaction(&self) -> (r: bool)
        ensures
            r == self.txn_mode,
    {
        self.txn_mode
    }

    /// Same session, apart from callback state and the phase last seen; the
    /// callbacks were told nothing.
    pub open spec fn same(&self, o: &Self) -> bool {
        &&& self.thread == o.thread
        &&& self.txn_mode == o.txn_mode
        &&& self.txn_locks == o.txn_locks
        &&& self.functions.told() == o.functions.told()
    }

    /// Same session, whose callbacks were told what an operation came to.
    pub open spec fn told_by(&self, o: &Self, s: Status, key: Seq<u8>, blind: bool) -> bool {
        &&& self.thread == o.thread
        &&& self.txn_mode == o.txn_mode
        &&& self.txn_locks == o.txn_locks
        &&& self.functions.told() == told_after(o.functions.told(), s, key, blind)
    }

    /// An attempt that is not the last one tells the callbacks nothing.
    spec fn told_op(&self, o: &Self, r: Op, key: Seq<u8>, blind: bool) -> bool {
        match r {
            Op::Done(s) => self.told_by(o, s, key, blind),
            _ => self.same(o),
        }
    }

    /// Only the callbacks were called, and told `n`.
    pub open spec fn heard(&self, o: &Self, n: Notice) -> bool {
        &&& *self == (Session { functions: self.functions, ..*o })
        &&& self.functions.told() == o.functions.told().push(n)
    }

    fn tell_written(&mut self, key: &[u8], input: &F::Input, rec: &RecordPtr, out: &mut F::Output)
        ensures
            final(self).heard(old(self), Notice::Written(key@)),
            F::out_view(*final(out)) == F::out_view(*old(out)),
    {
        self.functions.post_initial_writer(key, input, rec, out);
    }

    fn tell_made(&mut self, key: &[u8], input: &F::Input, rec: &RecordPtr, out: &mut F::Output)
        ensures
            final(self).heard(old(self), Notice::Made(key@)),
            F::out_view(*final(out)) == F::out_view(*old(out)),
    {
        self.functions.post_initial_updater(key, input, rec, out);
    }

    fn tell_copied(&mut self, key: &[u8], input: &F::Input, rec: &RecordPtr, out: &mut F::Output)
        ensures
            final(self).heard(old(self), Notice::Copied(key@)),
            F::out_view(*final(out)) == F::out_view(*old(out)),
    {
        self.functions.post_copy_updater(key, input, rec, out);
    }

    fn tell_removed(&mut self, key: &[u8])
        ensures
            final(self).heard(old(self), Notice::Removed(key@)),
    {
        self.functions.post_deleter(key);
    }

    /// Enter the epoch and re-read the global phase and version.
    fn enter<D: Device>(&mut self, store: &mut Store<D>)
        requires
            old(store).inv(),
            old(store).log.can_protect(old(self).thread),
        ensures
            final(store).inv(),
            final(store).quiet(old(store)),
            final(store).index == old(store).index,
            final(store).next_thread == old(store).next_thread,
            final(store).log@ == (LogView {
                slots: final(store).log@.slots,
                ..old(store).log@
            }),
            final(store).log.can_protect(old(self).thread),
            epoch::alone(old(store).log@.slots, old(self).thread) ==> epoch::alone(
                final(store).log@.slots,
                old(self).thread,
            ),
            final(self).same(old(self)),
            final(self).functions == old(self).functions,
            final(self).state == old(store).state(),
    {
        let ghost o = *store;
        let e: u64 = store.log.protect(self.thread);
        proof {
            let k = choose|k: int| #[trigger]
                epoch::is_row_for(o.log@.slots, self.thread, k) && store.log@.slots
                    == o.log@.slots.update(k, epoch::Slot { epoch: e, owner: self.thread });
            assert(store.log@.slots[k].owner == self.thread);
            assert(epoch::is_row_for(store.log@.slots, self.thread, k));
            if epoch::alone(o.log@.slots, self.thread) {
                epoch::lemma_alone_enters(o.log@.slots, o.log@.epoch, self.thread, k, e);
            }
            store.lemma_slots_only(&o);
        }
        self.state = store.system_state();
    }

    /// Leave the epoch.
    fn leave<D: Device>(&mut self, store: &mut Store<D>)
        requires
            old(store).inv(),
            old(store).log.can_protect(old(self).thread),
        ensures
            final(store).inv(),
            final(store).quiet(old(store)),
            final(store).index == old(store).index,
            final(store).next_thread == old(store).next_thread,
            final(store).log@ == (LogView {
                slots: final(store).log@.slots,
                ..old(store).log@
            }),
            final(store).log.can_protect(old(self).thread),
            epoch::alone(old(store).log@.slots, old(self).thread) ==> epoch::idle(
                final(store).log@.slots,
            ),
            *final(self) == *old(self),
    {
        let ghost o = *store;
        store.log.unprotect(self.thread);
        proof {
            let k = choose|k: int| #[trigger]
                epoch::is_row_for(o.log@.slots, self.thread, k) && store.log@.slots
                    == o.log@.slots.update(k, epoch::Slot { epoch: 0, owner: self.thread });
            assert(store.log@.slots[k].owner == self.thread);
            assert(epoch::is_row_for(store.log@.slots, self.thread, k));
            if epoch::alone(o.log@.slots, self.thread) {
                epoch::lemma_alone_leaves(o.log@.slots, o.log@.epoch, self.thread, k);
            }
            store.lemma_slots_only(&o);
        }
    }
}

impl<D: Device> Store<D> {
    /// Entering and leaving the epoch changes nothing else.
    pub proof fn lemma_slots_only(&self, o: &Self)
        requires
            o.inv(),
            *self == (Store { log: self.log, ..*o }),
            self.log.inv(),
            self.log@ == (LogView { slots: self.log@.slots, ..o.log@ }),
        ensures
            self.inv(),
            self.quiet(o),
    {
        lemma_wait_refl(o.log@);
        chain::lemma_wait_is_step(o.log@, self.log@);
        chain::lemma_step(o.log@, self.log@, 0, o.recs@, o.order@);
    }

    /// Only boundaries have moved.
    proof fn lemma_waited(&self, o: &Self)
        requires
            o.inv(),
            *self == (Store { log: self.log, ..*o }),
            self.log.inv(),
            chain::log_wait(o.log@, self.log@),
            self.log@.tail_off == o.log@.tail_off,
        ensures
            self.inv(),
            self.quiet(o),
    {
        chain::lemma_wait_is_step(o.log@, self.log@);
        chain::lemma_step(o.log@, self.log@, 0, o.recs@, o.order@);
    }

    /// Count the epoch up and perform whatever has become safe.
    pub fn bump(&mut self)
        requires
            old(self).inv(),
        ensures
            final(self).inv(),
            final(self).quiet(old(self)),
            *final(self) == (Store { log: final(self).log, ..*old(self) }),
            log::moved(old(self).log@, final(self).log@),
            final(self).log@.slots == old(self).log@.slots,
            final(self).log@.ro == old(self).log@.ro,
            final(self).log@.head == old(self).log@.head,
            final(self).log@.epoch <= old(self).log@.epoch + 1,
            epoch::idle(old(self).log@.slots) && old(self).log@.epoch < u64::MAX ==> final(
                self).log@.settled(),
    {
        let ghost o = *self;
        let _e: u64 = self.log.bump();
        proof {
            self.lemma_waited(&o);
        }
    }
}

impl<F: SessionFunctions> Session<F> {
    /// Version gate, applied to every record an operation finds before it
    /// decides what to do with it:
    /// * A **v thread** that finds a **v+1** record has been overtaken by the
    ///   version shift and must start over.
    /// * A record that is sealed or invalid is being copied, so retry rather
    ///   than trust it.
    fn cpr_gate<D: Device>(&self, store: &Store<D>, addr: u64, info: RecordInfo) -> (r: Option<Op>)
        ensures
            r is Some <==> (self.state.phase is Prepare && store.in_new_version(addr as int, info.0))
                || !record::valid_of(info.0) || record::sealed_of(info.0),
            r matches Some(op) ==> op is CprShift || op is RetryLater,
            r matches Some(op) ==> op is CprShift == (self.state.phase is Prepare
                && store.in_new_version(addr as int, info.0)),
    {
        if self.state.phase == Phase::Prepare && store.record_in_new_version(addr, info) {
            return Some(Op::CprShift);
        }
        if info.is_closed() {
            return Some(Op::RetryLater);
        }
        None
    }

    /// Whether a **v+1 thread** must copy instead of updating in place, because
    /// the record it found still belongs to version v and the checkpoint needs
    /// that value intact.
    fn cpr_blocks_in_place<D: Device>(&self, store: &Store<D>, addr: u64, info: RecordInfo) -> (r:
        bool)
        ensures
            r == (self.state.new_version() && !store.in_new_version(addr as int, info.0)),
    {
        self.state.in_new_version() && !store.record_in_new_version(addr, info)
    }

    /// Back off after a non-terminal outcome. Returns false once the operation
    /// has retried so many times that something is certainly wrong.
    ///
    /// Waiting is the interesting outcome: some boundary move is pending, so
    /// this thread bumps the epoch to give the queued action (page flush, page
    /// close) a chance to run.
    fn handle_retry<D: Device>(&mut self, store: &mut Store<D>, outcome: Op, attempt: &mut usize) -> (r:
        bool)
        requires
            old(store).inv(),
            *old(attempt) <= MAX_RETRIES,
            !(outcome is Done),
            !(outcome is RecordOnDisk),
        ensures
            final(store).inv(),
            final(store).quiet(old(store)),
            *final(store) == (Store { log: final(store).log, ..*old(store) }),
            *final(attempt) == *old(attempt) + 1,
            r == (*old(attempt) < MAX_RETRIES),
            *final(self) == *old(self),
            log::moved(old(store).log@, final(store).log@),
            final(store).log@.slots == old(store).log@.slots,
            final(store).log@.ro == old(store).log@.ro,
            final(store).log@.head == old(store).log@.head,
            final(store).log@.epoch <= old(store).log@.epoch + 1,
            r && outcome is RetryLater && epoch::idle(old(store).log@.slots) && old(store).log@.epoch
                < u64::MAX ==> final(store).log@.settled(),
    {
        proof {
            lemma_wait_refl(store.log@);
        }
        *attempt = *attempt + 1;
        if *attempt > MAX_RETRIES {
            return false;
        }
        match outcome {
            // A pending epoch action must complete first.
            Op::RetryLater => {
                store.bump();
            },
            // Pure contention, or the checkpoint state machine moved.
            _ => {},
        }
        true
    }

    // ---------------------------------------------------------------------
    // Read
    // ---------------------------------------------------------------------

    /// Read a key: the `reader` callback turns the entry into `out`.
    #[verifier::spinoff_prover]
    #[verifier::rlimit(60)]
    pub fn read<D: Device>(
        &mut self,
        store: &mut Store<D>,
        key: &[u8],
        input: &F::Input,
        out: &mut F::Output,
    ) -> (r: Status)
        requires
            old(store).inv(),
        ensures
            final(store).inv(),
            final(store).quiet(old(store)),
            final(store).next_thread == old(store).next_thread,
            final(store).index.same_latches(&old(store).index),
            final(store).index.same_entries(&old(store).index),
            final(store).index.same_room(&old(store).index),
            final(store).contents() == old(store).contents(),
            old(store).whole() ==> final(store).whole(),
            log::image_kept(old(store).log@, final(store).log@),
            final(self).same(old(self)),
            r is Error ==> F::out_view(*final(out)) == F::out_view(*old(out)),
            r is Found || (r is NotFound && on_hand(old(store), final(store), key@)) ==> (
                r,
                F::out_view(*final(out)),
            ) == read_result::<F>(
                old(store).get(key@),
                key@,
                *input,
                F::out_view(*old(out)),
            ),
            r is Error || r is Found || r is NotFound,
            !(r is Error) && old(store).newest(key@) is Some ==> old(store).open_for(
                old(self).txn_mode,
                key@,
                false,
            ),
            old(store).prompt(
                old(self).thread,
                old(self).txn_mode,
                key@,
                false,
                old(store).log@.head as int,
            ) ==> !(r is Error),
            calm_after(old(store), final(store), old(self).thread),
    {
        let hash: u64 = hash64(key);
        let ghost o = *store;
        let ghost out0 = F::out_view(*out);
        proof {
            lemma_wait_refl(store.log@);
            store.lemma_quiet(&o);
        }
        if !store.log.has_row(self.thread) {
            return Status::Error;
        }
        let mut attempt: usize = 0;
        loop
            invariant
                hash == hash::key_hash(key@),
                o == *old(store),
                o.inv(),
                store.inv(),
                store.quiet(&o),
                store.index.same_latches(&o.index),
                store.index.same_entries(&o.index),
                store.index.same_room(&o.index),
                store.index.same_shape(&o.index),
                store.next_thread == o.next_thread,
                self.same(old(self)),
                store.log.can_protect(self.thread),
                attempt <= MAX_RETRIES,
                attempt > 0 ==> !o.prompt(
                    old(self).thread,
                    old(self).txn_mode,
                    key@,
                    false,
                    o.log@.head as int,
                ),
                attempt == 0 ==> *store == o,
                F::out_view(*out) == out0,
                out0 == F::out_view(*old(out)),
                epoch::alone(o.log@.slots, self.thread) ==> epoch::alone(
                    store.log@.slots,
                    self.thread,
                ),
                store.log@.epoch <= o.log@.epoch + attempt,
            decreases MAX_RETRIES - attempt,
        {
            let ghost s0 = *store;
            self.enter(store);
            let ghost s1 = *store;
            let r = self.internal_read(store, key, hash, input, out);
            let ghost s2 = *store;
            self.leave(store);
            proof {
                s0.lemma_quiet(&o);
                s1.lemma_quiet(&s0);
                Store::lemma_quiet_trans(&o, &s0, &s1);
                Store::lemma_quiet_trans(&o, &s1, &s2);
                Store::lemma_quiet_trans(&o, &s2, store);
                store.lemma_quiet(&o);
                s2.lemma_quiet(&o);
                lemma_latch_trans(&o.index, &s0.index, &store.index);
                s1.lemma_open_same(&o, self.txn_mode, key@, false);
                lemma_calm_after(&o, &s2, store, self.thread);
            }
            match r {
                Op::Done(s) => {
                    return s;
                },
                Op::RecordOnDisk { addr, .. } => {
                    let found: Option<RecordPtr> = store.find_on_disk(addr, key);
                    proof {
                        if on_hand(&o, store, key@) {
                            lemma_on_hand(&o, store, store, key@);
                        }
                        assert(o.newest(key@) == chain::find(store.recs@, addr as int, key@));
                        chain::lemma_find(store.recs@, addr as int, key@);
                    }
                    return match found {
                        Some(rec) => {
                            proof {
                                let w = store.recs@[store.newest(key@).unwrap()].word;
                                record::lemma_word_bits(w, 0);
                                assert(callbacks::body(rec@) == callbacks::body(
                                    o.recs@[o.newest(key@).unwrap()],
                                ));
                            }
                            if !rec.load_info().is_tombstone() && self.functions.reader(
                                key,
                                input,
                                &rec,
                                out,
                            ) {
                                Status::Found
                            } else {
                                Status::NotFound
                            }
                        },
                        None => Status::NotFound,
                    };
                },
                other => {
                    let ghost s3 = *store;
                    if !self.handle_retry(store, other, &mut attempt) {
                        proof {
                            Store::lemma_quiet_trans(&o, &s3, store);
                            store.lemma_quiet(&o);
                            lemma_calm_after(&o, &s2, store, self.thread);
                        }
                        return Status::Error;
                    }
                    proof {
                        Store::lemma_quiet_trans(&o, &s3, store);
                    }
                },
            }
        }
    }

    fn internal_read<D: Device>(
        &mut self,
        store: &mut Store<D>,
        key: &[u8],
        hash: u64,
        input: &F::Input,
        out: &mut F::Output,
    ) -> (r: Op)
        requires
            old(store).inv(),
            hash == hash::key_hash(key@),
            old(self).state == old(store).state(),
        ensures
            final(store).inv(),
            final(store).quiet(old(store)),
            final(store).index.same_latches(&old(store).index),
            final(store).index.same_entries(&old(store).index),
            final(store).index.same_room(&old(store).index),
            *final(store) == (Store { index: final(store).index, ..*old(store) }),
            final(self).same(old(self)),
            match r {
                Op::Done(s) => {
                    &&& (s, F::out_view(*final(out))) == read_result::<F>(
                        old(store).get(key@),
                        key@,
                        *input,
                        F::out_view(*old(out)),
                    )
                    &&& old(store).newest(key@) is Some ==> old(store).open_for(
                        old(self).txn_mode,
                        key@,
                        false,
                    )
                    &&& !old(store).ahead(key@, old(store).log@.head as int)
                },
                Op::RecordOnDisk { addr, latest } => {
                    &&& F::out_view(*final(out)) == F::out_view(*old(out))
                    &&& old(store).open_for(old(self).txn_mode, key@, false)
                    &&& addr >= 64
                    &&& addr < old(store).log@.head
                    &&& old(store).recs@.dom().contains(addr as int)
                    &&& old(store).newest(key@) == chain::find(
                        old(store).recs@,
                        addr as int,
                        key@,
                    )
                },
                _ => {
                    &&& F::out_view(*final(out)) == F::out_view(*old(out))
                    &&& r is CprShift ==> old(store).ahead(key@, old(store).log@.head as int)
                    &&& !(old(store).open_for(old(self).txn_mode, key@, false) && !old(store).ahead(
                        key@,
                        old(store).log@.head as int,
                    ))
                },
            },
    {
        let ghost o = *store;
        proof {
            lemma_wait_refl(store.log@);
            store.index.lemma_buckets();
            chain::lemma_find(o.recs@, chain::chain_head(o.index, key@), key@);
        }
        let slot = match store.index.find_tag(hash) {
            Some(s) => s,
            None => {
                return Op::Done(Status::NotFound);
            },
        };
        if !store.lock(self.txn_mode, slot.bucket, false) {
            return Op::RetryLater;
        }
        let entry: HashEntry = slot.load(&store.index);
        let head: u64 = store.log.head_address();
        proof {
            assert(chain::entry_ok(
                o.index,
                o.recs@,
                slot.bucket as int,
                slot.tag,
                o.index.lookup(slot.bucket as int, slot.tag),
            ));
            assert(chain::chain_head(o.index, key@) == index::entry_address(entry.0));
        }
        let r = match store.trace_back(entry.address(), key, head) {
            Trace::Found(addr) => {
                let rec: RecordPtr = store.record_at(addr);
                let info: RecordInfo = rec.load_info();
                match self.cpr_gate(store, addr, info) {
                    Some(op) => {
                        assert(o.newest(key@) == Some(addr as int));
                        assert(!record::sealed_of(info.0));
                        assert(chain::placed(o.log@, addr as int, o.recs@[addr as int]));
                        op
                    },
                    None => {
                        if info.is_tombstone() {
                            Op::Done(Status::NotFound)
                        } else if self.functions.reader(key, input, &rec, out) {
                            Op::Done(Status::Found)
                        } else {
                            Op::Done(Status::NotFound)
                        }
                    },
                }
            },
            Trace::Stopped(addr) => {
                if addr >= store.log.begin_address() && addr >= FIRST_VALID_ADDRESS {
                    Op::RecordOnDisk { addr, latest: entry.address() }
                } else {
                    Op::Done(Status::NotFound)
                }
            },
        };
        store.unlock(self.txn_mode, slot.bucket, false, Ghost(o.index));
        r
    }
}

/// An operation that was not disturbed leaves the store undisturbed: the next
/// one of the same thread finds the same conditions, but for the page that it
/// may have turned and the epoch.
pub open spec fn calm_after<D: Device>(o: &Store<D>, n: &Store<D>, thread: u64) -> bool {
    &&& n.log@.dependable == o.log@.dependable
    &&& n.log@.psize == o.log@.psize
    &&& n.log@.tail_page <= o.log@.tail_page + 1
    &&& n.log@.epoch <= o.log@.epoch + EPOCH_STEP
    &&& o.log.can_protect(thread) ==> n.log.can_protect(thread)
    &&& o.log.can_protect(thread) && epoch::alone(o.log@.slots, thread) ==> epoch::alone(
        n.log@.slots,
        thread,
    )
    &&& epoch::idle(o.log@.slots) ==> epoch::idle(n.log@.slots)
}

/// `m` is where the thread was last inside the epoch; `n` is after it left.
proof fn lemma_calm_after<D: Device>(o: &Store<D>, m: &Store<D>, n: &Store<D>, thread: u64)
    requires
        n.log@.dependable == o.log@.dependable,
        n.log@.psize == o.log@.psize,
        n.log@.tail_page <= o.log@.tail_page + 1,
        n.log@.epoch <= o.log@.epoch + EPOCH_STEP,
        n.log.can_protect(thread),
        epoch::alone(o.log@.slots, thread) ==> epoch::alone(m.log@.slots, thread),
        epoch::alone(m.log@.slots, thread) ==> epoch::idle(n.log@.slots),
    ensures
        calm_after(o, n, thread),
{
    if epoch::idle(o.log@.slots) {
        assert(epoch::alone(o.log@.slots, thread));
    }
    if epoch::idle(n.log@.slots) {
        assert(epoch::alone(n.log@.slots, thread));
    }
}

proof fn lemma_latch_trans(a: &HashIndex, b: &HashIndex, c: &HashIndex)
    requires
        b.same_latches(a),
        c.same_latches(b),
        a.bucket_count() == b.bucket_count() == c.bucket_count(),
    ensures
        c.same_latches(a),
{
    assert forall|x: int| 0 <= x < c.bucket_count() implies #[trigger] c.latch(x) == a.latch(x) by {
        assert(b.latch(x) == a.latch(x));
    }
}

/// How far the boundaries are from freeing the page after the tail page.
pub open spec fn stage(v: LogView) -> int {
    let next = v.tail_page + 1;
    if v.ro < v.desired_ro(next) {
        2
    } else if !v.page_free(next) {
        1
    } else {
        0
    }
}

/// The boundaries were pushed as far as they can go for the page after the
/// tail page.
pub open spec fn made_way(o: LogView, n: LogView) -> bool {
    let next = o.tail_page + 1;
    &&& log::same_config(o, n)
    &&& n.tail_page == o.tail_page
    &&& n.ro >= o.desired_ro(next)
    &&& o.flushed >= o.desired_head(next) ==> n.head >= o.desired_head(next)
}

/// Waiting for space gets somewhere: once the boundaries have settled, each
/// attempt brings the next page closer to being free.
proof fn lemma_stage(o: LogView, n: LogView, m: LogView)
    requires
        o.inv(),
        n.inv(),
        m.inv(),
        !o.page_free(o.tail_page + 1),
        made_way(o, n),
        log::same_config(n, m),
        m.tail_page == n.tail_page,
        m.ro == n.ro,
        m.head == n.head,
        m.settled(),
    ensures
        stage(m) <= 1,
        o.settled() && o.device_good() && stage(o) <= 1 ==> stage(m) == 0,
{
    let next = o.tail_page + 1;
    if o.settled() && o.device_good() && stage(o) <= 1 {
        assert(n.head >= o.desired_head(next));
        assert(next >= o.bsize);
        crate::math::lemma_mul_add(next + 1 - o.bsize, 1, o.psize);
        assert(m.closed > (next - m.bsize + 1) * m.psize);
    }
}

/// Space at the tail drops nothing, and is above all that was there.
proof fn lemma_whole_grown<D: Device>(o: &Store<D>, n: &Store<D>, a: int, size: int)
    requires
        o.log@.inv(),
        n.index == o.index,
        n.recs == o.recs,
        n.floor == o.floor,
        log::allocated(o.log@, n.log@, a, size),
        size >= 0,
    ensures
        o.whole() ==> n.whole() && n.floor <= a,
{
    reveal(Store::whole);
    o.log@.lemma_tail();
    crate::math::lemma_mul_add(o.log@.tail_page, 1, o.log@.psize);
    crate::math::lemma_mul_add(o.log@.tail_page + 1, 1, o.log@.psize);
    assert forall|k: Seq<u8>| #[trigger] n.newest(k) == o.newest(k) by {}
}

/// Space for a new record, or why there is none.
enum Space {
    Ready(u64, RecordPtr),
    Wait,
    TooLarge,
}

impl<F: SessionFunctions> Session<F> {
    /// Allocate and initialise a record at the tail.
    fn allocate_record<D: Device>(
        &self,
        store: &mut Store<D>,
        size: &RecordSizeInfo,
        key: &[u8],
        prev: u64,
    ) -> (r: Space)
        requires
            old(store).inv(),
            size.key_len == key@.len(),
            prev <= record::ADDRESS_MASK,
        ensures
            r is TooLarge <==> !fits(old(store).log@.psize, *size),
            r is TooLarge ==> *final(store) == *old(store),
            r is Ready ==> log::alloc_ready(old(store).log@, size.total()),
            final(store).log@.epoch <= old(store).log@.epoch + 2,
            final(store).log@.tail_page <= old(store).log@.tail_page + 1,
            final(store).next_thread == old(store).next_thread,
            final(store).index == old(store).index,
            r is Wait ==> final(store).inv() && final(store).quiet(old(store))
                && !log::alloc_ready(old(store).log@, size.total()) && log::alloc_waits(
                old(store).log@,
                final(store).log@,
            ),
            r matches Space::Ready(a, rec) ==> {
                &&& final(store).base()
                &&& old(store).whole() ==> final(store).whole() && final(store).floor <= a
                &&& final(store).recs == old(store).recs
                &&& final(store).order == old(store).order
                &&& final(store).same_settings(old(store))
                &&& log::allocated(old(store).log@, final(store).log@, a as int, size.total())
                &&& spot(
                    final(store).log@,
                    final(store).recs@,
                    final(store).order@,
                    a as int,
                    rec@.size(),
                )
                &&& rec.wf()
                &&& callbacks::body(rec@) == callbacks::fresh(key@, *size)
                &&& record::info_of(rec@.word) == (record::InfoView {
                    prev,
                    tombstone: false,
                    valid: false,
                    in_new_version: self.state.new_version(),
                    modified: false,
                    sealed: true,
                })
                &&& rec@.size() == size.total()
            },
    {
        let ps: usize = store.log.page_size();
        if size.key_len > ps || size.value_cap > ps {
            return Space::TooLarge;
        }
        let total: usize = size.total_size();
        if total > ps - PAGE_HEADER_SIZE {
            return Space::TooLarge;
        }
        let ghost o = *store;
        match store.reserve(total) {
            Some(a) => {
                let rec = RecordPtr::init(prev, self.state.in_new_version(), size, key);
                proof {
                    record::lemma_word_bits(prev, 0);
                    assert(callbacks::body(rec@) =~= callbacks::fresh(key@, *size));
                    lemma_whole_grown(&o, store, a as int, total as int);
                }
                Space::Ready(a, rec)
            },
            None => Space::Wait,
        }
    }

    // ---------------------------------------------------------------------
    // Upsert
    // ---------------------------------------------------------------------

    /// Blind write of a key. Never reads the device.
    #[verifier::spinoff_prover]
    #[verifier::rlimit(60)]
    pub fn upsert<D: Device>(
        &mut self,
        store: &mut Store<D>,
        key: &[u8],
        input: &F::Input,
        out: &mut F::Output,
    ) -> (r: Status)
        requires
            old(store).inv(),
        ensures
            final(store).inv(),
            final(store).same_settings(old(store)),
            final(store).next_thread == old(store).next_thread,
            old(store).whole() ==> final(store).whole(),
            log::image_kept(old(store).log@, final(store).log@),
            final(store).index.same_shape(&old(store).index),
            final(store).index.same_latches(&old(store).index),
            final(self).told_by(old(self), r, key@, true),
            r is Error ==> final(store).quiet(old(store)) && final(store).newest_same(old(store)),
            forall|k: Seq<u8>| k != key@ ==> #[trigger] final(store).get(k) == old(store).get(k),
            !(r is Error) ==> final(store).get(key@) is Some,
            !(r is Error) && callbacks::steady::<F>() ==> ({
                let e = upsert_result::<F>(
                    old(store).get(key@),
                    old(store).mutable(key@),
                    key@,
                    *input,
                    F::out_view(*old(out)),
                );
                &&& (r, F::out_view(*final(out))) == (e.0, e.2)
                &&& final(store).changed(old(store), key@, Some(e.1))
            }),
            !(r is Error) ==> old(store).open_for(old(self).txn_mode, key@, true),
            r is Created ==> overwritten(old(store), final(store), key@, final(store).log@.ro),
            r is InPlaceUpdated ==> updated_in_place(old(store), final(store), key@),
            final(store).entered(old(store), key@),
            !(r is Error) && old(store).state().phase is Rest ==> final(store).mutable(key@),
            callbacks::steady::<F>() && old(store).calm(old(self).thread) && old(store).open_for(
                old(self).txn_mode,
                key@,
                true,
            ) && old(store).indexable(key@) && (upsert_fits::<F>(
                old(store).log@.psize,
                key@,
                *input,
            ) || upsert_result::<F>(
                old(store).get(key@),
                old(store).mutable(key@),
                key@,
                *input,
                F::out_view(*old(out)),
            ).0 is InPlaceUpdated) ==> !(r is Error),
            upsert_prompt::<F, D>(
                old(store),
                old(self).thread,
                old(self).txn_mode,
                key@,
                *input,
                F::out_view(*old(out)),
            ) ==> !(r is Error),
            calm_after(old(store), final(store), old(self).thread),
    {
        let hash: u64 = hash64(key);
        let ghost o = *store;
        let ghost k = key@;
        let ghost inp = *input;
        let ghost goal = upsert_result::<F>(o.get(k), o.mutable(k), k, inp, F::out_view(*out));
        let ghost tid = self.thread;
        let ghost easy = callbacks::steady::<F>() && o.calm(tid) && o.open_for(self.txn_mode, k, true)
            && o.indexable(k) && (upsert_fits::<F>(o.log@.psize, k, inp) || goal.0 is InPlaceUpdated);
        let ghost swift = upsert_prompt::<F, D>(&o, tid, self.txn_mode, k, inp, F::out_view(*out));
        proof {
            lemma_wait_refl(store.log@);
            store.lemma_quiet(&o);
        }
        if !store.log.has_row(self.thread) {
            return Status::Error;
        }
        let mut attempt: usize = 0;
        loop
            invariant
                    hash == hash::key_hash(key@),
                k == key@,
                inp == *input,
                o == *old(store),
                o.inv(),
                tid == self.thread,
                tid == old(self).thread,
                easy == (callbacks::steady::<F>() && o.calm(tid) && o.open_for(
                    old(self).txn_mode,
                    k,
                    true,
                ) && o.indexable(k) && (upsert_fits::<F>(o.log@.psize, k, inp) || goal.0 is InPlaceUpdated)),
                goal == upsert_result::<F>(o.get(k), o.mutable(k), k, inp, F::out_view(*old(out))),
                store.inv(),
                store.quiet(&o),
                store.index.same_latches(&o.index),
                store.entered(&o, k),
                store.next_thread == o.next_thread,
                self.same(old(self)),
                store.log.can_protect(self.thread),
                attempt <= MAX_RETRIES,
                swift == upsert_prompt::<F, D>(
                    &o,
                    tid,
                    old(self).txn_mode,
                    k,
                    inp,
                    F::out_view(*old(out)),
                ),
                swift ==> attempt == 0,
                attempt == 0 ==> *store == o,
                callbacks::steady::<F>() || attempt == 0 ==> goal == upsert_result::<F>(
                    store.get(k),
                    store.mutable(k),
                    k,
                    inp,
                    F::out_view(*out),
                ),
                epoch::alone(o.log@.slots, tid) ==> epoch::alone(store.log@.slots, tid),
                easy ==> attempt <= 2,
                store.log@.epoch <= o.log@.epoch + 4 * attempt,
                easy && attempt > 0 ==> store.log@.settled() && attempt + stage(store.log@) <= 2,
                easy ==> store.indexable(k),
            decreases MAX_RETRIES - attempt,
        {
            let ghost s0 = *store;
            self.enter(store);
            let ghost s1 = *store;
            proof {
                s0.lemma_quiet(&o);
                s1.lemma_quiet(&s0);
                Store::lemma_quiet_trans(&o, &s0, &s1);
                s1.lemma_quiet(&o);
            }
            let r = self.internal_upsert(store, key, hash, input, out);
            let ghost s2 = *store;
            self.leave(store);
            proof {
                store.lemma_quiet(&s2);
                lemma_latch_trans(&o.index, &s1.index, &s2.index);
                lemma_latch_trans(&o.index, &s2.index, &store.index);
                Store::lemma_entered(&o, &s1, &s2, k);
                s1.lemma_open_same(&o, self.txn_mode, k, true);
            }
            match r {
                Op::Done(s) => {
                    proof {
                        reveal(overwritten);
                        if s is Error {
                            Store::lemma_quiet_trans(&o, &s1, &s2);
                            Store::lemma_quiet_trans(&o, &s2, store);
                            store.lemma_quiet(&o);
                        }
                        lemma_calm_after(&o, &s2, store, tid);
                        log::lemma_image_trans(o.log@, s1.log@, s2.log@);
                        log::lemma_image_trans(o.log@, s2.log@, store.log@);
                    }
                    return s;
                },
                other => {
                    proof {
                        Store::lemma_quiet_trans(&o, &s1, &s2);
                        Store::lemma_quiet_trans(&o, &s2, store);
                        store.lemma_quiet(&o);
                    }
                    let ghost s3 = *store;
                    let again: bool = self.handle_retry(store, other, &mut attempt);
                    proof {
                        Store::lemma_quiet_trans(&o, &s3, store);
                        store.lemma_quiet(&o);
                        store.lemma_quiet(&s3);
                        s3.lemma_quiet(&s2);
                        o.index.lemma_buckets();
                        if easy {
                            s1.lemma_reliable();
                            lemma_stage(s1.log@, s2.log@, store.log@);
                            store.index.lemma_placeable(
                                store.index.bucket_of(hash),
                                hash >> 49,
                            );
                        }
                    }
                    if !again {
                        proof {
                            lemma_calm_after(&o, &s2, store, tid);
                        }
                        return Status::Error;
                    }
                },
            }
        }
    }

    fn internal_upsert<D: Device>(
        &mut self,
        store: &mut Store<D>,
        key: &[u8],
        hash: u64,
        input: &F::Input,
        out: &mut F::Output,
    ) -> (r: Op)
        requires
            old(store).inv(),
            hash == hash::key_hash(key@),
            old(self).state == old(store).state(),
        ensures
            final(store).inv(),
            final(store).same_settings(old(store)),
            final(store).next_thread == old(store).next_thread,
            old(store).whole() ==> final(store).whole(),
            log::image_kept(old(store).log@, final(store).log@),
            final(store).index.same_shape(&old(store).index),
            final(store).index.same_latches(&old(store).index),
            final(store).log@.slots == old(store).log@.slots,
            final(store).log@.dependable == old(store).log@.dependable,
            final(store).log@.psize == old(store).log@.psize,
            final(store).log@.epoch <= old(store).log@.epoch + 2,
            final(store).log@.tail_page <= old(store).log@.tail_page + 1,
            final(store).log@.ro >= old(store).log@.ro,
            final(store).entered(old(store), key@),
            final(self).told_op(old(self), r, key@, true),
            upsert_post::<F, D>(
                old(store),
                final(store),
                r,
                key@,
                *input,
                F::out_view(*old(out)),
                F::out_view(*final(out)),
                old(store).open_for(old(self).txn_mode, key@, true),
            ),
    {
        let ghost o = *store;
        proof {
            lemma_wait_refl(store.log@);
            store.lemma_quiet(&o);
            store.index.lemma_buckets();
        }
        if !store.index.can_create_tag(hash) {
            return Op::Done(Status::Error);
        }
        let slot = store.slot_for(hash);
        let ghost a = *store;
        proof {
            a.lemma_quiet(&o);
            a.index.lemma_slot(slot);
            a.index.lemma_placeable(slot.bucket as int, slot.tag);
        }
        if !store.lock(self.txn_mode, slot.bucket, true) {
            proof {
                Store::lemma_quiet_trans(&o, &a, store);
                lemma_latch_trans(&o.index, &a.index, &store.index);
                lemma_placeable_kept(&a, store, slot.bucket as int, slot.tag);
                Store::lemma_entered_slot(&o, &a, store, key@);
            }
            return Op::RetryLater;
        }
        let ghost l = *store;
        proof {
            Store::lemma_quiet_trans(&o, &a, &l);
        }
        let r = self.upsert_latched(store, &slot, key, input, out);
        let ghost m = *store;
        store.unlock(self.txn_mode, slot.bucket, true, Ghost(a.index));
        proof {
            lemma_latch_trans(&o.index, &a.index, &store.index);
            lemma_placeable_kept(&m, store, slot.bucket as int, slot.tag);
            l.lemma_quiet(&o);
            assert(store.get(key@) == m.get(key@) && store.newest(key@) == m.newest(key@));
            lemma_wait_refl(m.log@);
            assert(l.get(key@) == o.get(key@) && l.newest(key@) == o.newest(key@));
            assert(l.mutable(key@) == o.mutable(key@));
            assert(store.mutable(key@) == m.mutable(key@));
            assert(store.index.bucket_of(hash) == slot.bucket);
            assert(o.indexable(key@));
            lemma_placeable_kept(&a, &l, slot.bucket as int, slot.tag);
            assert(l.indexable(key@));
            assert(store.indexable(key@));
            assert(l.log@ == o.log@ && store.log@ == m.log@);
            assert(l.state() == o.state());
            Store::lemma_entered_slot(&o, &a, store, key@);
            reveal(overwritten);
            if r matches Op::Done(st) && !(st is Error) {
                let e = upsert_result::<F>(
                    o.get(key@),
                    o.mutable(key@),
                    key@,
                    *input,
                    F::out_view(*old(out)),
                );
                assert forall|x: Seq<u8>| x != key@ implies #[trigger] store.get(x) == o.get(x) by {
                    assert(store.get(x) == m.get(x));
                    assert(m.get(x) == l.get(x));
                    assert(l.get(x) == o.get(x));
                }
                assert(store.changed(&o, key@, Some(e.1)));
            }
            if !(r is Done) || r == Op::Done(Status::Error) {
                Store::lemma_quiet_trans(&o, &l, &m);
                Store::lemma_quiet_trans(&o, &m, store);
            }
        }
        r
    }
}

proof fn lemma_placeable_kept<D: Device>(a: &Store<D>, b: &Store<D>, bucket: int, tag: u64)
    requires
        b.index.same_entries(&a.index),
        0 <= bucket < b.index.bucket_count(),
        a.index.lookup(bucket, tag) is Some,
    ensures
        b.index.placeable(bucket, tag),
{
    assert(b.index.lookup(bucket, tag) == a.index.lookup(bucket, tag));
    b.index.lemma_placeable(bucket, tag);
}

/// An upsert is done at the first attempt: in place, or with a new record for
/// which there is space.
pub open spec fn upsert_prompt<F: SessionFunctions, D: Device>(
    o: &Store<D>,
    thread: u64,
    txn_mode: bool,
    key: Seq<u8>,
    input: F::Input,
    out: F::OutputView,
) -> bool {
    &&& o.prompt(thread, txn_mode, key, true, o.log@.ro as int)
    &&& o.indexable(key)
    &&& upsert_result::<F>(o.get(key), o.mutable(key), key, input, out).0 is InPlaceUpdated || (
    upsert_fits::<F>(o.log@.psize, key, input) && log::alloc_ready(
        o.log@,
        F::upsert_size_spec(key, input).total(),
    ))
}

/// What one attempt of an upsert comes to.
spec fn upsert_post<F: SessionFunctions, D: Device>(
    o: &Store<D>,
    n: &Store<D>,
    r: Op,
    key: Seq<u8>,
    input: F::Input,
    out0: F::OutputView,
    out1: F::OutputView,
    open: bool,
) -> bool {
    let e = upsert_result::<F>(o.get(key), o.mutable(key), key, input, out0);
    match r {
        Op::Done(s) => if s is Error {
            &&& n.quiet(o)
            &&& !(o.indexable(key) && (upsert_fits::<F>(o.log@.psize, key, input)
                || e.0 is InPlaceUpdated))
        } else {
            &&& (s, out1) == (e.0, e.2)
            &&& n.changed(o, key, Some(e.1))
            &&& n.newest(key) is Some && n.newest(key).unwrap() >= n.log@.ro
            &&& s is Created ==> overwritten(o, n, key, n.log@.head)
            &&& s is InPlaceUpdated ==> updated_in_place(o, n, key)
            &&& open
            &&& !o.ahead(key, o.log@.ro as int)
        },
        Op::RecordOnDisk { .. } => false,
        _ => {
            &&& n.quiet(o)
            &&& r is CprShift ==> o.ahead(key, o.log@.ro as int)
            &&& callbacks::steady::<F>() ==> upsert_result::<F>(
                n.get(key),
                n.mutable(key),
                key,
                input,
                out1,
            ) == e
            &&& o.indexable(key) ==> n.indexable(key)
            &&& open && !o.ahead(key, o.log@.ro as int) ==> {
                &&& r is RetryLater
                &&& !(e.0 is InPlaceUpdated)
                &&& !log::alloc_ready(o.log@, F::upsert_size_spec(key, input).total())
                &&& log::alloc_waits(o.log@, n.log@)
            }
        },
    }
}

impl<F: SessionFunctions> Session<F> {
    /// An upsert attempt once the latch is held.
    #[verifier::spinoff_prover]
    #[verifier::rlimit(40)]
    fn upsert_latched<D: Device>(
        &mut self,
        store: &mut Store<D>,
        slot: &SlotRef,
        key: &[u8],
        input: &F::Input,
        out: &mut F::Output,
    ) -> (r: Op)
        requires
            old(store).inv(),
            old(store).index.holds(*slot),
            slot.bucket == old(store).index.bucket_of(hash::key_hash(key@)),
            slot.tag == hash::key_hash(key@) >> 49,
            old(self).state == old(store).state(),
        ensures
            final(store).inv(),
            final(store).same_settings(old(store)),
            final(store).next_thread == old(store).next_thread,
            old(store).whole() ==> final(store).whole(),
            log::image_kept(old(store).log@, final(store).log@),
            final(store).index.same_shape(&old(store).index),
            final(store).index.same_latches(&old(store).index),
            final(store).index.lookup(slot.bucket as int, slot.tag) is Some,
            final(store).log@.slots == old(store).log@.slots,
            final(store).log@.dependable == old(store).log@.dependable,
            final(store).log@.psize == old(store).log@.psize,
            final(store).log@.epoch <= old(store).log@.epoch + 2,
            final(store).log@.tail_page <= old(store).log@.tail_page + 1,
            final(store).log@.ro >= old(store).log@.ro,
            final(store).index.same_room(&old(store).index),
            final(self).told_op(old(self), r, key@, true),
            upsert_post::<F, D>(
                old(store),
                final(store),
                r,
                key@,
                *input,
                F::out_view(*old(out)),
                F::out_view(*final(out)),
                true,
            ),
    {
        let ghost o = *store;
        let ghost k = key@;
        let ghost inp = *input;
        let ghost out0 = F::out_view(*out);
        let entry: HashEntry = slot.load(&store.index);
        let latest: u64 = entry.address();
        proof {
            lemma_wait_refl(store.log@);
            store.lemma_quiet(&o);
            store.index.lemma_buckets();
            store.index.lemma_placeable(slot.bucket as int, slot.tag);
            assert(chain::entry_ok(
                o.index,
                o.recs@,
                slot.bucket as int,
                slot.tag,
                o.index.lookup(slot.bucket as int, slot.tag),
            ));
            assert(chain::chain_head(o.index, k) == latest);
            chain::lemma_find(o.recs@, latest as int, k);
        }
        // Upsert is blind: it only looks in the mutable region.
        let ro: u64 = store.log.read_only_address();
        let mut old_to_seal: Option<u64> = None;
        match store.trace_back(latest, key, ro) {
            Trace::Found(addr) => {
                let mut rec: RecordPtr = store.record_at(addr);
                let info: RecordInfo = rec.load_info();
                proof {
                    assert(o.newest(k) == Some(addr as int));
                    assert(!record::sealed_of(info.0));
                    assert(chain::placed(o.log@, addr as int, o.recs@[addr as int]));
                    record::lemma_word_bits(info.0, 0);
                }
                match self.cpr_gate(store, addr, info) {
                    Some(op) => {
                        return op;
                    },
                    None => {},
                }
                if !info.is_tombstone() {
                    if !self.cpr_blocks_in_place(store, addr, info) && self.functions.in_place_writer(
                        key,
                        input,
                        &mut rec,
                        out,
                    ) {
                        let ghost r1 = rec@;
                        rec.info().set_modified();
                        store.rewrite(addr, &rec);
                        assert(live_body(rec@) == Some(callbacks::body(r1)));
                        return Op::Done(Status::InPlaceUpdated);
                    }
                    old_to_seal = Some(addr);
                }
            },
            Trace::Stopped(_) => {},
        }
        let ghost out1 = F::out_view(*out);
        proof {
            if let Some(b) = o.get(k) {
                if callbacks::steady::<F>() {
                    callbacks::lemma_steady::<F>(k, inp, b, out0);
                }
            }
        }
        // Missing keys and values that cannot be updated in place share this path.
        let r = self.upsert_append(store, slot, entry, key, input, out, old_to_seal);
        proof {
            store.index.lemma_placeable(slot.bucket as int, slot.tag);
            if r is RetryLater {
                assert(store.newest(k) == o.newest(k) && store.get(k) == o.get(k));
                assert(store.recs == o.recs);
                assert(!o.mutable(k) ==> !store.mutable(k));
                assert(F::out_view(*out) == out1);
            }
        }
        r
    }

    /// Write the key's value to a new record at the tail.
    fn upsert_append<D: Device>(
        &mut self,
        store: &mut Store<D>,
        slot: &SlotRef,
        entry: HashEntry,
        key: &[u8],
        input: &F::Input,
        out: &mut F::Output,
        old_to_seal: Option<u64>,
    ) -> (r: Op)
        requires
            slot_of(old(store), *slot, entry, key@),
            old(self).state == old(store).state(),
            old_to_seal matches Some(x) ==> old(store).recs@.dom().contains(x as int) && old(
                store).recs@[x as int].key == key@ && record::valid_of(
                old(store).recs@[x as int].word,
            ),
            old_to_seal matches Some(x) ==> old(store).newest(key@) == Some(x as int) && old(
                store).get(key@) is Some && x >= old(store).log@.ro,
            old_to_seal is None && old(store).get(key@) is Some ==> (old(store).newest(
                key@,
            ) matches Some(a) ==> a < old(store).log@.ro),
        ensures
            step_frame(old(store), final(store), *slot),
            final(self).told_op(old(self), r, key@, true),
            r == Op::Done(Status::Created) ==> overwritten(
                old(store),
                final(store),
                key@,
                final(store).log@.head,
            ),
            append_post::<D, F::OutputView>(
                old(store),
                final(store),
                r,
                key@,
                ({
                    let n = F::initial_writer_spec(
                        key@,
                        *input,
                        callbacks::fresh(key@, F::upsert_size_spec(key@, *input)),
                        F::out_view(*old(out)),
                    );
                    (Status::Created, Some(n.0), n.1)
                }),
                F::out_view(*final(out)),
                F::out_view(*old(out)),
                F::upsert_size_spec(key@, *input),
            ),
    {
        let ghost o = *store;
        proof {
            lemma_wait_refl(store.log@);
            store.lemma_quiet(&o);
            store.index.lemma_slot(*slot);
        }
        let size: RecordSizeInfo = self.functions.upsert_size(key, input);
        match self.allocate_record(store, &size, key, entry.address()) {
            Space::TooLarge => Op::Done(Status::Error),
            Space::Wait => {
                proof {
                    store.lemma_quiet(&o);
                }
                Op::RetryLater
            },
            Space::Ready(addr, mut rec) => {
                self.functions.initial_writer(key, input, &mut rec, out);
                let ghost s = *store;
                let ghost r1 = rec@;
                assert(forall|x: Seq<u8>| #[trigger] s.get(x) == o.get(x));
                assert(live_body(r1) == Some(callbacks::body(r1)));
                proof {
                    chain::lemma_find(o.recs@, chain::chain_head(o.index, key@), key@);
                }
                store.append(slot, entry, addr, &mut rec, old_to_seal);
                self.tell_written(key, input, &rec, out);
                assert(store.changed(&o, key@, Some(callbacks::body(r1))));
                proof {
                    reveal(overwritten);
                }
                Op::Done(Status::Created)
            },
        }
    }
}

// ---------------------------------------------------------------------------
// RMW (Modify)
// ---------------------------------------------------------------------------

/// The newest record of the key is valid and unsealed, stands in the mutable
/// region, belongs to the version being written, and has the old chain behind it.
pub open spec fn in_front<D: Device>(o: &Store<D>, n: &Store<D>, key: Seq<u8>) -> bool {
    n.newest(key) matches Some(b) && {
        &&& n.recs@.dom().contains(b)
        &&& b >= n.log@.ro
        &&& record::valid_of(n.recs@[b].word)
        &&& !record::sealed_of(n.recs@[b].word)
        &&& record::new_version_of(n.recs@[b].word) == o.state().new_version()
        &&& record::prev_of(n.recs@[b].word) == chain::chain_head(o.index, key)
    }
}

/// The newest record of the key, in the mutable region, has been rewritten where
/// it stands and marked as modified. No other record has changed.
pub open spec fn updated_in_place<D: Device>(o: &Store<D>, n: &Store<D>, key: Seq<u8>) -> bool {
    o.newest(key) matches Some(a) && {
        &&& n.newest(key) == Some(a)
        &&& a >= o.log@.ro
        &&& n.recs@ == o.recs@.insert(a, n.recs@[a])
        &&& n.order@ == o.order@
        &&& record::info_of(n.recs@[a].word) == (record::InfoView {
            modified: true,
            ..record::info_of(o.recs@[a].word)
        })
    }
}

/// A copy of a record has taken its place: it stands above it, in front of the
/// old chain. The old record keeps its value and, if it is still in memory, is
/// sealed. (To be revealed where its parts are needed.)
#[verifier::opaque]
pub open spec fn replaced<D: Device>(o: &Store<D>, n: &Store<D>, key: Seq<u8>) -> bool {
    o.newest(key) matches Some(a) ==> {
        &&& in_front(o, n, key)
        &&& a < n.newest(key).unwrap()
        &&& callbacks::body(n.recs@[a]) == callbacks::body(o.recs@[a])
        &&& record::tombstone_of(n.recs@[a].word) == record::tombstone_of(o.recs@[a].word)
        &&& a >= n.log@.head ==> record::sealed_of(n.recs@[a].word)
    }
}

/// A blind write has put a new record in front of the old one. It has looked at
/// the old record only if that was in the mutable region: there, a live one is
/// sealed if it is still above `edge`. Any other is left as it was. (To be
/// revealed where its parts are needed.)
#[verifier::opaque]
pub open spec fn overwritten<D: Device>(
    o: &Store<D>,
    n: &Store<D>,
    key: Seq<u8>,
    edge: int,
) -> bool {
    o.newest(key) matches Some(a) ==> {
        &&& in_front(o, n, key)
        &&& a < n.newest(key).unwrap()
        &&& callbacks::body(n.recs@[a]) == callbacks::body(o.recs@[a])
        &&& record::tombstone_of(n.recs@[a].word) == record::tombstone_of(o.recs@[a].word)
        &&& if o.get(key) is Some && a >= o.log@.ro {
            a >= edge ==> record::sealed_of(n.recs@[a].word)
        } else {
            n.recs@[a] == o.recs@[a]
        }
    }
}

/// The newest record of the key has been tombstoned where it stands.
pub open spec fn tombstoned<D: Device>(o: &Store<D>, n: &Store<D>, key: Seq<u8>) -> bool {
    &&& n.newest(key) == o.newest(key)
    &&& o.newest(key) matches Some(a) ==> n.recs@.dom().contains(a) && n.recs@[a].key == key
        && record::tombstone_of(n.recs@[a].word)
}

/// How a key is deleted: where its newest record stands if that may be updated
/// in place, and else by a tombstone in front of it.
pub open spec fn buried<D: Device>(o: &Store<D>, n: &Store<D>, key: Seq<u8>) -> bool {
    if o.mutable(key) {
        tombstoned(o, n, key)
    } else {
        replaced(o, n, key)
    }
}

/// As `buried`, where the read-only boundary may have moved up before the
/// delete took place.
pub open spec fn removed<D: Device>(o: &Store<D>, n: &Store<D>, key: Seq<u8>) -> bool {
    ||| o.mutable(key) && tombstoned(o, n, key)
    ||| replaced(o, n, key) && (o.newest(key) matches Some(a) ==> a < n.log@.ro || !o.mutable(key))
}

/// The newest record of the key is live and in the fuzzy region: a thread that
/// has not seen the read-only boundary yet may be updating it in place.
pub open spec fn fuzzy<D: Device>(o: &Store<D>, key: Seq<u8>) -> bool {
    o.get(key) is Some && (o.newest(key) matches Some(a) && o.log@.safe_ro <= a < o.log@.ro)
}

/// What an operation has found out about a key from `o` to `n` can be relied on:
/// its newest record was in memory all along, or the device serves what was
/// flushed.
pub open spec fn on_hand<D: Device>(o: &Store<D>, n: &Store<D>, key: Seq<u8>) -> bool {
    o.reliable() || (o.newest(key) matches Some(a) ==> a >= n.log@.head || n.log@.dependable
        >= n.log@.flushed)
}

proof fn lemma_on_hand<D: Device>(o: &Store<D>, m: &Store<D>, n: &Store<D>, key: Seq<u8>)
    requires
        m.inv(),
        m.newest(key) == o.newest(key),
        m.log@.psize == o.log@.psize,
        m.log@.tail_page == o.log@.tail_page,
        m.log@.dependable == o.log@.dependable,
        n.log@.dependable == m.log@.dependable,
        n.log@.head >= m.log@.head,
        n.log@.flushed >= m.log@.flushed,
        on_hand(o, n, key),
    ensures
        on_hand(o, m, key),
        m.known(key),
{
    if o.reliable() {
        m.lemma_reliable();
    }
}

proof fn lemma_replaced<D: Device>(
    o: &Store<D>,
    s: &Store<D>,
    n: &Store<D>,
    key: Seq<u8>,
    addr: int,
    old_addr: int,
)
    requires
        s.recs == o.recs,
        s.log@.head >= o.log@.head,
        n.log@.head == s.log@.head,
        in_front(o, n, key),
        n.newest(key) == Some(addr),
        if old_addr != 0 {
            &&& o.newest(key) == Some(old_addr)
            &&& old_addr < addr
            &&& callbacks::body(n.recs@[old_addr]) == callbacks::body(s.recs@[old_addr])
            &&& record::tombstone_of(n.recs@[old_addr].word) == record::tombstone_of(
                s.recs@[old_addr].word,
            )
            &&& old_addr >= n.log@.head ==> record::sealed_of(n.recs@[old_addr].word)
        } else {
            o.newest(key) matches Some(a) ==> a < o.log@.head && a < addr && n.recs@[a] == s.recs@[a]
        },
    ensures
        replaced(o, n, key),
{
    reveal(replaced);
}

/// Whether an attempt to update in place finds the record of the key expired,
/// and tombstones it.
pub open spec fn lapses<F: SessionFunctions, D: Device>(
    o: &Store<D>,
    key: Seq<u8>,
    input: F::Input,
    out: F::OutputView,
) -> bool {
    o.mutable(key) && o.get(key) is Some && F::in_place_updater_spec(
        key,
        input,
        o.get(key).unwrap(),
        out,
    ).0 is Expired
}

/// As `lapses`, of any of the attempts that an operation took.
pub open spec fn may_lapse<F: SessionFunctions, D: Device>(
    o: &Store<D>,
    key: Seq<u8>,
    input: F::Input,
    out: F::OutputView,
) -> bool {
    if callbacks::steady::<F>() {
        lapses::<F, D>(o, key, input, out)
    } else {
        exists|x: F::OutputView| #[trigger] lapses::<F, D>(o, key, input, x)
    }
}

/// A step that ends with a new record at the tail: it is done with the outcome
/// `e`, or the record does not fit, or it has to wait for space.
spec fn append_post<D: Device, V>(
    o: &Store<D>,
    n: &Store<D>,
    r: Op,
    key: Seq<u8>,
    e: (Status, Option<RecordView>, V),
    out1: V,
    prepared: V,
    size: RecordSizeInfo,
) -> bool {
    match r {
        Op::Done(s) => if s is Error {
            n.quiet(o) && n.newest_same(o) && !fits(o.log@.psize, size) && !(e.0 is NotFound) && !(
            e.0 is Canceled)
        } else if s is NotFound || s is Canceled {
            (s, out1) == (e.0, e.2) && n.newest_same(o)
        } else {
            (s, out1) == (e.0, e.2) && n.changed(o, key, e.1) && in_front(o, n, key)
        },
        Op::RetryLater => {
            &&& n.quiet(o)
            &&& n.newest_same(o)
            &&& !(e.0 is NotFound) && !(e.0 is Canceled)
            &&& !log::alloc_ready(o.log@, size.total())
            &&& log::alloc_waits(o.log@, n.log@)
            &&& out1 == prepared
        },
        _ => false,
    }
}

/// What every step under a latch leaves alone.
spec fn step_frame<D: Device>(o: &Store<D>, n: &Store<D>, slot: SlotRef) -> bool {
    &&& n.inv()
    &&& n.same_settings(o)
    &&& n.next_thread == o.next_thread
    &&& n.index.same_shape(&o.index)
    &&& n.index.same_latches(&o.index)
    &&& n.index.same_room(&o.index)
    &&& n.index.lookup(slot.bucket as int, slot.tag) is Some
    &&& o.whole() ==> n.whole()
    &&& log::image_kept(o.log@, n.log@)
    &&& n.log@.slots == o.log@.slots
    &&& n.log@.dependable == o.log@.dependable
    &&& n.log@.psize == o.log@.psize
    &&& n.log@.epoch <= o.log@.epoch + 2
    &&& n.log@.tail_page <= o.log@.tail_page + 1
    &&& n.log@.ro >= o.log@.ro
    &&& n.log@.head >= o.log@.head
    &&& n.log@.flushed >= o.log@.flushed
}

/// A latched slot with its entry, for a key.
spec fn slot_of<D: Device>(o: &Store<D>, slot: SlotRef, entry: HashEntry, key: Seq<u8>) -> bool {
    &&& o.inv()
    &&& o.index.holds(slot)
    &&& o.index.slot_word(slot) == entry.0
    &&& slot.bucket == o.index.bucket_of(hash::key_hash(key))
    &&& slot.tag == hash::key_hash(key) >> 49
}

impl<F: SessionFunctions> Session<F> {
    fn rmw_initial<D: Device>(
        &mut self,
        store: &mut Store<D>,
        slot: &SlotRef,
        entry: HashEntry,
        key: &[u8],
        input: &F::Input,
        out: &mut F::Output,
    ) -> (r: Op)
        requires
            slot_of(old(store), *slot, entry, key@),
            old(self).state == old(store).state(),
        ensures
            step_frame(old(store), final(store), *slot),
            final(self).told_op(old(self), r, key@, false),
            append_post::<D, F::OutputView>(
                old(store),
                final(store),
                r,
                key@,
                initial_result::<F>(key@, *input, F::out_view(*old(out))),
                F::out_view(*final(out)),
                F::need_initial_update_spec(key@, *input, F::out_view(*old(out))).1,
                F::initial_size_spec(key@, *input),
            ),
    {
        let ghost o = *store;
        proof {
            lemma_wait_refl(store.log@);
            store.lemma_quiet(&o);
            store.index.lemma_slot(*slot);
        }
        if !self.functions.need_initial_update(key, input, out) {
            return Op::Done(Status::NotFound);
        }
        let size: RecordSizeInfo = self.functions.initial_size(key, input);
        match self.allocate_record(store, &size, key, entry.address()) {
            Space::TooLarge => Op::Done(Status::Error),
            Space::Wait => {
                proof {
                    store.lemma_quiet(&o);
                }
                Op::RetryLater
            },
            Space::Ready(addr, mut rec) => {
                self.functions.initial_updater(key, input, &mut rec, out);
                let ghost s = *store;
                let ghost r1 = rec@;
                assert(forall|x: Seq<u8>| #[trigger] s.get(x) == o.get(x));
                assert(live_body(r1) == Some(callbacks::body(r1)));
                store.append(slot, entry, addr, &mut rec, None);
                self.tell_made(key, input, &rec, out);
                assert(store.changed(&o, key@, Some(callbacks::body(r1))));
                Op::Done(Status::Created)
            },
        }
    }

    /// Copy `old` to the tail with the update applied. `old_addr` is its
    /// address if it stands in memory, 0 if it was read from the device.
    #[verifier::spinoff_prover]
    #[verifier::rlimit(40)]
    fn rmw_copy<D: Device>(
        &mut self,
        store: &mut Store<D>,
        slot: &SlotRef,
        entry: HashEntry,
        key: &[u8],
        input: &F::Input,
        out: &mut F::Output,
        old_addr: u64,
        old_rec: &RecordPtr,
    ) -> (r: Op)
        requires
            slot_of(old(store), *slot, entry, key@),
            old(self).state == old(store).state(),
            old_rec.wf(),
            old(store).get(key@) == Some(callbacks::body(old_rec@)),
            old_addr != 0 ==> old(store).recs@.dom().contains(old_addr as int) && old(
                store).recs@[old_addr as int].key == key@ && record::valid_of(
                old(store).recs@[old_addr as int].word,
            ),
            old_addr != 0 ==> old(store).newest(key@) == Some(old_addr as int),
            old_addr == 0 ==> (old(store).newest(key@) matches Some(a) ==> a < old(store).log@.head),
        ensures
            step_frame(old(store), final(store), *slot),
            final(self).told_op(old(self), r, key@, false),
            r == Op::Done(Status::CopyUpdated) || r == Op::Done(Status::Deleted) ==> replaced(
                old(store),
                final(store),
                key@,
            ),
            append_post::<D, F::OutputView>(
                old(store),
                final(store),
                r,
                key@,
                copy_result::<F>(
                    callbacks::body(old_rec@),
                    key@,
                    *input,
                    F::out_view(*old(out)),
                ),
                F::out_view(*final(out)),
                F::need_copy_update_spec(
                    key@,
                    *input,
                    callbacks::body(old_rec@),
                    F::out_view(*old(out)),
                ).1,
                if F::need_copy_update_spec(
                    key@,
                    *input,
                    callbacks::body(old_rec@),
                    F::out_view(*old(out)),
                ).0 is Delete {
                    tombstone_size(key@)
                } else {
                    F::copy_size_spec(key@, *input, callbacks::body(old_rec@))
                },
            ),
    {
        let ghost o = *store;
        let ghost b = callbacks::body(old_rec@);
        proof {
            lemma_wait_refl(store.log@);
            store.lemma_quiet(&o);
            store.index.lemma_slot(*slot);
            if callbacks::steady::<F>() {
                callbacks::lemma_steady::<F>(key@, *input, b, F::out_view(*out));
            }
        }
        let old_to_seal: Option<u64> = if old_addr != 0 {
            Some(old_addr)
        } else {
            None
        };
        match self.functions.need_copy_update(key, input, old_rec, out) {
            callbacks::CopyDecision::Copy => {},
            callbacks::CopyDecision::Cancel => {
                return Op::Done(Status::Canceled);
            },
            callbacks::CopyDecision::Delete => {
                return self.delete_rcu(store, slot, entry, key, old_to_seal);
            },
        }
        let size: RecordSizeInfo = self.functions.copy_size(key, input, old_rec);
        match self.allocate_record(store, &size, key, entry.address()) {
            Space::TooLarge => Op::Done(Status::Error),
            Space::Wait => {
                proof {
                    store.lemma_quiet(&o);
                }
                Op::RetryLater
            },
            Space::Ready(addr, mut rec) => {
                self.functions.copy_updater(key, input, old_rec, &mut rec, out);
                let ghost s = *store;
                let ghost r1 = rec@;
                assert(forall|x: Seq<u8>| #[trigger] s.get(x) == o.get(x));
                assert(live_body(r1) == Some(callbacks::body(r1)));
                proof {
                    chain::lemma_find(o.recs@, chain::chain_head(o.index, key@), key@);
                }
                store.append(slot, entry, addr, &mut rec, old_to_seal);
                self.tell_copied(key, input, &rec, out);
                assert(store.changed(&o, key@, Some(callbacks::body(r1))));
                proof {
                    lemma_replaced(&o, &s, store, key@, addr as int, old_addr as int);
                }
                Op::Done(Status::CopyUpdated)
            },
        }
    }

    /// Append a tombstone record at the tail.
    fn delete_rcu<D: Device>(
        &mut self,
        store: &mut Store<D>,
        slot: &SlotRef,
        entry: HashEntry,
        key: &[u8],
        old_to_seal: Option<u64>,
    ) -> (r: Op)
        requires
            slot_of(old(store), *slot, entry, key@),
            old(self).state == old(store).state(),
            old_to_seal matches Some(x) ==> old(store).recs@.dom().contains(x as int) && old(
                store).recs@[x as int].key == key@ && record::valid_of(
                old(store).recs@[x as int].word,
            ) && x != 0 && old(store).newest(key@) == Some(x as int),
            old_to_seal is None ==> (old(store).newest(key@) matches Some(a) ==> a < old(
                store).log@.head),
        ensures
            step_frame(old(store), final(store), *slot),
            final(self).told_op(old(self), r, key@, false),
            r == Op::Done(Status::Deleted) ==> replaced(old(store), final(store), key@),
            append_post::<D, ()>(
                old(store),
                final(store),
                r,
                key@,
                (Status::Deleted, None, ()),
                (),
                (),
                tombstone_size(key@),
            ),
    {
        let ghost o = *store;
        proof {
            lemma_wait_refl(store.log@);
            store.lemma_quiet(&o);
            store.index.lemma_slot(*slot);
        }
        let size = RecordSizeInfo { key_len: key.len(), value_cap: 0, has_expiration: false };
        match self.allocate_record(store, &size, key, entry.address()) {
            Space::TooLarge => Op::Done(Status::Error),
            Space::Wait => {
                proof {
                    store.lemma_quiet(&o);
                }
                Op::RetryLater
            },
            Space::Ready(addr, mut rec) => {
                rec.info().set_tombstone();
                let ghost s = *store;
                assert(forall|x: Seq<u8>| #[trigger] s.get(x) == o.get(x));
                assert(live_body(rec@) == None::<RecordView>);
                proof {
                    chain::lemma_find(o.recs@, chain::chain_head(o.index, key@), key@);
                }
                store.append(slot, entry, addr, &mut rec, old_to_seal);
                self.tell_removed(key);
                assert(store.changed(&o, key@, None));
                proof {
                    let x: int = match old_to_seal {
                        Some(x) => x as int,
                        None => 0,
                    };
                    lemma_replaced(&o, &s, store, key@, addr as int, x);
                }
                Op::Done(Status::Deleted)
            },
        }
    }
}

/// A record image fetched from the device for a key: it is the key's newest
/// record, and that is not in memory.
spec fn fetched_ok<D: Device>(
    o: &Store<D>,
    key: Seq<u8>,
    fetched: Option<(Option<RecordPtr>, u64)>,
) -> bool {
    fetched matches Some(f) ==> {
        &&& o.newest(key) matches Some(a) ==> a < o.log@.head
        &&& f.1 <= record::ADDRESS_MASK
        &&& match f.0 {
            Some(p) => p.wf() && o.get(key) == live_body(p@),
            None => o.get(key) is None || o.log@.dependable < o.log@.flushed,
        }
    }
}

/// The index leads to the same chain of the key.
spec fn same_chain<D: Device>(o: &Store<D>, n: &Store<D>, key: Seq<u8>) -> bool {
    o.newest(key) is Some ==> chain::chain_head(n.index, key) == chain::chain_head(o.index, key)
}

/// An attempt that came to nothing may have moved boundaries, and may have
/// tombstoned an expired record of the key.
spec fn near<D: Device>(o: &Store<D>, n: &Store<D>, key: Seq<u8>, lapsed: bool) -> bool {
    &&& forall|k: Seq<u8>| #[trigger] n.newest(k) == o.newest(k)
    &&& forall|k: Seq<u8>| k != key ==> #[trigger] n.get(k) == o.get(k)
    &&& (n.get(key) == o.get(key) && n.recs == o.recs) || (lapsed && n.get(key) is None)
    &&& n.order@ == o.order@
    &&& log::image_kept(o.log@, n.log@)
    &&& log::same_config(o.log@, n.log@)
    &&& n.log@.tail_page == o.log@.tail_page
    &&& n.log@.ro >= o.log@.ro
    &&& n.log@.head >= o.log@.head
    &&& n.log@.flushed >= o.log@.flushed
    &&& n.log@.dependable == o.log@.dependable
}

/// Why an attempt has to wait: a boundary move has not taken effect yet, or
/// the next page is not free.
spec fn must_wait(o: LogView, n: LogView) -> bool {
    (n == o && !o.settled()) || ((o.tail_page + 2) * o.psize <= log::ADDRESS_LIMIT ==> !o.page_free(
        o.tail_page + 1,
    ) && made_way(o, n))
}

/// What one attempt of an RMW comes to.
spec fn rmw_post<F: SessionFunctions, D: Device>(
    o: &Store<D>,
    n: &Store<D>,
    r: Op,
    key: Seq<u8>,
    input: F::Input,
    out0: F::OutputView,
    out1: F::OutputView,
    open: bool,
    fetched: bool,
) -> bool {
    let e = rmw_result::<F>(o.get(key), o.mutable(key), key, input, out0);
    match r {
        Op::Done(s) => {
            &&& forall|k: Seq<u8>| k != key ==> #[trigger] n.get(k) == o.get(k)
            &&& if s is Error {
                &&& n.get(key) == o.get(key) || (lapses::<F, D>(o, key, input, out0) && n.get(key)
                    is None)
                &&& o.known(key) ==> !(o.indexable(key) && rmw_room::<F>(
                    o.log@.psize,
                    o.get(key),
                    key,
                    input,
                    e.0,
                ))
            } else {
                o.known(key) ==> (s, n.get(key), out1) == e
            }
            &&& s is Error || open
            &&& !open ==> n.get(key) == o.get(key)
            &&& !fuzzy(o, key)
            &&& !o.ahead(key, o.log@.head as int)
            &&& s is Created && o.newest(key) is Some ==> in_front(o, n, key)
            &&& s is InPlaceUpdated ==> o.get(key) is Some && updated_in_place(o, n, key)
            &&& s is CopyUpdated ==> o.get(key) is Some && replaced(o, n, key)
            &&& s is Deleted ==> o.get(key) is Some && (tombstoned(o, n, key) || replaced(o, n, key))
            &&& s.updated() && !(s is Deleted) ==> n.newest(key) is Some && n.newest(key).unwrap()
                >= n.log@.ro
        },
        Op::RecordOnDisk { addr, latest } => {
            &&& !fetched
            &&& out1 == out0
            &&& n.newest_same(o)
            &&& n.recs == o.recs
            &&& n.order@ == o.order@
            &&& n.log@ == o.log@
            &&& same_chain(o, n, key)
            &&& o.indexable(key) ==> n.indexable(key)
            &&& 64 <= addr < o.log@.head
            &&& latest <= record::ADDRESS_MASK
            &&& o.recs@.dom().contains(addr as int)
            &&& o.newest(key) == chain::find(o.recs@, addr as int, key)
            &&& o.newest(key) matches Some(a) ==> a < o.log@.head
        },
        _ => {
            &&& r is CprShift ==> o.ahead(key, o.log@.head as int)
            &&& !open ==> n.get(key) == o.get(key)
            &&& near(o, n, key, lapses::<F, D>(o, key, input, out0))
            &&& same_chain(o, n, key)
            &&& callbacks::steady::<F>() && n.get(key) == o.get(key) && lapses::<F, D>(
                n,
                key,
                input,
                out1,
            ) ==> lapses::<F, D>(o, key, input, out0)
            &&& fetched ==> n.get(key) == o.get(key)
            &&& o.known(key) && callbacks::steady::<F>() ==> rmw_result::<F>(
                n.get(key),
                n.mutable(key),
                key,
                input,
                out1,
            ) == e
            &&& o.indexable(key) ==> n.indexable(key)
            &&& open && !(o.state().phase is Prepare) ==> r is RetryLater && must_wait(o.log@, n.log@)
            &&& open && !o.ahead(key, o.log@.head as int) && !fuzzy(o, key) && o.known(key)
                ==> !rmw_ready::<F>(o.log@, o.get(key), key, input, e.0)
        },
    }
}

/// An RMW is done at the first attempt: nothing has to be waited for, and there is
/// space for the record it needs, if it needs one.
pub open spec fn rmw_prompt<F: SessionFunctions, D: Device>(
    o: &Store<D>,
    thread: u64,
    txn_mode: bool,
    key: Seq<u8>,
    input: F::Input,
    out: F::OutputView,
) -> bool {
    let s = rmw_result::<F>(o.get(key), o.mutable(key), key, input, out).0;
    &&& o.prompt(thread, txn_mode, key, true, o.log@.head as int)
    &&& o.indexable(key)
    &&& o.known(key)
    &&& !fuzzy(o, key)
    &&& rmw_room::<F>(o.log@.psize, o.get(key), key, input, s)
    &&& rmw_ready::<F>(o.log@, o.get(key), key, input, s)
}

/// The initial path, from a store `m` in which an expired record of the key may
/// just have been tombstoned.
proof fn lemma_initial_step<F: SessionFunctions, D: Device>(
    o: &Store<D>,
    m: &Store<D>,
    n: &Store<D>,
    r: Op,
    key: Seq<u8>,
    input: F::Input,
    out0: F::OutputView,
    mid: F::OutputView,
    out1: F::OutputView,
    fetched: bool,
)
    requires
        o.inv(),
        n.inv(),
        m.same_settings(o),
        n.same_settings(m),
        m.log@ == (LogView { pages: m.log@.pages, ..o.log@ }),
        m.index == o.index,
        m.order@ == o.order@,
        m.base(),
        n.indexable(key),
        forall|k: Seq<u8>| #[trigger] m.newest(k) == o.newest(k),
        forall|k: Seq<u8>| k != key ==> #[trigger] m.get(k) == o.get(k),
        ({
            ||| *m == *o && mid == out0 && (o.known(key) ==> o.get(key) is None) && (o.get(key) is Some
                ==> !o.mutable(key)) && !fuzzy(o, key) && !o.ahead(key, o.log@.head as int)
            ||| !o.ahead(key, o.log@.head as int) && !fetched && m.get(key) is None && o.get(key) is Some && o.mutable(key) && ({
                let u = F::in_place_updater_spec(key, input, o.get(key).unwrap(), out0);
                u.0 is Expired && u.2 == mid
            })
        }),
        append_post::<D, F::OutputView>(
            m,
            n,
            r,
            key,
            initial_result::<F>(key, input, mid),
            out1,
            F::need_initial_update_spec(key, input, mid).1,
            F::initial_size_spec(key, input),
        ),
    ensures
        rmw_post::<F, D>(o, n, r, key, input, out0, out1, true, fetched),
{
    if callbacks::steady::<F>() {
        callbacks::lemma_steady::<F>(key, input, o.get(key).unwrap(), mid);
    }
    assert forall|k: Seq<u8>| k != key implies #[trigger] n.get(k) == o.get(k) by {
        assert(n.get(k) == m.get(k));
        assert(m.get(k) == o.get(k));
    }
    if r is RetryLater {
        assert forall|k: Seq<u8>| #[trigger] n.newest(k) == o.newest(k) by {
            assert(n.newest(k) == m.newest(k));
            assert(m.newest(k) == o.newest(k));
        }
        n.lemma_quiet(m);
        assert(m.newest(key) == o.newest(key));
    }
}

/// The copying path.
proof fn lemma_copy_step<F: SessionFunctions, D: Device>(
    o: &Store<D>,
    n: &Store<D>,
    r: Op,
    key: Seq<u8>,
    input: F::Input,
    out0: F::OutputView,
    mid: F::OutputView,
    out1: F::OutputView,
    fetched: bool,
)
    requires
        o.inv(),
        n.inv(),
        n.same_settings(o),
        n.indexable(key),
        o.get(key) is Some,
        !fuzzy(o, key),
        !o.ahead(key, o.log@.head as int),
        r == Op::Done(Status::CopyUpdated) || r == Op::Done(Status::Deleted) ==> replaced(o, n, key),
        if o.mutable(key) {
            let u = F::in_place_updater_spec(key, input, o.get(key).unwrap(), out0);
            u.0 is NeedCopy && u.2 == mid
        } else {
            mid == out0
        },
        ({
            let b = o.get(key).unwrap();
            let d = F::need_copy_update_spec(key, input, b, mid);
            append_post::<D, F::OutputView>(
                o,
                n,
                r,
                key,
                copy_result::<F>(b, key, input, mid),
                out1,
                d.1,
                if d.0 is Delete {
                    tombstone_size(key)
                } else {
                    F::copy_size_spec(key, input, b)
                },
            )
        }),
    ensures
        rmw_post::<F, D>(o, n, r, key, input, out0, out1, true, fetched),
{
    let b = o.get(key).unwrap();
    if callbacks::steady::<F>() {
        callbacks::lemma_steady::<F>(key, input, b, out0);
        callbacks::lemma_steady::<F>(key, input, b, mid);
    }
    if r is RetryLater {
        assert(n.newest(key) == o.newest(key));
        assert(n.recs == o.recs);
        assert(!o.mutable(key) ==> !n.mutable(key));
        n.lemma_quiet(o);
    }
}

/// The in-place path, where it is done there.
proof fn lemma_in_place_step<F: SessionFunctions, D: Device>(
    o: &Store<D>,
    n: &Store<D>,
    s: Status,
    key: Seq<u8>,
    input: F::Input,
    out0: F::OutputView,
    out1: F::OutputView,
)
    requires
        o.get(key) is Some,
        o.mutable(key),
        !o.ahead(key, o.log@.head as int),
        n.log@.ro == o.log@.ro,
        n.newest(key) == o.newest(key),
        forall|k: Seq<u8>| k != key ==> #[trigger] n.get(k) == o.get(k),
        ({
            let u = F::in_place_updater_spec(key, input, o.get(key).unwrap(), out0);
            &&& out1 == u.2
            &&& match s {
                Status::InPlaceUpdated => u.0 is Updated && n.get(key) == Some(u.1)
                    && updated_in_place(o, n, key),
                Status::Found => u.0 is Cancel && n.get(key) == o.get(key),
                Status::Deleted => u.0 is Delete && n.get(key) is None && tombstoned(o, n, key),
                _ => false,
            }
        }),
    ensures
        rmw_post::<F, D>(o, n, Op::Done(s), key, input, out0, out1, true, false),
{
}

impl<F: SessionFunctions> Session<F> {
    /// Update a record in the mutable region in place, if the callback can.
    #[verifier::spinoff_prover]
    #[verifier::rlimit(40)]
    fn rmw_in_place<D: Device>(
        &mut self,
        store: &mut Store<D>,
        slot: &SlotRef,
        entry: HashEntry,
        key: &[u8],
        input: &F::Input,
        out: &mut F::Output,
        addr: u64,
        rec: &mut RecordPtr,
    ) -> (r: Option<Op>)
        requires
            slot_of(old(store), *slot, entry, key@),
            old(self).state == old(store).state(),
            old(store).newest(key@) == Some(addr as int),
            old(store).recs@.dom().contains(addr as int),
            old(store).recs@[addr as int].key == key@,
            addr >= old(store).log@.ro,
            old(store).mutable(key@),
            !old(store).ahead(key@, old(store).log@.head as int),
            old(rec).wf(),
            old(rec)@ == old(store).recs@[addr as int],
            !record::tombstone_of(old(rec)@.word),
            !record::sealed_of(old(rec)@.word),
            record::valid_of(old(rec)@.word),
        ensures
            final(self).told_op(
                old(self),
                if r is Some {
                    r.unwrap()
                } else {
                    Op::RetryNow
                },
                key@,
                false,
            ),
            step_frame(old(store), final(store), *slot),
            r is None ==> final(self).state == old(self).state,
            r matches Some(op) ==> rmw_post::<F, D>(
                old(store),
                final(store),
                op,
                key@,
                *input,
                F::out_view(*old(out)),
                F::out_view(*final(out)),
                true,
                false,
            ),
            r is None ==> *final(store) == *old(store) && final(rec)@ == old(rec)@ && final(rec).wf()
                && ({
                let u = F::in_place_updater_spec(
                    key@,
                    *input,
                    callbacks::body(old(rec)@),
                    F::out_view(*old(out)),
                );
                u.0 is NeedCopy && u.2 == F::out_view(*final(out))
            }),
    {
        let ghost o = *store;
        let ghost k = key@;
        let ghost out0 = F::out_view(*out);
        let ghost r0 = rec@;
        proof {
            record::lemma_word_bits(r0.word, 0);
            store.index.lemma_slot(*slot);
            store.log@.lemma_tail();
        }
        match self.functions.in_place_updater(key, input, rec, out) {
            callbacks::InPlaceResult::Updated => {
                let ghost r1 = rec@;
                rec.info().set_modified();
                store.rewrite(addr, rec);
                assert(live_body(rec@) == Some(callbacks::body(r1)));
                assert(store.recs@[addr as int] == rec@);
                proof {
                    lemma_in_place_step::<F, D>(
                        &o,
                        store,
                        Status::InPlaceUpdated,
                        k,
                        *input,
                        out0,
                        F::out_view(*out),
                    );
                }
                Some(Op::Done(Status::InPlaceUpdated))
            },
            callbacks::InPlaceResult::Cancel => {
                proof {
                    lemma_in_place_step::<F, D>(
                        &o,
                        store,
                        Status::Found,
                        k,
                        *input,
                        out0,
                        F::out_view(*out),
                    );
                }
                Some(Op::Done(Status::Found))
            },
            callbacks::InPlaceResult::Expired => {
                rec.info().set_tombstone();
                store.rewrite(addr, rec);
                let ghost m = *store;
                let ghost mid = F::out_view(*out);
                assert(store.get(k) is None);
                let r = self.rmw_initial(store, slot, entry, key, input, out);
                proof {
                    store.index.lemma_placeable(slot.bucket as int, slot.tag);
                    lemma_initial_step::<F, D>(
                        &o,
                        &m,
                        store,
                        r,
                        k,
                        *input,
                        out0,
                        mid,
                        F::out_view(*out),
                        false,
                    );
                    lemma_latch_trans(&o.index, &m.index, &store.index);
                }
                Some(r)
            },
            callbacks::InPlaceResult::Delete => {
                rec.info().set_tombstone();
                store.rewrite(addr, rec);
                self.tell_removed(key);
                proof {
                    lemma_in_place_step::<F, D>(
                        &o,
                        store,
                        Status::Deleted,
                        k,
                        *input,
                        out0,
                        F::out_view(*out),
                    );
                }
                Some(Op::Done(Status::Deleted))
            },
            callbacks::InPlaceResult::NeedCopy => None,
        }
    }
}

impl<F: SessionFunctions> Session<F> {
    /// An RMW attempt once the latch is held.
    #[verifier::spinoff_prover]
    #[verifier::rlimit(40)]
    fn rmw_latched<D: Device>(
        &mut self,
        store: &mut Store<D>,
        slot: &SlotRef,
        key: &[u8],
        input: &F::Input,
        out: &mut F::Output,
        disk_src: &Option<(Option<RecordPtr>, u64)>,
    ) -> (r: Op)
        requires
            old(store).inv(),
            old(store).index.holds(*slot),
            slot.bucket == old(store).index.bucket_of(hash::key_hash(key@)),
            slot.tag == hash::key_hash(key@) >> 49,
            old(self).state == old(store).state(),
            fetched_ok(old(store), key@, *disk_src),
        ensures
            step_frame(old(store), final(store), *slot),
            final(self).told_op(old(self), r, key@, false),
            rmw_post::<F, D>(
                old(store),
                final(store),
                r,
                key@,
                *input,
                F::out_view(*old(out)),
                F::out_view(*final(out)),
                true,
                *disk_src is Some,
            ),
    {
        let ghost o = *store;
        let ghost k = key@;
        let ghost inp = *input;
        let ghost out0 = F::out_view(*out);
        let ghost f = *disk_src is Some;
        let entry: HashEntry = slot.load(&store.index);
        let latest: u64 = entry.address();
        let head: u64 = store.log.head_address();
        let ro: u64 = store.log.read_only_address();
        let safe_ro: u64 = store.log.safe_read_only_address();
        proof {
            store.index.lemma_buckets();
            store.index.lemma_slot(*slot);
            store.index.lemma_placeable(slot.bucket as int, slot.tag);
            assert(chain::entry_ok(
                o.index,
                o.recs@,
                slot.bucket as int,
                slot.tag,
                o.index.lookup(slot.bucket as int, slot.tag),
            ));
            assert(chain::chain_head(o.index, k) == latest);
            chain::lemma_find(o.recs@, latest as int, k);
        }
        match store.trace_back(latest, key, head) {
            Trace::Found(addr) => {
                let mut rec: RecordPtr = store.record_at(addr);
                let info: RecordInfo = rec.load_info();
                proof {
                    assert(o.newest(k) == Some(addr as int));
                    assert(!record::sealed_of(info.0));
                    assert(chain::placed(o.log@, addr as int, o.recs@[addr as int]));
                    assert(!f);
                }
                match self.cpr_gate(store, addr, info) {
                    Some(op) => {
                        return op;
                    },
                    None => {},
                }
                if info.is_tombstone() {
                    let r = self.rmw_initial(store, slot, entry, key, input, out);
                    proof {
                        store.index.lemma_placeable(slot.bucket as int, slot.tag);
                        lemma_initial_step::<F, D>(
                            &o,
                            &o,
                            store,
                            r,
                            k,
                            inp,
                            out0,
                            out0,
                            F::out_view(*out),
                            f,
                        );
                    }
                    return r;
                }
                if addr >= ro {
                    if !self.cpr_blocks_in_place(store, addr, info) {
                        match self.rmw_in_place(store, slot, entry, key, input, out, addr, &mut rec) {
                            Some(op) => {
                                return op;
                            },
                            None => {},
                        }
                    }
                } else if addr >= safe_ro {
                    // Fuzzy region: someone may still be updating it in place.
                    return Op::RetryLater;
                }
                let ghost mid = F::out_view(*out);
                let r = self.rmw_copy(store, slot, entry, key, input, out, addr, &rec);
                proof {
                    store.index.lemma_placeable(slot.bucket as int, slot.tag);
                    lemma_copy_step::<F, D>(&o, store, r, k, inp, out0, mid, F::out_view(*out), f);
                }
                r
            },
            Trace::Stopped(addr) => {
                if addr >= store.log.begin_address() && addr >= FIRST_VALID_ADDRESS {
                    // Chain continues on disk.
                    match disk_src {
                        Some((src, seen_latest)) => {
                            let floor: u64 = if *seen_latest + 1 > head {
                                *seen_latest + 1
                            } else {
                                head
                            };
                            if *seen_latest != latest && !store.trace_back(latest, key, floor).is_stopped() {
                                // A newer record appeared in memory: restart.
                                assert(false);
                                return Op::RetryNow;
                            }
                            // No newer in-memory record for this key appeared since the IO.
                            match src {
                                Some(old_rec) if !old_rec.load_info().is_tombstone() => {
                                    let r = self.rmw_copy(store, slot, entry, key, input, out, 0, old_rec);
                                    proof {
                                        store.index.lemma_placeable(slot.bucket as int, slot.tag);
                                        o.log@.lemma_tail();
                                        assert(!o.mutable(k));
                                        lemma_copy_step::<F, D>(
                                            &o,
                                            store,
                                            r,
                                            k,
                                            inp,
                                            out0,
                                            out0,
                                            F::out_view(*out),
                                            f,
                                        );
                                    }
                                    r
                                },
                                _ => {
                                    let r = self.rmw_initial(store, slot, entry, key, input, out);
                                    proof {
                                        store.index.lemma_placeable(slot.bucket as int, slot.tag);
                                        lemma_initial_step::<F, D>(
                                            &o,
                                            &o,
                                            store,
                                            r,
                                            k,
                                            inp,
                                            out0,
                                            out0,
                                            F::out_view(*out),
                                            f,
                                        );
                                    }
                                    r
                                },
                            }
                        },
                        None => Op::RecordOnDisk { addr, latest },
                    }
                } else {
                    let r = self.rmw_initial(store, slot, entry, key, input, out);
                    proof {
                        store.index.lemma_placeable(slot.bucket as int, slot.tag);
                        lemma_initial_step::<F, D>(
                            &o,
                            &o,
                            store,
                            r,
                            k,
                            inp,
                            out0,
                            out0,
                            F::out_view(*out),
                            f,
                        );
                    }
                    r
                }
            },
        }
    }
}

/// What an attempt leaves alone once the latch is given back.
spec fn attempt_frame<D: Device>(o: &Store<D>, n: &Store<D>) -> bool {
    &&& n.inv()
    &&& n.same_settings(o)
    &&& n.next_thread == o.next_thread
    &&& n.index.same_shape(&o.index)
    &&& n.index.same_latches(&o.index)
    &&& o.whole() ==> n.whole()
    &&& log::image_kept(o.log@, n.log@)
    &&& n.log@.slots == o.log@.slots
    &&& n.log@.dependable == o.log@.dependable
    &&& n.log@.psize == o.log@.psize
    &&& n.log@.epoch <= o.log@.epoch + 2
    &&& n.log@.tail_page <= o.log@.tail_page + 1
    &&& n.log@.ro >= o.log@.ro
    &&& n.log@.head >= o.log@.head
    &&& n.log@.flushed >= o.log@.flushed
}

/// Taking and giving back the latch adds nothing to what an RMW attempt comes to.
proof fn lemma_rmw_around<F: SessionFunctions, D: Device>(
    o: &Store<D>,
    l: &Store<D>,
    m: &Store<D>,
    n: &Store<D>,
    r: Op,
    key: Seq<u8>,
    input: F::Input,
    out0: F::OutputView,
    out1: F::OutputView,
    open: bool,
    fetched: bool,
)
    requires
        rmw_post::<F, D>(l, m, r, key, input, out0, out1, true, fetched),
        l.newest_same(o),
        n.newest_same(m),
        l.recs == o.recs,
        n.recs == m.recs,
        l.order@ == o.order@,
        n.order@ == m.order@,
        l.log@ == o.log@,
        n.log@ == m.log@,
        same_chain(o, l, key),
        same_chain(m, n, key),
        l.same_settings(o),
        m.same_settings(l),
        n.same_settings(m),
        l.indexable(key),
        o.indexable(key),
        n.indexable(key),
        open,
    ensures
        rmw_post::<F, D>(o, n, r, key, input, out0, out1, open, fetched),
{
    reveal(replaced);
    assert(l.get(key) == o.get(key) && l.newest(key) == o.newest(key));
    assert(n.get(key) == m.get(key) && n.newest(key) == m.newest(key));
    assert(l.mutable(key) == o.mutable(key));
    assert(n.mutable(key) == m.mutable(key));
    assert(l.known(key) == o.known(key) && fuzzy(l, key) == fuzzy(o, key));
    assert(l.ahead(key, l.log@.head as int) == o.ahead(key, o.log@.head as int));
    assert forall|k: Seq<u8>| k != key && m.get(k) == l.get(k) implies #[trigger] n.get(k) == o.get(k) by {
        assert(n.get(k) == m.get(k));
        assert(l.get(k) == o.get(k));
    }
    if r is Done {
        assert forall|k: Seq<u8>| k != key implies #[trigger] n.get(k) == o.get(k) by {
            assert(m.get(k) == l.get(k));
        }
    } else if r is RecordOnDisk {
        assert forall|k: Seq<u8>| #[trigger] n.newest(k) == o.newest(k) by {
            assert(n.newest(k) == m.newest(k));
            assert(m.newest(k) == l.newest(k));
            assert(l.newest(k) == o.newest(k));
        }
        assert forall|k: Seq<u8>| #[trigger] n.get(k) == o.get(k) by {
            assert(n.get(k) == m.get(k));
            assert(m.get(k) == l.get(k));
            assert(l.get(k) == o.get(k));
        }
    } else {
        assert forall|k: Seq<u8>| #[trigger] n.newest(k) == o.newest(k) by {
            assert(n.newest(k) == m.newest(k));
            assert(m.newest(k) == l.newest(k));
            assert(l.newest(k) == o.newest(k));
        }
        assert forall|k: Seq<u8>| k != key implies #[trigger] n.get(k) == o.get(k) by {
            assert(m.get(k) == l.get(k));
        }
    }
}

impl<F: SessionFunctions> Session<F> {
    /// One attempt of an RMW. `disk_src` is the record image fetched from disk,
    /// or None if it is confirmed absent, with the chain head observed before
    /// the IO.
    fn internal_rmw<D: Device>(
        &mut self,
        store: &mut Store<D>,
        key: &[u8],
        hash: u64,
        input: &F::Input,
        out: &mut F::Output,
        disk_src: &Option<(Option<RecordPtr>, u64)>,
    ) -> (r: Op)
        requires
            old(store).inv(),
            hash == hash::key_hash(key@),
            old(self).state == old(store).state(),
            fetched_ok(old(store), key@, *disk_src),
        ensures
            attempt_frame(old(store), final(store)),
            final(store).entered(old(store), key@),
            final(self).told_op(old(self), r, key@, false),
            rmw_post::<F, D>(
                old(store),
                final(store),
                r,
                key@,
                *input,
                F::out_view(*old(out)),
                F::out_view(*final(out)),
                old(store).open_for(old(self).txn_mode, key@, true),
                *disk_src is Some,
            ),
    {
        let ghost o = *store;
        let ghost out0 = F::out_view(*out);
        proof {
            lemma_wait_refl(store.log@);
            store.lemma_quiet(&o);
            store.index.lemma_buckets();
        }
        if !store.index.can_create_tag(hash) {
            return Op::Done(Status::Error);
        }
        let slot = store.slot_for(hash);
        let ghost a = *store;
        proof {
            a.lemma_quiet(&o);
            a.index.lemma_slot(slot);
            a.index.lemma_placeable(slot.bucket as int, slot.tag);
            assert(a.index.bucket_of(hash) == o.index.bucket_of(hash));
            assert(o.indexable(key@));
        }
        if !store.lock(self.txn_mode, slot.bucket, true) {
            proof {
                Store::lemma_quiet_trans(&o, &a, store);
                store.lemma_quiet(&o);
                lemma_latch_trans(&o.index, &a.index, &store.index);
                lemma_placeable_kept(&a, store, slot.bucket as int, slot.tag);
                assert(store.get(key@) == o.get(key@) && store.newest(key@) == o.newest(key@));
                assert(store.mutable(key@) == o.mutable(key@));
                assert(a.index.latch(slot.bucket as int) == o.index.latch(slot.bucket as int));
                Store::lemma_entered_slot(&o, &a, store, key@);
            }
            return Op::RetryLater;
        }
        let ghost l = *store;
        proof {
            Store::lemma_quiet_trans(&o, &a, &l);
            l.lemma_quiet(&o);
            lemma_placeable_kept(&a, &l, slot.bucket as int, slot.tag);
            assert(l.get(key@) == o.get(key@) && l.newest(key@) == o.newest(key@));
        }
        let r = self.rmw_latched(store, &slot, key, input, out, disk_src);
        let ghost m = *store;
        store.unlock(self.txn_mode, slot.bucket, true, Ghost(a.index));
        proof {
            lemma_latch_trans(&o.index, &a.index, &store.index);
            lemma_placeable_kept(&m, store, slot.bucket as int, slot.tag);
            assert(store.index.bucket_of(hash) == slot.bucket);
            assert(l.index.bucket_of(hash) == slot.bucket);
            Store::lemma_entered_slot(&o, &a, store, key@);
            lemma_rmw_around::<F, D>(
                &o,
                &l,
                &m,
                store,
                r,
                key@,
                *input,
                out0,
                F::out_view(*out),
                o.open_for(old(self).txn_mode, key@, true),
                *disk_src is Some,
            );
        }
        r
    }

    /// Read-modify-write of a key, atomically under its bucket latch.
    #[verifier::spinoff_prover]
    #[verifier::rlimit(40)]
    pub fn rmw<D: Device>(
        &mut self,
        store: &mut Store<D>,
        key: &[u8],
        input: &F::Input,
        out: &mut F::Output,
    ) -> (r: Status)
        requires
            old(store).inv(),
        ensures
            final(store).inv(),
            final(store).same_settings(old(store)),
            final(store).next_thread == old(store).next_thread,
            old(store).whole() ==> final(store).whole(),
            log::image_kept(old(store).log@, final(store).log@),
            final(store).index.same_shape(&old(store).index),
            final(store).index.same_latches(&old(store).index),
            final(self).told_by(old(self), r, key@, false),
            forall|k: Seq<u8>| k != key@ ==> #[trigger] final(store).get(k) == old(store).get(k),
            r is Error ==> final(store).get(key@) == old(store).get(key@) || (may_lapse::<F, D>(
                old(store),
                key@,
                *input,
                F::out_view(*old(out)),
            ) && final(store).get(key@) is None),
            final(store).entered(old(store), key@),
            !old(store).open_for(old(self).txn_mode, key@, true) ==> r is Error && final(store).get(key@)
                == old(store).get(key@),
            r is Created && old(store).newest(key@) is Some ==> in_front(
                old(store),
                final(store),
                key@,
            ),
            r is InPlaceUpdated ==> updated_in_place(old(store), final(store), key@),
            r is CopyUpdated ==> replaced(old(store), final(store), key@),
            r is Deleted ==> tombstoned(old(store), final(store), key@) || replaced(
                old(store),
                final(store),
                key@,
            ),
            r.updated() && !(r is Deleted) && old(store).state().phase is Rest ==> final(
                store).mutable(key@),
            callbacks::steady::<F>() && !(r is Error) && on_hand(old(store), final(store), key@) ==> (
                r,
                final(store).get(key@),
                F::out_view(*final(out)),
            ) == rmw_result::<F>(
                old(store).get(key@),
                old(store).mutable(key@),
                key@,
                *input,
                F::out_view(*old(out)),
            ),
            callbacks::steady::<F>() && old(store).calm(old(self).thread) && old(store).open_for(
                old(self).txn_mode,
                key@,
                true,
            ) && old(store).indexable(key@) && rmw_room::<F>(
                old(store).log@.psize,
                old(store).get(key@),
                key@,
                *input,
                rmw_result::<F>(
                    old(store).get(key@),
                    old(store).mutable(key@),
                    key@,
                    *input,
                    F::out_view(*old(out)),
                ).0,
            ) ==> !(r is Error),
            rmw_prompt::<F, D>(
                old(store),
                old(self).thread,
                old(self).txn_mode,
                key@,
                *input,
                F::out_view(*old(out)),
            ) ==> !(r is Error),
            calm_after(old(store), final(store), old(self).thread),
    {
        let hash: u64 = hash64(key);
        let ghost o = *store;
        let ghost k = key@;
        let ghost inp = *input;
        let ghost goal = rmw_result::<F>(o.get(k), o.mutable(k), k, inp, F::out_view(*out));
        let ghost lapsed = may_lapse::<F, D>(&o, k, inp, F::out_view(*out));
        let ghost tid = self.thread;
        let ghost easy = callbacks::steady::<F>() && o.calm(tid) && o.open_for(self.txn_mode, k, true)
            && o.indexable(k) && rmw_room::<F>(o.log@.psize, o.get(k), k, inp, goal.0);
        let ghost swift = rmw_prompt::<F, D>(&o, tid, self.txn_mode, k, inp, F::out_view(*out));
        if !store.log.has_row(self.thread) {
            return Status::Error;
        }
        let mut attempt: usize = 0;
        // Source record fetched from disk for the copy-update path.
        let mut disk_src: Option<(Option<RecordPtr>, u64)> = None;
        loop
            invariant
                    hash == hash::key_hash(key@),
                k == key@,
                inp == *input,
                o == *old(store),
                o.inv(),
                tid == self.thread,
                tid == old(self).thread,
                easy == (callbacks::steady::<F>() && o.calm(tid) && o.open_for(
                    old(self).txn_mode,
                    k,
                    true,
                ) && o.indexable(k) && rmw_room::<F>(o.log@.psize, o.get(k), k, inp, goal.0)),
                goal == rmw_result::<F>(o.get(k), o.mutable(k), k, inp, F::out_view(*old(out))),
                store.inv(),
                store.same_settings(&o),
                near(&o, store, k, lapsed),
                same_chain(&o, store, k),
                store.get(k) == o.get(k) && lapses::<F, D>(store, k, inp, F::out_view(*out))
                    ==> lapsed,
                lapsed == may_lapse::<F, D>(&o, k, inp, F::out_view(*old(out))),
                store.index.same_shape(&o.index),
                store.index.same_latches(&o.index),
                store.next_thread == o.next_thread,
                o.whole() ==> store.whole(),
                self.same(old(self)),
                store.log.can_protect(self.thread),
                attempt <= MAX_RETRIES,
                fetched_ok(store, k, disk_src),
                store.entered(&o, k),
                !o.open_for(old(self).txn_mode, k, true) ==> store.get(k) == o.get(k),
                swift == rmw_prompt::<F, D>(
                    &o,
                    tid,
                    old(self).txn_mode,
                    k,
                    inp,
                    F::out_view(*old(out)),
                ),
                swift ==> attempt == 0,
                attempt == 0 ==> store.recs == o.recs && store.log@ == (LogView {
                    slots: store.log@.slots,
                    ..o.log@
                }) && F::out_view(*out) == F::out_view(*old(out)),
                o.indexable(k) ==> store.indexable(k),
                callbacks::steady::<F>() && on_hand(&o, store, k) ==> goal == rmw_result::<F>(
                    store.get(k),
                    store.mutable(k),
                    k,
                    inp,
                    F::out_view(*out),
                ),
                epoch::alone(o.log@.slots, tid) ==> epoch::alone(store.log@.slots, tid),
                easy ==> attempt <= 3,
                store.log@.epoch <= o.log@.epoch + 4 * attempt,
                easy && attempt > 0 ==> store.log@.settled() && attempt + stage(store.log@) <= 3,
            decreases MAX_RETRIES - attempt, (if disk_src is None {
                1int
            } else {
                0
            }),
        {
            let ghost s0 = *store;
            self.enter(store);
            let ghost s1 = *store;
            proof {
                s1.lemma_quiet(&s0);
                lemma_near_trans(&o, &s0, &s1, k, lapsed);
                assert(s1.get(k) == s0.get(k) && s1.newest(k) == s0.newest(k));
                assert(s1.mutable(k) == s0.mutable(k));
            }
            let r = self.internal_rmw(store, key, hash, input, out, &disk_src);
            let ghost s2 = *store;
            self.leave(store);
            proof {
                store.lemma_quiet(&s2);
                assert(store.get(k) == s2.get(k) && store.newest(k) == s2.newest(k));
                assert(store.mutable(k) == s2.mutable(k));
                lemma_latch_trans(&o.index, &s1.index, &s2.index);
                lemma_latch_trans(&o.index, &s2.index, &store.index);
                o.index.lemma_buckets();
                Store::lemma_entered(&o, &s1, &s2, k);
                s1.lemma_open_same(&o, self.txn_mode, k, true);
                if on_hand(&o, &s2, k) {
                    lemma_on_hand(&o, &s1, &s2, k);
                }
            }
            match r {
                Op::Done(s) => {
                    proof {
                        reveal(replaced);
                        assert forall|x: Seq<u8>| x != k implies #[trigger] store.get(x) == o.get(x) by {
                            assert(store.get(x) == s2.get(x));
                            assert(s2.get(x) == s1.get(x));
                            assert(s1.get(x) == o.get(x));
                        }
                        lemma_calm_after(&o, &s2, store, tid);
                        log::lemma_image_trans(o.log@, s1.log@, s2.log@);
                        log::lemma_image_trans(o.log@, s2.log@, store.log@);
                    }
                    return s;
                },
                Op::RecordOnDisk { addr, latest } => {
                    // Pending IO (synchronous here): fetch the old value, then
                    // re-enter and copy-update. `latest` lets the re-entry
                    // detect an in-memory insert of the same key.
                    let found: Option<RecordPtr> = store.find_on_disk(addr, key);
                    proof {
                        assert(near(&s1, &s2, k, lapsed)) by {
                            assert(s2.get(k) == s1.get(k));
                        }
                        lemma_near_trans(&o, &s1, &s2, k, lapsed);
                        lemma_near_trans(&o, &s2, store, k, lapsed);
                        if found is Some {
                            let p = found.unwrap();
                            let w = store.recs@[store.newest(k).unwrap()].word;
                            record::lemma_word_bits(w, 0);
                            assert(live_body(p@) == store.get(k)) by {
                                assert(callbacks::body(p@) =~= callbacks::body(
                                    store.recs@[store.newest(k).unwrap()],
                                ));
                            }
                        }
                        assert(s2.get(k) == s1.get(k) && s2.newest(k) == s1.newest(k));
                        assert(s2.mutable(k) == s1.mutable(k));
                    }
                    disk_src = Some((found, latest));
                },
                other => {
                    let ghost s3 = *store;
                    let again: bool = self.handle_retry(store, other, &mut attempt);
                    proof {
                        store.lemma_quiet(&s3);
                        assert(store.get(k) == s3.get(k) && store.newest(k) == s3.newest(k));
                        assert(store.mutable(k) == s3.mutable(k));
                        lemma_near_trans(&o, &s1, &s2, k, lapsed);
                        lemma_near_trans(&o, &s2, &s3, k, lapsed);
                        lemma_near_trans(&o, &s3, store, k, lapsed);
                        if easy {
                            s1.lemma_reliable();
                            if made_way(s1.log@, s2.log@) && !s1.log@.page_free(s1.log@.tail_page + 1) {
                                lemma_stage(s1.log@, s2.log@, store.log@);
                            }
                            assert(store.index.bucket_of(hash) == s3.index.bucket_of(hash));
                        }
                        if !callbacks::steady::<F>() && store.get(k) == o.get(k) && lapses::<F, D>(
                            store,
                            k,
                            inp,
                            F::out_view(*out),
                        ) {
                            assert(o.mutable(k));
                            assert(lapses::<F, D>(&o, k, inp, F::out_view(*out)));
                        }
                    }
                    if !again {
                        proof {
                            lemma_calm_after(&o, &s2, store, tid);
                        }
                        return Status::Error;
                    }
                },
            }
        }
    }
}

proof fn lemma_near_trans<D: Device>(
    a: &Store<D>,
    b: &Store<D>,
    c: &Store<D>,
    key: Seq<u8>,
    lapsed: bool,
)
    requires
        near(a, b, key, lapsed),
        near(b, c, key, lapsed) || (c.quiet(b) && c.newest_same(b)),
    ensures
        near(a, c, key, lapsed),
{
    assert forall|k: Seq<u8>| #[trigger] c.newest(k) == a.newest(k) by {
        assert(c.newest(k) == b.newest(k));
        assert(b.newest(k) == a.newest(k));
    }
    assert forall|k: Seq<u8>| k != key implies #[trigger] c.get(k) == a.get(k) by {
        assert(c.get(k) == b.get(k));
        assert(b.get(k) == a.get(k));
    }
    assert(c.get(key) == b.get(key) || c.get(key) is None);
    log::lemma_image_trans(a.log@, b.log@, c.log@);
}

// ---------------------------------------------------------------------------
// Delete
// ---------------------------------------------------------------------------

/// Delete: an entry that is there is taken out.
pub open spec fn delete_result(g: Option<RecordView>) -> Status {
    if g is Some {
        Status::Deleted
    } else {
        Status::NotFound
    }
}

/// What was learnt on the device about a key: whether it has an entry there.
spec fn checked_ok<D: Device>(o: &Store<D>, key: Seq<u8>, checked: Option<(bool, u64)>) -> bool {
    checked matches Some(c) ==> {
        &&& o.newest(key) matches Some(a) ==> a < o.log@.head
        &&& c.1 <= record::ADDRESS_MASK
        &&& c.0 == (o.get(key) is Some) || (!c.0 && o.log@.dependable < o.log@.flushed)
    }
}

/// What one attempt of a delete comes to.
spec fn delete_post<D: Device>(
    o: &Store<D>,
    n: &Store<D>,
    r: Op,
    key: Seq<u8>,
    open: bool,
    checked: bool,
) -> bool {
    match r {
        Op::Done(s) => {
            &&& forall|k: Seq<u8>| k != key ==> #[trigger] n.get(k) == o.get(k)
            &&& o.newest(key) is Some ==> open
            &&& !o.ahead(key, o.log@.head as int)
            &&& match s {
                Status::Error => n.get(key) == o.get(key) && o.get(key) is Some && !o.mutable(key)
                    && !fits(o.log@.psize, tombstone_size(key)),
                Status::Deleted => n.get(key) is None && o.get(key) is Some && buried(o, n, key),
                Status::NotFound => n.get(key) == o.get(key) && (o.known(key) ==> o.get(key) is None),
                _ => false,
            }
        },
        Op::RecordOnDisk { addr, latest } => {
            &&& !checked
            &&& n.newest_same(o)
            &&& n.recs == o.recs
            &&& n.order@ == o.order@
            &&& n.log@ == o.log@
            &&& 64 <= addr < o.log@.head
            &&& latest <= record::ADDRESS_MASK
            &&& o.recs@.dom().contains(addr as int)
            &&& same_chain(o, n, key)
            &&& o.newest(key) == chain::find(o.recs@, addr as int, key)
            &&& o.newest(key) matches Some(a) ==> a < o.log@.head
        },
        _ => {
            &&& r is CprShift ==> o.ahead(key, o.log@.head as int)
            &&& near(o, n, key, false)
            &&& n.get(key) == o.get(key)
            &&& same_chain(o, n, key)
            &&& open && !o.ahead(key, o.log@.head as int) ==> {
                &&& r is RetryLater
                &&& must_wait(o.log@, n.log@)
                &&& o.get(key) is Some
                &&& !o.mutable(key)
                &&& !log::alloc_ready(o.log@, tombstone_size(key).total())
            }
        },
    }
}

/// A delete is done at the first attempt: there is nothing to delete, or it is
/// deleted in place, or there is space for a tombstone.
pub open spec fn delete_prompt<D: Device>(
    o: &Store<D>,
    thread: u64,
    txn_mode: bool,
    key: Seq<u8>,
) -> bool {
    &&& o.prompt(thread, txn_mode, key, true, o.log@.head as int)
    &&& o.get(key) is None || o.mutable(key) || (fits(o.log@.psize, tombstone_size(key))
        && log::alloc_ready(o.log@, tombstone_size(key).total()))
}

proof fn lemma_delete_around<D: Device>(
    o: &Store<D>,
    l: &Store<D>,
    m: &Store<D>,
    n: &Store<D>,
    r: Op,
    key: Seq<u8>,
    open: bool,
    checked: bool,
)
    requires
        delete_post(l, m, r, key, true, checked),
        l.newest_same(o),
        n.newest_same(m),
        l.recs == o.recs,
        n.recs == m.recs,
        l.order@ == o.order@,
        n.order@ == m.order@,
        l.log@ == o.log@,
        n.log@ == m.log@,
        same_chain(o, l, key),
        same_chain(m, n, key),
        l.same_settings(o),
        open,
    ensures
        delete_post(o, n, r, key, open, checked),
{
    reveal(replaced);
    assert(l.mutable(key) == o.mutable(key));
    assert(l.known(key) == o.known(key));
    assert(l.ahead(key, l.log@.head as int) == o.ahead(key, o.log@.head as int));
    assert(l.get(key) == o.get(key) && l.newest(key) == o.newest(key));
    assert(n.get(key) == m.get(key) && n.newest(key) == m.newest(key));
    assert forall|k: Seq<u8>| k != key && m.get(k) == l.get(k) implies #[trigger] n.get(k) == o.get(k) by {
        assert(n.get(k) == m.get(k));
        assert(l.get(k) == o.get(k));
    }
    if r is Done {
        assert forall|k: Seq<u8>| k != key implies #[trigger] n.get(k) == o.get(k) by {
            assert(m.get(k) == l.get(k));
        }
    } else if r is RecordOnDisk {
        assert forall|k: Seq<u8>| #[trigger] n.newest(k) == o.newest(k) by {
            assert(n.newest(k) == m.newest(k));
            assert(m.newest(k) == l.newest(k));
            assert(l.newest(k) == o.newest(k));
        }
        assert forall|k: Seq<u8>| #[trigger] n.get(k) == o.get(k) by {
            assert(n.get(k) == m.get(k));
            assert(m.get(k) == l.get(k));
            assert(l.get(k) == o.get(k));
        }
    } else {
        assert forall|k: Seq<u8>| #[trigger] n.newest(k) == o.newest(k) by {
            assert(n.newest(k) == m.newest(k));
            assert(m.newest(k) == l.newest(k));
            assert(l.newest(k) == o.newest(k));
        }
        assert forall|k: Seq<u8>| k != key implies #[trigger] n.get(k) == o.get(k) by {
            assert(m.get(k) == l.get(k));
        }
    }
}

impl<F: SessionFunctions> Session<F> {
    /// A delete attempt once the latch is held.
    #[verifier::spinoff_prover]
    #[verifier::rlimit(40)]
    fn delete_latched<D: Device>(
        &mut self,
        store: &mut Store<D>,
        slot: &SlotRef,
        key: &[u8],
        disk_checked: Option<(bool, u64)>,
    ) -> (r: Op)
        requires
            old(store).inv(),
            old(store).index.holds(*slot),
            slot.bucket == old(store).index.bucket_of(hash::key_hash(key@)),
            slot.tag == hash::key_hash(key@) >> 49,
            old(self).state == old(store).state(),
            checked_ok(old(store), key@, disk_checked),
        ensures
            step_frame(old(store), final(store), *slot),
            final(self).told_op(old(self), r, key@, false),
            delete_post(old(store), final(store), r, key@, true, disk_checked is Some),
    {
        let ghost o = *store;
        let ghost k = key@;
        let entry: HashEntry = slot.load(&store.index);
        let latest: u64 = entry.address();
        let head: u64 = store.log.head_address();
        let ro: u64 = store.log.read_only_address();
        proof {
            store.index.lemma_buckets();
            store.index.lemma_slot(*slot);
            assert(chain::entry_ok(
                o.index,
                o.recs@,
                slot.bucket as int,
                slot.tag,
                o.index.lookup(slot.bucket as int, slot.tag),
            ));
            assert(chain::chain_head(o.index, k) == latest);
            chain::lemma_find(o.recs@, latest as int, k);
        }
        match store.trace_back(latest, key, head) {
            Trace::Found(addr) => {
                let mut rec: RecordPtr = store.record_at(addr);
                let info: RecordInfo = rec.load_info();
                proof {
                    assert(o.newest(k) == Some(addr as int));
                    assert(!record::sealed_of(info.0));
                    assert(chain::placed(o.log@, addr as int, o.recs@[addr as int]));
                    record::lemma_word_bits(info.0, 0);
                }
                match self.cpr_gate(store, addr, info) {
                    Some(op) => {
                        return op;
                    },
                    None => {},
                }
                if info.is_tombstone() {
                    return Op::Done(Status::NotFound);
                }
                if addr >= ro && !self.cpr_blocks_in_place(store, addr, info) {
                    rec.info().set_tombstone();
                    rec.info().set_modified();
                    store.rewrite(addr, &rec);
                    self.tell_removed(key);
                    return Op::Done(Status::Deleted);
                }
                self.delete_rcu(store, slot, entry, key, Some(addr))
            },
            Trace::Stopped(addr) => {
                if addr >= store.log.begin_address() && addr >= FIRST_VALID_ADDRESS {
                    match disk_checked {
                        Some((exists_there, seen_latest)) => {
                            let floor: u64 = if seen_latest + 1 > head {
                                seen_latest + 1
                            } else {
                                head
                            };
                            if seen_latest != latest && !store.trace_back(latest, key, floor).is_stopped() {
                                assert(false);
                                return Op::RetryNow;
                            }
                            if exists_there {
                                self.delete_rcu(store, slot, entry, key, None)
                            } else {
                                Op::Done(Status::NotFound)
                            }
                        },
                        None => Op::RecordOnDisk { addr, latest },
                    }
                } else {
                    Op::Done(Status::NotFound)
                }
            },
        }
    }

    /// One attempt of a delete.
    fn internal_delete<D: Device>(
        &mut self,
        store: &mut Store<D>,
        key: &[u8],
        hash: u64,
        disk_checked: Option<(bool, u64)>,
    ) -> (r: Op)
        requires
            old(store).inv(),
            hash == hash::key_hash(key@),
            old(self).state == old(store).state(),
            checked_ok(old(store), key@, disk_checked),
        ensures
            attempt_frame(old(store), final(store)),
            final(store).index.same_room(&old(store).index),
            final(store).entered(old(store), key@),
            final(self).told_op(old(self), r, key@, false),
            delete_post(
                old(store),
                final(store),
                r,
                key@,
                old(store).open_for(old(self).txn_mode, key@, true),
                disk_checked is Some,
            ),
    {
        let ghost o = *store;
        proof {
            lemma_wait_refl(store.log@);
            store.lemma_quiet(&o);
            store.index.lemma_buckets();
            chain::lemma_find(o.recs@, chain::chain_head(o.index, key@), key@);
        }
        let slot = match store.index.find_tag(hash) {
            Some(s) => s,
            None => {
                return Op::Done(Status::NotFound);
            },
        };
        if !store.lock(self.txn_mode, slot.bucket, true) {
            assert(store.get(key@) == o.get(key@));
            return Op::RetryLater;
        }
        let ghost l = *store;
        proof {
            assert(l.get(key@) == o.get(key@) && l.newest(key@) == o.newest(key@));
        }
        let r = self.delete_latched(store, &slot, key, disk_checked);
        let ghost m = *store;
        store.unlock(self.txn_mode, slot.bucket, true, Ghost(o.index));
        proof {
            lemma_delete_around(
                &o,
                &l,
                &m,
                store,
                r,
                key@,
                o.open_for(old(self).txn_mode, key@, true),
                disk_checked is Some,
            );
        }
        r
    }

    /// Delete a key.
    #[verifier::spinoff_prover]
    #[verifier::rlimit(40)]
    pub fn delete<D: Device>(&mut self, store: &mut Store<D>, key: &[u8]) -> (r: Status)
        requires
            old(store).inv(),
        ensures
            final(store).inv(),
            final(store).same_settings(old(store)),
            final(store).next_thread == old(store).next_thread,
            old(store).whole() ==> final(store).whole(),
            log::image_kept(old(store).log@, final(store).log@),
            final(store).index.same_shape(&old(store).index),
            final(store).index.same_latches(&old(store).index),
            final(self).told_by(old(self), r, key@, false),
            r is Error || r is NotFound || r is Deleted,
            forall|k: Seq<u8>| k != key@ ==> #[trigger] final(store).get(k) == old(store).get(k),
            !(r is Error) && old(store).newest(key@) is Some ==> old(store).open_for(
                old(self).txn_mode,
                key@,
                true,
            ),
            r is Error || r is NotFound ==> final(store).get(key@) == old(store).get(key@),
            r is Deleted ==> final(store).get(key@) is None && old(store).get(key@) is Some && removed(
                old(store),
                final(store),
                key@,
            ),
            final(store).index.same_room(&old(store).index),
            final(store).entered(old(store), key@),
            !(r is Error) && on_hand(old(store), final(store), key@) ==> r == delete_result(
                old(store).get(key@),
            ),
            old(store).calm(old(self).thread) && old(store).open_for(old(self).txn_mode, key@, true)
                && (old(store).get(key@) is None || fits(
                old(store).log@.psize,
                tombstone_size(key@),
            )) ==> !(r is Error),
            delete_prompt(old(store), old(self).thread, old(self).txn_mode, key@) ==> !(r is Error),
            calm_after(old(store), final(store), old(self).thread),
    {
        let hash: u64 = hash64(key);
        let ghost o = *store;
        let ghost k = key@;
        let ghost tid = self.thread;
        let ghost easy = o.calm(tid) && o.open_for(self.txn_mode, k, true) && (o.get(k) is None || fits(
            o.log@.psize,
            tombstone_size(k),
        ));
        let ghost swift = delete_prompt(&o, tid, self.txn_mode, k);
        if !store.log.has_row(self.thread) {
            return Status::Error;
        }
        let mut attempt: usize = 0;
        let mut disk_checked: Option<(bool, u64)> = None;
        loop
            invariant
                hash == hash::key_hash(key@),
                k == key@,
                o == *old(store),
                o.inv(),
                tid == self.thread,
                tid == old(self).thread,
                easy == (o.calm(tid) && o.open_for(old(self).txn_mode, k, true) && (o.get(k) is None
                    || fits(o.log@.psize, tombstone_size(k)))),
                store.inv(),
                store.same_settings(&o),
                near(&o, store, k, false),
                store.get(k) == o.get(k),
                same_chain(&o, store, k),
                store.index.same_room(&o.index),
                store.entered(&o, k),
                swift == delete_prompt(&o, tid, old(self).txn_mode, k),
                swift ==> attempt == 0,
                attempt == 0 ==> store.log@ == (LogView { slots: store.log@.slots, ..o.log@ }),
                store.index.same_shape(&o.index),
                store.index.same_latches(&o.index),
                store.next_thread == o.next_thread,
                o.whole() ==> store.whole(),
                self.same(old(self)),
                store.log.can_protect(self.thread),
                attempt <= MAX_RETRIES,
                checked_ok(store, k, disk_checked),
                epoch::alone(o.log@.slots, tid) ==> epoch::alone(store.log@.slots, tid),
                easy ==> attempt <= 3,
                store.log@.epoch <= o.log@.epoch + 4 * attempt,
                easy && attempt > 0 ==> store.log@.settled() && attempt + stage(store.log@) <= 3,
            decreases MAX_RETRIES - attempt, (if disk_checked is None {
                1int
            } else {
                0
            }),
        {
            let ghost s0 = *store;
            self.enter(store);
            let ghost s1 = *store;
            proof {
                s1.lemma_quiet(&s0);
                lemma_near_trans(&o, &s0, &s1, k, false);
                assert(s1.get(k) == s0.get(k) && s1.newest(k) == s0.newest(k));
            }
            let r = self.internal_delete(store, key, hash, disk_checked);
            let ghost s2 = *store;
            self.leave(store);
            proof {
                store.lemma_quiet(&s2);
                assert(store.get(k) == s2.get(k) && store.newest(k) == s2.newest(k));
                lemma_latch_trans(&o.index, &s1.index, &s2.index);
                lemma_latch_trans(&o.index, &s2.index, &store.index);
                o.index.lemma_buckets();
                Store::lemma_entered(&o, &s1, &s2, k);
                s1.lemma_open_same(&o, self.txn_mode, k, true);
                if on_hand(&o, &s2, k) {
                    lemma_on_hand(&o, &s1, &s2, k);
                }
            }
            match r {
                Op::Done(s) => {
                    proof {
                        reveal(replaced);
                        assert forall|x: Seq<u8>| x != k implies #[trigger] store.get(x) == o.get(x) by {
                            assert(store.get(x) == s2.get(x));
                            assert(s2.get(x) == s1.get(x));
                            assert(s1.get(x) == o.get(x));
                        }
                        lemma_calm_after(&o, &s2, store, tid);
                        log::lemma_image_trans(o.log@, s1.log@, s2.log@);
                        log::lemma_image_trans(o.log@, s2.log@, store.log@);
                    }
                    return s;
                },
                Op::RecordOnDisk { addr, latest } => {
                    let found: Option<RecordPtr> = store.find_on_disk(addr, key);
                    let there: bool = match &found {
                        Some(rec) => !rec.load_info().is_tombstone(),
                        None => false,
                    };
                    proof {
                        assert(near(&s1, &s2, k, false)) by {
                            assert(s2.get(k) == s1.get(k));
                        }
                        lemma_near_trans(&o, &s1, &s2, k, false);
                        lemma_near_trans(&o, &s2, store, k, false);
                        if found is Some {
                            record::lemma_word_bits(store.recs@[store.newest(k).unwrap()].word, 0);
                        }
                        assert(s2.get(k) == s1.get(k) && s2.newest(k) == s1.newest(k));
                    }
                    disk_checked = Some((there, latest));
                },
                other => {
                    let ghost s3 = *store;
                    let again: bool = self.handle_retry(store, other, &mut attempt);
                    proof {
                        store.lemma_quiet(&s3);
                        assert(store.get(k) == s3.get(k) && store.newest(k) == s3.newest(k));
                        lemma_near_trans(&o, &s1, &s2, k, false);
                        lemma_near_trans(&o, &s2, &s3, k, false);
                        lemma_near_trans(&o, &s3, store, k, false);
                        if easy {
                            s1.lemma_reliable();
                            if made_way(s1.log@, s2.log@) && !s1.log@.page_free(s1.log@.tail_page + 1) {
                                lemma_stage(s1.log@, s2.log@, store.log@);
                            }
                        }
                    }
                    if !again {
                        proof {
                            lemma_calm_after(&o, &s2, store, tid);
                        }
                        return Status::Error;
                    }
                },
            }
        }
    }
}

} // verus!
