//! Non-blocking **fold-over checkpoint** driven by an epoch-protected state
//! machine.
//!
//! ```text
//!  REST --> PREPARE(v) --> IN_PROGRESS(v+1) --> WAIT_FLUSH(v+1) --> REST(v+1)
//!            capture         all threads now      shift ReadOnly to
//!            start = tail    write v+1 records    final; flush; write
//!                                                 metadata
//! ```
//!
//! Each arrow is `transition_and_wait`: replace the global state, bump the
//! epoch, and wait until every thread has left the previous epoch, that is,
//! has *observed* the new phase.
//!
//! * After PREPARE -> IN_PROGRESS drains, no version-v operation is in flight
//!   and every new write carries `InNewVersion`.
//! * A v+1 thread never updates a v record in place; it copies to the tail
//!   instead, leaving the v value intact.
//! * `final = tail` is captured once all threads are v+1, so every v record
//!   lies below `final`; v+1 records below `final` are in the fuzzy region
//!   `[start, final)` and are undone at recovery.
//! * Fold-over then shifts ReadOnly to `final`, freezing everything below it
//!   and flushing it. The log itself *is* the checkpoint.
//!
//! Recovery rebuilds the index by scanning the on-disk log `[begin, final)`
//! and re-inserting every valid record in address order (later records win
//! naturally because chains are address-descending).
use crate::bytes;
use crate::bytes::{overwrite, push_all};
use crate::chain;
use crate::chain::Recs;
use crate::device::{Device, DeviceError};
use crate::epoch;
use crate::hash;
use crate::hash::hash64;
use crate::index::HashIndex;
use crate::le;
use crate::le::{u64_from_le_bytes, u64_to_le_bytes};
use crate::log;
use crate::log::{for_each_record_in_buf, LogView, FIRST_VALID_ADDRESS};
use crate::record;
use crate::record::{RecordInfo, RecordPtr, RecordView, SEALED_BIT};
use crate::scan;
use crate::store::{Phase, Store, SystemState};
use vstd::prelude::*;
use vstd::slice::slice_subrange;

verus! {

/// First word of the metadata of a checkpoint.
pub const META_MAGIC: u64 = 0x5453_4156_4f52_4954;

/// Bytes of the metadata of a checkpoint.
pub const META_LEN: usize = 48;

#[derive(Clone, Copy, Debug, PartialEq, Eq, Structural)]
pub struct CheckpointInfo {
    /// Version `v` captured by this checkpoint (the store runs at v+1 afterwards).
    pub version: u64,
    /// Records below belong to keys that were all dropped at once.
    pub begin_address: u64,
    /// Tail at PREPARE: start of the fuzzy region.
    pub start_address: u64,
    /// Tail at WAIT_FLUSH: everything below is durable; nothing above is in the checkpoint.
    pub final_address: u64,
    /// Opaque value supplied by the caller (the log of commands it covers).
    pub user_data: u64,
}

/// Why a checkpoint was not taken or not recovered.
#[derive(Clone, Debug, PartialEq, Eq)]
pub enum CheckpointError {
    /// Another checkpoint is under way.
    InProgress,
    /// The metadata ends early.
    Truncated,
    /// The metadata does not start with the magic word.
    BadMagic,
    /// The device does not hold the log that the metadata describes.
    NoLog,
    /// The index has no room for an entry.
    IndexFull,
    Device(DeviceError),
}

impl CheckpointInfo {
    /// The metadata as bytes.
    pub open spec fn encoded(self) -> Seq<u8> {
        le::u64_le(META_MAGIC) + le::u64_le(self.version) + le::u64_le(self.begin_address) + le::u64_le(
            self.start_address,
        ) + le::u64_le(self.final_address) + le::u64_le(self.user_data)
    }

    /// The metadata that bytes stand for.
    pub open spec fn decoded(s: Seq<u8>) -> Result<CheckpointInfo, CheckpointError> {
        if s.len() < META_LEN {
            Err(CheckpointError::Truncated)
        } else if le::u64_of(s.subrange(0, 8)) != META_MAGIC {
            Err(CheckpointError::BadMagic)
        } else {
            Ok(
                CheckpointInfo {
                    version: le::u64_of(s.subrange(8, 16)),
                    begin_address: le::u64_of(s.subrange(16, 24)),
                    start_address: le::u64_of(s.subrange(24, 32)),
                    final_address: le::u64_of(s.subrange(32, 40)),
                    user_data: le::u64_of(s.subrange(40, 48)),
                },
            )
        }
    }

    pub fn to_bytes(&self) -> (r: Vec<u8>)
        ensures
            r@ == self.encoded(),
            r@.len() == META_LEN,
    {
        let mut out: Vec<u8> = u64_to_le_bytes(META_MAGIC);
        push_all(&mut out, u64_to_le_bytes(self.version).as_slice());
        push_all(&mut out, u64_to_le_bytes(self.begin_address).as_slice());
        push_all(&mut out, u64_to_le_bytes(self.start_address).as_slice());
        push_all(&mut out, u64_to_le_bytes(self.final_address).as_slice());
        push_all(&mut out, u64_to_le_bytes(self.user_data).as_slice());
        out
    }

    pub fn from_bytes(buf: &[u8]) -> (r: Result<CheckpointInfo, CheckpointError>)
        ensures
            r == Self::decoded(buf@),
    {
        if buf.len() < META_LEN {
            return Err(CheckpointError::Truncated);
        }
        if u64_from_le_bytes(slice_subrange(buf, 0, 8)) != META_MAGIC {
            return Err(CheckpointError::BadMagic);
        }
        Ok(
            CheckpointInfo {
                version: u64_from_le_bytes(slice_subrange(buf, 8, 16)),
                begin_address: u64_from_le_bytes(slice_subrange(buf, 16, 24)),
                start_address: u64_from_le_bytes(slice_subrange(buf, 24, 32)),
                final_address: u64_from_le_bytes(slice_subrange(buf, 32, 40)),
                user_data: u64_from_le_bytes(slice_subrange(buf, 40, 48)),
            },
        )
    }
}

/// Metadata that was written reads back as it was.
pub proof fn metadata_round_trip(info: CheckpointInfo)
    ensures
        info.encoded().len() == META_LEN,
        CheckpointInfo::decoded(info.encoded()) == Ok::<CheckpointInfo, CheckpointError>(info),
{
    le::le_round_trip();
    let s = info.encoded();
    assert(s.len() == 48);
    assert(s.subrange(0, 8) =~= le::u64_le(META_MAGIC));
    assert(s.subrange(8, 16) =~= le::u64_le(info.version));
    assert(s.subrange(16, 24) =~= le::u64_le(info.begin_address));
    assert(s.subrange(24, 32) =~= le::u64_le(info.start_address));
    assert(s.subrange(32, 40) =~= le::u64_le(info.final_address));
    assert(s.subrange(40, 48) =~= le::u64_le(info.user_data));
}

/// What follows the metadata does not matter.
pub proof fn lemma_decoded_prefix(info: CheckpointInfo, s: Seq<u8>)
    requires
        s.len() >= META_LEN,
        s.subrange(0, META_LEN as int) == info.encoded(),
    ensures
        CheckpointInfo::decoded(s) == Ok::<CheckpointInfo, CheckpointError>(info),
{
    metadata_round_trip(info);
    let e = info.encoded();
    assert(s.subrange(0, 8) =~= e.subrange(0, 8));
    assert(s.subrange(8, 16) =~= e.subrange(8, 16));
    assert(s.subrange(16, 24) =~= e.subrange(16, 24));
    assert(s.subrange(24, 32) =~= e.subrange(24, 32));
    assert(s.subrange(32, 40) =~= e.subrange(32, 40));
    assert(s.subrange(40, 48) =~= e.subrange(40, 48));
}

// ---------------------------------------------------------------------------
// Taking a checkpoint
// ---------------------------------------------------------------------------

impl<D: Device> Store<D> {
    /// Same index and records; the log has only moved its boundaries.
    pub open spec fn same_data(&self, o: &Self) -> bool {
        &&& self.index == o.index
        &&& self.recs == o.recs
        &&& self.order == o.order
        &&& self.next_thread == o.next_thread
        &&& self.floor == o.floor
        &&& log::moved(o.log@, self.log@)
        &&& self.log@.slots == o.log@.slots
    }

    /// Move the global state machine to `new` and wait until every thread has
    /// observed it. No thread may be inside the epoch.
    pub fn transition_and_wait(&mut self, new: SystemState)
        requires
            old(self).inv(),
            epoch::idle(old(self).log@.slots),
            old(self).log@.epoch < u64::MAX,
        ensures
            final(self).inv(),
            final(self).same_data(old(self)),
            final(self).newest_same(old(self)),
            final(self).state_word == new.packed(),
            final(self).checkpoint_start == old(self).checkpoint_start,
            final(self).log@.ro == old(self).log@.ro,
            final(self).log@.head == old(self).log@.head,
            final(self).log@.settled(),
            final(self).log@.epoch <= old(self).log@.epoch + 1,
    {
        let ghost o = *self;
        self.set_system_state(new);
        let ghost s = *self;
        self.bump();
        proof {
            self.lemma_quiet(&s);
            assert forall|k: Seq<u8>| #[trigger] self.newest(k) == o.newest(k) by {
                assert(self.newest(k) == s.newest(k));
                assert(s.newest(k) == o.newest(k));
            }
            assert forall|k: Seq<u8>| #[trigger] self.get(k) == o.get(k) by {
                assert(self.get(k) == s.get(k));
                assert(s.get(k) == o.get(k));
            }
        }
    }

    /// Take a fold-over checkpoint up to the point where its metadata can be
    /// written. Once that is durable, [`Store::finish_checkpoint`] ends it.
    pub fn take_checkpoint(&mut self, user_data: u64) -> (r: Result<CheckpointInfo, CheckpointError>)
        requires
            old(self).inv(),
            epoch::idle(old(self).log@.slots),
            old(self).log@.epoch < u64::MAX - 8,
        ensures
            final(self).inv(),
            final(self).same_data(old(self)),
            final(self).newest_same(old(self)),
            final(self).contents() == old(self).contents(),
            r == Err::<CheckpointInfo, CheckpointError>(CheckpointError::InProgress) <==> !(
            old(self).state().phase is Rest),
            r == Err::<CheckpointInfo, CheckpointError>(CheckpointError::InProgress) ==> *final(self)
                == *old(self),
            r matches Ok(info) ==> {
                &&& info == (CheckpointInfo {
                    version: old(self).state().version,
                    begin_address: old(self).floor,
                    start_address: old(self).log@.tail() as u64,
                    final_address: old(self).log@.tail() as u64,
                    user_data,
                })
                &&& final(self).log@.ro == old(self).log@.tail()
                &&& final(self).log@.flushed == old(self).log@.tail()
                &&& final(self).log@.durable == final(self).log@.content
                &&& final(self).checkpoint_start == old(self).log@.tail()
                &&& final(self).state_word == (SystemState {
                    phase: Phase::WaitFlush,
                    version: (old(self).state().version + 1) as u64,
                }).packed()
            },
            r matches Err(e) ==> e is InProgress || e is Device,
            r matches Err(e) ==> e is Device ==> {
                &&& final(self).log@.ro == old(self).log@.tail()
                &&& final(self).checkpoint_start == old(self).log@.tail()
                &&& final(self).state_word == (SystemState {
                    phase: Phase::WaitFlush,
                    version: (old(self).state().version + 1) as u64,
                }).packed()
            },
            old(self).state().phase is Rest && old(self).log@.device_good() && old(
                self).log@.dependable > 0 ==> r is Ok,
            final(self).log@.epoch <= old(self).log@.epoch + 8,
    {
        let ghost o = *self;
        let s0: SystemState = self.system_state();
        proof {
            crate::store::lemma_state_mask(self.state_word);
        }
        if s0.phase != Phase::Rest {
            return Err(CheckpointError::InProgress);
        }
        let v: u64 = s0.version;
        proof {
            self.log@.lemma_tail();
        }
        // REST -> PREPARE: threads learn a checkpoint is coming; records they
        // now write are still v, but meeting a v+1 record makes them refresh.
        let start_address: u64 = self.log.tail_address();
        self.set_checkpoint_start_address(start_address);
        let ghost a = *self;
        assert(a.newest_same(&o)) by {
            assert forall|k: Seq<u8>| #[trigger] a.newest(k) == o.newest(k) by {}
            assert forall|k: Seq<u8>| #[trigger] a.get(k) == o.get(k) by {
                assert(a.newest(k) == o.newest(k));
            }
        }
        self.transition_and_wait(SystemState { phase: Phase::Prepare, version: v });
        let ghost b = *self;
        // PREPARE -> IN_PROGRESS: version shift. Once this returns, no v
        // operation is in flight and all new records carry InNewVersion.
        self.transition_and_wait(SystemState { phase: Phase::InProgress, version: v + 1 });
        let ghost c = *self;
        // IN_PROGRESS -> WAIT_FLUSH: every v record is below the tail now.
        let final_address: u64 = self.log.tail_address();
        self.transition_and_wait(SystemState { phase: Phase::WaitFlush, version: v + 1 });
        let ghost d = *self;
        proof {
            lemma_same_data_trans(&o, &a, &b);
            lemma_same_data_trans(&o, &b, &c);
            lemma_same_data_trans(&o, &c, &d);
        }
        // Fold-over: freeze [.., final) and flush it (after the drain that the
        // ReadOnly shift performs).
        let _moved: bool = self.log.shift_read_only_address(final_address);
        proof {
            lemma_boundary(&d, self, final_address as int);
        }
        let ghost e = *self;
        self.bump();
        let ghost f = *self;
        proof {
            f.lemma_quiet(&e);
            lemma_same_data_trans(&o, &d, &e);
            lemma_same_data_trans(&o, &e, &f);
            lemma_same_contents(&o, &f);
        }
        match self.log.flush_until(final_address, true) {
            Ok(()) => {},
            Err(err) => {
                proof {
                    lemma_flushed(&f, self);
                    lemma_same_data_trans(&o, &f, self);
                    lemma_same_contents(&o, self);
                }
                return Err(CheckpointError::Device(err));
            },
        }
        proof {
            lemma_flushed(&f, self);
            lemma_same_data_trans(&o, &f, self);
            lemma_same_contents(&o, self);
        }
        Ok(
            CheckpointInfo {
                version: v,
                begin_address: self.floor,
                start_address,
                final_address,
                user_data,
            },
        )
    }

    /// WAIT_FLUSH -> REST(v+1), once the metadata is durable.
    pub fn finish_checkpoint(&mut self, info: &CheckpointInfo)
        requires
            old(self).inv(),
            epoch::idle(old(self).log@.slots),
            old(self).log@.epoch < u64::MAX,
            info.version < u64::MAX,
        ensures
            final(self).inv(),
            final(self).same_data(old(self)),
            final(self).newest_same(old(self)),
            final(self).state_word == (SystemState {
                phase: Phase::Rest,
                version: (info.version + 1) as u64,
            }).packed(),
            final(self).checkpoint_start == old(self).checkpoint_start,
            final(self).log@.ro == old(self).log@.ro,
            final(self).log@.settled(),
            final(self).log@.epoch <= old(self).log@.epoch + 1,
    {
        self.transition_and_wait(SystemState { phase: Phase::Rest, version: info.version + 1 });
    }
}

pub proof fn lemma_same_data_trans<D: Device>(a: &Store<D>, b: &Store<D>, c: &Store<D>)
    requires
        a.log.inv(),
        b.log.inv(),
        b.same_data(a),
        b.newest_same(a),
        c.same_data(b),
        c.newest_same(b),
    ensures
        c.same_data(a),
        c.newest_same(a),
{
    log::lemma_moved_trans(a.log@, b.log@, c.log@);
    assert forall|k: Seq<u8>| #[trigger] c.newest(k) == a.newest(k) by {
        assert(c.newest(k) == b.newest(k));
        assert(b.newest(k) == a.newest(k));
    }
    assert forall|k: Seq<u8>| #[trigger] c.get(k) == a.get(k) by {
        assert(c.get(k) == b.get(k));
        assert(b.get(k) == a.get(k));
    }
}

pub proof fn lemma_same_contents<D: Device>(a: &Store<D>, b: &Store<D>)
    requires
        b.newest_same(a),
    ensures
        b.contents() == a.contents(),
{
    assert forall|k: Seq<u8>| #[trigger] b.get(k) == a.get(k) by {}
    assert(b.contents() =~= a.contents());
}

/// Moving the read-only boundary to the tail cuts no record.
proof fn lemma_boundary<D: Device>(o: &Store<D>, n: &Store<D>, at: int)
    requires
        o.inv(),
        *n == (Store { log: n.log, ..*o }),
        n.log.inv(),
        log::moved(o.log@, n.log@),
        log::bounds_grow(o.log@, n.log@, at),
        at == o.log@.tail(),
        n.log@.slots == o.log@.slots,
    ensures
        n.inv(),
        n.same_data(o),
        n.newest_same(o),
{
    assert forall|a: int| #[trigger] o.recs@.dom().contains(a) implies at <= a || a + o.recs@[a].size()
        <= at by {
        assert(chain::placed(o.log@, a, o.recs@[a]));
    }
    chain::lemma_step(o.log@, n.log@, at, o.recs@, o.order@);
}

/// Flushing changes nothing but the device.
proof fn lemma_flushed<D: Device>(o: &Store<D>, n: &Store<D>)
    requires
        o.inv(),
        *n == (Store { log: n.log, ..*o }),
        n.log.inv(),
        n.log@.order(),
        log::kept(o.log@, n.log@),
        n.log@ == (LogView {
            flushed: n.log@.flushed,
            content: n.log@.content,
            durable: n.log@.durable,
            ..o.log@
        }),
        n.log@.flushed >= o.log@.flushed,
    ensures
        n.inv(),
        n.same_data(o),
        n.newest_same(o),
{
    chain::lemma_step(o.log@, n.log@, 0, o.recs@, o.order@);
}

// ---------------------------------------------------------------------------
// Recovering
// ---------------------------------------------------------------------------

/// The log with everything below `f` on the device and nothing in memory.
pub open spec fn cold(v: LogView, f: int) -> LogView {
    LogView {
        pages: Seq::new(v.bsize as nat, |i: int| bytes::zeros(v.psize as nat)),
        tail_page: if f % v.psize == 0 {
            f / v.psize - 1
        } else {
            f / v.psize
        },
        tail_off: if f % v.psize == 0 {
            v.psize
        } else {
            f % v.psize
        },
        begin: 64,
        closed: if f < v.psize {
            64
        } else {
            (f / v.psize) * v.psize
        },
        safe_head: f,
        head: f,
        flushed: f,
        safe_ro: f,
        ro: f,
        bounds: set![f],
        ..v
    }
}

/// The device holds a log up to `f`: these records, in this order.
pub open spec fn is_log_image(v: LogView, f: int, recs: Recs, order: Seq<int>) -> bool {
    &&& 64 <= f <= log::ADDRESS_LIMIT
    &&& f % 8 == 0
    &&& f % v.psize == 0 || f % v.psize >= 64
    &&& (f / v.psize + 1) * v.psize <= log::ADDRESS_LIMIT
    &&& f > 64 ==> v.content.len() >= f
    &&& chain::all_placed(cold(v, f), recs)
    &&& chain::tiled(cold(v, f), recs, order)
    &&& chain::tight(cold(v, f), recs, order)
    &&& forall|a: int| #[trigger] recs.dom().contains(a) ==> v.content.subrange(a, a + recs[a].size())
        == record::encode(recs[a])
}

/// Every chain leads down, within its bucket and tag, to records of the log.
pub open spec fn chains_closed(index: HashIndex, recs: Recs) -> bool {
    forall|a: int| #[trigger]
        recs.dom().contains(a) ==> chain::prev(recs, a) < a && (chain::prev(recs, a) >= 64
            ==> recs.dom().contains(chain::prev(recs, a)) && chain::same_chain(
            index,
            recs[chain::prev(recs, a)].key,
            recs[a].key,
        ))
}

/// What part of the log a checkpoint covers.
pub struct Span {
    /// Records below belong to keys that were all dropped at once.
    pub begin: int,
    /// Records of the next version stand from here on.
    pub start: int,
}

impl CheckpointInfo {
    pub open spec fn span(self) -> Span {
        Span { begin: self.begin_address as int, start: self.start_address as int }
    }
}

/// Whether a record belongs to the version that the checkpoint does not cover.
pub open spec fn unfinished(r: RecordView, a: int, start: Span) -> bool {
    record::new_version_of(r.word) && a >= start.start
}

/// Whether a valid record is not part of the checkpoint: it belongs to the next
/// version, or to keys that were dropped.
pub open spec fn undone(r: RecordView, a: int, start: Span) -> bool {
    record::valid_of(r.word) && (unfinished(r, a, start) || a < start.begin)
}

/// What recovery makes of a record: v+1 records of the fuzzy region and those of
/// dropped keys are no longer valid, and stale seals of the others are cleared.
pub open spec fn recovered(r: RecordView, a: int, start: Span) -> RecordView {
    if !record::valid_of(r.word) {
        r
    } else if unfinished(r, a, start) {
        r.with_word(r.word & !record::VALID_BIT)
    } else if undone(r, a, start) {
        r.with_word((r.word | SEALED_BIT) & !record::VALID_BIT)
    } else {
        r.with_word(r.word & !SEALED_BIT)
    }
}

/// The records once everything below `upto` is recovered.
pub open spec fn recovered_below(recs: Recs, start: Span, upto: int) -> Recs {
    Map::new(
        |a: int| recs.dom().contains(a),
        |a: int|
            if a < upto {
                recovered(recs[a], a, start)
            } else {
                recs[a]
            },
    )
}

/// The index entry of a bucket and tag once the first `n` records are inserted:
/// the last one that counts.
pub open spec fn last_entry(
    index: HashIndex,
    recs: Recs,
    order: Seq<int>,
    start: Span,
    n: int,
    b: int,
    t: u64,
) -> Option<u64>
    decreases n,
{
    if n <= 0 {
        None
    } else {
        let a = order[n - 1];
        let r = recs[a];
        let h = hash::key_hash(r.key);
        if record::valid_of(r.word) && !undone(r, a, start) && index.bucket_of(h) == b && h >> 49 == t {
            Some(a as u64)
        } else {
            last_entry(index, recs, order, start, n - 1, b, t)
        }
    }
}

/// How many entries the first `n` records need: one for each bucket and tag.
pub open spec fn needed(
    index: HashIndex,
    recs: Recs,
    order: Seq<int>,
    start: Span,
    n: int,
) -> int
    decreases n,
{
    if n <= 0 {
        0
    } else {
        let a = order[n - 1];
        let r = recs[a];
        let h = hash::key_hash(r.key);
        needed(index, recs, order, start, n - 1) + (if record::valid_of(r.word) && !undone(r, a, start)
            && last_entry(index, recs, order, start, n - 1, index.bucket_of(h), h >> 49) is None {
            1int
        } else {
            0
        })
    }
}

pub proof fn lemma_needed(index: HashIndex, recs: Recs, order: Seq<int>, start: Span, n: int, m: int)
    requires
        0 <= n <= m,
    ensures
        needed(index, recs, order, start, n) <= needed(index, recs, order, start, m),
        needed(index, recs, order, start, m) <= needed(index, recs, order, start, n) + m - n,
    decreases m,
{
    if n < m {
        lemma_needed(index, recs, order, start, n, m - 1);
    }
}

proof fn lemma_needed_same(
    i1: HashIndex,
    i2: HashIndex,
    recs: Recs,
    order: Seq<int>,
    start: Span,
    n: int,
)
    requires
        i2.same_shape(&i1),
        0 <= n <= order.len(),
        forall|k: int| 0 <= k < n ==> 64 <= (#[trigger] order[k]) <= u64::MAX,
    ensures
        needed(i2, recs, order, start, n) == needed(i1, recs, order, start, n),
    decreases n,
{
    if n > 0 {
        lemma_needed_same(i1, i2, recs, order, start, n - 1);
        let h = hash::key_hash(recs[order[n - 1]].key);
        assert(i2.bucket_of(h) == i1.bucket_of(h));
        lemma_last_entry(i1, i2, recs, order, start, n - 1, i1.bucket_of(h), h >> 49);
    }
}

/// The index holds the entries of the first `n` records.
spec fn indexed(
    index: HashIndex,
    recs: Recs,
    order: Seq<int>,
    start: Span,
    n: int,
) -> bool {
    forall|b: int, t: u64|
        0 <= b < index.bucket_count() ==> #[trigger] index.lookup(b, t) == last_entry(
            index,
            recs,
            order,
            start,
            n,
            b,
            t,
        )
}

proof fn lemma_last_entry(
    i1: HashIndex,
    i2: HashIndex,
    recs: Recs,
    order: Seq<int>,
    start: Span,
    n: int,
    b: int,
    t: u64,
)
    requires
        i2.same_shape(&i1),
        0 <= n <= order.len(),
        forall|k: int| 0 <= k < n ==> 64 <= (#[trigger] order[k]) <= u64::MAX,
    ensures
        last_entry(i2, recs, order, start, n, b, t) == last_entry(i1, recs, order, start, n, b, t),
        last_entry(i1, recs, order, start, n, b, t) matches Some(a) ==> exists|k: int|
            0 <= k < n && (#[trigger] order[k]) == a && record::valid_of(recs[order[k]].word)
                && !undone(recs[order[k]], order[k], start) && i1.bucket_of(
                hash::key_hash(recs[order[k]].key),
            ) == b && hash::key_hash(recs[order[k]].key) >> 49 == t,
    decreases n,
{
    if n > 0 {
        lemma_last_entry(i1, i2, recs, order, start, n - 1, b, t);
        let a = order[n - 1];
        let h = hash::key_hash(recs[a].key);
        assert(i2.bucket_of(h) == i1.bucket_of(h));
    }
}

/// Enter a record into the index, in front of whatever its tag held.
fn insert_recovered(index: &mut HashIndex, hash: u64, addr: u64) -> (r: bool)
    requires
        old(index).inv(),
        64 <= addr <= record::ADDRESS_MASK,
        old(index).lookup(old(index).bucket_of(hash), hash >> 49) matches Some(x) ==> x < addr,
    ensures
        final(index).inv(),
        final(index).same_shape(old(index)),
        final(index).same_latches(old(index)),
        !r ==> !old(index).placeable(old(index).bucket_of(hash), hash >> 49) && *final(index) == *old(
            index,
        ),
        r ==> final(index).grown(old(index), old(index).bucket_of(hash), hash >> 49),
        r ==> final(index).lookup(old(index).bucket_of(hash), hash >> 49) == Some(addr),
        r ==> final(index).same_but(old(index), old(index).bucket_of(hash), hash >> 49),
{
    let ghost o = *index;
    proof {
        o.lemma_placeable(o.bucket_of(hash), hash >> 49);
        o.lemma_buckets();
        record::lemma_word_bits(addr, 0);
    }
    if !index.can_create_tag(hash) {
        return false;
    }
    let slot = index.find_or_create_tag(hash);
    let ghost m = *index;
    let cur = slot.load(index);
    if cur.address() < addr {
        let _done: bool = slot.try_cas(index, cur, addr);
    }
    proof {
        HashIndex::lemma_grown_room(&o, &m, index, o.bucket_of(hash), hash >> 49);
        assert forall|b: int| 0 <= b < index.bucket_count() implies #[trigger] index.latch(b) == o.latch(b) by {
            assert(m.latch(b) == o.latch(b));
        }
        assert forall|b: int, t: u64|
            0 <= b < index.bucket_count() && (b != o.bucket_of(hash) || t != hash >> 49) implies
            #[trigger] index.lookup(b, t) == o.lookup(b, t) by {
            assert(m.lookup(b, t) == o.lookup(b, t));
        }
        assert forall|h: u64| #[trigger] index.bucket_of(h) == o.bucket_of(h) by {
            assert(m.bucket_of(h) == o.bucket_of(h));
        }
    }
    true
}

/// No record covers `x`.
pub open spec fn outside(recs: Recs, x: int) -> bool {
    forall|a: int| #[trigger] recs.dom().contains(a) ==> !(a <= x < a + recs[a].size())
}

/// `c` is `c0` with its records replaced by `cur`, which have the same sizes.
spec fn patched(c0: Seq<u8>, c: Seq<u8>, recs: Recs, cur: Recs) -> bool {
    &&& c.len() == c0.len()
    &&& forall|a: int| #[trigger]
        recs.dom().contains(a) ==> c.subrange(a, a + recs[a].size()) == record::encode(cur[a])
    &&& forall|x: int| 0 <= x < c.len() && outside(recs, x) ==> #[trigger] c[x] == c0[x]
}

proof fn lemma_recovered(r: RecordView, a: int, start: Span)
    requires
        r.wf(),
        chain::marked(r.word),
    ensures
        ({
            let n = recovered(r, a, start);
            &&& n.wf()
            &&& n.size() == r.size()
            &&& n.key == r.key
            &&& chain::marked(n.word)
            &&& record::prev_of(n.word) == record::prev_of(r.word)
            &&& record::valid_of(n.word) == (record::valid_of(r.word) && !undone(r, a, start))
            &&& record::valid_of(n.word) ==> !record::sealed_of(n.word)
            &&& record::tombstone_of(n.word) == record::tombstone_of(r.word)
        }),
{
    record::lemma_word_bits(r.word, 0);
}

/// Which side of a page each record is on.
proof fn lemma_sides(v: LogView, recs: Recs, order: Seq<int>, p: int, i: int, j: int, a: int) -> (t: int)
    requires
        v.shape(),
        chain::all_placed(v, recs),
        chain::tiled(v, recs, order),
        scan::on_page(v, recs, order, p, i, j),
        0 <= p,
        recs.dom().contains(a),
    ensures
        0 <= t < order.len(),
        order[t] == a,
        t < i ==> a + recs[a].size() <= p * v.psize,
        i <= t < j ==> p * v.psize + 64 <= a && a + recs[a].size() <= order[j - 1] + recs[order[j
            - 1]].size(),
        j <= t ==> a >= (p + 1) * v.psize + 64,
{
    let ps = v.psize;
    assert(order.contains(a));
    let t = choose|t: int| 0 <= t < order.len() && order[t] == a;
    assert(chain::placed(v, a, recs[a]));
    record::lemma_size_facts(recs[a]);
    crate::math::lemma_div(a, ps);
    if t < i {
        chain::lemma_sorted(v, recs, order, t, i);
        crate::math::lemma_mul_add(p, 1, ps);
        if a >= p * ps {
            crate::math::lemma_page_bounds(a, p, p + 1, ps);
            assert(false);
        }
        crate::math::lemma_mul_le(0, a / ps, ps);
        assert(a / ps < p) by (nonlinear_arith)
            requires
                a < p * ps,
                a == (a / ps) * ps + a % ps,
                0 <= a % ps,
                ps > 0,
        ;
        crate::math::lemma_mul_le(a / ps + 1, p, ps);
        crate::math::lemma_mul_add(a / ps, 1, ps);
    } else if t < j {
        if t < j - 1 {
            chain::lemma_sorted(v, recs, order, t, j - 1);
            assert(recs.dom().contains(order[j - 1]));
            assert(chain::placed(v, order[j - 1], recs[order[j - 1]]));
            record::lemma_size_facts(recs[order[j - 1]]);
        }
    } else {
        if t > j {
            chain::lemma_sorted(v, recs, order, j, t);
            assert(recs.dom().contains(order[j]));
            assert(chain::placed(v, order[j], recs[order[j]]));
            record::lemma_size_facts(recs[order[j]]);
        }
    }
    t
}

/// The bytes of a page whose records `i` up to `n` have been recovered.
spec fn page_patched(
    b0: Seq<u8>,
    b: Seq<u8>,
    recs: Recs,
    order: Seq<int>,
    start: Span,
    base: int,
    i: int,
    n: int,
    j: int,
) -> bool {
    &&& b.len() == b0.len()
    &&& forall|t: int| #![trigger order[t]]
        i <= t < n ==> b.subrange(order[t] - base, order[t] - base + recs[order[t]].size())
            == record::encode(recovered(recs[order[t]], order[t], start))
    &&& forall|t: int| #![trigger order[t]]
        n <= t < j ==> b.subrange(order[t] - base, order[t] - base + recs[order[t]].size())
            == record::encode(recs[order[t]])
    &&& forall|x: int| 0 <= x < b.len() && outside(recs, base + x) ==> #[trigger] b[x] == b0[x]
}

proof fn lemma_page_patched(
    b0: Seq<u8>,
    b: Seq<u8>,
    v: LogView,
    recs: Recs,
    order: Seq<int>,
    start: Span,
    base: int,
    i: int,
    n: int,
    j: int,
)
    requires
        v.shape(),
        chain::all_placed(v, recs),
        chain::tiled(v, recs, order),
        page_patched(b0, b, recs, order, start, base, i, n, j),
        0 <= i <= n < j <= order.len(),
        forall|t: int|
            i <= t < j ==> 0 <= (#[trigger] order[t]) - base && order[t] - base + recs[order[t]].size()
                <= b.len(),
    ensures
        page_patched(
            b0,
            bytes::splice(
                b,
                order[n] - base,
                record::encode(recovered(recs[order[n]], order[n], start)),
            ),
            recs,
            order,
            start,
            base,
            i,
            n + 1,
            j,
        ),
        recovered(recs[order[n]], order[n], start) == recs[order[n]] ==> page_patched(
            b0,
            b,
            recs,
            order,
            start,
            base,
            i,
            n + 1,
            j,
        ),
{
    let a = order[n];
    let r = recs[a];
    assert(recs.dom().contains(order[n]));
    assert(chain::placed(v, a, r));
    record::lemma_size_facts(r);
    lemma_recovered(r, a, start);
    let e = record::encode(recovered(r, a, start));
    record::lemma_size_facts(recovered(r, a, start));
    let b2 = bytes::splice(b, a - base, e);
    assert(b2.len() == b.len());
    assert(b2.subrange(a - base, a - base + r.size()) =~= e);
    assert forall|t: int| #![trigger order[t]] i <= t < j && t != n implies b2.subrange(
        order[t] - base,
        order[t] - base + recs[order[t]].size(),
    ) == b.subrange(order[t] - base, order[t] - base + recs[order[t]].size()) by {
        assert(recs.dom().contains(order[t]));
        assert(chain::placed(v, order[t], recs[order[t]]));
        record::lemma_size_facts(recs[order[t]]);
        if t < n {
            chain::lemma_sorted(v, recs, order, t, n);
        } else {
            chain::lemma_sorted(v, recs, order, n, t);
        }
        assert(b2.subrange(order[t] - base, order[t] - base + recs[order[t]].size()) =~= b.subrange(
            order[t] - base,
            order[t] - base + recs[order[t]].size(),
        ));
    }
    assert forall|x: int| 0 <= x < b2.len() && outside(recs, base + x) implies #[trigger] b2[x] == b0[x] by {
        assert(!(a <= base + x < a + r.size()));
        assert(b[x] == b0[x]);
    }
}

/// The page as it was read lists its records.
proof fn lemma_page_listed(
    v: LogView,
    c0: Seq<u8>,
    c: Seq<u8>,
    recs: Recs,
    order: Seq<int>,
    start: Span,
    p: int,
    i: int,
    j: int,
    limit: int,
    b: Seq<u8>,
)
    requires
        v.shape(),
        v.content == c0,
        chain::all_placed(v, recs),
        chain::tiled(v, recs, order),
        v.flushed == v.tail(),
        v.content.len() >= v.flushed,
        scan::on_page(v, recs, order, p, i, j),
        0 <= p,
        patched(c0, c, recs, recovered_below(recs, start, p * v.psize)),
        limit == log::clamp_high((p + 1) * v.psize, v.tail()) - p * v.psize,
        0 < limit <= v.psize,
        p * v.psize + limit <= c.len(),
        b == c.subrange(p * v.psize, p * v.psize + limit) + bytes::zeros((v.psize - limit) as nat),
    ensures
        scan::lists(log::records_in(b, 64, limit), recs, order, i, j, p * v.psize),
        forall|t: int|
            0 <= t < j - i ==> (#[trigger] log::records_in(b, 64, limit)[t]).1 == recs[order[i + t]],
        page_patched(b, b, recs, order, start, p * v.psize, i, i, j),
        forall|t: int|
            i <= t < j ==> 0 <= (#[trigger] order[t]) - p * v.psize && order[t] - p * v.psize
                + recs[order[t]].size() <= limit,
{
    let ps = v.psize;
    let base = p * ps;
    crate::math::lemma_mul_add(p, 1, ps);
    crate::math::lemma_mul_le(0, p, ps);
    assert forall|t: int| #![trigger order[t]] i <= t < j implies scan::stands(
        b,
        base,
        limit,
        order[t],
        recs[order[t]],
    ) && b.subrange(order[t] - base, order[t] - base + recs[order[t]].size()) == record::encode(
        recs[order[t]],
    ) by {
        let a = order[t];
        assert(recs.dom().contains(order[t]));
        assert(chain::placed(v, a, recs[a]));
        record::lemma_size_facts(recs[a]);
        assert(c.subrange(a, a + recs[a].size()) == record::encode(recs[a])) by {
            assert(recovered_below(recs, start, base)[a] == recs[a]);
        }
        assert(b.subrange(a - base, a - base + recs[a].size()) =~= c.subrange(a, a + recs[a].size()));
    }
    let last = order[j - 1];
    assert(recs.dom().contains(order[j - 1]));
    assert(chain::placed(v, last, recs[last]));
    record::lemma_size_facts(recs[last]);
    let e = last + recs[last].size();
    assert forall|x: int| e <= x < base + limit implies #[trigger] c[x] == 0 by {
        assert(outside(recs, x)) by {
            assert forall|a: int| #[trigger] recs.dom().contains(a) implies !(a <= x < a
                + recs[a].size()) by {
                lemma_sides(v, recs, order, p, i, j, a);
            }
        }
        assert(c[x] == c0[x]);
        assert(v.content[x] == 0);
    }
    if e - base + 24 <= limit {
        let rest = b.subrange(e - base, limit);
        assert forall|q: int| 0 <= q < 24 implies rest[q] == 0 by {
            assert(c[e + q] == 0);
        }
        scan::lemma_zero_header(rest);
    }
    scan::lemma_run_exact(b, base, limit, 64, recs, order, i, j);
}

/// Recovery has reached record `i`, the first one of page `p`.
spec fn recovering<D: Device>(
    o: &Store<D>,
    n: &Store<D>,
    v: LogView,
    recs: Recs,
    order: Seq<int>,
    start: Span,
    p: int,
    i: int,
) -> bool {
    &&& v.shape()
    &&& v.order()
    &&& chain::all_placed(v, recs)
    &&& chain::tiled(v, recs, order)
    &&& v.flushed == v.tail()
    &&& n.index.inv()
    &&& n.log.inv()
    &&& n.log@ == (LogView { content: n.log@.content, durable: n.log@.durable, ..o.log@ })
    &&& v == (LogView { pages: v.pages, ..o.log@ })
    &&& *n == (Store { index: n.index, log: n.log, ..*o })
    &&& n.index.same_shape(&o.index)
    &&& n.index.latches_free()
    &&& 0 <= i <= order.len()
    &&& indexed(n.index, recs, order, start, i)
    &&& n.index.compact()
    &&& n.index.worth() == o.index.worth() - needed(o.index, recs, order, start, i)
    &&& patched(v.content, n.log@.content, recs, recovered_below(recs, start, p * v.psize))
}

impl<D: Device> Store<D> {
    /// Recover the records of one page: undo those of the version that was not
    /// finished, clear stale seals and enter the others into the index.
    #[verifier::spinoff_prover]
    #[verifier::rlimit(60)]
    fn recover_page(
        &mut self,
        page: u64,
        limit: usize,
        begin_address: u64,
        start_address: u64,
        Ghost(o): Ghost<Store<D>>,
        Ghost(v): Ghost<LogView>,
        Ghost(recs): Ghost<Recs>,
        Ghost(order): Ghost<Seq<int>>,
        Ghost(i): Ghost<int>,
        Ghost(j): Ghost<int>,
    ) -> (r: Result<(), CheckpointError>)
        requires
            recovering(&o, old(self), v, recs, order, (Span { begin: begin_address as int, start: start_address as int }), page as int, i),
            scan::on_page(v, recs, order, page as int, i, j) || (order.len() == 0 && i == 0 && j == 0
                && page == 0 && v.tail() == 64 && recs.dom() =~= Set::empty()),
            limit == log::clamp_high((page + 1) * v.psize, v.tail()) - page * v.psize,
            0 < limit,
            page <= v.tail_page,
        ensures
            final(self).index.inv(),
            final(self).log.inv(),
            r is Ok ==> recovering(
                &o,
                final(self),
                v,
                recs,
                order,
                (Span { begin: begin_address as int, start: start_address as int }),
                page + 1,
                j,
            ),
            r matches Err(e) ==> (e is IndexFull && !final(self).index.room() && final(
                self).index.compact() && final(self).index.bucket_count() == o.index.bucket_count()
                && final(self).index.worth() > o.index.worth() - needed(
                o.index,
                recs,
                order,
                (Span { begin: begin_address as int, start: start_address as int }),
                order.len() as int,
            )) || (e is Device && (old(
                self).log@.dependable < old(self).log@.flushed || old(self).log@.content.len()
                < old(self).log@.flushed)),
    {
        let ps: u64 = self.log.page_size() as u64;
        let ghost st = (Span { begin: begin_address as int, start: start_address as int });
        let ghost c = self.log@.content;
        proof {
            v.lemma_tail();
            crate::math::lemma_mul_add(page as int, 1, v.psize);
            crate::math::lemma_mul_le(0, page as int, v.psize);
            crate::math::lemma_mul_le(page + 1, v.tail_page + 1, v.psize);
        }
        let page_start: u64 = page * ps;
        let ghost base = page_start as int;
        let mut buf = match self.log.read_page_prefix_from_disk(page, limit) {
            Ok(b) => b,
            Err(e) => {
                return Err(CheckpointError::Device(e));
            },
        };
        let ghost b0 = buf.0@;
        let mut found: Vec<(u64, RecordPtr)> = Vec::new();
        let ghost none: Seq<(int, RecordView)> = Seq::empty();
        let _end: usize = for_each_record_in_buf(
            buf.0.as_slice(),
            0,
            limit,
            page_start,
            &mut found,
            Ghost(none),
        );
        proof {
            assert(v.content.len() == c.len());
            if order.len() == 0 {
                reveal(log::records_in);
                assert(page_patched(b0, b0, recs, order, st, base, i, i, j));
            } else {
                assert(v.content.len() >= v.flushed);
            lemma_page_listed(
                v,
                v.content,
                c,
                recs,
                order,
                st,
                page as int,
                i,
                j,
                limit as int,
                b0,
            );
            }
            let l = log::records_in(b0, 64, limit as int);
            assert forall|t: int| 0 <= t < j - i implies (#[trigger] found@[t]).0 == order[i + t] && found@[t].1.wf()
                && found@[t].1@ == recs[order[i + t]] by {
                assert((none + log::shifted(l, base))[t] == (l[t].0 + base, l[t].1));
            }
        }
        let ghost i0 = self.index;
        proof {
            lemma_order_bounds(v, recs, order);
            lemma_needed_same(o.index, i0, recs, order, st, i);
            lemma_needed_same(o.index, i0, recs, order, st, j);
            lemma_needed(o.index, recs, order, st, j, order.len() as int);
        }
        let dirty: bool = match recover_records(
            &mut self.index,
            &mut buf.0,
            &found,
            page_start,
            begin_address,
            start_address,
            Ghost(v),
            Ghost(recs),
            Ghost(order),
            Ghost(i),
            Ghost(j),
            Ghost(limit as int),
        ) {
            Ok(d) => d,
            Err(e) => {
                return Err(e);
            },
        };
        proof {
            assert forall|h: u64| #[trigger] self.index.bucket_of(h) == o.index.bucket_of(h) by {
                assert(self.index.bucket_of(h) == i0.bucket_of(h));
            }
        }
        let ghost b1 = buf.0@;
        if dirty {
            match self.log.rewrite_on_device(page_start, slice_subrange(buf.0.as_slice(), 0, limit)) {
                Ok(()) => {},
                Err(e) => {
                    return Err(CheckpointError::Device(e));
                },
            }
        }
        proof {
            let c2 = self.log@.content;
            if order.len() == 0 {
                assert(c2 =~= bytes::splice(c, base, b1.subrange(0, limit as int)) || c2 == c);
                assert forall|x: int| 0 <= x < c2.len() && outside(recs, x) implies #[trigger] c2[x]
                    == v.content[x] by {
                    assert(c[x] == v.content[x]);
                    if x < limit {
                        assert(outside(recs, base + x));
                        assert(b1[x] == b0[x]);
                    }
                }
            } else {
            lemma_page_written(
                v,
                c,
                c2,
                recs,
                order,
                st,
                page as int,
                i,
                j,
                limit as int,
                b0,
                b1,
                dirty,
            );
            }
        }
        Ok(())
    }
}

proof fn lemma_order_bounds(v: LogView, recs: Recs, order: Seq<int>)
    requires
        v.shape(),
        v.order(),
        chain::all_placed(v, recs),
        chain::tiled(v, recs, order),
    ensures
        forall|k: int| 0 <= k < order.len() ==> 64 <= (#[trigger] order[k]) <= u64::MAX,
{
    v.lemma_tail();
    assert forall|k: int| 0 <= k < order.len() implies 64 <= (#[trigger] order[k]) <= u64::MAX by {
        assert(recs.dom().contains(order[k]));
        assert(chain::placed(v, order[k], recs[order[k]]));
        record::lemma_size_facts(recs[order[k]]);
    }
}

/// Recover the records of a page that was read into `buf`. Returns whether the
/// page has to be written back.
#[verifier::spinoff_prover]
#[verifier::rlimit(80)]
fn recover_records(
    index: &mut HashIndex,
    buf: &mut Vec<u8>,
    found: &Vec<(u64, RecordPtr)>,
    page_start: u64,
    begin_address: u64,
    start_address: u64,
    Ghost(v): Ghost<LogView>,
    Ghost(recs): Ghost<Recs>,
    Ghost(order): Ghost<Seq<int>>,
    Ghost(i): Ghost<int>,
    Ghost(j): Ghost<int>,
    Ghost(limit): Ghost<int>,
) -> (r: Result<bool, CheckpointError>)
    requires
        old(index).inv(),
        old(index).compact(),
        v.shape(),
        v.order(),
        chain::all_placed(v, recs),
        chain::tiled(v, recs, order),
        0 <= i <= j <= order.len(),
        found@.len() == j - i,
        old(buf)@.len() == v.psize,
        limit <= v.psize,
        indexed(*old(index), recs, order, (Span { begin: begin_address as int, start: start_address as int }), i),
        forall|t: int|
            0 <= t < j - i ==> (#[trigger] found@[t]).0 == order[i + t] && found@[t].1.wf()
                && found@[t].1@ == recs[order[i + t]],
        forall|t: int|
            i <= t < j ==> 0 <= (#[trigger] order[t]) - page_start && order[t] - page_start
                + recs[order[t]].size() <= limit,
        page_patched(
            old(buf)@,
            old(buf)@,
            recs,
            order,
            (Span { begin: begin_address as int, start: start_address as int }),
            page_start as int,
            i,
            i,
            j,
        ),
    ensures
        final(index).inv(),
        final(index).same_shape(old(index)),
        old(index).latches_free() ==> final(index).latches_free(),
        final(index).compact(),
        r matches Ok(dirty) ==> {
            &&& final(index).worth() == old(index).worth() - (needed(
                *old(index),
                recs,
                order,
                (Span { begin: begin_address as int, start: start_address as int }),
                j,
            ) - needed(
                *old(index),
                recs,
                order,
                (Span { begin: begin_address as int, start: start_address as int }),
                i,
            ))
            &&& indexed(*final(index), recs, order, (Span { begin: begin_address as int, start: start_address as int }), j)
            &&& page_patched(
                old(buf)@,
                final(buf)@,
                recs,
                order,
                (Span { begin: begin_address as int, start: start_address as int }),
                page_start as int,
                i,
                j,
                j,
            )
            &&& !dirty ==> final(buf)@ == old(buf)@
            &&& !dirty ==> forall|t: int|
                i <= t < j ==> recovered(recs[#[trigger] order[t]], order[t], (Span { begin: begin_address as int, start: start_address as int }))
                    == recs[order[t]]
        },
        r matches Err(e) ==> e is IndexFull && !final(index).room() && final(index).worth() > old(
            index).worth() - (needed(
            *old(index),
            recs,
            order,
            (Span { begin: begin_address as int, start: start_address as int }),
            j,
        ) - needed(
            *old(index),
            recs,
            order,
            (Span { begin: begin_address as int, start: start_address as int }),
            i,
        )),
{
    let ghost st = (Span { begin: begin_address as int, start: start_address as int });
    let ghost base = page_start as int;
    let ghost b0 = buf@;
    let mut dirty: bool = false;
    let mut n: usize = 0;
    while n < found.len()
        invariant
            n <= found@.len() == j - i,
            found@.len() == j - i,
            0 <= i <= j <= order.len(),
            v.shape(),
            v.order(),
            chain::all_placed(v, recs),
            chain::tiled(v, recs, order),
            st == (Span { begin: begin_address as int, start: start_address as int }),
            base == page_start,
            b0 == old(buf)@,
            index.inv(),
            index.same_shape(old(index)),
            old(index).latches_free() ==> index.latches_free(),
            index.compact(),
            index.worth() == old(index).worth() - (needed(*old(index), recs, order, st, i + n) - needed(
                *old(index),
                recs,
                order,
                st,
                i,
            )),
            indexed(*index, recs, order, st, i + n),
            buf@.len() == v.psize,
            b0.len() == v.psize,
            limit <= v.psize,
            forall|t: int|
                0 <= t < j - i ==> (#[trigger] found@[t]).0 == order[i + t] && found@[t].1.wf()
                    && found@[t].1@ == recs[order[i + t]],
            forall|t: int|
                i <= t < j ==> 0 <= (#[trigger] order[t]) - base && order[t] - base
                    + recs[order[t]].size() <= limit,
            page_patched(b0, buf@, recs, order, st, base, i, i + n, j),
            !dirty ==> buf@ == b0,
            !dirty ==> forall|t: int|
                i <= t < i + n ==> recovered(recs[#[trigger] order[t]], order[t], st) == recs[order[t]],
        decreases found@.len() - n,
    {
        let addr: u64 = found[n].0;
        let mut rec: RecordPtr = found[n].1.duplicate();
        let info: RecordInfo = rec.load_info();
        let ghost at = i + n;
        let ghost r0 = recs[order[at]];
        let ghost i0 = *index;
        proof {
            assert(found@[n as int].0 == order[i + n]);
            assert(recs.dom().contains(order[at]));
            assert(chain::placed(v, order[at], r0));
            record::lemma_word_bits(r0.word, 0);
            record::lemma_size_facts(r0);
            lemma_recovered(r0, order[at], st);
            lemma_page_patched(b0, buf@, v, recs, order, st, base, i, at, j);
        }
        let off: usize = (addr - page_start) as usize;
        if info.is_valid() {
            if info.in_new_version() && addr >= start_address {
                // v+1 record inside the fuzzy region: not part of version v.
                rec.info().store(RecordInfo(info.0 & !record::VALID_BIT));
                assert(rec@ =~= recovered(r0, order[at], st));
                overwrite(buf, off, rec.to_bytes().as_slice());
                dirty = true;
                proof {
                    lemma_indexed_step(*index, recs, order, st, at);
                }
            } else if addr < begin_address {
                // A record of a key that was dropped with all others.
                rec.info().seal_and_invalidate();
                assert(rec@ =~= recovered(r0, order[at], st));
                overwrite(buf, off, rec.to_bytes().as_slice());
                dirty = true;
                proof {
                    lemma_indexed_step(*index, recs, order, st, at);
                }
            } else {
                // Clear stale seal bits on the disk image.
                if info.is_sealed() {
                    rec.info().store(RecordInfo(info.0 & !SEALED_BIT));
                    assert(rec@ =~= recovered(r0, order[at], st));
                    overwrite(buf, off, rec.to_bytes().as_slice());
                    dirty = true;
                } else {
                    assert(r0.with_word(r0.word) =~= r0);
                    assert(recovered(r0, order[at], st) == r0);
                }
                let hash: u64 = hash64(rec.key());
                proof {
                    index.lemma_buckets();
                    lemma_below(v, recs, order, *index, st, at, index.bucket_of(hash), hash >> 49);
                }
                proof {
                    lemma_order_bounds(v, recs, order);
                    assert(index.bucket_of(hash) == old(index).bucket_of(hash));
                    lemma_last_entry(
                        *old(index),
                        *index,
                        recs,
                        order,
                        st,
                        at,
                        index.bucket_of(hash),
                        hash >> 49,
                    );
                    assert(index.lookup(index.bucket_of(hash), hash >> 49) == last_entry(
                        *index,
                        recs,
                        order,
                        st,
                        at,
                        index.bucket_of(hash),
                        hash >> 49,
                    ));
                    lemma_needed(*old(index), recs, order, st, at + 1, j);
                }
                if !insert_recovered(index, hash, addr) {
                    return Err(CheckpointError::IndexFull);
                }
                proof {
                    HashIndex::lemma_worth_step(&i0, index, i0.bucket_of(hash), hash >> 49);
                    lemma_indexed_insert(v, i0, *index, recs, order, st, at);
                    assert forall|h: u64| #[trigger] index.bucket_of(h) == old(index).bucket_of(h) by {
                        assert(index.bucket_of(h) == i0.bucket_of(h));
                    }
                }
            }
        } else {
            proof {
                lemma_indexed_step(*index, recs, order, st, at);
            }
        }
        n += 1;
    }
    Ok(dirty)
}

/// A record that does not count changes no entry.
proof fn lemma_indexed_step(index: HashIndex, recs: Recs, order: Seq<int>, start: Span, n: int)
    requires
        indexed(index, recs, order, start, n),
        0 <= n < order.len(),
        !record::valid_of(recs[order[n]].word) || undone(recs[order[n]], order[n], start),
    ensures
        indexed(index, recs, order, start, n + 1),
{
    assert forall|b: int, t: u64| 0 <= b < index.bucket_count() implies #[trigger] index.lookup(b, t)
        == last_entry(index, recs, order, start, n + 1, b, t) by {
        assert(index.lookup(b, t) == last_entry(index, recs, order, start, n, b, t));
    }
}

/// Entries made so far are below the next record.
proof fn lemma_below(
    v: LogView,
    recs: Recs,
    order: Seq<int>,
    index: HashIndex,
    start: Span,
    n: int,
    b: int,
    t: u64,
)
    requires
        v.shape(),
        v.order(),
        chain::all_placed(v, recs),
        chain::tiled(v, recs, order),
        0 <= n < order.len(),
        index.inv(),
        indexed(index, recs, order, start, n),
        0 <= b < index.bucket_count(),
    ensures
        index.lookup(b, t) matches Some(x) ==> x < order[n],
        64 <= order[n] <= record::ADDRESS_MASK,
{
    v.lemma_tail();
    assert forall|k: int| 0 <= k < order.len() implies 64 <= (#[trigger] order[k]) <= record::ADDRESS_MASK by {
        assert(recs.dom().contains(order[k]));
        assert(chain::placed(v, order[k], recs[order[k]]));
        record::lemma_size_facts(recs[order[k]]);
    }
    assert(index.lookup(b, t) == last_entry(index, recs, order, start, n, b, t));
    lemma_last_entry(index, index, recs, order, start, n, b, t);
    if let Some(x) = index.lookup(b, t) {
        let k = choose|k: int| 0 <= k < n && (#[trigger] order[k]) == x;
        chain::lemma_sorted(v, recs, order, k, n);
        assert(recs.dom().contains(order[k]));
        assert(chain::placed(v, order[k], recs[order[k]]));
        record::lemma_size_facts(recs[order[k]]);
    }
}

proof fn lemma_indexed_insert(
    v: LogView,
    i0: HashIndex,
    i1: HashIndex,
    recs: Recs,
    order: Seq<int>,
    start: Span,
    n: int,
)
    requires
        v.shape(),
        v.order(),
        chain::all_placed(v, recs),
        chain::tiled(v, recs, order),
        0 <= n < order.len(),
        indexed(i0, recs, order, start, n),
        i1.same_shape(&i0),
        ({
            let h = hash::key_hash(recs[order[n]].key);
            &&& i1.lookup(i0.bucket_of(h), h >> 49) == Some(order[n] as u64)
            &&& i1.same_but(&i0, i0.bucket_of(h), h >> 49)
        }),
        record::valid_of(recs[order[n]].word),
        !undone(recs[order[n]], order[n], start),
    ensures
        indexed(i1, recs, order, start, n + 1),
{
    v.lemma_tail();
    assert forall|k: int| 0 <= k < order.len() implies 64 <= (#[trigger] order[k]) <= u64::MAX by {
        assert(recs.dom().contains(order[k]));
        assert(chain::placed(v, order[k], recs[order[k]]));
        record::lemma_size_facts(recs[order[k]]);
    }
    let h = hash::key_hash(recs[order[n]].key);
    assert(i1.bucket_of(h) == i0.bucket_of(h));
    assert forall|b: int, t: u64| 0 <= b < i1.bucket_count() implies #[trigger] i1.lookup(b, t) == last_entry(
        i1,
        recs,
        order,
        start,
        n + 1,
        b,
        t,
    ) by {
        lemma_last_entry(i0, i1, recs, order, start, n, b, t);
        if b != i0.bucket_of(h) || t != h >> 49 {
            assert(i1.lookup(b, t) == i0.lookup(b, t));
            assert(i0.lookup(b, t) == last_entry(i0, recs, order, start, n, b, t));
        }
    }
}

/// Writing the page back leaves the device with one more page recovered.
proof fn lemma_page_written(
    v: LogView,
    c: Seq<u8>,
    c2: Seq<u8>,
    recs: Recs,
    order: Seq<int>,
    start: Span,
    p: int,
    i: int,
    j: int,
    limit: int,
    b0: Seq<u8>,
    b1: Seq<u8>,
    dirty: bool,
)
    requires
        written(v, c, c2, recs, order, start, p, i, j, limit, b0, b1, dirty),
    ensures
        patched(v.content, c2, recs, recovered_below(recs, start, (p + 1) * v.psize)),
{
    let base = p * v.psize;
    let nxt = recovered_below(recs, start, (p + 1) * v.psize);
    crate::math::lemma_mul_le(0, p, v.psize);
    assert(c2.len() == c.len());
    assert forall|a: int| #[trigger] recs.dom().contains(a) implies c2.subrange(a, a + recs[a].size())
        == record::encode(nxt[a]) by {
        lemma_record_written(v, c, c2, recs, order, start, p, i, j, limit, b0, b1, dirty, a);
    }
    assert forall|x: int| 0 <= x < c2.len() && outside(recs, x) implies #[trigger] c2[x] == v.content[x] by {
        assert(c[x] == v.content[x]);
        if base <= x < base + limit {
            assert(outside(recs, base + (x - base)));
            assert(b1[x - base] == b0[x - base]);
        }
    }
}

spec fn written(
    v: LogView,
    c: Seq<u8>,
    c2: Seq<u8>,
    recs: Recs,
    order: Seq<int>,
    start: Span,
    p: int,
    i: int,
    j: int,
    limit: int,
    b0: Seq<u8>,
    b1: Seq<u8>,
    dirty: bool,
) -> bool {
    &&& v.shape()
    &&& v.order()
    &&& chain::all_placed(v, recs)
    &&& chain::tiled(v, recs, order)
    &&& scan::on_page(v, recs, order, p, i, j)
    &&& 0 <= p
    &&& v.tail() <= c.len()
    &&& patched(v.content, c, recs, recovered_below(recs, start, p * v.psize))
    &&& 0 < limit <= v.psize
    &&& p * v.psize + limit <= c.len()
    &&& b0 == c.subrange(p * v.psize, p * v.psize + limit) + bytes::zeros((v.psize - limit) as nat)
    &&& page_patched(b0, b1, recs, order, start, p * v.psize, i, j, j)
    &&& dirty ==> c2 == bytes::splice(c, p * v.psize, b1.subrange(0, limit))
    &&& !dirty ==> c2 == c
    &&& !dirty ==> forall|t: int|
        i <= t < j ==> recovered(recs[#[trigger] order[t]], order[t], start) == recs[order[t]]
    &&& forall|t: int|
        i <= t < j ==> 0 <= (#[trigger] order[t]) - p * v.psize && order[t] - p * v.psize
            + recs[order[t]].size() <= limit
}

#[verifier::spinoff_prover]
#[verifier::rlimit(40)]
proof fn lemma_record_written(
    v: LogView,
    c: Seq<u8>,
    c2: Seq<u8>,
    recs: Recs,
    order: Seq<int>,
    start: Span,
    p: int,
    i: int,
    j: int,
    limit: int,
    b0: Seq<u8>,
    b1: Seq<u8>,
    dirty: bool,
    a: int,
)
    requires
        written(v, c, c2, recs, order, start, p, i, j, limit, b0, b1, dirty),
        recs.dom().contains(a),
    ensures
        c2.subrange(a, a + recs[a].size()) == record::encode(
            recovered_below(recs, start, (p + 1) * v.psize)[a],
        ),
{
    let ps = v.psize;
    let base = p * ps;
    let cur = recovered_below(recs, start, base);
    let nxt = recovered_below(recs, start, (p + 1) * ps);
    crate::math::lemma_mul_add(p, 1, ps);
    crate::math::lemma_mul_le(0, p, ps);
    let t = lemma_sides(v, recs, order, p, i, j, a);
    assert(chain::placed(v, a, recs[a]));
    record::lemma_size_facts(recs[a]);
    assert(c.subrange(a, a + recs[a].size()) == record::encode(cur[a]));
    if i <= t < j {
        assert(order[t] == a);
        assert(nxt[a] == recovered(recs[a], a, start));
        if dirty {
            assert(c2.subrange(a, a + recs[a].size()) =~= b1.subrange(a - base, a - base + recs[a].size()));
        }
    } else {
        assert(nxt[a] == cur[a]);
        assert(c2.subrange(a, a + recs[a].size()) =~= c.subrange(a, a + recs[a].size()));
    }
}

/// The device of the store holds a log up to `f` that the index can be rebuilt
/// from.
pub open spec fn recoverable<D: Device>(o: &Store<D>, f: int, recs: Recs, order: Seq<int>) -> bool {
    is_log_image(o.log@, f, recs, order) && chains_closed(o.index, recs)
}

/// There is such a log on the device.
pub open spec fn has_log<D: Device>(o: &Store<D>, f: int) -> bool {
    exists|recs: Recs, order: Seq<int>| #[trigger] recoverable(o, f, recs, order)
}

/// The log on the device needs more entries than the overflow buckets of an index
/// can hold.
pub open spec fn crowded<D: Device>(o: &Store<D>, info: CheckpointInfo) -> bool {
    forall|recs: Recs, order: Seq<int>| #[trigger]
        recoverable(o, info.final_address as int, recs, order) ==> needed(
            o.index,
            recs,
            order,
            info.span(),
            order.len() as int,
        ) > 7 * o.index.arena()
}

/// The device holds what the metadata of a checkpoint describes.
pub open spec fn has_checkpoint<D: Device>(o: &Store<D>, info: CheckpointInfo) -> bool {
    &&& info.version < u64::MAX
    &&& has_log(o, info.final_address as int)
}

/// What recovery leaves: the records of the log as recovered, and an index with
/// the last one that counts for each bucket and tag, in no more space than that
/// takes.
pub open spec fn is_recovered<D: Device>(
    o: &Store<D>,
    n: &Store<D>,
    info: CheckpointInfo,
    recs: Recs,
    order: Seq<int>,
) -> bool {
    &&& n.recs@ == recovered_below(recs, info.span(), info.final_address as int)
    &&& n.order@ == order
    &&& n.floor == FIRST_VALID_ADDRESS
    &&& n.index.same_shape(&o.index)
    &&& forall|b: int, t: u64|
        0 <= b < n.index.bucket_count() ==> #[trigger] n.index.lookup(b, t) == last_entry(
            n.index,
            recs,
            order,
            info.span(),
            order.len() as int,
            b,
            t,
        )
    &&& n.index.compact()
    &&& n.index.worth() == 7 * o.index.arena() + 7 * o.index.bucket_count() - needed(
        o.index,
        recs,
        order,
        info.span(),
        order.len() as int,
    )
}

/// A gap between records is still blank once they are recovered.
proof fn lemma_gap(v: LogView, n: LogView, recs: Recs, order: Seq<int>, cur: Recs, i: int)
    requires
        v.shape(),
        v.order(),
        chain::all_placed(v, recs),
        chain::tiled(v, recs, order),
        v.flushed == v.tail(),
        n == (LogView { pages: n.pages, content: n.content, durable: n.durable, ..v }),
        n.page(n.tail_page) == bytes::zeros(v.psize as nat),
        patched(v.content, n.content, recs, cur),
        0 <= i < order.len(),
        v.head == v.tail(),
    ensures
        ({
            let a = order[i];
            let e = a + recs[a].size();
            chain::blank(v, e, chain::page_after(v, a)) && (i + 1 < order.len() ==> order[i + 1]
                == chain::page_after(v, a) + 64) ==> chain::blank(n, e, chain::page_after(v, a))
        }),
{
    let a = order[i];
    let e = a + recs[a].size();
    let hi = chain::page_after(v, a);
    assert(recs.dom().contains(order[i]));
    assert(chain::placed(v, a, recs[a]));
    record::lemma_size_facts(recs[a]);
    chain::lemma_page_after(v, a, recs[a]);
    v.lemma_tail();
    if chain::blank(v, e, hi) && (i + 1 < order.len() ==> order[i + 1] == hi + 64) {
        assert forall|x: int| e <= x < hi && x < n.flushed implies #[trigger] n.content[x] == 0 by {
            assert(outside(recs, x)) by {
                assert forall|b: int| #[trigger] recs.dom().contains(b) implies !(b <= x < b
                    + recs[b].size()) by {
                    assert(order.contains(b));
                    let t = choose|t: int| 0 <= t < order.len() && order[t] == b;
                    if t < i {
                        chain::lemma_sorted(v, recs, order, t, i);
                    } else if t > i {
                        if t > i + 1 {
                            chain::lemma_sorted(v, recs, order, i + 1, t);
                            assert(recs.dom().contains(order[i + 1]));
                            assert(chain::placed(v, order[i + 1], recs[order[i + 1]]));
                            record::lemma_size_facts(recs[order[i + 1]]);
                        }
                    }
                }
            }
            assert(v.content[x] == 0);
            assert(n.content[x] == v.content[x]);
        }
        assert forall|x: int| e <= x < hi && x >= n.head implies #[trigger] n.mem(x) == 0 by {
            crate::math::lemma_div(a, v.psize);
            crate::math::lemma_page_bounds(a, 0, v.tail_page + 1, v.psize);
            crate::math::lemma_mul_le(a / v.psize + 1, v.tail_page + 1, v.psize);
            if v.tail_off == v.psize {
                assert(false);
            }
            crate::math::lemma_page_bounds(x, v.tail_page, v.tail_page + 1, v.psize);
            crate::math::lemma_div(x, v.psize);
        }
    }
}

/// The recovered records stand in the log.
proof fn lemma_recovered_log(
    v: LogView,
    n: LogView,
    recs: Recs,
    order: Seq<int>,
    start: Span,
)
    requires
        v.shape(),
        v.order(),
        n.shape(),
        n.order(),
        chain::all_placed(v, recs),
        chain::tiled(v, recs, order),
        chain::tight(v, recs, order),
        v.flushed == v.tail(),
        v.head == v.tail(),
        n == (LogView { pages: n.pages, content: n.content, durable: n.durable, ..v }),
        n.page(n.tail_page) == bytes::zeros(v.psize as nat),
        patched(v.content, n.content, recs, recovered_below(recs, start, v.tail())),
    ensures
        chain::all_placed(n, recovered_below(recs, start, v.tail())),
        chain::tiled(n, recovered_below(recs, start, v.tail()), order),
        chain::tight(n, recovered_below(recs, start, v.tail()), order),
{
    let f = v.tail();
    let cur = recovered_below(recs, start, f);
    assert forall|a: int| #[trigger] recs.dom().contains(a) implies cur[a] == recovered(recs[a], a, start)
        && cur[a].size() == recs[a].size() && a < f && recs[a].wf() && chain::placed(n, a, cur[a]) by {
        assert(chain::placed(v, a, recs[a]));
        record::lemma_size_facts(recs[a]);
        lemma_recovered(recs[a], a, start);
        assert(n.content.subrange(a, a + recs[a].size()) == record::encode(cur[a]));
        v.lemma_tail();
        assert(f > 64);
    }
    assert forall|a: int| #[trigger] cur.dom().contains(a) implies chain::placed(n, a, cur[a]) by {
        assert(recs.dom().contains(a));
    }
    assert forall|i: int| 0 <= i < order.len() implies #[trigger] chain::followed_at(n, cur, order, i) by {
        assert(chain::followed_at(v, recs, order, i));
        assert(recs.dom().contains(order[i]));
        lemma_gap(v, n, recs, order, cur, i);
        assert(chain::page_after(n, order[i]) == chain::page_after(v, order[i]));
    }
    assert forall|a: int| #[trigger] cur.dom().contains(a) implies order.contains(a) by {
        assert(recs.dom().contains(a));
    }
    assert forall|i: int| 0 <= i < order.len() implies cur.dom().contains(#[trigger] order[i]) by {
        assert(recs.dom().contains(order[i]));
    }
    if order.len() > 0 {
        assert(recs.dom().contains(order[order.len() - 1]));
    } else {
        assert(chain::blank(n, 64, n.psize)) by {
            assert forall|x: int| 64 <= x < n.psize && x >= n.head implies #[trigger] n.mem(x) == 0 by {
                crate::math::lemma_mul_add(0, 1, v.psize);
                crate::math::lemma_page_bounds(x, 0, 1, v.psize);
                crate::math::lemma_div(x, v.psize);
            }
        }
    }
}

/// The rebuilt index fits the recovered records.
proof fn lemma_recovered_index<D: Device>(
    v: LogView,
    index: HashIndex,
    recs: Recs,
    order: Seq<int>,
    start: Span,
)
    requires
        v.shape(),
        v.order(),
        chain::all_placed(v, recs),
        chain::tiled(v, recs, order),
        index.inv(),
        chains_closed(index, recs),
        indexed(index, recs, order, start, order.len() as int),
    ensures
        chain::chains_ok(index, recovered_below(recs, start, v.tail())),
        chain::newest_open(index, recovered_below(recs, start, v.tail())),
{
    let cur = recovered_below(recs, start, v.tail());
    v.lemma_tail();
    assert forall|a: int| #[trigger] recs.dom().contains(a) implies cur[a] == recovered(recs[a], a, start)
        && cur[a].key == recs[a].key && chain::prev(cur, a) == chain::prev(recs, a) && (record::valid_of(
        cur[a].word,
    ) ==> !record::sealed_of(cur[a].word)) && 64 <= a <= u64::MAX by {
        assert(chain::placed(v, a, recs[a]));
        record::lemma_size_facts(recs[a]);
        lemma_recovered(recs[a], a, start);
    }
    assert forall|a: int| #[trigger] cur.dom().contains(a) implies chain::prev(cur, a) < a && (chain::prev(
        cur,
        a,
    ) >= 64 ==> cur.dom().contains(chain::prev(cur, a)) && chain::same_chain(
        index,
        cur[chain::prev(cur, a)].key,
        cur[a].key,
    )) by {
        assert(recs.dom().contains(a));
        let p = chain::prev(recs, a);
        if p >= 64 {
            assert(recs.dom().contains(p));
        }
    }
    assert forall|b: int, t: u64| 0 <= b < index.bucket_count() implies chain::entry_ok(
        index,
        cur,
        b,
        t,
        #[trigger] index.lookup(b, t),
    ) by {
        assert(index.lookup(b, t) == last_entry(index, recs, order, start, order.len() as int, b, t));
        assert forall|k: int| 0 <= k < order.len() implies 64 <= (#[trigger] order[k]) <= u64::MAX by {
            assert(recs.dom().contains(order[k]));
        }
        lemma_last_entry(index, index, recs, order, start, order.len() as int, b, t);
        if let Some(x) = index.lookup(b, t) {
            let k = choose|k: int| 0 <= k < order.len() && (#[trigger] order[k]) == x && index.bucket_of(
                hash::key_hash(recs[order[k]].key),
            ) == b && hash::key_hash(recs[order[k]].key) >> 49 == t;
            assert(recs.dom().contains(order[k]));
        }
    }
    assert forall|key: Seq<u8>| (#[trigger] chain::newest(index, cur, key)) is Some implies !record::sealed_of(
        cur[chain::newest(index, cur, key).unwrap()].word,
    ) by {
        chain::lemma_find(cur, chain::chain_head(index, key), key);
        assert(recs.dom().contains(chain::newest(index, cur, key).unwrap()));
    }
}

impl<D: Device> Store<D> {
    /// Rebuild an empty store from a checkpoint on the (already attached)
    /// device, if the device holds the log that the checkpoint describes.
    pub fn recover(&mut self, info: &CheckpointInfo) -> (r: Result<(), CheckpointError>)
        requires
            old(self).index.inv(),
            old(self).log.inv(),
            old(self).log@.pending.len() == 0,
        ensures
            r is Ok ==> {
                &&& has_checkpoint(old(self), *info)
                &&& final(self).inv()
                &&& final(self).state_word == (SystemState {
                    phase: Phase::Rest,
                    version: (info.version + 1) as u64,
                }).packed()
                &&& final(self).checkpoint_start == u64::MAX
                &&& final(self).next_thread == old(self).next_thread
                &&& final(self).index.latches_free()
                &&& final(self).log@.settled()
                &&& final(self).log@.tail() == info.final_address
                &&& final(self).log@.slots == old(self).log@.slots
                &&& final(self).log@.epoch == old(self).log@.epoch
                &&& final(self).log@.dependable == old(self).log@.dependable
                &&& final(self).log@.psize == old(self).log@.psize
                &&& forall|recs: Recs, order: Seq<int>| #[trigger]
                    recoverable(old(self), info.final_address as int, recs, order) ==> is_recovered(
                        old(self),
                        final(self),
                        *info,
                        recs,
                        order,
                    )
            },
            r matches Err(e) ==> {
                ||| e is NoLog && !has_checkpoint(old(self), *info) && *final(self) == *old(self)
                ||| e is IndexFull && has_checkpoint(old(self), *info) && crowded(old(self), *info)
                ||| e is Device && (old(self).log@.dependable < info.final_address || old(
                    self,
                ).log@.content.len() < info.final_address)
            },
    {
        if info.version == u64::MAX {
            return Err(CheckpointError::NoLog);
        }
        match self.holds_log(info.final_address) {
            Ok(true) => self.rebuild(info),
            Ok(false) => Err(CheckpointError::NoLog),
            Err(e) => Err(CheckpointError::Device(e)),
        }
    }

    /// Reset the log so everything is on disk, then scan `[begin, final)`
    /// inserting records; undo v+1 records in the fuzzy region by marking them
    /// invalid on disk.
    fn rebuild(&mut self, info: &CheckpointInfo) -> (r: Result<(), CheckpointError>)
        requires
            old(self).index.inv(),
            old(self).log.inv(),
            old(self).log@.pending.len() == 0,
            has_checkpoint(old(self), *info),
        ensures
            r is Ok ==> {
                &&& final(self).inv()
                &&& final(self).state_word == (SystemState {
                    phase: Phase::Rest,
                    version: (info.version + 1) as u64,
                }).packed()
                &&& final(self).checkpoint_start == u64::MAX
                &&& final(self).next_thread == old(self).next_thread
                &&& final(self).index.latches_free()
                &&& final(self).log@.settled()
                &&& final(self).log@.tail() == info.final_address
                &&& final(self).log@.slots == old(self).log@.slots
                &&& final(self).log@.epoch == old(self).log@.epoch
                &&& final(self).log@.dependable == old(self).log@.dependable
                &&& final(self).log@.psize == old(self).log@.psize
                &&& forall|recs: Recs, order: Seq<int>| #[trigger]
                    recoverable(old(self), info.final_address as int, recs, order) ==> is_recovered(
                        old(self),
                        final(self),
                        *info,
                        recs,
                        order,
                    )
            },
            r matches Err(e) ==> (e is IndexFull && crowded(old(self), *info)) || (
            e is Device && (old(self).log@.dependable < info.final_address || old(self).log@.content.len()
                < info.final_address)),
    {
        let ghost o0 = *self;
        let ghost f = info.final_address as int;
        let ghost st = info.span();
        let ghost (recs, order) = choose|recs: Recs, order: Seq<int>| #[trigger]
            recoverable(&o0, f, recs, order);
        proof {
            crate::math::lemma_div(f, o0.log@.psize);
        }
        self.index.clear();
        proof {
            self.index.lemma_worth();
        }
        self.log.recover_addresses(FIRST_VALID_ADDRESS, info.final_address);
        self.floor = FIRST_VALID_ADDRESS;
        self.set_system_state(SystemState { phase: Phase::Rest, version: info.version + 1 });
        self.set_checkpoint_start_address(u64::MAX);
        let ghost o = *self;
        let ghost v = cold(o0.log@, f);
        proof {
            assert(v =~= LogView { pages: v.pages, ..o.log@ });
            assert(v.shape()) by {
                assert forall|s: int| 0 <= s < v.bsize implies (#[trigger] v.pages[s]).len() == v.psize by {}
            }
            assert(v.order());
            v.lemma_tail();
            assert(patched(v.content, o.log@.content, recs, recovered_below(recs, st, 0))) by {
                assert forall|a: int| #[trigger] recs.dom().contains(a) implies o.log@.content.subrange(
                    a,
                    a + recs[a].size(),
                ) == record::encode(recovered_below(recs, st, 0)[a]) by {
                    assert(chain::placed(v, a, recs[a]));
                }
            }
            crate::math::lemma_mul_add(0, 0, v.psize);
            if order.len() == 0 {
                assert(recs.dom() =~= Set::empty()) by {
                    assert forall|a: int| recs.dom().contains(a) implies false by {
                        assert(order.contains(a));
                    }
                }
            }
        }
        let ps: u64 = self.log.page_size() as u64;
        let mut page: u64 = 0;
        let mut page_start: u64 = 0;
        let ghost mut i: int = 0;
        while page_start < info.final_address
            invariant
                f == info.final_address,
                st == info.span(),
                ps == v.psize,
                page_start == page * ps,
                recovering(&o, self, v, recs, order, st, page as int, i),
                chain::tight(v, recs, order),
                v.tail() == f,
                f <= (v.tail_page + 1) * v.psize <= log::ADDRESS_LIMIT,
                o.log@.dependable == o0.log@.dependable,
                o.log@.content == o0.log@.content,
                o.log@.flushed == f,
                i == order.len() || order[i] == page * v.psize + 64,
                order.len() == 0 ==> recs.dom() =~= Set::empty() && v.tail() == 64 && v.tail_page == 0 && page
                    <= 1,
                order.len() > 0 && i == order.len() ==> page == v.tail_page + 1,
                o0 == *old(self),
                recoverable(&o0, f, recs, order),
                v == cold(o0.log@, f),
                o.index.same_shape(&o0.index),
                o.index.worth() == 7 * o0.index.arena() + 7 * o.index.bucket_count(),
            decreases
                    if f > page_start {
                        f - page_start
                    } else {
                        0
                    },
        {
            let page_end: u64 = if page_start + ps > info.final_address {
                info.final_address
            } else {
                page_start + ps
            };
            let limit: usize = (page_end - page_start) as usize;
            let ghost mut j: int = i;
            proof {
                crate::math::lemma_mul_add(page as int, 1, v.psize);
                crate::math::lemma_page_bounds(page_start as int, 0, v.tail_page + 1, v.psize);
                crate::math::lemma_split(page as int, 0, v.psize);
                if order.len() > 0 {
                    if i == order.len() {
                        assert(false);
                    }
                    assert(recs.dom().contains(order[i]));
                    assert(chain::placed(v, order[i], recs[order[i]]));
                    record::lemma_size_facts(recs[order[i]]);
                    crate::math::lemma_split(page as int, 64, v.psize);
                    j = scan::lemma_page_end(v, recs, order, page as int, i, i);
                } else {
                    crate::math::lemma_mul_add(0, 1, v.psize);
                    if page == 1 {
                        assert(false);
                    }
                }
            }
            match self.recover_page(
                page,
                limit,
                info.begin_address,
                info.start_address,
                Ghost(o),
                Ghost(v),
                Ghost(recs),
                Ghost(order),
                Ghost(i),
                Ghost(j),
            ) {
                Ok(()) => {},
                Err(e) => {
                    proof {
                        if e is IndexFull {
                            self.index.lemma_worth();
                            lemma_order_bounds(v, recs, order);
                            lemma_needed_same(
                                o0.index,
                                o.index,
                                recs,
                                order,
                                st,
                                order.len() as int,
                            );
                            assert forall|recs2: Recs, order2: Seq<int>| #[trigger]
                                recoverable(&o0, f, recs2, order2) implies needed(
                                o0.index,
                                recs2,
                                order2,
                                st,
                                order2.len() as int,
                            ) > 7 * o0.index.arena() by {
                                lemma_unique_image(v, recs, order, recs2, order2);
                            }
                        }
                    }
                    return Err(e);
                },
            }
            proof {
                if order.len() > 0 && j == order.len() {
                    let last = order[j - 1];
                    assert(last == order.last());
                    crate::math::lemma_page_bounds(last, page as int, page + 1, v.psize);
                }
                i = j;
            }
            page_start = page_start + ps;
            page = page + 1;
        }
        proof {
            if i < order.len() {
                assert(recs.dom().contains(order[i]));
                assert(chain::placed(v, order[i], recs[order[i]]));
                record::lemma_size_facts(recs[order[i]]);
                assert(false);
            }
            let all = recovered_below(recs, st, f);
            let upto = recovered_below(recs, st, page * v.psize);
            assert(upto =~= all) by {
                assert forall|a: int| #[trigger] recs.dom().contains(a) implies a < f by {
                    assert(chain::placed(v, a, recs[a]));
                    record::lemma_size_facts(recs[a]);
                }
            }
            lemma_recovered_log(v, self.log@, recs, order, st);
            assert(chains_closed(self.index, recs)) by {
                assert forall|a: int| #[trigger] recs.dom().contains(a) implies chain::prev(recs, a) < a && (
                chain::prev(recs, a) >= 64 ==> recs.dom().contains(chain::prev(recs, a)) && chain::same_chain(
                    self.index,
                    recs[chain::prev(recs, a)].key,
                    recs[a].key,
                )) by {
                    let h1 = hash::key_hash(recs[chain::prev(recs, a)].key);
                    let h2 = hash::key_hash(recs[a].key);
                    assert(self.index.bucket_of(h1) == o.index.bucket_of(h1));
                    assert(o.index.bucket_of(h1) == o0.index.bucket_of(h1));
                    assert(self.index.bucket_of(h2) == o.index.bucket_of(h2));
                    assert(o.index.bucket_of(h2) == o0.index.bucket_of(h2));
                }
            }
            lemma_recovered_index::<D>(v, self.index, recs, order, st);
            self.recs@ = all;
            self.order@ = order;
        }
        proof {
            lemma_order_bounds(v, recs, order);
            lemma_needed_same(o0.index, o.index, recs, order, st, order.len() as int);
            assert forall|recs2: Recs, order2: Seq<int>| #[trigger]
                recoverable(&o0, f, recs2, order2) implies is_recovered(&o0, self, *info, recs2, order2) by {
                lemma_unique_image(v, recs, order, recs2, order2);
                assert(self.index.same_shape(&o0.index)) by {
                    assert forall|h: u64| #[trigger] self.index.bucket_of(h) == o0.index.bucket_of(h) by {
                        assert(self.index.bucket_of(h) == o.index.bucket_of(h));
                    }
                }
            }
        }
        Ok(())
    }
}

/// A device holds one log only.
proof fn lemma_unique_image(v: LogView, r1: Recs, o1: Seq<int>, r2: Recs, o2: Seq<int>)
    requires
        v.shape(),
        v.order(),
        chain::all_placed(v, r1),
        chain::tiled(v, r1, o1),
        chain::tight(v, r1, o1),
        chain::all_placed(v, r2),
        chain::tiled(v, r2, o2),
        chain::tight(v, r2, o2),
        forall|a: int| #[trigger] r1.dom().contains(a) ==> v.content.subrange(a, a + r1[a].size())
            == record::encode(r1[a]),
        forall|a: int| #[trigger] r2.dom().contains(a) ==> v.content.subrange(a, a + r2[a].size())
            == record::encode(r2[a]),
        v.flushed == v.tail(),
    ensures
        r1 == r2,
        o1 == o2,
{
    scan::lemma_full_scan(v, r1, o1);
    scan::lemma_full_scan(v, r2, o2);
    let l = v.full_scan(64, v.tail());
    assert forall|t: int| 0 <= t < l.len() implies o1[t] == o2[t] by {
        assert(l[t].0 == o1[0 + t] - 0);
        assert(l[t].0 == o2[0 + t] - 0);
    }
    assert(o1 =~= o2);
    assert forall|a: int| r1.dom().contains(a) == r2.dom().contains(a) by {
        if r1.dom().contains(a) {
            assert(o1.contains(a));
            let t = choose|t: int| 0 <= t < o1.len() && o1[t] == a;
            assert(r2.dom().contains(o2[t]));
        }
        if r2.dom().contains(a) {
            assert(o2.contains(a));
            let t = choose|t: int| 0 <= t < o2.len() && o2[t] == a;
            assert(r1.dom().contains(o1[t]));
        }
    }
    assert forall|a: int| r1.dom().contains(a) implies r1[a] == r2[a] by {
        assert(r2.dom().contains(a));
        assert(chain::placed(v, a, r1[a]) && chain::placed(v, a, r2[a]));
        record::lemma_size_facts(r1[a]);
        record::lemma_size_facts(r2[a]);
        v.lemma_tail();
        let s = v.content.subrange(a, v.flushed);
        assert(s.subrange(0, r1[a].size()) =~= v.content.subrange(a, a + r1[a].size()));
        assert(s.subrange(0, r2[a].size()) =~= v.content.subrange(a, a + r2[a].size()));
        record::lemma_decode_encode(r1[a], s);
        record::lemma_decode_encode(r2[a], s);
    }
    assert(r1 =~= r2);
}

// ---------------------------------------------------------------------------
// What recovery gives back of a checkpoint
// ---------------------------------------------------------------------------

/// The records of a store as they stand on the device.
pub open spec fn disk_recs<D: Device>(n: &Store<D>) -> Recs {
    Map::new(
        |a: int| n.recs@.dom().contains(a),
        |a: int|
            {
                let r = n.recs@[a];
                if n.log@.content.subrange(a, a + r.size()) == record::encode(r) {
                    r
                } else {
                    r.with_word(r.word & !SEALED_BIT)
                }
            },
    )
}

/// `m` is a store with the layout of `n` on a device that holds everything `n`
/// had flushed.
pub open spec fn holds_image<D: Device>(n: &Store<D>, m: &Store<D>) -> bool {
    &&& m.log@.psize == n.log@.psize
    &&& m.log@.bsize >= 2
    &&& m.index.same_shape(&n.index)
    &&& m.log@.content.len() >= n.log@.flushed || n.log@.flushed <= FIRST_VALID_ADDRESS
    &&& forall|i: int| 0 <= i < n.log@.flushed && i < n.log@.content.len()
        ==> #[trigger] m.log@.content[i] == n.log@.content[i]
}

proof fn lemma_disk_rec<D: Device>(n: &Store<D>, a: int)
    requires
        n.inv(),
        n.log@.flushed == n.log@.tail(),
        n.recs@.dom().contains(a),
    ensures
        ({
            let r = n.recs@[a];
            let d = disk_recs(n)[a];
            &&& d.wf()
            &&& d.size() == r.size()
            &&& d.key == r.key
            &&& same_body(d, r)
            &&& chain::marked(d.word)
            &&& record::prev_of(d.word) == record::prev_of(r.word)
            &&& record::valid_of(d.word) == record::valid_of(r.word)
            &&& record::new_version_of(d.word) == record::new_version_of(r.word)
            &&& record::tombstone_of(d.word) == record::tombstone_of(r.word)
            &&& n.log@.content.subrange(a, a + r.size()) == record::encode(d)
            &&& a + r.size() <= n.log@.flushed <= n.log@.content.len()
            &&& 24 <= r.size()
            &&& 64 <= a
        }),
{
    let r = n.recs@[a];
    assert(chain::placed(n.log@, a, r));
    record::lemma_size_facts(r);
    record::lemma_word_bits(r.word, 0);
    n.log@.lemma_tail();
}

/// Same record but for the header word.
pub open spec fn same_body(d: RecordView, r: RecordView) -> bool {
    crate::callbacks::body(d) == crate::callbacks::body(r)
}

/// A log that is flushed up to its tail can be recovered from: what a
/// checkpoint leaves on the device is a log image with closed chains, on any
/// device that still holds those bytes.
pub proof fn checkpoint_is_recoverable<D: Device>(n: &Store<D>, m: &Store<D>)
    requires
        n.inv(),
        n.log@.flushed == n.log@.tail(),
        (n.log@.tail_page + 2) * n.log@.psize <= log::ADDRESS_LIMIT,
        holds_image(n, m),
    ensures
        recoverable(m, n.log@.tail(), disk_recs(n), n.order@),
{
    let v = n.log@;
    let f = v.tail();
    let w = cold(m.log@, f);
    let recs = n.recs@;
    let disk = disk_recs(n);
    let order = n.order@;
    let ps = v.psize;
    v.lemma_tail();
    crate::math::lemma_mul_add(v.tail_page, 1, ps);
    crate::math::lemma_mul_add(v.tail_page + 1, 1, ps);
    if v.tail_off == ps {
        crate::math::lemma_split(v.tail_page + 1, 0, ps);
    } else {
        crate::math::lemma_split(v.tail_page, v.tail_off, ps);
    }
    assert(w.tail_page == v.tail_page && w.tail_off == v.tail_off);
    assert(f % 8 == 0) by {
        lemma_aligned(v.tail_page, v.tail_off, ps);
    }
    assert forall|a: int| #[trigger] disk.dom().contains(a) implies chain::placed(w, a, disk[a])
        && m.log@.content.subrange(a, a + disk[a].size()) == record::encode(disk[a]) by {
        assert(recs.dom().contains(a));
        lemma_disk_rec(n, a);
        assert(chain::placed(v, a, recs[a]));
        assert(m.log@.content.subrange(a, a + disk[a].size()) =~= v.content.subrange(a, a + disk[a].size()));
    }
    assert forall|i: int| 0 <= i < order.len() implies #[trigger] chain::followed_at(w, disk, order, i) by {
        assert(chain::followed_at(v, recs, order, i));
        assert(recs.dom().contains(order[i]));
        lemma_disk_rec(n, order[i]);
        let a = order[i];
        let e = a + recs[a].size();
        let hi = chain::page_after(v, a);
        assert(chain::page_after(w, a) == hi);
        if chain::blank(v, e, hi) {
            lemma_cold_blank(v, w, m.log@, e, hi);
        }
    }
    assert forall|i: int| 0 <= i < order.len() implies disk.dom().contains(#[trigger] order[i]) by {
        assert(recs.dom().contains(order[i]));
    }
    assert forall|a: int| #[trigger] disk.dom().contains(a) implies order.contains(a) by {
        assert(recs.dom().contains(a));
    }
    if order.len() == 0 {
        crate::math::lemma_mul_add(0, 1, ps);
        lemma_cold_blank(v, w, m.log@, 64, ps);
    } else {
        assert(recs.dom().contains(order[order.len() - 1]));
        lemma_disk_rec(n, order[order.len() - 1]);
    }
    assert forall|a: int| #[trigger] disk.dom().contains(a) implies chain::prev(disk, a) < a && (chain::prev(
        disk,
        a,
    ) >= 64 ==> disk.dom().contains(chain::prev(disk, a)) && chain::same_chain(
        m.index,
        disk[chain::prev(disk, a)].key,
        disk[a].key,
    )) by {
        assert(recs.dom().contains(a));
        lemma_disk_rec(n, a);
        let p = chain::prev(recs, a);
        if p >= 64 {
            assert(recs.dom().contains(p));
            lemma_disk_rec(n, p);
            let h1 = hash::key_hash(recs[p].key);
            let h2 = hash::key_hash(recs[a].key);
            assert(m.index.bucket_of(h1) == n.index.bucket_of(h1));
            assert(m.index.bucket_of(h2) == n.index.bucket_of(h2));
        }
    }
}

proof fn lemma_aligned(page: int, off: int, ps: int)
    requires
        ps % 8 == 0,
        off % 8 == 0,
    ensures
        (page * ps + off) % 8 == 0,
{
    let k = ps / 8;
    assert(page * ps == (page * k) * 8) by (nonlinear_arith)
        requires
            ps == k * 8,
    ;
}

proof fn lemma_cold_blank(v: LogView, w: LogView, m: LogView, lo: int, hi: int)
    requires
        chain::blank(v, lo, hi),
        w == cold(m, v.tail()),
        v.flushed == v.tail(),
        v.psize == m.psize,
        v.psize > 0,
        m.bsize >= 2,
        0 <= lo,
        v.flushed > FIRST_VALID_ADDRESS ==> v.content.len() >= v.flushed,
        lo >= 64,
        forall|i: int| 0 <= i < v.flushed && i < v.content.len()
            ==> #[trigger] m.content[i] == v.content[i],
    ensures
        chain::blank(w, lo, hi),
{
    assert forall|x: int| lo <= x < hi && x >= w.head implies #[trigger] w.mem(x) == 0 by {
        crate::math::lemma_div(x, v.psize);
        crate::math::lemma_div(x / v.psize, m.bsize);
    }
    assert forall|x: int| lo <= x < hi && x < w.flushed implies #[trigger] w.content[x] == 0 by {
        assert(v.content[x] == 0);
        assert(m.content[x] == v.content[x]);
    }
}

/// The last entry of a chain is at or above each record that counts.
proof fn lemma_last_is_above(
    index: HashIndex,
    recs: Recs,
    order: Seq<int>,
    start: Span,
    n: int,
    k: int,
)
    requires
        forall|i: int, j: int| 0 <= i < j < order.len() ==> (#[trigger] order[i]) < (#[trigger] order[j]),
        forall|i: int| 0 <= i < order.len() ==> 0 <= (#[trigger] order[i]) <= u64::MAX,
        0 <= k < n <= order.len(),
        record::valid_of(recs[order[k]].word),
        !undone(recs[order[k]], order[k], start),
    ensures
        ({
            let h = hash::key_hash(recs[order[k]].key);
            last_entry(index, recs, order, start, n, index.bucket_of(h), h >> 49) matches Some(x) && x
                >= order[k]
        }),
    decreases n,
{
    if k < n - 1 {
        lemma_last_is_above(index, recs, order, start, n - 1, k);
        assert(order[k] < order[n - 1]);
    }
}

/// The recovered records are those of the store, but for seals.
spec fn same_records<D: Device>(n: &Store<D>, m: &Store<D>) -> bool {
    &&& forall|a: int| #[trigger]
        n.recs@.dom().contains(a) ==> m.recs@.dom().contains(a) && m.recs@[a].key == n.recs@[a].key
            && record::prev_of(m.recs@[a].word) == record::prev_of(n.recs@[a].word) && record::valid_of(
            m.recs@[a].word,
        ) == (record::valid_of(n.recs@[a].word) && a >= n.floor) && record::tombstone_of(m.recs@[a].word)
            == record::tombstone_of(n.recs@[a].word) && same_body(m.recs@[a], n.recs@[a])
            && 64 <= a
    &&& forall|a: int| #[trigger] m.recs@.dom().contains(a) ==> n.recs@.dom().contains(a)
    &&& forall|h: u64| #[trigger] m.index.bucket_of(h) == n.index.bucket_of(h)
}

proof fn lemma_same_records<D: Device>(n: &Store<D>, m0: &Store<D>, m: &Store<D>, info: CheckpointInfo)
    requires
        n.inv(),
        n.log@.flushed == n.log@.tail(),
        holds_image(n, m0),
        info.begin_address == n.floor,
        info.start_address == n.log@.tail(),
        info.final_address == n.log@.tail(),
        is_recovered(m0, m, info, disk_recs(n), n.order@),
    ensures
        same_records(n, m),
        forall|a: int| #[trigger]
            n.recs@.dom().contains(a) ==> record::valid_of(n.recs@[a].word) && a >= n.floor ==> !undone(
                disk_recs(n)[a],
                a,
                info.span(),
            ),
{
    let f = n.log@.tail();
    let recs = n.recs@;
    let disk = disk_recs(n);
    assert forall|h: u64| #[trigger] m.index.bucket_of(h) == n.index.bucket_of(h) by {
        assert(m.index.bucket_of(h) == m0.index.bucket_of(h));
        assert(m0.index.bucket_of(h) == n.index.bucket_of(h));
    }
    assert forall|a: int| #[trigger] recs.dom().contains(a) implies m.recs@.dom().contains(a) && m.recs@[a].key
        == recs[a].key && record::prev_of(m.recs@[a].word) == record::prev_of(recs[a].word)
        && record::valid_of(m.recs@[a].word) == (record::valid_of(recs[a].word) && a >= n.floor)
        && record::tombstone_of(m.recs@[a].word) == record::tombstone_of(recs[a].word) && same_body(
        m.recs@[a],
        recs[a],
    ) && 64 <= a && (record::valid_of(recs[a].word) && a >= n.floor ==> !undone(
        disk[a],
        a,
        info.span(),
    )) by {
        lemma_disk_rec(n, a);
        lemma_recovered(disk[a], a, info.span());
        assert(disk.dom().contains(a));
        assert(m.recs@[a] == recovered(disk[a], a, info.span()));
    }
}

proof fn lemma_recovered_whole<D: Device>(n: &Store<D>, m0: &Store<D>, m: &Store<D>, info: CheckpointInfo)
    requires
        n.inv(),
        n.whole(),
        n.log@.flushed == n.log@.tail(),
        holds_image(n, m0),
        info.begin_address == n.floor,
        info.start_address == n.log@.tail(),
        info.final_address == n.log@.tail(),
        m.inv(),
        is_recovered(m0, m, info, disk_recs(n), n.order@),
    ensures
        m.whole(),
{
    reveal(Store::whole);
    let f = n.log@.tail();
    let recs = n.recs@;
    let disk = disk_recs(n);
    let order = n.order@;
    lemma_same_records(n, m0, m, info);
    m.index.lemma_buckets();
    assert forall|x: int, y: int|
        #![trigger m.recs@.dom().contains(x), m.recs@.dom().contains(y)]
        m.recs@.dom().contains(x) && m.recs@.dom().contains(y) && x < y && record::valid_of(
            m.recs@[x].word,
        ) && chain::same_chain(m.index, m.recs@[x].key, m.recs@[y].key) implies x <= chain::prev(m.recs@, y) by {
        assert(recs.dom().contains(x) && recs.dom().contains(y));
        assert(chain::same_chain(n.index, recs[x].key, recs[y].key)) by {
            let h1 = hash::key_hash(recs[x].key);
            let h2 = hash::key_hash(recs[y].key);
            assert(m.index.bucket_of(h1) == n.index.bucket_of(h1));
            assert(m.index.bucket_of(h2) == n.index.bucket_of(h2));
        }
    }
    n.log@.lemma_tail();
    assert forall|i: int, j: int| 0 <= i < j < order.len() implies (#[trigger] order[i]) < (#[trigger] order[j]) by {
        chain::lemma_sorted(n.log@, recs, order, i, j);
        assert(recs.dom().contains(order[i]));
        lemma_disk_rec(n, order[i]);
    }
    assert forall|i: int| 0 <= i < order.len() implies 0 <= (#[trigger] order[i]) <= u64::MAX by {
        assert(recs.dom().contains(order[i]));
        lemma_disk_rec(n, order[i]);
    }
    assert forall|x: int| #[trigger]
        m.recs@.dom().contains(x) && record::valid_of(m.recs@[x].word) implies x <= chain::chain_head(
        m.index,
        m.recs@[x].key,
    ) by {
        assert(recs.dom().contains(x));
        lemma_disk_rec(n, x);
        assert(order.contains(x));
        let k = choose|k: int| 0 <= k < order.len() && order[k] == x;
        lemma_last_is_above(m.index, disk, order, info.span(), order.len() as int, k);
        let h = hash::key_hash(disk[x].key);
        assert(0 <= m.index.bucket_of(h) < m.index.bucket_count());
        assert(m.index.lookup(m.index.bucket_of(h), h >> 49) == last_entry(
            m.index,
            disk,
            order,
            info.span(),
            order.len() as int,
            m.index.bucket_of(h),
            h >> 49,
        ));
    }
    assert forall|k: Seq<u8>| (#[trigger] m.newest(k)) matches Some(a) ==> a >= m.floor by {
        chain::lemma_find(m.recs@, chain::chain_head(m.index, k), k);
    }
    m.log@.lemma_tail();
}

/// What a checkpoint captured, recovery gives back: the recovered store holds
/// exactly the contents of the store the checkpoint was taken of, and its
/// chains are unbroken again. What FLUSHALL dropped before stays dropped.
#[verifier::spinoff_prover]
#[verifier::rlimit(40)]
pub proof fn recovery_gives_back<D: Device>(
    n: &Store<D>,
    m0: &Store<D>,
    m: &Store<D>,
    info: CheckpointInfo,
)
    requires
        n.inv(),
        n.whole(),
        n.log@.flushed == n.log@.tail(),
        holds_image(n, m0),
        info.begin_address == n.floor,
        info.start_address == n.log@.tail(),
        info.final_address == n.log@.tail(),
        m.inv(),
        is_recovered(m0, m, info, disk_recs(n), n.order@),
    ensures
        m.contents() == n.contents(),
        m.whole(),
{
    reveal(Store::whole);
    lemma_same_records(n, m0, m, info);
    lemma_recovered_whole(n, m0, m, info);
    n.index.lemma_buckets();
    m.index.lemma_buckets();
    assert forall|k: Seq<u8>| #[trigger] m.get(k) == n.get(k) by {
        chain::lemma_find(n.recs@, chain::chain_head(n.index, k), k);
        chain::lemma_find(m.recs@, chain::chain_head(m.index, k), k);
        if n.newest(k) is Some {
            let a = n.newest(k).unwrap();
            assert(n.recs@.dom().contains(a));
            chain::lemma_newest_is_last(m.index, m.recs@, a, m.floor as int);
        }
        if m.newest(k) is Some {
            let z = m.newest(k).unwrap();
            assert(m.recs@.dom().contains(z));
            assert(n.recs@.dom().contains(z));
            chain::lemma_newest_is_last(n.index, n.recs@, z, n.floor as int);
        }
        assert(m.newest(k) == n.newest(k));
    }
    assert(m.contents() =~= n.contents());
}

/// How the metadata of a checkpoint lies in its file: six numbers, the first of
/// which tells that it is one.
pub proof fn metadata_is_laid_out(info: CheckpointInfo)
    ensures
        ({
            let s = info.encoded();
            &&& s.len() == 48
            &&& s.subrange(0, 8) == le::u64_le(META_MAGIC)
            &&& s.subrange(8, 16) == le::u64_le(info.version)
            &&& s.subrange(16, 24) == le::u64_le(info.begin_address)
            &&& s.subrange(24, 32) == le::u64_le(info.start_address)
            &&& s.subrange(32, 40) == le::u64_le(info.final_address)
            &&& s.subrange(40, 48) == le::u64_le(info.user_data)
        }),
{
    le::le_round_trip();
    let s = info.encoded();
    assert(s.subrange(0, 8) =~= le::u64_le(META_MAGIC));
    assert(s.subrange(8, 16) =~= le::u64_le(info.version));
    assert(s.subrange(16, 24) =~= le::u64_le(info.begin_address));
    assert(s.subrange(24, 32) =~= le::u64_le(info.start_address));
    assert(s.subrange(32, 40) =~= le::u64_le(info.final_address));
    assert(s.subrange(40, 48) =~= le::u64_le(info.user_data));
}

} // verus!
