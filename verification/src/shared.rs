//! The process-wide state shared by all connections: the store, the operation
//! log, the watch table, the checkpoint metadata.
use crate::aof::{Aof, AofView, CommitMode};
use crate::bytes;
use crate::checkpoint;
use crate::checkpoint::{CheckpointError, CheckpointInfo};
use crate::device;
use crate::device::{Device, DeviceError};
use crate::epoch;
use crate::hash;
use crate::hash::hash64;
use crate::log;
use crate::math::next_power_of_two;
use crate::server::DEFAULT_MAX_CLIENTS;
use crate::store::{Phase, Store, StoreSettings, SystemState};
use vstd::arithmetic::power2;
use vstd::prelude::*;
use vstd::wrapping::u64_specs;

verus! {

// ---------------------------------------------------------------------------
// Watched keys
// ---------------------------------------------------------------------------

/// Small array of version counters. A write bumps the counter for its key's
/// slot; WATCH remembers the counter; EXEC aborts if it changed.
pub struct WatchTable {
    slots: Vec<u64>,
    mask: u64,
}

impl View for WatchTable {
    type V = Seq<u64>;

    closed spec fn view(&self) -> Seq<u64> {
        self.slots@
    }
}

proof fn lemma_masked(h: u64, m: u64)
    by (bit_vector)
    ensures
        h & m <= m,
{
}

impl WatchTable {
    pub closed spec fn inv(&self) -> bool {
        self.slots@.len() == self.mask + 1
    }

    /// The slot of a key.
    pub closed spec fn slot(&self, key: Seq<u8>) -> int {
        (hash::key_hash(key) & self.mask) as int
    }

    /// Same slots for all keys.
    pub open spec fn same_slots(&self, o: &Self) -> bool {
        &&& self@.len() == o@.len()
        &&& forall|k: Seq<u8>| #[trigger] self.slot(k) == o.slot(k)
    }

    pub proof fn lemma_slot(&self, key: Seq<u8>)
        requires
            self.inv(),
        ensures
            0 <= self.slot(key) < self@.len(),
            self.slot(key) as usize == self.slot(key),
    {
        lemma_masked(hash::key_hash(key), self.mask);
        assert(self.slots.len() == self.slots@.len());
    }

    /// Keys are spread over all slots by their hash.
    pub proof fn slots_go_by_the_hash(&self, key: Seq<u8>)
        requires
            self.inv(),
        ensures
            self@.len() >= 1,
            self@.len() - 1 <= u64::MAX,
            self.slot(key) == hash::key_hash(key) & ((self@.len() - 1) as u64),
    {
    }

    /// `n` counters, rounded up to a power of two.
    pub fn new(n: usize) -> (r: Self)
        requires
            n <= usize::MAX / 2,
        ensures
            r.inv(),
            n <= 1 ==> r@.len() == 1,
            n > 1 ==> n <= r@.len() < 2 * n,
            exists|k: nat| r@.len() == #[trigger] power2::pow2(k),
            forall|i: int| 0 <= i < r@.len() ==> #[trigger] r@[i] == 0,
    {
        proof {
            vstd::arithmetic::power2::lemma2_to64();
        }
        let size: usize = if n <= 1 {
            1
        } else {
            next_power_of_two(n)
        };
        let mut slots: Vec<u64> = Vec::new();
        while slots.len() < size
            invariant
                slots@.len() <= size,
                forall|i: int| 0 <= i < slots@.len() ==> #[trigger] slots@[i] == 0,
            decreases size - slots@.len(),
        {
            slots.push(0);
        }
        WatchTable { slots, mask: (size - 1) as u64 }
    }

    fn slot_of(&self, key: &[u8]) -> (r: usize)
        requires
            self.inv(),
        ensures
            r == self.slot(key@),
            r < self@.len(),
    {
        proof {
            lemma_masked(hash::key_hash(key@), self.mask);
        }
        let n: usize = self.slots.len();
        assert(self.mask < n);
        (hash64(key) & self.mask) as usize
    }

    pub fn bump(&mut self, key: &[u8])
        requires
            old(self).inv(),
        ensures
            final(self).inv(),
            final(self).same_slots(old(self)),
            final(self)@ == old(self)@.update(
                old(self).slot(key@),
                u64_specs::wrapping_add(old(self)@[old(self).slot(key@)], 1),
            ),
    {
        let s: usize = self.slot_of(key);
        let v: u64 = self.slots[s].wrapping_add(1);
        self.slots.set(s, v);
    }

    /// Count every slot up: all keys have changed.
    pub fn bump_all(&mut self)
        requires
            old(self).inv(),
        ensures
            final(self).inv(),
            final(self).same_slots(old(self)),
            forall|i: int|
                0 <= i < final(self)@.len() ==> #[trigger] final(self)@[i] == u64_specs::wrapping_add(
                    old(self)@[i],
                    1,
                ),
    {
        let n: usize = self.slots.len();
        let mut i: usize = 0;
        while i < n
            invariant
                i <= n,
                n == self.slots@.len(),
                n == old(self).slots@.len(),
                self.mask == old(self).mask,
                forall|j: int|
                    0 <= j < i ==> #[trigger] self.slots@[j] == u64_specs::wrapping_add(
                        old(self).slots@[j],
                        1,
                    ),
                forall|j: int| i <= j < n ==> #[trigger] self.slots@[j] == old(self).slots@[j],
            decreases n - i,
        {
            let v: u64 = self.slots[i].wrapping_add(1);
            self.slots.set(i, v);
            i += 1;
        }
    }

    pub fn slot_version(&self, key: &[u8]) -> (r: (usize, u64))
        requires
            self.inv(),
        ensures
            r.0 == self.slot(key@),
            r.0 < self@.len(),
            r.1 == self@[r.0 as int],
    {
        let s: usize = self.slot_of(key);
        (s, self.slots[s])
    }

    pub fn version_at(&self, slot: usize) -> (r: u64)
        requires
            slot < self@.len(),
        ensures
            r == self@[slot as int],
    {
        self.slots[slot]
    }
}

// ---------------------------------------------------------------------------
// Configuration
// ---------------------------------------------------------------------------

pub struct Config {
    pub bind: String,
    pub dir: String,
    /// Without it: pure in-memory store (no disk tier, no persistence).
    pub persist: bool,
    pub aof: bool,
    pub aof_commit_wait: bool,
    pub commit_mode: CommitMode,
    pub store: StoreSettings,
    /// Concurrent connection ceiling; see [`DEFAULT_MAX_CLIENTS`] for why this
    /// one is a structural limit rather than a policy knob.
    pub maxclients: usize,
}

impl Default for Config {
    fn default() -> (r: Self)
        ensures
            r.bind@ == "127.0.0.1:6379"@,
            r.dir@ == "mini-garnet-data"@,
            !r.persist,
            !r.aof,
            !r.aof_commit_wait,
            r.commit_mode == CommitMode::Interval(100),
            r.store.ok(),
            r.store.index_buckets == 0x1_0000,
            r.store.log.page_bits == 20,
            r.store.log.memory_pages == 64,
            r.store.log.mutable_fraction == (log::Fraction { num: 9, den: 10 }),
            r.maxclients == DEFAULT_MAX_CLIENTS,
    {
        Config {
            bind: "127.0.0.1:6379".to_string(),
            dir: "mini-garnet-data".to_string(),
            persist: false,
            aof: false,
            aof_commit_wait: false,
            commit_mode: CommitMode::Interval(100),
            store: StoreSettings::default(),
            maxclients: DEFAULT_MAX_CLIENTS,
        }
    }
}

// ---------------------------------------------------------------------------
// Shared state
// ---------------------------------------------------------------------------

/// Why a checkpoint failed.
#[derive(Clone, Debug, PartialEq, Eq)]
pub enum SaveError {
    Unsupported,
    InProgress,
    Device(DeviceError),
    /// The epoch counter has run out.
    Exhausted,
}

impl SaveError {
    /// The error in words.
    pub open spec fn text(self) -> Seq<u8> {
        match self {
            SaveError::Unsupported => bytes::text("server started without persistence"),
            SaveError::InProgress => bytes::text("checkpoint already in progress"),
            SaveError::Device(DeviceError::UnexpectedEof) => bytes::text("failed to fill whole buffer"),
            SaveError::Device(DeviceError::Failed(words)) => words@,
            SaveError::Exhausted => bytes::text("epoch exhausted"),
        }
    }

    pub fn message(&self) -> (r: &[u8])
        ensures
            r@ == self.text(),
    {
        match self {
            SaveError::Unsupported => bytes::raw("server started without persistence"),
            SaveError::InProgress => bytes::raw("checkpoint already in progress"),
            SaveError::Device(DeviceError::UnexpectedEof) => bytes::raw("failed to fill whole buffer"),
            SaveError::Device(DeviceError::Failed(words)) => words.as_slice(),
            SaveError::Exhausted => bytes::raw("epoch exhausted"),
        }
    }
}

/// State shared by all sessions: `D` is where the log lives, `M` where the
/// metadata of the last checkpoint lives.
pub struct Shared<D: Device, M: Device> {
    pub store: Store<D>,
    pub meta: M,
    pub aof: Option<Aof>,
    pub aof_commit_wait: bool,
    pub watch: WatchTable,
    pub persist: bool,
    pub last_save: i64,
    /// The operation log was emptied; its file has to follow.
    pub aof_truncated: bool,
}

/// An operation log that may be switched off.
pub open spec fn aof_view(a: Option<Aof>) -> Option<AofView> {
    match a {
        Some(x) => Some(x@),
        None => None,
    }
}

/// Why there is no epoch left for a checkpoint.
pub const EPOCH_RESERVE: u64 = 16;

/// A checkpoint of the shared state: what it leaves behind and what it answers.
pub open spec fn saved<D: Device, M: Device>(
    o: &Shared<D, M>,
    n: &Shared<D, M>,
    now_ms: i64,
    r: Result<(), SaveError>,
) -> bool {
    &&& n.store.same_data(&o.store)
    &&& n.store.newest_same(&o.store)
    &&& n.store.contents() == o.store.contents()
    &&& n.watch == o.watch
    &&& n.persist == o.persist
    &&& n.aof_commit_wait == o.aof_commit_wait
    &&& r == Err::<(), SaveError>(SaveError::Unsupported) <==> !o.persist
    &&& o.persist ==> (r == Err::<(), SaveError>(SaveError::Exhausted) <==> o.store.log@.epoch
        >= u64::MAX - EPOCH_RESERVE)
    &&& o.persist && o.store.log@.epoch < u64::MAX - EPOCH_RESERVE ==> (r == Err::<(), SaveError>(
        SaveError::InProgress,
    ) <==> !(o.store.state().phase is Rest))
    &&& r matches Err(e) ==> e is Unsupported || e is Exhausted || e is InProgress ==> *n == *o
    &&& r matches Err(e) ==> e is Device ==> {
        &&& n.store.log@.ro == o.store.log@.tail()
        &&& n.store.checkpoint_start == o.store.log@.tail()
        &&& n.store.state_word == (SystemState {
            phase: Phase::WaitFlush,
            version: (o.store.state().version + 1) as u64,
        }).packed()
    }
    &&& r is Err ==> aof_view(n.aof) == aof_view(o.aof) && n.last_save == o.last_save
        && n.aof_truncated == o.aof_truncated
    &&& r is Ok ==> {
        &&& n.last_save == now_ms
        &&& n.store.log@.flushed == o.store.log@.tail()
        &&& n.store.log@.durable_to(o.store.log@.tail())
        &&& n.meta.durable() == n.meta.content()
        &&& n.store.state_word == (SystemState {
            phase: Phase::Rest,
            version: (o.store.state().version + 1) as u64,
        }).packed()
        &&& n.meta.content() == device::stored(
            o.meta.content(),
            0,
            (CheckpointInfo {
                version: o.store.state().version,
                begin_address: o.store.floor,
                start_address: o.store.log@.tail() as u64,
                final_address: o.store.log@.tail() as u64,
                user_data: o.covered(),
            }).encoded(),
        )
        &&& match o.aof {
            Some(a) => aof_view(n.aof) == Some(
                AofView { buf: Seq::empty(), written: 0, committed: 0, ..a@ },
            ) && n.aof_truncated,
            None => n.aof is None && n.aof_truncated == o.aof_truncated,
        }
    }
    &&& o.persist && o.store.state().phase is Rest && o.store.log@.epoch < u64::MAX - EPOCH_RESERVE
        && o.store.log@.device_good() && o.store.log@.dependable > 0 && o.meta.dependable()
        >= checkpoint::META_LEN ==> r is Ok
}

impl<D: Device, M: Device> Shared<D, M> {
    #[verifier::opaque]
    pub open spec fn inv(&self) -> bool {
        &&& self.store.inv()
        &&& self.store.next_thread != 0
        &&& epoch::idle(self.store.log@.slots)
        &&& self.watch.inv()
    }

    /// `aof_len` is how long the file of the operation log is.
    pub fn new(config: &Config, device: D, meta: M, aof_len: u64) -> (r: Self)
        requires
            config.store.ok(),
        ensures
            r.inv(),
            r.store.index.latches_free(),
            r.store.contents() == Map::<Seq<u8>, crate::record::RecordView>::empty(),
            r.store.whole(),
            r.store.state() == (SystemState { phase: Phase::Rest, version: 1 }),
            r.store.next_thread == 1,
            r.store.log@.psize == power2::pow2(config.store.log.page_bits as nat),
            r.store.log@.tail_page == 0,
            r.store.log@.epoch == 1,
            r.store.log@.content == device.content(),
            r.store.log@.durable == device.durable(),
            r.store.log@.dependable == device.dependable(),
            r.store.log@.pending.len() == 0,
            r.meta == meta,
            r.persist == config.persist,
            r.aof is Some <==> config.aof,
            r.aof matches Some(a) ==> a@ == (AofView {
                buf: Seq::empty(),
                written: aof_len,
                committed: aof_len,
                mode: config.commit_mode,
            }),
            r.aof_commit_wait == config.aof_commit_wait,
            r.last_save == 0,
            !r.aof_truncated,
            device.dependable() >= 2 * r.store.log@.psize ==> forall|thread: u64|
                thread != 0 ==> #[trigger] r.store.calm(thread),
            forall|key: Seq<u8>| #[trigger] r.store.indexable(key),
            r.store.index.spare() >= 1024,
            r.store.index.arena() == r.store.index.spare(),
            forall|b: int|
                0 <= b < r.store.index.bucket_count() ==> #[trigger] r.store.index.free(b) == 7,
            forall|key: Seq<u8>, exclusive: bool| #[trigger]
                r.store.open_for(false, key, exclusive),
    {
        proof {
            reveal(Shared::inv);
        }
        let store = Store::new(config.store, device);
        let aof: Option<Aof> = if config.aof {
            Some(Aof::open(aof_len, config.commit_mode))
        } else {
            None
        };
        proof {
            store.index.lemma_buckets();
            vstd::arithmetic::power2::lemma2_to64();
            if config.store.log.page_bits < 30 {
                vstd::arithmetic::power2::lemma_pow2_strictly_increases(
                    config.store.log.page_bits as nat,
                    30,
                );
            }
        }
        Shared {
            store,
            meta,
            aof,
            aof_commit_wait: config.aof_commit_wait,
            watch: WatchTable::new(0x4000),
            persist: config.persist,
            last_save: 0,
            aof_truncated: false,
        }
    }

    pub fn last_save_ms(&self) -> (r: i64)
        ensures
            r == self.last_save,
    {
        self.last_save
    }

    /// The address up to which the operation log is covered by a checkpoint
    /// taken now.
    pub open spec fn covered(&self) -> u64 {
        match self.aof {
            Some(a) => a@.tail(),
            None => 0,
        }
    }

    /// SAVE: fold-over checkpoint, then empty the operation log, which it
    /// covers.
    pub fn checkpoint(&mut self, now_ms: i64) -> (r: Result<(), SaveError>)
        requires
            old(self).inv(),
        ensures
            final(self).inv(),
            saved(old(self), final(self), now_ms, r),
    {
        proof {
            reveal(Shared::inv);
        }
        if !self.persist {
            return Err(SaveError::Unsupported);
        }
        if self.store.log.current_epoch() >= u64::MAX - EPOCH_RESERVE {
            return Err(SaveError::Exhausted);
        }
        let covered: u64 = match &self.aof {
            Some(a) => a.tail_address(),
            None => 0,
        };
        let ghost o = self.store;
        let info: CheckpointInfo = match self.store.take_checkpoint(covered) {
            Ok(info) => info,
            Err(CheckpointError::InProgress) => {
                return Err(SaveError::InProgress);
            },
            Err(CheckpointError::Device(e)) => {
                return Err(SaveError::Device(e));
            },
            Err(_) => {
                assert(false);
                return Err(SaveError::Exhausted);
            },
        };
        let ghost s = self.store;
        proof {
            crate::store::lemma_state_mask(o.state_word);
        }
        match self.meta.write_at(0, info.to_bytes().as_slice()) {
            Ok(()) => {},
            Err(e) => {
                return Err(SaveError::Device(e));
            },
        }
        match self.meta.sync() {
            Ok(()) => {},
            Err(e) => {
                return Err(SaveError::Device(e));
            },
        }
        self.store.finish_checkpoint(&info);
        proof {
            if o.log@.tail() > log::FIRST_VALID_ADDRESS {
                assert forall|i: int| 0 <= i < o.log@.tail() implies #[trigger] self.store.log@.sure(i) by {
                    assert(s.log@.sure(i));
                }
            }
            checkpoint::lemma_same_data_trans(&o, &s, &self.store);
            checkpoint::lemma_same_contents(&o, &self.store);
        }
        // Everything logged so far is now in the checkpoint.
        match &mut self.aof {
            Some(a) => {
                a.truncate();
                self.aof_truncated = true;
            },
            None => {},
        }
        self.last_save = now_ms;
        Ok(())
    }
}

} // verus!
