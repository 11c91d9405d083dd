//! The hybrid log allocator.
//!
//! The record log is one 48-bit logical address space. Its tail lives in a
//! **circular buffer of fixed-size pages** in memory; older pages are flushed
//! to the [`Device`] and then evicted, so the same address space spans memory
//! and disk.
//!
//! ```text
//!   disk ............ | in-memory circular buffer ............................ |
//!   Begin   ClosedUntil SafeHead Head   FlushedUntil SafeReadOnly ReadOnly   Tail
//!     |---------|---------|------|------------|------------|---------|--------|
//!                         <-- immutable (read-only) -->   fuzzy   <- mutable ->
//! ```
//!
//! * `[ReadOnly, Tail)` **mutable**: records are updated in place.
//! * `[SafeReadOnly, ReadOnly)` **fuzzy**: `ReadOnly` was just advanced but some
//!   thread may still be mid in-place-update. Readers may read here; updaters
//!   must retry later.
//! * `[Head, SafeReadOnly)` **immutable in memory**: updates copy the record to
//!   the tail and *seal* the old one.
//! * `[Begin, Head)` **on disk**: reads go to the device.
//!
//! Every boundary move is a two-step *epoch* protocol: publish the new value,
//! then register the consequence (flushing, or freeing a page) as an action
//! that runs only once every thread has observed the new boundary.
use crate::bytes;
use crate::bytes::{overwrite, zero_vec};
use crate::device;
use crate::device::{Device, DeviceError};
use crate::epoch;
use crate::epoch::{DrainAction, LightEpoch, Slot};
use crate::math::{next_power_of_two, power_of_two};
use crate::record;
use crate::record::{total_size_from_header, RecordInfo, RecordPtr, RecordView, MIN_DISK_READ};
use vstd::prelude::*;
use vstd::slice::slice_subrange;

verus! {

/// Bytes reserved at the start of each page. Addresses 0..63 are therefore
/// never records, so 0 (invalid) and 1 (temp-invalid) are free.
pub const PAGE_HEADER_SIZE: usize = 64;

pub const FIRST_VALID_ADDRESS: u64 = 64;

/// End of the 48-bit address space.
pub const ADDRESS_LIMIT: u64 = 0x1_0000_0000_0000;

/// A fraction of the in-memory pages.
#[derive(Clone, Copy, Debug, PartialEq, Eq, Structural)]
pub struct Fraction {
    pub num: u32,
    pub den: u32,
}

#[derive(Clone, Copy, Debug)]
pub struct LogSettings {
    /// Page size = 2^page_bits bytes.
    pub page_bits: u32,
    /// Number of pages held in memory (rounded up to a power of two).
    pub memory_pages: usize,
    /// Fraction of the in-memory pages kept mutable.
    pub mutable_fraction: Fraction,
}

impl LogSettings {
    pub open spec fn ok(&self) -> bool {
        &&& 9 <= self.page_bits <= 30
        &&& self.memory_pages <= usize::MAX / 2
        &&& self.mutable_fraction.den > 0
    }
}

impl Default for LogSettings {
    fn default() -> (r: Self)
        ensures
            r.ok(),
            r.page_bits == 20,
            r.memory_pages == 64,
            r.mutable_fraction == (Fraction { num: 9, den: 10 }),
    {
        LogSettings {
            page_bits: 20,
            memory_pages: 64,
            mutable_fraction: Fraction { num: 9, den: 10 },
        }
    }
}

#[derive(Clone, Copy, Debug, PartialEq, Eq, Structural)]
pub enum AllocResult {
    Address(u64),
    /// Another thread is turning the page; retry immediately.
    RetryNow,
    /// The next page is not free yet (flush/close pending); refresh the epoch
    /// and retry.
    RetryLater,
}

/// What a boundary move still owes once every thread has observed it.
#[derive(Clone, Copy, Debug, PartialEq, Eq, Structural)]
pub enum LogAction {
    /// Mark everything below the address safe and flush it.
    MarkReadOnly(u64),
    /// Free the pages below the address.
    ClosePages(u64),
}

/// Buffer holding a record or page image read from disk.
pub struct AlignedBuf(pub Vec<u8>);

impl AlignedBuf {
    pub fn with_len(len: usize) -> (r: Self)
        ensures
            r.0@ == bytes::zeros(len as nat),
    {
        AlignedBuf(zero_vec(len))
    }

    pub fn as_bytes_mut(&mut self) -> (r: &mut [u8])
        ensures
            r@ == old(self).0@,
            final(r)@ == final(self).0@,
    {
        self.0.as_mut_slice()
    }

    /// The record at the front of the buffer.
    pub fn record(&self) -> (r: Option<RecordPtr>)
        ensures
            r is Some <==> record::decode(self.0@) is Some,
            r matches Some(p) ==> p.wf() && record::decode(self.0@) == Some(p@),
    {
        RecordPtr::new(self.0.as_slice())
    }
}

// ---------------------------------------------------------------------------
// Model
// ---------------------------------------------------------------------------

/// The log as its parts.
#[verifier::ext_equal]
pub struct LogView {
    pub bits: u32,
    pub psize: int,
    pub bsize: int,
    pub mpages: int,
    /// The pages of the circular buffer, by slot.
    pub pages: Seq<Seq<u8>>,
    pub tail_page: int,
    pub tail_off: int,
    pub begin: int,
    pub closed: int,
    pub safe_head: int,
    pub head: int,
    pub flushed: int,
    pub safe_ro: int,
    pub ro: int,
    /// Every address the read-only boundary was ever moved to.
    pub bounds: Set<int>,
    /// The bytes on the device.
    pub content: Seq<u8>,
    /// What a crash would leave of them.
    pub durable: Seq<u8>,
    /// How far the device serves every request.
    pub dependable: nat,
    pub slots: Seq<Slot>,
    pub epoch: u64,
    pub pending: Seq<DrainAction<LogAction>>,
}

impl LogView {
    /// First address after everything allocated.
    pub open spec fn tail(self) -> int {
        self.tail_page * self.psize + self.tail_off
    }

    /// Whether a byte on the device outlives a crash.
    #[verifier::inline]
    pub open spec fn sure(self, i: int) -> bool {
        device::held(self.content, self.durable, i)
    }

    /// Whether the log up to `n` outlives a crash. (An empty one is not on the
    /// device.)
    pub open spec fn durable_to(self, n: int) -> bool {
        n > FIRST_VALID_ADDRESS ==> forall|i: int| 0 <= i < n ==> #[trigger] self.sure(i)
    }

    /// The in-memory bytes of a page.
    pub open spec fn page(self, p: int) -> Seq<u8> {
        self.pages[p % self.bsize]
    }

    /// The in-memory byte at an address.
    pub open spec fn mem(self, a: int) -> u8 {
        self.page(a / self.psize)[a % self.psize]
    }

    /// `n` in-memory bytes from an address on, all on one page.
    pub open spec fn mem_range(self, a: int, n: int) -> Seq<u8> {
        self.page(a / self.psize).subrange(a % self.psize, a % self.psize + n)
    }

    /// Whether a page can be turned to: the slot's previous occupant is closed.
    pub open spec fn page_free(self, p: int) -> bool {
        p < self.bsize || self.closed >= (p - self.bsize + 1) * self.psize
    }

    /// Whether a page stands in the circular buffer.
    pub open spec fn resident(self, p: int) -> bool {
        0 <= p <= self.tail_page && (p + 1) * self.psize > self.closed
    }

    pub open spec fn shape(self) -> bool {
        &&& 512 <= self.psize <= 0x4000_0000
        &&& self.psize % 8 == 0
        &&& 2 <= self.bsize
        &&& 1 <= self.mpages <= self.bsize - 1
        &&& self.pages.len() == self.bsize
        &&& forall|s: int| 0 <= s < self.bsize ==> (#[trigger] self.pages[s]).len() == self.psize
        &&& 0 <= self.tail_page
        &&& (self.tail_page + 1) * self.psize <= ADDRESS_LIMIT
        &&& 64 <= self.tail_off <= self.psize
        &&& self.tail_off % 8 == 0
    }

    /// The order of the boundaries, and what it rests on.
    pub open spec fn order(self) -> bool {
        &&& self.begin == FIRST_VALID_ADDRESS
        &&& self.begin <= self.closed <= self.safe_head <= self.head <= self.flushed <= self.safe_ro
            <= self.ro <= self.tail()
        &&& self.closed == self.begin || self.closed >= self.psize
        &&& self.page_free(self.tail_page)
        &&& self.flushed > FIRST_VALID_ADDRESS ==> self.content.len() >= self.flushed
        &&& forall|x: int| #[trigger] self.bounds.contains(x) ==> x <= self.ro
        &&& self.bounds.contains(self.flushed)
        &&& self.bounds.contains(self.safe_ro)
        &&& self.bounds.contains(self.ro)
    }

    pub open spec fn action_ok(self, a: LogAction) -> bool {
        match a {
            LogAction::MarkReadOnly(x) => x <= self.ro && self.bounds.contains(x as int),
            LogAction::ClosePages(x) => x <= self.head,
        }
    }

    pub open spec fn actions_ok(self, extra: Seq<LogAction>) -> bool {
        &&& forall|i: int|
            0 <= i < self.pending.len() ==> self.action_ok((#[trigger] self.pending[i]).action)
        &&& forall|i: int| 0 <= i < extra.len() ==> self.action_ok(#[trigger] extra[i])
    }

    /// Whether an action is waiting for its epoch, or about to run.
    pub open spec fn owed(self, a: LogAction, extra: Seq<LogAction>) -> bool {
        extra.contains(a) || exists|i: int|
            0 <= i < self.pending.len() && (#[trigger] self.pending[i]).action == a
    }

    /// The device takes every write up to the end of the tail page.
    pub open spec fn device_good(self) -> bool {
        self.dependable >= (self.tail_page + 1) * self.psize
    }

    pub open spec fn ro_done(self) -> bool {
        self.safe_ro == self.ro && (self.device_good() ==> self.flushed == self.ro)
    }

    pub open spec fn head_done(self) -> bool {
        if self.closed < self.psize {
            self.head < self.psize
        } else {
            self.closed > self.head - self.psize
        }
    }

    /// A boundary move has either taken full effect or is still owed.
    pub open spec fn promises(self, extra: Seq<LogAction>) -> bool {
        &&& self.ro_done() || self.owed(LogAction::MarkReadOnly(self.ro as u64), extra)
        &&& self.head_done() || self.owed(LogAction::ClosePages(self.head as u64), extra)
    }

    pub open spec fn epoch_ok(self) -> bool {
        &&& self.epoch >= 1
        &&& epoch::table_ok(self.slots, self.epoch)
        &&& epoch::pending_ok(self.pending, self.epoch)
    }

    pub open spec fn base(self, extra: Seq<LogAction>) -> bool {
        &&& self.shape()
        &&& self.order()
        &&& self.epoch_ok()
        &&& self.actions_ok(extra)
        &&& self.promises(extra)
    }

    pub open spec fn inv(self) -> bool {
        self.base(Seq::empty())
    }

    /// Nothing is owed any more.
    pub open spec fn settled(self) -> bool {
        &&& self.pending.len() == 0
        &&& self.ro_done()
        &&& self.head_done()
    }
}

/// What was on the device below the flushed boundary stays, and what the
/// boundary has passed since is what memory held.
pub open spec fn kept(o: LogView, n: LogView) -> bool {
    &&& n.dependable == o.dependable
    &&& n.content.len() >= o.content.len()
    &&& forall|i: int|
        0 <= i < o.flushed && i < o.content.len() ==> #[trigger] n.content[i] == o.content[i]
    &&& forall|i: int| o.flushed <= i < n.flushed ==> #[trigger] n.content[i] == o.mem(i)
    &&& forall|i: int| 0 <= i < o.flushed && o.sure(i) ==> #[trigger] n.sure(i)
}

/// The log has only grown, and what was on the device below the flushed
/// boundary is still there. What would outlive a crash still would.
pub open spec fn image_kept(o: LogView, n: LogView) -> bool {
    &&& n.tail_page >= o.tail_page
    &&& n.flushed >= o.flushed
    &&& n.content.len() >= o.content.len()
    &&& forall|i: int|
        0 <= i < o.flushed && i < o.content.len() ==> #[trigger] n.content[i] == o.content[i]
    &&& forall|i: int| 0 <= i < o.flushed && o.sure(i) ==> #[trigger] n.sure(i)
}

pub proof fn lemma_image_trans(a: LogView, b: LogView, c: LogView)
    requires
        image_kept(a, b),
        image_kept(b, c),
    ensures
        image_kept(a, c),
{
    assert forall|i: int| 0 <= i < a.flushed && i < a.content.len() implies #[trigger] c.content[i]
        == a.content[i] by {
        assert(b.content[i] == a.content[i]);
    }
    assert forall|i: int| 0 <= i < a.flushed && a.sure(i) implies #[trigger] c.sure(i) by {
        assert(b.sure(i));
    }
}

/// Same page size and buffer.
pub open spec fn same_config(o: LogView, n: LogView) -> bool {
    &&& n.bits == o.bits
    &&& n.psize == o.psize
    &&& n.bsize == o.bsize
    &&& n.mpages == o.mpages
}

/// Only the boundaries and the device have moved, and only forward.
pub open spec fn moved(o: LogView, n: LogView) -> bool {
    &&& same_config(o, n)
    &&& n.pages == o.pages
    &&& n.tail_page == o.tail_page
    &&& n.tail_off == o.tail_off
    &&& advanced(o, n)
}

/// The boundaries and the device have moved only forward.
pub open spec fn advanced(o: LogView, n: LogView) -> bool {
    &&& n.begin == o.begin
    &&& o.closed <= n.closed
    &&& o.safe_head <= n.safe_head
    &&& o.head <= n.head
    &&& o.flushed <= n.flushed
    &&& o.safe_ro <= n.safe_ro
    &&& o.ro <= n.ro
    &&& kept(o, n)
}

/// How far these actions, carried out in turn, mark the log read-only.
pub open spec fn marked_to(acts: Seq<LogAction>, from: int) -> int
    decreases acts.len(),
{
    if acts.len() == 0 {
        from
    } else {
        let m = marked_to(acts.drop_last(), from);
        match acts.last() {
            LogAction::MarkReadOnly(x) => if x > m {
                x as int
            } else {
                m
            },
            LogAction::ClosePages(_) => m,
        }
    }
}

/// How far these actions, carried out in turn, close the log.
pub open spec fn closed_to(acts: Seq<LogAction>, from: int) -> int
    decreases acts.len(),
{
    if acts.len() == 0 {
        from
    } else {
        let m = closed_to(acts.drop_last(), from);
        match acts.last() {
            LogAction::ClosePages(x) => if x > m {
                x as int
            } else {
                m
            },
            LogAction::MarkReadOnly(_) => m,
        }
    }
}

/// These actions took effect, and nothing else did: what is safe moved as far as
/// they say, and nothing was flushed or closed beyond. All of it was flushed if
/// the device takes it, and every whole page of it closed.
pub open spec fn took(o: LogView, n: LogView, acts: Seq<LogAction>) -> bool {
    &&& n.safe_ro == marked_to(acts, o.safe_ro)
    &&& n.safe_head == closed_to(acts, o.safe_head)
    &&& n.flushed <= marked_to(acts, o.flushed)
    &&& o.dependable >= marked_to(acts, o.flushed) && o.dependable > 0 ==> n.flushed == marked_to(
        acts,
        o.flushed,
    )
    &&& n.closed <= closed_to(acts, o.closed)
    &&& n.closed > closed_to(acts, o.closed) - o.psize
}

/// Of all the actions that wait, exactly those took effect that no thread holds
/// back any more.
pub open spec fn drained(o: LogView, n: LogView, all: Seq<DrainAction<LogAction>>) -> bool {
    exists|safe: int| #[trigger]
        epoch::is_safe_epoch(n.slots, n.epoch, safe) && n.pending == epoch::waiting_at(all, safe)
            && took(o, n, epoch::ready_at(all, safe))
}

/// What waits once a new action is registered.
pub open spec fn registered(v: LogView, action: LogAction) -> Seq<DrainAction<LogAction>> {
    v.pending.push(DrainAction { epoch: v.epoch, action })
}

/// Nothing took effect beyond what was published before.
pub open spec fn held_back(o: LogView, n: LogView) -> bool {
    &&& n.safe_ro <= o.ro
    &&& n.flushed <= o.ro
    &&& n.safe_head <= o.head
    &&& n.closed <= o.head
}

/// Actions that stay below two boundaries lead no further.
proof fn lemma_took_below(acts: Seq<LogAction>, a: int, b: int, ro: int, head: int)
    requires
        a <= ro,
        b <= head,
        forall|i: int|
            0 <= i < acts.len() ==> stays_below(#[trigger] acts[i], ro, head),
    ensures
        marked_to(acts, a) <= ro,
        closed_to(acts, b) <= head,
    decreases acts.len(),
{
    if acts.len() > 0 {
        let less = acts.drop_last();
        assert forall|i: int| 0 <= i < less.len() implies stays_below(#[trigger] less[i], ro, head) by {
            assert(less[i] == acts[i]);
        }
        lemma_took_below(less, a, b, ro, head);
        assert(acts.last() == acts[acts.len() - 1]);
    }
}

/// Whether an action was registered at `safe` or before.
spec fn due(p: Seq<DrainAction<LogAction>>, safe: int, a: LogAction) -> bool {
    exists|i: int| 0 <= i < p.len() && (#[trigger] p[i]).epoch <= safe && p[i].action == a
}

/// What is handed out at `safe` was registered no later; what waits was waiting.
proof fn lemma_ready(p: Seq<DrainAction<LogAction>>, safe: int)
    ensures
        forall|j: int|
            0 <= j < epoch::ready_at(p, safe).len() ==> due(
                p,
                safe,
                #[trigger] epoch::ready_at(p, safe)[j],
            ),
        forall|j: int|
            0 <= j < epoch::waiting_at(p, safe).len() ==> p.contains(
                #[trigger] epoch::waiting_at(p, safe)[j],
            ),
    decreases p.len(),
{
    if p.len() > 0 {
        let q = p.drop_last();
        lemma_ready(q, safe);
        let r = epoch::ready_at(p, safe);
        let r0 = epoch::ready_at(q, safe);
        let w = epoch::waiting_at(p, safe);
        let w0 = epoch::waiting_at(q, safe);
        assert forall|j: int| 0 <= j < r.len() implies due(p, safe, #[trigger] r[j]) by {
            if j < r0.len() {
                assert(r[j] == r0[j]);
                let i = choose|i: int|
                    0 <= i < q.len() && (#[trigger] q[i]).epoch <= safe && q[i].action == r0[j];
                assert(p[i] == q[i]);
            } else {
                assert(p[p.len() - 1].action == r[j]);
            }
        }
        assert forall|j: int| 0 <= j < w.len() implies p.contains(#[trigger] w[j]) by {
            if j < w0.len() {
                assert(w[j] == w0[j]);
                let i = choose|i: int| 0 <= i < q.len() && #[trigger] q[i] == w0[j];
                assert(p[i] == q[i]);
            } else {
                assert(p[p.len() - 1] == w[j]);
            }
        }
    }
}

/// Whether an action stays below two boundaries.
pub open spec fn stays_below(a: LogAction, ro: int, head: int) -> bool {
    match a {
        LogAction::MarkReadOnly(x) => x <= ro,
        LogAction::ClosePages(x) => x <= head,
    }
}

/// Nothing has taken effect beyond the boundaries `ro` and `head`, and nothing
/// that was registered before epoch `e` will.
pub open spec fn withheld(v: LogView, e: u64, ro: int, head: int) -> bool {
    &&& v.safe_ro <= ro
    &&& v.flushed <= ro
    &&& v.safe_head <= head
    &&& v.closed <= head
    &&& forall|i: int|
        0 <= i < v.pending.len() && (#[trigger] v.pending[i]).epoch < e ==> stays_below(
            v.pending[i].action,
            ro,
            head,
        )
}

/// Nothing has taken effect beyond what is published.
pub proof fn lemma_withheld_start(v: LogView, e: u64)
    requires
        v.order(),
        v.actions_ok(Seq::empty()),
    ensures
        withheld(v, e, v.ro, v.head),
{
    assert forall|i: int| 0 <= i < v.pending.len() implies stays_below(
        (#[trigger] v.pending[i]).action,
        v.ro,
        v.head,
    ) by {
        assert(v.action_ok(v.pending[i].action));
    }
}

/// A thread that has been inside the epoch since `e` holds back everything that
/// was registered since.
pub proof fn lemma_withheld_step(
    o: LogView,
    n: LogView,
    all: Seq<DrainAction<LogAction>>,
    k: int,
    e: u64,
    ro: int,
    head: int,
)
    requires
        withheld(o, e, ro, head),
        drained(o, n, all),
        0 <= k < n.slots.len(),
        n.slots[k].epoch == e,
        e != 0,
        all == o.pending || (all.len() > 0 && all.drop_last() == o.pending && all.last().epoch >= e),
    ensures
        withheld(n, e, ro, head),
{
    let safe = choose|safe: int| #[trigger]
        epoch::is_safe_epoch(n.slots, n.epoch, safe) && n.pending == epoch::waiting_at(all, safe)
            && took(o, n, epoch::ready_at(all, safe));
    assert(safe < n.slots[k].epoch);
    lemma_ready(all, safe);
    assert forall|i: int| 0 <= i < all.len() && (#[trigger] all[i]).epoch < e implies stays_below(
        all[i].action,
        ro,
        head,
    ) by {
        if all != o.pending {
            assert(all[i] == o.pending[i]);
        } else {
            assert(all[i] == o.pending[i]);
        }
    }
    let acts = epoch::ready_at(all, safe);
    assert forall|j: int| 0 <= j < acts.len() implies stays_below(#[trigger] acts[j], ro, head) by {
        let i = choose|i: int|
            0 <= i < all.len() && (#[trigger] all[i]).epoch <= safe && all[i].action == acts[j];
        assert(due(all, safe, acts[j]));
        assert(all[i].epoch < e);
    }
    lemma_took_below(acts, o.safe_ro, o.safe_head, ro, head);
    lemma_took_below(acts, o.flushed, o.closed, ro, head);
    assert forall|j: int| 0 <= j < n.pending.len() && (#[trigger] n.pending[j]).epoch < e implies stays_below(
        n.pending[j].action,
        ro,
        head,
    ) by {
        assert(all.contains(epoch::waiting_at(all, safe)[j]));
        let i = choose|i: int| 0 <= i < all.len() && all[i] == n.pending[j];
        assert(all[i].epoch < e);
    }
}

/// New read-only addresses are page starts or `arg`.
pub open spec fn bounds_grow(o: LogView, n: LogView, arg: int) -> bool {
    forall|x: int| #[trigger]
        n.bounds.contains(x) ==> o.bounds.contains(x) || x % o.psize == 0 || x == arg
}

pub proof fn lemma_moved_trans(a: LogView, b: LogView, c: LogView)
    requires
        moved(a, b),
        moved(b, c),
        a.flushed > FIRST_VALID_ADDRESS ==> a.content.len() >= a.flushed,
        b.flushed > FIRST_VALID_ADDRESS ==> b.content.len() >= b.flushed,
        FIRST_VALID_ADDRESS <= a.flushed,
    ensures
        moved(a, c),
{
    assert forall|i: int| 0 <= i < a.flushed && i < a.content.len() implies #[trigger] c.content[i]
        == a.content[i] by {
        assert(b.content[i] == a.content[i]);
    }
    assert forall|i: int| 0 <= i < a.flushed && a.sure(i) implies #[trigger] c.sure(i) by {
        assert(b.sure(i));
    }
    assert forall|i: int| a.flushed <= i < c.flushed implies #[trigger] c.content[i] == a.mem(i) by {
        if i < b.flushed {
            assert(b.content[i] == a.mem(i));
        } else {
            assert(c.content[i] == b.mem(i));
        }
    }
}

pub struct HybridLog<D: Device> {
    page_bits: u32,
    page_size: usize,
    buffer_size: usize,
    mutable_pages: usize,
    pages: Vec<Vec<u8>>,
    tail_page: u64,
    tail_offset: u64,
    begin_address: u64,
    closed_until_address: u64,
    safe_head_address: u64,
    head_address: u64,
    flushed_until_address: u64,
    safe_read_only_address: u64,
    read_only_address: u64,
    epoch: LightEpoch<LogAction>,
    device: D,
    bounds: Ghost<Set<int>>,
}

impl<D: Device> View for HybridLog<D> {
    type V = LogView;

    closed spec fn view(&self) -> LogView {
        LogView {
            bits: self.page_bits,
            psize: self.page_size as int,
            bsize: self.buffer_size as int,
            mpages: self.mutable_pages as int,
            pages: self.pages@.map_values(|p: Vec<u8>| p@),
            tail_page: self.tail_page as int,
            tail_off: self.tail_offset as int,
            begin: self.begin_address as int,
            closed: self.closed_until_address as int,
            safe_head: self.safe_head_address as int,
            head: self.head_address as int,
            flushed: self.flushed_until_address as int,
            safe_ro: self.safe_read_only_address as int,
            ro: self.read_only_address as int,
            bounds: self.bounds@,
            content: self.device.content(),
            durable: self.device.durable(),
            dependable: self.device.dependable(),
            slots: self.epoch.slots(),
            epoch: self.epoch.epoch(),
            pending: self.epoch.pending(),
        }
    }
}

/// Pages kept mutable: the fraction of the buffer rounded up, at least one and
/// not the whole buffer.
pub open spec fn mutable_share(buffer: int, f: Fraction) -> int {
    let share = (buffer * f.num + f.den - 1) / (f.den as int);
    if share < 1 {
        1
    } else if share > buffer - 1 {
        buffer - 1
    } else {
        share
    }
}

/// The pages that stay mutable are as many as the fraction of the buffer asks
/// for, rounded up, but at least one, and one page less than the whole buffer at
/// most.
pub proof fn the_mutable_share_is_the_fraction(buffer: int, f: Fraction)
    requires
        buffer >= 2,
        f.den > 0,
    ensures
        ({
            let m = mutable_share(buffer, f);
            &&& 1 <= m <= buffer - 1
            &&& m == buffer - 1 || m * f.den >= buffer * f.num
            &&& m == 1 || (m - 1) * f.den < buffer * f.num
        }),
{
    let x = buffer * f.num;
    let d = f.den as int;
    let share = (x + d - 1) / d;
    vstd::arithmetic::div_mod::lemma_fundamental_div_mod(x + d - 1, d);
    let r = (x + d - 1) % d;
    assert(0 <= r < d);
    assert(x + d - 1 == d * share + r);
    assert(share * d == d * share) by (nonlinear_arith);
    assert((share - 1) * d == d * share - d) by (nonlinear_arith);
    let m = mutable_share(buffer, f);
    if m < share {
        assert((m - 1) * d <= (share - 1) * d) by (nonlinear_arith)
            requires
                m < share,
                d > 0,
        ;
    }
    if m > share {
        assert(m * d >= share * d) by (nonlinear_arith)
            requires
                m > share,
                d > 0,
        ;
    }
}

impl<D: Device> HybridLog<D> {
    pub open spec fn inv(&self) -> bool {
        self@.inv()
    }

    pub fn new(settings: LogSettings, device: D) -> (r: Self)
        requires
            settings.ok(),
        ensures
            r.inv(),
            r@.settled(),
            epoch::idle(r@.slots),
            forall|tid: u64| tid != 0 ==> #[trigger] r.can_protect(tid),
            r@.bits == settings.page_bits,
            r@.psize == vstd::arithmetic::power2::pow2(settings.page_bits as nat),
            r@.bsize >= settings.memory_pages,
            r@.bsize == 2 || r@.bsize < 2 * settings.memory_pages,
            exists|k: nat| r@.bsize == #[trigger] vstd::arithmetic::power2::pow2(k),
            r@.mpages == mutable_share(r@.bsize, settings.mutable_fraction),
            r@.tail_page == 0,
            r@.tail_off == FIRST_VALID_ADDRESS,
            r@.closed == FIRST_VALID_ADDRESS,
            r@.head == FIRST_VALID_ADDRESS,
            r@.flushed == FIRST_VALID_ADDRESS,
            r@.ro == FIRST_VALID_ADDRESS,
            r@.bounds == set![FIRST_VALID_ADDRESS as int],
            r@.content == device.content(),
            r@.durable == device.durable(),
            r@.dependable == device.dependable(),
            r@.epoch == 1,
            forall|s: int|
                0 <= s < r@.bsize ==> #[trigger] r@.pages[s] == bytes::zeros(r@.psize as nat),
    {
        let page_size: usize = power_of_two(settings.page_bits);
        let buffer_size: usize = next_power_of_two(settings.memory_pages);
        let f = settings.mutable_fraction;
        assert((buffer_size as u128) * (f.num as u128) + (f.den as u128) - 1
            <= 0xffff_ffff_ffff_ffffu128 * 0xffff_ffffu128 + 0xffff_ffffu128) by (nonlinear_arith)
            requires
                buffer_size <= 0xffff_ffff_ffff_ffff,
                f.num <= 0xffff_ffff,
                f.den <= 0xffff_ffff,
        ;
        assert(0 <= (buffer_size as u128) * (f.num as u128)) by (nonlinear_arith);
        let share: u128 = ((buffer_size as u128) * (f.num as u128) + (f.den as u128) - 1) / (
        f.den as u128);
        let mutable_pages: usize = if share < 1 {
            1
        } else if share > (buffer_size - 1) as u128 {
            buffer_size - 1
        } else {
            share as usize
        };
        let mut pages: Vec<Vec<u8>> = Vec::new();
        let mut i: usize = 0;
        while i < buffer_size
            invariant
                i <= buffer_size,
                pages@.len() == i,
                forall|s: int|
                    0 <= s < i ==> (#[trigger] pages@[s])@ == bytes::zeros(page_size as nat),
            decreases buffer_size - i,
        {
            pages.push(zero_vec(page_size));
            i += 1;
        }
        let ghost bounds: Set<int> = set![FIRST_VALID_ADDRESS as int];
        let r = HybridLog {
            page_bits: settings.page_bits,
            page_size,
            buffer_size,
            mutable_pages,
            pages,
            tail_page: 0,
            tail_offset: FIRST_VALID_ADDRESS,
            begin_address: FIRST_VALID_ADDRESS,
            closed_until_address: FIRST_VALID_ADDRESS,
            safe_head_address: FIRST_VALID_ADDRESS,
            head_address: FIRST_VALID_ADDRESS,
            flushed_until_address: FIRST_VALID_ADDRESS,
            safe_read_only_address: FIRST_VALID_ADDRESS,
            read_only_address: FIRST_VALID_ADDRESS,
            epoch: LightEpoch::new(),
            device,
            bounds: Ghost(bounds),
        };
        proof {
            assert(r@.tail() == 64) by {
                crate::math::lemma_mul_add(0, 0, page_size as int);
            }
            assert((r@.tail_page + 1) * r@.psize == r@.psize) by {
                crate::math::lemma_mul_add(0, 0, page_size as int);
            }
            assert(r@.mpages == mutable_share(r@.bsize, f)) by {
                assert(buffer_size * f.num == (buffer_size as u128) * (f.num as u128))
                    by (nonlinear_arith);
            }
            assert(r@.slots == r.epoch.slots());
            assert forall|tid: u64| tid != 0 implies #[trigger] r.can_protect(tid) by {
                assert(r.epoch.has_row(tid));
                let k = choose|k: int| #[trigger] epoch::is_row_for(r.epoch.slots(), tid, k);
                assert(epoch::is_row_for(r@.slots, tid, k));
            }
            assert forall|s: int| 0 <= s < r@.bsize implies #[trigger] r@.pages[s]
                == bytes::zeros(r@.psize as nat) by {
                assert(r@.pages[s] == r.pages@[s]@);
            }
            assert(r@.shape());
            assert(r@.order());
            assert(r@.epoch_ok());
        }
        r
    }

    /// Whether a thread has, or can be given, a row in the epoch table.
    pub open spec fn can_protect(&self, tid: u64) -> bool {
        tid != 0 && exists|k: int| #[trigger] epoch::is_row_for(self@.slots, tid, k)
    }

    // -- address accessors ---------------------------------------------------

    pub fn page_size(&self) -> (r: usize)
        ensures
            r == self@.psize,
    {
        self.page_size
    }

    pub fn page_bits(&self) -> (r: u32)
        ensures
            r == self@.bits,
    {
        self.page_bits
    }

    pub fn begin_address(&self) -> (r: u64)
        ensures
            r == self@.begin,
    {
        self.begin_address
    }

    pub fn head_address(&self) -> (r: u64)
        ensures
            r == self@.head,
    {
        self.head_address
    }

    pub fn safe_head_address(&self) -> (r: u64)
        ensures
            r == self@.safe_head,
    {
        self.safe_head_address
    }

    pub fn closed_until_address(&self) -> (r: u64)
        ensures
            r == self@.closed,
    {
        self.closed_until_address
    }

    pub fn flushed_until_address(&self) -> (r: u64)
        ensures
            r == self@.flushed,
    {
        self.flushed_until_address
    }

    pub fn read_only_address(&self) -> (r: u64)
        ensures
            r == self@.ro,
    {
        self.read_only_address
    }

    pub fn safe_read_only_address(&self) -> (r: u64)
        ensures
            r == self@.safe_ro,
    {
        self.safe_read_only_address
    }

    /// Current tail address.
    pub fn tail_address(&self) -> (r: u64)
        requires
            self.inv(),
        ensures
            r == self@.tail(),
    {
        proof {
            self@.lemma_tail();
        }
        self.tail_page * (self.page_size as u64) + self.tail_offset
    }
}

impl LogView {
    /// Facts about the tail that need multiplication.
    pub proof fn lemma_tail(self)
        requires
            self.shape(),
        ensures
            0 <= self.tail_page * self.psize,
            self.tail_page * self.psize + self.psize == (self.tail_page + 1) * self.psize,
            self.tail() <= (self.tail_page + 1) * self.psize <= ADDRESS_LIMIT,
            FIRST_VALID_ADDRESS <= self.tail(),
            self.tail_page <= ADDRESS_LIMIT,
    {
        crate::math::lemma_mul_add(self.tail_page, 1, self.psize);
        crate::math::lemma_mul_le(0, self.tail_page, self.psize);
        assert(self.tail_page <= self.tail_page * self.psize) by (nonlinear_arith)
            requires
                self.psize >= 1,
                self.tail_page >= 0,
        ;
    }

    /// The page of an address that is not closed and below the tail is resident.
    pub proof fn lemma_resident(self, a: int)
        requires
            self.shape(),
            self.order(),
            self.closed <= a,
            a < self.tail() || a < (self.tail_page + 1) * self.psize,
        ensures
            self.resident(a / self.psize),
            0 <= a % self.psize < self.psize,
            a == (a / self.psize) * self.psize + a % self.psize,
    {
        self.lemma_tail();
        crate::math::lemma_div(a, self.psize);
        crate::math::lemma_page_bounds(a, 0, self.tail_page + 1, self.psize);
        crate::math::lemma_mul_add(a / self.psize, 1, self.psize);
    }

    /// Two resident pages have different slots.
    pub proof fn lemma_distinct_slots(self, p: int, q: int)
        requires
            self.shape(),
            self.order(),
            self.resident(p),
            self.resident(q),
            p != q,
        ensures
            p % self.bsize != q % self.bsize,
    {
        let lo = if p < q {
            p
        } else {
            q
        };
        let hi = if p < q {
            q
        } else {
            p
        };
        if self.tail_page < self.bsize {
        } else {
            assert(lo + 1 > self.tail_page - self.bsize + 1) by (nonlinear_arith)
                requires
                    (lo + 1) * self.psize > self.closed,
                    self.closed >= (self.tail_page - self.bsize + 1) * self.psize,
                    self.psize > 0,
            ;
        }
        crate::math::lemma_slots_differ(lo, hi, self.bsize);
    }

    /// A resident page does not share its slot with the page after the tail
    /// page, if that one is free.
    pub proof fn lemma_slot_kept(self, p: int)
        requires
            self.shape(),
            self.order(),
            self.resident(p),
            self.page_free(self.tail_page + 1),
        ensures
            p % self.bsize != (self.tail_page + 1) % self.bsize,
    {
        let next = self.tail_page + 1;
        if next < self.bsize {
        } else {
            assert(p + 1 > next - self.bsize + 1) by (nonlinear_arith)
                requires
                    (p + 1) * self.psize > self.closed,
                    self.closed >= (next - self.bsize + 1) * self.psize,
                    self.psize > 0,
            ;
        }
        crate::math::lemma_slots_differ(p, next, self.bsize);
    }
}

impl<D: Device> HybridLog<D> {
    // -- flushing and boundary actions -----------------------------------------

    /// Flush `[flushed_until, until)` to the device, for good if `sync` is set.
    /// Monotonic, so out-of-order actions are harmless.
    #[verifier::spinoff_prover]
    #[verifier::rlimit(40)]
    pub fn flush_until(&mut self, until: u64, sync: bool) -> (r: Result<(), DeviceError>)
        requires
            old(self)@.shape(),
            old(self)@.order(),
            until <= old(self)@.safe_ro,
            until <= old(self)@.flushed || old(self)@.bounds.contains(until as int),
        ensures
            final(self)@ == (LogView {
                flushed: final(self)@.flushed,
                content: final(self)@.content,
                durable: final(self)@.durable,
                ..old(self)@
            }),
            final(self)@.order(),
            kept(old(self)@, final(self)@),
            final(self)@.flushed == (if r is Ok && until > old(self)@.flushed {
                until as int
            } else {
                old(self)@.flushed
            }),
            old(self)@.dependable >= until && old(self)@.dependable > 0 ==> r is Ok,
            sync && r is Ok ==> final(self)@.durable == final(self)@.content,
    {
        let from: u64 = self.flushed_until_address;
        if until <= from {
            if sync {
                return self.device.sync();
            }
            return Ok(());
        }
        let ghost o = self@;
        let ps: u64 = self.page_size as u64;
        let mut addr: u64 = from;
        proof {
            o.lemma_tail();
        }
        while addr < until
            invariant
                self@ == (LogView { content: self@.content, durable: self@.durable, ..o }),
                forall|i: int| 0 <= i < from && o.sure(i) ==> #[trigger] self@.sure(i),
                o.shape(),
                o.order(),
                o == old(self)@,
                ps == o.psize,
                from == o.flushed,
                from <= addr <= until <= o.safe_ro,
                o.tail() <= ADDRESS_LIMIT,
                addr == from || addr == until || addr as int % o.psize == 0,
                self@.content.len() >= o.content.len(),
                addr > from ==> self@.content.len() >= addr,
                forall|i: int|
                    0 <= i < from && i < o.content.len() ==> #[trigger] self@.content[i]
                        == o.content[i],
                forall|i: int| from <= i < addr ==> #[trigger] self@.content[i] == o.mem(i),
                self.page_size == o.psize,
                self.buffer_size == o.bsize,
            decreases until - addr,
        {
            proof {
                o.lemma_resident(addr as int);
            }
            let page: u64 = addr / ps;
            let start: u64 = addr % ps;
            let left: u64 = ps - start;
            let n: u64 = if until - addr < left {
                until - addr
            } else {
                left
            };
            let slot: usize = (page % (self.buffer_size as u64)) as usize;
            let ghost prev = self@.content;
            let ghost before = self@;
            assert(o.pages[slot as int] == self.pages@[slot as int]@);
            let data: &[u8] = slice_subrange(
                self.pages[slot].as_slice(),
                start as usize,
                (start + n) as usize,
            );
            let ghost chunk = data@;
            let w: Result<(), DeviceError> = self.device.write_at(addr, data);
            proof {
                assert forall|i: int| 0 <= i < from && o.sure(i) implies #[trigger] self@.sure(i) by {
                    assert(before.sure(i));
                    assert(self@.content[i] == before.content[i]);
                    assert(self@.durable[i] == before.durable[i]);
                }
            }
            match w {
                Ok(()) => {},
                Err(e) => {
                    proof {
                        assert(self@ =~= (LogView {
                            content: self@.content,
                            durable: self@.durable,
                            ..o
                        }));
                        assert forall|i: int| 0 <= i < from && i < o.content.len() implies #[trigger] self@.content[i]
                            == o.content[i] by {
                            assert(prev[i] == o.content[i]);
                        }
                    }
                    return Err(e);
                },
            }
            proof {
                assert forall|i: int| from <= i < addr + n implies #[trigger] self@.content[i]
                    == o.mem(i) by {
                    if i >= addr {
                        let j = i - addr;
                        crate::math::lemma_split(page as int, start + j, ps as int);
                        assert(chunk[j] == o.page(page as int)[start + j]);
                    } else {
                        assert(prev[i] == o.mem(i));
                    }
                }
                assert forall|i: int| 0 <= i < from && i < o.content.len() implies #[trigger] self@.content[i]
                    == o.content[i] by {
                    assert(prev[i] == o.content[i]);
                }
                if n == left {
                    assert(addr + n == page * ps + ps);
                    crate::math::lemma_mul_add(page as int, 1, ps as int);
                    crate::math::lemma_split(page + 1, 0, ps as int);
                }
            }
            addr = addr + n;
        }
        if sync {
            let ghost before = self@;
            let s: Result<(), DeviceError> = self.device.sync();
            proof {
                assert forall|i: int| 0 <= i < from && o.sure(i) implies #[trigger] self@.sure(i) by {
                    assert(before.sure(i));
                }
            }
            match s {
                Ok(()) => {},
                Err(e) => {
                    return Err(e);
                },
            }
        }
        self.flushed_until_address = until;
        Ok(())
    }

    /// Runs once no thread can be updating below `new_ro` in place.
    fn on_pages_marked_read_only(&mut self, new_ro: u64)
        requires
            old(self)@.shape(),
            old(self)@.order(),
            new_ro <= old(self)@.ro,
            old(self)@.bounds.contains(new_ro as int),
        ensures
            final(self)@ == (LogView {
                flushed: final(self)@.flushed,
                content: final(self)@.content,
                durable: final(self)@.durable,
                safe_ro: if new_ro > old(self)@.safe_ro {
                    new_ro as int
                } else {
                    old(self)@.safe_ro
                },
                ..old(self)@
            }),
            final(self)@.order(),
            kept(old(self)@, final(self)@),
            final(self)@.flushed >= old(self)@.flushed,
            final(self)@.flushed <= old(self)@.flushed || final(self)@.flushed <= new_ro,
            old(self)@.dependable >= new_ro && old(self)@.dependable > 0 ==> final(self)@.flushed
                >= new_ro,
    {
        if new_ro > self.safe_read_only_address {
            self.safe_read_only_address = new_ro;
        }
        let _r: Result<(), DeviceError> = self.flush_until(new_ro, false);
    }

    /// Runs once no thread can hold a pointer below `new_head`. Nothing is
    /// owed per record: the page's bytes are already on the device and the
    /// hash chains hold logical addresses, which stay valid.
    fn on_pages_closed(&mut self, new_head: u64)
        requires
            old(self)@.shape(),
            old(self)@.order(),
            new_head <= old(self)@.head,
        ensures
            final(self)@ == (LogView {
                safe_head: if new_head > old(self)@.safe_head {
                    new_head as int
                } else {
                    old(self)@.safe_head
                },
                closed: final(self)@.closed,
                ..old(self)@
            }),
            final(self)@.order(),
            final(self)@.closed >= old(self)@.closed,
            final(self)@.closed <= old(self)@.closed || final(self)@.closed <= new_head,
            if final(self)@.closed < final(self)@.psize {
                new_head < final(self)@.psize
            } else {
                final(self)@.closed > new_head - final(self)@.psize
            },
    {
        let ghost o = self@;
        if new_head > self.safe_head_address {
            self.safe_head_address = new_head;
        }
        let ps: u64 = self.page_size as u64;
        proof {
            o.lemma_tail();
        }
        // A page is closed as a whole. The first one begins below BeginAddress.
        if self.closed_until_address < ps && ps <= new_head {
            self.closed_until_address = ps;
        }
        while self.closed_until_address >= ps && self.closed_until_address + ps <= new_head
            invariant
                o == old(self)@,
                o.shape(),
                o.order(),
                o.tail() <= ADDRESS_LIMIT,
                new_head <= o.head,
                ps == o.psize,
                self@ == (LogView { safe_head: self@.safe_head, closed: self@.closed, ..o }),
                self@.safe_head == (if new_head > o.safe_head {
                    new_head as int
                } else {
                    o.safe_head
                }),
                o.closed <= self@.closed <= self@.safe_head,
                self@.closed <= o.closed || self@.closed <= new_head,
                self@.closed == o.begin || self@.closed >= o.psize,
                self@.closed < o.psize ==> new_head < o.psize,
            decreases new_head - self.closed_until_address,
        {
            self.closed_until_address = self.closed_until_address + ps;
        }
    }

    /// Perform the actions that have become safe.
    fn run(&mut self, ready: Vec<LogAction>)
        requires
            old(self)@.base(ready@),
        ensures
            final(self)@.inv(),
            moved(old(self)@, final(self)@),
            final(self)@.ro == old(self)@.ro,
            final(self)@.head == old(self)@.head,
            final(self)@.bounds == old(self)@.bounds,
            final(self)@.slots == old(self)@.slots,
            final(self)@.epoch == old(self)@.epoch,
            final(self)@.pending == old(self)@.pending,
            took(old(self)@, final(self)@, ready@),
    {
        let ghost o = self@;
        let mut i: usize = 0;
        assert(ready@.subrange(0, ready@.len() as int) =~= ready@);
        proof {
            o.lemma_tail();
        }
        while i < ready.len()
            invariant
                i <= ready@.len(),
                o == old(self)@,
                o.tail() <= ADDRESS_LIMIT,
                self@.base(ready@.subrange(i as int, ready@.len() as int)),
                moved(o, self@),
                o.order(),
                o.shape(),
                self@.ro == o.ro,
                self@.head == o.head,
                self@.bounds == o.bounds,
                self@.slots == o.slots,
                self@.epoch == o.epoch,
                self@.pending == o.pending,
                took(o, self@, ready@.subrange(0, i as int)),
            decreases ready@.len() - i,
        {
            assert(ready@.subrange(0, i + 1).drop_last() =~= ready@.subrange(0, i as int));
            let ghost rest = ready@.subrange(i as int, ready@.len() as int);
            let ghost next = ready@.subrange(i + 1, ready@.len() as int);
            let ghost b = self@;
            assert(rest[0] == ready@[i as int]);
            assert(next =~= rest.subrange(1, rest.len() as int));
            assert(b.action_ok(rest[0]));
            match ready[i] {
                LogAction::MarkReadOnly(x) => {
                    self.on_pages_marked_read_only(x);
                    proof {
                        if b.device_good() {
                            b.lemma_tail();
                        }
                    }
                },
                LogAction::ClosePages(x) => {
                    self.on_pages_closed(x);
                },
            }
            proof {
                let a = rest[0];
                assert forall|y: LogAction| rest.contains(y) && y != a implies next.contains(y) by {
                    let j = choose|j: int| 0 <= j < rest.len() && rest[j] == y;
                    assert(next[j - 1] == y);
                }
                assert forall|j: int| 0 <= j < next.len() implies self@.action_ok(
                    #[trigger] next[j],
                ) by {
                    assert(next[j] == rest[j + 1]);
                    assert(b.action_ok(rest[j + 1]));
                }
                assert forall|j: int| 0 <= j < self@.pending.len() implies self@.action_ok(
                    (#[trigger] self@.pending[j]).action,
                ) by {
                    assert(b.action_ok(b.pending[j].action));
                }
                assert(moved(b, self@));
                lemma_moved_trans(o, b, self@);
                assert forall|y: LogAction| y != a && b.owed(y, rest) implies self@.owed(y, next) by {
                    if !rest.contains(y) {
                        let j = choose|j: int|
                            0 <= j < b.pending.len() && (#[trigger] b.pending[j]).action == y;
                        assert(self@.pending[j].action == y);
                    }
                }
                let mark = LogAction::MarkReadOnly(b.ro as u64);
                let close = LogAction::ClosePages(b.head as u64);
                if b.ro_done() || a == mark {
                    assert(self@.ro_done());
                } else {
                    assert(b.owed(mark, rest));
                    assert(self@.owed(mark, next));
                }
                if b.head_done() || a == close {
                    assert(self@.head_done());
                } else {
                    assert(b.owed(close, rest));
                    assert(self@.owed(close, next));
                }
            }
            i += 1;
        }
        assert(ready@.subrange(ready@.len() as int, ready@.len() as int) =~= Seq::empty());
    }
}

impl LogView {
    /// Where the head should be once the tail is on page `next`.
    pub open spec fn desired_head(self, next: int) -> int {
        if next + 2 > self.bsize {
            (next + 2 - self.bsize) * self.psize
        } else {
            0
        }
    }

    /// Where the read-only boundary should be once the tail is on page `next`.
    pub open spec fn desired_ro(self, next: int) -> int {
        let d = if next + 1 > self.mpages {
            (next + 1 - self.mpages) * self.psize
        } else {
            0
        };
        if d < self.desired_head(next) {
            self.desired_head(next)
        } else {
            d
        }
    }

    proof fn lemma_desired(self, next: int)
        requires
            self.shape(),
            0 <= next,
        ensures
            0 <= self.desired_head(next) <= self.desired_ro(next) <= next * self.psize,
            self.desired_head(next) % self.psize == 0,
            self.desired_ro(next) % self.psize == 0,
    {
        crate::math::lemma_mul_le(next + 2 - self.bsize, next, self.psize);
        crate::math::lemma_mul_le(next + 1 - self.mpages, next, self.psize);
        crate::math::lemma_mul_le(0, next, self.psize);
        crate::math::lemma_mul_add(0, 0, self.psize);
        crate::math::lemma_split(next + 2 - self.bsize, 0, self.psize);
        crate::math::lemma_split(next + 1 - self.mpages, 0, self.psize);
        crate::math::lemma_split(0, 0, self.psize);
        if next + 2 > self.bsize {
            crate::math::lemma_mul_le(0, next + 2 - self.bsize, self.psize);
        }
    }
}

/// Registering an action, bumping the epoch and taking what became safe keeps
/// every promise.
proof fn lemma_taken(
    b: LogView,
    n: LogView,
    action: Option<LogAction>,
    ready: Seq<LogAction>,
    all: Seq<DrainAction<LogAction>>,
    safe: int,
)
    requires
        b.shape(),
        b.order(),
        b.epoch_ok(),
        n == (LogView { slots: n.slots, epoch: n.epoch, pending: n.pending, ..b }),
        n.epoch_ok(),
        match action {
            Some(a) => b.action_ok(a) && all == b.pending.push(
                DrainAction { epoch: b.epoch, action: a },
            ) && b.actions_ok(Seq::empty()) && b.promises(seq![a]),
            None => all == b.pending && b.base(Seq::empty()),
        },
        ready == epoch::ready_at(all, safe),
        n.pending == epoch::waiting_at(all, safe),
    ensures
        n.base(ready),
{
    lemma_split_actions(all, safe);
    assert forall|i: int| 0 <= i < all.len() implies b.action_ok((#[trigger] all[i]).action) by {
        if i < b.pending.len() {
            assert(all[i] == b.pending[i]);
        }
    }
    assert forall|i: int| 0 <= i < ready.len() implies n.action_ok(#[trigger] ready[i]) by {
        assert(ready.contains(ready[i]));
    }
    assert forall|i: int| 0 <= i < n.pending.len() implies n.action_ok(
        (#[trigger] n.pending[i]).action,
    ) by {
        assert(n.pending.contains(n.pending[i]));
    }
    let extra = match action {
        Some(a) => seq![a],
        None => Seq::empty(),
    };
    assert forall|y: LogAction| b.owed(y, extra) implies n.owed(y, ready) by {
        if extra.contains(y) {
            assert(all[all.len() - 1].action == y);
        } else {
            let i = choose|i: int| 0 <= i < b.pending.len() && (#[trigger] b.pending[i]).action == y;
            assert(all[i].action == y);
        }
        let i = choose|i: int| 0 <= i < all.len() && (#[trigger] all[i]).action == y;
        if all[i].epoch <= safe {
            assert(ready.contains(y));
        } else {
            assert(n.pending.contains(all[i]));
            let j = choose|j: int| 0 <= j < n.pending.len() && n.pending[j] == all[i];
            assert(n.pending[j].action == y);
        }
    }
}

/// Every registered action is either handed out or still waiting.
proof fn lemma_split_actions(p: Seq<DrainAction<LogAction>>, safe: int)
    ensures
        forall|i: int|
            0 <= i < p.len() && (#[trigger] p[i]).epoch <= safe ==> epoch::ready_at(
                p,
                safe,
            ).contains(p[i].action),
        forall|i: int|
            0 <= i < p.len() && (#[trigger] p[i]).epoch > safe ==> epoch::waiting_at(
                p,
                safe,
            ).contains(p[i]),
        forall|y: LogAction| #[trigger]
            epoch::ready_at(p, safe).contains(y) ==> exists|i: int|
                0 <= i < p.len() && (#[trigger] p[i]).action == y,
        forall|y: DrainAction<LogAction>| #[trigger]
            epoch::waiting_at(p, safe).contains(y) ==> exists|i: int|
                0 <= i < p.len() && #[trigger] p[i] == y,
    decreases p.len(),
{
    if p.len() > 0 {
        let q = p.drop_last();
        lemma_split_actions(q, safe);
        let r0 = epoch::ready_at(q, safe);
        let w0 = epoch::waiting_at(q, safe);
        let r = epoch::ready_at(p, safe);
        let w = epoch::waiting_at(p, safe);
        assert forall|y: LogAction| r0.contains(y) implies r.contains(y) by {
            let j = choose|j: int| 0 <= j < r0.len() && r0[j] == y;
            assert(r[j] == y);
        }
        assert forall|y: DrainAction<LogAction>| w0.contains(y) implies w.contains(y) by {
            let j = choose|j: int| 0 <= j < w0.len() && w0[j] == y;
            assert(w[j] == y);
        }
        if p.last().epoch <= safe {
            assert(r[r.len() - 1] == p.last().action);
        } else {
            assert(w[w.len() - 1] == p.last());
        }
        assert forall|i: int| 0 <= i < p.len() && (#[trigger] p[i]).epoch <= safe implies r.contains(
            p[i].action,
        ) by {
            if i < q.len() {
                assert(q[i] == p[i]);
            }
        }
        assert forall|i: int| 0 <= i < p.len() && (#[trigger] p[i]).epoch > safe implies w.contains(
            p[i],
        ) by {
            if i < q.len() {
                assert(q[i] == p[i]);
            }
        }
        assert forall|y: LogAction| #[trigger] r.contains(y) implies exists|i: int|
            0 <= i < p.len() && (#[trigger] p[i]).action == y by {
            let j = choose|j: int| 0 <= j < r.len() && r[j] == y;
            if j < r0.len() {
                assert(r0[j] == y);
                assert(r0.contains(y));
                let i = choose|i: int| 0 <= i < q.len() && (#[trigger] q[i]).action == y;
                assert(p[i].action == y);
            } else {
                assert(p[p.len() - 1].action == y);
            }
        }
        assert forall|y: DrainAction<LogAction>| #[trigger] w.contains(y) implies exists|i: int|
            0 <= i < p.len() && #[trigger] p[i] == y by {
            let j = choose|j: int| 0 <= j < w.len() && w[j] == y;
            if j < w0.len() {
                assert(w0[j] == y);
                assert(w0.contains(y));
                let i = choose|i: int| 0 <= i < q.len() && #[trigger] q[i] == y;
                assert(p[i] == y);
            } else {
                assert(p[p.len() - 1] == y);
            }
        }
    }
}

/// Publishing a boundary takes nothing into effect by itself.
proof fn lemma_same_drain(o: LogView, m: LogView, n: LogView, action: LogAction)
    requires
        m == (LogView { ro: m.ro, head: m.head, bounds: m.bounds, ..o }),
        drained(m, n, m.pending.push(DrainAction { epoch: m.epoch, action })),
    ensures
        drained(o, n, o.pending.push(DrainAction { epoch: o.epoch, action })),
{
    let all = m.pending.push(DrainAction { epoch: m.epoch, action });
    let safe = choose|safe: int| #[trigger]
        epoch::is_safe_epoch(n.slots, n.epoch, safe) && n.pending == epoch::waiting_at(all, safe)
            && took(m, n, epoch::ready_at(all, safe));
    assert(took(o, n, epoch::ready_at(all, safe)));
}

/// Handing out leaves the boundaries to the actions.
proof fn lemma_drained(o: LogView, m: LogView, n: LogView, all: Seq<DrainAction<LogAction>>)
    requires
        m == (LogView { slots: m.slots, epoch: m.epoch, pending: m.pending, ..o }),
        n.slots == m.slots,
        n.epoch == m.epoch,
        n.pending == m.pending,
        exists|safe: int| #[trigger]
            epoch::is_safe_epoch(m.slots, m.epoch, safe) && m.pending == epoch::waiting_at(all, safe)
                && took(m, n, epoch::ready_at(all, safe)),
    ensures
        drained(o, n, all),
{
    let safe = choose|safe: int| #[trigger]
        epoch::is_safe_epoch(m.slots, m.epoch, safe) && m.pending == epoch::waiting_at(all, safe)
            && took(m, n, epoch::ready_at(all, safe));
    assert(epoch::is_safe_epoch(n.slots, n.epoch, safe));
}

impl<D: Device> HybridLog<D> {
    // -- epoch -----------------------------------------------------------------

    /// Register an action that the boundaries already promise, and perform
    /// whatever has become safe.
    fn register(&mut self, action: LogAction)
        requires
            old(self)@.shape(),
            old(self)@.order(),
            old(self)@.epoch_ok(),
            old(self)@.action_ok(action),
            old(self)@.actions_ok(Seq::empty()),
            old(self)@.promises(seq![action]),
        ensures
            final(self)@.inv(),
            moved(old(self)@, final(self)@),
            final(self)@.ro == old(self)@.ro,
            final(self)@.head == old(self)@.head,
            final(self)@.bounds == old(self)@.bounds,
            final(self)@.slots == old(self)@.slots,
            final(self)@.epoch == old(self)@.epoch + 1 || (old(self)@.epoch == u64::MAX && final(
                self)@.epoch == u64::MAX),
            epoch::idle(old(self)@.slots) && old(self)@.epoch < u64::MAX ==> final(self)@.settled(),
            drained(old(self)@, final(self)@, registered(old(self)@, action)),
    {
        let ghost b = self@;
        let (_e, ready) = self.epoch.bump_with_action(action);
        proof {
            let all = b.pending.push(DrainAction { epoch: b.epoch, action });
            let safe = choose|safe: int| #[trigger]
                epoch::is_safe_epoch(self@.slots, self@.epoch, safe) && ready@ == epoch::ready_at(
                    all,
                    safe,
                ) && self@.pending == epoch::waiting_at(all, safe);
            lemma_taken(b, self@, Some(action), ready@, all, safe);
            if epoch::idle(b.slots) && b.epoch < u64::MAX {
                assert(safe == self@.epoch - 1);
                epoch::lemma_idle_drains(all, safe);
            }
        }
        let ghost m = self@;
        self.run(ready);
        proof {
            lemma_drained(b, m, self@, b.pending.push(DrainAction { epoch: b.epoch, action }));
            assert(moved(b, m));
            lemma_moved_trans(b, m, self@);
        }
    }

    /// Count the epoch up and perform whatever has become safe.
    pub fn bump(&mut self) -> (r: u64)
        requires
            old(self).inv(),
        ensures
            final(self).inv(),
            moved(old(self)@, final(self)@),
            final(self)@.ro == old(self)@.ro,
            final(self)@.head == old(self)@.head,
            final(self)@.bounds == old(self)@.bounds,
            final(self)@.slots == old(self)@.slots,
            r == final(self)@.epoch,
            final(self)@.epoch == old(self)@.epoch + 1 || (old(self)@.epoch == u64::MAX && final(
                self)@.epoch == u64::MAX),
            epoch::idle(old(self)@.slots) && old(self)@.epoch < u64::MAX ==> final(self)@.settled(),
            drained(old(self)@, final(self)@, old(self)@.pending),
    {
        let ghost b = self@;
        let (e, ready) = self.epoch.bump_current_epoch();
        proof {
            let safe = choose|safe: int| #[trigger]
                epoch::is_safe_epoch(self@.slots, self@.epoch, safe) && ready@ == epoch::ready_at(
                    b.pending,
                    safe,
                ) && self@.pending == epoch::waiting_at(b.pending, safe);
            lemma_taken(b, self@, None, ready@, b.pending, safe);
            if epoch::idle(b.slots) && b.epoch < u64::MAX {
                assert(safe == e - 1);
                epoch::lemma_idle_drains(b.pending, safe);
            }
        }
        let ghost m = self@;
        self.run(ready);
        proof {
            lemma_drained(b, m, self@, b.pending);
            assert(moved(b, m));
            lemma_moved_trans(b, m, self@);
        }
        e
    }

    /// Enter the current epoch.
    pub fn protect(&mut self, tid: u64) -> (r: u64)
        requires
            old(self).inv(),
            old(self).can_protect(tid),
        ensures
            final(self).inv(),
            final(self)@ == (LogView { slots: final(self)@.slots, ..old(self)@ }),
            r == old(self)@.epoch,
            exists|k: int| #[trigger]
                epoch::is_row_for(old(self)@.slots, tid, k) && final(self)@.slots == old(
                    self)@.slots.update(k, (Slot { epoch: r, owner: tid })),
    {
        self.epoch.protect(tid)
    }

    /// Whether a thread has, or can be given, a row in the epoch table.
    pub fn has_row(&self, tid: u64) -> (r: bool)
        requires
            self.inv(),
        ensures
            r == self.can_protect(tid),
    {
        self.epoch.can_protect(tid)
    }

    /// Leave the epoch.
    pub fn unprotect(&mut self, tid: u64)
        requires
            old(self).inv(),
            old(self).can_protect(tid),
        ensures
            final(self).inv(),
            final(self)@ == (LogView { slots: final(self)@.slots, ..old(self)@ }),
            exists|k: int| #[trigger]
                epoch::is_row_for(old(self)@.slots, tid, k) && final(self)@.slots == old(
                    self)@.slots.update(k, (Slot { epoch: 0, owner: tid })),
    {
        self.epoch.unprotect(tid)
    }

    /// Re-enter the current epoch and perform whatever has become safe.
    pub fn refresh(&mut self, tid: u64) -> (r: u64)
        requires
            old(self).inv(),
            old(self).can_protect(tid),
        ensures
            final(self).inv(),
            moved(old(self)@, final(self)@),
            final(self)@.ro == old(self)@.ro,
            final(self)@.head == old(self)@.head,
            final(self)@.bounds == old(self)@.bounds,
            final(self)@.epoch == old(self)@.epoch,
            r == old(self)@.epoch,
            exists|k: int| #[trigger]
                epoch::is_row_for(old(self)@.slots, tid, k) && final(self)@.slots == old(
                    self)@.slots.update(k, (Slot { epoch: r, owner: tid })),
            drained(old(self)@, final(self)@, old(self)@.pending),
    {
        let ghost b = self@;
        let (e, ready) = self.epoch.refresh(tid);
        proof {
            let safe = choose|safe: int| #[trigger]
                epoch::is_safe_epoch(self@.slots, self@.epoch, safe) && ready@ == epoch::ready_at(
                    b.pending,
                    safe,
                ) && self@.pending == epoch::waiting_at(b.pending, safe);
            lemma_taken(b, self@, None, ready@, b.pending, safe);
        }
        let ghost m = self@;
        self.run(ready);
        proof {
            lemma_drained(b, m, self@, b.pending);
            assert(moved(b, m));
            lemma_moved_trans(b, m, self@);
        }
        e
    }

    /// Give up a thread's row in the epoch table.
    pub fn release_thread(&mut self, tid: u64)
        requires
            old(self).inv(),
            tid != 0,
        ensures
            final(self).inv(),
            final(self)@ == (LogView { slots: final(self)@.slots, ..old(self)@ }),
            final(self)@.slots == old(self)@.slots.map_values(
                |s: Slot|
                    if s.owner == tid {
                        Slot { epoch: 0, owner: 0 }
                    } else {
                        s
                    },
            ),
            !epoch::owns(final(self)@.slots, tid),
            epoch::idle(old(self)@.slots) ==> epoch::idle(final(self)@.slots),
    {
        self.epoch.release_thread(tid);
    }

    pub fn current_epoch(&self) -> (r: u64)
        ensures
            r == self@.epoch,
    {
        self.epoch.current_epoch()
    }

    /// Whether a thread is inside the epoch.
    pub fn is_protected(&self, tid: u64) -> (r: bool)
        requires
            self.inv(),
            tid != 0,
        ensures
            r == epoch::protects(self@.slots, tid),
    {
        self.epoch.is_protected(tid)
    }

    /// Perform every action registered so far. No thread may be protected.
    pub fn drain_all_blocking(&mut self)
        requires
            old(self).inv(),
            epoch::idle(old(self)@.slots),
            old(self)@.epoch < u64::MAX,
        ensures
            final(self).inv(),
            moved(old(self)@, final(self)@),
            final(self)@.settled(),
            final(self)@.ro == old(self)@.ro,
            final(self)@.head == old(self)@.head,
            final(self)@.bounds == old(self)@.bounds,
            final(self)@.slots == old(self)@.slots,
            final(self)@.epoch == old(self)@.epoch + 1,
            drained(old(self)@, final(self)@, old(self)@.pending),
    {
        let _e: u64 = self.bump();
    }

    // -- boundary shifts (the epoch two-step) -------------------------------------

    /// Publish a new ReadOnly address; after the epoch drains, mark the range
    /// safe and flush it. Returns false if there is nothing to do.
    pub fn shift_read_only_address(&mut self, new_ro: u64) -> (r: bool)
        requires
            old(self).inv(),
            new_ro <= old(self)@.tail(),
        ensures
            final(self).inv(),
            moved(old(self)@, final(self)@),
            r == (new_ro > old(self)@.ro),
            final(self)@.ro == (if r {
                new_ro as int
            } else {
                old(self)@.ro
            }),
            final(self)@.head == old(self)@.head,
            final(self)@.slots == old(self)@.slots,
            bounds_grow(old(self)@, final(self)@, new_ro as int),
            final(self)@.epoch <= old(self)@.epoch + 1,
            !r ==> final(self)@ == old(self)@,
            r && epoch::idle(old(self)@.slots) && old(self)@.epoch < u64::MAX ==> final(
                self)@.settled(),
            r && epoch::idle(old(self)@.slots) && old(self)@.epoch < u64::MAX && old(
                self)@.device_good() ==> final(self)@.safe_ro == new_ro && final(self)@.flushed
                == new_ro,
            r ==> drained(
                old(self)@,
                final(self)@,
                registered(old(self)@, LogAction::MarkReadOnly(new_ro)),
            ),
            !epoch::idle(old(self)@.slots) ==> held_back(old(self)@, final(self)@),
    {
        if new_ro <= self.read_only_address {
            return false;
        }
        let ghost b = self@;
        self.read_only_address = new_ro;
        proof {
            self.bounds@ = self.bounds@.insert(new_ro as int);
            let a = LogAction::MarkReadOnly(new_ro);
            assert(seq![a].contains(a)) by {
                assert(seq![a][0] == a);
            }
            assert forall|y: LogAction| b.owed(y, Seq::empty()) implies self@.owed(y, seq![a]) by {
                let i = choose|i: int|
                    0 <= i < b.pending.len() && (#[trigger] b.pending[i]).action == y;
                assert(self@.pending[i].action == y);
            }
            assert forall|i: int| 0 <= i < self@.pending.len() implies self@.action_ok(
                (#[trigger] self@.pending[i]).action,
            ) by {
                assert(b.action_ok(b.pending[i].action));
            }
        }
        let ghost m = self@;
        self.register(LogAction::MarkReadOnly(new_ro));
        proof {
            assert(moved(b, m));
            lemma_moved_trans(b, m, self@);
            lemma_same_drain(b, m, self@, LogAction::MarkReadOnly(new_ro));
            if !epoch::idle(b.slots) {
                let k = choose|k: int| 0 <= k < b.slots.len() && #[trigger] b.slots[k].epoch != 0;
                let all = b.pending.push(
                    DrainAction { epoch: b.epoch, action: LogAction::MarkReadOnly(new_ro) },
                );
                assert(all.drop_last() =~= b.pending);
                lemma_withheld_start(b, b.slots[k].epoch);
                lemma_withheld_step(b, self@, all, k, b.slots[k].epoch, b.ro, b.head);
            }
        }
        true
    }

    /// Publish a new Head (clamped to FlushedUntil: never evict unflushed
    /// data); after the epoch drains, free the pages below it.
    pub fn shift_head_address(&mut self, desired: u64) -> (r: bool)
        requires
            old(self).inv(),
        ensures
            final(self).inv(),
            moved(old(self)@, final(self)@),
            r == (desired > old(self)@.head && old(self)@.flushed > old(self)@.head),
            final(self)@.head == (if !r {
                old(self)@.head
            } else if desired < old(self)@.flushed {
                desired as int
            } else {
                old(self)@.flushed
            }),
            final(self)@.ro == old(self)@.ro,
            final(self)@.slots == old(self)@.slots,
            final(self)@.bounds == old(self)@.bounds,
            final(self)@.epoch <= old(self)@.epoch + 1,
            !r ==> final(self)@ == old(self)@,
            r && epoch::idle(old(self)@.slots) && old(self)@.epoch < u64::MAX ==> final(
                self)@.settled(),
            r ==> drained(
                old(self)@,
                final(self)@,
                registered(old(self)@, LogAction::ClosePages(final(self)@.head as u64)),
            ),
            !epoch::idle(old(self)@.slots) ==> held_back(old(self)@, final(self)@),
    {
        let new_head: u64 = if desired < self.flushed_until_address {
            desired
        } else {
            self.flushed_until_address
        };
        if new_head <= self.head_address {
            return false;
        }
        let ghost b = self@;
        self.head_address = new_head;
        proof {
            let a = LogAction::ClosePages(new_head);
            assert(seq![a].contains(a)) by {
                assert(seq![a][0] == a);
            }
            assert forall|y: LogAction| b.owed(y, Seq::empty()) implies self@.owed(y, seq![a]) by {
                let i = choose|i: int|
                    0 <= i < b.pending.len() && (#[trigger] b.pending[i]).action == y;
                assert(self@.pending[i].action == y);
            }
            assert forall|i: int| 0 <= i < self@.pending.len() implies self@.action_ok(
                (#[trigger] self@.pending[i]).action,
            ) by {
                assert(b.action_ok(b.pending[i].action));
            }
        }
        let ghost m = self@;
        self.register(LogAction::ClosePages(new_head));
        proof {
            assert(moved(b, m));
            lemma_moved_trans(b, m, self@);
            lemma_same_drain(b, m, self@, LogAction::ClosePages(new_head));
            if !epoch::idle(b.slots) {
                let k = choose|k: int| 0 <= k < b.slots.len() && #[trigger] b.slots[k].epoch != 0;
                let all = b.pending.push(
                    DrainAction { epoch: b.epoch, action: LogAction::ClosePages(new_head) },
                );
                assert(all.drop_last() =~= b.pending);
                lemma_withheld_start(b, b.slots[k].epoch);
                lemma_withheld_step(b, self@, all, k, b.slots[k].epoch, b.ro, b.head);
            }
        }
        true
    }

    /// On a page turn to `next`, move ReadOnly and Head as far as they should be.
    fn issue_shift_addresses(&mut self, next: u64)
        requires
            old(self).inv(),
            next * old(self)@.psize <= old(self)@.tail(),
        ensures
            final(self).inv(),
            moved(old(self)@, final(self)@),
            bounds_grow(old(self)@, final(self)@, 0),
            final(self)@.slots == old(self)@.slots,
            pushed_on(old(self)@, final(self)@, next as int),
            final(self)@.epoch <= old(self)@.epoch + 2,
            !epoch::idle(old(self)@.slots) ==> held_back(old(self)@, final(self)@),
    {
        let ghost b = self@;
        let ps: u64 = self.page_size as u64;
        let bs: u64 = self.buffer_size as u64;
        let mp: u64 = self.mutable_pages as u64;
        proof {
            b.lemma_tail();
            b.lemma_desired(next as int);
            assert(next <= next * b.psize) by (nonlinear_arith)
                requires
                    b.psize >= 1,
            ;
            crate::math::lemma_split(0, 0, b.psize);
        }
        let desired_head: u64 = if next + 2 > bs {
            (next + 2 - bs) * ps
        } else {
            0
        };
        let d: u64 = if next + 1 > mp {
            (next + 1 - mp) * ps
        } else {
            0
        };
        let desired_ro: u64 = if d < desired_head {
            desired_head
        } else {
            d
        };
        assert(desired_head == b.desired_head(next as int));
        assert(desired_ro == b.desired_ro(next as int));
        if desired_ro > self.read_only_address {
            let _moved: bool = self.shift_read_only_address(desired_ro);
        }
        let ghost m = self@;
        if desired_head > self.head_address {
            let _moved: bool = self.shift_head_address(desired_head);
        }
        proof {
            lemma_moved_trans(b, m, self@);
            if !epoch::idle(b.slots) {
                let k = choose|k: int| 0 <= k < b.slots.len() && #[trigger] b.slots[k].epoch != 0;
                let e = b.slots[k].epoch;
                lemma_withheld_start(b, e);
                if m != b {
                    let all = b.pending.push(
                        DrainAction { epoch: b.epoch, action: LogAction::MarkReadOnly(desired_ro) },
                    );
                    assert(all.drop_last() =~= b.pending);
                    lemma_withheld_step(b, m, all, k, e, b.ro, b.head);
                }
                if self@ != m {
                    let all = m.pending.push(
                        DrainAction {
                            epoch: m.epoch,
                            action: LogAction::ClosePages(self@.head as u64),
                        },
                    );
                    assert(all.drop_last() =~= m.pending);
                    assert(m.slots[k].epoch <= m.epoch);
                    lemma_withheld_step(m, self@, all, k, e, b.ro, b.head);
                }
            }
        }
    }

    /// Advance ReadOnly to the tail (fold-over checkpoint core). Returns the
    /// tail it was moved to.
    pub fn shift_read_only_to_tail(&mut self) -> (r: u64)
        requires
            old(self).inv(),
        ensures
            final(self).inv(),
            moved(old(self)@, final(self)@),
            r == old(self)@.tail(),
            final(self)@.ro == r,
            final(self)@.head == old(self)@.head,
            final(self)@.slots == old(self)@.slots,
            bounds_grow(old(self)@, final(self)@, r as int),
            final(self)@.epoch <= old(self)@.epoch + 1,
            if r > old(self)@.ro {
                drained(
                    old(self)@,
                    final(self)@,
                    registered(old(self)@, LogAction::MarkReadOnly(r)),
                )
            } else {
                final(self)@ == old(self)@
            },
            r > old(self)@.ro && epoch::idle(old(self)@.slots) && old(self)@.epoch < u64::MAX
                ==> final(self)@.settled(),
            !epoch::idle(old(self)@.slots) ==> held_back(old(self)@, final(self)@),
    {
        let tail: u64 = self.tail_address();
        let _moved: bool = self.shift_read_only_address(tail);
        tail
    }

    /// Wait until everything below `until` is flushed. No thread may be
    /// protected, and the device must serve the writes.
    pub fn wait_flushed(&mut self, until: u64)
        requires
            old(self).inv(),
            until <= old(self)@.ro,
            epoch::idle(old(self)@.slots),
            old(self)@.epoch < u64::MAX,
            old(self)@.device_good(),
        ensures
            final(self).inv(),
            moved(old(self)@, final(self)@),
            final(self)@.flushed >= until,
            final(self)@.ro == old(self)@.ro,
            final(self)@.head == old(self)@.head,
            final(self)@.bounds == old(self)@.bounds,
            final(self)@.slots == old(self)@.slots,
            final(self)@.epoch <= old(self)@.epoch + 1,
    {
        if self.flushed_until_address < until {
            let _e: u64 = self.bump();
        }
    }
}

/// Where an allocation of `size` bytes goes when it succeeds.
pub open spec fn alloc_at(o: LogView, size: int) -> int {
    if o.tail_off + size <= o.psize {
        o.tail()
    } else {
        (o.tail_page + 1) * o.psize + FIRST_VALID_ADDRESS
    }
}

/// Whether an allocation of `size` bytes succeeds right away.
pub open spec fn alloc_ready(o: LogView, size: int) -> bool {
    o.tail_off + size <= o.psize || (o.page_free(o.tail_page + 1) && (o.tail_page + 2) * o.psize
        <= ADDRESS_LIMIT)
}

/// The boundaries have been moved for a tail on page `next`: the read-only one as
/// far as the mutable share asks for, the head as far as the buffer asks for and
/// what is flushed allows.
pub open spec fn pushed_on(o: LogView, n: LogView, next: int) -> bool {
    let ro = o.desired_ro(next);
    let head = o.desired_head(next);
    &&& n.ro == clamp_low(o.ro, ro)
    &&& o.head <= n.head <= clamp_low(o.head, head)
    &&& n.head >= head || n.head >= o.flushed
    &&& o.settled() && epoch::idle(o.slots) && o.epoch < u64::MAX - 1 && o.device_good()
        && o.dependable >= (next + 1) * o.psize ==> n.head == clamp_low(o.head, head)
}

/// `size` bytes were reserved at `a`: resident pages keep their bytes and a
/// page that was turned to starts out blank.
pub open spec fn allocated(o: LogView, n: LogView, a: int, size: int) -> bool {
    &&& same_config(o, n)
    &&& advanced(o, n)
    &&& bounds_grow(o, n, 0)
    &&& n.slots == o.slots
    &&& !epoch::idle(o.slots) ==> held_back(o, n)
    &&& a == alloc_at(o, size)
    &&& n.tail() == a + size
    &&& n.tail_page == a / o.psize
    &&& n.tail_off == a % o.psize + size
    &&& n.ro <= a
    &&& if o.tail_off + size <= o.psize {
        n == (LogView { tail_off: n.tail_off, ..o })
    } else {
        n.tail_page == o.tail_page + 1 && n.pages == o.pages.update(
            (o.tail_page + 1) % o.bsize,
            bytes::zeros(o.psize as nat),
        ) && pushed_on(o, n, o.tail_page + 1)
    }
}

/// An allocation had to wait: the rest of the tail page is given up and the
/// boundaries move as far as they can.
pub open spec fn alloc_waits(o: LogView, n: LogView) -> bool {
    let next = o.tail_page + 1;
    &&& same_config(o, n)
    &&& advanced(o, n)
    &&& bounds_grow(o, n, 0)
    &&& n.slots == o.slots
    &&& !epoch::idle(o.slots) ==> held_back(o, n)
    &&& n.pages == o.pages
    &&& n.tail_page == o.tail_page
    &&& n.tail_off == o.tail_off || n.tail_off == o.psize
    &&& if (o.tail_page + 2) * o.psize <= ADDRESS_LIMIT {
        n.tail_off == o.psize && pushed_on(o, n, next)
    } else {
        n == o
    }
}

impl<D: Device> HybridLog<D> {
    // -- allocation ------------------------------------------------------------

    fn page_is_free(&self, page: u64) -> (r: bool)
        requires
            self@.shape(),
            page == self@.tail_page + 1,
        ensures
            r == self@.page_free(page as int),
    {
        if page < self.buffer_size as u64 {
            return true;
        }
        proof {
            self@.lemma_tail();
            crate::math::lemma_mul_le(
                page - self.buffer_size + 1,
                self@.tail_page + 1,
                self@.psize,
            );
            crate::math::lemma_mul_le(0, page - self.buffer_size + 1, self@.psize);
        }
        // The slot's previous occupant must be fully closed.
        let prev_end: u64 = (page - self.buffer_size as u64 + 1) * (self.page_size as u64);
        self.closed_until_address >= prev_end
    }

    /// Reserve `size` bytes (8-byte multiple) at the tail.
    pub fn try_allocate(&mut self, size: usize) -> (r: AllocResult)
        requires
            old(self).inv(),
            size > 0,
            size % 8 == 0,
            size + PAGE_HEADER_SIZE <= old(self)@.psize,
        ensures
            final(self).inv(),
            r is Address <==> alloc_ready(old(self)@, size as int),
            r matches AllocResult::Address(a) ==> allocated(
                old(self)@,
                final(self)@,
                a as int,
                size as int,
            ),
            !(r is Address) ==> r is RetryLater && alloc_waits(old(self)@, final(self)@),
            final(self)@.epoch <= old(self)@.epoch + 2,
    {
        let ghost o = self@;
        proof {
            o.lemma_tail();
        }
        let ps: u64 = self.page_size as u64;
        let page: u64 = self.tail_page;
        let off: u64 = self.tail_offset;
        let new_off: u64 = off + size as u64;
        if new_off <= ps {
            self.tail_offset = new_off;
            proof {
                crate::math::lemma_split(page as int, off as int, ps as int);
                lemma_same_promises(o, self@);
                assert(self@.tail() == o.tail() + size);
                assert(kept(o, self@));
            }
            let a: u64 = page * ps + off;
            return AllocResult::Address(a);
        }
        let next: u64 = page + 1;
        proof {
            lemma_limit(next + 1, ps as int);
            crate::math::lemma_mul_add(next as int, 1, ps as int);
            crate::math::lemma_mul_add(page as int, 1, ps as int);
        }
        if next + 1 > ADDRESS_LIMIT / ps {
            assert(kept(o, self@));
            return AllocResult::RetryLater;
        }
        if !self.page_is_free(next) {
            // Give up the rest of the page so that the next allocation re-runs
            // this check; meanwhile push the flush/close machinery.
            self.tail_offset = ps;
            proof {
                lemma_same_promises(o, self@);
            }
            let ghost m = self@;
            self.issue_shift_addresses(next);
            proof {
                assert forall|i: int| o.flushed <= i < self@.flushed implies #[trigger] self@.content[i]
                    == o.mem(i) by {
                    assert(self@.content[i] == m.mem(i));
                }
            }
            return AllocResult::RetryLater;
        }
        // Blank the page slot before publishing so scans can stop at the first
        // all-zero header.
        let slot: usize = (next % (self.buffer_size as u64)) as usize;
        let blank: Vec<u8> = zero_vec(self.page_size);
        let ghost before = self.pages@;
        self.pages.set(slot, blank);
        self.tail_page = next;
        self.tail_offset = FIRST_VALID_ADDRESS + size as u64;
        proof {
            assert(self@.pages =~= o.pages.update(slot as int, bytes::zeros(o.psize as nat))) by {
                assert(self@.pages.len() == o.pages.len());
                assert forall|j: int| 0 <= j < o.pages.len() implies #[trigger] self@.pages[j]
                    == o.pages.update(slot as int, bytes::zeros(o.psize as nat))[j] by {
                    assert(o.pages[j] == before[j]@);
                }
            }
            crate::math::lemma_split(next as int, 64, ps as int);
            lemma_same_promises(o, self@);
        }
        let ghost m = self@;
        self.issue_shift_addresses(next);
        proof {
            m.lemma_desired(next as int);
            crate::math::lemma_mul_le(page + 1, next + 1, ps as int);
            assert(o.settled() && m.device_good() ==> m.settled());
            assert forall|i: int| o.flushed <= i < self@.flushed implies #[trigger] self@.content[i]
                == o.mem(i) by {
                assert(self@.content[i] == m.mem(i));
                assert(i < next * ps);
                o.lemma_resident(i);
                o.lemma_slot_kept(i / o.psize);
            }
        }
        AllocResult::Address(next * ps + FIRST_VALID_ADDRESS)
    }

    /// Skip over immediate retries; the caller still handles waiting.
    pub fn try_allocate_retry_now(&mut self, size: usize) -> (r: Option<u64>)
        requires
            old(self).inv(),
            size > 0,
            size % 8 == 0,
            size + PAGE_HEADER_SIZE <= old(self)@.psize,
        ensures
            final(self).inv(),
            r is Some <==> alloc_ready(old(self)@, size as int),
            r matches Some(a) ==> allocated(old(self)@, final(self)@, a as int, size as int),
            r is None ==> alloc_waits(old(self)@, final(self)@),
            final(self)@.epoch <= old(self)@.epoch + 2,
    {
        match self.try_allocate(size) {
            AllocResult::Address(a) => Some(a),
            _ => None,
        }
    }
}

proof fn lemma_limit(x: int, p: int)
    requires
        0 < p,
    ensures
        (x <= (ADDRESS_LIMIT as int) / p) == (x * p <= ADDRESS_LIMIT),
{
    let l = ADDRESS_LIMIT as int;
    crate::math::lemma_div(l, p);
    if x <= l / p {
        crate::math::lemma_mul_le(x, l / p, p);
    } else {
        crate::math::lemma_mul_le(l / p + 1, x, p);
        crate::math::lemma_mul_add(l / p, 1, p);
    }
}

/// Moving the tail leaves what the boundaries promise alone.
proof fn lemma_same_promises(o: LogView, n: LogView)
    requires
        o.shape(),
        o.actions_ok(Seq::empty()),
        o.promises(Seq::empty()),
        n == (LogView { pages: n.pages, tail_page: n.tail_page, tail_off: n.tail_off, ..o }),
        n.tail_page >= o.tail_page,
    ensures
        n.actions_ok(Seq::empty()),
        n.promises(Seq::empty()),
{
    crate::math::lemma_mul_le(o.tail_page + 1, n.tail_page + 1, o.psize);
    assert forall|i: int| 0 <= i < n.pending.len() implies n.action_ok(
        (#[trigger] n.pending[i]).action,
    ) by {
        assert(o.action_ok(o.pending[i].action));
    }
    assert forall|y: LogAction| o.owed(y, Seq::empty()) implies n.owed(y, Seq::empty()) by {
        let i = choose|i: int| 0 <= i < o.pending.len() && (#[trigger] o.pending[i]).action == y;
        assert(n.pending[i].action == y);
    }
}

// ---------------------------------------------------------------------------
// Records in memory and on disk
// ---------------------------------------------------------------------------

impl LogView {
    /// The in-memory bytes from an address to the end of its page.
    pub open spec fn rest_of_page(self, a: int) -> Seq<u8> {
        self.page(a / self.psize).subrange(a % self.psize, self.psize)
    }

    /// The log after a record was written over the bytes at `a`.
    pub open spec fn with_record(self, a: int, r: RecordView) -> LogView {
        let slot = (a / self.psize) % self.bsize;
        LogView {
            pages: self.pages.update(
                slot,
                bytes::splice(self.pages[slot], a % self.psize, record::encode(r)),
            ),
            ..self
        }
    }
}

/// The records laid out in `s[off..limit]`. Pages are blank before use and
/// every record's header word is non-zero, so a blank header means that no
/// data follows on this page.
#[verifier::opaque]
pub open spec fn records_in(s: Seq<u8>, off: int, limit: int) -> Seq<(int, RecordView)>
    decreases limit - off,
{
    if off < 0 || off + MIN_DISK_READ > limit || limit > s.len() {
        Seq::empty()
    } else if record::blank_header(s.subrange(off, limit)) {
        Seq::empty()
    } else {
        match record::decode(s.subrange(off, limit)) {
            None => Seq::empty(),
            Some(r) => if r.size() <= 0 {
                Seq::empty()
            } else {
                seq![(off, r)] + records_in(s, off + r.size(), limit)
            },
        }
    }
}

/// `v` lists the records of `s`, in order.
pub open spec fn lists_at(v: Seq<(u64, RecordPtr)>, s: Seq<(int, RecordView)>) -> bool {
    &&& v.len() == s.len()
    &&& forall|i: int|
        0 <= i < v.len() ==> (#[trigger] v[i]).0 == s[i].0 && v[i].1.wf() && v[i].1@ == s[i].1
}

/// Offsets turned into logical addresses.
pub open spec fn shifted(s: Seq<(int, RecordView)>, by: int) -> Seq<(int, RecordView)> {
    s.map_values(|e: (int, RecordView)| (e.0 + by, e.1))
}

pub open spec fn clamp_low(a: int, low: int) -> int {
    if a < low {
        low
    } else {
        a
    }
}

pub open spec fn clamp_high(a: int, high: int) -> int {
    if a > high {
        high
    } else {
        a
    }
}

/// End offset of the last record of a listing, or `from` if it is empty.
pub open spec fn end_of(s: Seq<(int, RecordView)>, from: int) -> int {
    if s.len() == 0 {
        from
    } else {
        s.last().0 + s.last().1.size()
    }
}

impl LogView {
    /// How much of the page of `a` is read from the device when scanning from
    /// `a` up to `to`: the flushed prefix, if `a` is below the head.
    pub open spec fn disk_limit(self, a: int, to: int) -> int {
        let start = (a / self.psize) * self.psize;
        let end = clamp_high(start + self.psize, to);
        if a < self.head {
            clamp_high(end, self.flushed) - start
        } else {
            0
        }
    }

    /// The records of the page of `a`, from `a` up to `to`: the flushed prefix
    /// from the device, the remainder from memory.
    pub open spec fn page_scan(self, a: int, to: int) -> Seq<(int, RecordView)> {
        let page = a / self.psize;
        let start = page * self.psize;
        let limit = clamp_high(start + self.psize, to) - start;
        let dl = self.disk_limit(a, to);
        let from = clamp_low(a - start, PAGE_HEADER_SIZE as int);
        let disk = if from < dl {
            records_in(self.content.subrange(start, start + dl), from, dl)
        } else {
            Seq::empty()
        };
        let next = end_of(disk, from);
        let mem = if next < limit {
            records_in(self.page(page), clamp_low(clamp_low(next, dl), PAGE_HEADER_SIZE as int), limit)
        } else {
            Seq::empty()
        };
        shifted(disk + mem, start)
    }

    /// Every record in `[a, to)` in address order.
    pub open spec fn full_scan(self, a: int, to: int) -> Seq<(int, RecordView)>
        decreases clamp_low(to - a, 0),
    {
        let next = (a / self.psize + 1) * self.psize;
        if a >= to || next <= a {
            Seq::empty()
        } else {
            self.page_scan(a, to) + self.full_scan(next, to)
        }
    }
}

pub proof fn lemma_records_bounds(s: Seq<u8>, off: int, limit: int)
    ensures
        forall|i: int|
            0 <= i < records_in(s, off, limit).len() ==> off <= (#[trigger] records_in(
                s,
                off,
                limit,
            )[i]).0 && records_in(s, off, limit)[i].0 + records_in(s, off, limit)[i].1.size()
                <= limit <= s.len() && records_in(s, off, limit)[i].1.size() >= 24,
    decreases limit - off,
{
    reveal(records_in);
    if off < 0 || off + MIN_DISK_READ > limit || limit > s.len() {
    } else if record::blank_header(s.subrange(off, limit)) {
    } else {
        match record::decode(s.subrange(off, limit)) {
            None => {},
            Some(r) => {
                if r.size() > 0 {
                    lemma_records_bounds(s, off + r.size(), limit);
                    let t = records_in(s, off + r.size(), limit);
                    assert forall|i: int|
                        0 <= i < records_in(s, off, limit).len() implies off <= (
                    #[trigger] records_in(s, off, limit)[i]).0 && records_in(s, off, limit)[i].0
                        + records_in(s, off, limit)[i].1.size() <= limit <= s.len() && records_in(
                        s,
                        off,
                        limit,
                    )[i].1.size() >= 24 by {
                        if i > 0 {
                            assert(records_in(s, off, limit)[i] == t[i - 1]);
                        }
                    }
                }
            },
        }
    }
}

/// Collect the records laid out in `buf[from_off..limit]`, where the buffer
/// starts at address `base`. Returns the offset after the last one.
pub(crate) fn for_each_record_in_buf(
    buf: &[u8],
    from_off: usize,
    limit: usize,
    base: u64,
    out: &mut Vec<(u64, RecordPtr)>,
    Ghost(acc): Ghost<Seq<(int, RecordView)>>,
) -> (end: usize)
    requires
        limit <= buf@.len(),
        base + limit <= u64::MAX,
        lists_at(old(out)@, acc),
    ensures
        ({
            let from = clamp_low(from_off as int, PAGE_HEADER_SIZE as int);
            let s = records_in(buf@, from, limit as int);
            &&& end == end_of(s, from)
            &&& lists_at(final(out)@, acc + shifted(s, base as int))
        }),
{
    let mut off: usize = if from_off < PAGE_HEADER_SIZE {
        PAGE_HEADER_SIZE
    } else {
        from_off
    };
    let ghost from = off as int;
    let ghost whole = records_in(buf@, off as int, limit as int);
    let ghost mut done: Seq<(int, RecordView)> = Seq::empty();
    assert(done + whole =~= whole);
    assert(acc + shifted(done, base as int) =~= acc);
    while limit >= MIN_DISK_READ && off <= limit - MIN_DISK_READ
        invariant
            limit <= buf@.len(),
            base + limit <= u64::MAX,
            from == clamp_low(from_off as int, PAGE_HEADER_SIZE as int),
            whole == records_in(buf@, from, limit as int),
            whole == done + records_in(buf@, off as int, limit as int),
            off == end_of(done, from),
            lists_at(out@, acc + shifted(done, base as int)),
        decreases limit - off,
    {
        let s: &[u8] = slice_subrange(buf, off, limit);
        let ghost rest = records_in(buf@, off as int, limit as int);
        reveal(records_in);
        if record::peek_blank(s) {
            assert(done + rest =~= done);
            return off;
        }
        match RecordPtr::new(s) {
            None => {
                assert(done + rest =~= done);
                return off;
            },
            Some(rec) => {
                let ghost r = rec@;
                let ghost before = out@;
                let ghost t0 = acc + shifted(done, base as int);
                proof {
                    record::lemma_size_facts(r);
                    assert(r.size() <= limit - off);
                    assert(done + rest =~= done.push((off as int, r)) + records_in(
                        buf@,
                        off + r.size(),
                        limit as int,
                    ));
                    done = done.push((off as int, r));
                }
                let size: usize = rec.total_size();
                out.push((base + off as u64, rec));
                proof {
                    let t = acc + shifted(done, base as int);
                    assert(t =~= t0.push((off + base, r)));
                    assert forall|i: int| 0 <= i < out@.len() implies (#[trigger] out@[i]).0
                        == t[i].0 && out@[i].1.wf() && out@[i].1@ == t[i].1 by {
                        if i < before.len() {
                            assert(out@[i] == before[i]);
                        }
                    }
                }
                off = off + size;
            },
        }
    }
    assert(records_in(buf@, off as int, limit as int) =~= Seq::empty()) by {
        reveal(records_in);
    }
    assert(done + records_in(buf@, off as int, limit as int) =~= done);
    off
}

/// The records of a buffer depend on nothing beyond its limit.
pub proof fn lemma_records_prefix(s: Seq<u8>, t: Seq<u8>, off: int, limit: int)
    requires
        limit <= s.len(),
        limit <= t.len(),
        forall|i: int| 0 <= i < limit ==> #[trigger] s[i] == t[i],
    ensures
        records_in(s, off, limit) == records_in(t, off, limit),
    decreases limit - off,
{
    reveal(records_in);
    if off < 0 || off + MIN_DISK_READ > limit {
    } else {
        assert(s.subrange(off, limit) =~= t.subrange(off, limit));
        match record::decode(s.subrange(off, limit)) {
            None => {},
            Some(r) => {
                if r.size() > 0 {
                    lemma_records_prefix(s, t, off + r.size(), limit);
                }
            },
        }
    }
}

impl<D: Device> HybridLog<D> {
    /// The in-memory record at `addr`.
    pub fn record_at(&self, addr: u64) -> (r: RecordPtr)
        requires
            self.inv(),
            self@.resident(addr as int / self@.psize),
            record::decode(self@.rest_of_page(addr as int)) is Some,
        ensures
            r.wf(),
            Some(r@) == record::decode(self@.rest_of_page(addr as int)),
    {
        let s: &[u8] = self.page_tail(addr);
        RecordPtr::new(s).unwrap()
    }

    /// The in-memory bytes from `addr` to the end of its page.
    fn page_tail(&self, addr: u64) -> (r: &[u8])
        requires
            self.inv(),
            self@.resident(addr as int / self@.psize),
        ensures
            r@ == self@.rest_of_page(addr as int),
    {
        proof {
            crate::math::lemma_div(addr as int, self@.psize);
        }
        let ps: u64 = self.page_size as u64;
        let page: u64 = addr / ps;
        let off: u64 = addr % ps;
        let slot: usize = (page % (self.buffer_size as u64)) as usize;
        assert(self@.pages[slot as int] == self.pages@[slot as int]@);
        slice_subrange(self.pages[slot].as_slice(), off as usize, self.page_size)
    }

    /// The header word of the in-memory record at `addr`.
    pub fn info_at(&self, addr: u64) -> (r: RecordInfo)
        requires
            self.inv(),
            self@.resident(addr as int / self@.psize),
            record::decode(self@.rest_of_page(addr as int)) is Some,
        ensures
            r.0 == record::decode(self@.rest_of_page(addr as int)).unwrap().word,
    {
        record::peek_info(self.page_tail(addr))
    }

    /// Whether the in-memory record at `addr` has this key.
    pub fn key_is(&self, addr: u64, key: &[u8]) -> (r: bool)
        requires
            self.inv(),
            self@.resident(addr as int / self@.psize),
            record::decode(self@.rest_of_page(addr as int)) is Some,
        ensures
            r == (record::decode(self@.rest_of_page(addr as int)).unwrap().key == key@),
    {
        record::peek_key_is(self.page_tail(addr), key)
    }

    /// Write a record over the in-memory bytes at `addr`.
    pub fn write_record(&mut self, addr: u64, rec: &RecordPtr)
        requires
            old(self).inv(),
            old(self)@.resident(addr as int / old(self)@.psize),
            rec.wf(),
            addr as int % old(self)@.psize + rec@.size() <= old(self)@.psize,
        ensures
            final(self).inv(),
            final(self)@ == old(self)@.with_record(addr as int, rec@),
    {
        let ghost o = self@;
        proof {
            crate::math::lemma_div(addr as int, o.psize);
            record::lemma_size_facts(rec@);
        }
        let ps: u64 = self.page_size as u64;
        let page: u64 = addr / ps;
        let off: u64 = addr % ps;
        let slot: usize = (page % (self.buffer_size as u64)) as usize;
        let data: Vec<u8> = rec.to_bytes();
        let ghost before = self.pages@;
        assert(o.pages[slot as int] == before[slot as int]@);
        let mut p: Vec<u8> = Vec::new();
        self.pages.set_and_swap(slot, &mut p);
        overwrite(&mut p, off as usize, data.as_slice());
        self.pages.set_and_swap(slot, &mut p);
        proof {
            assert(self@.pages =~= o.with_record(addr as int, rec@).pages) by {
                assert forall|j: int| 0 <= j < o.pages.len() implies #[trigger] self@.pages[j]
                    == o.with_record(addr as int, rec@).pages[j] by {
                    assert(o.pages[j] == before[j]@);
                }
            }
            lemma_same_promises(o, self@);
        }
    }

    /// Read the record at an on-disk address.
    pub fn read_record_from_disk(&self, addr: u64) -> (r: Result<AlignedBuf, DeviceError>)
        ensures
            r matches Ok(b) ==> addr + b.0@.len() <= self@.content.len() && b.0@.len()
                == record::header_total(
                self@.content.subrange(addr as int, self@.content.len() as int),
            ) && b.0@ == self@.content.subrange(addr as int, addr + b.0@.len()),
            ({
                let total = record::header_total(
                    self@.content.subrange(addr as int, self@.content.len() as int),
                );
                addr + 24 <= self@.content.len() && addr + total <= self@.content.len() && addr
                    + total <= self@.dependable && total <= usize::MAX ==> r is Ok
            }),
    {
        let mut hdr: Vec<u8> = zero_vec(MIN_DISK_READ);
        let first: Result<(), DeviceError> = self.device.read_at(addr, hdr.as_mut_slice());
        let ghost c = self@.content;
        let ghost rest = c.subrange(addr as int, c.len() as int);
        proof {
            if addr + 24 <= c.len() {
                assert(c.subrange(addr as int, addr + 24).subrange(8, 12) =~= rest.subrange(8, 12));
                assert(c.subrange(addr as int, addr + 24).subrange(16, 20) =~= rest.subrange(16, 20));
                assert(c.subrange(addr as int, addr + 24).subrange(20, 24) =~= rest.subrange(20, 24));
            }
        }
        match first {
            Ok(()) => {},
            Err(e) => {
                return Err(e);
            },
        }
        let size: usize = match total_size_from_header(hdr.as_slice()) {
            Some(n) => n,
            None => {
                return Err(DeviceError::failed("record too large"));
            },
        };
        let mut buf = AlignedBuf::with_len(size);
        let second: Result<(), DeviceError> = self.device.read_at(addr, buf.0.as_mut_slice());
        match second {
            Ok(()) => Ok(buf),
            Err(e) => Err(e),
        }
    }

    /// Read the first `len` bytes of an on-disk page into a page-sized buffer.
    pub fn read_page_prefix_from_disk(&self, page: u64, len: usize) -> (r: Result<
        AlignedBuf,
        DeviceError,
    >)
        requires
            self.inv(),
            len <= self@.psize,
            (page + 1) * self@.psize <= ADDRESS_LIMIT,
        ensures
            r matches Ok(b) ==> (len > 0 ==> page * self@.psize + len <= self@.content.len())
                && b.0@ == (if len > 0 {
                self@.content.subrange(page * self@.psize, page * self@.psize + len)
            } else {
                Seq::empty()
            }) + bytes::zeros((self@.psize - len) as nat),
            page * self@.psize + len <= self@.content.len() && page * self@.psize + len
                <= self@.dependable ==> r is Ok,
    {
        let mut buf = AlignedBuf::with_len(self.page_size);
        proof {
            crate::math::lemma_mul_add(page as int, 1, self@.psize);
            crate::math::lemma_mul_le(0, page as int, self@.psize);
        }
        if len > 0 {
            let mut part: Vec<u8> = zero_vec(len);
            match self.device.read_at(page * (self.page_size as u64), part.as_mut_slice()) {
                Ok(()) => {},
                Err(e) => {
                    return Err(e);
                },
            }
            overwrite(&mut buf.0, 0, part.as_slice());
            assert(buf.0@ =~= part@ + bytes::zeros((self@.psize - len) as nat));
        } else {
            assert(buf.0@ =~= Seq::<u8>::empty() + bytes::zeros((self@.psize - len) as nat));
        }
        Ok(buf)
    }

    /// The records on one in-memory page.
    pub fn for_each_record_in_memory_page(&self, page: u64) -> (r: Vec<RecordPtr>)
        requires
            self.inv(),
            self@.resident(page as int),
        ensures
            ({
                let s = records_in(
                    self@.page(page as int),
                    PAGE_HEADER_SIZE as int,
                    if page == self@.tail_page {
                        self@.tail_off
                    } else {
                        self@.psize
                    },
                );
                r@.len() == s.len() && forall|i: int|
                    0 <= i < r@.len() ==> (#[trigger] r@[i]).wf() && r@[i]@ == s[i].1
            }),
    {
        let slot: usize = (page % (self.buffer_size as u64)) as usize;
        assert(self@.pages[slot as int] == self.pages@[slot as int]@);
        let limit: usize = if page == self.tail_page {
            self.tail_offset as usize
        } else {
            self.page_size
        };
        let mut found: Vec<(u64, RecordPtr)> = Vec::new();
        let ghost s = records_in(self@.page(page as int), 64, limit as int);
        let ghost empty: Seq<(int, RecordView)> = Seq::empty();
        assert(lists_at(found@, empty));
        let _end: usize = for_each_record_in_buf(
            self.pages[slot].as_slice(),
            PAGE_HEADER_SIZE,
            limit,
            0,
            &mut found,
            Ghost(empty),
        );
        assert(empty + shifted(s, 0) =~= s);
        let mut rev: Vec<RecordPtr> = Vec::new();
        let ghost all = found@;
        while found.len() > 0
            invariant
                found@.len() + rev@.len() == all.len(),
                found@ == all.subrange(0, found@.len() as int),
                lists_at(all, s),
                forall|i: int|
                    0 <= i < rev@.len() ==> (#[trigger] rev@[i]).wf() && rev@[i]@ == s[all.len() - 1
                        - i].1,
            decreases found@.len(),
        {
            let e = found.pop().unwrap();
            rev.push(e.1);
        }
        let mut out: Vec<RecordPtr> = Vec::new();
        while rev.len() > 0
            invariant
                out@.len() + rev@.len() == all.len(),
                all.len() == s.len(),
                forall|i: int| 0 <= i < out@.len() ==> (#[trigger] out@[i]).wf() && out@[i]@ == s[i].1,
                forall|i: int|
                    0 <= i < rev@.len() ==> (#[trigger] rev@[i]).wf() && rev@[i]@ == s[all.len() - 1
                        - i].1,
            decreases rev@.len(),
        {
            let e = rev.pop().unwrap();
            out.push(e);
        }
        out
    }

    /// Collect the records of the page of `addr`, from `addr` up to `to`. The
    /// flushed prefix of the page is read from the device if `addr` is below
    /// the head (immutable, so identical to the memory copy up to seal bits);
    /// the remainder is walked in memory.
    fn scan_page(
        &self,
        addr: u64,
        to: u64,
        out: &mut Vec<(u64, RecordPtr)>,
        Ghost(acc): Ghost<Seq<(int, RecordView)>>,
    ) -> (r: Result<(), DeviceError>)
        requires
            self.inv(),
            FIRST_VALID_ADDRESS <= addr < to <= self@.tail(),
            lists_at(old(out)@, acc),
        ensures
            r is Ok ==> lists_at(final(out)@, acc + self@.page_scan(addr as int, to as int)),
            r is Err ==> final(out)@ == old(out)@,
            self@.dependable >= self@.flushed ==> r is Ok,
    {
        let ghost v = self@;
        let ps: u64 = self.page_size as u64;
        let page: u64 = addr / ps;
        proof {
            v.lemma_tail();
            crate::math::lemma_div(addr as int, ps as int);
            crate::math::lemma_page_bounds(addr as int, 0, v.tail_page + 1, ps as int);
            crate::math::lemma_mul_le(page + 1, v.tail_page + 1, ps as int);
            crate::math::lemma_mul_add(page as int, 1, ps as int);
        }
        let start: u64 = page * ps;
        let page_end: u64 = if start + ps > to {
            to
        } else {
            start + ps
        };
        let limit: usize = (page_end - start) as usize;
        let disk_limit: usize = if addr < self.head_address {
            if page_end > self.flushed_until_address {
                (self.flushed_until_address - start) as usize
            } else {
                limit
            }
        } else {
            0
        };
        assert(v.disk_limit(addr as int, to as int) == disk_limit);
        let start_off: usize = if addr - start < PAGE_HEADER_SIZE as u64 {
            PAGE_HEADER_SIZE
        } else {
            (addr - start) as usize
        };
        let mut next_off: usize = start_off;
        let ghost disk: Seq<(int, RecordView)> = if start_off < disk_limit {
            records_in(
                v.content.subrange(start as int, start + disk_limit),
                start_off as int,
                disk_limit as int,
            )
        } else {
            Seq::empty()
        };
        let ghost acc2 = acc + shifted(disk, start as int);
        if disk_limit > 0 {
            let dbuf: AlignedBuf = match self.read_page_prefix_from_disk(page, disk_limit) {
                Ok(b) => b,
                Err(e) => {
                    return Err(e);
                },
            };
            if start_off < disk_limit {
                proof {
                    lemma_records_prefix(
                        dbuf.0@,
                        v.content.subrange(start as int, start + disk_limit),
                        start_off as int,
                        disk_limit as int,
                    );
                }
                next_off = for_each_record_in_buf(
                    dbuf.0.as_slice(),
                    start_off,
                    disk_limit,
                    start,
                    out,
                    Ghost(acc),
                );
            }
        }
        proof {
            if start_off >= disk_limit {
                assert(acc2 =~= acc);
            }
            assert(next_off == end_of(disk, start_off as int));
        }
        let ghost mem: Seq<(int, RecordView)> = if next_off < limit {
            records_in(
                v.page(page as int),
                clamp_low(clamp_low(next_off as int, disk_limit as int), 64),
                limit as int,
            )
        } else {
            Seq::empty()
        };
        if next_off < limit {
            let slot: usize = (page % (self.buffer_size as u64)) as usize;
            assert(v.pages[slot as int] == self.pages@[slot as int]@);
            let mem_from: usize = if next_off < disk_limit {
                disk_limit
            } else {
                next_off
            };
            let _end: usize = for_each_record_in_buf(
                self.pages[slot].as_slice(),
                mem_from,
                limit,
                start,
                out,
                Ghost(acc2),
            );
        }
        proof {
            let part = v.page_scan(addr as int, to as int);
            assert(part == shifted(disk + mem, start as int));
            assert(acc + part =~= acc2 + shifted(mem, start as int));
            if next_off >= limit {
                assert(acc2 + shifted(mem, start as int) =~= acc2);
            }
        }
        Ok(())
    }

    /// Every record in `[from, to)` in address order. If the device fails, what
    /// was found before is returned with the error.
    pub fn scan(&self, from: u64, to: u64) -> (r: (Vec<(u64, RecordPtr)>, Result<(), DeviceError>))
        requires
            self.inv(),
            to <= self@.tail(),
        ensures
            ({
                let all = self@.full_scan(clamp_low(from as int, FIRST_VALID_ADDRESS as int), to as int);
                &&& r.1 is Ok ==> lists_at(r.0@, all)
                &&& r.1 is Err ==> exists|k: int|
                    0 <= k <= all.len() && lists_at(r.0@, #[trigger] all.subrange(0, k))
            }),
            self@.dependable >= self@.flushed ==> r.1 is Ok,
    {
        let ghost v = self@;
        proof {
            v.lemma_tail();
        }
        let ps: u64 = self.page_size as u64;
        let mut addr: u64 = if from < FIRST_VALID_ADDRESS {
            FIRST_VALID_ADDRESS
        } else {
            from
        };
        let ghost all = v.full_scan(addr as int, to as int);
        let ghost mut done: Seq<(int, RecordView)> = Seq::empty();
        let mut out: Vec<(u64, RecordPtr)> = Vec::new();
        assert(done + all =~= all);
        while addr < to
            invariant
                v == self@,
                v.inv(),
                ps == v.psize,
                to <= v.tail() <= (v.tail_page + 1) * v.psize <= ADDRESS_LIMIT,
                FIRST_VALID_ADDRESS <= addr,
                all == v.full_scan(
                    clamp_low(from as int, FIRST_VALID_ADDRESS as int),
                    to as int,
                ),
                all == done + v.full_scan(addr as int, to as int),
                lists_at(out@, done),
            decreases
                    if to > addr {
                        to - addr
                    } else {
                        0
                    },
        {
            let page: u64 = addr / ps;
            proof {
                crate::math::lemma_div(addr as int, ps as int);
                crate::math::lemma_page_bounds(addr as int, 0, v.tail_page + 1, ps as int);
                crate::math::lemma_mul_le(page + 1, v.tail_page + 1, ps as int);
                crate::math::lemma_mul_add(page as int, 1, ps as int);
            }
            match self.scan_page(addr, to, &mut out, Ghost(done)) {
                Ok(()) => {},
                Err(e) => {
                    assert(all.subrange(0, done.len() as int) =~= done);
                    return (out, Err(e));
                },
            }
            proof {
                let part = v.page_scan(addr as int, to as int);
                let rest = v.full_scan((page + 1) * ps, to as int);
                assert(v.full_scan(addr as int, to as int) == part + rest);
                assert(done + (part + rest) =~= (done + part) + rest);
                done = done + part;
            }
            addr = page * ps + ps;
        }
        assert(done + v.full_scan(addr as int, to as int) =~= done);
        (out, Ok(()))
    }

    // -- recovery support --------------------------------------------------

    /// Reset the log so that `[begin, tail)` is considered entirely on disk
    /// (cold recovery): head = tail, nothing in memory.
    pub fn recover_addresses(&mut self, begin: u64, tail: u64)
        requires
            old(self).inv(),
            old(self)@.pending.len() == 0,
            begin == FIRST_VALID_ADDRESS,
            FIRST_VALID_ADDRESS <= tail,
            tail % 8 == 0,
            tail as int % old(self)@.psize == 0 || tail as int % old(self)@.psize >= FIRST_VALID_ADDRESS,
            (tail as int / old(self)@.psize + 1) * old(self)@.psize <= ADDRESS_LIMIT,
            tail > FIRST_VALID_ADDRESS ==> old(self)@.content.len() >= tail,
        ensures
            final(self).inv(),
            final(self)@.settled(),
            final(self)@.tail() == tail,
            final(self)@ == (LogView {
                pages: final(self)@.pages,
                tail_page: if tail as int % old(self)@.psize == 0 {
                    tail as int / old(self)@.psize - 1
                } else {
                    tail as int / old(self)@.psize
                },
                tail_off: if tail as int % old(self)@.psize == 0 {
                    old(self)@.psize
                } else {
                    tail as int % old(self)@.psize
                },
                begin: begin as int,
                closed: if tail < old(self)@.psize {
                    FIRST_VALID_ADDRESS as int
                } else {
                    (tail as int / old(self)@.psize) * old(self)@.psize
                },
                safe_head: tail as int,
                head: tail as int,
                flushed: tail as int,
                safe_ro: tail as int,
                ro: tail as int,
                bounds: set![tail as int],
                ..old(self)@
            }),
            final(self)@.page(final(self)@.tail_page) == bytes::zeros(old(self)@.psize as nat),
    {
        let ghost o = self@;
        let ps: u64 = self.page_size as u64;
        proof {
            crate::math::lemma_div(tail as int, ps as int);
            crate::math::lemma_mul_add(tail as int / ps as int, 1, ps as int);
        }
        let page: u64 = tail / ps;
        let off: u64 = tail % ps;
        proof {
            if off == 0 {
                assert(page >= 1) by (nonlinear_arith)
                    requires
                        tail == page * ps + off,
                        tail >= 64,
                        off == 0,
                ;
                crate::math::lemma_mul_add(page as int, 1, ps as int);
                crate::math::lemma_mul_le(page as int, page + 1, ps as int);
            }
            crate::math::lemma_mul_le(0, page as int, ps as int);
            crate::math::lemma_split(page as int, 0, ps as int);
        }
        // A tail at the very start of a page is the end of the page before it.
        let (tail_page, tail_offset): (u64, u64) = if off == 0 {
            (page - 1, ps)
        } else {
            (page, off)
        };
        let slot: usize = (tail_page % (self.buffer_size as u64)) as usize;
        let blank: Vec<u8> = zero_vec(self.page_size);
        let ghost before = self.pages@;
        self.pages.set(slot, blank);
        self.begin_address = begin;
        self.closed_until_address = if page == 0 {
            FIRST_VALID_ADDRESS
        } else {
            page * ps
        };
        self.safe_head_address = tail;
        self.head_address = tail;
        self.flushed_until_address = tail;
        self.safe_read_only_address = tail;
        self.read_only_address = tail;
        self.tail_page = tail_page;
        self.tail_offset = tail_offset;
        proof {
            self.bounds@ = set![tail as int];
            let n = self@;
            assert(n.pages =~= o.pages.update(slot as int, bytes::zeros(o.psize as nat))) by {
                assert forall|j: int| 0 <= j < o.pages.len() implies #[trigger] n.pages[j]
                    == o.pages.update(slot as int, bytes::zeros(o.psize as nat))[j] by {
                    assert(o.pages[j] == before[j]@);
                }
            }
            assert(n.tail() == tail);
            crate::math::lemma_mul_le(n.tail_page - n.bsize + 1, page as int, ps as int);
            assert(n.page_free(n.tail_page));
            assert(n.shape()) by {
                if off == 0 {
                    assert((n.tail_page + 1) * n.psize == page * ps);
                }
                let k = ps as int / 8;
                assert(page * ps == 8 * (page * k)) by (nonlinear_arith)
                    requires
                        ps == 8 * k,
                ;
            }
            assert(n.order());
        }
    }

    /// Rewrite bytes that were flushed before.
    pub fn rewrite_on_device(&mut self, addr: u64, data: &[u8]) -> (r: Result<(), DeviceError>)
        requires
            old(self).inv(),
            addr + data@.len() <= old(self)@.content.len(),
        ensures
            final(self).inv(),
            final(self)@ == (LogView {
                content: final(self)@.content,
                durable: final(self)@.durable,
                ..old(self)@
            }),
            device::torn(
                old(self)@.durable,
                final(self)@.durable,
                addr as int,
                data@.len() as int,
            ),
            r is Ok ==> final(self)@.content == bytes::splice(
                old(self)@.content,
                addr as int,
                data@,
            ),
            r is Err ==> device::torn(
                old(self)@.content,
                final(self)@.content,
                addr as int,
                data@.len() as int,
            ),
            final(self)@.content.len() >= old(self)@.content.len(),
            addr + data@.len() <= old(self)@.dependable ==> r is Ok,
    {
        self.device.write_at(addr, data)
    }

    pub fn device(&self) -> (r: &D)
        ensures
            r.content() == self@.content,
            r.durable() == self@.durable,
            r.dependable() == self@.dependable,
    {
        &self.device
    }
}

} // verus!
