//! Append-only file: the deterministic operation log.
//!
//! Every store-mutating command is logged as a *deterministic operation*: the
//! command's RESP bytes plus the captured timestamp used for expiration. Replay re-executes the commands through the same dispatch path
//! with the logged timestamp, so it reproduces the exact state, including
//! which keys had expired, without consulting the wall clock.
//!
//! Framing (little-endian):
//! ```text
//!   [u32 payload_len][u8 version][u8 op_type][u16 _reserved][i64 timestamp_ms][payload...]
//! ```
//! `payload` is the raw RESP command array (`*N\r\n$..\r\n..`).
//!
//! Commit policy:
//! * `CommitMode::Always` fsyncs after every append (full durability: the
//!   server waits for commit before acking the write).
//! * `CommitMode::Interval(ms)` fsyncs from a background thread (lazy
//!   durability / group commit).
//! * `CommitMode::Never` keeps everything in the OS page cache (pure cache).
//!
//! The file itself is someone else's: this module keeps what is still to be
//! written and how far the file is written and synced.
use crate::bytes::{push_all, to_vec};
use crate::le;
use crate::le::{u32_from_le_bytes, u32_to_le_bytes, u64_from_le_bytes, u64_to_le_bytes};
use crate::record;
use vstd::prelude::*;
use vstd::slice::slice_subrange;
use vstd::wrapping::u64_specs;

verus! {

pub const AOF_VERSION: u8 = 1;

/// Bytes before the payload of an entry.
pub const HEADER_LEN: usize = 16;

/// Buffered bytes at which they are handed to the file without waiting for a
/// commit.
pub const FLUSH_LIMIT: usize = 0x1_0000;

#[derive(Clone, Copy, Debug, PartialEq, Eq, Structural)]
pub enum AofOp {
    /// A single write command (SET/DEL/INCR/...): payload is its RESP bytes.
    Command,
    /// Transaction bracket start.
    TxnStart,
    /// Transaction bracket commit.
    TxnCommit,
}

impl AofOp {
    pub open spec fn code(self) -> u8 {
        match self {
            AofOp::Command => 1,
            AofOp::TxnStart => 2,
            AofOp::TxnCommit => 3,
        }
    }

    pub open spec fn decoded(v: u8) -> Option<AofOp> {
        if v == 1 {
            Some(AofOp::Command)
        } else if v == 2 {
            Some(AofOp::TxnStart)
        } else if v == 3 {
            Some(AofOp::TxnCommit)
        } else {
            None
        }
    }

    fn to_u8(self) -> (r: u8)
        ensures
            r == self.code(),
    {
        match self {
            AofOp::Command => 1,
            AofOp::TxnStart => 2,
            AofOp::TxnCommit => 3,
        }
    }

    fn from_u8(v: u8) -> (r: Option<AofOp>)
        ensures
            r == Self::decoded(v),
    {
        match v {
            1 => Some(AofOp::Command),
            2 => Some(AofOp::TxnStart),
            3 => Some(AofOp::TxnCommit),
            _ => None,
        }
    }
}

#[derive(Clone, Copy, Debug, PartialEq, Eq, Structural)]
pub enum CommitMode {
    Never,
    Interval(u64),
    Always,
}

pub struct AofEntry {
    pub op: AofOp,
    pub timestamp_ms: i64,
    pub payload: Vec<u8>,
}

/// An entry as its parts.
#[verifier::ext_equal]
pub struct EntryView {
    pub op: AofOp,
    pub timestamp_ms: i64,
    pub payload: Seq<u8>,
}

impl View for AofEntry {
    type V = EntryView;

    open spec fn view(&self) -> EntryView {
        EntryView { op: self.op, timestamp_ms: self.timestamp_ms, payload: self.payload@ }
    }
}

/// The bytes of an entry.
pub open spec fn frame(e: EntryView) -> Seq<u8> {
    le::u32_le(e.payload.len() as u32) + seq![AOF_VERSION, e.op.code(), 0u8, 0u8] + le::u64_le(
        e.timestamp_ms as u64,
    ) + e.payload
}

/// The bytes of a list of entries.
pub open spec fn frames(l: Seq<EntryView>) -> Seq<u8>
    decreases l.len(),
{
    if l.len() == 0 {
        Seq::empty()
    } else {
        frame(l[0]) + frames(l.drop_first())
    }
}

/// The entry at the front of `s`, if there is a whole one.
pub open spec fn front(s: Seq<u8>) -> Option<EntryView> {
    if s.len() < HEADER_LEN {
        None
    } else {
        let plen = le::u32_of(s.subrange(0, 4)) as int;
        match AofOp::decoded(s[5]) {
            None => None,
            Some(op) => if s[4] != AOF_VERSION || HEADER_LEN + plen > s.len() {
                None
            } else {
                Some(
                    EntryView {
                        op,
                        timestamp_ms: le::u64_of(s.subrange(8, 16)) as i64,
                        payload: s.subrange(16, 16 + plen),
                    },
                )
            },
        }
    }
}

/// The entries of a log, up to the first that is not whole.
pub open spec fn entries(s: Seq<u8>) -> Seq<EntryView>
    decreases s.len(),
{
    match front(s) {
        None => Seq::empty(),
        Some(e) => seq![e] + entries(s.subrange(16 + e.payload.len() as int, s.len() as int)),
    }
}

/// Payloads are as long as their length field can say.
pub proof fn lemma_payload_lengths(s: Seq<u8>)
    ensures
        forall|i: int|
            0 <= i < entries(s).len() ==> (#[trigger] entries(s)[i]).payload.len() <= u32::MAX,
    decreases s.len(),
{
    if front(s) is Some {
        let e = front(s).unwrap();
        let rest = s.subrange(16 + e.payload.len() as int, s.len() as int);
        lemma_payload_lengths(rest);
        assert forall|i: int| 0 <= i < entries(s).len() implies (
        #[trigger] entries(s)[i]).payload.len() <= u32::MAX by {
            if i > 0 {
                assert(entries(s)[i] == entries(rest)[i - 1]);
            }
        }
    }
}

/// The entries in `log`, in order. A torn tail from a crash mid-write is ignored.
pub fn replay(log: &[u8]) -> (r: Vec<AofEntry>)
    ensures
        r@.len() == entries(log@).len(),
        forall|i: int| 0 <= i < r@.len() ==> (#[trigger] r@[i])@ == entries(log@)[i],
{
    let mut found: Vec<AofEntry> = Vec::new();
    let mut pos: usize = 0;
    let n: usize = log.len();
    let ghost all = entries(log@);
    let ghost mut done: Seq<EntryView> = Seq::empty();
    proof {
        assert(log@.subrange(0, n as int) =~= log@);
        assert(done + all =~= all);
    }
    while n - pos >= HEADER_LEN
        invariant
            n == log@.len(),
            pos <= n,
            all == entries(log@),
            all == done + entries(log@.subrange(pos as int, n as int)),
            found@.len() == done.len(),
            forall|i: int| 0 <= i < found@.len() ==> (#[trigger] found@[i])@ == done[i],
        ensures
            all == done,
            found@.len() == done.len(),
            forall|i: int| 0 <= i < found@.len() ==> (#[trigger] found@[i])@ == done[i],
        decreases n - pos,
    {
        let ghost s = log@.subrange(pos as int, n as int);
        let hdr: &[u8] = slice_subrange(log, pos, pos + HEADER_LEN);
        proof {
            assert(hdr@.subrange(0, 4) =~= s.subrange(0, 4));
            assert(hdr@.subrange(8, 16) =~= s.subrange(8, 16));
        }
        let plen: u32 = u32_from_le_bytes(slice_subrange(hdr, 0, 4));
        let version: u8 = hdr[4];
        let op: AofOp = match AofOp::from_u8(hdr[5]) {
            Some(op) => op,
            None => {
                assert(done + entries(s) =~= done);
                break;
            },
        };
        let ts: i64 = u64_from_le_bytes(slice_subrange(hdr, 8, 16)) as i64;
        if version != AOF_VERSION || plen as usize > n - pos - HEADER_LEN {
            assert(done + entries(s) =~= done);
            break;  // torn/partial entry

        }
        let from: usize = pos + HEADER_LEN;
        let to: usize = from + plen as usize;
        let payload: Vec<u8> = to_vec(slice_subrange(log, from, to));
        let entry = AofEntry { op, timestamp_ms: ts, payload };
        proof {
            assert(payload@ =~= s.subrange(16, 16 + plen as int));
            let rest = log@.subrange(to as int, n as int);
            assert(s.subrange(16 + plen as int, s.len() as int) =~= rest);
            assert(front(s) == Some(entry@));
            assert(done + (seq![entry@] + entries(rest)) =~= done.push(entry@) + entries(rest));
            done = done.push(entry@);
        }
        found.push(entry);
        pos = to;
    }
    found
}

proof fn lemma_front(e: EntryView, t: Seq<u8>)
    requires
        e.payload.len() <= u32::MAX,
    ensures
        front(frame(e) + t) == Some(e),
        frame(e).len() == 16 + e.payload.len(),
        (frame(e) + t).subrange(16 + e.payload.len() as int, (frame(e) + t).len() as int) == t,
{
    le::le_round_trip();
    let s = frame(e) + t;
    assert(s.subrange(0, 4) =~= le::u32_le(e.payload.len() as u32));
    assert(s.subrange(8, 16) =~= le::u64_le(e.timestamp_ms as u64));
    assert(s.subrange(16, 16 + e.payload.len() as int) =~= e.payload);
    assert(s.subrange(16 + e.payload.len() as int, s.len() as int) =~= t);
    record::lemma_cast_i64(e.timestamp_ms);
}

/// What was appended is what replay lists, in order, followed by whatever
/// whole entries come after.
pub proof fn replay_lists_what_was_appended(l: Seq<EntryView>, t: Seq<u8>)
    requires
        forall|i: int| 0 <= i < l.len() ==> (#[trigger] l[i]).payload.len() <= u32::MAX,
    ensures
        entries(frames(l) + t) == l + entries(t),
    decreases l.len(),
{
    if l.len() == 0 {
        assert(frames(l) + t =~= t);
        assert(l + entries(t) =~= entries(t));
    } else {
        let rest = l.drop_first();
        assert forall|i: int| 0 <= i < rest.len() implies (#[trigger] rest[i]).payload.len() <= u32::MAX by {
            assert(rest[i] == l[i + 1]);
        }
        replay_lists_what_was_appended(rest, t);
        lemma_front(l[0], frames(rest) + t);
        assert(frames(l) + t =~= frame(l[0]) + (frames(rest) + t));
        assert(seq![l[0]] + (rest + entries(t)) =~= l + entries(t));
    }
}

/// An entry that was not written to its end is not listed.
pub proof fn torn_entry_is_ignored(e: EntryView, n: int)
    requires
        e.payload.len() <= u32::MAX,
        0 <= n < frame(e).len(),
    ensures
        entries(frame(e).subrange(0, n)) == Seq::<EntryView>::empty(),
{
    le::le_round_trip();
    let s = frame(e).subrange(0, n);
    lemma_front(e, Seq::empty());
    if n >= 16 {
        assert(s.subrange(0, 4) =~= le::u32_le(e.payload.len() as u32));
    }
}

// ---------------------------------------------------------------------------
// The log on its way to the file
// ---------------------------------------------------------------------------

/// What the file of a log is asked to do.
#[derive(Clone, Copy, Debug, PartialEq, Eq, Structural)]
pub enum LogStep {
    /// Take what is still to be written.
    Write,
    /// Make what it took durable.
    Sync,
    /// Nothing.
    Rest,
}

pub struct Aof {
    /// Bytes appended but not yet written to the file.
    buf: Vec<u8>,
    /// Total bytes handed to the OS.
    written: u64,
    /// Bytes fsynced.
    committed: u64,
    mode: CommitMode,
}

/// The log as its parts.
#[verifier::ext_equal]
pub struct AofView {
    pub buf: Seq<u8>,
    pub written: u64,
    pub committed: u64,
    pub mode: CommitMode,
}

impl AofView {
    /// Address just past the last entry.
    pub open spec fn tail(self) -> u64 {
        u64_specs::wrapping_add(self.written, self.buf.len() as u64)
    }

    /// What the file has to do next.
    pub open spec fn next(self, commit: bool) -> LogStep {
        if self.buf.len() > 0 && (commit || self.buf.len() >= FLUSH_LIMIT || self.mode is Always) {
            LogStep::Write
        } else if commit && self.committed < self.written {
            LogStep::Sync
        } else {
            LogStep::Rest
        }
    }

    /// The log once the file has done it.
    pub open spec fn after(self, step: LogStep) -> AofView {
        match step {
            LogStep::Write => AofView { buf: Seq::empty(), written: self.tail(), ..self },
            LogStep::Sync => AofView { committed: self.written, ..self },
            LogStep::Rest => self,
        }
    }

    /// With one more entry.
    pub open spec fn with(self, e: EntryView) -> AofView {
        AofView { buf: self.buf + frame(e), ..self }
    }
}

impl View for Aof {
    type V = AofView;

    closed spec fn view(&self) -> AofView {
        AofView {
            buf: self.buf@,
            written: self.written,
            committed: self.committed,
            mode: self.mode,
        }
    }
}

impl Aof {
    /// Continue a file of `written` bytes.
    pub fn open(written: u64, mode: CommitMode) -> (r: Self)
        ensures
            r@ == (AofView { buf: Seq::empty(), written, committed: written, mode }),
    {
        Aof { buf: Vec::new(), written, committed: written, mode }
    }

    /// Tail address of the log.
    pub fn tail_address(&self) -> (r: u64)
        ensures
            r == self@.tail(),
    {
        self.written.wrapping_add(self.buf.len() as u64)
    }

    pub fn committed_address(&self) -> (r: u64)
        ensures
            r == self@.committed,
    {
        self.committed
    }

    /// Append an entry. Returns the address just past it.
    pub fn enqueue(&mut self, op: AofOp, timestamp_ms: i64, payload: &[u8]) -> (r: u64)
        requires
            payload@.len() <= u32::MAX,
        ensures
            final(self)@ == old(self)@.with(EntryView { op, timestamp_ms, payload: payload@ }),
            r == final(self)@.tail(),
    {
        let ghost before = self.buf@;
        push_all(&mut self.buf, u32_to_le_bytes(payload.len() as u32).as_slice());
        self.buf.push(AOF_VERSION);
        self.buf.push(op.to_u8());
        self.buf.push(0);
        self.buf.push(0);
        push_all(&mut self.buf, u64_to_le_bytes(timestamp_ms as u64).as_slice());
        push_all(&mut self.buf, payload);
        assert(self.buf@ =~= before + frame(EntryView { op, timestamp_ms, payload: payload@ }));
        self.tail_address()
    }

    /// Whether an append is to be durable before it is acknowledged: always in
    /// that mode, and when `wait` asks for it.
    pub fn commits_appends(&self, wait: bool) -> (r: bool)
        ensures
            r == (wait || self@.mode is Always),
    {
        wait || self.mode == CommitMode::Always
    }

    /// What the file has to do next. It is written when the buffer is getting
    /// large, when every append is to be committed, or to `commit`, which also
    /// syncs what was written.
    pub fn next_step(&self, commit: bool) -> (r: LogStep)
        ensures
            r == self@.next(commit),
    {
        if self.buf.len() > 0 && (commit || self.buf.len() >= FLUSH_LIMIT || self.mode
            == CommitMode::Always) {
            LogStep::Write
        } else if commit && self.committed < self.written {
            LogStep::Sync
        } else {
            LogStep::Rest
        }
    }

    /// Whether everything up to `addr` is durable.
    pub fn is_committed(&self, addr: u64) -> (r: bool)
        ensures
            r == (self@.committed >= addr),
    {
        self.committed >= addr
    }

    /// What is still to be written, and where it belongs in the file.
    pub fn unwritten(&self) -> (r: (u64, &[u8]))
        ensures
            r.0 == self@.written,
            r.1@ == self@.buf,
    {
        (self.written, self.buf.as_slice())
    }

    /// The file took everything that was still to be written.
    pub fn flushed(&mut self)
        ensures
            final(self)@ == old(self)@.after(LogStep::Write),
    {
        self.written = self.tail_address();
        self.buf = Vec::new();
    }

    /// The file was synced.
    pub fn synced(&mut self)
        ensures
            final(self)@ == old(self)@.after(LogStep::Sync),
    {
        self.committed = self.written;
    }

    /// Start over with an empty file, after a checkpoint has captured all prior
    /// state.
    pub fn truncate(&mut self)
        ensures
            final(self)@ == (AofView { buf: Seq::empty(), written: 0, committed: 0, ..old(self)@ }),
    {
        self.buf = Vec::new();
        self.written = 0;
        self.committed = 0;
    }
}

/// To commit is to do what comes next until nothing does. That takes two steps
/// at most, leaves nothing to be written, and makes everything appended so far
/// durable.
pub proof fn commit_reaches_the_tail(a: AofView)
    requires
        a.committed <= a.written,
        a.written + a.buf.len() <= u64::MAX,
    ensures
        ({
            let b = a.after(a.next(true));
            let c = b.after(b.next(true));
            &&& c.next(true) is Rest
            &&& c.buf.len() == 0
            &&& c.committed == a.tail()
            &&& c.tail() == a.tail()
        }),
{
}

/// How an entry lies in the file: the length of its payload, the version, what
/// it is, two bytes that are not used, the clock, and the payload.
pub proof fn an_entry_is_laid_out(e: EntryView)
    requires
        e.payload.len() <= u32::MAX,
    ensures
        ({
            let s = frame(e);
            &&& s.len() == 16 + e.payload.len()
            &&& s.subrange(0, 4) == le::u32_le(e.payload.len() as u32)
            &&& s[4] == 1
            &&& s[5] == (match e.op {
                AofOp::Command => 1u8,
                AofOp::TxnStart => 2u8,
                AofOp::TxnCommit => 3u8,
            })
            &&& s[6] == 0 && s[7] == 0
            &&& s.subrange(8, 16) == le::u64_le(e.timestamp_ms as u64)
            &&& s.subrange(16, s.len() as int) == e.payload
        }),
{
    le::le_round_trip();
    let s = frame(e);
    assert(s.subrange(0, 4) =~= le::u32_le(e.payload.len() as u32));
    assert(s.subrange(8, 16) =~= le::u64_le(e.timestamp_ms as u64));
    assert(s.subrange(16, s.len() as int) =~= e.payload);
}

/// When nobody waits for a commit, the buffer is written once it is large or if
/// every entry counts, and nothing is synced; somebody who waits gets everything
/// written first and synced afterwards.
pub proof fn the_file_does_what_is_due(a: AofView)
    ensures
        a.mode is Always && a.buf.len() > 0 ==> a.next(false) is Write,
        a.buf.len() >= 0x1_0000 ==> a.next(false) is Write,
        !(a.mode is Always) && a.buf.len() < 0x1_0000 ==> a.next(false) is Rest,
        !(a.next(false) is Sync),
        a.buf.len() > 0 ==> a.next(true) is Write,
        a.buf.len() == 0 ==> (a.next(true) is Sync <==> a.committed < a.written),
        a.buf.len() == 0 ==> (a.next(true) is Rest <==> a.committed >= a.written),
{
}

} // verus!
