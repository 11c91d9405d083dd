//! `StringFunctions`: the RESP string data type expressed against the store's
//! callbacks.
//!
//! The store knows nothing about RESP; it only calls `reader` /
//! `initial_writer` / `in_place_updater` / `copy_updater` etc., and this module
//! decides what each RESP command does to a record.
//!
//! Key mappings (see the `commands` module for who calls Read vs Upsert vs RMW):
//! * GET / GETRANGE / STRLEN / TTL / TYPE -> Read (`reader`)
//! * plain SET -> Upsert (`initial_writer` / `in_place_writer`)
//! * SET NX|XX|GET|EX|KEEPTTL, SETNX, GETSET, APPEND, SETRANGE, INCR/DECR
//!   family, GETDEL, GETEX, EXPIRE/PERSIST -> RMW
//! * DEL -> Delete
//!
//! **Lazy expiration** is enforced here, on every access, using the
//! deterministic `now_ms` carried in the input (never the wall clock inside a
//! callback) so that replaying a log of commands expires exactly the same
//! records.
use crate::bytes;
use crate::callbacks;
use crate::callbacks::{CopyDecision, InPlaceResult, Notice, SessionFunctions};
use crate::record::{RecordPtr, RecordSizeInfo, RecordView};
use crate::resp;
use crate::resp::{i64_digit_len, parse_i64, I64Buf};
use crate::log;
use crate::store;
use crate::store::Status;
use vstd::prelude::*;
use vstd::slice::slice_subrange;
use vstd::wrapping::i64_specs;

verus! {

/// The bytes a command brings along.
pub struct Bytes(Vec<u8>);

impl View for Bytes {
    type V = Seq<u8>;

    closed spec fn view(&self) -> Seq<u8> {
        self.0@
    }
}

impl Bytes {
    pub fn new(s: &[u8]) -> (r: Self)
        ensures
            r@ == s@,
    {
        Bytes(bytes::to_vec(s))
    }

    pub fn empty() -> (r: Self)
        ensures
            r@ == Seq::<u8>::empty(),
    {
        Bytes(Vec::new())
    }

    pub fn get(&self) -> (r: &[u8])
        ensures
            r@ == self@,
    {
        self.0.as_slice()
    }

    pub fn len(&self) -> (r: usize)
        ensures
            r == self@.len(),
    {
        self.0.len()
    }

    pub fn is_empty(&self) -> (r: bool)
        ensures
            r == (self@.len() == 0),
    {
        self.0.len() == 0
    }
}

#[derive(Clone, Copy, Debug, PartialEq, Eq, Structural)]
pub enum StringOp {
    // Reads
    Get,
    GetRange { start: i64, end: i64 },
    Strlen,
    /// TTL/PTTL: remaining time (ms if `ms`), or -1 (no expiry) / -2 (missing).
    Ttl { ms: bool },
    // Blind write
    SetPlain,
    // RMW writes
    SetKeepTtl,
    SetNx,
    SetXx,
    /// SET ... GET: return old value, then set.
    SetGet { keep_ttl: bool },
    /// SET ... XX GET: return old value, then set; make no key.
    SetXxGet { keep_ttl: bool },
    IncrBy,
    Append,
    SetRange { offset: usize },
    GetDel,
    GetEx,
    /// Existence check only: no payload, so the reader copies nothing.
    Exists,
    Expire,
    Persist,
}

/// Input to a string operation. All non-determinism (`now_ms`, the target
/// `expiration`) is captured here so replay is deterministic.
pub struct StringInput {
    pub op: StringOp,
    /// The value / appended bytes.
    pub operand: Bytes,
    /// INCR/DECR delta.
    pub delta: i64,
    /// Absolute expiration in ms since epoch. 0 = no expiration; used by
    /// SET EX, SETEX, EXPIRE, GETEX.
    pub expiration: i64,
    /// Deterministic "now" in ms; expiry is checked against this.
    pub now_ms: i64,
}

/// An input as its parts.
#[verifier::ext_equal]
pub struct InputView {
    pub op: StringOp,
    pub operand: Seq<u8>,
    pub delta: i64,
    pub expiration: i64,
    pub now_ms: i64,
}

impl View for StringInput {
    type V = InputView;

    open spec fn view(&self) -> InputView {
        InputView {
            op: self.op,
            operand: self.operand@,
            delta: self.delta,
            expiration: self.expiration,
            now_ms: self.now_ms,
        }
    }
}

/// The input of an operation that brings nothing along.
pub open spec fn bare_input(op: StringOp, now_ms: i64) -> InputView {
    InputView { op, operand: Seq::empty(), delta: 0, expiration: 0, now_ms }
}

impl StringInput {
    pub fn read(op: StringOp, now_ms: i64) -> (r: Self)
        ensures
            r@ == bare_input(op, now_ms),
    {
        Self::simple(op, Bytes::empty(), now_ms)
    }

    pub fn simple(op: StringOp, operand: Bytes, now_ms: i64) -> (r: Self)
        ensures
            r@ == (InputView { operand: operand@, ..bare_input(op, now_ms) }),
    {
        StringInput { op, operand, delta: 0, expiration: 0, now_ms }
    }
}

/// Output of a string operation.
pub struct StringOutput {
    /// Value bytes for value-returning commands (GET, GETSET/GETDEL old value...).
    pub bytes: Vec<u8>,
    pub has_bytes: bool,
    /// Integer result (INCR new value, STRLEN, APPEND/SETRANGE length, TTL...).
    pub int: i64,
    pub has_int: bool,
}

/// An output as its parts.
#[verifier::ext_equal]
pub struct OutView {
    pub bytes: Seq<u8>,
    pub has_bytes: bool,
    pub int: i64,
    pub has_int: bool,
}

impl OutView {
    pub open spec fn with_bytes(self, b: Seq<u8>) -> OutView {
        OutView { bytes: b, has_bytes: true, ..self }
    }

    pub open spec fn with_int(self, v: i64) -> OutView {
        OutView { int: v, has_int: true, ..self }
    }
}

impl View for StringOutput {
    type V = OutView;

    open spec fn view(&self) -> OutView {
        OutView {
            bytes: self.bytes@,
            has_bytes: self.has_bytes,
            int: self.int,
            has_int: self.has_int,
        }
    }
}

impl Default for StringOutput {
    fn default() -> (r: Self)
        ensures
            r@ == (OutView {
                bytes: Seq::empty(),
                has_bytes: false,
                int: 0,
                has_int: false,
            }),
    {
        StringOutput { bytes: Vec::new(), has_bytes: false, int: 0, has_int: false }
    }
}

impl StringOutput {
    fn set_bytes(&mut self, b: &[u8])
        ensures
            final(self)@ == old(self)@.with_bytes(b@),
    {
        self.bytes = bytes::to_vec(b);
        self.has_bytes = true;
    }

    fn set_int(&mut self, v: i64)
        ensures
            final(self)@ == old(self)@.with_int(v),
    {
        self.int = v;
        self.has_int = true;
    }
}

pub struct StringFunctions {
    /// What the callbacks were told.
    pub heard: Ghost<Seq<Notice>>,
}

impl StringFunctions {
    pub fn new() -> (r: Self)
        ensures
            r.heard@ == Seq::<Notice>::empty(),
    {
        StringFunctions { heard: Ghost(Seq::empty()) }
    }
}

// ---------------------------------------------------------------------------
// What the callbacks make of a record
// ---------------------------------------------------------------------------

/// Whether a record is expired at `now`.
pub open spec fn expired_at(r: RecordView, now: i64) -> bool {
    r.slot() && r.exp != 0 && r.exp <= now
}

/// The record with another value.
pub open spec fn with_value(r: RecordView, v: Seq<u8>) -> RecordView {
    RecordView { buf: bytes::splice(r.buf, 0, v), len: v.len() as int, ..r }
}

/// The record with another expiration, if it has a slot for one.
pub open spec fn with_exp(r: RecordView, e: i64) -> RecordView {
    if r.slot() {
        RecordView { exp: e, ..r }
    } else {
        r
    }
}

/// GETRANGE bounds as `[start, end)` byte offsets over a value of length `len`.
pub open spec fn range_of(start: int, end: int, len: int) -> (int, int) {
    let s = if start < 0 {
        if len + start < 0 {
            0
        } else {
            len + start
        }
    } else if start < len {
        start
    } else {
        len
    };
    let e = if end < 0 {
        len + end
    } else if end < len {
        end
    } else {
        len - 1
    };
    if len == 0 || s > e || s >= len {
        (0, 0)
    } else {
        (s, e + 1)
    }
}

/// What TTL and PTTL answer of an entry.
pub open spec fn ttl_of(r: RecordView, now: i64, ms: bool) -> i64 {
    if !r.slot() || r.exp == 0 {
        (-1) as i64
    } else {
        let d = i64_specs::wrapping_sub(r.exp, now);
        let rem = if d < 0 {
            0i64
        } else {
            d
        };
        if ms {
            rem
        } else {
            truncated(i64_specs::wrapping_add(rem, 999))
        }
    }
}

/// A thousandth, rounded towards zero.
pub open spec fn truncated(v: i64) -> i64 {
    if v >= 0 {
        (v as int / 1000) as i64
    } else {
        (-((-v) as int / 1000)) as i64
    }
}

/// The input's TTL applied to an existing record in place: whether that is
/// possible (a TTL needs a slot) and the record then.
pub open spec fn ttl_applied(r: RecordView, op: StringOp, expiration: i64) -> (bool, RecordView) {
    match op {
        StringOp::SetKeepTtl => (true, r),
        StringOp::SetGet { keep_ttl } | StringOp::SetXxGet { keep_ttl } => if keep_ttl {
            (true, r)
        } else {
            cleared_or_set(r, expiration)
        },
        StringOp::SetPlain | StringOp::SetXx | StringOp::GetEx => cleared_or_set(r, expiration),
        _ => if expiration != 0 {
            (r.slot(), with_exp(r, expiration))
        } else {
            (true, r)
        },
    }
}

pub open spec fn cleared_or_set(r: RecordView, expiration: i64) -> (bool, RecordView) {
    if expiration != 0 {
        (r.slot(), with_exp(r, expiration))
    } else {
        (true, with_exp(r, 0))
    }
}

/// The integer a value stands for, with `delta` added.
pub open spec fn incremented(v: Seq<u8>, delta: i64) -> Option<i64> {
    match resp::argument_int(v) {
        None => None,
        Some(cur) => if i64::MIN <= cur + delta <= i64::MAX {
            Some((cur + delta) as i64)
        } else {
            None
        },
    }
}

/// Length that covers `[offset, offset + n)`, as far as it can be counted.
pub open spec fn reach(offset: usize, n: nat) -> int {
    if offset + n <= usize::MAX {
        offset + n
    } else {
        usize::MAX as int
    }
}

pub open spec fn larger(a: int, b: int) -> int {
    if a < b {
        b
    } else {
        a
    }
}

/// A value with `v` written at `offset`; a gap is filled with zeros.
pub open spec fn overlaid(old_value: Seq<u8>, offset: int, v: Seq<u8>) -> Seq<u8> {
    let n = larger(offset + v.len(), old_value.len() as int);
    bytes::splice(old_value + bytes::zeros((n - old_value.len()) as nat), offset, v)
}

/// The value a copy starts from: nothing, if the record is expired.
pub open spec fn old_value(r: RecordView, now: i64) -> Seq<u8> {
    if expired_at(r, now) {
        Seq::empty()
    } else {
        r.value()
    }
}

/// INCRBY by copying.
pub open spec fn copied_sum(r: RecordView, delta: i64, now: i64) -> i64 {
    let cur: i64 = if expired_at(r, now) {
        0
    } else {
        match resp::argument_int(r.value()) {
            Some(v) => v as i64,
            None => 0,
        }
    };
    i64_specs::wrapping_add(cur, delta)
}

/// Whether an operation writes a record for a key that has none.
pub open spec fn creates(op: StringOp) -> bool {
    !(op is SetXx || op is SetXxGet || op is GetDel || op is GetEx || op is Expire || op is Persist)
}

pub open spec fn initial_value(input: InputView, cap: int) -> Seq<u8> {
    match input.op {
        StringOp::IncrBy => resp::int_digits(input.delta as int),
        StringOp::SetRange { offset } => if offset + input.operand.len() <= cap {
            bytes::zeros(offset as nat) + input.operand
        } else {
            Seq::empty()
        },
        _ => input.operand,
    }
}

pub open spec fn initial_output(input: InputView, len: int, o: OutView) -> OutView {
    match input.op {
        StringOp::IncrBy => o.with_int(input.delta),
        StringOp::SetRange { .. } | StringOp::Append => o.with_int(len as i64),
        StringOp::SetGet { .. } => OutView { has_bytes: false, ..o },
        _ => o,
    }
}

/// In-place update of a live record.
pub open spec fn updated_in_place(
    input: InputView,
    r: RecordView,
    o: OutView,
) -> (InPlaceResult, RecordView, OutView) {
    let v = input.operand;
    match input.op {
        StringOp::SetNx => (InPlaceResult::Cancel, r, o),
        StringOp::SetXx | StringOp::SetPlain | StringOp::SetKeepTtl | StringOp::SetGet { .. }
        | StringOp::SetXxGet { .. } => {
            let t = ttl_applied(r, input.op, input.expiration);
            if v.len() > r.buf.len() {
                (InPlaceResult::NeedCopy, r, o)
            } else {
                let o2 = if input.op is SetGet || input.op is SetXxGet {
                    o.with_bytes(r.value())
                } else {
                    o
                };
                if t.0 {
                    (InPlaceResult::Updated, with_value(t.1, v), o2)
                } else {
                    (InPlaceResult::NeedCopy, r, o2)
                }
            }
        },
        StringOp::IncrBy => match incremented(r.value(), input.delta) {
            None => (InPlaceResult::Cancel, r, o.with_int(i64::MIN)),
            Some(n) => {
                let d = resp::int_digits(n as int);
                if d.len() > r.buf.len() {
                    (InPlaceResult::NeedCopy, r, o)
                } else {
                    (InPlaceResult::Updated, with_value(r, d), o.with_int(n))
                }
            },
        },
        StringOp::Append => if r.len + v.len() > r.buf.len() {
            (InPlaceResult::NeedCopy, r, o)
        } else {
            (
                InPlaceResult::Updated,
                RecordView {
                    buf: bytes::splice(r.buf, r.len, v),
                    len: r.len + v.len(),
                    ..r
                },
                o.with_int((r.len + v.len()) as i64),
            )
        },
        StringOp::SetRange { offset } => {
            let n = larger(offset + v.len(), r.len);
            if n > r.buf.len() {
                (InPlaceResult::NeedCopy, r, o)
            } else {
                let gap = if offset > r.len {
                    bytes::splice(r.buf, r.len, bytes::zeros((offset - r.len) as nat))
                } else {
                    r.buf
                };
                (
                    InPlaceResult::Updated,
                    RecordView { buf: bytes::splice(gap, offset as int, v), len: n, ..r },
                    o.with_int(n as i64),
                )
            }
        },
        StringOp::GetDel => (InPlaceResult::Delete, r, o.with_bytes(r.value())),
        StringOp::GetEx => {
            let t = ttl_applied(r, input.op, input.expiration);
            if t.0 {
                (InPlaceResult::Updated, t.1, o.with_bytes(r.value()))
            } else {
                (InPlaceResult::NeedCopy, r, o.with_bytes(r.value()))
            }
        },
        StringOp::Expire => if r.slot() {
            (InPlaceResult::Updated, with_exp(r, input.expiration), o.with_int(1))
        } else {
            (InPlaceResult::NeedCopy, r, o)
        },
        StringOp::Persist => if r.slot() && r.exp != 0 {
            (InPlaceResult::Updated, with_exp(r, 0), o.with_int(1))
        } else {
            (InPlaceResult::Cancel, r, o.with_int(0))
        },
        _ => (InPlaceResult::NeedCopy, r, o),
    }
}

/// Whether an expired record is copied all the same, as if it were empty: the
/// operation would write a record for a key that has none.
pub open spec fn copies_expired(op: StringOp) -> bool {
    op is SetPlain || op is SetKeepTtl || op is SetNx || op is SetGet || op is IncrBy
        || op is Append || op is SetRange
}

pub open spec fn copy_decision(input: InputView, r: RecordView, o: OutView) -> (
    CopyDecision,
    OutView,
) {
    if expired_at(r, input.now_ms) {
        (if copies_expired(input.op) {
            CopyDecision::Copy
        } else {
            CopyDecision::Cancel
        }, o)
    } else {
        match input.op {
            StringOp::SetNx => (CopyDecision::Cancel, o),
            StringOp::IncrBy => if incremented(r.value(), input.delta) is Some {
                (CopyDecision::Copy, o)
            } else {
                (CopyDecision::Cancel, o.with_int(i64::MIN))
            },
            StringOp::Persist => if r.slot() && r.exp != 0 {
                (CopyDecision::Copy, o)
            } else {
                (CopyDecision::Cancel, o.with_int(0))
            },
            StringOp::GetDel => (CopyDecision::Delete, o.with_bytes(r.value())),
            StringOp::Expire => (CopyDecision::Copy, o.with_int(1)),
            _ => (CopyDecision::Copy, o),
        }
    }
}

pub open spec fn copy_capacity(input: InputView, r: RecordView) -> int {
    let ov = old_value(r, input.now_ms);
    match input.op {
        StringOp::IncrBy => resp::int_digits(copied_sum(r, input.delta, input.now_ms) as int).len() as int,
        StringOp::Append => if ov.len() + input.operand.len() <= usize::MAX {
            (ov.len() + input.operand.len()) as int
        } else {
            usize::MAX as int
        },
        StringOp::SetRange { offset } => larger(reach(offset, input.operand.len()), ov.len() as int),
        StringOp::GetEx | StringOp::Expire | StringOp::Persist => ov.len() as int,
        _ => input.operand.len() as int,
    }
}

pub open spec fn copy_has_slot(input: InputView, r: RecordView) -> bool {
    match input.op {
        StringOp::Persist => false,
        StringOp::SetPlain => input.expiration != 0,
        _ => input.expiration != 0 || (r.slot() && r.exp != 0),
    }
}

/// The value of the copy.
pub open spec fn copied_value(input: InputView, r: RecordView, cap: int) -> Seq<u8> {
    let ov = old_value(r, input.now_ms);
    match input.op {
        StringOp::IncrBy => resp::int_digits(copied_sum(r, input.delta, input.now_ms) as int),
        StringOp::Append => if ov.len() + input.operand.len() <= cap {
            ov + input.operand
        } else {
            Seq::empty()
        },
        StringOp::SetRange { offset } => if offset + input.operand.len() <= cap {
            overlaid(ov, offset as int, input.operand)
        } else {
            Seq::empty()
        },
        StringOp::GetEx | StringOp::Expire | StringOp::Persist => ov,
        _ => input.operand,
    }
}

/// The expiration that a copy carries on: none, if the record is expired.
pub open spec fn carried_exp(r: RecordView, now: i64) -> i64 {
    if r.slot() && r.exp != 0 && !expired_at(r, now) {
        r.exp
    } else {
        0
    }
}

/// The expiration of the copy: what an update in place would leave, and what a
/// missing key would get if the record is expired.
pub open spec fn copied_exp(input: InputView, r: RecordView) -> i64 {
    if expired_at(r, input.now_ms) {
        input.expiration
    } else {
        match input.op {
            StringOp::SetPlain | StringOp::SetXx | StringOp::Expire | StringOp::GetEx => input.expiration,
            StringOp::SetGet { keep_ttl } | StringOp::SetXxGet { keep_ttl } => if keep_ttl {
                carried_exp(r, input.now_ms)
            } else {
                input.expiration
            },
            StringOp::Persist => 0,
            _ => carried_exp(r, input.now_ms),
        }
    }
}

pub open spec fn copied_output(input: InputView, r: RecordView, len: int, o: OutView) -> OutView {
    match input.op {
        StringOp::IncrBy => o.with_int(copied_sum(r, input.delta, input.now_ms)),
        StringOp::Append | StringOp::SetRange { .. } => o.with_int(len as i64),
        StringOp::SetGet { .. } | StringOp::SetXxGet { .. } | StringOp::GetEx => if expired_at(
            r,
            input.now_ms,
        ) {
            OutView { has_bytes: false, ..o }
        } else {
            o.with_bytes(r.value())
        },
        StringOp::Persist => o.with_int(1),
        _ => o,
    }
}

/// What a read makes of a record.
pub open spec fn read_outcome(input: InputView, rec: RecordView, o: OutView) -> (bool, OutView) {
    if expired_at(rec, input.now_ms) {
        (false, o)
    } else {
        match input.op {
            StringOp::GetRange { start, end } => {
                let b = range_of(start as int, end as int, rec.len);
                (true, o.with_bytes(rec.value().subrange(b.0, b.1)))
            },
            StringOp::Exists => (true, o),
            StringOp::Strlen => (true, o.with_int(rec.len as i64)),
            StringOp::Ttl { ms } => (true, o.with_int(ttl_of(rec, input.now_ms, ms))),
            _ => (true, o.with_bytes(rec.value())),
        }
    }
}

pub open spec fn upsert_size_of(key: Seq<u8>, input: InputView) -> RecordSizeInfo {
    RecordSizeInfo {
        key_len: key.len() as usize,
        value_cap: input.operand.len() as usize,
        has_expiration: input.expiration != 0,
    }
}

/// A fresh record, written.
pub open spec fn first_written(input: InputView, rec: RecordView) -> RecordView {
    if input.expiration != 0 {
        with_exp(with_value(rec, input.operand), input.expiration)
    } else {
        with_value(rec, input.operand)
    }
}

/// An existing record, overwritten: whether that is possible, and the record then.
pub open spec fn written_in_place(input: InputView, rec: RecordView) -> (bool, RecordView) {
    if input.operand.len() > rec.buf.len() || (!rec.slot() && input.expiration != 0) {
        (false, rec)
    } else {
        (true, with_value(with_exp(rec, input.expiration), input.operand))
    }
}

pub open spec fn initial_size_of(key: Seq<u8>, input: InputView) -> RecordSizeInfo {
    RecordSizeInfo {
        key_len: key.len() as usize,
        value_cap: (match input.op {
            StringOp::IncrBy => resp::int_digits(input.delta as int).len() as int,
            StringOp::SetRange { offset } => reach(offset, input.operand.len()),
            _ => input.operand.len() as int,
        }) as usize,
        has_expiration: input.expiration != 0,
    }
}

/// A fresh record of a key that had none, updated.
pub open spec fn first_updated(input: InputView, rec: RecordView, o: OutView) -> (
    RecordView,
    OutView,
) {
    let v = initial_value(input, rec.buf.len() as int);
    let r = with_value(rec, v);
    (
        if input.expiration != 0 {
            with_exp(r, input.expiration)
        } else {
            r
        },
        initial_output(input, v.len() as int, o),
    )
}

/// In-place update of a record.
pub open spec fn in_place_outcome(input: InputView, rec: RecordView, o: OutView) -> (
    InPlaceResult,
    RecordView,
    OutView,
) {
    if expired_at(rec, input.now_ms) {
        (InPlaceResult::Expired, rec, o)
    } else {
        updated_in_place(input, rec, o)
    }
}

pub open spec fn copy_size_of(key: Seq<u8>, input: InputView, rec: RecordView) -> RecordSizeInfo {
    RecordSizeInfo {
        key_len: key.len() as usize,
        value_cap: copy_capacity(input, rec) as usize,
        has_expiration: copy_has_slot(input, rec),
    }
}

/// A fresh record, filled from an old one.
pub open spec fn copy_updated(
    input: InputView,
    old_rec: RecordView,
    rec: RecordView,
    o: OutView,
) -> (RecordView, OutView) {
    let v = copied_value(input, old_rec, rec.buf.len() as int);
    (
        with_exp(with_value(rec, v), copied_exp(input, old_rec)),
        copied_output(input, old_rec, v.len() as int, o),
    )
}

// ---------------------------------------------------------------------------
// What the store's operations come to for strings
// ---------------------------------------------------------------------------

/// Read of an entry.
pub open spec fn string_read(g: Option<RecordView>, input: InputView, o: OutView) -> (Status, OutView) {
    match g {
        None => (Status::NotFound, o),
        Some(b) => {
            let r = read_outcome(input, b, o);
            (if r.0 {
                Status::Found
            } else {
                Status::NotFound
            }, r.1)
        },
    }
}

/// Blind write of an entry.
pub open spec fn string_upsert(g: Option<RecordView>, mutable: bool, key: Seq<u8>, input: InputView) -> (
    Status,
    RecordView,
) {
    if g is Some && mutable && written_in_place(input, g.unwrap()).0 {
        (Status::InPlaceUpdated, written_in_place(input, g.unwrap()).1)
    } else {
        (
            Status::Created,
            first_written(input, callbacks::fresh(key, upsert_size_of(key, input))),
        )
    }
}

/// RMW of a key that has no entry.
pub open spec fn string_initial(key: Seq<u8>, input: InputView, o: OutView) -> (
    Status,
    Option<RecordView>,
    OutView,
) {
    if creates(input.op) {
        let n = first_updated(input, callbacks::fresh(key, initial_size_of(key, input)), o);
        (Status::Created, Some(n.0), n.1)
    } else {
        (Status::NotFound, None, o)
    }
}

/// RMW of an entry by copying.
pub open spec fn string_copy(b: RecordView, key: Seq<u8>, input: InputView, o: OutView) -> (
    Status,
    Option<RecordView>,
    OutView,
) {
    let d = copy_decision(input, b, o);
    match d.0 {
        CopyDecision::Cancel => (Status::Canceled, Some(b), d.1),
        CopyDecision::Delete => (Status::Deleted, None, d.1),
        CopyDecision::Copy => {
            let n = copy_updated(
                input,
                b,
                callbacks::fresh(key, copy_size_of(key, input, b)),
                d.1,
            );
            (Status::CopyUpdated, Some(n.0), n.1)
        },
    }
}

/// RMW of an entry: in place where its record may be updated there.
pub open spec fn string_rmw(
    g: Option<RecordView>,
    mutable: bool,
    key: Seq<u8>,
    input: InputView,
    o: OutView,
) -> (Status, Option<RecordView>, OutView) {
    match g {
        None => string_initial(key, input, o),
        Some(b) => if !mutable {
            string_copy(b, key, input, o)
        } else {
            let u = in_place_outcome(input, b, o);
            match u.0 {
                InPlaceResult::Updated => (Status::InPlaceUpdated, Some(u.1), u.2),
                InPlaceResult::Cancel => (Status::Found, Some(b), u.2),
                InPlaceResult::Expired => string_initial(key, input, u.2),
                InPlaceResult::Delete => (Status::Deleted, None, u.2),
                InPlaceResult::NeedCopy => string_copy(b, key, input, u.2),
            }
        },
    }
}

/// Whether the record that an RMW with outcome `s` has to write fits a page.
pub open spec fn string_fits(
    psize: int,
    g: Option<RecordView>,
    key: Seq<u8>,
    input: InputView,
    s: Status,
) -> bool {
    match s {
        Status::Created => store::fits(psize, initial_size_of(key, input)),
        Status::CopyUpdated => g matches Some(b) ==> store::fits(psize, copy_size_of(key, input, b)),
        Status::Deleted => store::fits(psize, store::tombstone_size(key)),
        _ => true,
    }
}

/// Whether there is space right away for the record that an RMW with outcome `s`
/// has to write.
pub open spec fn string_ready(
    v: log::LogView,
    g: Option<RecordView>,
    key: Seq<u8>,
    input: InputView,
    s: Status,
) -> bool {
    match s {
        Status::Created => log::alloc_ready(v, initial_size_of(key, input).total()),
        Status::CopyUpdated => g matches Some(b) ==> log::alloc_ready(
            v,
            copy_size_of(key, input, b).total(),
        ),
        Status::Deleted => log::alloc_ready(v, store::tombstone_size(key).total()),
        _ => true,
    }
}

/// The string callbacks may be asked again.
pub proof fn string_callbacks_are_steady()
    ensures
        callbacks::steady::<StringFunctions>(),
{
    assert forall|key: Seq<u8>, input: StringInput, rec: RecordView, o: OutView| #[trigger]
        callbacks::asks_alike::<StringFunctions>(key, input, rec, o) by {}
}

/// The store's operations, for strings.
pub proof fn lemma_string_operations(
    g: Option<RecordView>,
    mutable: bool,
    key: Seq<u8>,
    input: StringInput,
    o: OutView,
    psize: int,
)
    ensures
        store::read_result::<StringFunctions>(g, key, input, o) == string_read(g, input@, o),
        ({
            let e = store::upsert_result::<StringFunctions>(g, mutable, key, input, o);
            (e.0, e.1) == string_upsert(g, mutable, key, input@) && e.2 == o
        }),
        store::rmw_result::<StringFunctions>(g, mutable, key, input, o) == string_rmw(
            g,
            mutable,
            key,
            input@,
            o,
        ),
        forall|s: Status| #[trigger]
            store::rmw_room::<StringFunctions>(psize, g, key, input, s) == string_fits(
                psize,
                g,
                key,
                input@,
                s,
            ),
        forall|v: log::LogView, s: Status| #[trigger]
            store::rmw_ready::<StringFunctions>(v, g, key, input, s) == string_ready(
                v,
                g,
                key,
                input@,
                s,
            ),
        StringFunctions::upsert_size_spec(key, input) == upsert_size_of(key, input@),
        store::upsert_fits::<StringFunctions>(psize, key, input) == store::fits(
            psize,
            upsert_size_of(key, input@),
        ),
{
}

// ---------------------------------------------------------------------------
// Helpers of the callbacks
// ---------------------------------------------------------------------------

/// Is a record with this expiration slot expired at `now`?
fn expired(rec: &RecordPtr, now: i64) -> (r: bool)
    requires
        rec.wf(),
    ensures
        r == expired_at(rec@, now),
{
    rec.has_expiration_slot() && rec.expiration() != 0 && rec.expiration() <= now
}

/// Normalize GETRANGE bounds to `[start, end)` byte offsets over `len`.
fn range_bounds(start: i64, end: i64, len: usize) -> (r: (usize, usize))
    requires
        len <= u32::MAX,
    ensures
        (r.0 as int, r.1 as int) == range_of(start as int, end as int, len as int),
        r.0 <= r.1 <= len,
{
    let n: i64 = len as i64;
    let s: i64 = if start < 0 {
        if n + start < 0 {
            0
        } else {
            n + start
        }
    } else if start < n {
        start
    } else {
        n
    };
    let e: i64 = if end < 0 {
        n + end
    } else if end < n {
        end
    } else {
        n - 1
    };
    if n == 0 || s > e || s >= n {
        (0, 0)
    } else {
        (s as usize, (e + 1) as usize)
    }
}

fn write_val(rec: &mut RecordPtr, v: &[u8])
    requires
        old(rec).wf(),
        v@.len() <= old(rec)@.buf.len(),
    ensures
        final(rec)@ == with_value(old(rec)@, v@),
        final(rec).wf(),
{
    rec.write_at(0, v);
    rec.set_value_len(v.len());
}

/// Write the value of a record that was made for it.
fn fill(rec: &mut RecordPtr, v: &[u8])
    requires
        old(rec).wf(),
        v@.len() <= usize::MAX ==> v@.len() <= old(rec)@.buf.len(),
    ensures
        final(rec)@ == with_value(old(rec)@, v@),
        final(rec).wf(),
{
    let n: usize = v.len();
    assert(n == v@.len());
    write_val(rec, v);
}

/// Apply the input's TTL to an existing record in place. Returns false if a
/// TTL is requested but the record has no expiration slot (-> copy).
fn apply_ttl_in_place(rec: &mut RecordPtr, input: &StringInput) -> (r: bool)
    requires
        old(rec).wf(),
    ensures
        r == ttl_applied(old(rec)@, input.op, input.expiration).0,
        r ==> final(rec)@ == ttl_applied(old(rec)@, input.op, input.expiration).1,
        !r ==> final(rec)@ == old(rec)@,
        final(rec).wf(),
{
    match input.op {
        StringOp::SetKeepTtl => true, // leave the slot alone
        StringOp::SetGet { keep_ttl } | StringOp::SetXxGet { keep_ttl } => {
            if keep_ttl {
                true
            } else {
                clear_or_set(rec, input.expiration)
            }
        },
        StringOp::SetPlain | StringOp::SetXx | StringOp::GetEx => clear_or_set(rec, input.expiration),
        _ => {
            if input.expiration != 0 {
                rec.set_expiration(input.expiration)
            } else {
                true
            }
        },
    }
}

fn clear_or_set(rec: &mut RecordPtr, expiration: i64) -> (r: bool)
    requires
        old(rec).wf(),
    ensures
        r == cleared_or_set(old(rec)@, expiration).0,
        r ==> final(rec)@ == cleared_or_set(old(rec)@, expiration).1,
        !r ==> final(rec)@ == old(rec)@,
        final(rec).wf(),
{
    if expiration != 0 {
        rec.set_expiration(expiration)
    } else if rec.has_expiration_slot() {
        rec.set_expiration(0)
    } else {
        true
    }
}

fn add_checked(v: &[u8], delta: i64) -> (r: Option<i64>)
    ensures
        r == incremented(v@, delta),
{
    match parse_i64(v) {
        None => None,
        Some(cur) => cur.checked_add(delta),
    }
}

fn add_lens(a: usize, b: usize) -> (r: usize)
    ensures
        r == reach(a, b as nat),
{
    a.saturating_add(b)
}

/// The value a copy starts from.
fn source_value<'a>(rec: &'a RecordPtr, now: i64) -> (r: &'a [u8])
    requires
        rec.wf(),
    ensures
        r@ == old_value(rec@, now),
{
    if expired(rec, now) {
        assert(rec@.value().subrange(0, 0) =~= Seq::empty());
        slice_subrange(rec.value(), 0, 0)
    } else {
        rec.value()
    }
}

fn sum_for_copy(rec: &RecordPtr, delta: i64, now: i64) -> (r: i64)
    requires
        rec.wf(),
    ensures
        r == copied_sum(rec@, delta, now),
{
    let cur: i64 = if expired(rec, now) {
        0
    } else {
        match parse_i64(rec.value()) {
            Some(v) => v,
            None => 0,
        }
    };
    cur.wrapping_add(delta)
}

fn remaining(rec: &RecordPtr, now: i64, ms: bool) -> (r: i64)
    requires
        rec.wf(),
    ensures
        r == ttl_of(rec@, now, ms),
{
    if !rec.has_expiration_slot() || rec.expiration() == 0 {
        return -1;
    }
    let d: i64 = rec.expiration().wrapping_sub(now);
    let rem: i64 = if d < 0 {
        0
    } else {
        d
    };
    if ms {
        rem
    } else {
        thousandth(rem.wrapping_add(999))
    }
}

/// A thousandth, rounded towards zero.
pub fn thousandth(v: i64) -> (r: i64)
    ensures
        r == truncated(v),
{
    if v >= 0 {
        v / 1000
    } else {
        assert(v != i64::MIN || truncated(v) == -9223372036854775);
        let m: u64 = (-(v + 1)) as u64 + 1;
        -((m / 1000) as i64)
    }
}

impl SessionFunctions for StringFunctions {
    type Input = StringInput;

    type Output = StringOutput;

    type OutputView = OutView;

    open spec fn told(&self) -> Seq<Notice> {
        self.heard@
    }

    open spec fn out_view(o: StringOutput) -> OutView {
        o@
    }

    open spec fn reader_spec(key: Seq<u8>, input: StringInput, rec: RecordView, o: OutView) -> (
        bool,
        OutView,
    ) {
        read_outcome(input@, rec, o)
    }

    open spec fn upsert_size_spec(key: Seq<u8>, input: StringInput) -> RecordSizeInfo {
        upsert_size_of(key, input@)
    }

    open spec fn initial_writer_spec(key: Seq<u8>, input: StringInput, rec: RecordView, o: OutView) -> (
        RecordView,
        OutView,
    ) {
        (first_written(input@, rec), o)
    }

    open spec fn in_place_writer_spec(key: Seq<u8>, input: StringInput, rec: RecordView, o: OutView) -> (
        bool,
        RecordView,
        OutView,
    ) {
        let w = written_in_place(input@, rec);
        (w.0, w.1, o)
    }

    open spec fn need_initial_update_spec(key: Seq<u8>, input: StringInput, o: OutView) -> (
        bool,
        OutView,
    ) {
        (creates(input@.op), o)
    }

    open spec fn initial_size_spec(key: Seq<u8>, input: StringInput) -> RecordSizeInfo {
        initial_size_of(key, input@)
    }

    open spec fn initial_updater_spec(key: Seq<u8>, input: StringInput, rec: RecordView, o: OutView) -> (
        RecordView,
        OutView,
    ) {
        first_updated(input@, rec, o)
    }

    open spec fn in_place_updater_spec(key: Seq<u8>, input: StringInput, rec: RecordView, o: OutView) -> (
        InPlaceResult,
        RecordView,
        OutView,
    ) {
        in_place_outcome(input@, rec, o)
    }

    open spec fn need_copy_update_spec(key: Seq<u8>, input: StringInput, rec: RecordView, o: OutView) -> (
        CopyDecision,
        OutView,
    ) {
        copy_decision(input@, rec, o)
    }

    open spec fn copy_size_spec(key: Seq<u8>, input: StringInput, rec: RecordView) -> RecordSizeInfo {
        copy_size_of(key, input@, rec)
    }

    open spec fn copy_updater_spec(
        key: Seq<u8>,
        input: StringInput,
        old_rec: RecordView,
        rec: RecordView,
        o: OutView,
    ) -> (RecordView, OutView) {
        copy_updated(input@, old_rec, rec, o)
    }

    // ---- Read ----
    fn reader(&mut self, key: &[u8], input: &StringInput, rec: &RecordPtr, out: &mut StringOutput) -> (r:
        bool) {
        if expired(rec, input.now_ms) {
            return false;  // treated as NotFound (lazy expiration)

        }
        match input.op {
            StringOp::GetRange { start, end } => {
                let (s, e) = range_bounds(start, end, rec.value_len());
                out.set_bytes(slice_subrange(rec.value(), s, e));
            },
            StringOp::Exists => {},  // presence is the whole answer
            StringOp::Strlen => out.set_int(rec.value_len() as i64),
            StringOp::Ttl { ms } => {
                let v: i64 = remaining(rec, input.now_ms, ms);
                out.set_int(v);
            },
            _ => out.set_bytes(rec.value()),
        }
        true
    }

    // ---- Upsert (plain SET) ----
    fn upsert_size(&mut self, key: &[u8], input: &StringInput) -> (r: RecordSizeInfo) {
        RecordSizeInfo {
            key_len: key.len(),
            value_cap: input.operand.len(),
            has_expiration: input.expiration != 0,
        }
    }

    fn initial_writer(
        &mut self,
        key: &[u8],
        input: &StringInput,
        rec: &mut RecordPtr,
        out: &mut StringOutput,
    ) {
        fill(rec, input.operand.get());
        if input.expiration != 0 {
            let _slot: bool = rec.set_expiration(input.expiration);
        }
    }

    fn in_place_writer(
        &mut self,
        key: &[u8],
        input: &StringInput,
        rec: &mut RecordPtr,
        out: &mut StringOutput,
    ) -> (r: bool) {
        let v: &[u8] = input.operand.get();
        if v.len() > rec.value_cap() {
            return false;
        }
        // Plain SET clears any prior TTL.
        if rec.has_expiration_slot() {
            let _slot: bool = rec.set_expiration(input.expiration);
        } else if input.expiration != 0 {
            return false;  // need a slot -> copy

        }
        write_val(rec, v);
        true
    }

    // ---- RMW ----
    fn need_initial_update(&mut self, key: &[u8], input: &StringInput, out: &mut StringOutput) -> (r:
        bool) {
        // SET ... GET (without XX) still creates when absent, returning nil.
        match input.op {
            StringOp::SetXx
            | StringOp::SetXxGet { .. }
            | StringOp::GetDel
            | StringOp::GetEx
            | StringOp::Expire
            | StringOp::Persist => false,
            _ => true,
        }
    }

    fn initial_size(&mut self, key: &[u8], input: &StringInput) -> (r: RecordSizeInfo) {
        let cap: usize = match input.op {
            StringOp::IncrBy => i64_digit_len(input.delta),
            StringOp::SetRange { offset } => add_lens(offset, input.operand.len()),
            _ => input.operand.len(),
        };
        RecordSizeInfo { key_len: key.len(), value_cap: cap, has_expiration: input.expiration != 0 }
    }

    fn initial_updater(
        &mut self,
        key: &[u8],
        input: &StringInput,
        rec: &mut RecordPtr,
        out: &mut StringOutput,
    ) {
        let ghost r0 = rec@;
        match input.op {
            StringOp::IncrBy => {
                let mut buf = I64Buf::new();
                fill(rec, buf.fmt(input.delta));
                out.set_int(input.delta);
            },
            StringOp::SetRange { offset } => {
                let v: &[u8] = input.operand.get();
                let cap: usize = rec.value_cap();
                if v.len() <= cap && offset <= cap - v.len() {
                    rec.write_at(offset, v);
                    rec.set_value_len(offset + v.len());
                    out.set_int((offset + v.len()) as i64);
                    assert(rec@.buf =~= bytes::splice(
                        r0.buf,
                        0,
                        bytes::zeros(offset as nat) + v@,
                    ));
                } else {
                    out.set_int(0);
                    assert(bytes::splice(r0.buf, 0, Seq::<u8>::empty()) =~= r0.buf);
                }
            },
            StringOp::Append => {
                let v: &[u8] = input.operand.get();
                fill(rec, v);
                out.set_int(v.len() as i64);
            },
            StringOp::SetGet { .. } => {
                fill(rec, input.operand.get());
                out.has_bytes = false;  // old value was nil
            },
            _ => {
                fill(rec, input.operand.get());
            },
        }
        if input.expiration != 0 {
            let _slot: bool = rec.set_expiration(input.expiration);
        }
    }

    fn in_place_updater(
        &mut self,
        key: &[u8],
        input: &StringInput,
        rec: &mut RecordPtr,
        out: &mut StringOutput,
    ) -> (r: InPlaceResult) {
        if expired(rec, input.now_ms) {
            return InPlaceResult::Expired;  // tombstone, then re-run as initial

        }
        match input.op {
            StringOp::SetNx => InPlaceResult::Cancel,  // key exists: do nothing
            StringOp::SetXx
            | StringOp::SetPlain
            | StringOp::SetKeepTtl
            | StringOp::SetGet { .. }
            | StringOp::SetXxGet { .. } => {
                let v: &[u8] = input.operand.get();
                if v.len() > rec.value_cap() {
                    return InPlaceResult::NeedCopy;
                }
                match input.op {
                    StringOp::SetGet { .. } | StringOp::SetXxGet { .. } => out.set_bytes(rec.value()),
                    _ => {},
                }
                if !apply_ttl_in_place(rec, input) {
                    return InPlaceResult::NeedCopy;
                }
                write_val(rec, v);
                InPlaceResult::Updated
            },
            StringOp::IncrBy => {
                let n: i64 = match add_checked(rec.value(), input.delta) {
                    Some(n) => n,
                    None => {
                        // Not an integer, or out of range: tell the caller so.
                        out.set_int(i64::MIN);
                        return InPlaceResult::Cancel;
                    },
                };
                let mut buf = I64Buf::new();
                let s: &[u8] = buf.fmt(n);
                if s.len() > rec.value_cap() {
                    return InPlaceResult::NeedCopy;
                }
                write_val(rec, s);
                out.set_int(n);
                InPlaceResult::Updated
            },
            StringOp::Append => {
                let v: &[u8] = input.operand.get();
                let start: usize = rec.value_len();
                if v.len() > rec.value_cap() - start {
                    return InPlaceResult::NeedCopy;
                }
                let n: usize = start + v.len();
                rec.write_at(start, v);
                rec.set_value_len(n);
                out.set_int(n as i64);
                InPlaceResult::Updated
            },
            StringOp::SetRange { offset } => {
                let v: &[u8] = input.operand.get();
                let cap: usize = rec.value_cap();
                if v.len() > cap || offset > cap - v.len() {
                    return InPlaceResult::NeedCopy;
                }
                let old_len: usize = rec.value_len();
                let n: usize = if offset + v.len() > old_len {
                    offset + v.len()
                } else {
                    old_len
                };
                if offset > old_len {
                    let gap: Vec<u8> = bytes::zero_vec(offset - old_len);
                    rec.write_at(old_len, gap.as_slice());
                }
                rec.write_at(offset, v);
                rec.set_value_len(n);
                out.set_int(n as i64);
                InPlaceResult::Updated
            },
            StringOp::GetDel => {
                out.set_bytes(rec.value());
                InPlaceResult::Delete
            },
            StringOp::GetEx => {
                out.set_bytes(rec.value());
                if !apply_ttl_in_place(rec, input) {
                    return InPlaceResult::NeedCopy;
                }
                InPlaceResult::Updated
            },
            StringOp::Expire => {
                if rec.has_expiration_slot() {
                    let _slot: bool = rec.set_expiration(input.expiration);
                    out.set_int(1);
                    InPlaceResult::Updated
                } else {
                    InPlaceResult::NeedCopy
                }
            },
            StringOp::Persist => {
                if rec.has_expiration_slot() && rec.expiration() != 0 {
                    let _slot: bool = rec.set_expiration(0);
                    out.set_int(1);
                    InPlaceResult::Updated
                } else {
                    out.set_int(0);
                    InPlaceResult::Cancel
                }
            },
            _ => InPlaceResult::NeedCopy,
        }
    }

    fn need_copy_update(
        &mut self,
        key: &[u8],
        input: &StringInput,
        old_rec: &RecordPtr,
        out: &mut StringOutput,
    ) -> (r: CopyDecision) {
        if expired(old_rec, input.now_ms) {
            // Old value logically gone: as if the key were missing.
            return match input.op {
                StringOp::SetPlain
                | StringOp::SetKeepTtl
                | StringOp::SetNx
                | StringOp::SetGet { .. }
                | StringOp::IncrBy
                | StringOp::Append
                | StringOp::SetRange { .. } => CopyDecision::Copy,
                _ => CopyDecision::Cancel,
            };
        }
        match input.op {
            StringOp::SetNx => CopyDecision::Cancel,  // exists -> don't overwrite
            // The same guard `in_place_updater` applies, at the copy boundary.
            // Without it INCR would answer differently depending on which log
            // region the record has drifted into, and `copy_updater` would
            // silently reset a non-integer value to the delta.
            StringOp::IncrBy => match add_checked(old_rec.value(), input.delta) {
                Some(_) => CopyDecision::Copy,
                None => {
                    out.set_int(i64::MIN);
                    CopyDecision::Cancel
                },
            },
            StringOp::Persist => {
                if old_rec.has_expiration_slot() && old_rec.expiration() != 0 {
                    CopyDecision::Copy
                } else {
                    out.set_int(0);
                    CopyDecision::Cancel
                }
            },
            StringOp::GetDel => {
                // Return the old value and tombstone it in the same pass.
                out.set_bytes(old_rec.value());
                CopyDecision::Delete
            },
            StringOp::Expire => {
                out.set_int(1);
                CopyDecision::Copy
            },
            _ => CopyDecision::Copy,
        }
    }

    fn copy_size(&mut self, key: &[u8], input: &StringInput, old_rec: &RecordPtr) -> (r: RecordSizeInfo) {
        let from: &[u8] = source_value(old_rec, input.now_ms);
        let cap: usize = match input.op {
            StringOp::IncrBy => i64_digit_len(sum_for_copy(old_rec, input.delta, input.now_ms)),
            StringOp::Append => add_lens(from.len(), input.operand.len()),
            StringOp::SetRange { offset } => {
                let end: usize = add_lens(offset, input.operand.len());
                if end < from.len() {
                    from.len()
                } else {
                    end
                }
            },
            StringOp::GetEx | StringOp::Expire | StringOp::Persist => from.len(),
            _ => input.operand.len(),
        };
        let has_exp: bool = match input.op {
            StringOp::Persist => false,
            StringOp::SetPlain => input.expiration != 0,
            _ => input.expiration != 0 || (old_rec.has_expiration_slot() && old_rec.expiration() != 0),
        };
        RecordSizeInfo { key_len: key.len(), value_cap: cap, has_expiration: has_exp }
    }

    #[verifier::spinoff_prover]
    #[verifier::rlimit(40)]
    fn copy_updater(
        &mut self,
        key: &[u8],
        input: &StringInput,
        old_rec: &RecordPtr,
        rec: &mut RecordPtr,
        out: &mut StringOutput,
    ) {
        let ghost r0 = rec@;
        let from: &[u8] = source_value(old_rec, input.now_ms);
        let gone: bool = expired(old_rec, input.now_ms);
        match input.op {
            StringOp::IncrBy => {
                let n: i64 = sum_for_copy(old_rec, input.delta, input.now_ms);
                let mut buf = I64Buf::new();
                fill(rec, buf.fmt(n));
                out.set_int(n);
            },
            StringOp::Append => {
                let v: &[u8] = input.operand.get();
                let cap: usize = rec.value_cap();
                if from.len() <= cap && v.len() <= cap - from.len() {
                    rec.write_at(0, from);
                    rec.write_at(from.len(), v);
                    rec.set_value_len(from.len() + v.len());
                    out.set_int((from.len() + v.len()) as i64);
                    assert(rec@.buf =~= bytes::splice(r0.buf, 0, from@ + v@));
                } else {
                    out.set_int(0);
                    assert(bytes::splice(r0.buf, 0, Seq::<u8>::empty()) =~= r0.buf);
                }
            },
            StringOp::SetRange { offset } => {
                let v: &[u8] = input.operand.get();
                let cap: usize = rec.value_cap();
                if v.len() <= cap && offset <= cap - v.len() {
                    let n: usize = if offset + v.len() > from.len() {
                        offset + v.len()
                    } else {
                        from.len()
                    };
                    rec.write_at(0, from);
                    rec.write_at(offset, v);
                    rec.set_value_len(n);
                    out.set_int(n as i64);
                    assert(rec@.buf =~= bytes::splice(r0.buf, 0, overlaid(from@, offset as int, v@)));
                } else {
                    out.set_int(0);
                    assert(bytes::splice(r0.buf, 0, Seq::<u8>::empty()) =~= r0.buf);
                }
            },
            StringOp::SetGet { .. } | StringOp::SetXxGet { .. } => {
                if gone {
                    out.has_bytes = false;
                } else {
                    out.set_bytes(from);
                }
                fill(rec, input.operand.get());
            },
            StringOp::GetEx => {
                if gone {
                    out.has_bytes = false;
                } else {
                    out.set_bytes(from);
                }
                write_val(rec, from);
            },
            StringOp::Expire => {
                write_val(rec, from);
            },
            StringOp::Persist => {
                write_val(rec, from);
                out.set_int(1);
            },
            _ => {
                fill(rec, input.operand.get());
            },
        }
        // TTL for the new record: carried forward where an update in place
        // would leave it alone.
        let carried: i64 = if old_rec.has_expiration_slot() && !gone {
            old_rec.expiration()
        } else {
            0
        };
        let exp: i64 = if gone {
            input.expiration
        } else {
            match input.op {
                StringOp::SetPlain
                | StringOp::SetXx
                | StringOp::Expire
                | StringOp::GetEx => input.expiration,
                StringOp::SetGet { keep_ttl } | StringOp::SetXxGet { keep_ttl } => {
                    if keep_ttl {
                        carried
                    } else {
                        input.expiration
                    }
                },
                StringOp::Persist => 0,
                _ => carried,
            }
        };
        let _slot: bool = rec.set_expiration(exp);
    }

    // Nothing is owed to anyone once an operation is done.
    fn post_initial_writer(
        &mut self,
        key: &[u8],
        _input: &StringInput,
        _rec: &RecordPtr,
        _out: &mut StringOutput,
    ) {
        self.heard = Ghost(self.heard@.push(Notice::Written(key@)));
    }

    fn post_initial_updater(
        &mut self,
        key: &[u8],
        _input: &StringInput,
        _rec: &RecordPtr,
        _out: &mut StringOutput,
    ) {
        self.heard = Ghost(self.heard@.push(Notice::Made(key@)));
    }

    fn post_copy_updater(
        &mut self,
        key: &[u8],
        _input: &StringInput,
        _rec: &RecordPtr,
        _out: &mut StringOutput,
    ) {
        self.heard = Ghost(self.heard@.push(Notice::Copied(key@)));
    }

    fn post_deleter(&mut self, key: &[u8]) {
        self.heard = Ghost(self.heard@.push(Notice::Removed(key@)));
    }
}

} // verus!
