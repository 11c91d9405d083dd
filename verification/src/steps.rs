//! What each command does: to the store, to the session, to the operation log,
//! and to the reply.
use crate::aof::{AofOp, EntryView};
use crate::arguments;
use crate::arguments::{Kind, SetOpts};
use crate::bytes;
use crate::device::Device;
use crate::functions;
use crate::functions::{InputView, OutView, StringOp};
use crate::glob;
use crate::index::{HashIndex, LatchView};
use crate::log;
use crate::record::RecordView;
use crate::resp;
use crate::shared;
use crate::shared::{SaveError, Shared, WatchTable};
use crate::store;
use crate::store::{LockType, Status, Store};
use crate::transactions;
use crate::wire;
use vstd::prelude::*;
use vstd::wrapping::{i64_specs, u64_specs};

verus! {

/// A session as its parts.
#[verifier::ext_equal]
pub struct SessView {
    pub thread: u64,
    /// Whether the latches of a transaction are held, and which.
    pub txn_mode: bool,
    pub locks: Seq<(usize, LockType)>,
    pub in_multi: bool,
    pub dirty: bool,
    pub queued: Seq<Seq<u8>>,
    pub watches: Seq<(usize, u64)>,
    pub now: i64,
    pub replay: bool,
    pub scratch: OutView,
    pub failures: nat,
}

/// Commands in raw form.
pub open spec fn raw_list(q: Seq<Vec<u8>>) -> Seq<Seq<u8>> {
    q.map_values(|v: Vec<u8>| v@)
}

// ---------------------------------------------------------------------------
// What commands leave alone, and what they owe
// ---------------------------------------------------------------------------

/// The store after an operation of a session: nothing but entries, boundaries
/// and blank index entries has changed.
pub open spec fn store_moved<D: Device>(o: &Store<D>, n: &Store<D>, thread: u64) -> bool {
    &&& n.inv()
    &&& n.same_settings(o)
    &&& n.next_thread == o.next_thread
    &&& n.index.same_shape(&o.index)
    &&& n.index.same_latches(&o.index)
    &&& n.index.spare() >= o.index.spare() - 1
    &&& o.whole() ==> n.whole()
    &&& log::image_kept(o.log@, n.log@)
    &&& store::calm_after(o, n, thread)
}

pub open spec fn others_same<D: Device>(o: &Store<D>, n: &Store<D>, key: Seq<u8>) -> bool {
    forall|k: Seq<u8>| k != key ==> #[trigger] n.get(k) == o.get(k)
}

/// Same session, but for the scratch output and the count of failures.
pub open spec fn sess_moved(ov: SessView, nv: SessView) -> bool {
    nv == (SessView { scratch: nv.scratch, failures: nv.failures, ..ov })
}

pub open spec fn failed(ov: SessView, nv: SessView) -> bool {
    nv.failures == ov.failures + 1
}

pub open spec fn bumped(o: &WatchTable, n: &WatchTable, key: Seq<u8>) -> bool {
    &&& n.inv()
    &&& n.same_slots(o)
    &&& n@ == o@.update(o.slot(key), u64_specs::wrapping_add(o@[o.slot(key)], 1))
}

/// Bookkeeping of a write: an entry in the operation log, unless it is being
/// replayed.
pub open spec fn entered<D: Device, M: Device>(
    o: &Shared<D, M>,
    n: &Shared<D, M>,
    ov: SessView,
    op: AofOp,
    payload: Seq<u8>,
) -> bool {
    shared::aof_view(n.aof) == (match shared::aof_view(o.aof) {
        Some(a) => if ov.replay {
            Some(a)
        } else {
            Some(a.with(EntryView { op, timestamp_ms: ov.now, payload }))
        },
        None => None,
    })
}

/// Bookkeeping every successful write owes: invalidate anyone WATCHing the key,
/// then append the command to the operation log.
#[verifier::opaque]
pub open spec fn logged<D: Device, M: Device>(
    o: &Shared<D, M>,
    n: &Shared<D, M>,
    ov: SessView,
    yes: bool,
    key: Seq<u8>,
    raw: Seq<u8>,
) -> bool {
    &&& *n == (Shared { store: n.store, watch: n.watch, aof: n.aof, ..*o })
    &&& if yes {
        bumped(&o.watch, &n.watch, key) && entered(o, n, ov, AofOp::Command, raw)
    } else {
        n.watch == o.watch && n.aof == o.aof
    }
}

// ---------------------------------------------------------------------------
// Store operations of a session
// ---------------------------------------------------------------------------

/// A read ran: the outcome is that of the entry, unless the operation gave up.
#[verifier::opaque]
pub open spec fn read_ran<D: Device>(
    o: &Store<D>,
    n: &Store<D>,
    ov: SessView,
    nv: SessView,
    key: Seq<u8>,
    iv: InputView,
    s: Status,
) -> bool {
    &&& store_moved(o, n, ov.thread)
    &&& n.index.same_room(&o.index)
    &&& n.entered(o, key)
    &&& n.newest_same(o)
    &&& sess_moved(ov, nv)
    &&& s is Error || s is Found || s is NotFound
    &&& if s is Error {
        failed(ov, nv) && nv.scratch == ov.scratch
    } else {
        nv.failures == ov.failures && (s is Found || store::on_hand(o, n, key) ==> (s, nv.scratch) == functions::string_read(
            o.get(key),
            iv,
            ov.scratch,
        ))
    }
    &&& !(s is Error) && o.newest(key) is Some ==> o.open_for(ov.txn_mode, key, false)
    &&& o.prompt(ov.thread, ov.txn_mode, key, false, o.log@.head as int) ==> !(s is Error)
    &&& o.reliable() ==> n.reliable()
}

/// A blind write is done at the first attempt, whatever the device does: in place,
/// or with a new record for which there is space.
pub open spec fn upsert_ready<D: Device>(
    o: &Store<D>,
    ov: SessView,
    key: Seq<u8>,
    iv: InputView,
) -> bool {
    let size = functions::upsert_size_of(key, iv);
    &&& o.prompt(ov.thread, ov.txn_mode, key, true, o.log@.ro as int)
    &&& o.indexable(key)
    &&& functions::string_upsert(o.get(key), o.mutable(key), key, iv).0 is InPlaceUpdated || (
    store::fits(o.log@.psize, size) && log::alloc_ready(o.log@, size.total()))
}

/// A read-modify-write is done at the first attempt: nothing has to be waited for,
/// the key's newest record is in memory or can be read, and there is space for a
/// new one if it takes one.
pub open spec fn rmw_ready<D: Device>(
    o: &Store<D>,
    ov: SessView,
    key: Seq<u8>,
    iv: InputView,
) -> bool {
    let s = functions::string_rmw(o.get(key), o.mutable(key), key, iv, ov.scratch).0;
    &&& o.prompt(ov.thread, ov.txn_mode, key, true, o.log@.head as int)
    &&& o.indexable(key)
    &&& o.known(key)
    &&& !store::fuzzy(o, key)
    &&& functions::string_fits(o.log@.psize, o.get(key), key, iv, s)
    &&& functions::string_ready(o.log@, o.get(key), key, iv, s)
}

/// A blind write ran.
#[verifier::opaque]
pub open spec fn upsert_ran<D: Device>(
    o: &Store<D>,
    n: &Store<D>,
    ov: SessView,
    nv: SessView,
    key: Seq<u8>,
    iv: InputView,
    s: Status,
) -> bool {
    let e = functions::string_upsert(o.get(key), o.mutable(key), key, iv);
    &&& store_moved(o, n, ov.thread)
    &&& n.entered(o, key)
    &&& others_same(o, n, key)
    &&& sess_moved(ov, nv)
    &&& !(s is Error) ==> o.open_for(ov.txn_mode, key, true)
    &&& nv.scratch == ov.scratch || s is Error
    &&& if s is Error {
        failed(ov, nv) && n.get(key) == o.get(key)
    } else {
        nv.failures == ov.failures && (s, n.get(key)) == (e.0, Some(e.1)) && (o.state().phase is Rest
            ==> n.mutable(key))
    }
    &&& o.calm(ov.thread) && o.open_for(ov.txn_mode, key, true) && o.indexable(key) && (store::fits(
        o.log@.psize,
        functions::upsert_size_of(key, iv),
    ) || e.0 is InPlaceUpdated) ==> !(s is Error)
    &&& upsert_ready(o, ov, key, iv) ==> !(s is Error)
}

/// A read-modify-write ran.
#[verifier::opaque]
pub open spec fn rmw_ran<D: Device>(
    o: &Store<D>,
    n: &Store<D>,
    ov: SessView,
    nv: SessView,
    key: Seq<u8>,
    iv: InputView,
    s: Status,
) -> bool {
    &&& store_moved(o, n, ov.thread)
    &&& n.entered(o, key)
    &&& others_same(o, n, key)
    &&& sess_moved(ov, nv)
    &&& !o.open_for(ov.txn_mode, key, true) ==> s is Error && n.get(key) == o.get(key)
    &&& if s is Error {
        failed(ov, nv) && (n.get(key) == o.get(key) || (n.get(key) is None && o.mutable(key) && o.get(
            key,
        ) is Some && functions::expired_at(o.get(key).unwrap(), iv.now_ms)))
    } else {
        nv.failures == ov.failures && (store::on_hand(o, n, key) ==> (s, n.get(key), nv.scratch)
            == functions::string_rmw(o.get(key), o.mutable(key), key, iv, ov.scratch))
    }
    &&& s.updated() && !(s is Deleted) && o.state().phase is Rest ==> n.mutable(key)
    &&& o.calm(ov.thread) && o.open_for(ov.txn_mode, key, true) && o.indexable(key)
        && functions::string_fits(
        o.log@.psize,
        o.get(key),
        key,
        iv,
        functions::string_rmw(o.get(key), o.mutable(key), key, iv, ov.scratch).0,
    ) ==> !(s is Error)
    &&& rmw_ready(o, ov, key, iv) ==> !(s is Error)
}

/// A delete ran.
#[verifier::opaque]
pub open spec fn delete_ran<D: Device>(
    o: &Store<D>,
    n: &Store<D>,
    ov: SessView,
    nv: SessView,
    key: Seq<u8>,
    s: Status,
) -> bool {
    &&& store_moved(o, n, ov.thread)
    &&& n.index.same_room(&o.index)
    &&& n.entered(o, key)
    &&& others_same(o, n, key)
    &&& nv == (SessView { failures: nv.failures, ..ov })
    &&& s is Error || s is NotFound || s is Deleted
    &&& !(s is Error) && o.newest(key) is Some ==> o.open_for(ov.txn_mode, key, true)
    &&& if s is Deleted {
        n.get(key) is None && o.get(key) is Some
    } else {
        n.get(key) == o.get(key)
    }
    &&& if s is Error {
        failed(ov, nv)
    } else {
        nv.failures == ov.failures && (store::on_hand(o, n, key) ==> s == store::delete_result(
            o.get(key),
        ))
    }
    &&& o.calm(ov.thread) && o.open_for(ov.txn_mode, key, true) && (o.get(key) is None || store::fits(
        o.log@.psize,
        store::tombstone_size(key),
    )) ==> !(s is Error)
    &&& store::delete_prompt(o, ov.thread, ov.txn_mode, key) ==> !(s is Error)
}

// ---------------------------------------------------------------------------
// What a command does
// ---------------------------------------------------------------------------

/// Everything a command can change but its reply.
pub struct World<D: Device, M: Device> {
    pub shared: Shared<D, M>,
    pub sess: SessView,
}

/// One command: the world and the send buffer before and after it.
pub struct Step<D: Device, M: Device> {
    pub a: World<D, M>,
    pub b: World<D, M>,
    pub out0: Seq<u8>,
    pub out1: Seq<u8>,
}

pub open spec fn step<D: Device, M: Device>(
    o: Shared<D, M>,
    ov: SessView,
    out0: Seq<u8>,
    n: Shared<D, M>,
    nv: SessView,
    out1: Seq<u8>,
) -> Step<D, M> {
    Step { a: World { shared: o, sess: ov }, b: World { shared: n, sess: nv }, out0, out1 }
}

impl<D: Device, M: Device> Step<D, M> {
    /// The reply.
    pub open spec fn says(self, reply: Seq<u8>) -> bool {
        self.out1 == self.out0 + reply
    }

    /// Nothing but a reply.
    pub open spec fn answers(self, reply: Seq<u8>) -> bool {
        self.b == self.a && self.says(reply)
    }

    /// Nothing but a reply and the state of the session.
    pub open spec fn turns(self, sess: SessView, reply: Seq<u8>) -> bool {
        self.b == (World { sess, ..self.a }) && self.says(reply)
    }

    /// The clock of the command.
    pub open spec fn now(self) -> i64 {
        self.a.sess.now
    }

    /// One read, and the reply it gives.
    pub open spec fn reads(
        self,
        key: Seq<u8>,
        iv: InputView,
        reply: spec_fn(Status, OutView) -> Seq<u8>,
    ) -> bool {
        &&& self.b.shared == (Shared { store: self.b.shared.store, ..self.a.shared })
        &&& exists|s: Status| #[trigger]
            read_ran(
                &self.a.shared.store,
                &self.b.shared.store,
                self.a.sess,
                self.b.sess,
                key,
                iv,
                s,
            ) && self.says(reply(s, self.b.sess.scratch))
    }

    /// One blind write, and the reply it gives.
    pub open spec fn upserts(
        self,
        key: Seq<u8>,
        iv: InputView,
        raw: Seq<u8>,
        reply: Seq<u8>,
        logs: spec_fn(Status) -> bool,
    ) -> bool {
        &&& self.says(reply)
        &&& exists|s: Status| #[trigger]
            upsert_ran(
                &self.a.shared.store,
                &self.b.shared.store,
                self.a.sess,
                self.b.sess,
                key,
                iv,
                s,
            ) && logged(&self.a.shared, &self.b.shared, self.a.sess, logs(s), key, raw)
    }

    /// One read-modify-write that starts from the scratch output `s0`, and the
    /// reply it gives.
    pub open spec fn rmws(
        self,
        s0: OutView,
        key: Seq<u8>,
        iv: InputView,
        raw: Seq<u8>,
        reply: spec_fn(Status, OutView) -> Seq<u8>,
        logs: spec_fn(Status, OutView) -> bool,
    ) -> bool {
        exists|s: Status| #[trigger]
            rmw_ran(
                &self.a.shared.store,
                &self.b.shared.store,
                SessView { scratch: s0, ..self.a.sess },
                self.b.sess,
                key,
                iv,
                s,
            ) && self.says(reply(s, self.b.sess.scratch)) && logged(
                &self.a.shared,
                &self.b.shared,
                self.a.sess,
                logs(s, self.b.sess.scratch),
                key,
                raw,
            )
    }
}

pub open spec fn not_an_integer() -> Seq<u8> {
    resp::error_reply(bytes::text("ERR value is not an integer or out of range"))
}

/// A value, or that there is none.
pub open spec fn value_reply(found: bool, value: Seq<u8>) -> Seq<u8> {
    if found {
        resp::bulk_reply(value)
    } else {
        bytes::text(resp::NULL_BULK)
    }
}

pub open spec fn flag_reply(yes: bool) -> Seq<u8> {
    resp::integer_reply(if yes {
        1
    } else {
        0
    })
}

// -- string commands ---------------------------------------------------------

pub open spec fn get_step<D: Device, M: Device>(s: Step<D, M>, key: Seq<u8>) -> bool {
    s.reads(
        key,
        functions::bare_input(StringOp::Get, s.now()),
        |st: Status, v: OutView| value_reply(st is Found, v.bytes),
    )
}

/// STRLEN, TTL: an integer, or what stands for a missing key.
pub open spec fn read_int_step<D: Device, M: Device>(
    s: Step<D, M>,
    key: Seq<u8>,
    op: StringOp,
    missing: int,
) -> bool {
    s.reads(
        key,
        functions::bare_input(op, s.now()),
        |st: Status, v: OutView|
            resp::integer_reply(
                if st is Found {
                    v.int as int
                } else {
                    missing
                },
            ),
    )
}

pub open spec fn getrange_step<D: Device, M: Device>(s: Step<D, M>, args: Seq<Seq<u8>>) -> bool {
    match (resp::argument_int(args[2]), resp::argument_int(args[3])) {
        (Some(start), Some(end)) => s.reads(
            args[1],
            functions::bare_input(
                StringOp::GetRange { start: start as i64, end: end as i64 },
                s.now(),
            ),
            |st: Status, v: OutView|
                resp::bulk_reply(
                    if st is Found {
                        v.bytes
                    } else {
                        Seq::empty()
                    },
                ),
        ),
        _ => s.answers(not_an_integer()),
    }
}

/// The output with no old value in it.
pub open spec fn without_value(o: OutView) -> OutView {
    OutView { has_bytes: false, ..o }
}

/// The operation that SET with options is.
pub open spec fn set_op(o: arguments::SetOpts) -> StringOp {
    if o.get && o.xx {
        StringOp::SetXxGet { keep_ttl: o.keep_ttl }
    } else if o.get {
        StringOp::SetGet { keep_ttl: o.keep_ttl }
    } else if o.nx {
        StringOp::SetNx
    } else if o.xx {
        StringOp::SetXx
    } else if o.keep_ttl {
        StringOp::SetKeepTtl
    } else {
        StringOp::SetPlain
    }
}

pub open spec fn set_step<D: Device, M: Device>(s: Step<D, M>, raw: Seq<u8>, args: Seq<Seq<u8>>) -> bool {
    if args.len() < 3 {
        s.answers(
            resp::error_reply(bytes::text("ERR wrong number of arguments for 'set' command")),
        )
    } else {
        match arguments::set_options_from(args, 3, arguments::no_options(), s.now()) {
            Err(e) => s.answers(resp::error_reply(e.text())),
            Ok(o) => {
                let iv = InputView {
                    op: set_op(o),
                    operand: args[2],
                    delta: 0,
                    expiration: o.expiration,
                    now_ms: s.now(),
                };
                if set_op(o) is SetPlain {
                    s.upserts(
                        args[1],
                        iv,
                        raw,
                        bytes::text(resp::OK),
                        |st: Status| st.updated(),
                    )
                } else {
                    s.rmws(
                        without_value(s.a.sess.scratch),
                        args[1],
                        iv,
                        raw,
                        |st: Status, v: OutView|
                            if o.get {
                                value_reply(!(st is Error) && v.has_bytes, v.bytes)
                            } else if st.updated() {
                                bytes::text(resp::OK)
                            } else {
                                bytes::text(resp::NULL_BULK)
                            },
                        |st: Status, v: OutView| st.updated(),
                    )
                }
            },
        }
    }
}

pub open spec fn setnx_step<D: Device, M: Device>(s: Step<D, M>, raw: Seq<u8>, args: Seq<Seq<u8>>) -> bool {
    s.rmws(
        s.a.sess.scratch,
        args[1],
        InputView { operand: args[2], ..functions::bare_input(StringOp::SetNx, s.now()) },
        raw,
        |st: Status, v: OutView| flag_reply(st.updated()),
        |st: Status, v: OutView| st.updated(),
    )
}

pub open spec fn setex_step<D: Device, M: Device>(
    s: Step<D, M>,
    raw: Seq<u8>,
    args: Seq<Seq<u8>>,
    ms: bool,
) -> bool {
    match resp::argument_int(args[2]) {
        Some(t) if t > 0 => s.upserts(
            args[1],
            InputView {
                operand: args[3],
                expiration: i64_specs::wrapping_add(
                    s.now(),
                    if ms {
                        t as i64
                    } else {
                        i64_specs::wrapping_mul(t as i64, 1000)
                    },
                ),
                ..functions::bare_input(StringOp::SetPlain, s.now())
            },
            raw,
            bytes::text(resp::OK),
            |st: Status| st.updated(),
        ),
        _ => s.answers(
            resp::error_reply(bytes::text("ERR invalid expire time in 'setex' command")),
        ),
    }
}

pub open spec fn getset_step<D: Device, M: Device>(s: Step<D, M>, raw: Seq<u8>, args: Seq<Seq<u8>>) -> bool {
    s.rmws(
        without_value(s.a.sess.scratch),
        args[1],
        InputView {
            operand: args[2],
            ..functions::bare_input(StringOp::SetGet { keep_ttl: false }, s.now())
        },
        raw,
        |st: Status, v: OutView| value_reply(!(st is Error) && v.has_bytes, v.bytes),
        |st: Status, v: OutView| st.updated(),
    )
}

pub open spec fn getdel_step<D: Device, M: Device>(s: Step<D, M>, raw: Seq<u8>, key: Seq<u8>) -> bool {
    s.rmws(
        OutView { bytes: Seq::empty(), ..s.a.sess.scratch },
        key,
        functions::bare_input(StringOp::GetDel, s.now()),
        raw,
        |st: Status, v: OutView| value_reply(st is Deleted, v.bytes),
        |st: Status, v: OutView| st is Deleted,
    )
}

pub open spec fn getex_step<D: Device, M: Device>(s: Step<D, M>, raw: Seq<u8>, args: Seq<Seq<u8>>) -> bool {
    if args.len() == 2 {
        get_step(s, args[1])
    } else {
        match arguments::getex_from(args, 2, 0, s.now()) {
            Err(e) => s.answers(resp::error_reply(e.text())),
            Ok(expiration) => s.rmws(
                OutView { bytes: Seq::empty(), ..s.a.sess.scratch },
                args[1],
                InputView { expiration, ..functions::bare_input(StringOp::GetEx, s.now()) },
                raw,
                |st: Status, v: OutView| value_reply(st.updated(), v.bytes),
                |st: Status, v: OutView| st.updated(),
            ),
        }
    }
}

pub open spec fn incr_step<D: Device, M: Device>(
    s: Step<D, M>,
    raw: Seq<u8>,
    key: Seq<u8>,
    delta: i64,
) -> bool {
    s.rmws(
        s.a.sess.scratch,
        key,
        InputView { delta, ..functions::bare_input(StringOp::IncrBy, s.now()) },
        raw,
        |st: Status, v: OutView|
            if st.updated() {
                resp::integer_reply(v.int as int)
            } else {
                not_an_integer()
            },
        |st: Status, v: OutView| st.updated(),
    )
}

/// INCRBY, DECRBY.
pub open spec fn incrby_step<D: Device, M: Device>(
    s: Step<D, M>,
    raw: Seq<u8>,
    args: Seq<Seq<u8>>,
    down: bool,
) -> bool {
    match resp::argument_int(args[2]) {
        Some(d) => incr_step(
            s,
            raw,
            args[1],
            if down {
                i64_specs::wrapping_sub(0, d as i64)
            } else {
                d as i64
            },
        ),
        None => s.answers(not_an_integer()),
    }
}

/// APPEND, SETRANGE: the new length, or 0.
pub open spec fn rmw_int_step<D: Device, M: Device>(
    s: Step<D, M>,
    raw: Seq<u8>,
    key: Seq<u8>,
    op: StringOp,
    operand: Seq<u8>,
) -> bool {
    s.rmws(
        s.a.sess.scratch,
        key,
        InputView { operand, ..functions::bare_input(op, s.now()) },
        raw,
        |st: Status, v: OutView|
            resp::integer_reply(
                if st.updated() {
                    v.int as int
                } else {
                    0
                },
            ),
        |st: Status, v: OutView| st.updated(),
    )
}

/// An offset as far as it can be addressed.
pub open spec fn offset_of(t: int) -> usize {
    if t <= usize::MAX {
        t as usize
    } else {
        usize::MAX
    }
}

pub open spec fn setrange_step<D: Device, M: Device>(s: Step<D, M>, raw: Seq<u8>, args: Seq<Seq<u8>>) -> bool {
    match resp::argument_int(args[2]) {
        Some(t) if t >= 0 => rmw_int_step(
            s,
            raw,
            args[1],
            StringOp::SetRange { offset: offset_of(t) },
            args[3],
        ),
        _ => s.answers(resp::error_reply(bytes::text("ERR offset is out of range"))),
    }
}

pub open spec fn expire_step<D: Device, M: Device>(
    s: Step<D, M>,
    raw: Seq<u8>,
    args: Seq<Seq<u8>>,
    unit: i64,
    at: bool,
) -> bool {
    match resp::argument_int(args[2]) {
        None => s.answers(not_an_integer()),
        Some(t) => {
            let d = i64_specs::wrapping_mul(t as i64, unit);
            s.rmws(
                s.a.sess.scratch,
                args[1],
                InputView {
                    expiration: if at {
                        d
                    } else {
                        i64_specs::wrapping_add(s.now(), d)
                    },
                    ..functions::bare_input(StringOp::Expire, s.now())
                },
                raw,
                |st: Status, v: OutView| flag_reply(st.updated()),
                |st: Status, v: OutView| st.updated(),
            )
        },
    }
}

pub open spec fn persist_step<D: Device, M: Device>(s: Step<D, M>, raw: Seq<u8>, key: Seq<u8>) -> bool {
    s.rmws(
        s.a.sess.scratch,
        key,
        functions::bare_input(StringOp::Persist, s.now()),
        raw,
        |st: Status, v: OutView| flag_reply(st.updated() && v.has_int && v.int == 1),
        |st: Status, v: OutView| st.updated() && v.has_int && v.int == 1,
    )
}

pub open spec fn type_step<D: Device, M: Device>(s: Step<D, M>, key: Seq<u8>) -> bool {
    s.reads(
        key,
        functions::bare_input(StringOp::Exists, s.now()),
        |st: Status, v: OutView|
            resp::simple_reply(
                if st is Found {
                    bytes::text("string")
                } else {
                    bytes::text("none")
                },
            ),
    )
}

/// Nothing logged, nothing changed.
pub proof fn lemma_unlogged<D: Device, M: Device>(
    o: &Shared<D, M>,
    n: &Shared<D, M>,
    ov: SessView,
    key: Seq<u8>,
    raw: Seq<u8>,
)
    requires
        *n == (Shared { store: n.store, ..*o }),
    ensures
        logged(o, n, ov, false, key, raw),
{
    reveal(logged);
}

/// An argument list names the arguments.
pub proof fn lemma_args(args: Seq<&[u8]>)
    ensures
        arguments::arg_list(args).len() == args.len(),
        forall|i: int| 0 <= i < args.len() ==> #[trigger] arguments::arg_list(args)[i] == args[i]@,
{
}

// -- commands on several keys ------------------------------------------------

/// One step of a chain of them.
pub open spec fn link<D: Device, M: Device>(
    ws: Seq<World<D, M>>,
    outs: Seq<Seq<u8>>,
    i: int,
) -> Step<D, M> {
    Step { a: ws[i], b: ws[i + 1], out0: outs[i], out1: outs[i + 1] }
}

/// `n` steps, one after the other.
pub open spec fn chained<D: Device, M: Device>(
    ws: Seq<World<D, M>>,
    outs: Seq<Seq<u8>>,
    n: int,
    f: spec_fn(int, Step<D, M>) -> bool,
) -> bool {
    &&& ws.len() == n + 1
    &&& outs.len() == n + 1
    &&& forall|i: int| 0 <= i < n ==> f(i, #[trigger] link(ws, outs, i))
}

impl<D: Device, M: Device> Step<D, M> {
    /// This step is `n` smaller ones.
    pub open spec fn repeats(self, n: int, f: spec_fn(int, Step<D, M>) -> bool) -> bool {
        exists|ws: Seq<World<D, M>>, outs: Seq<Seq<u8>>| #[trigger]
            chained(ws, outs, n, f) && ws[0] == self.a && ws[n] == self.b && outs[0] == self.out0
                && outs[n] == self.out1
    }
}

pub proof fn lemma_chain_push<D: Device, M: Device>(
    ws: Seq<World<D, M>>,
    outs: Seq<Seq<u8>>,
    n: int,
    f: spec_fn(int, Step<D, M>) -> bool,
    w: World<D, M>,
    out: Seq<u8>,
)
    requires
        n >= 0,
        chained(ws, outs, n, f),
        f(n, Step { a: ws[n], b: w, out0: outs[n], out1: out }),
    ensures
        chained(ws.push(w), outs.push(out), n + 1, f),
{
    let ws1 = ws.push(w);
    let outs1 = outs.push(out);
    assert forall|i: int| 0 <= i < n + 1 implies f(i, #[trigger] link(ws1, outs1, i)) by {
        if i < n {
            assert(link(ws1, outs1, i) == link(ws, outs, i));
        } else {
            assert(link(ws1, outs1, i) == (Step { a: ws[n], b: w, out0: outs[n], out1: out }));
        }
    }
}

/// GET of one key of MGET.
pub open spec fn mget_item<D: Device, M: Device>(args: Seq<Seq<u8>>) -> spec_fn(int, Step<D, M>) -> bool {
    |i: int, s: Step<D, M>| get_step(s, args[i + 1])
}

pub open spec fn mget_step<D: Device, M: Device>(s: Step<D, M>, args: Seq<Seq<u8>>) -> bool {
    (Step { out0: s.out0 + resp::array_header(args.len() - 1), ..s }).repeats(
        args.len() - 1,
        mget_item(args),
    )
}

/// One pair of MSET is written.
pub open spec fn pair_step<D: Device, M: Device>(s: Step<D, M>, key: Seq<u8>, value: Seq<u8>) -> bool {
    let iv = InputView { operand: value, ..functions::bare_input(StringOp::SetPlain, s.now()) };
    &&& s.out1 == s.out0
    &&& s.b.shared == (Shared { store: s.b.shared.store, watch: s.b.shared.watch, ..s.a.shared })
    &&& bumped(&s.a.shared.watch, &s.b.shared.watch, key)
    &&& exists|st: Status| #[trigger]
        upsert_ran(
            &s.a.shared.store,
            &s.b.shared.store,
            s.a.sess,
            s.b.sess,
            key,
            iv,
            st,
        )
}

pub open spec fn mset_item<D: Device, M: Device>(args: Seq<Seq<u8>>) -> spec_fn(int, Step<D, M>) -> bool {
    |i: int, s: Step<D, M>| pair_step(s, args[2 * i + 1], args[2 * i + 2])
}

/// A command is entered in the operation log, and nothing else happens.
pub open spec fn enters<D: Device, M: Device>(
    a: World<D, M>,
    b: World<D, M>,
    op: AofOp,
    payload: Seq<u8>,
) -> bool {
    &&& b == (World { shared: Shared { aof: b.shared.aof, ..a.shared }, ..a })
    &&& entered(&a.shared, &b.shared, a.sess, op, payload)
}

/// MSET: `mid` is when all pairs are written.
pub open spec fn mset_ran<D: Device, M: Device>(
    s: Step<D, M>,
    mid: World<D, M>,
    raw: Seq<u8>,
    args: Seq<Seq<u8>>,
) -> bool {
    &&& (Step { b: mid, out1: s.out0, ..s }).repeats((args.len() - 1) / 2, mset_item(args))
    &&& enters(mid, s.b, AofOp::Command, raw)
}

pub open spec fn mset_step<D: Device, M: Device>(s: Step<D, M>, raw: Seq<u8>, args: Seq<Seq<u8>>) -> bool {
    &&& s.says(bytes::text(resp::OK))
    &&& exists|mid: World<D, M>| #[trigger] mset_ran(s, mid, raw, args)
}

/// How often an outcome occurs.
pub open spec fn tally(ss: Seq<Status>, wanted: Status) -> nat
    decreases ss.len(),
{
    if ss.len() == 0 {
        0
    } else {
        tally(ss.drop_last(), wanted) + (if ss.last() == wanted {
            1nat
        } else {
            0nat
        })
    }
}

/// Key `i` of DEL, with the outcome `ss[i]`.
pub open spec fn deletion_at<D: Device, M: Device>(
    ws: Seq<World<D, M>>,
    ss: Seq<Status>,
    args: Seq<Seq<u8>>,
    i: int,
) -> bool {
    let a = ws[i];
    let b = ws[i + 1];
    &&& delete_ran(&a.shared.store, &b.shared.store, a.sess, b.sess, args[i + 1], ss[i])
    &&& b.shared == (Shared { store: b.shared.store, watch: b.shared.watch, ..a.shared })
    &&& if ss[i] is Deleted {
        bumped(&a.shared.watch, &b.shared.watch, args[i + 1])
    } else {
        b.shared.watch == a.shared.watch
    }
}

pub open spec fn deletions<D: Device, M: Device>(
    ws: Seq<World<D, M>>,
    ss: Seq<Status>,
    args: Seq<Seq<u8>>,
    n: int,
) -> bool {
    &&& ws.len() == n + 1
    &&& ss.len() == n
    &&& forall|i: int| 0 <= i < n ==> #[trigger] deletion_at(ws, ss, args, i)
}

pub open spec fn del_step<D: Device, M: Device>(s: Step<D, M>, raw: Seq<u8>, args: Seq<Seq<u8>>) -> bool {
    exists|ws: Seq<World<D, M>>, ss: Seq<Status>| #[trigger]
        deletions(ws, ss, args, args.len() - 1) && ws[0] == s.a && s.says(
            resp::integer_reply(tally(ss, Status::Deleted) as int),
        ) && if tally(ss, Status::Deleted) > 0 {
            enters(ws[args.len() - 1], s.b, AofOp::Command, raw)
        } else {
            s.b == ws[args.len() - 1]
        }
}

/// Key `i` of EXISTS, with the outcome `ss[i]`.
pub open spec fn reading_at<D: Device, M: Device>(
    ws: Seq<World<D, M>>,
    ss: Seq<Status>,
    args: Seq<Seq<u8>>,
    i: int,
) -> bool {
    let a = ws[i];
    let b = ws[i + 1];
    &&& read_ran(
        &a.shared.store,
        &b.shared.store,
        a.sess,
        b.sess,
        args[i + 1],
        functions::bare_input(StringOp::Exists, a.sess.now),
        ss[i],
    )
    &&& b.shared == (Shared { store: b.shared.store, ..a.shared })
}

pub open spec fn readings<D: Device, M: Device>(
    ws: Seq<World<D, M>>,
    ss: Seq<Status>,
    args: Seq<Seq<u8>>,
    n: int,
) -> bool {
    &&& ws.len() == n + 1
    &&& ss.len() == n
    &&& forall|i: int| 0 <= i < n ==> #[trigger] reading_at(ws, ss, args, i)
}

pub open spec fn exists_step<D: Device, M: Device>(s: Step<D, M>, args: Seq<Seq<u8>>) -> bool {
    exists|ws: Seq<World<D, M>>, ss: Seq<Status>| #[trigger]
        readings(ws, ss, args, args.len() - 1) && ws[0] == s.a && ws[args.len() - 1] == s.b && s.says(
            resp::integer_reply(tally(ss, Status::Found) as int),
        )
}

/// The shared state has the same buckets and the same watch slots: what other
/// sessions know of it still holds.
pub open spec fn same_frame<D: Device, M: Device>(o: &Shared<D, M>, n: &Shared<D, M>) -> bool {
    &&& n.store.index.bucket_count() == o.store.index.bucket_count()
    &&& n.watch@.len() == o.watch@.len()
}

/// What no command but EXEC and FLUSHALL touches.
pub open spec fn kept<D: Device, M: Device>(a: World<D, M>, b: World<D, M>) -> bool {
    &&& same_frame(&a.shared, &b.shared)
    &&& b.shared.store.index.same_shape(&a.shared.store.index)
    &&& b.shared.store.index.same_latches(&a.shared.store.index) || b.shared.store.index.latches_free()
    &&& b.sess.thread == a.sess.thread
    &&& b.sess.txn_mode == a.sess.txn_mode
    &&& b.sess.locks == a.sess.locks
    &&& b.sess.now == a.sess.now
    &&& b.sess.replay == a.sess.replay
}

pub proof fn lemma_kept_trans<D: Device, M: Device>(a: World<D, M>, b: World<D, M>, c: World<D, M>)
    requires
        kept(a, b),
        kept(b, c),
    ensures
        kept(a, c),
{
}

/// Single operations keep all of it.
pub proof fn lemma_kept<D: Device, M: Device>(s: Step<D, M>)
    ensures
        forall|k: Seq<u8>, iv: InputView, f: spec_fn(Status, OutView) -> Seq<u8>| #[trigger]
            s.reads(k, iv, f) ==> kept(s.a, s.b),
        forall|
            k: Seq<u8>,
            iv: InputView,
            raw: Seq<u8>,
            reply: Seq<u8>,
            g: spec_fn(Status) -> bool,
        | #[trigger] s.upserts(k, iv, raw, reply, g) ==> kept(s.a, s.b),
        forall|
            s0: OutView,
            k: Seq<u8>,
            iv: InputView,
            raw: Seq<u8>,
            f: spec_fn(Status, OutView) -> Seq<u8>,
            g: spec_fn(Status, OutView) -> bool,
        | #[trigger] s.rmws(s0, k, iv, raw, f, g) ==> kept(s.a, s.b),
{
    reveal(read_ran);
    reveal(upsert_ran);
    reveal(rmw_ran);
    reveal(logged);
}

// -- the whole keyspace ------------------------------------------------------

/// Those of the keys that match a pattern.
pub open spec fn matching(pattern: Seq<u8>, keys: Seq<Seq<u8>>) -> Seq<Seq<u8>>
    decreases keys.len(),
{
    if keys.len() == 0 {
        Seq::empty()
    } else if glob::glob(pattern, keys.last()) {
        matching(pattern, keys.drop_last()).push(keys.last())
    } else {
        matching(pattern, keys.drop_last())
    }
}

/// Keys that match, in the order of their records in the log: all of them, if
/// the log can be read back.
pub open spec fn listed<D: Device>(store: &Store<D>, pattern: Seq<u8>, keys: Seq<Seq<u8>>) -> bool {
    &&& forall|i: int|
        0 <= i < keys.len() ==> store.get(#[trigger] keys[i]) is Some && glob::glob(pattern, keys[i])
    &&& store.log@.dependable >= store.log@.flushed ==> keys == matching(
        pattern,
        store.keys_of(store.live_list()),
    )
}

pub open spec fn keys_step<D: Device, M: Device>(s: Step<D, M>, pattern: Seq<u8>) -> bool {
    &&& s.b == s.a
    &&& exists|keys: Seq<Seq<u8>>| #[trigger]
        listed(&s.a.shared.store, pattern, keys) && s.says(wire::array_of(keys))
}

/// SCAN ignores the cursor: it answers everything, with a next cursor of 0.
pub open spec fn scan_step<D: Device, M: Device>(s: Step<D, M>, args: Seq<Seq<u8>>) -> bool {
    keys_step(
        Step {
            out0: s.out0 + resp::array_header(2) + resp::bulk_reply(bytes::text("0")),
            ..s
        },
        arguments::match_from(args, 2, bytes::text("*")),
    )
}

/// A number of keys: all of them, if the log can be read back.
pub open spec fn counted<D: Device>(store: &Store<D>, n: nat) -> bool {
    &&& n <= store.contents().dom().len()
    &&& store.log@.dependable >= store.log@.flushed ==> n == store.contents().dom().len()
}

pub open spec fn dbsize_step<D: Device, M: Device>(s: Step<D, M>) -> bool {
    &&& s.b == s.a
    &&& exists|n: nat| #[trigger]
        counted(&s.a.shared.store, n) && s.says(resp::integer_reply(n as int))
}

/// Every watched key has changed.
pub open spec fn stirred(o: &WatchTable, n: &WatchTable) -> bool {
    &&& n.inv()
    &&& n.same_slots(o)
    &&& forall|i: int|
        0 <= i < n@.len() ==> #[trigger] n@[i] == u64_specs::wrapping_add(o@[i], 1)
}

/// FLUSHDB, FLUSHALL: the keys are gone; the log stays. It is a write of every
/// key: whoever watches one notices, and the command is logged.
pub open spec fn flush_step<D: Device, M: Device>(s: Step<D, M>, raw: Seq<u8>) -> bool {
    let o = s.a.shared.store;
    let n = s.b.shared.store;
    &&& s.b == (World {
        shared: Shared {
            store: n,
            watch: s.b.shared.watch,
            aof: s.b.shared.aof,
            ..s.a.shared
        },
        ..s.a
    })
    &&& stirred(&s.a.shared.watch, &s.b.shared.watch)
    &&& entered(&s.a.shared, &s.b.shared, s.a.sess, AofOp::Command, raw)
    &&& n == (Store { index: n.index, floor: o.log@.tail() as u64, ..o })
    &&& n.whole()
    &&& n.index.same_shape(&o.index)
    &&& n.index.room()
    &&& forall|b: int| 0 <= b < n.index.bucket_count() ==> #[trigger] n.index.free(b) == 7
    &&& n.index.latches_free()
    &&& n.contents() == Map::<Seq<u8>, RecordView>::empty()
    &&& forall|k: Seq<u8>| #[trigger] n.get(k) is None
    &&& s.says(bytes::text(resp::OK))
}

pub open spec fn save_reply(r: Result<(), SaveError>) -> Seq<u8> {
    match r {
        Ok(_) => bytes::text(resp::OK),
        Err(e) => resp::error_reply(bytes::text("ERR checkpoint failed: ") + e.text()),
    }
}

pub open spec fn save_step<D: Device, M: Device>(s: Step<D, M>) -> bool {
    &&& s.b.sess == s.a.sess
    &&& exists|r: Result<(), SaveError>| #[trigger]
        shared::saved(&s.a.shared, &s.b.shared, s.now(), r) && s.says(save_reply(r))
}

pub open spec fn hello_reply() -> Seq<u8> {
    resp::array_header(6) + resp::bulk_reply(bytes::text("server")) + resp::bulk_reply(
        bytes::text("mini-garnet"),
    ) + resp::bulk_reply(bytes::text("version")) + resp::bulk_reply(bytes::text("0.1.0"))
        + resp::bulk_reply(bytes::text("proto")) + resp::integer_reply(2)
}

// -- transactions ------------------------------------------------------------

pub open spec fn discarded(v: SessView) -> SessView {
    SessView {
        in_multi: false,
        dirty: false,
        queued: Seq::empty(),
        watches: Seq::empty(),
        ..v
    }
}

pub open spec fn multi_step<D: Device, M: Device>(s: Step<D, M>) -> bool {
    if s.a.sess.in_multi {
        s.answers(resp::error_reply(bytes::text("ERR MULTI calls can not be nested")))
    } else {
        s.turns(
            SessView { in_multi: true, dirty: false, queued: Seq::empty(), ..s.a.sess },
            bytes::text(resp::OK),
        )
    }
}

pub open spec fn discard_step<D: Device, M: Device>(s: Step<D, M>) -> bool {
    if s.a.sess.in_multi {
        s.turns(discarded(s.a.sess), bytes::text(resp::OK))
    } else {
        s.answers(resp::error_reply(bytes::text("ERR DISCARD without MULTI")))
    }
}

/// What WATCH remembers of a key: its slot, and the version there.
pub open spec fn watched(t: &WatchTable, key: Seq<u8>) -> (usize, u64) {
    (t.slot(key) as usize, t@[t.slot(key)])
}

pub open spec fn watch_step<D: Device, M: Device>(s: Step<D, M>, args: Seq<Seq<u8>>) -> bool {
    if s.a.sess.in_multi {
        s.answers(resp::error_reply(bytes::text("ERR WATCH inside MULTI is not allowed")))
    } else {
        s.turns(
            SessView {
                watches: s.a.sess.watches + args.skip(1).map_values(
                    |k: Seq<u8>| watched(&s.a.shared.watch, k),
                ),
                ..s.a.sess
            },
            bytes::text(resp::OK),
        )
    }
}

// -- any command -------------------------------------------------------------

pub open spec fn unknown_reply(name: Seq<u8>) -> Seq<u8> {
    resp::error_reply(
        bytes::text("ERR unknown command '") + bytes::lossy(name) + bytes::text(
            "' or wrong number of arguments",
        ),
    )
}

/// A command, by kind. EXEC stands apart: inside a transaction that is being
/// executed there is none to execute.
pub open spec fn plain_step<D: Device, M: Device>(
    s: Step<D, M>,
    kind: Kind,
    raw: Seq<u8>,
    args: Seq<Seq<u8>>,
) -> bool {
    match kind {
        Kind::Ping => s.answers(
            if args.len() >= 2 {
                resp::bulk_reply(args[1])
            } else {
                bytes::text(resp::PONG)
            },
        ),
        Kind::Echo => s.answers(resp::bulk_reply(args[1])),
        Kind::Quit | Kind::Select | Kind::Client | Kind::Rewrite => s.answers(
            bytes::text(resp::OK),
        ),
        Kind::Hello => s.answers(hello_reply()),
        Kind::Command | Kind::Config => s.answers(bytes::text(resp::EMPTY_ARRAY)),
        Kind::Info => s.answers(
            resp::bulk_reply(bytes::text("# Server\r\nmini_garnet:1\r\n")),
        ),
        Kind::Reset => s.turns(discarded(s.a.sess), resp::simple_reply(bytes::text("RESET"))),
        Kind::DbSize => dbsize_step(s),
        Kind::Flush => flush_step(s, raw),
        Kind::Keys => keys_step(s, args[1]),
        Kind::Scan => scan_step(s, args),
        Kind::Multi => multi_step(s),
        Kind::Exec => s.answers(resp::error_reply(bytes::text("ERR EXEC without MULTI"))),
        Kind::Discard => discard_step(s),
        Kind::Watch => watch_step(s, args),
        Kind::Unwatch => s.turns(
            SessView { watches: Seq::empty(), ..s.a.sess },
            bytes::text(resp::OK),
        ),
        Kind::Save => save_step(s),
        Kind::LastSave => s.answers(
            resp::integer_reply(functions::truncated(s.a.shared.last_save) as int),
        ),
        Kind::Unknown => s.answers(unknown_reply(args[0])),
        _ => data_step(s, kind, raw, args),
    }
}

/// A command on keys, by kind.
pub open spec fn data_step<D: Device, M: Device>(
    s: Step<D, M>,
    kind: Kind,
    raw: Seq<u8>,
    args: Seq<Seq<u8>>,
) -> bool {
    match kind {
        Kind::Get => get_step(s, args[1]),
        Kind::SetKey => set_step(s, raw, args),
        Kind::SetNx => setnx_step(s, raw, args),
        Kind::SetEx => setex_step(s, raw, args, false),
        Kind::PSetEx => setex_step(s, raw, args, true),
        Kind::GetSet => getset_step(s, raw, args),
        Kind::GetDel => getdel_step(s, raw, args[1]),
        Kind::GetEx => getex_step(s, raw, args),
        Kind::Append => rmw_int_step(s, raw, args[1], StringOp::Append, args[2]),
        Kind::StrLen => read_int_step(s, args[1], StringOp::Strlen, 0),
        Kind::GetRange => getrange_step(s, args),
        Kind::SetRange => setrange_step(s, raw, args),
        Kind::Incr => incr_step(s, raw, args[1], 1),
        Kind::Decr => incr_step(s, raw, args[1], (-1) as i64),
        Kind::IncrBy => incrby_step(s, raw, args, false),
        Kind::DecrBy => incrby_step(s, raw, args, true),
        Kind::MSet => mset_step(s, raw, args),
        Kind::MGet => mget_step(s, args),
        Kind::Del => del_step(s, raw, args),
        Kind::Exists => exists_step(s, args),
        Kind::Expire => expire_step(s, raw, args, 1000, false),
        Kind::PExpire => expire_step(s, raw, args, 1, false),
        Kind::ExpireAt => expire_step(s, raw, args, 1000, true),
        Kind::PExpireAt => expire_step(s, raw, args, 1, true),
        Kind::Ttl => read_int_step(s, args[1], StringOp::Ttl { ms: false }, -2),
        Kind::PTtl => read_int_step(s, args[1], StringOp::Ttl { ms: true }, -2),
        Kind::Persist => persist_step(s, raw, args[1]),
        Kind::Type => type_step(s, args[1]),
        _ => false,
    }
}

pub open spec fn is_string(kind: Kind) -> bool {
    match kind {
        Kind::Get | Kind::SetKey | Kind::SetNx | Kind::SetEx | Kind::PSetEx | Kind::GetSet
        | Kind::GetDel | Kind::GetEx | Kind::Append | Kind::StrLen | Kind::GetRange
        | Kind::SetRange | Kind::Incr | Kind::Decr | Kind::IncrBy | Kind::DecrBy => true,
        _ => false,
    }
}

pub open spec fn is_generic(kind: Kind) -> bool {
    match kind {
        Kind::MSet | Kind::MGet | Kind::Del | Kind::Exists | Kind::Expire | Kind::PExpire
        | Kind::ExpireAt | Kind::PExpireAt | Kind::Ttl | Kind::PTtl | Kind::Persist
        | Kind::Type => true,
        _ => false,
    }
}

// -- EXEC --------------------------------------------------------------------

/// Keys touched by queued commands, and how they are locked.
pub open spec fn txn_keys(q: Seq<Seq<u8>>) -> Seq<(Seq<u8>, LockType)>
    decreases q.len(),
{
    if q.len() == 0 {
        Seq::empty()
    } else {
        txn_keys(q.drop_last()) + (match arguments::queued_args(q.last()) {
            Some(args) => arguments::keys_of(args),
            None => Seq::empty(),
        })
    }
}

/// A watched key was written since.
pub open spec fn conflict(versions: Seq<u64>, watches: Seq<(usize, u64)>) -> bool {
    exists|i: int|
        0 <= i < watches.len() && versions[(#[trigger] watches[i]).0 as int] != watches[i].1
}

/// No transaction is being executed.
pub open spec fn at_rest<D: Device, M: Device>(w: World<D, M>) -> bool {
    !w.sess.txn_mode && w.shared.store.index.latches_free()
}

/// The queue is taken, its latches are held, and the start of the transaction
/// is entered in the operation log. While a log is replayed there is nobody to
/// lock out.
pub open spec fn begun<D: Device, M: Device>(a: World<D, M>, b: World<D, M>) -> bool {
    let o = a.shared.store;
    let n = b.shared.store;
    &&& b.sess == (SessView {
        in_multi: false,
        queued: Seq::empty(),
        watches: Seq::empty(),
        txn_mode: !a.sess.replay,
        locks: b.sess.locks,
        ..a.sess
    })
    &&& b.shared == (Shared { store: n, aof: b.shared.aof, ..a.shared })
    &&& entered(&a.shared, &b.shared, a.sess, AofOp::TxnStart, Seq::empty())
    &&& if a.sess.replay {
        n == o && b.sess.locks == a.sess.locks
    } else {
        &&& relatched(&o, &n)
        &&& latched(&o.index, &n.index, b.sess.locks, txn_keys(a.sess.queued))
    }
}

/// Same store, but for latches.
pub open spec fn relatched<D: Device>(o: &Store<D>, n: &Store<D>) -> bool {
    &&& *n == (Store { index: n.index, ..*o })
    &&& n.index.same_shape(&o.index)
    &&& n.index.same_entries(&o.index)
    &&& n.index.same_room(&o.index)
    &&& n.newest_same(o)
    &&& o.whole() ==> n.whole()
}

/// The latches that the keys ask for are held, and no others were taken.
pub open spec fn latched(
    o: &HashIndex,
    n: &HashIndex,
    locks: Seq<(usize, LockType)>,
    keys: Seq<(Seq<u8>, LockType)>,
) -> bool {
    let m = transactions::wanted_locks(*o, keys);
    &&& transactions::lists_locks(locks, m)
    &&& forall|b: int| #[trigger]
        m.dom().contains(b) ==> n.latch(b) == transactions::taken(o.latch(b), m[b])
    &&& forall|b: int|
        0 <= b < o.bucket_count() && !m.dom().contains(b) ==> #[trigger] n.latch(b) == o.latch(b)
}

/// The latches are given back, and the end of the transaction is entered in
/// the operation log.
pub open spec fn ended<D: Device, M: Device>(a: World<D, M>, b: World<D, M>) -> bool {
    let o = a.shared.store;
    let n = b.shared.store;
    &&& b.shared == (Shared { store: n, aof: b.shared.aof, ..a.shared })
    &&& entered(&a.shared, &b.shared, a.sess, AofOp::TxnCommit, Seq::empty())
    &&& if a.sess.replay {
        n == o && b.sess == a.sess
    } else {
        &&& b.sess == (SessView { txn_mode: false, locks: Seq::empty(), ..a.sess })
        &&& relatched(&o, &n)
        &&& unlatched(&o.index, &n.index, a.sess.locks)
    }
}

pub open spec fn unlatched(o: &HashIndex, n: &HashIndex, locks: Seq<(usize, LockType)>) -> bool {
    &&& forall|i: int|
        0 <= i < locks.len() ==> n.latch((#[trigger] locks[i]).0 as int)
            == transactions::given_back(o.latch(locks[i].0 as int), locks[i].1)
    &&& forall|b: int|
        0 <= b < o.bucket_count() && !transactions::has_bucket(locks, b) ==> #[trigger] n.latch(b)
            == o.latch(b)
}

/// One queued command.
pub open spec fn queued_step<D: Device, M: Device>(s: Step<D, M>, raw: Seq<u8>) -> bool {
    match arguments::queued_args(raw) {
        Some(args) if args.len() > 0 => plain_step(
            s,
            arguments::kind_of(arguments::name_of(args[0]), args.len() as int),
            raw,
            args,
        ),
        _ => s.answers(resp::error_reply(bytes::text("ERR bad queued command"))),
    }
}

pub open spec fn queued_item<D: Device, M: Device>(q: Seq<Seq<u8>>) -> spec_fn(int, Step<D, M>) -> bool {
    |i: int, s: Step<D, M>| queued_step(s, q[i])
}

/// A transaction that is carried out: `w1` is when its latches are held, `w2`
/// when its last command is done. The reply is an array of the replies.
pub open spec fn executed<D: Device, M: Device>(
    s: Step<D, M>,
    w1: World<D, M>,
    w2: World<D, M>,
) -> bool {
    let q = s.a.sess.queued;
    &&& begun(s.a, w1)
    &&& (Step {
        a: w1,
        b: w2,
        out0: s.out0 + resp::array_header(q.len() as int),
        out1: s.out1,
    }).repeats(q.len() as int, queued_item(q))
    &&& ended(w2, s.b)
}

pub open spec fn exec_step<D: Device, M: Device>(s: Step<D, M>) -> bool {
    if !s.a.sess.in_multi {
        s.answers(resp::error_reply(bytes::text("ERR EXEC without MULTI")))
    } else if s.a.sess.dirty {
        s.turns(
            discarded(s.a.sess),
            resp::error_reply(
                bytes::text("EXECABORT Transaction discarded because of previous errors."),
            ),
        )
    } else if conflict(s.a.shared.watch@, s.a.sess.watches) {
        s.turns(discarded(s.a.sess), bytes::text(resp::NULL_ARRAY))
    } else {
        exists|w1: World<D, M>, w2: World<D, M>| #[trigger] executed(s, w1, w2)
    }
}

/// Any command, by its name.
pub open spec fn command_step<D: Device, M: Device>(
    s: Step<D, M>,
    raw: Seq<u8>,
    args: Seq<Seq<u8>>,
) -> bool {
    let kind = arguments::kind_of(arguments::name_of(args[0]), args.len() as int);
    if kind is Exec {
        exec_step(s)
    } else {
        plain_step(s, kind, raw, args)
    }
}

/// A command as a connection sends it, at the time `now`: inside MULTI,
/// everything but the control commands is queued.
pub open spec fn dispatch_step<D: Device, M: Device>(
    s: Step<D, M>,
    now: i64,
    raw: Seq<u8>,
    args: Seq<Seq<u8>>,
) -> bool {
    if args.len() == 0 {
        s.b == s.a && s.out1 == s.out0
    } else {
        let sess = SessView {
            now: if s.a.sess.replay {
                s.a.sess.now
            } else {
                now
            },
            ..s.a.sess
        };
        let t = Step { a: World { sess, ..s.a }, ..s };
        let name = arguments::name_of(args[0]);
        if sess.in_multi && !arguments::is_control(name) {
            if arguments::is_unqueueable(name) {
                t.turns(
                    SessView { dirty: true, ..sess },
                    resp::error_reply(bytes::text("ERR command not allowed in transaction")),
                )
            } else {
                t.turns(
                    SessView { queued: sess.queued.push(raw), ..sess },
                    bytes::text(resp::QUEUED),
                )
            }
        } else {
            command_step(t, raw, args)
        }
    }
}

/// Latches that were free are free again once a transaction is over.
pub proof fn lemma_free_again(
    i0: &HashIndex,
    i1: &HashIndex,
    i2: &HashIndex,
    i3: &HashIndex,
    locks: Seq<(usize, LockType)>,
    keys: Seq<(Seq<u8>, LockType)>,
)
    requires
        i0.latches_free(),
        i0.bucket_count() == i1.bucket_count() == i2.bucket_count() == i3.bucket_count(),
        latched(i0, i1, locks, keys),
        i2.same_latches(i1) || i2.latches_free(),
        unlatched(i2, i3, locks),
        forall|i: int| 0 <= i < locks.len() ==> (#[trigger] locks[i]).0 < i0.bucket_count(),
    ensures
        i3.latches_free(),
{
    let m = transactions::wanted_locks(*i0, keys);
    assert forall|b: int| 0 <= b < i3.bucket_count() implies #[trigger] i3.latch(b) == (LatchView {
        shared: 0,
        exclusive: false,
    }) by {
        assert(i0.latch(b) == (LatchView { shared: 0, exclusive: false }));
        let zero = LatchView { shared: 0, exclusive: false };
        if transactions::has_bucket(locks, b) {
            let i = choose|i: int| 0 <= i < locks.len() && (#[trigger] locks[i]).0 == b;
            assert(m.dom().contains(locks[i].0 as int));
            assert(i1.latch(b) == transactions::taken(zero, locks[i].1));
            assert(i2.latch(b) == i1.latch(b) || i2.latch(b) == zero);
            assert(i3.latch(b) == transactions::given_back(i2.latch(b), locks[i].1));
        } else {
            assert(!m.dom().contains(b));
            assert(i1.latch(b) == zero);
            assert(i2.latch(b) == zero);
        }
    }
}

} // verus!
