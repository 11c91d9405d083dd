//! RESP command dispatch: the query processing layer that maps RESP commands
//! onto the store's operations.
//!
//! A [`RespSession`] owns one store session (FIFO, per connection) plus the
//! transaction state. [`RespSession::dispatch`] takes the parsed arguments
//! (borrowed from the receive buffer) and appends the RESP reply to the
//! per-connection send buffer: exactly one place decides the reply shape,
//! while the `functions` module decides the record mutation.
//!
//! Writes are logged to the operation log after they succeed, and
//! watched-key versions are bumped so MULTI/EXEC can detect conflicts.
use crate::aof::AofOp;
use crate::arguments;
use crate::arguments::{Kind, SetOpts};
use crate::bytes;
use crate::bytes::{push_all, to_vec};
use crate::device::Device;
use crate::epoch;
use crate::functions;
use crate::functions::{Bytes, OutView, StringFunctions, StringInput, StringOp, StringOutput};
use crate::glob;
use crate::glob::glob_match;
use crate::record::RecordPtr;
use crate::resp;
use crate::resp::parse_i64;
use crate::scan;
use crate::shared;
use crate::shared::{SaveError, Shared};
use crate::steps;
use crate::steps::{SessView, Step, World};
use crate::store::{LockType, Session, Status, Store};
use crate::transactions;
use crate::wire;
use vstd::prelude::*;

verus! {

#[derive(Clone, Copy, Debug, PartialEq, Eq, Structural)]
pub enum Action {
    Continue,
    Close,
}

pub struct TxnState {
    in_multi: bool,
    /// A queued command failed to parse/validate; EXEC will abort.
    dirty: bool,
    queued: Vec<Vec<u8>>,
    /// Watched (slot, version-at-watch).
    watches: Vec<(usize, u64)>,
}

pub struct RespSession {
    store: Session<StringFunctions>,
    txn: TxnState,
    /// Deterministic clock for the command currently executing.
    now_ms: i64,
    /// True while replaying the operation log (suppress re-logging and use the
    /// logged clock).
    replay: bool,
    out_scratch: StringOutput,
    /// Store operations that gave up.
    failures: Ghost<nat>,
}

impl View for RespSession {
    type V = SessView;

    closed spec fn view(&self) -> SessView {
        SessView {
            thread: self.store.thread,
            txn_mode: self.store.txn_mode,
            locks: self.store.txn_locks@,
            in_multi: self.txn.in_multi,
            dirty: self.txn.dirty,
            queued: steps::raw_list(self.txn.queued@),
            watches: self.txn.watches@,
            now: self.now_ms,
            replay: self.replay,
            scratch: self.out_scratch@,
            failures: self.failures@,
        }
    }
}

// ---------------------------------------------------------------------------
// What commands leave alone, and what they owe
// ---------------------------------------------------------------------------

impl RespSession {
    /// What a session needs of the shared state it works on.
    #[verifier::opaque]
    pub closed spec fn inv<D: Device, M: Device>(&self, shared: &Shared<D, M>) -> bool {
        &&& self.store.thread != 0
        &&& self.store.locks_ok(&shared.store.index)
        &&& forall|i: int|
            0 <= i < self.txn.watches@.len() ==> (#[trigger] self.txn.watches@[i]).0
                < shared.watch@.len()
        &&& forall|i: int|
            0 <= i < self.txn.queued@.len() ==> (#[trigger] self.txn.queued@[i])@.len() <= u32::MAX
    }

    /// The invariant depends on the shape of the shared state only.
    pub proof fn lemma_inv<D: Device, M: Device>(
        &self,
        before: &Self,
        o: &Shared<D, M>,
        n: &Shared<D, M>,
    )
        requires
            before.inv(o),
            n.store.index.bucket_count() == o.store.index.bucket_count(),
            n.watch@.len() == o.watch@.len(),
            self@.thread == before@.thread,
            self@.locks == before@.locks,
            self@.watches == before@.watches,
            self@.queued == before@.queued,
        ensures
            self.inv(n),
    {
        reveal(RespSession::inv);
        assert(self@.queued.len() == self.txn.queued@.len());
        assert(before@.queued.len() == before.txn.queued@.len());
        assert forall|i: int| 0 <= i < self.txn.queued@.len() implies (
        #[trigger] self.txn.queued@[i])@.len() <= u32::MAX by {
            assert(self@.queued[i] == self.txn.queued@[i]@);
            assert(before@.queued[i] == before.txn.queued@[i]@);
        }
    }

    pub fn new<D: Device, M: Device>(shared: &mut Shared<D, M>) -> (r: Self)
        requires
            old(shared).inv(),
        ensures
            final(shared).inv(),
            *final(shared) == (Shared { store: final(shared).store, ..*old(shared) }),
            final(shared).store == (Store {
                next_thread: final(shared).store.next_thread,
                ..old(shared).store
            }),
            old(shared).store.next_thread < u64::MAX ==> final(shared).store.next_thread == old(
                shared).store.next_thread + 1,
            r.inv(final(shared)),
            r@ == (SessView {
                thread: old(shared).store.next_thread,
                txn_mode: false,
                locks: Seq::empty(),
                in_multi: false,
                dirty: false,
                queued: Seq::empty(),
                watches: Seq::empty(),
                now: 0,
                replay: false,
                scratch: OutView {
                    bytes: Seq::empty(),
                    has_bytes: false,
                    int: 0,
                    has_int: false,
                },
                failures: 0,
            }),
    {
        proof {
            reveal(Shared::inv);
        }
        let store = shared.store.new_session(StringFunctions::new());
        let r = RespSession {
            store,
            txn: TxnState { in_multi: false, dirty: false, queued: Vec::new(), watches: Vec::new() },
            now_ms: 0,
            replay: false,
            out_scratch: StringOutput::default(),
            failures: Ghost(0),
        };
        proof {
            reveal(RespSession::inv);
            reveal(Shared::inv);
            assert(r@.queued =~= Seq::empty());
            assert(r@.locks =~= Seq::empty());
            assert(r@.watches =~= Seq::empty());
        }
        r
    }

    pub fn set_replay(&mut self, replay: bool)
        ensures
            final(self)@ == (SessView { replay, ..old(self)@ }),
    {
        self.replay = replay;
    }
}

// ---------------------------------------------------------------------------
// Store operations of a session
// ---------------------------------------------------------------------------

impl RespSession {
    fn do_read<D: Device, M: Device>(
        &mut self,
        shared: &mut Shared<D, M>,
        key: &[u8],
        input: &StringInput,
    ) -> (s: Status)
        requires
            old(shared).inv(),
            old(self).inv(old(shared)),
        ensures
            final(shared).inv(),
            final(self).inv(final(shared)),
            steps::sess_moved(old(self)@, final(self)@),
            *final(shared) == (Shared { store: final(shared).store, ..*old(shared) }),
            steps::read_ran(
                &old(shared).store,
                &final(shared).store,
                old(self)@,
                final(self)@,
                key@,
                input@,
                s,
            ),
    {
        let ghost o = shared.store;
        proof {
            reveal(RespSession::inv);
            reveal(Shared::inv);
            functions::lemma_string_operations(
                o.get(key@),
                o.mutable(key@),
                key@,
                *input,
                self.out_scratch@,
                o.log@.psize,
            );
        }
        let s: Status = self.store.read(&mut shared.store, key, input, &mut self.out_scratch);
        proof {
            reveal(steps::read_ran);
            shared.store.lemma_quiet(&o);
            Store::lemma_entered_none(&o, &shared.store, key@);
            if s is Error {
                self.failures@ = self.failures@ + 1;
            }
        }
        s
    }

    fn do_upsert<D: Device, M: Device>(
        &mut self,
        shared: &mut Shared<D, M>,
        key: &[u8],
        input: &StringInput,
    ) -> (s: Status)
        requires
            old(shared).inv(),
            old(self).inv(old(shared)),
        ensures
            final(shared).inv(),
            final(self).inv(final(shared)),
            steps::sess_moved(old(self)@, final(self)@),
            *final(shared) == (Shared { store: final(shared).store, ..*old(shared) }),
            steps::upsert_ran(
                &old(shared).store,
                &final(shared).store,
                old(self)@,
                final(self)@,
                key@,
                input@,
                s,
            ),
    {
        let ghost o = shared.store;
        proof {
            reveal(RespSession::inv);
            reveal(Shared::inv);
            functions::string_callbacks_are_steady();
            functions::lemma_string_operations(
                o.get(key@),
                o.mutable(key@),
                key@,
                *input,
                self.out_scratch@,
                o.log@.psize,
            );
        }
        let s: Status = self.store.upsert(&mut shared.store, key, input, &mut self.out_scratch);
        proof {
            reveal(steps::upsert_ran);
            if s is Error {
                self.failures@ = self.failures@ + 1;
                assert(shared.store.get(key@) == o.get(key@));
            }
        }
        s
    }

    fn do_rmw<D: Device, M: Device>(
        &mut self,
        shared: &mut Shared<D, M>,
        key: &[u8],
        input: &StringInput,
    ) -> (s: Status)
        requires
            old(shared).inv(),
            old(self).inv(old(shared)),
        ensures
            final(shared).inv(),
            final(self).inv(final(shared)),
            steps::sess_moved(old(self)@, final(self)@),
            *final(shared) == (Shared { store: final(shared).store, ..*old(shared) }),
            steps::rmw_ran(
                &old(shared).store,
                &final(shared).store,
                old(self)@,
                final(self)@,
                key@,
                input@,
                s,
            ),
    {
        let ghost o = shared.store;
        proof {
            reveal(RespSession::inv);
            reveal(Shared::inv);
            functions::string_callbacks_are_steady();
            functions::lemma_string_operations(
                o.get(key@),
                o.mutable(key@),
                key@,
                *input,
                self.out_scratch@,
                o.log@.psize,
            );
        }
        let s: Status = self.store.rmw(&mut shared.store, key, input, &mut self.out_scratch);
        proof {
            reveal(steps::rmw_ran);
            if s is Error {
                self.failures@ = self.failures@ + 1;
            }
        }
        s
    }

    fn do_delete<D: Device, M: Device>(&mut self, shared: &mut Shared<D, M>, key: &[u8]) -> (s: Status)
        requires
            old(shared).inv(),
            old(self).inv(old(shared)),
        ensures
            final(shared).inv(),
            final(self).inv(final(shared)),
            steps::sess_moved(old(self)@, final(self)@),
            *final(shared) == (Shared { store: final(shared).store, ..*old(shared) }),
            steps::delete_ran(
                &old(shared).store,
                &final(shared).store,
                old(self)@,
                final(self)@,
                key@,
                s,
            ),
    {
        proof {
            reveal(RespSession::inv);
            reveal(Shared::inv);
        }
        let s: Status = self.store.delete(&mut shared.store, key);
        proof {
            reveal(steps::delete_ran);
            if s is Error {
                self.failures@ = self.failures@ + 1;
            }
        }
        s
    }

    // -- bookkeeping -----------------------------------------------------------

    fn log_write<D: Device, M: Device>(&self, shared: &mut Shared<D, M>, raw: &[u8])
        requires
            raw@.len() <= u32::MAX,
        ensures
            old(shared).inv() ==> final(shared).inv(),
            self.inv(old(shared)) ==> self.inv(final(shared)),
            *final(shared) == (Shared { aof: final(shared).aof, ..*old(shared) }),
            steps::entered(old(shared), final(shared), self@, AofOp::Command, raw@),
            self@.replay ==> *final(shared) == *old(shared),
    {
        proof {
            reveal(RespSession::inv);
            reveal(Shared::inv);
        }
        if self.replay {
            return;
        }
        match &mut shared.aof {
            Some(a) => {
                let _end: u64 = a.enqueue(AofOp::Command, self.now_ms, raw);
            },
            None => {},
        }
    }

    fn bump_watch<D: Device, M: Device>(&self, shared: &mut Shared<D, M>, key: &[u8])
        requires
            old(shared).inv(),
            self.inv(old(shared)),
        ensures
            final(shared).inv(),
            self.inv(final(shared)),
            *final(shared) == (Shared { watch: final(shared).watch, ..*old(shared) }),
            steps::bumped(&old(shared).watch, &final(shared).watch, key@),
    {
        proof {
            reveal(RespSession::inv);
            reveal(Shared::inv);
        }
        shared.watch.bump(key);
    }

    /// Bookkeeping every successful write owes: invalidate anyone WATCHing the
    /// key, then append the command to the operation log. Kept in one place so
    /// a new command cannot do half of it.
    fn after_write<D: Device, M: Device>(
        &self,
        shared: &mut Shared<D, M>,
        key: &[u8],
        raw: &[u8],
        Ghost(o): Ghost<Shared<D, M>>,
        Ghost(ov): Ghost<SessView>,
    )
        requires
            old(shared).inv(),
            self.inv(old(shared)),
            raw@.len() <= u32::MAX,
            *old(shared) == (Shared { store: old(shared).store, ..o }),
            ov.now == self@.now,
            ov.replay == self@.replay,
        ensures
            final(shared).inv(),
            self.inv(final(shared)),
            final(shared).store == old(shared).store,
            steps::logged(&o, final(shared), ov, true, key@, raw@),
    {
        proof {
            reveal(RespSession::inv);
            reveal(Shared::inv);
            reveal(steps::logged);
        }
        shared.watch.bump(key);
        self.log_write(shared, raw);
    }
}

// -- string commands ---------------------------------------------------------

fn write_flag(out: &mut Vec<u8>, yes: bool)
    ensures
        final(out)@ == old(out)@ + steps::flag_reply(yes),
{
    resp::write_integer(
        out,
        if yes {
            1
        } else {
            0
        },
    );
}

fn write_value(out: &mut Vec<u8>, found: bool, value: &[u8])
    ensures
        final(out)@ == old(out)@ + steps::value_reply(found, value@),
{
    if found {
        resp::write_bulk(out, value);
    } else {
        resp::write_text(out, resp::NULL_BULK);
    }
}

impl RespSession {
    // -- string commands -----------------------------------------------------

    fn cmd_get<D: Device, M: Device>(
        &mut self,
        shared: &mut Shared<D, M>,
        key: &[u8],
        out: &mut Vec<u8>,
    )
        requires
            old(shared).inv(),
            old(self).inv(old(shared)),
        ensures
            final(shared).inv(),
            final(self).inv(final(shared)),
            steps::get_step(steps::step(
                    *old(shared),
                    old(self)@,
                    old(out)@,
                    *final(shared),
                    final(self)@,
                    final(out)@,
                ), key@),
    {
        let input = StringInput::read(StringOp::Get, self.now_ms);
        let status: Status = self.do_read(shared, key, &input);
        write_value(out, status == Status::Found, self.out_scratch.bytes.as_slice());
        proof {
            let s = steps::step(*old(shared), old(self)@, old(out)@, *shared, self@, out@);
            assert(steps::read_ran(&s.a.shared.store, &s.b.shared.store, s.a.sess, s.b.sess, key@, input@, status));
        }
    }

    fn cmd_read_int<D: Device, M: Device>(
        &mut self,
        shared: &mut Shared<D, M>,
        key: &[u8],
        op: StringOp,
        missing: i64,
        out: &mut Vec<u8>,
    )
        requires
            old(shared).inv(),
            old(self).inv(old(shared)),
        ensures
            final(shared).inv(),
            final(self).inv(final(shared)),
            steps::read_int_step(steps::step(
                    *old(shared),
                    old(self)@,
                    old(out)@,
                    *final(shared),
                    final(self)@,
                    final(out)@,
                ), key@, op, missing as int),
    {
        let input = StringInput::read(op, self.now_ms);
        let status: Status = self.do_read(shared, key, &input);
        let v: i64 = if status == Status::Found {
            self.out_scratch.int
        } else {
            missing
        };
        resp::write_integer(out, v);
        proof {
            let s = steps::step(*old(shared), old(self)@, old(out)@, *shared, self@, out@);
            assert(steps::read_ran(&s.a.shared.store, &s.b.shared.store, s.a.sess, s.b.sess, key@, input@, status));
        }
    }

    fn cmd_getrange<D: Device, M: Device>(
        &mut self,
        shared: &mut Shared<D, M>,
        args: &[&[u8]],
        out: &mut Vec<u8>,
    )
        requires
            old(shared).inv(),
            old(self).inv(old(shared)),
            args@.len() == 4,
        ensures
            final(shared).inv(),
            final(self).inv(final(shared)),
            steps::getrange_step(steps::step(
                    *old(shared),
                    old(self)@,
                    old(out)@,
                    *final(shared),
                    final(self)@,
                    final(out)@,
                ), arguments::arg_list(args@)),
    {
        proof {
            steps::lemma_args(args@);
        }
        let bounds: (Option<i64>, Option<i64>) = (parse_i64(args[2]), parse_i64(args[3]));
        match bounds {
            (Some(start), Some(end)) => {
                let input = StringInput::read(StringOp::GetRange { start, end }, self.now_ms);
                let status: Status = self.do_read(shared, args[1], &input);
                if status == Status::Found {
                    resp::write_bulk(out, self.out_scratch.bytes.as_slice());
                } else {
                    let none: Vec<u8> = Vec::new();
                    assert(none@ =~= Seq::<u8>::empty());
                    resp::write_bulk(out, none.as_slice());
                }
                proof {
                    let s = steps::step(*old(shared), old(self)@, old(out)@, *shared, self@, out@);
                    assert(steps::read_ran(&s.a.shared.store, &s.b.shared.store, s.a.sess, s.b.sess, args@[1]@, input@, status));
                }
            },
            _ => {
                resp::write_error(out, "ERR value is not an integer or out of range");
            },
        }
    }

    fn cmd_set<D: Device, M: Device>(
        &mut self,
        shared: &mut Shared<D, M>,
        raw: &[u8],
        args: &[&[u8]],
        out: &mut Vec<u8>,
    )
        requires
            old(shared).inv(),
            old(self).inv(old(shared)),
            raw@.len() <= u32::MAX,
        ensures
            final(shared).inv(),
            final(self).inv(final(shared)),
            steps::set_step(steps::step(
                    *old(shared),
                    old(self)@,
                    old(out)@,
                    *final(shared),
                    final(self)@,
                    final(out)@,
                ), raw@, arguments::arg_list(args@)),
    {
        proof {
            steps::lemma_args(args@);
        }
        if args.len() < 3 {
            resp::write_error(out, "ERR wrong number of arguments for 'set' command");
            return;
        }
        let options: SetOpts = match arguments::parse_set_opts(args, self.now_ms) {
            Ok(options) => options,
            Err(error) => {
                resp::write_error(out, error.message());
                return;
            },
        };
        let key: &[u8] = args[1];
        let op: StringOp = if options.get && options.xx {
            StringOp::SetXxGet { keep_ttl: options.keep_ttl }
        } else if options.get {
            StringOp::SetGet { keep_ttl: options.keep_ttl }
        } else if options.nx {
            StringOp::SetNx
        } else if options.xx {
            StringOp::SetXx
        } else if options.keep_ttl {
            StringOp::SetKeepTtl
        } else {
            StringOp::SetPlain
        };
        let input = StringInput {
            op,
            operand: Bytes::new(args[2]),
            delta: 0,
            expiration: options.expiration,
            now_ms: self.now_ms,
        };
        // Plain SET is a blind write; the other forms inspect the current record.
        let plain: bool = op == StringOp::SetPlain;
        let status: Status = if plain {
            self.do_upsert(shared, key, &input)
        } else {
            // What an earlier command left there is no old value of this key.
            self.out_scratch.has_bytes = false;
            proof {
                self.lemma_without_value(old(self), old(shared));
            }
            self.do_rmw(shared, key, &input)
        };
        if options.get {
            let found: bool = status != Status::Error && self.out_scratch.has_bytes;
            write_value(out, found, self.out_scratch.bytes.as_slice());
        } else if plain || status.is_updated() {
            resp::write_text(out, resp::OK);
        } else {
            resp::write_text(out, resp::NULL_BULK);
        }
        if status.is_updated() {
            self.after_write(shared, key, raw, Ghost(*old(shared)), Ghost(old(self)@));
        }
        proof {
            let s = steps::step(*old(shared), old(self)@, old(out)@, *shared, self@, out@);
            if !status.updated() {
                steps::lemma_unlogged(old(shared), shared, old(self)@, key@, raw@);
            }
            if plain {
                assert(steps::upsert_ran(&s.a.shared.store, &s.b.shared.store, s.a.sess, s.b.sess, key@, input@, status));
            } else {
                let sess = SessView { scratch: steps::without_value(s.a.sess.scratch), ..s.a.sess };
                assert(steps::rmw_ran(&s.a.shared.store, &s.b.shared.store, sess, s.b.sess, key@, input@, status));
            }
        }
    }

    fn cmd_setnx<D: Device, M: Device>(
        &mut self,
        shared: &mut Shared<D, M>,
        raw: &[u8],
        args: &[&[u8]],
        out: &mut Vec<u8>,
    )
        requires
            old(shared).inv(),
            old(self).inv(old(shared)),
            raw@.len() <= u32::MAX,
            args@.len() == 3,
        ensures
            final(shared).inv(),
            final(self).inv(final(shared)),
            steps::setnx_step(steps::step(
                    *old(shared),
                    old(self)@,
                    old(out)@,
                    *final(shared),
                    final(self)@,
                    final(out)@,
                ), raw@, arguments::arg_list(args@)),
    {
        proof {
            steps::lemma_args(args@);
        }
        let input = StringInput::simple(StringOp::SetNx, Bytes::new(args[2]), self.now_ms);
        let status: Status = self.do_rmw(shared, args[1], &input);
        let set: bool = status.is_updated();
        write_flag(out, set);
        if set {
            self.after_write(shared, args[1], raw, Ghost(*old(shared)), Ghost(old(self)@));
        }
        proof {
            let s = steps::step(*old(shared), old(self)@, old(out)@, *shared, self@, out@);
            if !(set) {
                steps::lemma_unlogged(old(shared), shared, old(self)@, args@[1]@, raw@);
            }
            assert(steps::rmw_ran(&s.a.shared.store, &s.b.shared.store, s.a.sess, s.b.sess, args@[1]@, input@, status));
        }
    }

    fn cmd_setex<D: Device, M: Device>(
        &mut self,
        shared: &mut Shared<D, M>,
        raw: &[u8],
        args: &[&[u8]],
        ms: bool,
        out: &mut Vec<u8>,
    )
        requires
            old(shared).inv(),
            old(self).inv(old(shared)),
            raw@.len() <= u32::MAX,
            args@.len() == 4,
        ensures
            final(shared).inv(),
            final(self).inv(final(shared)),
            steps::setex_step(steps::step(
                    *old(shared),
                    old(self)@,
                    old(out)@,
                    *final(shared),
                    final(self)@,
                    final(out)@,
                ), raw@, arguments::arg_list(args@), ms),
    {
        proof {
            steps::lemma_args(args@);
        }
        match parse_i64(args[2]) {
            Some(t) => {
                if t <= 0 {
                    resp::write_error(out, "ERR invalid expire time in 'setex' command");
                    return;
                }
                let expiration: i64 = self.now_ms.wrapping_add(
                    if ms {
                        t
                    } else {
                        t.wrapping_mul(1000)
                    },
                );
                let input = StringInput {
                    op: StringOp::SetPlain,
                    operand: Bytes::new(args[3]),
                    delta: 0,
                    expiration,
                    now_ms: self.now_ms,
                };
                let status: Status = self.do_upsert(shared, args[1], &input);
                resp::write_text(out, resp::OK);
                if status.is_updated() {
                    self.after_write(shared, args[1], raw, Ghost(*old(shared)), Ghost(old(self)@));
                }
                proof {
                    let s = steps::step(*old(shared), old(self)@, old(out)@, *shared, self@, out@);
                    if !status.updated() {
                        steps::lemma_unlogged(old(shared), shared, old(self)@, args@[1]@, raw@);
                    }
                    assert(steps::upsert_ran(&s.a.shared.store, &s.b.shared.store, s.a.sess, s.b.sess, args@[1]@, input@, status));
                }
            },
            None => {
                resp::write_error(out, "ERR invalid expire time in 'setex' command");
            },
        }
    }

    fn cmd_getset<D: Device, M: Device>(
        &mut self,
        shared: &mut Shared<D, M>,
        raw: &[u8],
        args: &[&[u8]],
        out: &mut Vec<u8>,
    )
        requires
            old(shared).inv(),
            old(self).inv(old(shared)),
            raw@.len() <= u32::MAX,
            args@.len() == 3,
        ensures
            final(shared).inv(),
            final(self).inv(final(shared)),
            steps::getset_step(steps::step(
                    *old(shared),
                    old(self)@,
                    old(out)@,
                    *final(shared),
                    final(self)@,
                    final(out)@,
                ), raw@, arguments::arg_list(args@)),
    {
        proof {
            steps::lemma_args(args@);
        }
        let input = StringInput::simple(
            StringOp::SetGet { keep_ttl: false },
            Bytes::new(args[2]),
            self.now_ms,
        );
        // What an earlier command left there is no old value of this key.
        self.out_scratch.has_bytes = false;
        proof {
            self.lemma_without_value(old(self), old(shared));
        }
        let status: Status = self.do_rmw(shared, args[1], &input);
        let found: bool = status != Status::Error && self.out_scratch.has_bytes;
        write_value(out, found, self.out_scratch.bytes.as_slice());
        if status.is_updated() {
            self.after_write(shared, args[1], raw, Ghost(*old(shared)), Ghost(old(self)@));
        }
        proof {
            let s = steps::step(*old(shared), old(self)@, old(out)@, *shared, self@, out@);
            if !status.updated() {
                steps::lemma_unlogged(old(shared), shared, old(self)@, args@[1]@, raw@);
            }
            let sess = SessView { scratch: steps::without_value(s.a.sess.scratch), ..s.a.sess };
            assert(steps::rmw_ran(&s.a.shared.store, &s.b.shared.store, sess, s.b.sess, args@[1]@, input@, status));
        }
    }

    fn cmd_getdel<D: Device, M: Device>(
        &mut self,
        shared: &mut Shared<D, M>,
        raw: &[u8],
        key: &[u8],
        out: &mut Vec<u8>,
    )
        requires
            old(shared).inv(),
            old(self).inv(old(shared)),
            raw@.len() <= u32::MAX,
        ensures
            final(shared).inv(),
            final(self).inv(final(shared)),
            steps::getdel_step(steps::step(
                    *old(shared),
                    old(self)@,
                    old(out)@,
                    *final(shared),
                    final(self)@,
                    final(out)@,
                ), raw@, key@),
    {
        // One RMW: the callback returns the old value and tombstones the record
        // in the same pass, so no other client can slip in between.
        let input = StringInput::read(StringOp::GetDel, self.now_ms);
        self.out_scratch.bytes.clear();
        proof {
            self.lemma_cleared(old(self), old(shared));
        }
        let status: Status = self.do_rmw(shared, key, &input);
        let gone: bool = status == Status::Deleted;
        write_value(out, gone, self.out_scratch.bytes.as_slice());
        if gone {
            self.after_write(shared, key, raw, Ghost(*old(shared)), Ghost(old(self)@));
        }
        proof {
            let s = steps::step(*old(shared), old(self)@, old(out)@, *shared, self@, out@);
            if !(gone) {
                steps::lemma_unlogged(old(shared), shared, old(self)@, key@, raw@);
            }
            assert(steps::rmw_ran(&s.a.shared.store, &s.b.shared.store, SessView { scratch: OutView { bytes: Seq::empty(), ..s.a.sess.scratch }, ..s.a.sess }, s.b.sess, key@, input@, status));
        }
    }

    fn cmd_getex<D: Device, M: Device>(
        &mut self,
        shared: &mut Shared<D, M>,
        raw: &[u8],
        args: &[&[u8]],
        out: &mut Vec<u8>,
    )
        requires
            old(shared).inv(),
            old(self).inv(old(shared)),
            raw@.len() <= u32::MAX,
            args@.len() >= 2,
        ensures
            final(shared).inv(),
            final(self).inv(final(shared)),
            steps::getex_step(steps::step(
                    *old(shared),
                    old(self)@,
                    old(out)@,
                    *final(shared),
                    final(self)@,
                    final(out)@,
                ), raw@, arguments::arg_list(args@)),
    {
        proof {
            steps::lemma_args(args@);
        }
        if args.len() == 2 {
            self.cmd_get(shared, args[1], out);
            return;
        }
        let expiration: i64 = match arguments::parse_getex_opts(args, self.now_ms) {
            Ok(expiration) => expiration,
            Err(error) => {
                resp::write_error(out, error.message());
                return;
            },
        };
        // Always GetEx, never the standalone Persist op: GETEX owes the caller
        // the old value, and `expiration == 0` already means "clear the TTL".
        let input = StringInput {
            op: StringOp::GetEx,
            operand: Bytes::empty(),
            delta: 0,
            expiration,
            now_ms: self.now_ms,
        };
        self.out_scratch.bytes.clear();
        proof {
            self.lemma_cleared(old(self), old(shared));
        }
        // One RMW: the callback writes the old value out and applies the new TTL.
        let status: Status = self.do_rmw(shared, args[1], &input);
        let done: bool = status.is_updated();
        write_value(out, done, self.out_scratch.bytes.as_slice());
        if done {
            self.after_write(shared, args[1], raw, Ghost(*old(shared)), Ghost(old(self)@));
        }
        proof {
            let s = steps::step(*old(shared), old(self)@, old(out)@, *shared, self@, out@);
            if !(done) {
                steps::lemma_unlogged(old(shared), shared, old(self)@, args@[1]@, raw@);
            }
            assert(steps::rmw_ran(&s.a.shared.store, &s.b.shared.store, SessView { scratch: OutView { bytes: Seq::empty(), ..s.a.sess.scratch }, ..s.a.sess }, s.b.sess, args@[1]@, input@, status));
        }
    }

    fn cmd_incr<D: Device, M: Device>(
        &mut self,
        shared: &mut Shared<D, M>,
        raw: &[u8],
        key: &[u8],
        delta: i64,
        out: &mut Vec<u8>,
    )
        requires
            old(shared).inv(),
            old(self).inv(old(shared)),
            raw@.len() <= u32::MAX,
        ensures
            final(shared).inv(),
            final(self).inv(final(shared)),
            steps::incr_step(steps::step(
                    *old(shared),
                    old(self)@,
                    old(out)@,
                    *final(shared),
                    final(self)@,
                    final(out)@,
                ), raw@, key@, delta),
    {
        let input = StringInput {
            op: StringOp::IncrBy,
            operand: Bytes::empty(),
            delta,
            expiration: 0,
            now_ms: self.now_ms,
        };
        let status: Status = self.do_rmw(shared, key, &input);
        if status.is_updated() {
            resp::write_integer(out, self.out_scratch.int);
            self.after_write(shared, key, raw, Ghost(*old(shared)), Ghost(old(self)@));
        } else {
            resp::write_error(out, "ERR value is not an integer or out of range");
        }
        proof {
            let s = steps::step(*old(shared), old(self)@, old(out)@, *shared, self@, out@);
            if !(status.updated()) {
                steps::lemma_unlogged(old(shared), shared, old(self)@, key@, raw@);
            }
            assert(steps::rmw_ran(&s.a.shared.store, &s.b.shared.store, s.a.sess, s.b.sess, key@, input@, status));
        }
    }

    fn cmd_incrby<D: Device, M: Device>(
        &mut self,
        shared: &mut Shared<D, M>,
        raw: &[u8],
        args: &[&[u8]],
        down: bool,
        out: &mut Vec<u8>,
    )
        requires
            old(shared).inv(),
            old(self).inv(old(shared)),
            raw@.len() <= u32::MAX,
            args@.len() == 3,
        ensures
            final(shared).inv(),
            final(self).inv(final(shared)),
            steps::incrby_step(steps::step(
                    *old(shared),
                    old(self)@,
                    old(out)@,
                    *final(shared),
                    final(self)@,
                    final(out)@,
                ), raw@, arguments::arg_list(args@), down),
    {
        proof {
            steps::lemma_args(args@);
        }
        match parse_i64(args[2]) {
            Some(d) => {
                let delta: i64 = if down {
                    0i64.wrapping_sub(d)
                } else {
                    d
                };
                self.cmd_incr(shared, raw, args[1], delta, out);
            },
            None => {
                resp::write_error(out, "ERR value is not an integer or out of range");
            },
        }
    }

    fn cmd_rmw_int<D: Device, M: Device>(
        &mut self,
        shared: &mut Shared<D, M>,
        raw: &[u8],
        key: &[u8],
        op: StringOp,
        operand: Bytes,
        out: &mut Vec<u8>,
    )
        requires
            old(shared).inv(),
            old(self).inv(old(shared)),
            raw@.len() <= u32::MAX,
        ensures
            final(shared).inv(),
            final(self).inv(final(shared)),
            steps::rmw_int_step(steps::step(
                    *old(shared),
                    old(self)@,
                    old(out)@,
                    *final(shared),
                    final(self)@,
                    final(out)@,
                ), raw@, key@, op, operand@),
    {
        let input = StringInput::simple(op, operand, self.now_ms);
        let status: Status = self.do_rmw(shared, key, &input);
        if status.is_updated() {
            resp::write_integer(out, self.out_scratch.int);
            self.after_write(shared, key, raw, Ghost(*old(shared)), Ghost(old(self)@));
        } else {
            resp::write_integer(out, 0);
        }
        proof {
            let s = steps::step(*old(shared), old(self)@, old(out)@, *shared, self@, out@);
            if !(status.updated()) {
                steps::lemma_unlogged(old(shared), shared, old(self)@, key@, raw@);
            }
            assert(steps::rmw_ran(&s.a.shared.store, &s.b.shared.store, s.a.sess, s.b.sess, key@, input@, status));
        }
    }

    fn cmd_setrange<D: Device, M: Device>(
        &mut self,
        shared: &mut Shared<D, M>,
        raw: &[u8],
        args: &[&[u8]],
        out: &mut Vec<u8>,
    )
        requires
            old(shared).inv(),
            old(self).inv(old(shared)),
            raw@.len() <= u32::MAX,
            args@.len() == 4,
        ensures
            final(shared).inv(),
            final(self).inv(final(shared)),
            steps::setrange_step(steps::step(
                    *old(shared),
                    old(self)@,
                    old(out)@,
                    *final(shared),
                    final(self)@,
                    final(out)@,
                ), raw@, arguments::arg_list(args@)),
    {
        proof {
            steps::lemma_args(args@);
        }
        match parse_i64(args[2]) {
            Some(t) => {
                if t < 0 {
                    resp::write_error(out, "ERR offset is out of range");
                    return;
                }
                let offset: usize = if (t as u64) <= (usize::MAX as u64) {
                    t as usize
                } else {
                    usize::MAX
                };
                self.cmd_rmw_int(
                    shared,
                    raw,
                    args[1],
                    StringOp::SetRange { offset },
                    Bytes::new(args[3]),
                    out,
                );
            },
            None => {
                resp::write_error(out, "ERR offset is out of range");
            },
        }
    }

    fn cmd_expire<D: Device, M: Device>(
        &mut self,
        shared: &mut Shared<D, M>,
        raw: &[u8],
        args: &[&[u8]],
        unit: i64,
        at: bool,
        out: &mut Vec<u8>,
    )
        requires
            old(shared).inv(),
            old(self).inv(old(shared)),
            raw@.len() <= u32::MAX,
            args@.len() == 3,
        ensures
            final(shared).inv(),
            final(self).inv(final(shared)),
            steps::expire_step(steps::step(
                    *old(shared),
                    old(self)@,
                    old(out)@,
                    *final(shared),
                    final(self)@,
                    final(out)@,
                ), raw@, arguments::arg_list(args@), unit, at),
    {
        proof {
            steps::lemma_args(args@);
        }
        let t: i64 = match parse_i64(args[2]) {
            Some(t) => t,
            None => {
                resp::write_error(out, "ERR value is not an integer or out of range");
                return;
            },
        };
        let d: i64 = t.wrapping_mul(unit);
        let expiration: i64 = if at {
            d
        } else {
            self.now_ms.wrapping_add(d)
        };
        let input = StringInput {
            op: StringOp::Expire,
            operand: Bytes::empty(),
            delta: 0,
            expiration,
            now_ms: self.now_ms,
        };
        let status: Status = self.do_rmw(shared, args[1], &input);
        let set: bool = status.is_updated();
        write_flag(out, set);
        if set {
            self.after_write(shared, args[1], raw, Ghost(*old(shared)), Ghost(old(self)@));
        }
        proof {
            let s = steps::step(*old(shared), old(self)@, old(out)@, *shared, self@, out@);
            if !(set) {
                steps::lemma_unlogged(old(shared), shared, old(self)@, args@[1]@, raw@);
            }
            assert(steps::rmw_ran(&s.a.shared.store, &s.b.shared.store, s.a.sess, s.b.sess, args@[1]@, input@, status));
        }
    }

    fn cmd_persist<D: Device, M: Device>(
        &mut self,
        shared: &mut Shared<D, M>,
        raw: &[u8],
        key: &[u8],
        out: &mut Vec<u8>,
    )
        requires
            old(shared).inv(),
            old(self).inv(old(shared)),
            raw@.len() <= u32::MAX,
        ensures
            final(shared).inv(),
            final(self).inv(final(shared)),
            steps::persist_step(steps::step(
                    *old(shared),
                    old(self)@,
                    old(out)@,
                    *final(shared),
                    final(self)@,
                    final(out)@,
                ), raw@, key@),
    {
        let input = StringInput::read(StringOp::Persist, self.now_ms);
        let status: Status = self.do_rmw(shared, key, &input);
        let removed: bool = status.is_updated() && self.out_scratch.has_int && self.out_scratch.int
            == 1;
        write_flag(out, removed);
        if removed {
            self.after_write(shared, key, raw, Ghost(*old(shared)), Ghost(old(self)@));
        }
        proof {
            let s = steps::step(*old(shared), old(self)@, old(out)@, *shared, self@, out@);
            if !(removed) {
                steps::lemma_unlogged(old(shared), shared, old(self)@, key@, raw@);
            }
            assert(steps::rmw_ran(&s.a.shared.store, &s.b.shared.store, s.a.sess, s.b.sess, key@, input@, status));
        }
    }

    fn cmd_type<D: Device, M: Device>(
        &mut self,
        shared: &mut Shared<D, M>,
        key: &[u8],
        out: &mut Vec<u8>,
    )
        requires
            old(shared).inv(),
            old(self).inv(old(shared)),
        ensures
            final(shared).inv(),
            final(self).inv(final(shared)),
            steps::type_step(steps::step(
                    *old(shared),
                    old(self)@,
                    old(out)@,
                    *final(shared),
                    final(self)@,
                    final(out)@,
                ), key@),
    {
        let input = StringInput::read(StringOp::Exists, self.now_ms);
        let status: Status = self.do_read(shared, key, &input);
        if status == Status::Found {
            resp::write_simple(out, "string");
        } else {
            resp::write_simple(out, "none");
        }
        proof {
            let s = steps::step(*old(shared), old(self)@, old(out)@, *shared, self@, out@);
            assert(steps::read_ran(&s.a.shared.store, &s.b.shared.store, s.a.sess, s.b.sess, key@, input@, status));
        }
    }
}

impl RespSession {
    proof fn lemma_without_value<D: Device, M: Device>(&self, o: &Self, shared: &Shared<D, M>)
        requires
            o.inv(shared),
            *self == (RespSession { out_scratch: self.out_scratch, ..*o }),
            self.out_scratch == (StringOutput { has_bytes: false, ..o.out_scratch }),
        ensures
            self@ == (SessView { scratch: steps::without_value(o@.scratch), ..o@ }),
            self.inv(shared),
    {
        reveal(RespSession::inv);
    }

    proof fn lemma_cleared<D: Device, M: Device>(&self, o: &Self, shared: &Shared<D, M>)
        requires
            o.inv(shared),
            *self == (RespSession { out_scratch: self.out_scratch, ..*o }),
            self.out_scratch == (StringOutput { bytes: self.out_scratch.bytes, ..o.out_scratch }),
            self.out_scratch.bytes@ == Seq::<u8>::empty(),
        ensures
            self@ == (SessView {
                scratch: OutView { bytes: Seq::empty(), ..o@.scratch },
                ..o@
            }),
            self.inv(shared),
    {
        reveal(RespSession::inv);
    }
}

// -- commands on several keys ------------------------------------------------

impl RespSession {
    // -- commands on several keys ----------------------------------------------

    fn cmd_mset<D: Device, M: Device>(
        &mut self,
        shared: &mut Shared<D, M>,
        raw: &[u8],
        args: &[&[u8]],
        out: &mut Vec<u8>,
    )
        requires
            old(shared).inv(),
            old(self).inv(old(shared)),
            raw@.len() <= u32::MAX,
            args@.len() >= 1,
        ensures
            final(shared).inv(),
            final(self).inv(final(shared)),
            steps::mset_step(steps::step(
                    *old(shared),
                    old(self)@,
                    old(out)@,
                    *final(shared),
                    final(self)@,
                    final(out)@,
                ), raw@, arguments::arg_list(args@)),
            steps::kept(
                World { shared: *old(shared), sess: old(self)@ },
                World { shared: *final(shared), sess: final(self)@ },
            ),
    {
        let ghost all = arguments::arg_list(args@);
        let ghost a = World { shared: *shared, sess: self@ };
        let ghost mut ws: Seq<World<D, M>> = seq![a];
        let ghost mut outs: Seq<Seq<u8>> = seq![out@];
        let ghost f = steps::mset_item::<D, M>(all);
        proof {
            steps::lemma_args(args@);
        }
        let total: usize = args.len();
        let n: usize = (total - 1) / 2;
        let mut i: usize = 0;
        while i < n
            invariant
                total == args@.len(),
                total >= 1,
                n == (total - 1) / 2,
                i <= n,
                all == arguments::arg_list(args@),
                f == steps::mset_item::<D, M>(all),
                shared.inv(),
                self.inv(shared),
                steps::chained(ws, outs, i as int, f),
                ws[0] == a,
                outs[0] == old(out)@,
                ws[i as int] == (World { shared: *shared, sess: self@ }),
                outs[i as int] == old(out)@,
                out@ == old(out)@,
                steps::kept(a, ws[i as int]),
            decreases n - i,
        {
            let key: &[u8] = args[2 * i + 1];
            let ghost w = ws[i as int];
            let input = StringInput::simple(
                StringOp::SetPlain,
                Bytes::new(args[2 * i + 2]),
                self.now_ms,
            );
            let status: Status = self.do_upsert(shared, key, &input);
            let ghost mid = *shared;
            self.bump_watch(shared, key);
            proof {
                steps::lemma_args(args@);
                let w1 = World { shared: *shared, sess: self@ };
                let s = Step { a: w, b: w1, out0: out@, out1: out@ };
                assert(steps::upsert_ran(&s.a.shared.store, &s.b.shared.store, s.a.sess, s.b.sess, key@, input@, status));
                assert(steps::pair_step(s, all[2 * i + 1], all[2 * i + 2]));
                assert(steps::kept(w, w1)) by {
                    reveal(steps::upsert_ran);
                }
                steps::lemma_kept_trans(a, w, w1);
                steps::lemma_chain_push(ws, outs, i as int, f, w1, out@);
                ws = ws.push(w1);
                outs = outs.push(out@);
            }
            i += 1;
        }
        let ghost mid = World { shared: *shared, sess: self@ };
        resp::write_text(out, resp::OK);
        self.log_write(shared, raw);
        proof {
            let s = steps::step(*old(shared), old(self)@, old(out)@, *shared, self@, out@);
            let t = Step { b: mid, out1: s.out0, ..s };
            assert(t.repeats(n as int, f));
            assert(steps::mset_ran(s, mid, raw@, all));
        }
    }

    fn cmd_mget<D: Device, M: Device>(
        &mut self,
        shared: &mut Shared<D, M>,
        args: &[&[u8]],
        out: &mut Vec<u8>,
    )
        requires
            old(shared).inv(),
            old(self).inv(old(shared)),
            args@.len() >= 1,
        ensures
            final(shared).inv(),
            final(self).inv(final(shared)),
            steps::mget_step(steps::step(
                    *old(shared),
                    old(self)@,
                    old(out)@,
                    *final(shared),
                    final(self)@,
                    final(out)@,
                ), arguments::arg_list(args@)),
            steps::kept(
                World { shared: *old(shared), sess: old(self)@ },
                World { shared: *final(shared), sess: final(self)@ },
            ),
    {
        let ghost all = arguments::arg_list(args@);
        let ghost a = World { shared: *shared, sess: self@ };
        let ghost f = steps::mget_item::<D, M>(all);
        resp::write_array_header(out, args.len() - 1);
        let ghost out0 = out@;
        let ghost mut ws: Seq<World<D, M>> = seq![a];
        let ghost mut outs: Seq<Seq<u8>> = seq![out@];
        let n: usize = args.len() - 1;
        let mut i: usize = 0;
        while i < n
            invariant
                n + 1 == args@.len(),
                i <= n,
                all == arguments::arg_list(args@),
                f == steps::mget_item::<D, M>(all),
                shared.inv(),
                self.inv(shared),
                steps::chained(ws, outs, i as int, f),
                ws[0] == a,
                outs[0] == out0,
                ws[i as int] == (World { shared: *shared, sess: self@ }),
                outs[i as int] == out@,
                steps::kept(a, ws[i as int]),
            decreases n - i,
        {
            let ghost w = ws[i as int];
            let ghost before = out@;
            self.cmd_get(shared, args[i + 1], out);
            proof {
                steps::lemma_args(args@);
                let w1 = World { shared: *shared, sess: self@ };
                let s = Step { a: w, b: w1, out0: before, out1: out@ };
                assert(steps::get_step(s, all[i + 1]));
                steps::lemma_kept(s);
                steps::lemma_kept_trans(a, w, w1);
                steps::lemma_chain_push(ws, outs, i as int, f, w1, out@);
                ws = ws.push(w1);
                outs = outs.push(out@);
            }
            i += 1;
        }
        proof {
            let s = steps::step(*old(shared), old(self)@, old(out)@, *shared, self@, out@);
            let t = Step { out0, ..s };
            assert(t.repeats(n as int, f));
        }
    }

    fn cmd_del<D: Device, M: Device>(
        &mut self,
        shared: &mut Shared<D, M>,
        raw: &[u8],
        args: &[&[u8]],
        out: &mut Vec<u8>,
    )
        requires
            old(shared).inv(),
            old(self).inv(old(shared)),
            raw@.len() <= u32::MAX,
            args@.len() >= 1,
        ensures
            final(shared).inv(),
            final(self).inv(final(shared)),
            steps::del_step(steps::step(
                    *old(shared),
                    old(self)@,
                    old(out)@,
                    *final(shared),
                    final(self)@,
                    final(out)@,
                ), raw@, arguments::arg_list(args@)),
            steps::kept(
                World { shared: *old(shared), sess: old(self)@ },
                World { shared: *final(shared), sess: final(self)@ },
            ),
    {
        let ghost all = arguments::arg_list(args@);
        let ghost a = World { shared: *shared, sess: self@ };
        let ghost mut ws: Seq<World<D, M>> = seq![a];
        let ghost mut ss: Seq<Status> = Seq::empty();
        let mut count: usize = 0;
        let n: usize = args.len() - 1;
        let mut i: usize = 0;
        while i < n
            invariant
                n + 1 == args@.len(),
                i <= n,
                all == arguments::arg_list(args@),
                shared.inv(),
                self.inv(shared),
                steps::deletions(ws, ss, all, i as int),
                ws[0] == a,
                ws[i as int] == (World { shared: *shared, sess: self@ }),
                count == steps::tally(ss, Status::Deleted),
                count <= i,
                steps::kept(a, ws[i as int]),
            decreases n - i,
        {
            let ghost w = ws[i as int];
            let ghost ss0 = ss;
            let ghost ws0 = ws;
            let key: &[u8] = args[i + 1];
            let status: Status = self.do_delete(shared, key);
            proof {
                steps::lemma_args(args@);
            }
            if status == Status::Deleted {
                count += 1;
                self.bump_watch(shared, key);
            }
            proof {
                let w1 = World { shared: *shared, sess: self@ };
                assert(steps::kept(w, w1)) by {
                    reveal(steps::delete_ran);
                }
                steps::lemma_kept_trans(a, w, w1);
                ws = ws.push(w1);
                ss = ss.push(status);
                assert(ss.drop_last() =~= ss0);
                assert forall|j: int| 0 <= j < i + 1 implies #[trigger] steps::deletion_at(ws, ss, all, j) by {
                    if j < i {
                        assert(steps::deletion_at(ws0, ss0, all, j));
                    }
                }
            }
            i += 1;
        }
        resp::write_count(out, count);
        if count > 0 {
            self.log_write(shared, raw);
        }
        proof {
            assert(steps::deletions(ws, ss, all, all.len() - 1));
        }
    }

    fn cmd_exists<D: Device, M: Device>(
        &mut self,
        shared: &mut Shared<D, M>,
        args: &[&[u8]],
        out: &mut Vec<u8>,
    )
        requires
            old(shared).inv(),
            old(self).inv(old(shared)),
            args@.len() >= 1,
        ensures
            final(shared).inv(),
            final(self).inv(final(shared)),
            steps::exists_step(steps::step(
                    *old(shared),
                    old(self)@,
                    old(out)@,
                    *final(shared),
                    final(self)@,
                    final(out)@,
                ), arguments::arg_list(args@)),
            steps::kept(
                World { shared: *old(shared), sess: old(self)@ },
                World { shared: *final(shared), sess: final(self)@ },
            ),
    {
        let ghost all = arguments::arg_list(args@);
        let ghost a = World { shared: *shared, sess: self@ };
        let ghost mut ws: Seq<World<D, M>> = seq![a];
        let ghost mut ss: Seq<Status> = Seq::empty();
        let mut count: usize = 0;
        let n: usize = args.len() - 1;
        let mut i: usize = 0;
        while i < n
            invariant
                n + 1 == args@.len(),
                i <= n,
                all == arguments::arg_list(args@),
                shared.inv(),
                self.inv(shared),
                steps::readings(ws, ss, all, i as int),
                ws[0] == a,
                ws[i as int] == (World { shared: *shared, sess: self@ }),
                count == steps::tally(ss, Status::Found),
                count <= i,
                steps::kept(a, ws[i as int]),
            decreases n - i,
        {
            let ghost w = ws[i as int];
            let ghost ss0 = ss;
            let ghost ws0 = ws;
            let input = StringInput::read(StringOp::Exists, self.now_ms);
            let status: Status = self.do_read(shared, args[i + 1], &input);
            proof {
                steps::lemma_args(args@);
            }
            if status == Status::Found {
                count += 1;
            }
            proof {
                let w1 = World { shared: *shared, sess: self@ };
                assert(steps::kept(w, w1)) by {
                    reveal(steps::read_ran);
                }
                steps::lemma_kept_trans(a, w, w1);
                ws = ws.push(w1);
                ss = ss.push(status);
                assert(ss.drop_last() =~= ss0);
                assert forall|j: int| 0 <= j < i + 1 implies #[trigger] steps::reading_at(ws, ss, all, j) by {
                    if j < i {
                        assert(steps::reading_at(ws0, ss0, all, j));
                    }
                }
            }
            i += 1;
        }
        resp::write_count(out, count);
        proof {
            assert(steps::readings(ws, ss, all, all.len() - 1));
        }
    }
}

// -- any command -------------------------------------------------------------

impl RespSession {
    // -- the whole keyspace ----------------------------------------------------

    fn cmd_keys<D: Device, M: Device>(&self, shared: &Shared<D, M>, pattern: &[u8], out: &mut Vec<u8>)
        requires
            shared.inv(),
        ensures
            steps::keys_step(
                steps::step(*shared, self@, old(out)@, *shared, self@, final(out)@),
                pattern@,
            ),
    {
        proof {
            reveal(Shared::inv);
        }
        let found: Vec<(u64, RecordPtr)> = shared.store.scan_live();
        let ghost store = shared.store;
        let ghost all = found@.map_values(|e: (u64, RecordPtr)| e.1@.key);
        let mut keys: Vec<Vec<u8>> = Vec::new();
        let ghost mut ks: Seq<Seq<u8>> = Seq::empty();
        let mut i: usize = 0;
        assert(all.subrange(0, 0) =~= Seq::empty());
        proof {
            assert forall|j: int| 0 <= j < all.len() implies store.get(#[trigger] all[j]) is Some by {
                let e = found@[j];
                assert(scan::is_image(e.1@, store.recs@[e.0 as int]));
                assert(store.live(e.0 as int));
                assert(e.1@.key == store.recs@[e.0 as int].key);
                store.lemma_live_get(e.0 as int);
            }
        }
        while i < found.len()
            invariant
                i <= found@.len(),
                all == found@.map_values(|e: (u64, RecordPtr)| e.1@.key),
                steps::raw_list(keys@) == ks,
                ks == steps::matching(pattern@, all.subrange(0, i as int)),
                forall|j: int| 0 <= j < all.len() ==> store.get(#[trigger] all[j]) is Some,
                forall|j: int|
                    0 <= j < ks.len() ==> store.get(#[trigger] ks[j]) is Some && glob::glob(
                        pattern@,
                        ks[j],
                    ),
            decreases found@.len() - i,
        {
            let key: &[u8] = found[i].1.key();
            proof {
                let part = all.subrange(0, i + 1);
                assert(part.drop_last() =~= all.subrange(0, i as int));
                assert(part.last() == key@);
                assert(all[i as int] == key@);
            }
            if glob_match(pattern, key) {
                keys.push(to_vec(key));
                proof {
                    ks = ks.push(key@);
                    assert(steps::raw_list(keys@) =~= ks);
                }
            }
            i += 1;
        }
        proof {
            assert(all.subrange(0, i as int) =~= all);
            if store.log@.dependable >= store.log@.flushed {
                assert(all =~= store.keys_of(store.live_list())) by {
                    assert forall|j: int| 0 <= j < all.len() implies all[j] == store.keys_of(
                        store.live_list(),
                    )[j] by {
                        let e = found@[j];
                        assert(scan::is_image(e.1@, store.recs@[e.0 as int]));
                    }
                }
            }
            assert(steps::listed(&store, pattern@, ks));
        }
        resp::write_array_header(out, keys.len());
        let ghost out0 = out@;
        let mut n: usize = 0;
        assert(ks.subrange(0, 0) =~= Seq::empty());
        assert(out0 + wire::bulks(ks.subrange(0, 0)) =~= out0);
        while n < keys.len()
            invariant
                n <= keys@.len(),
                steps::raw_list(keys@) == ks,
                out@ == out0 + wire::bulks(ks.subrange(0, n as int)),
            decreases keys@.len() - n,
        {
            resp::write_bulk(out, keys[n].as_slice());
            proof {
                let part = ks.subrange(0, n + 1);
                assert(part.drop_last() =~= ks.subrange(0, n as int));
                assert(ks[n as int] == keys@[n as int]@);
                assert(part.last() == keys@[n as int]@);
                assert(out@ =~= out0 + wire::bulks(part));
            }
            n += 1;
        }
        proof {
            assert(ks.subrange(0, n as int) =~= ks);
            assert(out@ =~= old(out)@ + wire::array_of(ks));
        }
    }

    fn cmd_scan<D: Device, M: Device>(&self, shared: &Shared<D, M>, args: &[&[u8]], out: &mut Vec<u8>)
        requires
            shared.inv(),
        ensures
            steps::scan_step(
                steps::step(*shared, self@, old(out)@, *shared, self@, final(out)@),
                arguments::arg_list(args@),
            ),
    {
        let pattern: Vec<u8> = arguments::parse_scan_pattern(args);
        resp::write_array_header(out, 2);
        resp::write_bulk(out, bytes::raw("0"));
        self.cmd_keys(shared, pattern.as_slice(), out);
    }

    fn cmd_dbsize<D: Device, M: Device>(&self, shared: &Shared<D, M>, out: &mut Vec<u8>)
        requires
            shared.inv(),
        ensures
            steps::dbsize_step(steps::step(*shared, self@, old(out)@, *shared, self@, final(out)@)),
    {
        proof {
            reveal(Shared::inv);
        }
        let n: usize = shared.store.count_live();
        assert(steps::counted(&shared.store, n as nat));
        resp::write_count(out, n);
    }

    fn cmd_flush<D: Device, M: Device>(
        &self,
        shared: &mut Shared<D, M>,
        raw: &[u8],
        out: &mut Vec<u8>,
    )
        requires
            old(shared).inv(),
            self.inv(old(shared)),
            raw@.len() <= u32::MAX,
        ensures
            final(shared).inv(),
            self.inv(final(shared)),
            steps::flush_step(
                steps::step(*old(shared), self@, old(out)@, *final(shared), self@, final(out)@),
                raw@,
            ),
    {
        proof {
            reveal(Shared::inv);
        }
        shared.store.clear();
        shared.watch.bump_all();
        proof {
            self.lemma_inv(self, old(shared), shared);
        }
        self.log_write(shared, raw);
        resp::write_text(out, resp::OK);
    }

    fn cmd_save<D: Device, M: Device>(&self, shared: &mut Shared<D, M>, out: &mut Vec<u8>)
        requires
            old(shared).inv(),
            self.inv(old(shared)),
        ensures
            final(shared).inv(),
            self.inv(final(shared)),
            steps::save_step(steps::step(*old(shared), self@, old(out)@, *final(shared), self@, final(out)@)),
            final(shared).store.index == old(shared).store.index,
    {
        let r: Result<(), SaveError> = shared.checkpoint(self.now_ms);
        proof {
            self.lemma_inv(self, old(shared), shared);
            assert(shared::saved(old(shared), shared, self@.now, r));
        }
        match r {
            Ok(_) => {
                resp::write_text(out, resp::OK);
            },
            Err(e) => {
                let mut message: Vec<u8> = to_vec(bytes::raw("ERR checkpoint failed: "));
                push_all(&mut message, e.message());
                resp::write_error_bytes(out, message.as_slice());
            },
        }
        proof {
            let s = steps::step(*old(shared), self@, old(out)@, *shared, self@, out@);
            assert(shared::saved(&s.a.shared, &s.b.shared, s.now(), r));
        }
    }

    fn cmd_hello(&self, out: &mut Vec<u8>)
        ensures
            final(out)@ == old(out)@ + steps::hello_reply(),
    {
        // Minimal RESP2 HELLO reply (flat array of key/value pairs).
        resp::write_array_header(out, 6);
        resp::write_bulk(out, bytes::raw("server"));
        resp::write_bulk(out, bytes::raw("mini-garnet"));
        resp::write_bulk(out, bytes::raw("version"));
        resp::write_bulk(out, bytes::raw("0.1.0"));
        resp::write_bulk(out, bytes::raw("proto"));
        resp::write_integer(out, 2);
        assert(out@ =~= old(out)@ + steps::hello_reply());
    }

    fn cmd_unknown(&self, name: &[u8], out: &mut Vec<u8>)
        ensures
            final(out)@ == old(out)@ + steps::unknown_reply(name@),
    {
        let mut message: Vec<u8> = to_vec(bytes::raw("ERR unknown command '"));
        push_all(&mut message, bytes::from_utf8_lossy(name).as_slice());
        push_all(&mut message, bytes::raw("' or wrong number of arguments"));
        resp::write_error_bytes(out, message.as_slice());
    }

    // -- transactions ----------------------------------------------------------

    fn cmd_multi<D: Device, M: Device>(&mut self, shared: &Shared<D, M>, out: &mut Vec<u8>)
        requires
            old(self).inv(shared),
        ensures
            final(self).inv(shared),
            steps::multi_step(steps::step(*shared, old(self)@, old(out)@, *shared, final(self)@, final(out)@)),
    {
        if self.txn.in_multi {
            resp::write_error(out, "ERR MULTI calls can not be nested");
            return;
        }
        self.txn.in_multi = true;
        self.txn.dirty = false;
        self.txn.queued.clear();
        proof {
            reveal(RespSession::inv);
            assert(self@.queued =~= Seq::empty());
        }
        resp::write_text(out, resp::OK);
    }

    fn discard<D: Device, M: Device>(&mut self, Ghost(shared): Ghost<Shared<D, M>>)
        requires
            old(self).inv(&shared),
        ensures
            final(self).inv(&shared),
            final(self)@ == steps::discarded(old(self)@),
    {
        self.txn.in_multi = false;
        self.txn.dirty = false;
        self.txn.queued.clear();
        self.txn.watches.clear();
        proof {
            reveal(RespSession::inv);
            assert(self@ =~= steps::discarded(old(self)@));
        }
    }

    fn cmd_watch<D: Device, M: Device>(
        &mut self,
        shared: &Shared<D, M>,
        args: &[&[u8]],
        out: &mut Vec<u8>,
    )
        requires
            shared.inv(),
            old(self).inv(shared),
            args@.len() >= 1,
        ensures
            final(self).inv(shared),
            steps::watch_step(
                steps::step(*shared, old(self)@, old(out)@, *shared, final(self)@, final(out)@),
                arguments::arg_list(args@),
            ),
    {
        if self.txn.in_multi {
            resp::write_error(out, "ERR WATCH inside MULTI is not allowed");
            return;
        }
        proof {
            reveal(RespSession::inv);
            reveal(Shared::inv);
            steps::lemma_args(args@);
        }
        let ghost all = arguments::arg_list(args@);
        let ghost f = |k: Seq<u8>| steps::watched(&shared.watch, k);
        let ghost w0 = self@.watches;
        let mut i: usize = 1;
        assert(all.subrange(1, 1).map_values(f) =~= Seq::empty());
        while i < args.len()
            invariant
                1 <= i <= args@.len(),
                all == arguments::arg_list(args@),
                shared.watch.inv(),
                f == (|k: Seq<u8>| steps::watched(&shared.watch, k)),
                self@ == (SessView {
                    watches: w0 + all.subrange(1, i as int).map_values(f),
                    ..old(self)@
                }),
                w0 == old(self)@.watches,
                self.inv(shared),
            decreases args@.len() - i,
        {
            let ghost before = self@;
            let entry: (usize, u64) = shared.watch.slot_version(args[i]);
            self.txn.watches.push(entry);
            proof {
                reveal(RespSession::inv);
                steps::lemma_args(args@);
                assert(all.subrange(1, i + 1) =~= all.subrange(1, i as int).push(all[i as int]));
                assert(self@.watches =~= w0 + all.subrange(1, i + 1).map_values(f));
                assert(self@ =~= (SessView { watches: self@.watches, ..before }));
            }
            i += 1;
        }
        proof {
            assert(all.subrange(1, i as int) =~= all.skip(1));
        }
        resp::write_text(out, resp::OK);
    }
}

impl RespSession {
    #[verifier::spinoff_prover]
    #[verifier::rlimit(50)]
    fn exec_string<D: Device, M: Device>(
        &mut self,
        shared: &mut Shared<D, M>,
        kind: Kind,
        raw: &[u8],
        args: &[&[u8]],
        out: &mut Vec<u8>,
    )
        requires
            old(shared).inv(),
            old(self).inv(old(shared)),
            raw@.len() <= u32::MAX,
            steps::is_string(kind),
            arguments::takes(kind, args@.len() as int),
        ensures
            final(shared).inv(),
            final(self).inv(final(shared)),
            steps::data_step(steps::step(
                    *old(shared),
                    old(self)@,
                    old(out)@,
                    *final(shared),
                    final(self)@,
                    final(out)@,
                ), kind, raw@, arguments::arg_list(args@)),
            steps::kept(
                World { shared: *old(shared), sess: old(self)@ },
                World { shared: *final(shared), sess: final(self)@ },
            ),
    {
        proof {
            steps::lemma_args(args@);
        }
        match kind {
            Kind::Get => self.cmd_get(shared, args[1], out),
            Kind::SetKey => self.cmd_set(shared, raw, args, out),
            Kind::SetNx => self.cmd_setnx(shared, raw, args, out),
            Kind::SetEx => self.cmd_setex(shared, raw, args, false, out),
            Kind::PSetEx => self.cmd_setex(shared, raw, args, true, out),
            Kind::GetSet => self.cmd_getset(shared, raw, args, out),
            Kind::GetDel => self.cmd_getdel(shared, raw, args[1], out),
            Kind::GetEx => self.cmd_getex(shared, raw, args, out),
            Kind::Append => self.cmd_rmw_int(shared, raw, args[1], StringOp::Append, Bytes::new(args[2]), out),
            Kind::StrLen => self.cmd_read_int(shared, args[1], StringOp::Strlen, 0, out),
            Kind::GetRange => self.cmd_getrange(shared, args, out),
            Kind::SetRange => self.cmd_setrange(shared, raw, args, out),
            Kind::Incr => self.cmd_incr(shared, raw, args[1], 1, out),
            Kind::Decr => self.cmd_incr(shared, raw, args[1], -1, out),
            Kind::IncrBy => self.cmd_incrby(shared, raw, args, false, out),
            Kind::DecrBy => self.cmd_incrby(shared, raw, args, true, out),
            _ => {},
        }
        proof {
            steps::lemma_kept(steps::step(*old(shared), old(self)@, old(out)@, *shared, self@, out@));
        }
    }

    #[verifier::spinoff_prover]
    #[verifier::rlimit(50)]
    fn exec_generic<D: Device, M: Device>(
        &mut self,
        shared: &mut Shared<D, M>,
        kind: Kind,
        raw: &[u8],
        args: &[&[u8]],
        out: &mut Vec<u8>,
    )
        requires
            old(shared).inv(),
            old(self).inv(old(shared)),
            raw@.len() <= u32::MAX,
            steps::is_generic(kind),
            arguments::takes(kind, args@.len() as int),
        ensures
            final(shared).inv(),
            final(self).inv(final(shared)),
            steps::data_step(steps::step(
                    *old(shared),
                    old(self)@,
                    old(out)@,
                    *final(shared),
                    final(self)@,
                    final(out)@,
                ), kind, raw@, arguments::arg_list(args@)),
            steps::kept(
                World { shared: *old(shared), sess: old(self)@ },
                World { shared: *final(shared), sess: final(self)@ },
            ),
    {
        proof {
            steps::lemma_args(args@);
        }
        match kind {
            Kind::MSet => self.cmd_mset(shared, raw, args, out),
            Kind::MGet => self.cmd_mget(shared, args, out),
            Kind::Del => self.cmd_del(shared, raw, args, out),
            Kind::Exists => self.cmd_exists(shared, args, out),
            Kind::Expire => self.cmd_expire(shared, raw, args, 1000, false, out),
            Kind::PExpire => self.cmd_expire(shared, raw, args, 1, false, out),
            Kind::ExpireAt => self.cmd_expire(shared, raw, args, 1000, true, out),
            Kind::PExpireAt => self.cmd_expire(shared, raw, args, 1, true, out),
            Kind::Ttl => self.cmd_read_int(shared, args[1], StringOp::Ttl { ms: false }, -2, out),
            Kind::PTtl => self.cmd_read_int(shared, args[1], StringOp::Ttl { ms: true }, -2, out),
            Kind::Persist => self.cmd_persist(shared, raw, args[1], out),
            Kind::Type => self.cmd_type(shared, args[1], out),
            _ => {},
        }
        proof {
            steps::lemma_kept(steps::step(*old(shared), old(self)@, old(out)@, *shared, self@, out@));
        }
    }

    /// Any command but EXEC, by kind.
    #[verifier::spinoff_prover]
    #[verifier::rlimit(50)]
    fn exec_plain<D: Device, M: Device>(
        &mut self,
        shared: &mut Shared<D, M>,
        kind: Kind,
        raw: &[u8],
        args: &[&[u8]],
        out: &mut Vec<u8>,
    )
        requires
            old(shared).inv(),
            old(self).inv(old(shared)),
            raw@.len() <= u32::MAX,
            args@.len() >= 1,
            arguments::takes(kind, args@.len() as int),
        ensures
            final(shared).inv(),
            final(self).inv(final(shared)),
            steps::plain_step(steps::step(
                    *old(shared),
                    old(self)@,
                    old(out)@,
                    *final(shared),
                    final(self)@,
                    final(out)@,
                ), kind, raw@, arguments::arg_list(args@)),
            steps::kept(
                World { shared: *old(shared), sess: old(self)@ },
                World { shared: *final(shared), sess: final(self)@ },
            ),
    {
        proof {
            steps::lemma_args(args@);
        }
        match kind {
            Kind::Ping => if args.len() >= 2 {
                resp::write_bulk(out, args[1]);
            } else {
                resp::write_text(out, resp::PONG);
            },
            Kind::Echo => resp::write_bulk(out, args[1]),
            Kind::Quit | Kind::Select | Kind::Client | Kind::Rewrite => {
                resp::write_text(out, resp::OK);
            },
            Kind::Hello => self.cmd_hello(out),
            Kind::Command | Kind::Config => resp::write_text(out, resp::EMPTY_ARRAY),
            Kind::Info => resp::write_bulk(out, bytes::raw("# Server\r\nmini_garnet:1\r\n")),
            Kind::Reset => {
                self.discard::<D, M>(Ghost(*shared));
                resp::write_simple(out, "RESET");
            },
            Kind::DbSize => self.cmd_dbsize(shared, out),
            Kind::Flush => self.cmd_flush(shared, raw, out),
            Kind::Keys => self.cmd_keys(shared, args[1], out),
            Kind::Scan => self.cmd_scan(shared, args, out),
            Kind::Multi => self.cmd_multi(shared, out),
            Kind::Exec => resp::write_error(out, "ERR EXEC without MULTI"),
            Kind::Discard => if self.txn.in_multi {
                self.discard::<D, M>(Ghost(*shared));
                resp::write_text(out, resp::OK);
            } else {
                resp::write_error(out, "ERR DISCARD without MULTI");
            },
            Kind::Watch => self.cmd_watch(shared, args, out),
            Kind::Unwatch => {
                self.unwatch::<D, M>(Ghost(*shared));
                resp::write_text(out, resp::OK);
            },
            Kind::Save => self.cmd_save(shared, out),
            Kind::LastSave => {
                resp::write_integer(out, functions::thousandth(shared.last_save_ms()));
            },
            Kind::Unknown => self.cmd_unknown(args[0], out),
            Kind::MSet | Kind::MGet | Kind::Del | Kind::Exists | Kind::Expire | Kind::PExpire
            | Kind::ExpireAt | Kind::PExpireAt | Kind::Ttl | Kind::PTtl | Kind::Persist
            | Kind::Type => self.exec_generic(shared, kind, raw, args, out),
            _ => self.exec_string(shared, kind, raw, args, out),
        }
    }

    fn unwatch<D: Device, M: Device>(&mut self, Ghost(shared): Ghost<Shared<D, M>>)
        requires
            old(self).inv(&shared),
        ensures
            final(self).inv(&shared),
            final(self)@ == (SessView { watches: Seq::empty(), ..old(self)@ }),
    {
        self.txn.watches.clear();
        proof {
            reveal(RespSession::inv);
            assert(self@ =~= (SessView { watches: Seq::empty(), ..old(self)@ }));
        }
    }
}

// -- EXEC --------------------------------------------------------------------

/// Keys of the queued commands, for 2PL.
fn collect_keys(queued: &Vec<Vec<u8>>) -> (r: Vec<(Vec<u8>, LockType)>)
    ensures
        arguments::lock_list_view(r@) == steps::txn_keys(steps::raw_list(queued@)),
{
    let ghost q = steps::raw_list(queued@);
    let mut found: Vec<(Vec<u8>, LockType)> = Vec::new();
    let mut i: usize = 0;
    assert(arguments::lock_list_view(found@) =~= Seq::empty());
    assert(q.subrange(0, 0) =~= Seq::empty());
    while i < queued.len()
        invariant
            i <= queued@.len(),
            q == steps::raw_list(queued@),
            arguments::lock_list_view(found@) == steps::txn_keys(q.subrange(0, i as int)),
        decreases queued@.len() - i,
    {
        let raw: &[u8] = queued[i].as_slice();
        proof {
            let part = q.subrange(0, i + 1);
            assert(part.drop_last() =~= q.subrange(0, i as int));
            assert(part.last() == raw@);
        }
        let ghost before = arguments::lock_list_view(found@);
        match arguments::parse_ranges(raw) {
            Some(slices) => {
                let args: Vec<&[u8]> = arguments::borrow_args(raw, &slices);
                arguments::command_keys(args.as_slice(), &mut found);
                proof {
                    assert(arguments::queued_args(raw@) == Some(arguments::arg_list(args@)));
                }
            },
            None => {
                assert(before + Seq::<(Seq<u8>, LockType)>::empty() =~= before);
            },
        }
        i += 1;
    }
    assert(q.subrange(0, i as int) =~= q);
    found
}

fn borrow_keys<'a>(keys: &'a Vec<(Vec<u8>, LockType)>) -> (r: Vec<(&'a [u8], LockType)>)
    ensures
        transactions::key_list(r@) == arguments::lock_list_view(keys@),
{
    let mut refs: Vec<(&'a [u8], LockType)> = Vec::new();
    while refs.len() < keys.len()
        invariant
            refs@.len() <= keys@.len(),
            forall|i: int|
                0 <= i < refs@.len() ==> (#[trigger] refs@[i]).0@ == keys@[i].0@ && refs@[i].1
                    == keys@[i].1,
        decreases keys@.len() - refs@.len(),
    {
        let i: usize = refs.len();
        refs.push((keys[i].0.as_slice(), keys[i].1));
    }
    assert(transactions::key_list(refs@) =~= arguments::lock_list_view(keys@));
    refs
}

impl RespSession {
    fn enter<D: Device, M: Device>(&self, shared: &mut Shared<D, M>, op: AofOp)
        ensures
            old(shared).inv() ==> final(shared).inv(),
            self.inv(old(shared)) ==> self.inv(final(shared)),
            *final(shared) == (Shared { aof: final(shared).aof, ..*old(shared) }),
            steps::entered(old(shared), final(shared), self@, op, Seq::empty()),
    {
        proof {
            reveal(RespSession::inv);
            reveal(Shared::inv);
        }
        if self.replay {
            return;
        }
        let nothing: Vec<u8> = Vec::new();
        assert(nothing@ =~= Seq::<u8>::empty());
        match &mut shared.aof {
            Some(a) => {
                let _end: u64 = a.enqueue(op, self.now_ms, nothing.as_slice());
            },
            None => {},
        }
    }

    /// Take the queue and hold the latches of its keys.
    #[verifier::spinoff_prover]
    fn begin_txn<D: Device, M: Device>(&mut self, shared: &mut Shared<D, M>) -> (queued: Vec<Vec<u8>>)
        requires
            old(shared).inv(),
            old(self).inv(old(shared)),
            steps::at_rest(World { shared: *old(shared), sess: old(self)@ }),
        ensures
            final(shared).inv(),
            final(self).inv(final(shared)),
            steps::raw_list(queued@) == old(self)@.queued,
            forall|i: int| 0 <= i < queued@.len() ==> (#[trigger] queued@[i])@.len() <= u32::MAX,
            steps::begun(
                World { shared: *old(shared), sess: old(self)@ },
                World { shared: *final(shared), sess: final(self)@ },
            ),
            !old(self)@.replay ==> forall|i: int|
                0 <= i < final(self)@.locks.len() ==> (#[trigger] final(self)@.locks[i]).0
                    < final(shared).store.index.bucket_count(),
    {
        proof {
            reveal(RespSession::inv);
            reveal(Shared::inv);
        }
        let mut queued: Vec<Vec<u8>> = Vec::new();
        std::mem::swap(&mut queued, &mut self.txn.queued);
        self.txn.in_multi = false;
        self.txn.watches.clear();
        assert(steps::raw_list(self.txn.queued@) =~= Seq::empty());
        let keys: Vec<(Vec<u8>, LockType)> = collect_keys(&queued);
        let refs: Vec<(&[u8], LockType)> = borrow_keys(&keys);
        if !self.replay {
            proof {
                transactions::lemma_wanted_range(
                    shared.store.index,
                    transactions::key_list(refs@),
                );
                let m = transactions::wanted_locks(
                    shared.store.index,
                    transactions::key_list(refs@),
                );
                assert forall|b: int| #[trigger] m.dom().contains(b) implies transactions::can_take(
                    shared.store.index.latch(b),
                    m[b],
                ) by {
                    assert(0 <= b < shared.store.index.bucket_count());
                }
            }
            let _locked: bool = self.store.txn_lock(&mut shared.store, refs.as_slice());
            assert(_locked);
        }
        self.enter(shared, AofOp::TxnStart);
        queued
    }

    /// Give the latches back.
    #[verifier::spinoff_prover]
    fn end_txn<D: Device, M: Device>(&mut self, shared: &mut Shared<D, M>)
        requires
            old(shared).inv(),
            old(self).inv(old(shared)),
        ensures
            final(shared).inv(),
            final(self).inv(final(shared)),
            steps::ended(
                World { shared: *old(shared), sess: old(self)@ },
                World { shared: *final(shared), sess: final(self)@ },
            ),
    {
        proof {
            reveal(RespSession::inv);
            reveal(Shared::inv);
        }
        if !self.replay {
            self.store.txn_unlock(&mut shared.store);
            assert(self@.locks =~= Seq::empty());
        }
        self.enter(shared, AofOp::TxnCommit);
    }

    fn exec_queued<D: Device, M: Device>(
        &mut self,
        shared: &mut Shared<D, M>,
        raw: &[u8],
        out: &mut Vec<u8>,
    )
        requires
            old(shared).inv(),
            old(self).inv(old(shared)),
            raw@.len() <= u32::MAX,
        ensures
            final(shared).inv(),
            final(self).inv(final(shared)),
            steps::queued_step(
                steps::step(
                    *old(shared),
                    old(self)@,
                    old(out)@,
                    *final(shared),
                    final(self)@,
                    final(out)@,
                ),
                raw@,
            ),
            steps::kept(
                World { shared: *old(shared), sess: old(self)@ },
                World { shared: *final(shared), sess: final(self)@ },
            ),
    {
        match arguments::parse_ranges(raw) {
            Some(slices) => {
                let args: Vec<&[u8]> = arguments::borrow_args(raw, &slices);
                proof {
                    steps::lemma_args(args@);
                    assert(arguments::queued_args(raw@) == Some(arguments::arg_list(args@)));
                }
                if args.len() == 0 {
                    resp::write_error(out, "ERR bad queued command");
                    return;
                }
                let name: Vec<u8> = arguments::command_name(args[0]);
                let kind: Kind = arguments::command_kind(name.as_slice(), args.len());
                proof {
                    arguments::recognized_commands_have_their_arguments(
                        name@,
                        args@.len() as int,
                    );
                }
                self.exec_plain(shared, kind, raw, args.as_slice(), out);
            },
            None => {
                resp::write_error(out, "ERR bad queued command");
            },
        }
    }

    fn has_conflict<D: Device, M: Device>(&self, shared: &Shared<D, M>) -> (r: bool)
        requires
            self.inv(shared),
        ensures
            r == steps::conflict(shared.watch@, self@.watches),
    {
        proof {
            reveal(RespSession::inv);
        }
        let mut i: usize = 0;
        while i < self.txn.watches.len()
            invariant
                i <= self.txn.watches@.len(),
                self.inv(shared),
                forall|j: int|
                    0 <= j < i ==> shared.watch@[(#[trigger] self.txn.watches@[j]).0 as int]
                        == self.txn.watches@[j].1,
            decreases self.txn.watches@.len() - i,
        {
            proof {
                reveal(RespSession::inv);
            }
            let w: (usize, u64) = self.txn.watches[i];
            if shared.watch.version_at(w.0) != w.1 {
                return true;
            }
            i += 1;
        }
        false
    }

    fn cmd_exec<D: Device, M: Device>(&mut self, shared: &mut Shared<D, M>, out: &mut Vec<u8>)
        requires
            old(shared).inv(),
            old(self).inv(old(shared)),
            steps::at_rest(World { shared: *old(shared), sess: old(self)@ }),
        ensures
            final(shared).inv(),
            final(self).inv(final(shared)),
            steps::exec_step(
                steps::step(
                    *old(shared),
                    old(self)@,
                    old(out)@,
                    *final(shared),
                    final(self)@,
                    final(out)@,
                ),
            ),
            steps::at_rest(World { shared: *final(shared), sess: final(self)@ }),
            final(self)@.replay == old(self)@.replay,
            final(self)@.thread == old(self)@.thread,
            steps::same_frame(old(shared), final(shared)),
    {
        if !self.txn.in_multi {
            resp::write_error(out, "ERR EXEC without MULTI");
            return;
        }
        if self.txn.dirty {
            self.discard::<D, M>(Ghost(*shared));
            resp::write_error(out, "EXECABORT Transaction discarded because of previous errors.");
            return;
        }
        // Optimistic watch check.
        if self.has_conflict(shared) {
            self.discard::<D, M>(Ghost(*shared));
            resp::write_text(out, resp::NULL_ARRAY);
            return;
        }
        let ghost a = World { shared: *shared, sess: self@ };
        let ghost q = self@.queued;
        let queued: Vec<Vec<u8>> = self.begin_txn(shared);
        let ghost w1 = World { shared: *shared, sess: self@ };
        // Reply is an array of the sub-command results.
        resp::write_array_header(out, queued.len());
        let ghost out0 = out@;
        let ghost f = steps::queued_item::<D, M>(q);
        let ghost mut ws: Seq<World<D, M>> = seq![w1];
        let ghost mut outs: Seq<Seq<u8>> = seq![out0];
        let mut i: usize = 0;
        while i < queued.len()
            invariant
                i <= queued@.len(),
                steps::raw_list(queued@) == q,
                forall|i: int| 0 <= i < queued@.len() ==> (#[trigger] queued@[i])@.len() <= u32::MAX,
                f == steps::queued_item::<D, M>(q),
                shared.inv(),
                self.inv(shared),
                steps::chained(ws, outs, i as int, f),
                ws[0] == w1,
                outs[0] == out0,
                ws[i as int] == (World { shared: *shared, sess: self@ }),
                outs[i as int] == out@,
                steps::kept(w1, ws[i as int]),
            decreases queued@.len() - i,
        {
            let ghost w = ws[i as int];
            self.exec_queued(shared, queued[i].as_slice(), out);
            proof {
                let w2 = World { shared: *shared, sess: self@ };
                assert(q[i as int] == queued@[i as int]@);
                steps::lemma_kept_trans(w1, w, w2);
                steps::lemma_chain_push(ws, outs, i as int, f, w2, out@);
                ws = ws.push(w2);
                outs = outs.push(out@);
            }
            i += 1;
        }
        let ghost w2 = World { shared: *shared, sess: self@ };
        self.end_txn(shared);
        proof {
            let b = World { shared: *shared, sess: self@ };
            let s = Step { a, b, out0: old(out)@, out1: out@ };
            let t = Step { a: w1, b: w2, out0, out1: out@ };
            assert(q.len() == queued@.len());
            assert(t.repeats(q.len() as int, f));
            assert(steps::executed(s, w1, w2));
            if !a.sess.replay {
                steps::lemma_free_again(
                    &a.shared.store.index,
                    &w1.shared.store.index,
                    &w2.shared.store.index,
                    &b.shared.store.index,
                    w1.sess.locks,
                    steps::txn_keys(q),
                );
            }
        }
    }

    /// Run a command, whatever the transaction state.
    fn exec_command<D: Device, M: Device>(
        &mut self,
        shared: &mut Shared<D, M>,
        raw: &[u8],
        args: &[&[u8]],
        out: &mut Vec<u8>,
    ) -> (r: Action)
        requires
            old(shared).inv(),
            old(self).inv(old(shared)),
            steps::at_rest(World { shared: *old(shared), sess: old(self)@ }),
            raw@.len() <= u32::MAX,
            args@.len() >= 1,
        ensures
            final(shared).inv(),
            final(self).inv(final(shared)),
            steps::command_step(
                steps::step(
                    *old(shared),
                    old(self)@,
                    old(out)@,
                    *final(shared),
                    final(self)@,
                    final(out)@,
                ),
                raw@,
                arguments::arg_list(args@),
            ),
            r is Close <==> arguments::kind_of(
                arguments::name_of(args@[0]@),
                args@.len() as int,
            ) is Quit,
            steps::at_rest(World { shared: *final(shared), sess: final(self)@ }),
            final(self)@.replay == old(self)@.replay,
            final(self)@.thread == old(self)@.thread,
            steps::same_frame(old(shared), final(shared)),
    {
        proof {
            steps::lemma_args(args@);
        }
        let name: Vec<u8> = arguments::command_name(args[0]);
        let kind: Kind = arguments::command_kind(name.as_slice(), args.len());
        proof {
            arguments::recognized_commands_have_their_arguments(name@, args@.len() as int);
        }
        if kind == Kind::Exec {
            self.cmd_exec(shared, out);
        } else {
            self.exec_plain(shared, kind, raw, args, out);
        }
        if kind == Kind::Quit {
            Action::Close
        } else {
            Action::Continue
        }
    }

    fn queue_command<D: Device, M: Device>(
        &mut self,
        cmd: &[u8],
        raw: &[u8],
        out: &mut Vec<u8>,
        Ghost(shared): Ghost<Shared<D, M>>,
    )
        requires
            old(self).inv(&shared),
            raw@.len() <= u32::MAX,
        ensures
            final(self).inv(&shared),
            if arguments::is_unqueueable(cmd@) {
                &&& final(self)@ == (SessView { dirty: true, ..old(self)@ })
                &&& final(out)@ == old(out)@ + resp::error_reply(
                    bytes::text("ERR command not allowed in transaction"),
                )
            } else {
                &&& final(self)@ == (SessView {
                    queued: old(self)@.queued.push(raw@),
                    ..old(self)@
                })
                &&& final(out)@ == old(out)@ + bytes::text(resp::QUEUED)
            },
    {
        proof {
            reveal(RespSession::inv);
        }
        match arguments::validate_queueable(cmd) {
            Some(error) => {
                self.txn.dirty = true;
                resp::write_error(out, error);
            },
            None => {
                let ghost before = self@;
                self.txn.queued.push(to_vec(raw));
                proof {
                    assert(self@ =~= (SessView { queued: before.queued.push(raw@), ..before }));
                }
                resp::write_text(out, resp::QUEUED);
            },
        }
    }

    // -- entry point -----------------------------------------------------------

    /// Dispatch one command at the time `now_ms`. `raw` is the exact RESP bytes
    /// of the command (used for logging and for queuing inside MULTI).
    pub fn dispatch<D: Device, M: Device>(
        &mut self,
        shared: &mut Shared<D, M>,
        now_ms: i64,
        raw: &[u8],
        args: &[&[u8]],
        out: &mut Vec<u8>,
    ) -> (r: Action)
        requires
            old(shared).inv(),
            old(self).inv(old(shared)),
            steps::at_rest(World { shared: *old(shared), sess: old(self)@ }),
            raw@.len() <= u32::MAX,
        ensures
            final(shared).inv(),
            final(self).inv(final(shared)),
            steps::dispatch_step(
                steps::step(
                    *old(shared),
                    old(self)@,
                    old(out)@,
                    *final(shared),
                    final(self)@,
                    final(out)@,
                ),
                now_ms,
                raw@,
                arguments::arg_list(args@),
            ),
            r is Close <==> args@.len() > 0 && arguments::kind_of(
                arguments::name_of(args@[0]@),
                args@.len() as int,
            ) is Quit,
            steps::at_rest(World { shared: *final(shared), sess: final(self)@ }),
            final(self)@.replay == old(self)@.replay,
            final(self)@.thread == old(self)@.thread,
            steps::same_frame(old(shared), final(shared)),
    {
        if args.len() == 0 {
            return Action::Continue;
        }
        proof {
            steps::lemma_args(args@);
        }
        if !self.replay {
            self.now_ms = now_ms;
            assert(self.inv(shared)) by {
                reveal(RespSession::inv);
            }
        }
        let name: Vec<u8> = arguments::command_name(args[0]);
        // Inside MULTI, queue everything except the control commands.
        if self.txn.in_multi && !arguments::control_command(name.as_slice()) {
            self.queue_command::<D, M>(name.as_slice(), raw, out, Ghost(*shared));
            return Action::Continue;
        }
        self.exec_command(shared, raw, args, out)
    }

    /// Encode `parts` as a RESP command, dispatch it, and return the raw reply
    /// bytes. For in-process use (tests, embedded) without a socket.
    pub fn run<D: Device, M: Device>(
        &mut self,
        shared: &mut Shared<D, M>,
        now_ms: i64,
        parts: &[&[u8]],
    ) -> (out: Vec<u8>)
        requires
            old(shared).inv(),
            old(self).inv(old(shared)),
            steps::at_rest(World { shared: *old(shared), sess: old(self)@ }),
            wire::array_of(arguments::arg_list(parts@)).len() <= u32::MAX,
        ensures
            final(shared).inv(),
            final(self).inv(final(shared)),
            parts@.len() <= resp::MAX_ARRAY_LEN ==> steps::dispatch_step(
                steps::step(
                    *old(shared),
                    old(self)@,
                    Seq::empty(),
                    *final(shared),
                    final(self)@,
                    out@,
                ),
                now_ms,
                wire::array_of(arguments::arg_list(parts@)),
                arguments::arg_list(parts@),
            ),
            parts@.len() > resp::MAX_ARRAY_LEN ==> out@ == Seq::<u8>::empty() && *final(shared)
                == *old(shared) && final(self)@ == old(self)@,
            steps::at_rest(World { shared: *final(shared), sess: final(self)@ }),
            final(self)@.replay == old(self)@.replay,
            final(self)@.thread == old(self)@.thread,
            steps::same_frame(old(shared), final(shared)),
    {
        let mut out: Vec<u8> = Vec::new();
        if parts.len() as u64 > resp::MAX_ARRAY_LEN as u64 {
            // No parser takes a command of so many parts.
            return out;
        }
        let mut raw: Vec<u8> = Vec::new();
        wire::write_array(&mut raw, parts);
        let ghost all = arguments::arg_list(parts@);
        proof {
            assert(parts@.map_values(|p: &[u8]| p@) =~= all);
            assert(raw@ =~= wire::array_of(all));
            assert(out@ =~= Seq::<u8>::empty());
            steps::lemma_args(parts@);
            wire::lemma_part_lengths(all);
            wire::encoded_commands_are_read_back(all, Seq::empty());
            assert(wire::array_of(all) + Seq::empty() =~= raw@);
        }
        match arguments::parse_ranges(raw.as_slice()) {
            Some(slices) => {
                let args: Vec<&[u8]> = arguments::borrow_args(raw.as_slice(), &slices);
                assert(arguments::arg_list(args@) == all);
                let _action: Action = self.dispatch(
                    shared,
                    now_ms,
                    raw.as_slice(),
                    args.as_slice(),
                    &mut out,
                );
            },
            None => {
                assert(false);
            },
        }
        out
    }

    /// End the session: what it holds is given back.
    pub fn close<D: Device, M: Device>(&mut self, shared: &mut Shared<D, M>)
        requires
            old(shared).inv(),
            old(self).inv(old(shared)),
            steps::at_rest(World { shared: *old(shared), sess: old(self)@ }),
        ensures
            final(shared).inv(),
            *final(shared) == (Shared { store: final(shared).store, ..*old(shared) }),
            final(shared).store.newest_same(&old(shared).store),
            final(shared).store.same_settings(&old(shared).store),
            final(shared).store.index == old(shared).store.index,
            final(shared).store.index.latches_free(),
            !epoch::owns(final(shared).store.log@.slots, old(self)@.thread),
            old(shared).store.whole() ==> final(shared).store.whole(),
    {
        proof {
            reveal(RespSession::inv);
            reveal(Shared::inv);
        }
        self.store.close(&mut shared.store);
    }

    // -- replay support (used by log recovery) ---------------------------------

    /// Dispatch a command during replay with the logged timestamp.
    pub fn dispatch_replay<D: Device, M: Device>(
        &mut self,
        shared: &mut Shared<D, M>,
        raw: &[u8],
        args: &[&[u8]],
        ts: i64,
        out: &mut Vec<u8>,
    )
        requires
            old(shared).inv(),
            old(self).inv(old(shared)),
            steps::at_rest(World { shared: *old(shared), sess: old(self)@ }),
            raw@.len() <= u32::MAX,
            args@.len() >= 1,
        ensures
            final(shared).inv(),
            final(self).inv(final(shared)),
            steps::command_step(
                steps::step(
                    *old(shared),
                    SessView { now: ts, ..old(self)@ },
                    old(out)@,
                    *final(shared),
                    final(self)@,
                    final(out)@,
                ),
                raw@,
                arguments::arg_list(args@),
            ),
            steps::at_rest(World { shared: *final(shared), sess: final(self)@ }),
            final(self)@.replay == old(self)@.replay,
            final(self)@.thread == old(self)@.thread,
            steps::same_frame(old(shared), final(shared)),
    {
        proof {
            reveal(RespSession::inv);
        }
        self.now_ms = ts;
        let _action: Action = self.exec_command(shared, raw, args, out);
    }

    pub fn replay_multi_begin<D: Device, M: Device>(&mut self, _shared: &Shared<D, M>, ts: i64)
        requires
            old(self).inv(_shared),
        ensures
            final(self).inv(_shared),
            final(self)@ == (SessView {
                now: ts,
                in_multi: true,
                dirty: false,
                queued: Seq::empty(),
                ..old(self)@
            }),
    {
        self.now_ms = ts;
        self.txn.in_multi = true;
        self.txn.dirty = false;
        self.txn.queued.clear();
        proof {
            reveal(RespSession::inv);
            assert(self@.queued =~= Seq::empty());
        }
    }

    pub fn replay_multi_exec<D: Device, M: Device>(
        &mut self,
        shared: &mut Shared<D, M>,
        out: &mut Vec<u8>,
    )
        requires
            old(shared).inv(),
            old(self).inv(old(shared)),
            steps::at_rest(World { shared: *old(shared), sess: old(self)@ }),
        ensures
            final(shared).inv(),
            final(self).inv(final(shared)),
            steps::exec_step(
                steps::step(
                    *old(shared),
                    old(self)@,
                    old(out)@,
                    *final(shared),
                    final(self)@,
                    final(out)@,
                ),
            ),
            steps::at_rest(World { shared: *final(shared), sess: final(self)@ }),
            final(self)@.replay == old(self)@.replay,
            final(self)@.thread == old(self)@.thread,
            steps::same_frame(old(shared), final(shared)),
    {
        self.cmd_exec(shared, out);
    }
}

} // verus!
