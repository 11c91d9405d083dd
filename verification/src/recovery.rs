//! Recovery on startup: the last checkpoint, then the operation log.
use crate::aof;
use crate::aof::{AofEntry, AofOp, EntryView};
use crate::arguments;
use crate::checkpoint;
use crate::checkpoint::{CheckpointError, CheckpointInfo};
use crate::commands::RespSession;
use crate::device::Device;
use crate::functions::OutView;
use crate::log;
use crate::record::RecordView;
use crate::shared::Shared;
use crate::steps;
use crate::steps::{SessView, Step, World};
use crate::store::{Phase, Store, SystemState};
use vstd::prelude::*;

verus! {

// ---------------------------------------------------------------------------
// Replaying a log
// ---------------------------------------------------------------------------

/// Entries as specifications see them.
pub open spec fn entry_list(es: Seq<AofEntry>) -> Seq<EntryView> {
    es.map_values(|e: AofEntry| e@)
}

/// Whether entry `i` stands inside a transaction bracket.
pub open spec fn inside_at(es: Seq<EntryView>, i: int) -> bool
    decreases i,
{
    if i <= 0 {
        false
    } else {
        match es[i - 1].op {
            AofOp::Command => inside_at(es, i - 1),
            AofOp::TxnStart => true,
            AofOp::TxnCommit => false,
        }
    }
}

/// The world with the clock of an entry.
pub open spec fn clocked<D: Device, M: Device>(a: World<D, M>, now: i64) -> World<D, M> {
    World { sess: SessView { now, ..a.sess }, ..a }
}

/// A logged command runs; its reply is not sent to anybody.
pub open spec fn command_ran<D: Device, M: Device>(
    a: World<D, M>,
    b: World<D, M>,
    raw: Seq<u8>,
    args: Seq<Seq<u8>>,
    out0: Seq<u8>,
    out1: Seq<u8>,
) -> bool {
    steps::command_step(Step { a, b, out0, out1 }, raw, args)
}

/// A payload that holds no whole command is passed over.
pub open spec fn command_replayed<D: Device, M: Device>(
    a: World<D, M>,
    b: World<D, M>,
    e: EntryView,
) -> bool {
    match arguments::queued_args(e.payload) {
        Some(args) if args.len() > 0 => exists|out0: Seq<u8>, out1: Seq<u8>| #[trigger]
            command_ran(clocked(a, e.timestamp_ms), b, e.payload, args, out0, out1),
        _ => b == a,
    }
}

/// The end of a bracket: whatever was queued is executed (a log holds the
/// commands themselves, so nothing is).
pub open spec fn bracket_ended<D: Device, M: Device>(
    a: World<D, M>,
    b: World<D, M>,
    out0: Seq<u8>,
    out1: Seq<u8>,
) -> bool {
    steps::exec_step(Step { a, b, out0, out1 })
}

pub open spec fn bracket_closed<D: Device, M: Device>(a: World<D, M>, b: World<D, M>) -> bool {
    exists|out0: Seq<u8>, out1: Seq<u8>| #[trigger] bracket_ended(a, b, out0, out1)
}

/// One entry is replayed.
pub open spec fn entry_replayed<D: Device, M: Device>(
    a: World<D, M>,
    b: World<D, M>,
    e: EntryView,
    inside: bool,
) -> bool {
    match e.op {
        AofOp::Command => command_replayed(a, b, e),
        AofOp::TxnStart => if inside {
            b == a
        } else {
            b == (World {
                sess: SessView {
                    now: e.timestamp_ms,
                    in_multi: true,
                    dirty: false,
                    queued: Seq::empty(),
                    ..a.sess
                },
                ..a
            })
        },
        AofOp::TxnCommit => if inside {
            bracket_closed(a, b)
        } else {
            b == a
        },
    }
}

pub open spec fn replayed_at<D: Device, M: Device>(
    ws: Seq<World<D, M>>,
    es: Seq<EntryView>,
    i: int,
) -> bool {
    entry_replayed(ws[i], ws[i + 1], es[i], inside_at(es, i))
}

/// The first `n` entries are replayed, in order.
pub open spec fn replay_chain<D: Device, M: Device>(
    ws: Seq<World<D, M>>,
    es: Seq<EntryView>,
    n: int,
) -> bool {
    &&& ws.len() == n + 1
    &&& forall|i: int| 0 <= i < n ==> #[trigger] replayed_at(ws, es, i)
}

/// A whole log is replayed; a bracket that was cut off is closed at its end.
pub open spec fn all_replayed<D: Device, M: Device>(
    a: World<D, M>,
    b: World<D, M>,
    es: Seq<EntryView>,
) -> bool {
    exists|ws: Seq<World<D, M>>| #[trigger]
        replay_chain(ws, es, es.len() as int) && ws[0] == a && if inside_at(es, es.len() as int) {
            bracket_closed(ws[es.len() as int], b)
        } else {
            b == ws[es.len() as int]
        }
}

fn replay_one<D: Device, M: Device>(
    session: &mut RespSession,
    shared: &mut Shared<D, M>,
    entry: &AofEntry,
)
    requires
        old(shared).inv(),
        old(session).inv(old(shared)),
        steps::at_rest(World { shared: *old(shared), sess: old(session)@ }),
        entry@.payload.len() <= u32::MAX,
    ensures
        final(shared).inv(),
        final(session).inv(final(shared)),
        steps::at_rest(World { shared: *final(shared), sess: final(session)@ }),
        command_replayed(
            World { shared: *old(shared), sess: old(session)@ },
            World { shared: *final(shared), sess: final(session)@ },
            entry@,
        ),
{
    let raw: &[u8] = entry.payload.as_slice();
    let mut out: Vec<u8> = Vec::new();
    match arguments::parse_ranges(raw) {
        Some(slices) => {
            let args: Vec<&[u8]> = arguments::borrow_args(raw, &slices);
            proof {
                assert(arguments::queued_args(raw@) == Some(arguments::arg_list(args@)));
            }
            if args.len() > 0 {
                let ghost a = World { shared: *shared, sess: session@ };
                let ghost out0 = out@;
                session.dispatch_replay(shared, raw, args.as_slice(), entry.timestamp_ms, &mut out);
                proof {
                    assert(command_ran(
                        clocked(a, entry@.timestamp_ms),
                        World { shared: *shared, sess: session@ },
                        raw@,
                        arguments::arg_list(args@),
                        out0,
                        out@,
                    ));
                }
            }
        },
        None => {},
    }
}

fn close_bracket<D: Device, M: Device>(session: &mut RespSession, shared: &mut Shared<D, M>)
    requires
        old(shared).inv(),
        old(session).inv(old(shared)),
        steps::at_rest(World { shared: *old(shared), sess: old(session)@ }),
    ensures
        final(shared).inv(),
        final(session).inv(final(shared)),
        steps::at_rest(World { shared: *final(shared), sess: final(session)@ }),
        bracket_closed(
            World { shared: *old(shared), sess: old(session)@ },
            World { shared: *final(shared), sess: final(session)@ },
        ),
{
    let mut out: Vec<u8> = Vec::new();
    let ghost out0 = out@;
    session.replay_multi_exec(shared, &mut out);
    proof {
        assert(bracket_ended(
            World { shared: *old(shared), sess: old(session)@ },
            World { shared: *shared, sess: session@ },
            out0,
            out@,
        ));
    }
}

/// Re-run logged commands. Bracketed ones run as a MULTI/EXEC block, so that
/// the same serial order is reproduced.
pub fn replay_entries<D: Device, M: Device>(
    session: &mut RespSession,
    shared: &mut Shared<D, M>,
    entries: &Vec<AofEntry>,
)
    requires
        old(shared).inv(),
        old(session).inv(old(shared)),
        steps::at_rest(World { shared: *old(shared), sess: old(session)@ }),
        forall|i: int| 0 <= i < entries@.len() ==> (#[trigger] entries@[i])@.payload.len() <= u32::MAX,
    ensures
        final(shared).inv(),
        final(session).inv(final(shared)),
        steps::at_rest(World { shared: *final(shared), sess: final(session)@ }),
        all_replayed(
            World { shared: *old(shared), sess: old(session)@ },
            World { shared: *final(shared), sess: final(session)@ },
            entry_list(entries@),
        ),
{
    let ghost es = entry_list(entries@);
    let ghost a = World { shared: *shared, sess: session@ };
    let ghost mut ws: Seq<World<D, M>> = seq![a];
    let mut inside: bool = false;
    let mut i: usize = 0;
    while i < entries.len()
        invariant
            i <= entries@.len(),
            es == entry_list(entries@),
            forall|i: int|
                0 <= i < entries@.len() ==> (#[trigger] entries@[i])@.payload.len() <= u32::MAX,
            shared.inv(),
            session.inv(shared),
            steps::at_rest(World { shared: *shared, sess: session@ }),
            inside == inside_at(es, i as int),
            replay_chain(ws, es, i as int),
            ws[0] == a,
            ws[i as int] == (World { shared: *shared, sess: session@ }),
        decreases entries@.len() - i,
    {
        let entry: &AofEntry = &entries[i];
        let ghost ws0 = ws;
        assert(es[i as int] == entry@);
        match entry.op {
            AofOp::Command => {
                replay_one(session, shared, entry);
            },
            AofOp::TxnStart => {
                if !inside {
                    session.replay_multi_begin(shared, entry.timestamp_ms);
                    inside = true;
                }
            },
            AofOp::TxnCommit => {
                if inside {
                    close_bracket(session, shared);
                    inside = false;
                }
            },
        }
        proof {
            let w1 = World { shared: *shared, sess: session@ };
            ws = ws.push(w1);
            assert forall|j: int| 0 <= j < i + 1 implies #[trigger] replayed_at(ws, es, j) by {
                if j < i {
                    assert(replayed_at(ws0, es, j));
                }
            }
        }
        i += 1;
    }
    if inside {
        close_bracket(session, shared);
    }
    proof {
        assert(replay_chain(ws, es, es.len() as int));
    }
}

// ---------------------------------------------------------------------------
// Startup
// ---------------------------------------------------------------------------

/// A new session that replays a log.
pub open spec fn replay_session<D: Device, M: Device>(o: &Shared<D, M>, a: World<D, M>) -> bool {
    &&& a.shared == (Shared { store: a.shared.store, ..*o })
    &&& a.shared.store == (Store { next_thread: a.shared.store.next_thread, ..o.store })
    &&& a.sess == (SessView {
        thread: o.store.next_thread,
        txn_mode: false,
        locks: Seq::empty(),
        in_multi: false,
        dirty: false,
        queued: Seq::empty(),
        watches: Seq::empty(),
        now: 0,
        replay: true,
        scratch: OutView { bytes: Seq::empty(), has_bytes: false, int: 0, has_int: false },
        failures: 0,
    })
}

/// The session is over; its keys stay.
pub open spec fn session_over<D: Device, M: Device>(b: World<D, M>, n: &Shared<D, M>) -> bool {
    &&& *n == (Shared { store: n.store, ..b.shared })
    &&& n.store.newest_same(&b.shared.store)
    &&& n.store.same_settings(&b.shared.store)
}

pub open spec fn log_ran<D: Device, M: Device>(
    o: &Shared<D, M>,
    a: World<D, M>,
    b: World<D, M>,
    n: &Shared<D, M>,
    es: Seq<EntryView>,
) -> bool {
    replay_session(o, a) && all_replayed(a, b, es) && session_over(b, n)
}

/// The operation log is replayed, if there is one and it holds anything.
pub open spec fn log_replayed<D: Device, M: Device>(
    o: &Shared<D, M>,
    n: &Shared<D, M>,
    es: Seq<EntryView>,
) -> bool {
    if o.aof is None || es.len() == 0 {
        *n == *o
    } else {
        exists|a: World<D, M>, b: World<D, M>| #[trigger] log_ran(o, a, b, n, es)
    }
}

/// The store is rebuilt from a checkpoint.
pub open spec fn rebuilt<D: Device>(o: &Store<D>, n: &Store<D>, info: CheckpointInfo) -> bool {
    &&& n.state_word == (SystemState {
        phase: Phase::Rest,
        version: (info.version + 1) as u64,
    }).packed()
    &&& n.log@.tail() == info.final_address
    &&& n.log@.dependable == o.log@.dependable
    &&& forall|recs: Map<int, RecordView>, order: Seq<int>| #[trigger]
        checkpoint::recoverable(o, info.final_address as int, recs, order)
            ==> checkpoint::is_recovered(o, n, info, recs, order)
}

/// `mid` is the state once the checkpoint, if there is one, is loaded.
pub open spec fn checkpoint_loaded<D: Device, M: Device>(
    o: &Shared<D, M>,
    mid: &Shared<D, M>,
    meta: Option<Seq<u8>>,
) -> bool {
    match meta {
        None => *mid == *o,
        Some(m) => {
            &&& *mid == (Shared { store: mid.store, ..*o })
            &&& CheckpointInfo::decoded(m) matches Ok(info) && checkpoint::has_checkpoint(
                &o.store,
                info,
            ) && rebuilt(&o.store, &mid.store, info)
        },
    }
}

pub open spec fn recovered_from<D: Device, M: Device>(
    o: &Shared<D, M>,
    mid: &Shared<D, M>,
    n: &Shared<D, M>,
    meta: Option<Seq<u8>>,
    log: Seq<u8>,
) -> bool {
    checkpoint_loaded(o, mid, meta) && log_replayed(mid, n, aof::entries(log))
}

/// The bytes of an optional file.
pub open spec fn file_bytes(f: Option<&[u8]>) -> Option<Seq<u8>> {
    match f {
        Some(b) => Some(b@),
        None => None,
    }
}

impl<D: Device, M: Device> Shared<D, M> {
    fn load_checkpoint(&mut self, meta: &[u8]) -> (r: Result<(), CheckpointError>)
        requires
            old(self).inv(),
            old(self).store.log@.pending.len() == 0,
        ensures
            CheckpointInfo::decoded(meta@) matches Err(e) ==> r == Err::<(), CheckpointError>(e)
                && *final(self) == *old(self),
            CheckpointInfo::decoded(meta@) matches Ok(info) ==> match r {
                Ok(_) => {
                    &&& final(self).inv()
                    &&& final(self).store.index.latches_free()
                    &&& checkpoint_loaded(old(self), final(self), Some(meta@))
                },
                Err(e) => {
                    ||| e is NoLog && !checkpoint::has_checkpoint(&old(self).store, info)
                    ||| e is IndexFull && checkpoint::has_checkpoint(&old(self).store, info)
                        && checkpoint::crowded(&old(self).store, info)
                    ||| e is Device && (old(self).store.log@.dependable < info.final_address || old(
                        self,
                    ).store.log@.content.len() < info.final_address)
                },
            },
    {
        proof {
            reveal(Shared::inv);
        }
        let info: CheckpointInfo = match CheckpointInfo::from_bytes(meta) {
            Ok(info) => info,
            Err(e) => {
                return Err(e);
            },
        };
        self.store.recover(&info)
    }

    /// Replay what the operation log holds.
    fn replay_log(&mut self, log: &[u8])
        requires
            old(self).inv(),
            old(self).store.index.latches_free(),
        ensures
            final(self).inv(),
            final(self).store.index.latches_free(),
            log_replayed(old(self), final(self), aof::entries(log@)),
    {
        if self.aof.is_none() {
            return;
        }
        let entries: Vec<AofEntry> = aof::replay(log);
        if entries.len() == 0 {
            return;
        }
        let ghost es = aof::entries(log@);
        let ghost o = *self;
        let mut session: RespSession = RespSession::new(self);
        let ghost fresh = session;
        session.set_replay(true);
        proof {
            session.lemma_inv(&fresh, self, self);
        }
        let ghost a = World { shared: *self, sess: session@ };
        proof {
            aof::lemma_payload_lengths(log@);
            assert(entry_list(entries@) =~= es);
            assert forall|i: int| 0 <= i < entries@.len() implies (
            #[trigger] entries@[i])@.payload.len() <= u32::MAX by {
                assert(es[i] == entries@[i]@);
            }
        }
        replay_entries(&mut session, self, &entries);
        let ghost b = World { shared: *self, sess: session@ };
        session.close(self);
        proof {
            assert(log_ran(&o, a, b, self, es));
        }
    }

    /// Recover on startup: load the last checkpoint (if any), then replay the
    /// operation log beyond it. Runs before accepting connections. `meta` holds
    /// the metadata file, if there is one, and `log` the file of the operation
    /// log.
    pub fn recover(&mut self, meta: Option<&[u8]>, log: &[u8]) -> (r: Result<(), CheckpointError>)
        requires
            old(self).inv(),
            old(self).store.index.latches_free(),
            old(self).store.log@.pending.len() == 0,
        ensures
            !old(self).persist ==> r is Ok && *final(self) == *old(self),
            old(self).persist && meta is None ==> r is Ok,
            old(self).persist && meta is Some ==> (CheckpointInfo::decoded(meta.unwrap()@) matches Err(
                e,
            ) ==> r == Err::<(), CheckpointError>(e) && *final(self) == *old(self)),
            old(self).persist && meta is Some ==> (CheckpointInfo::decoded(meta.unwrap()@) matches Ok(
                info,
            ) ==> (r matches Err(e) ==> {
                ||| e is NoLog && !checkpoint::has_checkpoint(&old(self).store, info)
                ||| e is IndexFull && checkpoint::has_checkpoint(&old(self).store, info)
                    && checkpoint::crowded(&old(self).store, info)
                ||| e is Device && (old(self).store.log@.dependable < info.final_address || old(
                    self,
                ).store.log@.content.len() < info.final_address)
            })),
            r is Ok ==> final(self).inv() && final(self).store.index.latches_free(),
            old(self).persist && r is Ok ==> exists|mid: Shared<D, M>| #[trigger]
                recovered_from(old(self), &mid, final(self), file_bytes(meta), log@),
    {
        if !self.persist {
            return Ok(());
        }
        let ghost o = *self;
        match meta {
            Some(m) => {
                match self.load_checkpoint(m) {
                    Ok(()) => {},
                    Err(e) => {
                        return Err(e);
                    },
                }
            },
            None => {},
        }
        let ghost mid = *self;
        self.replay_log(log);
        assert(recovered_from(&o, &mid, self, file_bytes(meta), log@));
        Ok(())
    }
}

} // verus!
