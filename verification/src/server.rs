//! The network layer: a single receive buffer handed straight to the parser, a
//! batch of pipelined commands processed in place, and one flush of the send
//! buffer per batch.
//!
//! Partial commands: whole commands only are consumed; the leftover tail is
//! compacted to the front of the receive buffer, and the buffer is grown if a
//! single command does not fit. Sockets and threads are someone else's: they
//! bring received bytes in and carry replies out.
use crate::arguments;
use crate::bytes;
use crate::commands::{Action, RespSession};
use crate::device::Device;
use crate::meaning;
use crate::resp;
use crate::resp::{ArgSlice, Outcome};
use crate::shared::Shared;
use crate::steps;
use crate::steps::{Step, World};
use vstd::prelude::*;
use vstd::slice::slice_subrange;

verus! {

/// Connections that can be served at once. The epoch table has as many rows,
/// and each session owns one: a session past that could make no progress.
pub const DEFAULT_MAX_CLIENTS: usize = 128;

pub const INITIAL_RECV: usize = 0x1_0000;

pub const MAX_RECV: usize = 0x2000_0000;

/// What a connection past the limit is told before it is closed.
pub const REFUSAL: &'static str = "-ERR max number of clients reached\r\n";

// ---------------------------------------------------------------------------
// Admission
// ---------------------------------------------------------------------------

/// How many connections are open, and how many may be.
pub struct Admission {
    active: usize,
    limit: usize,
}

impl Admission {
    pub closed spec fn active(&self) -> nat {
        self.active as nat
    }

    pub closed spec fn limit(&self) -> nat {
        self.limit as nat
    }

    pub fn new(limit: usize) -> (r: Self)
        ensures
            r.active() == 0,
            r.limit() == limit,
    {
        Admission { active: 0, limit }
    }

    /// Count a connection in, unless the limit is reached.
    pub fn enter(&mut self) -> (r: bool)
        ensures
            r == (old(self).active() < old(self).limit()),
            final(self).limit() == old(self).limit(),
            final(self).active() == old(self).active() + (if r {
                1nat
            } else {
                0nat
            }),
    {
        if self.active < self.limit {
            self.active += 1;
            true
        } else {
            false
        }
    }

    /// A connection that was counted in is gone: its place can be used again.
    pub fn leave(&mut self)
        requires
            old(self).active() > 0,
        ensures
            final(self).limit() == old(self).limit(),
            final(self).active() == old(self).active() - 1,
    {
        self.active -= 1;
    }
}

// ---------------------------------------------------------------------------
// One batch
// ---------------------------------------------------------------------------

/// The arguments of the command that starts at `p`.
pub open spec fn args_at(buf: Seq<u8>, p: int) -> Seq<Seq<u8>> {
    resp::command_at(buf, p).args.map_values(|r: (int, int)| buf.subrange(r.0, r.1))
}

pub open spec fn quits(args: Seq<Seq<u8>>) -> bool {
    args.len() > 0 && arguments::kind_of(arguments::name_of(args[0]), args.len() as int) is Quit
}

/// Command `i` of a batch: it stands at `ps[i]`, up to `ps[i + 1]`.
pub open spec fn served_at<D: Device, M: Device>(
    buf: Seq<u8>,
    now: i64,
    ws: Seq<World<D, M>>,
    outs: Seq<Seq<u8>>,
    ps: Seq<int>,
    i: int,
) -> bool {
    &&& resp::command_at(buf, ps[i]).outcome == Outcome::Done(ps[i + 1])
    &&& steps::dispatch_step(
        steps::link(ws, outs, i),
        now,
        buf.subrange(ps[i], ps[i + 1]),
        args_at(buf, ps[i]),
    )
}

/// The first `n` commands of a batch, one after the other; only the last may
/// quit.
pub open spec fn served<D: Device, M: Device>(
    buf: Seq<u8>,
    now: i64,
    ws: Seq<World<D, M>>,
    outs: Seq<Seq<u8>>,
    ps: Seq<int>,
    n: int,
) -> bool {
    &&& ws.len() == n + 1
    &&& outs.len() == n + 1
    &&& ps.len() == n + 1
    &&& ps[0] == 0
    &&& forall|i: int| 0 <= i < n ==> #[trigger] served_at(buf, now, ws, outs, ps, i)
    &&& forall|i: int| 0 <= i < n - 1 ==> !quits(args_at(buf, #[trigger] ps[i]))
}

/// How a batch ends after `n` commands: with QUIT, where bytes are missing, or
/// with bytes that are not RESP.
pub open spec fn batch_end(
    buf: Seq<u8>,
    ps: Seq<int>,
    n: int,
    out: Seq<u8>,
    out1: Seq<u8>,
    close: bool,
) -> bool {
    if n > 0 && quits(args_at(buf, ps[n - 1])) {
        close && out1 == out
    } else {
        match resp::command_at(buf, ps[n]).outcome {
            Outcome::Done(_) => false,
            Outcome::Incomplete => !close && out1 == out,
            Outcome::Bad(_) => close && out1 == out + resp::error_reply(
                bytes::text("ERR Protocol error"),
            ),
        }
    }
}

/// Every complete command of a batch is served, in order: `consumed` bytes of
/// it, and whether the connection is to be closed.
pub open spec fn batch_step<D: Device, M: Device>(
    s: Step<D, M>,
    now: i64,
    buf: Seq<u8>,
    consumed: int,
    close: bool,
) -> bool {
    exists|ws: Seq<World<D, M>>, outs: Seq<Seq<u8>>, ps: Seq<int>, n: int| #[trigger]
        served(buf, now, ws, outs, ps, n) && n >= 0 && ws[0] == s.a && ws[n] == s.b && outs[0]
            == s.out0 && ps[n] == consumed && batch_end(buf, ps, n, outs[n], s.out1, close)
}

/// Process every complete command in `buf`: answers how many bytes were
/// consumed and whether the connection is to be closed.
pub fn process_batch<D: Device, M: Device>(
    session: &mut RespSession,
    shared: &mut Shared<D, M>,
    now_ms: i64,
    buf: &[u8],
    send: &mut Vec<u8>,
) -> (r: (usize, bool))
    requires
        old(shared).inv(),
        old(session).inv(old(shared)),
        steps::at_rest(World { shared: *old(shared), sess: old(session)@ }),
        buf@.len() <= u32::MAX,
    ensures
        final(shared).inv(),
        final(session).inv(final(shared)),
        steps::at_rest(World { shared: *final(shared), sess: final(session)@ }),
        steps::same_frame(old(shared), final(shared)),
        r.0 <= buf@.len(),
        batch_step(
            steps::step(
                *old(shared),
                old(session)@,
                old(send)@,
                *final(shared),
                final(session)@,
                final(send)@,
            ),
            now_ms,
            buf@,
            r.0 as int,
            r.1,
        ),
{
    let ghost a = World { shared: *shared, sess: session@ };
    let ghost mut ws: Seq<World<D, M>> = seq![a];
    let ghost mut outs: Seq<Seq<u8>> = seq![send@];
    let ghost mut ps: Seq<int> = seq![0int];
    let ghost mut n: int = 0;
    let mut read_head: usize = 0;
    let mut slices: Vec<ArgSlice> = Vec::new();
    loop
        invariant
            shared.inv(),
            session.inv(shared),
            steps::at_rest(World { shared: *shared, sess: session@ }),
            buf@.len() <= u32::MAX,
            read_head <= buf@.len(),
            n >= 0,
            served(buf@, now_ms, ws, outs, ps, n),
            ws[0] == a,
            a == (World { shared: *old(shared), sess: old(session)@ }),
            steps::same_frame(old(shared), shared),
            ws[n] == (World { shared: *shared, sess: session@ }),
            outs[0] == old(send)@,
            outs[n] == send@,
            ps[n] == read_head,
            n > 0 ==> !quits(args_at(buf@, ps[n - 1])),
        decreases buf@.len() - read_head,
    {
        match resp::parse_command(buf, read_head, &mut slices) {
            Ok(Some(next)) => {
                let argv: Vec<&[u8]> = arguments::borrow_args(buf, &slices);
                let raw: &[u8] = slice_subrange(buf, read_head, next);
                let ghost w = ws[n];
                let ghost before = send@;
                let ghost (ws0, outs0, ps0) = (ws, outs, ps);
                let action: Action = session.dispatch(shared, now_ms, raw, argv.as_slice(), send);
                proof {
                    let w1 = World { shared: *shared, sess: session@ };
                    ws = ws.push(w1);
                    outs = outs.push(send@);
                    ps = ps.push(next as int);
                    assert(args_at(buf@, ps0[n]) == arguments::arg_list(argv@));
                    assert forall|i: int| 0 <= i < n + 1 implies #[trigger] served_at(
                        buf@,
                        now_ms,
                        ws,
                        outs,
                        ps,
                        i,
                    ) by {
                        if i < n {
                            assert(served_at(buf@, now_ms, ws0, outs0, ps0, i));
                            assert(steps::link(ws, outs, i) == steps::link(ws0, outs0, i));
                        } else {
                            assert(steps::link(ws, outs, i) == (Step {
                                a: w,
                                b: w1,
                                out0: before,
                                out1: send@,
                            }));
                        }
                    }
                    assert forall|i: int| 0 <= i < n implies !quits(
                        args_at(buf@, #[trigger] ps[i]),
                    ) by {
                        assert(ps[i] == ps0[i]);
                        if i == n - 1 {
                            assert(!quits(args_at(buf@, ps0[n - 1])));
                        }
                    }
                    n = n + 1;
                    assert(ps[n - 1] == ps0[n - 1]);
                    assert(argv@.len() > 0 ==> arguments::arg_list(argv@)[0] == argv@[0]@);
                }
                read_head = next;
                if action == Action::Close {
                    assert(served(buf@, now_ms, ws, outs, ps, n));
                    assert(batch_end(buf@, ps, n, outs[n], send@, true));
                    return (read_head, true);
                }
            },
            Ok(None) => {
                // Incomplete: wait for more bytes.
                assert(served(buf@, now_ms, ws, outs, ps, n));
                assert(batch_end(buf@, ps, n, outs[n], send@, false));
                return (read_head, false);
            },
            Err(_) => {
                resp::write_error(send, "ERR Protocol error");
                assert(served(buf@, now_ms, ws, outs, ps, n));
                assert(batch_end(buf@, ps, n, outs[n], send@, true));
                return (read_head, true);
            },
        }
    }
}

// ---------------------------------------------------------------------------
// Receive buffer
// ---------------------------------------------------------------------------

/// A single command does not fit the largest buffer.
#[derive(Clone, Copy, Debug, PartialEq, Eq, Structural)]
pub enum ConnectionError {
    CommandTooLarge,
}

impl ConnectionError {
    pub fn message(&self) -> (r: &'static str)
        ensures
            r@ == "command too large"@,
    {
        "command too large"
    }
}

/// Bytes received and not yet consumed, and room for more.
pub struct ReceiveBuffer {
    data: Vec<u8>,
    /// Size of the buffer; `data` is what is filled of it.
    size: usize,
}

impl View for ReceiveBuffer {
    type V = Seq<u8>;

    closed spec fn view(&self) -> Seq<u8> {
        self.data@
    }
}

impl ReceiveBuffer {
    pub closed spec fn size(&self) -> int {
        self.size as int
    }

    pub open spec fn inv(&self) -> bool {
        self@.len() <= self.size() <= MAX_RECV && self.size() >= INITIAL_RECV
    }

    pub fn new() -> (r: Self)
        ensures
            r.inv(),
            r@ == Seq::<u8>::empty(),
            r.size() == INITIAL_RECV,
    {
        ReceiveBuffer { data: Vec::new(), size: INITIAL_RECV }
    }

    /// How many bytes can be received next. A buffer that is full (a single
    /// command larger than it) is grown first.
    pub fn room(&mut self) -> (r: Result<usize, ConnectionError>)
        requires
            old(self).inv(),
        ensures
            final(self).inv(),
            final(self)@ == old(self)@,
            r is Err <==> old(self)@.len() >= MAX_RECV,
            r is Err ==> *final(self) == *old(self),
            old(self)@.len() < old(self).size() ==> final(self).size() == old(self).size(),
            old(self)@.len() == old(self).size() && r is Ok ==> final(self).size() == (if 2 * old(
                self,
            ).size() <= MAX_RECV {
                2 * old(self).size()
            } else {
                MAX_RECV as int
            }),
            r matches Ok(n) ==> n > 0 && n == final(self).size() - final(self)@.len(),
    {
        if self.data.len() == self.size {
            if self.size >= MAX_RECV {
                return Err(ConnectionError::CommandTooLarge);
            }
            self.size = if self.size <= MAX_RECV / 2 {
                2 * self.size
            } else {
                MAX_RECV
            };
        }
        Ok(self.size - self.data.len())
    }

    /// Bytes have arrived.
    pub fn fill(&mut self, received: &[u8])
        requires
            old(self).inv(),
            old(self)@.len() + received@.len() <= old(self).size(),
        ensures
            final(self).inv(),
            final(self).size() == old(self).size(),
            final(self)@ == old(self)@ + received@,
    {
        bytes::push_all(&mut self.data, received);
    }

    pub fn filled(&self) -> (r: &[u8])
        ensures
            r@ == self@,
    {
        self.data.as_slice()
    }

    /// Compact the unconsumed tail to the front.
    pub fn consume(&mut self, read_head: usize)
        requires
            old(self).inv(),
            read_head <= old(self)@.len(),
        ensures
            final(self).inv(),
            final(self).size() == old(self).size(),
            final(self)@ == old(self)@.subrange(read_head as int, old(self)@.len() as int),
    {
        if read_head > 0 {
            let n: usize = self.data.len();
            self.data = bytes::copy_range(self.data.as_slice(), read_head, n);
        } else {
            assert(self@ =~= old(self)@.subrange(0, old(self)@.len() as int));
        }
    }
}

// ---------------------------------------------------------------------------
// Connections
// ---------------------------------------------------------------------------

/// One connection: its session, and what it received and is about to send.
pub struct Connection {
    pub session: RespSession,
    pub recv: ReceiveBuffer,
    pub send: Vec<u8>,
}

impl Connection {
    pub open spec fn inv<D: Device, M: Device>(&self, shared: &Shared<D, M>) -> bool {
        &&& self.session.inv(shared)
        &&& self.recv.inv()
        &&& steps::at_rest(World { shared: *shared, sess: self.session@ })
    }

    pub fn new<D: Device, M: Device>(shared: &mut Shared<D, M>) -> (r: Self)
        requires
            old(shared).inv(),
            old(shared).store.index.latches_free(),
        ensures
            final(shared).inv(),
            r.inv(final(shared)),
            steps::same_frame(old(shared), final(shared)),
            r.session@.thread == old(shared).store.next_thread,
            !r.session@.in_multi,
            !r.session@.replay,
            r.recv@ == Seq::<u8>::empty(),
            r.recv.size() == INITIAL_RECV,
            r.send@ == Seq::<u8>::empty(),
            final(shared).store.newest_same(&old(shared).store),
    {
        let session: RespSession = RespSession::new(shared);
        Connection { session, recv: ReceiveBuffer::new(), send: Vec::new() }
    }

    /// Bytes have arrived: process every complete command in the batch. The
    /// replies are in `send`, to be flushed once; answers whether the
    /// connection is to be closed after that.
    pub fn receive<D: Device, M: Device>(
        &mut self,
        shared: &mut Shared<D, M>,
        now_ms: i64,
        received: &[u8],
    ) -> (close: bool)
        requires
            old(shared).inv(),
            old(self).inv(old(shared)),
            old(self).recv@.len() + received@.len() <= old(self).recv.size(),
        ensures
            final(shared).inv(),
            final(self).inv(final(shared)),
            steps::same_frame(old(shared), final(shared)),
            final(self).recv.size() == old(self).recv.size(),
            ({
                let buf = old(self).recv@ + received@;
                let rest = final(self).recv@;
                &&& rest.len() <= buf.len()
                &&& rest == buf.subrange(buf.len() - rest.len(), buf.len() as int)
                &&& batch_step(
                    steps::step(
                        *old(shared),
                        old(self).session@,
                        Seq::empty(),
                        *final(shared),
                        final(self).session@,
                        final(self).send@,
                    ),
                    now_ms,
                    buf,
                    buf.len() - rest.len(),
                    close,
                )
            }),
    {
        self.recv.fill(received);
        self.send.clear();
        assert(self.send@ =~= Seq::<u8>::empty());
        let (read_head, close) = process_batch(
            &mut self.session,
            shared,
            now_ms,
            self.recv.filled(),
            &mut self.send,
        );
        self.recv.consume(read_head);
        close
    }

    /// What other connections do to the shared state leaves this one in order.
    pub proof fn others_do_not_disturb<D: Device, M: Device>(
        &self,
        o: &Shared<D, M>,
        n: &Shared<D, M>,
    )
        requires
            self.inv(o),
            steps::same_frame(o, n),
            n.store.index.latches_free(),
        ensures
            self.inv(n),
    {
        self.session.lemma_inv(&self.session, o, n);
    }
}

// ---------------------------------------------------------------------------
// What a batch is for
// ---------------------------------------------------------------------------

/// Commands of a batch were carried out one after the other: the one at `i`
/// stands from `ps[i]` to `ps[i + 1]`.
pub open spec fn carried_out<D: Device, M: Device>(
    buf: Seq<u8>,
    now: i64,
    ws: Seq<World<D, M>>,
    outs: Seq<Seq<u8>>,
    ps: Seq<int>,
) -> bool {
    &&& ws.len() >= 1
    &&& outs.len() == ws.len()
    &&& ps.len() == ws.len()
    &&& ps[0] == 0
    &&& forall|i: int| 0 <= i < ws.len() - 1 ==> #[trigger] carried_out_at(buf, now, ws, outs, ps, i)
}

pub open spec fn carried_out_at<D: Device, M: Device>(
    buf: Seq<u8>,
    now: i64,
    ws: Seq<World<D, M>>,
    outs: Seq<Seq<u8>>,
    ps: Seq<int>,
    i: int,
) -> bool {
    let p = resp::command_at(buf, ps[i]);
    &&& p.outcome == Outcome::Done(ps[i + 1])
    &&& meaning::sent(
        Step { a: ws[i], b: ws[i + 1], out0: outs[i], out1: outs[i + 1] },
        now,
        buf.subrange(ps[i], ps[i + 1]),
        p.args.map_values(|r: (int, int)| buf.subrange(r.0, r.1)),
    )
}

/// Every complete command that has arrived is carried out, in order, and its
/// reply is sent before that of the next. A connection stays open only if
/// nothing is left but the beginning of a command; it is closed after QUIT, with
/// nothing served behind it, and at bytes that are no command, with an error.
pub proof fn every_complete_command_is_carried_out<D: Device, M: Device>(
    s: Step<D, M>,
    now: i64,
    buf: Seq<u8>,
    consumed: int,
    close: bool,
)
    requires
        batch_step(s, now, buf, consumed, close),
    ensures
        exists|ws: Seq<World<D, M>>, outs: Seq<Seq<u8>>, ps: Seq<int>| #[trigger]
            carried_out(buf, now, ws, outs, ps) && ws[0] == s.a && ws.last() == s.b && outs[0] == s.out0
                && ps.last() == consumed && (!close ==> s.out1 == outs.last()) && (close ==> s.out1
                == outs.last() || s.out1 == outs.last() + resp::error_reply(
                bytes::text("ERR Protocol error"),
            )) && (close && s.out1 == outs.last() ==> ps.len() >= 2 && meaning::called(
                args_at(buf, ps[ps.len() - 2]),
                "QUIT",
            )) && (forall|i: int|
                0 <= i < ps.len() - 2 ==> !meaning::called(args_at(buf, #[trigger] ps[i]), "QUIT")),
        !close ==> resp::command_at(buf, consumed).outcome is Incomplete,
{
    let (ws, outs, ps, n) = choose|
        ws: Seq<World<D, M>>,
        outs: Seq<Seq<u8>>,
        ps: Seq<int>,
        n: int,
    | #[trigger]
        served(buf, now, ws, outs, ps, n) && n >= 0 && ws[0] == s.a && ws[n] == s.b && outs[0]
            == s.out0 && ps[n] == consumed && batch_end(buf, ps, n, outs[n], s.out1, close);
    assert forall|i: int| 0 <= i < n implies #[trigger] carried_out_at(buf, now, ws, outs, ps, i) by {
        assert(served_at(buf, now, ws, outs, ps, i));
        reveal(meaning::sent);
    }
    assert(carried_out(buf, now, ws, outs, ps));
    assert forall|p: int| quits(#[trigger] args_at(buf, p)) == meaning::called(
        args_at(buf, p),
        "QUIT",
    ) by {
        lemma_quits(args_at(buf, p));
    }
    assert(resp::error_reply(bytes::text("ERR Protocol error")).len() > 0);
    assert(s.out1 == outs[n] + resp::error_reply(bytes::text("ERR Protocol error")) ==> s.out1.len()
        != outs[n].len());
}

/// Only QUIT quits.
pub proof fn lemma_quits(args: Seq<Seq<u8>>)
    ensures
        quits(args) <==> meaning::called(args, "QUIT"),
{
    if args.len() > 0 {
        if meaning::called(args, "QUIT") {
            arguments::commands_go_by_their_names(args.len() as int);
        }
    }
}

} // verus!
