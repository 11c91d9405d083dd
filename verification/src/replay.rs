//! What the operation log is for: replaying it brings back what every key
//! holds.
use crate::aof;
use crate::aof::{AofOp, AofView, EntryView};
use crate::arguments;
use crate::arguments::Kind;
use crate::device::Device;
use crate::functions;
use crate::functions::{InputView, OutView, StringOp};
use crate::laws;
use crate::recovery;
use crate::resp;
use crate::shared;
use crate::steps;
use crate::steps::{SessView, Step, World};
use crate::store::{Status, Store};
use vstd::prelude::*;
use vstd::wrapping::i64_specs;

verus! {

// ---------------------------------------------------------------------------
// What a command makes of a key
// ---------------------------------------------------------------------------

/// What is left of a value at `now`.
pub open spec fn aged(w: Option<(Seq<u8>, i64)>, now: i64) -> Option<(Seq<u8>, i64)> {
    match w {
        Some(x) => laws::alive(x.0, x.1, now),
        None => None,
    }
}

pub open spec fn no_output() -> OutView {
    OutView { bytes: Seq::empty(), has_bytes: false, int: 0, has_int: false }
}

/// What an update leaves of a key that was seen to hold `w`.
pub open spec fn left(w: Option<(Seq<u8>, i64)>, input: InputView) -> Option<(Seq<u8>, i64)> {
    laws::effect(w, input, no_output()).holds
}

/// SETEX, PSETEX as an update.
pub open spec fn timed_set(args: Seq<Seq<u8>>, now: i64, ms: bool) -> Option<InputView> {
    match resp::argument_int(args[2]) {
        Some(t) if t > 0 => Some(
            InputView {
                operand: args[3],
                expiration: i64_specs::wrapping_add(
                    now,
                    if ms {
                        t as i64
                    } else {
                        i64_specs::wrapping_mul(t as i64, 1000)
                    },
                ),
                ..functions::bare_input(StringOp::SetPlain, now)
            },
        ),
        _ => None,
    }
}

/// INCR and the like as an update.
pub open spec fn increment(delta: i64, now: i64) -> InputView {
    InputView { delta, ..functions::bare_input(StringOp::IncrBy, now) }
}

/// EXPIRE and the like as an update.
pub open spec fn timed_expire(args: Seq<Seq<u8>>, now: i64, unit: i64, at: bool) -> Option<InputView> {
    match resp::argument_int(args[2]) {
        None => None,
        Some(t) => {
            let d = i64_specs::wrapping_mul(t as i64, unit);
            Some(
                InputView {
                    expiration: if at {
                        d
                    } else {
                        i64_specs::wrapping_add(now, d)
                    },
                    ..functions::bare_input(StringOp::Expire, now)
                },
            )
        },
    }
}

/// The update of its first argument that a command is, if it is one.
pub open spec fn update_of(kind: Kind, args: Seq<Seq<u8>>, now: i64) -> Option<InputView> {
    match kind {
        Kind::SetKey => if args.len() < 3 {
            None
        } else {
            match arguments::set_options_from(args, 3, arguments::no_options(), now) {
                Err(_) => None,
                Ok(o) => Some(
                    InputView {
                        op: steps::set_op(o),
                        operand: args[2],
                        delta: 0,
                        expiration: o.expiration,
                        now_ms: now,
                    },
                ),
            }
        },
        Kind::SetNx => Some(
            InputView { operand: args[2], ..functions::bare_input(StringOp::SetNx, now) },
        ),
        Kind::SetEx => timed_set(args, now, false),
        Kind::PSetEx => timed_set(args, now, true),
        Kind::GetSet => Some(
            InputView {
                operand: args[2],
                ..functions::bare_input(StringOp::SetGet { keep_ttl: false }, now)
            },
        ),
        Kind::GetDel => Some(functions::bare_input(StringOp::GetDel, now)),
        Kind::GetEx => if args.len() == 2 {
            None
        } else {
            match arguments::getex_from(args, 2, 0, now) {
                Err(_) => None,
                Ok(expiration) => Some(
                    InputView { expiration, ..functions::bare_input(StringOp::GetEx, now) },
                ),
            }
        },
        Kind::Append => Some(
            InputView { operand: args[2], ..functions::bare_input(StringOp::Append, now) },
        ),
        Kind::SetRange => match resp::argument_int(args[2]) {
            Some(t) if t >= 0 => Some(
                InputView {
                    operand: args[3],
                    ..functions::bare_input(
                        StringOp::SetRange { offset: steps::offset_of(t) },
                        now,
                    )
                },
            ),
            _ => None,
        },
        Kind::Incr => Some(increment(1, now)),
        Kind::Decr => Some(increment((-1) as i64, now)),
        Kind::IncrBy => match resp::argument_int(args[2]) {
            Some(d) => Some(increment(d as i64, now)),
            None => None,
        },
        Kind::DecrBy => match resp::argument_int(args[2]) {
            Some(d) => Some(increment(i64_specs::wrapping_sub(0, d as i64), now)),
            None => None,
        },
        Kind::Expire => timed_expire(args, now, 1000, false),
        Kind::PExpire => timed_expire(args, now, 1, false),
        Kind::ExpireAt => timed_expire(args, now, 1000, true),
        Kind::PExpireAt => timed_expire(args, now, 1, true),
        Kind::Persist => Some(functions::bare_input(StringOp::Persist, now)),
        _ => None,
    }
}

/// What a command that runs at `now` leaves of a key that was seen to hold `w`.
pub open spec fn after(
    kind: Kind,
    args: Seq<Seq<u8>>,
    now: i64,
    key: Seq<u8>,
    w: Option<(Seq<u8>, i64)>,
) -> Option<(Seq<u8>, i64)> {
    match kind {
        Kind::Flush => None,
        Kind::MSet => match laws::last_value(args, (args.len() - 1) / 2, key) {
            Some(v) => Some((v, 0)),
            None => w,
        },
        Kind::Del => if laws::named(args, args.len() - 1, key) {
            None
        } else {
            w
        },
        _ => match update_of(kind, args, now) {
            Some(input) => if key == args[1] {
                left(w, input)
            } else {
                w
            },
            None => w,
        },
    }
}

/// The kind of a command.
pub open spec fn kind_of(args: Seq<Seq<u8>>) -> Kind {
    arguments::kind_of(arguments::name_of(args[0]), args.len() as int)
}

/// Every argument can be addressed.
pub open spec fn addressable(args: Seq<Seq<u8>>) -> bool {
    forall|i: int| 0 <= i < args.len() ==> (#[trigger] args[i]).len() <= usize::MAX
}

/// The operation log gets one entry for the command, or nothing is changed that
/// can be seen.
pub open spec fn logs_what_it_changes<D: Device, M: Device>(s: Step<D, M>, raw: Seq<u8>) -> bool {
    !s.a.sess.replay ==> (shared::aof_view(s.a.shared.aof) matches Some(a) ==> {
        ||| shared::aof_view(s.b.shared.aof) == Some(a.with(command_entry(s.now(), raw)))
        ||| shared::aof_view(s.b.shared.aof) == Some(a) && same_keys(
            &s.a.shared.store,
            &s.b.shared.store,
            s.now(),
        )
    })
}

/// Nothing is queued, and the clock and the mode of the session stay.
pub open spec fn carries_on(a: SessView, b: SessView) -> bool {
    &&& b.queued == a.queued || b.queued.len() == 0
    &&& b.now == a.now
    &&& b.replay == a.replay
}

/// The same is seen of every key at `now`.
pub open spec fn same_keys<D: Device>(a: &Store<D>, b: &Store<D>, now: i64) -> bool {
    forall|k: Seq<u8>| #[trigger] laws::seen(b.get(k), now) == laws::seen(a.get(k), now)
}

pub open spec fn command_entry(now: i64, raw: Seq<u8>) -> EntryView {
    EntryView { op: AofOp::Command, timestamp_ms: now, payload: raw }
}

/// What a command leaves, as far as it can be seen.
pub open spec fn leaves<D: Device, M: Device>(s: Step<D, M>, kind: Kind, args: Seq<Seq<u8>>) -> bool {
    forall|k: Seq<u8>| #[trigger]
        laws::seen(s.b.shared.store.get(k), s.now()) == after(
            kind,
            args,
            s.now(),
            k,
            laws::seen(s.a.shared.store.get(k), s.now()),
        )
}

/// Updates: what they leave, and that they are logged unless refused.
proof fn lemma_update<D: Device, M: Device>(s: Step<D, M>, key: Seq<u8>, input: InputView, raw: Seq<u8>)
    requires
        s.a.shared.store.inv(),
        s.a.shared.store.reliable(),
        laws::undisturbed(s),
        laws::is_update(input.op),
        input.operand.len() <= usize::MAX,
        input.now_ms == s.now(),
    ensures
        forall|
            s0: OutView,
            f: spec_fn(Status, OutView) -> Seq<u8>,
            g: spec_fn(Status, OutView) -> bool,
        | #[trigger]
            s.rmws(s0, key, input, raw, f, g) && (forall|st: Status, v: OutView| #[trigger]
                g(st, v) == (if input.op is Persist {
                    st.updated() && v.has_int && v.int == 1
                } else if input.op is GetDel {
                    st is Deleted
                } else {
                    st.updated()
                })) ==> {
                &&& forall|k: Seq<u8>| k != key ==> #[trigger] s.b.shared.store.get(k)
                    == s.a.shared.store.get(k)
                &&& laws::seen(s.b.shared.store.get(key), s.now()) == left(
                    laws::seen(s.a.shared.store.get(key), s.now()),
                    input,
                )
                &&& carries_on(s.a.sess, s.b.sess)
                &&& logs_what_it_changes(s, raw)
            },
{
    reveal(steps::rmw_ran);
    reveal(steps::logged);
    let o = s.a.shared.store;
    let n = s.b.shared.store;
    laws::entries_are_well_formed(&o, key);
    assert forall|
        s0: OutView,
        f: spec_fn(Status, OutView) -> Seq<u8>,
        g: spec_fn(Status, OutView) -> bool,
    | #[trigger] s.rmws(s0, key, input, raw, f, g) && (forall|st: Status, v: OutView| #[trigger]
        g(st, v) == (if input.op is Persist {
            st.updated() && v.has_int && v.int == 1
        } else if input.op is GetDel {
            st is Deleted
        } else {
            st.updated()
        })) implies {
        &&& forall|k: Seq<u8>| k != key ==> #[trigger] n.get(k) == o.get(k)
        &&& laws::seen(n.get(key), s.now()) == left(laws::seen(o.get(key), s.now()), input)
        &&& carries_on(s.a.sess, s.b.sess)
        &&& logs_what_it_changes(s, raw)
    } by {
        let w = laws::seen(o.get(key), s.now());
        laws::updates_depend_on_what_is_seen(o.get(key), o.mutable(key), key, input, s0);
        assert(laws::effect(w, input, s0).holds == laws::effect(w, input, no_output()).holds);
        let st = choose|st: Status| #[trigger]
            steps::rmw_ran(
                &o,
                &n,
                SessView { scratch: s0, ..s.a.sess },
                s.b.sess,
                key,
                input,
                st,
            ) && s.says(f(st, s.b.sess.scratch)) && steps::logged(
                &s.a.shared,
                &s.b.shared,
                s.a.sess,
                g(st, s.b.sess.scratch),
                key,
                raw,
            );
        let e = laws::effect(w, input, s0);
        assert(st.updated() == e.updated && (st is Deleted) == e.deleted);
        if !g(st, s.b.sess.scratch) {
            assert(!e.updated);
            assert(laws::seen(n.get(key), s.now()) == w);
            assert(same_keys(&o, &n, s.now())) by {
                assert forall|k: Seq<u8>| #[trigger] laws::seen(n.get(k), s.now()) == laws::seen(
                    o.get(k),
                    s.now(),
                ) by {
                    if k != key {
                        assert(n.get(k) == o.get(k));
                    }
                }
            }
        }
    }
}

/// Blind writes.
proof fn lemma_write<D: Device, M: Device>(s: Step<D, M>, key: Seq<u8>, input: InputView, raw: Seq<u8>)
    requires
        s.a.shared.store.inv(),
        laws::undisturbed(s),
        input.op is SetPlain,
        input.operand.len() <= usize::MAX,
        input.now_ms == s.now(),
    ensures
        forall|reply: Seq<u8>, g: spec_fn(Status) -> bool| #[trigger]
            s.upserts(key, input, raw, reply, g) && (forall|st: Status| #[trigger] g(st)
                == st.updated()) ==> {
                &&& forall|k: Seq<u8>| k != key ==> #[trigger] s.b.shared.store.get(k)
                    == s.a.shared.store.get(k)
                &&& laws::seen(s.b.shared.store.get(key), s.now()) == left(
                    laws::seen(s.a.shared.store.get(key), s.now()),
                    input,
                )
                &&& carries_on(s.a.sess, s.b.sess)
                &&& logs_what_it_changes(s, raw)
            },
{
    reveal(steps::upsert_ran);
    reveal(steps::logged);
    let o = s.a.shared.store;
    laws::entries_are_well_formed(&o, key);
    laws::a_blind_write_holds_what_it_brought(o.get(key), o.mutable(key), key, input);
    if s.b.shared.store.inv() {
        laws::entries_are_well_formed(&s.b.shared.store, key);
    }
}

/// Reads change nothing.
proof fn lemma_read<D: Device, M: Device>(s: Step<D, M>, key: Seq<u8>)
    ensures
        forall|input: InputView, f: spec_fn(Status, OutView) -> Seq<u8>| #[trigger]
            s.reads(key, input, f) ==> {
                &&& forall|k: Seq<u8>| #[trigger] s.b.shared.store.get(k) == s.a.shared.store.get(k)
                &&& carries_on(s.a.sess, s.b.sess)
                &&& s.b.sess.queued == s.a.sess.queued
                &&& s.b.shared.aof == s.a.shared.aof
            },
{
    reveal(steps::read_ran);
}

/// Nor does a chain of them.
proof fn lemma_gets<D: Device, M: Device>(
    ws: Seq<World<D, M>>,
    outs: Seq<Seq<u8>>,
    n: int,
    args: Seq<Seq<u8>>,
    j: int,
)
    requires
        steps::chained(ws, outs, n, steps::mget_item(args)),
        0 <= j <= n,
    ensures
        forall|k: Seq<u8>| #[trigger] ws[j].shared.store.get(k) == ws[0].shared.store.get(k),
        carries_on(ws[0].sess, ws[j].sess),
        ws[j].shared.aof == ws[0].shared.aof,
    decreases j,
{
    if j > 0 {
        lemma_gets(ws, outs, n, args, j - 1);
        let st = steps::link(ws, outs, j - 1);
        let f = steps::mget_item::<D, M>(args);
        assert(f(j - 1, st));
        assert(steps::get_step(st, args[j]));
        lemma_read(st, args[j]);
        assert forall|k: Seq<u8>| #[trigger] ws[j].shared.store.get(k) == ws[0].shared.store.get(k) by {
            assert(ws[j - 1].shared.store.get(k) == ws[0].shared.store.get(k));
        }
    }
}

proof fn lemma_looks<D: Device, M: Device>(
    ws: Seq<World<D, M>>,
    ss: Seq<Status>,
    args: Seq<Seq<u8>>,
    n: int,
    j: int,
)
    requires
        steps::readings(ws, ss, args, n),
        0 <= j <= n,
    ensures
        forall|k: Seq<u8>| #[trigger] ws[j].shared.store.get(k) == ws[0].shared.store.get(k),
        carries_on(ws[0].sess, ws[j].sess),
        ws[j].shared.aof == ws[0].shared.aof,
    decreases j,
{
    if j > 0 {
        lemma_looks(ws, ss, args, n, j - 1);
        assert(steps::reading_at(ws, ss, args, j - 1));
        reveal(steps::read_ran);
        assert forall|k: Seq<u8>| #[trigger] ws[j].shared.store.get(k) == ws[0].shared.store.get(k) by {
            assert(ws[j - 1].shared.store.get(k) == ws[0].shared.store.get(k));
        }
    }
}

/// The session and the operation log while MSET writes its pairs.
proof fn lemma_pairs<D: Device, M: Device>(
    ws: Seq<World<D, M>>,
    outs: Seq<Seq<u8>>,
    n: int,
    args: Seq<Seq<u8>>,
    j: int,
)
    requires
        steps::chained(ws, outs, n, steps::mset_item(args)),
        0 <= j <= n,
    ensures
        carries_on(ws[0].sess, ws[j].sess),
        ws[j].shared.aof == ws[0].shared.aof,
    decreases j,
{
    if j > 0 {
        lemma_pairs(ws, outs, n, args, j - 1);
        let st = steps::link(ws, outs, j - 1);
        let f = steps::mset_item::<D, M>(args);
        assert(f(j - 1, st));
        reveal(steps::upsert_ran);
    }
}

/// The session and the operation log while DEL removes its keys.
proof fn lemma_removals<D: Device, M: Device>(
    ws: Seq<World<D, M>>,
    ss: Seq<Status>,
    args: Seq<Seq<u8>>,
    n: int,
    j: int,
)
    requires
        steps::deletions(ws, ss, args, n),
        0 <= j <= n,
    ensures
        carries_on(ws[0].sess, ws[j].sess),
        ws[j].shared.aof == ws[0].shared.aof,
        steps::tally(ss.subrange(0, j), Status::Deleted) == 0 ==> forall|k: Seq<u8>| #[trigger]
            ws[j].shared.store.get(k) == ws[0].shared.store.get(k),
    decreases j,
{
    if j > 0 {
        lemma_removals(ws, ss, args, n, j - 1);
        assert(steps::deletion_at(ws, ss, args, j - 1));
        reveal(steps::delete_ran);
        assert(ss.subrange(0, j).drop_last() =~= ss.subrange(0, j - 1));
        if steps::tally(ss.subrange(0, j), Status::Deleted) == 0 {
            assert forall|k: Seq<u8>| #[trigger] ws[j].shared.store.get(k)
                == ws[0].shared.store.get(k) by {
                assert(ws[j - 1].shared.store.get(k) == ws[0].shared.store.get(k));
            }
        }
    }
}

proof fn lemma_mset<D: Device, M: Device>(s: Step<D, M>, raw: Seq<u8>, args: Seq<Seq<u8>>)
    requires
        s.a.shared.store.inv(),
        laws::undisturbed(s),
        addressable(args),
        args.len() >= 3,
        args.len() % 2 == 1,
        steps::mset_step(s, raw, args),
    ensures
        leaves(s, Kind::MSet, args),
        carries_on(s.a.sess, s.b.sess),
        logs_what_it_changes(s, raw),
{
    let n = (args.len() - 1) / 2;
    let mid = choose|mid: World<D, M>| #[trigger] steps::mset_ran(s, mid, raw, args);
    let t = Step { b: mid, out1: s.out0, ..s };
    let f = steps::mset_item::<D, M>(args);
    let (ws, outs) = choose|ws: Seq<World<D, M>>, outs: Seq<Seq<u8>>| #[trigger]
        steps::chained(ws, outs, n, f) && ws[0] == t.a && ws[n] == t.b && outs[0] == t.out0
            && outs[n] == t.out1;
    lemma_pairs(ws, outs, n, args, n);
    assert forall|k: Seq<u8>| #[trigger] laws::seen(s.b.shared.store.get(k), s.now()) == after(
        Kind::MSet,
        args,
        s.now(),
        k,
        laws::seen(s.a.shared.store.get(k), s.now()),
    ) by {
        laws::mset_writes_every_pair(s, raw, args, k);
    }
}

proof fn lemma_del<D: Device, M: Device>(s: Step<D, M>, raw: Seq<u8>, args: Seq<Seq<u8>>)
    requires
        s.a.shared.store.inv(),
        s.b.shared.store.reliable(),
        laws::undisturbed(s),
        args.len() >= 2,
        steps::del_step(s, raw, args),
    ensures
        leaves(s, Kind::Del, args),
        carries_on(s.a.sess, s.b.sess),
        logs_what_it_changes(s, raw),
{
    let n = args.len() - 1;
    let (ws, ss) = choose|ws: Seq<World<D, M>>, ss: Seq<Status>| #[trigger]
        steps::deletions(ws, ss, args, n) && ws[0] == s.a && s.says(
            resp::integer_reply(steps::tally(ss, Status::Deleted) as int),
        ) && if steps::tally(ss, Status::Deleted) > 0 {
            steps::enters(ws[n], s.b, AofOp::Command, raw)
        } else {
            s.b == ws[n]
        };
    lemma_removals(ws, ss, args, n, n);
    assert(ss.subrange(0, n) =~= ss);
    assert forall|k: Seq<u8>| #[trigger] laws::seen(s.b.shared.store.get(k), s.now()) == after(
        Kind::Del,
        args,
        s.now(),
        k,
        laws::seen(s.a.shared.store.get(k), s.now()),
    ) by {
        laws::del_removes_every_key(s, raw, args, k);
    }
}

/// How many arguments some commands have.
proof fn lemma_arity(args: Seq<Seq<u8>>)
    ensures
        kind_of(args) is MSet ==> args.len() >= 3 && args.len() % 2 == 1,
        kind_of(args) is Del || kind_of(args) is Exists || kind_of(args) is MGet ==> args.len() >= 2,
{
}

/// A command whose only effect on keys is to leave them.
proof fn lemma_neutral<D: Device, M: Device>(s: Step<D, M>, kind: Kind, raw: Seq<u8>, args: Seq<Seq<u8>>)
    requires
        steps::plain_step(s, kind, raw, args),
        !steps::is_string(kind) && !steps::is_generic(kind) && !(kind is Flush) && !(kind is Exec),
    ensures
        forall|k: Seq<u8>| #[trigger] s.b.shared.store.get(k) == s.a.shared.store.get(k),
        carries_on(s.a.sess, s.b.sess),
        !(kind is Save) ==> s.b.shared.aof == s.a.shared.aof,
{
}

/// A command leaves of each key what its kind, its arguments and its clock make
/// of what was seen of that key before, whatever the rest of the store; and it
/// is entered in the operation log unless nothing changed that can be seen.
#[verifier::spinoff_prover]
#[verifier::rlimit(60)]
pub proof fn a_command_leaves_what_it_says<D: Device, M: Device>(
    s: Step<D, M>,
    raw: Seq<u8>,
    args: Seq<Seq<u8>>,
)
    requires
        s.a.shared.store.inv(),
        s.a.shared.store.reliable(),
        s.b.shared.store.reliable(),
        args.len() > 0,
        addressable(args),
        !(kind_of(args) is Exec),
        steps::plain_step(s, kind_of(args), raw, args),
        laws::undisturbed(s),
    ensures
        leaves(s, kind_of(args), args),
        carries_on(s.a.sess, s.b.sess),
        !(kind_of(args) is Save) ==> logs_what_it_changes(s, raw),
{
    let kind = kind_of(args);
    lemma_arity(args);
    let o = s.a.shared.store;
    let n = s.b.shared.store;
    match kind {
        Kind::MSet => {
            lemma_mset(s, raw, args);
        },
        Kind::Del => {
            lemma_del(s, raw, args);
        },
        Kind::MGet => {
            let t = Step { out0: s.out0 + resp::array_header(args.len() - 1), ..s };
            let f = steps::mget_item::<D, M>(args);
            let (ws, outs) = choose|ws: Seq<World<D, M>>, outs: Seq<Seq<u8>>| #[trigger]
                steps::chained(ws, outs, args.len() - 1, f) && ws[0] == t.a && ws[args.len() - 1]
                    == t.b && outs[0] == t.out0 && outs[args.len() - 1] == t.out1;
            lemma_gets(ws, outs, args.len() - 1, args, args.len() - 1);
            assert(forall|k: Seq<u8>| #[trigger] n.get(k) == o.get(k));
        },
        Kind::Exists => {
            let (ws, ss) = choose|ws: Seq<World<D, M>>, ss: Seq<Status>| #[trigger]
                steps::readings(ws, ss, args, args.len() - 1) && ws[0] == s.a && ws[args.len() - 1]
                    == s.b && s.says(
                    resp::integer_reply(steps::tally(ss, Status::Found) as int),
                );
            lemma_looks(ws, ss, args, args.len() - 1, args.len() - 1);
            assert(forall|k: Seq<u8>| #[trigger] n.get(k) == o.get(k));
        },
        Kind::Flush => {},
        _ => {
            if steps::is_string(kind) || steps::is_generic(kind) {
                lemma_read(s, args[1]);
                if let Some(input) = update_of(kind, args, s.now()) {
                    lemma_update(s, args[1], input, raw);
                    if input.op is SetPlain {
                        lemma_write(s, args[1], input, raw);
                    }
                    assert forall|k: Seq<u8>| #[trigger] laws::seen(n.get(k), s.now()) == after(
                        kind,
                        args,
                        s.now(),
                        k,
                        laws::seen(o.get(k), s.now()),
                    ) by {
                        if k != args[1] {
                            assert(n.get(k) == o.get(k));
                        }
                    }
                } else {
                    assert(forall|k: Seq<u8>| #[trigger] n.get(k) == o.get(k));
                }
            } else {
                lemma_neutral(s, kind, raw, args);
            }
        },
    }
}

/// A logged command that is replayed with its clock, on a store that holds the
/// same values and expirations, leaves the same values and expirations.
pub proof fn a_replayed_command_does_the_same<D: Device, M: Device>(
    s: Step<D, M>,
    t: Step<D, M>,
    raw: Seq<u8>,
    args: Seq<Seq<u8>>,
)
    requires
        s.a.shared.store.inv() && t.a.shared.store.inv(),
        s.a.shared.store.reliable() && t.a.shared.store.reliable(),
        s.b.shared.store.reliable() && t.b.shared.store.reliable(),
        args.len() > 0,
        addressable(args),
        !(kind_of(args) is Exec),
        steps::command_step(s, raw, args),
        steps::command_step(t, raw, args),
        laws::undisturbed(s) && laws::undisturbed(t),
        t.now() == s.now(),
        same_keys(&s.a.shared.store, &t.a.shared.store, s.now()),
    ensures
        same_keys(&s.b.shared.store, &t.b.shared.store, s.now()),
{
    a_command_leaves_what_it_says(s, raw, args);
    a_command_leaves_what_it_says(t, raw, args);
    let now = s.now();
    assert forall|k: Seq<u8>| #[trigger] laws::seen(t.b.shared.store.get(k), now) == laws::seen(
        s.b.shared.store.get(k),
        now,
    ) by {
        assert(laws::seen(t.a.shared.store.get(k), now) == laws::seen(s.a.shared.store.get(k), now));
    }
}

// ---------------------------------------------------------------------------
// What a log makes of a key
// ---------------------------------------------------------------------------

/// The command in a payload, if there is one.
pub open spec fn args_in(payload: Seq<u8>) -> Option<Seq<Seq<u8>>> {
    match arguments::queued_args(payload) {
        Some(args) if args.len() > 0 => Some(args),
        _ => None,
    }
}

/// What an entry makes of a key that holds `w`.
pub open spec fn after_entry(
    e: EntryView,
    key: Seq<u8>,
    w: Option<(Seq<u8>, i64)>,
) -> Option<(Seq<u8>, i64)> {
    if e.op is Command {
        match args_in(e.payload) {
            Some(args) => after(
                kind_of(args),
                args,
                e.timestamp_ms,
                key,
                aged(w, e.timestamp_ms),
            ),
            None => w,
        }
    } else {
        w
    }
}

/// What a log makes of a key that holds `w`.
pub open spec fn after_log(
    es: Seq<EntryView>,
    key: Seq<u8>,
    w: Option<(Seq<u8>, i64)>,
) -> Option<(Seq<u8>, i64)>
    decreases es.len(),
{
    if es.len() == 0 {
        w
    } else {
        after_entry(es.last(), key, after_log(es.drop_last(), key, w))
    }
}

/// The store holds, from `now` on, what a log has made of what `o` held at `t0`.
pub open spec fn caught_up<D: Device>(
    o: &Store<D>,
    t0: i64,
    es: Seq<EntryView>,
    n: &Store<D>,
    now: i64,
) -> bool {
    forall|k: Seq<u8>, t: i64|
        now <= t ==> #[trigger] laws::seen(n.get(k), t) == aged(
            after_log(es, k, laws::seen(o.get(k), t0)),
            t,
        )
}

/// Entries of commands that can be replayed, at times that do not run back.
pub open spec fn in_order(es: Seq<EntryView>, from: i64, to: i64) -> bool {
    &&& forall|i: int| 0 <= i < es.len() ==> from <= (#[trigger] es[i]).timestamp_ms <= to
    &&& forall|i: int, j: int|
        0 <= i < j < es.len() ==> (#[trigger] es[i]).timestamp_ms <= (#[trigger] es[j]).timestamp_ms
    &&& forall|i: int|
        0 <= i < es.len() && (#[trigger] es[i]).op is Command ==> (args_in(es[i].payload) matches Some(
            args,
        ) ==> addressable(args) && !(kind_of(args) is Exec))
}

/// Time only takes away what has expired.
proof fn lemma_aged<D: Device>(store: &Store<D>, key: Seq<u8>, now: i64, t: i64)
    requires
        store.inv(),
        now <= t,
    ensures
        laws::seen(store.get(key), t) == aged(laws::seen(store.get(key), now), t),
{
    laws::entries_are_well_formed(store, key);
}

/// A step at `now` that leaves of each key what an entry makes of it.
proof fn lemma_entry<D: Device>(
    o: &Store<D>,
    t0: i64,
    es: Seq<EntryView>,
    a: &Store<D>,
    b: &Store<D>,
    e: EntryView,
    before: i64,
)
    requires
        caught_up(o, t0, es, a, before),
        before <= e.timestamp_ms,
        b.inv(),
        forall|k: Seq<u8>| #[trigger]
            laws::seen(b.get(k), e.timestamp_ms) == after_entry(
                e,
                k,
                laws::seen(a.get(k), e.timestamp_ms),
            ),
    ensures
        caught_up(o, t0, es.push(e), b, e.timestamp_ms),
{
    let now = e.timestamp_ms;
    assert(es.push(e).drop_last() =~= es);
    assert forall|k: Seq<u8>, t: i64| now <= t implies #[trigger] laws::seen(b.get(k), t) == aged(
        after_log(es.push(e), k, laws::seen(o.get(k), t0)),
        t,
    ) by {
        lemma_aged(b, k, now, t);
        let w = after_log(es, k, laws::seen(o.get(k), t0));
        assert(laws::seen(a.get(k), now) == aged(w, now));
        assert(laws::seen(b.get(k), now) == after_entry(e, k, aged(w, now)));
        assert(aged(aged(w, now), t) == aged(w, t));
        assert(aged(after_entry(e, k, aged(w, now)), t) == aged(after_entry(e, k, w), t));
    }
}

/// A step at `now` that leaves all keys.
proof fn lemma_stays<D: Device>(
    o: &Store<D>,
    t0: i64,
    es: Seq<EntryView>,
    a: &Store<D>,
    b: &Store<D>,
    before: i64,
    now: i64,
)
    requires
        caught_up(o, t0, es, a, before),
        before <= now,
        a.inv(),
        b.inv(),
        same_keys(a, b, now),
    ensures
        caught_up(o, t0, es, b, now),
{
    assert forall|k: Seq<u8>, t: i64| now <= t implies #[trigger] laws::seen(b.get(k), t) == aged(
        after_log(es, k, laws::seen(o.get(k), t0)),
        t,
    ) by {
        lemma_aged(b, k, now, t);
        lemma_aged(a, k, now, t);
        assert(laws::seen(b.get(k), now) == laws::seen(a.get(k), now));
    }
}

// ---------------------------------------------------------------------------
// A replayed log
// ---------------------------------------------------------------------------

/// The states in which a log is replayed: none of the replayed operations gave
/// up, and the device can be relied on.
pub open spec fn goes_well<D: Device, M: Device>(ws: Seq<World<D, M>>) -> bool {
    forall|i: int|
        0 <= i < ws.len() ==> (#[trigger] ws[i]).shared.store.inv() && ws[i].shared.store.reliable()
            && ws[i].sess.failures == ws[0].sess.failures
}

/// The end of a bracket changes no key: a log holds the commands themselves.
proof fn lemma_bracket<D: Device, M: Device>(a: World<D, M>, b: World<D, M>)
    requires
        recovery::bracket_closed(a, b),
        a.sess.replay,
        a.sess.queued.len() == 0,
    ensures
        b.shared.store == a.shared.store,
        b.sess.replay,
        b.sess.queued.len() == 0,
{
    let (out0, out1) = choose|out0: Seq<u8>, out1: Seq<u8>| #[trigger]
        recovery::bracket_ended(a, b, out0, out1);
    let s = Step { a, b, out0, out1 };
    if a.sess.in_multi && !a.sess.dirty && !steps::conflict(a.shared.watch@, a.sess.watches) {
        let (w1, w2) = choose|w1: World<D, M>, w2: World<D, M>| #[trigger]
            steps::executed(s, w1, w2);
        let f = steps::queued_item::<D, M>(a.sess.queued);
        let t = Step { a: w1, b: w2, out0: out0 + resp::array_header(0), out1 };
        assert(t.repeats(0, f));
    }
}

/// A command does what is said of it, whatever that is.
#[verifier::opaque]
spec fn obeys<D: Device, M: Device>(s: Step<D, M>, raw: Seq<u8>, args: Seq<Seq<u8>>) -> bool {
    steps::command_step(s, raw, args)
}

/// An entry is replayed, whatever it is.
#[verifier::opaque]
spec fn went<D: Device, M: Device>(a: World<D, M>, b: World<D, M>, e: EntryView, inside: bool) -> bool {
    recovery::entry_replayed(a, b, e, inside)
}

proof fn lemma_obeyed<D: Device, M: Device>(s: Step<D, M>, raw: Seq<u8>, args: Seq<Seq<u8>>)
    requires
        s.a.shared.store.inv(),
        s.a.shared.store.reliable(),
        s.b.shared.store.reliable(),
        args.len() > 0,
        addressable(args),
        !(kind_of(args) is Exec),
        obeys(s, raw, args),
        laws::undisturbed(s),
    ensures
        leaves(s, kind_of(args), args),
        carries_on(s.a.sess, s.b.sess),
{
    reveal(obeys);
    a_command_leaves_what_it_says(s, raw, args);
}

proof fn lemma_ran<D: Device, M: Device>(
    a: World<D, M>,
    b: World<D, M>,
    e: EntryView,
    inside: bool,
) -> (r: (Seq<u8>, Seq<u8>))
    requires
        went(a, b, e, inside),
        e.op is Command,
        args_in(e.payload) is Some,
    ensures
        obeys(
            Step { a: recovery::clocked(a, e.timestamp_ms), b, out0: r.0, out1: r.1 },
            e.payload,
            args_in(e.payload).unwrap(),
        ),
{
    reveal(obeys);
    reveal(went);
    choose|out0: Seq<u8>, out1: Seq<u8>| #[trigger]
        recovery::command_ran(
            recovery::clocked(a, e.timestamp_ms),
            b,
            e.payload,
            args_in(e.payload).unwrap(),
            out0,
            out1,
        )
}

/// An entry that holds no command leaves all keys.
proof fn lemma_passed_over<D: Device, M: Device>(
    a: World<D, M>,
    b: World<D, M>,
    e: EntryView,
    inside: bool,
)
    requires
        went(a, b, e, inside),
        !(e.op is Command && args_in(e.payload) is Some),
        a.sess.replay,
        a.sess.queued.len() == 0,
    ensures
        b.shared.store == a.shared.store,
        b.sess.replay,
        b.sess.queued.len() == 0,
{
    reveal(went);
    if e.op is TxnCommit && inside {
        lemma_bracket(a, b);
    }
}

/// An entry that holds a command makes of every key what it says.
proof fn lemma_replayed<D: Device, M: Device>(
    a: World<D, M>,
    b: World<D, M>,
    e: EntryView,
    inside: bool,
)
    requires
        went(a, b, e, inside),
        e.op is Command,
        args_in(e.payload) matches Some(args) && addressable(args) && !(kind_of(args) is Exec),
        a.shared.store.inv(),
        a.shared.store.reliable(),
        b.shared.store.reliable(),
        a.sess.replay,
        a.sess.queued.len() == 0,
        a.sess.failures == b.sess.failures,
    ensures
        b.sess.replay,
        b.sess.queued.len() == 0,
        forall|k: Seq<u8>| #[trigger]
            laws::seen(b.shared.store.get(k), e.timestamp_ms) == after_entry(
                e,
                k,
                laws::seen(a.shared.store.get(k), e.timestamp_ms),
            ),
{
    let now = e.timestamp_ms;
    let c = recovery::clocked(a, now);
    let args = args_in(e.payload).unwrap();
    let (out0, out1) = lemma_ran(a, b, e, inside);
    let s = Step { a: c, b, out0, out1 };
    lemma_obeyed(s, e.payload, args);
    assert forall|k: Seq<u8>| #[trigger] laws::seen(b.shared.store.get(k), now) == after_entry(
        e,
        k,
        laws::seen(a.shared.store.get(k), now),
    ) by {
        laws::entries_are_well_formed(&a.shared.store, k);
        let w = laws::seen(a.shared.store.get(k), now);
        assert(aged(w, now) == w);
    }
}

/// Replaying a log makes of every key what the log says.
pub proof fn replay_does_what_the_log_says<D: Device, M: Device>(
    ws: Seq<World<D, M>>,
    es: Seq<EntryView>,
    n: int,
    t0: i64,
    to: i64,
)
    requires
        0 <= n <= es.len(),
        recovery::replay_chain(ws, es, es.len() as int),
        goes_well(ws),
        ws[0].sess.replay,
        ws[0].sess.queued.len() == 0,
        in_order(es, t0, to),
    ensures
        ws[n].sess.replay,
        ws[n].sess.queued.len() == 0,
        caught_up(
            &ws[0].shared.store,
            t0,
            es.take(n),
            &ws[n].shared.store,
            if n == 0 {
                t0
            } else {
                es[n - 1].timestamp_ms
            },
        ),
    decreases n,
{
    let o = ws[0].shared.store;
    if n == 0 {
        assert forall|k: Seq<u8>, t: i64| t0 <= t implies #[trigger] laws::seen(o.get(k), t) == aged(
            after_log(es.take(0), k, laws::seen(o.get(k), t0)),
            t,
        ) by {
            lemma_aged(&o, k, t0, t);
        }
    } else {
        let i = n - 1;
        replay_does_what_the_log_says(ws, es, i, t0, to);
        let a = ws[i];
        let b = ws[n];
        let e = es[i];
        let inside = recovery::inside_at(es, i);
        assert(went(a, b, e, inside)) by {
            reveal(went);
            assert(recovery::replayed_at(ws, es, i));
        }
        let now = e.timestamp_ms;
        let before = if i == 0 {
            t0
        } else {
            es[i - 1].timestamp_ms
        };
        assert(before <= now);
        assert(es.take(n) =~= es.take(i).push(e));
        assert(a.shared.store.inv() && b.shared.store.inv());
        assert(a.sess.failures == b.sess.failures);
        if e.op is Command && args_in(e.payload) is Some {
            lemma_replayed(a, b, e, inside);
        } else {
            lemma_passed_over(a, b, e, inside);
        }
        lemma_entry(&o, t0, es.take(i), &a.shared.store, &b.shared.store, e, before);
    }
}

// ---------------------------------------------------------------------------
// A run that is logged
// ---------------------------------------------------------------------------

/// What happens next on a server that keeps an operation log.
pub enum Event {
    /// A command runs, by itself or inside EXEC.
    Ran { raw: Seq<u8>, args: Seq<Seq<u8>>, out0: Seq<u8>, out1: Seq<u8> },
    /// The latches of a transaction are taken.
    Began,
    /// They are given back.
    Over,
    /// Anything that leaves the shared state: another session, another time, a
    /// command that is queued, a transaction that is refused.
    Between,
}

pub open spec fn happens<D: Device, M: Device>(a: World<D, M>, b: World<D, M>, v: Event) -> bool {
    match v {
        Event::Ran { raw, args, out0, out1 } => {
            &&& args_in(raw) == Some(args)
            &&& addressable(args)
            &&& !(kind_of(args) is Exec)
            &&& steps::plain_step(Step { a, b, out0, out1 }, kind_of(args), raw, args)
            &&& b.sess.failures == a.sess.failures
        },
        Event::Began => steps::begun(a, b),
        Event::Over => steps::ended(a, b),
        Event::Between => b.shared == a.shared,
    }
}

/// What it adds to the operation log.
pub open spec fn entries_of<D: Device, M: Device>(a: World<D, M>, b: World<D, M>, v: Event) -> Seq<
    EntryView,
> {
    let now = a.sess.now;
    match v {
        Event::Ran { raw, args, .. } => if kind_of(args) is Save || shared::aof_view(b.shared.aof)
            == shared::aof_view(a.shared.aof) {
            Seq::empty()
        } else {
            seq![command_entry(now, raw)]
        },
        Event::Began => seq![
            EntryView { op: AofOp::TxnStart, timestamp_ms: now, payload: Seq::empty() },
        ],
        Event::Over => seq![
            EntryView { op: AofOp::TxnCommit, timestamp_ms: now, payload: Seq::empty() },
        ],
        Event::Between => Seq::empty(),
    }
}

/// All that the first `n` events add to the operation log.
pub open spec fn log_of<D: Device, M: Device>(ws: Seq<World<D, M>>, vs: Seq<Event>, n: int) -> Seq<
    EntryView,
>
    decreases n,
{
    if n <= 0 {
        Seq::empty()
    } else {
        log_of(ws, vs, n - 1) + entries_of(ws[n - 1], ws[n], vs[n - 1])
    }
}

/// A run of a server on a device that can be relied on, by a clock that does not
/// run back.
pub open spec fn serves<D: Device, M: Device>(ws: Seq<World<D, M>>, vs: Seq<Event>) -> bool {
    &&& ws.len() == vs.len() + 1
    &&& forall|i: int| 0 <= i < vs.len() ==> #[trigger] happens(ws[i], ws[i + 1], vs[i])
    &&& forall|i: int|
        0 <= i < ws.len() ==> (#[trigger] ws[i]).shared.store.inv() && ws[i].shared.store.reliable()
    &&& forall|i: int, j: int|
        0 <= i <= j < ws.len() ==> (#[trigger] ws[i]).sess.now <= (#[trigger] ws[j]).sess.now
}

/// Such a run of a server that keeps an operation log.
pub open spec fn runs<D: Device, M: Device>(ws: Seq<World<D, M>>, vs: Seq<Event>) -> bool {
    &&& serves(ws, vs)
    &&& forall|i: int|
        0 <= i < ws.len() ==> (#[trigger] ws[i]).shared.aof is Some && !ws[i].sess.replay
}

proof fn lemma_frames_one(e: EntryView)
    ensures
        aof::frames(seq![e]) == aof::frame(e),
        aof::frame(e).len() > 0,
{
    assert(seq![e].drop_first() =~= Seq::<EntryView>::empty());
    assert(aof::frames(Seq::<EntryView>::empty()) =~= Seq::<u8>::empty());
    assert(aof::frames(seq![e]) =~= aof::frame(e));
}

/// Each event adds to the buffer of the operation log the frames of its
/// entries, and nothing else. (A checkpoint empties the log.)
pub proof fn every_event_is_logged<D: Device, M: Device>(a: World<D, M>, b: World<D, M>, v: Event)
    requires
        happens(a, b, v),
        a.shared.store.inv() && a.shared.store.reliable() && b.shared.store.reliable(),
        a.shared.aof is Some,
        !a.sess.replay,
        v matches Event::Ran { args, .. } ==> !(kind_of(args) is Save),
    ensures
        shared::aof_view(b.shared.aof) == Some(
            AofView {
                buf: shared::aof_view(a.shared.aof).unwrap().buf + aof::frames(entries_of(a, b, v)),
                ..shared::aof_view(a.shared.aof).unwrap()
            },
        ),
{
    let x = shared::aof_view(a.shared.aof).unwrap();
    assert(x.buf + Seq::<u8>::empty() =~= x.buf);
    match v {
        Event::Ran { raw, args, out0, out1 } => {
            a_command_leaves_what_it_says(Step { a, b, out0, out1 }, raw, args);
            lemma_frames_one(command_entry(a.sess.now, raw));
        },
        Event::Began => {
            lemma_frames_one(
                EntryView { op: AofOp::TxnStart, timestamp_ms: a.sess.now, payload: Seq::empty() },
            );
        },
        Event::Over => {
            lemma_frames_one(
                EntryView { op: AofOp::TxnCommit, timestamp_ms: a.sess.now, payload: Seq::empty() },
            );
        },
        Event::Between => {},
    }
}

/// One event.
proof fn lemma_event<D: Device, M: Device>(
    o: &Store<D>,
    t0: i64,
    es: Seq<EntryView>,
    a: World<D, M>,
    b: World<D, M>,
    v: Event,
    before: i64,
)
    requires
        happens(a, b, v),
        a.shared.store.inv() && b.shared.store.inv(),
        a.shared.store.reliable() && b.shared.store.reliable(),
        a.shared.aof is Some,
        !a.sess.replay,
        caught_up(o, t0, es, &a.shared.store, before),
        before <= a.sess.now,
    ensures
        caught_up(o, t0, es + entries_of(a, b, v), &b.shared.store, a.sess.now),
{
    let now = a.sess.now;
    let x = shared::aof_view(a.shared.aof).unwrap();
    assert(es + Seq::<EntryView>::empty() =~= es);
    match v {
        Event::Ran { raw, args, out0, out1 } => {
            let s = Step { a, b, out0, out1 };
            let e = command_entry(now, raw);
            a_command_leaves_what_it_says(s, raw, args);
            lemma_frames_one(e);
            if entries_of(a, b, v).len() == 0 {
                if kind_of(args) is Save {
                    assert forall|k: Seq<u8>| #[trigger] laws::seen(b.shared.store.get(k), now)
                        == laws::seen(a.shared.store.get(k), now) by {}
                } else {
                    assert(x.with(e) != x) by {
                        assert(x.with(e).buf.len() > x.buf.len());
                    }
                }
                lemma_stays(o, t0, es, &a.shared.store, &b.shared.store, before, now);
            } else {
                assert forall|k: Seq<u8>| #[trigger] laws::seen(b.shared.store.get(k), now)
                    == after_entry(e, k, laws::seen(a.shared.store.get(k), now)) by {
                    laws::entries_are_well_formed(&a.shared.store, k);
                    let w = laws::seen(a.shared.store.get(k), now);
                    assert(aged(w, now) == w);
                }
                lemma_entry(o, t0, es, &a.shared.store, &b.shared.store, e, before);
                assert(es + seq![e] =~= es.push(e));
            }
        },
        Event::Between => {
            lemma_stays(o, t0, es, &a.shared.store, &b.shared.store, before, now);
        },
        _ => {
            let e = entries_of(a, b, v)[0];
            assert forall|k: Seq<u8>| #[trigger] laws::seen(b.shared.store.get(k), now) == after_entry(
                e,
                k,
                laws::seen(a.shared.store.get(k), now),
            ) by {
                assert(b.shared.store.get(k) == a.shared.store.get(k));
            }
            lemma_entry(o, t0, es, &a.shared.store, &b.shared.store, e, before);
            assert(es + seq![e] =~= es.push(e));
        },
    }
}

/// A run makes of every key what its log says, and its log can be replayed.
pub proof fn a_run_does_what_its_log_says<D: Device, M: Device>(
    ws: Seq<World<D, M>>,
    vs: Seq<Event>,
    n: int,
)
    requires
        runs(ws, vs),
        0 <= n <= vs.len(),
    ensures
        caught_up(
            &ws[0].shared.store,
            ws[0].sess.now,
            log_of(ws, vs, n),
            &ws[n].shared.store,
            ws[n].sess.now,
        ),
        in_order(log_of(ws, vs, n), ws[0].sess.now, ws[n].sess.now),
    decreases n,
{
    let o = ws[0].shared.store;
    let t0 = ws[0].sess.now;
    if n == 0 {
        assert forall|k: Seq<u8>, t: i64| t0 <= t implies #[trigger] laws::seen(o.get(k), t) == aged(
            after_log(Seq::empty(), k, laws::seen(o.get(k), t0)),
            t,
        ) by {
            lemma_aged(&o, k, t0, t);
        }
    } else {
        let i = n - 1;
        a_run_does_what_its_log_says(ws, vs, i);
        let a = ws[i];
        let b = ws[n];
        let es = log_of(ws, vs, i);
        let new = entries_of(a, b, vs[i]);
        assert(happens(ws[i], ws[i + 1], vs[i]));
        lemma_event(&o, t0, es, a, b, vs[i], a.sess.now);
        assert(a.sess.now <= b.sess.now);
        assert(caught_up(&o, t0, es + new, &b.shared.store, b.sess.now));
        assert(t0 <= a.sess.now);
    }
}

/// Replaying the operation log of a run, from a store that holds what the run
/// began with, brings back the value and the expiration that every key held at
/// the end of the run.
pub proof fn replay_brings_back_every_key<D: Device, M: Device>(
    ws: Seq<World<D, M>>,
    vs: Seq<Event>,
    rs: Seq<World<D, M>>,
    end: World<D, M>,
    now: i64,
)
    requires
        runs(ws, vs),
        recovery::replay_chain(rs, log_of(ws, vs, vs.len() as int), rs.len() - 1),
        rs.len() - 1 == log_of(ws, vs, vs.len() as int).len(),
        goes_well(rs),
        rs[0].sess.replay,
        rs[0].sess.queued.len() == 0,
        same_keys(&ws[0].shared.store, &rs[0].shared.store, ws[0].sess.now),
        if recovery::inside_at(log_of(ws, vs, vs.len() as int), rs.len() - 1) {
            recovery::bracket_closed(rs.last(), end)
        } else {
            end == rs.last()
        },
        ws.last().sess.now <= now,
    ensures
        same_keys(&ws.last().shared.store, &end.shared.store, now),
{
    let n = vs.len() as int;
    let es = log_of(ws, vs, n);
    let t0 = ws[0].sess.now;
    let m = es.len() as int;
    a_run_does_what_its_log_says(ws, vs, n);
    replay_does_what_the_log_says(rs, es, m, t0, ws[n].sess.now);
    if recovery::inside_at(es, m) {
        lemma_bracket(rs[m], end);
    }
    assert(es.take(m) =~= es);
    assert(t0 <= ws[n].sess.now);
    assert forall|k: Seq<u8>| #[trigger] laws::seen(end.shared.store.get(k), now) == laws::seen(
        ws.last().shared.store.get(k),
        now,
    ) by {
        assert(laws::seen(rs[0].shared.store.get(k), t0) == laws::seen(ws[0].shared.store.get(k), t0));
        assert(laws::seen(rs[m].shared.store.get(k), now) == aged(
            after_log(es, k, laws::seen(rs[0].shared.store.get(k), t0)),
            now,
        ));
        assert(laws::seen(ws[n].shared.store.get(k), now) == aged(
            after_log(es, k, laws::seen(ws[0].shared.store.get(k), t0)),
            now,
        ));
    }
}

// ---------------------------------------------------------------------------
// A key among others
// ---------------------------------------------------------------------------

/// Whether a command leaves a key as it is, whatever it holds.
pub open spec fn spares(v: Event, key: Seq<u8>) -> bool {
    v matches Event::Ran { args, .. } ==> forall|now: i64, w: Option<(Seq<u8>, i64)>| #[trigger]
        after(kind_of(args), args, now, key, w) == w
}

/// A key keeps its value and its expiration through any run of commands on
/// other keys.
pub proof fn a_key_outlasts_other_commands<D: Device, M: Device>(
    ws: Seq<World<D, M>>,
    vs: Seq<Event>,
    key: Seq<u8>,
    n: int,
    t: i64,
)
    requires
        serves(ws, vs),
        0 <= n <= vs.len(),
        forall|i: int| 0 <= i < vs.len() ==> #[trigger] spares(vs[i], key),
        ws[n].sess.now <= t,
    ensures
        laws::seen(ws[n].shared.store.get(key), t) == laws::seen(ws[0].shared.store.get(key), t),
    decreases n,
{
    if n > 0 {
        let i = n - 1;
        let a = ws[i];
        let b = ws[n];
        let now = a.sess.now;
        assert(now <= b.sess.now);
        a_key_outlasts_other_commands(ws, vs, key, i, t);
        assert(happens(ws[i], ws[i + 1], vs[i]));
        assert(spares(vs[i], key));
        match vs[i] {
            Event::Ran { raw, args, out0, out1 } => {
                a_command_leaves_what_it_says(Step { a, b, out0, out1 }, raw, args);
                lemma_aged(&a.shared.store, key, now, t);
                lemma_aged(&b.shared.store, key, now, t);
                let w = laws::seen(a.shared.store.get(key), now);
                assert(after(kind_of(args), args, now, key, w) == w);
            },
            _ => {
                assert(b.shared.store.get(key) == a.shared.store.get(key));
            },
        }
    }
}

/// GET gives back what SET wrote, whatever commands on other keys came between.
pub proof fn what_is_set_is_read_later<D: Device, M: Device>(
    s: Step<D, M>,
    ws: Seq<World<D, M>>,
    vs: Seq<Event>,
    t: Step<D, M>,
    raw: Seq<u8>,
    args: Seq<Seq<u8>>,
)
    requires
        s.a.shared.store.inv(),
        args.len() == 3,
        args[2].len() <= usize::MAX,
        steps::set_step(s, raw, args),
        laws::undisturbed(s),
        serves(ws, vs),
        ws[0].shared == s.b.shared,
        forall|i: int| 0 <= i < vs.len() ==> #[trigger] spares(vs[i], args[1]),
        t.a.shared == ws.last().shared,
        ws.last().sess.now <= t.now(),
        steps::get_step(t, args[1]),
        laws::undisturbed(t),
    ensures
        t.says(resp::bulk_reply(args[2])),
{
    reveal(steps::upsert_ran);
    reveal(steps::read_ran);
    let key = args[1];
    let now = t.now();
    let o = s.a.shared.store;
    laws::entries_are_well_formed(&o, key);
    let input = InputView {
        op: StringOp::SetPlain,
        operand: args[2],
        delta: 0,
        expiration: 0,
        now_ms: s.now(),
    };
    assert(arguments::set_options_from(args, 3, arguments::no_options(), s.now()) == Ok::<
        _,
        arguments::OptionError,
    >(arguments::no_options()));
    laws::a_blind_write_holds_what_it_brought(o.get(key), o.mutable(key), key, input);
    a_key_outlasts_other_commands(ws, vs, key, vs.len() as int, now);
    assert(laws::seen(ws[0].shared.store.get(key), now) == Some((args[2], 0i64)));
    let n = t.a.shared.store;
    laws::entries_are_well_formed(&n, key);
    laws::live_keys_are_read(n.get(key).unwrap(), now, t.a.sess.scratch);
}

} // verus!
