//! What each command is for: what it answers and what it leaves, in terms of
//! what it was given and of what the keys held before.
use crate::arguments;
use crate::arguments::Kind;
use crate::bytes;
use crate::device::Device;
use crate::functions;
use crate::functions::{InputView, OutView, StringOp};
use crate::laws;
use crate::resp;
use crate::steps;
use crate::steps::{SessView, Step, World};
use crate::store::{Status, Store};
use vstd::prelude::*;
use vstd::wrapping::i64_specs;

verus! {

// ---------------------------------------------------------------------------
// What is seen of a key, and of a command
// ---------------------------------------------------------------------------

/// At `now` the key holds `v` until `e`, or for good if `e` is 0.
pub open spec fn holds<D: Device>(store: &Store<D>, key: Seq<u8>, v: Seq<u8>, e: i64, now: i64) -> bool {
    &&& e == 0 || now < e
    &&& store.get(key) matches Some(b) && b.value() == v && b.exp == e
}

/// At `now` there is no such key, or its time is over.
pub open spec fn lacks<D: Device>(store: &Store<D>, key: Seq<u8>, now: i64) -> bool {
    store.get(key) matches Some(b) ==> b.exp != 0 && b.exp <= now
}

/// No other key is touched.
pub open spec fn only<D: Device>(o: &Store<D>, n: &Store<D>, key: Seq<u8>) -> bool {
    forall|k: Seq<u8>| k != key ==> #[trigger] n.get(k) == o.get(k)
}

/// No key is touched.
pub open spec fn no_key<D: Device>(o: &Store<D>, n: &Store<D>) -> bool {
    forall|k: Seq<u8>| #[trigger] n.get(k) == o.get(k)
}

/// A client sends a command. (To be revealed where it matters which one it is.)
#[verifier::opaque]
pub open spec fn sent<D: Device, M: Device>(
    s: Step<D, M>,
    now: i64,
    raw: Seq<u8>,
    args: Seq<Seq<u8>>,
) -> bool {
    steps::dispatch_step(s, now, raw, args)
}

/// A client sends a command outside of MULTI at the time `now`, and no operation
/// of the store gives up.
pub open spec fn asked<D: Device, M: Device>(
    s: Step<D, M>,
    now: i64,
    raw: Seq<u8>,
    args: Seq<Seq<u8>>,
) -> bool {
    &&& sent(s, now, raw, args)
    &&& args.len() > 0
    &&& forall|i: int| 0 <= i < args.len() ==> (#[trigger] args[i]).len() <= usize::MAX
    &&& !s.a.sess.in_multi
    &&& !s.a.sess.replay
    &&& s.a.shared.watch.inv()
    &&& s.a.shared.store.inv()
    &&& s.a.shared.store.reliable()
    &&& s.b.shared.store.reliable()
    &&& s.b.sess.failures == s.a.sess.failures
}

/// Whoever watches a key notices when what it holds has changed.
pub open spec fn told<D: Device, M: Device>(s: Step<D, M>, now: i64, key: Seq<u8>) -> bool {
    let slot = s.a.shared.watch.slot(key);
    ||| laws::seen(s.b.shared.store.get(key), now) == laws::seen(s.a.shared.store.get(key), now)
    ||| s.b.shared.watch@[slot] != s.a.shared.watch@[slot]
}

/// Whoever watches the key notices in any case.
pub open spec fn alarmed<D: Device, M: Device>(s: Step<D, M>, key: Seq<u8>) -> bool {
    let slot = s.a.shared.watch.slot(key);
    &&& s.b.shared.watch@[slot] != s.a.shared.watch@[slot]
    &&& s.b.shared.watch.same_slots(&s.a.shared.watch)
}

/// The command goes by this name.
pub open spec fn called(args: Seq<Seq<u8>>, name: &str) -> bool {
    args.len() > 0 && arguments::name_of(args[0]) == bytes::text(name)
}

/// Which command it is.
#[verifier::opaque]
pub open spec fn kind(args: Seq<Seq<u8>>) -> Kind {
    arguments::kind_of(arguments::name_of(args[0]), args.len() as int)
}

/// A command of this kind is carried out.
#[verifier::opaque]
pub open spec fn plain<D: Device, M: Device>(s: Step<D, M>, kind: Kind, raw: Seq<u8>, args: Seq<Seq<u8>>) -> bool {
    steps::plain_step(s, kind, raw, args)
}

pub proof fn lemma_called(args: Seq<Seq<u8>>)
    requires
        args.len() > 0,
    ensures
        called(args, "PING") ==> kind(args) == Kind::Ping,
        called(args, "ECHO") && args.len() == 2 ==> kind(args) == Kind::Echo,
        called(args, "QUIT") ==> kind(args) == Kind::Quit,
        called(args, "SELECT") ==> kind(args) == Kind::Select,
        called(args, "HELLO") ==> kind(args) == Kind::Hello,
        called(args, "COMMAND") ==> kind(args) == Kind::Command,
        called(args, "CONFIG") ==> kind(args) == Kind::Config,
        called(args, "CLIENT") ==> kind(args) == Kind::Client,
        called(args, "INFO") ==> kind(args) == Kind::Info,
        called(args, "RESET") ==> kind(args) == Kind::Reset,
        called(args, "DBSIZE") ==> kind(args) == Kind::DbSize,
        called(args, "FLUSHDB") ==> kind(args) == Kind::Flush,
        called(args, "FLUSHALL") ==> kind(args) == Kind::Flush,
        called(args, "GET") && args.len() == 2 ==> kind(args) == Kind::Get,
        called(args, "SET") ==> kind(args) == Kind::SetKey,
        called(args, "SETNX") && args.len() == 3 ==> kind(args) == Kind::SetNx,
        called(args, "SETEX") && args.len() == 4 ==> kind(args) == Kind::SetEx,
        called(args, "PSETEX") && args.len() == 4 ==> kind(args) == Kind::PSetEx,
        called(args, "GETSET") && args.len() == 3 ==> kind(args) == Kind::GetSet,
        called(args, "GETDEL") && args.len() == 2 ==> kind(args) == Kind::GetDel,
        called(args, "GETEX") && args.len() >= 2 ==> kind(args) == Kind::GetEx,
        called(args, "APPEND") && args.len() == 3 ==> kind(args) == Kind::Append,
        called(args, "STRLEN") && args.len() == 2 ==> kind(args) == Kind::StrLen,
        called(args, "GETRANGE") && args.len() == 4 ==> kind(args) == Kind::GetRange,
        called(args, "SUBSTR") && args.len() == 4 ==> kind(args) == Kind::GetRange,
        called(args, "SETRANGE") && args.len() == 4 ==> kind(args) == Kind::SetRange,
        called(args, "INCR") && args.len() == 2 ==> kind(args) == Kind::Incr,
        called(args, "DECR") && args.len() == 2 ==> kind(args) == Kind::Decr,
        called(args, "INCRBY") && args.len() == 3 ==> kind(args) == Kind::IncrBy,
        called(args, "DECRBY") && args.len() == 3 ==> kind(args) == Kind::DecrBy,
        called(args, "MSET") && args.len() >= 3 && args.len() % 2 == 1 ==> kind(args) == Kind::MSet,
        called(args, "MGET") && args.len() >= 2 ==> kind(args) == Kind::MGet,
        called(args, "DEL") && args.len() >= 2 ==> kind(args) == Kind::Del,
        called(args, "UNLINK") && args.len() >= 2 ==> kind(args) == Kind::Del,
        called(args, "EXISTS") && args.len() >= 2 ==> kind(args) == Kind::Exists,
        called(args, "EXPIRE") && args.len() == 3 ==> kind(args) == Kind::Expire,
        called(args, "PEXPIRE") && args.len() == 3 ==> kind(args) == Kind::PExpire,
        called(args, "EXPIREAT") && args.len() == 3 ==> kind(args) == Kind::ExpireAt,
        called(args, "PEXPIREAT") && args.len() == 3 ==> kind(args) == Kind::PExpireAt,
        called(args, "TTL") && args.len() == 2 ==> kind(args) == Kind::Ttl,
        called(args, "PTTL") && args.len() == 2 ==> kind(args) == Kind::PTtl,
        called(args, "PERSIST") && args.len() == 2 ==> kind(args) == Kind::Persist,
        called(args, "TYPE") && args.len() == 2 ==> kind(args) == Kind::Type,
        called(args, "KEYS") && args.len() == 2 ==> kind(args) == Kind::Keys,
        called(args, "SCAN") && args.len() >= 2 ==> kind(args) == Kind::Scan,
        called(args, "MULTI") ==> kind(args) == Kind::Multi,
        called(args, "EXEC") ==> kind(args) == Kind::Exec,
        called(args, "DISCARD") ==> kind(args) == Kind::Discard,
        called(args, "WATCH") && args.len() >= 2 ==> kind(args) == Kind::Watch,
        called(args, "UNWATCH") ==> kind(args) == Kind::Unwatch,
        called(args, "SAVE") ==> kind(args) == Kind::Save,
        called(args, "BGSAVE") ==> kind(args) == Kind::Save,
        called(args, "BGREWRITEAOF") ==> kind(args) == Kind::Rewrite,
        called(args, "LASTSAVE") ==> kind(args) == Kind::LastSave,
{
    reveal(kind);
    arguments::commands_go_by_their_names(args.len() as int);
}

pub proof fn lemma_sent<D: Device, M: Device>(s: Step<D, M>, now: i64, raw: Seq<u8>, args: Seq<Seq<u8>>)
    requires
        sent(s, now, raw, args),
        args.len() > 0,
        !s.a.sess.in_multi,
        !s.a.sess.replay,
        !(kind(args) is Exec),
    ensures
        plain(at(s, now), kind(args), raw, args),
{
    reveal(sent);
    reveal(kind);
    reveal(plain);
}

/// The step with the clock set.
pub open spec fn at<D: Device, M: Device>(s: Step<D, M>, now: i64) -> Step<D, M> {
    Step { a: World { sess: SessView { now, ..s.a.sess }, ..s.a }, ..s }
}

pub proof fn lemma_seen<D: Device>(store: &Store<D>, key: Seq<u8>, now: i64)
    requires
        store.inv(),
    ensures
        laws::seen(store.get(key), now) is None <==> lacks(store, key, now),
        laws::seen(store.get(key), now) matches Some(x) ==> holds(store, key, x.0, x.1, now)
            && store.get(key).unwrap().wf() && x.0.len() <= u32::MAX,
        forall|v: Seq<u8>, e: i64| #[trigger]
            holds(store, key, v, e, now) ==> laws::seen(store.get(key), now) == Some((v, e)),
{
    laws::entries_are_well_formed(store, key);
    if let Some(b) = store.get(key) {
        assert(b.value().len() == b.len);
    }
}

// ---------------------------------------------------------------------------
// Single operations
// ---------------------------------------------------------------------------

/// What a read answers.
spec fn read_out(w: Option<(Seq<u8>, i64)>, input: InputView, o: OutView) -> OutView {
    match w {
        None => o,
        Some(x) => match input.op {
            StringOp::GetRange { start, end } => {
                let b = functions::range_of(start as int, end as int, x.0.len() as int);
                o.with_bytes(x.0.subrange(b.0, b.1))
            },
            StringOp::Exists => o,
            StringOp::Strlen => o.with_int(x.0.len() as i64),
            StringOp::Ttl { ms } => o.with_int(left_of(x.1, input.now_ms, ms)),
            _ => o.with_bytes(x.0),
        },
    }
}

spec fn left_of(e: i64, now: i64, ms: bool) -> i64 {
    functions::ttl_of(
        crate::record::RecordView {
            word: 0,
            key: Seq::empty(),
            buf: Seq::empty(),
            len: 0,
            flags: 1,
            exp: e,
        },
        now,
        ms,
    )
}

proof fn lemma_reads<D: Device, M: Device>(
    s: Step<D, M>,
    key: Seq<u8>,
    input: InputView,
    f: spec_fn(Status, OutView) -> Seq<u8>,
)
    requires
        s.reads(key, input, f),
        s.a.shared.store.inv(),
        s.a.shared.store.reliable(),
        laws::undisturbed(s),
        input.now_ms == s.now(),
    ensures
        no_key(&s.a.shared.store, &s.b.shared.store),
        ({
            let w = laws::seen(s.a.shared.store.get(key), s.now());
            s.says(
                f(
                    if w is Some {
                        Status::Found
                    } else {
                        Status::NotFound
                    },
                    read_out(w, input, s.a.sess.scratch),
                ),
            )
        }),
{
    reveal(steps::read_ran);
    laws::entries_are_well_formed(&s.a.shared.store, key);
    if let Some(b) = s.a.shared.store.get(key) {
        assert(b.value().len() == b.len);
    }
}

/// An update ended in this way.
spec fn ended<D: Device, M: Device>(
    s: Step<D, M>,
    s0: OutView,
    key: Seq<u8>,
    input: InputView,
    f: spec_fn(Status, OutView) -> Seq<u8>,
    st: Status,
) -> bool {
    let e = laws::effect(laws::seen(s.a.shared.store.get(key), s.now()), input, s0);
    &&& !(st is Error)
    &&& st.updated() == e.updated
    &&& (st is Deleted) == e.deleted
    &&& s.says(f(st, e.answer))
}

proof fn lemma_updates<D: Device, M: Device>(
    s: Step<D, M>,
    s0: OutView,
    key: Seq<u8>,
    input: InputView,
    raw: Seq<u8>,
    f: spec_fn(Status, OutView) -> Seq<u8>,
    g: spec_fn(Status, OutView) -> bool,
) -> (st: Status)
    requires
        s.rmws(s0, key, input, raw, f, g),
        forall|st: Status, v: OutView| #[trigger]
            g(st, v) == (if input.op is Persist {
                st.updated() && v.has_int && v.int == 1
            } else if input.op is GetDel {
                st is Deleted
            } else {
                st.updated()
            }),
        s.a.shared.watch.inv(),
        s.a.shared.store.inv(),
        s.a.shared.store.reliable(),
        laws::undisturbed(s),
        laws::is_update(input.op),
        input.operand.len() <= usize::MAX,
        input.now_ms == s.now(),
    ensures
        ended(s, s0, key, input, f, st),
        told(s, s.now(), key),
        s.b.shared.store.inv(),
        only(&s.a.shared.store, &s.b.shared.store, key),
        laws::seen(s.b.shared.store.get(key), s.now()) == laws::effect(
            laws::seen(s.a.shared.store.get(key), s.now()),
            input,
            s0,
        ).holds,
{
    reveal(steps::rmw_ran);
    let o = s.a.shared.store;
    let n = s.b.shared.store;
    laws::entries_are_well_formed(&o, key);
    laws::updates_depend_on_what_is_seen(o.get(key), o.mutable(key), key, input, s0);
    let st = choose|st: Status| #[trigger]
        steps::rmw_ran(
            &o,
            &n,
            SessView { scratch: s0, ..s.a.sess },
            s.b.sess,
            key,
            input,
            st,
        ) && s.says(f(st, s.b.sess.scratch)) && steps::logged(
            &s.a.shared,
            &s.b.shared,
            s.a.sess,
            g(st, s.b.sess.scratch),
            key,
            raw,
        );
    assert(told(s, s.now(), key)) by {
        reveal(steps::logged);
        s.a.shared.watch.lemma_slot(key);
        let w = laws::seen(o.get(key), s.now());
        let e = laws::effect(w, input, s0);
        assert(st.updated() == e.updated);
        if !g(st, s.b.sess.scratch) {
            assert(!e.updated);
            assert(e.holds == w);
        }
    }
    st
}

proof fn lemma_writes<D: Device, M: Device>(
    s: Step<D, M>,
    key: Seq<u8>,
    input: InputView,
    raw: Seq<u8>,
    reply: Seq<u8>,
    g: spec_fn(Status) -> bool,
)
    requires
        s.upserts(key, input, raw, reply, g),
        forall|st: Status| #[trigger] g(st) == st.updated(),
        s.a.shared.watch.inv(),
        s.a.shared.store.inv(),
        laws::undisturbed(s),
        input.operand.len() <= usize::MAX,
    ensures
        s.says(reply),
        s.b.shared.store.inv(),
        only(&s.a.shared.store, &s.b.shared.store, key),
        s.b.shared.store.get(key) matches Some(b) && b.value() == input.operand && b.exp
            == input.expiration,
        alarmed(s, key),
{
    reveal(steps::upsert_ran);
    reveal(steps::logged);
    s.a.shared.watch.lemma_slot(key);
    let o = s.a.shared.store;
    laws::entries_are_well_formed(&o, key);
    laws::a_blind_write_holds_what_it_brought(o.get(key), o.mutable(key), key, input);
}

// ---------------------------------------------------------------------------
// Reading
// ---------------------------------------------------------------------------

/// GET answers the value, or that there is none.
pub proof fn get_answers_the_value<D: Device, M: Device>(
    s: Step<D, M>,
    now: i64,
    raw: Seq<u8>,
    args: Seq<Seq<u8>>,
)
    requires
        asked(s, now, raw, args),
        called(args, "GET"),
        args.len() == 2,
    ensures
        no_key(&s.a.shared.store, &s.b.shared.store),
        forall|v: Seq<u8>, e: i64| #[trigger]
            holds(&s.a.shared.store, args[1], v, e, now) ==> s.says(resp::bulk_reply(v)),
        lacks(&s.a.shared.store, args[1], now) ==> s.says(bytes::text(resp::NULL_BULK)),
{
    let t = at(s, now);
    assert(steps::get_step(t, args[1])) by {
        lemma_called(args);
        lemma_sent(s, now, raw, args);
        reveal(plain);
    }
    lemma_seen(&s.a.shared.store, args[1], now);
    let f = |st: Status, v: OutView| steps::value_reply(st is Found, v.bytes);
    lemma_reads(t, args[1], functions::bare_input(StringOp::Get, now), f);
}

/// STRLEN answers the length of the value; that of a missing key is 0.
pub proof fn strlen_answers_the_length<D: Device, M: Device>(
    s: Step<D, M>,
    now: i64,
    raw: Seq<u8>,
    args: Seq<Seq<u8>>,
)
    requires
        asked(s, now, raw, args),
        called(args, "STRLEN"),
        args.len() == 2,
    ensures
        no_key(&s.a.shared.store, &s.b.shared.store),
        forall|v: Seq<u8>, e: i64| #[trigger]
            holds(&s.a.shared.store, args[1], v, e, now) ==> s.says(
                resp::integer_reply(v.len() as int),
            ),
        lacks(&s.a.shared.store, args[1], now) ==> s.says(resp::integer_reply(0)),
{
    let t = at(s, now);
    assert(steps::read_int_step(t, args[1], StringOp::Strlen, 0)) by {
        lemma_called(args);
        lemma_sent(s, now, raw, args);
        reveal(plain);
    }
    lemma_seen(&s.a.shared.store, args[1], now);
    let f = |st: Status, v: OutView|
        resp::integer_reply(
            if st is Found {
                v.int as int
            } else {
                0
            },
        );
    lemma_reads(t, args[1], functions::bare_input(StringOp::Strlen, now), f);
}

/// GETRANGE answers the bytes from one place to another, both included. A
/// negative place counts from the end, and places beyond the ends are those at
/// the ends.
pub proof fn getrange_answers_the_bytes_between<D: Device, M: Device>(
    s: Step<D, M>,
    now: i64,
    raw: Seq<u8>,
    args: Seq<Seq<u8>>,
    start: int,
    end: int,
)
    requires
        asked(s, now, raw, args),
        called(args, "GETRANGE") || called(args, "SUBSTR"),
        args.len() == 4,
        resp::argument_int(args[2]) == Some(start),
        resp::argument_int(args[3]) == Some(end),
    ensures
        no_key(&s.a.shared.store, &s.b.shared.store),
        forall|v: Seq<u8>, e: i64| #[trigger]
            holds(&s.a.shared.store, args[1], v, e, now) ==> {
                let n = v.len() as int;
                let x = if start < 0 {
                    n + start
                } else {
                    start
                };
                let y = if end < 0 {
                    n + end
                } else {
                    end
                };
                let from = if x < 0 {
                    0
                } else {
                    x
                };
                let to = if y > n - 1 {
                    n - 1
                } else {
                    y
                };
                s.says(
                    resp::bulk_reply(
                        if from <= to {
                            v.subrange(from, to + 1)
                        } else {
                            Seq::empty()
                        },
                    ),
                )
            },
        lacks(&s.a.shared.store, args[1], now) ==> s.says(resp::bulk_reply(Seq::empty())),
{
    let t = at(s, now);
    assert(steps::getrange_step(t, args)) by {
        lemma_called(args);
        lemma_sent(s, now, raw, args);
        reveal(plain);
    }
    lemma_seen(&s.a.shared.store, args[1], now);
    let f = |st: Status, v: OutView|
        resp::bulk_reply(
            if st is Found {
                v.bytes
            } else {
                Seq::empty()
            },
        );
    let input = functions::bare_input(
        StringOp::GetRange { start: start as i64, end: end as i64 },
        now,
    );
    lemma_reads(t, args[1], input, f);
    assert forall|v: Seq<u8>, e: i64| #[trigger]
        holds(&s.a.shared.store, args[1], v, e, now) implies v.subrange(0, 0) == Seq::<u8>::empty() by {
        assert(v.subrange(0, 0) =~= Seq::<u8>::empty());
    }
}

/// GETRANGE from the first byte to the last answers the whole value, and it does
/// not matter whether a place is counted from the front or from the end.
pub proof fn getrange_counts_from_either_end<D: Device, M: Device>(
    s: Step<D, M>,
    t: Step<D, M>,
    now: i64,
    raws: (Seq<u8>, Seq<u8>),
    args: Seq<Seq<u8>>,
    more: Seq<Seq<u8>>,
    start: int,
    end: int,
    v: Seq<u8>,
    e: i64,
)
    requires
        asked(s, now, raws.0, args) && asked(t, now, raws.1, more),
        called(args, "GETRANGE") && called(more, "GETRANGE"),
        args.len() == 4 && more.len() == 4,
        args[1] == more[1],
        holds(&s.a.shared.store, args[1], v, e, now),
        holds(&t.a.shared.store, args[1], v, e, now),
        resp::argument_int(args[2]) == Some(start),
        resp::argument_int(args[3]) == Some(end),
        0 <= end < v.len(),
        resp::argument_int(more[2]) == Some(start),
        resp::argument_int(more[3]) == Some(end - v.len()),
        s.out0 == t.out0,
    ensures
        s.out1 == t.out1,
        start == 0 && end == v.len() - 1 ==> s.says(resp::bulk_reply(v)) && t.says(
            resp::bulk_reply(v),
        ),
{
    getrange_answers_the_bytes_between(s, now, raws.0, args, start, end);
    getrange_answers_the_bytes_between(t, now, raws.1, more, start, end - v.len());
    assert(v.subrange(0, v.len() as int) =~= v);
}

// ---------------------------------------------------------------------------
// Numbers
// ---------------------------------------------------------------------------

/// A value was counted by `d`: the sum is answered and written in its place, and
/// its time stays; a missing key counts from 0; what is no number, or a sum that
/// cannot be held, is refused and stays.
pub open spec fn counted<D: Device, M: Device>(s: Step<D, M>, now: i64, key: Seq<u8>, d: int) -> bool {
    let o = &s.a.shared.store;
    let n = &s.b.shared.store;
    let refusal = resp::error_reply(bytes::text("ERR value is not an integer or out of range"));
    &&& only(o, n, key)
    &&& told(s, now, key)
    &&& forall|v: Seq<u8>, e: i64| #[trigger]
        holds(o, key, v, e, now) ==> match resp::argument_int(v) {
            Some(c) => if i64::MIN <= c + d <= i64::MAX {
                s.says(resp::integer_reply(c + d)) && holds(n, key, resp::int_digits(c + d), e, now)
            } else {
                s.says(refusal) && holds(n, key, v, e, now)
            },
            None => s.says(refusal) && holds(n, key, v, e, now),
        }
    &&& lacks(o, key, now) ==> s.says(resp::integer_reply(d)) && holds(
        n,
        key,
        resp::int_digits(d),
        0,
        now,
    )
}

proof fn lemma_counted<D: Device, M: Device>(
    s: Step<D, M>,
    now: i64,
    raw: Seq<u8>,
    args: Seq<Seq<u8>>,
    key: Seq<u8>,
    d: i64,
)
    requires
        asked(s, now, raw, args),
        steps::incr_step(at(s, now), raw, key, d),
    ensures
        counted(s, now, key, d as int),
{
    let t = at(s, now);
    lemma_seen(&s.a.shared.store, key, now);
    let f = |st: Status, v: OutView|
        if st.updated() {
            resp::integer_reply(v.int as int)
        } else {
            steps::not_an_integer()
        };
    let g = |st: Status, v: OutView| st.updated();
    let input = InputView { delta: d, ..functions::bare_input(StringOp::IncrBy, now) };
    let st = lemma_updates(t, s.a.sess.scratch, key, input, raw, f, g);
    lemma_seen(&s.b.shared.store, key, now);
}

/// INCR and DECR count by one, INCRBY and DECRBY by what they are given.
pub proof fn counting_adds<D: Device, M: Device>(
    s: Step<D, M>,
    now: i64,
    raw: Seq<u8>,
    args: Seq<Seq<u8>>,
)
    requires
        asked(s, now, raw, args),
        (called(args, "INCR") || called(args, "DECR")) && args.len() == 2,
    ensures
        called(args, "INCR") ==> counted(s, now, args[1], 1),
        called(args, "DECR") ==> counted(s, now, args[1], -1),
{
    let t = at(s, now);
    assert(called(args, "INCR") ==> steps::incr_step(t, raw, args[1], 1)) by {
        lemma_called(args);
        if called(args, "INCR") {
            lemma_sent(s, now, raw, args);
            reveal(plain);
        }
    }
    assert(called(args, "DECR") ==> steps::incr_step(t, raw, args[1], (-1) as i64)) by {
        lemma_called(args);
        if called(args, "DECR") {
            lemma_sent(s, now, raw, args);
            reveal(plain);
        }
    }
    if called(args, "INCR") {
        lemma_counted(s, now, raw, args, args[1], 1);
    }
    if called(args, "DECR") {
        lemma_counted(s, now, raw, args, args[1], (-1) as i64);
    }
}

/// INCRBY adds what it is given and DECRBY takes it away; what is no number is
/// refused. (The least number has no opposite: DECRBY adds it.)
pub proof fn counting_by_a_number_adds_it<D: Device, M: Device>(
    s: Step<D, M>,
    now: i64,
    raw: Seq<u8>,
    args: Seq<Seq<u8>>,
)
    requires
        asked(s, now, raw, args),
        called(args, "INCRBY") || called(args, "DECRBY"),
        args.len() == 3,
    ensures
        forall|d: int|
            resp::argument_int(args[2]) == Some(d) && called(args, "INCRBY") ==> #[trigger] counted(
                s,
                now,
                args[1],
                d,
            ),
        forall|d: int|
            resp::argument_int(args[2]) == Some(-d) && d != -i64::MIN && called(args, "DECRBY")
                ==> #[trigger] counted(s, now, args[1], d),
        resp::argument_int(args[2]) == Some(i64::MIN as int) && called(args, "DECRBY") ==> counted(
            s,
            now,
            args[1],
            i64::MIN as int,
        ),
        resp::argument_int(args[2]) is None ==> s.says(
            resp::error_reply(bytes::text("ERR value is not an integer or out of range")),
        ) && s.b.shared == s.a.shared,
{
    let t = at(s, now);
    assert(called(args, "INCRBY") ==> steps::incrby_step(t, raw, args, false)) by {
        lemma_called(args);
        if called(args, "INCRBY") {
            lemma_sent(s, now, raw, args);
            reveal(plain);
        }
    }
    assert(called(args, "DECRBY") ==> steps::incrby_step(t, raw, args, true)) by {
        lemma_called(args);
        if called(args, "DECRBY") {
            lemma_sent(s, now, raw, args);
            reveal(plain);
        }
    }
    if let Some(c) = resp::argument_int(args[2]) {
        if called(args, "INCRBY") {
            lemma_counted(s, now, raw, args, args[1], c as i64);
        }
        if called(args, "DECRBY") {
            let d = i64_specs::wrapping_sub(0, c as i64);
            assert(c != i64::MIN ==> d == -c);
            assert(c == i64::MIN ==> d == c);
            lemma_counted(s, now, raw, args, args[1], d);
        }
    }
}

// ---------------------------------------------------------------------------
// Parts of values
// ---------------------------------------------------------------------------

/// The key holds `w` as of old, or it is fresh and holds `w` for good.
pub open spec fn grew<D: Device, M: Device>(
    s: Step<D, M>,
    now: i64,
    key: Seq<u8>,
    old_value: Seq<u8>,
    e: i64,
    r: Seq<u8>,
) -> bool {
    &&& holds(&s.a.shared.store, key, old_value, e, now) || (lacks(&s.a.shared.store, key, now)
        && old_value.len() == 0 && e == 0)
    &&& r.len() <= u32::MAX
    &&& s.says(resp::integer_reply(r.len() as int))
    &&& holds(&s.b.shared.store, key, r, e, now)
}

/// APPEND leaves the old value with the new bytes behind it, keeps its time and
/// answers the length; a missing key counts as empty.
pub proof fn append_puts_bytes_behind<D: Device, M: Device>(
    s: Step<D, M>,
    now: i64,
    raw: Seq<u8>,
    args: Seq<Seq<u8>>,
    v: Seq<u8>,
    e: i64,
)
    requires
        asked(s, now, raw, args),
        called(args, "APPEND"),
        args.len() == 3,
        holds(&s.a.shared.store, args[1], v, e, now) || (lacks(&s.a.shared.store, args[1], now)
            && v.len() == 0 && e == 0),
        v.len() + args[2].len() <= usize::MAX,
    ensures
        only(&s.a.shared.store, &s.b.shared.store, args[1]),
        told(s, now, args[1]),
        grew(s, now, args[1], v, e, v + args[2]),
{
    let t = at(s, now);
    assert(steps::rmw_int_step(t, raw, args[1], StringOp::Append, args[2])) by {
        lemma_called(args);
        lemma_sent(s, now, raw, args);
        reveal(plain);
    }
    lemma_seen(&s.a.shared.store, args[1], now);
    let f = |st: Status, o: OutView|
        resp::integer_reply(
            if st.updated() {
                o.int as int
            } else {
                0
            },
        );
    let g = |st: Status, o: OutView| st.updated();
    let input = InputView { operand: args[2], ..functions::bare_input(StringOp::Append, now) };
    let st = lemma_updates(t, s.a.sess.scratch, args[1], input, raw, f, g);
    lemma_seen(&s.b.shared.store, args[1], now);
    if v.len() == 0 {
        assert(v + args[2] =~= args[2]);
    }
}

/// SETRANGE leaves the old value with the new bytes at their place, zeros in a
/// gap before them, and everything else as it was; it keeps its time and answers
/// the length.
pub proof fn setrange_puts_bytes_in_their_place<D: Device, M: Device>(
    s: Step<D, M>,
    now: i64,
    raw: Seq<u8>,
    args: Seq<Seq<u8>>,
    v: Seq<u8>,
    e: i64,
    at_byte: int,
)
    requires
        asked(s, now, raw, args),
        called(args, "SETRANGE"),
        args.len() == 4,
        holds(&s.a.shared.store, args[1], v, e, now) || (lacks(&s.a.shared.store, args[1], now)
            && v.len() == 0 && e == 0),
        resp::argument_int(args[2]) == Some(at_byte),
        0 <= at_byte,
        at_byte + args[3].len() <= usize::MAX,
    ensures
        only(&s.a.shared.store, &s.b.shared.store, args[1]),
        told(s, now, args[1]),
        exists|r: Seq<u8>| #[trigger]
            grew(s, now, args[1], v, e, r) && r.len() == (if at_byte + args[3].len() > v.len() {
                at_byte + args[3].len()
            } else {
                v.len() as int
            }) && forall|i: int|
                0 <= i < r.len() ==> #[trigger] r[i] == (if at_byte <= i < at_byte + args[3].len() {
                    args[3][i - at_byte]
                } else if i < v.len() {
                    v[i]
                } else {
                    0u8
                }),
{
    let t = at(s, now);
    assert(steps::setrange_step(t, raw, args)) by {
        lemma_called(args);
        lemma_sent(s, now, raw, args);
        reveal(plain);
    }
    lemma_seen(&s.a.shared.store, args[1], now);
    let f = |st: Status, o: OutView|
        resp::integer_reply(
            if st.updated() {
                o.int as int
            } else {
                0
            },
        );
    let g = |st: Status, o: OutView| st.updated();
    let input = InputView {
        operand: args[3],
        ..functions::bare_input(StringOp::SetRange { offset: at_byte as usize }, now)
    };
    let st = lemma_updates(t, s.a.sess.scratch, args[1], input, raw, f, g);
    lemma_seen(&s.b.shared.store, args[1], now);
    if v.len() == 0 {
        assert(v =~= Seq::<u8>::empty());
    }
    let r = functions::overlaid(v, at_byte, args[3]);
    assert(grew(s, now, args[1], v, e, r));
}

/// A place that is no number or lies before the value is refused.
pub proof fn setrange_refuses_a_bad_place<D: Device, M: Device>(
    s: Step<D, M>,
    now: i64,
    raw: Seq<u8>,
    args: Seq<Seq<u8>>,
)
    requires
        asked(s, now, raw, args),
        called(args, "SETRANGE"),
        args.len() == 4,
        resp::argument_int(args[2]) matches Some(n) ==> n < 0,
    ensures
        s.says(resp::error_reply(bytes::text("ERR offset is out of range"))),
        s.b.shared == s.a.shared,
{
    assert(steps::setrange_step(at(s, now), raw, args)) by {
        lemma_called(args);
        lemma_sent(s, now, raw, args);
        reveal(plain);
    }
}

// ---------------------------------------------------------------------------
// Writing
// ---------------------------------------------------------------------------

/// The key holds `v` until `e` (or for good, if `e` is 0), unless that is over.
pub open spec fn left_with<D: Device>(store: &Store<D>, key: Seq<u8>, v: Seq<u8>, e: i64, now: i64) -> bool {
    if e == 0 || now < e {
        holds(store, key, v, e, now)
    } else {
        lacks(store, key, now)
    }
}

/// Without options SET writes the value for good, whatever the key held.
pub proof fn set_writes_the_value<D: Device, M: Device>(
    s: Step<D, M>,
    now: i64,
    raw: Seq<u8>,
    args: Seq<Seq<u8>>,
)
    requires
        asked(s, now, raw, args),
        called(args, "SET"),
        args.len() == 3,
    ensures
        only(&s.a.shared.store, &s.b.shared.store, args[1]),
        alarmed(s, args[1]),
        s.says(bytes::text("+OK\r\n")),
        holds(&s.b.shared.store, args[1], args[2], 0, now),
{
    assert(!arguments::says(args, 3, "GET") && !arguments::says(args, 3, "NX") && !arguments::says(
        args,
        3,
        "XX",
    ) && !arguments::says(args, 3, "KEEPTTL"));
    assert(arguments::well_put(args, 3));
    set_does_what_its_options_say(s, now, raw, args, 0);
    lemma_seen(&s.a.shared.store, args[1], now);
}

/// The expiration that the options of SET ask for.
pub open spec fn asks_for(args: Seq<Seq<u8>>, now: i64, e: i64) -> bool {
    &&& (forall|j: int| 3 <= j < args.len() ==> !arguments::is_expiry(#[trigger] args[j])) ==> e == 0
    &&& forall|j: int| #[trigger]
        arguments::last_time(args, 3, j) ==> {
            let t = resp::argument_int(args[j + 1]).unwrap();
            &&& arguments::is_word(args[j], "EX") ==> e == now + 1000 * t
            &&& arguments::is_word(args[j], "PX") ==> e == now + t
            &&& arguments::is_word(args[j], "EXAT") ==> e == 1000 * t
            &&& arguments::is_word(args[j], "PXAT") ==> e == t
        }
}

/// The times that the options of SET give can be counted.
pub open spec fn countable(args: Seq<Seq<u8>>, now: i64) -> bool {
    forall|j: int|
        3 <= j < args.len() && arguments::is_expiry(#[trigger] args[j]) ==> (resp::argument_int(
            args[j + 1],
        ) matches Some(t) ==> i64::MIN <= 1000 * t <= i64::MAX && i64::MIN <= now + 1000 * t
            <= i64::MAX && i64::MIN <= now + t <= i64::MAX)
}

/// SET with options, in any order. With XX a missing key is not made, and with
/// NX (and without GET) a live one is left alone; otherwise the value is written.
/// It holds until the time that the options give, or for good if they give none;
/// with KEEPTTL a live key keeps its time (not with XX alone). With GET the old
/// value is answered, without it whether the value was written.
pub proof fn set_does_what_its_options_say<D: Device, M: Device>(
    s: Step<D, M>,
    now: i64,
    raw: Seq<u8>,
    args: Seq<Seq<u8>>,
    e: i64,
)
    requires
        asked(s, now, raw, args),
        called(args, "SET"),
        args.len() >= 3,
        arguments::well_put(args, 3),
        !(arguments::says(args, 3, "NX") && arguments::says(args, 3, "XX")),
        countable(args, now),
        asks_for(args, now, e),
    ensures
        only(&s.a.shared.store, &s.b.shared.store, args[1]),
        told(s, now, args[1]),
        args.len() == 3 ==> alarmed(s, args[1]),
        lacks(&s.a.shared.store, args[1], now) ==> {
            &&& s.says(
                bytes::text(
                    if arguments::says(args, 3, "GET") || arguments::says(args, 3, "XX") {
                        "$-1\r\n"
                    } else {
                        "+OK\r\n"
                    },
                ),
            )
            &&& if arguments::says(args, 3, "XX") {
                lacks(&s.b.shared.store, args[1], now)
            } else {
                left_with(&s.b.shared.store, args[1], args[2], e, now)
            }
        },
        forall|v: Seq<u8>, was: i64| #[trigger]
            holds(&s.a.shared.store, args[1], v, was, now) ==> {
                let get = arguments::says(args, 3, "GET");
                let refused = arguments::says(args, 3, "NX") && !get;
                &&& s.says(
                    if get {
                        resp::bulk_reply(v)
                    } else if refused {
                        bytes::text("$-1\r\n")
                    } else {
                        bytes::text("+OK\r\n")
                    },
                )
                &&& if refused {
                    holds(&s.b.shared.store, args[1], v, was, now)
                } else if arguments::says(args, 3, "KEEPTTL") && (get || !arguments::says(args, 3, "XX")) {
                    holds(&s.b.shared.store, args[1], args[2], was, now)
                } else {
                    left_with(&s.b.shared.store, args[1], args[2], e, now)
                }
            },
{
    let t = at(s, now);
    assert(steps::set_step(t, raw, args)) by {
        lemma_called(args);
        lemma_sent(s, now, raw, args);
        reveal(plain);
    }
    arguments::set_options_say_what_they_say(args, now);
    let r = arguments::set_options_from(args, 3, arguments::no_options(), now);
    let o = r->Ok_0;
    lemma_expiration(args, now, e, o.expiration);
    lemma_seen(&s.a.shared.store, args[1], now);
    let input = InputView {
        op: steps::set_op(o),
        operand: args[2],
        delta: 0,
        expiration: e,
        now_ms: now,
    };
    if steps::set_op(o) is SetPlain {
        let g = |st: Status| st.updated();
        lemma_writes(t, args[1], input, raw, bytes::text(resp::OK), g);
    } else {
        let s0 = steps::without_value(s.a.sess.scratch);
        let f = |st: Status, v: OutView|
            if o.get {
                steps::value_reply(!(st is Error) && v.has_bytes, v.bytes)
            } else if st.updated() {
                bytes::text(resp::OK)
            } else {
                bytes::text(resp::NULL_BULK)
            };
        let g = |st: Status, v: OutView| st.updated();
        let st = lemma_updates(t, s0, args[1], input, raw, f, g);
    }
    lemma_seen(&s.b.shared.store, args[1], now);
}

proof fn lemma_last_time(args: Seq<Seq<u8>>, from: int, i: int) -> (j: int)
    requires
        from <= i < args.len(),
        arguments::is_expiry(args[i]),
    ensures
        arguments::last_time(args, from, j),
    decreases args.len() - i,
{
    if forall|k: int| i < k < args.len() ==> !arguments::is_expiry(#[trigger] args[k]) {
        i
    } else {
        let k = choose|k: int| i < k < args.len() && arguments::is_expiry(#[trigger] args[k]);
        lemma_last_time(args, from, k)
    }
}

proof fn lemma_expiration(args: Seq<Seq<u8>>, now: i64, e: i64, x: i64)
    requires
        countable(args, now),
        asks_for(args, now, e),
        (forall|j: int| 3 <= j < args.len() ==> !arguments::is_expiry(#[trigger] args[j])) ==> x == 0,
        forall|j: int| #[trigger]
            arguments::last_time(args, 3, j) ==> arguments::timed(args, j) && arguments::stands_for(
                args,
                j,
                now,
                x,
            ),
    ensures
        x == e,
{
    if !(forall|j: int| 3 <= j < args.len() ==> !arguments::is_expiry(#[trigger] args[j])) {
        let i = choose|i: int| 3 <= i < args.len() && arguments::is_expiry(#[trigger] args[i]);
        let j = lemma_last_time(args, 3, i);
        assert(arguments::is_expiry(args[j]));
    }
}

/// SET with options that are none, with a time that is no number, or with NX and
/// XX at once changes nothing.
pub proof fn set_refuses_bad_options<D: Device, M: Device>(
    s: Step<D, M>,
    now: i64,
    raw: Seq<u8>,
    args: Seq<Seq<u8>>,
)
    requires
        asked(s, now, raw, args),
        called(args, "SET"),
        args.len() >= 3,
        !arguments::well_put(args, 3) || (arguments::says(args, 3, "NX") && arguments::says(
            args,
            3,
            "XX",
        )),
    ensures
        s.b.shared == s.a.shared,
        s.says(resp::error_reply(bytes::text("ERR syntax error"))) || s.says(
            resp::error_reply(bytes::text("ERR value is not an integer or out of range")),
        ),
{
    assert(steps::set_step(at(s, now), raw, args)) by {
        lemma_called(args);
        lemma_sent(s, now, raw, args);
        reveal(plain);
    }
    arguments::set_options_say_what_they_say(args, now);
}

/// SETNX makes a key, and leaves a live one alone.
pub proof fn setnx_only_makes_keys<D: Device, M: Device>(
    s: Step<D, M>,
    now: i64,
    raw: Seq<u8>,
    args: Seq<Seq<u8>>,
)
    requires
        asked(s, now, raw, args),
        called(args, "SETNX"),
        args.len() == 3,
    ensures
        only(&s.a.shared.store, &s.b.shared.store, args[1]),
        told(s, now, args[1]),
        lacks(&s.a.shared.store, args[1], now) ==> s.says(resp::integer_reply(1)) && holds(
            &s.b.shared.store,
            args[1],
            args[2],
            0,
            now,
        ),
        forall|v: Seq<u8>, e: i64| #[trigger]
            holds(&s.a.shared.store, args[1], v, e, now) ==> s.says(resp::integer_reply(0)) && holds(
                &s.b.shared.store,
                args[1],
                v,
                e,
                now,
            ),
{
    let t = at(s, now);
    assert(steps::setnx_step(t, raw, args)) by {
        lemma_called(args);
        lemma_sent(s, now, raw, args);
        reveal(plain);
    }
    lemma_seen(&s.a.shared.store, args[1], now);
    let f = |st: Status, v: OutView| steps::flag_reply(st.updated());
    let g = |st: Status, v: OutView| st.updated();
    let input = InputView { operand: args[2], ..functions::bare_input(StringOp::SetNx, now) };
    let st = lemma_updates(t, s.a.sess.scratch, args[1], input, raw, f, g);
    lemma_seen(&s.b.shared.store, args[1], now);
}

/// SETEX and PSETEX write a value that holds for so many seconds or
/// milliseconds.
pub proof fn setex_writes_for_a_time<D: Device, M: Device>(
    s: Step<D, M>,
    now: i64,
    raw: Seq<u8>,
    args: Seq<Seq<u8>>,
    n: int,
    e: i64,
)
    requires
        asked(s, now, raw, args),
        called(args, "SETEX") || called(args, "PSETEX"),
        args.len() == 4,
        resp::argument_int(args[2]) == Some(n),
        0 < n,
        1000 * n <= i64::MAX,
        called(args, "SETEX") ==> e == now + 1000 * n,
        called(args, "PSETEX") ==> e == now + n,
    ensures
        only(&s.a.shared.store, &s.b.shared.store, args[1]),
        told(s, now, args[1]),
        s.says(bytes::text("+OK\r\n")),
        left_with(&s.b.shared.store, args[1], args[3], e, now),
{
    let t = at(s, now);
    let ms = called(args, "PSETEX");
    assert(steps::setex_step(t, raw, args, ms)) by {
        lemma_called(args);
        lemma_sent(s, now, raw, args);
        reveal(plain);
    }
    let input = InputView {
        operand: args[3],
        expiration: e,
        ..functions::bare_input(StringOp::SetPlain, now)
    };
    let g = |st: Status| st.updated();
    lemma_writes(t, args[1], input, raw, bytes::text(resp::OK), g);
    lemma_seen(&s.b.shared.store, args[1], now);
}

/// SETEX and PSETEX refuse a time that is no number or not positive.
pub proof fn setex_refuses_a_bad_time<D: Device, M: Device>(
    s: Step<D, M>,
    now: i64,
    raw: Seq<u8>,
    args: Seq<Seq<u8>>,
)
    requires
        asked(s, now, raw, args),
        called(args, "SETEX") || called(args, "PSETEX"),
        args.len() == 4,
        resp::argument_int(args[2]) matches Some(n) ==> n <= 0,
    ensures
        s.says(resp::error_reply(bytes::text("ERR invalid expire time in 'setex' command"))),
        s.b.shared == s.a.shared,
{
    assert(steps::setex_step(at(s, now), raw, args, called(args, "PSETEX"))) by {
        lemma_called(args);
        lemma_sent(s, now, raw, args);
        reveal(plain);
    }
}

/// GETSET answers the old value and writes the new one for good.
pub proof fn getset_swaps_the_value<D: Device, M: Device>(
    s: Step<D, M>,
    now: i64,
    raw: Seq<u8>,
    args: Seq<Seq<u8>>,
)
    requires
        asked(s, now, raw, args),
        called(args, "GETSET"),
        args.len() == 3,
    ensures
        only(&s.a.shared.store, &s.b.shared.store, args[1]),
        told(s, now, args[1]),
        holds(&s.b.shared.store, args[1], args[2], 0, now),
        lacks(&s.a.shared.store, args[1], now) ==> s.says(bytes::text("$-1\r\n")),
        forall|v: Seq<u8>, e: i64| #[trigger]
            holds(&s.a.shared.store, args[1], v, e, now) ==> s.says(resp::bulk_reply(v)),
{
    let t = at(s, now);
    assert(steps::getset_step(t, raw, args)) by {
        lemma_called(args);
        lemma_sent(s, now, raw, args);
        reveal(plain);
    }
    lemma_seen(&s.a.shared.store, args[1], now);
    let f = |st: Status, v: OutView| steps::value_reply(!(st is Error) && v.has_bytes, v.bytes);
    let g = |st: Status, v: OutView| st.updated();
    let input = InputView {
        operand: args[2],
        ..functions::bare_input(StringOp::SetGet { keep_ttl: false }, now)
    };
    let st = lemma_updates(
        t,
        steps::without_value(s.a.sess.scratch),
        args[1],
        input,
        raw,
        f,
        g,
    );
    lemma_seen(&s.b.shared.store, args[1], now);
}

/// GETDEL answers the value and removes the key.
pub proof fn getdel_takes_the_value_away<D: Device, M: Device>(
    s: Step<D, M>,
    now: i64,
    raw: Seq<u8>,
    args: Seq<Seq<u8>>,
)
    requires
        asked(s, now, raw, args),
        called(args, "GETDEL"),
        args.len() == 2,
    ensures
        only(&s.a.shared.store, &s.b.shared.store, args[1]),
        told(s, now, args[1]),
        lacks(&s.b.shared.store, args[1], now),
        lacks(&s.a.shared.store, args[1], now) ==> s.says(bytes::text("$-1\r\n")),
        forall|v: Seq<u8>, e: i64| #[trigger]
            holds(&s.a.shared.store, args[1], v, e, now) ==> s.says(resp::bulk_reply(v)),
{
    let t = at(s, now);
    assert(steps::getdel_step(t, raw, args[1])) by {
        lemma_called(args);
        lemma_sent(s, now, raw, args);
        reveal(plain);
    }
    lemma_seen(&s.a.shared.store, args[1], now);
    let f = |st: Status, v: OutView| steps::value_reply(st is Deleted, v.bytes);
    let g = |st: Status, v: OutView| st is Deleted;
    let st = lemma_updates(
        t,
        OutView { bytes: Seq::empty(), ..s.a.sess.scratch },
        args[1],
        functions::bare_input(StringOp::GetDel, now),
        raw,
        f,
        g,
    );
    lemma_seen(&s.b.shared.store, args[1], now);
}

/// GETEX answers the value and gives it the time that its options say; with
/// PERSIST it holds for good, and without options its time stays.
pub proof fn getex_gives_a_time<D: Device, M: Device>(
    s: Step<D, M>,
    now: i64,
    raw: Seq<u8>,
    args: Seq<Seq<u8>>,
    j: int,
    e: i64,
)
    requires
        asked(s, now, raw, args),
        called(args, "GETEX"),
        args.len() >= 2,
        arguments::getex_well_put(args, 2),
        args.len() > 2 && arguments::last_time(args, 2, j) ==> ({
            let n = resp::argument_int(args[j + 1]).unwrap();
            &&& i64::MIN <= 1000 * n <= i64::MAX
            &&& arguments::is_word(args[j], "EX") ==> e == now + 1000 * n
            &&& arguments::is_word(args[j], "PX") ==> e == now + n
            &&& arguments::is_word(args[j], "EXAT") ==> e == 1000 * n
            &&& arguments::is_word(args[j], "PXAT") ==> e == n
        }),
        args.len() > 2 && !arguments::last_time(args, 2, j) ==> e == 0 && forall|i: int|
            2 <= i < args.len() ==> !arguments::is_expiry(#[trigger] args[i]),
    ensures
        only(&s.a.shared.store, &s.b.shared.store, args[1]),
        told(s, now, args[1]),
        lacks(&s.a.shared.store, args[1], now) ==> s.says(bytes::text("$-1\r\n")) && lacks(
            &s.b.shared.store,
            args[1],
            now,
        ),
        forall|v: Seq<u8>, was: i64| #[trigger]
            holds(&s.a.shared.store, args[1], v, was, now) ==> {
                &&& s.says(resp::bulk_reply(v))
                &&& args.len() == 2 ==> holds(&s.b.shared.store, args[1], v, was, now)
                &&& args.len() > 2 ==> left_with(&s.b.shared.store, args[1], v, e, now)
            },
{
    let t = at(s, now);
    assert(steps::getex_step(t, raw, args)) by {
        lemma_called(args);
        lemma_sent(s, now, raw, args);
        reveal(plain);
    }
    lemma_seen(&s.a.shared.store, args[1], now);
    if args.len() == 2 {
        let f = |st: Status, v: OutView| steps::value_reply(st is Found, v.bytes);
        lemma_reads(t, args[1], functions::bare_input(StringOp::Get, now), f);
        assert(s.b.shared.store.get(args[1]) == s.a.shared.store.get(args[1]));
    } else {
        arguments::getex_options_say_what_they_say(args, now);
        let x = arguments::getex_from(args, 2, 0, now)->Ok_0;
        assert(x == e) by {
            if arguments::last_time(args, 2, j) {
                assert(arguments::stands_for(args, j, now, x));
                assert(arguments::is_expiry(args[j]));
            }
        }
        let f = |st: Status, v: OutView| steps::value_reply(st.updated(), v.bytes);
        let g = |st: Status, v: OutView| st.updated();
        let input = InputView { expiration: e, ..functions::bare_input(StringOp::GetEx, now) };
        let st = lemma_updates(
            t,
            OutView { bytes: Seq::empty(), ..s.a.sess.scratch },
            args[1],
            input,
            raw,
            f,
            g,
        );
        lemma_seen(&s.b.shared.store, args[1], now);
    }
}

// ---------------------------------------------------------------------------
// Time
// ---------------------------------------------------------------------------

proof fn lemma_expire<D: Device, M: Device>(s: Step<D, M>, now: i64, raw: Seq<u8>, args: Seq<Seq<u8>>)
    requires
        asked(s, now, raw, args),
        called(args, "EXPIRE") || called(args, "PEXPIRE") || called(args, "EXPIREAT") || called(
            args,
            "PEXPIREAT",
        ),
        args.len() == 3,
    ensures
        called(args, "EXPIRE") ==> steps::expire_step(at(s, now), raw, args, 1000, false),
        called(args, "PEXPIRE") ==> steps::expire_step(at(s, now), raw, args, 1, false),
        called(args, "EXPIREAT") ==> steps::expire_step(at(s, now), raw, args, 1000, true),
        called(args, "PEXPIREAT") ==> steps::expire_step(at(s, now), raw, args, 1, true),
{
    lemma_called(args);
    lemma_sent(s, now, raw, args);
    reveal(plain);
}

proof fn lemma_expired<D: Device, M: Device>(
    s: Step<D, M>,
    now: i64,
    raw: Seq<u8>,
    args: Seq<Seq<u8>>,
    n: int,
    e: i64,
)
    requires
        asked(s, now, raw, args),
        called(args, "EXPIRE") || called(args, "PEXPIRE") || called(args, "EXPIREAT") || called(
            args,
            "PEXPIREAT",
        ),
        args.len() == 3,
        resp::argument_int(args[2]) == Some(n),
        i64::MIN <= 1000 * n <= i64::MAX,
        called(args, "EXPIRE") ==> e == now + 1000 * n,
        called(args, "PEXPIRE") ==> e == now + n,
        called(args, "EXPIREAT") ==> e == 1000 * n,
        called(args, "PEXPIREAT") ==> e == n,
    ensures
        at(s, now).rmws(
            s.a.sess.scratch,
            args[1],
            InputView { expiration: e, ..functions::bare_input(StringOp::Expire, now) },
            raw,
            |st: Status, v: OutView| steps::flag_reply(st.updated()),
            |st: Status, v: OutView| st.updated(),
        ),
{
    lemma_expire(s, now, raw, args);
    let d = n as i64;
    assert(i64_specs::wrapping_mul(d, 1000) == 1000 * n);
    assert(i64_specs::wrapping_mul(d, 1) == n);
}

/// EXPIRE and its like give a live key the time they say, in seconds or
/// milliseconds, from now or since the epoch; a missing key stays missing.
pub proof fn expire_gives_a_time<D: Device, M: Device>(
    s: Step<D, M>,
    now: i64,
    raw: Seq<u8>,
    args: Seq<Seq<u8>>,
    n: int,
    e: i64,
)
    requires
        asked(s, now, raw, args),
        called(args, "EXPIRE") || called(args, "PEXPIRE") || called(args, "EXPIREAT") || called(
            args,
            "PEXPIREAT",
        ),
        args.len() == 3,
        resp::argument_int(args[2]) == Some(n),
        i64::MIN <= 1000 * n <= i64::MAX,
        called(args, "EXPIRE") ==> e == now + 1000 * n,
        called(args, "PEXPIRE") ==> e == now + n,
        called(args, "EXPIREAT") ==> e == 1000 * n,
        called(args, "PEXPIREAT") ==> e == n,
    ensures
        only(&s.a.shared.store, &s.b.shared.store, args[1]),
        told(s, now, args[1]),
        lacks(&s.a.shared.store, args[1], now) ==> s.says(resp::integer_reply(0)) && lacks(
            &s.b.shared.store,
            args[1],
            now,
        ),
        forall|v: Seq<u8>, was: i64| #[trigger]
            holds(&s.a.shared.store, args[1], v, was, now) ==> s.says(resp::integer_reply(1))
                && left_with(&s.b.shared.store, args[1], v, e, now),
{
    let t = at(s, now);
    lemma_expired(s, now, raw, args, n, e);
    lemma_seen(&s.a.shared.store, args[1], now);
    let f = |st: Status, v: OutView| steps::flag_reply(st.updated());
    let g = |st: Status, v: OutView| st.updated();
    let input = InputView { expiration: e, ..functions::bare_input(StringOp::Expire, now) };
    let st = lemma_updates(t, s.a.sess.scratch, args[1], input, raw, f, g);
    lemma_seen(&s.b.shared.store, args[1], now);
}

/// EXPIRE and its like refuse a time that is no number.
pub proof fn expire_refuses_a_bad_time<D: Device, M: Device>(
    s: Step<D, M>,
    now: i64,
    raw: Seq<u8>,
    args: Seq<Seq<u8>>,
)
    requires
        asked(s, now, raw, args),
        called(args, "EXPIRE") || called(args, "PEXPIRE") || called(args, "EXPIREAT") || called(
            args,
            "PEXPIREAT",
        ),
        args.len() == 3,
        resp::argument_int(args[2]) is None,
    ensures
        s.says(resp::error_reply(bytes::text("ERR value is not an integer or out of range"))),
        s.b.shared == s.a.shared,
{
    lemma_expire(s, now, raw, args);
}

/// PTTL answers how many milliseconds a key has left, TTL how many seconds,
/// rounded up; -1 if it holds for good, -2 if there is none.
pub proof fn ttl_answers_the_time_left<D: Device, M: Device>(
    s: Step<D, M>,
    now: i64,
    raw: Seq<u8>,
    args: Seq<Seq<u8>>,
)
    requires
        asked(s, now, raw, args),
        called(args, "TTL") || called(args, "PTTL"),
        args.len() == 2,
    ensures
        no_key(&s.a.shared.store, &s.b.shared.store),
        lacks(&s.a.shared.store, args[1], now) ==> s.says(resp::integer_reply(-2)),
        forall|v: Seq<u8>, e: i64| #[trigger]
            holds(&s.a.shared.store, args[1], v, e, now) ==> {
                &&& e == 0 ==> s.says(resp::integer_reply(-1))
                &&& e != 0 && e - now <= i64::MAX - 999 && called(args, "PTTL") ==> s.says(
                    resp::integer_reply(e - now),
                )
                &&& e != 0 && e - now <= i64::MAX - 999 && called(args, "TTL") ==> exists|n: int|
                    1000 * (n - 1) < e - now <= 1000 * n && s.says(#[trigger] resp::integer_reply(n))
            },
{
    let t = at(s, now);
    let ms = called(args, "PTTL");
    assert(steps::read_int_step(t, args[1], StringOp::Ttl { ms }, -2)) by {
        lemma_called(args);
        lemma_sent(s, now, raw, args);
        reveal(plain);
    }
    lemma_seen(&s.a.shared.store, args[1], now);
    let f = |st: Status, v: OutView|
        resp::integer_reply(
            if st is Found {
                v.int as int
            } else {
                -2
            },
        );
    lemma_reads(t, args[1], functions::bare_input(StringOp::Ttl { ms }, now), f);
    assert forall|v: Seq<u8>, e: i64| #[trigger]
        holds(&s.a.shared.store, args[1], v, e, now) && e != 0 && e - now <= i64::MAX - 999 && called(
            args,
            "TTL",
        ) implies exists|n: int|
        1000 * (n - 1) < e - now <= 1000 * n && s.says(#[trigger] resp::integer_reply(n)) by {
        assert(!ms) by {
            reveal_strlit("TTL");
            reveal_strlit("PTTL");
            arguments::lemma_ascii("TTL");
            arguments::lemma_ascii("PTTL");
        }
        let n = (e - now + 999) / 1000;
        assert(left_of(e, now, false) == n);
        assert(s.says(resp::integer_reply(n)));
    }
}

/// PERSIST lets a key that has a time hold for good.
pub proof fn persist_takes_the_time_away<D: Device, M: Device>(
    s: Step<D, M>,
    now: i64,
    raw: Seq<u8>,
    args: Seq<Seq<u8>>,
)
    requires
        asked(s, now, raw, args),
        called(args, "PERSIST"),
        args.len() == 2,
    ensures
        only(&s.a.shared.store, &s.b.shared.store, args[1]),
        told(s, now, args[1]),
        lacks(&s.a.shared.store, args[1], now) ==> s.says(resp::integer_reply(0)) && lacks(
            &s.b.shared.store,
            args[1],
            now,
        ),
        forall|v: Seq<u8>, e: i64| #[trigger]
            holds(&s.a.shared.store, args[1], v, e, now) ==> holds(
                &s.b.shared.store,
                args[1],
                v,
                0,
                now,
            ) && s.says(
                resp::integer_reply(
                    if e != 0 {
                        1
                    } else {
                        0
                    },
                ),
            ),
{
    let t = at(s, now);
    assert(steps::persist_step(t, raw, args[1])) by {
        lemma_called(args);
        lemma_sent(s, now, raw, args);
        reveal(plain);
    }
    lemma_seen(&s.a.shared.store, args[1], now);
    let f = |st: Status, v: OutView| steps::flag_reply(st.updated() && v.has_int && v.int == 1);
    let g = |st: Status, v: OutView| st.updated() && v.has_int && v.int == 1;
    let st = lemma_updates(
        t,
        s.a.sess.scratch,
        args[1],
        functions::bare_input(StringOp::Persist, now),
        raw,
        f,
        g,
    );
    lemma_seen(&s.b.shared.store, args[1], now);
}

/// TYPE answers `string` for a key that is there, `none` for one that is not.
pub proof fn type_tells_whether_there_is_a_string<D: Device, M: Device>(
    s: Step<D, M>,
    now: i64,
    raw: Seq<u8>,
    args: Seq<Seq<u8>>,
)
    requires
        asked(s, now, raw, args),
        called(args, "TYPE"),
        args.len() == 2,
    ensures
        no_key(&s.a.shared.store, &s.b.shared.store),
        s.says(
            resp::simple_reply(
                bytes::text(
                    if lacks(&s.a.shared.store, args[1], now) {
                        "none"
                    } else {
                        "string"
                    },
                ),
            ),
        ),
{
    let t = at(s, now);
    assert(steps::type_step(t, args[1])) by {
        lemma_called(args);
        lemma_sent(s, now, raw, args);
        reveal(plain);
    }
    lemma_seen(&s.a.shared.store, args[1], now);
    let f = |st: Status, v: OutView|
        resp::simple_reply(
            if st is Found {
                bytes::text("string")
            } else {
                bytes::text("none")
            },
        );
    lemma_reads(t, args[1], functions::bare_input(StringOp::Exists, now), f);
}

// ---------------------------------------------------------------------------
// Refusals
// ---------------------------------------------------------------------------

/// GETRANGE refuses places that are no numbers.
pub proof fn getrange_refuses_bad_places<D: Device, M: Device>(
    s: Step<D, M>,
    now: i64,
    raw: Seq<u8>,
    args: Seq<Seq<u8>>,
)
    requires
        asked(s, now, raw, args),
        called(args, "GETRANGE") || called(args, "SUBSTR"),
        args.len() == 4,
        resp::argument_int(args[2]) is None || resp::argument_int(args[3]) is None,
    ensures
        s.says(resp::error_reply(bytes::text("ERR value is not an integer or out of range"))),
        s.b.shared == s.a.shared,
{
    assert(steps::getrange_step(at(s, now), args)) by {
        lemma_called(args);
        lemma_sent(s, now, raw, args);
        reveal(plain);
    }
}

/// SET names what is wrong: the first option that is not in order decides, and
/// nothing is changed.
pub proof fn set_names_what_is_wrong<D: Device, M: Device>(
    s: Step<D, M>,
    now: i64,
    raw: Seq<u8>,
    args: Seq<Seq<u8>>,
    j: int,
)
    requires
        asked(s, now, raw, args),
        called(args, "SET"),
    ensures
        args.len() < 3 ==> s.b.shared == s.a.shared && s.says(
            resp::error_reply(bytes::text("ERR wrong number of arguments for 'set' command")),
        ),
        args.len() >= 3 && arguments::fine_up_to(args, 3, j) && j < args.len() && (
        arguments::is_expiry(args[j]) && j + 1 < args.len() && resp::argument_int(args[j + 1]) is None)
            ==> s.b.shared == s.a.shared && s.says(
            resp::error_reply(bytes::text("ERR value is not an integer or out of range")),
        ),
        args.len() >= 3 && arguments::fine_up_to(args, 3, j) && j < args.len() && (
        arguments::is_expiry(args[j]) && j + 1 == args.len()) ==> s.b.shared == s.a.shared && s.says(
            resp::error_reply(bytes::text("ERR syntax error")),
        ),
        args.len() >= 3 && arguments::fine_up_to(args, 3, j) && j < args.len()
            && !arguments::is_expiry(args[j]) && !arguments::is_word(args[j], "NX")
            && !arguments::is_word(args[j], "XX") && !arguments::is_word(args[j], "GET")
            && !arguments::is_word(args[j], "KEEPTTL") ==> s.b.shared == s.a.shared && s.says(
            resp::error_reply(bytes::text("ERR syntax error")),
        ),
        args.len() >= 3 && arguments::well_put(args, 3) && arguments::says(args, 3, "NX")
            && arguments::says(args, 3, "XX") ==> s.b.shared == s.a.shared && s.says(
            resp::error_reply(bytes::text("ERR syntax error")),
        ),
{
    assert(steps::set_step(at(s, now), raw, args)) by {
        lemma_called(args);
        lemma_sent(s, now, raw, args);
        reveal(plain);
    }
    arguments::the_first_bad_option_decides(args, j, now);
}

/// GETEX with options that are not in order changes nothing.
pub proof fn getex_refuses_bad_options<D: Device, M: Device>(
    s: Step<D, M>,
    now: i64,
    raw: Seq<u8>,
    args: Seq<Seq<u8>>,
)
    requires
        asked(s, now, raw, args),
        called(args, "GETEX"),
        args.len() > 2,
        !arguments::getex_well_put(args, 2),
    ensures
        s.b.shared == s.a.shared,
        s.says(resp::error_reply(bytes::text("ERR syntax error"))) || s.says(
            resp::error_reply(bytes::text("ERR value is not an integer or out of range")),
        ),
{
    assert(steps::getex_step(at(s, now), raw, args)) by {
        lemma_called(args);
        lemma_sent(s, now, raw, args);
        reveal(plain);
    }
    arguments::getex_options_say_what_they_say(args, now);
}

/// LASTSAVE answers when the last checkpoint was taken, in whole seconds.
pub proof fn lastsave_answers_in_seconds<D: Device, M: Device>(
    s: Step<D, M>,
    now: i64,
    raw: Seq<u8>,
    args: Seq<Seq<u8>>,
)
    requires
        asked(s, now, raw, args),
        called(args, "LASTSAVE"),
        s.a.shared.last_save >= 0,
    ensures
        s.b.shared == s.a.shared,
        exists|n: int|
            1000 * n <= s.a.shared.last_save < 1000 * (n + 1) && s.says(
                #[trigger] resp::integer_reply(n),
            ),
{
    lemma_called(args);
    lemma_sent(s, now, raw, args);
    reveal(plain);
    let n = s.a.shared.last_save as int / 1000;
    assert(s.says(resp::integer_reply(n)));
}

} // verus!
