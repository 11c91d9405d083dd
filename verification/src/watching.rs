//! What MULTI, EXEC, DISCARD and WATCH are for: commands that run together, or
//! not at all once a key that matters was written by somebody else.
use crate::arguments;
use crate::bytes;
use crate::device::Device;
use crate::meaning;
use crate::resp;
use crate::steps;
use crate::steps::{SessView, Step, World};
use crate::store::{LockType, Store};
use crate::wire;
use vstd::prelude::*;

verus! {

/// Commands that act at once even inside MULTI go by one of six names.
pub proof fn control_commands_have_names(args: Seq<Seq<u8>>)
    requires
        args.len() > 0,
    ensures
        arguments::is_control(arguments::name_of(args[0])) <==> meaning::called(args, "EXEC")
            || meaning::called(args, "DISCARD") || meaning::called(args, "MULTI") || meaning::called(
            args,
            "WATCH",
        ) || meaning::called(args, "RESET") || meaning::called(args, "QUIT"),
{
}

/// What is watched of a key: its slot and the version there.
pub open spec fn mark_of<D: Device, M: Device>(w: World<D, M>, key: Seq<u8>) -> (usize, u64) {
    (w.shared.watch.slot(key) as usize, w.shared.watch@[w.shared.watch.slot(key)])
}

proof fn lemma_watch<D: Device, M: Device>(s: Step<D, M>, now: i64, raw: Seq<u8>, args: Seq<Seq<u8>>)
    requires
        meaning::sent(s, now, raw, args),
        meaning::called(args, "WATCH"),
        args.len() >= 2,
        !s.a.sess.in_multi,
        !s.a.sess.replay,
    ensures
        steps::watch_step(meaning::at(s, now), args),
{
    meaning::lemma_called(args);
    meaning::lemma_sent(s, now, raw, args);
    reveal(meaning::plain);
}

/// WATCH remembers every key that it names, as it is now, besides those that
/// were watched before, and touches nothing else.
pub proof fn watch_remembers_every_key<D: Device, M: Device>(
    s: Step<D, M>,
    now: i64,
    raw: Seq<u8>,
    args: Seq<Seq<u8>>,
)
    requires
        meaning::sent(s, now, raw, args),
        meaning::called(args, "WATCH"),
        args.len() >= 2,
        !s.a.sess.in_multi,
        !s.a.sess.replay,
    ensures
        s.says(bytes::text("+OK\r\n")),
        s.b.shared == s.a.shared,
        forall|i: int|
            1 <= i < args.len() ==> s.b.sess.watches.contains(mark_of(s.a, #[trigger] args[i])),
        forall|w: (usize, u64)| #[trigger]
            s.a.sess.watches.contains(w) ==> s.b.sess.watches.contains(w),
        forall|w: (usize, u64)| #[trigger]
            s.b.sess.watches.contains(w) ==> s.a.sess.watches.contains(w) || exists|i: int|
                1 <= i < args.len() && w == mark_of(s.a, #[trigger] args[i]),
        s.b.sess == (SessView { watches: s.b.sess.watches, now, ..s.a.sess }),
{
    lemma_watch(s, now, raw, args);
    let f = |k: Seq<u8>| steps::watched(&s.a.shared.watch, k);
    let old_marks = s.a.sess.watches;
    let new_marks = s.b.sess.watches;
    let n = old_marks.len() as int;
    assert(new_marks =~= old_marks + args.skip(1).map_values(
        |k: Seq<u8>| steps::watched(&s.a.shared.watch, k),
    ));
    assert forall|i: int| 1 <= i < args.len() implies new_marks.contains(
        mark_of(s.a, #[trigger] args[i]),
    ) by {
        assert(args.skip(1)[i - 1] == args[i]);
        assert(new_marks[n + i - 1] == mark_of(s.a, args[i]));
    }
    assert forall|w: (usize, u64)| #[trigger] old_marks.contains(w) implies new_marks.contains(w) by {
        let i = choose|i: int| 0 <= i < old_marks.len() && old_marks[i] == w;
        assert(new_marks[i] == w);
    }
    assert forall|w: (usize, u64)| #[trigger] new_marks.contains(w) implies old_marks.contains(w)
        || exists|i: int| 1 <= i < args.len() && w == mark_of(s.a, #[trigger] args[i]) by {
        let i = choose|i: int| 0 <= i < new_marks.len() && new_marks[i] == w;
        if i < n {
            assert(old_marks[i] == w);
        } else {
            assert(args.skip(1)[i - n] == args[i - n + 1]);
            assert(w == mark_of(s.a, args[i - n + 1]));
        }
    }
}

/// WATCH inside MULTI is refused.
pub proof fn watch_inside_multi_is_refused<D: Device, M: Device>(
    s: Step<D, M>,
    now: i64,
    raw: Seq<u8>,
    args: Seq<Seq<u8>>,
)
    requires
        meaning::sent(s, now, raw, args),
        meaning::called(args, "WATCH"),
        args.len() >= 2,
        s.a.sess.in_multi,
        !s.a.sess.replay,
    ensures
        s.says(resp::error_reply(bytes::text("ERR WATCH inside MULTI is not allowed"))),
        s.b.shared == s.a.shared,
        s.b.sess == (SessView { now, ..s.a.sess }),
{
    reveal(meaning::sent);
    reveal(meaning::kind);
    meaning::lemma_called(args);
}

/// MULTI opens a transaction and keeps what is watched; a second one is refused.
pub proof fn multi_opens_a_transaction<D: Device, M: Device>(
    s: Step<D, M>,
    now: i64,
    raw: Seq<u8>,
    args: Seq<Seq<u8>>,
)
    requires
        meaning::sent(s, now, raw, args),
        meaning::called(args, "MULTI"),
        !s.a.sess.replay,
    ensures
        s.b.shared == s.a.shared,
        s.b.sess.in_multi,
        s.b.sess.watches == s.a.sess.watches,
        !s.a.sess.in_multi ==> s.says(bytes::text("+OK\r\n")) && !s.b.sess.dirty
            && s.b.sess.queued.len() == 0,
        s.a.sess.in_multi ==> s.says(
            resp::error_reply(bytes::text("ERR MULTI calls can not be nested")),
        ) && s.b.sess.queued == s.a.sess.queued && s.b.sess.dirty == s.a.sess.dirty,
{
    reveal(meaning::sent);
    reveal(meaning::kind);
    meaning::lemma_called(args);
}

/// Inside MULTI a command is put at the end of the queue and nothing else
/// happens; one that may not be queued spoils the transaction.
pub proof fn commands_are_queued_in_order<D: Device, M: Device>(
    s: Step<D, M>,
    now: i64,
    raw: Seq<u8>,
    args: Seq<Seq<u8>>,
)
    requires
        meaning::sent(s, now, raw, args),
        args.len() > 0,
        s.a.sess.in_multi,
        !s.a.sess.replay,
        !meaning::called(args, "EXEC") && !meaning::called(args, "DISCARD") && !meaning::called(
            args,
            "MULTI",
        ) && !meaning::called(args, "WATCH") && !meaning::called(args, "RESET") && !meaning::called(
            args,
            "QUIT",
        ),
    ensures
        s.b.shared == s.a.shared,
        s.b.sess.in_multi,
        s.b.sess.watches == s.a.sess.watches,
        ({
            let barred = meaning::called(args, "SUBSCRIBE") || meaning::called(args, "UNSUBSCRIBE")
                || meaning::called(args, "PSUBSCRIBE");
            &&& !barred ==> s.says(bytes::text("+QUEUED\r\n")) && s.b.sess.queued
                == s.a.sess.queued.push(raw) && s.b.sess.dirty == s.a.sess.dirty
            &&& barred ==> s.says(
                resp::error_reply(bytes::text("ERR command not allowed in transaction")),
            ) && s.b.sess.dirty
        }),
{
    reveal(meaning::sent);
    control_commands_have_names(args);
}

/// DISCARD drops the queue and what is watched; RESET does so everywhere.
pub proof fn discard_drops_the_transaction<D: Device, M: Device>(
    s: Step<D, M>,
    now: i64,
    raw: Seq<u8>,
    args: Seq<Seq<u8>>,
)
    requires
        meaning::sent(s, now, raw, args),
        meaning::called(args, "DISCARD") || meaning::called(args, "RESET"),
        !s.a.sess.replay,
    ensures
        s.b.shared == s.a.shared,
        s.a.sess.in_multi || meaning::called(args, "RESET") ==> !s.b.sess.in_multi && !s.b.sess.dirty
            && s.b.sess.queued.len() == 0 && s.b.sess.watches.len() == 0,
        s.a.sess.in_multi && meaning::called(args, "DISCARD") ==> s.says(bytes::text("+OK\r\n")),
        !s.a.sess.in_multi && meaning::called(args, "DISCARD") ==> s.says(
            resp::error_reply(bytes::text("ERR DISCARD without MULTI")),
        ) && s.b.sess.watches == s.a.sess.watches,
{
    reveal(meaning::sent);
    reveal(meaning::kind);
    meaning::lemma_called(args);
}

/// UNWATCH forgets all that is watched.
pub proof fn unwatch_forgets<D: Device, M: Device>(
    s: Step<D, M>,
    now: i64,
    raw: Seq<u8>,
    args: Seq<Seq<u8>>,
)
    requires
        meaning::sent(s, now, raw, args),
        meaning::called(args, "UNWATCH"),
        !s.a.sess.in_multi,
        !s.a.sess.replay,
    ensures
        s.b.shared == s.a.shared,
        s.b.sess == (SessView { watches: Seq::empty(), now, ..s.a.sess }),
        s.says(bytes::text("+OK\r\n")),
{
    meaning::lemma_called(args);
    meaning::lemma_sent(s, now, raw, args);
    reveal(meaning::plain);
}

proof fn lemma_exec<D: Device, M: Device>(s: Step<D, M>, now: i64, raw: Seq<u8>, args: Seq<Seq<u8>>)
    requires
        meaning::sent(s, now, raw, args),
        meaning::called(args, "EXEC"),
        !s.a.sess.replay,
    ensures
        steps::exec_step(meaning::at(s, now)),
{
    reveal(meaning::sent);
    reveal(meaning::kind);
    meaning::lemma_called(args);
}

/// A key that is watched has been written since: its mark is not what it was.
pub open spec fn stale<D: Device, M: Device>(w: World<D, M>) -> bool {
    exists|i: int|
        0 <= i < w.sess.watches.len() && w.shared.watch@[(#[trigger] w.sess.watches[i]).0 as int]
            != w.sess.watches[i].1
}

/// EXEC refuses: without MULTI, after a command that could not be queued, and
/// after a write to a key that is watched. Then nothing is changed but that the
/// transaction is over.
pub proof fn exec_refuses_a_spoilt_transaction<D: Device, M: Device>(
    s: Step<D, M>,
    now: i64,
    raw: Seq<u8>,
    args: Seq<Seq<u8>>,
)
    requires
        meaning::sent(s, now, raw, args),
        meaning::called(args, "EXEC"),
        !s.a.sess.replay,
        !s.a.sess.in_multi || s.a.sess.dirty || stale(s.a),
    ensures
        s.b.shared == s.a.shared,
        !s.b.sess.in_multi,
        !s.a.sess.in_multi ==> s.says(resp::error_reply(bytes::text("ERR EXEC without MULTI"))),
        s.a.sess.in_multi ==> s.b.sess.queued.len() == 0 && s.b.sess.watches.len() == 0
            && !s.b.sess.dirty,
        s.a.sess.in_multi && s.a.sess.dirty ==> s.says(
            resp::error_reply(
                bytes::text("EXECABORT Transaction discarded because of previous errors."),
            ),
        ),
        s.a.sess.in_multi && !s.a.sess.dirty ==> s.says(bytes::text("*-1\r\n")),
{
    lemma_exec(s, now, raw, args);
}

/// A transaction is refused if any key named by WATCH was written by somebody
/// else in the meantime: EXEC answers the null array and leaves every key alone.
pub proof fn a_write_to_any_watched_key_stops_exec<D: Device, M: Device>(
    s: Step<D, M>,
    t: Step<D, M>,
    u: Step<D, M>,
    times: (i64, i64, i64),
    raws: (Seq<u8>, Seq<u8>, Seq<u8>),
    watch: Seq<Seq<u8>>,
    set: Seq<Seq<u8>>,
    exec: Seq<Seq<u8>>,
    i: int,
)
    requires
        // One client watches keys,
        meaning::sent(s, times.0, raws.0, watch),
        meaning::called(watch, "WATCH"),
        watch.len() >= 2,
        !s.a.sess.in_multi && !s.a.sess.replay,
        // another one writes any of them,
        t.a.shared == s.b.shared,
        meaning::asked(t, times.1, raws.1, set),
        meaning::called(set, "SET"),
        set.len() == 3,
        1 <= i < watch.len(),
        set[1] == watch[i],
        // and the first one, which has opened a transaction, executes it.
        u.a.shared == t.b.shared,
        u.a.sess.watches == s.b.sess.watches,
        u.a.sess.in_multi && !u.a.sess.dirty && !u.a.sess.replay,
        meaning::sent(u, times.2, raws.2, exec),
        meaning::called(exec, "EXEC"),
    ensures
        u.says(bytes::text("*-1\r\n")),
        u.b.shared == u.a.shared,
        meaning::holds(&u.b.shared.store, watch[i], set[2], 0, times.1),
{
    watch_remembers_every_key(s, times.0, raws.0, watch);
    meaning::set_writes_the_value(t, times.1, raws.1, set);
    let key = watch[i];
    t.a.shared.watch.lemma_slot(key);
    let m = mark_of(s.a, key);
    assert(s.b.sess.watches.contains(mark_of(s.a, watch[i])));
    let k = choose|k: int| 0 <= k < u.a.sess.watches.len() && u.a.sess.watches[k] == m;
    assert(u.a.shared.watch@[u.a.sess.watches[k].0 as int] != u.a.sess.watches[k].1);
    assert(stale(u.a));
    exec_refuses_a_spoilt_transaction(u, times.2, raws.2, exec);
}

/// What any command does to a watched key is noticed in the same way.
pub proof fn a_changed_mark_stops_exec<D: Device, M: Device>(
    s: Step<D, M>,
    u: Step<D, M>,
    times: (i64, i64),
    raws: (Seq<u8>, Seq<u8>),
    watch: Seq<Seq<u8>>,
    exec: Seq<Seq<u8>>,
    i: int,
)
    requires
        meaning::sent(s, times.0, raws.0, watch),
        meaning::called(watch, "WATCH"),
        watch.len() >= 2,
        !s.a.sess.in_multi && !s.a.sess.replay,
        s.a.shared.watch.inv(),
        1 <= i < watch.len(),
        ({
            let slot = s.a.shared.watch.slot(watch[i]);
            u.a.shared.watch@[slot] != s.a.shared.watch@[slot]
        }),
        u.a.sess.watches == s.b.sess.watches,
        u.a.sess.in_multi && !u.a.sess.dirty && !u.a.sess.replay,
        meaning::sent(u, times.1, raws.1, exec),
        meaning::called(exec, "EXEC"),
    ensures
        u.says(bytes::text("*-1\r\n")),
        u.b.shared == u.a.shared,
{
    watch_remembers_every_key(s, times.0, raws.0, watch);
    let key = watch[i];
    s.a.shared.watch.lemma_slot(key);
    let m = mark_of(s.a, key);
    assert(s.b.sess.watches.contains(mark_of(s.a, watch[i])));
    let k = choose|k: int| 0 <= k < u.a.sess.watches.len() && u.a.sess.watches[k] == m;
    assert(u.a.shared.watch@[u.a.sess.watches[k].0 as int] != u.a.sess.watches[k].1);
    assert(stale(u.a));
    exec_refuses_a_spoilt_transaction(u, times.1, raws.1, exec);
}

/// The commands of a queue run one after the other, from `ws[0]` on.
pub open spec fn ran_in_order<D: Device, M: Device>(
    ws: Seq<World<D, M>>,
    outs: Seq<Seq<u8>>,
    q: Seq<Seq<u8>>,
) -> bool {
    &&& ws.len() == q.len() + 1
    &&& outs.len() == q.len() + 1
    &&& forall|i: int| 0 <= i < q.len() ==> #[trigger] ran_at(ws, outs, q, i)
}

/// The command at `i` of a queue does what it does by itself. (EXEC has nothing
/// to execute there, and what cannot be read is an error.)
pub open spec fn ran_at<D: Device, M: Device>(
    ws: Seq<World<D, M>>,
    outs: Seq<Seq<u8>>,
    q: Seq<Seq<u8>>,
    i: int,
) -> bool {
    let s = Step { a: ws[i], b: ws[i + 1], out0: outs[i], out1: outs[i + 1] };
    match arguments::queued_args(q[i]) {
        Some(args) if args.len() > 0 => if meaning::kind(args) is Exec {
            s.answers(resp::error_reply(bytes::text("ERR EXEC without MULTI")))
        } else {
            meaning::plain(s, meaning::kind(args), q[i], args)
        },
        _ => s.answers(resp::error_reply(bytes::text("ERR bad queued command"))),
    }
}

pub open spec fn same_values<D: Device>(o: &Store<D>, n: &Store<D>) -> bool {
    forall|k: Seq<u8>| #[trigger] n.get(k) == o.get(k)
}

/// A transaction that was not spoilt runs the whole queue, in order, and answers
/// with as many replies as there are commands; nothing else touches a key, and
/// afterwards the session is out of it.
pub proof fn exec_runs_the_whole_queue<D: Device, M: Device>(
    s: Step<D, M>,
    now: i64,
    raw: Seq<u8>,
    args: Seq<Seq<u8>>,
)
    requires
        meaning::sent(s, now, raw, args),
        meaning::called(args, "EXEC"),
        s.a.sess.in_multi && !s.a.sess.dirty && !s.a.sess.replay,
        !stale(s.a),
    ensures
        exists|ws: Seq<World<D, M>>, outs: Seq<Seq<u8>>| #[trigger]
            ran_in_order(ws, outs, s.a.sess.queued) && {
                let n = s.a.sess.queued.len() as int;
                &&& same_values(&s.a.shared.store, &ws[0].shared.store)
                &&& ws[0].shared.watch == s.a.shared.watch
                &&& ws[0].sess.now == now
                &&& outs[0] == s.out0 + resp::array_header(n)
                &&& same_values(&ws[n].shared.store, &s.b.shared.store)
                &&& s.b.shared.watch == ws[n].shared.watch
                &&& s.out1 == outs[n]
                &&& !ws[0].sess.in_multi && ws[0].sess.queued.len() == 0 && ws[0].sess.watches.len() == 0
                &&& s.b.sess.in_multi == ws[n].sess.in_multi
                &&& s.b.sess.watches == ws[n].sess.watches
            },
{
    let t = meaning::at(s, now);
    lemma_exec(s, now, raw, args);
    assert(!steps::conflict(s.a.shared.watch@, s.a.sess.watches)) by {
        if steps::conflict(s.a.shared.watch@, s.a.sess.watches) {
            let i = choose|i: int|
                0 <= i < s.a.sess.watches.len() && s.a.shared.watch@[(
                #[trigger] s.a.sess.watches[i]).0 as int] != s.a.sess.watches[i].1;
            assert(stale(s.a));
        }
    }
    let q = s.a.sess.queued;
    let n = q.len() as int;
    let (w1, w2) = choose|w1: World<D, M>, w2: World<D, M>| #[trigger] steps::executed(t, w1, w2);
    let f = steps::queued_item::<D, M>(q);
    let m = Step { a: w1, b: w2, out0: s.out0 + resp::array_header(n), out1: s.out1 };
    assert(m.repeats(n, f));
    let (ws, outs) = choose|ws: Seq<World<D, M>>, outs: Seq<Seq<u8>>| #[trigger]
        steps::chained(ws, outs, n, f) && ws[0] == m.a && ws[n] == m.b && outs[0] == m.out0
            && outs[n] == m.out1;
    assert forall|i: int| 0 <= i < q.len() implies #[trigger] ran_at(ws, outs, q, i) by {
        assert(f(i, steps::link(ws, outs, i)));
        assert(steps::queued_step(steps::link(ws, outs, i), q[i]));
        lemma_queued(steps::link(ws, outs, i), q[i]);
    }
    assert(ran_in_order(ws, outs, q));
    assert(same_values(&s.a.shared.store, &ws[0].shared.store)) by {
        assert(w1.shared.store.newest_same(&s.a.shared.store) || w1.shared.store == s.a.shared.store);
    }
    assert(same_values(&ws[n].shared.store, &s.b.shared.store)) by {
        assert(s.b.shared.store.newest_same(&w2.shared.store) || s.b.shared.store == w2.shared.store);
    }
}

proof fn lemma_queued<D: Device, M: Device>(s: Step<D, M>, raw: Seq<u8>)
    requires
        steps::queued_step(s, raw),
    ensures
        match arguments::queued_args(raw) {
            Some(args) if args.len() > 0 => if meaning::kind(args) is Exec {
                s.answers(resp::error_reply(bytes::text("ERR EXEC without MULTI")))
            } else {
                meaning::plain(s, meaning::kind(args), raw, args)
            },
            _ => s.answers(resp::error_reply(bytes::text("ERR bad queued command"))),
        },
{
    reveal(meaning::kind);
    reveal(meaning::plain);
}

/// A command that was queued as it was sent is carried out with the arguments
/// that it was sent with.
pub proof fn queued_commands_keep_their_arguments(parts: Seq<Seq<u8>>)
    requires
        parts.len() <= resp::MAX_ARRAY_LEN,
        forall|i: int| 0 <= i < parts.len() ==> (#[trigger] parts[i]).len() <= i64::MAX,
    ensures
        arguments::queued_args(wire::array_of(parts)) == Some(parts),
{
    let raw = wire::array_of(parts);
    wire::encoded_commands_are_read_back(parts, Seq::empty());
    assert(raw + Seq::<u8>::empty() =~= raw);
}

/// A transaction takes the latches of every key that one of its commands
/// touches.
pub proof fn a_transaction_locks_all_its_keys(q: Seq<Seq<u8>>, i: int, k: (Seq<u8>, LockType))
    requires
        0 <= i < q.len(),
        arguments::queued_args(q[i]) matches Some(args) && arguments::keys_of(args).contains(k),
    ensures
        steps::txn_keys(q).contains(k),
    decreases q.len(),
{
    let less = steps::txn_keys(q.drop_last());
    let more = match arguments::queued_args(q.last()) {
        Some(args) => arguments::keys_of(args),
        None => Seq::empty(),
    };
    let all = steps::txn_keys(q);
    assert(all == less + more);
    if i < q.len() - 1 {
        assert(q.drop_last()[i] == q[i]);
        a_transaction_locks_all_its_keys(q.drop_last(), i, k);
        let j = choose|j: int| 0 <= j < less.len() && less[j] == k;
        assert(all[j] == k);
    } else {
        let j = choose|j: int| 0 <= j < more.len() && more[j] == k;
        assert(all[less.len() + j] == k);
    }
}

} // verus!
