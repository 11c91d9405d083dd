//! What commands on many keys are for.
use crate::aof::AofOp;
use crate::arguments;
use crate::bytes;
use crate::device::Device;
use crate::glob;
use crate::laws;
use crate::meaning;
use crate::resp;
use crate::shared;
use crate::shared::SaveError;
use crate::steps;
use crate::steps::{Step, World};
use crate::store::{Status, Store};
use crate::wire;
use vstd::prelude::*;
use vstd::wrapping::u64_specs;

verus! {

// ---------------------------------------------------------------------------
// MSET, MGET
// ---------------------------------------------------------------------------

/// The key of a pair of MSET.
pub open spec fn key_at(args: Seq<Seq<u8>>, i: int) -> Seq<u8> {
    args[2 * i + 1]
}

/// No later pair of MSET is for the same key.
pub open spec fn last_for_key(args: Seq<Seq<u8>>, i: int) -> bool {
    forall|j: int| i < j && 2 * j + 2 < args.len() ==> #[trigger] key_at(args, j) != key_at(args, i)
}

proof fn lemma_last_value(args: Seq<Seq<u8>>, n: int, i: int, key: Seq<u8>)
    requires
        0 <= n,
        0 <= i < n ==> key_at(args, i) == key,
        i < n,
        forall|j: int| i < j < n ==> #[trigger] key_at(args, j) != key,
        -1 <= i,
    ensures
        i >= 0 ==> laws::last_value(args, n, key) == Some(args[2 * i + 2]),
        i < 0 ==> laws::last_value(args, n, key) is None,
    decreases n,
{
    if n > 0 && i < n - 1 {
        assert(key_at(args, n - 1) != key);
        lemma_last_value(args, n - 1, i, key);
    }
}

/// How often the slot of a key was counted up while the first `j` pairs of MSET
/// were written.
proof fn lemma_alarms<D: Device, M: Device>(
    ws: Seq<World<D, M>>,
    outs: Seq<Seq<u8>>,
    n: int,
    args: Seq<Seq<u8>>,
    j: int,
    slot: int,
) -> (c: int)
    requires
        steps::chained(ws, outs, n, steps::mset_item(args)),
        0 <= j <= n,
        ws[0].shared.watch.inv(),
        0 <= slot < ws[0].shared.watch@.len(),
    ensures
        ws[j].shared.watch.inv(),
        ws[j].shared.watch.same_slots(&ws[0].shared.watch),
        0 <= c <= j,
        ws[j].shared.watch@[slot] == (ws[0].shared.watch@[slot] + c) % 0x1_0000_0000_0000_0000,
        forall|i: int|
            0 <= i < j && ws[0].shared.watch.slot(#[trigger] key_at(args, i)) == slot ==> c > 0,
    decreases j,
{
    if j == 0 {
        0
    } else {
        let i = j - 1;
        let c = lemma_alarms(ws, outs, n, args, i, slot);
        let f = steps::mset_item::<D, M>(args);
        let st = steps::link(ws, outs, i);
        assert(f(i, st));
        let key = args[2 * i + 1];
        assert(steps::pair_step(st, key, args[2 * i + 2]));
        let o = ws[i].shared.watch;
        o.lemma_slot(key);
        assert(o.slot(key) == ws[0].shared.watch.slot(key));
        assert forall|k: Seq<u8>| #[trigger] ws[j].shared.watch.slot(k) == ws[0].shared.watch.slot(k) by {
            assert(ws[j].shared.watch.slot(k) == o.slot(k));
        }
        if o.slot(key) == slot {
            assert(ws[j].shared.watch@[slot] == u64_specs::wrapping_add(o@[slot], 1));
            c + 1
        } else {
            c
        }
    }
}

/// MSET writes every pair for good: each key holds the last value given for it,
/// and keys that are not named are left alone. Whoever watches one of its keys
/// notices.
pub proof fn mset_writes_every_key<D: Device, M: Device>(
    s: Step<D, M>,
    now: i64,
    raw: Seq<u8>,
    args: Seq<Seq<u8>>,
)
    requires
        meaning::asked(s, now, raw, args),
        meaning::called(args, "MSET"),
        3 <= args.len() <= resp::MAX_ARRAY_LEN,
        args.len() % 2 == 1,
    ensures
        s.says(bytes::text("+OK\r\n")),
        forall|i: int|
            0 <= i && 2 * i + 2 < args.len() && last_for_key(args, i) ==> meaning::holds(
                &s.b.shared.store,
                #[trigger] key_at(args, i),
                args[2 * i + 2],
                0,
                now,
            ),
        forall|i: int|
            0 <= i && 2 * i + 2 < args.len() ==> meaning::alarmed(s, #[trigger] key_at(args, i)),
        forall|k: Seq<u8>|
            (forall|j: int| 0 <= j && 2 * j + 2 < args.len() ==> #[trigger] key_at(args, j) != k)
                ==> #[trigger] s.b.shared.store.get(k) == s.a.shared.store.get(k),
{
    let t = meaning::at(s, now);
    assert(steps::mset_step(t, raw, args)) by {
        meaning::lemma_called(args);
        meaning::lemma_sent(s, now, raw, args);
        reveal(meaning::plain);
    }
    let n = (args.len() - 1) / 2;
    assert forall|i: int|
        0 <= i && 2 * i + 2 < args.len() && last_for_key(args, i) implies meaning::holds(
        &s.b.shared.store,
        #[trigger] key_at(args, i),
        args[2 * i + 2],
        0,
        now,
    ) by {
        let key = args[2 * i + 1];
        lemma_last_value(args, n, i, key);
        laws::mset_writes_every_pair(t, raw, args, key);
    }
    assert forall|k: Seq<u8>|
        (forall|j: int| 0 <= j && 2 * j + 2 < args.len() ==> #[trigger] key_at(args, j) != k)
        implies #[trigger] s.b.shared.store.get(k) == s.a.shared.store.get(k) by {
        lemma_last_value(args, n, -1, k);
        laws::mset_writes_every_pair(t, raw, args, k);
    }
    let mid = choose|mid: World<D, M>| #[trigger] steps::mset_ran(t, mid, raw, args);
    let m = Step { b: mid, out1: t.out0, ..t };
    let f = steps::mset_item::<D, M>(args);
    assert(m.repeats(n, f));
    let (ws, outs) = choose|ws: Seq<World<D, M>>, outs: Seq<Seq<u8>>| #[trigger]
        steps::chained(ws, outs, n, f) && ws[0] == m.a && ws[n] == m.b && outs[0] == m.out0
            && outs[n] == m.out1;
    assert forall|i: int| 0 <= i && 2 * i + 2 < args.len() implies meaning::alarmed(
        s,
        #[trigger] key_at(args, i),
    ) by {
        let key = args[2 * i + 1];
        s.a.shared.watch.lemma_slot(key);
        let slot = s.a.shared.watch.slot(key);
        let c = lemma_alarms(ws, outs, n, args, n, slot);
        assert(ws[0].shared.watch.slot(key_at(args, i)) == slot);
        assert(c > 0);
    }
}

/// Replies, one after the other.
pub open spec fn together(parts: Seq<Seq<u8>>) -> Seq<u8>
    decreases parts.len(),
{
    if parts.len() == 0 {
        Seq::empty()
    } else {
        together(parts.drop_last()) + parts.last()
    }
}

proof fn lemma_parts<D: Device>(store: &Store<D>, args: Seq<Seq<u8>>, n: int, now: i64)
    requires
        0 <= n < args.len(),
    ensures
        laws::get_replies(store, args, n, now) == together(
            Seq::new(n as nat, |i: int| laws::get_reply(store.get(args[i + 1]), now)),
        ),
    decreases n,
{
    let parts = Seq::new(n as nat, |i: int| laws::get_reply(store.get(args[i + 1]), now));
    if n > 0 {
        lemma_parts(store, args, n - 1, now);
        assert(parts.drop_last() =~= Seq::new(
            (n - 1) as nat,
            |i: int| laws::get_reply(store.get(args[i + 1]), now),
        ));
    }
}

/// The parts of a reply are the values of keys, in order.
pub open spec fn values_of<D: Device>(
    store: &Store<D>,
    keys: Seq<Seq<u8>>,
    now: i64,
    parts: Seq<Seq<u8>>,
) -> bool {
    &&& parts.len() == keys.len()
    &&& forall|i: int|
        0 <= i < keys.len() && meaning::lacks(store, keys[i], now) ==> #[trigger] parts[i]
            == bytes::text("$-1\r\n")
    &&& forall|i: int, v: Seq<u8>, e: i64|
        0 <= i < keys.len() && #[trigger] meaning::holds(store, keys[i], v, e, now) ==> parts[i]
            == resp::bulk_reply(v)
}

/// MGET answers as many replies as keys were named: the value of each, in order,
/// or that there is none.
pub proof fn mget_answers_all_values<D: Device, M: Device>(
    s: Step<D, M>,
    now: i64,
    raw: Seq<u8>,
    args: Seq<Seq<u8>>,
)
    requires
        meaning::asked(s, now, raw, args),
        meaning::called(args, "MGET"),
        args.len() >= 2,
    ensures
        meaning::no_key(&s.a.shared.store, &s.b.shared.store),
        exists|parts: Seq<Seq<u8>>| #[trigger]
            values_of(&s.a.shared.store, args.skip(1), now, parts) && s.out1 == s.out0
                + resp::array_header(args.len() - 1) + together(parts),
{
    let t = meaning::at(s, now);
    assert(steps::mget_step(t, args)) by {
        meaning::lemma_called(args);
        meaning::lemma_sent(s, now, raw, args);
        reveal(meaning::plain);
    }
    laws::mget_answers_every_key(t, args);
    let n = args.len() - 1;
    let o = s.a.shared.store;
    lemma_parts(&o, args, n, now);
    let parts = Seq::new(n as nat, |i: int| laws::get_reply(o.get(args[i + 1]), now));
    assert forall|i: int| 0 <= i < n implies (#[trigger] args.skip(1)[i]) == args[i + 1] && (
    meaning::lacks(&o, args[i + 1], now) ==> parts[i] == bytes::text("$-1\r\n")) && (forall|
        v: Seq<u8>,
        e: i64,
    | #[trigger]
        meaning::holds(&o, args[i + 1], v, e, now) ==> parts[i] == resp::bulk_reply(v)) by {
        meaning::lemma_seen(&o, args[i + 1], now);
    }
    assert(values_of(&o, args.skip(1), now, parts)) by {
        assert forall|i: int| 0 <= i < n && meaning::lacks(&o, args.skip(1)[i], now) implies
            #[trigger] parts[i] == bytes::text("$-1\r\n") by {
            assert(args.skip(1)[i] == args[i + 1]);
        }
    }
}

// ---------------------------------------------------------------------------
// EXISTS, DEL
// ---------------------------------------------------------------------------

/// The keys that are there at `now`, as often as they are named.
pub open spec fn present<D: Device>(store: &Store<D>, keys: Seq<Seq<u8>>, now: i64) -> Seq<Seq<u8>> {
    keys.filter(|k: Seq<u8>| !meaning::lacks(store, k, now))
}

proof fn lemma_there<D: Device>(store: &Store<D>, args: Seq<Seq<u8>>, n: int, now: i64)
    requires
        store.inv(),
        0 <= n < args.len(),
    ensures
        laws::there(store, args, n, now) == present(store, args.subrange(1, n + 1), now).len(),
    decreases n,
{
    reveal(Seq::filter);
    let keys = args.subrange(1, n + 1);
    if n > 0 {
        lemma_there(store, args, n - 1, now);
        assert(keys.drop_last() =~= args.subrange(1, n));
        assert(keys.last() == args[n]);
        laws::entries_are_well_formed(store, args[n]);
    }
}

/// EXISTS answers how many of the keys that it names are there; one that is
/// named twice counts twice.
pub proof fn exists_counts_the_keys<D: Device, M: Device>(
    s: Step<D, M>,
    now: i64,
    raw: Seq<u8>,
    args: Seq<Seq<u8>>,
)
    requires
        meaning::asked(s, now, raw, args),
        meaning::called(args, "EXISTS"),
        args.len() >= 2,
    ensures
        meaning::no_key(&s.a.shared.store, &s.b.shared.store),
        s.says(
            resp::integer_reply(present(&s.a.shared.store, args.skip(1), now).len() as int),
        ),
{
    let t = meaning::at(s, now);
    assert(steps::exists_step(t, args)) by {
        meaning::lemma_called(args);
        meaning::lemma_sent(s, now, raw, args);
        reveal(meaning::plain);
    }
    laws::exists_counts_what_is_there(t, args);
    lemma_there(&s.a.shared.store, args, args.len() - 1, now);
    assert(args.subrange(1, args.len() as int) =~= args.skip(1));
}

/// The keys among those named that have a record.
pub open spec fn recorded<D: Device>(store: &Store<D>, keys: Seq<Seq<u8>>) -> Set<Seq<u8>> {
    keys.to_set().filter(|k: Seq<u8>| store.get(k) is Some)
}

proof fn lemma_named(args: Seq<Seq<u8>>, n: int, key: Seq<u8>)
    requires
        0 <= n < args.len(),
    ensures
        laws::named(args, n, key) <==> args.subrange(1, n + 1).contains(key),
    decreases n,
{
    let keys = args.subrange(1, n + 1);
    if n > 0 {
        lemma_named(args, n - 1, key);
        let less = args.subrange(1, n);
        if less.contains(key) {
            let i = choose|i: int| 0 <= i < less.len() && less[i] == key;
            assert(keys[i] == key);
        }
        if args[n] == key {
            assert(keys[n - 1] == key);
        }
        if keys.contains(key) && args[n] != key {
            let i = choose|i: int| 0 <= i < keys.len() && keys[i] == key;
            assert(less[i] == key);
        }
    }
}

proof fn lemma_removed<D: Device>(store: &Store<D>, args: Seq<Seq<u8>>, n: int)
    requires
        0 <= n < args.len(),
    ensures
        recorded(store, args.subrange(1, n + 1)).finite(),
        laws::removed(store, args, n) == recorded(store, args.subrange(1, n + 1)).len(),
    decreases n,
{
    let now_set = recorded(store, args.subrange(1, n + 1));
    if n == 0 {
        assert(args.subrange(1, 1) =~= Seq::empty());
        assert(now_set =~= Set::empty());
    } else {
        lemma_removed(store, args, n - 1);
        let before = recorded(store, args.subrange(1, n));
        let k = args[n];
        lemma_named(args, n - 1, k);
        assert forall|x: Seq<u8>| now_set.contains(x) <==> before.contains(x) || (x == k && store.get(k)
            is Some) by {
            lemma_named(args, n, x);
            lemma_named(args, n - 1, x);
            assert(laws::named(args, n, x) <==> x == k || laws::named(args, n - 1, x));
        }
        if store.get(k) is Some && !before.contains(k) {
            assert(now_set =~= before.insert(k));
        } else {
            assert(now_set =~= before);
        }
    }
}

/// DEL removes every key that it names and no other, and answers how many there
/// were; a key that is named twice counts once.
pub proof fn del_removes_all_keys<D: Device, M: Device>(
    s: Step<D, M>,
    now: i64,
    raw: Seq<u8>,
    args: Seq<Seq<u8>>,
)
    requires
        meaning::asked(s, now, raw, args),
        meaning::called(args, "DEL") || meaning::called(args, "UNLINK"),
        args.len() >= 2,
    ensures
        s.says(resp::integer_reply(recorded(&s.a.shared.store, args.skip(1)).len() as int)),
        forall|i: int| 1 <= i < args.len() ==> s.b.shared.store.get(#[trigger] args[i]) is None,
        forall|k: Seq<u8>|
            !args.skip(1).contains(k) ==> #[trigger] s.b.shared.store.get(k)
                == s.a.shared.store.get(k),
{
    let t = meaning::at(s, now);
    assert(steps::del_step(t, raw, args)) by {
        meaning::lemma_called(args);
        meaning::lemma_sent(s, now, raw, args);
        reveal(meaning::plain);
    }
    let n = args.len() - 1;
    lemma_removed(&s.a.shared.store, args, n);
    assert(args.subrange(1, n + 1) =~= args.skip(1));
    laws::del_removes_every_key(t, raw, args, args[1]);
    assert forall|i: int| 1 <= i < args.len() implies s.b.shared.store.get(#[trigger] args[i]) is None by {
        lemma_named(args, n, args[i]);
        assert(args.skip(1)[i - 1] == args[i]);
        laws::del_removes_every_key(t, raw, args, args[i]);
    }
    assert forall|k: Seq<u8>| !args.skip(1).contains(k) implies #[trigger] s.b.shared.store.get(k)
        == s.a.shared.store.get(k) by {
        lemma_named(args, n, k);
        laws::del_removes_every_key(t, raw, args, k);
    }
}

/// How often the slot of a key was counted up while DEL removed its first `j`
/// keys; never only if the key is as it was.
proof fn lemma_removal_alarms<D: Device, M: Device>(
    ws: Seq<World<D, M>>,
    ss: Seq<Status>,
    args: Seq<Seq<u8>>,
    n: int,
    j: int,
    key: Seq<u8>,
) -> (c: int)
    requires
        steps::deletions(ws, ss, args, n),
        0 <= j <= n,
        ws[0].shared.watch.inv(),
    ensures
        ws[j].shared.watch.inv(),
        ws[j].shared.watch.same_slots(&ws[0].shared.watch),
        0 <= c <= j,
        ({
            let slot = ws[0].shared.watch.slot(key);
            ws[j].shared.watch@[slot] == (ws[0].shared.watch@[slot] + c) % 0x1_0000_0000_0000_0000
        }),
        c == 0 ==> ws[j].shared.store.get(key) == ws[0].shared.store.get(key),
    decreases j,
{
    let slot = ws[0].shared.watch.slot(key);
    ws[0].shared.watch.lemma_slot(key);
    if j == 0 {
        0
    } else {
        let i = j - 1;
        let c = lemma_removal_alarms(ws, ss, args, n, i, key);
        assert(steps::deletion_at(ws, ss, args, i));
        reveal(steps::delete_ran);
        let o = ws[i].shared.watch;
        let k = args[i + 1];
        o.lemma_slot(k);
        assert(o.slot(k) == ws[0].shared.watch.slot(k));
        assert forall|x: Seq<u8>| #[trigger] ws[j].shared.watch.slot(x) == ws[0].shared.watch.slot(x) by {
            assert(ws[j].shared.watch.slot(x) == o.slot(x));
        }
        if key != k {
            assert(ws[j].shared.store.get(key) == ws[i].shared.store.get(key));
        }
        if ss[i] is Deleted && o.slot(k) == slot {
            assert(ws[j].shared.watch@[slot] == u64_specs::wrapping_add(o@[slot], 1));
            c + 1
        } else {
            c
        }
    }
}

/// Whoever watches a key notices when DEL removes it.
pub proof fn del_is_noticed<D: Device, M: Device>(
    s: Step<D, M>,
    now: i64,
    raw: Seq<u8>,
    args: Seq<Seq<u8>>,
    key: Seq<u8>,
)
    requires
        meaning::asked(s, now, raw, args),
        meaning::called(args, "DEL") || meaning::called(args, "UNLINK"),
        2 <= args.len() <= resp::MAX_ARRAY_LEN,
    ensures
        meaning::told(s, now, key),
        args.skip(1).contains(key) && s.a.shared.store.get(key) is Some ==> meaning::alarmed(s, key),
{
    let t = meaning::at(s, now);
    assert(steps::del_step(t, raw, args)) by {
        meaning::lemma_called(args);
        meaning::lemma_sent(s, now, raw, args);
        reveal(meaning::plain);
    }
    let n = args.len() - 1;
    let (ws, ss) = choose|ws: Seq<World<D, M>>, ss: Seq<Status>| #[trigger]
        steps::deletions(ws, ss, args, n) && ws[0] == t.a && t.says(
            resp::integer_reply(steps::tally(ss, Status::Deleted) as int),
        ) && if steps::tally(ss, Status::Deleted) > 0 {
            steps::enters(ws[n], t.b, AofOp::Command, raw)
        } else {
            t.b == ws[n]
        };
    s.a.shared.watch.lemma_slot(key);
    let c = lemma_removal_alarms(ws, ss, args, n, n, key);
    assert(s.b.shared.watch == ws[n].shared.watch);
    assert(s.b.shared.store.get(key) == ws[n].shared.store.get(key));
    if args.skip(1).contains(key) && s.a.shared.store.get(key) is Some {
        del_removes_all_keys(s, now, raw, args);
        let i = choose|i: int| 0 <= i < args.skip(1).len() && args.skip(1)[i] == key;
        assert(args[i + 1] == key);
        assert(s.b.shared.store.get(args[i + 1]) is None);
        assert(c > 0);
    }
}

// ---------------------------------------------------------------------------
// The whole keyspace
// ---------------------------------------------------------------------------

/// A list of the keys that match a pattern: each of them once, and no other.
pub open spec fn lists<D: Device>(store: &Store<D>, pattern: Seq<u8>, keys: Seq<Seq<u8>>) -> bool {
    &&& keys.no_duplicates()
    &&& forall|k: Seq<u8>| #[trigger]
        keys.contains(k) <==> store.get(k) is Some && glob::glob(pattern, k)
}

/// KEYS answers every key that matches its pattern, once, and no other.
pub proof fn keys_answers_what_matches<D: Device, M: Device>(
    s: Step<D, M>,
    now: i64,
    raw: Seq<u8>,
    args: Seq<Seq<u8>>,
)
    requires
        meaning::asked(s, now, raw, args),
        meaning::called(args, "KEYS"),
        args.len() == 2,
    ensures
        s.b.shared == s.a.shared,
        exists|keys: Seq<Seq<u8>>| #[trigger]
            lists(&s.a.shared.store, args[1], keys) && s.says(wire::array_of(keys)),
{
    let t = meaning::at(s, now);
    assert(steps::keys_step(t, args[1])) by {
        meaning::lemma_called(args);
        meaning::lemma_sent(s, now, raw, args);
        reveal(meaning::plain);
    }
    lemma_flushed(&s.a.shared.store);
    let keys = choose|keys: Seq<Seq<u8>>| #[trigger]
        steps::listed(&s.a.shared.store, args[1], keys) && t.says(wire::array_of(keys));
    laws::keys_lists_exactly_what_matches(&s.a.shared.store, args[1], keys);
    assert(lists(&s.a.shared.store, args[1], keys));
}

proof fn lemma_flushed<D: Device>(store: &Store<D>)
    requires
        store.inv(),
        store.reliable(),
    ensures
        store.log@.dependable >= store.log@.flushed,
{
    store.lemma_reliable();
}

/// The argument after the option at `m`, or what matches everything.
pub open spec fn pattern_at(args: Seq<Seq<u8>>, m: int) -> Seq<u8> {
    if m >= 0 {
        args[2 + 2 * m + 1]
    } else {
        bytes::text("*")
    }
}

/// SCAN answers them all at once: the cursor 0, and every key that matches the
/// pattern after the last MATCH, or every key if there is none.
pub proof fn scan_answers_what_matches<D: Device, M: Device>(
    s: Step<D, M>,
    now: i64,
    raw: Seq<u8>,
    args: Seq<Seq<u8>>,
    m: int,
)
    requires
        meaning::asked(s, now, raw, args),
        meaning::called(args, "SCAN"),
        args.len() >= 2,
        forall|k: int|
            m < k && 2 + 2 * k + 1 < args.len() ==> !arguments::is_word(
                #[trigger] args[2 + 2 * k],
                "MATCH",
            ),
        m >= 0 ==> 2 + 2 * m + 1 < args.len() && arguments::is_word(args[2 + 2 * m], "MATCH"),
        m >= -1,
    ensures
        s.b.shared == s.a.shared,
        exists|keys: Seq<Seq<u8>>| #[trigger]
            lists(&s.a.shared.store, pattern_at(args, m), keys) && s.out1 == s.out0
                + resp::array_header(2) + resp::bulk_reply(bytes::text("0")) + wire::array_of(keys),
{
    let t = meaning::at(s, now);
    assert(steps::scan_step(t, args)) by {
        meaning::lemma_called(args);
        meaning::lemma_sent(s, now, raw, args);
        reveal(meaning::plain);
    }
    arguments::scan_takes_the_last_match(args, 2, bytes::text("*"));
    let pattern = pattern_at(args, m);
    if m >= 0 {
        assert(arguments::is_word(args[2 + 2 * m], "MATCH"));
    } else {
        assert forall|k: int| 0 <= k && 2 + 2 * k + 1 < args.len() implies !arguments::is_word(
            #[trigger] args[2 + 2 * k],
            "MATCH",
        ) by {
            assert(m < k);
        }
    }
    assert(arguments::match_from(args, 2, bytes::text("*")) == pattern);
    lemma_flushed(&s.a.shared.store);
    let head = t.out0 + resp::array_header(2) + resp::bulk_reply(bytes::text("0"));
    let u = Step { out0: head, ..t };
    assert(steps::keys_step(u, pattern));
    let keys = choose|keys: Seq<Seq<u8>>| #[trigger]
        steps::listed(&u.a.shared.store, pattern, keys) && u.says(wire::array_of(keys));
    laws::keys_lists_exactly_what_matches(&s.a.shared.store, pattern, keys);
    assert(lists(&s.a.shared.store, pattern, keys));
    assert(s.out1 == s.out0 + resp::array_header(2) + resp::bulk_reply(bytes::text("0"))
        + wire::array_of(keys));
}

/// DBSIZE answers how many keys have a record.
pub proof fn dbsize_counts_the_keys<D: Device, M: Device>(
    s: Step<D, M>,
    now: i64,
    raw: Seq<u8>,
    args: Seq<Seq<u8>>,
)
    requires
        meaning::asked(s, now, raw, args),
        meaning::called(args, "DBSIZE"),
    ensures
        s.b.shared == s.a.shared,
        s.says(
            resp::integer_reply(
                Set::new(|k: Seq<u8>| s.a.shared.store.get(k) is Some).len() as int,
            ),
        ),
{
    let t = meaning::at(s, now);
    assert(steps::dbsize_step(t)) by {
        meaning::lemma_called(args);
        meaning::lemma_sent(s, now, raw, args);
        reveal(meaning::plain);
    }
    lemma_flushed(&s.a.shared.store);
    assert(s.a.shared.store.contents().dom() =~= Set::new(
        |k: Seq<u8>| s.a.shared.store.get(k) is Some,
    ));
}

/// FLUSHALL and FLUSHDB drop every key, and whoever watches any notices.
pub proof fn flush_drops_every_key<D: Device, M: Device>(
    s: Step<D, M>,
    now: i64,
    raw: Seq<u8>,
    args: Seq<Seq<u8>>,
)
    requires
        meaning::asked(s, now, raw, args),
        meaning::called(args, "FLUSHALL") || meaning::called(args, "FLUSHDB"),
    ensures
        s.says(bytes::text("+OK\r\n")),
        forall|k: Seq<u8>| #[trigger] s.b.shared.store.get(k) is None,
        forall|k: Seq<u8>| #[trigger] meaning::alarmed(s, k),
{
    let t = meaning::at(s, now);
    assert(steps::flush_step(t, raw)) by {
        meaning::lemma_called(args);
        meaning::lemma_sent(s, now, raw, args);
        reveal(meaning::plain);
    }
    assert forall|k: Seq<u8>| #[trigger] meaning::alarmed(s, k) by {
        s.a.shared.watch.lemma_slot(k);
        let slot = s.a.shared.watch.slot(k);
        assert(s.b.shared.watch@[slot] == u64_specs::wrapping_add(s.a.shared.watch@[slot], 1));
    }
}

/// What is no command is answered with an error and changes nothing.
pub proof fn unknown_commands_change_nothing<D: Device, M: Device>(
    s: Step<D, M>,
    now: i64,
    raw: Seq<u8>,
    args: Seq<Seq<u8>>,
)
    requires
        meaning::asked(s, now, raw, args),
        meaning::kind(args) is Unknown,
    ensures
        s.b.shared == s.a.shared,
        s.says(
            resp::error_reply(
                bytes::text("ERR unknown command '") + bytes::lossy(args[0]) + bytes::text(
                    "' or wrong number of arguments",
                ),
            ),
        ),
{
    meaning::lemma_sent(s, now, raw, args);
    reveal(meaning::plain);
}

/// PING answers PONG, or what it was given; ECHO answers what it was given.
pub proof fn ping_and_echo_answer<D: Device, M: Device>(
    s: Step<D, M>,
    now: i64,
    raw: Seq<u8>,
    args: Seq<Seq<u8>>,
)
    requires
        meaning::asked(s, now, raw, args),
        meaning::called(args, "PING") || (meaning::called(args, "ECHO") && args.len() == 2),
    ensures
        s.b.shared == s.a.shared,
        args.len() >= 2 ==> s.says(resp::bulk_reply(args[1])),
        args.len() == 1 ==> s.says(bytes::text("+PONG\r\n")),
{
    meaning::lemma_called(args);
    meaning::lemma_sent(s, now, raw, args);
    reveal(meaning::plain);
}

/// SAVE touches no key. If it succeeds, the time is remembered and the log up to
/// here is durable; if not, the error says so and the time stays.
pub proof fn save_touches_no_key<D: Device, M: Device>(
    s: Step<D, M>,
    now: i64,
    raw: Seq<u8>,
    args: Seq<Seq<u8>>,
)
    requires
        meaning::asked(s, now, raw, args),
        meaning::called(args, "SAVE") || meaning::called(args, "BGSAVE"),
    ensures
        meaning::no_key(&s.a.shared.store, &s.b.shared.store),
        s.b.shared.watch == s.a.shared.watch,
        (s.says(bytes::text("+OK\r\n")) && s.b.shared.last_save == now) || (s.b.shared.last_save
            == s.a.shared.last_save && exists|why: Seq<u8>|
            s.says(
                #[trigger] resp::error_reply(bytes::text("ERR checkpoint failed: ") + why),
            )),
        !s.a.shared.persist ==> s.b.shared == s.a.shared && s.says(
            resp::error_reply(
                bytes::text("ERR checkpoint failed: ") + bytes::text(
                    "server started without persistence",
                ),
            ),
        ),
        s.a.shared.persist && s.a.shared.store.log@.epoch < u64::MAX - 16
            && !(s.a.shared.store.state().phase is Rest) ==> s.b.shared == s.a.shared && s.says(
            resp::error_reply(
                bytes::text("ERR checkpoint failed: ") + bytes::text("checkpoint already in progress"),
            ),
        ),
{
    let t = meaning::at(s, now);
    assert(steps::save_step(t)) by {
        meaning::lemma_called(args);
        meaning::lemma_sent(s, now, raw, args);
        reveal(meaning::plain);
    }
    let r = choose|r: Result<(), SaveError>| #[trigger]
        shared::saved(&t.a.shared, &t.b.shared, t.now(), r) && t.says(steps::save_reply(r));
    if let Err(e) = r {
        assert(s.says(resp::error_reply(bytes::text("ERR checkpoint failed: ") + e.text())));
    }
    assert(meaning::no_key(&s.a.shared.store, &s.b.shared.store)) by {
        assert(s.b.shared.store.newest_same(&s.a.shared.store));
    }
}

/// Commands that have nothing to do here answer so.
pub proof fn formal_commands_answer<D: Device, M: Device>(
    s: Step<D, M>,
    now: i64,
    raw: Seq<u8>,
    args: Seq<Seq<u8>>,
)
    requires
        meaning::asked(s, now, raw, args),
    ensures
        meaning::called(args, "SELECT") || meaning::called(args, "CLIENT") || meaning::called(
            args,
            "QUIT",
        ) || meaning::called(args, "BGREWRITEAOF") ==> s.b.shared == s.a.shared && s.says(
            bytes::text("+OK\r\n"),
        ),
        meaning::called(args, "COMMAND") || meaning::called(args, "CONFIG") ==> s.b.shared
            == s.a.shared && s.says(bytes::text("*0\r\n")),
        meaning::called(args, "INFO") ==> s.b.shared == s.a.shared && s.says(
            resp::bulk_reply(bytes::text("# Server\r\nmini_garnet:1\r\n")),
        ),
        meaning::called(args, "RESET") ==> s.b.shared == s.a.shared && s.says(
            resp::simple_reply(bytes::text("RESET")),
        ),
        meaning::called(args, "HELLO") ==> s.b.shared == s.a.shared && s.out1 == s.out0
            + resp::array_header(6) + resp::bulk_reply(bytes::text("server")) + resp::bulk_reply(
            bytes::text("mini-garnet"),
        ) + resp::bulk_reply(bytes::text("version")) + resp::bulk_reply(bytes::text("0.1.0"))
            + resp::bulk_reply(bytes::text("proto")) + resp::integer_reply(2),
{
    meaning::lemma_called(args);
    if meaning::called(args, "SELECT") || meaning::called(args, "CLIENT") || meaning::called(
        args,
        "QUIT",
    ) || meaning::called(args, "BGREWRITEAOF") || meaning::called(args, "COMMAND")
        || meaning::called(args, "CONFIG") || meaning::called(args, "INFO") || meaning::called(
        args,
        "RESET",
    ) || meaning::called(args, "HELLO") {
        meaning::lemma_sent(s, now, raw, args);
        reveal(meaning::plain);
        assert(s.out0 + (resp::array_header(6) + resp::bulk_reply(bytes::text("server"))
            + resp::bulk_reply(bytes::text("mini-garnet")) + resp::bulk_reply(bytes::text("version"))
            + resp::bulk_reply(bytes::text("0.1.0")) + resp::bulk_reply(bytes::text("proto"))
            + resp::integer_reply(2)) =~= s.out0 + resp::array_header(6) + resp::bulk_reply(
            bytes::text("server"),
        ) + resp::bulk_reply(bytes::text("mini-garnet")) + resp::bulk_reply(bytes::text("version"))
            + resp::bulk_reply(bytes::text("0.1.0")) + resp::bulk_reply(bytes::text("proto"))
            + resp::integer_reply(2));
    }
}

} // verus!
