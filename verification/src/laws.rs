//! Laws that relate commands to one another.
use crate::aof;
use crate::aof::{AofOp, EntryView};
use crate::bytes;
use crate::callbacks;
use crate::callbacks::{Notice, SessionFunctions};
use crate::chain;
use crate::checkpoint;
use crate::checkpoint::{CheckpointError, CheckpointInfo};
use crate::device;
use crate::device::Device;
use crate::functions;
use crate::functions::{InputView, OutView, StringOp};
use crate::glob;
use crate::hash;
use crate::index::{HashIndex, SlotRef};
use crate::log;
use crate::log::{LogAction, LogView};
use crate::record;
use crate::record::RecordView;
use crate::recovery;
use crate::resp;
use crate::scan;
use crate::shared;
use crate::shared::{SaveError, Shared, WatchTable};
use crate::steps;
use crate::steps::{SessView, Step, World};
use crate::store;
use crate::store::{Session, Status, Store};
use vstd::prelude::*;

verus! {

// ---------------------------------------------------------------------------
// Single entries
// ---------------------------------------------------------------------------

/// An entry is a well-formed record of its key.
pub proof fn entries_are_well_formed<D: Device>(store: &Store<D>, key: Seq<u8>)
    requires
        store.inv(),
    ensures
        store.get(key) matches Some(b) ==> b.wf() && b.key == key,
{
    if store.get(key) is Some {
        let a = store.newest(key).unwrap();
        chain::lemma_find(store.recs@, chain::chain_head(store.index, key), key);
        assert(store.recs@.dom().contains(a));
        assert(chain::placed(store.log@, a, store.recs@[a]));
    }
}

/// A record with a value at its front holds that value.
proof fn lemma_value(r: RecordView, v: Seq<u8>)
    requires
        v.len() <= r.buf.len(),
    ensures
        functions::with_value(r, v).value() == v,
{
    assert(functions::with_value(r, v).value() =~= v);
}

/// A blind write leaves the value and the expiration that it brings along,
/// wherever the old record was.
pub proof fn a_blind_write_holds_what_it_brought(
    g: Option<RecordView>,
    mutable: bool,
    key: Seq<u8>,
    input: InputView,
)
    requires
        g matches Some(b) ==> b.wf(),
        input.operand.len() <= usize::MAX,
    ensures
        ({
            let e = functions::string_upsert(g, mutable, key, input).1;
            e.value() == input.operand && e.exp == input.expiration
        }),
{
    let e = functions::string_upsert(g, mutable, key, input).1;
    if g is Some && mutable && functions::written_in_place(input, g.unwrap()).0 {
        lemma_value(functions::with_exp(g.unwrap(), input.expiration), input.operand);
    } else {
        let f = callbacks::fresh(key, functions::upsert_size_of(key, input));
        lemma_value(f, input.operand);
        assert(e.value() =~= input.operand);
    }
}

/// A key whose time is over reads as missing, whatever is asked of it.
pub proof fn expired_keys_read_as_missing(b: RecordView, input: InputView, o: OutView)
    requires
        b.slot(),
        b.exp != 0,
        b.exp <= input.now_ms,
    ensures
        functions::string_read(Some(b), input, o) == (Status::NotFound, o),
{
}

/// Until its time is over a key reads as what it holds, and PTTL tells how
/// much of that time is left.
pub proof fn live_keys_are_read(b: RecordView, now: i64, o: OutView)
    requires
        b.slot() ==> b.exp == 0 || now < b.exp,
    ensures
        functions::string_read(Some(b), functions::bare_input(StringOp::Get, now), o) == (
            Status::Found,
            o.with_bytes(b.value()),
        ),
        b.slot() && b.exp != 0 && now >= 0 ==> functions::string_read(
            Some(b),
            functions::bare_input(StringOp::Ttl { ms: true }, now),
            o,
        ) == (Status::Found, o.with_int((b.exp - now) as i64)),
        !b.slot() || b.exp == 0 ==> functions::string_read(
            Some(b),
            functions::bare_input(StringOp::Ttl { ms: true }, now),
            o,
        ) == (Status::Found, o.with_int((-1) as i64)),
{
}

/// SET NX leaves a live key alone; SET XX makes no key, with GET or without.
pub proof fn conditional_writes_keep_to_their_condition(
    b: RecordView,
    mutable: bool,
    key: Seq<u8>,
    input: InputView,
    o: OutView,
)
    ensures
        input.op is SetNx && !functions::expired_at(b, input.now_ms) ==> ({
            let e = functions::string_rmw(Some(b), mutable, key, input, o);
            e.1 == Some(b) && !e.0.updated()
        }),
        input.op is SetXx || input.op is SetXxGet ==> functions::string_rmw(
            None,
            mutable,
            key,
            input,
            o,
        ) == (Status::NotFound, None::<RecordView>, o),
{
}

/// What a reader sees of an entry at `now`: its value and its expiration, or
/// nothing once its time is over.
pub open spec fn seen(g: Option<RecordView>, now: i64) -> Option<(Seq<u8>, i64)> {
    match g {
        Some(b) => if functions::expired_at(b, now) {
            None
        } else {
            Some((b.value(), b.exp))
        },
        None => None,
    }
}

/// A value with its expiration, as long as its time is not over.
pub open spec fn alive(v: Seq<u8>, exp: i64, now: i64) -> Option<(Seq<u8>, i64)> {
    if exp != 0 && exp <= now {
        None
    } else {
        Some((v, exp))
    }
}

/// Operations that update an entry.
pub open spec fn is_update(op: StringOp) -> bool {
    !(op is Get || op is GetRange || op is Strlen || op is Ttl || op is Exists)
}

/// What an update comes to, seen from outside: whether it was carried out,
/// whether it deleted the key, what the key holds then, and what is answered.
pub struct Effect {
    pub updated: bool,
    pub deleted: bool,
    pub holds: Option<(Seq<u8>, i64)>,
    pub answer: OutView,
}

/// The value of APPEND, as far as its length can be counted.
pub open spec fn joined(v: Seq<u8>, w: Seq<u8>) -> Seq<u8> {
    if v.len() + w.len() <= usize::MAX {
        v + w
    } else {
        Seq::empty()
    }
}

/// The value of SETRANGE, as far as its length can be counted.
pub open spec fn laid_over(v: Seq<u8>, offset: usize, w: Seq<u8>) -> Seq<u8> {
    if offset + w.len() <= usize::MAX {
        functions::overlaid(v, offset as int, w)
    } else {
        Seq::empty()
    }
}

/// What an update of a missing key comes to.
pub open spec fn effect_on_missing(input: InputView, o: OutView) -> Effect {
    let e = input.expiration;
    let now = input.now_ms;
    let w = input.operand;
    if !functions::creates(input.op) {
        Effect { updated: false, deleted: false, holds: None, answer: o }
    } else {
        let (v, answer) = match input.op {
            StringOp::IncrBy => (resp::int_digits(input.delta as int), o.with_int(input.delta)),
            StringOp::SetRange { offset } => {
                let v = laid_over(Seq::empty(), offset, w);
                (v, o.with_int(v.len() as i64))
            },
            StringOp::Append => (w, o.with_int(w.len() as i64)),
            StringOp::SetGet { .. } => (w, steps::without_value(o)),
            _ => (w, o),
        };
        Effect { updated: true, deleted: false, holds: alive(v, e, now), answer }
    }
}

/// What an update of a key that holds `v` until `exp` comes to.
pub open spec fn effect_on_value(v: Seq<u8>, exp: i64, input: InputView, o: OutView) -> Effect {
    let e = input.expiration;
    let now = input.now_ms;
    let w = input.operand;
    let same = alive(v, exp, now);
    let refused = Effect { updated: false, deleted: false, holds: same, answer: o };
    let done = Effect { updated: true, ..refused };
    match input.op {
        StringOp::SetNx => refused,
        StringOp::SetPlain | StringOp::SetXx => Effect { holds: alive(w, e, now), ..done },
        StringOp::SetKeepTtl => Effect { holds: alive(w, exp, now), ..done },
        StringOp::SetGet { keep_ttl } | StringOp::SetXxGet { keep_ttl } => Effect {
            holds: alive(
                w,
                if keep_ttl {
                    exp
                } else {
                    e
                },
                now,
            ),
            answer: o.with_bytes(v),
            ..done
        },
        StringOp::IncrBy => match functions::incremented(v, input.delta) {
            Some(n) => Effect {
                holds: alive(resp::int_digits(n as int), exp, now),
                answer: o.with_int(n),
                ..done
            },
            None => Effect { answer: o.with_int(i64::MIN), ..refused },
        },
        StringOp::Append => Effect {
            holds: alive(joined(v, w), exp, now),
            answer: o.with_int(joined(v, w).len() as i64),
            ..done
        },
        StringOp::SetRange { offset } => Effect {
            holds: alive(laid_over(v, offset, w), exp, now),
            answer: o.with_int(laid_over(v, offset, w).len() as i64),
            ..done
        },
        StringOp::GetDel => Effect {
            deleted: true,
            holds: None,
            answer: o.with_bytes(v),
            ..done
        },
        StringOp::GetEx => Effect { holds: alive(v, e, now), answer: o.with_bytes(v), ..done },
        StringOp::Expire => Effect { holds: alive(v, e, now), answer: o.with_int(1), ..done },
        StringOp::Persist => if exp != 0 {
            Effect { holds: alive(v, 0, now), answer: o.with_int(1), ..done }
        } else {
            Effect { answer: o.with_int(0), ..refused }
        },
        _ => refused,
    }
}

/// What an update comes to, by what is seen of the key.
pub open spec fn effect(w: Option<(Seq<u8>, i64)>, input: InputView, o: OutView) -> Effect {
    match w {
        None => effect_on_missing(input, o),
        Some(x) => effect_on_value(x.0, x.1, input, o),
    }
}

/// The outcome of an update, seen from outside.
pub open spec fn effect_of(x: (Status, Option<RecordView>, OutView), now: i64) -> Effect {
    Effect {
        updated: x.0.updated(),
        deleted: x.0 is Deleted,
        holds: seen(x.1, now),
        answer: x.2,
    }
}

spec fn pow10(k: nat) -> nat
    decreases k,
{
    if k == 0 {
        1
    } else {
        10 * pow10((k - 1) as nat)
    }
}

proof fn lemma_short_digits(n: nat, k: nat)
    requires
        k >= 1,
        n < pow10(k),
    ensures
        resp::nat_digits(n).len() <= k,
    decreases k,
{
    reveal_with_fuel(pow10, 2);
    if n >= 10 {
        lemma_short_digits(n / 10, (k - 1) as nat);
    }
}

proof fn lemma_integer_length(v: i64)
    ensures
        resp::int_digits(v as int).len() <= 21,
{
    reveal_with_fuel(pow10, 21);
    assert(pow10(20) == 100000000000000000000);
    if v < 0 {
        lemma_short_digits((-v) as nat, 20);
    } else {
        lemma_short_digits(v as nat, 20);
    }
}

proof fn lemma_in_place_append(b: RecordView, v: Seq<u8>)
    requires
        b.wf(),
        b.len + v.len() <= b.buf.len(),
    ensures
        (RecordView {
            buf: bytes::splice(b.buf, b.len, v),
            len: b.len + v.len(),
            ..b
        }).value() == b.value() + v,
{
    let r = RecordView { buf: bytes::splice(b.buf, b.len, v), len: b.len + v.len(), ..b };
    assert(r.value() =~= b.value() + v);
}

proof fn lemma_in_place_range(b: RecordView, offset: int, v: Seq<u8>)
    requires
        b.wf(),
        0 <= offset,
        functions::larger(offset + v.len(), b.len) <= b.buf.len(),
    ensures
        ({
            let gap = if offset > b.len {
                bytes::splice(b.buf, b.len, bytes::zeros((offset - b.len) as nat))
            } else {
                b.buf
            };
            let r = RecordView {
                buf: bytes::splice(gap, offset, v),
                len: functions::larger(offset + v.len(), b.len),
                ..b
            };
            r.value() == functions::overlaid(b.value(), offset, v)
        }),
{
    let gap = if offset > b.len {
        bytes::splice(b.buf, b.len, bytes::zeros((offset - b.len) as nat))
    } else {
        b.buf
    };
    let n = functions::larger(offset + v.len(), b.len);
    let r = RecordView { buf: bytes::splice(gap, offset, v), len: n, ..b };
    assert(gap.len() == b.buf.len());
    let w = functions::overlaid(b.value(), offset, v);
    assert(w.len() == n);
    assert(r.value() =~= w);
}

/// A fresh record of a missing key comes to what it should.
proof fn lemma_initial_effect(key: Seq<u8>, input: InputView, o: OutView)
    requires
        is_update(input.op),
        input.operand.len() <= usize::MAX,
    ensures
        effect_of(functions::string_initial(key, input, o), input.now_ms) == effect_on_missing(input, o),
{
    let f = callbacks::fresh(key, functions::initial_size_of(key, input));
    let w = input.operand;
    match input.op {
        StringOp::IncrBy => {
            lemma_integer_length(input.delta);
            lemma_value(f, resp::int_digits(input.delta as int));
        },
        StringOp::SetRange { offset } => {
            let v = bytes::zeros(offset as nat) + w;
            assert(functions::overlaid(Seq::empty(), offset as int, w) =~= v);
            if offset + w.len() <= usize::MAX {
                lemma_value(f, v);
            } else {
                lemma_value(f, Seq::empty());
            }
        },
        _ => {
            lemma_value(f, w);
        },
    }
    let n = functions::first_updated(input, f, o);
    let v = functions::initial_value(input, f.buf.len() as int);
    if functions::creates(input.op) {
        assert(n.0.value() == functions::with_value(f, v).value());
        assert(effect_of(functions::string_initial(key, input, o), input.now_ms)
            =~= effect_on_missing(input, o));
    }
}

/// A copy comes to what it should.
proof fn lemma_copy_effect(b: RecordView, key: Seq<u8>, input: InputView, o: OutView)
    requires
        b.wf(),
        is_update(input.op),
        input.operand.len() <= usize::MAX,
    ensures
        effect_of(functions::string_copy(b, key, input, o), input.now_ms) == effect(
            seen(Some(b), input.now_ms),
            input,
            o,
        ),
{
    let f = callbacks::fresh(key, functions::copy_size_of(key, input, b));
    let w = input.operand;
    let gone = functions::expired_at(b, input.now_ms);
    let ov = functions::old_value(b, input.now_ms);
    match input.op {
        StringOp::IncrBy => {
            let n = functions::copied_sum(b, input.delta, input.now_ms);
            lemma_integer_length(n);
            lemma_value(f, resp::int_digits(n as int));
            if gone {
                assert(n == input.delta);
            } else if functions::incremented(b.value(), input.delta) is Some {
                assert(n == functions::incremented(b.value(), input.delta).unwrap());
            }
        },
        StringOp::Append => {
            if gone {
                assert(Seq::<u8>::empty() + w =~= w);
            }
            if ov.len() + w.len() <= usize::MAX {
                lemma_value(f, ov + w);
            } else {
                lemma_value(f, Seq::empty());
            }
        },
        StringOp::SetRange { offset } => {
            if offset + w.len() <= usize::MAX {
                let v = functions::overlaid(ov, offset as int, w);
                assert(v.len() == functions::larger(offset + w.len(), ov.len() as int));
                lemma_value(f, v);
            } else {
                lemma_value(f, Seq::empty());
            }
        },
        StringOp::GetEx | StringOp::Expire | StringOp::Persist => {
            lemma_value(f, ov);
        },
        _ => {
            lemma_value(f, w);
        },
    }
    let d = functions::copy_decision(input, b, o);
    if d.0 is Copy {
        let v = functions::copied_value(input, b, f.buf.len() as int);
        let n = functions::copy_updated(input, b, f, d.1);
        assert(n.0.value() == functions::with_value(f, v).value());
    }
    assert(effect_of(functions::string_copy(b, key, input, o), input.now_ms) =~= effect(
        seen(Some(b), input.now_ms),
        input,
        o,
    ));
}

/// An update in place comes to what it should.
#[verifier::spinoff_prover]
#[verifier::rlimit(40)]
proof fn lemma_in_place_effect(b: RecordView, key: Seq<u8>, input: InputView, o: OutView)
    requires
        b.wf(),
        is_update(input.op),
        input.operand.len() <= usize::MAX,
        !functions::expired_at(b, input.now_ms),
        functions::updated_in_place(input, b, o).0 is Updated,
    ensures
        ({
            let u = functions::updated_in_place(input, b, o);
            effect_of((Status::InPlaceUpdated, Some(u.1), u.2), input.now_ms) == effect_on_value(
                b.value(),
                b.exp,
                input,
                o,
            )
        }),
{
    let w = input.operand;
    let u = functions::updated_in_place(input, b, o);
    match input.op {
        StringOp::Append => {
            lemma_in_place_append(b, w);
            assert(b.value().len() == b.len);
        },
        StringOp::SetRange { offset } => {
            lemma_in_place_range(b, offset as int, w);
            assert(b.value().len() == b.len);
        },
        StringOp::IncrBy => {
            let n = functions::incremented(b.value(), input.delta).unwrap();
            lemma_value(b, resp::int_digits(n as int));
        },
        StringOp::GetEx | StringOp::Expire | StringOp::Persist => {},
        _ => {
            let t = functions::ttl_applied(b, input.op, input.expiration);
            lemma_value(t.1, w);
        },
    }
    assert(effect_of((Status::InPlaceUpdated, Some(u.1), u.2), input.now_ms) =~= effect_on_value(
        b.value(),
        b.exp,
        input,
        o,
    ));
}

/// An attempt in place that ends in a copy has answered nothing that the copy
/// does not answer again.
proof fn lemma_copy_answers(b: RecordView, key: Seq<u8>, input: InputView, o: OutView)
    requires
        b.wf(),
        is_update(input.op),
        input.operand.len() <= usize::MAX,
        !functions::expired_at(b, input.now_ms),
        functions::updated_in_place(input, b, o).0 is NeedCopy,
    ensures
        effect_on_value(b.value(), b.exp, input, functions::updated_in_place(input, b, o).2)
            == effect_on_value(b.value(), b.exp, input, o),
{
    let u = functions::updated_in_place(input, b, o);
    assert(effect_on_value(b.value(), b.exp, input, u.2) =~= effect_on_value(
        b.value(),
        b.exp,
        input,
        o,
    ));
}

/// An update is a function of what is seen of the key, of the command and of
/// the clock: whether it is carried out, what it leaves and what it answers
/// depend neither on the region of the log nor on the room that a record has,
/// and a key whose time is over counts as missing.
pub proof fn updates_depend_on_what_is_seen(
    g: Option<RecordView>,
    in_place: bool,
    key: Seq<u8>,
    input: InputView,
    o: OutView,
)
    requires
        g matches Some(b) ==> b.wf(),
        is_update(input.op),
        input.operand.len() <= usize::MAX,
    ensures
        effect_of(functions::string_rmw(g, in_place, key, input, o), input.now_ms) == effect(
            seen(g, input.now_ms),
            input,
            o,
        ),
{
    lemma_initial_effect(key, input, o);
    if let Some(b) = g {
        lemma_copy_effect(b, key, input, o);
        if in_place && !functions::expired_at(b, input.now_ms) {
            let u = functions::updated_in_place(input, b, o);
            if u.0 is Updated {
                lemma_in_place_effect(b, key, input, o);
            } else if u.0 is NeedCopy {
                lemma_copy_answers(b, key, input, o);
                lemma_copy_effect(b, key, input, u.2);
            }
            assert(effect_of(functions::string_rmw(g, in_place, key, input, o), input.now_ms)
                =~= effect(seen(g, input.now_ms), input, o));
        }
    }
}

/// A command never learns where its record was: an update comes out the same
/// whether the record is updated in place or copied to the tail.
pub proof fn updates_do_not_depend_on_the_region(
    b: RecordView,
    key: Seq<u8>,
    input: InputView,
    o: OutView,
)
    requires
        b.wf(),
        is_update(input.op),
        input.operand.len() <= usize::MAX,
    ensures
        effect_of(functions::string_rmw(Some(b), true, key, input, o), input.now_ms) == effect_of(
            functions::string_rmw(Some(b), false, key, input, o),
            input.now_ms,
        ),
{
    updates_depend_on_what_is_seen(Some(b), true, key, input, o);
    updates_depend_on_what_is_seen(Some(b), false, key, input, o);
}

/// An update of a key whose time is over comes out as if the key were missing.
pub proof fn expired_keys_start_over(
    b: RecordView,
    in_place: bool,
    key: Seq<u8>,
    input: InputView,
    o: OutView,
)
    requires
        b.wf(),
        functions::expired_at(b, input.now_ms),
        is_update(input.op),
        input.operand.len() <= usize::MAX,
    ensures
        effect_of(functions::string_rmw(Some(b), in_place, key, input, o), input.now_ms) == effect_of(
            functions::string_rmw(None, in_place, key, input, o),
            input.now_ms,
        ),
{
    updates_depend_on_what_is_seen(Some(b), in_place, key, input, o);
    updates_depend_on_what_is_seen(None, in_place, key, input, o);
}

/// A record in the mutable region is updated where it is as long as it has the
/// room: a value that fits is overwritten, a number counted and bytes appended
/// without a new record. A record elsewhere never is.
pub proof fn mutable_records_are_updated_in_place(
    b: RecordView,
    key: Seq<u8>,
    input: InputView,
    o: OutView,
)
    requires
        b.wf(),
    ensures
        functions::string_upsert(Some(b), true, key, input).0 is InPlaceUpdated <==> input.operand.len()
            <= b.buf.len() && (b.slot() || input.expiration == 0),
        b.exp == 0 || b.exp > input.now_ms ==> {
            let s = functions::string_rmw(Some(b), true, key, input, o).0;
            &&& input.op is IncrBy ==> (resp::argument_int(b.value()) matches Some(c) ==> i64::MIN <= c
                + input.delta <= i64::MAX && resp::int_digits(c + input.delta).len() <= b.buf.len()
                ==> s is InPlaceUpdated)
            &&& input.op is Append && b.value().len() + input.operand.len() <= b.buf.len()
                ==> s is InPlaceUpdated
            &&& input.op is SetXx && input.operand.len() <= b.buf.len() && (b.slot()
                || input.expiration == 0) ==> s is InPlaceUpdated
            &&& input.op is GetDel ==> s is Deleted
        },
        !(functions::string_upsert(Some(b), false, key, input).0 is InPlaceUpdated),
        !(functions::string_rmw(Some(b), false, key, input, o).0 is InPlaceUpdated),
{
    assert(b.value().len() == b.len);
}

// ---------------------------------------------------------------------------
// One command after another
// ---------------------------------------------------------------------------

/// `t` comes right after `s` in the same session, at the time `now`.
pub open spec fn follows<D: Device, M: Device>(s: Step<D, M>, t: Step<D, M>, now: i64) -> bool {
    t.a == (World { sess: SessView { now, ..s.b.sess }, ..s.b })
}

/// No operation of the store gave up.
pub open spec fn undisturbed<D: Device, M: Device>(s: Step<D, M>) -> bool {
    s.b.sess.failures == s.a.sess.failures
}

/// Commands on a calm store are not disturbed: a read of a key whose latch is
/// free, and a write of one that the index has room for, if the record it has to
/// write fits a page.
pub proof fn a_calm_store_serves<D: Device, M: Device>(
    s: Step<D, M>,
    key: Seq<u8>,
    input: InputView,
    raw: Seq<u8>,
)
    requires
        s.a.shared.store.calm(s.a.sess.thread),
    ensures
        forall|reply: spec_fn(Status, OutView) -> Seq<u8>| #[trigger]
            s.reads(key, input, reply) && s.a.shared.store.open_for(s.a.sess.txn_mode, key, false)
                ==> undisturbed(s),
        forall|reply: Seq<u8>, logs: spec_fn(Status) -> bool| #[trigger]
            s.upserts(key, input, raw, reply, logs) && s.a.shared.store.open_for(
                s.a.sess.txn_mode,
                key,
                true,
            ) && s.a.shared.store.indexable(key) && store::fits(
                s.a.shared.store.log@.psize,
                functions::upsert_size_of(key, input),
            ) ==> undisturbed(s),
        forall|
            scratch: OutView,
            reply: spec_fn(Status, OutView) -> Seq<u8>,
            logs: spec_fn(Status, OutView) -> bool,
        | #[trigger]
            s.rmws(scratch, key, input, raw, reply, logs) && s.a.shared.store.open_for(
                s.a.sess.txn_mode,
                key,
                true,
            ) && s.a.shared.store.indexable(key) && functions::string_fits(
                s.a.shared.store.log@.psize,
                s.a.shared.store.get(key),
                key,
                input,
                functions::string_rmw(
                    s.a.shared.store.get(key),
                    s.a.shared.store.mutable(key),
                    key,
                    input,
                    scratch,
                ).0,
            ) ==> undisturbed(s),
{
    reveal(steps::read_ran);
    reveal(steps::upsert_ran);
    reveal(steps::rmw_ran);
}

/// GET gives back what SET wrote.
pub proof fn what_is_set_is_read<D: Device, M: Device>(
    s: Step<D, M>,
    t: Step<D, M>,
    raw: Seq<u8>,
    args: Seq<Seq<u8>>,
    now: i64,
)
    requires
        s.a.shared.store.inv(),
        args.len() == 3,
        args[2].len() <= usize::MAX,
        steps::set_step(s, raw, args),
        undisturbed(s),
        follows(s, t, now),
        t.a.shared.store.reliable(),
        steps::get_step(t, args[1]),
        undisturbed(t),
    ensures
        s.says(bytes::text(resp::OK)),
        t.says(resp::bulk_reply(args[2])),
{
    reveal(steps::upsert_ran);
    reveal(steps::read_ran);
    let key = args[1];
    let o = s.a.shared.store;
    entries_are_well_formed(&o, key);
    let input = InputView {
        op: StringOp::SetPlain,
        operand: args[2],
        delta: 0,
        expiration: 0,
        now_ms: s.now(),
    };
    assert(crate::arguments::set_options_from(
        args,
        3,
        crate::arguments::no_options(),
        s.now(),
    ) == Ok::<_, crate::arguments::OptionError>(crate::arguments::no_options()));
    a_blind_write_holds_what_it_brought(o.get(key), o.mutable(key), key, input);
    let b = functions::string_upsert(o.get(key), o.mutable(key), key, input).1;
    assert(t.a.shared.store.get(key) == Some(b));
    live_keys_are_read(b, now, t.a.sess.scratch);
}

/// What a blind write leaves to the command after it.
proof fn lemma_after_upsert<D: Device, M: Device>(
    s: Step<D, M>,
    key: Seq<u8>,
    input: InputView,
    raw: Seq<u8>,
    reply: Seq<u8>,
    logs: spec_fn(Status) -> bool,
)
    requires
        s.upserts(key, input, raw, reply, logs),
        s.a.shared.store.open_for(s.a.sess.txn_mode, key, false),
        s.a.shared.store.index.inv(),
    ensures
        steps::store_moved(&s.a.shared.store, &s.b.shared.store, s.a.sess.thread),
        s.b.shared.store.entered(&s.a.shared.store, key),
        s.b.sess.thread == s.a.sess.thread,
        s.b.sess.txn_mode == s.a.sess.txn_mode,
        s.b.shared.store.open_for(s.b.sess.txn_mode, key, false),
{
    reveal(steps::upsert_ran);
    let o = s.a.shared.store.index;
    let n = s.b.shared.store.index;
    let h = crate::hash::key_hash(key);
    o.lemma_buckets();
    assert(n.bucket_of(h) == o.bucket_of(h));
    assert(n.latch(o.bucket_of(h)) == o.latch(o.bucket_of(h)));
}

/// On a calm store with a page to spare, SET is carried out and GET gives back
/// what it wrote.
pub proof fn a_calm_store_keeps_what_is_set<D: Device, M: Device>(
    s: Step<D, M>,
    t: Step<D, M>,
    raw: Seq<u8>,
    args: Seq<Seq<u8>>,
    now: i64,
)
    requires
        s.a.shared.store.inv(),
        s.a.shared.store.calm(s.a.sess.thread),
        s.a.shared.store.log@.dependable >= (s.a.shared.store.log@.tail_page + 3)
            * s.a.shared.store.log@.psize,
        (s.a.shared.store.log@.tail_page + 3) * s.a.shared.store.log@.psize <= log::ADDRESS_LIMIT,
        s.a.shared.store.log@.epoch <= u64::MAX - 64 - store::EPOCH_STEP,
        args.len() == 3,
        args[1].len() <= usize::MAX,
        args[2].len() <= usize::MAX,
        s.a.shared.store.open_for(s.a.sess.txn_mode, args[1], true),
        s.a.shared.store.open_for(s.a.sess.txn_mode, args[1], false),
        s.a.shared.store.indexable(args[1]),
        record::layout_size(args[1].len() as int, args[2].len() as int, false) + 64
            <= s.a.shared.store.log@.psize,
        steps::set_step(s, raw, args),
        follows(s, t, now),
        steps::get_step(t, args[1]),
    ensures
        s.says(bytes::text(resp::OK)),
        t.says(resp::bulk_reply(args[2])),
        undisturbed(s),
        undisturbed(t),
{
    let key = args[1];
    let input = InputView {
        op: StringOp::SetPlain,
        operand: args[2],
        delta: 0,
        expiration: 0,
        now_ms: s.now(),
    };
    assert(crate::arguments::set_options_from(
        args,
        3,
        crate::arguments::no_options(),
        s.now(),
    ) == Ok::<_, crate::arguments::OptionError>(crate::arguments::no_options()));
    let logs = |st: Status| st.updated();
    assert(s.upserts(key, input, raw, bytes::text(resp::OK), logs));
    assert(undisturbed(s)) by {
        a_calm_store_serves(s, key, input, raw);
    }
    lemma_after_upsert(s, key, input, raw, bytes::text(resp::OK), logs);
    assert(s.b.shared.store.calm(s.a.sess.thread)) by {
        operations_leave_the_store_calm(&s.a.shared.store, &s.b.shared.store, s.a.sess.thread, key);
    }
    assert(undisturbed(t)) by {
        a_calm_store_serves(t, key, functions::bare_input(StringOp::Get, now), raw);
    }
    what_is_set_is_read(s, t, raw, args, now);
}

/// Work in memory needs no device: a read whose latch is free is carried out, and
/// so is a write that finds space for its record, wherever the device fails.
pub proof fn work_in_memory_needs_no_device<D: Device, M: Device>(
    s: Step<D, M>,
    key: Seq<u8>,
    input: InputView,
    raw: Seq<u8>,
)
    ensures
        forall|reply: spec_fn(Status, OutView) -> Seq<u8>| #[trigger]
            s.reads(key, input, reply) && s.a.shared.store.prompt(
                s.a.sess.thread,
                s.a.sess.txn_mode,
                key,
                false,
                s.a.shared.store.log@.head as int,
            ) ==> undisturbed(s),
        forall|reply: Seq<u8>, logs: spec_fn(Status) -> bool| #[trigger]
            s.upserts(key, input, raw, reply, logs) && steps::upsert_ready(
                &s.a.shared.store,
                s.a.sess,
                key,
                input,
            ) ==> undisturbed(s),
        forall|
            scratch: OutView,
            reply: spec_fn(Status, OutView) -> Seq<u8>,
            logs: spec_fn(Status, OutView) -> bool,
        | #[trigger]
            s.rmws(scratch, key, input, raw, reply, logs) && steps::rmw_ready(
                &s.a.shared.store,
                (SessView { scratch, ..s.a.sess }),
                key,
                input,
            ) ==> undisturbed(s),
{
    reveal(steps::read_ran);
    reveal(steps::upsert_ran);
    reveal(steps::rmw_ran);
}

/// A key in a bucket that another session holds exclusively is out of reach: a
/// write does not take place, and what is there is not read.
pub proof fn a_latched_key_is_out_of_reach<D: Device, M: Device>(
    s: Step<D, M>,
    key: Seq<u8>,
    input: InputView,
    raw: Seq<u8>,
)
    requires
        !s.a.sess.txn_mode,
        ({
            let index = s.a.shared.store.index;
            index.latch(index.bucket_of(hash::key_hash(key))).exclusive
        }),
    ensures
        forall|reply: spec_fn(Status, OutView) -> Seq<u8>| #[trigger]
            s.reads(key, input, reply) && s.a.shared.store.newest(key) is Some ==> !undisturbed(s),
        forall|reply: Seq<u8>, logs: spec_fn(Status) -> bool| #[trigger]
            s.upserts(key, input, raw, reply, logs) ==> !undisturbed(s) && s.b.shared.store.get(key)
                == s.a.shared.store.get(key),
        forall|
            scratch: OutView,
            reply: spec_fn(Status, OutView) -> Seq<u8>,
            logs: spec_fn(Status, OutView) -> bool,
        | #[trigger]
            s.rmws(scratch, key, input, raw, reply, logs) ==> !undisturbed(s) && s.b.shared.store.get(
                key,
            ) == s.a.shared.store.get(key),
{
    reveal(steps::read_ran);
    reveal(steps::upsert_ran);
    reveal(steps::rmw_ran);
}

/// A key that was deleted reads as missing.
pub proof fn what_is_deleted_is_missing<D: Device, M: Device>(
    s: Step<D, M>,
    t: Step<D, M>,
    raw: Seq<u8>,
    args: Seq<Seq<u8>>,
    now: i64,
)
    requires
        args.len() == 2,
        s.a.shared.store.reliable(),
        steps::del_step(s, raw, args),
        undisturbed(s),
        follows(s, t, now),
        t.a.shared.store.reliable(),
        steps::get_step(t, args[1]),
        undisturbed(t),
    ensures
        s.says(steps::flag_reply(s.a.shared.store.get(args[1]) is Some)),
        t.says(bytes::text(resp::NULL_BULK)),
{
    reveal(steps::delete_ran);
    reveal(steps::read_ran);
    let (ws, ss) = choose|ws: Seq<World<D, M>>, ss: Seq<Status>| #[trigger]
        steps::deletions(ws, ss, args, args.len() - 1) && ws[0] == s.a && s.says(
            resp::integer_reply(steps::tally(ss, Status::Deleted) as int),
        ) && if steps::tally(ss, Status::Deleted) > 0 {
            steps::enters(ws[args.len() - 1], s.b, crate::aof::AofOp::Command, raw)
        } else {
            s.b == ws[args.len() - 1]
        };
    assert(steps::deletion_at(ws, ss, args, 0));
    assert(ss.drop_last() =~= Seq::empty());
    assert(steps::tally(ss.drop_last(), Status::Deleted) == 0);
    assert(t.a.shared.store.get(args[1]) is None);
}

/// Commands on one key leave every other key alone.
pub proof fn other_keys_are_left_alone<D: Device, M: Device>(s: Step<D, M>, key: Seq<u8>)
    ensures
        forall|iv: InputView, f: spec_fn(Status, OutView) -> Seq<u8>, k: Seq<u8>|
            #![trigger s.reads(key, iv, f), s.b.shared.store.get(k)]
            s.reads(key, iv, f) ==> s.b.shared.store.get(k) == s.a.shared.store.get(k),
        forall|
            iv: InputView,
            raw: Seq<u8>,
            reply: Seq<u8>,
            g: spec_fn(Status) -> bool,
            k: Seq<u8>,
        |
            #![trigger s.upserts(key, iv, raw, reply, g), s.b.shared.store.get(k)]
            s.upserts(key, iv, raw, reply, g) && k != key ==> s.b.shared.store.get(k)
                == s.a.shared.store.get(k),
        forall|
            s0: OutView,
            iv: InputView,
            raw: Seq<u8>,
            f: spec_fn(Status, OutView) -> Seq<u8>,
            g: spec_fn(Status, OutView) -> bool,
            k: Seq<u8>,
        |
            #![trigger s.rmws(s0, key, iv, raw, f, g), s.b.shared.store.get(k)]
            s.rmws(s0, key, iv, raw, f, g) && k != key ==> s.b.shared.store.get(k)
                == s.a.shared.store.get(k),
{
    reveal(steps::read_ran);
    reveal(steps::upsert_ran);
    reveal(steps::rmw_ran);
}

/// INCR of an entry: the new value is the answer, written out.
proof fn lemma_incremented(
    g: Option<RecordView>,
    mutable: bool,
    key: Seq<u8>,
    input: InputView,
    o: OutView,
)
    requires
        g matches Some(b) ==> b.wf(),
        input.op is IncrBy,
        input.expiration == 0,
    ensures
        ({
            let e = functions::string_rmw(g, mutable, key, input, o);
            e.0.updated() ==> {
                &&& e.1 matches Some(n) && n.value() == resp::int_digits(e.2.int as int)
                    && !functions::expired_at(n, input.now_ms)
            }
        }),
{
    let e = functions::string_rmw(g, mutable, key, input, o);
    lemma_integer_length(input.delta);
    lemma_integer_length(e.2.int);
    let f0 = callbacks::fresh(key, functions::initial_size_of(key, input));
    lemma_value(f0, resp::int_digits(input.delta as int));
    if g is Some {
        let b = g.unwrap();
        let sum = functions::copied_sum(b, input.delta, input.now_ms);
        lemma_integer_length(sum);
        let f = callbacks::fresh(key, functions::copy_size_of(key, input, b));
        lemma_value(f, resp::int_digits(sum as int));
        if functions::incremented(b.value(), input.delta) is Some {
            let n = functions::incremented(b.value(), input.delta).unwrap();
            if resp::int_digits(n as int).len() <= b.buf.len() {
                lemma_value(b, resp::int_digits(n as int));
            }
        }
    }
}

/// INCR, DECR and the like either refuse, or GET gives the answer back.
pub proof fn an_increment_is_read_back<D: Device, M: Device>(
    s: Step<D, M>,
    t: Step<D, M>,
    raw: Seq<u8>,
    key: Seq<u8>,
    delta: i64,
)
    requires
        s.a.shared.store.inv(),
        s.a.shared.store.reliable(),
        steps::incr_step(s, raw, key, delta),
        undisturbed(s),
        follows(s, t, s.now()),
        t.a.shared.store.reliable(),
        steps::get_step(t, key),
        undisturbed(t),
    ensures
        s.says(steps::not_an_integer()) || exists|v: i64|
            s.says(#[trigger] resp::integer_reply(v as int)) && t.says(
                resp::bulk_reply(resp::int_digits(v as int)),
            ),
{
    reveal(steps::rmw_ran);
    reveal(steps::read_ran);
    let o = s.a.shared.store;
    let input = InputView { delta, ..functions::bare_input(StringOp::IncrBy, s.now()) };
    entries_are_well_formed(&o, key);
    lemma_incremented(o.get(key), o.mutable(key), key, input, s.a.sess.scratch);
    let e = functions::string_rmw(o.get(key), o.mutable(key), key, input, s.a.sess.scratch);
    assert(s.b.sess.scratch == e.2);
    if e.0.updated() {
        assert(s.says(resp::integer_reply(e.2.int as int)));
        assert(t.says(resp::bulk_reply(resp::int_digits(e.2.int as int))));
    }
}

// ---------------------------------------------------------------------------
// Commands on several keys
// ---------------------------------------------------------------------------

/// The last value among the first `n` pairs of MSET for a key.
pub open spec fn last_value(args: Seq<Seq<u8>>, n: int, key: Seq<u8>) -> Option<Seq<u8>>
    decreases n,
{
    if n <= 0 {
        None
    } else if args[2 * (n - 1) + 1] == key {
        Some(args[2 * (n - 1) + 2])
    } else {
        last_value(args, n - 1, key)
    }
}

/// The key holds what the first `n` pairs of MSET say, or what it held before.
pub open spec fn holds_pairs<D: Device>(
    o: &Store<D>,
    n: &Store<D>,
    args: Seq<Seq<u8>>,
    upto: int,
    key: Seq<u8>,
) -> bool {
    match last_value(args, upto, key) {
        Some(v) => n.get(key) matches Some(b) && b.value() == v && b.exp == 0,
        None => n.get(key) == o.get(key),
    }
}

proof fn lemma_pairs<D: Device, M: Device>(
    ws: Seq<World<D, M>>,
    outs: Seq<Seq<u8>>,
    n: int,
    args: Seq<Seq<u8>>,
    j: int,
)
    requires
        steps::chained(ws, outs, n, steps::mset_item(args)),
        0 <= j <= n,
        ws[0].shared.store.inv(),
        forall|i: int| 0 <= i < args.len() ==> (#[trigger] args[i]).len() <= usize::MAX,
        args.len() == 2 * n + 1,
    ensures
        ws[j].shared.store.inv(),
        ws[j].sess.failures >= ws[0].sess.failures,
        ws[j].sess.failures == ws[0].sess.failures ==> forall|k: Seq<u8>|
            #![trigger ws[j].shared.store.get(k)]
            holds_pairs(&ws[0].shared.store, &ws[j].shared.store, args, j, k),
    decreases j,
{
    if j > 0 {
        lemma_pairs(ws, outs, n, args, j - 1);
        let i = j - 1;
        let f = steps::mset_item::<D, M>(args);
        let st = steps::link(ws, outs, i);
        assert(f(i, st));
        let key = args[2 * i + 1];
        let value = args[2 * i + 2];
        assert(steps::pair_step(st, key, value));
        let iv = InputView {
            operand: value,
            ..functions::bare_input(StringOp::SetPlain, st.now())
        };
        let r = choose|r: Status| #[trigger]
            steps::upsert_ran(
                &st.a.shared.store,
                &st.b.shared.store,
                st.a.sess,
                st.b.sess,
                key,
                iv,
                r,
            );
        reveal(steps::upsert_ran);
        let o = ws[i].shared.store;
        entries_are_well_formed(&o, key);
        a_blind_write_holds_what_it_brought(o.get(key), o.mutable(key), key, iv);
        if ws[j].sess.failures == ws[0].sess.failures {
            assert forall|k: Seq<u8>|
                #![trigger ws[j].shared.store.get(k)]
                holds_pairs(&ws[0].shared.store, &ws[j].shared.store, args, j, k) by {
                if k != key {
                    assert(ws[j].shared.store.get(k) == o.get(k));
                    assert(holds_pairs(&ws[0].shared.store, &o, args, i, k));
                }
            }
        }
    }
}

/// MSET: every key holds the last value given for it, without a TTL; other
/// keys are left alone.
pub proof fn mset_writes_every_pair<D: Device, M: Device>(
    s: Step<D, M>,
    raw: Seq<u8>,
    args: Seq<Seq<u8>>,
    key: Seq<u8>,
)
    requires
        s.a.shared.store.inv(),
        args.len() >= 3,
        args.len() % 2 == 1,
        forall|i: int| 0 <= i < args.len() ==> (#[trigger] args[i]).len() <= usize::MAX,
        steps::mset_step(s, raw, args),
        undisturbed(s),
    ensures
        s.says(bytes::text(resp::OK)),
        holds_pairs(
            &s.a.shared.store,
            &s.b.shared.store,
            args,
            (args.len() - 1) / 2,
            key,
        ),
{
    let n = (args.len() - 1) / 2;
    let mid = choose|mid: World<D, M>| #[trigger] steps::mset_ran(s, mid, raw, args);
    let t = Step { b: mid, out1: s.out0, ..s };
    let f = steps::mset_item::<D, M>(args);
    assert(t.repeats(n, f));
    let (ws, outs) = choose|ws: Seq<World<D, M>>, outs: Seq<Seq<u8>>| #[trigger]
        steps::chained(ws, outs, n, f) && ws[0] == t.a && ws[n] == t.b && outs[0] == t.out0
            && outs[n] == t.out1;
    lemma_pairs(ws, outs, n, args, n);
    assert(holds_pairs(&ws[0].shared.store, &ws[n].shared.store, args, n, key));
}

/// What GET answers of an entry.
pub open spec fn get_reply(g: Option<RecordView>, now: i64) -> Seq<u8> {
    match g {
        Some(b) => steps::value_reply(!functions::expired_at(b, now), b.value()),
        None => bytes::text(resp::NULL_BULK),
    }
}

/// The values of the first `n` keys of MGET.
pub open spec fn get_replies<D: Device>(
    store: &Store<D>,
    args: Seq<Seq<u8>>,
    n: int,
    now: i64,
) -> Seq<u8>
    decreases n,
{
    if n <= 0 {
        Seq::empty()
    } else {
        get_replies(store, args, n - 1, now) + get_reply(store.get(args[n]), now)
    }
}

proof fn lemma_gets<D: Device, M: Device>(
    ws: Seq<World<D, M>>,
    outs: Seq<Seq<u8>>,
    n: int,
    args: Seq<Seq<u8>>,
    j: int,
)
    requires
        steps::chained(ws, outs, n, steps::mget_item(args)),
        0 <= j <= n,
        ws[0].shared.store.reliable(),
        args.len() == n + 1,
    ensures
        ws[j].shared.store.reliable(),
        ws[j].shared.store.newest_same(&ws[0].shared.store),
        ws[j].sess.now == ws[0].sess.now,
        ws[j].sess.failures >= ws[0].sess.failures,
        ws[j].sess.failures == ws[0].sess.failures ==> outs[j] == outs[0] + get_replies(
            &ws[0].shared.store,
            args,
            j,
            ws[0].sess.now,
        ),
    decreases j,
{
    let o = ws[0].shared.store;
    let now = ws[0].sess.now;
    if j > 0 {
        lemma_gets(ws, outs, n, args, j - 1);
        let i = j - 1;
        let f = steps::mget_item::<D, M>(args);
        let st = steps::link(ws, outs, i);
        assert(f(i, st));
        let key = args[i + 1];
        assert(steps::get_step(st, key));
        reveal(steps::read_ran);
        assert(ws[j].shared.store.newest_same(&ws[i].shared.store));
        assert forall|k: Seq<u8>| #[trigger] ws[j].shared.store.newest(k) == o.newest(k) by {
            assert(ws[j].shared.store.newest(k) == ws[i].shared.store.newest(k));
        }
        assert forall|k: Seq<u8>| #[trigger] ws[j].shared.store.get(k) == o.get(k) by {
            assert(ws[j].shared.store.get(k) == ws[i].shared.store.get(k));
        }
        if ws[j].sess.failures == ws[0].sess.failures {
            let before = get_replies(&o, args, i, now);
            let reply = get_reply(o.get(key), now);
            assert(ws[i].shared.store.get(key) == o.get(key));
            assert(outs[j] == outs[i] + reply);
            assert((outs[0] + before) + reply =~= outs[0] + (before + reply));
        }
    } else {
        assert(outs[0] + get_replies(&o, args, 0, now) =~= outs[0]);
    }
}

/// MGET answers the value of every key, in order, as GET would.
pub proof fn mget_answers_every_key<D: Device, M: Device>(s: Step<D, M>, args: Seq<Seq<u8>>)
    requires
        args.len() >= 2,
        s.a.shared.store.reliable(),
        steps::mget_step(s, args),
        undisturbed(s),
    ensures
        s.out1 == s.out0 + resp::array_header(args.len() - 1) + get_replies(
            &s.a.shared.store,
            args,
            args.len() - 1,
            s.now(),
        ),
        s.b.shared.store.newest_same(&s.a.shared.store),
{
    let n = args.len() - 1;
    let t = Step { out0: s.out0 + resp::array_header(n), ..s };
    let f = steps::mget_item::<D, M>(args);
    assert(t.repeats(n, f));
    let (ws, outs) = choose|ws: Seq<World<D, M>>, outs: Seq<Seq<u8>>| #[trigger]
        steps::chained(ws, outs, n, f) && ws[0] == t.a && ws[n] == t.b && outs[0] == t.out0
            && outs[n] == t.out1;
    lemma_gets(ws, outs, n, args, n);
}

/// Whether a key is there at the time `now`.
pub open spec fn is_there(g: Option<RecordView>, now: i64) -> bool {
    g matches Some(b) && !functions::expired_at(b, now)
}

/// How many of the first `n` keys of EXISTS are there.
pub open spec fn there<D: Device>(store: &Store<D>, args: Seq<Seq<u8>>, n: int, now: i64) -> nat
    decreases n,
{
    if n <= 0 {
        0
    } else {
        there(store, args, n - 1, now) + (if is_there(store.get(args[n]), now) {
            1nat
        } else {
            0nat
        })
    }
}

proof fn lemma_readings<D: Device, M: Device>(
    ws: Seq<World<D, M>>,
    ss: Seq<Status>,
    args: Seq<Seq<u8>>,
    n: int,
    j: int,
)
    requires
        steps::readings(ws, ss, args, n),
        0 <= j <= n,
        ws[0].shared.store.reliable(),
        args.len() == n + 1,
    ensures
        ws[j].shared.store.reliable(),
        ws[j].shared.store.newest_same(&ws[0].shared.store),
        ws[j].sess.now == ws[0].sess.now,
        ws[j].sess.failures >= ws[0].sess.failures,
        ws[j].sess.failures == ws[0].sess.failures ==> steps::tally(
            ss.subrange(0, j),
            Status::Found,
        ) == there(&ws[0].shared.store, args, j, ws[0].sess.now),
    decreases j,
{
    let o = ws[0].shared.store;
    if j > 0 {
        lemma_readings(ws, ss, args, n, j - 1);
        let i = j - 1;
        assert(steps::reading_at(ws, ss, args, i));
        reveal(steps::read_ran);
        assert(ss.subrange(0, j).drop_last() =~= ss.subrange(0, i));
        assert(ss.subrange(0, j).last() == ss[i]);
        assert forall|k: Seq<u8>| #[trigger] ws[j].shared.store.newest(k) == o.newest(k) by {
            assert(ws[j].shared.store.newest(k) == ws[i].shared.store.newest(k));
        }
        assert forall|k: Seq<u8>| #[trigger] ws[j].shared.store.get(k) == o.get(k) by {
            assert(ws[j].shared.store.get(k) == ws[i].shared.store.get(k));
        }
        assert(ws[i].shared.store.get(args[j]) == o.get(args[j]));
    } else {
        assert(ss.subrange(0, 0) =~= Seq::empty());
    }
}

/// EXISTS counts the keys that are there, one that is named twice twice.
pub proof fn exists_counts_what_is_there<D: Device, M: Device>(s: Step<D, M>, args: Seq<Seq<u8>>)
    requires
        args.len() >= 2,
        s.a.shared.store.reliable(),
        steps::exists_step(s, args),
        undisturbed(s),
    ensures
        s.says(
            resp::integer_reply(
                there(&s.a.shared.store, args, args.len() - 1, s.now()) as int,
            ),
        ),
        s.b.shared.store.newest_same(&s.a.shared.store),
{
    let n = args.len() - 1;
    let (ws, ss) = choose|ws: Seq<World<D, M>>, ss: Seq<Status>| #[trigger]
        steps::readings(ws, ss, args, n) && ws[0] == s.a && ws[n] == s.b && s.says(
            resp::integer_reply(steps::tally(ss, Status::Found) as int),
        );
    lemma_readings(ws, ss, args, n, n);
    assert(ss.subrange(0, n) =~= ss);
}

/// Whether one of the first `n` keys of DEL is `key`.
pub open spec fn named(args: Seq<Seq<u8>>, n: int, key: Seq<u8>) -> bool
    decreases n,
{
    n > 0 && (args[n] == key || named(args, n - 1, key))
}

/// How many keys the first `n` of DEL remove: one that is named twice counts
/// once.
pub open spec fn removed<D: Device>(store: &Store<D>, args: Seq<Seq<u8>>, n: int) -> nat
    decreases n,
{
    if n <= 0 {
        0
    } else {
        removed(store, args, n - 1) + (if store.get(args[n]) is Some && !named(args, n - 1, args[n]) {
            1nat
        } else {
            0nat
        })
    }
}

/// A store that can be read back could be before it grew.
proof fn lemma_reliable_before<D: Device>(o: &Store<D>, n: &Store<D>, thread: u64)
    requires
        steps::store_moved(o, n, thread),
        n.reliable(),
        o.inv(),
    ensures
        o.reliable(),
{
    crate::math::lemma_mul_le(o.log@.tail_page + 2, n.log@.tail_page + 2, o.log@.psize);
}

proof fn lemma_deletions<D: Device, M: Device>(
    ws: Seq<World<D, M>>,
    ss: Seq<Status>,
    args: Seq<Seq<u8>>,
    n: int,
    j: int,
)
    requires
        steps::deletions(ws, ss, args, n),
        0 <= j <= n,
        ws[0].shared.store.inv(),
        args.len() == n + 1,
    ensures
        ws[j].shared.store.inv(),
        ws[j].sess.failures >= ws[0].sess.failures,
        ws[j].shared.store.reliable() ==> ws[0].shared.store.reliable(),
        ws[j].sess.failures == ws[0].sess.failures && ws[j].shared.store.reliable() ==> {
            &&& steps::tally(ss.subrange(0, j), Status::Deleted) == removed(
                &ws[0].shared.store,
                args,
                j,
            )
            &&& forall|k: Seq<u8>|
                #![trigger ws[j].shared.store.get(k)]
                ws[j].shared.store.get(k) == (if named(args, j, k) {
                    None
                } else {
                    ws[0].shared.store.get(k)
                })
        },
    decreases j,
{
    let o = ws[0].shared.store;
    if j > 0 {
        lemma_deletions(ws, ss, args, n, j - 1);
        let i = j - 1;
        assert(steps::deletion_at(ws, ss, args, i));
        reveal(steps::delete_ran);
        let key = args[j];
        let before = ws[i].shared.store;
        let after = ws[j].shared.store;
        assert(ss.subrange(0, j).drop_last() =~= ss.subrange(0, i));
        assert(ss.subrange(0, j).last() == ss[i]);
        if after.reliable() {
            lemma_reliable_before(&before, &after, ws[i].sess.thread);
            if ws[j].sess.failures == ws[0].sess.failures {
                assert forall|k: Seq<u8>|
                    #![trigger ws[j].shared.store.get(k)]
                    ws[j].shared.store.get(k) == (if named(args, j, k) {
                        None
                    } else {
                        o.get(k)
                    }) by {
                    if k != key {
                        assert(after.get(k) == before.get(k));
                    }
                }
            }
        }
    } else {
        assert(ss.subrange(0, 0) =~= Seq::empty());
    }
}

/// DEL removes every key that it names and no other, and answers how many
/// there were.
pub proof fn del_removes_every_key<D: Device, M: Device>(
    s: Step<D, M>,
    raw: Seq<u8>,
    args: Seq<Seq<u8>>,
    key: Seq<u8>,
)
    requires
        s.a.shared.store.inv(),
        args.len() >= 2,
        steps::del_step(s, raw, args),
        undisturbed(s),
        s.b.shared.store.reliable(),
    ensures
        s.says(
            resp::integer_reply(removed(&s.a.shared.store, args, args.len() - 1) as int),
        ),
        s.b.shared.store.get(key) == (if named(args, args.len() - 1, key) {
            None
        } else {
            s.a.shared.store.get(key)
        }),
{
    let n = args.len() - 1;
    let (ws, ss) = choose|ws: Seq<World<D, M>>, ss: Seq<Status>| #[trigger]
        steps::deletions(ws, ss, args, n) && ws[0] == s.a && s.says(
            resp::integer_reply(steps::tally(ss, Status::Deleted) as int),
        ) && if steps::tally(ss, Status::Deleted) > 0 {
            steps::enters(ws[n], s.b, AofOp::Command, raw)
        } else {
            s.b == ws[n]
        };
    lemma_deletions(ws, ss, args, n, n);
    assert(ss.subrange(0, n) =~= ss);
    assert(s.b.shared.store == ws[n].shared.store);
}

// ---------------------------------------------------------------------------
// Transactions
// ---------------------------------------------------------------------------

/// Whoever watches a key notices a write to it.
pub proof fn a_write_is_noticed_by_watchers(
    before: &WatchTable,
    after: &WatchTable,
    key: Seq<u8>,
    watches: Seq<(usize, u64)>,
)
    requires
        before.inv(),
        steps::bumped(before, after, key),
        watches.contains(steps::watched(before, key)),
    ensures
        steps::conflict(after@, watches),
{
    before.lemma_slot(key);
    let w = steps::watched(before, key);
    let i = choose|i: int| 0 <= i < watches.len() && watches[i] == w;
    assert(after@[w.0 as int] != w.1);
    assert(watches[i].0 == w.0);
}

/// A transaction that is refused, because a command was or because a watched
/// key was written, changes nothing but the transaction state itself.
pub proof fn a_refused_transaction_changes_nothing<D: Device, M: Device>(s: Step<D, M>)
    requires
        steps::exec_step(s),
        s.a.sess.in_multi,
        s.a.sess.dirty || steps::conflict(s.a.shared.watch@, s.a.sess.watches),
    ensures
        s.b.shared == s.a.shared,
        s.b.sess == steps::discarded(s.a.sess),
{
}

/// Inside MULTI, commands are queued and nothing happens yet.
pub proof fn queued_commands_wait<D: Device, M: Device>(
    s: Step<D, M>,
    now: i64,
    raw: Seq<u8>,
    args: Seq<Seq<u8>>,
)
    requires
        steps::dispatch_step(s, now, raw, args),
        args.len() > 0,
        s.a.sess.in_multi,
        !crate::arguments::is_control(crate::arguments::name_of(args[0])),
    ensures
        s.b.shared == s.a.shared,
        s.b.sess.in_multi,
        s.b.sess.dirty ==> s.a.sess.dirty || crate::arguments::is_unqueueable(
            crate::arguments::name_of(args[0]),
        ),
        s.b.sess.queued == s.a.sess.queued || s.b.sess.queued == s.a.sess.queued.push(raw),
{
}

// ---------------------------------------------------------------------------
// The operation log
// ---------------------------------------------------------------------------

/// A write is entered in the operation log once, at the end, with the clock it
/// ran at; a write that is replayed is not entered again.
pub proof fn a_write_is_logged_once<D: Device, M: Device>(
    o: &Shared<D, M>,
    n: &Shared<D, M>,
    ov: SessView,
    key: Seq<u8>,
    raw: Seq<u8>,
)
    requires
        steps::logged(o, n, ov, true, key, raw),
    ensures
        ov.replay ==> shared::aof_view(n.aof) == shared::aof_view(o.aof),
        !ov.replay ==> (shared::aof_view(o.aof) matches Some(a) ==> shared::aof_view(n.aof) matches Some(
            b,
        ) && b.buf == a.buf + aof::frame(
            EntryView { op: AofOp::Command, timestamp_ms: ov.now, payload: raw },
        )),
{
    reveal(steps::logged);
}

// ---------------------------------------------------------------------------
// The whole keyspace
// ---------------------------------------------------------------------------

proof fn lemma_matching(pattern: Seq<u8>, keys: Seq<Seq<u8>>)
    requires
        keys.no_duplicates(),
    ensures
        steps::matching(pattern, keys).no_duplicates(),
        forall|k: Seq<u8>| #[trigger]
            steps::matching(pattern, keys).contains(k) <==> keys.contains(k) && glob::glob(pattern, k),
    decreases keys.len(),
{
    let m = steps::matching(pattern, keys);
    if keys.len() > 0 {
        let less = keys.drop_last();
        let l = steps::matching(pattern, less);
        lemma_matching(pattern, less);
        assert(forall|k: Seq<u8>| keys.contains(k) ==> less.contains(k) || k == keys.last()) by {
            assert forall|k: Seq<u8>| keys.contains(k) implies less.contains(k) || k == keys.last() by {
                let i = choose|i: int| 0 <= i < keys.len() && keys[i] == k;
                if i < less.len() {
                    assert(less[i] == k);
                }
            }
        }
        assert(forall|k: Seq<u8>| less.contains(k) ==> keys.contains(k)) by {
            assert forall|k: Seq<u8>| less.contains(k) implies keys.contains(k) by {
                let i = choose|i: int| 0 <= i < less.len() && less[i] == k;
                assert(keys[i] == k);
            }
        }
        assert(keys.contains(keys.last())) by {
            assert(keys[keys.len() - 1] == keys.last());
        }
        assert(!less.contains(keys.last())) by {
            if less.contains(keys.last()) {
                let i = choose|i: int| 0 <= i < less.len() && less[i] == keys.last();
                assert(keys[i] == keys[keys.len() - 1]);
            }
        }
        if glob::glob(pattern, keys.last()) {
            assert(m == l.push(keys.last()));
            assert forall|k: Seq<u8>| #[trigger] m.contains(k) <==> keys.contains(k) && glob::glob(
                pattern,
                k,
            ) by {
                if m.contains(k) {
                    let i = choose|i: int| 0 <= i < m.len() && m[i] == k;
                    if i < l.len() {
                        assert(l[i] == k);
                        assert(l.contains(k));
                    }
                }
                if keys.contains(k) && glob::glob(pattern, k) {
                    if k == keys.last() {
                        assert(m[m.len() - 1] == k);
                    } else {
                        assert(l.contains(k));
                        let i = choose|i: int| 0 <= i < l.len() && l[i] == k;
                        assert(m[i] == k);
                    }
                }
            }
            assert(!l.contains(keys.last()));
            assert(m.no_duplicates()) by {
                assert forall|i: int, j: int| 0 <= i < m.len() && 0 <= j < m.len() && i != j implies m[i]
                    != m[j] by {
                    if i == l.len() {
                        assert(l.contains(l[j]));
                    } else if j == l.len() {
                        assert(l.contains(l[i]));
                    }
                }
            }
        }
    }
}

/// KEYS answers every key that matches, once, and nothing else.
pub proof fn keys_lists_exactly_what_matches<D: Device>(
    store: &Store<D>,
    pattern: Seq<u8>,
    keys: Seq<Seq<u8>>,
)
    requires
        store.inv(),
        store.log@.dependable >= store.log@.flushed,
        steps::listed(store, pattern, keys),
    ensures
        keys.no_duplicates(),
        forall|k: Seq<u8>| #[trigger]
            keys.contains(k) <==> store.get(k) is Some && glob::glob(pattern, k),
{
    scan::live_records_are_the_contents(store);
    let all = store.keys_of(store.live_list());
    lemma_matching(pattern, all);
    assert forall|k: Seq<u8>| #[trigger] keys.contains(k) <==> store.get(k) is Some && glob::glob(
        pattern,
        k,
    ) by {
        assert(all.to_set().contains(k) <==> store.contents().dom().contains(k));
        assert(all.to_set().contains(k) <==> all.contains(k));
    }
}

// ---------------------------------------------------------------------------
// The engine
// ---------------------------------------------------------------------------

/// The boundaries of the log never cross.
pub proof fn boundaries_are_ordered<D: Device>(store: &Store<D>)
    requires
        store.inv(),
    ensures
        store.log@.begin <= store.log@.closed <= store.log@.safe_head <= store.log@.head
            <= store.log@.flushed <= store.log@.safe_ro <= store.log@.ro <= store.log@.tail(),
{
}

/// What the log may do from one moment to the next: what concerns the epoch
/// stays, or the device takes more of what is safe, or what waits is drained,
/// with or without a new boundary.
pub open spec fn log_step(a: LogView, b: LogView) -> bool {
    ||| {
        &&& b.pending == a.pending
        &&& b.safe_ro == a.safe_ro
        &&& b.safe_head == a.safe_head
        &&& b.closed == a.closed
        &&& b.flushed == a.flushed || b.flushed <= a.safe_ro
    }
    ||| log::drained(a, b, a.pending)
    ||| exists|action: LogAction| log::drained(a, b, #[trigger] log::registered(a, action))
}

/// The thread with row `k` of the epoch table stays inside epoch `e`.
pub open spec fn protected_by(v: LogView, k: int, e: u64) -> bool {
    0 <= k < v.slots.len() && v.slots[k].epoch == e
}

/// As long as a thread stays inside the epoch, no boundary takes effect that was
/// published after it entered: what it may be updating in place is not flushed,
/// and what it may be reading is not closed.
pub proof fn a_reader_holds_back_the_boundaries(vs: Seq<LogView>, k: int, e: u64, n: int)
    requires
        0 <= n < vs.len(),
        e != 0,
        forall|i: int| 0 <= i < vs.len() ==> (#[trigger] vs[i]).inv(),
        forall|i: int| 0 <= i < vs.len() ==> protected_by(#[trigger] vs[i], k, e),
        forall|i: int| 0 <= i < vs.len() - 1 ==> log_step(#[trigger] vs[i], vs[i + 1]),
    ensures
        vs[n].safe_ro <= vs[0].ro,
        vs[n].flushed <= vs[0].ro,
        vs[n].safe_head <= vs[0].head,
        vs[n].closed <= vs[0].head,
        log::withheld(vs[n], e, vs[0].ro, vs[0].head),
    decreases n,
{
    if n == 0 {
        assert(vs[0].inv());
        log::lemma_withheld_start(vs[0], e);
    } else {
        a_reader_holds_back_the_boundaries(vs, k, e, n - 1);
        let a = vs[n - 1];
        let b = vs[n];
        assert(log_step(vs[n - 1], vs[n - 1 + 1]));
        assert(a.inv() && b.inv());
        assert(protected_by(a, k, e) && protected_by(b, k, e));
        if log::drained(a, b, a.pending) {
            log::lemma_withheld_step(a, b, a.pending, k, e, vs[0].ro, vs[0].head);
        } else if exists|action: LogAction| log::drained(a, b, #[trigger] log::registered(a, action)) {
            let action = choose|action: LogAction|
                log::drained(a, b, #[trigger] log::registered(a, action));
            let all = log::registered(a, action);
            assert(all.drop_last() =~= a.pending);
            log::lemma_withheld_step(a, b, all, k, e, vs[0].ro, vs[0].head);
        }
    }
}

/// A tag has one slot in the index: looking it up, or asking for it again, gives
/// back the slot that it was given, and asking again changes nothing.
pub proof fn a_tag_keeps_its_slot(index: &HashIndex, s: SlotRef, t: SlotRef)
    requires
        index.inv(),
        index.holds(s),
        index.holds(t),
        t.bucket == s.bucket,
        t.tag == s.tag,
    ensures
        t == s,
        index.lookup(s.bucket as int, s.tag) is Some,
{
    index.lemma_one_slot(s, t);
    index.lemma_slot(s);
}

/// What a key holds is what a read of it gives, however many operations on other
/// keys come in between and wherever its record has drifted: what the last write
/// left, or nothing if it was deleted last or never written.
pub proof fn what_was_written_is_read_later<F: SessionFunctions, D: Device>(
    ss: Seq<Store<D>>,
    keys: Seq<Seq<u8>>,
    key: Seq<u8>,
    input: F::Input,
    out: F::OutputView,
    n: int,
)
    requires
        0 <= n < ss.len(),
        keys.len() == ss.len() - 1,
        forall|i: int|
            0 <= i < keys.len() ==> (#[trigger] keys[i]) != key && steps::others_same(
                &ss[i],
                &ss[i + 1],
                keys[i],
            ),
    ensures
        ss[n].get(key) == ss[0].get(key),
        ss[0].get(key) matches Some(b) ==> ({
            let x = F::reader_spec(key, input, b, out);
            store::read_result::<F>(ss[n].get(key), key, input, out) == (
                if x.0 {
                    Status::Found
                } else {
                    Status::NotFound
                },
                x.1,
            )
        }),
        ss[0].get(key) is None ==> store::read_result::<F>(ss[n].get(key), key, input, out) == (
            Status::NotFound,
            out,
        ),
    decreases n,
{
    if n > 0 {
        what_was_written_is_read_later::<F, D>(ss, keys, key, input, out, n - 1);
        assert(keys[n - 1] != key);
        assert(ss[n - 1 + 1].get(key) == ss[n - 1].get(key));
    }
}

/// Operations do not wear a store out: until the device, the addresses or the
/// epochs run out, a session that could go on before one can go on after it.
/// None turns more than one page, or takes more of the index than one slot of
/// the key's bucket and one overflow bucket to hold it.
pub proof fn operations_leave_the_store_calm<D: Device>(
    o: &Store<D>,
    n: &Store<D>,
    thread: u64,
    key: Seq<u8>,
)
    requires
        o.calm(thread),
        o.inv(),
        steps::store_moved(o, n, thread),
        n.entered(o, key),
        o.log@.dependable >= (o.log@.tail_page + 3) * o.log@.psize,
        (o.log@.tail_page + 3) * o.log@.psize <= log::ADDRESS_LIMIT,
        o.log@.epoch <= u64::MAX - 64 - store::EPOCH_STEP,
    ensures
        n.calm(thread),
        n.log@.tail_page <= o.log@.tail_page + 1,
        n.index.spare() >= o.index.spare() - 1,
        o.index.has_free(o.index.bucket_of(hash::key_hash(key))) ==> n.index.spare()
            == o.index.spare(),
        forall|b: int|
            0 <= b < o.index.bucket_count() && b != o.index.bucket_of(hash::key_hash(key))
                ==> #[trigger] n.index.free(b) == o.index.free(b),
        o.index.spare() > 1 ==> forall|k: Seq<u8>| #[trigger] n.indexable(k),
{
    crate::math::lemma_mul_le(n.log@.tail_page + 2, o.log@.tail_page + 3, o.log@.psize);
    o.index.lemma_buckets();
    assert(n.index.bucket_count() == o.index.bucket_count());
}

/// What every operation on a key does to the index of a store at most.
pub open spec fn index_step<D: Device>(o: Store<D>, n: Store<D>, key: Seq<u8>) -> bool {
    n.index.same_shape(&o.index) && n.entered(&o, key)
}

/// An index that starts empty gives every seven new keys one overflow bucket at
/// most: until seven times as many operations have run as it has of them, every
/// key finds room.
pub proof fn a_new_index_has_room_for_many_keys<D: Device>(
    ss: Seq<Store<D>>,
    keys: Seq<Seq<u8>>,
    m: int,
)
    requires
        0 <= m < ss.len(),
        ss.len() == keys.len() + 1,
        ss[0].inv(),
        forall|b: int| 0 <= b < ss[0].index.bucket_count() ==> #[trigger] ss[0].index.free(b) == 7,
        forall|i: int| 0 <= i < keys.len() ==> index_step(ss[i], ss[i + 1], #[trigger] keys[i]),
    ensures
        7 * (ss[0].index.spare() - ss[m].index.spare()) <= m,
        m < 7 * ss[0].index.spare() ==> forall|k: Seq<u8>| #[trigger] ss[m].indexable(k),
{
    lemma_room_used(ss, keys, m);
    ss[0].index.lemma_worth();
    ss[m].index.lemma_worth();
}

proof fn lemma_room_used<D: Device>(ss: Seq<Store<D>>, keys: Seq<Seq<u8>>, m: int)
    requires
        0 <= m < ss.len(),
        ss.len() == keys.len() + 1,
        ss[0].index.inv(),
        ss[0].index.compact(),
        forall|i: int| 0 <= i < keys.len() ==> index_step(ss[i], ss[i + 1], #[trigger] keys[i]),
    ensures
        ss[m].index.same_shape(&ss[0].index),
        ss[m].index.compact(),
        ss[m].index.worth() >= ss[0].index.worth() - m,
    decreases m,
{
    if m > 0 {
        lemma_room_used(ss, keys, m - 1);
        let h = hash::key_hash(keys[m - 1]);
        let o = ss[m - 1].index;
        let n = ss[m - 1 + 1].index;
        assert(index_step(ss[m - 1], ss[m - 1 + 1], keys[m - 1]));
        ss[0].index.lemma_buckets();
        assert(o.bucket_of(h) == ss[0].index.bucket_of(h));
        HashIndex::lemma_worth_step(&o, &n, o.bucket_of(h), h >> 49);
    }
}

/// Hash chains run strictly downwards, through records of one bucket and tag.
pub proof fn chains_descend<D: Device>(store: &Store<D>, a: int)
    requires
        store.inv(),
        store.recs@.dom().contains(a),
    ensures
        chain::prev(store.recs@, a) < a,
        chain::prev(store.recs@, a) >= 64 ==> store.recs@.dom().contains(
            chain::prev(store.recs@, a),
        ) && chain::same_chain(
            store.index,
            store.recs@[chain::prev(store.recs@, a)].key,
            store.recs@[a].key,
        ),
{
}

/// A save leaves a checkpoint that a restart accepts, on a device that holds
/// what the log wrote. An index whose overflow buckets can hold an entry for
/// every record has room for it.
pub proof fn what_is_saved_is_found<D: Device, M: Device>(
    o: &Shared<D, M>,
    n: &Shared<D, M>,
    now_ms: i64,
    m0: &Store<D>,
    info: CheckpointInfo,
)
    requires
        o.store.inv(),
        n.store.inv(),
        shared::saved(o, n, now_ms, Ok::<(), SaveError>(())),
        (n.store.log@.tail_page + 2) * n.store.log@.psize <= log::ADDRESS_LIMIT,
        info == (CheckpointInfo {
            version: o.store.state().version,
            begin_address: o.store.floor,
            start_address: o.store.log@.tail() as u64,
            final_address: o.store.log@.tail() as u64,
            user_data: o.covered(),
        }),
        checkpoint::holds_image(&n.store, m0),
    ensures
        CheckpointInfo::decoded(info.encoded()) == Ok::<CheckpointInfo, CheckpointError>(info),
        checkpoint::has_checkpoint(m0, info),
        n.store.order@.len() <= 7 * m0.index.arena() ==> !checkpoint::crowded(m0, info),
{
    checkpoint::metadata_round_trip(info);
    store::lemma_state_mask(o.store.state_word);
    checkpoint::checkpoint_is_recoverable(&n.store, m0);
    assert(checkpoint::recoverable(
        m0,
        info.final_address as int,
        checkpoint::disk_recs(&n.store),
        n.store.order@,
    ));
    checkpoint::lemma_needed(
        m0.index,
        checkpoint::disk_recs(&n.store),
        n.store.order@,
        info.span(),
        0,
        n.store.order@.len() as int,
    );
}

/// What was saved is what a restart finds: a store that is rebuilt from the
/// metadata of a checkpoint, on a device that holds what the log wrote, has
/// the contents that were saved. What FLUSHALL dropped before the save does not
/// come back.
pub proof fn what_is_saved_is_recovered<D: Device, M: Device>(
    o: &Shared<D, M>,
    n: &Shared<D, M>,
    now_ms: i64,
    m0: &Store<D>,
    m: &Store<D>,
    info: CheckpointInfo,
)
    requires
        o.store.inv(),
        n.store.inv(),
        o.store.whole(),
        shared::saved(o, n, now_ms, Ok::<(), SaveError>(())),
        (n.store.log@.tail_page + 2) * n.store.log@.psize <= log::ADDRESS_LIMIT,
        info == (CheckpointInfo {
            version: o.store.state().version,
            begin_address: o.store.floor,
            start_address: o.store.log@.tail() as u64,
            final_address: o.store.log@.tail() as u64,
            user_data: o.covered(),
        }),
        checkpoint::holds_image(&n.store, m0),
        m.inv(),
        recovery::rebuilt(m0, m, info),
    ensures
        CheckpointInfo::decoded(info.encoded()) == Ok::<CheckpointInfo, CheckpointError>(info),
        m.contents() == o.store.contents(),
        m.whole(),
{
    assert(n.store.whole()) by {
        reveal(Store::whole);
        assert forall|k: Seq<u8>| #[trigger] n.store.newest(k) == o.store.newest(k) by {}
    }
    checkpoint::metadata_round_trip(info);
    checkpoint::checkpoint_is_recoverable(&n.store, m0);
    assert(checkpoint::recoverable(
        m0,
        info.final_address as int,
        checkpoint::disk_recs(&n.store),
        n.store.order@,
    ));
    checkpoint::recovery_gives_back(&n.store, m0, m, info);
}

proof fn lemma_left_by_a_crash<D: Device>(n: &Store<D>, later: &Store<D>, m0: &Store<D>)
    requires
        n.inv(),
        n.log@.flushed == n.log@.tail(),
        n.log@.tail() > log::FIRST_VALID_ADDRESS,
        n.log@.durable_to(n.log@.tail()),
        log::image_kept(n.log@, later.log@),
        m0.log@.content == later.log@.durable,
        m0.log@.psize == n.log@.psize,
        m0.log@.bsize >= 2,
        m0.index.same_shape(&n.index),
    ensures
        checkpoint::holds_image(n, m0),
{
    let v = n.log@;
    let w = later.log@;
    assert forall|i: int| 0 <= i < v.flushed implies #[trigger] m0.log@.content[i] == v.content[i] && i
        < m0.log@.content.len() by {
        assert(v.sure(i));
        assert(w.sure(i));
        assert(w.content[i] == v.content[i]);
    }
    assert(m0.log@.content[v.flushed - 1] == v.content[v.flushed - 1]);
}

/// What was saved outlives a crash: whatever operations ran after the save, what
/// the crash leaves on the two devices is the metadata of that checkpoint and a
/// log from which a restart rebuilds the contents that were saved.
pub proof fn what_is_saved_outlives_a_crash<D: Device, M: Device>(
    o: &Shared<D, M>,
    n: &Shared<D, M>,
    now_ms: i64,
    later: &Store<D>,
    m0: &Store<D>,
    m: &Store<D>,
    info: CheckpointInfo,
)
    requires
        o.store.inv(),
        n.store.inv(),
        o.store.whole(),
        o.store.log@.tail() > log::FIRST_VALID_ADDRESS,
        shared::saved(o, n, now_ms, Ok::<(), SaveError>(())),
        (n.store.log@.tail_page + 2) * n.store.log@.psize <= log::ADDRESS_LIMIT,
        info == (CheckpointInfo {
            version: o.store.state().version,
            begin_address: o.store.floor,
            start_address: o.store.log@.tail() as u64,
            final_address: o.store.log@.tail() as u64,
            user_data: o.covered(),
        }),
        log::image_kept(n.store.log@, later.log@),
        m0.log@.content == later.log@.durable,
        m0.log@.psize == n.store.log@.psize,
        m0.log@.bsize >= 2,
        m0.index.same_shape(&n.store.index),
        m.inv(),
        recovery::rebuilt(m0, m, info),
    ensures
        CheckpointInfo::decoded(n.meta.durable()) == Ok::<CheckpointInfo, CheckpointError>(info),
        checkpoint::has_checkpoint(m0, info),
        m.contents() == o.store.contents(),
{
    lemma_left_by_a_crash(&n.store, later, m0);
    what_is_saved_is_found(o, n, now_ms, m0, info);
    what_is_saved_is_recovered(o, n, now_ms, m0, m, info);
    checkpoint::metadata_round_trip(info);
    device::lemma_stored_front(o.meta.content(), info.encoded());
    checkpoint::lemma_decoded_prefix(info, n.meta.durable());
}

/// The callbacks are told once of a record that was made, copied or deleted, by
/// a notice about its key, after all that they were told before; and of nothing
/// else.
pub proof fn callbacks_are_told_once<F: SessionFunctions>(
    o: &Session<F>,
    n: &Session<F>,
    s: Status,
    key: Seq<u8>,
    blind: bool,
)
    requires
        n.told_by(o, s, key, blind),
    ensures
        ({
            let before = o.functions.told();
            let after = n.functions.told();
            let new = s is Created || s is CopyUpdated || s is Deleted;
            &&& after.len() == before.len() + (if new {
                1int
            } else {
                0
            })
            &&& forall|i: int| 0 <= i < before.len() ==> #[trigger] after[i] == before[i]
            &&& s is Created && blind ==> after.last() == Notice::Written(key)
            &&& s is Created && !blind ==> after.last() == Notice::Made(key)
            &&& s is CopyUpdated ==> after.last() == Notice::Copied(key)
            &&& s is Deleted ==> after.last() == Notice::Removed(key)
        }),
{
}

} // verus!
