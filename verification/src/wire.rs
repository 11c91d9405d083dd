//! What is written in RESP is read back as it was: commands, and integers.
use crate::resp;
use crate::resp::{IntParse, Outcome, Parsed};
use vstd::prelude::*;

verus! {

/// Bulk strings, one after the other.
pub open spec fn bulks(parts: Seq<Seq<u8>>) -> Seq<u8>
    decreases parts.len(),
{
    if parts.len() == 0 {
        Seq::empty()
    } else {
        bulks(parts.drop_last()) + resp::bulk_reply(parts.last())
    }
}

/// An array of bulk strings: the form of a command, and of a list of keys.
pub open spec fn array_of(parts: Seq<Seq<u8>>) -> Seq<u8> {
    resp::array_header(parts.len() as int) + bulks(parts)
}

/// Append an array of bulk strings.
pub fn write_array(out: &mut Vec<u8>, parts: &[&[u8]])
    ensures
        final(out)@ == old(out)@ + array_of(parts@.map_values(|p: &[u8]| p@)),
{
    let ghost all = parts@.map_values(|p: &[u8]| p@);
    resp::write_array_header(out, parts.len());
    let ghost head = out@;
    let mut n: usize = 0;
    assert(all.subrange(0, 0) =~= Seq::empty());
    assert(head + bulks(all.subrange(0, 0)) =~= head);
    while n < parts.len()
        invariant
            n <= parts@.len(),
            all == parts@.map_values(|p: &[u8]| p@),
            out@ == head + bulks(all.subrange(0, n as int)),
        decreases parts@.len() - n,
    {
        resp::write_bulk(out, parts[n]);
        proof {
            let upto = all.subrange(0, n + 1);
            assert(upto.drop_last() =~= all.subrange(0, n as int));
            assert(upto.last() == parts@[n as int]@);
            assert(out@ =~= head + bulks(upto));
        }
        n += 1;
    }
    proof {
        assert(all.subrange(0, n as int) =~= all);
        assert(out@ =~= old(out)@ + array_of(all));
    }
}

proof fn lemma_nat_digits(n: nat)
    ensures
        nat_digits_len(n) >= 1,
        resp::all_digits(resp::nat_digits(n)),
        resp::decimal(resp::nat_digits(n)) == n,
        n <= i64::MAX ==> resp::digits_value(resp::nat_digits(n)) == IntParse::Value(n as int),
    decreases n,
{
    let d = resp::nat_digits(n);
    if n < 10 {
        assert(d.drop_last() =~= Seq::empty());
        assert(resp::decimal(d.drop_last()) == 0);
        assert(resp::digits_value(d.drop_last()) == IntParse::Value(0));
    } else {
        lemma_nat_digits(n / 10);
        assert(d.drop_last() =~= resp::nat_digits(n / 10));
    }
}

spec fn nat_digits_len(n: nat) -> nat {
    resp::nat_digits(n).len()
}

/// A number that is written down is read back as the same number, as the
/// value of a command argument.
pub proof fn written_integers_are_read_back(v: int)
    requires
        i64::MIN <= v <= i64::MAX,
    ensures
        resp::argument_int(resp::int_digits(v)) == Some(v),
{
    let s = resp::int_digits(v);
    let m: nat = if v < 0 {
        (-v) as nat
    } else {
        v as nat
    };
    lemma_nat_digits(m);
    let d = resp::nat_digits(m);
    let n = s.len() as int;
    assert(resp::is_digit(d[0]));
    assert(resp::is_digit(d[d.len() - 1]));
    if v < 0 {
        assert(s[0] == 45);
        assert(s[n - 1] == d[d.len() - 1]);
        assert(s.subrange(1, n) =~= d);
    } else {
        assert(s == d);
    }
    assert(resp::ws_front(s) == 0);
    assert(resp::ws_back(s) == 0);
    assert(resp::trim(s) == s);
}

/// The end of a line that holds digits only.
proof fn lemma_line(buf: Seq<u8>, pos: int, d: Seq<u8>)
    requires
        0 <= pos,
        pos + d.len() + 2 <= buf.len(),
        forall|i: int| 0 <= i < d.len() ==> buf[pos + i] == #[trigger] d[i] && d[i] != resp::CR,
        buf[pos + d.len()] == resp::CR,
        buf[pos + d.len() + 1] == resp::LF,
    ensures
        resp::crlf_at(buf, pos) == Some(pos + d.len()),
    decreases d.len(),
{
    if d.len() > 0 {
        let e = d.subrange(1, d.len() as int);
        assert(buf[pos + 0] == d[0]);
        assert forall|i: int| 0 <= i < e.len() implies buf[(pos + 1) + i] == #[trigger] e[i] && e[i]
            != resp::CR by {
            assert(e[i] == d[i + 1]);
        }
        lemma_line(buf, pos + 1, e);
    }
}

/// A number on a line of its own.
proof fn lemma_number(buf: Seq<u8>, pos: int, n: int)
    requires
        0 <= pos,
        0 <= n <= i64::MAX,
        pos + resp::int_digits(n).len() + 2 <= buf.len(),
        buf.subrange(pos, pos + resp::int_digits(n).len() + 2) == resp::int_digits(n) + resp::crlf(),
    ensures
        resp::crlf_at(buf, pos) == Some(pos + resp::int_digits(n).len()),
        resp::framing_int(buf.subrange(pos, pos + resp::int_digits(n).len())) == Ok::<
            int,
            Seq<char>,
        >(n),
{
    let d = resp::int_digits(n);
    lemma_nat_digits(n as nat);
    let line = buf.subrange(pos, pos + d.len() + 2);
    assert forall|i: int| 0 <= i < d.len() implies buf[pos + i] == #[trigger] d[i] && d[i]
        != resp::CR by {
        assert(line[i] == buf[pos + i]);
        assert(resp::is_digit(d[i]));
    }
    assert(line[d.len() as int] == buf[pos + d.len()]);
    assert(line[d.len() as int + 1] == buf[pos + d.len() + 1]);
    lemma_line(buf, pos, d);
    assert(buf.subrange(pos, pos + d.len()) =~= d);
    assert(resp::is_digit(d[0]));
}

/// Where the data of a bulk string starts.
spec fn data_at(p: Seq<u8>) -> int {
    resp::bulk_header(p.len() as int).len() as int
}

proof fn lemma_bulk(buf: Seq<u8>, cur: int, p: Seq<u8>)
    requires
        0 <= cur,
        p.len() <= i64::MAX,
        cur + resp::bulk_reply(p).len() <= buf.len(),
        buf.subrange(cur, cur + resp::bulk_reply(p).len()) == resp::bulk_reply(p),
    ensures
        resp::bulk_at(buf, cur) == Ok::<(int, int), Outcome>(
            (cur + data_at(p), cur + data_at(p) + p.len()),
        ),
        buf.subrange(cur + data_at(p), cur + data_at(p) + p.len()) == p,
        resp::bulk_reply(p).len() == data_at(p) + p.len() + 2,
{
    let b = resp::bulk_reply(p);
    let d = resp::int_digits(p.len() as int);
    let s = buf.subrange(cur, cur + b.len());
    let h = data_at(p);
    assert(h == d.len() + 3);
    assert(s[0] == buf[cur]);
    assert(b[0] == 36);
    assert(buf.subrange(cur + 1, cur + 1 + d.len() + 2) =~= d + resp::crlf()) by {
        assert forall|i: int| 0 <= i < d.len() + 2 implies buf[cur + 1 + i] == (d + resp::crlf())[i] by {
            assert(s[i + 1] == buf[cur + 1 + i]);
            assert(b[i + 1] == (d + resp::crlf())[i]);
        }
    }
    lemma_number(buf, cur + 1, p.len() as int);
    assert(buf.subrange(cur + h, cur + h + p.len()) =~= p) by {
        assert forall|i: int| 0 <= i < p.len() implies buf[cur + h + i] == p[i] by {
            assert(s[h + i] == buf[cur + h + i]);
        }
    }
    assert(s[h + p.len()] == buf[cur + h + p.len()]);
    assert(s[h + p.len() + 1] == buf[cur + h + p.len() + 1]);
}

/// Where bulk string `k` of a command starts.
spec fn bulk_start(parts: Seq<Seq<u8>>, k: int) -> int {
    (resp::array_header(parts.len() as int).len() + bulks(parts.subrange(0, k)).len()) as int
}

/// The ranges of the first `k` arguments of an encoded command.
spec fn ranges_upto(parts: Seq<Seq<u8>>, k: int) -> Seq<(int, int)> {
    Seq::new(
        k as nat,
        |i: int|
            (
                bulk_start(parts, i) + data_at(parts[i]),
                bulk_start(parts, i) + data_at(parts[i]) + parts[i].len(),
            ),
    )
}

/// The bulk strings of the first `k` parts stand at the front.
proof fn lemma_prefix(parts: Seq<Seq<u8>>, k: int)
    requires
        0 <= k <= parts.len(),
    ensures
        bulks(parts.subrange(0, k)).len() <= bulks(parts).len(),
        bulks(parts).subrange(0, bulks(parts.subrange(0, k)).len() as int) == bulks(
            parts.subrange(0, k),
        ),
    decreases parts.len() - k,
{
    if k == parts.len() {
        assert(parts.subrange(0, k) =~= parts);
        assert(bulks(parts).subrange(0, bulks(parts).len() as int) =~= bulks(parts));
    } else {
        let less = parts.drop_last();
        assert(less.subrange(0, k) =~= parts.subrange(0, k));
        lemma_prefix(less, k);
        let m = bulks(parts.subrange(0, k)).len() as int;
        assert(bulks(parts).subrange(0, m) =~= bulks(less).subrange(0, m));
    }
}

proof fn lemma_bulks_from(buf: Seq<u8>, parts: Seq<Seq<u8>>, tail: Seq<u8>, k: int)
    requires
        0 <= k <= parts.len(),
        forall|i: int| 0 <= i < parts.len() ==> (#[trigger] parts[i]).len() <= i64::MAX,
        buf == array_of(parts) + tail,
    ensures
        resp::bulks_from(buf, bulk_start(parts, k), parts.len() - k, ranges_upto(parts, k)) == (Parsed {
            args: ranges_upto(parts, parts.len() as int),
            outcome: Outcome::Done(array_of(parts).len() as int),
        }),
    decreases parts.len() - k,
{
    let n = parts.len() as int;
    if k == n {
        assert(parts.subrange(0, n) =~= parts);
    } else {
        let cur = bulk_start(parts, k);
        let p = parts[k];
        let next = parts.subrange(0, k + 1);
        assert(next.drop_last() =~= parts.subrange(0, k));
        assert(next.last() == p);
        lemma_prefix(parts, k + 1);
        let h = resp::array_header(n).len() as int;
        let m = bulks(parts.subrange(0, k)).len() as int;
        let b = resp::bulk_reply(p);
        assert(bulks(next).len() == m + b.len());
        let front = bulks(parts).subrange(0, m + b.len());
        assert(front == bulks(next));
        assert(buf.subrange(cur, cur + b.len()) =~= b) by {
            assert forall|i: int| 0 <= i < b.len() implies buf[cur + i] == b[i] by {
                assert(buf[h + (m + i)] == bulks(parts)[m + i]);
                assert(front[m + i] == bulks(parts)[m + i]);
                assert(bulks(next)[m + i] == b[i]);
            }
        }
        lemma_bulk(buf, cur, p);
        assert(bulk_start(parts, k + 1) == cur + b.len());
        assert(ranges_upto(parts, k + 1) =~= ranges_upto(parts, k).push(
            (cur + data_at(p), cur + data_at(p) + p.len()),
        ));
        lemma_bulks_from(buf, parts, tail, k + 1);
    }
}

/// Each part is shorter than the command.
pub proof fn lemma_part_lengths(parts: Seq<Seq<u8>>)
    ensures
        forall|i: int|
            0 <= i < parts.len() ==> (#[trigger] parts[i]).len() <= array_of(parts).len(),
{
    lemma_bulk_lengths(parts);
}

proof fn lemma_bulk_lengths(parts: Seq<Seq<u8>>)
    ensures
        forall|i: int| 0 <= i < parts.len() ==> (#[trigger] parts[i]).len() <= bulks(parts).len(),
    decreases parts.len(),
{
    if parts.len() > 0 {
        let less = parts.drop_last();
        lemma_bulk_lengths(less);
        assert forall|i: int| 0 <= i < parts.len() implies (#[trigger] parts[i]).len() <= bulks(
            parts,
        ).len() by {
            if i < less.len() {
                assert(less[i] == parts[i]);
            }
        }
    }
}

/// An encoded command is read back as the same arguments, and what follows it
/// in the buffer is left for the next one.
pub proof fn encoded_commands_are_read_back(parts: Seq<Seq<u8>>, tail: Seq<u8>)
    requires
        parts.len() <= resp::MAX_ARRAY_LEN,
        forall|i: int| 0 <= i < parts.len() ==> (#[trigger] parts[i]).len() <= i64::MAX,
    ensures
        ({
            let buf = array_of(parts) + tail;
            let p = resp::command_at(buf, 0);
            &&& p.outcome == Outcome::Done(array_of(parts).len() as int)
            &&& p.args.map_values(|r: (int, int)| buf.subrange(r.0, r.1)) == parts
        }),
{
    let buf = array_of(parts) + tail;
    let n = parts.len() as int;
    let d = resp::int_digits(n);
    let head = resp::array_header(n);
    assert(buf[0] == head[0] == 42);
    assert(buf.subrange(1, 1 + d.len() as int + 2) =~= d + resp::crlf()) by {
        assert forall|i: int| 0 <= i < d.len() + 2 implies buf[1 + i] == (d + resp::crlf())[i] by {
            assert(buf[1 + i] == head[1 + i]);
        }
    }
    lemma_number(buf, 1, n);
    assert(parts.subrange(0, 0) =~= Seq::empty());
    assert(head.len() == d.len() + 3);
    assert(ranges_upto(parts, 0) =~= Seq::empty());
    lemma_bulks_from(buf, parts, tail, 0);
    let got = ranges_upto(parts, n).map_values(|r: (int, int)| buf.subrange(r.0, r.1));
    assert forall|k: int| 0 <= k < n implies got[k] == parts[k] by {
        lemma_data(buf, parts, tail, k);
    }
    assert(got =~= parts);
}

proof fn lemma_data(buf: Seq<u8>, parts: Seq<Seq<u8>>, tail: Seq<u8>, k: int)
    requires
        0 <= k < parts.len(),
        parts[k].len() <= i64::MAX,
        buf == array_of(parts) + tail,
    ensures
        buf.subrange(
            bulk_start(parts, k) + data_at(parts[k]),
            bulk_start(parts, k) + data_at(parts[k]) + parts[k].len(),
        ) == parts[k],
{
    let n = parts.len() as int;
    let cur = bulk_start(parts, k);
    let p = parts[k];
    let next = parts.subrange(0, k + 1);
    assert(next.drop_last() =~= parts.subrange(0, k));
    assert(next.last() == p);
    lemma_prefix(parts, k + 1);
    let h = resp::array_header(n).len() as int;
    let m = bulks(parts.subrange(0, k)).len() as int;
    let b = resp::bulk_reply(p);
    let front = bulks(parts).subrange(0, m + b.len());
    assert(buf.subrange(cur, cur + b.len()) =~= b) by {
        assert forall|i: int| 0 <= i < b.len() implies buf[cur + i] == b[i] by {
            assert(buf[h + (m + i)] == bulks(parts)[m + i]);
            assert(front[m + i] == bulks(parts)[m + i]);
            assert(bulks(next)[m + i] == b[i]);
        }
    }
    lemma_bulk(buf, cur, p);
}

// ---------------------------------------------------------------------------
// Bytes that arrive later
// ---------------------------------------------------------------------------

proof fn lemma_crlf_more(buf: Seq<u8>, more: Seq<u8>, pos: int)
    requires
        0 <= pos,
        resp::crlf_at(buf, pos) is Some,
    ensures
        resp::crlf_at(buf + more, pos) == resp::crlf_at(buf, pos),
    decreases buf.len() - pos,
{
    let all = buf + more;
    assert(all[pos] == buf[pos] && all[pos + 1] == buf[pos + 1]);
    if !(buf[pos] == resp::CR && buf[pos + 1] == resp::LF) {
        lemma_crlf_more(buf, more, pos + 1);
    }
}

proof fn lemma_bulk_more(buf: Seq<u8>, more: Seq<u8>, cur: int)
    requires
        0 <= cur,
        !(resp::bulk_at(buf, cur) matches Err(o) && o is Incomplete),
    ensures
        resp::bulk_at(buf + more, cur) == resp::bulk_at(buf, cur),
        resp::bulk_at(buf, cur) matches Ok((s, e)) ==> e >= cur,
{
    let all = buf + more;
    assert(all[cur] == buf[cur]);
    if buf[cur] == 36 {
        lemma_crlf_more(buf, more, cur + 1);
        resp::lemma_crlf_bounds(buf, cur + 1);
        let cr = resp::crlf_at(buf, cur + 1).unwrap();
        assert(all.subrange(cur + 1, cr) =~= buf.subrange(cur + 1, cr));
    }
}

proof fn lemma_bulks_more(buf: Seq<u8>, more: Seq<u8>, cur: int, n: int, acc: Seq<(int, int)>)
    requires
        0 <= cur,
        !(resp::bulks_from(buf, cur, n, acc).outcome is Incomplete),
    ensures
        resp::bulks_from(buf + more, cur, n, acc) == resp::bulks_from(buf, cur, n, acc),
    decreases n,
{
    if n > 0 {
        lemma_bulk_more(buf, more, cur);
        if let Ok((s, e)) = resp::bulk_at(buf, cur) {
            lemma_bulks_more(buf, more, e + 2, n - 1, acc.push((s, e)));
        }
    }
}

proof fn lemma_word_more(buf: Seq<u8>, more: Seq<u8>, i: int, cr: int)
    requires
        0 <= i,
        cr <= buf.len(),
    ensures
        resp::word_end(buf + more, i, cr) == resp::word_end(buf, i, cr),
    decreases cr - i,
{
    if i < cr {
        assert((buf + more)[i] == buf[i]);
        if buf[i] != 32 {
            lemma_word_more(buf, more, i + 1, cr);
        }
    }
}

proof fn lemma_words_more(buf: Seq<u8>, more: Seq<u8>, i: int, cr: int, acc: Seq<(int, int)>)
    requires
        0 <= i,
        cr <= buf.len(),
    ensures
        resp::words_from(buf + more, i, cr, acc) == resp::words_from(buf, i, cr, acc),
    decreases cr - i,
{
    if i < cr {
        assert((buf + more)[i] == buf[i]);
        if buf[i] == 32 {
            lemma_words_more(buf, more, i + 1, cr, acc);
        } else {
            lemma_word_more(buf, more, i, cr);
            let e = resp::word_end(buf, i, cr);
            if i < e <= cr {
                lemma_words_more(buf, more, e, cr, acc.push((i, e)));
            }
        }
    }
}

/// A command that is complete, or known not to be one, is read the same
/// whatever arrives after it: how the bytes of a connection are cut into
/// packets makes no difference.
pub proof fn later_bytes_do_not_change_a_command(buf: Seq<u8>, more: Seq<u8>, pos: int)
    requires
        0 <= pos,
        !(resp::command_at(buf, pos).outcome is Incomplete),
    ensures
        resp::command_at(buf + more, pos) == resp::command_at(buf, pos),
{
    let all = buf + more;
    assert(all[pos] == buf[pos]);
    if buf[pos] == 42 {
        lemma_crlf_more(buf, more, pos + 1);
        resp::lemma_crlf_bounds(buf, pos + 1);
        let cr = resp::crlf_at(buf, pos + 1).unwrap();
        assert(all.subrange(pos + 1, cr) =~= buf.subrange(pos + 1, cr));
        match resp::framing_int(buf.subrange(pos + 1, cr)) {
            Ok(count) => {
                if 0 <= count <= resp::MAX_ARRAY_LEN {
                    lemma_bulks_more(buf, more, cr + 2, count, Seq::empty());
                }
            },
            Err(_) => {},
        }
    } else {
        lemma_crlf_more(buf, more, pos);
        resp::lemma_crlf_bounds(buf, pos);
        let cr = resp::crlf_at(buf, pos).unwrap();
        lemma_words_more(buf, more, pos, cr, Seq::empty());
    }
}

/// A command that has not arrived as a whole is not taken for another one, nor
/// for a mistake: more bytes are waited for.
pub proof fn a_command_cut_short_is_incomplete(parts: Seq<Seq<u8>>, n: int)
    requires
        parts.len() <= resp::MAX_ARRAY_LEN,
        forall|i: int| 0 <= i < parts.len() ==> (#[trigger] parts[i]).len() <= i64::MAX,
        0 <= n < array_of(parts).len(),
    ensures
        resp::command_at(array_of(parts).subrange(0, n), 0).outcome is Incomplete,
{
    let whole = array_of(parts);
    let buf = whole.subrange(0, n);
    let more = whole.subrange(n, whole.len() as int);
    if !(resp::command_at(buf, 0).outcome is Incomplete) {
        later_bytes_do_not_change_a_command(buf, more, 0);
        assert(buf + more =~= whole);
        encoded_commands_are_read_back(parts, Seq::empty());
        assert(whole + Seq::<u8>::empty() =~= whole);
        resp::lemma_command_bounds(buf, 0);
        assert(false);
    }
}

/// Numbers are written in one way only: a minus sign if they are negative, and
/// digits, of which the first is 0 only if it is the only one.
pub proof fn integers_are_written_without_ornament(v: int)
    ensures
        ({
            let s = resp::int_digits(v);
            let d = if v < 0 {
                s.subrange(1, s.len() as int)
            } else {
                s
            };
            &&& v < 0 ==> s.len() > 0 && s[0] == 45
            &&& d.len() > 0
            &&& forall|i: int| 0 <= i < d.len() ==> 48 <= #[trigger] d[i] <= 57
            &&& d[0] == 48 ==> v == 0 && d.len() == 1
        }),
{
    let m: nat = if v < 0 {
        (-v) as nat
    } else {
        v as nat
    };
    lemma_nat_digits(m);
    lemma_first_digit(m);
    let d = resp::nat_digits(m);
    assert forall|i: int| 0 <= i < d.len() implies 48 <= #[trigger] d[i] <= 57 by {
        assert(resp::is_digit(d[i]));
    }
    if v < 0 {
        let s = resp::int_digits(v);
        assert(s.subrange(1, s.len() as int) =~= d);
    }
}

proof fn lemma_first_digit(n: nat)
    ensures
        resp::nat_digits(n).len() > 0,
        resp::nat_digits(n)[0] == 48 ==> n == 0,
        n == 0 ==> resp::nat_digits(n).len() == 1,
    decreases n,
{
    if n >= 10 {
        lemma_first_digit(n / 10);
    }
}

/// The five forms of a reply.
pub proof fn replies_have_their_form(s: Seq<u8>, v: int, data: Seq<u8>)
    ensures
        resp::simple_reply(s) == seq![43u8] + s + seq![13u8, 10u8],
        resp::error_reply(s) == seq![45u8] + s + seq![13u8, 10u8],
        resp::integer_reply(v) == seq![58u8] + resp::int_digits(v) + seq![13u8, 10u8],
        resp::array_header(v) == seq![42u8] + resp::int_digits(v) + seq![13u8, 10u8],
        resp::bulk_reply(data) == seq![36u8] + resp::int_digits(data.len() as int) + seq![13u8, 10u8]
            + data + seq![13u8, 10u8],
{
}

/// A number may be given with a plus sign, with zeros in front and with spaces
/// around it.
pub proof fn numbers_may_be_ornamented(v: int, front: Seq<u8>, back: Seq<u8>)
    requires
        i64::MIN <= v <= i64::MAX,
        forall|i: int| 0 <= i < front.len() ==> #[trigger] front[i] == 32,
        forall|i: int| 0 <= i < back.len() ==> #[trigger] back[i] == 32,
    ensures
        resp::argument_int(front + resp::int_digits(v) + back) == Some(v),
        v >= 0 ==> resp::argument_int(front + seq![43u8] + resp::int_digits(v) + back) == Some(v),
{
    let m: nat = if v < 0 {
        (-v) as nat
    } else {
        v as nat
    };
    lemma_nat_digits(m);
    let d = resp::nat_digits(m);
    assert(resp::is_digit(d[0]));
    assert(resp::is_digit(d[d.len() - 1]));
    let s = resp::int_digits(v);
    if v < 0 {
        assert(s.subrange(1, s.len() as int) =~= d);
        assert(s[s.len() - 1] == d[d.len() - 1]);
    }
    lemma_spaces(front, s, back);
    if v >= 0 {
        let p = seq![43u8] + s;
        assert(p.subrange(1, p.len() as int) =~= d);
        assert(p[p.len() - 1] == d[d.len() - 1]);
        lemma_spaces(front, p, back);
        assert(front + p + back =~= front + seq![43u8] + s + back);
    }
}

proof fn lemma_spaces(front: Seq<u8>, s: Seq<u8>, back: Seq<u8>)
    requires
        s.len() > 0,
        33 <= s[0] < 127,
        33 <= s[s.len() - 1] < 127,
        s[s.len() - 1] < 0x80,
        forall|i: int| 0 <= i < front.len() ==> #[trigger] front[i] == 32,
        forall|i: int| 0 <= i < back.len() ==> #[trigger] back[i] == 32,
    ensures
        resp::trim(front + s + back) == s,
    decreases front.len() + back.len(),
{
    let t = front + s + back;
    if front.len() > 0 {
        let less = front.subrange(1, front.len() as int);
        assert(t[0] == 32);
        assert(t.subrange(1, t.len() as int) =~= less + s + back);
        lemma_spaces(less, s, back);
    } else {
        assert(t =~= s + back);
        assert(t[0] == s[0]);
        assert(resp::ws_front(t) == 0);
        if back.len() > 0 {
            let less = back.subrange(0, back.len() - 1);
            assert(t[t.len() - 1] == 32);
            assert(t.subrange(0, t.len() - 1) =~= front + s + less);
            lemma_spaces(front, s, less);
            let u = front + s + less;
            assert(u[0] == s[0]);
            assert(resp::ws_front(u) == 0);
        } else {
            assert(t =~= s);
            assert(resp::ws_back(s) == 0);
        }
    }
}

// ---------------------------------------------------------------------------
// Inline commands
// ---------------------------------------------------------------------------

/// The words of a line: runs of bytes without a space, as long as can be, in
/// order; and every byte that is no space is in one of them.
pub open spec fn splits(buf: Seq<u8>, from: int, to: int, words: Seq<(int, int)>) -> bool {
    &&& forall|w: int|
        0 <= w < words.len() ==> from <= (#[trigger] words[w]).0 < words[w].1 <= to
    &&& forall|w: int, i: int|
        0 <= w < words.len() && (#[trigger] words[w]).0 <= i < words[w].1 ==> #[trigger] buf[i] != 32
    &&& forall|w: int|
        0 <= w < words.len() && (#[trigger] words[w]).1 < to ==> buf[words[w].1] == 32
    &&& forall|v: int, w: int|
        0 <= v < w < words.len() ==> (#[trigger] words[v]).1 < (#[trigger] words[w]).0
    &&& forall|i: int|
        from <= i < to && #[trigger] buf[i] != 32 ==> exists|w: int|
            0 <= w < words.len() && (#[trigger] words[w]).0 <= i < words[w].1
}

proof fn lemma_word_is_maximal(buf: Seq<u8>, i: int, cr: int)
    requires
        i <= cr,
    ensures
        ({
            let e = resp::word_end(buf, i, cr);
            &&& i <= e <= cr
            &&& e < cr ==> buf[e] == 32
            &&& forall|k: int| i <= k < e ==> #[trigger] buf[k] != 32
        }),
    decreases cr - i,
{
    if i < cr && buf[i] != 32 {
        lemma_word_is_maximal(buf, i + 1, cr);
    }
}

proof fn lemma_splits(buf: Seq<u8>, pos: int, i: int, cr: int, acc: Seq<(int, int)>)
    requires
        pos <= i <= cr,
        splits(buf, pos, i, acc),
        i < cr && buf[i] != 32 ==> forall|w: int|
            0 <= w < acc.len() ==> (#[trigger] acc[w]).1 < i,
        forall|w: int| 0 <= w < acc.len() && (#[trigger] acc[w]).1 < cr ==> buf[acc[w].1] == 32,
    ensures
        splits(buf, pos, cr, resp::words_from(buf, i, cr, acc)),
    decreases cr - i,
{
    if i < cr {
        if buf[i] == 32 {
            assert(splits(buf, pos, i + 1, acc));
            lemma_splits(buf, pos, i + 1, cr, acc);
        } else {
            lemma_word_is_maximal(buf, i, cr);
            resp::lemma_word_end(buf, i, cr);
            let e = resp::word_end(buf, i, cr);
            let next = acc.push((i, e));
            assert(splits(buf, pos, e, next)) by {
                assert forall|k: int| pos <= k < e && #[trigger] buf[k] != 32 implies exists|w: int|
                    0 <= w < next.len() && (#[trigger] next[w]).0 <= k < next[w].1 by {
                    if k < i {
                        let w = choose|w: int|
                            0 <= w < acc.len() && (#[trigger] acc[w]).0 <= k < acc[w].1;
                        assert(next[w].0 <= k < next[w].1);
                    } else {
                        assert(next[acc.len() as int].0 <= k < next[acc.len() as int].1);
                    }
                }
            }
            lemma_splits(buf, pos, e, cr, next);
        }
    }
}

/// A line that does not start with a star is a command by itself: its words,
/// which spaces keep apart, are the arguments, and it ends with the line.
pub proof fn a_line_is_split_into_words(buf: Seq<u8>, pos: int, cr: int)
    requires
        0 <= pos < buf.len(),
        buf[pos] != 42,
        resp::crlf_at(buf, pos) == Some(cr),
    ensures
        ({
            let p = resp::command_at(buf, pos);
            p.outcome == Outcome::Done(cr + 2) && splits(buf, pos, cr, p.args)
        }),
{
    resp::lemma_crlf_bounds(buf, pos);
    lemma_splits(buf, pos, pos, cr, Seq::empty());
}

/// The end of a line is the first place where a CR and an LF meet.
pub proof fn a_line_ends_at_the_first_crlf(buf: Seq<u8>, pos: int)
    requires
        0 <= pos,
    ensures
        resp::crlf_at(buf, pos) matches Some(i) ==> pos <= i && i + 1 < buf.len() && buf[i] == 13
            && buf[i + 1] == 10 && forall|k: int|
            pos <= k < i ==> !(#[trigger] buf[k] == 13 && buf[k + 1] == 10),
        resp::crlf_at(buf, pos) is None ==> forall|k: int|
            pos <= k && k + 1 < buf.len() ==> !(#[trigger] buf[k] == 13 && buf[k + 1] == 10),
    decreases buf.len() - pos,
{
    if pos + 1 < buf.len() && !(buf[pos] == 13 && buf[pos + 1] == 10) {
        a_line_ends_at_the_first_crlf(buf, pos + 1);
    }
}

proof fn lemma_digits_value(d: Seq<u8>)
    ensures
        resp::digits_value(d) matches IntParse::Value(v) ==> resp::all_digits(d) && v == resp::decimal(
            d,
        ) && 0 <= v <= i64::MAX,
        resp::all_digits(d) && resp::decimal(d) <= i64::MAX ==> resp::digits_value(d)
            == IntParse::Value(resp::decimal(d)),
        resp::all_digits(d) ==> resp::decimal(d) >= 0,
    decreases d.len(),
{
    if d.len() > 0 {
        let less = d.drop_last();
        lemma_digits_value(less);
        if resp::all_digits(d) {
            assert(resp::is_digit(d[d.len() - 1]));
            assert forall|i: int| 0 <= i < less.len() implies resp::is_digit(#[trigger] less[i]) by {
                assert(less[i] == d[i]);
            }
        }
        if resp::digits_value(d) is Value {
            assert forall|i: int| 0 <= i < d.len() implies resp::is_digit(#[trigger] d[i]) by {
                if i < less.len() {
                    assert(less[i] == d[i]);
                }
            }
        }
    }
}

/// The length in a header is a number of digits, with a minus sign or without,
/// and nothing else.
pub proof fn lengths_are_plain_numbers(s: Seq<u8>)
    ensures
        ({
            let d = if s.len() > 0 && s[0] == 45 {
                s.subrange(1, s.len() as int)
            } else {
                s
            };
            &&& resp::framing_int(s) is Ok <==> d.len() > 0 && resp::all_digits(d) && resp::decimal(d)
                <= i64::MAX
            &&& resp::framing_int(s) matches Ok(v) ==> v == (if s[0] == 45 {
                -resp::decimal(d)
            } else {
                resp::decimal(d)
            })
        }),
{
    let d = if s.len() > 0 && s[0] == 45 {
        s.subrange(1, s.len() as int)
    } else {
        s
    };
    lemma_digits_value(d);
}

/// What cannot be a command is not waited for: an array of a length that is no
/// number, negative, or more than a million or so, and an element that does not
/// start with a dollar sign.
pub proof fn what_is_no_command_is_refused(buf: Seq<u8>, pos: int, cr: int)
    requires
        0 <= pos < buf.len(),
        buf[pos] == 42,
        resp::crlf_at(buf, pos + 1) == Some(cr),
    ensures
        ({
            let n = resp::framing_int(buf.subrange(pos + 1, cr));
            let p = resp::command_at(buf, pos);
            &&& n is Err ==> p.outcome is Bad
            &&& n matches Ok(v) ==> {
                &&& v < 0 || v > 1048576 ==> p.outcome is Bad
                &&& v == 0 ==> p.outcome == Outcome::Done(cr + 2) && p.args.len() == 0
                &&& 0 < v <= 1048576 && cr + 2 < buf.len() && buf[cr + 2] != 36 ==> p.outcome is Bad
            }
        }),
{
}

proof fn lemma_front_cut(s: Seq<u8>) -> (k: int)
    ensures
        0 <= k <= s.len(),
        resp::trim_front(s) == s.subrange(k, s.len() as int),
    decreases s.len(),
{
    let w = resp::ws_front(s);
    if w <= 0 || w > s.len() {
        assert(s =~= s.subrange(0, s.len() as int));
        0
    } else {
        let t = s.subrange(w, s.len() as int);
        let k = lemma_front_cut(t);
        assert(t.subrange(k, t.len() as int) =~= s.subrange(w + k, s.len() as int));
        w + k
    }
}

proof fn lemma_back_cut(s: Seq<u8>) -> (k: int)
    ensures
        0 <= k <= s.len(),
        resp::trim_back(s) == s.subrange(0, k),
    decreases s.len(),
{
    let w = resp::ws_back(s);
    if w <= 0 || w > s.len() {
        assert(s =~= s.subrange(0, s.len() as int));
        s.len() as int
    } else {
        let t = s.subrange(0, s.len() - w);
        let k = lemma_back_cut(t);
        assert(t.subrange(0, k) =~= s.subrange(0, k));
        k
    }
}

/// A stretch of bytes is a number: a sign or none, and digits.
pub open spec fn is_number(t: Seq<u8>, v: int) -> bool {
    let signed = t.len() > 0 && (t[0] == 45 || t[0] == 43);
    let d = if signed {
        t.subrange(1, t.len() as int)
    } else {
        t
    };
    &&& d.len() > 0
    &&& forall|i: int| 0 <= i < d.len() ==> 48 <= #[trigger] d[i] <= 57
    &&& v == (if t[0] == 45 {
        -resp::decimal(d)
    } else {
        resp::decimal(d)
    })
}

/// Nothing is read as a number but a sign and digits, with what was cut off at
/// the ends; and only if it can be held.
pub proof fn only_numbers_are_numbers(s: Seq<u8>, v: int)
    requires
        resp::argument_int(s) == Some(v),
    ensures
        i64::MIN <= v <= i64::MAX,
        exists|a: int, b: int|
            0 <= a < b <= s.len() && is_number(#[trigger] s.subrange(a, b), v) && s.subrange(a, b)
                == resp::trim(s),
{
    let a = lemma_front_cut(s);
    let f = resp::trim_front(s);
    let k = lemma_back_cut(f);
    let t = resp::trim(s);
    assert(t =~= s.subrange(a, a + k));
    let signed = t.len() > 0 && (t[0] == 45 || t[0] == 43);
    let d = if signed {
        t.subrange(1, t.len() as int)
    } else {
        t
    };
    assert forall|i: int| 0 <= i < d.len() implies 48 <= #[trigger] d[i] <= 57 by {
        assert(resp::is_digit(d[i]));
    }
    assert(is_number(s.subrange(a, a + k), v));
}

/// Only white space is cut off at the ends: a text of visible ASCII is taken as
/// it is.
pub proof fn visible_text_is_not_cut(s: Seq<u8>)
    requires
        s.len() > 0,
        33 <= s[0] < 127,
        33 <= s[s.len() - 1] < 127,
    ensures
        resp::trim(s) == s,
{
    assert(resp::ws_front(s) == 0);
    assert(resp::ws_back(s) == 0);
}

/// Zeros in front of a number do not count.
pub proof fn leading_zeros_do_not_count(d: Seq<u8>)
    ensures
        resp::decimal(seq![48u8] + d) == resp::decimal(d),
    decreases d.len(),
{
    let z = seq![48u8] + d;
    if d.len() == 0 {
        assert(z.drop_last() =~= Seq::empty());
        assert(resp::decimal(z.drop_last()) == 0);
    } else {
        leading_zeros_do_not_count(d.drop_last());
        assert(z.drop_last() =~= seq![48u8] + d.drop_last());
        assert(z.last() == d.last());
    }
}

/// A number that cannot be held is refused.
pub proof fn a_number_too_large_is_refused(v: int)
    requires
        v < i64::MIN || v > i64::MAX,
    ensures
        resp::argument_int(resp::int_digits(v)) is None,
{
    let s = resp::int_digits(v);
    let m: nat = if v < 0 {
        (-v) as nat
    } else {
        v as nat
    };
    lemma_nat_digits(m);
    let d = resp::nat_digits(m);
    let n = s.len() as int;
    assert(resp::is_digit(d[0]));
    assert(resp::is_digit(d[d.len() - 1]));
    if v < 0 {
        assert(s[0] == 45);
        assert(s[n - 1] == d[d.len() - 1]);
        assert(s.subrange(1, n) =~= d);
    } else {
        assert(s == d);
    }
    assert(resp::ws_front(s) == 0);
    assert(resp::ws_back(s) == 0);
}

} // verus!
