//! RESP (REdis Serialization Protocol) parsing and reply writing.
//!
//! Parsing is incremental and zero-copy: a receive buffer may hold many
//! pipelined commands and may end in the middle of one. `parse_command`
//! answers `Ok(None)` for an incomplete command, and arguments are byte ranges
//! into the buffer. Replies are appended to a send buffer.
use vstd::prelude::*;
use vstd::slice::slice_subrange;
use crate::bytes;
use crate::bytes::push_all;

verus! {

/// A byte range of the receive buffer: one argument of a command.
#[derive(Debug, Clone, Copy, PartialEq, Eq, Structural)]
pub struct ArgSlice {
    pub start: usize,
    pub end: usize,
}

impl ArgSlice {
    /// The argument's bytes.
    pub fn bytes<'a>(&self, buf: &'a [u8]) -> (r: &'a [u8])
        requires
            self.start <= self.end <= buf@.len(),
        ensures
            r@ == buf@.subrange(self.start as int, self.end as int),
    {
        slice_subrange(buf, self.start, self.end)
    }
}

/// Why a buffer cannot be parsed; the connection should be closed.
#[derive(Debug, Clone, PartialEq, Eq)]
pub enum ProtocolError {
    Malformed(&'static str),
}

impl ProtocolError {
    /// The error in words.
    pub fn message(&self) -> (r: Vec<u8>)
        ensures
            r@ == bytes::text("protocol error: ") + bytes::text(self->Malformed_0),
    {
        let mut out: Vec<u8> = Vec::new();
        push_all(&mut out, bytes::raw("protocol error: "));
        match self {
            ProtocolError::Malformed(m) => push_all(&mut out, bytes::raw(m)),
        }
        out
    }
}

/// Absolute offset in the receive buffer just past a command's final CRLF.
pub type Next = usize;

// ---------------------------------------------------------------------------
// The grammar
// ---------------------------------------------------------------------------

pub const CR: u8 = 13;

pub const LF: u8 = 10;

/// Largest number of arguments an array command may announce.
pub const MAX_ARRAY_LEN: i64 = 1048576;

/// Position of the first CRLF at or after `pos`.
pub open spec fn crlf_at(buf: Seq<u8>, pos: int) -> Option<int>
    decreases buf.len() - pos,
{
    if pos + 1 >= buf.len() {
        None
    } else if buf[pos] == CR && buf[pos + 1] == LF {
        Some(pos)
    } else {
        crlf_at(buf, pos + 1)
    }
}

pub open spec fn is_digit(b: u8) -> bool {
    48 <= b <= 57
}

/// What reading a run of digits as a framing length gives.
pub enum IntParse {
    Value(int),
    NonDigit,
    Overflow,
}

/// Left-to-right reading of decimal digits; the first offending digit decides.
pub open spec fn digits_value(d: Seq<u8>) -> IntParse
    decreases d.len(),
{
    if d.len() == 0 {
        IntParse::Value(0)
    } else {
        match digits_value(d.drop_last()) {
            IntParse::Value(v) => if !is_digit(d.last()) {
                IntParse::NonDigit
            } else if v * 10 + (d.last() - 48) > i64::MAX {
                IntParse::Overflow
            } else {
                IntParse::Value(v * 10 + (d.last() - 48))
            },
            other => other,
        }
    }
}

/// A framing integer: an optional `-` and digits. `Err` holds the reason.
pub open spec fn framing_int(s: Seq<u8>) -> Result<int, Seq<char>> {
    let neg = s.len() > 0 && s[0] == 45;
    let d = if neg {
        s.subrange(1, s.len() as int)
    } else {
        s
    };
    if d.len() == 0 {
        Err("empty integer"@)
    } else {
        match digits_value(d) {
            IntParse::NonDigit => Err("non-digit in integer"@),
            IntParse::Overflow => Err("integer overflow"@),
            IntParse::Value(v) => Ok(if neg {
                -v
            } else {
                v
            }),
        }
    }
}

/// How parsing one command ends.
pub enum Outcome {
    /// Complete; the offset just past it.
    Done(int),
    /// The buffer ends before the command does.
    Incomplete,
    /// Not RESP; the reason.
    Bad(Seq<char>),
}

/// The arguments read so far and how the parse ends.
pub struct Parsed {
    pub args: Seq<(int, int)>,
    pub outcome: Outcome,
}

/// One bulk string starting at `cur`: its data range, or how the parse ends.
pub open spec fn bulk_at(buf: Seq<u8>, cur: int) -> Result<(int, int), Outcome> {
    if cur >= buf.len() {
        Err(Outcome::Incomplete)
    } else if buf[cur] != 36 {
        Err(Outcome::Bad("expected bulk string"@))
    } else {
        match crlf_at(buf, cur + 1) {
            None => Err(Outcome::Incomplete),
            Some(cr) => match framing_int(buf.subrange(cur + 1, cr)) {
                Err(m) => Err(Outcome::Bad(m)),
                Ok(len) => if len < 0 {
                    Err(Outcome::Bad("negative bulk length"@))
                } else if cr + 2 + len + 2 > buf.len() {
                    Err(Outcome::Incomplete)
                } else if buf[cr + 2 + len] != CR || buf[cr + 2 + len + 1] != LF {
                    Err(Outcome::Bad("bulk string not CRLF terminated"@))
                } else {
                    Ok((cr + 2, cr + 2 + len))
                },
            },
        }
    }
}

/// `n` more bulk strings from `cur`, after `acc`.
pub open spec fn bulks_from(buf: Seq<u8>, cur: int, n: int, acc: Seq<(int, int)>) -> Parsed
    decreases n,
{
    if n <= 0 {
        Parsed { args: acc, outcome: Outcome::Done(cur) }
    } else {
        match bulk_at(buf, cur) {
            Err(o) => Parsed { args: acc, outcome: o },
            Ok((s, e)) => bulks_from(buf, e + 2, n - 1, acc.push((s, e))),
        }
    }
}

/// An array command (`*N` and `N` bulk strings) at `pos`.
pub open spec fn array_at(buf: Seq<u8>, pos: int) -> Parsed {
    let none = Seq::<(int, int)>::empty();
    match crlf_at(buf, pos + 1) {
        None => Parsed { args: none, outcome: Outcome::Incomplete },
        Some(cr) => match framing_int(buf.subrange(pos + 1, cr)) {
            Err(m) => Parsed { args: none, outcome: Outcome::Bad(m) },
            Ok(count) => if count < 0 {
                Parsed { args: none, outcome: Outcome::Bad("negative array length"@) }
            } else if count > MAX_ARRAY_LEN {
                Parsed { args: none, outcome: Outcome::Bad("array too large"@) }
            } else {
                bulks_from(buf, cr + 2, count, none)
            },
        },
    }
}

/// End of the run of non-space bytes that starts at `i`, bounded by `cr`.
pub open spec fn word_end(buf: Seq<u8>, i: int, cr: int) -> int
    decreases cr - i,
{
    if i >= cr || buf[i] == 32 {
        i
    } else {
        word_end(buf, i + 1, cr)
    }
}

pub proof fn lemma_word_end(buf: Seq<u8>, i: int, cr: int)
    requires
        i <= cr,
    ensures
        i <= word_end(buf, i, cr) <= cr,
        i < cr && buf[i] != 32 ==> i < word_end(buf, i, cr),
    decreases cr - i,
{
    if i < cr && buf[i] != 32 {
        lemma_word_end(buf, i + 1, cr);
    }
}

/// The space-separated words of `buf[i..cr]`, after `acc`.
pub open spec fn words_from(buf: Seq<u8>, i: int, cr: int, acc: Seq<(int, int)>) -> Seq<(int, int)>
    decreases cr - i,
{
    if i >= cr {
        acc
    } else if buf[i] == 32 {
        words_from(buf, i + 1, cr, acc)
    } else {
        let e = word_end(buf, i, cr);
        if e <= i || e > cr {
            acc
        } else {
            words_from(buf, e, cr, acc.push((i, e)))
        }
    }
}

/// One command starting at `pos`: the array form, or the inline form.
pub open spec fn command_at(buf: Seq<u8>, pos: int) -> Parsed {
    let none = Seq::<(int, int)>::empty();
    if pos >= buf.len() {
        Parsed { args: none, outcome: Outcome::Incomplete }
    } else if buf[pos] == 42 {
        array_at(buf, pos)
    } else {
        match crlf_at(buf, pos) {
            None => Parsed { args: none, outcome: Outcome::Incomplete },
            Some(cr) => Parsed {
                args: words_from(buf, pos, cr, none),
                outcome: Outcome::Done(cr + 2),
            },
        }
    }
}

/// The ranges held by a vector of argument slices.
pub open spec fn ranges(args: Seq<ArgSlice>) -> Seq<(int, int)> {
    args.map_values(|a: ArgSlice| (a.start as int, a.end as int))
}

/// Every range lies inside a buffer of length `n`.
pub open spec fn ranges_within(args: Seq<(int, int)>, n: int) -> bool {
    forall|i: int| 0 <= i < args.len() ==> 0 <= (#[trigger] args[i]).0 <= args[i].1 <= n
}

/// Whether an executable parse result is the outcome `o`.
pub open spec fn is_outcome(r: Result<Option<Next>, ProtocolError>, o: Outcome) -> bool {
    match o {
        Outcome::Done(n) => r is Ok && r->Ok_0 == Some(n as usize) && 0 <= n <= usize::MAX,
        Outcome::Incomplete => r is Ok && r->Ok_0 is None,
        Outcome::Bad(m) => r is Err && r->Err_0->Malformed_0@ == m,
    }
}

// ---------------------------------------------------------------------------
// Parsing
// ---------------------------------------------------------------------------

pub proof fn lemma_crlf_bounds(buf: Seq<u8>, pos: int)
    requires
        0 <= pos,
    ensures
        crlf_at(buf, pos) matches Some(i) ==> pos <= i && i + 1 < buf.len() && buf[i] == CR
            && buf[i + 1] == LF,
    decreases buf.len() - pos,
{
    if pos + 1 < buf.len() && !(buf[pos] == CR && buf[pos + 1] == LF) {
        lemma_crlf_bounds(buf, pos + 1);
    }
}

/// Find CRLF at or after `pos`; the index of the CR.
pub fn find_crlf(buf: &[u8], pos: usize) -> (r: Option<usize>)
    ensures
        r is Some <==> crlf_at(buf@, pos as int) is Some,
        r matches Some(i) ==> crlf_at(buf@, pos as int) == Some(i as int) && pos <= i && i + 1
            < buf@.len(),
{
    let n: usize = buf.len();
    if n < 2 || pos > n - 2 {
        return None;
    }
    let mut i: usize = pos;
    while i < n - 1
        invariant
            n == buf@.len(),
            2 <= n,
            pos <= i <= n - 1,
            crlf_at(buf@, pos as int) == crlf_at(buf@, i as int),
        decreases n - i,
    {
        if buf[i] == CR && buf[i + 1] == LF {
            return Some(i);
        }
        i += 1;
    }
    None
}

pub proof fn lemma_digits_prefix(d: Seq<u8>, n: int)
    requires
        0 <= n <= d.len(),
    ensures
        !(digits_value(d.subrange(0, n)) is Value) ==> digits_value(d) == digits_value(
            d.subrange(0, n),
        ),
    decreases d.len() - n,
{
    if n < d.len() {
        lemma_digits_prefix(d, n + 1);
        assert(d.subrange(0, n + 1).drop_last() =~= d.subrange(0, n));
    } else {
        assert(d.subrange(0, n) =~= d);
    }
}

/// Parse a framing integer.
pub fn parse_int(s: &[u8]) -> (r: Result<i64, ProtocolError>)
    ensures
        match framing_int(s@) {
            Ok(v) => r is Ok && r->Ok_0 == v,
            Err(m) => r is Err && r->Err_0->Malformed_0@ == m,
        },
{
    if s.len() == 0 {
        return Err(ProtocolError::Malformed("empty integer"));
    }
    let neg: bool = s[0] == 45;
    let digits: &[u8] = if neg {
        slice_subrange(s, 1, s.len())
    } else {
        s
    };
    if digits.len() == 0 {
        return Err(ProtocolError::Malformed("empty integer"));
    }
    let mut v: i64 = 0;
    let mut i: usize = 0;
    assert(digits@.subrange(0, 0) =~= Seq::<u8>::empty());
    while i < digits.len()
        invariant
            s@.len() > 0,
            neg == (s@[0] == 45),
            digits@ == (if neg {
                s@.subrange(1, s@.len() as int)
            } else {
                s@
            }),
            digits@.len() > 0,
            0 <= i <= digits@.len(),
            0 <= v,
            digits_value(digits@.subrange(0, i as int)) == IntParse::Value(v as int),
        decreases digits@.len() - i,
    {
        let c: u8 = digits[i];
        proof {
            assert(digits@.subrange(0, i + 1).drop_last() =~= digits@.subrange(0, i as int));
            assert(digits@.subrange(0, i + 1).last() == c);
            lemma_digits_prefix(digits@, i + 1);
        }
        if !(48 <= c && c <= 57) {
            return Err(ProtocolError::Malformed("non-digit in integer"));
        }
        let d: i64 = (c - 48) as i64;
        if v > (i64::MAX - d) / 10 {
            return Err(ProtocolError::Malformed("integer overflow"));
        }
        v = v * 10 + d;
        i += 1;
    }
    assert(digits@.subrange(0, i as int) =~= digits@);
    Ok(if neg {
        -v
    } else {
        v
    })
}

proof fn lemma_digits_bound(d: Seq<u8>)
    ensures
        digits_value(d) matches IntParse::Value(v) ==> 0 <= v <= i64::MAX,
    decreases d.len(),
{
    if d.len() > 0 {
        lemma_digits_bound(d.drop_last());
    }
}

fn parse_array(buf: &[u8], pos: usize, args: &mut Vec<ArgSlice>) -> (r: Result<
    Option<Next>,
    ProtocolError,
>)
    requires
        pos < buf@.len(),
        buf@[pos as int] == 42,
        old(args)@.len() == 0,
    ensures
        is_outcome(r, array_at(buf@, pos as int).outcome),
        ranges(final(args)@) == array_at(buf@, pos as int).args,
        ranges_within(ranges(final(args)@), buf@.len() as int),
{
    let n: usize = buf.len();
    assert(ranges(args@) =~= Seq::<(int, int)>::empty());
    let cr: usize = match find_crlf(buf, pos + 1) {
        None => {
            return Ok(None);
        },
        Some(cr) => cr,
    };
    let count: i64 = match parse_int(slice_subrange(buf, pos + 1, cr)) {
        Err(e) => {
            return Err(e);
        },
        Ok(v) => v,
    };
    if count < 0 {
        return Err(ProtocolError::Malformed("negative array length"));
    }
    if count > MAX_ARRAY_LEN {
        return Err(ProtocolError::Malformed("array too large"));
    }
    let mut cur: usize = cr + 2;
    args.reserve(count as usize);
    let mut left: i64 = count;
    let ghost whole = bulks_from(buf@, cr + 2, count as int, Seq::<(int, int)>::empty());
    while left > 0
        invariant
            whole == array_at(buf@, pos as int),
            0 <= left,
            n == buf@.len(),
            cur <= n,
            whole == bulks_from(buf@, cur as int, left as int, ranges(args@)),
            ranges_within(ranges(args@), buf@.len() as int),
        decreases left,
    {
        if cur >= buf.len() {
            return Ok(None);
        }
        if buf[cur] != 36 {
            return Err(ProtocolError::Malformed("expected bulk string"));
        }
        let cr: usize = match find_crlf(buf, cur + 1) {
            None => {
                return Ok(None);
            },
            Some(cr) => cr,
        };
        let len: i64 = match parse_int(slice_subrange(buf, cur + 1, cr)) {
            Err(e) => {
                return Err(e);
            },
            Ok(v) => v,
        };
        if len < 0 {
            return Err(ProtocolError::Malformed("negative bulk length"));
        }
        let start: usize = cr + 2;
        if len as u64 + 2 > (buf.len() - start) as u64 {
            return Ok(None);
        }
        let end: usize = start + len as usize;
        if buf[end] != CR || buf[end + 1] != LF {
            return Err(ProtocolError::Malformed("bulk string not CRLF terminated"));
        }
        let ghost before = args@;
        args.push(ArgSlice { start, end });
        proof {
            assert(ranges(args@) =~= ranges(before).push((start as int, end as int)));
        }
        cur = end + 2;
        left = left - 1;
    }
    Ok(Some(cur))
}

fn parse_inline(buf: &[u8], pos: usize, args: &mut Vec<ArgSlice>) -> (r: Result<
    Option<Next>,
    ProtocolError,
>)
    requires
        pos < buf@.len(),
        buf@[pos as int] != 42,
        old(args)@.len() == 0,
    ensures
        is_outcome(r, command_at(buf@, pos as int).outcome),
        ranges(final(args)@) == command_at(buf@, pos as int).args,
        ranges_within(ranges(final(args)@), buf@.len() as int),
{
    let n: usize = buf.len();
    assert(ranges(args@) =~= Seq::<(int, int)>::empty());
    let cr: usize = match find_crlf(buf, pos) {
        None => {
            return Ok(None);
        },
        Some(cr) => cr,
    };
    let mut i: usize = pos;
    let ghost whole = words_from(buf@, pos as int, cr as int, Seq::<(int, int)>::empty());
    while i < cr
        invariant
            pos <= i <= cr,
            cr + 1 < buf@.len(),
            n == buf@.len(),
            whole == words_from(buf@, i as int, cr as int, ranges(args@)),
            ranges_within(ranges(args@), buf@.len() as int),
        decreases cr - i,
    {
        if buf[i] == 32 {
            i += 1;
        } else {
            let start: usize = i;
            proof {
                lemma_word_end(buf@, start as int, cr as int);
            }
            i += 1;
            while i < cr && buf[i] != 32
                invariant
                    start < i <= cr,
                    cr < buf@.len(),
                    word_end(buf@, start as int, cr as int) == word_end(buf@, i as int, cr as int),
                decreases cr - i,
            {
                i += 1;
            }
            let ghost before = args@;
            args.push(ArgSlice { start, end: i });
            proof {
                assert(ranges(args@) =~= ranges(before).push((start as int, i as int)));
            }
        }
    }
    Ok(Some(cr + 2))
}

/// Parse one command starting at `pos`, replacing `args` by its argument
/// ranges; answers the offset just past the command.
///
/// Both the array form that clients send and the inline form that a terminal
/// sends are understood. `Ok(None)` means that the buffer ends too early.
pub fn parse_command(buf: &[u8], pos: usize, args: &mut Vec<ArgSlice>) -> (r: Result<
    Option<Next>,
    ProtocolError,
>)
    ensures
        is_outcome(r, command_at(buf@, pos as int).outcome),
        ranges(final(args)@) == command_at(buf@, pos as int).args,
        ranges_within(ranges(final(args)@), buf@.len() as int),
        r matches Ok(Some(n)) ==> pos < n <= buf@.len(),
{
    args.clear();
    proof {
        lemma_command_bounds(buf@, pos as int);
    }
    assert(ranges(args@) =~= Seq::<(int, int)>::empty());
    if pos >= buf.len() {
        return Ok(None);
    }
    if buf[pos] == 42 {
        parse_array(buf, pos, args)
    } else {
        parse_inline(buf, pos, args)
    }
}

proof fn lemma_bulks_bounds(buf: Seq<u8>, cur: int, n: int, acc: Seq<(int, int)>)
    requires
        0 <= cur <= buf.len(),
    ensures
        bulks_from(buf, cur, n, acc).outcome matches Outcome::Done(e) ==> cur <= e <= buf.len(),
    decreases n,
{
    if n > 0 {
        lemma_crlf_bounds(buf, cur + 1);
        match bulk_at(buf, cur) {
            Ok((s, e)) => {
                lemma_bulks_bounds(buf, e + 2, n - 1, acc.push((s, e)));
            },
            Err(_) => {},
        }
    }
}

/// A complete command ends inside the buffer and is not empty.
pub proof fn lemma_command_bounds(buf: Seq<u8>, pos: int)
    requires
        0 <= pos,
    ensures
        command_at(buf, pos).outcome matches Outcome::Done(e) ==> pos < e <= buf.len(),
{
    if pos < buf.len() {
        lemma_crlf_bounds(buf, pos);
        lemma_crlf_bounds(buf, pos + 1);
        if buf[pos] == 42 {
            match crlf_at(buf, pos + 1) {
                Some(cr) => {
                    match framing_int(buf.subrange(pos + 1, cr)) {
                        Ok(count) => {
                            if 0 <= count <= MAX_ARRAY_LEN {
                                lemma_bulks_bounds(
                                    buf,
                                    cr + 2,
                                    count,
                                    Seq::<(int, int)>::empty(),
                                );
                            }
                        },
                        Err(_) => {},
                    }
                },
                None => {},
            }
        }
    }
}

// ---------------------------------------------------------------------------
// Replies
// ---------------------------------------------------------------------------

pub const OK: &'static str = "+OK\r\n";

pub const PONG: &'static str = "+PONG\r\n";

pub const QUEUED: &'static str = "+QUEUED\r\n";

pub const NULL_BULK: &'static str = "$-1\r\n";

pub const NULL_ARRAY: &'static str = "*-1\r\n";

pub const EMPTY_ARRAY: &'static str = "*0\r\n";

/// The line terminator of the protocol.
pub open spec fn crlf() -> Seq<u8> {
    seq![CR, LF]
}

/// Decimal digits of a natural number.
pub open spec fn nat_digits(n: nat) -> Seq<u8>
    decreases n,
{
    if n < 10 {
        seq![(48 + n) as u8]
    } else {
        nat_digits(n / 10).push((48 + n % 10) as u8)
    }
}

/// Decimal form of an integer.
pub open spec fn int_digits(v: int) -> Seq<u8> {
    if v < 0 {
        seq![45u8] + nat_digits((-v) as nat)
    } else {
        nat_digits(v as nat)
    }
}

/// `+text` reply.
pub open spec fn simple_reply(s: Seq<u8>) -> Seq<u8> {
    seq![43u8] + s + crlf()
}

/// `-text` reply.
pub open spec fn error_reply(s: Seq<u8>) -> Seq<u8> {
    seq![45u8] + s + crlf()
}

/// `:number` reply.
pub open spec fn integer_reply(v: int) -> Seq<u8> {
    seq![58u8] + int_digits(v) + crlf()
}

/// `$len` header of a bulk reply.
pub open spec fn bulk_header(n: int) -> Seq<u8> {
    seq![36u8] + int_digits(n) + crlf()
}

/// Bulk reply holding `data`.
pub open spec fn bulk_reply(data: Seq<u8>) -> Seq<u8> {
    bulk_header(data.len() as int) + data + crlf()
}

/// `*n` header of an array reply.
pub open spec fn array_header(n: int) -> Seq<u8> {
    seq![42u8] + int_digits(n) + crlf()
}

fn write_crlf(out: &mut Vec<u8>)
    ensures
        final(out)@ == old(out)@ + crlf(),
{
    out.push(CR);
    out.push(LF);
    assert(out@ =~= old(out)@ + crlf());
}

/// Append a fixed reply.
pub fn write_text(out: &mut Vec<u8>, s: &str)
    ensures
        final(out)@ == old(out)@ + bytes::text(s),
{
    push_all(out, bytes::raw(s));
}

pub fn write_simple(out: &mut Vec<u8>, s: &str)
    ensures
        final(out)@ == old(out)@ + simple_reply(bytes::text(s)),
{
    out.push(43);
    push_all(out, bytes::raw(s));
    write_crlf(out);
    assert(out@ =~= old(out)@ + simple_reply(bytes::text(s)));
}

pub fn write_error(out: &mut Vec<u8>, s: &str)
    ensures
        final(out)@ == old(out)@ + error_reply(bytes::text(s)),
{
    write_error_bytes(out, bytes::raw(s));
}

pub fn write_error_bytes(out: &mut Vec<u8>, s: &[u8])
    ensures
        final(out)@ == old(out)@ + error_reply(s@),
{
    out.push(45);
    push_all(out, s);
    write_crlf(out);
    assert(out@ =~= old(out)@ + error_reply(s@));
}

pub fn write_integer(out: &mut Vec<u8>, v: i64)
    ensures
        final(out)@ == old(out)@ + integer_reply(v as int),
{
    out.push(58);
    write_i64_digits(out, v);
    write_crlf(out);
    assert(out@ =~= old(out)@ + integer_reply(v as int));
}

/// How many there are, as an integer reply.
pub fn write_count(out: &mut Vec<u8>, n: usize)
    ensures
        final(out)@ == old(out)@ + integer_reply(n as int),
{
    out.push(58);
    write_u64_digits(out, n as u64);
    write_crlf(out);
    assert(out@ =~= old(out)@ + integer_reply(n as int));
}

/// Bulk string header only; the caller then appends `len` bytes and CRLF.
pub fn write_bulk_header(out: &mut Vec<u8>, len: usize)
    ensures
        final(out)@ == old(out)@ + bulk_header(len as int),
{
    out.push(36);
    write_u64_digits(out, len as u64);
    write_crlf(out);
    assert(out@ =~= old(out)@ + bulk_header(len as int));
}

pub fn write_bulk(out: &mut Vec<u8>, data: &[u8])
    ensures
        final(out)@ == old(out)@ + bulk_reply(data@),
{
    write_bulk_header(out, data.len());
    push_all(out, data);
    write_crlf(out);
    assert(out@ =~= old(out)@ + bulk_reply(data@));
}

pub fn write_array_header(out: &mut Vec<u8>, n: usize)
    ensures
        final(out)@ == old(out)@ + array_header(n as int),
{
    out.push(42);
    write_u64_digits(out, n as u64);
    write_crlf(out);
    assert(out@ =~= old(out)@ + array_header(n as int));
}

/// Append the decimal digits of a length.
fn write_u64_digits(out: &mut Vec<u8>, u: u64)
    ensures
        final(out)@ == old(out)@ + nat_digits(u as nat),
    decreases u,
{
    let ghost before = out@;
    if u >= 10 {
        write_u64_digits(out, u / 10);
        assert(before + nat_digits(u as nat / 10).push((48 + u % 10) as u8) =~= (before + nat_digits(
            u as nat / 10,
        )).push((48 + u % 10) as u8));
    }
    out.push((48 + u % 10) as u8);
    assert(out@ =~= before + nat_digits(u as nat));
}

/// Append the decimal digits of `v` without any framing.
pub fn write_i64_digits(out: &mut Vec<u8>, v: i64)
    ensures
        final(out)@ == old(out)@ + int_digits(v as int),
{
    let mut buf = I64Buf::new();
    push_all(out, buf.fmt(v));
}

/// Fixed buffer for formatting an `i64`; the widest case takes 20 bytes.
pub struct I64Buf([u8; 20]);

impl I64Buf {
    /// The bytes that are there.
    pub closed spec fn bytes(self) -> Seq<u8> {
        self.0@
    }
}

impl Default for I64Buf {
    fn default() -> (r: Self)
        ensures
            r.bytes() == Seq::new(20, |i: int| 0u8),
    {
        Self::new()
    }
}

/// The magnitude of an `i64`.
fn magnitude(v: i64) -> (u: u64)
    ensures
        u == (if v < 0 {
            -v
        } else {
            v as int
        }),
{
    if v < 0 {
        (-(v + 1)) as u64 + 1
    } else {
        v as u64
    }
}

pub proof fn lemma_nat_digits_len(n: nat)
    ensures
        nat_digits(n).len() >= 1,
        n < 10 ==> nat_digits(n).len() == 1,
        n >= 10 ==> nat_digits(n).len() == nat_digits(n / 10).len() + 1,
    decreases n,
{
    if n >= 10 {
        lemma_nat_digits_len(n / 10);
    }
}

proof fn lemma_digits_room(u: nat, k: nat, bound: nat)
    requires
        u < bound,
        bound == vstd::arithmetic::power::pow(10, k),
        k >= 1,
    ensures
        nat_digits(u).len() <= k,
    decreases k,
{
    reveal(vstd::arithmetic::power::pow);
    if u >= 10 {
        if k == 1 {
            assert(vstd::arithmetic::power::pow(10, 0) == 1);
            assert(vstd::arithmetic::power::pow(10, 1) == 10);
            assert(false);
        }
        let b = vstd::arithmetic::power::pow(10, (k - 1) as nat);
        assert(bound == 10 * b);
        lemma_digits_room(u / 10, (k - 1) as nat, b as nat);
    }
}

pub proof fn lemma_u64_digits(u: u64)
    ensures
        nat_digits(u as nat).len() <= 20,
        u <= 9223372036854775808 ==> nat_digits(u as nat).len() <= 19,
{
    reveal_with_fuel(vstd::arithmetic::power::pow, 22);
    assert(vstd::arithmetic::power::pow(10, 10) == 10000000000);
    assert(vstd::arithmetic::power::pow(10, 19) == 10000000000000000000);
    assert(vstd::arithmetic::power::pow(10, 20) == 100000000000000000000);
    lemma_digits_room(u as nat, 20, 100000000000000000000);
    if u <= 9223372036854775808 {
        lemma_digits_room(u as nat, 19, 10000000000000000000);
    }
}

impl I64Buf {
    /// All zeros.
    pub fn new() -> (r: Self)
        ensures
            r.bytes() == Seq::new(20, |i: int| 0u8),
    {
        let r = I64Buf([0;20]);
        assert(r.bytes() =~= Seq::new(20, |i: int| 0u8));
        r
    }

    /// Format `v`; the answer is the used tail of the buffer.
    pub fn fmt(&mut self, v: i64) -> (r: &[u8])
        ensures
            r@ == int_digits(v as int),
    {
        let mut i: usize = 20;
        let mut u: u64 = magnitude(v);
        let ghost whole = u as nat;
        proof {
            lemma_u64_digits(u);
        }
        if u == 0 {
            i -= 1;
            self.0[i] = 48;
            assert(self.0@.subrange(19, 20) =~= nat_digits(0));
        }
        while u > 0
            invariant
                whole == (if v < 0 {
                    -v
                } else {
                    v as int
                }),
                1 <= i <= 20,
                nat_digits(whole).len() <= 19,
                u == 0 ==> self.0@.subrange(i as int, 20) == nat_digits(whole),
                u > 0 ==> nat_digits(u as nat) + self.0@.subrange(i as int, 20) == nat_digits(whole),
            decreases u,
        {
            let ghost prev = self.0@;
            proof {
                lemma_nat_digits_len(u as nat);
                assert((nat_digits(u as nat) + prev.subrange(i as int, 20)).len() == nat_digits(
                    u as nat,
                ).len() + (20 - i));
            }
            i -= 1;
            self.0[i] = 48 + (u % 10) as u8;
            proof {
                assert(self.0@.subrange(i as int, 20) =~= seq![(48 + u % 10) as u8] + prev.subrange(
                    i + 1,
                    20,
                ));
                if u >= 10 {
                    assert(nat_digits(u as nat) =~= nat_digits((u / 10) as nat) + seq![
                        (48 + u % 10) as u8,
                    ]);
                    assert(nat_digits((u / 10) as nat) + self.0@.subrange(i as int, 20) =~= nat_digits(
                        u as nat,
                    ) + prev.subrange(i + 1, 20));
                } else {
                    assert(self.0@.subrange(i as int, 20) =~= nat_digits(u as nat) + prev.subrange(
                        i + 1,
                        20,
                    ));
                }
            }
            u /= 10;
        }
        if v < 0 {
            let ghost prev = self.0@;
            i -= 1;
            self.0[i] = 45;
            assert(self.0@.subrange(i as int, 20) =~= seq![45u8] + prev.subrange(i + 1, 20));
        }
        slice_subrange(self.0.as_slice(), i, 20)
    }
}

/// Decimal length of an `i64`.
pub fn i64_digit_len(v: i64) -> (n: usize)
    ensures
        n == int_digits(v as int).len(),
        1 <= n <= 20,
{
    let mut n: usize = if v < 0 {
        1
    } else {
        0
    };
    let mut u: u64 = magnitude(v);
    let ghost whole = u as nat;
    proof {
        lemma_u64_digits(u);
    }
    if u == 0 {
        return 1;
    }
    let ghost base = n as int;
    while u > 0
        invariant
            nat_digits(whole).len() <= 19,
            0 <= base <= 1,
            u > 0 ==> n + nat_digits(u as nat).len() == base + nat_digits(whole).len(),
            u == 0 ==> n == base + nat_digits(whole).len(),
        decreases u,
    {
        proof {
            lemma_nat_digits_len(u as nat);
        }
        n += 1;
        u /= 10;
    }
    proof {
        lemma_nat_digits_len(whole);
    }
    n
}

// ---------------------------------------------------------------------------
// Integer arguments
// ---------------------------------------------------------------------------

/// Length of the Unicode white-space character encoded at the front of `s`;
/// zero when there is none.
pub open spec fn ws_front(s: Seq<u8>) -> int {
    if s.len() >= 1 && (9 <= s[0] <= 13 || s[0] == 32) {
        1
    } else if s.len() >= 2 && s[0] == 0xC2 && (s[1] == 0x85 || s[1] == 0xA0) {
        2
    } else if s.len() >= 3 && is_wide_space(s[0], s[1], s[2]) {
        3
    } else {
        0
    }
}

/// Length of the Unicode white-space character encoded at the back of `s`.
pub open spec fn ws_back(s: Seq<u8>) -> int {
    let n = s.len() as int;
    if n >= 1 && (9 <= s[n - 1] <= 13 || s[n - 1] == 32) {
        1
    } else if n >= 2 && s[n - 2] == 0xC2 && (s[n - 1] == 0x85 || s[n - 1] == 0xA0) {
        2
    } else if n >= 3 && is_wide_space(s[n - 3], s[n - 2], s[n - 1]) {
        3
    } else {
        0
    }
}

/// The three-byte white-space encodings: U+1680, U+2000 to U+200A, U+2028,
/// U+2029, U+202F, U+205F and U+3000.
pub open spec fn is_wide_space(a: u8, b: u8, c: u8) -> bool {
    ||| a == 0xE1 && b == 0x9A && c == 0x80
    ||| a == 0xE2 && b == 0x80 && (0x80 <= c <= 0x8A || c == 0xA8 || c == 0xA9 || c == 0xAF)
    ||| a == 0xE2 && b == 0x81 && c == 0x9F
    ||| a == 0xE3 && b == 0x80 && c == 0x80
}

pub open spec fn trim_front(s: Seq<u8>) -> Seq<u8>
    decreases s.len(),
{
    let k = ws_front(s);
    if k <= 0 || k > s.len() {
        s
    } else {
        trim_front(s.subrange(k, s.len() as int))
    }
}

pub open spec fn trim_back(s: Seq<u8>) -> Seq<u8>
    decreases s.len(),
{
    let k = ws_back(s);
    if k <= 0 || k > s.len() {
        s
    } else {
        trim_back(s.subrange(0, s.len() - k))
    }
}

/// `s` without surrounding white space.
pub open spec fn trim(s: Seq<u8>) -> Seq<u8> {
    trim_back(trim_front(s))
}

pub open spec fn all_digits(d: Seq<u8>) -> bool {
    forall|i: int| 0 <= i < d.len() ==> is_digit(#[trigger] d[i])
}

/// Value of a run of decimal digits.
pub open spec fn decimal(d: Seq<u8>) -> int
    decreases d.len(),
{
    if d.len() == 0 {
        0
    } else {
        decimal(d.drop_last()) * 10 + (d.last() - 48)
    }
}

/// The integer a command argument denotes: surrounding white space, an
/// optional sign, then digits, with a value that fits 64 bits.
pub open spec fn argument_int(s: Seq<u8>) -> Option<int> {
    let t = trim(s);
    let signed = t.len() > 0 && (t[0] == 45 || t[0] == 43);
    let neg = t.len() > 0 && t[0] == 45;
    let d = if signed {
        t.subrange(1, t.len() as int)
    } else {
        t
    };
    let v = if neg {
        -decimal(d)
    } else {
        decimal(d)
    };
    if d.len() > 0 && all_digits(d) && i64::MIN <= v <= i64::MAX {
        Some(v)
    } else {
        None
    }
}

fn wide_space(a: u8, b: u8, c: u8) -> (r: bool)
    ensures
        r == is_wide_space(a, b, c),
{
    (a == 0xE1 && b == 0x9A && c == 0x80) || (a == 0xE2 && b == 0x80 && ((0x80 <= c && c <= 0x8A)
        || c == 0xA8 || c == 0xA9 || c == 0xAF)) || (a == 0xE2 && b == 0x81 && c == 0x9F) || (a
        == 0xE3 && b == 0x80 && c == 0x80)
}

proof fn lemma_decimal_prefix(d: Seq<u8>, n: int)
    requires
        0 <= n <= d.len(),
        all_digits(d),
    ensures
        0 <= decimal(d.subrange(0, n)) <= decimal(d),
    decreases d.len() - n,
{
    if n < d.len() {
        lemma_decimal_prefix(d, n + 1);
        assert(d.subrange(0, n + 1).drop_last() =~= d.subrange(0, n));
        assert(d.subrange(0, n + 1).last() == d[n]);
        lemma_decimal_nonneg(d.subrange(0, n));
    } else {
        assert(d.subrange(0, n) =~= d);
        lemma_decimal_nonneg(d);
    }
}

proof fn lemma_decimal_nonneg(d: Seq<u8>)
    requires
        all_digits(d),
    ensures
        0 <= decimal(d),
    decreases d.len(),
{
    if d.len() > 0 {
        assert(is_digit(d[d.len() - 1]));
        assert forall|i: int| 0 <= i < d.drop_last().len() implies is_digit(
            #[trigger] d.drop_last()[i],
        ) by {
            assert(d.drop_last()[i] == d[i]);
        }
        lemma_decimal_nonneg(d.drop_last());
    }
}

/// Offsets of `s` without surrounding white space.
fn trim_offsets(s: &[u8]) -> (r: (usize, usize))
    ensures
        r.0 <= r.1 <= s@.len(),
        s@.subrange(r.0 as int, r.1 as int) == trim(s@),
{
    let n: usize = s.len();
    let mut i: usize = 0;
    let mut k: usize = 1;
    assert(s@.subrange(0, n as int) =~= s@);
    while k > 0
        invariant
            n == s@.len(),
            i <= n,
            trim_front(s@) == trim_front(s@.subrange(i as int, n as int)),
            k == 0 ==> trim_front(s@) == s@.subrange(i as int, n as int),
        decreases n - i + k,
    {
        let ghost cur = s@.subrange(i as int, n as int);
        k = if i < n && ((9 <= s[i] && s[i] <= 13) || s[i] == 32) {
            1
        } else if n - i >= 2 && s[i] == 0xC2 && (s[i + 1] == 0x85 || s[i + 1] == 0xA0) {
            2
        } else if n - i >= 3 && wide_space(s[i], s[i + 1], s[i + 2]) {
            3
        } else {
            0
        };
        assert(k == ws_front(cur));
        assert(cur.subrange(k as int, cur.len() as int) =~= s@.subrange(i + k, n as int));
        i = i + k;
        if k > 0 {
            k = 1;
        }
    }
    let mut j: usize = n;
    k = 1;
    while k > 0
        invariant
            n == s@.len(),
            i <= j <= n,
            trim_front(s@) == s@.subrange(i as int, n as int),
            trim(s@) == trim_back(s@.subrange(i as int, j as int)),
            k == 0 ==> trim(s@) == s@.subrange(i as int, j as int),
        decreases j - i + k,
    {
        let ghost cur = s@.subrange(i as int, j as int);
        k = if i < j && ((9 <= s[j - 1] && s[j - 1] <= 13) || s[j - 1] == 32) {
            1
        } else if j - i >= 2 && s[j - 2] == 0xC2 && (s[j - 1] == 0x85 || s[j - 1] == 0xA0) {
            2
        } else if j - i >= 3 && wide_space(s[j - 3], s[j - 2], s[j - 1]) {
            3
        } else {
            0
        };
        assert(k == ws_back(cur));
        assert(cur.subrange(0, cur.len() - k) =~= s@.subrange(i as int, j - k));
        j = j - k;
        if k > 0 {
            k = 1;
        }
    }
    (i, j)
}

/// Parse an integer *command argument*: surrounding white space and a leading
/// `+` are accepted, unlike in framing lengths.
pub fn parse_i64(s: &[u8]) -> (r: Option<i64>)
    ensures
        r is Some <==> argument_int(s@) is Some,
        r matches Some(v) ==> argument_int(s@) == Some(v as int),
{
    let (from, to) = trim_offsets(s);
    let t: &[u8] = slice_subrange(s, from, to);
    let neg: bool = t.len() > 0 && t[0] == 45;
    let signed: bool = t.len() > 0 && (t[0] == 45 || t[0] == 43);
    let d: &[u8] = if signed {
        slice_subrange(t, 1, t.len())
    } else {
        t
    };
    if d.len() == 0 {
        return None;
    }
    let limit: u64 = if neg {
        9223372036854775808
    } else {
        9223372036854775807
    };
    let mut v: u64 = 0;
    let mut i: usize = 0;
    assert(d@.subrange(0, 0) =~= Seq::<u8>::empty());
    while i < d.len()
        invariant
            d@.len() > 0,
            i <= d@.len(),
            limit == (if neg {
                9223372036854775808u64
            } else {
                9223372036854775807u64
            }),
            v <= limit,
            v == decimal(d@.subrange(0, i as int)),
            forall|j: int| 0 <= j < i ==> is_digit(#[trigger] d@[j]),
            t@ == trim(s@),
            neg == (t@.len() > 0 && t@[0] == 45),
            signed == (t@.len() > 0 && (t@[0] == 45 || t@[0] == 43)),
            d@ == (if signed {
                t@.subrange(1, t@.len() as int)
            } else {
                t@
            }),
        decreases d@.len() - i,
    {
        let c: u8 = d[i];
        if !(48 <= c && c <= 57) {
            assert(!is_digit(d@[i as int]));
            return None;
        }
        let x: u64 = (c - 48) as u64;
        proof {
            assert(d@.subrange(0, i + 1).drop_last() =~= d@.subrange(0, i as int));
            assert(d@.subrange(0, i + 1).last() == c);
            if all_digits(d@) {
                lemma_decimal_prefix(d@, i + 1);
            }
        }
        if v > (limit - x) / 10 {
            return None;
        }
        v = v * 10 + x;
        i += 1;
    }
    assert(d@.subrange(0, i as int) =~= d@);
    if neg {
        if v == 9223372036854775808 {
            Some(i64::MIN)
        } else {
            Some(-(v as i64))
        }
    } else {
        Some(v as i64)
    }
}

} // verus!
