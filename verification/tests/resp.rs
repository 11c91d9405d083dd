use mini_garnet::resp::{
    i64_digit_len, parse_command, parse_i64, write_array_header, write_bulk, write_error,
    write_integer, write_simple, I64Buf,
};
use mini_garnet::wire::write_array;

fn parse(buf: &[u8], pos: usize) -> Option<(Vec<Vec<u8>>, usize)> {
    let mut args = Vec::new();
    let next = parse_command(buf, pos, &mut args).unwrap()?;
    Some((args.iter().map(|a| a.bytes(buf).to_vec()).collect(), next))
}

#[test]
fn parses_array_command() {
    let buf = b"*3\r\n$3\r\nSET\r\n$1\r\nk\r\n$5\r\nhello\r\n";
    let (args, next) = parse(buf, 0).unwrap();
    assert_eq!(
        args,
        vec![b"SET".to_vec(), b"k".to_vec(), b"hello".to_vec()]
    );
    assert_eq!(next, buf.len());
}

#[test]
fn parses_pipelined_batch_and_partial_tail() {
    let full = b"*2\r\n$3\r\nGET\r\n$1\r\na\r\n*2\r\n$3\r\nGET\r\n$1\r\nb\r\n".to_vec();
    // Cut the second command in the middle of its bulk string.
    let cut = &full[..full.len() - 3];
    let (args, next1) = parse(cut, 0).unwrap();
    assert_eq!(args[1], b"a");
    assert!(parse(cut, next1).is_none(), "second is incomplete");
    // After the rest arrives, it parses.
    let (args, next2) = parse(&full, next1).unwrap();
    assert_eq!(args[1], b"b");
    assert_eq!(next2, full.len());
    assert!(parse(&full, next2).is_none());
}

#[test]
fn parses_inline() {
    let buf = b"PING\r\nSET  a b\r\n";
    let (args, next) = parse(buf, 0).unwrap();
    assert_eq!(args, vec![b"PING".to_vec()]);
    let (args, _) = parse(buf, next).unwrap();
    assert_eq!(args, vec![b"SET".to_vec(), b"a".to_vec(), b"b".to_vec()]);
}

#[test]
fn rejects_malformed() {
    let mut a = Vec::new();
    assert!(parse_command(b"*1\r\n:5\r\n", 0, &mut a).is_err());
    assert!(parse_command(b"*1\r\n$2\r\nabc\r\n", 0, &mut a).is_err());
    assert!(parse_command(b"*x\r\n", 0, &mut a).is_err());
}

#[test]
fn writes_replies() {
    let mut out = Vec::new();
    write_integer(&mut out, -42);
    write_bulk(&mut out, b"hi");
    write_array_header(&mut out, 2);
    write_simple(&mut out, "OK");
    write_error(&mut out, "ERR x");
    assert_eq!(out, b":-42\r\n$2\r\nhi\r\n*2\r\n+OK\r\n-ERR x\r\n");
    assert_eq!(i64_digit_len(0), 1);
    assert_eq!(i64_digit_len(-105), 4);
    assert_eq!(i64_digit_len(i64::MIN), 20);
}

#[test]
fn protocol_errors_name_their_reason() {
    let mut a = Vec::new();
    let cases: [(&[u8], &[u8]); 8] = [
        (b"*\r\n", b"empty integer"),
        (b"*1x\r\n", b"non-digit in integer"),
        (b"*99999999999999999999\r\n", b"integer overflow"),
        (b"*-1\r\n", b"negative array length"),
        (b"*1048577\r\n", b"array too large"),
        (b"*1\r\n+OK\r\n", b"expected bulk string"),
        (b"*1\r\n$-1\r\n", b"negative bulk length"),
        (b"*1\r\n$2\r\nabc\r\n", b"bulk string not CRLF terminated"),
    ];
    for (buf, reason) in cases {
        let e = parse_command(buf, 0, &mut a).unwrap_err();
        assert_eq!(e.message(), [b"protocol error: ", reason].concat(), "{buf:?}");
    }
}

#[test]
fn an_empty_array_is_a_command_without_arguments() {
    assert_eq!(parse(b"*0\r\n", 0), Some((vec![], 4)));
    assert_eq!(parse(b"\r\n", 0), Some((vec![], 2)));
    assert_eq!(parse(b"", 0), None);
    assert_eq!(parse(b"*1\r\n$3\r\nab", 0), None);
}

#[test]
fn an_encoded_command_is_read_back() {
    let parts: [&[u8]; 4] = [b"SET", b"", b"a\r\nb", b"x"];
    let mut buf = Vec::new();
    write_array(&mut buf, &parts);
    assert_eq!(buf, b"*4\r\n$3\r\nSET\r\n$0\r\n\r\n$4\r\na\r\nb\r\n$1\r\nx\r\n");
    let end = buf.len();
    buf.extend_from_slice(b"*1\r\n$4\r\nPI");
    let (args, next) = parse(&buf, 0).unwrap();
    assert_eq!(next, end);
    assert_eq!(args.len(), 4);
    for i in 0..4 {
        assert_eq!(args[i], parts[i]);
    }
}

#[test]
fn integers_are_read_back() {
    for v in [0, 7, -7, 10, 99, 100, 12345, i64::MAX, i64::MIN, i64::MIN + 1] {
        let mut buf = I64Buf::new();
        let digits = buf.fmt(v).to_vec();
        assert_eq!(digits, v.to_string().into_bytes());
        assert_eq!(digits.len(), i64_digit_len(v));
        assert_eq!(parse_i64(&digits), Some(v));
    }
    assert_eq!(parse_i64(b" +12 "), Some(12));
    assert_eq!(parse_i64(b"\xc2\xa05\xe2\x80\x83"), Some(5));
    assert_eq!(parse_i64(b""), None);
    assert_eq!(parse_i64(b"-"), None);
    assert_eq!(parse_i64(b"1 2"), None);
    assert_eq!(parse_i64(b"9223372036854775808"), None);
    assert_eq!(parse_i64(b"-9223372036854775809"), None);
}
