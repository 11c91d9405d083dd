use mini_garnet::aof::{replay, Aof, AofEntry, AofOp, CommitMode, LogStep, AOF_VERSION, HEADER_LEN};
use mini_garnet::checkpoint::CheckpointError;
use mini_garnet::commands::RespSession;
use mini_garnet::device::{Device, DeviceError, MemDevice};
use mini_garnet::glob::glob_match;
use mini_garnet::hash::hash64;
use mini_garnet::log::{Fraction, LogSettings};
use mini_garnet::server::{
    Admission, Connection, ConnectionError, ReceiveBuffer, DEFAULT_MAX_CLIENTS, INITIAL_RECV,
    MAX_RECV, REFUSAL,
};
use mini_garnet::shared::{Config, Shared, WatchTable};
use mini_garnet::store::StoreSettings;
use mini_garnet::store_settings_small;
use std::cell::RefCell;
use std::rc::Rc;

// -- a client ----------------------------------------------------------------

#[derive(Debug, Clone, PartialEq, Eq)]
enum Reply {
    Simple(String),
    Error(String),
    Int(i64),
    Bulk(Option<Vec<u8>>),
    Array(Option<Vec<Reply>>),
}

impl Reply {
    fn as_str(&self) -> String {
        match self {
            Reply::Simple(s) | Reply::Error(s) => s.clone(),
            Reply::Int(i) => i.to_string(),
            Reply::Bulk(Some(b)) => String::from_utf8_lossy(b).into_owned(),
            Reply::Bulk(None) => "(nil)".into(),
            Reply::Array(_) => format!("{self:?}"),
        }
    }
}

fn simple(s: &str) -> Reply {
    Reply::Simple(s.into())
}

fn next_reply(buf: &[u8], pos: &mut usize) -> Reply {
    let line_end = buf[*pos..].windows(2).position(|w| w == b"\r\n").unwrap() + *pos;
    let prefix = buf[*pos];
    let line = &buf[*pos + 1..line_end];
    let text = String::from_utf8_lossy(line).into_owned();
    *pos = line_end + 2;
    match prefix {
        b'+' => Reply::Simple(text),
        b'-' => Reply::Error(text),
        b':' => Reply::Int(text.parse().unwrap()),
        b'$' => {
            let n: i64 = text.parse().unwrap();
            if n < 0 {
                return Reply::Bulk(None);
            }
            let data = buf[*pos..*pos + n as usize].to_vec();
            *pos += n as usize + 2;
            Reply::Bulk(Some(data))
        }
        b'*' => {
            let n: i64 = text.parse().unwrap();
            if n < 0 {
                return Reply::Array(None);
            }
            Reply::Array(Some((0..n).map(|_| next_reply(buf, pos)).collect()))
        }
        _ => panic!("bad reply prefix {}", prefix as char),
    }
}

fn parse_reply(buf: &[u8]) -> Reply {
    let mut pos = 0;
    let r = next_reply(buf, &mut pos);
    assert_eq!(pos, buf.len(), "more than one reply");
    r
}

fn encode(args: &[&[u8]]) -> Vec<u8> {
    let mut buf = format!("*{}\r\n", args.len()).into_bytes();
    for a in args {
        buf.extend_from_slice(format!("${}\r\n", a.len()).as_bytes());
        buf.extend_from_slice(a);
        buf.extend_from_slice(b"\r\n");
    }
    buf
}

struct Server<D: Device> {
    shared: Shared<D, MemDevice>,
    now: i64,
}

struct Client {
    conn: Connection,
    closed: bool,
}

impl<D: Device> Server<D> {
    fn connect(&mut self) -> Client {
        Client {
            conn: Connection::new(&mut self.shared),
            closed: false,
        }
    }
}

impl Client {
    fn send<D: Device>(&mut self, server: &mut Server<D>, bytes: &[u8]) -> Vec<u8> {
        assert!(self.conn.recv.room().unwrap() >= bytes.len());
        self.closed = self
            .conn
            .receive(&mut server.shared, server.now, bytes);
        self.conn.send.clone()
    }

    fn cmd<D: Device>(&mut self, server: &mut Server<D>, args: &[&str]) -> Reply {
        let bytes: Vec<&[u8]> = args.iter().map(|s| s.as_bytes()).collect();
        let raw = encode(&bytes);
        parse_reply(&self.send(server, &raw))
    }
}

fn small_config(persist: bool, aof: bool) -> Config {
    Config {
        bind: "127.0.0.1:0".into(),
        dir: "data".into(),
        persist,
        aof,
        aof_commit_wait: aof,
        commit_mode: if aof {
            CommitMode::Always
        } else {
            CommitMode::Never
        },
        store: store_settings_small(),
        maxclients: DEFAULT_MAX_CLIENTS,
    }
}

fn spawn_server(persist: bool, aof: bool) -> Server<MemDevice> {
    Server {
        shared: Shared::new(
            &small_config(persist, aof),
            MemDevice::new(),
            MemDevice::new(),
            0,
        ),
        now: 1_700_000_000_000,
    }
}

// -- commands ----------------------------------------------------------------

#[test]
fn strings_and_numbers() {
    let mut sv = spawn_server(false, false);
    let mut cl = sv.connect();
    let mut c = |args: &[&str]| cl.cmd(&mut sv, args);
    assert_eq!(c(&["PING"]), simple("PONG"));
    assert_eq!(c(&["SET", "k", "hello"]), simple("OK"));
    assert_eq!(c(&["GET", "k"]).as_str(), "hello");
    assert_eq!(c(&["APPEND", "k", " world"]), Reply::Int(11));
    assert_eq!(c(&["GET", "k"]).as_str(), "hello world");
    assert_eq!(c(&["STRLEN", "k"]), Reply::Int(11));
    assert_eq!(c(&["GETRANGE", "k", "0", "4"]).as_str(), "hello");
    assert_eq!(c(&["GETRANGE", "k", "-5", "-1"]).as_str(), "world");

    assert_eq!(c(&["SET", "n", "100"]), simple("OK"));
    assert_eq!(c(&["INCR", "n"]), Reply::Int(101));
    assert_eq!(c(&["INCRBY", "n", "9"]), Reply::Int(110));
    assert_eq!(c(&["DECRBY", "n", "20"]), Reply::Int(90));
    assert_eq!(c(&["DECR", "n"]), Reply::Int(89));
    // Non-integer -> error.
    assert!(matches!(c(&["INCR", "k"]), Reply::Error(_)));

    // GET on missing key.
    assert_eq!(c(&["GET", "missing"]), Reply::Bulk(None));
    // SETNX / SET NX / XX.
    assert_eq!(c(&["SETNX", "k", "x"]), Reply::Int(0));
    assert_eq!(c(&["SETNX", "fresh", "x"]), Reply::Int(1));
    assert_eq!(c(&["SET", "k", "v2", "XX"]), simple("OK"));
    assert_eq!(c(&["SET", "brand", "v", "XX"]), Reply::Bulk(None));
    assert_eq!(c(&["SET", "k", "v3", "NX"]), Reply::Bulk(None));
    // SET GET returns old value.
    assert_eq!(c(&["SET", "k", "v4", "GET"]).as_str(), "v2");

    // DEL / EXISTS / TYPE.
    assert_eq!(c(&["EXISTS", "k", "n", "nope"]), Reply::Int(2));
    assert_eq!(c(&["TYPE", "k"]), simple("string"));
    assert_eq!(c(&["TYPE", "nope"]), simple("none"));
    assert_eq!(c(&["DEL", "k", "n", "nope"]), Reply::Int(2));
    assert_eq!(c(&["EXISTS", "k"]), Reply::Int(0));

    // MSET / MGET.
    assert_eq!(c(&["MSET", "a", "1", "b", "2", "cc", "3"]), simple("OK"));
    match c(&["MGET", "a", "b", "zzz", "cc"]) {
        Reply::Array(Some(v)) => {
            assert_eq!(v[0].as_str(), "1");
            assert_eq!(v[1].as_str(), "2");
            assert_eq!(v[2], Reply::Bulk(None));
            assert_eq!(v[3].as_str(), "3");
        }
        other => panic!("{other:?}"),
    }
}

#[test]
fn string_updates_work_in_place_and_when_values_grow() {
    let mut sv = spawn_server(false, false);
    let mut cl = sv.connect();
    let mut c = |args: &[&str]| cl.cmd(&mut sv, args);

    // Shrinking leaves spare capacity, so the first range update happens in place.
    c(&["SET", "range", "abcdefgh"]);
    c(&["SET", "range", "a"]);
    assert_eq!(c(&["SETRANGE", "range", "3", "z"]), Reply::Int(4));
    assert_eq!(c(&["GET", "range"]).as_str(), "a\0\0z");

    // Growing past that capacity copies the value and zero-fills the gap.
    assert_eq!(c(&["SETRANGE", "range", "10", "!"]), Reply::Int(11));
    assert_eq!(c(&["APPEND", "range", "?"]), Reply::Int(12));
    assert_eq!(c(&["GET", "range"]).as_str(), "a\0\0z\0\0\0\0\0\0!?");
    assert_eq!(c(&["SETRANGE", "new-range", "2", "x"]), Reply::Int(3));
    assert_eq!(c(&["GET", "new-range"]).as_str(), "\0\0x");

    // Adding an expiration slot copies an existing record; later updates retain it.
    c(&["SET", "ttl", "one"]);
    assert_eq!(c(&["GETEX", "ttl", "PXAT", "4102444800000"]).as_str(), "one");
    assert_eq!(c(&["SET", "ttl", "two", "GET", "KEEPTTL"]).as_str(), "one");
    assert_eq!(
        c(&["SET", "ttl", "longer value", "GET", "KEEPTTL"]).as_str(),
        "two"
    );
    assert!(matches!(c(&["PTTL", "ttl"]), Reply::Int(ttl) if ttl > 0));
    assert_eq!(c(&["GETEX", "ttl", "PERSIST"]).as_str(), "longer value");
    assert_eq!(c(&["PTTL", "ttl"]), Reply::Int(-1));

    // A reused reply buffer must still distinguish missing values and valid MIN integers.
    assert_eq!(c(&["SET", "fresh", "value", "GET"]), Reply::Bulk(None));
    assert_eq!(c(&["GETDEL", "fresh"]).as_str(), "value");
    assert_eq!(c(&["GETDEL", "fresh"]), Reply::Bulk(None));
    assert_eq!(
        c(&["INCRBY", "minimum", "-9223372036854775808"]),
        Reply::Int(i64::MIN)
    );
    assert_eq!(c(&["INCRBY", "minimum", "0"]), Reply::Int(i64::MIN));
    assert!(matches!(c(&["DECR", "minimum"]), Reply::Error(_)));
    assert_eq!(c(&["GET", "minimum"]).as_str(), "-9223372036854775808");
}

#[test]
fn scan_returns_the_same_keys_as_keys() {
    let mut sv = spawn_server(false, false);
    let mut cl = sv.connect();
    let mut c = |args: &[&str]| cl.cmd(&mut sv, args);
    c(&["MSET", "user:1", "a", "user:2", "b", "post:1", "c"]);

    for pattern in ["*", "user:*", "user:?", "user:[12]", "missing:*"] {
        let keys = c(&["KEYS", pattern]);
        let scan = c(&["SCAN", "0", "mAtCh", pattern, "COUNT", "1"]);
        assert_eq!(
            scan,
            Reply::Array(Some(vec![Reply::Bulk(Some(b"0".to_vec())), keys]))
        );
    }

    let keys = c(&["KEYS", "*"]);
    assert_eq!(
        c(&["SCAN", "0"]),
        Reply::Array(Some(vec![Reply::Bulk(Some(b"0".to_vec())), keys]))
    );
}

#[test]
fn expiration_is_lazy_and_ttl_reported() {
    let mut sv = spawn_server(false, false);
    let mut cl = sv.connect();
    assert_eq!(cl.cmd(&mut sv, &["SET", "e", "v", "PX", "50"]), simple("OK"));
    sv.now += 10;
    assert_eq!(cl.cmd(&mut sv, &["PTTL", "e"]), Reply::Int(40));
    assert_eq!(cl.cmd(&mut sv, &["TTL", "e"]), Reply::Int(1));
    assert_eq!(cl.cmd(&mut sv, &["GET", "e"]).as_str(), "v");
    sv.now += 60;
    assert_eq!(cl.cmd(&mut sv, &["GET", "e"]), Reply::Bulk(None), "expired");
    assert_eq!(cl.cmd(&mut sv, &["TTL", "e"]), Reply::Int(-2));
    // EXPIRE / PERSIST on a live key.
    let mut c = |args: &[&str]| cl.cmd(&mut sv, args);
    c(&["SET", "p", "v"]);
    assert_eq!(c(&["TTL", "p"]), Reply::Int(-1));
    assert_eq!(c(&["EXPIRE", "p", "1000"]), Reply::Int(1));
    match c(&["TTL", "p"]) {
        Reply::Int(v) => assert!(v > 990 && v <= 1000),
        other => panic!("{other:?}"),
    }
    assert_eq!(c(&["PERSIST", "p"]), Reply::Int(1));
    assert_eq!(c(&["TTL", "p"]), Reply::Int(-1));
    assert_eq!(c(&["EXPIRE", "missing", "10"]), Reply::Int(0));
}

#[test]
fn pipelining_one_flush() {
    let mut sv = spawn_server(false, false);
    let mut cl = sv.connect();
    let mut batch = Vec::new();
    for _ in 0..100 {
        batch.extend(encode(&[b"SET", b"k", b"v"]));
    }
    batch.extend(encode(&[b"GET", b"k"]));
    let out = cl.send(&mut sv, &batch);
    let mut pos = 0;
    for _ in 0..100 {
        assert_eq!(next_reply(&out, &mut pos), simple("OK"));
    }
    assert_eq!(next_reply(&out, &mut pos).as_str(), "v");
    assert_eq!(pos, out.len());
}

#[test]
fn a_command_may_arrive_in_pieces() {
    let mut sv = spawn_server(false, false);
    let mut cl = sv.connect();
    let raw = encode(&[b"SET", b"k", b"v"]);
    for i in 0..raw.len() - 1 {
        assert!(cl.send(&mut sv, &raw[i..i + 1]).is_empty());
    }
    assert_eq!(cl.send(&mut sv, &raw[raw.len() - 1..]), b"+OK\r\n");
    assert!(!cl.closed);
}

#[test]
fn quit_and_protocol_errors_close_the_connection() {
    let mut sv = spawn_server(false, false);
    let mut cl = sv.connect();
    let out = cl.send(&mut sv, b"PING\r\nQUIT\r\nPING\r\n");
    assert_eq!(out, b"+PONG\r\n+OK\r\n");
    assert!(cl.closed);
    let mut cl = sv.connect();
    let out = cl.send(&mut sv, b"PING\r\n*1\r\n:5\r\n");
    assert_eq!(out, b"+PONG\r\n-ERR Protocol error\r\n");
    assert!(cl.closed);
}

#[test]
fn connections_past_maxclients_are_refused_and_the_slot_is_reusable() {
    const LIMIT: usize = 4;
    let mut door = Admission::new(LIMIT);
    for _ in 0..LIMIT {
        assert!(door.enter());
    }
    assert!(!door.enter(), "connection past maxclients");
    assert_eq!(REFUSAL, "-ERR max number of clients reached\r\n");
    door.leave();
    assert!(door.enter(), "a closed connection must give its slot back");
    // A session that is closed gives its row of the epoch table back.
    let mut sv = spawn_server(false, false);
    for _ in 0..3 * DEFAULT_MAX_CLIENTS {
        let mut cl = sv.connect();
        assert_eq!(cl.cmd(&mut sv, &["SET", "k", "v"]), simple("OK"));
        assert_eq!(cl.cmd(&mut sv, &["GET", "k"]).as_str(), "v");
        cl.conn.session.close(&mut sv.shared);
    }
}

#[test]
fn keys_and_dbsize() {
    let mut sv = spawn_server(false, false);
    let mut cl = sv.connect();
    let mut c = |args: &[&str]| cl.cmd(&mut sv, args);
    c(&["MSET", "user:1", "a", "user:2", "b", "post:1", "c"]);
    assert_eq!(c(&["DBSIZE"]), Reply::Int(3));
    match c(&["KEYS", "user:*"]) {
        Reply::Array(Some(v)) => {
            let mut got: Vec<String> = v.iter().map(|r| r.as_str()).collect();
            got.sort();
            assert_eq!(got, vec!["user:1".to_string(), "user:2".to_string()]);
        }
        other => panic!("{other:?}"),
    }
}

#[test]
fn transactions_multi_exec_and_watch() {
    let mut sv = spawn_server(false, false);
    let mut cl = sv.connect();
    let mut cl2 = sv.connect();
    let mut c = |args: &[&str]| cl.cmd(&mut sv, args);
    c(&["SET", "src", "10"]);
    c(&["SET", "dst", "0"]);
    assert_eq!(c(&["MULTI"]), simple("OK"));
    assert_eq!(c(&["DECRBY", "src", "3"]), simple("QUEUED"));
    assert_eq!(c(&["INCRBY", "dst", "3"]), simple("QUEUED"));
    match c(&["EXEC"]) {
        Reply::Array(Some(v)) => {
            assert_eq!(v[0], Reply::Int(7));
            assert_eq!(v[1], Reply::Int(3));
        }
        other => panic!("{other:?}"),
    }
    assert_eq!(c(&["GET", "src"]).as_str(), "7");
    assert_eq!(c(&["GET", "dst"]).as_str(), "3");

    // WATCH abort: a second client modifies the watched key.
    assert_eq!(c(&["WATCH", "src"]), simple("OK"));
    cl2.cmd(&mut sv, &["SET", "src", "999"]);
    let mut c = |args: &[&str]| cl.cmd(&mut sv, args);
    c(&["MULTI"]);
    c(&["INCR", "src"]);
    assert_eq!(
        c(&["EXEC"]),
        Reply::Array(None),
        "aborted by WATCH conflict"
    );
    assert_eq!(c(&["GET", "src"]).as_str(), "999");

    // DISCARD.
    c(&["MULTI"]);
    c(&["SET", "x", "1"]);
    assert_eq!(c(&["DISCARD"]), simple("OK"));
    assert_eq!(c(&["EXISTS", "x"]), Reply::Int(0));
}

#[test]
fn large_dataset_spills_to_disk() {
    let mut sv = spawn_server(true, false);
    let mut cl = sv.connect();
    let mut c = |args: &[&str]| cl.cmd(&mut sv, args);
    // Write enough to evict pages to disk, then read back.
    for i in 0..5000 {
        let k = format!("key{i}");
        let v = format!("value-number-{i}");
        assert_eq!(c(&["SET", &k, &v]), simple("OK"));
    }
    assert_eq!(c(&["DBSIZE"]), Reply::Int(5000));
    for i in (0..5000).step_by(311) {
        let k = format!("key{i}");
        assert_eq!(c(&["GET", &k]).as_str(), format!("value-number-{i}"));
    }
    // Update a cold key (read-copy-update from disk).
    assert_eq!(c(&["APPEND", "key0", "!"]), Reply::Int(15));
    assert_eq!(c(&["GET", "key0"]).as_str(), "value-number-0!");
}

type Mem = Shared<MemDevice, MemDevice>;

fn run(s: &mut RespSession, shared: &mut Mem, parts: &[&str]) -> Reply {
    let bytes: Vec<&[u8]> = parts.iter().map(|p| p.as_bytes()).collect();
    parse_reply(&s.run(shared, 1000, &bytes))
}

/// The answers INCR owes for one region's key set.
fn assert_answers(s: &mut RespSession, shared: &mut Mem, suffix: &str, region: &str) {
    let (word, num, big) = (
        format!("word{suffix}"),
        format!("num{suffix}"),
        format!("big{suffix}"),
    );
    assert!(
        matches!(run(s, shared, &["INCR", &word]), Reply::Error(_)),
        "INCR on a non-integer must fail ({region})"
    );
    assert_eq!(
        run(s, shared, &["GET", &word]).as_str(),
        "abc",
        "a rejected INCR must leave the value alone ({region})"
    );
    assert!(
        matches!(run(s, shared, &["INCR", &big]), Reply::Error(_)),
        "INCR past i64::MAX must fail ({region})"
    );
    assert_eq!(
        run(s, shared, &["GET", &big]).as_str(),
        "9223372036854775807",
        "a rejected INCR must leave the value alone ({region})"
    );
    assert_eq!(
        run(s, shared, &["INCR", &num]),
        Reply::Int(42),
        "a valid INCR must still work ({region})"
    );
}

fn address_of(shared: &Mem, key: &str) -> u64 {
    shared
        .store
        .index
        .find_tag(hash64(key.as_bytes()))
        .expect("key is indexed")
        .load(&shared.store.index)
        .address()
}

/// Append unrelated keys until a watermark has moved past the record.
fn fill_until(s: &mut RespSession, shared: &mut Mem, tag: &str, done: fn(&Mem) -> u64, past: u64) {
    for i in 0..200_000u32 {
        if done(shared) > past {
            return;
        }
        let k = format!("filler-{tag}-{i}");
        run(s, shared, &["SET", &k, "0123456789abcdef"]);
    }
    panic!("watermark never advanced past the record");
}

#[test]
fn incr_guards_hold_in_every_log_region() {
    let cfg = Config {
        // Small pages, so a few hundred filler writes move the watermarks.
        store: StoreSettings {
            index_buckets: 1 << 12,
            log: LogSettings {
                page_bits: 12,
                memory_pages: 8,
                mutable_fraction: Fraction { num: 1, den: 2 },
            },
        },
        ..small_config(false, false)
    };
    let mut shared: Mem = Shared::new(&cfg, MemDevice::new(), MemDevice::new(), 0);
    let mut s = RespSession::new(&mut shared);

    // One key set per region, all written up front so each set stays together.
    for suffix in ["", "-ro", "-disk"] {
        run(&mut s, &mut shared, &["SET", &format!("word{suffix}"), "abc"]);
        run(&mut s, &mut shared, &["SET", &format!("num{suffix}"), "41"]);
        let big = format!("big{suffix}");
        run(&mut s, &mut shared, &["SET", &big, "9223372036854775807"]);
    }

    // 1. Mutable tail: `in_place_updater` decides.
    assert_answers(&mut s, &mut shared, "", "mutable");

    // 2. Below ReadOnly: the record is immutable, so RMW copies to the tail
    //    and `need_copy_update` decides.
    let ro_target = ["word-ro", "num-ro", "big-ro"]
        .iter()
        .map(|k| address_of(&shared, k))
        .max()
        .unwrap();
    fill_until(
        &mut s,
        &mut shared,
        "ro",
        |sh| sh.store.log.read_only_address(),
        ro_target,
    );
    assert_answers(&mut s, &mut shared, "-ro", "immutable");

    // 3. Below Head: the record has been evicted, so RMW reads it back from
    //    the device and copy-updates from the disk image.
    let disk_target = ["word-disk", "num-disk", "big-disk"]
        .iter()
        .map(|k| address_of(&shared, k))
        .max()
        .unwrap();
    fill_until(
        &mut s,
        &mut shared,
        "disk",
        |sh| sh.store.log.head_address(),
        disk_target,
    );
    assert_answers(&mut s, &mut shared, "-disk", "on disk");
}

#[test]
fn every_reply_shape() {
    let mut sv = spawn_server(false, false);
    let mut cl = sv.connect();
    let mut c = |args: &[&str]| cl.cmd(&mut sv, args);
    assert_eq!(c(&["PING", "hey"]).as_str(), "hey");
    assert_eq!(c(&["echo", "hey"]).as_str(), "hey");
    assert_eq!(c(&["SELECT", "3"]), simple("OK"));
    assert_eq!(c(&["COMMAND"]), Reply::Array(Some(vec![])));
    assert_eq!(c(&["CONFIG", "GET", "x"]), Reply::Array(Some(vec![])));
    assert_eq!(c(&["CLIENT", "LIST"]), simple("OK"));
    assert_eq!(c(&["INFO"]).as_str(), "# Server\r\nmini_garnet:1\r\n");
    assert_eq!(c(&["RESET"]), simple("RESET"));
    assert_eq!(c(&["LASTSAVE"]), Reply::Int(0));
    assert_eq!(c(&["BGREWRITEAOF"]), simple("OK"));
    match c(&["HELLO", "2"]) {
        Reply::Array(Some(v)) => {
            let got: Vec<String> = v.iter().map(|r| r.as_str()).collect();
            assert_eq!(
                got,
                ["server", "mini-garnet", "version", "0.1.0", "proto", "2"]
            );
        }
        other => panic!("{other:?}"),
    }
    assert_eq!(
        c(&["SAVE"]).as_str(),
        "ERR checkpoint failed: server started without persistence"
    );
    assert_eq!(
        c(&["NOPE", "x"]).as_str(),
        "ERR unknown command 'NOPE' or wrong number of arguments"
    );
    assert_eq!(
        c(&["GET"]).as_str(),
        "ERR unknown command 'GET' or wrong number of arguments"
    );
    let raw = encode(&[b"\xffx"]);
    assert_eq!(
        cl.send(&mut sv, &raw),
        "-ERR unknown command '\u{fffd}x' or wrong number of arguments\r\n".as_bytes()
    );
}

#[test]
fn argument_errors() {
    let mut sv = spawn_server(false, false);
    let mut cl = sv.connect();
    let mut c = |args: &[&str]| cl.cmd(&mut sv, args).as_str();
    let not_int = "ERR value is not an integer or out of range";
    c(&["SET", "k", "v"]);
    assert_eq!(
        c(&["SET", "k"]),
        "ERR wrong number of arguments for 'set' command"
    );
    assert_eq!(c(&["SET", "k", "v", "NX", "XX"]), "ERR syntax error");
    assert_eq!(c(&["SET", "k", "v", "EX"]), "ERR syntax error");
    assert_eq!(c(&["SET", "k", "v", "EX", "abc"]), not_int);
    assert_eq!(c(&["SET", "k", "v", "WHAT"]), "ERR syntax error");
    assert_eq!(c(&["GETEX", "k", "WHAT"]), "ERR syntax error");
    assert_eq!(c(&["GETEX", "k", "EX", "x"]), not_int);
    assert_eq!(
        c(&["SETEX", "k", "0", "v"]),
        "ERR invalid expire time in 'setex' command"
    );
    assert_eq!(c(&["GETRANGE", "k", "a", "1"]), not_int);
    assert_eq!(c(&["INCRBY", "k", "a"]), not_int);
    assert_eq!(c(&["DECRBY", "k", "a"]), not_int);
    assert_eq!(c(&["EXPIRE", "k", "a"]), not_int);
    assert_eq!(c(&["SETRANGE", "k", "-1", "x"]), "ERR offset is out of range");
    assert_eq!(c(&["EXEC"]), "ERR EXEC without MULTI");
    assert_eq!(c(&["DISCARD"]), "ERR DISCARD without MULTI");
    c(&["MULTI"]);
    assert_eq!(c(&["MULTI"]), "ERR MULTI calls can not be nested");
    assert_eq!(c(&["WATCH", "k"]), "ERR WATCH inside MULTI is not allowed");
    assert_eq!(
        c(&["SUBSCRIBE", "x"]),
        "ERR command not allowed in transaction"
    );
    assert_eq!(
        c(&["EXEC"]),
        "EXECABORT Transaction discarded because of previous errors."
    );
    assert_eq!(c(&["EXEC"]), "ERR EXEC without MULTI");
}

#[test]
fn expiry_arguments() {
    let mut sv = spawn_server(false, false);
    let mut cl = sv.connect();
    let now = sv.now;
    let mut c = |args: &[&str]| cl.cmd(&mut sv, args);
    let at = (now + 7000).to_string();
    let at_s = ((now + 7000) / 1000).to_string();
    c(&["SET", "k", "v", "EX", "7"]);
    assert_eq!(c(&["PTTL", "k"]), Reply::Int(7000));
    c(&["SET", "k", "v", "PX", "7"]);
    assert_eq!(c(&["PTTL", "k"]), Reply::Int(7));
    c(&["SET", "k", "v", "PXAT", &at]);
    assert_eq!(c(&["PTTL", "k"]), Reply::Int(7000));
    c(&["SET", "k", "v", "EXAT", &at_s]);
    assert_eq!(c(&["PTTL", "k"]), Reply::Int(7000));
    // Plain SET drops the TTL, KEEPTTL keeps it.
    c(&["SET", "k", "w", "KEEPTTL"]);
    assert_eq!(c(&["PTTL", "k"]), Reply::Int(7000));
    c(&["SET", "k", "w"]);
    assert_eq!(c(&["PTTL", "k"]), Reply::Int(-1));
    c(&["SETEX", "k", "3", "x"]);
    assert_eq!(c(&["TTL", "k"]), Reply::Int(3));
    c(&["PSETEX", "k", "2500", "x"]);
    assert_eq!(c(&["TTL", "k"]), Reply::Int(3));
    assert_eq!(c(&["PEXPIRE", "k", "99"]), Reply::Int(1));
    assert_eq!(c(&["PTTL", "k"]), Reply::Int(99));
    assert_eq!(c(&["PEXPIREAT", "k", &at]), Reply::Int(1));
    assert_eq!(c(&["PTTL", "k"]), Reply::Int(7000));
    assert_eq!(c(&["EXPIREAT", "k", &at_s]), Reply::Int(1));
    assert_eq!(c(&["PTTL", "k"]), Reply::Int(7000));
    assert_eq!(c(&["PERSIST", "k"]), Reply::Int(1));
    assert_eq!(c(&["PERSIST", "k"]), Reply::Int(0));
    // A key that expires is gone.
    assert_eq!(c(&["PEXPIRE", "k", "0"]), Reply::Int(1));
    assert_eq!(c(&["GET", "k"]), Reply::Bulk(None));
    assert_eq!(c(&["GETSET", "k", "y"]), Reply::Bulk(None));
    assert_eq!(c(&["GETSET", "k", "z"]).as_str(), "y");
}

#[test]
fn flushall_forgets_every_key() {
    let mut sv = spawn_server(false, false);
    let mut cl = sv.connect();
    let mut c = |args: &[&str]| cl.cmd(&mut sv, args);
    c(&["MSET", "a", "1", "b", "2"]);
    assert_eq!(c(&["FLUSHALL"]), simple("OK"));
    assert_eq!(c(&["DBSIZE"]), Reply::Int(0));
    assert_eq!(c(&["GET", "a"]), Reply::Bulk(None));
    c(&["SET", "a", "3"]);
    assert_eq!(c(&["FLUSHDB"]), simple("OK"));
    assert_eq!(c(&["KEYS", "*"]), Reply::Array(Some(vec![])));
}

#[test]
fn glob_patterns() {
    let cases: [(&[u8], &[u8], bool); 14] = [
        (b"*", b"", true),
        (b"a*c", b"abbbc", true),
        (b"a*c", b"abbbd", false),
        (b"a?c", b"abc", true),
        (b"a?c", b"ac", false),
        (b"[a-c]x", b"bx", true),
        (b"[^a-c]x", b"bx", false),
        (b"[!a-c]x", b"dx", true),
        (b"\\*", b"*", true),
        (b"\\*", b"a", false),
        (b"[abc", b"a", false),
        (b"**b**", b"aabaa", true),
        (b"a*b*c", b"aXbYbZc", true),
        (b"", b"", true),
    ];
    for (p, s, want) in cases {
        assert_eq!(glob_match(p, s), want, "{p:?} {s:?}");
    }
}

#[test]
fn the_watch_table_counts_writes() {
    let mut t = WatchTable::new(100);
    let (slot, v) = t.slot_version(b"k");
    assert_eq!(v, 0);
    t.bump(b"k");
    assert_eq!(t.version_at(slot), 1);
    assert_eq!(t.slot_version(b"k"), (slot, 1));
}

#[test]
fn the_receive_buffer_grows_and_compacts() {
    let mut b = ReceiveBuffer::new();
    assert_eq!(b.room(), Ok(INITIAL_RECV));
    b.fill(&vec![7u8; INITIAL_RECV]);
    assert_eq!(b.room(), Ok(INITIAL_RECV));
    b.fill(b"tail");
    b.consume(INITIAL_RECV);
    assert_eq!(b.filled(), b"tail");
    assert_eq!(b.room(), Ok(2 * INITIAL_RECV - 4));
    let mut big = ReceiveBuffer::new();
    loop {
        match big.room() {
            Ok(n) => big.fill(&vec![0u8; n]),
            Err(e) => {
                assert_eq!(e, ConnectionError::CommandTooLarge);
                assert_eq!(e.message(), "command too large");
                break;
            }
        }
    }
    assert_eq!(big.filled().len(), MAX_RECV);
}

// -- operation log -----------------------------------------------------------

/// Write out what the log holds back, as the owner of the file would.
fn write_out(aof: &mut Aof, file: &mut Vec<u8>) {
    let (at, bytes) = aof.unwritten();
    assert_eq!(at, file.len() as u64);
    file.extend_from_slice(bytes);
    aof.flushed();
}

/// Do what comes next until nothing does. Returns what was done.
fn carry(aof: &mut Aof, file: &mut Vec<u8>, commit: bool) -> Vec<LogStep> {
    let mut done = Vec::new();
    loop {
        let step = aof.next_step(commit);
        match step {
            LogStep::Write => write_out(aof, file),
            LogStep::Sync => aof.synced(),
            LogStep::Rest => return done,
        }
        done.push(step);
    }
}

#[test]
fn append_and_replay() {
    let mut file = Vec::new();
    let mut aof = Aof::open(0, CommitMode::Always);
    aof.enqueue(
        AofOp::Command,
        100,
        b"*3\r\n$3\r\nSET\r\n$1\r\na\r\n$1\r\n1\r\n",
    );
    aof.enqueue(AofOp::Command, 200, b"*2\r\n$4\r\nINCR\r\n$1\r\na\r\n");
    write_out(&mut aof, &mut file);
    let got: Vec<AofEntry> = replay(&file);
    assert_eq!(got.len(), 2);
    assert_eq!(got[0].timestamp_ms, 100);
    assert_eq!(got[1].op, AofOp::Command);
    assert!(got[1].payload.windows(4).any(|w| w == b"INCR"));
}

#[test]
fn commit_wait_barrier() {
    let mut file = Vec::new();
    let mut aof = Aof::open(0, CommitMode::Interval(1000));
    let end = aof.enqueue(AofOp::Command, 1, b"*1\r\n$4\r\nPING\r\n");
    assert!(aof.committed_address() < end);
    assert!(!aof.is_committed(end));
    assert_eq!(
        carry(&mut aof, &mut file, true),
        vec![LogStep::Write, LogStep::Sync]
    );
    assert!(aof.committed_address() >= end);
    assert!(aof.is_committed(end));
}

#[test]
fn the_log_is_written_when_it_is_due() {
    let mut file = Vec::new();
    let mut aof = Aof::open(0, CommitMode::Never);
    aof.enqueue(AofOp::Command, 1, b"small");
    assert_eq!(carry(&mut aof, &mut file, false), vec![]);
    // One byte short of what is carried over unasked.
    aof.enqueue(AofOp::Command, 1, &vec![b'x'; 0x1_0000 - 21 - HEADER_LEN - 1]);
    assert_eq!(aof.next_step(false), LogStep::Rest);
    aof.truncate();
    aof.enqueue(AofOp::Command, 1, &vec![b'x'; 0x1_0000 - HEADER_LEN]);
    assert_eq!(carry(&mut aof, &mut file, false), vec![LogStep::Write]);
    assert_eq!(aof.tail_address(), 0x1_0000);
    assert_eq!(aof.committed_address(), 0);
    assert_eq!(carry(&mut aof, &mut file, true), vec![LogStep::Sync]);
    assert_eq!(aof.committed_address(), 0x1_0000);
    assert_eq!(carry(&mut aof, &mut file, true), vec![]);
    assert!(!aof.commits_appends(false));
    assert!(aof.commits_appends(true));

    let mut aof = Aof::open(0, CommitMode::Always);
    assert!(aof.commits_appends(false));
    aof.enqueue(AofOp::Command, 1, b"small");
    assert_eq!(aof.next_step(false), LogStep::Write);
}

#[test]
fn torn_tail_is_ignored() {
    let mut file = Vec::new();
    let mut aof = Aof::open(0, CommitMode::Always);
    aof.enqueue(AofOp::Command, 1, b"hello");
    write_out(&mut aof, &mut file);
    // Append garbage that looks like a header but claims more than exists.
    let mut hdr = [0u8; HEADER_LEN];
    hdr[0..4].copy_from_slice(&9999u32.to_le_bytes());
    hdr[4] = AOF_VERSION;
    hdr[5] = 1;
    file.extend_from_slice(&hdr);
    file.extend_from_slice(b"short");
    assert_eq!(replay(&file).len(), 1, "only the intact entry replays");
}

// -- recovery ----------------------------------------------------------------

#[derive(Clone)]
struct Disk(Rc<RefCell<Vec<u8>>>);

impl Disk {
    fn new() -> Disk {
        Disk(Rc::new(RefCell::new(Vec::new())))
    }
}

impl Device for Disk {
    fn write_at(&mut self, addr: u64, data: &[u8]) -> Result<(), DeviceError> {
        let mut d = self.0.borrow_mut();
        let end = addr as usize + data.len();
        if d.len() < end {
            d.resize(end, 0);
        }
        d[addr as usize..end].copy_from_slice(data);
        Ok(())
    }
    fn read_at(&self, addr: u64, buf: &mut [u8]) -> Result<(), DeviceError> {
        let d = self.0.borrow();
        let end = addr as usize + buf.len();
        if d.len() < end {
            return Err(DeviceError::UnexpectedEof);
        }
        buf.copy_from_slice(&d[addr as usize..end]);
        Ok(())
    }
    fn sync(&mut self) -> Result<(), DeviceError> {
        Ok(())
    }
}

type OnDisk = Shared<Disk, Disk>;

fn drive(s: &mut RespSession, shared: &mut OnDisk, parts: &[&str]) -> Reply {
    let bytes: Vec<&[u8]> = parts.iter().map(|p| p.as_bytes()).collect();
    parse_reply(&s.run(shared, 5000, &bytes))
}

#[test]
fn aof_recovers_state_after_restart() {
    let cfg = small_config(true, true);
    let mut file = Vec::new();
    // Instance 1: drive in-process, then drop everything (a clean shutdown).
    {
        let mut shared: OnDisk = Shared::new(&cfg, Disk::new(), Disk::new(), 0);
        shared.recover(None, b"").unwrap();
        let mut s = RespSession::new(&mut shared);
        drive(&mut s, &mut shared, &["SET", "a", "1"]);
        drive(&mut s, &mut shared, &["INCRBY", "a", "41"]);
        drive(&mut s, &mut shared, &["SET", "b", "hello"]);
        drive(&mut s, &mut shared, &["MULTI"]);
        drive(&mut s, &mut shared, &["SET", "c", "in-txn"]);
        drive(&mut s, &mut shared, &["INCR", "a"]);
        drive(&mut s, &mut shared, &["EXEC"]);
        drive(&mut s, &mut shared, &["DEL", "b"]);
        assert_eq!(drive(&mut s, &mut shared, &["GET", "a"]).as_str(), "43");
        write_out(shared.aof.as_mut().unwrap(), &mut file);
    }
    // Instance 2: recover from log replay (no checkpoint).
    let mut shared: OnDisk = Shared::new(&cfg, Disk::new(), Disk::new(), file.len() as u64);
    shared.recover(None, &file).unwrap();
    let mut s = RespSession::new(&mut shared);
    assert_eq!(
        drive(&mut s, &mut shared, &["GET", "a"]).as_str(),
        "43",
        "INCR replayed deterministically"
    );
    assert_eq!(
        drive(&mut s, &mut shared, &["GET", "c"]).as_str(),
        "in-txn",
        "txn replayed"
    );
    assert_eq!(
        drive(&mut s, &mut shared, &["EXISTS", "b"]),
        Reply::Int(0),
        "DEL replayed"
    );
    assert_eq!(
        shared.aof.as_ref().unwrap().tail_address(),
        file.len() as u64,
        "replay logs nothing"
    );
}

#[test]
fn checkpoint_then_recover() {
    let cfg = small_config(true, true);
    let (disk, meta) = (Disk::new(), Disk::new());
    let mut file = Vec::new();
    {
        let mut shared: OnDisk = Shared::new(&cfg, disk.clone(), meta.clone(), 0);
        shared.recover(None, b"").unwrap();
        let mut s = RespSession::new(&mut shared);
        for i in 0..1000 {
            let (k, v) = (format!("k{i}"), format!("v{i}"));
            drive(&mut s, &mut shared, &["SET", &k, &v]);
        }
        drive(&mut s, &mut shared, &["DEL", "k5"]);
        write_out(shared.aof.as_mut().unwrap(), &mut file);
        assert_eq!(drive(&mut s, &mut shared, &["SAVE"]), simple("OK"));
        assert_eq!(drive(&mut s, &mut shared, &["LASTSAVE"]), Reply::Int(5));
        assert!(shared.aof_truncated);
        file.clear();
        drive(&mut s, &mut shared, &["SET", "after", "1"]); // post-checkpoint write
        write_out(shared.aof.as_mut().unwrap(), &mut file);
    }
    let image = meta.0.borrow().clone();
    let mut shared: OnDisk = Shared::new(&cfg, disk, meta.clone(), file.len() as u64);
    shared.recover(Some(&image), &file).unwrap();
    let mut s = RespSession::new(&mut shared);
    assert_eq!(drive(&mut s, &mut shared, &["GET", "k0"]).as_str(), "v0");
    assert_eq!(drive(&mut s, &mut shared, &["GET", "k999"]).as_str(), "v999");
    assert_eq!(drive(&mut s, &mut shared, &["EXISTS", "k5"]), Reply::Int(0));
    assert_eq!(
        drive(&mut s, &mut shared, &["GET", "after"]).as_str(),
        "1",
        "post-checkpoint log replayed"
    );
    // Metadata that is not a checkpoint is refused.
    let mut other: OnDisk = Shared::new(&cfg, Disk::new(), Disk::new(), 0);
    assert_eq!(
        other.recover(Some(b"junk"), b""),
        Err(CheckpointError::Truncated)
    );
}

// -- laws on concrete values -------------------------------------------------

#[test]
fn a_key_that_is_named_twice() {
    let mut sv = spawn_server(false, false);
    let mut cl = sv.connect();
    let mut c = |args: &[&str]| cl.cmd(&mut sv, args);
    // The last value wins, and DEL counts a key once where EXISTS counts twice.
    assert_eq!(c(&["MSET", "a", "1", "b", "2", "a", "3"]), simple("OK"));
    assert_eq!(c(&["GET", "a"]).as_str(), "3");
    assert_eq!(c(&["EXISTS", "a", "a", "b", "x"]), Reply::Int(3));
    assert_eq!(c(&["DEL", "a", "a", "x"]), Reply::Int(1));
    assert_eq!(c(&["GET", "a"]), Reply::Bulk(None));
    assert_eq!(c(&["GET", "b"]).as_str(), "2");
}

#[test]
fn an_expired_key_starts_over() {
    let mut sv = spawn_server(false, false);
    let mut cl = sv.connect();
    for (key, update, want) in [
        ("n", vec!["INCRBY", "n", "5"], "5"),
        ("s", vec!["APPEND", "s", "xy"], "xy"),
        ("r", vec!["SETRANGE", "r", "2", "z"], "\0\0z"),
        ("x", vec!["SETNX", "x", "new"], "new"),
    ] {
        cl.cmd(&mut sv, &["SET", key, "100", "PX", "10"]);
        sv.now += 10;
        cl.cmd(&mut sv, &update);
        assert_eq!(cl.cmd(&mut sv, &["GET", key]).as_str(), want, "{key}");
        assert_eq!(cl.cmd(&mut sv, &["PTTL", key]), Reply::Int(-1), "{key}");
    }
}

#[test]
fn updates_come_out_the_same_in_every_region() {
    let mut sv = spawn_server(false, false);
    let mut cl = sv.connect();
    let mut c = |args: &[&str]| cl.cmd(&mut sv, args);
    for key in ["hot", "cold"] {
        c(&["SET", key, "abc", "PXAT", "4102444800000"]);
    }
    // Unrelated traffic drives the old records out of memory.
    for i in 0..20_000 {
        let k = format!("filler{i}");
        c(&["SET", &k, "0123456789abcdef0123456789abcdef"]);
    }
    // One of them is written again: it is back at the tail.
    c(&["SET", "hot", "abc", "KEEPTTL"]);
    for update in [
        vec!["APPEND", "KEY", "def"],
        vec!["SETRANGE", "KEY", "1", "XYZ"],
        vec!["GETEX", "KEY", "PXAT", "4102444800001"],
        vec!["PEXPIREAT", "KEY", "4102444800002"],
        vec!["SET", "KEY", "v", "NX"],
        vec!["GETDEL", "KEY"],
    ] {
        let at = |key: &'static str| -> Vec<&'static str> {
            update
                .iter()
                .map(|a| if *a == "KEY" { key } else { *a })
                .collect()
        };
        assert_eq!(c(&at("hot")), c(&at("cold")), "{update:?}");
        assert_eq!(c(&["GET", "hot"]), c(&["GET", "cold"]), "{update:?}");
        assert_eq!(c(&["PTTL", "hot"]), c(&["PTTL", "cold"]), "{update:?}");
    }
}

#[test]
fn a_refused_transaction_leaves_everything_alone() {
    let mut sv = spawn_server(false, true);
    let mut cl = sv.connect();
    let mut c = |args: &[&str]| cl.cmd(&mut sv, args);
    c(&["SET", "k", "1"]);
    c(&["MULTI"]);
    assert_eq!(c(&["SET", "k", "2"]), simple("QUEUED"));
    assert!(matches!(c(&["SUBSCRIBE", "x"]), Reply::Error(_)));
    assert!(matches!(c(&["EXEC"]), Reply::Error(_)));
    assert_eq!(c(&["GET", "k"]).as_str(), "1");
    // Only the first SET is in the operation log.
    let tail = sv.shared.aof.as_ref().unwrap().tail_address();
    assert_eq!(tail, 16 + encode(&[b"SET", b"k", b"1"]).len() as u64);
}

#[test]
fn a_transaction_is_bracketed_in_the_operation_log() {
    let mut sv = spawn_server(false, true);
    let mut cl = sv.connect();
    let mut c = |args: &[&str]| cl.cmd(&mut sv, args);
    c(&["MULTI"]);
    c(&["SET", "k", "2"]);
    c(&["GET", "k"]);
    assert_eq!(
        c(&["EXEC"]),
        Reply::Array(Some(vec![simple("OK"), Reply::Bulk(Some(b"2".to_vec()))]))
    );
    let mut file = Vec::new();
    write_out(sv.shared.aof.as_mut().unwrap(), &mut file);
    let ops: Vec<AofOp> = replay(&file).iter().map(|e| e.op).collect();
    assert_eq!(ops, [AofOp::TxnStart, AofOp::Command, AofOp::TxnCommit]);
}

#[test]
fn a_command_of_too_many_parts_is_not_answered() {
    let mut server = spawn_server(false, false);
    let mut session = RespSession::new(&mut server.shared);
    let part: &[u8] = b"PING";
    let most = vec![part; 1024 * 1024];
    assert_eq!(
        session.run(&mut server.shared, 1, &most),
        b"$4\r\nPING\r\n".to_vec()
    );
    let more = vec![part; 1024 * 1024 + 1];
    assert!(session.run(&mut server.shared, 1, &more).is_empty());
}

/// A store with small pages.
fn paged() -> (Mem, RespSession) {
    let cfg = Config {
        store: StoreSettings {
            index_buckets: 1 << 12,
            log: LogSettings {
                page_bits: 12,
                memory_pages: 8,
                mutable_fraction: Fraction { num: 1, den: 2 },
            },
        },
        ..small_config(false, false)
    };
    let mut shared: Mem = Shared::new(&cfg, MemDevice::new(), MemDevice::new(), 0);
    let s = RespSession::new(&mut shared);
    (shared, s)
}

fn run_at(s: &mut RespSession, shared: &mut Mem, now: i64, parts: &[&str]) -> Reply {
    let bytes: Vec<&[u8]> = parts.iter().map(|p| p.as_bytes()).collect();
    parse_reply(&s.run(shared, now, &bytes))
}

#[test]
fn an_expired_frozen_record_counts_as_missing() {
    let (mut shared, mut s) = paged();
    let keys = ["getex", "setnx", "setget", "getset", "nxget", "xxget", "persist"];
    for k in keys {
        run(&mut s, &mut shared, &["SET", k, "old", "PX", "1000"]);
    }
    let last = keys.iter().map(|k| address_of(&shared, k)).max().unwrap();
    fill_until(
        &mut s,
        &mut shared,
        "frozen",
        |sh| sh.store.log.read_only_address(),
        last,
    );
    let mut c = |args: &[&str]| run_at(&mut s, &mut shared, 3000, args);
    let nil = Reply::Bulk(None);
    assert_eq!(c(&["GETEX", "getex", "PX", "50000"]), nil);
    assert_eq!(c(&["EXISTS", "getex"]), Reply::Int(0), "GETEX makes no key");
    assert_eq!(c(&["SETNX", "setnx", "new"]), Reply::Int(1));
    assert_eq!(c(&["SET", "setget", "new", "GET"]), nil);
    assert_eq!(c(&["GETSET", "getset", "new"]), nil);
    assert_eq!(c(&["SET", "nxget", "new", "NX", "GET"]), nil);
    assert_eq!(c(&["SET", "xxget", "new", "XX", "GET"]), nil);
    assert_eq!(c(&["PERSIST", "persist"]), Reply::Int(0));
    for k in ["setnx", "setget", "getset", "nxget"] {
        assert_eq!(c(&["GET", k]).as_str(), "new", "{k}");
        assert_eq!(c(&["PTTL", k]), Reply::Int(-1), "{k}");
    }
    for k in ["xxget", "persist"] {
        assert_eq!(c(&["EXISTS", k]), Reply::Int(0), "{k}");
    }
}

#[test]
fn a_copied_record_takes_the_time_it_is_given() {
    let (mut shared, mut s) = paged();
    let keys = ["xx", "get", "getset", "keep", "plain"];
    for k in keys {
        run(&mut s, &mut shared, &["SET", k, "old", "PX", "90000"]);
    }
    run(&mut s, &mut shared, &["PERSIST", "plain"]);
    let last = keys.iter().map(|k| address_of(&shared, k)).max().unwrap();
    fill_until(
        &mut s,
        &mut shared,
        "time",
        |sh| sh.store.log.read_only_address(),
        last,
    );
    let mut c = |args: &[&str]| run(&mut s, &mut shared, args);
    assert_eq!(c(&["SET", "xx", "new", "XX"]), simple("OK"));
    assert_eq!(c(&["SET", "get", "new", "GET", "PX", "70000"]).as_str(), "old");
    assert_eq!(c(&["GETSET", "getset", "new"]).as_str(), "old");
    assert_eq!(c(&["SET", "keep", "new", "XX", "GET", "KEEPTTL"]).as_str(), "old");
    assert_eq!(c(&["PERSIST", "plain"]), Reply::Int(0), "there is no time to drop");
    assert_eq!(c(&["PTTL", "xx"]), Reply::Int(-1));
    assert_eq!(c(&["PTTL", "get"]), Reply::Int(70000));
    assert_eq!(c(&["PTTL", "getset"]), Reply::Int(-1));
    assert_eq!(c(&["PTTL", "keep"]), Reply::Int(90000));
}

#[test]
fn the_old_value_is_not_left_over_from_another_command() {
    let mut sv = spawn_server(false, false);
    let mut cl = sv.connect();
    let mut c = |args: &[&str]| cl.cmd(&mut sv, args);
    c(&["SET", "a", "1"]);
    assert_eq!(c(&["GETSET", "a", "2"]).as_str(), "1");
    assert_eq!(c(&["GETSET", "fresh", "3"]), Reply::Bulk(None));
    assert_eq!(c(&["SET", "other", "4", "GET"]), Reply::Bulk(None));
    assert_eq!(c(&["SET", "a", "5", "NX", "GET"]).as_str(), "2");
    assert_eq!(c(&["GET", "a"]).as_str(), "5", "with GET the value is always set");
}

#[test]
fn flushall_is_watched_and_logged() {
    let mut sv = spawn_server(false, false);
    let (mut one, mut two) = (sv.connect(), sv.connect());
    one.cmd(&mut sv, &["SET", "k", "1"]);
    one.cmd(&mut sv, &["WATCH", "k"]);
    one.cmd(&mut sv, &["MULTI"]);
    one.cmd(&mut sv, &["SET", "k", "2"]);
    two.cmd(&mut sv, &["FLUSHALL"]);
    assert_eq!(one.cmd(&mut sv, &["EXEC"]), Reply::Array(None));

    let cfg = small_config(true, true);
    let mut file = Vec::new();
    {
        let mut shared: OnDisk = Shared::new(&cfg, Disk::new(), Disk::new(), 0);
        shared.recover(None, b"").unwrap();
        let mut s = RespSession::new(&mut shared);
        drive(&mut s, &mut shared, &["SET", "gone", "1"]);
        drive(&mut s, &mut shared, &["FLUSHALL"]);
        drive(&mut s, &mut shared, &["SET", "kept", "2"]);
        write_out(shared.aof.as_mut().unwrap(), &mut file);
    }
    assert_eq!(replay(&file).len(), 3);
    let mut shared: OnDisk = Shared::new(&cfg, Disk::new(), Disk::new(), file.len() as u64);
    shared.recover(None, &file).unwrap();
    let mut s = RespSession::new(&mut shared);
    assert_eq!(drive(&mut s, &mut shared, &["EXISTS", "gone"]), Reply::Int(0));
    assert_eq!(drive(&mut s, &mut shared, &["GET", "kept"]).as_str(), "2");
}

#[test]
fn what_was_flushed_stays_away_after_a_restart() {
    let cfg = small_config(true, false);
    let (disk, meta) = (Disk::new(), Disk::new());
    {
        let mut shared: OnDisk = Shared::new(&cfg, disk.clone(), meta.clone(), 0);
        shared.recover(None, b"").unwrap();
        let mut s = RespSession::new(&mut shared);
        for i in 0..100 {
            drive(&mut s, &mut shared, &["SET", &format!("gone{i}"), "1"]);
        }
        drive(&mut s, &mut shared, &["FLUSHALL"]);
        drive(&mut s, &mut shared, &["SET", "kept", "2"]);
        drive(&mut s, &mut shared, &["SET", "gone7", "3"]);
        assert_eq!(drive(&mut s, &mut shared, &["SAVE"]), simple("OK"));
    }
    // Twice: what the first restart dropped is gone from the device too.
    for _ in 0..2 {
        let image = meta.0.borrow().clone();
        let mut shared: OnDisk = Shared::new(&cfg, disk.clone(), meta.clone(), 0);
        shared.recover(Some(&image), b"").unwrap();
        let mut s = RespSession::new(&mut shared);
        assert_eq!(drive(&mut s, &mut shared, &["DBSIZE"]), Reply::Int(2));
        assert_eq!(drive(&mut s, &mut shared, &["GET", "kept"]).as_str(), "2");
        assert_eq!(drive(&mut s, &mut shared, &["GET", "gone7"]).as_str(), "3");
        assert_eq!(drive(&mut s, &mut shared, &["EXISTS", "gone8"]), Reply::Int(0));
        assert_eq!(drive(&mut s, &mut shared, &["SAVE"]), simple("OK"));
    }
}

#[test]
fn a_value_outlasts_writes_to_other_keys() {
    let mut sv = spawn_server(false, false);
    let mut cl = sv.connect();
    let mut c = |args: &[&str]| cl.cmd(&mut sv, args);
    c(&["SET", "mine", "v"]);
    for i in 0..5_000 {
        let k = format!("other{i}");
        c(&["SET", &k, "0123456789abcdef"]);
        c(&["DEL", &k]);
    }
    assert_eq!(c(&["GET", "mine"]).as_str(), "v");
}

/// A device that takes nothing.
struct Broken;

impl Device for Broken {
    fn write_at(&mut self, _addr: u64, _data: &[u8]) -> Result<(), DeviceError> {
        Err(DeviceError::Failed(b"no space left".to_vec()))
    }
    fn read_at(&self, _addr: u64, _buf: &mut [u8]) -> Result<(), DeviceError> {
        Err(DeviceError::UnexpectedEof)
    }
    fn sync(&mut self) -> Result<(), DeviceError> {
        Ok(())
    }
}

#[test]
fn a_failed_save_says_what_the_device_said() {
    let mut shared = Shared::new(&small_config(true, false), Disk::new(), Broken, 0);
    let mut s = RespSession::new(&mut shared);
    let reply = s.run(&mut shared, 5000, &[b"SAVE".as_slice()]);
    assert_eq!(
        parse_reply(&reply),
        Reply::Error("ERR checkpoint failed: no space left".into())
    );
    let again = s.run(&mut shared, 5000, &[b"SAVE".as_slice()]);
    assert_eq!(
        parse_reply(&again),
        Reply::Error("ERR checkpoint failed: checkpoint already in progress".into())
    );
}

/// A device with a cache: what was not synced is lost in a crash.
#[derive(Clone)]
struct Cached {
    written: Disk,
    kept: Disk,
    syncs: bool,
}

impl Cached {
    fn new(syncs: bool) -> Cached {
        Cached {
            written: Disk::new(),
            kept: Disk::new(),
            syncs,
        }
    }
}

impl Device for Cached {
    fn write_at(&mut self, addr: u64, data: &[u8]) -> Result<(), DeviceError> {
        self.written.write_at(addr, data)
    }
    fn read_at(&self, addr: u64, buf: &mut [u8]) -> Result<(), DeviceError> {
        self.written.read_at(addr, buf)
    }
    fn sync(&mut self) -> Result<(), DeviceError> {
        if !self.syncs {
            return Err(DeviceError::failed("cannot sync"));
        }
        *self.kept.0.borrow_mut() = self.written.0.borrow().clone();
        Ok(())
    }
}

fn run_cached(s: &mut RespSession, shared: &mut Shared<Cached, Cached>, parts: &[&str]) -> Reply {
    let bytes: Vec<&[u8]> = parts.iter().map(|p| p.as_bytes()).collect();
    parse_reply(&s.run(shared, 5000, &bytes))
}

#[test]
fn what_was_saved_outlives_a_crash() {
    let cfg = small_config(true, false);
    let (log, meta) = (Cached::new(true), Cached::new(true));
    {
        let mut shared = Shared::new(&cfg, log.clone(), meta.clone(), 0);
        let mut s = RespSession::new(&mut shared);
        for i in 0..50 {
            run_cached(&mut s, &mut shared, &["SET", &format!("k{i}"), &format!("v{i}")]);
        }
        assert!(log.kept.0.borrow().is_empty() && meta.kept.0.borrow().is_empty());
        assert_eq!(run_cached(&mut s, &mut shared, &["SAVE"]), simple("OK"));
        run_cached(&mut s, &mut shared, &["SET", "k7", "later"]);
        run_cached(&mut s, &mut shared, &["SET", "more", "later"]);
    }
    let image = meta.kept.0.borrow().clone();
    assert_eq!(image, *meta.written.0.borrow());
    let mut shared: OnDisk = Shared::new(&cfg, log.kept, meta.kept, 0);
    shared.recover(Some(&image), b"").unwrap();
    let mut s = RespSession::new(&mut shared);
    for i in 0..50 {
        let k = format!("k{i}");
        assert_eq!(drive(&mut s, &mut shared, &["GET", &k]).as_str(), format!("v{i}"));
    }
    assert_eq!(drive(&mut s, &mut shared, &["DBSIZE"]), Reply::Int(50));
}

#[test]
fn a_save_that_cannot_sync_fails() {
    for (log, meta) in [(false, true), (true, false)] {
        let cfg = small_config(true, true);
        let mut shared = Shared::new(&cfg, Cached::new(log), Cached::new(meta), 0);
        let mut s = RespSession::new(&mut shared);
        run_cached(&mut s, &mut shared, &["SET", "k", "v"]);
        assert_eq!(
            run_cached(&mut s, &mut shared, &["SAVE"]),
            Reply::Error("ERR checkpoint failed: cannot sync".into())
        );
        assert_eq!(shared.last_save_ms(), 0);
        assert!(!shared.aof_truncated, "the operation log is kept");
        assert_eq!(
            run_cached(&mut s, &mut shared, &["SAVE"]),
            Reply::Error("ERR checkpoint failed: checkpoint already in progress".into())
        );
        assert_eq!(run_cached(&mut s, &mut shared, &["GET", "k"]).as_str(), "v");
    }
}
