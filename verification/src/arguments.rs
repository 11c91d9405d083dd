//! Reading commands: which one it is, its options, and the keys it touches.
use crate::bytes;
use crate::bytes::{bytes_eq, eq_ignore_case, to_upper, to_vec};
use crate::resp;
use crate::resp::{parse_i64, ArgSlice};
use crate::store::LockType;
use vstd::prelude::*;
use vstd::wrapping::i64_specs;

verus! {

/// Longest command name that is recognized; the rest of a name is ignored.
pub const MAX_CMD_NAME: usize = 24;

/// Arguments as specifications see them.
pub open spec fn arg_list(args: Seq<&[u8]>) -> Seq<Seq<u8>> {
    args.map_values(|a: &[u8]| a@)
}

/// A command name, as it is compared.
pub open spec fn name_of(arg: Seq<u8>) -> Seq<u8> {
    bytes::upper(
        arg.subrange(
            0,
            if arg.len() < MAX_CMD_NAME {
                arg.len() as int
            } else {
                MAX_CMD_NAME as int
            },
        ),
    )
}

/// Uppercase a command name. One spelling of the rule, shared by live
/// dispatch, EXEC and log replay.
pub fn command_name(arg: &[u8]) -> (r: Vec<u8>)
    ensures
        r@ == name_of(arg@),
{
    let n: usize = if arg.len() < MAX_CMD_NAME {
        arg.len()
    } else {
        MAX_CMD_NAME
    };
    let mut name: Vec<u8> = Vec::new();
    while name.len() < n
        invariant
            name@.len() <= n <= arg@.len(),
            forall|i: int| 0 <= i < name@.len() ==> name@[i] == bytes::upper_byte(#[trigger] arg@[i]),
        decreases n - name@.len(),
    {
        let b: u8 = to_upper(arg[name.len()]);
        name.push(b);
    }
    assert(name@ =~= name_of(arg@));
    name
}

/// A command goes by the first bytes of its name, without regard to the case of
/// letters.
pub proof fn names_are_read_without_case(arg: Seq<u8>)
    ensures
        name_of(arg).len() == (if arg.len() < 24 {
            arg.len()
        } else {
            24
        }),
        forall|i: int|
            0 <= i < name_of(arg).len() ==> #[trigger] name_of(arg)[i] == (if 97 <= arg[i] <= 122 {
                arg[i] - 32
            } else {
                arg[i] as int
            }),
{
}

// ---------------------------------------------------------------------------
// Which command it is
// ---------------------------------------------------------------------------

#[derive(Clone, Copy, Debug, PartialEq, Eq, Structural)]
pub enum Kind {
    Ping,
    Echo,
    Quit,
    Select,
    Hello,
    Command,
    Config,
    Client,
    Info,
    Reset,
    DbSize,
    Flush,
    Get,
    SetKey,
    SetNx,
    SetEx,
    PSetEx,
    GetSet,
    GetDel,
    GetEx,
    Append,
    StrLen,
    GetRange,
    SetRange,
    Incr,
    Decr,
    IncrBy,
    DecrBy,
    MSet,
    MGet,
    Del,
    Exists,
    Expire,
    PExpire,
    ExpireAt,
    PExpireAt,
    Ttl,
    PTtl,
    Persist,
    Type,
    Keys,
    Scan,
    Multi,
    Exec,
    Discard,
    Watch,
    Unwatch,
    Save,
    Rewrite,
    LastSave,
    Unknown,
}

/// Whether a name is one of two spellings.
pub open spec fn either(cmd: Seq<u8>, a: &str, b: &str) -> bool {
    cmd == bytes::text(a) || cmd == bytes::text(b)
}

/// The command with this name and number of arguments (the name included).
pub open spec fn kind_of(cmd: Seq<u8>, n: int) -> Kind {
    if cmd == bytes::text("PING") {
        Kind::Ping
    } else if cmd == bytes::text("ECHO") && n == 2 {
        Kind::Echo
    } else if cmd == bytes::text("QUIT") {
        Kind::Quit
    } else if cmd == bytes::text("SELECT") {
        Kind::Select
    } else if cmd == bytes::text("HELLO") {
        Kind::Hello
    } else if cmd == bytes::text("COMMAND") {
        Kind::Command
    } else if cmd == bytes::text("CONFIG") {
        Kind::Config
    } else if cmd == bytes::text("CLIENT") {
        Kind::Client
    } else if cmd == bytes::text("INFO") {
        Kind::Info
    } else if cmd == bytes::text("RESET") {
        Kind::Reset
    } else if cmd == bytes::text("DBSIZE") {
        Kind::DbSize
    } else if either(cmd, "FLUSHDB", "FLUSHALL") {
        Kind::Flush
    } else {
        string_kind_of(cmd, n)
    }
}

pub open spec fn string_kind_of(cmd: Seq<u8>, n: int) -> Kind {
    if cmd == bytes::text("GET") && n == 2 {
        Kind::Get
    } else if cmd == bytes::text("SET") {
        Kind::SetKey
    } else if cmd == bytes::text("SETNX") && n == 3 {
        Kind::SetNx
    } else if cmd == bytes::text("SETEX") && n == 4 {
        Kind::SetEx
    } else if cmd == bytes::text("PSETEX") && n == 4 {
        Kind::PSetEx
    } else if cmd == bytes::text("GETSET") && n == 3 {
        Kind::GetSet
    } else if cmd == bytes::text("GETDEL") && n == 2 {
        Kind::GetDel
    } else if cmd == bytes::text("GETEX") && n >= 2 {
        Kind::GetEx
    } else if cmd == bytes::text("APPEND") && n == 3 {
        Kind::Append
    } else if cmd == bytes::text("STRLEN") && n == 2 {
        Kind::StrLen
    } else if either(cmd, "GETRANGE", "SUBSTR") && n == 4 {
        Kind::GetRange
    } else if cmd == bytes::text("SETRANGE") && n == 4 {
        Kind::SetRange
    } else if cmd == bytes::text("INCR") && n == 2 {
        Kind::Incr
    } else if cmd == bytes::text("DECR") && n == 2 {
        Kind::Decr
    } else if cmd == bytes::text("INCRBY") && n == 3 {
        Kind::IncrBy
    } else if cmd == bytes::text("DECRBY") && n == 3 {
        Kind::DecrBy
    } else if cmd == bytes::text("MSET") && n >= 3 && n % 2 == 1 {
        Kind::MSet
    } else if cmd == bytes::text("MGET") && n >= 2 {
        Kind::MGet
    } else {
        generic_kind_of(cmd, n)
    }
}

pub open spec fn generic_kind_of(cmd: Seq<u8>, n: int) -> Kind {
    if either(cmd, "DEL", "UNLINK") && n >= 2 {
        Kind::Del
    } else if cmd == bytes::text("EXISTS") && n >= 2 {
        Kind::Exists
    } else if cmd == bytes::text("EXPIRE") && n == 3 {
        Kind::Expire
    } else if cmd == bytes::text("PEXPIRE") && n == 3 {
        Kind::PExpire
    } else if cmd == bytes::text("EXPIREAT") && n == 3 {
        Kind::ExpireAt
    } else if cmd == bytes::text("PEXPIREAT") && n == 3 {
        Kind::PExpireAt
    } else if cmd == bytes::text("TTL") && n == 2 {
        Kind::Ttl
    } else if cmd == bytes::text("PTTL") && n == 2 {
        Kind::PTtl
    } else if cmd == bytes::text("PERSIST") && n == 2 {
        Kind::Persist
    } else if cmd == bytes::text("TYPE") && n == 2 {
        Kind::Type
    } else if cmd == bytes::text("KEYS") && n == 2 {
        Kind::Keys
    } else if cmd == bytes::text("SCAN") && n >= 2 {
        Kind::Scan
    } else if cmd == bytes::text("MULTI") {
        Kind::Multi
    } else if cmd == bytes::text("EXEC") {
        Kind::Exec
    } else if cmd == bytes::text("DISCARD") {
        Kind::Discard
    } else if cmd == bytes::text("WATCH") && n >= 2 {
        Kind::Watch
    } else if cmd == bytes::text("UNWATCH") {
        Kind::Unwatch
    } else if either(cmd, "SAVE", "BGSAVE") {
        Kind::Save
    } else if cmd == bytes::text("BGREWRITEAOF") {
        Kind::Rewrite
    } else if cmd == bytes::text("LASTSAVE") {
        Kind::LastSave
    } else {
        Kind::Unknown
    }
}

fn is(cmd: &[u8], name: &str) -> (r: bool)
    ensures
        r == (cmd@ == bytes::text(name)),
{
    bytes_eq(cmd, bytes::raw(name))
}

/// Look a command up by its upper-case name and the number of its arguments
/// (the name included).
pub fn command_kind(cmd: &[u8], n: usize) -> (r: Kind)
    ensures
        r == kind_of(cmd@, n as int),
{
    if is(cmd, "PING") {
        Kind::Ping
    } else if is(cmd, "ECHO") && n == 2 {
        Kind::Echo
    } else if is(cmd, "QUIT") {
        Kind::Quit
    } else if is(cmd, "SELECT") {
        Kind::Select
    } else if is(cmd, "HELLO") {
        Kind::Hello
    } else if is(cmd, "COMMAND") {
        Kind::Command
    } else if is(cmd, "CONFIG") {
        Kind::Config
    } else if is(cmd, "CLIENT") {
        Kind::Client
    } else if is(cmd, "INFO") {
        Kind::Info
    } else if is(cmd, "RESET") {
        Kind::Reset
    } else if is(cmd, "DBSIZE") {
        Kind::DbSize
    } else if is(cmd, "FLUSHDB") || is(cmd, "FLUSHALL") {
        Kind::Flush
    } else {
        string_kind(cmd, n)
    }
}

fn string_kind(cmd: &[u8], n: usize) -> (r: Kind)
    ensures
        r == string_kind_of(cmd@, n as int),
{
    if is(cmd, "GET") && n == 2 {
        Kind::Get
    } else if is(cmd, "SET") {
        Kind::SetKey
    } else if is(cmd, "SETNX") && n == 3 {
        Kind::SetNx
    } else if is(cmd, "SETEX") && n == 4 {
        Kind::SetEx
    } else if is(cmd, "PSETEX") && n == 4 {
        Kind::PSetEx
    } else if is(cmd, "GETSET") && n == 3 {
        Kind::GetSet
    } else if is(cmd, "GETDEL") && n == 2 {
        Kind::GetDel
    } else if is(cmd, "GETEX") && n >= 2 {
        Kind::GetEx
    } else if is(cmd, "APPEND") && n == 3 {
        Kind::Append
    } else if is(cmd, "STRLEN") && n == 2 {
        Kind::StrLen
    } else if (is(cmd, "GETRANGE") || is(cmd, "SUBSTR")) && n == 4 {
        Kind::GetRange
    } else if is(cmd, "SETRANGE") && n == 4 {
        Kind::SetRange
    } else if is(cmd, "INCR") && n == 2 {
        Kind::Incr
    } else if is(cmd, "DECR") && n == 2 {
        Kind::Decr
    } else if is(cmd, "INCRBY") && n == 3 {
        Kind::IncrBy
    } else if is(cmd, "DECRBY") && n == 3 {
        Kind::DecrBy
    } else if is(cmd, "MSET") && n >= 3 && n % 2 == 1 {
        Kind::MSet
    } else if is(cmd, "MGET") && n >= 2 {
        Kind::MGet
    } else {
        generic_kind(cmd, n)
    }
}

fn generic_kind(cmd: &[u8], n: usize) -> (r: Kind)
    ensures
        r == generic_kind_of(cmd@, n as int),
{
    if (is(cmd, "DEL") || is(cmd, "UNLINK")) && n >= 2 {
        Kind::Del
    } else if is(cmd, "EXISTS") && n >= 2 {
        Kind::Exists
    } else if is(cmd, "EXPIRE") && n == 3 {
        Kind::Expire
    } else if is(cmd, "PEXPIRE") && n == 3 {
        Kind::PExpire
    } else if is(cmd, "EXPIREAT") && n == 3 {
        Kind::ExpireAt
    } else if is(cmd, "PEXPIREAT") && n == 3 {
        Kind::PExpireAt
    } else if is(cmd, "TTL") && n == 2 {
        Kind::Ttl
    } else if is(cmd, "PTTL") && n == 2 {
        Kind::PTtl
    } else if is(cmd, "PERSIST") && n == 2 {
        Kind::Persist
    } else if is(cmd, "TYPE") && n == 2 {
        Kind::Type
    } else if is(cmd, "KEYS") && n == 2 {
        Kind::Keys
    } else if is(cmd, "SCAN") && n >= 2 {
        Kind::Scan
    } else if is(cmd, "MULTI") {
        Kind::Multi
    } else if is(cmd, "EXEC") {
        Kind::Exec
    } else if is(cmd, "DISCARD") {
        Kind::Discard
    } else if is(cmd, "WATCH") && n >= 2 {
        Kind::Watch
    } else if is(cmd, "UNWATCH") {
        Kind::Unwatch
    } else if is(cmd, "SAVE") || is(cmd, "BGSAVE") {
        Kind::Save
    } else if is(cmd, "BGREWRITEAOF") {
        Kind::Rewrite
    } else if is(cmd, "LASTSAVE") {
        Kind::LastSave
    } else {
        Kind::Unknown
    }
}

/// How many arguments (the name included) each command has.
pub open spec fn takes(kind: Kind, n: int) -> bool {
    match kind {
        Kind::Echo | Kind::Get | Kind::GetDel | Kind::StrLen | Kind::Incr | Kind::Decr | Kind::Ttl
        | Kind::PTtl | Kind::Persist | Kind::Type | Kind::Keys => n == 2,
        Kind::SetNx | Kind::GetSet | Kind::Append | Kind::IncrBy | Kind::DecrBy | Kind::Expire
        | Kind::PExpire | Kind::ExpireAt | Kind::PExpireAt => n == 3,
        Kind::SetEx | Kind::PSetEx | Kind::GetRange | Kind::SetRange => n == 4,
        Kind::MSet => n >= 3 && n % 2 == 1,
        Kind::GetEx | Kind::MGet | Kind::Del | Kind::Exists | Kind::Scan | Kind::Watch => n >= 2,
        _ => true,
    }
}

/// A command that is recognized has the arguments it takes.
pub proof fn recognized_commands_have_their_arguments(cmd: Seq<u8>, n: int)
    ensures
        takes(kind_of(cmd, n), n),
{
}

/// The bytes of a text in ASCII are its characters.
pub proof fn lemma_ascii(s: &str)
    requires
        vstd::utf8::is_ascii_chars(s@),
    ensures
        bytes::text(s).len() == s@.len(),
        forall|i: int| 0 <= i < s@.len() ==> #[trigger] bytes::text(s)[i] == s@[i] as u8,
{
    reveal(bytes::text);
    vstd::utf8::is_ascii_chars_encode_utf8(s@);
}

/// A number that tells the names of commands apart.
#[verifier::opaque]
spec fn number_of(name: Seq<u8>) -> int {
    ((name.len() * 256 + name[0]) * 256 + name[name.len() - 3]) * 256 + name[name.len() - 2]
}

proof fn lemma_spelt_ping()
    ensures
        number_of(bytes::text("PING")) == 72370510,
        number_of(bytes::text("ECHO")) == 71648072,
        number_of(bytes::text("QUIT")) == 72439113,
{
    reveal(number_of);
    reveal_strlit("PING");
    lemma_ascii("PING");
    reveal_strlit("ECHO");
    lemma_ascii("ECHO");
    reveal_strlit("QUIT");
    lemma_ascii("QUIT");
}

proof fn lemma_spelt_select()
    ensures
        number_of(bytes::text("SELECT")) == 106120515,
        number_of(bytes::text("HELLO")) == 88624204,
        number_of(bytes::text("COMMAND")) == 121848142,
{
    reveal(number_of);
    reveal_strlit("SELECT");
    lemma_ascii("SELECT");
    reveal_strlit("HELLO");
    lemma_ascii("HELLO");
    reveal_strlit("COMMAND");
    lemma_ascii("COMMAND");
}

proof fn lemma_spelt_config()
    ensures
        number_of(bytes::text("CONFIG")) == 105072201,
        number_of(bytes::text("CLIENT")) == 105071950,
        number_of(bytes::text("INFO")) == 71913030,
{
    reveal(number_of);
    reveal_strlit("CONFIG");
    lemma_ascii("CONFIG");
    reveal_strlit("CLIENT");
    lemma_ascii("CLIENT");
    reveal_strlit("INFO");
    lemma_ascii("INFO");
}

proof fn lemma_spelt_reset()
    ensures
        number_of(bytes::text("RESET")) == 89281349,
        number_of(bytes::text("DBSIZE")) == 105138522,
        number_of(bytes::text("FLUSHDB")) == 122046532,
{
    reveal(number_of);
    reveal_strlit("RESET");
    lemma_ascii("RESET");
    reveal_strlit("DBSIZE");
    lemma_ascii("DBSIZE");
    reveal_strlit("FLUSHDB");
    lemma_ascii("FLUSHDB");
}

proof fn lemma_spelt_flushall()
    ensures
        number_of(bytes::text("FLUSHALL")) == 138821964,
        number_of(bytes::text("GET")) == 55002949,
        number_of(bytes::text("SET")) == 55792453,
{
    reveal(number_of);
    reveal_strlit("FLUSHALL");
    lemma_ascii("FLUSHALL");
    reveal_strlit("GET");
    lemma_ascii("GET");
    reveal_strlit("SET");
    lemma_ascii("SET");
}

proof fn lemma_spelt_setnx()
    ensures
        number_of(bytes::text("SETNX")) == 89347150,
        number_of(bytes::text("SETEX")) == 89347141,
        number_of(bytes::text("PSETEX")) == 105927749,
{
    reveal(number_of);
    reveal_strlit("SETNX");
    lemma_ascii("SETNX");
    reveal_strlit("SETEX");
    lemma_ascii("SETEX");
    reveal_strlit("PSETEX");
    lemma_ascii("PSETEX");
}

proof fn lemma_spelt_getset()
    ensures
        number_of(bytes::text("GETSET")) == 105337669,
        number_of(bytes::text("GETDEL")) == 105333829,
        number_of(bytes::text("GETEX")) == 88560709,
{
    reveal(number_of);
    reveal_strlit("GETSET");
    lemma_ascii("GETSET");
    reveal_strlit("GETDEL");
    lemma_ascii("GETDEL");
    reveal_strlit("GETEX");
    lemma_ascii("GETEX");
}

proof fn lemma_spelt_append()
    ensures
        number_of(bytes::text("APPEND")) == 104940878,
        number_of(bytes::text("STRLEN")) == 106122309,
        number_of(bytes::text("GETRANGE")) == 138890823,
{
    reveal(number_of);
    reveal_strlit("APPEND");
    lemma_ascii("APPEND");
    reveal_strlit("STRLEN");
    lemma_ascii("STRLEN");
    reveal_strlit("GETRANGE");
    lemma_ascii("GETRANGE");
}

proof fn lemma_spelt_substr()
    ensures
        number_of(bytes::text("SUBSTR")) == 106124116,
        number_of(bytes::text("SETRANGE")) == 139677255,
        number_of(bytes::text("INCR")) == 71913027,
{
    reveal(number_of);
    reveal_strlit("SUBSTR");
    lemma_ascii("SUBSTR");
    reveal_strlit("SETRANGE");
    lemma_ascii("SETRANGE");
    reveal_strlit("INCR");
    lemma_ascii("INCR");
}

proof fn lemma_spelt_decr()
    ensures
        number_of(bytes::text("DECR")) == 71583043,
        number_of(bytes::text("INCRBY")) == 105468482,
        number_of(bytes::text("DECRBY")) == 105140802,
{
    reveal(number_of);
    reveal_strlit("DECR");
    lemma_ascii("DECR");
    reveal_strlit("INCRBY");
    lemma_ascii("INCRBY");
    reveal_strlit("DECRBY");
    lemma_ascii("DECRBY");
}

proof fn lemma_spelt_mset()
    ensures
        number_of(bytes::text("MSET")) == 72176453,
        number_of(bytes::text("MGET")) == 72173381,
        number_of(bytes::text("DEL")) == 54805573,
{
    reveal(number_of);
    reveal_strlit("MSET");
    lemma_ascii("MSET");
    reveal_strlit("MGET");
    lemma_ascii("MGET");
    reveal_strlit("DEL");
    lemma_ascii("DEL");
}

proof fn lemma_spelt_unlink()
    ensures
        number_of(bytes::text("UNLINK")) == 106252622,
        number_of(bytes::text("EXISTS")) == 105206612,
        number_of(bytes::text("EXPIRE")) == 105204050,
{
    reveal(number_of);
    reveal_strlit("UNLINK");
    lemma_ascii("UNLINK");
    reveal_strlit("EXISTS");
    lemma_ascii("EXISTS");
    reveal_strlit("EXPIRE");
    lemma_ascii("EXPIRE");
}

proof fn lemma_spelt_pexpire()
    ensures
        number_of(bytes::text("PEXPIRE")) == 122702162,
        number_of(bytes::text("EXPIREAT")) == 138757441,
        number_of(bytes::text("PEXPIREAT")) == 156255553,
{
    reveal(number_of);
    reveal_strlit("PEXPIRE");
    lemma_ascii("PEXPIRE");
    reveal_strlit("EXPIREAT");
    lemma_ascii("EXPIREAT");
    reveal_strlit("PEXPIREAT");
    lemma_ascii("PEXPIREAT");
}

proof fn lemma_spelt_ttl()
    ensures
        number_of(bytes::text("TTL")) == 55858260,
        number_of(bytes::text("PTTL")) == 72373332,
        number_of(bytes::text("PERSIST")) == 122702163,
{
    reveal(number_of);
    reveal_strlit("TTL");
    lemma_ascii("TTL");
    reveal_strlit("PTTL");
    lemma_ascii("PTTL");
    reveal_strlit("PERSIST");
    lemma_ascii("PERSIST");
}

proof fn lemma_spelt_type()
    ensures
        number_of(bytes::text("TYPE")) == 72636752,
        number_of(bytes::text("KEYS")) == 72041817,
        number_of(bytes::text("SCAN")) == 72565569,
{
    reveal(number_of);
    reveal_strlit("TYPE");
    lemma_ascii("TYPE");
    reveal_strlit("KEYS");
    lemma_ascii("KEYS");
    reveal_strlit("SCAN");
    lemma_ascii("SCAN");
}

proof fn lemma_spelt_multi()
    ensures
        number_of(bytes::text("MULTI")) == 88951892,
        number_of(bytes::text("EXEC")) == 71653445,
        number_of(bytes::text("DISCARD")) == 121913682,
{
    reveal(number_of);
    reveal_strlit("MULTI");
    lemma_ascii("MULTI");
    reveal_strlit("EXEC");
    lemma_ascii("EXEC");
    reveal_strlit("DISCARD");
    lemma_ascii("DISCARD");
}

proof fn lemma_spelt_watch()
    ensures
        number_of(bytes::text("WATCH")) == 89609283,
        number_of(bytes::text("UNWATCH")) == 123032643,
        number_of(bytes::text("SAVE")) == 72565078,
{
    reveal(number_of);
    reveal_strlit("WATCH");
    lemma_ascii("WATCH");
    reveal_strlit("UNWATCH");
    lemma_ascii("UNWATCH");
    reveal_strlit("SAVE");
    lemma_ascii("SAVE");
}

proof fn lemma_spelt_bgsave()
    ensures
        number_of(bytes::text("BGSAVE")) == 105005398,
        number_of(bytes::text("BGREWRITEAOF")) == 205668687,
        number_of(bytes::text("LASTSAVE")) == 139215190,
{
    reveal(number_of);
    reveal_strlit("BGSAVE");
    lemma_ascii("BGSAVE");
    reveal_strlit("BGREWRITEAOF");
    lemma_ascii("BGREWRITEAOF");
    reveal_strlit("LASTSAVE");
    lemma_ascii("LASTSAVE");
}

/// A command is what its name says, if it has the number of arguments that it
/// takes; without them it is unknown.
#[verifier::spinoff_prover]
#[verifier::rlimit(40)]
pub proof fn commands_go_by_their_names(n: int)
    ensures
        kind_of(bytes::text("PING"), n) == Kind::Ping,
        kind_of(bytes::text("ECHO"), n) == (if n == 2 {
            Kind::Echo
        } else {
            Kind::Unknown
        }),
        kind_of(bytes::text("QUIT"), n) == Kind::Quit,
        kind_of(bytes::text("SELECT"), n) == Kind::Select,
        kind_of(bytes::text("HELLO"), n) == Kind::Hello,
        kind_of(bytes::text("COMMAND"), n) == Kind::Command,
        kind_of(bytes::text("CONFIG"), n) == Kind::Config,
        kind_of(bytes::text("CLIENT"), n) == Kind::Client,
        kind_of(bytes::text("INFO"), n) == Kind::Info,
        kind_of(bytes::text("RESET"), n) == Kind::Reset,
        kind_of(bytes::text("DBSIZE"), n) == Kind::DbSize,
        kind_of(bytes::text("FLUSHDB"), n) == Kind::Flush,
        kind_of(bytes::text("FLUSHALL"), n) == Kind::Flush,
        kind_of(bytes::text("GET"), n) == (if n == 2 {
            Kind::Get
        } else {
            Kind::Unknown
        }),
        kind_of(bytes::text("SET"), n) == Kind::SetKey,
        kind_of(bytes::text("SETNX"), n) == (if n == 3 {
            Kind::SetNx
        } else {
            Kind::Unknown
        }),
        kind_of(bytes::text("SETEX"), n) == (if n == 4 {
            Kind::SetEx
        } else {
            Kind::Unknown
        }),
        kind_of(bytes::text("PSETEX"), n) == (if n == 4 {
            Kind::PSetEx
        } else {
            Kind::Unknown
        }),
        kind_of(bytes::text("GETSET"), n) == (if n == 3 {
            Kind::GetSet
        } else {
            Kind::Unknown
        }),
        kind_of(bytes::text("GETDEL"), n) == (if n == 2 {
            Kind::GetDel
        } else {
            Kind::Unknown
        }),
        kind_of(bytes::text("GETEX"), n) == (if n >= 2 {
            Kind::GetEx
        } else {
            Kind::Unknown
        }),
        kind_of(bytes::text("APPEND"), n) == (if n == 3 {
            Kind::Append
        } else {
            Kind::Unknown
        }),
        kind_of(bytes::text("STRLEN"), n) == (if n == 2 {
            Kind::StrLen
        } else {
            Kind::Unknown
        }),
        kind_of(bytes::text("GETRANGE"), n) == (if n == 4 {
            Kind::GetRange
        } else {
            Kind::Unknown
        }),
        kind_of(bytes::text("SUBSTR"), n) == (if n == 4 {
            Kind::GetRange
        } else {
            Kind::Unknown
        }),
        kind_of(bytes::text("SETRANGE"), n) == (if n == 4 {
            Kind::SetRange
        } else {
            Kind::Unknown
        }),
        kind_of(bytes::text("INCR"), n) == (if n == 2 {
            Kind::Incr
        } else {
            Kind::Unknown
        }),
        kind_of(bytes::text("DECR"), n) == (if n == 2 {
            Kind::Decr
        } else {
            Kind::Unknown
        }),
        kind_of(bytes::text("INCRBY"), n) == (if n == 3 {
            Kind::IncrBy
        } else {
            Kind::Unknown
        }),
        kind_of(bytes::text("DECRBY"), n) == (if n == 3 {
            Kind::DecrBy
        } else {
            Kind::Unknown
        }),
        kind_of(bytes::text("MSET"), n) == (if n >= 3 && n % 2 == 1 {
            Kind::MSet
        } else {
            Kind::Unknown
        }),
        kind_of(bytes::text("MGET"), n) == (if n >= 2 {
            Kind::MGet
        } else {
            Kind::Unknown
        }),
        kind_of(bytes::text("DEL"), n) == (if n >= 2 {
            Kind::Del
        } else {
            Kind::Unknown
        }),
        kind_of(bytes::text("UNLINK"), n) == (if n >= 2 {
            Kind::Del
        } else {
            Kind::Unknown
        }),
        kind_of(bytes::text("EXISTS"), n) == (if n >= 2 {
            Kind::Exists
        } else {
            Kind::Unknown
        }),
        kind_of(bytes::text("EXPIRE"), n) == (if n == 3 {
            Kind::Expire
        } else {
            Kind::Unknown
        }),
        kind_of(bytes::text("PEXPIRE"), n) == (if n == 3 {
            Kind::PExpire
        } else {
            Kind::Unknown
        }),
        kind_of(bytes::text("EXPIREAT"), n) == (if n == 3 {
            Kind::ExpireAt
        } else {
            Kind::Unknown
        }),
        kind_of(bytes::text("PEXPIREAT"), n) == (if n == 3 {
            Kind::PExpireAt
        } else {
            Kind::Unknown
        }),
        kind_of(bytes::text("TTL"), n) == (if n == 2 {
            Kind::Ttl
        } else {
            Kind::Unknown
        }),
        kind_of(bytes::text("PTTL"), n) == (if n == 2 {
            Kind::PTtl
        } else {
            Kind::Unknown
        }),
        kind_of(bytes::text("PERSIST"), n) == (if n == 2 {
            Kind::Persist
        } else {
            Kind::Unknown
        }),
        kind_of(bytes::text("TYPE"), n) == (if n == 2 {
            Kind::Type
        } else {
            Kind::Unknown
        }),
        kind_of(bytes::text("KEYS"), n) == (if n == 2 {
            Kind::Keys
        } else {
            Kind::Unknown
        }),
        kind_of(bytes::text("SCAN"), n) == (if n >= 2 {
            Kind::Scan
        } else {
            Kind::Unknown
        }),
        kind_of(bytes::text("MULTI"), n) == Kind::Multi,
        kind_of(bytes::text("EXEC"), n) == Kind::Exec,
        kind_of(bytes::text("DISCARD"), n) == Kind::Discard,
        kind_of(bytes::text("WATCH"), n) == (if n >= 2 {
            Kind::Watch
        } else {
            Kind::Unknown
        }),
        kind_of(bytes::text("UNWATCH"), n) == Kind::Unwatch,
        kind_of(bytes::text("SAVE"), n) == Kind::Save,
        kind_of(bytes::text("BGSAVE"), n) == Kind::Save,
        kind_of(bytes::text("BGREWRITEAOF"), n) == Kind::Rewrite,
        kind_of(bytes::text("LASTSAVE"), n) == Kind::LastSave,
{
    lemma_spelt_ping();
    lemma_spelt_select();
    lemma_spelt_config();
    lemma_spelt_reset();
    lemma_spelt_flushall();
    lemma_spelt_setnx();
    lemma_spelt_getset();
    lemma_spelt_append();
    lemma_spelt_substr();
    lemma_spelt_decr();
    lemma_spelt_mset();
    lemma_spelt_unlink();
    lemma_spelt_pexpire();
    lemma_spelt_ttl();
    lemma_spelt_type();
    lemma_spelt_multi();
    lemma_spelt_watch();
    lemma_spelt_bgsave();
}

/// Commands that act at once even inside MULTI.
pub open spec fn is_control(cmd: Seq<u8>) -> bool {
    cmd == bytes::text("EXEC") || cmd == bytes::text("DISCARD") || cmd == bytes::text("MULTI") || cmd
        == bytes::text("WATCH") || cmd == bytes::text("RESET") || cmd == bytes::text("QUIT")
}

pub fn control_command(cmd: &[u8]) -> (r: bool)
    ensures
        r == is_control(cmd@),
{
    is(cmd, "EXEC") || is(cmd, "DISCARD") || is(cmd, "MULTI") || is(cmd, "WATCH") || is(cmd, "RESET")
        || is(cmd, "QUIT")
}

/// Commands that may not be queued in a MULTI.
pub open spec fn is_unqueueable(cmd: Seq<u8>) -> bool {
    cmd == bytes::text("SUBSCRIBE") || cmd == bytes::text("UNSUBSCRIBE") || cmd == bytes::text(
        "PSUBSCRIBE",
    )
}

/// Commands that may not be queued in a MULTI (returns an error string).
pub fn validate_queueable(cmd: &[u8]) -> (r: Option<&'static str>)
    ensures
        r is Some <==> is_unqueueable(cmd@),
        r matches Some(m) ==> m@ == "ERR command not allowed in transaction"@ && bytes::text(m)
            == bytes::text("ERR command not allowed in transaction"),
{
    if is(cmd, "SUBSCRIBE") || is(cmd, "UNSUBSCRIBE") || is(cmd, "PSUBSCRIBE") {
        Some("ERR command not allowed in transaction")
    } else {
        None
    }
}

// ---------------------------------------------------------------------------
// Options
// ---------------------------------------------------------------------------

/// What is wrong with the options of a command.
#[derive(Clone, Copy, Debug, PartialEq, Eq, Structural)]
pub enum OptionError {
    Syntax,
    NotAnInteger,
}

impl OptionError {
    pub open spec fn text(self) -> Seq<u8> {
        match self {
            OptionError::Syntax => bytes::text("ERR syntax error"),
            OptionError::NotAnInteger => bytes::text("ERR value is not an integer or out of range"),
        }
    }

    pub fn message(&self) -> (r: &'static str)
        ensures
            bytes::text(r) == self.text(),
    {
        match self {
            OptionError::Syntax => "ERR syntax error",
            OptionError::NotAnInteger => "ERR value is not an integer or out of range",
        }
    }
}

#[derive(Clone, Copy, Debug, PartialEq, Eq, Structural)]
pub struct SetOpts {
    pub expiration: i64,
    pub nx: bool,
    pub xx: bool,
    pub get: bool,
    pub keep_ttl: bool,
}

/// Whether an argument is a keyword, in either case.
pub open spec fn is_word(arg: Seq<u8>, word: &str) -> bool {
    bytes::upper(arg) == bytes::upper(bytes::text(word))
}

fn word(arg: &[u8], w: &str) -> (r: bool)
    ensures
        r == is_word(arg@, w),
{
    eq_ignore_case(arg, bytes::raw(w))
}

/// `EX | PX | EXAT | PXAT`: the four ways RESP spells an expiry argument.
pub open spec fn is_expiry(arg: Seq<u8>) -> bool {
    is_word(arg, "EX") || is_word(arg, "PX") || is_word(arg, "EXAT") || is_word(arg, "PXAT")
}

pub fn is_expiry_keyword(opt: &[u8]) -> (r: bool)
    ensures
        r == is_expiry(opt@),
{
    word(opt, "EX") || word(opt, "PX") || word(opt, "EXAT") || word(opt, "PXAT")
}

/// An expiry argument as an absolute millisecond timestamp.
pub open spec fn expiry_ms(keyword: Seq<u8>, t: i64, now_ms: i64) -> i64 {
    if is_word(keyword, "EX") {
        i64_specs::wrapping_add(now_ms, i64_specs::wrapping_mul(t, 1000))
    } else if is_word(keyword, "PX") {
        i64_specs::wrapping_add(now_ms, t)
    } else if is_word(keyword, "EXAT") {
        i64_specs::wrapping_mul(t, 1000)
    } else {
        t
    }
}

/// Convert an expiry argument to an absolute millisecond timestamp. Relative
/// (`EX`, `PX`) versus absolute (`EXAT`, `PXAT`) and seconds versus
/// milliseconds, in one place, so SET and GETEX cannot drift apart.
pub fn expire_at_ms(keyword: &[u8], t: i64, now_ms: i64) -> (r: i64)
    ensures
        r == expiry_ms(keyword@, t, now_ms),
{
    if word(keyword, "EX") {
        now_ms.wrapping_add(t.wrapping_mul(1000))
    } else if word(keyword, "PX") {
        now_ms.wrapping_add(t)
    } else if word(keyword, "EXAT") {
        t.wrapping_mul(1000)
    } else {
        t
    }
}

/// The options of SET from argument `i` on, given those before it.
pub open spec fn set_options_from(args: Seq<Seq<u8>>, i: int, o: SetOpts, now_ms: i64) -> Result<
    SetOpts,
    OptionError,
>
    decreases args.len() - i,
{
    if i >= args.len() {
        if o.nx && o.xx {
            Err(OptionError::Syntax)
        } else {
            Ok(o)
        }
    } else if is_word(args[i], "NX") {
        set_options_from(args, i + 1, SetOpts { nx: true, ..o }, now_ms)
    } else if is_word(args[i], "XX") {
        set_options_from(args, i + 1, SetOpts { xx: true, ..o }, now_ms)
    } else if is_word(args[i], "GET") {
        set_options_from(args, i + 1, SetOpts { get: true, ..o }, now_ms)
    } else if is_word(args[i], "KEEPTTL") {
        set_options_from(args, i + 1, SetOpts { keep_ttl: true, ..o }, now_ms)
    } else if is_expiry(args[i]) {
        if i + 1 >= args.len() {
            Err(OptionError::Syntax)
        } else {
            match resp::argument_int(args[i + 1]) {
                None => Err(OptionError::NotAnInteger),
                Some(t) => set_options_from(
                    args,
                    i + 2,
                    SetOpts { expiration: expiry_ms(args[i], t as i64, now_ms), ..o },
                    now_ms,
                ),
            }
        }
    } else {
        Err(OptionError::Syntax)
    }
}

pub open spec fn no_options() -> SetOpts {
    SetOpts { expiration: 0, nx: false, xx: false, get: false, keep_ttl: false }
}

/// The options of SET: everything from `args[3]` on.
pub fn parse_set_opts(args: &[&[u8]], now_ms: i64) -> (r: Result<SetOpts, OptionError>)
    ensures
        r == set_options_from(arg_list(args@), 3, no_options(), now_ms),
{
    let mut o = SetOpts { expiration: 0, nx: false, xx: false, get: false, keep_ttl: false };
    let ghost all = arg_list(args@);
    let mut i: usize = 3;
    let n: usize = args.len();
    while i < n
        invariant
            n == args@.len(),
            all == arg_list(args@),
            i >= 3,
            set_options_from(all, 3, no_options(), now_ms) == set_options_from(
                all,
                i as int,
                o,
                now_ms,
            ),
        decreases n - i,
    {
        let opt: &[u8] = args[i];
        assert(all[i as int] == opt@);
        if word(opt, "NX") {
            o.nx = true;
        } else if word(opt, "XX") {
            o.xx = true;
        } else if word(opt, "GET") {
            o.get = true;
        } else if word(opt, "KEEPTTL") {
            o.keep_ttl = true;
        } else if is_expiry_keyword(opt) {
            if i + 1 >= n {
                return Err(OptionError::Syntax);
            }
            assert(all[i + 1] == args@[i + 1]@);
            match parse_i64(args[i + 1]) {
                None => {
                    return Err(OptionError::NotAnInteger);
                },
                Some(t) => {
                    o.expiration = expire_at_ms(opt, t, now_ms);
                },
            }
            i += 1;
        } else {
            return Err(OptionError::Syntax);
        }
        i += 1;
    }
    if o.nx && o.xx {
        return Err(OptionError::Syntax);
    }
    Ok(o)
}

/// The expiration that GETEX asks for from argument `i` on.
pub open spec fn getex_from(args: Seq<Seq<u8>>, i: int, expiration: i64, now_ms: i64) -> Result<
    i64,
    OptionError,
>
    decreases args.len() - i,
{
    if i >= args.len() {
        Ok(expiration)
    } else if is_word(args[i], "PERSIST") {
        getex_from(args, i + 1, expiration, now_ms)
    } else if is_expiry(args[i]) && i + 1 < args.len() {
        match resp::argument_int(args[i + 1]) {
            None => Err(OptionError::NotAnInteger),
            Some(t) => getex_from(args, i + 2, expiry_ms(args[i], t as i64, now_ms), now_ms),
        }
    } else {
        Err(OptionError::Syntax)
    }
}

/// The options of GETEX: `EX s | PX ms | EXAT s | PXAT ms | PERSIST` from
/// `args[2]` on. An expiration of 0 clears the TTL.
pub fn parse_getex_opts(args: &[&[u8]], now_ms: i64) -> (r: Result<i64, OptionError>)
    ensures
        r == getex_from(arg_list(args@), 2, 0, now_ms),
{
    let mut expiration: i64 = 0;
    let ghost all = arg_list(args@);
    let n: usize = args.len();
    let mut i: usize = 2;
    while i < n
        invariant
            n == args@.len(),
            all == arg_list(args@),
            i >= 2,
            getex_from(all, 2, 0, now_ms) == getex_from(all, i as int, expiration, now_ms),
        decreases n - i,
    {
        let opt: &[u8] = args[i];
        assert(all[i as int] == opt@);
        if word(opt, "PERSIST") {
            i += 1;
        } else if is_expiry_keyword(opt) && i + 1 < n {
            assert(all[i + 1] == args@[i + 1]@);
            match parse_i64(args[i + 1]) {
                None => {
                    return Err(OptionError::NotAnInteger);
                },
                Some(t) => {
                    expiration = expire_at_ms(opt, t, now_ms);
                },
            }
            i += 2;
        } else {
            return Err(OptionError::Syntax);
        }
    }
    Ok(expiration)
}

/// The MATCH pattern among the options of SCAN, which come in pairs from
/// argument `i` on; the last one counts.
pub open spec fn match_from(args: Seq<Seq<u8>>, i: int, pattern: Seq<u8>) -> Seq<u8>
    decreases args.len() - i,
{
    if i + 1 >= args.len() {
        pattern
    } else if is_word(args[i], "MATCH") {
        match_from(args, i + 2, args[i + 1])
    } else {
        match_from(args, i + 2, pattern)
    }
}

pub fn parse_scan_pattern(args: &[&[u8]]) -> (r: Vec<u8>)
    ensures
        r@ == match_from(arg_list(args@), 2, bytes::text("*")),
{
    let mut pattern: &[u8] = bytes::raw("*");
    let ghost all = arg_list(args@);
    let n: usize = args.len();
    let mut i: usize = 2;
    while i < n && n - i >= 2
        invariant
            n == args@.len(),
            all == arg_list(args@),
            i <= n || n < 2,
            match_from(all, 2, bytes::text("*")) == match_from(all, i as int, pattern@),
        decreases n - i,
    {
        assert(all[i as int] == args@[i as int]@);
        assert(all[i + 1] == args@[i + 1]@);
        if word(args[i], "MATCH") {
            pattern = args[i + 1];
        }
        i += 2;
    }
    to_vec(pattern)
}

// ---------------------------------------------------------------------------
// What options say
// ---------------------------------------------------------------------------

proof fn lemma_flag_words()
    ensures
        ({
            let w = bytes::upper(bytes::text("NX"));
            w.len() == 2 && w[0] == 78
        }),
        ({
            let w = bytes::upper(bytes::text("XX"));
            w.len() == 2 && w[0] == 88
        }),
        ({
            let w = bytes::upper(bytes::text("GET"));
            w.len() == 3 && w[0] == 71
        }),
        ({
            let w = bytes::upper(bytes::text("KEEPTTL"));
            w.len() == 7 && w[0] == 75
        }),
        ({
            let w = bytes::upper(bytes::text("PERSIST"));
            w.len() == 7 && w[0] == 80
        }),
{
    reveal_strlit("NX");
    lemma_ascii("NX");
    reveal_strlit("XX");
    lemma_ascii("XX");
    reveal_strlit("GET");
    lemma_ascii("GET");
    reveal_strlit("KEEPTTL");
    lemma_ascii("KEEPTTL");
    reveal_strlit("PERSIST");
    lemma_ascii("PERSIST");
}

proof fn lemma_time_words()
    ensures
        ({
            let w = bytes::upper(bytes::text("EX"));
            w.len() == 2 && w[0] == 69
        }),
        ({
            let w = bytes::upper(bytes::text("PX"));
            w.len() == 2 && w[0] == 80
        }),
        ({
            let w = bytes::upper(bytes::text("EXAT"));
            w.len() == 4 && w[0] == 69
        }),
        ({
            let w = bytes::upper(bytes::text("PXAT"));
            w.len() == 4 && w[0] == 80
        }),
{
    reveal_strlit("EX");
    lemma_ascii("EX");
    reveal_strlit("PX");
    lemma_ascii("PX");
    reveal_strlit("EXAT");
    lemma_ascii("EXAT");
    reveal_strlit("PXAT");
    lemma_ascii("PXAT");
}

/// Words are compared byte by byte, without regard to the case of letters.
pub proof fn words_are_compared_without_case(arg: Seq<u8>, word: &str)
    ensures
        is_word(arg, word) <==> arg.len() == bytes::text(word).len() && forall|i: int|
            0 <= i < arg.len() ==> {
                let x = #[trigger] arg[i];
                let y = bytes::text(word)[i];
                (if 97 <= x <= 122 {
                    x - 32
                } else {
                    x as int
                }) == (if 97 <= y <= 122 {
                    y - 32
                } else {
                    y as int
                })
            },
{
    let a = bytes::upper(arg);
    let b = bytes::upper(bytes::text(word));
    assert forall|i: int| 0 <= i < arg.len() && a == b implies ({
        let x = #[trigger] arg[i];
        let y = bytes::text(word)[i];
        bytes::upper_byte(x) == bytes::upper_byte(y)
    }) by {
        assert(a.len() == arg.len() && b.len() == bytes::text(word).len());
        assert(a[i] == bytes::upper_byte(arg[i]) && b[i] == bytes::upper_byte(bytes::text(word)[i]));
    }
    if arg.len() == bytes::text(word).len() && (forall|i: int|
        0 <= i < arg.len() ==> bytes::upper_byte(#[trigger] arg[i]) == bytes::upper_byte(
            bytes::text(word)[i],
        )) {
        assert(a =~= b);
    }
    if is_word(arg, word) {
        assert(a.len() == b.len());
    }
}

proof fn lemma_trimmed(s: Seq<u8>)
    ensures
        resp::trim_back(s).len() <= s.len(),
        resp::trim_back(s) == s.subrange(0, resp::trim_back(s).len() as int),
    decreases s.len(),
{
    let k = resp::ws_back(s);
    if k <= 0 || k > s.len() {
        assert(s =~= s.subrange(0, s.len() as int));
    } else {
        let t = s.subrange(0, s.len() - k);
        lemma_trimmed(t);
        let n = resp::trim_back(t).len() as int;
        assert(t.subrange(0, n) =~= s.subrange(0, n));
    }
}

/// What starts with a letter is no number.
proof fn lemma_no_number(s: Seq<u8>)
    requires
        s.len() > 0,
        65 <= bytes::upper_byte(s[0]) <= 90,
    ensures
        resp::argument_int(s) is None,
{
    assert(resp::ws_front(s) == 0);
    let t = resp::trim(s);
    lemma_trimmed(s);
    if t.len() > 0 {
        assert(t[0] == s[0]);
        assert(!resp::is_digit(t[0]));
    }
}

/// An argument among the options is this word.
pub open spec fn says(args: Seq<Seq<u8>>, from: int, word: &str) -> bool {
    exists|i: int| from <= i < args.len() && is_word(#[trigger] args[i], word)
}

/// A word that takes a number, and the number.
pub open spec fn timed(args: Seq<Seq<u8>>, i: int) -> bool {
    is_expiry(args[i]) && i + 1 < args.len() && resp::argument_int(args[i + 1]) is Some
}

/// Every option of SET is a flag, a word that takes a number, or that number.
pub open spec fn well_put(args: Seq<Seq<u8>>, from: int) -> bool {
    forall|i: int|
        from <= i < args.len() ==> {
            ||| is_word(#[trigger] args[i], "NX")
            ||| is_word(args[i], "XX")
            ||| is_word(args[i], "GET")
            ||| is_word(args[i], "KEEPTTL")
            ||| timed(args, i)
            ||| i > from && timed(args, i - 1)
        }
}

/// The time that the word at `j` and the number after it stand for, in
/// milliseconds, is `e`, as far as it can be counted.
pub open spec fn stands_for(args: Seq<Seq<u8>>, j: int, now_ms: i64, e: i64) -> bool {
    let t = resp::argument_int(args[j + 1]).unwrap();
    &&& is_word(args[j], "EX") && i64::MIN <= 1000 * t <= i64::MAX && i64::MIN <= now_ms + 1000 * t
        <= i64::MAX ==> e == now_ms + 1000 * t
    &&& is_word(args[j], "PX") && i64::MIN <= now_ms + t <= i64::MAX ==> e == now_ms + t
    &&& is_word(args[j], "EXAT") && i64::MIN <= 1000 * t <= i64::MAX ==> e == 1000 * t
    &&& is_word(args[j], "PXAT") ==> e == t
}

/// The last word among the options that takes a number is at `j`.
pub open spec fn last_time(args: Seq<Seq<u8>>, from: int, j: int) -> bool {
    &&& from <= j < args.len()
    &&& is_expiry(args[j])
    &&& forall|i: int| j < i < args.len() ==> !is_expiry(#[trigger] args[i])
}

proof fn lemma_stands_for(args: Seq<Seq<u8>>, j: int, now_ms: i64)
    requires
        timed(args, j),
    ensures
        stands_for(
            args,
            j,
            now_ms,
            expiry_ms(args[j], resp::argument_int(args[j + 1]).unwrap() as i64, now_ms),
        ),
{
    lemma_time_words();
}

/// A word is one thing only.
proof fn lemma_one_word(arg: Seq<u8>)
    ensures
        is_expiry(arg) ==> resp::argument_int(arg) is None && !is_word(arg, "NX") && !is_word(
            arg,
            "XX",
        ) && !is_word(arg, "GET") && !is_word(arg, "KEEPTTL") && !is_word(arg, "PERSIST"),
        is_word(arg, "NX") || is_word(arg, "XX") || is_word(arg, "GET") || is_word(arg, "KEEPTTL")
            || is_word(arg, "PERSIST") ==> resp::argument_int(arg) is None,
        is_word(arg, "NX") ==> !is_word(arg, "XX") && !is_word(arg, "GET") && !is_word(
            arg,
            "KEEPTTL",
        ),
        is_word(arg, "XX") ==> !is_word(arg, "GET") && !is_word(arg, "KEEPTTL"),
        is_word(arg, "GET") ==> !is_word(arg, "KEEPTTL"),
{
    lemma_flag_words();
    lemma_time_words();
    let u = bytes::upper(arg);
    assert(u.len() == arg.len());
    if arg.len() > 0 {
        assert(u[0] == bytes::upper_byte(arg[0]));
        if 65 <= u[0] <= 90 {
            lemma_no_number(arg);
        }
    }
}

proof fn lemma_says(args: Seq<Seq<u8>>, i: int, word: &str)
    requires
        0 <= i < args.len(),
    ensures
        says(args, i, word) <==> is_word(args[i], word) || says(args, i + 1, word),
{
    if says(args, i, word) {
        let k = choose|k: int| i <= k < args.len() && is_word(#[trigger] args[k], word);
        if k > i {
            assert(i + 1 <= k < args.len() && is_word(args[k], word));
        }
    }
    if says(args, i + 1, word) {
        let k = choose|k: int| i + 1 <= k < args.len() && is_word(#[trigger] args[k], word);
        assert(i <= k < args.len() && is_word(args[k], word));
    }
}

#[verifier::spinoff_prover]
#[verifier::rlimit(40)]
proof fn lemma_set_options(args: Seq<Seq<u8>>, i: int, o: SetOpts, now_ms: i64)
    requires
        0 <= i,
    ensures
        ({
            let r = set_options_from(args, i, o, now_ms);
            &&& r is Ok <==> well_put(args, i) && !((o.nx || says(args, i, "NX")) && (o.xx || says(
                args,
                i,
                "XX",
            )))
            &&& r matches Ok(q) ==> {
                &&& q.nx == (o.nx || says(args, i, "NX"))
                &&& q.xx == (o.xx || says(args, i, "XX"))
                &&& q.get == (o.get || says(args, i, "GET"))
                &&& q.keep_ttl == (o.keep_ttl || says(args, i, "KEEPTTL"))
                &&& (forall|j: int| i <= j < args.len() ==> !is_expiry(#[trigger] args[j]))
                    ==> q.expiration == o.expiration
                &&& forall|j: int| #[trigger]
                    last_time(args, i, j) ==> timed(args, j) && stands_for(
                        args,
                        j,
                        now_ms,
                        q.expiration,
                    )
            }
        }),
    decreases args.len() - i,
{
    let r = set_options_from(args, i, o, now_ms);
    if i >= args.len() {
    } else {
        let a = args[i];
        lemma_one_word(a);
        lemma_says(args, i, "NX");
        lemma_says(args, i, "XX");
        lemma_says(args, i, "GET");
        lemma_says(args, i, "KEEPTTL");
        let flag = is_word(a, "NX") || is_word(a, "XX") || is_word(a, "GET") || is_word(a, "KEEPTTL");
        if flag {
            let o2 = if is_word(a, "NX") {
                SetOpts { nx: true, ..o }
            } else if is_word(a, "XX") {
                SetOpts { xx: true, ..o }
            } else if is_word(a, "GET") {
                SetOpts { get: true, ..o }
            } else {
                SetOpts { keep_ttl: true, ..o }
            };
            lemma_set_options(args, i + 1, o2, now_ms);
            assert(well_put(args, i) <==> well_put(args, i + 1)) by {
                if well_put(args, i) {
                    assert forall|k: int| i + 1 <= k < args.len() implies {
                        ||| is_word(#[trigger] args[k], "NX")
                        ||| is_word(args[k], "XX")
                        ||| is_word(args[k], "GET")
                        ||| is_word(args[k], "KEEPTTL")
                        ||| timed(args, k)
                        ||| k > i + 1 && timed(args, k - 1)
                    } by {
                        assert(!timed(args, i));
                    }
                }
            }
            assert forall|j: int| #[trigger] last_time(args, i, j) implies last_time(args, i + 1, j) by {
                assert(j != i);
            }
        } else if timed(args, i) {
            let b = args[i + 1];
            lemma_one_word(b);
            lemma_says(args, i + 1, "NX");
            lemma_says(args, i + 1, "XX");
            lemma_says(args, i + 1, "GET");
            lemma_says(args, i + 1, "KEEPTTL");
            lemma_stands_for(args, i, now_ms);
            let t = resp::argument_int(b).unwrap();
            let o2 = SetOpts { expiration: expiry_ms(a, t as i64, now_ms), ..o };
            lemma_set_options(args, i + 2, o2, now_ms);
            assert(well_put(args, i) <==> well_put(args, i + 2)) by {
                if well_put(args, i) {
                    assert forall|k: int| i + 2 <= k < args.len() implies {
                        ||| is_word(#[trigger] args[k], "NX")
                        ||| is_word(args[k], "XX")
                        ||| is_word(args[k], "GET")
                        ||| is_word(args[k], "KEEPTTL")
                        ||| timed(args, k)
                        ||| k > i + 2 && timed(args, k - 1)
                    } by {
                        assert(!timed(args, i + 1));
                    }
                }
            }
            assert forall|j: int| #[trigger] last_time(args, i, j) implies j == i || last_time(
                args,
                i + 2,
                j,
            ) by {
                assert(j != i + 1);
            }
            if r is Ok {
                if forall|j: int| i + 2 <= j < args.len() ==> !is_expiry(#[trigger] args[j]) {
                    assert(r->Ok_0.expiration == o2.expiration);
                } else {
                    let j = choose|j: int| i + 2 <= j < args.len() && is_expiry(#[trigger] args[j]);
                    assert(!last_time(args, i, i));
                }
            }
        } else {
            assert(!well_put(args, i));
        }
    }
}

/// SET takes its options in any order: it accepts them exactly if each is a flag
/// or one of EX, PX, EXAT, PXAT with a number after it, and NX does not meet XX;
/// a flag is set exactly if it is among them; and the last time given, whatever
/// stands before or after it, is the expiration.
pub proof fn set_options_say_what_they_say(args: Seq<Seq<u8>>, now_ms: i64)
    ensures
        ({
            let r = set_options_from(args, 3, no_options(), now_ms);
            &&& r is Ok <==> well_put(args, 3) && !(says(args, 3, "NX") && says(args, 3, "XX"))
            &&& r matches Ok(q) ==> {
                &&& q.nx == says(args, 3, "NX")
                &&& q.xx == says(args, 3, "XX")
                &&& q.get == says(args, 3, "GET")
                &&& q.keep_ttl == says(args, 3, "KEEPTTL")
                &&& (forall|j: int| 3 <= j < args.len() ==> !is_expiry(#[trigger] args[j]))
                    ==> q.expiration == 0
                &&& forall|j: int| #[trigger]
                    last_time(args, 3, j) ==> timed(args, j) && stands_for(
                        args,
                        j,
                        now_ms,
                        q.expiration,
                    )
            }
        }),
{
    lemma_set_options(args, 3, no_options(), now_ms);
}

/// Every option of GETEX is PERSIST, a word that takes a number, or that number.
pub open spec fn getex_well_put(args: Seq<Seq<u8>>, from: int) -> bool {
    forall|i: int|
        from <= i < args.len() ==> {
            ||| is_word(#[trigger] args[i], "PERSIST")
            ||| timed(args, i)
            ||| i > from && timed(args, i - 1)
        }
}

proof fn lemma_getex_options(args: Seq<Seq<u8>>, i: int, e: i64, now_ms: i64)
    requires
        0 <= i,
    ensures
        ({
            let r = getex_from(args, i, e, now_ms);
            &&& r is Ok <==> getex_well_put(args, i)
            &&& r matches Ok(q) ==> {
                &&& (forall|j: int| i <= j < args.len() ==> !is_expiry(#[trigger] args[j])) ==> q == e
                &&& forall|j: int| #[trigger]
                    last_time(args, i, j) ==> timed(args, j) && stands_for(args, j, now_ms, q)
            }
        }),
    decreases args.len() - i,
{
    let r = getex_from(args, i, e, now_ms);
    if i < args.len() {
        let a = args[i];
        lemma_one_word(a);
        if is_word(a, "PERSIST") {
            lemma_getex_options(args, i + 1, e, now_ms);
            assert(getex_well_put(args, i) <==> getex_well_put(args, i + 1)) by {
                if getex_well_put(args, i) {
                    assert forall|k: int| i + 1 <= k < args.len() implies {
                        ||| is_word(#[trigger] args[k], "PERSIST")
                        ||| timed(args, k)
                        ||| k > i + 1 && timed(args, k - 1)
                    } by {
                        assert(!timed(args, i));
                    }
                }
            }
            assert forall|j: int| #[trigger] last_time(args, i, j) implies last_time(args, i + 1, j) by {
                assert(j != i);
            }
        } else if timed(args, i) {
            let b = args[i + 1];
            lemma_one_word(b);
            lemma_stands_for(args, i, now_ms);
            let e2 = expiry_ms(a, resp::argument_int(b).unwrap() as i64, now_ms);
            lemma_getex_options(args, i + 2, e2, now_ms);
            assert(getex_well_put(args, i) <==> getex_well_put(args, i + 2)) by {
                if getex_well_put(args, i) {
                    assert forall|k: int| i + 2 <= k < args.len() implies {
                        ||| is_word(#[trigger] args[k], "PERSIST")
                        ||| timed(args, k)
                        ||| k > i + 2 && timed(args, k - 1)
                    } by {
                        assert(!timed(args, i + 1));
                    }
                }
            }
            assert forall|j: int| #[trigger] last_time(args, i, j) implies j == i || last_time(
                args,
                i + 2,
                j,
            ) by {
                assert(j != i + 1);
            }
            if r is Ok {
                if !(forall|j: int| i + 2 <= j < args.len() ==> !is_expiry(#[trigger] args[j])) {
                    let j = choose|j: int| i + 2 <= j < args.len() && is_expiry(#[trigger] args[j]);
                    assert(!last_time(args, i, i));
                }
            }
        } else {
            assert(!getex_well_put(args, i));
        }
    }
}

/// GETEX accepts its options exactly if each is PERSIST or one of EX, PX, EXAT,
/// PXAT with a number after it; the last time given is the expiration, and
/// without one there is none.
pub proof fn getex_options_say_what_they_say(args: Seq<Seq<u8>>, now_ms: i64)
    ensures
        ({
            let r = getex_from(args, 2, 0, now_ms);
            &&& r is Ok <==> getex_well_put(args, 2)
            &&& r matches Ok(q) ==> {
                &&& (forall|j: int| 2 <= j < args.len() ==> !is_expiry(#[trigger] args[j])) ==> q == 0
                &&& forall|j: int| #[trigger]
                    last_time(args, 2, j) ==> timed(args, j) && stands_for(args, j, now_ms, q)
            }
        }),
{
    lemma_getex_options(args, 2, 0, now_ms);
}

/// The pattern of SCAN is the argument after the last MATCH among its options,
/// which come in pairs; without one, everything matches.
pub proof fn scan_takes_the_last_match(args: Seq<Seq<u8>>, i: int, pattern: Seq<u8>)
    requires
        0 <= i,
    ensures
        (forall|k: int|
            0 <= k && i + 2 * k + 1 < args.len() ==> !is_word(#[trigger] args[i + 2 * k], "MATCH"))
            ==> match_from(args, i, pattern) == pattern,
        forall|m: int|
            0 <= m && i + 2 * m + 1 < args.len() && is_word(#[trigger] args[i + 2 * m], "MATCH") && (
            forall|k: int|
                m < k && i + 2 * k + 1 < args.len() ==> !is_word(#[trigger] args[i + 2 * k], "MATCH"))
                ==> match_from(args, i, pattern) == args[i + 2 * m + 1],
    decreases args.len() - i,
{
    if i + 1 < args.len() {
        let p2 = if is_word(args[i], "MATCH") {
            args[i + 1]
        } else {
            pattern
        };
        scan_takes_the_last_match(args, i + 2, p2);
        let none = forall|k: int|
            0 <= k && i + 2 * k + 1 < args.len() ==> !is_word(#[trigger] args[i + 2 * k], "MATCH");
        if none {
            assert(!is_word(args[i + 2 * 0], "MATCH"));
            assert forall|k: int| 0 <= k && i + 2 + 2 * k + 1 < args.len() implies !is_word(
                #[trigger] args[i + 2 + 2 * k],
                "MATCH",
            ) by {
                assert(!is_word(args[i + 2 * (k + 1)], "MATCH"));
            }
        }
        assert forall|m: int|
            0 <= m && i + 2 * m + 1 < args.len() && is_word(#[trigger] args[i + 2 * m], "MATCH") && (
            forall|k: int|
                m < k && i + 2 * k + 1 < args.len() ==> !is_word(#[trigger] args[i + 2 * k], "MATCH"))
            implies match_from(args, i, pattern) == args[i + 2 * m + 1] by {
            assert forall|k: int| m <= k && i + 2 + 2 * k + 1 < args.len() implies !is_word(
                #[trigger] args[i + 2 + 2 * k],
                "MATCH",
            ) by {
                assert(!is_word(args[i + 2 * (k + 1)], "MATCH"));
            }
            if m > 0 {
                assert(is_word(args[i + 2 + 2 * (m - 1)], "MATCH"));
            }
        }
    }
}

// ---------------------------------------------------------------------------
// What is wrong with options
// ---------------------------------------------------------------------------

/// Everything among the options of SET before `j` is in order, and `j` is not
/// the place of a number.
pub open spec fn fine_up_to(args: Seq<Seq<u8>>, from: int, j: int) -> bool {
    &&& from <= j
    &&& forall|i: int|
        from <= i < j && i < args.len() ==> {
            ||| is_word(#[trigger] args[i], "NX")
            ||| is_word(args[i], "XX")
            ||| is_word(args[i], "GET")
            ||| is_word(args[i], "KEEPTTL")
            ||| timed(args, i)
            ||| i > from && timed(args, i - 1)
        }
    &&& !(j > from && timed(args, j - 1))
}

proof fn lemma_set_errors(args: Seq<Seq<u8>>, i: int, j: int, o: SetOpts, now_ms: i64)
    requires
        0 <= i,
        fine_up_to(args, i, j),
        j < args.len(),
    ensures
        is_expiry(args[j]) && j + 1 < args.len() && resp::argument_int(args[j + 1]) is None
            ==> set_options_from(args, i, o, now_ms) == Err::<SetOpts, OptionError>(
            OptionError::NotAnInteger,
        ),
        is_expiry(args[j]) && j + 1 == args.len() ==> set_options_from(args, i, o, now_ms) == Err::<
            SetOpts,
            OptionError,
        >(OptionError::Syntax),
        !is_expiry(args[j]) && !is_word(args[j], "NX") && !is_word(args[j], "XX") && !is_word(
            args[j],
            "GET",
        ) && !is_word(args[j], "KEEPTTL") ==> set_options_from(args, i, o, now_ms) == Err::<
            SetOpts,
            OptionError,
        >(OptionError::Syntax),
    decreases args.len() - i,
{
    lemma_one_word(args[i]);
    if i < j {
        if timed(args, i) {
            lemma_one_word(args[i + 1]);
            assert(!timed(args, i + 1));
            assert(j != i + 1);
            let o2 = SetOpts {
                expiration: expiry_ms(
                    args[i],
                    resp::argument_int(args[i + 1]).unwrap() as i64,
                    now_ms,
                ),
                ..o
            };
            assert(fine_up_to(args, i + 2, j));
            lemma_set_errors(args, i + 2, j, o2, now_ms);
        } else {
            assert(fine_up_to(args, i + 1, j));
            let o2 = if is_word(args[i], "NX") {
                SetOpts { nx: true, ..o }
            } else if is_word(args[i], "XX") {
                SetOpts { xx: true, ..o }
            } else if is_word(args[i], "GET") {
                SetOpts { get: true, ..o }
            } else {
                SetOpts { keep_ttl: true, ..o }
            };
            lemma_set_errors(args, i + 1, j, o2, now_ms);
        }
    }
}

/// The first option of SET that is not in order decides what is wrong: a time
/// that is no number, or the form. Options in order are wrong only if NX meets
/// XX.
pub proof fn the_first_bad_option_decides(args: Seq<Seq<u8>>, j: int, now_ms: i64)
    ensures
        ({
            let r = set_options_from(args, 3, no_options(), now_ms);
            &&& fine_up_to(args, 3, j) && j < args.len() && is_expiry(args[j]) && j + 1 < args.len()
                && resp::argument_int(args[j + 1]) is None ==> r == Err::<SetOpts, OptionError>(
                OptionError::NotAnInteger,
            )
            &&& fine_up_to(args, 3, j) && j < args.len() && is_expiry(args[j]) && j + 1 == args.len()
                ==> r == Err::<SetOpts, OptionError>(OptionError::Syntax)
            &&& fine_up_to(args, 3, j) && j < args.len() && !is_expiry(args[j]) && !is_word(
                args[j],
                "NX",
            ) && !is_word(args[j], "XX") && !is_word(args[j], "GET") && !is_word(args[j], "KEEPTTL")
                ==> r == Err::<SetOpts, OptionError>(OptionError::Syntax)
            &&& well_put(args, 3) && says(args, 3, "NX") && says(args, 3, "XX") ==> r == Err::<
                SetOpts,
                OptionError,
            >(OptionError::Syntax)
        }),
{
    if fine_up_to(args, 3, j) && j < args.len() {
        lemma_set_errors(args, 3, j, no_options(), now_ms);
    }
    if well_put(args, 3) {
        lemma_nothing_else(args, 3, no_options(), now_ms);
        set_options_say_what_they_say(args, now_ms);
    }
}

proof fn lemma_nothing_else(args: Seq<Seq<u8>>, i: int, o: SetOpts, now_ms: i64)
    requires
        0 <= i,
        well_put(args, i),
    ensures
        set_options_from(args, i, o, now_ms) matches Err(e) ==> e is Syntax,
    decreases args.len() - i,
{
    if i < args.len() {
        lemma_one_word(args[i]);
        if timed(args, i) {
            lemma_one_word(args[i + 1]);
            assert(well_put(args, i + 2)) by {
                assert(!timed(args, i + 1));
            }
            let o2 = SetOpts {
                expiration: expiry_ms(
                    args[i],
                    resp::argument_int(args[i + 1]).unwrap() as i64,
                    now_ms,
                ),
                ..o
            };
            lemma_nothing_else(args, i + 2, o2, now_ms);
        } else {
            assert(well_put(args, i + 1));
            let o2 = if is_word(args[i], "NX") {
                SetOpts { nx: true, ..o }
            } else if is_word(args[i], "XX") {
                SetOpts { xx: true, ..o }
            } else if is_word(args[i], "GET") {
                SetOpts { get: true, ..o }
            } else {
                SetOpts { keep_ttl: true, ..o }
            };
            lemma_nothing_else(args, i + 1, o2, now_ms);
        }
    }
}

// ---------------------------------------------------------------------------
// Queued commands
// ---------------------------------------------------------------------------

/// The arguments of a command stored as raw bytes, if it is a whole one.
pub open spec fn queued_args(raw: Seq<u8>) -> Option<Seq<Seq<u8>>> {
    let p = resp::command_at(raw, 0);
    if p.outcome is Done {
        Some(p.args.map_values(|r: (int, int)| raw.subrange(r.0, r.1)))
    } else {
        None
    }
}

/// Return the argument byte ranges of a RESP command stored as raw bytes.
pub fn parse_ranges(raw: &[u8]) -> (r: Option<Vec<ArgSlice>>)
    ensures
        r is Some <==> resp::command_at(raw@, 0).outcome is Done,
        r matches Some(v) ==> resp::ranges(v@) == resp::command_at(raw@, 0).args && resp::ranges_within(
            resp::ranges(v@),
            raw@.len() as int,
        ),
{
    let mut slices: Vec<ArgSlice> = Vec::new();
    match resp::parse_command(raw, 0, &mut slices) {
        Ok(Some(_)) => Some(slices),
        _ => None,
    }
}

/// The arguments that ranges of a buffer stand for.
pub fn borrow_args<'a>(raw: &'a [u8], slices: &Vec<ArgSlice>) -> (r: Vec<&'a [u8]>)
    requires
        resp::ranges_within(resp::ranges(slices@), raw@.len() as int),
    ensures
        arg_list(r@) == resp::ranges(slices@).map_values(|x: (int, int)| raw@.subrange(x.0, x.1)),
        r@.len() == slices@.len(),
{
    let mut args: Vec<&'a [u8]> = Vec::new();
    while args.len() < slices.len()
        invariant
            args@.len() <= slices@.len(),
            resp::ranges_within(resp::ranges(slices@), raw@.len() as int),
            forall|i: int|
                0 <= i < args@.len() ==> (#[trigger] args@[i])@ == raw@.subrange(
                    slices@[i].start as int,
                    slices@[i].end as int,
                ),
        decreases slices@.len() - args@.len(),
    {
        let n: usize = args.len();
        assert(resp::ranges(slices@)[n as int] == (slices@[n as int].start as int, slices@[n as int].end as int));
        args.push(slices[n].bytes(raw));
    }
    assert(arg_list(args@) =~= resp::ranges(slices@).map_values(
        |x: (int, int)| raw@.subrange(x.0, x.1),
    ));
    args
}

/// How the arguments of a command are locked: from which on, every how many,
/// and how. `None` if it touches no key.
pub open spec fn lock_rule(name: Seq<u8>, n: int) -> Option<(int, LockType)> {
    if name == bytes::text("GET") || name == bytes::text("STRLEN") || name == bytes::text("GETRANGE")
        || name == bytes::text("SUBSTR") || name == bytes::text("TTL") || name == bytes::text("PTTL")
        || name == bytes::text("EXISTS") || name == bytes::text("TYPE") || name == bytes::text("MGET") {
        Some((1, LockType::Shared))
    } else if name == bytes::text("DEL") || name == bytes::text("UNLINK") {
        Some((1, LockType::Exclusive))
    } else if name == bytes::text("MSET") {
        Some((2, LockType::Exclusive))
    } else if n >= 2 {
        Some((n, LockType::Exclusive))
    } else {
        None
    }
}

/// Every `step`-th argument from `i` on, locked in this way.
pub open spec fn keys_from(args: Seq<Seq<u8>>, i: int, step: int, t: LockType) -> Seq<(
    Seq<u8>,
    LockType,
)>
    decreases (if i < args.len() {
        args.len() - i
    } else {
        0
    }),
{
    if i >= args.len() || step <= 0 {
        Seq::empty()
    } else {
        seq![(args[i], t)] + keys_from(args, i + step, step, t)
    }
}

/// Keys touched by a command and their lock type.
pub open spec fn keys_of(args: Seq<Seq<u8>>) -> Seq<(Seq<u8>, LockType)> {
    if args.len() == 0 {
        Seq::empty()
    } else {
        match lock_rule(name_of(args[0]), args.len() as int) {
            None => Seq::empty(),
            Some((step, t)) => keys_from(args, 1, step, t),
        }
    }
}

proof fn lemma_keys_from(args: Seq<Seq<u8>>, i: int, step: int, t: LockType, m: int)
    requires
        0 <= i,
        step > 0,
        0 <= m,
        i + m * step < args.len(),
    ensures
        keys_from(args, i, step, t).contains((args[i + m * step], t)),
    decreases args.len() - i,
{
    let all = keys_from(args, i, step, t);
    let rest = keys_from(args, i + step, step, t);
    assert(m * step >= 0) by (nonlinear_arith)
        requires
            0 <= m,
            0 < step,
    ;
    assert(all == seq![(args[i], t)] + rest);
    if m == 0 {
        assert(m * step == 0) by (nonlinear_arith)
            requires
                m == 0,
        ;
        assert(all[0] == (args[i], t));
    } else {
        assert(m * step == step + (m - 1) * step) by (nonlinear_arith);
        lemma_keys_from(args, i + step, step, t, m - 1);
        let k = choose|k: int| 0 <= k < rest.len() && rest[k] == (args[i + m * step], t);
        assert(all[k + 1] == (args[i + m * step], t));
    }
}

/// A transaction locks every key that its commands read or write: shared what is
/// only read, exclusively what is written.
pub proof fn every_key_of_a_command_is_locked(args: Seq<Seq<u8>>)
    requires
        args.len() >= 2,
    ensures
        name_of(args[0]) == bytes::text("GET") || name_of(args[0]) == bytes::text("STRLEN") || name_of(
            args[0],
        ) == bytes::text("GETRANGE") || name_of(args[0]) == bytes::text("SUBSTR") || name_of(args[0])
            == bytes::text("TTL") || name_of(args[0]) == bytes::text("PTTL") || name_of(args[0])
            == bytes::text("EXISTS") || name_of(args[0]) == bytes::text("TYPE") || name_of(args[0])
            == bytes::text("MGET") ==> forall|i: int|
            1 <= i < args.len() ==> keys_of(args).contains((#[trigger] args[i], LockType::Shared)),
        name_of(args[0]) == bytes::text("DEL") || name_of(args[0]) == bytes::text("UNLINK")
            ==> forall|i: int|
            1 <= i < args.len() ==> keys_of(args).contains((#[trigger] args[i], LockType::Exclusive)),
        name_of(args[0]) == bytes::text("MSET") ==> forall|i: int|
            1 <= i < args.len() && i % 2 == 1 ==> keys_of(args).contains(
                (#[trigger] args[i], LockType::Exclusive),
            ),
        keys_of(args).contains((args[1], LockType::Shared)) || keys_of(args).contains(
            (args[1], LockType::Exclusive),
        ),
        !(name_of(args[0]) == bytes::text("GET") || name_of(args[0]) == bytes::text("STRLEN")
            || name_of(args[0]) == bytes::text("GETRANGE") || name_of(args[0]) == bytes::text("SUBSTR")
            || name_of(args[0]) == bytes::text("TTL") || name_of(args[0]) == bytes::text("PTTL")
            || name_of(args[0]) == bytes::text("EXISTS") || name_of(args[0]) == bytes::text("TYPE")
            || name_of(args[0]) == bytes::text("MGET")) ==> keys_of(args).contains(
            (args[1], LockType::Exclusive),
        ),
{
    lemma_spelt_flushall();
    lemma_spelt_append();
    lemma_spelt_substr();
    lemma_spelt_mset();
    lemma_spelt_unlink();
    lemma_spelt_ttl();
    lemma_spelt_type();
    let n = args.len() as int;
    let (step, t) = lock_rule(name_of(args[0]), n).unwrap();
    lemma_keys_from(args, 1, step, t, 0);
    assert(1 + 0 * step == 1) by (nonlinear_arith);
    if step == 1 {
        assert forall|i: int| 1 <= i < n implies keys_of(args).contains((#[trigger] args[i], t)) by {
            lemma_keys_from(args, 1, 1, t, i - 1);
        }
    }
    if step == 2 {
        assert forall|i: int| 1 <= i < n && i % 2 == 1 implies keys_of(args).contains(
            (#[trigger] args[i], t),
        ) by {
            lemma_keys_from(args, 1, 2, t, (i - 1) / 2);
        }
    }
}

fn lock_rule_of(name: &[u8], n: usize) -> (r: Option<(usize, LockType)>)
    ensures
        match r {
            Some((step, t)) => lock_rule(name@, n as int) == Some((step as int, t)) && step > 0,
            None => lock_rule(name@, n as int) is None,
        },
{
    // Read-only, every argument is a key.
    if is(name, "GET") || is(name, "STRLEN") || is(name, "GETRANGE") || is(name, "SUBSTR") || is(
        name,
        "TTL",
    ) || is(name, "PTTL") || is(name, "EXISTS") || is(name, "TYPE") || is(name, "MGET") {
        return Some((1, LockType::Shared));
    }
    // Writes, every argument is a key.
    if is(name, "DEL") || is(name, "UNLINK") {
        return Some((1, LockType::Exclusive));
    }
    // Writes, every *other* argument is a key.
    if is(name, "MSET") {
        return Some((2, LockType::Exclusive));
    }
    // Everything else writes its first argument.
    if n >= 2 {
        Some((n, LockType::Exclusive))
    } else {
        None
    }
}

/// Keys as specifications see them.
pub open spec fn lock_list_view(l: Seq<(Vec<u8>, LockType)>) -> Seq<(Seq<u8>, LockType)> {
    l.map_values(|k: (Vec<u8>, LockType)| (k.0@, k.1))
}

/// Keys touched by a command and their lock type (for 2PL in EXEC), added to
/// `found`.
pub fn command_keys(args: &[&[u8]], found: &mut Vec<(Vec<u8>, LockType)>)
    ensures
        lock_list_view(final(found)@) == lock_list_view(old(found)@) + keys_of(arg_list(args@)),
{
    let ghost all = arg_list(args@);
    let ghost before = lock_list_view(found@);
    if args.len() == 0 {
        assert(before + keys_of(all) =~= before);
        return;
    }
    assert(all[0] == args@[0]@);
    let name: Vec<u8> = command_name(args[0]);
    let n: usize = args.len();
    match lock_rule_of(name.as_slice(), n) {
        None => {
            assert(before + keys_of(all) =~= before);
        },
        Some((step, t)) => {
            let mut i: usize = 1;
            assert(before + keys_from(all, 1, step as int, t) == before + keys_of(all));
            while i < n
                invariant
                    n == args@.len(),
                    all == arg_list(args@),
                    step > 0,
                    lock_list_view(found@) + keys_from(all, i as int, step as int, t) == before + keys_of(
                        all,
                    ),
                    i <= n || keys_from(all, i as int, step as int, t) =~= Seq::empty(),
                decreases n - i,
            {
                let ghost f0 = found@;
                assert(all[i as int] == args@[i as int]@);
                found.push((to_vec(args[i]), t));
                proof {
                    let k = (all[i as int], t);
                    assert(lock_list_view(found@) =~= lock_list_view(f0).push(k));
                    let rest = keys_from(all, i + step, step as int, t);
                    assert(lock_list_view(f0) + (seq![k] + rest) =~= lock_list_view(f0).push(k) + rest);
                }
                if step >= n - i {
                    i = n;
                } else {
                    i += step;
                }
            }
            assert(lock_list_view(found@) + keys_from(all, i as int, step as int, t) =~= lock_list_view(found@));
        },
    }
}

} // verus!
