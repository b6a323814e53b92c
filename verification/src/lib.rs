//! A small in-memory key-value server library speaking a framed text/binary
//! wire protocol (the RESP family): a streaming frame codec, a keyspace with
//! per-entry expiry, a binary snapshot reader, and a command dispatcher.
//!
//! All I/O lives outside this crate; the library works on plain bytes and
//! values, so every function here is verified.
use vstd::prelude::*;
use vstd::string::StrSliceExecFns;
use vstd::utf8::encode_utf8;

pub mod config;
pub mod de;
pub mod rdb;
pub mod se;
pub mod store;
pub mod wire;

use crate::config::{Config, ConfigModel};
use crate::store::{Entry, EntryModel, Store};

verus! {

/// A protocol value: the universal currency on the wire.
///
/// `Null` is a sentinel for decoded null arrays; it is never stored in the
/// keyspace.
#[derive(Debug, PartialEq)]
pub enum Value {
    Null,
    SimpleString(String),
    BulkString(Option<String>),
    Array(Vec<Value>),
    Integer(i64),
}

/// The mathematical model of a [`Value`]: strings become character
/// sequences, vectors become sequences.
pub enum ValueModel {
    Null,
    SimpleString(Seq<char>),
    BulkString(Option<Seq<char>>),
    Array(Seq<ValueModel>),
    Integer(i64),
}

impl Value {
    pub open spec fn view(&self) -> ValueModel
        decreases self,
    {
        match self {
            Value::Null => ValueModel::Null,
            Value::SimpleString(s) => ValueModel::SimpleString(s@),
            Value::BulkString(os) => ValueModel::BulkString(
                match os {
                    Some(s) => Some(s@),
                    None => None,
                },
            ),
            Value::Array(es) => ValueModel::Array(models_of(es@)),
            Value::Integer(i) => ValueModel::Integer(*i),
        }
    }
}

/// The text carried by a string-like protocol value.  A null bulk string
/// carries none: requests holding one are rejected rather than read.
pub open spec fn spec_str_value(m: ValueModel) -> Option<Seq<char>> {
    match m {
        ValueModel::SimpleString(t) => Some(t),
        ValueModel::BulkString(Some(t)) => Some(t),
        _ => None,
    }
}

/// The integer a protocol value denotes: an integer value itself, or a
/// string value read as signed ASCII decimal.
pub open spec fn spec_int_value(m: ValueModel) -> Option<i64> {
    match m {
        ValueModel::Integer(x) => Some(x),
        ValueModel::SimpleString(t) => wire::i64_of_line(encode_utf8(t)),
        ValueModel::BulkString(Some(t)) => wire::i64_of_line(encode_utf8(t)),
        _ => None,
    }
}

impl Value {
    /// The text content of a string-carrying value.
    pub fn str_value(&self) -> (r: Option<&str>)
        ensures
            match spec_str_value(self@) {
                Some(t) => r matches Some(x) && x@ == t,
                None => r is None,
            },
    {
        match self {
            Value::SimpleString(s) => Some(s.as_str()),
            Value::BulkString(os) => match os {
                Some(s) => Some(s.as_str()),
                None => None,
            },
            _ => None,
        }
    }

    /// The integer content of a value, if it has one.
    pub fn int_value(&self) -> (r: Option<i64>)
        ensures
            r == spec_int_value(self@),
    {
        match self {
            Value::Integer(x) => Some(*x),
            Value::SimpleString(s) => {
                let b = s.as_str().as_bytes();
                proof {
                    assert(b@.subrange(0, b@.len() as int) =~= b@);
                }
                crate::de::parse_i64_line(b, 0, b.len())
            },
            Value::BulkString(os) => match os {
                Some(s) => {
                    let b = s.as_str().as_bytes();
                    proof {
                        assert(b@.subrange(0, b@.len() as int) =~= b@);
                    }
                    crate::de::parse_i64_line(b, 0, b.len())
                },
                None => None,
            },
            _ => None,
        }
    }
}

/// What can go wrong inside the library: a request that fails command
/// validation, a frame that can never decode, or a buffer that does not yet
/// hold a complete frame.  Transport errors stay with the transport, outside
/// this crate.
#[derive(Debug, PartialEq)]
pub enum Error {
    InvalidCommand(&'static str),
    MalformedFrame,
    IncompleteFrame,
}

/// The models of a sequence of protocol values, elementwise.
pub open spec fn models_of(es: Seq<Value>) -> Seq<ValueModel>
    decreases es,
{
    Seq::new(
        es.len(),
        |i: int|
            if 0 <= i < es.len() {
                es[i].view()
            } else {
                ValueModel::Null
            },
    )
}

/// The recognized commands.
#[derive(Debug, PartialEq, Eq, Structural)]
pub enum Command {
    PING,
    ECHO,
    GET,
    SET,
    CONFIG,
    KEYS,
}

/// The scalar value of a character after ASCII case folding.
pub open spec fn lower_u32(c: char) -> u32 {
    if 65 <= c as u32 <= 90 {
        (c as u32 + 32) as u32
    } else {
        c as u32
    }
}

/// Whether `t`, folded to ASCII lower case, spells `pat`.
pub open spec fn matches_lower(t: Seq<char>, pat: Seq<char>) -> bool {
    t.len() == pat.len() && forall|i: int|
        0 <= i < t.len() ==> lower_u32(#[trigger] t[i]) == pat[i] as u32
}

/// The command a request name selects; the comparison is ASCII
/// case-insensitive.
pub open spec fn spec_command_of(t: Seq<char>) -> Option<Command> {
    if matches_lower(t, "ping"@) {
        Some(Command::PING)
    } else if matches_lower(t, "echo"@) {
        Some(Command::ECHO)
    } else if matches_lower(t, "set"@) {
        Some(Command::SET)
    } else if matches_lower(t, "get"@) {
        Some(Command::GET)
    } else if matches_lower(t, "config"@) {
        Some(Command::CONFIG)
    } else if matches_lower(t, "keys"@) {
        Some(Command::KEYS)
    } else {
        None
    }
}

/// Whether `s` spells `pat` up to ASCII case folding.
fn eq_lower(s: &str, pat: &str) -> (r: bool)
    ensures
        r == matches_lower(s@, pat@),
{
    let n = s.unicode_len();
    if n != pat.unicode_len() {
        return false;
    }
    let mut i: usize = 0;
    while i < n
        invariant
            i <= n,
            n == s@.len() == pat@.len(),
            forall|j: int| 0 <= j < i ==> lower_u32(#[trigger] s@[j]) == pat@[j] as u32,
        decreases n - i,
    {
        let cu = s.get_char(i) as u32;
        let pu = pat.get_char(i) as u32;
        let lu = if 65 <= cu && cu <= 90 {
            cu + 32
        } else {
            cu
        };
        if lu != pu {
            return false;
        }
        i += 1;
    }
    true
}

/// Whether two texts are the same characters.
fn str_eq(a: &str, b: &str) -> (r: bool)
    ensures
        r == (a@ == b@),
{
    a.to_owned() == b.to_owned()
}

impl Command {
    pub fn from_str(s: &str) -> (r: Result<Command, Error>)
        ensures
            match spec_command_of(s@) {
                Some(c) => r == Ok::<Command, Error>(c),
                None => r matches Err(e) && e is InvalidCommand,
            },
    {
        if eq_lower(s, "ping") {
            Ok(Command::PING)
        } else if eq_lower(s, "echo") {
            Ok(Command::ECHO)
        } else if eq_lower(s, "set") {
            Ok(Command::SET)
        } else if eq_lower(s, "get") {
            Ok(Command::GET)
        } else if eq_lower(s, "config") {
            Ok(Command::CONFIG)
        } else if eq_lower(s, "keys") {
            Ok(Command::KEYS)
        } else {
            Err(Error::InvalidCommand("Invalid command / Command has not been implemented"))
        }
    }
}

/// A valid `SET` argument list: key, value, and optionally a `PX`
/// time-to-live in milliseconds, which must be positive and must yield a
/// deadline that fits the clock.
pub open spec fn spec_set_args(args: Seq<ValueModel>, now: u64) -> Option<
    (Seq<char>, Seq<char>, Option<u64>),
> {
    if args.len() == 3 {
        match (spec_str_value(args[1]), spec_str_value(args[2])) {
            (Some(k), Some(v)) => Some((k, v, None::<u64>)),
            _ => None,
        }
    } else if args.len() == 5 {
        match (
            spec_str_value(args[1]),
            spec_str_value(args[2]),
            spec_str_value(args[3]),
            spec_int_value(args[4]),
        ) {
            (Some(k), Some(v), Some(px), Some(ms)) => if matches_lower(px, "px"@) && ms > 0 && ms
                as u64 <= u64::MAX - now {
                Some((k, v, Some(ms as u64)))
            } else {
                None
            },
            _ => None,
        }
    } else {
        None
    }
}

/// The configuration string a `CONFIG GET` name denotes, the empty string
/// when unset.
pub open spec fn spec_config_value(name: Seq<char>, cfg: ConfigModel) -> Option<Seq<char>> {
    if name == "dir"@ {
        Some(
            match cfg.rdb_dir {
                Some(d) => d,
                None => Seq::<char>::empty(),
            },
        )
    } else if name == "dbfilename"@ {
        Some(
            match cfg.rdb_file {
                Some(f) => f,
                None => Seq::<char>::empty(),
            },
        )
    } else {
        None
    }
}

/// The reply a command produces on a valid request, `None` when the request
/// is invalid.  `KEYS` replies are order-free and are described by
/// [`spec_keys_reply`] instead.
pub open spec fn spec_response(
    cmd: Command,
    args: Seq<ValueModel>,
    st: Map<Seq<char>, EntryModel>,
    cfg: ConfigModel,
    now: u64,
    now_wall: u64,
) -> Option<ValueModel> {
    match cmd {
        Command::PING => if args.len() == 1 {
            Some(ValueModel::SimpleString("PONG"@))
        } else if args.len() == 2 {
            match spec_str_value(args[1]) {
                Some(t) => Some(ValueModel::BulkString(Some(t))),
                None => None,
            }
        } else {
            None
        },
        Command::ECHO => if args.len() == 2 {
            match spec_str_value(args[1]) {
                Some(t) => Some(ValueModel::BulkString(Some(t))),
                None => None,
            }
        } else {
            None
        },
        Command::SET => match spec_set_args(args, now) {
            Some(_) => Some(ValueModel::SimpleString("OK"@)),
            None => None,
        },
        Command::GET => if args.len() == 2 {
            match spec_str_value(args[1]) {
                Some(k) => Some(ValueModel::BulkString(Store::spec_get(st, k, now, now_wall))),
                None => None,
            }
        } else {
            None
        },
        Command::CONFIG => if args.len() == 3 {
            match (spec_str_value(args[1]), spec_str_value(args[2])) {
                (Some(g), Some(name)) => if matches_lower(g, "get"@) {
                    match spec_config_value(name, cfg) {
                        Some(v) => Some(
                            ValueModel::Array(
                                seq![
                                    ValueModel::BulkString(Some(name)),
                                    ValueModel::BulkString(Some(v)),
                                ],
                            ),
                        ),
                        None => None,
                    }
                } else {
                    None
                },
                _ => None,
            }
        } else {
            None
        },
        Command::KEYS => None,
    }
}

/// How a command changes the keyspace: `SET` stores, `GET` drops an expired
/// entry, everything else (and every invalid request) leaves it unchanged.
pub open spec fn spec_store_after(
    cmd: Command,
    args: Seq<ValueModel>,
    st: Map<Seq<char>, EntryModel>,
    now: u64,
    now_wall: u64,
) -> Map<Seq<char>, EntryModel> {
    match cmd {
        Command::SET => match spec_set_args(args, now) {
            Some((k, v, ttl)) => st.insert(
                k,
                (EntryModel { value: v, expires_at: Entry::spec_expiry(ttl, None, now) }),
            ),
            None => st,
        },
        Command::GET => if args.len() == 2 {
            match spec_str_value(args[1]) {
                Some(k) => Store::spec_after_get(st, k, now, now_wall),
                None => st,
            }
        } else {
            st
        },
        _ => st,
    }
}

/// A well-formed `KEYS` reply: bulk strings of exactly the stored keys, in
/// some order, each once.
pub open spec fn spec_keys_reply(ms: Seq<ValueModel>, st: Map<Seq<char>, EntryModel>) -> bool {
    &&& forall|i: int|
        0 <= i < ms.len() ==> ((#[trigger] ms[i]) matches ValueModel::BulkString(Some(k))
            && st.contains_key(k))
    &&& forall|k: Seq<char>|
        st.contains_key(k) ==> exists|i: int|
            0 <= i < ms.len() && #[trigger] ms[i] == ValueModel::BulkString(Some(k))
    &&& forall|i: int, j: int| 0 <= i < j < ms.len() ==> ms[i] != ms[j]
}

/// The reply contract of the dispatcher: a correct reply on a valid
/// request, an `InvalidCommand` error on anything else.
pub open spec fn reply_matches(
    cmd: Command,
    args: Seq<ValueModel>,
    st: Map<Seq<char>, EntryModel>,
    cfg: ConfigModel,
    now: u64,
    now_wall: u64,
    r: Result<Value, Error>,
) -> bool {
    if cmd is KEYS {
        if args.len() == 2 && spec_str_value(args[1]) == Some("*"@) {
            r matches Ok(rv) && rv@ matches ValueModel::Array(ms) && spec_keys_reply(ms, st)
        } else {
            r matches Err(e) && e is InvalidCommand
        }
    } else {
        match spec_response(cmd, args, st, cfg, now, now_wall) {
            Some(v) => r matches Ok(rv) && rv@ == v,
            None => r matches Err(e) && e is InvalidCommand,
        }
    }
}

/// After a valid `SET key value PX ttl` request at monotonic time `t0`, a
/// `GET` of that key evaluated strictly before the deadline `t0 + ttl`
/// replies the stored value as a bulk string; evaluated at or after the
/// deadline it replies a null bulk string, and the key is dropped from the
/// keyspace by that read.
pub proof fn lemma_set_px_then_get(
    set_args: Seq<ValueModel>,
    get_args: Seq<ValueModel>,
    st: Map<Seq<char>, EntryModel>,
    cfg: ConfigModel,
    k: Seq<char>,
    v: Seq<char>,
    ms: u64,
    t0: u64,
    t0_wall: u64,
    now: u64,
    now_wall: u64,
)
    requires
        spec_set_args(set_args, t0) == Some((k, v, Some(ms))),
        get_args.len() == 2,
        spec_str_value(get_args[1]) == Some(k),
    ensures
        ({
            let st1 = spec_store_after(Command::SET, set_args, st, t0, t0_wall);
            &&& spec_response(Command::SET, set_args, st, cfg, t0, t0_wall) == Some(
                ValueModel::SimpleString("OK"@),
            )
            &&& now < t0 + ms ==> spec_response(Command::GET, get_args, st1, cfg, now, now_wall)
                == Some(ValueModel::BulkString(Some(v))) && spec_store_after(
                Command::GET,
                get_args,
                st1,
                now,
                now_wall,
            ) == st1
            &&& now >= t0 + ms ==> spec_response(Command::GET, get_args, st1, cfg, now, now_wall)
                == Some(ValueModel::BulkString(None)) && !spec_store_after(
                Command::GET,
                get_args,
                st1,
                now,
                now_wall,
            ).contains_key(k)
        }),
{
    let st1 = spec_store_after(Command::SET, set_args, st, t0, t0_wall);
    assert(st1 == st.insert(
        k,
        (EntryModel {
            value: v,
            expires_at: Some(crate::store::ExpiryTime::ExpiringInstant((t0 + ms) as u64)),
        }),
    ));
}

impl Command {
    /// Interprets one decoded request (the command name and its arguments),
    /// reads or mutates the keyspace, and produces the reply value, or an
    /// `InvalidCommand` error for a request that fails validation.  `now`
    /// and `now_wall` are the monotonic and wall-clock readings in
    /// milliseconds.
    pub fn construct_response(
        &self,
        request_content: Vec<Value>,
        store: &mut Store,
        config: &Config,
        now: u64,
        now_wall: u64,
    ) -> (r: Result<Value, Error>)
        requires
            old(store).wf(),
        ensures
            final(store).wf(),
            final(store)@ == spec_store_after(
                *self,
                models_of(request_content@),
                old(store)@,
                now,
                now_wall,
            ),
            reply_matches(
                *self,
                models_of(request_content@),
                old(store)@,
                config@,
                now,
                now_wall,
                r,
            ),
    {
        let ghost args = models_of(request_content@);
        match self {
            Command::PING => {
                if request_content.len() == 1 {
                    Ok(Value::SimpleString("PONG".to_owned()))
                } else if request_content.len() == 2 {
                    proof {
                        assert(args[1] == request_content@[1]@);
                    }
                    match request_content[1].str_value() {
                        Some(t) => Ok(Value::BulkString(Some(t.to_owned()))),
                        None => Err(
                            Error::InvalidCommand("Argument passed to PING should be a STRING."),
                        ),
                    }
                } else {
                    Err(Error::InvalidCommand("Expected either 0 or 1 arguments"))
                }
            },
            Command::ECHO => {
                if request_content.len() != 2 {
                    return Err(Error::InvalidCommand("ECHO cmd requires exactly 1 argument."));
                }
                proof {
                    assert(args[1] == request_content@[1]@);
                }
                match request_content[1].str_value() {
                    Some(t) => Ok(Value::BulkString(Some(t.to_owned()))),
                    None => Err(
                        Error::InvalidCommand("Argument to ECHO couldn't be parsed as string"),
                    ),
                }
            },
            Command::SET => {
                let len = request_content.len();
                if len != 3 && len != 5 {
                    return Err(
                        Error::InvalidCommand(
                            "SET command expects exactly 2 arguments: KEY and VALUE and one optional PX (set expiry)",
                        ),
                    );
                }
                proof {
                    assert(args[1] == request_content@[1]@);
                    assert(args[2] == request_content@[2]@);
                }
                let key = match request_content[1].str_value() {
                    Some(k) => k.to_owned(),
                    None => {
                        return Err(
                            Error::InvalidCommand(
                                "KEY value to SET cmd couldn't be parsed as string",
                            ),
                        );
                    },
                };
                let value = match request_content[2].str_value() {
                    Some(v) => v.to_owned(),
                    None => {
                        return Err(
                            Error::InvalidCommand(
                                "VALUE value to SET cmd couldn't be parsed as string",
                            ),
                        );
                    },
                };
                if len == 5 {
                    proof {
                        assert(args[3] == request_content@[3]@);
                        assert(args[4] == request_content@[4]@);
                    }
                    let px = match request_content[3].str_value() {
                        Some(p) => p,
                        None => {
                            return Err(
                                Error::InvalidCommand(
                                    "Expected either PX or px to specify expiry in ms for data",
                                ),
                            );
                        },
                    };
                    if !eq_lower(px, "px") {
                        return Err(
                            Error::InvalidCommand(
                                "Expected either PX or px to specify expiry in ms for data",
                            ),
                        );
                    }
                    let ms = match request_content[4].int_value() {
                        Some(m) => m,
                        None => {
                            return Err(
                                Error::InvalidCommand("PX expiry must be a decimal integer"),
                            );
                        },
                    };
                    if ms <= 0 {
                        return Err(Error::InvalidCommand("PX expiry must be positive"));
                    }
                    let msu = ms as u64;
                    if msu > u64::MAX - now {
                        return Err(Error::InvalidCommand("PX expiry overflows the clock"));
                    }
                    store.insert(key, value, Some(msu), None, now);
                    Ok(Value::SimpleString("OK".to_owned()))
                } else {
                    store.insert(key, value, None, None, now);
                    Ok(Value::SimpleString("OK".to_owned()))
                }
            },
            Command::GET => {
                if request_content.len() != 2 {
                    return Err(Error::InvalidCommand("GET cmd requires exactly 1 argument: KEY"));
                }
                proof {
                    assert(args[1] == request_content@[1]@);
                }
                let key = match request_content[1].str_value() {
                    Some(k) => k,
                    None => {
                        return Err(
                            Error::InvalidCommand(
                                "KEY passed for GET cmd couldn't be parsed as string",
                            ),
                        );
                    },
                };
                match store.get(key, now, now_wall) {
                    Some(v) => Ok(Value::BulkString(Some(v))),
                    None => Ok(Value::BulkString(None)),
                }
            },
            Command::CONFIG => {
                if request_content.len() != 3 {
                    return Err(
                        Error::InvalidCommand(
                            "CONFIG commands should have exactly 2 arguments. CONFIG GET <CONFIG_KEY>",
                        ),
                    );
                }
                proof {
                    assert(args[1] == request_content@[1]@);
                    assert(args[2] == request_content@[2]@);
                }
                let g = match request_content[1].str_value() {
                    Some(g) => g,
                    None => {
                        return Err(
                            Error::InvalidCommand(
                                "Second argument passed couldn't be parsed as String",
                            ),
                        );
                    },
                };
                if !eq_lower(g, "get") {
                    return Err(Error::InvalidCommand("CONFIG command expected GET as second arg."));
                }
                let name = match request_content[2].str_value() {
                    Some(n) => n,
                    None => {
                        return Err(
                            Error::InvalidCommand("Error during parsing KEY passed to CONFIG GET"),
                        );
                    },
                };
                let value: String = if str_eq(name, "dir") {
                    match config.get_rdb_dir() {
                        Some(d) => d,
                        None => String::new(),
                    }
                } else if str_eq(name, "dbfilename") {
                    match config.get_rdb_file() {
                        Some(f) => f,
                        None => String::new(),
                    }
                } else {
                    return Err(Error::InvalidCommand("Invalid CONFIG key requested"));
                };
                let mut items: Vec<Value> = Vec::new();
                items.push(Value::BulkString(Some(name.to_owned())));
                items.push(Value::BulkString(Some(value)));
                let reply = Value::Array(items);
                proof {
                    let ms = models_of(items@);
                    assert(reply@ == ValueModel::Array(ms));
                    assert(ms[0] == items@[0]@);
                    assert(ms[1] == items@[1]@);
                    assert(ms =~= seq![
                        ValueModel::BulkString(Some(name@)),
                        ValueModel::BulkString(Some(spec_config_value(name@, config@)->0)),
                    ]);
                }
                Ok(reply)
            },
            Command::KEYS => {
                if request_content.len() != 2 {
                    return Err(Error::InvalidCommand("KEYS expects exactly 1 argument"));
                }
                proof {
                    assert(args[1] == request_content@[1]@);
                }
                let pat = match request_content[1].str_value() {
                    Some(p) => p,
                    None => {
                        return Err(Error::InvalidCommand("KEYS pattern must be a string"));
                    },
                };
                if str_eq(pat, "*") {
                    let keys = store.get_all_keys();
                    let mut out: Vec<Value> = Vec::new();
                    let n = keys.len();
                    let mut i: usize = 0;
                    while i < n
                        invariant
                            i <= n == keys@.len(),
                            out@.len() == i,
                            forall|j: int|
                                0 <= j < i ==> #[trigger] out@[j]@ == ValueModel::BulkString(
                                    Some(keys@[j]@),
                                ),
                        decreases n - i,
                    {
                        out.push(Value::BulkString(Some(keys[i].clone())));
                        i += 1;
                    }
                    let reply = Value::Array(out);
                    proof {
                        let ms = models_of(out@);
                        assert(reply@ == ValueModel::Array(ms));
                        assert forall|j: int| 0 <= j < ms.len() implies #[trigger] ms[j] == out@[j]@
                        by {
                        }
                        let st = store@;
                        assert forall|j: int| 0 <= j < ms.len() implies ((#[trigger] ms[j])
                            matches ValueModel::BulkString(Some(k)) && st.contains_key(k)) by {
                            assert(ms[j] == ValueModel::BulkString(Some(keys@[j]@)));
                        }
                        assert forall|k: Seq<char>| st.contains_key(k) implies exists|j: int|
                            0 <= j < ms.len() && #[trigger] ms[j] == ValueModel::BulkString(
                            Some(k),
                        ) by {
                            let j = choose|j: int| 0 <= j < keys@.len() && #[trigger] keys@[j]@
                                == k;
                            assert(ms[j] == ValueModel::BulkString(Some(k)));
                        }
                        assert forall|a: int, b: int| 0 <= a < b < ms.len() implies ms[a]
                            != ms[b] by {
                            assert(keys@[a]@ != keys@[b]@);
                        }
                        assert(spec_keys_reply(ms, st));
                    }
                    Ok(reply)
                } else {
                    Err(Error::InvalidCommand("not implemented yet"))
                }
            },
        }
    }
}

/// The command a whole decoded request selects: a non-empty array whose
/// first element is a string naming a command.
pub open spec fn spec_request_command(m: ValueModel) -> Option<Command> {
    match m {
        ValueModel::Array(args) => if args.len() >= 1 {
            match spec_str_value(args[0]) {
                Some(c) => spec_command_of(c),
                None => None,
            }
        } else {
            None
        },
        _ => None,
    }
}

/// Runs one decoded request against the keyspace and configuration: the
/// per-request step of a connection.  The transport loop around it only
/// moves bytes and clock readings.
pub fn handle_request(
    request: Value,
    store: &mut Store,
    config: &Config,
    now: u64,
    now_wall: u64,
) -> (r: Result<Value, Error>)
    requires
        old(store).wf(),
    ensures
        final(store).wf(),
        final(store)@ == match spec_request_command(request@) {
            Some(cmd) => spec_store_after(cmd, request@->Array_0, old(store)@, now, now_wall),
            None => old(store)@,
        },
        match spec_request_command(request@) {
            Some(cmd) => reply_matches(
                cmd,
                request@->Array_0,
                old(store)@,
                config@,
                now,
                now_wall,
                r,
            ),
            None => r matches Err(e) && e is InvalidCommand,
        },
{
    match request {
        Value::Array(data) => {
            if data.len() < 1 {
                return Err(Error::InvalidCommand("Expected an array but received 0 bytes"));
            }
            proof {
                assert(models_of(data@)[0] == data@[0]@);
            }
            let cmd_part = match data[0].str_value() {
                Some(c) => c,
                None => {
                    return Err(
                        Error::InvalidCommand("Expected Command to be parseable as string"),
                    );
                },
            };
            let command = match Command::from_str(cmd_part) {
                Ok(c) => c,
                Err(e) => {
                    return Err(e);
                },
            };
            command.construct_response(data, store, config, now, now_wall)
        },
        _ => Err(Error::InvalidCommand("Unrecognizable request: expected a command array")),
    }
}

} // verus!
