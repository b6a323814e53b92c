//! The snapshot reader: parses a compact binary keyspace snapshot.
//!
//! A snapshot is the magic string `REDIS`, four version bytes, a run of
//! opcode-tagged records, and an end-of-file opcode.  Lengths and small
//! integers use a variable-width encoding selected by the top two bits of
//! the first byte.  [`rdb_parser`] rebuilds the initial keyspace from such
//! bytes; its result is specified exactly by [`spec_rdb`].  Reading the
//! snapshot file itself is I/O and stays with the caller.
use vstd::prelude::*;
use vstd::slice::{slice_subrange, slice_to_vec};
use vstd::utf8::{decode_utf8, valid_utf8};

use crate::se::push_decimal;
use crate::store::{EntryModel, ExpiryTime, Store};
use crate::wire::{
    dec_chars, lemma_ascii_bytes_utf8, lemma_dec_digits, string_from_bytes, ParseResult,
};
use crate::Error;

verus! {

/// The value-type byte that begins each snapshot record's payload.  Only
/// plain strings are supported by the string-only keyspace; the other types
/// are recognized and rejected.
#[derive(Debug, PartialEq, Eq, Structural)]
pub enum Value {
    Str,
    List,
    SetData,
    SortedSet,
    HashData,
    Zipmap,
    Ziplist,
    Intset,
    SortedSetInZiplist,
    HashmapInZiplist,
    ListInQuicklist,
}

/// The value type a byte denotes, if any.
pub open spec fn spec_value_type(b: u8) -> Option<Value> {
    if b == 0 {
        Some(Value::Str)
    } else if b == 1 {
        Some(Value::List)
    } else if b == 2 {
        Some(Value::SetData)
    } else if b == 3 {
        Some(Value::SortedSet)
    } else if b == 4 {
        Some(Value::HashData)
    } else if b == 9 {
        Some(Value::Zipmap)
    } else if b == 10 {
        Some(Value::Ziplist)
    } else if b == 11 {
        Some(Value::Intset)
    } else if b == 12 {
        Some(Value::SortedSetInZiplist)
    } else if b == 13 {
        Some(Value::HashmapInZiplist)
    } else if b == 14 {
        Some(Value::ListInQuicklist)
    } else {
        None
    }
}

impl Value {
    pub fn try_from(value: u8) -> (r: Result<Value, Error>)
        ensures
            match spec_value_type(value) {
                Some(t) => r == Ok::<Value, Error>(t),
                None => r matches Err(e) && e is InvalidCommand,
            },
    {
        match value {
            0 => Ok(Value::Str),
            1 => Ok(Value::List),
            2 => Ok(Value::SetData),
            3 => Ok(Value::SortedSet),
            4 => Ok(Value::HashData),
            9 => Ok(Value::Zipmap),
            10 => Ok(Value::Ziplist),
            11 => Ok(Value::Intset),
            12 => Ok(Value::SortedSetInZiplist),
            13 => Ok(Value::HashmapInZiplist),
            14 => Ok(Value::ListInQuicklist),
            _ => Err(Error::InvalidCommand("Unrecognized value for Value type")),
        }
    }
}

/// A decoded length field: either an actual length, or a marker for one of
/// the special payload formats.
#[derive(Debug, PartialEq, Eq, Structural)]
pub enum LengthEncodingType {
    Length(usize),
    Special(EncodingFormat),
}

/// The special payload formats: a little integer stored raw in the given
/// number of bytes, or a compressed string.
#[derive(Debug, PartialEq, Eq, Structural)]
pub enum EncodingFormat {
    Integer(usize),
    Compressed,
}

/// The variable-width length encoding, selected by the top two bits of the
/// first byte: six bits inline, fourteen bits big-endian, a four-byte
/// big-endian word, or a special format tag.
pub open spec fn spec_length_encoding(s: Seq<u8>) -> ParseResult<LengthEncodingType> {
    if s.len() == 0 {
        ParseResult::NeedMore
    } else {
        let b = s[0];
        if b / 64 == 0 {
            ParseResult::Found(LengthEncodingType::Length((b % 64) as usize), 1)
        } else if b / 64 == 1 {
            if s.len() < 2 {
                ParseResult::NeedMore
            } else {
                ParseResult::Found(
                    LengthEncodingType::Length(((b % 64) * 256 + s[1]) as usize),
                    2,
                )
            }
        } else if b / 64 == 2 {
            if s.len() < 5 {
                ParseResult::NeedMore
            } else {
                ParseResult::Found(
                    LengthEncodingType::Length(
                        (s[1] * 0x1000000 + s[2] * 0x10000 + s[3] * 0x100 + s[4]) as usize,
                    ),
                    5,
                )
            }
        } else {
            if b % 64 == 0 {
                ParseResult::Found(LengthEncodingType::Special(EncodingFormat::Integer(1)), 1)
            } else if b % 64 == 1 {
                ParseResult::Found(LengthEncodingType::Special(EncodingFormat::Integer(2)), 1)
            } else if b % 64 == 2 {
                ParseResult::Found(LengthEncodingType::Special(EncodingFormat::Integer(4)), 1)
            } else if b % 64 == 3 {
                ParseResult::Found(LengthEncodingType::Special(EncodingFormat::Compressed), 1)
            } else {
                ParseResult::Malformed
            }
        }
    }
}

pub fn decode_length_encoding(buf: &[u8]) -> (r: Result<(LengthEncodingType, usize), Error>)
    ensures
        match r {
            Ok((t, c)) => spec_length_encoding(buf@) == ParseResult::Found(t, c as int) && 1 <= c
                <= buf@.len(),
            Err(e) => !(spec_length_encoding(buf@) is Found) && e is InvalidCommand,
        },
{
    if buf.len() == 0 {
        return Err(Error::InvalidCommand("snapshot input is truncated"));
    }
    let b = buf[0];
    let tag = b / 64;
    if tag == 0 {
        Ok((LengthEncodingType::Length((b % 64) as usize), 1))
    } else if tag == 1 {
        if buf.len() < 2 {
            Err(Error::InvalidCommand("snapshot input is truncated"))
        } else {
            Ok((LengthEncodingType::Length((b % 64) as usize * 256 + buf[1] as usize), 2))
        }
    } else if tag == 2 {
        if buf.len() < 5 {
            Err(Error::InvalidCommand("snapshot input is truncated"))
        } else {
            let l = buf[1] as usize * 0x1000000 + buf[2] as usize * 0x10000 + buf[3] as usize
                * 0x100 + buf[4] as usize;
            Ok((LengthEncodingType::Length(l), 5))
        }
    } else {
        let low = b % 64;
        if low == 0 {
            Ok((LengthEncodingType::Special(EncodingFormat::Integer(1)), 1))
        } else if low == 1 {
            Ok((LengthEncodingType::Special(EncodingFormat::Integer(2)), 1))
        } else if low == 2 {
            Ok((LengthEncodingType::Special(EncodingFormat::Integer(4)), 1))
        } else if low == 3 {
            Ok((LengthEncodingType::Special(EncodingFormat::Compressed), 1))
        } else {
            Err(Error::InvalidCommand("Unexpected value of remaining 6 bits for special format"))
        }
    }
}

/// The characters of `String::from_utf8_lossy` on the given bytes: valid
/// UTF-8 decodes as itself, anything else with replacement characters.  The
/// exact replacement rule takes pages to state; the trusted wrapper below
/// gives the result this name.
pub uninterp spec fn lossy_utf8(bytes: Seq<u8>) -> Seq<char>;

/// Relies on `String::from_utf8_lossy`: the result is a function of the
/// bytes alone, and valid UTF-8 passes through unchanged, as its decoding.
#[verifier::external_body]
fn lossy_string_from_bytes(bytes: Vec<u8>) -> (r: String)
    ensures
        r@ == lossy_utf8(bytes@),
        valid_utf8(bytes@) ==> r@ == decode_utf8(bytes@),
{
    String::from_utf8_lossy(bytes.as_slice()).into_owned()
}

/// A string field: a length followed by raw payload bytes, taken as text by
/// lossy UTF-8 decoding, or a raw little integer whose decimal form becomes
/// the string.  Compressed strings are rejected.
pub open spec fn spec_parse_string(s: Seq<u8>) -> ParseResult<Seq<char>> {
    match spec_length_encoding(s) {
        ParseResult::Found(t, c) => match t {
            LengthEncodingType::Length(l) => if s.len() < c + l {
                ParseResult::NeedMore
            } else {
                ParseResult::Found(lossy_utf8(s.subrange(c, c + l)), c + l)
            },
            LengthEncodingType::Special(EncodingFormat::Integer(w)) => if s.len() < c + w {
                ParseResult::NeedMore
            } else {
                let v: int = if w == 1 {
                    s[c] as int
                } else if w == 2 {
                    s[c] * 256 + s[c + 1]
                } else {
                    s[c] * 0x1000000 + s[c + 1] * 0x10000 + s[c + 2] * 0x100 + s[c + 3]
                };
                ParseResult::Found(dec_chars(v as nat), c + w)
            },
            LengthEncodingType::Special(EncodingFormat::Compressed) => ParseResult::Malformed,
        },
        ParseResult::NeedMore => ParseResult::NeedMore,
        ParseResult::Malformed => ParseResult::Malformed,
    }
}

/// The decimal form of `n` as an owned string.
fn decimal_string(n: u64) -> (r: String)
    ensures
        r@ == dec_chars(n as nat),
{
    let mut digits: Vec<u8> = Vec::new();
    push_decimal(&mut digits, n);
    proof {
        lemma_dec_digits(n as nat);
        assert(digits@ =~= crate::wire::dec_digits(n as nat));
        assert forall|i: int| 0 <= i < digits@.len() implies digits@[i] < 0x80 by {
            assert(crate::wire::is_digit(digits@[i]));
        }
        lemma_ascii_bytes_utf8(digits@);
    }
    match string_from_bytes(digits) {
        Some(s) => s,
        None => {
            proof {
                assert(false);
            }
            String::new()
        },
    }
}

pub fn parse_string(buf: &[u8]) -> (r: Result<(String, usize), Error>)
    ensures
        match r {
            Ok((st, c)) => spec_parse_string(buf@) == ParseResult::Found(st@, c as int) && 1 <= c
                <= buf@.len(),
            Err(e) => !(spec_parse_string(buf@) is Found) && e is InvalidCommand,
        },
{
    let (t, c) = match decode_length_encoding(buf) {
        Ok(x) => x,
        Err(e) => {
            return Err(e);
        },
    };
    match t {
        LengthEncodingType::Length(l) => {
            if buf.len() - c < l {
                Err(Error::InvalidCommand("snapshot input is truncated"))
            } else {
                let raw = slice_to_vec(slice_subrange(buf, c, c + l));
                proof {
                    assert(raw@ =~= buf@.subrange(c as int, c as int + l as int));
                }
                Ok((lossy_string_from_bytes(raw), c + l))
            }
        },
        LengthEncodingType::Special(EncodingFormat::Integer(w)) => {
            if buf.len() - c < w {
                return Err(Error::InvalidCommand("snapshot input is truncated"));
            }
            let v: u64 = if w == 1 {
                buf[c] as u64
            } else if w == 2 {
                buf[c] as u64 * 256 + buf[c + 1] as u64
            } else if w == 4 {
                buf[c] as u64 * 0x1000000 + buf[c + 1] as u64 * 0x10000 + buf[c + 2] as u64
                    * 0x100 + buf[c + 3] as u64
            } else {
                proof {
                    assert(false);
                }
                0
            };
            Ok((decimal_string(v), c + w))
        },
        LengthEncodingType::Special(EncodingFormat::Compressed) => Err(
            Error::InvalidCommand("compressed snapshot strings are not supported"),
        ),
    }
}

/// A typed key/value record: the string value type byte, then the key and
/// value strings.
pub open spec fn spec_key_value(s: Seq<u8>) -> ParseResult<(Seq<char>, Seq<char>)> {
    if s.len() == 0 {
        ParseResult::NeedMore
    } else if s[0] != 0 {
        ParseResult::Malformed
    } else {
        match spec_parse_string(s.drop_first()) {
            ParseResult::Found(k, c1) => if 1 <= c1 <= s.len() - 1 {
                match spec_parse_string(s.skip(1 + c1)) {
                    ParseResult::Found(v, c2) => ParseResult::Found((k, v), 1 + c1 + c2),
                    ParseResult::NeedMore => ParseResult::NeedMore,
                    ParseResult::Malformed => ParseResult::Malformed,
                }
            } else {
                ParseResult::Malformed
            },
            ParseResult::NeedMore => ParseResult::NeedMore,
            ParseResult::Malformed => ParseResult::Malformed,
        }
    }
}

pub fn read_key_string_value(buf: &[u8]) -> (r: Result<(String, String, usize), Error>)
    ensures
        match r {
            Ok((k, v, c)) => spec_key_value(buf@) == ParseResult::Found((k@, v@), c as int) && 1
                <= c <= buf@.len(),
            Err(e) => !(spec_key_value(buf@) is Found) && e is InvalidCommand,
        },
{
    if buf.len() == 0 {
        return Err(Error::InvalidCommand("snapshot input is truncated"));
    }
    match Value::try_from(buf[0]) {
        Ok(Value::Str) => {
            let rest = slice_subrange(buf, 1, buf.len());
            proof {
                assert(rest@ =~= buf@.drop_first());
            }
            let (key, c1) = match parse_string(rest) {
                Ok(x) => x,
                Err(e) => {
                    return Err(e);
                },
            };
            let rest2 = slice_subrange(buf, 1 + c1, buf.len());
            proof {
                assert(rest2@ =~= buf@.skip(1 + c1 as int));
            }
            let (value, c2) = match parse_string(rest2) {
                Ok(x) => x,
                Err(e) => {
                    return Err(e);
                },
            };
            Ok((key, value, 1 + c1 + c2))
        },
        Ok(_) => Err(Error::InvalidCommand("unsupported snapshot value type")),
        Err(e) => Err(e),
    }
}

/// A 64-bit little-endian integer.
pub open spec fn le64(s: Seq<u8>) -> u64
    recommends
        s.len() == 8,
{
    (s[0] + s[1] * 0x100 + s[2] * 0x10000 + s[3] * 0x1000000 + s[4] * 0x100000000 + s[5]
        * 0x10000000000 + s[6] * 0x1000000000000 + s[7] * 0x100000000000000) as u64
}

/// A 32-bit little-endian integer.
pub open spec fn le32(s: Seq<u8>) -> u64
    recommends
        s.len() == 4,
{
    (s[0] + s[1] * 0x100 + s[2] * 0x10000 + s[3] * 0x1000000) as u64
}

/// The run of snapshot records after the header, folded over an
/// accumulating keyspace.  The end-of-file opcode (or the end of the input)
/// stops parsing; anything unreadable makes the whole snapshot invalid.
#[verifier::opaque]
pub open spec fn spec_rdb_entries(s: Seq<u8>, acc: Map<Seq<char>, EntryModel>) -> Option<
    Map<Seq<char>, EntryModel>,
>
    decreases s.len(),
{
    if s.len() == 0 {
        Some(acc)
    } else if s[0] == 0xFF {
        Some(acc)
    } else if s[0] == 0xFE {
        // database selector: one length-encoded index, ignored
        match spec_length_encoding(s.drop_first()) {
            ParseResult::Found(LengthEncodingType::Length(_), c) => if 1 <= c <= s.len() - 1 {
                spec_rdb_entries(s.skip(1 + c), acc)
            } else {
                None
            },
            _ => None,
        }
    } else if s[0] == 0xFB {
        // resize hint: two length-encoded table sizes, ignored
        match spec_length_encoding(s.drop_first()) {
            ParseResult::Found(LengthEncodingType::Length(_), c1) => if 1 <= c1 <= s.len() - 1 {
                match spec_length_encoding(s.skip(1 + c1)) {
                    ParseResult::Found(LengthEncodingType::Length(_), c2) => if 1 <= c2 <= s.len()
                        - 1 - c1 {
                        spec_rdb_entries(s.skip(1 + c1 + c2), acc)
                    } else {
                        None
                    },
                    _ => None,
                }
            } else {
                None
            },
            _ => None,
        }
    } else if s[0] == 0xFA {
        // auxiliary metadata: two strings, discarded
        match spec_parse_string(s.drop_first()) {
            ParseResult::Found(_, c1) => if 1 <= c1 <= s.len() - 1 {
                match spec_parse_string(s.skip(1 + c1)) {
                    ParseResult::Found(_, c2) => if 1 <= c2 <= s.len() - 1 - c1 {
                        spec_rdb_entries(s.skip(1 + c1 + c2), acc)
                    } else {
                        None
                    },
                    _ => None,
                }
            } else {
                None
            },
            _ => None,
        }
    } else if s[0] == 0xFC {
        // absolute expiry in milliseconds, then the keyed record
        if s.len() < 9 {
            None
        } else {
            let ms = le64(s.subrange(1, 9));
            match spec_key_value(s.skip(9)) {
                ParseResult::Found((k, v), c) => if 1 <= c <= s.len() - 9 {
                    spec_rdb_entries(
                        s.skip(9 + c),
                        acc.insert(
                            k,
                            (EntryModel {
                                value: v,
                                expires_at: Some(ExpiryTime::ExpiringSystime(ms)),
                            }),
                        ),
                    )
                } else {
                    None
                },
                _ => None,
            }
        }
    } else if s[0] == 0xFD {
        // absolute expiry in seconds, then the keyed record
        if s.len() < 5 {
            None
        } else {
            let ms = (le32(s.subrange(1, 5)) * 1000) as u64;
            match spec_key_value(s.skip(5)) {
                ParseResult::Found((k, v), c) => if 1 <= c <= s.len() - 5 {
                    spec_rdb_entries(
                        s.skip(5 + c),
                        acc.insert(
                            k,
                            (EntryModel {
                                value: v,
                                expires_at: Some(ExpiryTime::ExpiringSystime(ms)),
                            }),
                        ),
                    )
                } else {
                    None
                },
                _ => None,
            }
        }
    } else {
        // a value-type byte begins an un-expiring record
        match spec_key_value(s) {
            ParseResult::Found((k, v), c) => if 1 <= c <= s.len() {
                spec_rdb_entries(s.skip(c), acc.insert(k, (EntryModel { value: v, expires_at: None })))
            } else {
                None
            },
            _ => None,
        }
    }
}

/// A short string field as a snapshot writer lays it out: a one-byte length
/// (under 64, so the top two bits are clear), then the raw payload.
pub open spec fn len_prefixed(payload: Seq<u8>) -> Seq<u8>
    recommends
        payload.len() < 64,
{
    seq![payload.len() as u8] + payload
}

/// A short length-prefixed field parses as its payload, read lossily.
proof fn lemma_parse_len_prefixed(payload: Seq<u8>, rest: Seq<u8>)
    requires
        payload.len() < 64,
    ensures
        spec_parse_string(len_prefixed(payload) + rest) == ParseResult::Found(
            lossy_utf8(payload),
            1 + payload.len() as int,
        ),
{
    let s = len_prefixed(payload) + rest;
    assert(s[0] == payload.len() as u8);
    assert(spec_length_encoding(s) == ParseResult::Found(
        LengthEncodingType::Length(payload.len() as usize),
        1int,
    ));
    assert(s.subrange(1, 1 + payload.len() as int) =~= payload);
}

/// A plain string record as a snapshot writer lays it out: the string value
/// type byte, the key field, the value field.
pub open spec fn str_record(k: Seq<u8>, v: Seq<u8>) -> Seq<u8>
    recommends
        k.len() < 64,
        v.len() < 64,
{
    seq![0u8] + len_prefixed(k) + len_prefixed(v)
}

/// A short string record parses as its key and value, read lossily.
proof fn lemma_parse_str_record(k: Seq<u8>, v: Seq<u8>, rest: Seq<u8>)
    requires
        k.len() < 64,
        v.len() < 64,
    ensures
        spec_key_value(str_record(k, v) + rest) == ParseResult::Found(
            (lossy_utf8(k), lossy_utf8(v)),
            str_record(k, v).len() as int,
        ),
{
    let s = str_record(k, v) + rest;
    assert(s[0] == 0);
    let c1 = 1 + k.len() as int;
    assert(s.drop_first() =~= len_prefixed(k) + (len_prefixed(v) + rest));
    lemma_parse_len_prefixed(k, len_prefixed(v) + rest);
    assert(1 <= c1 <= s.len() - 1);
    assert(s.skip(1 + c1) =~= len_prefixed(v) + rest);
    lemma_parse_len_prefixed(v, rest);
}

/// The keyspace a whole snapshot denotes: the magic string and version
/// header, then the records.
pub open spec fn spec_rdb(s: Seq<u8>) -> Option<Map<Seq<char>, EntryModel>> {
    if s.len() < 9 {
        None
    } else if s.subrange(0, 5) != seq![82u8, 69u8, 68u8, 73u8, 83u8] {
        None
    } else {
        spec_rdb_entries(s.skip(9), Map::<Seq<char>, EntryModel>::empty())
    }
}

/// At the end of the input or at the end-of-file opcode, the records fold
/// to the accumulated keyspace.
proof fn lemma_entries_done(s: Seq<u8>, acc: Map<Seq<char>, EntryModel>)
    requires
        s.len() == 0 || s[0] == 0xFF,
    ensures
        spec_rdb_entries(s, acc) == Some(acc),
{
    reveal_with_fuel(spec_rdb_entries, 1);
}

/// The database-selector branch of [`spec_rdb_entries`], in isolation.
proof fn lemma_entries_select(s: Seq<u8>, acc: Map<Seq<char>, EntryModel>)
    requires
        s.len() > 0,
        s[0] == 0xFE,
    ensures
        spec_rdb_entries(s, acc) == (match spec_length_encoding(s.drop_first()) {
            ParseResult::Found(LengthEncodingType::Length(_), c) => if 1 <= c <= s.len() - 1 {
                spec_rdb_entries(s.skip(1 + c), acc)
            } else {
                None
            },
            _ => None,
        }),
{
    reveal_with_fuel(spec_rdb_entries, 1);
}

/// The resize-hint branch of [`spec_rdb_entries`], in isolation.
proof fn lemma_entries_resize(s: Seq<u8>, acc: Map<Seq<char>, EntryModel>)
    requires
        s.len() > 0,
        s[0] == 0xFB,
    ensures
        spec_rdb_entries(s, acc) == (match spec_length_encoding(s.drop_first()) {
            ParseResult::Found(LengthEncodingType::Length(_), c1) => if 1 <= c1 <= s.len() - 1 {
                match spec_length_encoding(s.skip(1 + c1)) {
                    ParseResult::Found(LengthEncodingType::Length(_), c2) => if 1 <= c2 <= s.len()
                        - 1 - c1 {
                        spec_rdb_entries(s.skip(1 + c1 + c2), acc)
                    } else {
                        None
                    },
                    _ => None,
                }
            } else {
                None
            },
            _ => None,
        }),
{
    reveal_with_fuel(spec_rdb_entries, 1);
}

/// The auxiliary-metadata branch of [`spec_rdb_entries`], in isolation.
proof fn lemma_entries_aux(s: Seq<u8>, acc: Map<Seq<char>, EntryModel>)
    requires
        s.len() > 0,
        s[0] == 0xFA,
    ensures
        spec_rdb_entries(s, acc) == (match spec_parse_string(s.drop_first()) {
            ParseResult::Found(_, c1) => if 1 <= c1 <= s.len() - 1 {
                match spec_parse_string(s.skip(1 + c1)) {
                    ParseResult::Found(_, c2) => if 1 <= c2 <= s.len() - 1 - c1 {
                        spec_rdb_entries(s.skip(1 + c1 + c2), acc)
                    } else {
                        None
                    },
                    _ => None,
                }
            } else {
                None
            },
            _ => None,
        }),
{
    reveal_with_fuel(spec_rdb_entries, 1);
}

/// The millisecond-expiry branch of [`spec_rdb_entries`], in isolation.
proof fn lemma_entries_expire_ms(s: Seq<u8>, acc: Map<Seq<char>, EntryModel>)
    requires
        s.len() > 0,
        s[0] == 0xFC,
    ensures
        spec_rdb_entries(s, acc) == (if s.len() < 9 {
            None
        } else {
            match spec_key_value(s.skip(9)) {
                ParseResult::Found((k, v), c) => if 1 <= c <= s.len() - 9 {
                    spec_rdb_entries(
                        s.skip(9 + c),
                        acc.insert(
                            k,
                            (EntryModel {
                                value: v,
                                expires_at: Some(
                                    ExpiryTime::ExpiringSystime(le64(s.subrange(1, 9))),
                                ),
                            }),
                        ),
                    )
                } else {
                    None
                },
                _ => None,
            }
        }),
{
    reveal_with_fuel(spec_rdb_entries, 1);
}

/// The second-expiry branch of [`spec_rdb_entries`], in isolation.
proof fn lemma_entries_expire_s(s: Seq<u8>, acc: Map<Seq<char>, EntryModel>)
    requires
        s.len() > 0,
        s[0] == 0xFD,
    ensures
        spec_rdb_entries(s, acc) == (if s.len() < 5 {
            None
        } else {
            match spec_key_value(s.skip(5)) {
                ParseResult::Found((k, v), c) => if 1 <= c <= s.len() - 5 {
                    spec_rdb_entries(
                        s.skip(5 + c),
                        acc.insert(
                            k,
                            (EntryModel {
                                value: v,
                                expires_at: Some(
                                    ExpiryTime::ExpiringSystime(
                                        (le32(s.subrange(1, 5)) * 1000) as u64,
                                    ),
                                ),
                            }),
                        ),
                    )
                } else {
                    None
                },
                _ => None,
            }
        }),
{
    reveal_with_fuel(spec_rdb_entries, 1);
}

/// The plain-record branch of [`spec_rdb_entries`], in isolation.
proof fn lemma_entries_plain(s: Seq<u8>, acc: Map<Seq<char>, EntryModel>)
    requires
        s.len() > 0,
        s[0] != 0xFF && s[0] != 0xFE && s[0] != 0xFB && s[0] != 0xFA && s[0] != 0xFC && s[0]
            != 0xFD,
    ensures
        spec_rdb_entries(s, acc) == (match spec_key_value(s) {
            ParseResult::Found((k, v), c) => if 1 <= c <= s.len() {
                spec_rdb_entries(s.skip(c), acc.insert(k, (EntryModel { value: v, expires_at: None })))
            } else {
                None
            },
            _ => None,
        }),
{
    reveal_with_fuel(spec_rdb_entries, 1);
}

/// Consumes a database-selector record: one length, ignored.
#[verifier::rlimit(100)]
#[verifier::spinoff_prover]
fn step_select_db(data: &[u8], pos: usize, store: &Store) -> (r: Result<usize, Error>)
    requires
        pos < data@.len(),
        data@[pos as int] == 0xFE,
    ensures
        match r {
            Ok(np) => pos < np <= data@.len() && spec_rdb_entries(data@.skip(pos as int), store@)
                == spec_rdb_entries(data@.skip(np as int), store@),
            Err(e) => spec_rdb_entries(data@.skip(pos as int), store@) is None
                && e is InvalidCommand,
        },
{
    let ghost s = data@.skip(pos as int);
    let dlen = data.len();
    let op = data[pos];
    proof {
        assert(s[0] == op);
        assert(s.drop_first() =~= data@.skip(pos as int + 1));
        lemma_entries_select(s, store@);
    }
    let rest = slice_subrange(data, pos + 1, dlen);
    proof {
        assert(rest@ =~= s.drop_first());
    }
    match decode_length_encoding(rest) {
        Ok((LengthEncodingType::Length(_), c)) => {
            proof {
                assert(s.skip(1 + c as int) =~= data@.skip(pos as int + 1 + c as int));
            }
            Ok(pos + 1 + c)
        },
        Ok((LengthEncodingType::Special(_), _)) => Err(
            Error::InvalidCommand("snapshot database selector is not a length"),
        ),
        Err(e) => Err(e),
    }
}

/// Consumes a resize-hint record: two lengths, ignored.
#[verifier::rlimit(100)]
#[verifier::spinoff_prover]
fn step_resize_db(data: &[u8], pos: usize, store: &Store) -> (r: Result<usize, Error>)
    requires
        pos < data@.len(),
        data@[pos as int] == 0xFB,
    ensures
        match r {
            Ok(np) => pos < np <= data@.len() && spec_rdb_entries(data@.skip(pos as int), store@)
                == spec_rdb_entries(data@.skip(np as int), store@),
            Err(e) => spec_rdb_entries(data@.skip(pos as int), store@) is None
                && e is InvalidCommand,
        },
{
    let ghost s = data@.skip(pos as int);
    let dlen = data.len();
    let op = data[pos];
    proof {
        assert(s[0] == op);
        assert(s.drop_first() =~= data@.skip(pos as int + 1));
        lemma_entries_resize(s, store@);
    }
    let rest = slice_subrange(data, pos + 1, dlen);
    proof {
        assert(rest@ =~= s.drop_first());
    }
    let c1 = match decode_length_encoding(rest) {
        Ok((LengthEncodingType::Length(_), c1)) => c1,
        Ok((LengthEncodingType::Special(_), _)) => {
            return Err(Error::InvalidCommand("snapshot resize hint is not a length"));
        },
        Err(e) => {
            return Err(e);
        },
    };
    let rest2 = slice_subrange(data, pos + 1 + c1, dlen);
    proof {
        assert(rest2@ =~= s.skip(1 + c1 as int));
    }
    match decode_length_encoding(rest2) {
        Ok((LengthEncodingType::Length(_), c2)) => {
            proof {
                assert(s.skip(1 + c1 as int + c2 as int) =~= data@.skip(
                    pos as int + 1 + c1 as int + c2 as int,
                ));
            }
            Ok(pos + 1 + c1 + c2)
        },
        Ok((LengthEncodingType::Special(_), _)) => Err(
            Error::InvalidCommand("snapshot resize hint is not a length"),
        ),
        Err(e) => Err(e),
    }
}

/// Consumes an auxiliary metadata record: two strings, discarded.
#[verifier::rlimit(100)]
#[verifier::spinoff_prover]
fn step_aux(data: &[u8], pos: usize, store: &Store) -> (r: Result<usize, Error>)
    requires
        pos < data@.len(),
        data@[pos as int] == 0xFA,
    ensures
        match r {
            Ok(np) => pos < np <= data@.len() && spec_rdb_entries(data@.skip(pos as int), store@)
                == spec_rdb_entries(data@.skip(np as int), store@),
            Err(e) => spec_rdb_entries(data@.skip(pos as int), store@) is None
                && e is InvalidCommand,
        },
{
    let ghost s = data@.skip(pos as int);
    let dlen = data.len();
    let op = data[pos];
    proof {
        assert(s[0] == op);
        assert(s.drop_first() =~= data@.skip(pos as int + 1));
        lemma_entries_aux(s, store@);
    }
    let rest = slice_subrange(data, pos + 1, dlen);
    proof {
        assert(rest@ =~= s.drop_first());
    }
    let c1 = match parse_string(rest) {
        Ok((_, c1)) => c1,
        Err(e) => {
            return Err(e);
        },
    };
    let rest2 = slice_subrange(data, pos + 1 + c1, dlen);
    proof {
        assert(rest2@ =~= s.skip(1 + c1 as int));
    }
    match parse_string(rest2) {
        Ok((_, c2)) => {
            proof {
                assert(s.skip(1 + c1 as int + c2 as int) =~= data@.skip(
                    pos as int + 1 + c1 as int + c2 as int,
                ));
            }
            Ok(pos + 1 + c1 + c2)
        },
        Err(e) => Err(e),
    }
}

/// Consumes a millisecond-expiry record and stores its key and value.
#[verifier::rlimit(100)]
#[verifier::spinoff_prover]
fn step_expire_ms(data: &[u8], pos: usize, store: &mut Store) -> (r: Result<usize, Error>)
    requires
        pos < data@.len(),
        data@[pos as int] == 0xFC,
        old(store).wf(),
    ensures
        final(store).wf(),
        match r {
            Ok(np) => pos < np <= data@.len() && spec_rdb_entries(
                data@.skip(pos as int),
                old(store)@,
            ) == spec_rdb_entries(data@.skip(np as int), final(store)@),
            Err(e) => spec_rdb_entries(data@.skip(pos as int), old(store)@) is None
                && e is InvalidCommand,
        },
{
    let ghost s = data@.skip(pos as int);
    let dlen = data.len();
    let op = data[pos];
    proof {
        assert(s[0] == op);
        assert(s.drop_first() =~= data@.skip(pos as int + 1));
        lemma_entries_expire_ms(s, old(store)@);
    }
    if dlen - pos < 9 {
        return Err(Error::InvalidCommand("snapshot input is truncated"));
    }
    let ms: u64 = data[pos + 1] as u64 + data[pos + 2] as u64 * 0x100 + data[pos + 3] as u64
        * 0x10000 + data[pos + 4] as u64 * 0x1000000 + data[pos + 5] as u64 * 0x100000000 + data[pos
        + 6] as u64 * 0x10000000000 + data[pos + 7] as u64 * 0x1000000000000 + data[pos + 8]
        as u64 * 0x100000000000000;
    proof {
        assert(s.subrange(1, 9) =~= data@.subrange(pos as int + 1, pos as int + 9));
        assert(ms == le64(s.subrange(1, 9)));
    }
    let rest = slice_subrange(data, pos + 9, dlen);
    proof {
        assert(rest@ =~= s.skip(9));
    }
    match read_key_string_value(rest) {
        Ok((key, value, c)) => {
            proof {
                assert(s.skip(9 + c as int) =~= data@.skip(pos as int + 9 + c as int));
            }
            store.insert(key, value, None, Some(ms), 0);
            Ok(pos + 9 + c)
        },
        Err(e) => Err(e),
    }
}

/// Consumes a second-expiry record and stores its key and value.
#[verifier::rlimit(100)]
#[verifier::spinoff_prover]
fn step_expire_s(data: &[u8], pos: usize, store: &mut Store) -> (r: Result<usize, Error>)
    requires
        pos < data@.len(),
        data@[pos as int] == 0xFD,
        old(store).wf(),
    ensures
        final(store).wf(),
        match r {
            Ok(np) => pos < np <= data@.len() && spec_rdb_entries(
                data@.skip(pos as int),
                old(store)@,
            ) == spec_rdb_entries(data@.skip(np as int), final(store)@),
            Err(e) => spec_rdb_entries(data@.skip(pos as int), old(store)@) is None
                && e is InvalidCommand,
        },
{
    let ghost s = data@.skip(pos as int);
    let dlen = data.len();
    let op = data[pos];
    proof {
        assert(s[0] == op);
        assert(s.drop_first() =~= data@.skip(pos as int + 1));
        lemma_entries_expire_s(s, old(store)@);
    }
    if dlen - pos < 5 {
        return Err(Error::InvalidCommand("snapshot input is truncated"));
    }
    let secs: u64 = data[pos + 1] as u64 + data[pos + 2] as u64 * 0x100 + data[pos + 3] as u64
        * 0x10000 + data[pos + 4] as u64 * 0x1000000;
    let ms: u64 = secs * 1000;
    proof {
        assert(s.subrange(1, 5) =~= data@.subrange(pos as int + 1, pos as int + 5));
        assert(secs == le32(s.subrange(1, 5)));
    }
    let rest = slice_subrange(data, pos + 5, dlen);
    proof {
        assert(rest@ =~= s.skip(5));
    }
    match read_key_string_value(rest) {
        Ok((key, value, c)) => {
            proof {
                assert(s.skip(5 + c as int) =~= data@.skip(pos as int + 5 + c as int));
            }
            store.insert(key, value, None, Some(ms), 0);
            Ok(pos + 5 + c)
        },
        Err(e) => Err(e),
    }
}

/// Consumes an un-expiring keyed record and stores its key and value.
#[verifier::rlimit(100)]
#[verifier::spinoff_prover]
fn step_plain(data: &[u8], pos: usize, store: &mut Store) -> (r: Result<usize, Error>)
    requires
        pos < data@.len(),
        data@[pos as int] != 0xFF && data@[pos as int] != 0xFE && data@[pos as int] != 0xFB
            && data@[pos as int] != 0xFA && data@[pos as int] != 0xFC && data@[pos as int] != 0xFD,
        old(store).wf(),
    ensures
        final(store).wf(),
        match r {
            Ok(np) => pos < np <= data@.len() && spec_rdb_entries(
                data@.skip(pos as int),
                old(store)@,
            ) == spec_rdb_entries(data@.skip(np as int), final(store)@),
            Err(e) => spec_rdb_entries(data@.skip(pos as int), old(store)@) is None
                && e is InvalidCommand,
        },
{
    let ghost s = data@.skip(pos as int);
    let dlen = data.len();
    let op = data[pos];
    proof {
        assert(s[0] == op);
        assert(s.drop_first() =~= data@.skip(pos as int + 1));
        lemma_entries_plain(s, old(store)@);
    }
    let rest = slice_subrange(data, pos, dlen);
    proof {
        assert(rest@ =~= s);
    }
    match read_key_string_value(rest) {
        Ok((key, value, c)) => {
            proof {
                assert(s.skip(c as int) =~= data@.skip(pos as int + c as int));
            }
            store.insert(key, value, None, None, 0);
            Ok(pos + c)
        },
        Err(e) => Err(e),
    }
}

/// A snapshot holding the magic string, a version, one auxiliary field, a
/// database selector, one plain string record, and the end-of-file opcode
/// loads as exactly that record's key and value: the metadata and the
/// selector leave no trace in the keyspace.
pub proof fn lemma_snapshot_single_record(
    ak: Seq<u8>,
    av: Seq<u8>,
    db: u8,
    k1: Seq<u8>,
    v1: Seq<u8>,
)
    requires
        ak.len() < 64,
        av.len() < 64,
        db < 64,
        k1.len() < 64,
        v1.len() < 64,
    ensures
        ({
            let data = seq![82u8, 69u8, 68u8, 73u8, 83u8, 48u8, 48u8, 49u8, 49u8] + (seq![0xFAu8]
                + len_prefixed(ak) + len_prefixed(av)) + seq![0xFEu8, db] + str_record(k1, v1)
                + seq![0xFFu8];
            spec_rdb(data) == Some(
                Map::<Seq<char>, EntryModel>::empty().insert(
                    lossy_utf8(k1),
                    (EntryModel { value: lossy_utf8(v1), expires_at: None }),
                ),
            )
        }),
{
    let hdr = seq![82u8, 69u8, 68u8, 73u8, 83u8, 48u8, 48u8, 49u8, 49u8];
    let aux = seq![0xFAu8] + len_prefixed(ak) + len_prefixed(av);
    let sel = seq![0xFEu8, db];
    let rec = str_record(k1, v1);
    let eof = seq![0xFFu8];
    let data = hdr + aux + sel + rec + eof;
    let acc0 = Map::<Seq<char>, EntryModel>::empty();
    assert(rec.len() == 3 + k1.len() + v1.len());
    assert(data.len() >= 9);
    assert(data.subrange(0, 5) =~= seq![82u8, 69u8, 68u8, 73u8, 83u8]);

    // the auxiliary record is read and discarded
    let s1 = data.skip(9);
    assert(s1 =~= aux + (sel + (rec + eof)));
    assert(s1[0] == 0xFA);
    lemma_entries_aux(s1, acc0);
    assert(s1.drop_first() =~= len_prefixed(ak) + (len_prefixed(av) + (sel + (rec + eof))));
    lemma_parse_len_prefixed(ak, len_prefixed(av) + (sel + (rec + eof)));
    let c1 = 1 + ak.len() as int;
    assert(1 <= c1 <= s1.len() - 1);
    assert(s1.skip(1 + c1) =~= len_prefixed(av) + (sel + (rec + eof)));
    lemma_parse_len_prefixed(av, sel + (rec + eof));
    let c2 = 1 + av.len() as int;
    assert(1 <= c2 <= s1.len() - 1 - c1);
    assert(spec_rdb_entries(s1, acc0) == spec_rdb_entries(s1.skip(1 + c1 + c2), acc0));

    // the database selector is read and ignored
    let s2 = s1.skip(1 + c1 + c2);
    assert(s2 =~= sel + (rec + eof));
    assert(s2[0] == 0xFE);
    lemma_entries_select(s2, acc0);
    assert(s2.drop_first() =~= seq![db] + (rec + eof));
    assert(s2.drop_first()[0] == db);
    assert(spec_length_encoding(s2.drop_first()) == ParseResult::Found(
        LengthEncodingType::Length(db as usize),
        1int,
    ));
    assert(spec_rdb_entries(s2, acc0) == spec_rdb_entries(s2.skip(2), acc0));

    // the string record is stored
    let s3 = s2.skip(2);
    assert(s3 =~= rec + eof);
    assert(s3[0] == 0);
    lemma_entries_plain(s3, acc0);
    lemma_parse_str_record(k1, v1, eof);
    let c = rec.len() as int;
    assert(1 <= c <= s3.len());
    let acc1 = acc0.insert(
        lossy_utf8(k1),
        (EntryModel { value: lossy_utf8(v1), expires_at: None }),
    );
    assert(spec_rdb_entries(s3, acc0) == spec_rdb_entries(s3.skip(c), acc1));

    // the end-of-file opcode stops parsing
    assert(s3.skip(c) =~= eof);
    lemma_entries_done(s3.skip(c), acc1);
}

/// A snapshot holding one millisecond-expiry record loads as that record's
/// key and value under an absolute wall-clock deadline: the little-endian
/// value of the eight bytes after the opcode.  By
/// [`crate::store::lemma_wall_expiry_get`], a read at or past that deadline
/// then sees the key as missing.
pub proof fn lemma_snapshot_expiring_record(ex: Seq<u8>, k1: Seq<u8>, v1: Seq<u8>)
    requires
        ex.len() == 8,
        k1.len() < 64,
        v1.len() < 64,
    ensures
        ({
            let data = seq![82u8, 69u8, 68u8, 73u8, 83u8, 48u8, 48u8, 49u8, 49u8] + (seq![0xFCu8]
                + ex) + str_record(k1, v1) + seq![0xFFu8];
            spec_rdb(data) == Some(
                Map::<Seq<char>, EntryModel>::empty().insert(
                    lossy_utf8(k1),
                    (EntryModel {
                        value: lossy_utf8(v1),
                        expires_at: Some(ExpiryTime::ExpiringSystime(le64(ex))),
                    }),
                ),
            )
        }),
{
    let hdr = seq![82u8, 69u8, 68u8, 73u8, 83u8, 48u8, 48u8, 49u8, 49u8];
    let rec = str_record(k1, v1);
    let eof = seq![0xFFu8];
    let data = hdr + (seq![0xFCu8] + ex) + rec + eof;
    let acc0 = Map::<Seq<char>, EntryModel>::empty();
    assert(rec.len() == 3 + k1.len() + v1.len());
    assert(data.len() >= 9);
    assert(data.subrange(0, 5) =~= seq![82u8, 69u8, 68u8, 73u8, 83u8]);

    // the expiry record is stored with its wall-clock deadline
    let s1 = data.skip(9);
    assert(s1 =~= (seq![0xFCu8] + ex) + (rec + eof));
    assert(s1[0] == 0xFC);
    lemma_entries_expire_ms(s1, acc0);
    assert(s1.len() >= 9);
    assert(s1.subrange(1, 9) =~= ex);
    assert(s1.skip(9) =~= rec + eof);
    lemma_parse_str_record(k1, v1, eof);
    let c = rec.len() as int;
    assert(1 <= c <= s1.len() - 9);
    let acc1 = acc0.insert(
        lossy_utf8(k1),
        (EntryModel {
            value: lossy_utf8(v1),
            expires_at: Some(ExpiryTime::ExpiringSystime(le64(ex))),
        }),
    );
    assert(spec_rdb_entries(s1, acc0) == spec_rdb_entries(s1.skip(9 + c), acc1));

    // the end-of-file opcode stops parsing
    assert(s1.skip(9 + c) =~= eof);
    lemma_entries_done(s1.skip(9 + c), acc1);
}

/// Parses snapshot bytes into the initial keyspace.  Exactly the snapshots
/// accepted by [`spec_rdb`] parse; any malformed or truncated input is a
/// fatal error.
pub fn rdb_parser(data: &[u8]) -> (r: Result<Store, Error>)
    ensures
        match r {
            Ok(st) => st.wf() && spec_rdb(data@) == Some(st@),
            Err(e) => spec_rdb(data@) is None && e is InvalidCommand,
        },
{
    if data.len() < 9 {
        return Err(Error::InvalidCommand("snapshot is shorter than its header"));
    }
    if !(data[0] == 82 && data[1] == 69 && data[2] == 68 && data[3] == 73 && data[4] == 83) {
        proof {
            let magic = seq![82u8, 69u8, 68u8, 73u8, 83u8];
            if data@.subrange(0, 5) == magic {
                assert(data@[0] == magic[0] && data@[1] == magic[1] && data@[2] == magic[2]
                    && data@[3] == magic[3] && data@[4] == magic[4]);
            }
        }
        return Err(Error::InvalidCommand("Expected magic string (5 bytes) to have value 'REDIS'"));
    }
    proof {
        assert(data@.subrange(0, 5) =~= seq![82u8, 69u8, 68u8, 73u8, 83u8]);
    }
    // the four version bytes are read over without validation
    let mut store = Store::new(None);
    let mut pos: usize = 9;
    let dlen = data.len();
    while pos < dlen
        invariant
            9 <= pos <= dlen == data@.len(),
            store.wf(),
            spec_rdb(data@) == spec_rdb_entries(data@.skip(pos as int), store@),
        decreases dlen - pos,
    {
        let op = data[pos];
        let step = if op == 0xFF {
            proof {
                lemma_entries_done(data@.skip(pos as int), store@);
            }
            return Ok(store);
        } else if op == 0xFE {
            step_select_db(data, pos, &store)
        } else if op == 0xFB {
            step_resize_db(data, pos, &store)
        } else if op == 0xFA {
            step_aux(data, pos, &store)
        } else if op == 0xFC {
            step_expire_ms(data, pos, &mut store)
        } else if op == 0xFD {
            step_expire_s(data, pos, &mut store)
        } else {
            step_plain(data, pos, &mut store)
        };
        match step {
            Ok(np) => {
                pos = np;
            },
            Err(e) => {
                return Err(e);
            },
        }
    }
    proof {
        assert(data@.skip(pos as int) =~= Seq::<u8>::empty());
        lemma_entries_done(data@.skip(pos as int), store@);
    }
    Ok(store)
}

} // verus!
