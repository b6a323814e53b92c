//! The wire grammar of the frame protocol, at the level of byte sequences.
//!
//! Every framed element begins with a one-byte type prefix and ends with
//! CRLF.  [`encode_model`] gives the canonical byte form of a protocol
//! value; [`dec_value`] is the decoder, a function from a byte sequence to
//! the first complete value it holds (or `NeedMore` / `Malformed`).  The
//! executable codec in `de` and `se` is specified against these functions,
//! and the round-trip laws at the bottom of this file relate them.
use vstd::prelude::*;
use vstd::utf8::{decode_utf8, encode_utf8, valid_utf8};

use crate::ValueModel;

verus! {

pub const SIMPLE_STRING_PREFIX: u8 = 43;

pub const INTEGER_PREFIX: u8 = 58;

pub const BULK_STRING_PREFIX: u8 = 36;

pub const ARRAY_PREFIX: u8 = 42;

pub const CR: u8 = 13;

pub const LF: u8 = 10;

/// What a parse attempt over a byte sequence yields: a result together with
/// the number of bytes it consumed, a request for more input, or a rejection.
pub enum ParseResult<T> {
    Found(T, int),
    NeedMore,
    Malformed,
}

/// The ASCII decimal digits of `n`, most significant first.
pub open spec fn dec_digits(n: nat) -> Seq<u8>
    decreases n,
{
    if n < 10 {
        seq![(48 + n) as u8]
    } else {
        dec_digits(n / 10).push((48 + n % 10) as u8)
    }
}

/// The ASCII decimal form of a signed integer: a minus sign for negative
/// values, then the digits of the magnitude.
pub open spec fn int_digits(i: int) -> Seq<u8> {
    if i >= 0 {
        dec_digits(i as nat)
    } else {
        seq![45u8] + dec_digits((-i) as nat)
    }
}

pub open spec fn crlf() -> Seq<u8> {
    seq![CR, LF]
}

pub open spec fn is_digit(b: u8) -> bool {
    48 <= b <= 57
}

pub open spec fn all_digits(s: Seq<u8>) -> bool {
    forall|i: int| 0 <= i < s.len() ==> is_digit(#[trigger] s[i])
}

/// The numeric value of a string of ASCII decimal digits.
pub open spec fn digits_val(s: Seq<u8>) -> nat
    decreases s.len(),
{
    if s.len() == 0 {
        0
    } else {
        digits_val(s.drop_last()) * 10 + (if is_digit(s.last()) {
            (s.last() - 48) as nat
        } else {
            0
        })
    }
}

/// Index of the first CR byte, if any.
pub open spec fn first_cr(s: Seq<u8>) -> Option<int>
    decreases s.len(),
{
    if s.len() == 0 {
        None
    } else if s[0] == CR {
        Some(0)
    } else {
        match first_cr(s.drop_first()) {
            Some(i) => Some(i + 1),
            None => None,
        }
    }
}

/// One CRLF-terminated line: the bytes before the first CR, which must be
/// followed by LF.  A missing terminator asks for more input; a stray byte
/// after the CR is a malformed frame.
pub open spec fn dec_line(s: Seq<u8>) -> ParseResult<Seq<u8>> {
    match first_cr(s) {
        None => ParseResult::NeedMore,
        Some(i) => if i + 1 < s.len() {
            if s[i + 1] == LF {
                ParseResult::Found(s.take(i), i + 2)
            } else {
                ParseResult::Malformed
            }
        } else {
            ParseResult::NeedMore
        },
    }
}

/// A length line: either the two bytes `-1`, or a non-empty run of decimal
/// digits whose value fits in a signed 64-bit integer.
pub open spec fn size_of_line(line: Seq<u8>) -> Option<int> {
    if line.len() == 2 && line[0] == 45 && line[1] == 49 {
        Some(-1)
    } else if line.len() > 0 && all_digits(line) && digits_val(line) <= i64::MAX as nat {
        Some(digits_val(line) as int)
    } else {
        None
    }
}

/// A signed integer line: an optional sign, then a non-empty run of decimal
/// digits, whose value fits in a signed 64-bit integer.
pub open spec fn i64_of_line(line: Seq<u8>) -> Option<i64> {
    if line.len() >= 2 && line[0] == 45 {
        let mag = line.drop_first();
        if all_digits(mag) && digits_val(mag) <= 0x8000000000000000nat {
            Some((-(digits_val(mag) as int)) as i64)
        } else {
            None
        }
    } else if line.len() >= 2 && line[0] == 43 {
        let mag = line.drop_first();
        if all_digits(mag) && digits_val(mag) <= i64::MAX as nat {
            Some(digits_val(mag) as int as i64)
        } else {
            None
        }
    } else if line.len() >= 1 && all_digits(line) && digits_val(line) <= i64::MAX as nat {
        Some(digits_val(line) as int as i64)
    } else {
        None
    }
}

/// The canonical encoding of a protocol value.
pub open spec fn encode_model(m: ValueModel) -> Seq<u8>
    decreases m, 0nat,
{
    match m {
        ValueModel::SimpleString(t) => seq![SIMPLE_STRING_PREFIX] + encode_utf8(t) + crlf(),
        ValueModel::Integer(i) => seq![INTEGER_PREFIX] + int_digits(i as int) + crlf(),
        ValueModel::BulkString(None) => seq![BULK_STRING_PREFIX, 45u8, 49u8] + crlf(),
        ValueModel::BulkString(Some(t)) => seq![BULK_STRING_PREFIX] + dec_digits(
            encode_utf8(t).len(),
        ) + crlf() + encode_utf8(t) + crlf(),
        ValueModel::Array(ms) => seq![ARRAY_PREFIX] + dec_digits(ms.len()) + crlf()
            + encode_models(ms),
        ValueModel::Null => seq![ARRAY_PREFIX, 45u8, 49u8] + crlf(),
    }
}

/// The encodings of a sequence of values, in order.
pub open spec fn encode_models(ms: Seq<ValueModel>) -> Seq<u8>
    decreases ms, 1nat,
{
    if ms.len() == 0 {
        seq![]
    } else {
        encode_model(ms[0]) + encode_models(ms.drop_first())
    }
}

/// The characters a raw line denotes: one character per byte, the character
/// of that byte's value.  Simple-string and integer lines are read this
/// way, so no byte sequence is rejected for its encoding.
pub open spec fn latin1_chars(s: Seq<u8>) -> Seq<char> {
    s.map_values(|b: u8| b as char)
}

/// A value the encoder may be asked to produce and the decoder gives back
/// unchanged: simple strings are ASCII without CR or LF (the encoder writes
/// text as UTF-8, the decoder reads lines one byte per character, and the
/// two agree exactly on ASCII), and every wire-visible length fits in a
/// signed 64-bit integer.
pub open spec fn encodable(m: ValueModel) -> bool
    decreases m,
{
    match m {
        ValueModel::SimpleString(t) => vstd::utf8::is_ascii_chars(t) && !t.contains('\r')
            && !t.contains('\n'),
        ValueModel::Integer(_) => true,
        ValueModel::BulkString(None) => true,
        ValueModel::BulkString(Some(t)) => encode_utf8(t).len() <= i64::MAX as nat,
        ValueModel::Array(ms) => ms.len() <= i64::MAX as nat && (forall|i: int|
            0 <= i < ms.len() ==> encodable(#[trigger] ms[i])),
        ValueModel::Null => true,
    }
}

/// The decoder: the first complete protocol value held by `s`, with the
/// number of bytes it occupies.
pub open spec fn dec_value(s: Seq<u8>) -> ParseResult<ValueModel>
    decreases s.len(), 0nat,
{
    if s.len() == 0 {
        ParseResult::NeedMore
    } else {
        let rest = s.drop_first();
        if s[0] == SIMPLE_STRING_PREFIX {
            match dec_line(rest) {
                ParseResult::Found(line, c) => ParseResult::Found(
                    ValueModel::SimpleString(latin1_chars(line)),
                    1 + c,
                ),
                ParseResult::NeedMore => ParseResult::NeedMore,
                ParseResult::Malformed => ParseResult::Malformed,
            }
        } else if s[0] == INTEGER_PREFIX {
            match dec_line(rest) {
                ParseResult::Found(line, c) => match i64_of_line(line) {
                    Some(i) => ParseResult::Found(ValueModel::Integer(i), 1 + c),
                    None => ParseResult::Malformed,
                },
                ParseResult::NeedMore => ParseResult::NeedMore,
                ParseResult::Malformed => ParseResult::Malformed,
            }
        } else if s[0] == BULK_STRING_PREFIX {
            match dec_line(rest) {
                ParseResult::Found(line, c) => match size_of_line(line) {
                    Some(n) => if n == -1 {
                        ParseResult::Found(ValueModel::BulkString(None), 1 + c)
                    } else {
                        let body = rest.skip(c);
                        if body.len() < n + 2 {
                            ParseResult::NeedMore
                        } else if body[n] != CR || body[n + 1] != LF {
                            ParseResult::Malformed
                        } else if valid_utf8(body.take(n)) {
                            ParseResult::Found(
                                ValueModel::BulkString(Some(decode_utf8(body.take(n)))),
                                1 + c + n + 2,
                            )
                        } else {
                            ParseResult::Malformed
                        }
                    },
                    None => ParseResult::Malformed,
                },
                ParseResult::NeedMore => ParseResult::NeedMore,
                ParseResult::Malformed => ParseResult::Malformed,
            }
        } else if s[0] == ARRAY_PREFIX {
            match dec_line(rest) {
                ParseResult::Found(line, c) => match size_of_line(line) {
                    Some(n) => if n == -1 {
                        ParseResult::Found(ValueModel::Null, 1 + c)
                    } else if 1 <= c <= rest.len() {
                        match dec_elems(rest.skip(c), n as nat) {
                            ParseResult::Found(ms, c2) => ParseResult::Found(
                                ValueModel::Array(ms),
                                1 + c + c2,
                            ),
                            ParseResult::NeedMore => ParseResult::NeedMore,
                            ParseResult::Malformed => ParseResult::Malformed,
                        }
                    } else {
                        ParseResult::Malformed
                    },
                    None => ParseResult::Malformed,
                },
                ParseResult::NeedMore => ParseResult::NeedMore,
                ParseResult::Malformed => ParseResult::Malformed,
            }
        } else {
            ParseResult::Malformed
        }
    }
}

/// `n` consecutive protocol values at the head of `s`.
pub open spec fn dec_elems(s: Seq<u8>, n: nat) -> ParseResult<Seq<ValueModel>>
    decreases s.len(), n + 1,
{
    if n == 0 {
        ParseResult::Found(seq![], 0)
    } else {
        match dec_value(s) {
            ParseResult::Found(m, c) => if 1 <= c <= s.len() {
                match dec_elems(s.skip(c), (n - 1) as nat) {
                    ParseResult::Found(ms, c2) => ParseResult::Found(seq![m] + ms, c + c2),
                    ParseResult::NeedMore => ParseResult::NeedMore,
                    ParseResult::Malformed => ParseResult::Malformed,
                }
            } else {
                ParseResult::Malformed
            },
            ParseResult::NeedMore => ParseResult::NeedMore,
            ParseResult::Malformed => ParseResult::Malformed,
        }
    }
}

/// Relies on `String::from_utf8`: it returns `Ok` exactly when the input is
/// valid UTF-8, and the returned string holds the decoding of those bytes.
#[verifier::external_body]
pub(crate) fn string_from_bytes(bytes: Vec<u8>) -> (r: Option<String>)
    ensures
        r is Some <==> valid_utf8(bytes@),
        r is Some ==> r.unwrap()@ == decode_utf8(bytes@),
{
    match String::from_utf8(bytes) {
        Ok(s) => Some(s),
        Err(_) => None,
    }
}

pub proof fn lemma_dec_digits(n: nat)
    ensures
        dec_digits(n).len() >= 1,
        all_digits(dec_digits(n)),
        digits_val(dec_digits(n)) == n,
    decreases n,
{
    if n < 10 {
        let line = dec_digits(n);
        assert(line =~= seq![(48 + n) as u8]);
        assert(line.last() == (48 + n) as u8);
        assert(line.drop_last() =~= Seq::<u8>::empty());
        assert(digits_val(line.drop_last()) == 0);
        assert(digits_val(line) == n);
    } else {
        lemma_dec_digits(n / 10);
        let pre = dec_digits(n / 10);
        let d = (48 + n % 10) as u8;
        let line = pre.push(d);
        assert(line.drop_last() =~= pre);
        assert(line.last() == d);
        assert forall|i: int| 0 <= i < line.len() implies is_digit(#[trigger] line[i]) by {
            if i < pre.len() {
                assert(is_digit(pre[i]));
            }
        }
        vstd::arithmetic::div_mod::lemma_fundamental_div_mod(n as int, 10);
    }
}

pub proof fn lemma_size_of_dec_digits(n: nat)
    requires
        n <= i64::MAX as nat,
    ensures
        size_of_line(dec_digits(n)) == Some(n as int),
{
    lemma_dec_digits(n);
    let line = dec_digits(n);
    assert(is_digit(line[0]));
}

pub proof fn lemma_i64_of_int_digits(i: i64)
    ensures
        i64_of_line(int_digits(i as int)) == Some(i),
{
    if i >= 0 {
        lemma_dec_digits(i as nat);
        let line = dec_digits(i as nat);
        assert(is_digit(line[0]));
        if line.len() >= 2 {
            assert(line[0] != 45 && line[0] != 43);
        }
    } else {
        let mag = (-(i as int)) as nat;
        lemma_dec_digits(mag);
        let line = int_digits(i as int);
        assert(line[0] == 45);
        assert(line.drop_first() =~= dec_digits(mag));
    }
}

pub proof fn lemma_first_cr_char(s: Seq<u8>)
    ensures
        match first_cr(s) {
            Some(i) => 0 <= i < s.len() && s[i] == CR && (forall|j: int|
                0 <= j < i ==> s[j] != CR),
            None => forall|j: int| 0 <= j < s.len() ==> s[j] != CR,
        },
    decreases s.len(),
{
    if s.len() == 0 {
    } else if s[0] == CR {
    } else {
        let rest = s.drop_first();
        lemma_first_cr_char(rest);
        match first_cr(rest) {
            Some(i) => {
                assert(s[i + 1] == rest[i]);
                assert forall|j: int| 0 <= j < i + 1 implies s[j] != CR by {
                    if j > 0 {
                        assert(rest[j - 1] != CR);
                    }
                }
            },
            None => {
                assert forall|j: int| 0 <= j < s.len() implies s[j] != CR by {
                    if j > 0 {
                        assert(rest[j - 1] != CR);
                    }
                }
            },
        }
    }
}

pub proof fn lemma_first_cr_at(s: Seq<u8>, i: int)
    requires
        0 <= i < s.len(),
        s[i] == CR,
        forall|j: int| 0 <= j < i ==> s[j] != CR,
    ensures
        first_cr(s) == Some(i),
{
    lemma_first_cr_char(s);
    match first_cr(s) {
        Some(i2) => {
            if i2 < i {
                assert(s[i2] != CR);
            } else if i < i2 {
                assert(s[i] != CR);
            }
        },
        None => {
            assert(s[i] != CR);
        },
    }
}

/// A CR-free line followed by CRLF and anything else reads back as exactly
/// that line.
pub proof fn lemma_dec_line_exact(line: Seq<u8>, extra: Seq<u8>)
    requires
        forall|j: int| 0 <= j < line.len() ==> line[j] != CR,
    ensures
        dec_line(line + crlf() + extra) == ParseResult::Found(line, line.len() as int + 2),
{
    let s = line + crlf() + extra;
    let n = line.len() as int;
    assert(s[n] == CR);
    assert forall|j: int| 0 <= j < n implies s[j] != CR by {
        assert(s[j] == line[j]);
    }
    lemma_first_cr_at(s, n);
    assert(s[n + 1] == LF);
    assert(s.take(n) =~= line);
}

pub proof fn lemma_dec_line_bounds(s: Seq<u8>)
    ensures
        match dec_line(s) {
            ParseResult::Found(line, c) => {
                &&& 2 <= c <= s.len()
                &&& line == s.take(c - 2)
                &&& line.len() == c - 2
                &&& forall|j: int| 0 <= j < line.len() ==> line[j] != CR
            },
            _ => true,
        },
{
    lemma_first_cr_char(s);
    match dec_line(s) {
        ParseResult::Found(line, c) => {
            let i = c - 2;
            assert(line == s.take(i));
            assert forall|j: int| 0 <= j < line.len() implies line[j] != CR by {
                assert(line[j] == s[j]);
            }
        },
        _ => {},
    }
}

/// For an ASCII text, the encoder's UTF-8 bytes are the characters
/// themselves, byte for byte, and reading them back one byte per character
/// restores the text.
pub proof fn lemma_ascii_encode_latin1(t: Seq<char>)
    requires
        vstd::utf8::is_ascii_chars(t),
    ensures
        encode_utf8(t).len() == t.len(),
        forall|j: int| 0 <= j < t.len() ==> encode_utf8(t)[j] == t[j] as u8,
        latin1_chars(encode_utf8(t)) == t,
{
    vstd::utf8::is_ascii_chars_encode_utf8(t);
    let eu = encode_utf8(t);
    assert forall|j: int| 0 <= j < t.len() implies latin1_chars(eu)[j] == t[j] by {
        assert(eu[j] == t[j] as u8);
        assert((t[j] as u32) < 0x80);
        assert((eu[j] as u32) as char == eu[j] as char);
        vstd::utf8::char_u32_cast(t[j], t[j] as u32);
    }
    assert(latin1_chars(eu) =~= t);
}

/// Appending one character to a text appends its scalar's encoding to the
/// text's UTF-8 bytes.
pub proof fn lemma_encode_utf8_push(chars: Seq<char>, c: char)
    ensures
        encode_utf8(chars.push(c)) == encode_utf8(chars) + vstd::utf8::encode_scalar(c as u32),
    decreases chars.len(),
{
    if chars.len() == 0 {
        assert(chars.push(c)[0] == c);
        assert(chars.push(c).drop_first() =~= Seq::<char>::empty());
        assert(encode_utf8(Seq::<char>::empty()) =~= Seq::<u8>::empty());
        assert(encode_utf8(chars.push(c)) =~= vstd::utf8::encode_scalar(c as u32)
            + Seq::<u8>::empty());
        assert(encode_utf8(chars.push(c)) =~= encode_utf8(chars) + vstd::utf8::encode_scalar(
            c as u32,
        ));
    } else {
        assert(chars.push(c)[0] == chars[0]);
        assert(chars.push(c).drop_first() =~= chars.drop_first().push(c));
        lemma_encode_utf8_push(chars.drop_first(), c);
        assert(encode_utf8(chars.push(c)) =~= encode_utf8(chars) + vstd::utf8::encode_scalar(
            c as u32,
        ));
    }
}

/// A byte below 0x80, read as a character, encodes back as that one byte.
pub proof fn lemma_scalar_of_low_byte(b: u8)
    requires
        b < 0x80,
    ensures
        vstd::utf8::encode_scalar((b as char) as u32) == seq![b],
{
    assert((b as char) as u32 == b as u32);
    let c = b as u32;
    assert(c <= 0x7f && (c & 0x7F) as u8 == b) by (bit_vector)
        requires
            c == b as u32 && b < 0x80,
    ;
    assert(vstd::utf8::encode_scalar(c) =~= seq![b]);
}

/// A byte at or above 0x80, read as a character, encodes as the two-byte
/// UTF-8 form of its value.
pub proof fn lemma_scalar_of_high_byte(b: u8)
    requires
        b >= 0x80,
    ensures
        vstd::utf8::encode_scalar((b as char) as u32) == seq![
            (0xC0 | (b >> 6)) as u8,
            (0x80 | (b & 0x3F)) as u8,
        ],
{
    assert((b as char) as u32 == b as u32);
    let c = b as u32;
    assert(0x80 <= c <= 0x7ff && (0xC0 | ((c >> 6) & 0x1F) as u8) == (0xC0 | (b >> 6)) && (0x80
        | (c & 0x3F) as u8) == (0x80 | (b & 0x3F))) by (bit_vector)
        requires
            c == b as u32 && b >= 0x80,
    ;
    assert(vstd::utf8::encode_scalar(c) =~= seq![(0xC0 | (b >> 6)) as u8, (0x80 | (b & 0x3F)) as u8]);
}

/// The decimal digits of `n` as characters.
pub open spec fn dec_chars(n: nat) -> Seq<char> {
    dec_digits(n).map_values(|b: u8| b as char)
}

/// A run of bytes below 0x80 is valid UTF-8 and decodes byte by byte.
pub proof fn lemma_ascii_bytes_utf8(s: Seq<u8>)
    requires
        forall|i: int| 0 <= i < s.len() ==> s[i] < 0x80,
    ensures
        valid_utf8(s),
        decode_utf8(s) == s.map_values(|b: u8| b as char),
    decreases s.len(),
{
    if s.len() == 0 {
        assert(s.map_values(|b: u8| b as char) =~= Seq::<char>::empty());
    } else {
        let b = s[0];
        assert(b < 0x80 ==> (b & 0x7F) == b) by (bit_vector);
        assert(vstd::utf8::decode_first_codepoint(s) == b as u32);
        assert(vstd::utf8::length_of_first_codepoint(s) == 1);
        assert(vstd::utf8::valid_first_scalar(s));
        assert(vstd::utf8::pop_first_scalar(s) =~= s.drop_first());
        assert(forall|i: int| 0 <= i < s.drop_first().len() ==> s.drop_first()[i] < 0x80);
        lemma_ascii_bytes_utf8(s.drop_first());
        assert(valid_utf8(s));
        assert(decode_utf8(s) == seq![(b as u32) as char] + decode_utf8(s.drop_first()));
        assert((b as u32) as char == b as char);
        assert(decode_utf8(s) =~= s.map_values(|b2: u8| b2 as char));
    }
}

/// Every encoding is at least one byte long (the type prefix).
pub proof fn lemma_encode_model_len(m: ValueModel)
    ensures
        encode_model(m).len() >= 1,
{
}

pub proof fn lemma_dec_value_bounds(s: Seq<u8>)
    ensures
        match dec_value(s) {
            ParseResult::Found(_, c) => 1 <= c <= s.len(),
            _ => true,
        },
    decreases s.len(), 0nat,
{
    if s.len() == 0 {
    } else {
        let rest = s.drop_first();
        lemma_dec_line_bounds(rest);
        if s[0] == BULK_STRING_PREFIX {
            match dec_line(rest) {
                ParseResult::Found(line, c) => {
                    match size_of_line(line) {
                        Some(n) => {
                            if n != -1 {
                                let body = rest.skip(c);
                                if body.len() >= n + 2 {
                                    assert(1 + c + n + 2 <= s.len());
                                }
                            }
                        },
                        None => {},
                    }
                },
                _ => {},
            }
        } else if s[0] == ARRAY_PREFIX {
            match dec_line(rest) {
                ParseResult::Found(line, c) => {
                    match size_of_line(line) {
                        Some(n) => {
                            if n != -1 && 1 <= c <= rest.len() {
                                lemma_dec_elems_bounds(rest.skip(c), n as nat);
                            }
                        },
                        None => {},
                    }
                },
                _ => {},
            }
        }
    }
}

pub proof fn lemma_dec_elems_bounds(s: Seq<u8>, n: nat)
    ensures
        match dec_elems(s, n) {
            ParseResult::Found(_, c) => 0 <= c <= s.len(),
            _ => true,
        },
    decreases s.len(), n + 1,
{
    if n == 0 {
    } else {
        lemma_dec_value_bounds(s);
        match dec_value(s) {
            ParseResult::Found(m, c) => {
                if 1 <= c <= s.len() {
                    lemma_dec_elems_bounds(s.skip(c), (n - 1) as nat);
                }
            },
            _ => {},
        }
    }
}

/// Decoding is a prefix function on encodings: a well-formed value followed
/// by arbitrary extra bytes decodes to exactly that value, consuming exactly
/// its encoding and leaving the extra bytes unread.
#[verifier::rlimit(100)]
#[verifier::spinoff_prover]
pub proof fn lemma_encode_decode(m: ValueModel, extra: Seq<u8>)
    requires
        encodable(m),
    ensures
        dec_value(encode_model(m) + extra) == ParseResult::Found(
            m,
            encode_model(m).len() as int,
        ),
    decreases m, 0nat,
{
    let enc = encode_model(m);
    let s = enc + extra;
    match m {
        ValueModel::SimpleString(t) => {
            let eu = encode_utf8(t);
            let tail = eu + crlf() + extra;
            assert(s =~= seq![SIMPLE_STRING_PREFIX] + tail);
            assert(s[0] == SIMPLE_STRING_PREFIX);
            assert(s.drop_first() =~= tail);
            lemma_ascii_encode_latin1(t);
            assert forall|j: int| 0 <= j < eu.len() implies eu[j] != CR by {
                if eu[j] == CR {
                    assert(eu[j] == t[j] as u8);
                    vstd::utf8::char_u32_cast(t[j], t[j] as u32);
                    assert((13u32) as char == t[j]);
                    vstd::utf8::char_u32_cast('\r', 13u32);
                    assert(t.contains('\r'));
                }
            }
            lemma_dec_line_exact(eu, extra);
            assert(dec_value(s) == ParseResult::Found(
                ValueModel::SimpleString(t),
                1 + eu.len() as int + 2,
            ));
            assert(enc.len() == 1 + eu.len() + 2);
        },
        ValueModel::Integer(i) => {
            let line = int_digits(i as int);
            let tail = line + crlf() + extra;
            assert(s =~= seq![INTEGER_PREFIX] + tail);
            assert(s[0] == INTEGER_PREFIX);
            assert(s.drop_first() =~= tail);
            if i >= 0 {
                lemma_dec_digits(i as nat);
            } else {
                lemma_dec_digits((-(i as int)) as nat);
                assert(line =~= seq![45u8] + dec_digits((-(i as int)) as nat));
            }
            assert forall|j: int| 0 <= j < line.len() implies line[j] != CR by {
                if i >= 0 {
                    assert(is_digit(line[j]));
                } else {
                    if j > 0 {
                        assert(line[j] == dec_digits((-(i as int)) as nat)[j - 1]);
                        assert(is_digit(line[j]));
                    }
                }
            }
            lemma_dec_line_exact(line, extra);
            lemma_i64_of_int_digits(i);
            assert(enc.len() == 1 + line.len() + 2);
        },
        ValueModel::BulkString(None) => {
            let line = seq![45u8, 49u8];
            let tail = line + crlf() + extra;
            assert(s =~= seq![BULK_STRING_PREFIX] + tail);
            assert(s[0] == BULK_STRING_PREFIX);
            assert(s.drop_first() =~= tail);
            lemma_dec_line_exact(line, extra);
            assert(size_of_line(line) == Some(-1int));
            assert(enc.len() == 5);
        },
        ValueModel::BulkString(Some(t)) => {
            let eu = encode_utf8(t);
            let bl = eu.len() as int;
            let dl = dec_digits(eu.len());
            let after_line = eu + crlf() + extra;
            let tail = dl + crlf() + after_line;
            assert(s =~= seq![BULK_STRING_PREFIX] + tail);
            assert(s[0] == BULK_STRING_PREFIX);
            assert(s.drop_first() =~= tail);
            lemma_dec_digits(eu.len());
            assert forall|j: int| 0 <= j < dl.len() implies dl[j] != CR by {
                assert(is_digit(dl[j]));
            }
            lemma_dec_line_exact(dl, after_line);
            lemma_size_of_dec_digits(eu.len());
            let c = dl.len() as int + 2;
            assert(tail.skip(c) =~= after_line);
            assert(after_line.len() == bl + 2 + extra.len());
            assert(after_line[bl] == CR);
            assert(after_line[bl + 1] == LF);
            assert(after_line.take(bl) =~= eu);
            vstd::utf8::encode_utf8_valid_utf8(t);
            vstd::utf8::encode_utf8_decode_utf8(t);
            assert(dec_value(s) == ParseResult::Found(
                ValueModel::BulkString(Some(t)),
                1 + c + bl + 2,
            ));
            assert(enc.len() == 1 + dl.len() + 2 + bl + 2);
        },
        ValueModel::Null => {
            let line = seq![45u8, 49u8];
            let tail = line + crlf() + extra;
            assert(s =~= seq![ARRAY_PREFIX] + tail);
            assert(s[0] == ARRAY_PREFIX);
            assert(s.drop_first() =~= tail);
            lemma_dec_line_exact(line, extra);
            assert(size_of_line(line) == Some(-1int));
            assert(enc.len() == 5);
        },
        ValueModel::Array(ms) => {
            let k = ms.len();
            let dl = dec_digits(k);
            let em = encode_models(ms);
            let after_line = em + extra;
            let tail = dl + crlf() + after_line;
            assert(s =~= seq![ARRAY_PREFIX] + tail);
            assert(s[0] == ARRAY_PREFIX);
            assert(s.drop_first() =~= tail);
            lemma_dec_digits(k);
            assert forall|j: int| 0 <= j < dl.len() implies dl[j] != CR by {
                assert(is_digit(dl[j]));
            }
            lemma_dec_line_exact(dl, after_line);
            lemma_size_of_dec_digits(k);
            let c = dl.len() as int + 2;
            assert(1 <= c <= tail.len());
            assert(tail.skip(c) =~= em + extra);
            lemma_encode_decode_elems(ms, extra);
            assert(dec_value(s) == ParseResult::Found(
                ValueModel::Array(ms),
                1 + c + em.len() as int,
            ));
            assert(enc.len() == 1 + dl.len() + 2 + em.len());
        },
    }
}

pub proof fn lemma_encode_decode_elems(ms: Seq<ValueModel>, extra: Seq<u8>)
    requires
        forall|i: int| 0 <= i < ms.len() ==> encodable(#[trigger] ms[i]),
    ensures
        dec_elems(encode_models(ms) + extra, ms.len()) == ParseResult::Found(
            ms,
            encode_models(ms).len() as int,
        ),
    decreases ms, 1nat,
{
    let em = encode_models(ms);
    let s = em + extra;
    if ms.len() == 0 {
        assert(ms =~= Seq::<ValueModel>::empty());
        assert(dec_elems(s, 0) == ParseResult::Found(Seq::<ValueModel>::empty(), 0int));
    } else {
        let rest = ms.drop_first();
        let e0 = encode_model(ms[0]);
        let em1 = encode_models(rest);
        assert(encodable(ms[0]));
        assert(s =~= e0 + (em1 + extra));
        lemma_encode_decode(ms[0], em1 + extra);
        assert(dec_value(s) == ParseResult::Found(ms[0], e0.len() as int));
        lemma_encode_model_len(ms[0]);
        assert(1 <= e0.len() <= s.len());
        assert(s.skip(e0.len() as int) =~= em1 + extra);
        assert forall|i: int| 0 <= i < rest.len() implies encodable(#[trigger] rest[i]) by {
            assert(rest[i] == ms[i + 1]);
        }
        lemma_encode_decode_elems(rest, extra);
        assert(seq![ms[0]] + rest =~= ms);
        assert(em.len() == e0.len() + em1.len());
    }
}

/// A successful decode is stable under appending input: it depends only on
/// the bytes it consumed.
pub proof fn lemma_dec_value_extend(s: Seq<u8>, t: Seq<u8>)
    requires
        s.len() <= t.len(),
        forall|j: int| 0 <= j < s.len() ==> s[j] == t[j],
        dec_value(s) is Found,
    ensures
        dec_value(t) == dec_value(s),
    decreases s.len(), 0nat,
{
    let rs = s.drop_first();
    let rt = t.drop_first();
    assert(forall|j: int| 0 <= j < rs.len() ==> rs[j] == rt[j]);
    lemma_dec_line_extend(rs, rt);
    lemma_dec_line_bounds(rs);
    if s[0] == BULK_STRING_PREFIX {
        match dec_line(rs) {
            ParseResult::Found(line, c) => {
                match size_of_line(line) {
                    Some(n) => {
                        if n != -1 {
                            let body_s = rs.skip(c);
                            let body_t = rt.skip(c);
                            assert(forall|j: int|
                                0 <= j < body_s.len() ==> body_s[j] == body_t[j]);
                            if body_s.len() >= n + 2 {
                                assert(body_s.take(n) =~= body_t.take(n));
                            }
                        }
                    },
                    None => {},
                }
            },
            _ => {},
        }
    } else if s[0] == ARRAY_PREFIX {
        match dec_line(rs) {
            ParseResult::Found(line, c) => {
                match size_of_line(line) {
                    Some(n) => {
                        if n != -1 && 1 <= c <= rs.len() {
                            let es = rs.skip(c);
                            let et = rt.skip(c);
                            assert(forall|j: int| 0 <= j < es.len() ==> es[j] == et[j]);
                            if dec_elems(es, n as nat) is Found {
                                lemma_dec_elems_extend(es, et, n as nat);
                            }
                        }
                    },
                    None => {},
                }
            },
            _ => {},
        }
    }
}

pub proof fn lemma_dec_elems_extend(s: Seq<u8>, t: Seq<u8>, n: nat)
    requires
        s.len() <= t.len(),
        forall|j: int| 0 <= j < s.len() ==> s[j] == t[j],
        dec_elems(s, n) is Found,
    ensures
        dec_elems(t, n) == dec_elems(s, n),
    decreases s.len(), n + 1,
{
    if n == 0 {
    } else {
        match dec_value(s) {
            ParseResult::Found(m, c) => {
                lemma_dec_value_extend(s, t);
                if 1 <= c <= s.len() {
                    let ss = s.skip(c);
                    let ts = t.skip(c);
                    assert(forall|j: int| 0 <= j < ss.len() ==> ss[j] == ts[j]);
                    if dec_elems(ss, (n - 1) as nat) is Found {
                        lemma_dec_elems_extend(ss, ts, (n - 1) as nat);
                    }
                }
            },
            _ => {},
        }
    }
}

proof fn lemma_dec_line_extend(s: Seq<u8>, t: Seq<u8>)
    requires
        s.len() <= t.len(),
        forall|j: int| 0 <= j < s.len() ==> s[j] == t[j],
        dec_line(s) is Found,
    ensures
        dec_line(t) == dec_line(s),
{
    lemma_first_cr_char(s);
    match first_cr(s) {
        Some(i) => {
            lemma_first_cr_at(t, i);
            assert(t.take(i) =~= s.take(i));
        },
        None => {},
    }
}

/// No strict truncation of a well-formed frame decodes as a complete value:
/// the decoder asks for more input or rejects, but never misreads it.
pub proof fn lemma_truncation_rejected(m: ValueModel, k: int)
    requires
        encodable(m),
        0 <= k < encode_model(m).len(),
    ensures
        !(dec_value(encode_model(m).take(k)) is Found),
{
    let enc = encode_model(m);
    let s = enc.take(k);
    if dec_value(s) is Found {
        lemma_dec_value_bounds(s);
        lemma_dec_value_extend(s, enc);
        lemma_roundtrip(m);
        match dec_value(s) {
            ParseResult::Found(_, c) => {
                assert(c <= k);
                assert(c == enc.len());
            },
            _ => {},
        }
    }
}

/// Round trip: decoding the encoding of a well-formed protocol value yields
/// the value back, consuming the whole encoding.
pub proof fn lemma_roundtrip(m: ValueModel)
    requires
        encodable(m),
    ensures
        dec_value(encode_model(m)) == ParseResult::Found(m, encode_model(m).len() as int),
{
    lemma_encode_decode(m, seq![]);
    assert(encode_model(m) + seq![] =~= encode_model(m));
}

} // verus!
