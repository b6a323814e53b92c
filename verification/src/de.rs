//! The frame decoder: reads complete protocol values out of a byte buffer.
//!
//! The deserializer is fed raw transport bytes and hands back one decoded
//! value per call, tracking how far into the buffer it has read.  Its
//! result is specified exactly by [`crate::wire::dec_value`]: a decoded
//! value consumes precisely the bytes of one frame, an `IncompleteFrame`
//! error asks the caller for more input, and a `MalformedFrame` error
//! rejects the input for good.
use vstd::prelude::*;
use vstd::slice::{slice_subrange, slice_to_vec};

use crate::wire::{
    all_digits, dec_line, dec_value, digits_val, first_cr, i64_of_line, size_of_line,
    string_from_bytes, ParseResult, ARRAY_PREFIX, BULK_STRING_PREFIX, CR, INTEGER_PREFIX, LF,
    SIMPLE_STRING_PREFIX,
};
use crate::wire::{latin1_chars, lemma_first_cr_at, lemma_first_cr_char};
use crate::{models_of, Error, Value};

verus! {

/// Index of the first CR byte at or after `start`.
fn find_cr(buf: &[u8], start: usize) -> (r: Option<usize>)
    requires
        start <= buf@.len(),
    ensures
        match r {
            Some(i) => start <= i < buf@.len() && first_cr(buf@.skip(start as int)) == Some(
                i - start,
            ),
            None => first_cr(buf@.skip(start as int)) is None,
        },
{
    let ghost s = buf@.skip(start as int);
    let blen = buf.len();
    let mut i = start;
    while i < blen
        invariant
            start <= i <= buf@.len(),
            blen == buf@.len(),
            s == buf@.skip(start as int),
            forall|j: int| start <= j < i ==> buf@[j] != CR,
        decreases buf@.len() - i,
    {
        if buf[i] == CR {
            proof {
                assert(s[i - start] == buf@[i as int]);
                assert forall|j: int| 0 <= j < i - start implies s[j] != CR by {
                    assert(s[j] == buf@[start + j]);
                }
                lemma_first_cr_at(s, i - start);
            }
            return Some(i);
        }
        i += 1;
    }
    proof {
        lemma_first_cr_char(s);
        match first_cr(s) {
            Some(k) => {
                assert(s[k] == buf@[start + k]);
                assert(false);
            },
            None => {},
        }
    }
    None
}

/// Reads one CRLF-terminated line starting at `pos`; returns the index just
/// past the line's content and the position after the terminator.
fn read_line(buf: &[u8], pos: usize) -> (r: Result<(usize, usize), Error>)
    requires
        pos <= buf@.len(),
    ensures
        match r {
            Ok((e, np)) => {
                &&& pos <= e
                &&& e + 2 == np
                &&& np <= buf@.len()
                &&& dec_line(buf@.skip(pos as int)) == ParseResult::Found(
                    buf@.subrange(pos as int, e as int),
                    np - pos,
                )
            },
            Err(Error::IncompleteFrame) => dec_line(buf@.skip(pos as int)) is NeedMore,
            Err(Error::MalformedFrame) => dec_line(buf@.skip(pos as int)) is Malformed,
            Err(_) => false,
        },
{
    let ghost s = buf@.skip(pos as int);
    let blen = buf.len();
    match find_cr(buf, pos) {
        Some(i) => {
            if i + 1 < blen {
                proof {
                    assert(s[i - pos + 1] == buf@[i + 1]);
                }
                if buf[i + 1] == LF {
                    proof {
                        assert(s.take(i - pos) =~= buf@.subrange(pos as int, i as int));
                    }
                    Ok((i, i + 2))
                } else {
                    Err(Error::MalformedFrame)
                }
            } else {
                Err(Error::IncompleteFrame)
            }
        },
        None => Err(Error::IncompleteFrame),
    }
}

/// Parses a run of decimal digits in `buf[start..end)` whose value is at
/// most `bound`.
fn parse_u64_digits(buf: &[u8], start: usize, end: usize, bound: u64) -> (r: Option<u64>)
    requires
        start <= end <= buf@.len(),
    ensures
        ({
            let line = buf@.subrange(start as int, end as int);
            match r {
                Some(v) => line.len() > 0 && all_digits(line) && digits_val(line) == v && v
                    <= bound,
                None => !(line.len() > 0 && all_digits(line) && digits_val(line)
                    <= bound as nat),
            }
        }),
{
    let ghost line = buf@.subrange(start as int, end as int);
    if start == end {
        return None;
    }
    let mut acc: u64 = 0;
    let mut i = start;
    while i < end
        invariant
            start <= i <= end <= buf@.len(),
            line == buf@.subrange(start as int, end as int),
            all_digits(buf@.subrange(start as int, i as int)),
            digits_val(buf@.subrange(start as int, i as int)) == acc,
            acc <= bound,
        decreases end - i,
    {
        let b = buf[i];
        let ghost pre = buf@.subrange(start as int, i as int);
        let ghost cur = buf@.subrange(start as int, i as int + 1);
        proof {
            assert(cur =~= pre.push(buf@[i as int]));
            assert(cur.drop_last() =~= pre);
        }
        if b < 48 || b > 57 {
            proof {
                assert(line[i - start] == b);
                assert(!all_digits(line));
            }
            return None;
        }
        let d = (b - 48) as u64;
        let wide: u128 = acc as u128 * 10 + d as u128;
        if wide > bound as u128 {
            proof {
                assert(digits_val(cur) == acc * 10 + d);
                lemma_digits_val_monotone(line, i + 1 - start);
                assert(line.take(i + 1 - start) =~= cur);
            }
            return None;
        }
        acc = wide as u64;
        i += 1;
    }
    proof {
        assert(buf@.subrange(start as int, end as int) =~= line);
    }
    Some(acc)
}

/// The value of a digit string only grows as more digits are appended.
proof fn lemma_digits_val_monotone(s: Seq<u8>, i: int)
    requires
        0 <= i <= s.len(),
    ensures
        digits_val(s) >= digits_val(s.take(i)),
    decreases s.len(),
{
    if i < s.len() {
        lemma_digits_val_monotone(s.drop_last(), i);
        assert(s.drop_last().take(i) =~= s.take(i));
    } else {
        assert(s.take(i) =~= s);
    }
}

/// Parses a length line: either `-1` or a bounded run of digits.
fn parse_size_line(buf: &[u8], start: usize, end: usize) -> (r: Result<i64, Error>)
    requires
        start <= end <= buf@.len(),
    ensures
        ({
            let line = buf@.subrange(start as int, end as int);
            match r {
                Ok(n) => size_of_line(line) == Some(n as int) && -1 <= n,
                Err(Error::MalformedFrame) => size_of_line(line) is None,
                Err(_) => false,
            }
        }),
{
    let ghost line = buf@.subrange(start as int, end as int);
    if end - start == 2 && buf[start] == 45 && buf[start + 1] == 49 {
        proof {
            assert(line.len() == 2 && line[0] == 45 && line[1] == 49);
        }
        return Ok(-1);
    }
    proof {
        assert(!(line.len() == 2 && line[0] == 45 && line[1] == 49));
    }
    match parse_u64_digits(buf, start, end, i64::MAX as u64) {
        Some(v) => Ok(v as i64),
        None => Err(Error::MalformedFrame),
    }
}

/// Parses a signed decimal integer in `buf[start..end)`, exactly as the
/// wire grammar's integer line.
pub(crate) fn parse_i64_line(buf: &[u8], start: usize, end: usize) -> (r: Option<i64>)
    requires
        start <= end <= buf@.len(),
    ensures
        r == i64_of_line(buf@.subrange(start as int, end as int)),
{
    let ghost line = buf@.subrange(start as int, end as int);
    if end - start >= 2 && buf[start] == 45 {
        proof {
            assert(line.drop_first() =~= buf@.subrange(start as int + 1, end as int));
        }
        match parse_u64_digits(buf, start + 1, end, 9223372036854775808u64) {
            Some(v) => {
                if v == 9223372036854775808u64 {
                    Some(i64::MIN)
                } else {
                    Some(-(v as i64))
                }
            },
            None => None,
        }
    } else if end - start >= 2 && buf[start] == 43 {
        proof {
            assert(line.drop_first() =~= buf@.subrange(start as int + 1, end as int));
        }
        match parse_u64_digits(buf, start + 1, end, i64::MAX as u64) {
            Some(v) => Some(v as i64),
            None => None,
        }
    } else {
        match parse_u64_digits(buf, start, end, i64::MAX as u64) {
            Some(v) => Some(v as i64),
            None => None,
        }
    }
}

/// Builds the text whose characters are the given raw bytes, one character
/// per byte, as the wire grammar reads simple-string lines.
fn latin1_string(buf: &[u8], start: usize, end: usize) -> (r: String)
    requires
        start <= end <= buf@.len(),
    ensures
        r@ == latin1_chars(buf@.subrange(start as int, end as int)),
{
    let ghost line = buf@.subrange(start as int, end as int);
    let mut utf8: Vec<u8> = Vec::new();
    let mut i = start;
    while i < end
        invariant
            start <= i <= end <= buf@.len(),
            line == buf@.subrange(start as int, end as int),
            utf8@ == vstd::utf8::encode_utf8(
                latin1_chars(buf@.subrange(start as int, i as int)),
            ),
        decreases end - i,
    {
        let b = buf[i];
        let ghost pre_chars = latin1_chars(buf@.subrange(start as int, i as int));
        let ghost cur_chars = latin1_chars(buf@.subrange(start as int, i as int + 1));
        proof {
            assert(cur_chars =~= pre_chars.push(b as char));
            crate::wire::lemma_encode_utf8_push(pre_chars, b as char);
        }
        if b < 0x80 {
            utf8.push(b);
            proof {
                crate::wire::lemma_scalar_of_low_byte(b);
                assert(utf8@ =~= vstd::utf8::encode_utf8(cur_chars));
            }
        } else {
            utf8.push(0xC0 | (b >> 6));
            utf8.push(0x80 | (b & 0x3F));
            proof {
                crate::wire::lemma_scalar_of_high_byte(b);
                assert(utf8@ =~= vstd::utf8::encode_utf8(cur_chars));
            }
        }
        i += 1;
    }
    proof {
        assert(buf@.subrange(start as int, i as int) =~= line);
        vstd::utf8::encode_utf8_valid_utf8(latin1_chars(line));
        vstd::utf8::encode_utf8_decode_utf8(latin1_chars(line));
    }
    match string_from_bytes(utf8) {
        Some(text) => text,
        None => {
            proof {
                assert(false);
            }
            String::new()
        },
    }
}

/// Decodes the first complete protocol value at `pos`.
fn decode_at(buf: &[u8], pos: usize) -> (r: Result<(Value, usize), Error>)
    requires
        pos <= buf@.len(),
    ensures
        match r {
            Ok((v, np)) => pos < np <= buf@.len() && dec_value(buf@.skip(pos as int))
                == ParseResult::Found(v@, np - pos),
            Err(Error::IncompleteFrame) => dec_value(buf@.skip(pos as int)) is NeedMore,
            Err(Error::MalformedFrame) => dec_value(buf@.skip(pos as int)) is Malformed,
            Err(_) => false,
        },
    decreases buf@.len() - pos,
{
    let ghost s = buf@.skip(pos as int);
    if pos == buf.len() {
        return Err(Error::IncompleteFrame);
    }
    let prefix = buf[pos];
    proof {
        assert(s[0] == prefix);
        assert(s.drop_first() =~= buf@.skip(pos as int + 1));
    }
    if prefix == SIMPLE_STRING_PREFIX {
        let (e, np) = match read_line(buf, pos + 1) {
            Ok(x) => x,
            Err(er) => {
                return Err(er);
            },
        };
        let text = latin1_string(buf, pos + 1, e);
        Ok((Value::SimpleString(text), np))
    } else if prefix == INTEGER_PREFIX {
        let (e, np) = match read_line(buf, pos + 1) {
            Ok(x) => x,
            Err(er) => {
                return Err(er);
            },
        };
        match parse_i64_line(buf, pos + 1, e) {
            Some(i) => Ok((Value::Integer(i), np)),
            None => Err(Error::MalformedFrame),
        }
    } else if prefix == BULK_STRING_PREFIX {
        let (e, np) = match read_line(buf, pos + 1) {
            Ok(x) => x,
            Err(er) => {
                return Err(er);
            },
        };
        let n = match parse_size_line(buf, pos + 1, e) {
            Ok(n) => n,
            Err(er) => {
                return Err(er);
            },
        };
        if n == -1 {
            Ok((Value::BulkString(None), np))
        } else {
            let ghost body = s.drop_first().skip(np - pos - 1);
            proof {
                assert(body =~= buf@.skip(np as int));
            }
            let nu = n as u64;
            let avail = (buf.len() - np) as u64;
            if avail < nu + 2 {
                Err(Error::IncompleteFrame)
            } else {
                let nsize = n as usize;
                proof {
                    assert(body[n as int] == buf@[np + nsize]);
                    assert(body[n as int + 1] == buf@[np + nsize + 1]);
                }
                if buf[np + nsize] != CR || buf[np + nsize + 1] != LF {
                    Err(Error::MalformedFrame)
                } else {
                    let payload = slice_to_vec(slice_subrange(buf, np, np + nsize));
                    proof {
                        assert(body.take(n as int) =~= buf@.subrange(
                            np as int,
                            np as int + nsize as int,
                        ));
                    }
                    match string_from_bytes(payload) {
                        Some(text) => Ok((Value::BulkString(Some(text)), np + nsize + 2)),
                        None => Err(Error::MalformedFrame),
                    }
                }
            }
        }
    } else if prefix == ARRAY_PREFIX {
        let (e, np) = match read_line(buf, pos + 1) {
            Ok(x) => x,
            Err(er) => {
                return Err(er);
            },
        };
        let n = match parse_size_line(buf, pos + 1, e) {
            Ok(n) => n,
            Err(er) => {
                return Err(er);
            },
        };
        if n == -1 {
            Ok((Value::Null, np))
        } else {
            let count = n as u64;
            let mut values: Vec<Value> = Vec::new();
            let mut cur = np;
            let mut k: u64 = 0;
            proof {
                assert(s.drop_first() == buf@.skip(pos as int + 1));
                assert(s.drop_first().skip(np - pos - 1) =~= buf@.skip(np as int));
                assert(models_of(values@) =~= Seq::<crate::ValueModel>::empty());
            }
            while k < count
                invariant
                    pos < np <= cur <= buf@.len(),
                    k <= count,
                    values@.len() == k,
                    s == buf@.skip(pos as int),
                    match dec_elems_at(buf@, np as int, count as nat) {
                        ParseResult::Found(ms, c2) => dec_value(s) == ParseResult::Found(
                            crate::ValueModel::Array(ms),
                            np - pos + c2,
                        ),
                        ParseResult::NeedMore => dec_value(s) is NeedMore,
                        ParseResult::Malformed => dec_value(s) is Malformed,
                    },
                    match dec_elems_at(buf@, cur as int, (count - k) as nat) {
                        ParseResult::Found(ms, c2) => dec_elems_at(buf@, np as int, count as nat)
                            == ParseResult::Found(models_of(values@) + ms, cur - np + c2),
                        ParseResult::NeedMore => dec_elems_at(
                            buf@,
                            np as int,
                            count as nat,
                        ) is NeedMore,
                        ParseResult::Malformed => dec_elems_at(
                            buf@,
                            np as int,
                            count as nat,
                        ) is Malformed,
                    },
                decreases count - k,
            {
                let ghost left = (count - k) as nat;
                match decode_at(buf, cur) {
                    Ok((v, np2)) => {
                        proof {
                            assert(buf@.skip(cur as int).skip(np2 - cur) =~= buf@.skip(
                                np2 as int,
                            ));
                            assert(dec_elems_at(buf@, cur as int, left) == match dec_elems_at(
                                buf@,
                                np2 as int,
                                (left - 1) as nat,
                            ) {
                                ParseResult::Found(ms2, c3) => ParseResult::Found(
                                    seq![v@] + ms2,
                                    np2 - cur + c3,
                                ),
                                ParseResult::NeedMore => ParseResult::NeedMore,
                                ParseResult::Malformed => ParseResult::Malformed,
                            });
                            assert(models_of(values@.push(v)) =~= models_of(values@).push(v@));
                            lemma_elems_assoc(models_of(values@), v@);
                        }
                        values.push(v);
                        cur = np2;
                        k = k + 1;
                    },
                    Err(er) => {
                        proof {
                            assert(left > 0);
                            assert(dec_elems_at(buf@, cur as int, left) is NeedMore
                                || dec_elems_at(buf@, cur as int, left) is Malformed);
                        }
                        return Err(er);
                    },
                }
            }
            proof {
                assert(dec_elems_at(buf@, cur as int, 0nat) == ParseResult::Found(
                    Seq::<crate::ValueModel>::empty(),
                    0int,
                ));
                assert(models_of(values@) + Seq::<crate::ValueModel>::empty() =~= models_of(
                    values@,
                ));
            }
            Ok((Value::Array(values), cur))
        }
    } else {
        Err(Error::MalformedFrame)
    }
}

/// `dec_elems` phrased over a position in the whole buffer.
spec fn dec_elems_at(buf: Seq<u8>, pos: int, n: nat) -> ParseResult<Seq<crate::ValueModel>> {
    crate::wire::dec_elems(buf.skip(pos), n)
}

/// Prepending an already-parsed element to a parsed tail.
proof fn lemma_elems_assoc(ms: Seq<crate::ValueModel>, m: crate::ValueModel)
    ensures
        forall|tail: Seq<crate::ValueModel>| (ms.push(m) + tail) =~= ms + (seq![m] + tail),
{
}

/// The frame decoder over a buffer of transport bytes.
pub struct StreamDeserializer {
    stream: Vec<u8>,
    pos: usize,
}

impl StreamDeserializer {
    /// All bytes received so far.
    pub closed spec fn buffered(&self) -> Seq<u8> {
        self.stream@
    }

    /// How many of them have been consumed by decoded frames.
    pub closed spec fn position(&self) -> int {
        self.pos as int
    }

    pub open spec fn wf(&self) -> bool {
        0 <= self.position() <= self.buffered().len()
    }

    /// The bytes not yet consumed.
    pub open spec fn remaining(&self) -> Seq<u8> {
        self.buffered().skip(self.position())
    }

    pub fn new(stream: Vec<u8>) -> (r: Self)
        ensures
            r.wf(),
            r.buffered() == stream@,
            r.position() == 0,
    {
        Self { stream, pos: 0 }
    }

    /// Appends freshly received transport bytes.
    pub fn feed(&mut self, chunk: &[u8])
        requires
            old(self).wf(),
        ensures
            final(self).wf(),
            final(self).buffered() == old(self).buffered() + chunk@,
            final(self).position() == old(self).position(),
    {
        self.stream.extend_from_slice(chunk);
    }

    /// Whether any received bytes await decoding: on end of transport, a
    /// pending partial frame is an error, an empty buffer a clean close.
    pub fn pending(&self) -> (r: bool)
        requires
            self.wf(),
        ensures
            r == (self.remaining().len() > 0),
    {
        self.pos < self.stream.len()
    }

    /// Decodes the next complete protocol value, or reports that the buffer
    /// holds no complete frame yet (`IncompleteFrame`) or can never again
    /// hold one (`MalformedFrame`).
    pub fn decode_next(&mut self) -> (r: Result<Value, Error>)
        requires
            old(self).wf(),
        ensures
            final(self).wf(),
            final(self).buffered() == old(self).buffered(),
            match r {
                Ok(v) => {
                    &&& dec_value(old(self).remaining()) == ParseResult::Found(
                        v@,
                        final(self).position() - old(self).position(),
                    )
                    &&& final(self).position() > old(self).position()
                },
                Err(Error::IncompleteFrame) => dec_value(old(self).remaining()) is NeedMore
                    && *final(self) == *old(self),
                Err(Error::MalformedFrame) => dec_value(old(self).remaining()) is Malformed
                    && *final(self) == *old(self),
                Err(_) => false,
            },
    {
        match decode_at(self.stream.as_slice(), self.pos) {
            Ok((v, np)) => {
                self.pos = np;
                Ok(v)
            },
            Err(er) => Err(er),
        }
    }
}

} // verus!
