//! The frame encoder: turns protocol values into their canonical wire bytes.
//!
//! The serializer owns a byte sink; `write` appends exactly
//! [`crate::wire::encode_model`] of the value's model, so everything proved
//! of the wire grammar carries over to what is sent.
use vstd::prelude::*;

use crate::wire::{
    crlf, dec_digits, encode_model, encode_models, int_digits, ARRAY_PREFIX, BULK_STRING_PREFIX,
    CR, INTEGER_PREFIX, LF, SIMPLE_STRING_PREFIX,
};
use crate::{models_of, Value, ValueModel};

verus! {

/// Appends the ASCII decimal digits of `n`, most significant first.
pub(crate) fn push_decimal(out: &mut Vec<u8>, n: u64)
    ensures
        final(out)@ == old(out)@ + dec_digits(n as nat),
    decreases n,
{
    if n >= 10 {
        assert(n as nat / 10 < n as nat) by {
            vstd::arithmetic::div_mod::lemma_div_is_ordered_by_denominator(n as int, 1, 10);
        }
        push_decimal(out, n / 10);
    }
    out.push(48 + (n % 10) as u8);
    if n >= 10 {
        assert(dec_digits(n as nat) =~= dec_digits(n as nat / 10).push(
            (48 + n as nat % 10) as u8,
        ));
        assert(out@ =~= old(out)@ + dec_digits(n as nat));
    } else {
        assert(out@ =~= old(out)@ + dec_digits(n as nat));
    }
}

/// Encoding a sequence of values element by element: appending one more
/// value appends its encoding.
proof fn lemma_encode_models_push(ms: Seq<ValueModel>, m: ValueModel)
    ensures
        encode_models(ms.push(m)) == encode_models(ms) + encode_model(m),
    decreases ms,
{
    if ms.len() == 0 {
        assert(ms.push(m)[0] == m);
        assert(ms.push(m).drop_first() =~= Seq::<ValueModel>::empty());
        assert(encode_models(Seq::<ValueModel>::empty()) =~= Seq::<u8>::empty());
        assert(encode_models(ms.push(m)) =~= encode_model(m) + Seq::<u8>::empty());
        assert(encode_models(ms.push(m)) =~= encode_models(ms) + encode_model(m));
    } else {
        assert(ms.push(m)[0] == ms[0]);
        assert(ms.push(m).drop_first() =~= ms.drop_first().push(m));
        lemma_encode_models_push(ms.drop_first(), m);
        assert(encode_models(ms.push(m)) =~= encode_models(ms) + encode_model(m));
    }
}

/// The frame encoder over an owned byte sink.
pub struct StreamSerializer {
    stream: Vec<u8>,
}

impl StreamSerializer {
    /// The bytes written so far.
    pub closed spec fn view(&self) -> Seq<u8> {
        self.stream@
    }

    pub fn new(stream: Vec<u8>) -> (r: Self)
        ensures
            r@ == stream@,
    {
        Self { stream }
    }

    pub fn into_inner(self) -> (r: Vec<u8>)
        ensures
            r@ == self@,
    {
        self.stream
    }

    /// Appends the CRLF frame terminator.
    pub fn send_term(&mut self)
        ensures
            final(self)@ == old(self)@ + crlf(),
    {
        self.stream.push(CR);
        self.stream.push(LF);
        assert(self@ =~= old(self)@ + crlf());
    }

    fn write_simple_string(&mut self, s: &str)
        ensures
            final(self)@ == old(self)@ + encode_model(ValueModel::SimpleString(s@)),
    {
        self.stream.push(SIMPLE_STRING_PREFIX);
        self.stream.extend_from_slice(s.as_bytes());
        self.send_term();
        assert(self@ =~= old(self)@ + encode_model(ValueModel::SimpleString(s@)));
    }

    fn write_bulk_string(&mut self, s: &str)
        ensures
            final(self)@ == old(self)@ + encode_model(ValueModel::BulkString(Some(s@))),
    {
        let bytes = s.as_bytes();
        self.stream.push(BULK_STRING_PREFIX);
        push_decimal(&mut self.stream, bytes.len() as u64);
        self.send_term();
        self.stream.extend_from_slice(bytes);
        self.send_term();
        assert(self@ =~= old(self)@ + encode_model(ValueModel::BulkString(Some(s@))));
    }

    fn write_empty_bulk_string(&mut self)
        ensures
            final(self)@ == old(self)@ + encode_model(ValueModel::BulkString(None)),
    {
        self.stream.push(BULK_STRING_PREFIX);
        self.stream.push(45);
        self.stream.push(49);
        self.send_term();
        assert(self@ =~= old(self)@ + encode_model(ValueModel::BulkString(None)));
    }

    fn write_integer(&mut self, n: i64)
        ensures
            final(self)@ == old(self)@ + encode_model(ValueModel::Integer(n)),
    {
        self.stream.push(INTEGER_PREFIX);
        if n < 0 {
            self.stream.push(45);
            let mag: u64 = if n == i64::MIN {
                9223372036854775808u64
            } else {
                (-n) as u64
            };
            push_decimal(&mut self.stream, mag);
            assert(int_digits(n as int) =~= seq![45u8] + dec_digits(mag as nat));
        } else {
            push_decimal(&mut self.stream, n as u64);
        }
        self.send_term();
        assert(self@ =~= old(self)@ + encode_model(ValueModel::Integer(n)));
    }

    fn write_null(&mut self)
        ensures
            final(self)@ == old(self)@ + encode_model(ValueModel::Null),
    {
        self.stream.push(ARRAY_PREFIX);
        self.stream.push(45);
        self.stream.push(49);
        self.send_term();
        assert(self@ =~= old(self)@ + encode_model(ValueModel::Null));
    }

    /// Appends the canonical encoding of the given protocol value.
    pub fn write(&mut self, value: &Value)
        ensures
            final(self)@ == old(self)@ + encode_model(value@),
        decreases value,
    {
        match value {
            Value::SimpleString(s) => self.write_simple_string(s.as_str()),
            Value::BulkString(os) => match os {
                Some(s) => self.write_bulk_string(s.as_str()),
                None => self.write_empty_bulk_string(),
            },
            Value::Integer(n) => self.write_integer(*n),
            Value::Null => self.write_null(),
            Value::Array(es) => {
                let ghost ms = models_of(es@);
                self.stream.push(ARRAY_PREFIX);
                push_decimal(&mut self.stream, es.len() as u64);
                self.send_term();
                let ghost header_done = self@;
                assert(header_done =~= old(self)@ + seq![ARRAY_PREFIX] + dec_digits(es@.len())
                    + crlf());
                assert(encode_models(ms.take(0)) =~= Seq::<u8>::empty());
                assert(header_done + encode_models(ms.take(0)) =~= header_done);
                let n = es.len();
                for i in 0..n
                    invariant
                        value is Array,
                        value->Array_0 == *es,
                        n == es.len(),
                        ms == models_of(es@),
                        ms.len() == n,
                        self@ == header_done + encode_models(ms.take(i as int)),
                        header_done == old(self)@ + seq![ARRAY_PREFIX] + dec_digits(es@.len())
                            + crlf(),
                    decreases n - i,
                {
                    proof {
                        assert(value->Array_0 == *es);
                        assert(decreases_to!(*value => value->Array_0));
                        assert(decreases_to!(*es => es@));
                        assert(decreases_to!(es@ => es@[i as int]));
                        assert(decreases_to!(*value => es@[i as int]));
                    }
                    self.write(&es[i]);
                    proof {
                        assert(ms.take(i + 1) =~= ms.take(i as int).push(ms[i as int]));
                        lemma_encode_models_push(ms.take(i as int), ms[i as int]);
                        assert(ms[i as int] == es@[i as int]@);
                    }
                }
                assert(ms.take(n as int) =~= ms);
                assert(self@ =~= old(self)@ + encode_model(value@));
            },
        }
    }
}

} // verus!
