use redis_starter_rust::de::StreamDeserializer;
use redis_starter_rust::se::StreamSerializer;
use redis_starter_rust::{Error, Value};

fn encode(value: Value) -> Vec<u8> {
    let mut serializer = StreamSerializer::new(Vec::new());
    serializer.write(&value);
    serializer.into_inner()
}

fn encode_ref(value: &Value) -> Vec<u8> {
    let mut serializer = StreamSerializer::new(Vec::new());
    serializer.write(value);
    serializer.into_inner()
}

fn decode(data: &[u8]) -> Value {
    StreamDeserializer::new(data.to_vec()).decode_next().unwrap()
}

#[test]
fn test_write() {
    assert_eq!(&encode(Value::SimpleString("foo".into())), b"+foo\r\n");

    assert_eq!(
        &encode(Value::BulkString(Some("foobar".into()))),
        b"$6\r\nfoobar\r\n"
    );

    assert_eq!(&encode(Value::BulkString(None)), b"$-1\r\n");
}

#[test]
fn test_read() {
    assert_eq!(
        decode(b"*2\r\n$3\r\nfoo\r\n$4\r\nbars\r\n"),
        Value::Array(vec![
            Value::BulkString(Some("foo".to_string())),
            Value::BulkString(Some("bars".to_string())),
        ])
    );

    assert_eq!(
        decode(b"+hello\r\n"),
        Value::SimpleString("hello".to_string())
    );

    assert_eq!(decode(b":10\r\n"), Value::Integer(10 as i64))
}

#[test]
fn test_write_integer_ascii_decimal() {
    assert_eq!(&encode(Value::Integer(10)), b":10\r\n");
    assert_eq!(&encode(Value::Integer(0)), b":0\r\n");
    assert_eq!(&encode(Value::Integer(-42)), b":-42\r\n");
    assert_eq!(
        &encode(Value::Integer(i64::MIN)),
        b":-9223372036854775808\r\n"
    );
    assert_eq!(
        &encode(Value::Integer(i64::MAX)),
        b":9223372036854775807\r\n"
    );
}

#[test]
fn test_write_array_nested() {
    let v = Value::Array(vec![
        Value::SimpleString("a".into()),
        Value::Array(vec![Value::Integer(1)]),
    ]);
    assert_eq!(&encode(v), b"*2\r\n+a\r\n*1\r\n:1\r\n");
}

#[test]
fn test_read_negative_integer() {
    assert_eq!(decode(b":-7\r\n"), Value::Integer(-7));
    assert_eq!(decode(b":+7\r\n"), Value::Integer(7));
}

#[test]
fn test_read_empty_bulk_and_array() {
    assert_eq!(decode(b"$0\r\n\r\n"), Value::BulkString(Some(String::new())));
    assert_eq!(decode(b"*0\r\n"), Value::Array(Vec::new()));
}

#[test]
fn test_read_null_bulk_and_null_array() {
    assert_eq!(decode(b"$-1\r\n"), Value::BulkString(None));
    assert_eq!(decode(b"*-1\r\n"), Value::Null);
}

#[test]
fn test_roundtrip_each_variant() {
    // decode(encode(v)) == v for every well-formed variant
    let values = vec![
        Value::SimpleString("hello".into()),
        Value::Integer(-123),
        Value::BulkString(Some("payload".into())),
        Value::BulkString(None),
        Value::Array(vec![
            Value::SimpleString("x".into()),
            Value::Integer(5),
            Value::BulkString(Some("y".into())),
            Value::BulkString(None),
        ]),
        Value::Array(vec![Value::Array(vec![])]),
    ];
    for v in values {
        let bytes = encode_ref(&v);
        let mut de = StreamDeserializer::new(bytes);
        assert_eq!(de.decode_next().unwrap(), v);
    }
}

#[test]
fn test_decode_is_prefix_function() {
    // feeding encode(v) followed by extra bytes returns v and leaves the
    // extra bytes unread
    let mut bytes = encode(Value::SimpleString("first".into()));
    bytes.extend_from_slice(&encode(Value::Integer(2)));
    bytes.extend_from_slice(b"+partial");
    let mut de = StreamDeserializer::new(bytes);
    assert_eq!(
        de.decode_next().unwrap(),
        Value::SimpleString("first".into())
    );
    assert_eq!(de.decode_next().unwrap(), Value::Integer(2));
    assert_eq!(de.decode_next(), Err(Error::IncompleteFrame));
    de.feed(b"done\r\n");
    assert_eq!(
        de.decode_next().unwrap(),
        Value::SimpleString("partialdone".into())
    );
}

#[test]
fn test_truncations_rejected() {
    // every strict truncation of a well-formed frame errors; none decodes
    let frames: Vec<Vec<u8>> = vec![
        encode(Value::SimpleString("ok".into())),
        encode(Value::Integer(-10)),
        encode(Value::BulkString(Some("abc".into()))),
        encode(Value::BulkString(None)),
        encode(Value::Array(vec![
            Value::BulkString(Some("a".into())),
            Value::Integer(1),
        ])),
    ];
    for frame in frames {
        for k in 0..frame.len() {
            let mut de = StreamDeserializer::new(frame[..k].to_vec());
            let r = de.decode_next();
            assert!(
                r == Err(Error::IncompleteFrame) || r == Err(Error::MalformedFrame),
                "truncation to {} bytes of {:?} decoded as {:?}",
                k,
                frame,
                r
            );
        }
    }
}

#[test]
fn test_malformed_inputs_rejected() {
    // a byte after CR that is not LF
    let mut de = StreamDeserializer::new(b"+foo\rX\r\n".to_vec());
    assert_eq!(de.decode_next(), Err(Error::MalformedFrame));

    // a non-decimal character in a length field
    let mut de = StreamDeserializer::new(b"$x\r\n".to_vec());
    assert_eq!(de.decode_next(), Err(Error::MalformedFrame));

    // a non-decimal character in an integer field
    let mut de = StreamDeserializer::new(b":12a\r\n".to_vec());
    assert_eq!(de.decode_next(), Err(Error::MalformedFrame));

    // a length that overflows a signed 64-bit integer
    let mut de = StreamDeserializer::new(b"$9223372036854775808\r\n".to_vec());
    assert_eq!(de.decode_next(), Err(Error::MalformedFrame));

    // an unknown type prefix
    let mut de = StreamDeserializer::new(b"%1\r\n".to_vec());
    assert_eq!(de.decode_next(), Err(Error::MalformedFrame));

    // a bulk payload that is not valid UTF-8
    let mut de = StreamDeserializer::new(b"$2\r\n\xff\xfe\r\n".to_vec());
    assert_eq!(de.decode_next(), Err(Error::MalformedFrame));
}

#[test]
fn test_simple_string_reads_bytes_as_chars() {
    // a simple-string line is read one byte per character, so bytes above
    // 0x7F are accepted, not rejected: 0xE9 is the character U+00E9
    assert_eq!(
        decode(b"+caf\xe9\r\n"),
        Value::SimpleString("caf\u{e9}".to_string())
    );
}

#[test]
fn test_send_term() {
    let mut s = StreamSerializer::new(Vec::new());
    s.send_term();
    assert_eq!(&s.into_inner(), b"\r\n");
}

#[test]
fn test_value_accessors() {
    assert_eq!(Value::SimpleString("a".into()).str_value(), Some("a"));
    assert_eq!(Value::BulkString(Some("b".into())).str_value(), Some("b"));
    assert_eq!(Value::BulkString(None).str_value(), None);
    assert_eq!(Value::Integer(1).str_value(), None);

    assert_eq!(Value::Integer(7).int_value(), Some(7));
    assert_eq!(Value::SimpleString("42".into()).int_value(), Some(42));
    assert_eq!(Value::SimpleString("-42".into()).int_value(), Some(-42));
    assert_eq!(Value::BulkString(Some("100".into())).int_value(), Some(100));
    assert_eq!(Value::BulkString(Some("12x".into())).int_value(), None);
    assert_eq!(Value::BulkString(None).int_value(), None);
}
