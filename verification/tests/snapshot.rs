use redis_starter_rust::rdb::{
    decode_length_encoding, parse_string, rdb_parser, read_key_string_value, EncodingFormat,
    LengthEncodingType, Value,
};
use redis_starter_rust::store::Store;
use redis_starter_rust::Error;

#[test]
fn test_reading_string_kv() {
    assert_eq!(
        read_key_string_value(&[0, 01, 97, 01, 98]).unwrap(),
        (String::from("a"), String::from("b"), 5)
    );

    assert_eq!(
        read_key_string_value(&[0, 03, 102, 111, 111, 04, 98, 97, 114, 115]).unwrap(),
        (String::from("foo"), String::from("bars"), 10)
    );
}

#[test]
fn test_length_encoding() {
    assert_eq!(
        decode_length_encoding(&[09]).unwrap(),
        (LengthEncodingType::Length(9 as usize), 1)
    );

    assert_eq!(
        decode_length_encoding(&[65, 01]).unwrap(),
        (LengthEncodingType::Length(257 as usize), 2)
    );

    assert_eq!(
        decode_length_encoding(&[192]).unwrap(),
        (LengthEncodingType::Special(EncodingFormat::Integer(1)), 1)
    );

    assert_eq!(
        decode_length_encoding(&[193]).unwrap(),
        (LengthEncodingType::Special(EncodingFormat::Integer(2)), 1)
    );

    assert_eq!(
        decode_length_encoding(&[194]).unwrap(),
        (LengthEncodingType::Special(EncodingFormat::Integer(4)), 1)
    );
}

#[test]
fn test_string_parsing() {
    assert_eq!(parse_string(&[01, 97]).unwrap(), ("a".to_string(), 2));
    assert_eq!(parse_string(&[02, 97, 98]).unwrap(), ("ab".to_string(), 3));

    assert_eq!(parse_string(&[192, 01]).unwrap(), ("1".to_string(), 2));
    assert_eq!(
        parse_string(&[193, 01, 00]).unwrap(),
        ("256".to_string(), 3)
    );
    assert_eq!(
        parse_string(&[194, 01, 00, 00, 00]).unwrap(),
        ("16777216".to_string(), 5)
    );
}

#[test]
fn test_foo() {
    assert_eq!(Value::try_from(9 as u8).unwrap(), Value::Zipmap);
}

#[test]
fn test_value_type_rejects_unknown() {
    assert!(matches!(
        Value::try_from(15),
        Err(Error::InvalidCommand(_))
    ));
    assert!(matches!(
        Value::try_from(255),
        Err(Error::InvalidCommand(_))
    ));
}

fn aux(k: &str, v: &str) -> Vec<u8> {
    let mut out = vec![0xFA, k.len() as u8];
    out.extend_from_slice(k.as_bytes());
    out.push(v.len() as u8);
    out.extend_from_slice(v.as_bytes());
    out
}

fn str_record(k: &str, v: &str) -> Vec<u8> {
    let mut out = vec![0x00, k.len() as u8];
    out.extend_from_slice(k.as_bytes());
    out.push(v.len() as u8);
    out.extend_from_slice(v.as_bytes());
    out
}

#[test]
fn test_parse_full_snapshot() {
    // magic, version, AUX, SELECT_DB(0), one string record, EOF
    let mut data = b"REDIS0011".to_vec();
    data.extend_from_slice(&aux("redis-ver", "7.0"));
    data.extend_from_slice(&[0xFE, 0x00]);
    data.extend_from_slice(&str_record("k1", "v1"));
    data.push(0xFF);

    let mut store = rdb_parser(&data).unwrap();
    let keys = store.get_all_keys();
    assert_eq!(keys, vec!["k1".to_string()]);
    assert_eq!(store.get("k1", 0, 0), Some("v1".to_string()));
}

#[test]
fn test_parse_snapshot_with_past_expiry() {
    // a millisecond expiry far in the past makes the key read as missing
    let mut data = b"REDIS0011".to_vec();
    data.push(0xFC);
    data.extend_from_slice(&1000u64.to_le_bytes());
    data.extend_from_slice(&str_record("gone", "x"));
    data.extend_from_slice(&str_record("kept", "y"));
    data.push(0xFF);

    let mut store = rdb_parser(&data).unwrap();
    // wall clock is far past the deadline of 1000 ms since the epoch
    assert_eq!(store.get("gone", 0, 2000), None);
    assert_eq!(store.get("kept", 0, 2000), Some("y".to_string()));
    // the expired key was dropped by the read
    assert_eq!(store.get_all_keys(), vec!["kept".to_string()]);
}

#[test]
fn test_parse_snapshot_with_seconds_expiry() {
    let mut data = b"REDIS0011".to_vec();
    data.push(0xFD);
    data.extend_from_slice(&5u32.to_le_bytes());
    data.extend_from_slice(&str_record("k", "v"));
    data.push(0xFF);

    let mut store = rdb_parser(&data).unwrap();
    // the deadline is 5 s = 5000 ms since the epoch
    assert_eq!(store.get("k", 0, 4999), Some("v".to_string()));
    let mut store2 = rdb_parser(&data).unwrap();
    assert_eq!(store2.get("k", 0, 5000), None);
}

#[test]
fn test_string_parsing_is_lossy_on_binary_data() {
    // a length-prefixed body that is not valid UTF-8 still loads, decoded
    // with replacement characters, as the snapshot format carries binary
    // values
    assert_eq!(
        parse_string(&[2, 0xFF, 0xFE]).unwrap(),
        ("\u{FFFD}\u{FFFD}".to_string(), 3)
    );

    let mut data = b"REDIS0011".to_vec();
    data.extend_from_slice(&[0x00, 1, 107, 2, 0xFF, 0xFE]);
    data.push(0xFF);
    let mut store = rdb_parser(&data).unwrap();
    assert_eq!(store.get("k", 0, 0), Some("\u{FFFD}\u{FFFD}".to_string()));
}

#[test]
fn test_parse_snapshot_resize_hint() {
    let mut data = b"REDIS0011".to_vec();
    data.extend_from_slice(&[0xFB, 0x02, 0x01]);
    data.extend_from_slice(&str_record("a", "1"));
    data.push(0xFF);
    let mut store = rdb_parser(&data).unwrap();
    assert_eq!(store.get("a", 0, 0), Some("1".to_string()));
}

#[test]
fn test_parse_snapshot_errors() {
    // bad magic is fatal
    assert!(matches!(
        rdb_parser(b"RADIS0011\xff"),
        Err(Error::InvalidCommand(_))
    ));
    // truncated input is fatal
    let mut data = b"REDIS0011".to_vec();
    data.extend_from_slice(&[0x00, 0x05, 97]);
    assert!(matches!(rdb_parser(&data), Err(Error::InvalidCommand(_))));
    // an unsupported value type is fatal
    let mut data = b"REDIS0011".to_vec();
    data.extend_from_slice(&[0x01, 0x01, 97, 0x01, 98]);
    assert!(matches!(rdb_parser(&data), Err(Error::InvalidCommand(_))));
    // a compressed string is rejected
    assert!(matches!(
        parse_string(&[195, 1, 1, 97]),
        Err(Error::InvalidCommand(_))
    ));
}

#[test]
fn test_later_record_replaces_earlier() {
    let mut data = b"REDIS0011".to_vec();
    data.extend_from_slice(&str_record("k", "old"));
    data.extend_from_slice(&str_record("k", "new"));
    data.push(0xFF);
    let mut store = rdb_parser(&data).unwrap();
    assert_eq!(store.get("k", 0, 0), Some("new".to_string()));
    assert_eq!(store.get_all_keys().len(), 1);
}

#[test]
fn test_rdb_path_from_config() {
    let cfg = redis_starter_rust::config::Config::new(
        "127.0.0.1:6379".to_string(),
        Some("/tmp".to_string()),
        Some("dump.rdb".to_string()),
    );
    assert_eq!(cfg.get_rdb_path(), Some("/tmp/dump.rdb".to_string()));
    assert_eq!(cfg.get_rdb_dir(), Some("/tmp".to_string()));
    assert_eq!(cfg.get_rdb_file(), Some("dump.rdb".to_string()));
    assert_eq!(cfg.get_addr_string(), "127.0.0.1:6379".to_string());

    let cfg = redis_starter_rust::config::Config::new(
        "127.0.0.1:6379".to_string(),
        Some("/tmp".to_string()),
        None,
    );
    assert_eq!(cfg.get_rdb_path(), None);
}

#[test]
fn test_missing_snapshot_means_empty_keyspace() {
    // a configuration without a snapshot location yields no path, and the
    // server starts from an empty keyspace without an error
    let config = redis_starter_rust::config::Config::new("127.0.0.1:6379".to_string(), None, None);
    assert_eq!(config.get_rdb_path(), None);
    let store = Store::new(None);
    assert_eq!(store.get_all_keys(), Vec::<String>::new());
}
