use redis_starter_rust::config::Config;
use redis_starter_rust::de::StreamDeserializer;
use redis_starter_rust::rdb::rdb_parser;
use redis_starter_rust::se::StreamSerializer;
use redis_starter_rust::store::Store;
use redis_starter_rust::{handle_request, Command, Error, Value};

fn config() -> Config {
    Config::new("127.0.0.1:6379".to_string(), None, None)
}

/// Decodes one request, dispatches it, and returns the encoded reply.
fn serve(
    request: &[u8],
    store: &mut Store,
    config: &Config,
    now: u64,
    now_wall: u64,
) -> Result<Vec<u8>, Error> {
    let mut de = StreamDeserializer::new(request.to_vec());
    let value = de.decode_next()?;
    let reply = handle_request(value, store, config, now, now_wall)?;
    let mut se = StreamSerializer::new(Vec::new());
    se.write(&reply);
    Ok(se.into_inner())
}

#[test]
fn test_ping() {
    let mut store = Store::new(None);
    let out = serve(b"*1\r\n$4\r\nPING\r\n", &mut store, &config(), 0, 0).unwrap();
    assert_eq!(&out, b"+PONG\r\n");
}

#[test]
fn test_ping_with_argument() {
    let mut store = Store::new(None);
    let out = serve(
        b"*2\r\n$4\r\nPING\r\n$2\r\nhi\r\n",
        &mut store,
        &config(),
        0,
        0,
    )
    .unwrap();
    assert_eq!(&out, b"$2\r\nhi\r\n");
}

#[test]
fn test_echo() {
    let mut store = Store::new(None);
    let out = serve(
        b"*2\r\n$4\r\nECHO\r\n$5\r\nhello\r\n",
        &mut store,
        &config(),
        0,
        0,
    )
    .unwrap();
    assert_eq!(&out, b"$5\r\nhello\r\n");
}

#[test]
fn test_set_then_get() {
    let mut store = Store::new(None);
    let cfg = config();
    let out = serve(
        b"*3\r\n$3\r\nSET\r\n$3\r\nfoo\r\n$3\r\nbar\r\n",
        &mut store,
        &cfg,
        0,
        0,
    )
    .unwrap();
    assert_eq!(&out, b"+OK\r\n");
    let out = serve(b"*2\r\n$3\r\nGET\r\n$3\r\nfoo\r\n", &mut store, &cfg, 0, 0).unwrap();
    assert_eq!(&out, b"$3\r\nbar\r\n");
}

#[test]
fn test_get_missing_key() {
    let mut store = Store::new(None);
    let out = serve(b"*2\r\n$3\r\nGET\r\n$3\r\nfoo\r\n", &mut store, &config(), 0, 0).unwrap();
    assert_eq!(&out, b"$-1\r\n");
}

#[test]
fn test_set_with_px_expires() {
    let mut store = Store::new(None);
    let cfg = config();
    // SET k v PX 100 at monotonic time 0
    let out = serve(
        b"*5\r\n$3\r\nSET\r\n$1\r\nk\r\n$1\r\nv\r\n$2\r\nPX\r\n$3\r\n100\r\n",
        &mut store,
        &cfg,
        0,
        0,
    )
    .unwrap();
    assert_eq!(&out, b"+OK\r\n");
    // immediately the key reads back
    let out = serve(b"*2\r\n$3\r\nGET\r\n$1\r\nk\r\n", &mut store, &cfg, 0, 0).unwrap();
    assert_eq!(&out, b"$1\r\nv\r\n");
    // 200 ms later it is gone
    let out = serve(b"*2\r\n$3\r\nGET\r\n$1\r\nk\r\n", &mut store, &cfg, 200, 0).unwrap();
    assert_eq!(&out, b"$-1\r\n");
}

#[test]
fn test_config_get_dir() {
    let mut store = Store::new(None);
    let cfg = Config::new(
        "127.0.0.1:6379".to_string(),
        Some("/tmp".to_string()),
        Some("dump.rdb".to_string()),
    );
    let out = serve(
        b"*3\r\n$6\r\nCONFIG\r\n$3\r\nGET\r\n$3\r\ndir\r\n",
        &mut store,
        &cfg,
        0,
        0,
    )
    .unwrap();
    assert_eq!(&out, b"*2\r\n$3\r\ndir\r\n$4\r\n/tmp\r\n");
    let out = serve(
        b"*3\r\n$6\r\nCONFIG\r\n$3\r\nGET\r\n$10\r\ndbfilename\r\n",
        &mut store,
        &cfg,
        0,
        0,
    )
    .unwrap();
    assert_eq!(&out, b"*2\r\n$10\r\ndbfilename\r\n$8\r\ndump.rdb\r\n");
}

#[test]
fn test_config_get_unset_value_is_empty() {
    let mut store = Store::new(None);
    let out = serve(
        b"*3\r\n$6\r\nCONFIG\r\n$3\r\nGET\r\n$3\r\ndir\r\n",
        &mut store,
        &config(),
        0,
        0,
    )
    .unwrap();
    assert_eq!(&out, b"*2\r\n$3\r\ndir\r\n$0\r\n\r\n");
}

#[test]
fn test_keys_after_snapshot() {
    // a keyspace loaded from a snapshot holding alpha and beta
    let mut data = b"REDIS0011".to_vec();
    data.extend_from_slice(&[0x00, 5]);
    data.extend_from_slice(b"alpha");
    data.extend_from_slice(&[1, b'1']);
    data.extend_from_slice(&[0x00, 4]);
    data.extend_from_slice(b"beta");
    data.extend_from_slice(&[1, b'2']);
    data.push(0xFF);
    let snapshot = rdb_parser(&data).unwrap();
    let mut store = Store::new(Some(snapshot));

    let out = serve(
        b"*2\r\n$4\r\nKEYS\r\n$1\r\n*\r\n",
        &mut store,
        &config(),
        0,
        0,
    )
    .unwrap();
    // an array of two bulk strings, alpha and beta, each exactly once, in
    // either order
    let alpha_first = b"*2\r\n$5\r\nalpha\r\n$4\r\nbeta\r\n".to_vec();
    let beta_first = b"*2\r\n$4\r\nbeta\r\n$5\r\nalpha\r\n".to_vec();
    assert!(out == alpha_first || out == beta_first);
}

#[test]
fn test_command_names_are_case_insensitive() {
    assert_eq!(Command::from_str("ping").unwrap(), Command::PING);
    assert_eq!(Command::from_str("PING").unwrap(), Command::PING);
    assert_eq!(Command::from_str("PiNg").unwrap(), Command::PING);
    assert_eq!(Command::from_str("keys").unwrap(), Command::KEYS);
    assert_eq!(Command::from_str("CONFIG").unwrap(), Command::CONFIG);
    assert!(matches!(
        Command::from_str("flushall"),
        Err(Error::InvalidCommand(_))
    ));
}

#[test]
fn test_invalid_requests_are_rejected() {
    let mut store = Store::new(None);
    let cfg = config();
    // a request that is not an array
    assert!(matches!(
        serve(b"+PING\r\n", &mut store, &cfg, 0, 0),
        Err(Error::InvalidCommand(_))
    ));
    // an empty array
    assert!(matches!(
        serve(b"*0\r\n", &mut store, &cfg, 0, 0),
        Err(Error::InvalidCommand(_))
    ));
    // wrong arity
    assert!(matches!(
        serve(b"*1\r\n$4\r\nECHO\r\n", &mut store, &cfg, 0, 0),
        Err(Error::InvalidCommand(_))
    ));
    // a bad SET modifier
    assert!(matches!(
        serve(
            b"*5\r\n$3\r\nSET\r\n$1\r\nk\r\n$1\r\nv\r\n$2\r\nEX\r\n$3\r\n100\r\n",
            &mut store,
            &cfg,
            0,
            0
        ),
        Err(Error::InvalidCommand(_))
    ));
    // a non-numeric PX value
    assert!(matches!(
        serve(
            b"*5\r\n$3\r\nSET\r\n$1\r\nk\r\n$1\r\nv\r\n$2\r\nPX\r\n$3\r\nabc\r\n",
            &mut store,
            &cfg,
            0,
            0
        ),
        Err(Error::InvalidCommand(_))
    ));
    // a null bulk string used as an argument
    assert!(matches!(
        serve(b"*2\r\n$4\r\nECHO\r\n$-1\r\n", &mut store, &cfg, 0, 0),
        Err(Error::InvalidCommand(_))
    ));
    // a KEYS pattern other than *
    assert!(matches!(
        serve(b"*2\r\n$4\r\nKEYS\r\n$2\r\na*\r\n", &mut store, &cfg, 0, 0),
        Err(Error::InvalidCommand(_))
    ));
    // nothing above touched the keyspace
    assert_eq!(store.get_all_keys(), Vec::<String>::new());
}

#[test]
fn test_px_modifier_is_case_insensitive() {
    let mut store = Store::new(None);
    let cfg = config();
    let out = serve(
        b"*5\r\n$3\r\nSET\r\n$1\r\nk\r\n$1\r\nv\r\n$2\r\npx\r\n$2\r\n50\r\n",
        &mut store,
        &cfg,
        0,
        0,
    )
    .unwrap();
    assert_eq!(&out, b"+OK\r\n");
    assert_eq!(store.get("k", 49, 0), Some("v".to_string()));
    assert_eq!(store.get("k", 50, 0), None);
}
