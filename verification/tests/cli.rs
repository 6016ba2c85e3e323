use durablestore::cli::{
    acknowledged, compaction, decode, error, help, hex, listing, lookup, parse_args, quote, stats,
    usage, Command,
};
use durablestore::format::file_header;
use durablestore::{Stats, Store, MAX_KEY};

fn args(a: &[&str]) -> Vec<String> {
    a.iter().map(|s| s.to_string()).collect()
}

/// Runs a command line against a log held in memory, as the program does
/// against `data.wal`.
fn run(log: &mut Vec<u8>, a: &[&str]) -> Result<(String, i32), String> {
    let cmd = parse_args(&args(a))?;
    if let Command::Help = cmd {
        return Ok((help(), 0));
    }
    let mut s = Store::open(log).map_err(|e| format!("{e:?}"))?;
    match cmd {
        Command::Init => Ok((stats(&s.stats()), 0)),
        Command::Put { key, value } => {
            let rec = s.put(&key, &value).map_err(|e| format!("{e:?}"))?;
            log.extend(rec);
            s.acknowledge();
            Ok((acknowledged(), 0))
        }
        Command::Delete { key } => {
            let rec = s.delete(&key).map_err(|e| format!("{e:?}"))?;
            log.extend(rec);
            s.acknowledge();
            Ok((acknowledged(), 0))
        }
        Command::Get { key } => Ok(lookup(s.get(&key))),
        Command::List => Ok((listing(s.entries()), 0)),
        _ => Err("unsupported here".into()),
    }
}

fn code(r: &Result<(String, i32), String>) -> i32 {
    match r {
        Ok((_, c)) => *c,
        Err(_) => 2,
    }
}

#[test]
fn cli_roundtrip_and_validation() {
    let mut log = file_header().to_vec();
    assert_eq!(code(&run(&mut log, &["d", "init"])), 0);
    assert_eq!(code(&run(&mut log, &["d", "put", "00ff", "ff00"])), 0);
    let got = run(&mut log, &["d", "get", "00ff"]);
    assert_eq!(code(&got), 0);
    assert!(got.unwrap().0.contains("\"value_hex\":\"ff00\""));
    assert_ne!(code(&run(&mut log, &["d", "put", "z0", "11"])), 0);
    assert_ne!(code(&run(&mut log, &["d", "put", "0", "11"])), 0);
    assert_ne!(code(&run(&mut log, &["d", "put", "00", "11", "extra"])), 0);
    assert_eq!(code(&run(&mut log, &["d", "delete", "00ff"])), 0);
    assert_eq!(code(&run(&mut log, &["d", "get", "00ff"])), 3);
}

#[test]
fn hex_roundtrip_and_case() {
    assert_eq!(hex(&[0, 15, 16, 255]), "000f10ff");
    assert_eq!(decode("000f10ff", 4).unwrap(), vec![0, 15, 16, 255]);
    assert_eq!(decode("ABcd", 2).unwrap(), vec![0xab, 0xcd]);
    assert_eq!(decode("", 0).unwrap(), Vec::<u8>::new());
}

#[test]
fn decode_errors() {
    assert_eq!(
        decode("abc", 10).unwrap_err(),
        "hex must contain even digit count within the key/value limit"
    );
    assert_eq!(
        decode("abcd", 1).unwrap_err(),
        "hex must contain even digit count within the key/value limit"
    );
    assert_eq!(decode("0g", 10).unwrap_err(), "invalid hex digit");
    assert_eq!(decode("é", 10).unwrap_err(), "invalid hex digit");
}

#[test]
fn quote_escapes_json() {
    assert_eq!(quote("plain"), "\"plain\"");
    assert_eq!(quote("a\"b\\c"), "\"a\\\"b\\\\c\"");
    assert_eq!(quote("\n\r\t"), "\"\\n\\r\\t\"");
    assert_eq!(quote("\u{1}\u{1f}"), "\"\\u0001\\u001f\"");
    assert_eq!(quote("é"), "\"é\"");
}

#[test]
fn json_texts() {
    let st = Stats { live_keys: 2, live_bytes: 10, records: 3, log_bytes: 120, tail_bytes: 0 };
    assert_eq!(
        stats(&st),
        "{\"live_keys\":2,\"live_bytes\":10,\"records\":3,\"log_bytes\":120,\"tail_bytes\":0}"
    );
    let after = Stats { live_keys: 2, live_bytes: 10, records: 2, log_bytes: 90, tail_bytes: 0 };
    assert_eq!(
        compaction(&st, &after),
        format!("{{\"before\":{},\"after\":{}}}", stats(&st), stats(&after))
    );
    assert_eq!(acknowledged(), "{\"ok\":true,\"durable\":true}");
    assert_eq!(lookup(Some(&[0xab])), ("{\"found\":true,\"value_hex\":\"ab\"}".to_string(), 0));
    assert_eq!(lookup(None), ("{\"found\":false}".to_string(), 3));
    assert_eq!(error("bad \"x\""), "{\"error\":\"bad \\\"x\\\"\"}");
    assert_eq!(help(), format!("{{\"usage\":\"{}\"}}", usage()));
    let entries = vec![(vec![1u8], vec![2u8]), (vec![3u8], vec![])];
    assert_eq!(
        listing(&entries),
        "{\"entries\":[{\"key_hex\":\"01\",\"value_hex\":\"02\"},{\"key_hex\":\"03\",\"value_hex\":\"\"}]}"
    );
    assert_eq!(listing(&[]), "{\"entries\":[]}");
    assert_eq!(stats(&Stats { live_keys: 0, live_bytes: 0, records: 0, log_bytes: u64::MAX, tail_bytes: 7 }),
        format!("{{\"live_keys\":0,\"live_bytes\":0,\"records\":0,\"log_bytes\":{},\"tail_bytes\":7}}", u64::MAX));
}

#[test]
fn parse_command_lines() {
    assert!(matches!(parse_args(&args(&["--help"])), Ok(Command::Help)));
    assert!(matches!(parse_args(&args(&["-h"])), Ok(Command::Help)));
    assert_eq!(parse_args(&args(&["d"])).err().unwrap(), usage());
    assert_eq!(parse_args(&args(&["d", "frobnicate"])).err().unwrap(), usage());
    assert_eq!(parse_args(&args(&["d", "get"])).err().unwrap(), usage());
    assert_eq!(parse_args(&args(&["d", "list", "x"])).err().unwrap(), usage());
    assert!(matches!(parse_args(&args(&["d", "init"])), Ok(Command::Init)));
    assert!(matches!(parse_args(&args(&["d", "list"])), Ok(Command::List)));
    assert!(matches!(parse_args(&args(&["d", "inspect"])), Ok(Command::Inspect)));
    assert!(matches!(parse_args(&args(&["d", "compact"])), Ok(Command::Compact)));
    match parse_args(&args(&["d", "put", "61", ""])) {
        Ok(Command::Put { key, value }) => {
            assert_eq!(key, b"a");
            assert!(value.is_empty());
        }
        _ => panic!("put expected"),
    }
    match parse_args(&args(&["d", "delete", "6162"])) {
        Ok(Command::Delete { key }) => assert_eq!(key, b"ab"),
        _ => panic!("delete expected"),
    }
    let long_key = "00".repeat(MAX_KEY + 1);
    assert_eq!(
        parse_args(&args(&["d", "get", &long_key])).err().unwrap(),
        "hex must contain even digit count within the key/value limit"
    );
}
