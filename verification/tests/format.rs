use durablestore::format::{crc32, encode, file_header, scan, validate, FILE_HEADER, RECORD_HEADER};
use durablestore::index::{compare_bytes, Index, Order};
use durablestore::{Error, MAX_KEY, MAX_VALUE};

#[test]
fn crc_known_vectors() {
    assert_eq!(crc32(b"123456789"), 0xcbf43926);
    assert_eq!(crc32(b""), 0);
}

#[test]
fn rejects_checked_oversized_lengths() {
    let mut bytes = file_header().to_vec();
    let mut rec = encode(1, b"a", Some(b"b")).unwrap();
    rec[16..20].copy_from_slice(&u32::MAX.to_le_bytes());
    let crc = crc32(&rec[..28]);
    rec[28..32].copy_from_slice(&crc.to_le_bytes());
    bytes.extend(rec);
    assert!(matches!(
        scan(&bytes),
        Err(Error::Corruption {
            reason: "invalid record lengths",
            ..
        })
    ));
}

#[test]
fn crc_of_single_bytes() {
    assert_eq!(crc32(b"a"), 0xe8b7be43);
    assert_eq!(crc32(&[0]), 0xd202ef8d);
}

#[test]
fn file_header_layout() {
    let h = file_header();
    assert_eq!(&h[..8], b"DSTOR001");
    assert_eq!(&h[8..12], &1u32.to_le_bytes());
    assert_eq!(&h[12..], &crc32(&h[..12]).to_le_bytes());
    assert_eq!(h.len(), FILE_HEADER);
}

#[test]
fn encode_put_layout() {
    let rec = encode(7, b"key", Some(b"value")).unwrap();
    assert_eq!(rec.len(), RECORD_HEADER + 3 + 5);
    assert_eq!(&rec[..4], b"DSR1");
    assert_eq!(rec[4], 0);
    assert_eq!(&rec[5..8], &[0, 0, 0]);
    assert_eq!(&rec[8..16], &7u64.to_le_bytes());
    assert_eq!(&rec[16..20], &3u32.to_le_bytes());
    assert_eq!(&rec[20..24], &5u32.to_le_bytes());
    assert_eq!(&rec[24..28], &crc32(b"keyvalue").to_le_bytes());
    assert_eq!(&rec[28..32], &crc32(&rec[..28]).to_le_bytes());
    assert_eq!(&rec[32..], b"keyvalue");
}

#[test]
fn encode_delete_layout() {
    let rec = encode(2, b"gone", None).unwrap();
    assert_eq!(rec.len(), RECORD_HEADER + 4);
    assert_eq!(rec[4], 1);
    assert_eq!(&rec[20..24], &0u32.to_le_bytes());
    assert_eq!(&rec[32..], b"gone");
}

#[test]
fn validate_bounds() {
    assert!(validate(&vec![0; MAX_KEY], &vec![0; MAX_VALUE]).is_ok());
    assert!(matches!(
        validate(&vec![0; MAX_KEY + 1], b""),
        Err(Error::InvalidInput("key exceeds 1 MiB or value exceeds 16 MiB"))
    ));
    assert!(matches!(
        encode(1, b"k", Some(&vec![0; MAX_VALUE + 1])),
        Err(Error::InvalidInput("key exceeds 1 MiB or value exceeds 16 MiB"))
    ));
}

#[test]
fn scan_applies_records_in_order() {
    let mut log = file_header().to_vec();
    log.extend(encode(1, b"a", Some(b"1")).unwrap());
    log.extend(encode(2, b"b", Some(b"2")).unwrap());
    log.extend(encode(3, b"a", None).unwrap());
    let s = scan(&log).unwrap();
    assert_eq!(s.records, 3);
    assert_eq!(s.valid_bytes, log.len() as u64);
    assert_eq!(s.tail_bytes, 0);
    assert_eq!(s.entries.get(b"a"), None);
    assert_eq!(s.entries.get(b"b"), Some(b"2".as_slice()));
}

#[test]
fn scan_reports_each_corruption_reason() {
    assert!(matches!(
        scan(b"DSTOR"),
        Err(Error::Corruption { offset: 0, reason: "incomplete file header" })
    ));
    let mut bad = file_header().to_vec();
    bad[8] = 2;
    assert!(matches!(
        scan(&bad),
        Err(Error::Corruption { offset: 0, reason: "bad file header or unsupported version" })
    ));
    let base = file_header().to_vec();
    let rec = encode(1, b"k", Some(b"v")).unwrap();

    let mut magic = rec.clone();
    magic[0] = b'X';
    let log = [base.clone(), magic].concat();
    assert!(matches!(
        scan(&log),
        Err(Error::Corruption { offset: 16, reason: "invalid record header" })
    ));

    let mut hcrc = rec.clone();
    hcrc[28] ^= 1;
    let log = [base.clone(), hcrc].concat();
    assert!(matches!(
        scan(&log),
        Err(Error::Corruption { offset: 16, reason: "record header checksum mismatch" })
    ));

    let log = [base.clone(), encode(2, b"k", Some(b"v")).unwrap()].concat();
    assert!(matches!(
        scan(&log),
        Err(Error::Corruption { offset: 16, reason: "record sequence mismatch" })
    ));

    let mut pcrc = rec.clone();
    let last = pcrc.len() - 1;
    pcrc[last] ^= 1;
    let log = [base.clone(), pcrc].concat();
    assert!(matches!(
        scan(&log),
        Err(Error::Corruption { offset: 16, reason: "payload checksum mismatch" })
    ));
}

#[test]
fn scan_leaves_incomplete_tail() {
    let mut log = file_header().to_vec();
    log.extend(encode(1, b"a", Some(b"1")).unwrap());
    let valid = log.len();
    let rec = encode(2, b"bb", Some(b"22")).unwrap();
    log.extend(&rec[..RECORD_HEADER + 1]);
    let s = scan(&log).unwrap();
    assert_eq!(s.valid_bytes, valid as u64);
    assert_eq!(s.tail_bytes, (RECORD_HEADER + 1) as u64);
    assert_eq!(s.records, 1);
}

#[test]
fn index_keeps_keys_sorted() {
    let mut ix = Index::new();
    ix.insert(b"b".to_vec(), b"2".to_vec());
    ix.insert(b"".to_vec(), b"0".to_vec());
    ix.insert(b"ab".to_vec(), b"1".to_vec());
    ix.insert(b"a".to_vec(), b"x".to_vec());
    ix.insert(b"b".to_vec(), b"3".to_vec());
    let keys: Vec<Vec<u8>> = ix.as_slice().iter().map(|(k, _)| k.clone()).collect();
    assert_eq!(keys, vec![b"".to_vec(), b"a".to_vec(), b"ab".to_vec(), b"b".to_vec()]);
    assert_eq!(ix.get(b"b"), Some(b"3".as_slice()));
    ix.remove(b"ab");
    ix.remove(b"missing");
    assert_eq!(ix.len(), 3);
    assert_eq!(ix.get(b"ab"), None);
}

#[test]
fn byte_order_is_lexicographic() {
    assert_eq!(compare_bytes(b"a", b"b"), Order::Less);
    assert_eq!(compare_bytes(b"ab", b"a"), Order::Greater);
    assert_eq!(compare_bytes(b"", b""), Order::Equal);
    assert_eq!(compare_bytes(&[255], &[0, 0]), Order::Greater);
}
