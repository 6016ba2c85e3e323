use durablestore::format::{encode, file_header};
use durablestore::{inspect, Error, Store, MAX_KEY, MAX_VALUE};
use std::collections::BTreeMap;

/// A log held in memory: the bytes that `data.wal` would hold.
struct Disk {
    log: Vec<u8>,
}

impl Disk {
    fn new() -> Self {
        Disk { log: file_header().to_vec() }
    }
    fn open(&mut self) -> Result<Store, Error> {
        let s = Store::open(&self.log)?;
        let st = s.stats();
        if st.tail_bytes > 0 {
            self.log.truncate(st.log_bytes as usize);
        }
        Ok(s)
    }
    fn put(&mut self, s: &mut Store, k: &[u8], v: &[u8]) -> Result<(), Error> {
        let rec = s.put(k, v)?;
        self.log.extend_from_slice(&rec);
        s.acknowledge();
        Ok(())
    }
    fn delete(&mut self, s: &mut Store, k: &[u8]) -> Result<(), Error> {
        let rec = s.delete(k)?;
        self.log.extend_from_slice(&rec);
        s.acknowledge();
        Ok(())
    }
    fn compact(&mut self, s: &mut Store) -> Result<(), Error> {
        let image = s.compact()?;
        self.log = image;
        s.acknowledge();
        Ok(())
    }
}

fn entries(s: &Store) -> Vec<(Vec<u8>, Vec<u8>)> {
    s.entries().to_vec()
}

#[test]
fn roundtrip_bytes_delete_and_reopen() {
    let mut d = Disk::new();
    let mut s = d.open().unwrap();
    d.put(&mut s, b"", b"").unwrap();
    d.put(&mut s, &[0, 255], &[255, 0, 10]).unwrap();
    d.put(&mut s, b"key", b"old").unwrap();
    d.put(&mut s, b"key", b"new").unwrap();
    assert_eq!(s.get(b"key"), Some(b"new".as_slice()));
    d.delete(&mut s, b"key").unwrap();
    drop(s);
    let s = d.open().unwrap();
    assert_eq!(s.get(b"key"), None);
    assert_eq!(s.get(b""), Some(b"".as_slice()));
    assert_eq!(s.get(&[0, 255]), Some([255, 0, 10].as_slice()));
}

#[test]
fn compact_preserves_live_sorted_entries() {
    let mut d = Disk::new();
    let mut s = d.open().unwrap();
    for i in 0u8..30 {
        d.put(&mut s, &[i % 5], &[i]).unwrap();
    }
    d.delete(&mut s, &[2]).unwrap();
    let before = entries(&s);
    let old = s.stats().log_bytes;
    d.compact(&mut s).unwrap();
    assert!(s.stats().log_bytes < old);
    drop(s);
    let s = d.open().unwrap();
    assert_eq!(before, entries(&s));
}

#[test]
fn model_sequence_matches_across_reopens_and_compactions() {
    for seed in [1u64, 29, 0xdeadbeef, 987654321] {
        let mut d = Disk::new();
        let mut s = d.open().unwrap();
        let mut model = BTreeMap::new();
        let mut rng = seed;
        for step in 0..160 {
            rng = rng.wrapping_mul(6364136223846793005).wrapping_add(1);
            let k = (rng % 23).to_le_bytes();
            match (rng >> 32) % 5 {
                0 => {
                    d.delete(&mut s, &k).unwrap();
                    model.remove(k.as_slice());
                }
                _ => {
                    let v = rng.to_be_bytes();
                    d.put(&mut s, &k, &v).unwrap();
                    model.insert(k.to_vec(), v.to_vec());
                }
            }
            if step % 37 == 0 {
                d.compact(&mut s).unwrap();
            }
            if step % 19 == 0 {
                drop(s);
                s = d.open().unwrap();
            }
            assert_eq!(
                entries(&s).into_iter().collect::<BTreeMap<_, _>>(),
                model,
                "seed {seed} step {step}"
            );
        }
    }
}

#[test]
fn every_truncation_of_last_record_preserves_acknowledged_prefix() {
    let mut base = Disk::new();
    let mut s = base.open().unwrap();
    base.put(&mut s, b"safe", b"acknowledged").unwrap();
    let prefix = s.stats().log_bytes as usize;
    base.put(&mut s, b"next", b"inflight").unwrap();
    drop(s);
    let bytes = base.log.clone();
    for cut in prefix..bytes.len() {
        let mut d = Disk { log: bytes[..cut].to_vec() };
        let s = d.open().unwrap();
        assert_eq!(s.get(b"safe"), Some(b"acknowledged".as_slice()));
        assert_eq!(s.get(b"next"), None);
        assert_eq!(s.stats().tail_bytes, (cut - prefix) as u64);
        assert_eq!(d.log.len() as u64, prefix as u64);
    }
}

#[test]
fn corruption_is_not_silently_repaired() {
    let mut base = Disk::new();
    let mut s = base.open().unwrap();
    base.put(&mut s, b"a", b"first").unwrap();
    base.put(&mut s, b"b", b"second").unwrap();
    drop(s);
    let bytes = base.log.clone();
    for offset in 0..bytes.len() {
        let mut damaged = bytes.clone();
        damaged[offset] ^= 0x80;
        let mut d = Disk { log: damaged.clone() };
        assert!(
            matches!(d.open(), Err(Error::Corruption { .. })),
            "byte {offset}"
        );
        assert_eq!(d.log, damaged);
    }
}

#[test]
fn inspector_does_not_repair_tail() {
    let mut d = Disk::new();
    let s = d.open().unwrap();
    drop(s);
    d.log.extend_from_slice(b"DSR");
    let before = d.log.clone();
    let report = inspect(&d.log).unwrap();
    assert_eq!(report.tail_bytes, 3);
    assert_eq!(d.log, before);
}

#[test]
fn oversized_inputs_do_not_poison_handle() {
    let mut d = Disk::new();
    let mut s = d.open().unwrap();
    assert!(d.put(&mut s, &vec![0; MAX_KEY + 1], b"").is_err());
    assert!(d.put(&mut s, b"k", &vec![0; MAX_VALUE + 1]).is_err());
    d.put(&mut s, b"ok", b"yes").unwrap();
}

#[test]
fn empty_compaction_and_stale_temp_are_safe() {
    let mut d = Disk::new();
    let mut s = d.open().unwrap();
    d.put(&mut s, b"a", b"b").unwrap();
    d.delete(&mut s, b"a").unwrap();
    d.compact(&mut s).unwrap();
    drop(s);
    let s = d.open().unwrap();
    assert_eq!(s.stats().live_keys, 0);
    assert_eq!(s.stats().log_bytes, 16);
}

#[test]
fn injected_io_errors_poison_until_reopen() {
    for compaction in [false, true] {
        let mut d = Disk::new();
        let mut s = d.open().unwrap();
        d.put(&mut s, b"a", b"1").unwrap();
        // The bytes are handed out but never acknowledged, as after a failed write.
        let result = if compaction { s.compact() } else { s.put(b"b", b"2") };
        assert!(result.is_ok());
        assert!(matches!(s.put(b"c", b"3"), Err(Error::Poisoned)));
        assert!(matches!(s.delete(b"a"), Err(Error::Poisoned)));
        assert!(matches!(s.compact(), Err(Error::Poisoned)));
        drop(s);
        let s = d.open().unwrap();
        assert_eq!(s.get(b"a"), Some(b"1".as_slice()));
        assert_eq!(s.get(b"b"), None);
    }
}

#[test]
fn unfinished_initial_file_is_rejected_and_preserved() {
    let mut d = Disk { log: b"DSTOR".to_vec() };
    assert!(d.open().is_err());
    assert_eq!(d.log, b"DSTOR");
}

#[test]
fn stats_count_live_and_log_bytes() {
    let mut d = Disk::new();
    let mut s = d.open().unwrap();
    d.put(&mut s, b"ab", b"cde").unwrap();
    d.put(&mut s, b"x", b"").unwrap();
    d.delete(&mut s, b"missing").unwrap();
    let st = s.stats();
    assert_eq!(st.live_keys, 2);
    assert_eq!(st.live_bytes, 6);
    assert_eq!(st.records, 3);
    assert_eq!(st.log_bytes, 16 + 37 + 33 + 39);
    assert_eq!(st.log_bytes, d.log.len() as u64);
    assert_eq!(st.tail_bytes, 0);
}

#[test]
fn delete_of_absent_key_writes_tombstone() {
    let mut d = Disk::new();
    let mut s = d.open().unwrap();
    let rec = s.delete(b"none").unwrap();
    assert_eq!(rec, encode(1, b"none", None).unwrap());
    s.acknowledge();
    assert_eq!(s.stats().records, 1);
}

#[test]
fn compaction_image_numbers_records_from_one() {
    let mut d = Disk::new();
    let mut s = d.open().unwrap();
    d.put(&mut s, b"b", b"2").unwrap();
    d.put(&mut s, b"a", b"1").unwrap();
    d.put(&mut s, b"b", b"3").unwrap();
    let image = s.compact().unwrap();
    let mut expected = file_header().to_vec();
    expected.extend(encode(1, b"a", Some(b"1")).unwrap());
    expected.extend(encode(2, b"b", Some(b"3")).unwrap());
    assert_eq!(image, expected);
    s.acknowledge();
    assert_eq!(s.stats().records, 2);
    assert_eq!(s.stats().log_bytes, expected.len() as u64);
}

#[test]
fn inspect_counts_whole_log() {
    let mut log = file_header().to_vec();
    log.extend(encode(1, b"k", Some(b"vv")).unwrap());
    log.extend_from_slice(b"tail!");
    let st = inspect(&log).unwrap();
    assert_eq!(st.live_keys, 1);
    assert_eq!(st.live_bytes, 3);
    assert_eq!(st.records, 1);
    assert_eq!(st.log_bytes, log.len() as u64);
    assert_eq!(st.tail_bytes, 5);
}

#[test]
fn acknowledge_without_pending_changes_nothing() {
    let mut d = Disk::new();
    let mut s = d.open().unwrap();
    d.put(&mut s, b"k", b"v").unwrap();
    let before = s.stats();
    s.acknowledge();
    assert_eq!(s.stats(), before);
}

#[test]
fn error_messages() {
    assert_eq!(Error::Locked.message(), "store is locked by another handle");
    assert_eq!(
        Error::InvalidInput("sequence exhausted; compact first").message(),
        "invalid input: sequence exhausted; compact first"
    );
    assert_eq!(
        Error::Corruption { offset: 48, reason: "payload checksum mismatch" }.message(),
        "corruption at byte 48: payload checksum mismatch"
    );
    assert_eq!(
        Error::Poisoned.message(),
        "handle requires reopening after a failed persistence operation"
    );
    let io = Error::from(std::io::Error::other("disk gone"));
    assert_eq!(io.message(), "I/O error: disk gone");
}

#[test]
fn acknowledged_records_survive_process_crashes() {
    for point in [
        "append_header",
        "append_payload",
        "append_sync",
        "compact_header",
        "compact_record",
        "compact_sync",
        "compact_rename",
        "compact_dirsync",
    ] {
        let mut d = Disk::new();
        let mut s = d.open().unwrap();
        d.put(&mut s, b"a", b"1").unwrap();
        d.put(&mut s, b"b", b"2").unwrap();
        d.delete(&mut s, b"b").unwrap();
        if point.starts_with("append") {
            let rec = s.put(b"c", b"3").unwrap();
            // The process ends before acknowledging: only some bytes may have reached the log.
            let written = match point {
                "append_header" => 32,
                _ => rec.len(),
            };
            d.log.extend_from_slice(&rec[..written]);
        } else {
            let image = s.compact().unwrap();
            // The new log replaces the old one only once it is renamed into place.
            if point == "compact_rename" || point == "compact_dirsync" {
                d.log = image;
            }
        }
        drop(s);
        let mut s = d.open().unwrap();
        assert_eq!(s.get(b"a"), Some(b"1".as_slice()), "{point}");
        assert_eq!(s.get(b"b"), None, "{point}");
        d.put(&mut s, b"d", b"4").unwrap();
    }
}
