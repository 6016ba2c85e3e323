use crate::index::{footprint, Index};
use crate::{is_corruption, is_invalid_input, Error};
use vstd::arithmetic::power::pow;
use vstd::prelude::*;

verus! {

/// Bytes of the file header.
pub const FILE_HEADER: usize = 16;

/// Bytes of a record header.
pub const RECORD_HEADER: usize = 32;

/// Largest key the store accepts.
pub const MAX_KEY: usize = 1024 * 1024;

/// Largest value the store accepts.
pub const MAX_VALUE: usize = 16 * 1024 * 1024;

/// The four little-endian bytes of `x`.
pub open spec fn u32_le(x: u32) -> Seq<u8> {
    seq![(x % 0x100) as u8, ((x / 0x100) % 0x100) as u8, ((x / 0x1_0000) % 0x100) as u8, (x / 0x100_0000) as u8]
}

/// The eight little-endian bytes of `x`.
pub open spec fn u64_le(x: u64) -> Seq<u8> {
    seq![
        (x % 0x100) as u8,
        ((x / 0x100) % 0x100) as u8,
        ((x / 0x1_0000) % 0x100) as u8,
        ((x / 0x100_0000) % 0x100) as u8,
        ((x / 0x1_0000_0000) % 0x100) as u8,
        ((x / 0x100_0000_0000) % 0x100) as u8,
        ((x / 0x1_0000_0000_0000) % 0x100) as u8,
        (x / 0x100_0000_0000_0000) as u8,
    ]
}

/// The unsigned little-endian number in the four bytes of `s` from `i`.
pub open spec fn u32_at(s: Seq<u8>, i: int) -> nat {
    (s[i] + 0x100 * s[i + 1] + 0x1_0000 * s[i + 2] + 0x100_0000 * s[i + 3]) as nat
}

/// The unsigned little-endian number in the eight bytes of `s` from `i`.
pub open spec fn u64_at(s: Seq<u8>, i: int) -> nat {
    (s[i] + 0x100 * s[i + 1] + 0x1_0000 * s[i + 2] + 0x100_0000 * s[i + 3] + 0x1_0000_0000 * s[i + 4]
        + 0x100_0000_0000 * s[i + 5] + 0x1_0000_0000_0000 * s[i + 6] + 0x100_0000_0000_0000 * s[i
        + 7]) as nat
}

/// Reading back four written bytes gives the number written.
pub proof fn lemma_u32_le_roundtrip(x: u32)
    ensures
        u32_le(x).len() == 4,
        u32_at(u32_le(x), 0) == x,
{
    assert(x == (x % 0x100) + 0x100 * ((x / 0x100) % 0x100) + 0x1_0000 * ((x / 0x1_0000) % 0x100)
        + 0x100_0000 * (x / 0x100_0000)) by (bit_vector);
}

/// Reading back eight written bytes gives the number written.
pub proof fn lemma_u64_le_roundtrip(x: u64)
    ensures
        u64_le(x).len() == 8,
        u64_at(u64_le(x), 0) == x,
{
    assert(x == (x % 0x100) + 0x100 * ((x / 0x100) % 0x100) + 0x1_0000 * ((x / 0x1_0000) % 0x100)
        + 0x100_0000 * ((x / 0x100_0000) % 0x100) + 0x1_0000_0000 * ((x / 0x1_0000_0000) % 0x100)
        + 0x100_0000_0000 * ((x / 0x100_0000_0000) % 0x100) + 0x1_0000_0000_0000 * ((x
        / 0x1_0000_0000_0000) % 0x100) + 0x100_0000_0000_0000 * (x / 0x100_0000_0000_0000))
        by (bit_vector);
}

/// Appends the four little-endian bytes of `x`.
fn push_u32_le(v: &mut Vec<u8>, x: u32)
    ensures
        final(v)@ == old(v)@ + u32_le(x),
{
    v.push((x % 0x100) as u8);
    v.push(((x / 0x100) % 0x100) as u8);
    v.push(((x / 0x1_0000) % 0x100) as u8);
    v.push((x / 0x100_0000) as u8);
    assert(final(v)@ =~= old(v)@ + u32_le(x));
}

/// Appends the eight little-endian bytes of `x`.
fn push_u64_le(v: &mut Vec<u8>, x: u64)
    ensures
        final(v)@ == old(v)@ + u64_le(x),
{
    v.push((x % 0x100) as u8);
    v.push(((x / 0x100) % 0x100) as u8);
    v.push(((x / 0x1_0000) % 0x100) as u8);
    v.push(((x / 0x100_0000) % 0x100) as u8);
    v.push(((x / 0x1_0000_0000) % 0x100) as u8);
    v.push(((x / 0x100_0000_0000) % 0x100) as u8);
    v.push(((x / 0x1_0000_0000_0000) % 0x100) as u8);
    v.push((x / 0x100_0000_0000_0000) as u8);
    assert(final(v)@ =~= old(v)@ + u64_le(x));
}

/// Appends all of `s`.
pub(crate) fn push_all(v: &mut Vec<u8>, s: &[u8])
    ensures
        final(v)@ == old(v)@ + s@,
{
    let mut t = vstd::slice::slice_to_vec(s);
    v.append(&mut t);
}

/// One step of the reflected IEEE CRC-32 register: shift right, and fold in
/// the polynomial `0xedb88320` when the bit shifted out was set.
pub open spec fn crc_shift(c: u32) -> u32 {
    if c & 1 == 1 {
        (c >> 1) ^ 0xedb8_8320u32
    } else {
        c >> 1
    }
}

/// `n` register steps.
pub open spec fn crc_shifts(c: u32, n: nat) -> u32
    decreases n,
{
    if n == 0 {
        c
    } else {
        crc_shift(crc_shifts(c, (n - 1) as nat))
    }
}

/// The register after feeding one more byte.
pub open spec fn crc_feed(c: u32, b: u8) -> u32 {
    crc_shifts(c ^ (b as u32), 8)
}

/// The register after feeding `s`, starting from all ones.
pub open spec fn crc_register(s: Seq<u8>) -> u32
    decreases s.len(),
{
    if s.len() == 0 {
        0xffff_ffffu32
    } else {
        crc_feed(crc_register(s.drop_last()), s.last())
    }
}

/// IEEE CRC-32 of `s`: the final register with all bits inverted.
pub open spec fn spec_crc32(s: Seq<u8>) -> u32 {
    crc_register(s) ^ 0xffff_ffffu32
}

/// IEEE CRC-32 (reflected polynomial `0xedb88320`, initial and final XOR
/// `0xffffffff`), computed bit by bit.
pub fn crc32(bytes: &[u8]) -> (crc: u32)
    ensures
        crc == spec_crc32(bytes@),
{
    let mut crc: u32 = !0u32;
    assert(crc == 0xffff_ffffu32) by (bit_vector)
        requires
            crc == !0u32,
    ;
    let mut i: usize = 0;
    while i < bytes.len()
        invariant
            i <= bytes.len(),
            crc == crc_register(bytes@.take(i as int)),
        decreases bytes.len() - i,
    {
        proof {
            assert(bytes@.take(i + 1).drop_last() =~= bytes@.take(i as int));
        }
        crc = crc ^ (bytes[i] as u32);
        let ghost start = crc;
        let mut j: u32 = 0;
        while j < 8
            invariant
                j <= 8,
                crc == crc_shifts(start, j as nat),
            decreases 8 - j,
        {
            let c = crc;
            crc = (c >> 1) ^ (0xedb8_8320u32 & (0u32.wrapping_sub(c & 1)));
            assert(crc == crc_shift(c)) by (bit_vector)
                requires
                    crc == (c >> 1) ^ (0xedb8_8320u32 & (0u32.wrapping_sub(c & 1))),
            ;
            j = j + 1;
        }
        i = i + 1;
    }
    assert(bytes@.take(bytes.len() as int) =~= bytes@);
    let out = !crc;
    assert(out == crc ^ 0xffff_ffffu32) by (bit_vector)
        requires
            out == !crc,
    ;
    out
}

/// ASCII `DSTOR001`.
pub open spec fn file_magic() -> Seq<u8> {
    seq![0x44u8, 0x53, 0x54, 0x4f, 0x52, 0x30, 0x30, 0x31]
}

/// The first twelve header bytes: magic and format version 1.
pub open spec fn file_header_body() -> Seq<u8> {
    file_magic() + u32_le(1)
}

/// The exact 16-byte file header: magic, version, CRC-32 of both.
pub open spec fn spec_file_header() -> Seq<u8> {
    file_header_body() + u32_le(spec_crc32(file_header_body()))
}

/// The 16-byte file header of format version 1.
pub fn file_header() -> (h: [u8; 16])
    ensures
        h@ == spec_file_header(),
{
    let body: [u8; 12] = [0x44, 0x53, 0x54, 0x4f, 0x52, 0x30, 0x30, 0x31, 1, 0, 0, 0];
    assert(body@ =~= file_header_body());
    let crc = crc32(body.as_slice());
    let h: [u8; 16] = [
        0x44,
        0x53,
        0x54,
        0x4f,
        0x52,
        0x30,
        0x30,
        0x31,
        1,
        0,
        0,
        0,
        (crc % 0x100) as u8,
        ((crc / 0x100) % 0x100) as u8,
        ((crc / 0x1_0000) % 0x100) as u8,
        (crc / 0x100_0000) as u8,
    ];
    assert(h@ =~= spec_file_header());
    h
}

/// The message of an oversized key or value.
pub open spec fn oversize_message() -> Seq<char> {
    "key exceeds 1 MiB or value exceeds 16 MiB"@
}

/// A key and a value the store accepts.
pub open spec fn within_bounds(key: Seq<u8>, value: Seq<u8>) -> bool {
    key.len() <= MAX_KEY && value.len() <= MAX_VALUE
}

/// Accepts a key of at most 1 MiB and a value of at most 16 MiB.
pub fn validate(key: &[u8], value: &[u8]) -> (r: Result<(), Error>)
    ensures
        r is Ok <==> within_bounds(key@, value@),
        r matches Err(e) ==> is_invalid_input(e, oversize_message()),
{
    if key.len() > MAX_KEY || value.len() > MAX_VALUE {
        return Err(Error::InvalidInput("key exceeds 1 MiB or value exceeds 16 MiB"));
    }
    Ok(())
}

/// ASCII `DSR1`.
pub open spec fn record_magic() -> Seq<u8> {
    seq![0x44u8, 0x53, 0x52, 0x31]
}

/// The bytes that follow a record's header: the key, then the value of a put.
pub open spec fn payload(key: Seq<u8>, value: Option<Seq<u8>>) -> Seq<u8> {
    match value {
        Some(v) => key + v,
        None => key,
    }
}

/// The stored value: that of a put, empty for a delete.
pub open spec fn stored_value(value: Option<Seq<u8>>) -> Seq<u8> {
    match value {
        Some(v) => v,
        None => Seq::empty(),
    }
}

/// Operation byte: 0 for a put, 1 for a delete.
pub open spec fn op_byte(value: Option<Seq<u8>>) -> u8 {
    if value is Some {
        0
    } else {
        1
    }
}

/// The first 28 header bytes of a record, which its header CRC covers.
pub open spec fn record_header_body(seq: u64, key: Seq<u8>, value: Option<Seq<u8>>) -> Seq<u8> {
    record_magic() + seq![op_byte(value), 0u8, 0u8, 0u8] + u64_le(seq) + u32_le(key.len() as u32)
        + u32_le(stored_value(value).len() as u32) + u32_le(spec_crc32(payload(key, value)))
}

/// The complete bytes of record `seq` that puts `value` under `key`, or deletes
/// `key` when `value` is `None`.
pub open spec fn spec_encode(seq: u64, key: Seq<u8>, value: Option<Seq<u8>>) -> Seq<u8> {
    let h = record_header_body(seq, key, value);
    h + u32_le(spec_crc32(h)) + payload(key, value)
}

/// The view of an optional byte slice.
pub open spec fn opt_view(value: Option<&[u8]>) -> Option<Seq<u8>> {
    match value {
        Some(v) => Some(v@),
        None => None,
    }
}

/// Encodes record `seq`: a put of `value` under `key`, or a delete of `key`
/// when `value` is `None`.
pub fn encode(seq: u64, key: &[u8], value: Option<&[u8]>) -> (r: Result<Vec<u8>, Error>)
    ensures
        r is Ok <==> within_bounds(key@, stored_value(opt_view(value))),
        r matches Ok(rec) ==> rec@ == spec_encode(seq, key@, opt_view(value)),
        r matches Err(e) ==> is_invalid_input(e, oversize_message()),
{
    let empty: [u8; 0] = [];
    let stored: &[u8] = match value {
        Some(v) => v,
        None => empty.as_slice(),
    };
    assert(stored@ == stored_value(opt_view(value)));
    validate(key, stored)?;
    let mut body: Vec<u8> = Vec::new();
    push_all(&mut body, key);
    push_all(&mut body, stored);
    assert(body@ =~= payload(key@, opt_view(value)));
    let payload_crc = crc32(body.as_slice());
    let mut record: Vec<u8> = Vec::new();
    record.push(0x44);
    record.push(0x53);
    record.push(0x52);
    record.push(0x31);
    record.push(if value.is_none() { 1 } else { 0 });
    record.push(0);
    record.push(0);
    record.push(0);
    push_u64_le(&mut record, seq);
    push_u32_le(&mut record, key.len() as u32);
    push_u32_le(&mut record, stored.len() as u32);
    push_u32_le(&mut record, payload_crc);
    assert(record@ =~= record_header_body(seq, key@, opt_view(value)));
    let header_crc = crc32(record.as_slice());
    push_u32_le(&mut record, header_crc);
    record.append(&mut body);
    Ok(record)
}

/// What recovery has established from a prefix of the log.
pub struct LogState {
    /// The live keys and their values.
    pub entries: Map<Seq<u8>, Seq<u8>>,
    /// Sequence number of the last record applied (0 for none).
    pub records: nat,
    /// Bytes of the log up to the end of the last record applied.
    pub valid: nat,
}

/// The state of an empty log: the file header and no record.
pub open spec fn initial_state() -> LogState {
    LogState { entries: Map::empty(), records: 0, valid: FILE_HEADER as nat }
}

/// What recovery makes of the bytes at one record position.
pub enum Step {
    /// Fewer bytes remain than the record needs: an unfinished append.
    Incomplete,
    /// A complete record that is not valid, for the given reason.
    Corrupt(Seq<char>),
    /// A valid record of `size` bytes: a delete of `key`, or a put of `value`.
    Record { delete: bool, seq: nat, key: Seq<u8>, value: Seq<u8>, size: nat },
}

/// Reading the record at offset `at` of `log`, where `records` records precede it.
pub open spec fn record_step(log: Seq<u8>, at: int, records: nat) -> Step {
    if log.len() - at < RECORD_HEADER {
        Step::Incomplete
    } else {
        let h = log.subrange(at, at + RECORD_HEADER);
        let klen = u32_at(h, 16);
        let vlen = u32_at(h, 20);
        if h.take(4) != record_magic() || h[4] > 1 || h[5] != 0 || h[6] != 0 || h[7] != 0 {
            Step::Corrupt("invalid record header"@)
        } else if spec_crc32(h.take(28)) != u32_at(h, 28) {
            Step::Corrupt("record header checksum mismatch"@)
        } else if u64_at(h, 8) != records + 1 {
            Step::Corrupt("record sequence mismatch"@)
        } else if klen > MAX_KEY || vlen > MAX_VALUE || (h[4] == 1 && vlen != 0) {
            Step::Corrupt("invalid record lengths"@)
        } else if log.len() - at - RECORD_HEADER < klen + vlen {
            Step::Incomplete
        } else {
            let p = log.subrange(at + RECORD_HEADER, at + RECORD_HEADER + klen + vlen);
            if spec_crc32(p) != u32_at(h, 24) {
                Step::Corrupt("payload checksum mismatch"@)
            } else {
                Step::Record {
                    delete: h[4] == 1,
                    seq: u64_at(h, 8),
                    key: p.take(klen as int),
                    value: p.skip(klen as int),
                    size: (RECORD_HEADER + klen + vlen) as nat,
                }
            }
        }
    }
}

/// The map after a put of `value` under `key`, or after a delete of `key`.
pub open spec fn apply(
    entries: Map<Seq<u8>, Seq<u8>>,
    delete: bool,
    key: Seq<u8>,
    value: Seq<u8>,
) -> Map<Seq<u8>, Seq<u8>> {
    if delete {
        entries.remove(key)
    } else {
        entries.insert(key, value)
    }
}

/// Recovery from state `s` on: records are applied in order until the end of
/// the log or an incomplete tail; a corrupt record ends it with its offset and
/// the reason.
pub open spec fn scan_from(log: Seq<u8>, s: LogState) -> Result<LogState, (nat, Seq<char>)>
    decreases log.len() - s.valid,
{
    if s.valid >= log.len() {
        Ok(s)
    } else {
        match record_step(log, s.valid as int, s.records) {
            Step::Incomplete => Ok(s),
            Step::Corrupt(reason) => Err((s.valid, reason)),
            Step::Record { delete, seq, key, value, size } => scan_from(
                log,
                LogState {
                    entries: apply(s.entries, delete, key, value),
                    records: seq,
                    valid: s.valid + size,
                },
            ),
        }
    }
}

/// Recovery of a whole log: the exact file header, then the records.
pub open spec fn spec_scan(log: Seq<u8>) -> Result<LogState, (nat, Seq<char>)> {
    if log.len() < FILE_HEADER {
        Err((0, "incomplete file header"@))
    } else if log.take(FILE_HEADER as int) != spec_file_header() {
        Err((0, "bad file header or unsupported version"@))
    } else {
        scan_from(log, initial_state())
    }
}

/// The little-endian number in the four bytes of `s` from `i`.
fn read_u32(s: &[u8], i: usize) -> (x: u32)
    requires
        i + 4 <= s@.len(),
    ensures
        x == u32_at(s@, i as int),
{
    s[i] as u32 + 0x100 * (s[i + 1] as u32) + 0x1_0000 * (s[i + 2] as u32) + 0x100_0000 * (s[i
        + 3] as u32)
}

/// The little-endian number in the eight bytes of `s` from `i`.
fn read_u64(s: &[u8], i: usize) -> (x: u64)
    requires
        i + 8 <= s@.len(),
    ensures
        x == u64_at(s@, i as int),
{
    s[i] as u64 + 0x100 * (s[i + 1] as u64) + 0x1_0000 * (s[i + 2] as u64) + 0x100_0000 * (s[i
        + 3] as u64) + 0x1_0000_0000 * (s[i + 4] as u64) + 0x100_0000_0000 * (s[i + 5] as u64)
        + 0x1_0000_0000_0000 * (s[i + 6] as u64) + 0x100_0000_0000_0000 * (s[i + 7] as u64)
}

/// The result of recovering a log.
pub struct Scan {
    /// The live keys and their values.
    pub entries: Index,
    /// Sequence number of the last valid record.
    pub records: u64,
    /// Bytes up to the end of the last valid record.
    pub valid_bytes: u64,
    /// Bytes after it: an incomplete final record.
    pub tail_bytes: u64,
}

/// The state that a scan result describes.
pub open spec fn scan_state(s: Scan) -> LogState {
    LogState { entries: s.entries@, records: s.records as nat, valid: s.valid_bytes as nat }
}

/// Recovers the records of a log: checks the file header, then applies valid
/// records in order. An incomplete final record is left as a tail; any other
/// invalid record is a corruption error at its offset.
pub fn scan(log: &[u8]) -> (r: Result<Scan, Error>)
    ensures
        r matches Ok(s) ==> {
            &&& spec_scan(log@) == Ok::<LogState, (nat, Seq<char>)>(scan_state(s))
            &&& s.valid_bytes + s.tail_bytes == log@.len()
            &&& s.entries.wf()
            &&& footprint(s.entries.entries()) + FILE_HEADER <= s.valid_bytes
            &&& forall|k: Seq<u8>| #[trigger]
                s.entries@.contains_key(k) ==> within_bounds(k, s.entries@[k])
        },
        r matches Err(e) ==> spec_scan(log@) matches Err((offset, reason)) && is_corruption(
            e,
            offset as int,
            reason,
        ),
{
    if log.len() < FILE_HEADER {
        return Err(Error::Corruption { offset: 0, reason: "incomplete file header" });
    }
    let header = file_header();
    let mut k: usize = 0;
    while k < FILE_HEADER
        invariant
            k <= FILE_HEADER <= log@.len(),
            header@ == spec_file_header(),
            forall|j: int| 0 <= j < k ==> log@[j] == header@[j],
        decreases FILE_HEADER - k,
    {
        if log[k] != header[k] {
            assert(log@.take(FILE_HEADER as int)[k as int] != spec_file_header()[k as int]);
            return Err(
                Error::Corruption { offset: 0, reason: "bad file header or unsupported version" },
            );
        }
        k = k + 1;
    }
    assert(log@.take(FILE_HEADER as int) =~= spec_file_header());
    let mut entries = Index::new();
    let mut records: u64 = 0;
    let mut valid: usize = FILE_HEADER;
    proof {
        assert(entries@ =~= Map::<Seq<u8>, Seq<u8>>::empty());
    }
    while valid < log.len()
        invariant
            FILE_HEADER <= valid <= log@.len(),
            entries.wf(),
            footprint(entries.entries()) + FILE_HEADER <= valid,
            forall|k: Seq<u8>| #[trigger] entries@.contains_key(k) ==> within_bounds(k, entries@[k]),
            spec_scan(log@) == scan_from(
                log@,
                LogState { entries: entries@, records: records as nat, valid: valid as nat },
            ),
        ensures
            FILE_HEADER <= valid <= log@.len(),
            entries.wf(),
            footprint(entries.entries()) + FILE_HEADER <= valid,
            forall|k: Seq<u8>| #[trigger] entries@.contains_key(k) ==> within_bounds(k, entries@[k]),
            spec_scan(log@) == Ok::<LogState, (nat, Seq<char>)>(
                LogState { entries: entries@, records: records as nat, valid: valid as nat },
            ),
        decreases log@.len() - valid,
    {
        let at = valid;
        let ghost st = LogState { entries: entries@, records: records as nat, valid: at as nat };
        if log.len() - at < RECORD_HEADER {
            break;
        }
        let h = vstd::slice::slice_subrange(log, at, at + RECORD_HEADER);
        assert(h@ == log@.subrange(at as int, at + RECORD_HEADER));
        if h[0] != 0x44 || h[1] != 0x53 || h[2] != 0x52 || h[3] != 0x31 || h[5] != 0 || h[6] != 0
            || h[7] != 0 || h[4] > 1 {
            proof {
                if h@.take(4) == record_magic() {
                    assert(h@.take(4)[0] == h@[0] && h@.take(4)[1] == h@[1]);
                    assert(h@.take(4)[2] == h@[2] && h@.take(4)[3] == h@[3]);
                }
            }
            return Err(Error::Corruption { offset: at as u64, reason: "invalid record header" });
        }
        assert(h@.take(4) =~= record_magic());
        let header_crc = crc32(vstd::slice::slice_subrange(h, 0, 28));
        if header_crc != read_u32(h, 28) {
            return Err(
                Error::Corruption { offset: at as u64, reason: "record header checksum mismatch" },
            );
        }
        let seq = read_u64(h, 8);
        let next_ok = match records.checked_add(1) {
            Some(n) => n == seq,
            None => false,
        };
        if !next_ok {
            return Err(Error::Corruption { offset: at as u64, reason: "record sequence mismatch" });
        }
        let key_len = read_u32(h, 16) as usize;
        let val_len = read_u32(h, 20) as usize;
        if key_len > MAX_KEY || val_len > MAX_VALUE || (h[4] == 1 && val_len != 0) {
            return Err(Error::Corruption { offset: at as u64, reason: "invalid record lengths" });
        }
        let payload_len = key_len + val_len;
        if log.len() - at - RECORD_HEADER < payload_len {
            break;
        }
        let body = vstd::slice::slice_subrange(
            log,
            at + RECORD_HEADER,
            at + RECORD_HEADER + payload_len,
        );
        if crc32(body) != read_u32(h, 24) {
            return Err(Error::Corruption { offset: at as u64, reason: "payload checksum mismatch" });
        }
        let key = vstd::slice::slice_to_vec(vstd::slice::slice_subrange(body, 0, key_len));
        assert(key@ == body@.take(key_len as int));
        if h[4] == 1 {
            entries.remove(key.as_slice());
        } else {
            let value = vstd::slice::slice_to_vec(
                vstd::slice::slice_subrange(body, key_len, payload_len),
            );
            assert(value@ == body@.skip(key_len as int));
            entries.insert(key, value);
        }
        records = seq;
        valid = at + RECORD_HEADER + payload_len;
    }
    Ok(
        Scan {
            entries,
            records,
            valid_bytes: valid as u64,
            tail_bytes: (log.len() - valid) as u64,
        },
    )
}

/// The first eight powers of 256.
proof fn lemma_byte_weights()
    ensures
        pow(256, 0) == 1,
        pow(256, 1) == 0x100,
        pow(256, 2) == 0x1_0000,
        pow(256, 3) == 0x100_0000,
        pow(256, 4) == 0x1_0000_0000,
        pow(256, 5) == 0x100_0000_0000,
        pow(256, 6) == 0x1_0000_0000_0000,
        pow(256, 7) == 0x100_0000_0000_0000,
{
    reveal_with_fuel(pow, 8);
}

/// Written bytes of a 32-bit field are its little-endian base-256 digits:
/// byte `j` is `(x / 256^j) % 256`.
pub proof fn law_u32_le_digits(x: u32)
    ensures
        u32_le(x).len() == 4,
        forall|j: int| 0 <= j < 4 ==> #[trigger] u32_le(x)[j] == (x as int / pow(256, j as nat)) % 256,
{
    lemma_byte_weights();
    assert forall|j: int| 0 <= j < 4 implies #[trigger] u32_le(x)[j] == (x as int / pow(256, j as nat))
        % 256 by {
        if j == 3 {
            assert(x as int / 0x100_0000 < 256);
        }
    }
}

/// Written bytes of a 64-bit field are its little-endian base-256 digits:
/// byte `j` is `(x / 256^j) % 256`.
pub proof fn law_u64_le_digits(x: u64)
    ensures
        u64_le(x).len() == 8,
        forall|j: int| 0 <= j < 8 ==> #[trigger] u64_le(x)[j] == (x as int / pow(256, j as nat)) % 256,
{
    lemma_byte_weights();
    assert forall|j: int| 0 <= j < 8 implies #[trigger] u64_le(x)[j] == (x as int / pow(256, j as nat))
        % 256 by {
        if j == 7 {
            assert(x as int / 0x100_0000_0000_0000 < 256);
        }
    }
}

/// A 32-bit field read from bytes is the number whose little-endian base-256
/// digits are those bytes.
pub proof fn law_u32_at_digits(s: Seq<u8>, i: int)
    requires
        0 <= i,
        i + 4 <= s.len(),
    ensures
        u32_at(s, i) <= u32::MAX,
        forall|j: int| 0 <= j < 4 ==> (u32_at(s, i) as int / pow(256, j as nat)) % 256 == #[trigger] s[i + j],
{
    lemma_byte_weights();
    let b0 = s[i] as u32;
    let b1 = s[i + 1] as u32;
    let b2 = s[i + 2] as u32;
    let b3 = s[i + 3] as u32;
    let x = u32_at(s, i);
    assert(x <= u32::MAX);
    let y = x as u32;
    assert(y == b0 + 0x100 * b1 + 0x1_0000 * b2 + 0x100_0000 * b3);
    assert(y % 0x100 == b0 && (y / 0x100) % 0x100 == b1 && (y / 0x1_0000) % 0x100 == b2 && (y
        / 0x100_0000) % 0x100 == b3) by (bit_vector)
        requires
            y == b0 + 0x100 * b1 + 0x1_0000 * b2 + 0x100_0000 * b3,
            b0 < 256,
            b1 < 256,
            b2 < 256,
            b3 < 256,
    ;
    assert forall|j: int| 0 <= j < 4 implies (u32_at(s, i) as int / pow(256, j as nat)) % 256 == #[trigger] s[i
        + j] by {
        if j == 0 {
            assert(s[i + j] == b0);
        } else if j == 1 {
            assert(s[i + j] == b1);
        } else if j == 2 {
            assert(s[i + j] == b2);
        } else {
            assert(s[i + j] == b3);
        }
    }
}

/// A 64-bit field read from bytes is the number whose little-endian base-256
/// digits are those bytes.
pub proof fn law_u64_at_digits(s: Seq<u8>, i: int)
    requires
        0 <= i,
        i + 8 <= s.len(),
    ensures
        u64_at(s, i) <= u64::MAX,
        forall|j: int| 0 <= j < 8 ==> (u64_at(s, i) as int / pow(256, j as nat)) % 256 == #[trigger] s[i + j],
{
    lemma_byte_weights();
    let b0 = s[i] as u64;
    let b1 = s[i + 1] as u64;
    let b2 = s[i + 2] as u64;
    let b3 = s[i + 3] as u64;
    let b4 = s[i + 4] as u64;
    let b5 = s[i + 5] as u64;
    let b6 = s[i + 6] as u64;
    let b7 = s[i + 7] as u64;
    let x = u64_at(s, i);
    assert(x <= u64::MAX);
    let y = x as u64;
    assert(y == b0 + 0x100 * b1 + 0x1_0000 * b2 + 0x100_0000 * b3 + 0x1_0000_0000 * b4
        + 0x100_0000_0000 * b5 + 0x1_0000_0000_0000 * b6 + 0x100_0000_0000_0000 * b7);
    assert(y % 0x100 == b0 && (y / 0x100) % 0x100 == b1 && (y / 0x1_0000) % 0x100 == b2 && (y
        / 0x100_0000) % 0x100 == b3 && (y / 0x1_0000_0000) % 0x100 == b4 && (y / 0x100_0000_0000)
        % 0x100 == b5 && (y / 0x1_0000_0000_0000) % 0x100 == b6 && (y / 0x100_0000_0000_0000)
        % 0x100 == b7) by (bit_vector)
        requires
            y == b0 + 0x100 * b1 + 0x1_0000 * b2 + 0x100_0000 * b3 + 0x1_0000_0000 * b4
                + 0x100_0000_0000 * b5 + 0x1_0000_0000_0000 * b6 + 0x100_0000_0000_0000 * b7,
            b0 < 256,
            b1 < 256,
            b2 < 256,
            b3 < 256,
            b4 < 256,
            b5 < 256,
            b6 < 256,
            b7 < 256,
    ;
    assert forall|j: int| 0 <= j < 8 implies (u64_at(s, i) as int / pow(256, j as nat)) % 256 == #[trigger] s[i
        + j] by {
        if j == 0 {
            assert(s[i + j] == b0);
        } else if j == 1 {
            assert(s[i + j] == b1);
        } else if j == 2 {
            assert(s[i + j] == b2);
        } else if j == 3 {
            assert(s[i + j] == b3);
        } else if j == 4 {
            assert(s[i + j] == b4);
        } else if j == 5 {
            assert(s[i + j] == b5);
        } else if j == 6 {
            assert(s[i + j] == b6);
        } else {
            assert(s[i + j] == b7);
        }
    }
}

/// Feeding a byte into the CRC register only XORs it into the register's low
/// eight bits: it is the same as XORing the byte, zero-extended, into the
/// register and feeding a zero byte.
pub proof fn law_crc_byte_enters_low_bits(c: u32, b: u8)
    ensures
        crc_feed(c, b) == crc_feed(c ^ (b as u32), 0),
        (c ^ (b as u32)) >> 8 == c >> 8,
{
    let x = b as u32;
    assert((c ^ x) ^ 0u32 == c ^ x && (c ^ x) >> 8 == c >> 8) by (bit_vector)
        requires
            x < 256,
    ;
}

/// Extending the input by one byte XORs that byte into the low eight bits of
/// the register and advances it as a zero byte would.
pub proof fn law_crc_register_push(s: Seq<u8>, b: u8)
    ensures
        crc_register(s.push(b)) == crc_feed(crc_register(s) ^ (b as u32), 0),
{
    assert(s.push(b).drop_last() =~= s);
    law_crc_byte_enters_low_bits(crc_register(s), b);
}

/// The bytes of an encoded record, field by field at their offsets: magic
/// `DSR1`, the operation byte (1 for a delete), three zero bytes, then the
/// sequence number, key length, value length, payload CRC and header CRC as
/// little-endian base-256 digits, then the key and the value.
pub proof fn law_record_fields(seq: u64, key: Seq<u8>, value: Option<Seq<u8>>)
    requires
        within_bounds(key, stored_value(value)),
    ensures
        ({
            let r = spec_encode(seq, key, value);
            let v = stored_value(value);
            &&& r.len() == RECORD_HEADER + key.len() + v.len()
            &&& r[0] == 0x44 && r[1] == 0x53 && r[2] == 0x52 && r[3] == 0x31
            &&& r[4] == (if value is None {
                1u8
            } else {
                0u8
            })
            &&& r[5] == 0 && r[6] == 0 && r[7] == 0
            &&& forall|j: int| 0 <= j < 8 ==> #[trigger] r[8 + j] == (seq as int / pow(256, j as nat)) % 256
            &&& forall|j: int| 0 <= j < 4 ==> #[trigger] r[16 + j] == (key.len() as int / pow(256, j as nat))
                % 256
            &&& forall|j: int| 0 <= j < 4 ==> #[trigger] r[20 + j] == (v.len() as int / pow(256, j as nat))
                % 256
            &&& forall|j: int| 0 <= j < 4 ==> #[trigger] r[24 + j] == (spec_crc32(key + v) as int / pow(
                256,
                j as nat,
            )) % 256
            &&& forall|j: int| 0 <= j < 4 ==> #[trigger] r[28 + j] == (spec_crc32(r.take(28)) as int
                / pow(256, j as nat)) % 256
            &&& r.skip(RECORD_HEADER as int) == key + v
        }),
{
    let r = spec_encode(seq, key, value);
    let v = stored_value(value);
    let hb = record_header_body(seq, key, value);
    assert(payload(key, value) =~= key + v);
    assert(r.take(28) =~= hb);
    law_u64_le_digits(seq);
    law_u32_le_digits(key.len() as u32);
    law_u32_le_digits(v.len() as u32);
    law_u32_le_digits(spec_crc32(key + v));
    law_u32_le_digits(spec_crc32(hb));
    assert forall|j: int| 0 <= j < 8 implies #[trigger] r[8 + j] == (seq as int / pow(256, j as nat)) % 256 by {
        assert(r[8 + j] == u64_le(seq)[j]);
    }
    assert forall|j: int| 0 <= j < 4 implies #[trigger] r[16 + j] == (key.len() as int / pow(256, j as nat))
        % 256 by {
        assert(r[16 + j] == u32_le(key.len() as u32)[j]);
    }
    assert forall|j: int| 0 <= j < 4 implies #[trigger] r[20 + j] == (v.len() as int / pow(256, j as nat))
        % 256 by {
        assert(r[20 + j] == u32_le(v.len() as u32)[j]);
    }
    assert forall|j: int| 0 <= j < 4 implies #[trigger] r[24 + j] == (spec_crc32(key + v) as int / pow(
        256,
        j as nat,
    )) % 256 by {
        assert(r[24 + j] == u32_le(spec_crc32(key + v))[j]);
    }
    assert forall|j: int| 0 <= j < 4 implies #[trigger] r[28 + j] == (spec_crc32(r.take(28)) as int
        / pow(256, j as nat)) % 256 by {
        assert(r[28 + j] == u32_le(spec_crc32(hb))[j]);
    }
    assert(r.skip(RECORD_HEADER as int) =~= key + v);
}

} // verus!
