//! What recovery makes of logs that the store writes: appended records are
//! recovered, torn appends are discarded without loss, compacted logs hold the
//! same entries, and recovery of a truncated log gives the same state.
use crate::format::{
    apply, initial_state, lemma_u32_le_roundtrip, lemma_u64_le_roundtrip, op_byte, payload,
    record_header_body, record_magic, record_step, scan_from, spec_crc32, spec_encode,
    spec_file_header, spec_scan, stored_value, u32_at, u32_le, u64_at, u64_le, within_bounds,
    LogState, Step, FILE_HEADER, RECORD_HEADER,
};
use crate::index::{entries_map, footprint, gap_at, lemma_insert_gap, sorted, Entry};
use crate::store::{
    appended, compacted, compaction_image, lemma_encode_all_len, lemma_encode_len,
    StoreView,
};
use vstd::prelude::*;

verus! {

/// Four bytes that were written from `x` read back as `x`.
pub proof fn lemma_u32_at_written(s: Seq<u8>, i: int, x: u32)
    requires
        0 <= i,
        i + 4 <= s.len(),
        s.subrange(i, i + 4) == u32_le(x),
    ensures
        u32_at(s, i) == x,
{
    lemma_u32_le_roundtrip(x);
    assert forall|j: int| 0 <= j < 4 implies s[i + j] == u32_le(x)[j] by {
        assert(s.subrange(i, i + 4)[j] == s[i + j]);
    }
}

/// Eight bytes that were written from `x` read back as `x`.
pub proof fn lemma_u64_at_written(s: Seq<u8>, i: int, x: u64)
    requires
        0 <= i,
        i + 8 <= s.len(),
        s.subrange(i, i + 8) == u64_le(x),
    ensures
        u64_at(s, i) == x,
{
    lemma_u64_le_roundtrip(x);
    assert forall|j: int| 0 <= j < 8 implies s[i + j] == u64_le(x)[j] by {
        assert(s.subrange(i, i + 8)[j] == s[i + j]);
    }
}

/// A record step reads only the bytes of its record: another log that holds
/// the same bytes there reads the same record.
pub proof fn lemma_step_local(a: Seq<u8>, b: Seq<u8>, at: int, records: nat)
    requires
        0 <= at,
        record_step(a, at, records) matches Step::Record { size, .. } && at + size <= b.len()
            && a.subrange(at, at + size) == b.subrange(at, at + size),
    ensures
        record_step(b, at, records) == record_step(a, at, records),
{
    let size = record_step(a, at, records)->size;
    let ha = a.subrange(at, at + RECORD_HEADER);
    let hb = b.subrange(at, at + RECORD_HEADER);
    assert(ha =~= a.subrange(at, at + size).subrange(0, RECORD_HEADER as int));
    assert(hb =~= b.subrange(at, at + size).subrange(0, RECORD_HEADER as int));
    let klen = u32_at(ha, 16);
    let vlen = u32_at(ha, 20);
    assert(size == RECORD_HEADER + klen + vlen);
    assert(a.subrange(at + RECORD_HEADER, at + size) =~= a.subrange(at, at + size).subrange(
        RECORD_HEADER as int,
        size as int,
    ));
    assert(b.subrange(at + RECORD_HEADER, at + size) =~= b.subrange(at, at + size).subrange(
        RECORD_HEADER as int,
        size as int,
    ));
}

/// Recovery never moves backwards.
pub proof fn lemma_scan_grows(log: Seq<u8>, s: LogState)
    requires
        s.valid <= log.len(),
    ensures
        scan_from(log, s) matches Ok(t) ==> s.valid <= t.valid <= log.len(),
    decreases log.len() - s.valid,
{
    if s.valid < log.len() {
        if let Step::Record { delete, seq, key, value, size } = record_step(log, s.valid as int, s.records) {
            lemma_scan_grows(
                log,
                LogState { entries: apply(s.entries, delete, key, value), records: seq, valid: s.valid + size },
            );
        }
    }
}

/// Recovery that consumed all of `a` continues on `a + b` from where it ended.
pub proof fn lemma_scan_extend(a: Seq<u8>, b: Seq<u8>, s: LogState)
    requires
        s.valid <= a.len(),
        scan_from(a, s) matches Ok(t) && t.valid == a.len(),
    ensures
        scan_from(a + b, s) == scan_from(a + b, scan_from(a, s)->Ok_0),
    decreases a.len() - s.valid,
{
    if s.valid < a.len() {
        match record_step(a, s.valid as int, s.records) {
            Step::Record { delete, seq, key, value, size } => {
                let n = LogState {
                    entries: apply(s.entries, delete, key, value),
                    records: seq,
                    valid: s.valid + size,
                };
                assert(a.subrange(s.valid as int, (s.valid + size) as int) =~= (a + b).subrange(
                    s.valid as int,
                    (s.valid + size) as int,
                ));
                lemma_step_local(a, a + b, s.valid as int, s.records);
                lemma_scan_grows(a, n);
                lemma_scan_extend(a, b, n);
            },
            _ => {},
        }
    }
}

/// Recovery of a log cut right after the last record it applied ends in the
/// same state.
pub proof fn lemma_scan_truncate(log: Seq<u8>, s: LogState)
    requires
        s.valid <= log.len(),
        scan_from(log, s) is Ok,
    ensures
        scan_from(log.take(scan_from(log, s)->Ok_0.valid as int), s) == scan_from(log, s),
    decreases log.len() - s.valid,
{
    let t = scan_from(log, s)->Ok_0;
    lemma_scan_grows(log, s);
    let cut = log.take(t.valid as int);
    if s.valid < log.len() {
        match record_step(log, s.valid as int, s.records) {
            Step::Record { delete, seq, key, value, size } => {
                let n = LogState {
                    entries: apply(s.entries, delete, key, value),
                    records: seq,
                    valid: s.valid + size,
                };
                lemma_scan_grows(log, n);
                assert(log.subrange(s.valid as int, (s.valid + size) as int) =~= cut.subrange(
                    s.valid as int,
                    (s.valid + size) as int,
                ));
                lemma_step_local(log, cut, s.valid as int, s.records);
                lemma_scan_truncate(log, n);
                assert(log.take(t.valid as int) == cut);
            },
            _ => {},
        }
    }
}

/// The parts of an encoded record: its header body, header CRC and payload.
pub proof fn lemma_encode_parts(seq: u64, key: Seq<u8>, value: Option<Seq<u8>>)
    requires
        within_bounds(key, stored_value(value)),
    ensures
        ({
            let r = spec_encode(seq, key, value);
            let h = r.take(RECORD_HEADER as int);
            let hb = record_header_body(seq, key, value);
            let klen = key.len();
            let vlen = stored_value(value).len();
            &&& r.len() == RECORD_HEADER + klen + vlen
            &&& h.take(28) == hb
            &&& h.take(4) == record_magic()
            &&& h[4] == op_byte(value) && h[5] == 0 && h[6] == 0 && h[7] == 0
            &&& u32_at(h, 28) == spec_crc32(hb)
            &&& u64_at(h, 8) == seq
            &&& u32_at(h, 16) == klen
            &&& u32_at(h, 20) == vlen
            &&& u32_at(h, 24) == spec_crc32(payload(key, value))
            &&& r.skip(RECORD_HEADER as int) == payload(key, value)
            &&& payload(key, value).take(klen as int) == key
            &&& payload(key, value).skip(klen as int) == stored_value(value)
        }),
{
    let r = spec_encode(seq, key, value);
    let h = r.take(RECORD_HEADER as int);
    let hb = record_header_body(seq, key, value);
    let klen = key.len();
    let vlen = stored_value(value).len();
    lemma_u32_le_roundtrip(klen as u32);
    lemma_u32_le_roundtrip(vlen as u32);
    assert(hb.len() == 28);
    assert(h.take(28) =~= hb);
    assert(h.take(4) =~= record_magic());
    assert(h.subrange(28, 32) =~= u32_le(spec_crc32(hb)));
    lemma_u32_at_written(h, 28, spec_crc32(hb));
    assert(h.subrange(8, 16) =~= u64_le(seq));
    lemma_u64_at_written(h, 8, seq);
    assert(h.subrange(16, 20) =~= u32_le(klen as u32));
    lemma_u32_at_written(h, 16, klen as u32);
    assert(h.subrange(20, 24) =~= u32_le(vlen as u32));
    lemma_u32_at_written(h, 20, vlen as u32);
    assert(h.subrange(24, 28) =~= u32_le(spec_crc32(payload(key, value))));
    lemma_u32_at_written(h, 24, spec_crc32(payload(key, value)));
    assert(r.skip(RECORD_HEADER as int) =~= payload(key, value));
    assert(payload(key, value).take(klen as int) =~= key);
    assert(payload(key, value).skip(klen as int) =~= stored_value(value));
}

/// The step that reads a record just appended to a log applies it.
pub proof fn lemma_step_appended(log: Seq<u8>, records: nat, key: Seq<u8>, value: Option<Seq<u8>>)
    requires
        within_bounds(key, stored_value(value)),
        records + 1 <= u64::MAX,
    ensures
        record_step(log + spec_encode((records + 1) as u64, key, value), log.len() as int, records)
            == (Step::Record {
            delete: value is None,
            seq: records + 1,
            key: key,
            value: stored_value(value),
            size: spec_encode((records + 1) as u64, key, value).len(),
        }),
{
    let r = spec_encode((records + 1) as u64, key, value);
    let l = log + r;
    let at = log.len() as int;
    lemma_encode_parts((records + 1) as u64, key, value);
    assert(l.subrange(at, at + RECORD_HEADER) =~= r.take(RECORD_HEADER as int));
    assert(l.subrange(at + RECORD_HEADER, l.len() as int) =~= r.skip(RECORD_HEADER as int));
}

/// The step that reads a record cut short finds it incomplete.
pub proof fn lemma_step_torn(
    log: Seq<u8>,
    records: nat,
    key: Seq<u8>,
    value: Option<Seq<u8>>,
    cut: int,
)
    requires
        within_bounds(key, stored_value(value)),
        records + 1 <= u64::MAX,
        0 < cut < spec_encode((records + 1) as u64, key, value).len(),
    ensures
        record_step(
            log + spec_encode((records + 1) as u64, key, value).take(cut),
            log.len() as int,
            records,
        ) == Step::Incomplete,
{
    let r = spec_encode((records + 1) as u64, key, value);
    let l = log + r.take(cut);
    let at = log.len() as int;
    lemma_encode_parts((records + 1) as u64, key, value);
    if cut >= RECORD_HEADER {
        assert(l.subrange(at, at + RECORD_HEADER) =~= r.take(RECORD_HEADER as int));
    }
}

/// Recovery of a log consumed in full, after which one record is appended,
/// applies that record as well.
pub proof fn law_append_recovered(log: Seq<u8>, key: Seq<u8>, value: Option<Seq<u8>>)
    requires
        spec_scan(log) matches Ok(s) && s.valid == log.len() && s.records + 1 <= u64::MAX,
        within_bounds(key, stored_value(value)),
    ensures
        ({
            let s = spec_scan(log)->Ok_0;
            let r = spec_encode((s.records + 1) as u64, key, value);
            spec_scan(log + r) == Ok::<LogState, (nat, Seq<char>)>(
                LogState {
                    entries: apply(s.entries, value is None, key, stored_value(value)),
                    records: s.records + 1,
                    valid: s.valid + r.len(),
                },
            )
        }),
{
    let s = spec_scan(log)->Ok_0;
    let r = spec_encode((s.records + 1) as u64, key, value);
    let l = log + r;
    assert(l.take(FILE_HEADER as int) =~= log.take(FILE_HEADER as int));
    lemma_scan_extend(log, r, initial_state());
    lemma_step_appended(log, s.records, key, value);
    lemma_encode_parts((s.records + 1) as u64, key, value);
    let n = LogState {
        entries: apply(s.entries, value is None, key, stored_value(value)),
        records: s.records + 1,
        valid: s.valid + r.len(),
    };
    assert(scan_from(l, n) == Ok::<LogState, (nat, Seq<char>)>(n));
}

/// A record cut short at any byte leaves recovery where it was before the
/// append: nothing applied, and the partial bytes form the tail.
pub proof fn law_torn_append_discarded(
    log: Seq<u8>,
    key: Seq<u8>,
    value: Option<Seq<u8>>,
    cut: int,
)
    requires
        spec_scan(log) matches Ok(s) && s.valid == log.len() && s.records + 1 <= u64::MAX,
        within_bounds(key, stored_value(value)),
        0 <= cut < spec_encode((spec_scan(log)->Ok_0.records + 1) as u64, key, value).len(),
    ensures
        spec_scan(
            log + spec_encode((spec_scan(log)->Ok_0.records + 1) as u64, key, value).take(cut),
        ) == spec_scan(log),
{
    let s = spec_scan(log)->Ok_0;
    let r = spec_encode((s.records + 1) as u64, key, value).take(cut);
    let l = log + r;
    if cut == 0 {
        assert(l =~= log);
    } else {
        assert(l.take(FILE_HEADER as int) =~= log.take(FILE_HEADER as int));
        lemma_scan_extend(log, r, initial_state());
        lemma_step_torn(log, s.records, key, value, cut);
    }
}

/// Recovery of a log cut where recovery stopped gives the same state.
pub proof fn law_recovered_prefix(log: Seq<u8>)
    requires
        spec_scan(log) is Ok,
    ensures
        spec_scan(log.take(spec_scan(log)->Ok_0.valid as int)) == spec_scan(log),
        spec_scan(log)->Ok_0.valid <= log.len(),
{
    let t = spec_scan(log)->Ok_0;
    lemma_scan_grows(log, initial_state());
    lemma_scan_truncate(log, initial_state());
    assert(log.take(t.valid as int).take(FILE_HEADER as int) =~= log.take(FILE_HEADER as int));
}

/// A fresh log of only the file header recovers to an empty state.
pub proof fn lemma_header_only_recovered()
    ensures
        spec_scan(spec_file_header()) == Ok::<LogState, (nat, Seq<char>)>(initial_state()),
{
    assert(spec_file_header().take(FILE_HEADER as int) =~= spec_file_header());
}

/// One step of compaction's induction: the entries before the last recover,
/// so all of them do.
proof fn lemma_compaction_step(front: Seq<Entry>, e: Entry)
    requires
        sorted(front.push(e)),
        front.len() + 1 <= u64::MAX,
        within_bounds(e.0, e.1),
        spec_scan(compaction_image(front)) == Ok::<LogState, (nat, Seq<char>)>(
            LogState {
                entries: entries_map(front),
                records: front.len(),
                valid: (FILE_HEADER + footprint(front)) as nat,
            },
        ),
        compaction_image(front).len() == FILE_HEADER + footprint(front),
    ensures
        spec_scan(compaction_image(front.push(e))) == Ok::<LogState, (nat, Seq<char>)>(
            LogState {
                entries: entries_map(front.push(e)),
                records: front.len() + 1,
                valid: (FILE_HEADER + footprint(front.push(e))) as nat,
            },
        ),
{
    let es = front.push(e);
    let img = compaction_image(front);
    let r = spec_encode(es.len() as u64, e.0, Some(e.1));
    assert(es.drop_last() =~= front);
    assert(compaction_image(es) =~= img + r);
    law_append_recovered(img, e.0, Some(e.1));
    lemma_encode_len(es.len() as u64, e.0, Some(e.1));
    assert(gap_at(front, e.0, front.len() as int)) by {
        assert forall|i: int| 0 <= i < front.len() implies crate::index::lex_lt(
            #[trigger] front[i].0,
            e.0,
        ) by {
            assert(es[i] == front[i]);
            assert(es[front.len() as int] == e);
        }
    }
    lemma_insert_gap(front, e.0, e.1, front.len() as int);
    assert(front.insert(front.len() as int, (e.0, e.1)) =~= es);
}

/// The log that compaction writes recovers to the same entries, one record
/// per entry, with nothing after it.
pub proof fn law_compaction_recovered(es: Seq<Entry>)
    requires
        sorted(es),
        es.len() <= u64::MAX,
        forall|i: int| 0 <= i < es.len() ==> within_bounds(#[trigger] es[i].0, es[i].1),
    ensures
        spec_scan(compaction_image(es)) == Ok::<LogState, (nat, Seq<char>)>(
            LogState {
                entries: entries_map(es),
                records: es.len(),
                valid: (FILE_HEADER + footprint(es)) as nat,
            },
        ),
        compaction_image(es).len() == FILE_HEADER + footprint(es),
    decreases es.len(),
{
    lemma_encode_all_len(es);
    if es.len() == 0 {
        lemma_header_only_recovered();
        assert(compaction_image(es) =~= spec_file_header());
        assert(entries_map(es) =~= Map::<Seq<u8>, Seq<u8>>::empty());
    } else {
        let front = es.drop_last();
        let e = es.last();
        assert(front.push(e) =~= es);
        assert(sorted(front)) by {
            assert forall|i: int, j: int| 0 <= i < j < front.len() implies crate::index::lex_lt(
                #[trigger] front[i].0,
                #[trigger] front[j].0,
            ) by {
                assert(es[i] == front[i] && es[j] == front[j]);
            }
        }
        assert(within_bounds(es[es.len() - 1].0, es[es.len() - 1].1));
        assert forall|i: int| 0 <= i < front.len() implies within_bounds(
            #[trigger] front[i].0,
            front[i].1,
        ) by {
            assert(es[i] == front[i]);
        }
        law_compaction_recovered(front);
        lemma_encode_all_len(front);
        lemma_compaction_step(front, e);
    }
}

/// `log` is exactly what store state `v` was recovered from or has written:
/// recovering it gives the entries, the records and the length of `v`.
pub open spec fn recovers(log: Seq<u8>, v: StoreView) -> bool {
    &&& spec_scan(log) == Ok::<LogState, (nat, Seq<char>)>(
        LogState { entries: v.map(), records: v.records, valid: v.bytes },
    )
    &&& v.bytes == log.len()
}

/// After opening, the log cut to the store's length (its tail discarded)
/// is exactly what the store was recovered from.
pub proof fn law_opened_log_recovers(log: Seq<u8>, v: StoreView)
    requires
        spec_scan(log) == Ok::<LogState, (nat, Seq<char>)>(
            LogState { entries: v.map(), records: v.records, valid: v.bytes },
        ),
    ensures
        recovers(log.take(v.bytes as int), v),
{
    law_recovered_prefix(log);
}

/// An acknowledged put or delete survives reopening: the log with its record
/// appended recovers the acknowledged state.
pub proof fn law_acknowledged_mutation_recovered(
    log: Seq<u8>,
    old: StoreView,
    new: StoreView,
    key: Seq<u8>,
    value: Option<Seq<u8>>,
)
    requires
        recovers(log, old),
        old.records < u64::MAX,
        within_bounds(key, stored_value(value)),
        appended(old, new, key, value),
    ensures
        recovers(log + spec_encode((old.records + 1) as u64, key, value), new),
{
    law_append_recovered(log, key, value);
    lemma_encode_len((old.records + 1) as u64, key, value);
}

/// A crash in the middle of an append loses nothing acknowledged: reopening
/// recovers the state before it, with the partial bytes as the tail.
pub proof fn law_interrupted_mutation_recovered(
    log: Seq<u8>,
    old: StoreView,
    key: Seq<u8>,
    value: Option<Seq<u8>>,
    cut: int,
)
    requires
        recovers(log, old),
        old.records < u64::MAX,
        within_bounds(key, stored_value(value)),
        0 <= cut < spec_encode((old.records + 1) as u64, key, value).len(),
    ensures
        spec_scan(log + spec_encode((old.records + 1) as u64, key, value).take(cut)) == Ok::<
            LogState,
            (nat, Seq<char>),
        >(LogState { entries: old.map(), records: old.records, valid: log.len() }),
{
    law_torn_append_discarded(log, key, value, cut);
}

/// An acknowledged compaction survives reopening: its log recovers the
/// compacted state, which holds the same entries.
pub proof fn law_acknowledged_compaction_recovered(old: StoreView, new: StoreView)
    requires
        sorted(old.entries),
        forall|k: Seq<u8>| #[trigger] old.map().contains_key(k) ==> within_bounds(k, old.map()[k]),
        old.entries.len() <= u64::MAX,
        compacted(old, new),
    ensures
        recovers(compaction_image(old.entries), new),
        new.map() == old.map(),
{
    let es = old.entries;
    assert forall|i: int| 0 <= i < es.len() implies within_bounds(#[trigger] es[i].0, es[i].1) by {
        crate::index::lemma_entries_map_at(es, i);
        assert(old.map().contains_key(es[i].0));
    }
    law_compaction_recovered(es);
}

} // verus!
