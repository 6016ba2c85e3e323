//! The store: the live entries recovered from the log, the counters of the
//! log, and the decisions of each operation. Each mutation yields the bytes to
//! persist; the caller writes and synchronizes them, then acknowledges.
use crate::format::{
    encode, file_header, opt_view, push_all, scan, spec_encode, spec_file_header, spec_scan,
    stored_value, within_bounds, LogState, FILE_HEADER, RECORD_HEADER,
};
use crate::index::{
    entries_map, footprint, lemma_entries_map_at, lemma_live_size_le_footprint, lemma_sizes_concat,
    live_size, pairs_view, sorted, Entry, Index,
};
use crate::{is_corruption, is_invalid_input, Error};
use vstd::prelude::*;

verus! {

/// Counters of a store or of a log.
#[derive(Debug, Clone, PartialEq, Eq, Structural)]
pub struct Stats {
    /// Number of live keys.
    pub live_keys: usize,
    /// Total bytes of live keys and values.
    pub live_bytes: u64,
    /// Sequence number of the last record.
    pub records: u64,
    /// Bytes of the log.
    pub log_bytes: u64,
    /// Bytes discarded on this handle's open, or found incomplete by inspect.
    pub tail_bytes: u64,
}

/// An operation whose bytes are being persisted.
pub enum Op {
    Put(Seq<u8>, Seq<u8>),
    Delete(Seq<u8>),
    Compact,
}

/// The abstract state of a store.
pub struct StoreView {
    /// The live entries in key order.
    pub entries: Seq<Entry>,
    /// Sequence number of the last record in the log.
    pub records: nat,
    /// Bytes of the log.
    pub bytes: nat,
    /// Bytes of incomplete tail discarded when the store was opened.
    pub tail: nat,
    /// A persistence step is under way or has failed: mutations are refused.
    pub poisoned: bool,
    /// The operation whose bytes are being persisted.
    pub pending: Option<Op>,
}

impl StoreView {
    /// The live keys and their values.
    pub open spec fn map(self) -> Map<Seq<u8>, Seq<u8>> {
        entries_map(self.entries)
    }
}

/// `new` is `old` after its record for `key` (a put of `value`, or a delete
/// when `value` is `None`) was persisted.
pub open spec fn appended(old: StoreView, new: StoreView, key: Seq<u8>, value: Option<Seq<u8>>) -> bool {
    &&& sorted(new.entries)
    &&& new.map() == crate::format::apply(old.map(), value is None, key, stored_value(value))
    &&& new.records == old.records + 1
    &&& new.bytes == old.bytes + RECORD_HEADER + key.len() + stored_value(value).len()
    &&& new.tail == old.tail
    &&& !new.poisoned
    &&& new.pending is None
}

/// `new` is `old` after its compacted log replaced the old one.
pub open spec fn compacted(old: StoreView, new: StoreView) -> bool {
    &&& new.entries == old.entries
    &&& new.records == old.entries.len()
    &&& new.bytes == FILE_HEADER + footprint(old.entries)
    &&& new.tail == old.tail
    &&& !new.poisoned
    &&& new.pending is None
}

/// `new` is `old` once its pending operation, if any, has been persisted.
pub open spec fn acknowledged(old: StoreView, new: StoreView) -> bool {
    match old.pending {
        None => new == old,
        Some(Op::Put(k, v)) => appended(old, new, k, Some(v)),
        Some(Op::Delete(k)) => appended(old, new, k, None),
        Some(Op::Compact) => compacted(old, new),
    }
}

/// The records of `es` in order, numbered from 1.
pub open spec fn encode_all(es: Seq<Entry>) -> Seq<u8>
    decreases es.len(),
{
    if es.len() == 0 {
        Seq::empty()
    } else {
        encode_all(es.drop_last()) + spec_encode(
            es.len() as u64,
            es.last().0,
            Some(es.last().1),
        )
    }
}

/// The log that compaction writes: a fresh header and one put per entry.
pub open spec fn compaction_image(es: Seq<Entry>) -> Seq<u8> {
    spec_file_header() + encode_all(es)
}

/// A record has a 32-byte header followed by the key and the value.
pub proof fn lemma_encode_len(seq: u64, key: Seq<u8>, value: Option<Seq<u8>>)
    ensures
        spec_encode(seq, key, value).len() == RECORD_HEADER + key.len() + stored_value(value).len(),
{
}

/// The records of `es` take `footprint(es)` bytes.
pub proof fn lemma_encode_all_len(es: Seq<Entry>)
    ensures
        encode_all(es).len() == footprint(es),
    decreases es.len(),
{
    if es.len() > 0 {
        lemma_encode_all_len(es.drop_last());
        lemma_encode_len(es.len() as u64, es.last().0, Some(es.last().1));
    }
}

/// The file header has 16 bytes.
pub proof fn lemma_file_header_len()
    ensures
        spec_file_header().len() == FILE_HEADER,
{
}

/// The operation being persisted.
enum Pending {
    Append { key: Vec<u8>, value: Option<Vec<u8>> },
    Rewrite { size: u64 },
}

/// The store's live entries and the counters of its log.
pub struct Store {
    entries: Index,
    records: u64,
    bytes: u64,
    recovered_tail: u64,
    poisoned: bool,
    pending: Option<Pending>,
}

/// The operation that an exec pending operation stands for.
spec fn pending_view(p: Option<Pending>) -> Option<Op> {
    match p {
        None => None,
        Some(Pending::Append { key, value: Some(v) }) => Some(Op::Put(key@, v@)),
        Some(Pending::Append { key, value: None }) => Some(Op::Delete(key@)),
        Some(Pending::Rewrite { .. }) => Some(Op::Compact),
    }
}

impl View for Store {
    type V = StoreView;

    closed spec fn view(&self) -> StoreView {
        StoreView {
            entries: self.entries.entries(),
            records: self.records as nat,
            bytes: self.bytes as nat,
            tail: self.recovered_tail as nat,
            poisoned: self.poisoned,
            pending: pending_view(self.pending),
        }
    }
}

/// Total key and value bytes of the entries, which fit because they never
/// exceed the footprint.
fn live_bytes_of(pairs: &[(Vec<u8>, Vec<u8>)]) -> (n: u64)
    requires
        footprint(pairs_view(pairs@)) <= u64::MAX,
    ensures
        n == live_size(pairs_view(pairs@)),
{
    let ghost es = pairs_view(pairs@);
    proof {
        lemma_live_size_le_footprint(es);
    }
    let mut total: u64 = 0;
    let mut i: usize = 0;
    while i < pairs.len()
        invariant
            i <= pairs@.len(),
            es == pairs_view(pairs@),
            live_size(es) <= u64::MAX,
            total == live_size(es.take(i as int)),
        decreases pairs@.len() - i,
    {
        proof {
            assert(es.take(i + 1).drop_last() =~= es.take(i as int));
            assert(es =~= es.take(i + 1) + es.skip(i + 1));
            lemma_sizes_concat(es.take(i + 1), es.skip(i + 1));
        }
        total = total + pairs[i].0.len() as u64 + pairs[i].1.len() as u64;
        i = i + 1;
    }
    assert(es.take(i as int) =~= es);
    total
}

impl Store {
    /// The internal invariant.
    pub closed spec fn wf(&self) -> bool {
        &&& self.entries.wf()
        &&& FILE_HEADER + footprint(self.entries.entries()) <= self.bytes
        &&& forall|k: Seq<u8>| #[trigger]
            self.entries@.contains_key(k) ==> within_bounds(k, self.entries@[k])
        &&& self.poisoned == self.pending is Some
        &&& match self.pending {
            Some(Pending::Append { key, value }) => {
                let v = match value {
                    Some(v) => v@,
                    None => Seq::<u8>::empty(),
                };
                &&& within_bounds(key@, v)
                &&& self.records < u64::MAX
                &&& self.bytes + RECORD_HEADER + key@.len() + v.len() <= u64::MAX
            },
            Some(Pending::Rewrite { size }) => size == FILE_HEADER + footprint(self.entries.entries()),
            None => true,
        }
    }

    /// A valid store's entries are sorted, within bounds, and take no more
    /// log bytes than the log has.
    pub proof fn lemma_wf(&self)
        requires
            self.wf(),
        ensures
            sorted(self@.entries),
            FILE_HEADER + footprint(self@.entries) <= self@.bytes <= u64::MAX,
            self@.records <= u64::MAX,
            forall|k: Seq<u8>| #[trigger] self@.map().contains_key(k) ==> within_bounds(k, self@.map()[k]),
            self@.poisoned == self@.pending is Some,
    {
        assert forall|k: Seq<u8>| #[trigger] self@.map().contains_key(k) implies within_bounds(
            k,
            self@.map()[k],
        ) by {
            assert(self.entries@.contains_key(k));
        }
    }

    /// Opens the store whose log is `log`, recovering its valid records. An
    /// incomplete final record is reported as the tail, which the caller
    /// truncates; any other invalid record is a corruption error.
    pub fn open(log: &[u8]) -> (r: Result<Store, Error>)
        ensures
            r matches Ok(s) ==> {
                &&& s.wf()
                &&& spec_scan(log@) == Ok::<LogState, (nat, Seq<char>)>(
                    LogState { entries: s@.map(), records: s@.records, valid: s@.bytes },
                )
                &&& s@.bytes + s@.tail == log@.len()
                &&& !s@.poisoned
                &&& s@.pending is None
            },
            r matches Err(e) ==> spec_scan(log@) matches Err((offset, reason)) && is_corruption(
                e,
                offset as int,
                reason,
            ),
    {
        let scanned = scan(log)?;
        Ok(
            Store {
                entries: scanned.entries,
                records: scanned.records,
                bytes: scanned.valid_bytes,
                recovered_tail: scanned.tail_bytes,
                poisoned: false,
                pending: None,
            },
        )
    }

    /// The value under `key`, if any.
    pub fn get(&self, key: &[u8]) -> (r: Option<&[u8]>)
        requires
            self.wf(),
        ensures
            r is Some <==> self@.map().contains_key(key@),
            r matches Some(v) ==> v@ == self@.map()[key@],
    {
        self.entries.get(key)
    }

    /// The live entries in key order, each key beside its value.
    pub fn entries(&self) -> (r: &[(Vec<u8>, Vec<u8>)])
        ensures
            pairs_view(r@) == self@.entries,
    {
        self.entries.as_slice()
    }

    /// The counters of the store.
    pub fn stats(&self) -> (r: Stats)
        requires
            self.wf(),
        ensures
            r.live_keys == self@.entries.len(),
            r.live_bytes == live_size(self@.entries),
            r.records == self@.records,
            r.log_bytes == self@.bytes,
            r.tail_bytes == self@.tail,
    {
        Stats {
            live_keys: self.entries.len(),
            live_bytes: live_bytes_of(self.entries.as_slice()),
            records: self.records,
            log_bytes: self.bytes,
            tail_bytes: self.recovered_tail,
        }
    }
}

/// The operation of a put of `value` under `key`, or of a delete of `key`.
pub open spec fn mutation(key: Seq<u8>, value: Option<Seq<u8>>) -> Op {
    match value {
        Some(v) => Op::Put(key, v),
        None => Op::Delete(key),
    }
}

/// The message of a store whose sequence numbers are used up.
pub open spec fn exhausted_message() -> Seq<char> {
    "sequence exhausted; compact first"@
}

/// The error that a mutation of `key` meets in state `v`, if any.
pub open spec fn mutation_refused(v: StoreView, key: Seq<u8>, value: Option<Seq<u8>>, e: Error) -> bool {
    if v.poisoned {
        e is Poisoned
    } else if v.records >= u64::MAX {
        is_invalid_input(e, exhausted_message())
    } else {
        !within_bounds(key, stored_value(value)) && is_invalid_input(
            e,
            crate::format::oversize_message(),
        )
    }
}

impl Store {
    /// Decides a put of `value` under `key` (or a delete when `value` is
    /// `None`) and returns the record to append; the store stays poisoned
    /// until the record is acknowledged as synchronized.
    fn mutate(&mut self, key: &[u8], value: Option<&[u8]>) -> (r: Result<Vec<u8>, Error>)
        requires
            old(self).wf(),
            within_bounds(key@, stored_value(opt_view(value))) ==> old(self)@.bytes + RECORD_HEADER
                + key@.len() + stored_value(opt_view(value)).len() <= u64::MAX,
        ensures
            final(self).wf(),
            r is Ok <==> !old(self)@.poisoned && old(self)@.records < u64::MAX && within_bounds(
                key@,
                stored_value(opt_view(value)),
            ),
            r matches Ok(rec) ==> {
                &&& rec@ == spec_encode((old(self)@.records + 1) as u64, key@, opt_view(value))
                &&& final(self)@ == (StoreView {
                    poisoned: true,
                    pending: Some(mutation(key@, opt_view(value))),
                    ..old(self)@
                })
            },
            r matches Err(e) ==> final(self)@ == old(self)@ && mutation_refused(
                old(self)@,
                key@,
                opt_view(value),
                e,
            ),
    {
        if self.poisoned {
            return Err(Error::Poisoned);
        }
        let seq = match self.records.checked_add(1) {
            Some(n) => n,
            None => {
                return Err(Error::InvalidInput("sequence exhausted; compact first"));
            },
        };
        let record = encode(seq, key, value)?;
        let kept = match value {
            Some(v) => Some(vstd::slice::slice_to_vec(v)),
            None => None,
        };
        self.poisoned = true;
        self.pending = Some(Pending::Append { key: vstd::slice::slice_to_vec(key), value: kept });
        Ok(record)
    }

    /// Decides a put of `value` under `key` and returns the record to append
    /// and synchronize before calling [`Store::acknowledge`].
    pub fn put(&mut self, key: &[u8], value: &[u8]) -> (r: Result<Vec<u8>, Error>)
        requires
            old(self).wf(),
            within_bounds(key@, value@) ==> old(self)@.bytes + RECORD_HEADER + key@.len()
                + value@.len() <= u64::MAX,
        ensures
            final(self).wf(),
            r is Ok <==> !old(self)@.poisoned && old(self)@.records < u64::MAX && within_bounds(
                key@,
                value@,
            ),
            r matches Ok(rec) ==> {
                &&& rec@ == spec_encode((old(self)@.records + 1) as u64, key@, Some(value@))
                &&& final(self)@ == (StoreView {
                    poisoned: true,
                    pending: Some(Op::Put(key@, value@)),
                    ..old(self)@
                })
            },
            r matches Err(e) ==> final(self)@ == old(self)@ && mutation_refused(
                old(self)@,
                key@,
                Some(value@),
                e,
            ),
    {
        self.mutate(key, Some(value))
    }

    /// Decides a delete of `key` and returns the tombstone record to append
    /// and synchronize before calling [`Store::acknowledge`]. A tombstone is
    /// written even when the key is absent.
    pub fn delete(&mut self, key: &[u8]) -> (r: Result<Vec<u8>, Error>)
        requires
            old(self).wf(),
            key@.len() <= crate::format::MAX_KEY ==> old(self)@.bytes + RECORD_HEADER + key@.len()
                <= u64::MAX,
        ensures
            final(self).wf(),
            r is Ok <==> !old(self)@.poisoned && old(self)@.records < u64::MAX && within_bounds(
                key@,
                Seq::empty(),
            ),
            r matches Ok(rec) ==> {
                &&& rec@ == spec_encode((old(self)@.records + 1) as u64, key@, None)
                &&& final(self)@ == (StoreView {
                    poisoned: true,
                    pending: Some(Op::Delete(key@)),
                    ..old(self)@
                })
            },
            r matches Err(e) ==> final(self)@ == old(self)@ && mutation_refused(
                old(self)@,
                key@,
                None,
                e,
            ),
    {
        self.mutate(key, None)
    }

    /// Decides a compaction and returns the complete new log: a fresh header
    /// and one put per live key in key order, numbered from 1. The caller
    /// writes it to a temporary file, synchronizes it, renames it over the log
    /// and synchronizes the directory before calling [`Store::acknowledge`].
    pub fn compact(&mut self) -> (r: Result<Vec<u8>, Error>)
        requires
            old(self).wf(),
        ensures
            final(self).wf(),
            r is Ok <==> !old(self)@.poisoned,
            r matches Ok(image) ==> {
                &&& image@ == compaction_image(old(self)@.entries)
                &&& final(self)@ == (StoreView {
                    poisoned: true,
                    pending: Some(Op::Compact),
                    ..old(self)@
                })
            },
            r matches Err(e) ==> e is Poisoned && final(self)@ == old(self)@,
    {
        if self.poisoned {
            return Err(Error::Poisoned);
        }
        let ghost es = self.entries.entries();
        let header = file_header();
        let mut image: Vec<u8> = Vec::new();
        push_all(&mut image, header.as_slice());
        let pairs = self.entries.as_slice();
        let mut i: usize = 0;
        proof {
            lemma_file_header_len();
            assert(es.take(0) =~= Seq::<Entry>::empty());
        }
        while i < pairs.len()
            invariant
                self.wf(),
                es == self.entries.entries(),
                es == pairs_view(pairs@),
                i <= pairs@.len(),
                image@ == spec_file_header() + encode_all(es.take(i as int)),
            decreases pairs@.len() - i,
        {
            proof {
                lemma_entries_map_at(es, i as int);
                assert(self.entries@.contains_key(es[i as int].0));
                assert(es.take(i + 1).drop_last() =~= es.take(i as int));
            }
            match encode((i + 1) as u64, pairs[i].0.as_slice(), Some(pairs[i].1.as_slice())) {
                Ok(mut record) => {
                    image.append(&mut record);
                },
                Err(e) => {
                    return Err(e);
                },
            }
            i = i + 1;
        }
        proof {
            assert(es.take(i as int) =~= es);
            lemma_encode_all_len(es);
        }
        self.poisoned = true;
        self.pending = Some(Pending::Rewrite { size: image.len() as u64 });
        Ok(image)
    }

    /// Records that the bytes of the pending operation are synchronized and
    /// applies it: the entries change, the counters advance, and mutations
    /// are accepted again. Without a pending operation nothing changes.
    pub fn acknowledge(&mut self)
        requires
            old(self).wf(),
        ensures
            final(self).wf(),
            acknowledged(old(self)@, final(self)@),
    {
        let pending = self.pending.take();
        match pending {
            None => {},
            Some(Pending::Append { key, value }) => {
                let size = match &value {
                    Some(v) => RECORD_HEADER as u64 + key.len() as u64 + v.len() as u64,
                    None => RECORD_HEADER as u64 + key.len() as u64,
                };
                match value {
                    Some(v) => {
                        self.entries.insert(key, v);
                    },
                    None => {
                        self.entries.remove(key.as_slice());
                    },
                }
                self.records = self.records + 1;
                self.bytes = self.bytes + size;
                self.poisoned = false;
            },
            Some(Pending::Rewrite { size }) => {
                self.records = self.entries.len() as u64;
                self.bytes = size;
                self.poisoned = false;
            },
        }
    }
}

/// Counters of a log without opening a store on it: its tail is reported,
/// not discarded, and the log bytes include it.
pub fn inspect(log: &[u8]) -> (r: Result<Stats, Error>)
    ensures
        r matches Ok(st) ==> spec_scan(log@) matches Ok(s) && exists|es: Seq<Entry>|
            {
                &&& sorted(es)
                &&& entries_map(es) == s.entries
                &&& st.live_keys == es.len()
                &&& st.live_bytes == live_size(es)
                &&& st.records == s.records
                &&& st.log_bytes == log@.len()
                &&& st.tail_bytes == log@.len() - s.valid
            },
        r matches Err(e) ==> spec_scan(log@) matches Err((offset, reason)) && is_corruption(
            e,
            offset as int,
            reason,
        ),
{
    let scanned = scan(log)?;
    let ghost es = scanned.entries.entries();
    let st = Stats {
        live_keys: scanned.entries.len(),
        live_bytes: live_bytes_of(scanned.entries.as_slice()),
        records: scanned.records,
        log_bytes: log.len() as u64,
        tail_bytes: scanned.tail_bytes,
    };
    assert(sorted(es) && entries_map(es) == scanned.entries@);
    Ok(st)
}

/// A read after an acknowledged put gives the value put; after an
/// acknowledged delete the key is absent.
pub proof fn law_read_your_write(old: StoreView, new: StoreView, key: Seq<u8>, value: Option<Seq<u8>>)
    requires
        appended(old, new, key, value),
    ensures
        value matches Some(v) ==> new.map().contains_key(key) && new.map()[key] == v,
        value is None ==> !new.map().contains_key(key),
        forall|k: Seq<u8>| k != key ==> (#[trigger] new.map().contains_key(k) == old.map().contains_key(k)),
        forall|k: Seq<u8>| k != key && old.map().contains_key(k) ==> #[trigger] new.map()[k] == old.map()[k],
{
}

impl Store {
    /// The live bytes never exceed the log, and a compaction never makes the
    /// log longer.
    pub proof fn law_log_bounds(&self)
        requires
            self.wf(),
        ensures
            live_size(self@.entries) + FILE_HEADER <= self@.bytes,
            forall|new: StoreView| #[trigger] compacted(self@, new) ==> new.bytes <= self@.bytes,
    {
        self.lemma_wf();
        lemma_live_size_le_footprint(self@.entries);
    }
}

} // verus!
