//! An ordered map from byte strings to byte strings, kept as a vector of
//! pairs sorted strictly by key in lexicographic byte order.
use vstd::prelude::*;

verus! {

/// Lexicographic byte order: `a` sorts strictly before `b`.
pub open spec fn lex_lt(a: Seq<u8>, b: Seq<u8>) -> bool
    decreases a.len(),
{
    if a.len() == 0 {
        b.len() > 0
    } else if b.len() == 0 {
        false
    } else if a[0] != b[0] {
        a[0] < b[0]
    } else {
        lex_lt(a.drop_first(), b.drop_first())
    }
}

/// No byte string sorts before itself.
pub proof fn lemma_lex_irreflexive(a: Seq<u8>)
    ensures
        !lex_lt(a, a),
    decreases a.len(),
{
    if a.len() > 0 {
        lemma_lex_irreflexive(a.drop_first());
    }
}

/// Any two distinct byte strings are ordered one way, and only one way.
pub proof fn lemma_lex_total(a: Seq<u8>, b: Seq<u8>)
    ensures
        a != b ==> (lex_lt(a, b) || lex_lt(b, a)),
        !(lex_lt(a, b) && lex_lt(b, a)),
    decreases a.len(),
{
    if a.len() > 0 && b.len() > 0 && a[0] == b[0] {
        lemma_lex_total(a.drop_first(), b.drop_first());
        if a.drop_first() == b.drop_first() {
            assert(a =~= seq![a[0]] + a.drop_first());
            assert(b =~= seq![b[0]] + b.drop_first());
        }
    }
    if a.len() == 0 && b.len() == 0 {
        assert(a =~= b);
    }
}

/// The order is transitive.
pub proof fn lemma_lex_transitive(a: Seq<u8>, b: Seq<u8>, c: Seq<u8>)
    requires
        lex_lt(a, b),
        lex_lt(b, c),
    ensures
        lex_lt(a, c),
    decreases a.len(),
{
    if a.len() > 0 && b.len() > 0 && c.len() > 0 && a[0] == b[0] && b[0] == c[0] {
        lemma_lex_transitive(a.drop_first(), b.drop_first(), c.drop_first());
    }
}

/// Strings that agree on their first `i` bytes compare as their remainders do.
pub proof fn lemma_lex_common_prefix(a: Seq<u8>, b: Seq<u8>, i: int)
    requires
        0 <= i <= a.len(),
        i <= b.len(),
        forall|j: int| 0 <= j < i ==> a[j] == b[j],
    ensures
        lex_lt(a, b) == lex_lt(a.skip(i), b.skip(i)),
        a == b <==> a.skip(i) == b.skip(i),
    decreases i,
{
    if i > 0 {
        lemma_lex_common_prefix(a.drop_first(), b.drop_first(), i - 1);
        assert(a.drop_first().skip(i - 1) =~= a.skip(i));
        assert(b.drop_first().skip(i - 1) =~= b.skip(i));
        if a.skip(i) == b.skip(i) {
            assert(a =~= b) by {
                assert forall|j: int| 0 <= j < a.len() implies a[j] == b[j] by {
                    if j >= i {
                        assert(a[j] == a.skip(i)[j - i]);
                        assert(b[j] == b.skip(i)[j - i]);
                    }
                }
            }
        }
    } else {
        assert(a.skip(0) =~= a);
        assert(b.skip(0) =~= b);
    }
}

/// The key order is unsigned byte-lexicographic: where two byte strings first
/// differ, the one with the smaller byte (as an unsigned number) sorts first.
pub proof fn law_first_difference_decides(a: Seq<u8>, b: Seq<u8>, i: int)
    requires
        0 <= i < a.len(),
        i < b.len(),
        forall|j: int| 0 <= j < i ==> a[j] == b[j],
        a[i] < b[i],
    ensures
        lex_lt(a, b),
        !lex_lt(b, a),
{
    lemma_lex_common_prefix(a, b, i);
    lemma_lex_common_prefix(b, a, i);
    assert(a.skip(i)[0] == a[i]);
    assert(b.skip(i)[0] == b[i]);
}

/// A proper prefix sorts before the longer string.
pub proof fn law_prefix_sorts_first(a: Seq<u8>, b: Seq<u8>)
    requires
        a.len() < b.len(),
        forall|j: int| 0 <= j < a.len() ==> a[j] == b[j],
    ensures
        lex_lt(a, b),
        !lex_lt(b, a),
{
    lemma_lex_common_prefix(a, b, a.len() as int);
    lemma_lex_common_prefix(b, a, a.len() as int);
}

/// The result of comparing two byte strings.
#[derive(PartialEq, Eq, Structural, Debug, Clone, Copy)]
pub enum Order {
    Less,
    Equal,
    Greater,
}

/// Compares `a` with `b` in lexicographic byte order.
pub fn compare_bytes(a: &[u8], b: &[u8]) -> (r: Order)
    ensures
        r == Order::Less <==> lex_lt(a@, b@),
        r == Order::Equal <==> a@ == b@,
        r == Order::Greater <==> lex_lt(b@, a@),
{
    proof {
        lemma_lex_total(a@, b@);
        lemma_lex_irreflexive(a@);
    }
    let n = if a.len() < b.len() {
        a.len()
    } else {
        b.len()
    };
    let mut i: usize = 0;
    while i < n
        invariant
            i <= n,
            n <= a@.len(),
            n <= b@.len(),
            n == a@.len() || n == b@.len(),
            forall|j: int| 0 <= j < i ==> a@[j] == b@[j],
        decreases n - i,
    {
        if a[i] != b[i] {
            proof {
                lemma_lex_common_prefix(a@, b@, i as int);
                lemma_lex_common_prefix(b@, a@, i as int);
                assert(a@.skip(i as int)[0] == a@[i as int]);
                assert(b@.skip(i as int)[0] == b@[i as int]);
            }
            if a[i] < b[i] {
                return Order::Less;
            } else {
                return Order::Greater;
            }
        }
        i = i + 1;
    }
    proof {
        lemma_lex_common_prefix(a@, b@, i as int);
        lemma_lex_common_prefix(b@, a@, i as int);
    }
    if a.len() < b.len() {
        Order::Less
    } else if a.len() > b.len() {
        Order::Greater
    } else {
        assert(a@.skip(i as int) =~= b@.skip(i as int));
        Order::Equal
    }
}

/// A key and its value, as byte strings.
pub type Entry = (Seq<u8>, Seq<u8>);

/// Keys strictly increase along `s`.
pub open spec fn sorted(s: Seq<Entry>) -> bool {
    forall|i: int, j: int| 0 <= i < j < s.len() ==> lex_lt(#[trigger] s[i].0, #[trigger] s[j].0)
}

/// Some entry of `s` has key `k`.
pub open spec fn has_key(s: Seq<Entry>, k: Seq<u8>) -> bool {
    exists|i: int| 0 <= i < s.len() && #[trigger] s[i].0 == k
}

/// The map that `s` holds: each key to the value beside it.
pub open spec fn entries_map(s: Seq<Entry>) -> Map<Seq<u8>, Seq<u8>> {
    Map::new(|k: Seq<u8>| has_key(s, k), |k: Seq<u8>| s[key_position(s, k)].1)
}

/// A position of `s` whose key is `k`, where there is one.
pub open spec fn key_position(s: Seq<Entry>, k: Seq<u8>) -> int {
    choose|i: int| 0 <= i < s.len() && #[trigger] s[i].0 == k
}

/// Bytes that record `e` takes in the log: a 32-byte header, key and value.
pub open spec fn record_size(e: Entry) -> nat {
    32 + e.0.len() + e.1.len()
}

/// Total log bytes of one put record per entry of `s`.
pub open spec fn footprint(s: Seq<Entry>) -> nat
    decreases s.len(),
{
    if s.len() == 0 {
        0
    } else {
        footprint(s.drop_last()) + record_size(s.last())
    }
}

/// Total key and value bytes of the entries of `s`.
pub open spec fn live_size(s: Seq<Entry>) -> nat
    decreases s.len(),
{
    if s.len() == 0 {
        0
    } else {
        live_size(s.drop_last()) + s.last().0.len() + s.last().1.len()
    }
}

/// The footprint and live size of a concatenation add up.
pub proof fn lemma_sizes_concat(a: Seq<Entry>, b: Seq<Entry>)
    ensures
        footprint(a + b) == footprint(a) + footprint(b),
        live_size(a + b) == live_size(a) + live_size(b),
    decreases b.len(),
{
    if b.len() == 0 {
        assert(a + b =~= a);
    } else {
        lemma_sizes_concat(a, b.drop_last());
        assert((a + b).drop_last() =~= a + b.drop_last());
    }
}

/// Live size never exceeds footprint, which adds 32 bytes per entry.
pub proof fn lemma_live_size_le_footprint(s: Seq<Entry>)
    ensures
        live_size(s) + 32 * s.len() == footprint(s),
    decreases s.len(),
{
    if s.len() > 0 {
        lemma_live_size_le_footprint(s.drop_last());
    }
}

/// Sizes after inserting `e` at position `p`.
pub proof fn lemma_sizes_insert(s: Seq<Entry>, p: int, e: Entry)
    requires
        0 <= p <= s.len(),
    ensures
        footprint(s.insert(p, e)) == footprint(s) + record_size(e),
        live_size(s.insert(p, e)) == live_size(s) + e.0.len() + e.1.len(),
{
    assert(s =~= s.take(p) + s.skip(p));
    assert(s.insert(p, e) =~= s.take(p) + (seq![e] + s.skip(p)));
    lemma_sizes_concat(s.take(p), s.skip(p));
    lemma_sizes_concat(seq![e], s.skip(p));
    lemma_sizes_concat(s.take(p), seq![e] + s.skip(p));
    assert(seq![e].drop_last() =~= Seq::<Entry>::empty());
    reveal_with_fuel(footprint, 2);
    reveal_with_fuel(live_size, 2);
    assert(footprint(seq![e]) == record_size(e));
    assert(live_size(seq![e]) == e.0.len() + e.1.len());
}

/// Sizes after removing position `p`.
pub proof fn lemma_sizes_remove(s: Seq<Entry>, p: int)
    requires
        0 <= p < s.len(),
    ensures
        footprint(s.remove(p)) + record_size(s[p]) == footprint(s),
        live_size(s.remove(p)) + s[p].0.len() + s[p].1.len() == live_size(s),
{
    assert(s.remove(p).insert(p, s[p]) =~= s);
    lemma_sizes_insert(s.remove(p), p, s[p]);
}

/// In a sorted sequence, the entry at `i` is the one its key maps to.
pub proof fn lemma_entries_map_at(s: Seq<Entry>, i: int)
    requires
        sorted(s),
        0 <= i < s.len(),
    ensures
        entries_map(s).contains_key(s[i].0),
        entries_map(s)[s[i].0] == s[i].1,
{
    let k = s[i].0;
    assert(has_key(s, k));
    let j = key_position(s, k);
    if j != i {
        lemma_lex_irreflexive(k);
        if j < i {
            assert(lex_lt(s[j].0, s[i].0));
        } else {
            assert(lex_lt(s[i].0, s[j].0));
        }
    }
    assert(entries_map(s).dom().contains(k));
    assert(entries_map(s)[k] == s[j].1);
}

/// Position `p` is where `k` belongs in `s` and `k` is not there: the keys
/// before `p` sort before `k`, the keys from `p` on sort after it.
pub open spec fn gap_at(s: Seq<Entry>, k: Seq<u8>, p: int) -> bool {
    &&& 0 <= p <= s.len()
    &&& forall|i: int| 0 <= i < p ==> lex_lt(#[trigger] s[i].0, k)
    &&& forall|i: int| p <= i < s.len() ==> lex_lt(k, #[trigger] s[i].0)
}

/// A key that falls in a gap is absent.
pub proof fn lemma_gap_absent(s: Seq<Entry>, k: Seq<u8>, p: int)
    requires
        gap_at(s, k, p),
    ensures
        !has_key(s, k),
        !entries_map(s).contains_key(k),
{
    lemma_lex_irreflexive(k);
    if has_key(s, k) {
        let j = key_position(s, k);
        if j < p {
            assert(lex_lt(s[j].0, k));
        } else {
            assert(lex_lt(k, s[j].0));
        }
    }
}

/// Inserting a new key into its gap keeps the sequence sorted and adds the
/// pair to the map.
pub proof fn lemma_insert_gap(s: Seq<Entry>, k: Seq<u8>, v: Seq<u8>, p: int)
    requires
        sorted(s),
        gap_at(s, k, p),
    ensures
        sorted(s.insert(p, (k, v))),
        entries_map(s.insert(p, (k, v))) == entries_map(s).insert(k, v),
{
    let t = s.insert(p, (k, v));
    assert forall|i: int, j: int| 0 <= i < j < t.len() implies lex_lt(#[trigger] t[i].0, #[trigger] t[j].0) by {
        if j < p {
            assert(t[i] == s[i] && t[j] == s[j]);
        } else if j == p {
            assert(t[i] == s[i]);
        } else if i < p {
            assert(t[i] == s[i] && t[j] == s[j - 1]);
            lemma_lex_transitive(s[i].0, k, s[j - 1].0);
        } else if i == p {
            assert(t[j] == s[j - 1]);
        } else {
            assert(t[i] == s[i - 1] && t[j] == s[j - 1]);
        }
    }
    lemma_gap_absent(s, k, p);
    assert forall|x: Seq<u8>| #[trigger] entries_map(t).contains_key(x) <==> entries_map(s).insert(k, v).contains_key(x) by {
        if has_key(t, x) {
            let j = key_position(t, x);
            if j < p {
                assert(s[j].0 == x);
            } else if j > p {
                assert(s[j - 1].0 == x);
            }
        }
        if has_key(s, x) {
            let j = key_position(s, x);
            if j < p {
                assert(t[j].0 == x);
            } else {
                assert(t[j + 1].0 == x);
            }
        }
        if x == k {
            assert(t[p].0 == x);
        }
    }
    assert forall|x: Seq<u8>| #[trigger] entries_map(t).contains_key(x) implies entries_map(t)[x] == entries_map(s).insert(k, v)[x] by {
        let j = key_position(t, x);
        lemma_entries_map_at(t, j);
        if j < p {
            lemma_entries_map_at(s, j);
        } else if j > p {
            lemma_entries_map_at(s, j - 1);
        }
    }
    assert(entries_map(t) =~= entries_map(s).insert(k, v));
}

/// Replacing the value of an existing key keeps the sequence sorted and
/// updates the map.
pub proof fn lemma_update_at(s: Seq<Entry>, v: Seq<u8>, p: int)
    requires
        sorted(s),
        0 <= p < s.len(),
    ensures
        sorted(s.update(p, (s[p].0, v))),
        entries_map(s.update(p, (s[p].0, v))) == entries_map(s).insert(s[p].0, v),
{
    let k = s[p].0;
    let t = s.update(p, (k, v));
    assert forall|i: int, j: int| 0 <= i < j < t.len() implies lex_lt(#[trigger] t[i].0, #[trigger] t[j].0) by {
        assert(t[i].0 == s[i].0 && t[j].0 == s[j].0);
    }
    lemma_entries_map_at(s, p);
    assert forall|x: Seq<u8>| #[trigger] entries_map(t).contains_key(x) <==> entries_map(s).insert(k, v).contains_key(x) by {
        if has_key(t, x) {
            let j = key_position(t, x);
            assert(s[j].0 == x);
        }
        if has_key(s, x) {
            let j = key_position(s, x);
            assert(t[j].0 == x);
        }
        if x == k {
            assert(t[p].0 == x);
        }
    }
    assert forall|x: Seq<u8>| #[trigger] entries_map(t).contains_key(x) implies entries_map(t)[x] == entries_map(s).insert(k, v)[x] by {
        let j = key_position(t, x);
        lemma_entries_map_at(t, j);
        if j != p {
            lemma_entries_map_at(s, j);
            lemma_lex_irreflexive(k);
            if j < p {
                assert(lex_lt(s[j].0, s[p].0));
            } else {
                assert(lex_lt(s[p].0, s[j].0));
            }
        }
    }
    assert(entries_map(t) =~= entries_map(s).insert(k, v));
}

/// Removing an entry keeps the sequence sorted and removes its key.
pub proof fn lemma_remove_at(s: Seq<Entry>, p: int)
    requires
        sorted(s),
        0 <= p < s.len(),
    ensures
        sorted(s.remove(p)),
        entries_map(s.remove(p)) == entries_map(s).remove(s[p].0),
{
    let k = s[p].0;
    let t = s.remove(p);
    assert forall|i: int, j: int| 0 <= i < j < t.len() implies lex_lt(#[trigger] t[i].0, #[trigger] t[j].0) by {
        if j < p {
        } else if i < p {
            assert(t[j] == s[j + 1]);
        } else {
            assert(t[i] == s[i + 1] && t[j] == s[j + 1]);
        }
    }
    lemma_lex_irreflexive(k);
    assert forall|x: Seq<u8>| #[trigger] entries_map(t).contains_key(x) <==> entries_map(s).remove(k).contains_key(x) by {
        if has_key(t, x) {
            let j = key_position(t, x);
            if j < p {
                assert(s[j].0 == x);
                assert(lex_lt(s[j].0, s[p].0));
            } else {
                assert(s[j + 1].0 == x);
                assert(lex_lt(s[p].0, s[j + 1].0));
            }
        }
        if has_key(s, x) && x != k {
            let j = key_position(s, x);
            if j < p {
                assert(t[j].0 == x);
            } else {
                assert(t[j - 1].0 == x);
            }
        }
    }
    assert forall|x: Seq<u8>| #[trigger] entries_map(t).contains_key(x) implies entries_map(t)[x] == entries_map(s).remove(k)[x] by {
        let j = key_position(t, x);
        lemma_entries_map_at(t, j);
        if j < p {
            lemma_entries_map_at(s, j);
        } else {
            lemma_entries_map_at(s, j + 1);
        }
    }
    assert(entries_map(t) =~= entries_map(s).remove(k));
}

/// The entries of the index, each key beside its value, in key order.
pub struct Index {
    pairs: Vec<(Vec<u8>, Vec<u8>)>,
}

/// The byte strings of an exec pair.
pub open spec fn pair_view(p: (Vec<u8>, Vec<u8>)) -> Entry {
    (p.0@, p.1@)
}

/// The byte strings of a slice of exec pairs.
pub open spec fn pairs_view(s: Seq<(Vec<u8>, Vec<u8>)>) -> Seq<Entry> {
    s.map_values(|p: (Vec<u8>, Vec<u8>)| pair_view(p))
}

impl View for Index {
    type V = Map<Seq<u8>, Seq<u8>>;

    open spec fn view(&self) -> Map<Seq<u8>, Seq<u8>> {
        entries_map(self.entries())
    }
}

impl Index {
    /// The entries in key order.
    pub closed spec fn entries(&self) -> Seq<Entry> {
        pairs_view(self.pairs@)
    }

    /// Keys strictly increase.
    pub open spec fn wf(&self) -> bool {
        sorted(self.entries())
    }

    /// An empty index.
    pub fn new() -> (r: Index)
        ensures
            r.wf(),
            r.entries() == Seq::<Entry>::empty(),
            r@ == Map::<Seq<u8>, Seq<u8>>::empty(),
    {
        let r = Index { pairs: Vec::new() };
        assert(r.entries() =~= Seq::<Entry>::empty());
        assert(r@ =~= Map::<Seq<u8>, Seq<u8>>::empty());
        r
    }

    /// Number of keys.
    pub fn len(&self) -> (n: usize)
        ensures
            n == self.entries().len(),
    {
        self.pairs.len()
    }

    /// The entries in key order, each key beside its value.
    pub fn as_slice(&self) -> (r: &[(Vec<u8>, Vec<u8>)])
        ensures
            pairs_view(r@) == self.entries(),
    {
        self.pairs.as_slice()
    }

    /// Binary search for `key`: where it is, or where it belongs.
    pub fn find(&self, key: &[u8]) -> (r: (bool, usize))
        requires
            self.wf(),
        ensures
            r.0 ==> r.1 < self.entries().len() && self.entries()[r.1 as int].0 == key@,
            !r.0 ==> gap_at(self.entries(), key@, r.1 as int),
    {
        let ghost e = self.entries();
        let mut lo: usize = 0;
        let mut hi: usize = self.pairs.len();
        while lo < hi
            invariant
                self.wf(),
                e == self.entries(),
                0 <= lo <= hi <= e.len(),
                forall|i: int| 0 <= i < lo ==> lex_lt(#[trigger] e[i].0, key@),
                forall|i: int| hi <= i < e.len() ==> lex_lt(key@, #[trigger] e[i].0),
            decreases hi - lo,
        {
            let mid = lo + (hi - lo) / 2;
            let c = compare_bytes(self.pairs[mid].0.as_slice(), key);
            assert(e[mid as int].0 == self.pairs@[mid as int].0@);
            match c {
                Order::Equal => {
                    return (true, mid);
                },
                Order::Less => {
                    assert forall|i: int| 0 <= i < mid + 1 implies lex_lt(#[trigger] e[i].0, key@) by {
                        if i < mid {
                            lemma_lex_transitive(e[i].0, e[mid as int].0, key@);
                        }
                    }
                    lo = mid + 1;
                },
                Order::Greater => {
                    assert forall|i: int| mid <= i < e.len() implies lex_lt(key@, #[trigger] e[i].0) by {
                        if i > mid {
                            lemma_lex_transitive(key@, e[mid as int].0, e[i].0);
                        }
                    }
                    hi = mid;
                },
            }
        }
        (false, lo)
    }

    /// The value under `key`, if any.
    pub fn get(&self, key: &[u8]) -> (r: Option<&[u8]>)
        requires
            self.wf(),
        ensures
            r is Some <==> self@.contains_key(key@),
            r matches Some(v) ==> v@ == self@[key@],
    {
        let (found, pos) = self.find(key);
        if found {
            proof {
                lemma_entries_map_at(self.entries(), pos as int);
            }
            Some(self.pairs[pos].1.as_slice())
        } else {
            proof {
                lemma_gap_absent(self.entries(), key@, pos as int);
            }
            None
        }
    }

    /// Puts `value` under `key`, replacing any earlier value.
    pub fn insert(&mut self, key: Vec<u8>, value: Vec<u8>)
        requires
            old(self).wf(),
        ensures
            final(self).wf(),
            final(self)@ == old(self)@.insert(key@, value@),
            footprint(final(self).entries()) + (if old(self)@.contains_key(key@) {
                record_size((key@, old(self)@[key@]))
            } else {
                0
            }) == footprint(old(self).entries()) + record_size((key@, value@)),
            live_size(final(self).entries()) + (if old(self)@.contains_key(key@) {
                key@.len() + old(self)@[key@].len()
            } else {
                0
            }) == live_size(old(self).entries()) + key@.len() + value@.len(),
    {
        let ghost e = self.entries();
        let ghost kv = key@;
        let ghost vv = value@;
        let (found, pos) = self.find(key.as_slice());
        if found {
            proof {
                lemma_entries_map_at(e, pos as int);
                lemma_update_at(e, vv, pos as int);
                lemma_sizes_remove(e, pos as int);
                lemma_sizes_insert(e.remove(pos as int), pos as int, (kv, vv));
                assert(e.update(pos as int, (kv, vv)) =~= e.remove(pos as int).insert(pos as int, (kv, vv)));
            }
            self.pairs.set(pos, (key, value));
            assert(self.entries() =~= e.update(pos as int, (kv, vv)));
        } else {
            proof {
                lemma_gap_absent(e, kv, pos as int);
                lemma_insert_gap(e, kv, vv, pos as int);
                lemma_sizes_insert(e, pos as int, (kv, vv));
            }
            self.pairs.insert(pos, (key, value));
            assert(self.entries() =~= e.insert(pos as int, (kv, vv)));
        }
    }

    /// Removes `key` and its value, if present.
    pub fn remove(&mut self, key: &[u8])
        requires
            old(self).wf(),
        ensures
            final(self).wf(),
            final(self)@ == old(self)@.remove(key@),
            footprint(final(self).entries()) + (if old(self)@.contains_key(key@) {
                record_size((key@, old(self)@[key@]))
            } else {
                0
            }) == footprint(old(self).entries()),
            live_size(final(self).entries()) + (if old(self)@.contains_key(key@) {
                key@.len() + old(self)@[key@].len()
            } else {
                0
            }) == live_size(old(self).entries()),
    {
        let ghost e = self.entries();
        let (found, pos) = self.find(key);
        if found {
            proof {
                lemma_entries_map_at(e, pos as int);
                lemma_remove_at(e, pos as int);
                lemma_sizes_remove(e, pos as int);
            }
            self.pairs.remove(pos);
            assert(self.entries() =~= e.remove(pos as int));
        } else {
            proof {
                lemma_gap_absent(e, key@, pos as int);
                assert(old(self)@.remove(key@) =~= old(self)@);
            }
        }
    }
}

} // verus!
