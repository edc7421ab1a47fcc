//! The key index: a sorted map from key bytes to id, held in an `fst::Map`.
//!
//! On disk the index is the list of its entries, each the key's length as
//! eight little-endian bytes, the key, and the id as eight little-endian
//! bytes. When read, the list is checked to be strictly ascending and the
//! finite-state transducer is built from it in memory.
use crate::blob_store::copy_range;
use crate::keys::{compare_keys, key_lt, keys_ascending, lemma_key_lt_transitive, lemma_key_successor};
use vstd::bytes::*;
use vstd::prelude::*;
use vstd::slice::slice_subrange;

verus! {

#[verifier::external_type_specification]
#[verifier::external_body]
#[verifier::reject_recursive_types(D)]
pub struct ExFstMap<D>(fst::Map<D>);

#[verifier::external_type_specification]
#[verifier::external_body]
pub struct ExFstError(fst::Error);

/// The entries of a finite-state transducer map, in the order it streams them.
pub uninterp spec fn fst_entries(m: fst::Map<Vec<u8>>) -> Seq<(Seq<u8>, u64)>;

/// The view of a list of owned entries.
pub open spec fn entries_view(v: Seq<(Vec<u8>, u64)>) -> Seq<(Seq<u8>, u64)> {
    Seq::new(v.len(), |i: int| (v[i].0@, v[i].1))
}

/// The entries of `s` whose key lies in `[lo, hi)`.
pub open spec fn entries_in(s: Seq<(Seq<u8>, u64)>, lo: Seq<u8>, hi: Seq<u8>) -> Seq<(Seq<u8>, u64)> {
    s.filter(|e: (Seq<u8>, u64)| !key_lt(e.0, lo) && key_lt(e.0, hi))
}

/// The entries of `s` whose key is not below `lo`.
pub open spec fn entries_from(s: Seq<(Seq<u8>, u64)>, lo: Seq<u8>) -> Seq<(Seq<u8>, u64)> {
    s.filter(|e: (Seq<u8>, u64)| !key_lt(e.0, lo))
}

/// Relies on fst::Map::from_iter, which builds a map in memory and fails only
/// when the keys are not unique and in lexicographic order; the map then
/// streams back exactly the entries it was built from.
#[verifier::external_body]
fn fst_from_sorted(entries: &Vec<(Vec<u8>, u64)>) -> (r: Result<fst::Map<Vec<u8>>, fst::Error>)
    requires
        keys_ascending(entries_view(entries@)),
    ensures
        r is Ok,
        r matches Ok(m) ==> fst_entries(m) == entries_view(entries@),
{
    fst::Map::from_iter(entries.iter().map(|e| (e.0.as_slice(), e.1)))
}

/// Relies on fst::Map::get: the value of `key`, if the map holds it.
#[verifier::external_body]
fn fst_get(m: &fst::Map<Vec<u8>>, key: &[u8]) -> (r: Option<u64>)
    ensures
        r matches Some(v) ==> exists|i: int|
            0 <= i < fst_entries(*m).len() && #[trigger] fst_entries(*m)[i] == (key@, v),
        r is None ==> forall|i: int|
            0 <= i < fst_entries(*m).len() ==> #[trigger] fst_entries(*m)[i].0 != key@,
{
    m.get(key)
}

/// Relies on fst::Map::len: the number of entries.
#[verifier::external_body]
fn fst_len(m: &fst::Map<Vec<u8>>) -> (r: usize)
    ensures
        r == fst_entries(*m).len(),
{
    m.len()
}

/// Relies on fst::Map::stream: every entry, in lexicographic key order.
#[verifier::external_body]
fn fst_all(m: &fst::Map<Vec<u8>>) -> (r: Vec<(Vec<u8>, u64)>)
    ensures
        entries_view(r@) == fst_entries(*m),
{
    m.stream().into_byte_vec()
}

/// Relies on fst::Map::range with `ge(lo)` and `lt(hi)`: the entries whose
/// key lies in `[lo, hi)`, in lexicographic key order.
#[verifier::external_body]
fn fst_range(m: &fst::Map<Vec<u8>>, lo: &[u8], hi: &[u8]) -> (r: Vec<(Vec<u8>, u64)>)
    ensures
        entries_view(r@) == entries_in(fst_entries(*m), lo@, hi@),
{
    fst::IntoStreamer::into_stream(m.range().ge(lo).lt(hi)).into_byte_vec()
}

/// Relies on fst::Map::range with `ge(lo)` alone: the entries whose key is
/// not below `lo`, in lexicographic key order.
#[verifier::external_body]
fn fst_range_from(m: &fst::Map<Vec<u8>>, lo: &[u8]) -> (r: Vec<(Vec<u8>, u64)>)
    ensures
        entries_view(r@) == entries_from(fst_entries(*m), lo@),
{
    fst::IntoStreamer::into_stream(m.range().ge(lo)).into_byte_vec()
}

/// `r` lists, in strictly ascending key order, exactly the entries of `s`
/// whose key satisfies `pred`.
pub open spec fn lists_exactly<V>(
    r: Seq<(Seq<u8>, V)>,
    s: Seq<(Seq<u8>, V)>,
    pred: spec_fn(Seq<u8>) -> bool,
) -> bool {
    &&& keys_ascending(r)
    &&& forall|j: int| 0 <= j < r.len() ==> s.contains(#[trigger] r[j]) && pred(r[j].0)
    &&& forall|i: int| 0 <= i < s.len() && pred(s[i].0) ==> r.contains(#[trigger] s[i])
}

/// Filtering a sequence with ascending keys lists exactly the entries kept.
pub proof fn lemma_filter_lists<V>(
    s: Seq<(Seq<u8>, V)>,
    p: spec_fn((Seq<u8>, V)) -> bool,
    pred: spec_fn(Seq<u8>) -> bool,
)
    requires
        keys_ascending(s),
        forall|e: (Seq<u8>, V)| #[trigger] p(e) == pred(e.0),
    ensures
        lists_exactly(s.filter(p), s, pred),
    decreases s.len(),
{
    broadcast use vstd::seq_lib::group_filter_ensures;
    let f = s.filter(p);
    if s.len() > 0 {
        let t = s.drop_last();
        assert forall|i: int, j: int| 0 <= i < j < t.len() implies #[trigger] key_lt(t[i].0, t[j].0) by {
            assert(t[i] == s[i] && t[j] == s[j]);
        }
        lemma_filter_lists(t, p, pred);
        assert(s =~= t.push(s.last()));
        t.lemma_filter_push(s.last(), p);
        let ft = t.filter(p);
        if p(s.last()) {
            assert forall|i: int, j: int| 0 <= i < j < f.len() implies #[trigger] key_lt(f[i].0, f[j].0) by {
                if j == f.len() - 1 {
                    assert(t.contains(ft[i]));
                    let k = choose|k: int| 0 <= k < t.len() && t[k] == ft[i];
                    assert(s[k] == t[k]);
                    assert(key_lt(s[k].0, s[s.len() - 1].0));
                } else {
                    assert(f[i] == ft[i] && f[j] == ft[j]);
                }
            }
            assert forall|j: int| 0 <= j < f.len() implies s.contains(#[trigger] f[j]) && pred(f[j].0) by {
                if j < f.len() - 1 {
                    assert(f[j] == ft[j]);
                    assert(t.contains(ft[j]));
                    let k = choose|k: int| 0 <= k < t.len() && t[k] == ft[j];
                    assert(s[k] == t[k]);
                } else {
                    assert(s[s.len() - 1] == f[j]);
                }
            }
            assert forall|i: int| 0 <= i < s.len() && pred(s[i].0) implies f.contains(#[trigger] s[i]) by {
                if i < s.len() - 1 {
                    assert(t[i] == s[i]);
                    assert(ft.contains(t[i]));
                    let k = choose|k: int| 0 <= k < ft.len() && ft[k] == t[i];
                    assert(f[k] == ft[k]);
                } else {
                    assert(f[f.len() - 1] == s[i]);
                }
            }
        } else {
            assert forall|j: int| 0 <= j < f.len() implies s.contains(#[trigger] f[j]) && pred(f[j].0) by {
                assert(t.contains(ft[j]));
                let k = choose|k: int| 0 <= k < t.len() && t[k] == ft[j];
                assert(s[k] == t[k]);
            }
            assert forall|i: int| 0 <= i < s.len() && pred(s[i].0) implies f.contains(#[trigger] s[i]) by {
                assert(i < s.len() - 1);
                assert(t[i] == s[i]);
            }
        }
    } else {
        assert(f =~= s);
    }
}

/// One end of a key range.
#[derive(Debug, PartialEq, Eq)]
pub enum Bound {
    Included(Vec<u8>),
    Excluded(Vec<u8>),
    Unbounded,
}

/// `k` lies on the upper side of the lower end `lo`.
pub open spec fn above_lower(lo: Bound, k: Seq<u8>) -> bool {
    match lo {
        Bound::Included(x) => !key_lt(k, x@),
        Bound::Excluded(x) => key_lt(x@, k),
        Bound::Unbounded => true,
    }
}

/// `k` lies on the lower side of the upper end `hi`.
pub open spec fn below_upper(hi: Bound, k: Seq<u8>) -> bool {
    match hi {
        Bound::Included(x) => k == x@ || key_lt(k, x@),
        Bound::Excluded(x) => key_lt(k, x@),
        Bound::Unbounded => true,
    }
}

/// `k` lies between the two ends.
pub open spec fn in_bounds(lo: Bound, hi: Bound, k: Seq<u8>) -> bool {
    above_lower(lo, k) && below_upper(hi, k)
}

/// `x` followed by a zero byte: the least key that comes after `x`.
fn successor(x: &Vec<u8>) -> (r: Vec<u8>)
    ensures
        r@ == x@.push(0u8),
{
    let mut r = copy_range(x.as_slice(), 0, x.len());
    assert(x@.subrange(0, x@.len() as int) =~= x@);
    r.push(0u8);
    r
}

/// The stored form of one entry.
pub open spec fn entry_bytes(e: (Seq<u8>, u64)) -> Seq<u8> {
    spec_u64_to_le_bytes(e.0.len() as u64) + e.0 + spec_u64_to_le_bytes(e.1)
}

/// The stored form of a list of entries.
pub open spec fn entries_encoding(s: Seq<(Seq<u8>, u64)>) -> Seq<u8>
    decreases s.len(),
{
    if s.len() == 0 {
        Seq::empty()
    } else {
        entries_encoding(s.drop_last()) + entry_bytes(s.last())
    }
}

/// `s` is a list of entries with strictly ascending keys whose stored form is `b`.
pub open spec fn encodes(s: Seq<(Seq<u8>, u64)>, b: Seq<u8>) -> bool {
    keys_ascending(s) && entries_encoding(s) == b
}

proof fn lemma_entry_len(e: (Seq<u8>, u64))
    ensures
        entry_bytes(e).len() == 16 + e.0.len(),
{
    lemma_auto_spec_u64_to_from_le_bytes();
}

/// The stored form of a prefix is a prefix of the stored form.
proof fn lemma_encoding_prefix(s: Seq<(Seq<u8>, u64)>, j: int)
    requires
        0 <= j <= s.len(),
    ensures
        entries_encoding(s.take(j)).len() <= entries_encoding(s).len(),
        entries_encoding(s).subrange(0, entries_encoding(s.take(j)).len() as int) == entries_encoding(s.take(j)),
    decreases s.len(),
{
    if j == s.len() {
        assert(s.take(j) =~= s);
        assert(entries_encoding(s).subrange(0, entries_encoding(s).len() as int) =~= entries_encoding(s));
    } else {
        let t = s.drop_last();
        lemma_encoding_prefix(t, j);
        assert(t.take(j) =~= s.take(j));
        let et = entries_encoding(t);
        let es = entries_encoding(s);
        assert(es == et + entry_bytes(s.last()));
        assert(es.subrange(0, entries_encoding(s.take(j)).len() as int) =~= et.subrange(0, entries_encoding(s.take(j)).len() as int));
    }
}

/// Where the parse of a valid stored form stands after `count` entries, the
/// next entry's bytes follow.
proof fn lemma_next_entry(s: Seq<(Seq<u8>, u64)>, b: Seq<u8>, count: int, pos: int)
    requires
        encodes(s, b),
        0 <= count <= s.len(),
        pos == entries_encoding(s.take(count)).len(),
        pos < b.len(),
        b.len() <= usize::MAX,
    ensures
        count < s.len(),
        pos + 16 + s[count].0.len() <= b.len(),
        b.subrange(pos, pos + 8) == spec_u64_to_le_bytes(s[count].0.len() as u64),
        spec_u64_from_le_bytes(b.subrange(pos, pos + 8)) == s[count].0.len(),
        b.subrange(pos + 8, pos + 8 + s[count].0.len()) == s[count].0,
        spec_u64_from_le_bytes(b.subrange(pos + 8 + s[count].0.len(), pos + 16 + s[count].0.len())) == s[count].1,
        entries_encoding(s.take(count + 1)) == entries_encoding(s.take(count)) + entry_bytes(s[count]),
{
    lemma_auto_spec_u64_to_from_le_bytes();
    if count == s.len() {
        assert(s.take(count) =~= s);
    }
    let e = s[count];
    assert(s.take(count + 1).drop_last() =~= s.take(count));
    assert(s.take(count + 1).last() == e);
    lemma_encoding_prefix(s, count + 1);
    lemma_entry_len(e);
    let pre = entries_encoding(s.take(count + 1));
    assert(b.subrange(0, pre.len() as int) == pre);
    let k = e.0.len();
    assert(b.subrange(pos, pos + 8) =~= pre.subrange(pos, pos + 8));
    assert(pre.subrange(pos, pos + 8) =~= spec_u64_to_le_bytes(k as u64));
    assert(pre == entries_encoding(s.take(count)) + entry_bytes(e));
    assert(b.subrange(pos + 8, pos + 8 + k) =~= pre.subrange(pos + 8, pos + 8 + k));
    assert(pre.subrange(pos + 8, pos + 8 + k) =~= e.0);
    assert(b.subrange(pos + 8 + k, pos + 16 + k) =~= pre.subrange(pos + 8 + k, pos + 16 + k));
    assert(pre.subrange(pos + 8 + k, pos + 16 + k) =~= spec_u64_to_le_bytes(e.1));
    assert(k as u64 == k);
}

pub struct KeyIndex {
    map: fst::Map<Vec<u8>>,
}

impl View for KeyIndex {
    type V = Seq<(Seq<u8>, u64)>;

    closed spec fn view(&self) -> Seq<(Seq<u8>, u64)> {
        fst_entries(self.map)
    }
}

impl KeyIndex {
    /// The keys are strictly ascending.
    pub open spec fn wf(&self) -> bool {
        keys_ascending(self@)
    }

    /// Builds the index from entries whose keys are strictly ascending.
    pub fn from_sorted(entries: &Vec<(Vec<u8>, u64)>) -> (r: Result<Self, crate::SegmentError>)
        requires
            keys_ascending(entries_view(entries@)),
        ensures
            r matches Ok(x) ==> x.wf() && x@ == entries_view(entries@),
            r is Ok,
    {
        match fst_from_sorted(entries) {
            Ok(map) => Ok(KeyIndex { map }),
            Err(_) => Err(crate::SegmentError::KeyIndex),
        }
    }

    /// The id of `key`, if the index holds it.
    pub fn get(&self, key: &[u8]) -> (r: Option<u64>)
        requires
            self.wf(),
        ensures
            r matches Some(id) ==> exists|i: int|
                0 <= i < self@.len() && #[trigger] self@[i] == (key@, id),
            r is None ==> forall|i: int| 0 <= i < self@.len() ==> #[trigger] self@[i].0 != key@,
    {
        fst_get(&self.map, key)
    }

    pub fn len(&self) -> (n: usize)
        ensures
            n == self@.len(),
    {
        fst_len(&self.map)
    }

    /// Every entry in ascending key order.
    pub fn entries(&self) -> (r: Vec<(Vec<u8>, u64)>)
        ensures
            entries_view(r@) == self@,
    {
        fst_all(&self.map)
    }

    /// The entries whose key lies in `[lo, hi)`, in ascending key order.
    pub fn range(&self, lo: &[u8], hi: &[u8]) -> (r: Vec<(Vec<u8>, u64)>)
        ensures
            entries_view(r@) == entries_in(self@, lo@, hi@),
    {
        fst_range(&self.map, lo, hi)
    }

    /// The entries whose key is not below `lo`, in ascending key order.
    pub fn range_from(&self, lo: &[u8]) -> (r: Vec<(Vec<u8>, u64)>)
        ensures
            entries_view(r@) == entries_from(self@, lo@),
    {
        fst_range_from(&self.map, lo)
    }

    /// Writes the index in its stored form.
    pub fn to_bytes(&self) -> (r: Vec<u8>)
        ensures
            r@ == entries_encoding(self@),
    {
        let all = self.entries();
        let mut out: Vec<u8> = Vec::new();
        let mut i: usize = 0;
        while i < all.len()
            invariant
                i <= all@.len(),
                entries_view(all@) == self@,
                out@ == entries_encoding(entries_view(all@).subrange(0, i as int)),
            decreases all.len() - i,
        {
            let key = &all[i].0;
            let mut a = u64_to_le_bytes(key.len() as u64);
            let mut k = key.clone();
            let mut b = u64_to_le_bytes(all[i].1);
            out.append(&mut a);
            out.append(&mut k);
            out.append(&mut b);
            let ghost sub = entries_view(all@).subrange(0, i + 1);
            assert(sub.drop_last() =~= entries_view(all@).subrange(0, i as int));
            assert(sub.last() == (key@, all@[i as int].1));
            i = i + 1;
            assert(out@ =~= entries_encoding(entries_view(all@).subrange(0, i as int)));
        }
        assert(entries_view(all@).subrange(0, i as int) =~= self@);
        out
    }

    /// Reads an index from its stored form. Fails exactly when the bytes are
    /// not the stored form of a list of entries with strictly ascending keys.
    pub fn from_bytes(b: &[u8]) -> (r: Result<Self, crate::SegmentError>)
        ensures
            r matches Ok(x) ==> x.wf() && entries_encoding(x@) == b@,
            r matches Err(e) ==> e == crate::SegmentError::KeyIndex,
            forall|s: Seq<(Seq<u8>, u64)>| #[trigger] encodes(s, b@) ==> (r matches Ok(x) && x@ == s),
    {
        let n = b.len();
        let mut parsed: Vec<(Vec<u8>, u64)> = Vec::new();
        let mut pos: usize = 0;
        while pos < n
            invariant
                n == b@.len(),
                pos <= n,
                b@.subrange(0, pos as int) == entries_encoding(entries_view(parsed@)),
                keys_ascending(entries_view(parsed@)),
                forall|s: Seq<(Seq<u8>, u64)>| #[trigger] encodes(s, b@) ==>
                    parsed@.len() <= s.len() && entries_view(parsed@) == s.take(parsed@.len() as int),
            decreases n - pos,
        {
            let count = parsed.len();
            proof {
                assert forall|s: Seq<(Seq<u8>, u64)>| #[trigger] encodes(s, b@) implies count < s.len()
                    && pos + 16 + s[count as int].0.len() <= n
                    && spec_u64_from_le_bytes(b@.subrange(pos as int, pos + 8)) == s[count as int].0.len() by {
                    lemma_next_entry(s, b@, count as int, pos as int);
                }
            }
            if n - pos < 8 {
                return Err(crate::SegmentError::KeyIndex);
            }
            let key_len = u64_from_le_bytes(slice_subrange(b, pos, pos + 8));
            if key_len > (n - pos - 8) as u64 || (n - pos - 8 - key_len as usize) < 8 {
                return Err(crate::SegmentError::KeyIndex);
            }
            let key_end = pos + 8 + key_len as usize;
            let key = copy_range(b, pos + 8, key_end);
            let id = u64_from_le_bytes(slice_subrange(b, key_end, key_end + 8));
            let ghost before = entries_view(parsed@);
            let ghost e = (key@, id);
            proof {
                assert forall|s: Seq<(Seq<u8>, u64)>| #[trigger] encodes(s, b@) implies s[count as int] == e by {
                    lemma_next_entry(s, b@, count as int, pos as int);
                }
            }
            if count > 0 {
                if compare_keys(parsed[count - 1].0.as_slice(), key.as_slice()) >= 0 {
                    proof {
                        assert forall|s: Seq<(Seq<u8>, u64)>| #[trigger] encodes(s, b@) implies false by {
                            lemma_next_entry(s, b@, count as int, pos as int);
                            assert(before[count - 1] == s[count - 1]);
                            assert(key_lt(s[count - 1].0, s[count as int].0));
                            assert(before[count - 1].0 == parsed@[count - 1].0@);
                        }
                    }
                    return Err(crate::SegmentError::KeyIndex);
                }
            }
            proof {
                lemma_auto_spec_u64_to_from_le_bytes();
                assert(b@.subrange(pos as int, pos + 8) == spec_u64_to_le_bytes(key_len));
                assert(b@.subrange(key_end as int, key_end + 8) == spec_u64_to_le_bytes(id));
                assert(b@.subrange(0, key_end + 8) =~= b@.subrange(0, pos as int) + entry_bytes(e));
            }
            parsed.push((key, id));
            proof {
                let after = entries_view(parsed@);
                assert(after.drop_last() =~= before);
                assert(after.last() == e);
                assert forall|i: int, j: int| 0 <= i < j < after.len() implies #[trigger] key_lt(
                    after[i].0,
                    after[j].0,
                ) by {
                    if j == after.len() - 1 && i < j - 1 {
                        assert(after[i] == before[i] && after[j - 1] == before[j - 1]);
                        assert(key_lt(before[i].0, before[j - 1].0));
                        lemma_key_lt_transitive(after[i].0, after[j - 1].0, after[j].0);
                    } else if j < after.len() - 1 {
                        assert(after[i] == before[i] && after[j] == before[j]);
                    }
                }
                assert forall|s: Seq<(Seq<u8>, u64)>| #[trigger] encodes(s, b@) implies
                    parsed@.len() <= s.len() && after == s.take(parsed@.len() as int) by {
                    lemma_next_entry(s, b@, count as int, pos as int);
                    assert(s.take(count + 1) =~= s.take(count as int).push(s[count as int]));
                }
            }
            pos = key_end + 8;
        }
        assert(b@.subrange(0, pos as int) =~= b@);
        proof {
            assert forall|s: Seq<(Seq<u8>, u64)>| #[trigger] encodes(s, b@) implies entries_view(parsed@) == s by {
                let c = parsed@.len() as int;
                if c < s.len() {
                    lemma_encoding_prefix(s, c + 1);
                    assert(s.take(c + 1).drop_last() =~= s.take(c));
                    lemma_entry_len(s[c]);
                    assert(s.take(c + 1).last() == s[c]);
                }
                assert(s.take(c) =~= s);
            }
        }
        Self::from_sorted(&parsed)
    }

    /// The entries whose key lies between `lo` and `hi`, in ascending key order.
    pub fn range_bounds(&self, lo: &Bound, hi: &Bound) -> (r: Vec<(Vec<u8>, u64)>)
        requires
            self.wf(),
        ensures
            lists_exactly(entries_view(r@), self@, |k: Seq<u8>| in_bounds(*lo, *hi, k)),
    {
        let lo_key: Vec<u8> = match lo {
            Bound::Included(x) => copy_range(x.as_slice(), 0, x.len()),
            Bound::Excluded(x) => successor(x),
            Bound::Unbounded => Vec::new(),
        };
        proof {
            assert forall|k: Seq<u8>| #[trigger] above_lower(*lo, k) == !key_lt(k, lo_key@) by {
                match lo {
                    Bound::Included(x) => {
                        assert(x@.subrange(0, x@.len() as int) =~= x@);
                    },
                    Bound::Excluded(x) => {
                        lemma_key_successor(k, x@);
                    },
                    Bound::Unbounded => {},
                }
            }
        }
        let pred = Ghost(|k: Seq<u8>| in_bounds(*lo, *hi, k));
        match hi {
            Bound::Unbounded => {
                let r = self.range_from(lo_key.as_slice());
                proof {
                    lemma_filter_lists(self@, |e: (Seq<u8>, u64)| !key_lt(e.0, lo_key@), pred@);
                }
                r
            },
            Bound::Included(x) => {
                let hi_key = successor(x);
                let r = self.range(lo_key.as_slice(), hi_key.as_slice());
                proof {
                    assert forall|k: Seq<u8>| #[trigger] below_upper(*hi, k) == key_lt(k, hi_key@) by {
                        lemma_key_successor(k, x@);
                    }
                    lemma_filter_lists(
                        self@,
                        |e: (Seq<u8>, u64)| !key_lt(e.0, lo_key@) && key_lt(e.0, hi_key@),
                        pred@,
                    );
                }
                r
            },
            Bound::Excluded(x) => {
                let r = self.range(lo_key.as_slice(), x.as_slice());
                proof {
                    lemma_filter_lists(
                        self@,
                        |e: (Seq<u8>, u64)| !key_lt(e.0, lo_key@) && key_lt(e.0, x@),
                        pred@,
                    );
                }
                r
            },
        }
    }
}

} // verus!
