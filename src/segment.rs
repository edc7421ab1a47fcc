//! A segment: one immutable unit of the store, made of a bloom filter, a key
//! index, a blob index and a blob store.
use crate::automaton::Automaton;
use crate::blob_index::{lemma_pointers_round_trip, pointers_decoding, BlobIndex};
use crate::blob_store::{record_at, BlobStore};
use crate::bloom::BloomFilter;
use crate::key_index::{encodes, entries_view, in_bounds, lists_exactly, Bound, KeyIndex};
use crate::writer::{record_pointers, written_form};
use crate::keys::{compare_keys, key_lt, keys_ascending, lemma_key_lt_irreflexive};
use vstd::prelude::*;
use vstd::string::StringExecFns;

verus! {

/// The lower-case hexadecimal digit of `n`, below sixteen.
pub open spec fn hex_char(n: u128) -> char {
    seq!['0', '1', '2', '3', '4', '5', '6', '7', '8', '9', 'a', 'b', 'c', 'd', 'e', 'f'][n as int]
}

/// The hyphenated form of a 128-bit identifier: its 32 hexadecimal digits,
/// most significant first, in groups of 8, 4, 4, 4 and 12 joined by `-`.
pub open spec fn uuid_text(id: u128) -> Seq<char> {
    Seq::new(
        36,
        |i: int|
            if i == 8 || i == 13 || i == 18 || i == 23 {
                '-'
            } else {
                let k = if i < 8 {
                    i
                } else if i < 13 {
                    i - 1
                } else if i < 18 {
                    i - 2
                } else if i < 23 {
                    i - 3
                } else {
                    i - 4
                };
                hex_char((id >> ((4 * (31 - k)) as u128)) & 0xf)
            },
    )
}

/// Relies on uuid::Uuid::from_u128 and its `Display`, which writes the
/// hyphenated lower-case form.
#[verifier::external_body]
fn uuid_string(id: u128) -> (r: String)
    ensures
        r@ == uuid_text(id),
{
    uuid::Uuid::from_u128(id).to_string()
}

/// The contents of a segment's four files: what a segment writer fills and
/// what a segment is opened from.
pub struct Writers {
    pub id_index: Vec<u8>,
    pub blob_index: Vec<u8>,
    pub store: Vec<u8>,
    pub bloom: Vec<u8>,
}

/// The view of a list of owned (key, value) pairs.
pub open spec fn pairs_view(v: Seq<(Vec<u8>, Vec<u8>)>) -> Seq<(Seq<u8>, Seq<u8>)> {
    Seq::new(v.len(), |i: int| (v[i].0@, v[i].1@))
}

/// The key index entries of a list of (key, value) pairs: each key with its
/// position as id.
pub open spec fn ids_of(s: Seq<(Seq<u8>, Seq<u8>)>) -> Seq<(Seq<u8>, u64)> {
    Seq::new(s.len(), |i: int| (s[i].0, i as u64))
}

/// The record a blob store holds at `p`, or an empty pair if none.
pub open spec fn record_or_empty(store: Seq<u8>, p: crate::blob_store::Pointer) -> (Seq<u8>, Seq<u8>) {
    match record_at(store, p) {
        Some(r) => r,
        None => (Seq::empty(), Seq::empty()),
    }
}

/// The entries that a segment's files describe, in id order.
pub open spec fn files_entries(w: Writers) -> Seq<(Seq<u8>, Seq<u8>)> {
    let ptrs = pointers_decoding(w.blob_index@);
    Seq::new(ptrs.len(), |i: int| record_or_empty(w.store@, ptrs[i]))
}

/// The value that `s` gives `key`: that of the last entry with that key.
pub open spec fn value_of(s: Seq<(Seq<u8>, Seq<u8>)>, key: Seq<u8>) -> Option<Seq<u8>>
    decreases s.len(),
{
    if s.len() == 0 {
        None
    } else if s.last().0 == key {
        Some(s.last().1)
    } else {
        value_of(s.drop_last(), key)
    }
}

/// In a sequence with ascending keys, a key names one entry.
pub proof fn lemma_value_of_index(s: Seq<(Seq<u8>, Seq<u8>)>, i: int)
    requires
        keys_ascending(s),
        0 <= i < s.len(),
    ensures
        value_of(s, s[i].0) == Some(s[i].1),
    decreases s.len(),
{
    if i < s.len() - 1 {
        assert(key_lt(s[i].0, s.last().0));
        lemma_key_lt_irreflexive(s[i].0);
        let t = s.drop_last();
        assert forall|a: int, b: int| 0 <= a < b < t.len() implies #[trigger] key_lt(t[a].0, t[b].0) by {
            assert(t[a] == s[a] && t[b] == s[b]);
        }
        lemma_value_of_index(t, i);
        assert(t[i] == s[i]);
    }
}

/// A key that no entry has has no value.
pub proof fn lemma_value_of_absent(s: Seq<(Seq<u8>, Seq<u8>)>, key: Seq<u8>)
    requires
        forall|i: int| 0 <= i < s.len() ==> #[trigger] s[i].0 != key,
    ensures
        value_of(s, key) is None,
    decreases s.len(),
{
    if s.len() > 0 {
        let t = s.drop_last();
        assert forall|i: int| 0 <= i < t.len() implies #[trigger] t[i].0 != key by {
            assert(t[i] == s[i]);
        }
        lemma_value_of_absent(t, key);
    }
}

pub struct Segment {
    id_index: KeyIndex,
    blob_index: BlobIndex,
    store: BlobStore,
    bloom: BloomFilter,
    uuid: u128,
    entries: Ghost<Seq<(Seq<u8>, Seq<u8>)>>,
}

impl View for Segment {
    type V = Seq<(Seq<u8>, Seq<u8>)>;

    /// The segment's (key, value) entries in id order.
    closed spec fn view(&self) -> Seq<(Seq<u8>, Seq<u8>)> {
        self.entries@
    }
}

impl Segment {
    /// The four parts describe the same entries, keys are strictly ascending,
    /// and the bloom filter reports every key.
    pub closed spec fn wf(&self) -> bool {
        let e = self.entries@;
        &&& self.id_index.wf()
        &&& self.bloom.wf()
        &&& keys_ascending(e)
        &&& e.len() <= u64::MAX
        &&& self.blob_index@.len() == e.len()
        &&& self.id_index@ == ids_of(e)
        &&& forall|i: int| 0 <= i < e.len() ==> #[trigger] record_at(self.store@, self.blob_index@[i]) == Some(e[i])
        &&& forall|i: int| 0 <= i < e.len() ==> #[trigger] self.bloom.spec_contains(e[i].0)
    }

    /// A well-formed segment's entries have strictly ascending keys.
    pub proof fn lemma_ascending(&self)
        requires
            self.wf(),
        ensures
            keys_ascending(self@),
    {
    }

    pub closed spec fn spec_uuid(&self) -> u128 {
        self.uuid
    }

    /// Opens the segment named `uuid` from the contents of its four files.
    /// Fails when a part cannot be decoded or the parts disagree.
    pub fn open(uuid: u128, files: &Writers) -> (r: Result<Self, crate::SegmentError>)
        ensures
            r matches Ok(s) ==> s.wf() && s@ == files_entries(*files) && s.spec_uuid() == uuid,
            forall|e: Seq<(Seq<u8>, Seq<u8>)>| #[trigger] written_form(*files, e) ==> (r matches Ok(s) && s@ == e),
            !BloomFilter::valid_encoding(files.bloom@) ==> r is Err,
            files.blob_index@.len() % 16 != 0 ==> r is Err,
            (forall|s: Seq<(Seq<u8>, u64)>| !#[trigger] encodes(s, files.id_index@)) ==> r is Err,
            (exists|i: int| 0 <= i < files.blob_index@.len() / 16
                && #[trigger] record_at(files.store@, pointers_decoding(files.blob_index@)[i]) is None) ==> r is Err,
    {
        let bloom = match BloomFilter::from_bytes(files.bloom.as_slice()) {
            Ok(b) => b,
            Err(e) => {
                proof {
                    assert forall|e: Seq<(Seq<u8>, Seq<u8>)>| #[trigger] written_form(*files, e) implies false by {
                        let f = choose|f: BloomFilter| f.wf() && f.encoding() == files.bloom@ && forall|i: int|
                            0 <= i < e.len() ==> #[trigger] f.spec_contains(e[i].0);
                        f.lemma_encoding_valid();
                    }
                }
                return Err(e);
            },
        };
        proof {
            assert forall|e: Seq<(Seq<u8>, Seq<u8>)>| #[trigger] written_form(*files, e) implies
                forall|i: int| 0 <= i < e.len() ==> #[trigger] bloom.spec_contains(e[i].0) by {
                let f = choose|f: BloomFilter| f.wf() && f.encoding() == files.bloom@ && forall|i: int|
                    0 <= i < e.len() ==> #[trigger] f.spec_contains(e[i].0);
                assert forall|i: int| 0 <= i < e.len() implies #[trigger] bloom.spec_contains(e[i].0) by {
                    BloomFilter::lemma_same_encoding(&f, &bloom, e[i].0);
                }
            }
        }
        let blob_index = match BlobIndex::from_bytes(files.blob_index.as_slice()) {
            Ok(b) => b,
            Err(e) => {
                proof {
                    assert forall|e: Seq<(Seq<u8>, Seq<u8>)>| #[trigger] written_form(*files, e) implies false by {
                        lemma_pointers_round_trip(record_pointers(e));
                    }
                }
                return Err(e);
            },
        };
        proof {
            assert forall|e: Seq<(Seq<u8>, Seq<u8>)>| #[trigger] written_form(*files, e) implies
                blob_index@ == record_pointers(e) by {
                lemma_pointers_round_trip(record_pointers(e));
            }
            assert forall|e: Seq<(Seq<u8>, Seq<u8>)>| #[trigger] written_form(*files, e) implies
                encodes(ids_of(e), files.id_index@) by {
                assert forall|a: int, b: int| 0 <= a < b < ids_of(e).len() implies #[trigger] key_lt(ids_of(e)[a].0, ids_of(e)[b].0) by {
                    assert(key_lt(e[a].0, e[b].0));
                }
            }
        }
        let id_index = match KeyIndex::from_bytes(files.id_index.as_slice()) {
            Ok(k) => k,
            Err(e) => {
                proof {
                    assert forall|e: Seq<(Seq<u8>, Seq<u8>)>| #[trigger] written_form(*files, e) implies false by {
                        assert(encodes(ids_of(e), files.id_index@));
                    }
                }
                return Err(e);
            },
        };
        proof {
            assert forall|e: Seq<(Seq<u8>, Seq<u8>)>| #[trigger] written_form(*files, e) implies
                id_index@ == ids_of(e) by {
                assert(encodes(ids_of(e), files.id_index@));
            }
        }
        let store = BlobStore::from_bytes(crate::blob_store::copy_range(
            files.store.as_slice(),
            0,
            files.store.len(),
        ));
        assert(files.store@.subrange(0, files.store@.len() as int) =~= files.store@);
        let all = id_index.entries();
        let n = blob_index.len();
        if all.len() != n {
            proof {
                assert forall|e: Seq<(Seq<u8>, Seq<u8>)>| #[trigger] written_form(*files, e) implies false by {
                    assert(id_index@ == ids_of(e));
                    assert(blob_index@ == record_pointers(e));
                }
            }
            return Err(crate::SegmentError::Mismatch);
        }
        let ghost mut acc: Seq<(Seq<u8>, Seq<u8>)> = Seq::empty();
        let mut i: usize = 0;
        while i < n
            invariant
                n == blob_index@.len(),
                entries_view(all@) == id_index@,
                all@.len() == n,
                bloom.wf(),
                i <= n,
                acc.len() == i,
                forall|j: int| 0 <= j < i ==> #[trigger] record_at(store@, blob_index@[j]) == Some(acc[j]),
                forall|j: int| 0 <= j < i ==> #[trigger] entries_view(all@)[j] == (acc[j].0, j as u64),
                forall|j: int| 0 <= j < i ==> #[trigger] bloom.spec_contains(acc[j].0),
                store@ == files.store@,
                forall|e: Seq<(Seq<u8>, Seq<u8>)>| #[trigger] written_form(*files, e) ==>
                    id_index@ == ids_of(e) && blob_index@ == record_pointers(e)
                    && forall|j: int| 0 <= j < e.len() ==> #[trigger] bloom.spec_contains(e[j].0),
            decreases n - i,
        {
            assert(entries_view(all@)[i as int] == (all@[i as int].0@, all@[i as int].1));
            proof {
                assert forall|e: Seq<(Seq<u8>, Seq<u8>)>| #[trigger] written_form(*files, e) implies
                    all@[i as int].1 == i as u64 && all@[i as int].0@ == e[i as int].0
                    && record_at(store@, blob_index@[i as int]) == Some(e[i as int])
                    && bloom.spec_contains(e[i as int].0) by {
                    assert(ids_of(e)[i as int] == (e[i as int].0, i as u64));
                }
            }
            if all[i].1 != i as u64 {
                return Err(crate::SegmentError::Mismatch);
            }
            let (k, v) = match store.read(blob_index.get(i as u64)) {
                Ok(kv) => kv,
                Err(e) => return Err(e),
            };
            if compare_keys(k.as_slice(), all[i].0.as_slice()) != 0 {
                return Err(crate::SegmentError::Mismatch);
            }
            if !bloom.contains(k.as_slice()) {
                return Err(crate::SegmentError::Mismatch);
            }
            proof {
                acc = acc.push((k@, v@));
            }
            i = i + 1;
        }
        assert(id_index@ =~= ids_of(acc));
        proof {
            assert forall|a: int, b: int| 0 <= a < b < acc.len() implies #[trigger] key_lt(acc[a].0, acc[b].0) by {
                assert(id_index@[a].0 == acc[a].0 && id_index@[b].0 == acc[b].0);
            }
            assert(blob_index@ == pointers_decoding(files.blob_index@));
            assert(acc =~= files_entries(*files));
            assert(encodes(id_index@, files.id_index@));
            assert forall|i: int| 0 <= i < files.blob_index@.len() / 16 implies
                #[trigger] record_at(files.store@, pointers_decoding(files.blob_index@)[i]) is Some by {
                assert(record_at(store@, blob_index@[i]) == Some(acc[i]));
            }
        }
        Ok(Segment { id_index, blob_index, store, bloom, uuid, entries: Ghost(acc) })
    }

    /// The entry of id `id`.
    fn fetch(&self, id: u64) -> (r: (Vec<u8>, Vec<u8>))
        requires
            self.wf(),
            id < self@.len(),
        ensures
            (r.0@, r.1@) == self@[id as int],
    {
        match self.store.read(self.blob_index.get(id)) {
            Ok(kv) => kv,
            Err(_) => {
                assert(record_at(self.store@, self.blob_index@[id as int]) == Some(self@[id as int]));
                (Vec::new(), Vec::new())
            },
        }
    }

    /// The value of `key`, if the segment holds it. The bloom filter answers
    /// first; only keys it reports are looked up in the key index.
    pub fn get_raw(&self, key: &[u8]) -> (r: Option<Vec<u8>>)
        requires
            self.wf(),
        ensures
            match r {
                Some(v) => value_of(self@, key@) == Some(v@),
                None => value_of(self@, key@) is None,
            },
    {
        if !self.bloom.contains(key) {
            assert forall|i: int| 0 <= i < self@.len() implies #[trigger] self@[i].0 != key@ by {
                assert(self.bloom.spec_contains(self@[i].0));
            }
            proof {
                lemma_value_of_absent(self@, key@);
            }
            return None;
        }
        match self.id_index.get(key) {
            Some(id) => {
                let ghost i = choose|i: int| 0 <= i < self.id_index@.len() && #[trigger] self.id_index@[i] == (key@, id);
                assert(ids_of(self@)[i] == (self@[i].0, i as u64));
                proof {
                    lemma_value_of_index(self@, i);
                }
                let (_, v) = self.fetch(id);
                Some(v)
            },
            None => {
                assert forall|i: int| 0 <= i < self@.len() implies #[trigger] self@[i].0 != key@ by {
                    assert(self.id_index@[i].0 == self@[i].0);
                }
                proof {
                    lemma_value_of_absent(self@, key@);
                }
                None
            },
        }
    }

    /// Resolves key index entries to the segment's (key, value) entries.
    fn resolve(&self, found: &Vec<(Vec<u8>, u64)>, pred: Ghost<spec_fn(Seq<u8>) -> bool>) -> (r: Vec<(Vec<u8>, Vec<u8>)>)
        requires
            self.wf(),
            lists_exactly(entries_view(found@), self.id_index@, pred@),
        ensures
            lists_exactly(pairs_view(r@), self@, pred@),
    {
        let ghost ids = self.id_index@;
        let ghost fv = entries_view(found@);
        let mut out: Vec<(Vec<u8>, Vec<u8>)> = Vec::new();
        let mut j: usize = 0;
        while j < found.len()
            invariant
                self.wf(),
                ids == self.id_index@,
                fv == entries_view(found@),
                lists_exactly(fv, ids, pred@),
                j <= found@.len(),
                out@.len() == j,
                forall|m: int| 0 <= m < j ==> fv[m].1 < self@.len() && #[trigger] pairs_view(out@)[m] == self@[fv[m].1 as int],
            decreases found.len() - j,
        {
            let id = found[j].1;
            proof {
                assert(ids.contains(fv[j as int]));
                let i = choose|i: int| 0 <= i < ids.len() && ids[i] == fv[j as int];
                assert(ids_of(self@)[i] == (self@[i].0, i as u64));
            }
            let kv = self.fetch(id);
            let ghost old_out = out@;
            let ghost kv_view = (kv.0@, kv.1@);
            assert(fv[j as int].1 == id);
            out.push(kv);
            proof {
                assert forall|m: int| 0 <= m < j + 1 implies fv[m].1 < self@.len() && #[trigger] pairs_view(out@)[m] == self@[fv[m].1 as int] by {
                    if m < j {
                        assert(out@[m] == old_out[m]);
                        assert(pairs_view(old_out)[m] == self@[fv[m].1 as int]);
                    } else {
                        assert(out@[m] == kv);
                        assert(pairs_view(out@)[m] == kv_view);
                    }
                }
            }
            j = j + 1;
        }
        proof {
            let pv = pairs_view(out@);
            assert forall|m: int| 0 <= m < fv.len() implies #[trigger] pv[m].0 == fv[m].0 && pv[m] == self@[fv[m].1 as int] by {
                assert(ids.contains(fv[m]));
                let i = choose|i: int| 0 <= i < ids.len() && ids[i] == fv[m];
                assert(ids_of(self@)[i] == (self@[i].0, i as u64));
            }
            assert forall|a: int, b: int| 0 <= a < b < pv.len() implies #[trigger] key_lt(pv[a].0, pv[b].0) by {
                assert(key_lt(fv[a].0, fv[b].0));
                assert(pv[a].0 == fv[a].0);
                assert(pv[b].0 == fv[b].0);
            }
            assert forall|m: int| 0 <= m < pv.len() implies self@.contains(#[trigger] pv[m]) && pred@(pv[m].0) by {
                assert(pv[m] == self@[fv[m].1 as int]);
                assert(pv[m].0 == fv[m].0);
            }
            assert forall|i: int| 0 <= i < self@.len() && pred@(self@[i].0) implies pv.contains(#[trigger] self@[i]) by {
                assert(ids[i] == (self@[i].0, i as u64));
                assert(fv.contains(ids[i]));
                let m = choose|m: int| 0 <= m < fv.len() && fv[m] == ids[i];
                assert(pv[m] == self@[i]);
            }
        }
        out
    }

    /// The entries whose key lies between `lo` and `hi`, in ascending key order.
    pub fn range_raw(&self, lo: &Bound, hi: &Bound) -> (r: Vec<(Vec<u8>, Vec<u8>)>)
        requires
            self.wf(),
        ensures
            lists_exactly(pairs_view(r@), self@, |k: Seq<u8>| in_bounds(*lo, *hi, k)),
    {
        let found = self.id_index.range_bounds(lo, hi);
        self.resolve(&found, Ghost(|k: Seq<u8>| in_bounds(*lo, *hi, k)))
    }

    /// The entries whose key the automaton accepts, in ascending key order.
    pub fn search_raw(&self, aut: &Automaton) -> (r: Vec<(Vec<u8>, Vec<u8>)>)
        requires
            self.wf(),
            aut.wf(),
        ensures
            lists_exactly(pairs_view(r@), self@, |k: Seq<u8>| aut.accepts(k)),
    {
        let all = self.id_index.entries();
        let ghost p = |e: (Seq<u8>, u64)| aut.accepts(e.0);
        let mut found: Vec<(Vec<u8>, u64)> = Vec::new();
        let mut i: usize = 0;
        while i < all.len()
            invariant
                aut.wf(),
                forall|x: (Seq<u8>, u64)| #[trigger] p(x) == aut.accepts(x.0),
                i <= all@.len(),
                entries_view(found@) == entries_view(all@).subrange(0, i as int).filter(p),
            decreases all.len() - i,
        {
            let ghost before = entries_view(found@);
            let ghost e = entries_view(all@)[i as int];
            proof {
                assert(entries_view(all@).subrange(0, i + 1) =~= entries_view(all@).subrange(0, i as int).push(e));
                entries_view(all@).subrange(0, i as int).lemma_filter_push(e, p);
            }
            assert(e == (all@[i as int].0@, all@[i as int].1));
            assert(p(e) == aut.accepts(all@[i as int].0@));
            if aut.matches(all[i].0.as_slice()) {
                let key = crate::blob_store::copy_range(all[i].0.as_slice(), 0, all[i].0.len());
                assert(all[i as int].0@.subrange(0, all[i as int].0@.len() as int) =~= all[i as int].0@);
                found.push((key, all[i].1));
                assert(entries_view(found@) =~= before.push(e));
            } else {
                assert(entries_view(found@) =~= before);
            }
            i = i + 1;
        }
        proof {
            assert(entries_view(all@).subrange(0, i as int) =~= self.id_index@);
            crate::key_index::lemma_filter_lists(self.id_index@, p, |k: Seq<u8>| aut.accepts(k));
        }
        self.resolve(&found, Ghost(|k: Seq<u8>| aut.accepts(k)))
    }

    /// Every entry, in ascending key order; the entry at position `i` has id `i`.
    pub fn iter_raw(&self) -> (r: Vec<(Vec<u8>, Vec<u8>)>)
        requires
            self.wf(),
        ensures
            pairs_view(r@) == self@,
            keys_ascending(pairs_view(r@)),
    {
        let n = self.blob_index.len();
        let mut out: Vec<(Vec<u8>, Vec<u8>)> = Vec::new();
        let mut i: usize = 0;
        while i < n
            invariant
                self.wf(),
                n == self@.len(),
                i <= n,
                out@.len() == i,
                pairs_view(out@) == self@.subrange(0, i as int),
            decreases n - i,
        {
            let kv = self.fetch(i as u64);
            let ghost old_out = out@;
            out.push(kv);
            assert forall|m: int| 0 <= m < i + 1 implies #[trigger] pairs_view(out@)[m] == self@[m] by {
                if m < i {
                    assert(out@[m] == old_out[m]);
                    assert(pairs_view(old_out)[m] == self@.subrange(0, i as int)[m]);
                } else {
                    assert(out@[m] == kv);
                }
            }
            assert(pairs_view(out@) =~= self@.subrange(0, i + 1));
            i = i + 1;
        }
        assert(self@.subrange(0, i as int) =~= self@);
        out
    }

    pub fn len(&self) -> (n: usize)
        requires
            self.wf(),
        ensures
            n == self@.len(),
    {
        self.id_index.len()
    }

    pub fn is_empty(&self) -> (r: bool)
        requires
            self.wf(),
        ensures
            r == (self@.len() == 0),
    {
        self.id_index.len() == 0
    }

    /// The name of a segment's bloom filter file.
    pub fn bloom_file_name(uuid: u128) -> (r: String)
        ensures
            r@ == uuid_text(uuid) + ".blm"@,
    {
        uuid_string(uuid).concat(".blm")
    }

    /// The name of a segment's key index file.
    pub fn id_index_file_name(uuid: u128) -> (r: String)
        ensures
            r@ == uuid_text(uuid) + ".ids"@,
    {
        uuid_string(uuid).concat(".ids")
    }

    /// The name of a segment's blob index file.
    pub fn blob_index_file_name(uuid: u128) -> (r: String)
        ensures
            r@ == uuid_text(uuid) + ".ptr"@,
    {
        uuid_string(uuid).concat(".ptr")
    }

    /// The name of a segment's blob store file.
    pub fn store_file_name(uuid: u128) -> (r: String)
        ensures
            r@ == uuid_text(uuid) + ".blb"@,
    {
        uuid_string(uuid).concat(".blb")
    }

    pub fn uuid(&self) -> (r: u128)
        ensures
            r == self.spec_uuid(),
    {
        self.uuid
    }
}

} // verus!
