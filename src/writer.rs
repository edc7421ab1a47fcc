//! The segment writer: builds the four parts of a segment from entries given
//! in strictly ascending key order.
use crate::blob_index::{lemma_pointers_round_trip, pointers_encoding, BlobIndex};
use crate::blob_store::{
    lemma_record_at_append, lemma_record_at_extend, record_at, record_bytes, BlobStore, Pointer,
};
use crate::bloom::BloomFilter;
use crate::key_index::{entries_encoding, entries_view, KeyIndex};
use crate::keys::{key_lt, keys_ascending};
use crate::segment::{files_entries, ids_of, pairs_view, Writers};
use vstd::prelude::*;

verus! {

/// The blob store holding the records of `e`, in order.
pub open spec fn store_encoding(e: Seq<(Seq<u8>, Seq<u8>)>) -> Seq<u8>
    decreases e.len(),
{
    if e.len() == 0 {
        Seq::empty()
    } else {
        store_encoding(e.drop_last()) + record_bytes(e.last().0, e.last().1)
    }
}

/// The pointers to the records of `e` in `store_encoding(e)`.
pub open spec fn record_pointers(e: Seq<(Seq<u8>, Seq<u8>)>) -> Seq<Pointer> {
    Seq::new(
        e.len(),
        |i: int|
            Pointer {
                offset: store_encoding(e.take(i)).len() as u64,
                len: record_bytes(e[i].0, e[i].1).len() as u64,
            },
    )
}

/// `b` is the stored form of a sound bloom filter that reports every key of `e`.
pub open spec fn bloom_reports_all(b: Seq<u8>, e: Seq<(Seq<u8>, Seq<u8>)>) -> bool {
    exists|f: BloomFilter|
        f.wf() && f.encoding() == b && forall|i: int|
            0 <= i < e.len() ==> #[trigger] f.spec_contains(e[i].0)
}

/// `w` holds the four parts of a segment of the entries `e`, as a writer
/// lays them out.
pub open spec fn written_form(w: Writers, e: Seq<(Seq<u8>, Seq<u8>)>) -> bool {
    &&& keys_ascending(e)
    &&& w.store@ == store_encoding(e)
    &&& forall|i: int| 0 <= i < e.len() ==> #[trigger] record_at(w.store@, record_pointers(e)[i]) == Some(e[i])
    &&& w.blob_index@ == pointers_encoding(record_pointers(e))
    &&& w.id_index@ == entries_encoding(ids_of(e))
    &&& bloom_reports_all(w.bloom@, e)
    &&& files_entries(w) == e
}

/// A prefix's records take no more room than the whole.
pub proof fn lemma_store_prefix(e: Seq<(Seq<u8>, Seq<u8>)>, k: int)
    requires
        0 <= k <= e.len(),
    ensures
        store_encoding(e.take(k)).len() <= store_encoding(e).len(),
    decreases e.len() - k,
{
    if k < e.len() {
        lemma_store_prefix(e, k + 1);
        assert(e.take(k + 1).drop_last() =~= e.take(k));
    } else {
        assert(e.take(k) =~= e);
    }
}

/// Each record takes at least eight bytes.
pub proof fn lemma_store_len(e: Seq<(Seq<u8>, Seq<u8>)>)
    ensures
        store_encoding(e).len() >= 8 * e.len(),
    decreases e.len(),
{
    vstd::bytes::lemma_auto_spec_u64_to_from_le_bytes();
    if e.len() > 0 {
        lemma_store_len(e.drop_last());
    }
}

pub struct SegmentWriter {
    store: BlobStore,
    blob_index: BlobIndex,
    ids: Vec<(Vec<u8>, u64)>,
    bloom: BloomFilter,
    written: Ghost<Seq<(Seq<u8>, Seq<u8>)>>,
}

impl SegmentWriter {
    /// The entries written so far.
    pub closed spec fn written(&self) -> Seq<(Seq<u8>, Seq<u8>)> {
        self.written@
    }

    /// The size in bytes of the bloom filter's bit buffer.
    pub closed spec fn bloom_len(&self) -> int {
        self.bloom.byte_len()
    }

    pub closed spec fn wf(&self) -> bool {
        let e = self.written@;
        &&& self.bloom.wf()
        &&& keys_ascending(e)
        &&& self.store@ == store_encoding(e)
        &&& self.blob_index@ == record_pointers(e)
        &&& entries_view(self.ids@) == ids_of(e)
        &&& forall|i: int| 0 <= i < e.len() ==> #[trigger] record_at(self.store@, self.blob_index@[i]) == Some(e[i])
        &&& forall|i: int| 0 <= i < e.len() ==> #[trigger] self.bloom.inserted().contains(e[i].0)
    }

    /// A writer for a segment of about `num_items` entries; the number sizes
    /// the bloom filter.
    pub fn new(num_items: usize) -> (r: Self)
        requires
            BloomFilter::buffer_len(num_items) * 8 <= usize::MAX,
        ensures
            r.wf(),
            r.written() == Seq::<(Seq<u8>, Seq<u8>)>::empty(),
            r.bloom_len() == BloomFilter::buffer_len(num_items),
    {
        let r = SegmentWriter {
            store: BlobStore::new(),
            blob_index: BlobIndex::new(),
            ids: Vec::new(),
            bloom: BloomFilter::new(num_items),
            written: Ghost(Seq::empty()),
        };
        assert(r.blob_index@ =~= record_pointers(Seq::empty()));
        assert(entries_view(r.ids@) =~= ids_of(Seq::empty()));
        r
    }

    /// Writes one entry: the record to the store, its pointer to the blob
    /// index, the key and id to the key index, the key to the bloom filter.
    fn insert(&mut self, key: &Vec<u8>, value: &Vec<u8>)
        requires
            old(self).wf(),
            old(self).written().len() > 0 ==> key_lt(old(self).written().last().0, key@),
            store_encoding(old(self).written().push((key@, value@))).len() <= usize::MAX,
        ensures
            final(self).wf(),
            final(self).written() == old(self).written().push((key@, value@)),
            final(self).bloom_len() == old(self).bloom_len(),
    {
        let ghost e = self.written@;
        let ghost e2 = e.push((key@, value@));
        assert(e2.drop_last() =~= e);
        proof {
            lemma_record_at_append(self.store@, key@, value@);
            assert forall|i: int| 0 <= i < e.len() implies #[trigger] record_at(
                self.store@ + record_bytes(key@, value@),
                self.blob_index@[i],
            ) == Some(e[i]) by {
                lemma_record_at_extend(self.store@, record_bytes(key@, value@), self.blob_index@[i]);
            }
        }
        proof {
            lemma_store_len(e2);
        }
        let p = self.store.write(key.as_slice(), value.as_slice());
        let id = self.blob_index.append(p);
        let k = crate::blob_store::copy_range(key.as_slice(), 0, key.len());
        assert(key@.subrange(0, key@.len() as int) =~= key@);
        let ghost old_ids = self.ids@;
        self.ids.push((k, id));
        assert(entries_view(self.ids@) =~= entries_view(old_ids).push((key@, id)));
        self.bloom.insert(key.as_slice());
        proof {
            self.written = Ghost(e2);
            assert forall|i: int| 0 <= i < e2.len() implies #[trigger] record_pointers(e2)[i] == self.blob_index@[i] by {
                assert(e2.take(i) =~= if i < e.len() { e.take(i) } else { e });
            }
            assert(self.blob_index@ =~= record_pointers(e2));
            assert(entries_view(self.ids@) =~= ids_of(e2));
            assert forall|i: int| 0 <= i < e2.len() implies #[trigger] self.bloom.inserted().contains(e2[i].0) by {
                if i < e.len() {
                    assert(old(self).bloom.inserted().contains(e[i].0));
                }
            }
            assert forall|a: int, b: int| 0 <= a < b < e2.len() implies #[trigger] key_lt(e2[a].0, e2[b].0) by {
                if b == e.len() && a < e.len() - 1 {
                    crate::keys::lemma_key_lt_transitive(e[a].0, e.last().0, key@);
                }
            }
        }
    }

    /// Finalises the four parts, the bloom filter last.
    fn finish(self) -> (w: Writers)
        requires
            self.wf(),
        ensures
            written_form(w, self.written()),
            w.bloom@.len() == 8 + self.bloom_len(),
    {
        let ghost e = self.written@;
        let key_index = match KeyIndex::from_sorted(&self.ids) {
            Ok(k) => k,
            Err(_) => {
                assert(false);
                return Writers { id_index: Vec::new(), blob_index: Vec::new(), store: Vec::new(), bloom: Vec::new() };
            },
        };
        let id_index = key_index.to_bytes();
        let blob_index = self.blob_index.to_bytes();
        let store = crate::blob_store::copy_range(self.store.as_bytes(), 0, self.store.as_bytes().len());
        assert(self.store@.subrange(0, self.store@.len() as int) =~= self.store@);
        let bloom = self.bloom.to_bytes();
        proof {
            self.bloom.lemma_encoding_len();
        }
        let w = Writers { id_index, blob_index, store, bloom };
        proof {
            assert forall|i: int| 0 <= i < e.len() implies #[trigger] self.bloom.spec_contains(e[i].0) by {
                self.bloom.lemma_no_false_negatives(e[i].0);
            }
            assert(bloom_reports_all(w.bloom@, e));
            lemma_pointers_round_trip(record_pointers(e));
            assert(files_entries(w) =~= e);
        }
        w
    }

    /// Writes every entry of `entries`, whose keys must be strictly
    /// ascending, then finalises the segment.
    pub fn write_sorted_it(self, entries: &Vec<(Vec<u8>, Vec<u8>)>) -> (w: Writers)
        requires
            self.wf(),
            self.written().len() == 0,
            keys_ascending(pairs_view(entries@)),
            store_encoding(pairs_view(entries@)).len() <= usize::MAX,
        ensures
            written_form(w, pairs_view(entries@)),
            w.bloom@.len() == 8 + self.bloom_len(),
    {
        let ghost e = pairs_view(entries@);
        let mut writer = self;
        let mut i: usize = 0;
        while i < entries.len()
            invariant
                writer.wf(),
                e == pairs_view(entries@),
                keys_ascending(e),
                store_encoding(e).len() <= usize::MAX,
                i <= e.len(),
                writer.written() == e.take(i as int),
                writer.bloom_len() == self.bloom_len(),
            decreases entries.len() - i,
        {
            proof {
                assert(e.take(i + 1) =~= e.take(i as int).push((entries@[i as int].0@, entries@[i as int].1@)));
                lemma_store_prefix(e, i + 1);
                if i > 0 {
                    assert(key_lt(e[i - 1].0, e[i as int].0));
                }
            }
            writer.insert(&entries[i].0, &entries[i].1);
            i = i + 1;
        }
        assert(e.take(i as int) =~= e);
        writer.finish()
    }
}

} // verus!
