//! Properties that relate several operations of the store.
use crate::merge::{is_merge_of, newest_value};
use crate::segment::{files_entries, lemma_value_of_absent, lemma_value_of_index, value_of, Segment, Writers};
use crate::writer::written_form;
use crate::bloom::BloomFilter;
use vstd::prelude::*;

verus! {

/// Round trip: `Segment::open` succeeds on what a writer wrote for entries
/// with ascending keys, and the segment it gives holds exactly those entries;
/// `get_raw` then returns each key's value, and nothing for a key that was
/// never written.
pub proof fn lemma_round_trip(e: Seq<(Seq<u8>, Seq<u8>)>, files: Writers, s: Segment, key: Seq<u8>)
    requires
        written_form(files, e),
        s.wf(),
        s@ == files_entries(files),
    ensures
        s@ == e,
        forall|i: int| 0 <= i < e.len() ==> #[trigger] value_of(s@, e[i].0) == Some(e[i].1),
        (forall|i: int| 0 <= i < e.len() ==> #[trigger] e[i].0 != key) ==> value_of(s@, key) is None,
{
    assert forall|i: int| 0 <= i < e.len() implies #[trigger] value_of(s@, e[i].0) == Some(e[i].1) by {
        lemma_value_of_index(e, i);
    }
    if forall|i: int| 0 <= i < e.len() ==> #[trigger] e[i].0 != key {
        lemma_value_of_absent(e, key);
    }
}

/// No false negatives in a written segment: however many items the writer
/// was sized for, a bloom filter read back from what it wrote (as
/// `BloomFilter::from_bytes` gives it) reports every written key.
pub proof fn lemma_written_bloom_sound(files: Writers, e: Seq<(Seq<u8>, Seq<u8>)>, g: BloomFilter, i: int)
    requires
        written_form(files, e),
        g.encoding() == files.bloom@,
        0 <= i < e.len(),
    ensures
        g.spec_contains(e[i].0),
{
    let f = choose|f: BloomFilter| f.wf() && f.encoding() == files.bloom@ && forall|j: int|
        0 <= j < e.len() ==> #[trigger] f.spec_contains(e[j].0);
    BloomFilter::lemma_same_encoding(&f, &g, e[i].0);
}

/// Merge cleanup: the segment opened from a merge's output answers every key
/// with the value of the earliest input segment that holds it, and holds no
/// other key.
pub proof fn lemma_merge_round_trip(
    inputs: Seq<Seq<(Seq<u8>, Seq<u8>)>>,
    m: Seq<(Seq<u8>, Seq<u8>)>,
    files: Writers,
    s: Segment,
    key: Seq<u8>,
)
    requires
        is_merge_of(m, inputs),
        written_form(files, m),
        s.wf(),
        s@ == files_entries(files),
    ensures
        value_of(s@, key) == newest_value(inputs, key),
{
}

/// Idempotent open: two segments opened from the same files hold the same
/// entries, so every lookup, range and scan agrees.
pub proof fn lemma_open_twice(files: Writers, a: Segment, b: Segment)
    requires
        a.wf(),
        b.wf(),
        a@ == files_entries(files),
        b@ == files_entries(files),
    ensures
        a@ == b@,
        forall|key: Seq<u8>| #[trigger] value_of(a@, key) == value_of(b@, key),
{
}

} // verus!
