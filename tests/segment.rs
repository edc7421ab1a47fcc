use speedy_kv::automaton::Automaton;
use speedy_kv::bloom::BloomFilter;
use speedy_kv::key_index::Bound;
use speedy_kv::keys::compare_keys;
use speedy_kv::merge::{merge_sorted, Merged};
use speedy_kv::segment::{Segment, Writers};
use speedy_kv::writer::SegmentWriter;
use speedy_kv::SegmentError;

fn kv(k: &str, v: &str) -> (Vec<u8>, Vec<u8>) {
    (k.as_bytes().to_vec(), v.as_bytes().to_vec())
}

fn write(entries: &Vec<(Vec<u8>, Vec<u8>)>) -> Writers {
    SegmentWriter::new(entries.len()).write_sorted_it(entries)
}

fn build(uuid: u128, entries: &Vec<(Vec<u8>, Vec<u8>)>) -> Segment {
    Segment::open(uuid, &write(entries)).unwrap()
}

fn sample() -> Vec<(Vec<u8>, Vec<u8>)> {
    vec![kv("apple", "1"), kv("banana", "2"), kv("cherry", "3"), kv("date", "4"), kv("elder", "5")]
}

fn keys_of(r: &Vec<(Vec<u8>, Vec<u8>)>) -> Vec<String> {
    r.iter().map(|(k, _)| String::from_utf8(k.clone()).unwrap()).collect()
}

#[test]
fn round_trip_returns_every_value() {
    let entries = sample();
    let seg = build(1, &entries);
    for (k, v) in &entries {
        assert_eq!(seg.get_raw(k), Some(v.clone()));
    }
    assert_eq!(seg.len(), 5);
    assert!(!seg.is_empty());
    assert_eq!(seg.uuid(), 1);
}

#[test]
fn missing_key_returns_none() {
    let seg = build(2, &sample());
    assert_eq!(seg.get_raw(b"apricot"), None);
    assert_eq!(seg.get_raw(b""), None);
    assert_eq!(seg.get_raw(b"zzz"), None);
}

#[test]
fn empty_segment() {
    let seg = build(3, &Vec::new());
    assert!(seg.is_empty());
    assert_eq!(seg.len(), 0);
    assert_eq!(seg.get_raw(b"a"), None);
    assert!(seg.iter_raw().is_empty());
}

#[test]
fn range_half_open() {
    let seg = build(4, &sample());
    let r = seg.range_raw(&Bound::Included(b"banana".to_vec()), &Bound::Excluded(b"date".to_vec()));
    assert_eq!(r, vec![kv("banana", "2"), kv("cherry", "3")]);
}

#[test]
fn range_other_bounds() {
    let seg = build(5, &sample());
    let r = seg.range_raw(&Bound::Excluded(b"banana".to_vec()), &Bound::Included(b"date".to_vec()));
    assert_eq!(keys_of(&r), vec!["cherry", "date"]);
    let r = seg.range_raw(&Bound::Unbounded, &Bound::Excluded(b"c".to_vec()));
    assert_eq!(keys_of(&r), vec!["apple", "banana"]);
    let r = seg.range_raw(&Bound::Included(b"d".to_vec()), &Bound::Unbounded);
    assert_eq!(keys_of(&r), vec!["date", "elder"]);
    let r = seg.range_raw(&Bound::Included(b"x".to_vec()), &Bound::Excluded(b"a".to_vec()));
    assert!(r.is_empty());
}

#[test]
fn iter_is_ascending_by_id() {
    let entries = sample();
    let seg = build(6, &entries);
    assert_eq!(seg.iter_raw(), entries);
}

/// An automaton that accepts keys ending with `t`.
fn ends_with_t() -> Automaton {
    let mut next = vec![0usize; 2 * 256];
    next[b't' as usize] = 1;
    next[256 + b't' as usize] = 1;
    Automaton::new(0, next, vec![false, true]).unwrap()
}

#[test]
fn search_with_prefix_automaton() {
    let entries = vec![kv("car", "1"), kv("cart", "2"), kv("cat", "3"), kv("dog", "4")];
    let seg = build(7, &entries);
    let r = seg.search_raw(&Automaton::prefix(b"car"));
    assert_eq!(r, vec![kv("car", "1"), kv("cart", "2")]);
    let r = seg.search_raw(&Automaton::prefix(b"x"));
    assert!(r.is_empty());
    let r = seg.search_raw(&Automaton::prefix(b""));
    assert_eq!(r, entries);
}

#[test]
fn search_with_table_automaton() {
    let entries = vec![kv("car", "1"), kv("cart", "2"), kv("cat", "3"), kv("dog", "4")];
    let seg = build(8, &entries);
    let r = seg.search_raw(&ends_with_t());
    assert_eq!(r, vec![kv("cart", "2"), kv("cat", "3")]);
}

#[test]
fn prefix_automaton_matches() {
    let a = Automaton::prefix(b"ab");
    assert!(a.matches(b"ab"));
    assert!(a.matches(b"abc"));
    assert!(!a.matches(b"a"));
    assert!(!a.matches(b"ba"));
    assert!(!a.matches(b""));
}

#[test]
fn automaton_rejects_bad_parts() {
    assert!(Automaton::new(1, vec![0; 256], vec![true]).is_none());
    assert!(Automaton::new(0, vec![0; 255], vec![true]).is_none());
    assert!(Automaton::new(0, vec![1; 256], vec![true]).is_none());
    assert!(Automaton::new(0, vec![0; 256], vec![true]).is_some());
}

#[test]
fn merge_newest_wins() {
    let a = build(10, &vec![kv("a", "1"), kv("b", "2"), kv("c", "3")]);
    let b = build(11, &vec![kv("b", "20"), kv("d", "4")]);
    match Segment::merge(vec![b, a]).unwrap() {
        Some(Merged::Written { uuid, files }) => {
            assert!(uuid != 10 && uuid != 11);
            let m = Segment::open(uuid, &files).unwrap();
            assert_eq!(m.iter_raw(), vec![kv("a", "1"), kv("b", "20"), kv("c", "3"), kv("d", "4")]);
            assert_eq!(m.get_raw(b"b"), Some(b"20".to_vec()));
        }
        _ => panic!("expected a written segment"),
    }
}

#[test]
fn writer_sizes_bloom_from_expected_items() {
    let entries = sample();
    let w = SegmentWriter::new(100).write_sorted_it(&entries);
    assert_eq!(w.bloom.len(), 8 + 100 + 20 + 8);
    let w = SegmentWriter::new(0).write_sorted_it(&entries);
    assert_eq!(w.bloom.len(), 8 + 8);
    let seg = Segment::open(40, &w).unwrap();
    for (k, v) in &entries {
        assert_eq!(seg.get_raw(k), Some(v.clone()));
    }
}

#[test]
fn merge_sizes_bloom_from_input_lengths() {
    let a = build(41, &vec![kv("a", "1"), kv("b", "2"), kv("c", "3")]);
    let b = build(42, &vec![kv("b", "20"), kv("d", "4")]);
    match Segment::merge(vec![b, a]).unwrap() {
        Some(Merged::Written { uuid, files }) => {
            assert_eq!(files.bloom.len(), 8 + 5 + 1 + 8);
            assert_eq!((uuid >> 76) & 0xf, 4);
            assert_eq!((uuid >> 62) & 0x3, 2);
        }
        _ => panic!("expected a written segment"),
    }
}

#[test]
fn merge_single_is_unchanged() {
    let a = build(12, &sample());
    match Segment::merge(vec![a]).unwrap() {
        Some(Merged::Unchanged(s)) => {
            assert_eq!(s.uuid(), 12);
            assert_eq!(s.iter_raw(), sample());
        }
        _ => panic!("expected the segment back"),
    }
}

#[test]
fn merge_nothing_is_none() {
    assert!(Segment::merge(Vec::new()).unwrap().is_none());
}

#[test]
fn merge_three_way_priorities() {
    let s1 = build(20, &vec![kv("k", "first")]);
    let s2 = build(21, &vec![kv("j", "x"), kv("k", "second")]);
    let s3 = build(22, &vec![kv("k", "third"), kv("l", "y")]);
    match Segment::merge(vec![s1, s2, s3]).unwrap() {
        Some(Merged::Written { uuid, files }) => {
            let m = Segment::open(uuid, &files).unwrap();
            assert_eq!(m.iter_raw(), vec![kv("j", "x"), kv("k", "first"), kv("l", "y")]);
        }
        _ => panic!("expected a written segment"),
    }
}

#[test]
fn merge_sorted_lists() {
    let inputs = vec![
        vec![kv("b", "new")],
        vec![kv("a", "1"), kv("b", "old"), kv("c", "3")],
        Vec::new(),
    ];
    assert_eq!(merge_sorted(&inputs), vec![kv("a", "1"), kv("b", "new"), kv("c", "3")]);
}

#[test]
fn open_twice_agrees() {
    let files = write(&sample());
    let a = Segment::open(30, &files).unwrap();
    let b = Segment::open(30, &files).unwrap();
    assert_eq!(a.iter_raw(), b.iter_raw());
    assert_eq!(a.get_raw(b"cherry"), b.get_raw(b"cherry"));
    assert_eq!(
        a.range_raw(&Bound::Unbounded, &Bound::Unbounded),
        b.range_raw(&Bound::Unbounded, &Bound::Unbounded)
    );
}

#[test]
fn corrupt_bloom_is_rejected() {
    let mut files = write(&sample());
    files.bloom.truncate(8);
    assert_eq!(Segment::open(1, &files).err(), Some(SegmentError::Bloom));
}

#[test]
fn corrupt_blob_index_is_rejected() {
    let mut files = write(&sample());
    files.blob_index.pop();
    assert_eq!(Segment::open(1, &files).err(), Some(SegmentError::BlobIndex));
}

#[test]
fn corrupt_key_index_is_rejected() {
    let mut files = write(&sample());
    files.id_index.pop();
    assert_eq!(Segment::open(1, &files).err(), Some(SegmentError::KeyIndex));
}

#[test]
fn unsorted_key_index_is_rejected() {
    let a = write(&vec![kv("b", "1")]);
    let b = write(&vec![kv("a", "1")]);
    let mut id_index = a.id_index.clone();
    id_index.extend_from_slice(&b.id_index);
    let files = Writers { id_index, blob_index: a.blob_index, store: a.store, bloom: a.bloom };
    assert_eq!(Segment::open(1, &files).err(), Some(SegmentError::KeyIndex));
}

#[test]
fn truncated_store_is_rejected() {
    let mut files = write(&sample());
    files.store.truncate(10);
    assert_eq!(Segment::open(1, &files).err(), Some(SegmentError::Store));
}

#[test]
fn mismatched_parts_are_rejected() {
    let a = write(&sample());
    let b = write(&vec![kv("x", "1")]);
    let files = Writers { id_index: b.id_index, blob_index: a.blob_index, store: a.store, bloom: a.bloom };
    assert_eq!(Segment::open(1, &files).err(), Some(SegmentError::Mismatch));
}

#[test]
fn bloom_has_no_false_negatives() {
    let mut f = BloomFilter::new(10);
    let keys: Vec<Vec<u8>> = (0..200u32).map(|i| format!("key{}", i).into_bytes()).collect();
    for k in &keys {
        f.insert(k);
    }
    for k in &keys {
        assert!(f.contains(k));
    }
}

#[test]
fn bloom_round_trips_through_bytes() {
    let mut f = BloomFilter::new(4);
    f.insert(b"alpha");
    f.insert(b"beta");
    let bytes = f.to_bytes();
    assert_eq!(bytes.len(), 8 + 4 + 0 + 8);
    assert_eq!(&bytes[0..8], &7u64.to_le_bytes());
    let g = BloomFilter::from_bytes(&bytes).unwrap();
    assert!(g.contains(b"alpha"));
    assert!(g.contains(b"beta"));
    let mut bad = bytes.clone();
    bad[0] = 0;
    assert_eq!(BloomFilter::from_bytes(&bad).err(), Some(SegmentError::Bloom));
}

#[test]
fn bloom_of_empty_filter_reports_little() {
    let f = BloomFilter::new(100);
    assert!(!f.contains(b"anything"));
}

#[test]
fn key_order_is_bytewise() {
    assert_eq!(compare_keys(b"a", b"b"), -1);
    assert_eq!(compare_keys(b"b", b"a"), 1);
    assert_eq!(compare_keys(b"ab", b"ab"), 0);
    assert_eq!(compare_keys(b"ab", b"abc"), -1);
    assert_eq!(compare_keys(b"", b"a"), -1);
    assert_eq!(compare_keys(b"\xff", b"a"), 1);
}

#[test]
fn file_names_use_hyphenated_uuid() {
    let id: u128 = 0x67e55044_10b1_426f_9247_bb680e5fe0c8;
    assert_eq!(Segment::bloom_file_name(id), "67e55044-10b1-426f-9247-bb680e5fe0c8.blm");
    assert_eq!(Segment::id_index_file_name(id), "67e55044-10b1-426f-9247-bb680e5fe0c8.ids");
    assert_eq!(Segment::blob_index_file_name(id), "67e55044-10b1-426f-9247-bb680e5fe0c8.ptr");
    assert_eq!(Segment::store_file_name(id), "67e55044-10b1-426f-9247-bb680e5fe0c8.blb");
    assert_eq!(Segment::bloom_file_name(0), "00000000-0000-0000-0000-000000000000.blm");
}
