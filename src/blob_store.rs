//! The blob store: an append-only sequence of (key, value) records.
//!
//! A record is the key's length as eight little-endian bytes, then the key,
//! then the value. A pointer gives the record's offset and total length.
use vstd::bytes::*;
use vstd::prelude::*;
use vstd::slice::slice_subrange;

verus! {

/// Where a record lies in the blob store.
#[derive(Debug, Clone, Copy, PartialEq, Eq, Structural)]
pub struct Pointer {
    pub offset: u64,
    pub len: u64,
}

/// The bytes of one record.
pub open spec fn record_bytes(key: Seq<u8>, value: Seq<u8>) -> Seq<u8> {
    spec_u64_to_le_bytes(key.len() as u64) + key + value
}

/// The record that `p` locates in `store`, if `p` locates a well-formed one.
pub open spec fn record_at(store: Seq<u8>, p: Pointer) -> Option<(Seq<u8>, Seq<u8>)> {
    let start = p.offset as int;
    let end = p.offset + p.len;
    if end > store.len() || p.len < 8 {
        None
    } else {
        let key_len = spec_u64_from_le_bytes(store.subrange(start, start + 8)) as int;
        if key_len > p.len - 8 {
            None
        } else {
            Some(
                (
                    store.subrange(start + 8, start + 8 + key_len),
                    store.subrange(start + 8 + key_len, end),
                ),
            )
        }
    }
}

/// Appending to the store leaves every record that was readable before as it was.
pub proof fn lemma_record_at_extend(store: Seq<u8>, extra: Seq<u8>, p: Pointer)
    requires
        record_at(store, p) is Some,
    ensures
        record_at(store + extra, p) == record_at(store, p),
{
    let s2 = store + extra;
    let start = p.offset as int;
    assert(s2.subrange(start, start + 8) =~= store.subrange(start, start + 8));
    let key_len = spec_u64_from_le_bytes(store.subrange(start, start + 8)) as int;
    assert(s2.subrange(start + 8, start + 8 + key_len) =~= store.subrange(
        start + 8,
        start + 8 + key_len,
    ));
    assert(s2.subrange(start + 8 + key_len, p.offset + p.len) =~= store.subrange(
        start + 8 + key_len,
        p.offset + p.len,
    ));
}

/// A record appended at the end of the store is read back as written.
pub proof fn lemma_record_at_append(store: Seq<u8>, key: Seq<u8>, value: Seq<u8>)
    requires
        store.len() + record_bytes(key, value).len() <= u64::MAX,
    ensures
        record_at(
            store + record_bytes(key, value),
            Pointer { offset: store.len() as u64, len: record_bytes(key, value).len() as u64 },
        ) == Some((key, value)),
{
    lemma_auto_spec_u64_to_from_le_bytes();
    let s2 = store + record_bytes(key, value);
    let start = store.len() as int;
    assert(s2.subrange(start, start + 8) =~= spec_u64_to_le_bytes(key.len() as u64));
    assert(s2.subrange(start + 8, start + 8 + key.len()) =~= key);
    assert(s2.subrange(start + 8 + key.len(), s2.len() as int) =~= value);
}

pub struct BlobStore {
    bytes: Vec<u8>,
}

impl View for BlobStore {
    type V = Seq<u8>;

    closed spec fn view(&self) -> Seq<u8> {
        self.bytes@
    }
}

fn append_all(out: &mut Vec<u8>, src: &[u8])
    ensures
        final(out)@ == old(out)@ + src@,
{
    let mut i: usize = 0;
    while i < src.len()
        invariant
            i <= src@.len(),
            out@ == old(out)@ + src@.subrange(0, i as int),
        decreases src.len() - i,
    {
        out.push(src[i]);
        i = i + 1;
        assert(out@ =~= old(out)@ + src@.subrange(0, i as int));
    }
    assert(src@.subrange(0, i as int) =~= src@);
}

/// Copies `src[start..end]`.
pub fn copy_range(src: &[u8], start: usize, end: usize) -> (r: Vec<u8>)
    requires
        start <= end <= src@.len(),
    ensures
        r@ == src@.subrange(start as int, end as int),
{
    let mut out: Vec<u8> = Vec::new();
    append_all(&mut out, slice_subrange(src, start, end));
    out
}

impl BlobStore {
    /// An empty store.
    pub fn new() -> (r: Self)
        ensures
            r@ == Seq::<u8>::empty(),
    {
        BlobStore { bytes: Vec::new() }
    }

    /// A store holding `bytes`, as read back from disk.
    pub fn from_bytes(bytes: Vec<u8>) -> (r: Self)
        ensures
            r@ == bytes@,
    {
        BlobStore { bytes }
    }

    /// The store's bytes.
    pub fn as_bytes(&self) -> (r: &[u8])
        ensures
            r@ == self@,
    {
        self.bytes.as_slice()
    }

    /// Appends a record and returns its pointer.
    pub fn write(&mut self, key: &[u8], value: &[u8]) -> (p: Pointer)
        requires
            old(self)@.len() + record_bytes(key@, value@).len() <= usize::MAX,
        ensures
            final(self)@ == old(self)@ + record_bytes(key@, value@),
            p == (Pointer {
                offset: old(self)@.len() as u64,
                len: record_bytes(key@, value@).len() as u64,
            }),
            record_at(final(self)@, p) == Some((key@, value@)),
    {
        proof {
            lemma_auto_spec_u64_to_from_le_bytes();
            lemma_record_at_append(self@, key@, value@);
        }
        let offset = self.bytes.len() as u64;
        let header = u64_to_le_bytes(key.len() as u64);
        append_all(&mut self.bytes, header.as_slice());
        append_all(&mut self.bytes, key);
        append_all(&mut self.bytes, value);
        assert(self@ =~= old(self)@ + record_bytes(key@, value@));
        Pointer { offset, len: (8 + key.len() + value.len()) as u64 }
    }

    /// Reads the record at `p`. Fails exactly when `p` does not locate a
    /// well-formed record.
    pub fn read(&self, p: Pointer) -> (r: Result<(Vec<u8>, Vec<u8>), crate::SegmentError>)
        ensures
            r matches Ok((k, v)) ==> record_at(self@, p) == Some((k@, v@)),
            r is Err <==> record_at(self@, p) is None,
            r matches Err(e) ==> e == crate::SegmentError::Store,
    {
        let n = self.bytes.len();
        if p.offset as u128 + p.len as u128 > n as u128 || p.len < 8 {
            return Err(crate::SegmentError::Store);
        }
        let start = p.offset as usize;
        let end = start + p.len as usize;
        let key_len = u64_from_le_bytes(slice_subrange(self.bytes.as_slice(), start, start + 8));
        if key_len > p.len - 8 {
            return Err(crate::SegmentError::Store);
        }
        let key_end = start + 8 + key_len as usize;
        let key = copy_range(self.bytes.as_slice(), start + 8, key_end);
        let value = copy_range(self.bytes.as_slice(), key_end, end);
        Ok((key, value))
    }
}

} // verus!
