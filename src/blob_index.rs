//! The blob index: a dense array from id to blob-store pointer. An id is the
//! position of its pointer. Each pointer is stored as its offset and its
//! length, eight little-endian bytes each.
use crate::blob_store::Pointer;
use vstd::bytes::*;
use vstd::prelude::*;
use vstd::slice::slice_subrange;

verus! {

/// The stored form of a pointer.
pub open spec fn pointer_bytes(p: Pointer) -> Seq<u8> {
    spec_u64_to_le_bytes(p.offset) + spec_u64_to_le_bytes(p.len)
}

/// The stored form of a sequence of pointers.
pub open spec fn pointers_encoding(s: Seq<Pointer>) -> Seq<u8>
    decreases s.len(),
{
    if s.len() == 0 {
        Seq::empty()
    } else {
        pointers_encoding(s.drop_last()) + pointer_bytes(s.last())
    }
}

/// The pointer stored at slot `i` of `b`.
pub open spec fn pointer_in(b: Seq<u8>, i: int) -> Pointer {
    Pointer {
        offset: spec_u64_from_le_bytes(b.subrange(16 * i, 16 * i + 8)),
        len: spec_u64_from_le_bytes(b.subrange(16 * i + 8, 16 * i + 16)),
    }
}

/// The pointers stored in `b`, a whole number of slots long.
pub open spec fn pointers_decoding(b: Seq<u8>) -> Seq<Pointer> {
    Seq::new((b.len() / 16) as nat, |i: int| pointer_in(b, i))
}

proof fn lemma_encoding_slots(s: Seq<Pointer>)
    ensures
        pointers_encoding(s).len() == 16 * s.len(),
        forall|i: int|
            0 <= i < s.len() ==> #[trigger] pointer_in(pointers_encoding(s), i) == s[i],
    decreases s.len(),
{
    lemma_auto_spec_u64_to_from_le_bytes();
    if s.len() > 0 {
        let t = s.drop_last();
        lemma_encoding_slots(t);
        let e = pointers_encoding(s);
        let et = pointers_encoding(t);
        assert forall|i: int| 0 <= i < s.len() implies #[trigger] pointer_in(e, i) == s[i] by {
            if i < t.len() {
                assert(e.subrange(16 * i, 16 * i + 8) =~= et.subrange(16 * i, 16 * i + 8));
                assert(e.subrange(16 * i + 8, 16 * i + 16) =~= et.subrange(16 * i + 8, 16 * i + 16));
                assert(pointer_in(et, i) == t[i]);
            } else {
                assert(e.subrange(16 * i, 16 * i + 8) =~= spec_u64_to_le_bytes(s.last().offset));
                assert(e.subrange(16 * i + 8, 16 * i + 16) =~= spec_u64_to_le_bytes(s.last().len));
            }
        }
    }
}

/// Reading back the stored form of a sequence of pointers gives the sequence.
pub proof fn lemma_pointers_round_trip(s: Seq<Pointer>)
    ensures
        pointers_encoding(s).len() % 16 == 0,
        pointers_decoding(pointers_encoding(s)) == s,
{
    lemma_encoding_slots(s);
    assert(pointers_decoding(pointers_encoding(s)) =~= s);
}

pub struct BlobIndex {
    pointers: Vec<Pointer>,
}

impl View for BlobIndex {
    type V = Seq<Pointer>;

    closed spec fn view(&self) -> Seq<Pointer> {
        self.pointers@
    }
}

impl BlobIndex {
    /// An empty index.
    pub fn new() -> (r: Self)
        ensures
            r@ == Seq::<Pointer>::empty(),
    {
        BlobIndex { pointers: Vec::new() }
    }

    /// Appends a pointer and returns its id, the next position.
    pub fn append(&mut self, p: Pointer) -> (id: u64)
        requires
            old(self)@.len() < u64::MAX,
        ensures
            final(self)@ == old(self)@.push(p),
            id == old(self)@.len(),
    {
        let id = self.pointers.len() as u64;
        self.pointers.push(p);
        id
    }

    /// The pointer of id `id`.
    pub fn get(&self, id: u64) -> (p: Pointer)
        requires
            id < self@.len(),
        ensures
            p == self@[id as int],
    {
        let n = self.pointers.len();
        assert(id < n);
        self.pointers[id as usize]
    }

    pub fn len(&self) -> (n: usize)
        ensures
            n == self@.len(),
    {
        self.pointers.len()
    }

    /// Writes the index in its stored form.
    pub fn to_bytes(&self) -> (r: Vec<u8>)
        ensures
            r@ == pointers_encoding(self@),
    {
        let mut out: Vec<u8> = Vec::new();
        let mut i: usize = 0;
        while i < self.pointers.len()
            invariant
                i <= self@.len(),
                out@ == pointers_encoding(self@.subrange(0, i as int)),
            decreases self.pointers.len() - i,
        {
            let p = self.pointers[i];
            let a = u64_to_le_bytes(p.offset);
            let b = u64_to_le_bytes(p.len);
            out.append(&mut a.clone());
            out.append(&mut b.clone());
            assert(self@.subrange(0, i + 1).drop_last() =~= self@.subrange(0, i as int));
            i = i + 1;
            assert(out@ =~= pointers_encoding(self@.subrange(0, i as int)));
        }
        assert(self@.subrange(0, i as int) =~= self@);
        out
    }

    /// Reads an index from its stored form. Fails exactly when the length is
    /// not a whole number of pointers.
    pub fn from_bytes(b: &[u8]) -> (r: Result<Self, crate::SegmentError>)
        ensures
            r is Ok <==> b@.len() % 16 == 0,
            r matches Ok(x) ==> x@ == pointers_decoding(b@),
            r matches Err(e) ==> e == crate::SegmentError::BlobIndex,
    {
        if b.len() % 16 != 0 {
            return Err(crate::SegmentError::BlobIndex);
        }
        let blen = b.len();
        let n = blen / 16;
        let mut pointers: Vec<Pointer> = Vec::new();
        let mut i: usize = 0;
        while i < n
            invariant
                n == b@.len() / 16,
                b@.len() % 16 == 0,
                b@.len() <= usize::MAX,
                i <= n,
                pointers@ =~= pointers_decoding(b@).subrange(0, i as int),
            decreases n - i,
        {
            assert(16 * i + 16 <= b@.len()) by (nonlinear_arith)
                requires
                    i < n,
                    n == b@.len() / 16,
            ;
            let offset = u64_from_le_bytes(slice_subrange(b, 16 * i, 16 * i + 8));
            let len = u64_from_le_bytes(slice_subrange(b, 16 * i + 8, 16 * i + 16));
            pointers.push(Pointer { offset, len });
            i = i + 1;
        }
        Ok(BlobIndex { pointers })
    }
}

} // verus!
