//! A bloom filter over raw key bytes: a membership test that may report a key
//! that was never inserted, but never misses one that was.
use vstd::bytes::*;
use vstd::prelude::*;
use vstd::slice::slice_subrange;

verus! {

/// The number of probes per key, fit for a false-positive rate of 1%.
pub const NUM_HASHES: u64 = 7;

/// The largest number of probes a stored filter may ask for.
pub const MAX_HASHES: u64 = 64;

/// FNV-1a offset basis.
pub const FNV_OFFSET: u64 = 0xcbf29ce484222325;

/// FNV-1a prime.
pub const FNV_PRIME: u64 = 0x100000001b3;

/// One FNV-1a step.
pub open spec fn fnv_step(h: u64, b: u8) -> u64 {
    ((h ^ (b as u64)) as int * FNV_PRIME as int % 0x1_0000_0000_0000_0000) as u64
}

/// FNV-1a over `key`, starting from a basis that depends on the probe number.
pub open spec fn probe_hash(seed: u64, key: Seq<u8>) -> u64
    decreases key.len(),
{
    if key.len() == 0 {
        FNV_OFFSET ^ seed
    } else {
        fnv_step(probe_hash(seed, key.drop_last()), key.last())
    }
}

/// The bit that probe `i` of `key` looks at, in a filter of `num_bits` bits.
pub open spec fn probe_bit(key: Seq<u8>, i: u64, num_bits: nat) -> nat
    recommends
        num_bits > 0,
{
    (probe_hash(i, key) as nat) % num_bits
}

/// Bit `pos` of the buffer, least significant bit first in each byte.
pub open spec fn bit_at(bits: Seq<u8>, pos: nat) -> bool {
    (bits[(pos / 8) as int] >> ((pos % 8) as u8)) & 1u8 == 1u8
}

/// All the probes of `key` find their bit set.
pub open spec fn probes_set(bits: Seq<u8>, num_hashes: u64, key: Seq<u8>) -> bool {
    forall|i: u64| i < num_hashes ==> #[trigger] bit_at(bits, probe_bit(key, i, bits.len() * 8))
}

pub struct BloomFilter {
    num_hashes: u64,
    bits: Vec<u8>,
    inserted: Ghost<Set<Seq<u8>>>,
}

proof fn lemma_set_bit(b: u8, s: u8, t: u8)
    requires
        s < 8,
        t < 8,
    ensures
        t == s ==> ((b | (1u8 << s)) >> t) & 1u8 == 1u8,
        t != s ==> ((b | (1u8 << s)) >> t) & 1u8 == (b >> t) & 1u8,
{
    assert(t == s ==> ((b | (1u8 << s)) >> t) & 1u8 == 1u8) by (bit_vector)
        requires
            s < 8,
            t < 8,
    ;
    assert(t != s ==> ((b | (1u8 << s)) >> t) & 1u8 == (b >> t) & 1u8) by (bit_vector)
        requires
            s < 8,
            t < 8,
    ;
}

/// FNV-1a over `key` for probe number `seed`.
fn hash_key(seed: u64, key: &[u8]) -> (h: u64)
    ensures
        h == probe_hash(seed, key@),
{
    let mut h: u64 = FNV_OFFSET ^ seed;
    let mut i: usize = 0;
    while i < key.len()
        invariant
            i <= key.len(),
            h == probe_hash(seed, key@.subrange(0, i as int)),
        decreases key.len() - i,
    {
        let prefix = Ghost(key@.subrange(0, i as int + 1));
        assert(prefix@.drop_last() =~= key@.subrange(0, i as int));
        h = (h ^ (key[i] as u64)).wrapping_mul(FNV_PRIME);
        i = i + 1;
    }
    assert(key@.subrange(0, i as int) =~= key@);
    h
}

impl BloomFilter {
    /// The filter is sound: every inserted key finds all its bits set.
    pub closed spec fn wf(&self) -> bool {
        &&& self.bits@.len() > 0
        &&& 1 <= self.num_hashes <= MAX_HASHES
        &&& self.bits@.len() * 8 <= usize::MAX
        &&& forall|k: Seq<u8>| #[trigger]
            self.inserted@.contains(k) ==> probes_set(self.bits@, self.num_hashes, k)
    }

    /// The keys inserted since this filter was made.
    pub closed spec fn inserted(&self) -> Set<Seq<u8>> {
        self.inserted@
    }

    /// What `contains` answers for `key`.
    pub closed spec fn spec_contains(&self, key: Seq<u8>) -> bool {
        probes_set(self.bits@, self.num_hashes, key)
    }

    /// The size in bytes of the bit buffer for `num_items` expected items.
    pub open spec fn buffer_len(num_items: usize) -> int {
        num_items + num_items / 5 + 8
    }

    /// Makes an empty filter sized for `num_items` keys at a 1% false-positive
    /// rate (about 9.6 bits per key, seven probes).
    pub fn new(num_items: usize) -> (r: Self)
        requires
            Self::buffer_len(num_items) * 8 <= usize::MAX,
        ensures
            r.wf(),
            r.inserted() == Set::<Seq<u8>>::empty(),
            r.num_probes() == NUM_HASHES,
            r.byte_len() == Self::buffer_len(num_items),
            r.encoding() == spec_u64_to_le_bytes(NUM_HASHES) + Seq::new(
                Self::buffer_len(num_items) as nat,
                |i: int| 0u8,
            ),
    {
        let len: usize = num_items + num_items / 5 + 8;
        let mut bits: Vec<u8> = Vec::new();
        let mut i: usize = 0;
        while i < len
            invariant
                i <= len,
                bits@.len() == i,
                forall|j: int| 0 <= j < i ==> #[trigger] bits@[j] == 0u8,
            decreases len - i,
        {
            bits.push(0u8);
            i = i + 1;
        }
        assert(bits@ =~= Seq::new(Self::buffer_len(num_items) as nat, |i: int| 0u8));
        BloomFilter { num_hashes: NUM_HASHES, bits, inserted: Ghost(Set::empty()) }
    }

    /// The number of probes per key.
    pub closed spec fn num_probes(&self) -> u64 {
        self.num_hashes
    }

    /// The size in bytes of the bit buffer.
    pub closed spec fn byte_len(&self) -> int {
        self.bits@.len() as int
    }

    /// The stored form is the probe count's eight bytes and the bit buffer.
    pub proof fn lemma_encoding_len(&self)
        ensures
            self.encoding().len() == 8 + self.byte_len(),
    {
        lemma_auto_spec_u64_to_from_le_bytes();
    }

    fn probe_position(&self, key: &[u8], i: u64) -> (pos: u64)
        requires
            self.wf(),
        ensures
            pos as nat == probe_bit(key@, i, self.bits@.len() * 8),
            pos < self.bits@.len() * 8,
            pos / 8 < self.bits@.len(),
    {
        let num_bits: u64 = self.bits.len() as u64 * 8;
        let pos = hash_key(i, key) % num_bits;
        assert(pos / 8 < self.bits@.len()) by (nonlinear_arith)
            requires
                pos < self.bits@.len() * 8,
        ;
        pos
    }

    /// No false negatives: every key inserted into a sound filter is
    /// reported present, however full the filter is.
    pub proof fn lemma_no_false_negatives(&self, key: Seq<u8>)
        requires
            self.wf(),
            self.inserted().contains(key),
        ensures
            self.spec_contains(key),
    {
    }

    /// The stored form: the probe count as eight little-endian bytes, then
    /// the bit buffer.
    pub closed spec fn encoding(&self) -> Seq<u8> {
        spec_u64_to_le_bytes(self.num_hashes) + self.bits@
    }

    /// `b` is the stored form of some filter.
    pub open spec fn valid_encoding(b: Seq<u8>) -> bool {
        &&& b.len() > 8
        &&& (b.len() - 8) * 8 <= usize::MAX
        &&& 1 <= spec_u64_from_le_bytes(b.subrange(0, 8)) <= MAX_HASHES
    }

    /// Filters with the same stored form answer every query alike.
    pub proof fn lemma_same_encoding(a: &Self, b: &Self, key: Seq<u8>)
        requires
            a.encoding() == b.encoding(),
        ensures
            a.spec_contains(key) == b.spec_contains(key),
    {
        lemma_auto_spec_u64_to_from_le_bytes();
        let ea = a.encoding();
        assert(ea.subrange(0, 8) =~= spec_u64_to_le_bytes(a.num_hashes));
        assert(b.encoding().subrange(0, 8) =~= spec_u64_to_le_bytes(b.num_hashes));
        assert(ea.subrange(8, ea.len() as int) =~= a.bits@);
        assert(b.encoding().subrange(8, ea.len() as int) =~= b.bits@);
    }

    /// The stored form of a well-formed filter decodes.
    pub proof fn lemma_encoding_valid(&self)
        requires
            self.wf(),
        ensures
            Self::valid_encoding(self.encoding()),
    {
        lemma_auto_spec_u64_to_from_le_bytes();
        assert(self.encoding().subrange(0, 8) =~= spec_u64_to_le_bytes(self.num_hashes));
    }

    /// Writes the filter in its stored form.
    pub fn to_bytes(&self) -> (r: Vec<u8>)
        ensures
            r@ == self.encoding(),
    {
        let mut out = u64_to_le_bytes(self.num_hashes);
        let mut i: usize = 0;
        while i < self.bits.len()
            invariant
                i <= self.bits@.len(),
                out@ == spec_u64_to_le_bytes(self.num_hashes) + self.bits@.subrange(0, i as int),
            decreases self.bits.len() - i,
        {
            out.push(self.bits[i]);
            i = i + 1;
            assert(out@ =~= spec_u64_to_le_bytes(self.num_hashes) + self.bits@.subrange(0, i as int));
        }
        assert(self.bits@.subrange(0, i as int) =~= self.bits@);
        out
    }

    /// Reads a filter from its stored form. Fails exactly when `b` is not the
    /// stored form of a filter.
    pub fn from_bytes(b: &[u8]) -> (r: Result<Self, crate::SegmentError>)
        ensures
            r is Ok <==> Self::valid_encoding(b@),
            r matches Ok(f) ==> f.wf() && f.encoding() == b@ && f.inserted().is_empty(),
            r matches Err(e) ==> e == crate::SegmentError::Bloom,
    {
        if b.len() <= 8 || (b.len() - 8) > usize::MAX / 8 {
            return Err(crate::SegmentError::Bloom);
        }
        let num_hashes = u64_from_le_bytes(slice_subrange(b, 0, 8));
        if num_hashes < 1 || num_hashes > MAX_HASHES {
            return Err(crate::SegmentError::Bloom);
        }
        let mut bits: Vec<u8> = Vec::new();
        let mut i: usize = 8;
        while i < b.len()
            invariant
                8 <= i <= b@.len(),
                bits@ == b@.subrange(8, i as int),
            decreases b.len() - i,
        {
            bits.push(b[i]);
            i = i + 1;
            assert(bits@ =~= b@.subrange(8, i as int));
        }
        let f = BloomFilter { num_hashes, bits, inserted: Ghost(Set::empty()) };
        proof {
            lemma_auto_spec_u64_to_from_le_bytes();
            assert(b@.subrange(0, 8) + b@.subrange(8, b@.len() as int) =~= b@);
            assert(spec_u64_to_le_bytes(num_hashes) == b@.subrange(0, 8));
        }
        Ok(f)
    }

    /// Adds `key` to the set.
    pub fn insert(&mut self, key: &[u8])
        requires
            old(self).wf(),
        ensures
            final(self).wf(),
            final(self).inserted() == old(self).inserted().insert(key@),
            final(self).num_probes() == old(self).num_probes(),
            final(self).byte_len() == old(self).byte_len(),
    {
        let ghost nbits = self.bits@.len() * 8;
        let mut i: u64 = 0;
        while i < self.num_hashes
            invariant
                self.wf(),
                self.inserted@ == old(self).inserted@,
                self.num_hashes == old(self).num_hashes,
                self.bits@.len() == old(self).bits@.len(),
                nbits == self.bits@.len() * 8,
                forall|j: u64| j < i ==> #[trigger] bit_at(self.bits@, probe_bit(key@, j, nbits)),
            decreases self.num_hashes - i,
        {
            let pos = self.probe_position(key, i);
            let byte: usize = (pos / 8) as usize;
            let shift: u8 = (pos % 8) as u8;
            let ghost before = self.bits@;
            let b = self.bits[byte];
            self.bits.set(byte, b | (1u8 << shift));
            proof {
                assert forall|p: nat| p < nbits && #[trigger] bit_at(before, p) implies bit_at(
                    self.bits@,
                    p,
                ) by {
                    if p / 8 == byte {
                        lemma_set_bit(b, shift, (p % 8) as u8);
                    }
                }
                lemma_set_bit(b, shift, shift);
                assert(bit_at(self.bits@, pos as nat));
                assert forall|k: Seq<u8>| #[trigger]
                    self.inserted@.contains(k) implies probes_set(self.bits@, self.num_hashes, k) by {
                    assert forall|j: u64| j < self.num_hashes implies #[trigger] bit_at(
                        self.bits@,
                        probe_bit(k, j, nbits),
                    ) by {
                        assert(bit_at(before, probe_bit(k, j, nbits)));
                    }
                }
                assert forall|j: u64| j < i + 1 implies #[trigger] bit_at(
                    self.bits@,
                    probe_bit(key@, j, nbits),
                ) by {
                    if j < i {
                        assert(bit_at(before, probe_bit(key@, j, nbits)));
                    }
                }
            }
            i = i + 1;
        }
        self.inserted = Ghost(self.inserted@.insert(key@));
    }

    /// Tests whether `key` may have been inserted. A key that was inserted is
    /// always reported.
    pub fn contains(&self, key: &[u8]) -> (r: bool)
        requires
            self.wf(),
        ensures
            r == self.spec_contains(key@),
            self.inserted().contains(key@) ==> r,
    {
        let ghost nbits = self.bits@.len() * 8;
        let mut i: u64 = 0;
        while i < self.num_hashes
            invariant
                self.wf(),
                nbits == self.bits@.len() * 8,
                forall|j: u64| j < i ==> #[trigger] bit_at(self.bits@, probe_bit(key@, j, nbits)),
            decreases self.num_hashes - i,
        {
            let pos = self.probe_position(key, i);
            let b = self.bits[(pos / 8) as usize];
            if (b >> ((pos % 8) as u8)) & 1u8 != 1u8 {
                assert(!bit_at(self.bits@, probe_bit(key@, i, nbits)));
                return false;
            }
            i = i + 1;
        }
        true
    }
}

} // verus!
