//! The k-way merge of sorted entry lists, keeping for each key the value of
//! the earliest list that holds it.
use crate::blob_store::copy_range;
use crate::keys::{compare_keys, key_lt, keys_ascending, lemma_key_lt_irreflexive, lemma_key_lt_total, lemma_key_lt_transitive};
use crate::bloom::BloomFilter;
use crate::segment::{lemma_value_of_absent, pairs_view, value_of, Segment, Writers};
use crate::blob_store::record_bytes;
use crate::writer::{lemma_store_prefix, store_encoding, written_form, SegmentWriter};
use vstd::prelude::*;

verus! {

/// The value of `key` in the earliest of `inputs[s..]` that holds it.
pub open spec fn newest_from(inputs: Seq<Seq<(Seq<u8>, Seq<u8>)>>, key: Seq<u8>, s: int) -> Option<Seq<u8>>
    decreases inputs.len() - s,
{
    if s < 0 || s >= inputs.len() {
        None
    } else {
        match value_of(inputs[s], key) {
            Some(v) => Some(v),
            None => newest_from(inputs, key, s + 1),
        }
    }
}

/// The value of `key` in the earliest list that holds it: earlier lists win.
pub open spec fn newest_value(inputs: Seq<Seq<(Seq<u8>, Seq<u8>)>>, key: Seq<u8>) -> Option<Seq<u8>> {
    newest_from(inputs, key, 0)
}

/// The view of a list of owned entry lists.
pub open spec fn inputs_view(v: Seq<Vec<(Vec<u8>, Vec<u8>)>>) -> Seq<Seq<(Seq<u8>, Seq<u8>)>> {
    Seq::new(v.len(), |s: int| pairs_view(v[s]@))
}

/// Every list has strictly ascending keys.
pub open spec fn all_ascending(inputs: Seq<Seq<(Seq<u8>, Seq<u8>)>>) -> bool {
    forall|s: int| 0 <= s < inputs.len() ==> #[trigger] keys_ascending(inputs[s])
}

/// The first `pos[s]` entries of each list.
pub open spec fn prefixes(inputs: Seq<Seq<(Seq<u8>, Seq<u8>)>>, pos: Seq<usize>) -> Seq<Seq<(Seq<u8>, Seq<u8>)>> {
    Seq::new(inputs.len(), |s: int| inputs[s].take(pos[s] as int))
}

/// The entries not yet taken from the first `k` lists.
pub open spec fn remaining(inputs: Seq<Seq<(Seq<u8>, Seq<u8>)>>, pos: Seq<usize>, k: int) -> int
    decreases k,
{
    if k <= 0 {
        0
    } else {
        remaining(inputs, pos, k - 1) + (inputs[k - 1].len() - pos[k - 1])
    }
}

proof fn lemma_remaining_decreases(inputs: Seq<Seq<(Seq<u8>, Seq<u8>)>>, a: Seq<usize>, b: Seq<usize>, idx: int, k: int)
    requires
        0 <= k <= inputs.len(),
        a.len() == inputs.len(),
        b.len() == inputs.len(),
        forall|s: int| 0 <= s < inputs.len() ==> a[s] <= #[trigger] b[s],
        0 <= idx < inputs.len(),
        a[idx] < b[idx],
    ensures
        remaining(inputs, b, k) <= remaining(inputs, a, k),
        k > idx ==> remaining(inputs, b, k) < remaining(inputs, a, k),
    decreases k,
{
    if k > 0 {
        lemma_remaining_decreases(inputs, a, b, idx, k - 1);
    }
}

proof fn lemma_remaining_nonneg(inputs: Seq<Seq<(Seq<u8>, Seq<u8>)>>, pos: Seq<usize>, k: int)
    requires
        0 <= k <= inputs.len(),
        pos.len() == inputs.len(),
        forall|s: int| 0 <= s < inputs.len() ==> #[trigger] pos[s] <= inputs[s].len(),
    ensures
        remaining(inputs, pos, k) >= 0,
    decreases k,
{
    if k > 0 {
        lemma_remaining_nonneg(inputs, pos, k - 1);
    }
}

/// The earliest list holding the key decides it.
proof fn lemma_newest_first(inputs: Seq<Seq<(Seq<u8>, Seq<u8>)>>, key: Seq<u8>, idx: int, v: Seq<u8>, s: int)
    requires
        0 <= s <= idx < inputs.len(),
        forall|t: int| 0 <= t < idx ==> (#[trigger] value_of(inputs[t], key)) is None,
        value_of(inputs[idx], key) == Some(v),
    ensures
        newest_from(inputs, key, s) == Some(v),
    decreases idx - s,
{
    if s < idx {
        lemma_newest_first(inputs, key, idx, v, s + 1);
    }
}

/// Lists that agree on a key give it the same newest value.
proof fn lemma_newest_agree(a: Seq<Seq<(Seq<u8>, Seq<u8>)>>, b: Seq<Seq<(Seq<u8>, Seq<u8>)>>, key: Seq<u8>, s: int)
    requires
        a.len() == b.len(),
        0 <= s,
        forall|t: int| 0 <= t < a.len() ==> #[trigger] value_of(a[t], key) == value_of(b[t], key),
    ensures
        newest_from(a, key, s) == newest_from(b, key, s),
    decreases a.len() - s,
{
    if s < a.len() {
        lemma_newest_agree(a, b, key, s + 1);
    }
}

/// Merges lists whose keys are each strictly ascending into one list with
/// strictly ascending keys that holds every key of the inputs once, with the
/// value of the earliest list that holds it.
pub fn merge_sorted(inputs: &Vec<Vec<(Vec<u8>, Vec<u8>)>>) -> (r: Vec<(Vec<u8>, Vec<u8>)>)
    requires
        all_ascending(inputs_view(inputs@)),
    ensures
        keys_ascending(pairs_view(r@)),
        forall|key: Seq<u8>| #[trigger] value_of(pairs_view(r@), key) == newest_value(inputs_view(inputs@), key),
{
    let ghost ins = inputs_view(inputs@);
    let k = inputs.len();
    let mut pos: Vec<usize> = Vec::new();
    let mut i: usize = 0;
    while i < k
        invariant
            k == inputs@.len(),
            i <= k,
            pos@.len() == i,
            forall|s: int| 0 <= s < i ==> #[trigger] pos@[s] == 0,
        decreases k - i,
    {
        pos.push(0);
        i = i + 1;
    }
    let mut out: Vec<(Vec<u8>, Vec<u8>)> = Vec::new();
    proof {
        assert forall|key: Seq<u8>| #[trigger] value_of(pairs_view(out@), key) == newest_value(prefixes(ins, pos@), key) by {
            assert forall|t: int| 0 <= t < k implies (#[trigger] value_of(prefixes(ins, pos@)[t], key)) is None by {
                assert(prefixes(ins, pos@)[t].len() == 0);
            }
            lemma_newest_none(prefixes(ins, pos@), key, 0);
        }
    }
    loop
        invariant
            k == inputs@.len(),
            ins == inputs_view(inputs@),
            all_ascending(ins),
            pos@.len() == k,
            forall|s: int| 0 <= s < k ==> #[trigger] pos@[s] <= ins[s].len(),
            keys_ascending(pairs_view(out@)),
            forall|key: Seq<u8>| #[trigger] value_of(pairs_view(out@), key) == newest_value(prefixes(ins, pos@), key),
            // what is left comes after what was emitted
            forall|s: int, j: int| 0 <= s < k && pos@[s] <= j < ins[s].len() && out@.len() > 0 ==>
                key_lt(pairs_view(out@).last().0, #[trigger] ins[s][j].0),
            // what was taken was emitted up to the last key
            forall|s: int| 0 <= s < k && 0 < #[trigger] pos@[s] ==> out@.len() > 0,
            forall|s: int, j: int| 0 <= s < k && 0 <= j < pos@[s] ==>
                !key_lt(pairs_view(out@).last().0, #[trigger] ins[s][j].0),
        ensures
            pos@.len() == k,
            forall|s: int| 0 <= s < k ==> #[trigger] pos@[s] == ins[s].len(),
            keys_ascending(pairs_view(out@)),
            forall|key: Seq<u8>| #[trigger] value_of(pairs_view(out@), key) == newest_value(prefixes(ins, pos@), key),
        decreases remaining(ins, pos@, k as int),
    {
        let ghost pos0 = pos@;
        let ghost before = pairs_view(out@);
        assert(forall|s: int| 0 <= s < k && 0 < #[trigger] pos0[s] ==> before.len() > 0);
        assert(forall|s: int, j: int| 0 <= s < k && 0 <= j < pos0[s] ==>
            !key_lt(before.last().0, #[trigger] ins[s][j].0));
        assert(forall|s: int, j: int| 0 <= s < k && pos0[s] <= j < ins[s].len() && before.len() > 0 ==>
            key_lt(before.last().0, #[trigger] ins[s][j].0));
        assert(forall|key: Seq<u8>| #[trigger] value_of(before, key) == newest_value(prefixes(ins, pos0), key));
        assert(keys_ascending(before));
        // find the least head, the earliest list on ties
        let mut best: usize = k;
        let mut s: usize = 0;
        while s < k
            invariant
                k == inputs@.len(),
                ins == inputs_view(inputs@),
                pos@.len() == k,
                forall|t: int| 0 <= t < k ==> #[trigger] pos@[t] <= ins[t].len(),
                s <= k,
                best == k || (best < s && pos@[best as int] < ins[best as int].len()),
                best == k ==> forall|t: int| 0 <= t < s ==> #[trigger] pos@[t] == ins[t].len(),
                best < k ==> forall|t: int| 0 <= t < s && pos@[t] < ins[t].len() ==>
                    !key_lt(#[trigger] ins[t][pos@[t] as int].0, ins[best as int][pos@[best as int] as int].0),
                best < k ==> forall|t: int| 0 <= t < best && pos@[t] < ins[t].len() ==>
                    key_lt(ins[best as int][pos@[best as int] as int].0, #[trigger] ins[t][pos@[t] as int].0),
            decreases k - s,
        {
            if pos[s] < inputs[s].len() {
                assert(ins[s as int][pos@[s as int] as int] == (inputs@[s as int]@[pos@[s as int] as int].0@, inputs@[s as int]@[pos@[s as int] as int].1@));
                proof {
                    lemma_key_lt_irreflexive(ins[s as int][pos@[s as int] as int].0);
                }
                if best == k {
                    best = s;
                } else {
                    assert(ins[best as int][pos@[best as int] as int] == (inputs@[best as int]@[pos@[best as int] as int].0@, inputs@[best as int]@[pos@[best as int] as int].1@));
                    let c = compare_keys(inputs[s][pos[s]].0.as_slice(), inputs[best][pos[best]].0.as_slice());
                    if c < 0 {
                        proof {
                            let hs = ins[s as int][pos@[s as int] as int].0;
                            let hb = ins[best as int][pos@[best as int] as int].0;
                            assert forall|t: int| 0 <= t < s && pos@[t] < ins[t].len() implies
                                key_lt(hs, #[trigger] ins[t][pos@[t] as int].0) by {
                                let ht = ins[t][pos@[t] as int].0;
                                lemma_key_lt_total(ht, hb);
                                if ht != hb {
                                    lemma_key_lt_transitive(hs, hb, ht);
                                }
                            }
                            assert forall|t: int| 0 <= t < s && pos@[t] < ins[t].len() implies
                                !key_lt(#[trigger] ins[t][pos@[t] as int].0, hs) by {
                                lemma_key_lt_total(hs, ins[t][pos@[t] as int].0);
                            }
                        }
                        best = s;
                    }
                }
            }
            s = s + 1;
        }
        if best == k {
            break;
        }
        let b = best;
        let ghost m = ins[b as int][pos@[b as int] as int].0;
        let ghost v = ins[b as int][pos@[b as int] as int].1;
        assert(forall|t: int| 0 <= t < b && pos0[t] < ins[t].len() ==> key_lt(m, #[trigger] ins[t][pos0[t] as int].0));
        assert(forall|t: int| 0 <= t < k && pos0[t] < ins[t].len() ==> !key_lt(#[trigger] ins[t][pos0[t] as int].0, m));
        let key = copy_range(inputs[b][pos[b]].0.as_slice(), 0, inputs[b][pos[b]].0.len());
        let value = copy_range(inputs[b][pos[b]].1.as_slice(), 0, inputs[b][pos[b]].1.len());
        proof {
            assert(ins[b as int][pos@[b as int] as int] == (inputs@[b as int]@[pos@[b as int] as int].0@, inputs@[b as int]@[pos@[b as int] as int].1@));
            assert(inputs@[b as int]@[pos@[b as int] as int].0@.subrange(0, m.len() as int) =~= m);
            assert(inputs@[b as int]@[pos@[b as int] as int].1@.subrange(0, v.len() as int) =~= v);
        }
        // advance every list whose head has the emitted key
        assert(pos@ == pos0);
        let mut t: usize = 0;
        while t < k
            invariant
                k == inputs@.len(),
                ins == inputs_view(inputs@),
                pos@.len() == k,
                t <= k,
                key@ == m,
                forall|u: int| t <= u < k ==> #[trigger] pos@[u] == pos0[u],
                forall|u: int| 0 <= u < t ==> #[trigger] pos@[u] as int == if pos0[u] < ins[u].len() && ins[u][pos0[u] as int].0 == m {
                    pos0[u] + 1
                } else {
                    pos0[u] as int
                },
                forall|u: int| 0 <= u < k ==> #[trigger] pos0[u] <= ins[u].len(),
            decreases k - t,
        {
            if pos[t] < inputs[t].len() {
                assert(ins[t as int][pos@[t as int] as int] == (inputs@[t as int]@[pos@[t as int] as int].0@, inputs@[t as int]@[pos@[t as int] as int].1@));
                if compare_keys(inputs[t][pos[t]].0.as_slice(), key.as_slice()) == 0 {
                    let p = pos[t] + 1;
                    pos.set(t, p);
                }
            }
            t = t + 1;
        }
        out.push((key, value));
        proof {
            let after = pairs_view(out@);
            assert(after =~= before.push((m, v)));
            lemma_key_lt_irreflexive(m);
            // the emitted key is the least head, and the first list with it is `b`
            assert forall|u: int| 0 <= u < k && pos0[u] < ins[u].len() implies
                (#[trigger] ins[u][pos0[u] as int].0 == m || key_lt(m, ins[u][pos0[u] as int].0)) by {
                lemma_key_lt_total(m, ins[u][pos0[u] as int].0);
            }
            // ascending output
            if before.len() > 0 {
                assert(key_lt(before.last().0, ins[b as int][pos0[b as int] as int].0));
            }
            assert forall|x: int, y: int| 0 <= x < y < after.len() implies #[trigger] key_lt(after[x].0, after[y].0) by {
                if y == after.len() - 1 && x < y {
                    if x < before.len() - 1 {
                        lemma_key_lt_transitive(before[x].0, before.last().0, m);
                    }
                } else {
                    assert(after[x] == before[x] && after[y] == before[y]);
                }
            }
            // what is left comes after m
            assert forall|s: int, j: int| 0 <= s < k && pos@[s] <= j < ins[s].len() && out@.len() > 0 implies
                key_lt(pairs_view(out@).last().0, #[trigger] ins[s][j].0) by {
                assert(keys_ascending(ins[s]));
                let h = ins[s][pos0[s] as int].0;
                assert(pos@[s] as int == if pos0[s] < ins[s].len() && ins[s][pos0[s] as int].0 == m {
                    pos0[s] + 1
                } else {
                    pos0[s] as int
                });
                if pos@[s] == pos0[s] + 1 {
                    assert(key_lt(h, ins[s][j].0));
                } else {
                    assert(h != m);
                    assert(key_lt(m, h));
                    if j > pos0[s] {
                        lemma_key_lt_transitive(m, h, ins[s][j].0);
                    }
                }
            }
            // what was taken is up to m
            assert forall|s: int, j: int| 0 <= s < k && 0 <= j < pos@[s] implies
                !key_lt(pairs_view(out@).last().0, #[trigger] ins[s][j].0) by {
                assert(pos@[s] as int == if pos0[s] < ins[s].len() && ins[s][pos0[s] as int].0 == m {
                    pos0[s] + 1
                } else {
                    pos0[s] as int
                });
                assert(pairs_view(out@).last().0 == m);
                if j < pos0[s] {
                    assert(0 < pos0[s]);
                    assert(before.len() > 0);
                    assert(key_lt(before.last().0, m));
                    assert(!key_lt(before.last().0, ins[s][j].0));
                    if key_lt(m, ins[s][j].0) {
                        lemma_key_lt_total(m, ins[s][j].0);
                        lemma_key_lt_total(before.last().0, ins[s][j].0);
                        if before.last().0 != ins[s][j].0 {
                            lemma_key_lt_transitive(before.last().0, m, ins[s][j].0);
                        }
                    }
                }
            }
            // values
            let pre0 = prefixes(ins, pos0);
            let pre1 = prefixes(ins, pos@);
            assert forall|u: int| 0 <= u < k implies #[trigger] pre1[u] == if pos@[u] == pos0[u] {
                pre0[u]
            } else {
                pre0[u].push(ins[u][pos0[u] as int])
            } by {
                if pos@[u] != pos0[u] {
                    assert(ins[u].take(pos@[u] as int) =~= ins[u].take(pos0[u] as int).push(ins[u][pos0[u] as int]));
                }
            }
            assert forall|key2: Seq<u8>| #[trigger] value_of(after, key2) == newest_value(pre1, key2) by {
                if key2 == m {
                    assert forall|u: int| 0 <= u < b implies (#[trigger] value_of(pre1[u], m)) is None by {
                        if pos0[u] < ins[u].len() {
                            assert(key_lt(m, ins[u][pos0[u] as int].0));
                        }
                        assert(pos@[u] as int == if pos0[u] < ins[u].len() && ins[u][pos0[u] as int].0 == m {
                            pos0[u] + 1
                        } else {
                            pos0[u] as int
                        });
                        assert(pre1[u] == pre0[u]);
                        assert forall|j: int| 0 <= j < pre0[u].len() implies #[trigger] pre0[u][j].0 != m by {
                            assert(pre0[u][j] == ins[u][j]);
                            if before.len() > 0 {
                                assert(!key_lt(before.last().0, ins[u][j].0));
                                assert(key_lt(before.last().0, m));
                            }
                        }
                        lemma_value_of_absent(pre0[u], m);
                    }
                    assert(pre1[b as int] == pre0[b as int].push((m, v)));
                    lemma_newest_first(pre1, m, b as int, v, 0);
                } else {
                    assert forall|u: int| 0 <= u < k implies #[trigger] value_of(pre1[u], key2) == value_of(pre0[u], key2) by {
                        assert(pos@[u] as int == if pos0[u] < ins[u].len() && ins[u][pos0[u] as int].0 == m {
                            pos0[u] + 1
                        } else {
                            pos0[u] as int
                        });
                        if pos@[u] != pos0[u] {
                            assert(pre1[u].drop_last() =~= pre0[u]);
                            assert(pre1[u].last().0 == m);
                        }
                    }
                    lemma_newest_agree(pre1, pre0, key2, 0);
                    assert(after.drop_last() =~= before);
                    assert(value_of(after, key2) == value_of(before, key2));
                    assert(value_of(before, key2) == newest_value(pre0, key2));
                }
            }
            assert forall|s: int| 0 <= s < k implies pos0[s] <= #[trigger] pos@[s] by {}
            lemma_remaining_decreases(ins, pos0, pos@, b as int, k as int);
            lemma_remaining_nonneg(ins, pos@, k as int);
        }
    }
    proof {
        assert(prefixes(ins, pos@) =~= ins) by {
            assert forall|s: int| 0 <= s < k implies #[trigger] prefixes(ins, pos@)[s] == ins[s] by {
                assert(pos@[s] == ins[s].len());
                assert(ins[s].take(pos@[s] as int) =~= ins[s]);
            }
        }
    }
    out
}

proof fn lemma_newest_none(inputs: Seq<Seq<(Seq<u8>, Seq<u8>)>>, key: Seq<u8>, s: int)
    requires
        0 <= s,
        forall|t: int| 0 <= t < inputs.len() ==> (#[trigger] value_of(inputs[t], key)) is None,
    ensures
        newest_from(inputs, key, s) is None,
    decreases inputs.len() - s,
{
    if s < inputs.len() {
        lemma_newest_none(inputs, key, s + 1);
    }
}

/// `m` is the merge of `inputs`: ascending keys, and for each key the value of
/// the earliest input that holds it.
pub open spec fn is_merge_of(m: Seq<(Seq<u8>, Seq<u8>)>, inputs: Seq<Seq<(Seq<u8>, Seq<u8>)>>) -> bool {
    &&& keys_ascending(m)
    &&& forall|key: Seq<u8>| #[trigger] value_of(m, key) == newest_value(inputs, key)
}

/// The views of a list of segments.
pub open spec fn segments_view(v: Seq<Segment>) -> Seq<Seq<(Seq<u8>, Seq<u8>)>> {
    Seq::new(v.len(), |s: int| v[s]@)
}

/// A segment of `m`, sized for `num_items` entries, fits in memory.
pub open spec fn fits(m: Seq<(Seq<u8>, Seq<u8>)>, num_items: int) -> bool {
    &&& store_encoding(m).len() <= usize::MAX
    &&& 0 <= num_items <= usize::MAX
    &&& BloomFilter::buffer_len(num_items as usize) * 8 <= usize::MAX
}

/// The sum of the lengths of the segments.
pub open spec fn total_len(v: Seq<Segment>) -> int
    decreases v.len(),
{
    if v.len() == 0 {
        0
    } else {
        total_len(v.drop_last()) + v.last()@.len()
    }
}

/// What a merge gives back.
pub enum Merged {
    /// A single input, returned as it was.
    Unchanged(Segment),
    /// A new segment under a fresh identifier, as the contents of its files.
    Written { uuid: u128, files: Writers },
}

/// A 128-bit identifier carries the version-4 and RFC 4122 variant bits.
pub open spec fn is_v4(id: u128) -> bool {
    (id >> 76u128) & 0xfu128 == 4u128 && (id >> 62u128) & 0x3u128 == 2u128
}

/// Relies on uuid::Uuid::new_v4: a random version-4 identifier, as its
/// 128-bit value; the random bits are masked so that the version and variant
/// bits are always set.
#[verifier::external_body]
fn new_uuid() -> (r: u128)
    ensures
        is_v4(r),
{
    uuid::Uuid::new_v4().as_u128()
}

/// Tests whether the records of `entries` fit in one store, saying how many
/// bytes they take when they do.
fn store_size(entries: &Vec<(Vec<u8>, Vec<u8>)>) -> (r: Option<usize>)
    ensures
        r is Some <==> store_encoding(pairs_view(entries@)).len() <= usize::MAX,
        r matches Some(n) ==> n == store_encoding(pairs_view(entries@)).len(),
{
    proof {
        vstd::bytes::lemma_auto_spec_u64_to_from_le_bytes();
    }
    let ghost e = pairs_view(entries@);
    let mut total: usize = 0;
    let mut i: usize = 0;
    while i < entries.len()
        invariant
            e == pairs_view(entries@),
            i <= e.len(),
            total == store_encoding(e.take(i as int)).len(),
        decreases entries.len() - i,
    {
        assert(e.take(i + 1).drop_last() =~= e.take(i as int));
        assert(e.take(i + 1).last() == e[i as int]);
        let k = entries[i].0.len();
        let v = entries[i].1.len();
        assert(e[i as int] == (entries@[i as int].0@, entries@[i as int].1@));
        proof {
            vstd::bytes::lemma_auto_spec_u64_to_from_le_bytes();
        }
        assert(record_bytes(e[i as int].0, e[i as int].1).len() == 8 + k + v);
        assert(store_encoding(e.take(i + 1)).len() == total + 8 + k + v);
        if total > usize::MAX - 8 || total + 8 > usize::MAX - k || total + 8 + k > usize::MAX - v {
            proof {
                lemma_store_prefix(e, i + 1);
            }
            return None;
        }
        total = total + 8 + k + v;
        i = i + 1;
    }
    assert(e.take(i as int) =~= e);
    Some(total)
}

impl Segment {
    /// Merges segments into one. Earlier segments win: a key held by several
    /// keeps the value of the first. No segment gives nothing; one segment is
    /// returned unchanged. Otherwise the merged entries are written as a new
    /// segment under a fresh identifier, its bloom filter sized for the sum
    /// of the inputs' lengths. Fails only when that segment would not fit in
    /// memory.
    pub fn merge(segments: Vec<Segment>) -> (r: Result<Option<Merged>, crate::SegmentError>)
        requires
            forall|s: int| 0 <= s < segments@.len() ==> #[trigger] segments@[s].wf(),
        ensures
            segments@.len() == 0 ==> r == Ok::<Option<Merged>, crate::SegmentError>(None),
            segments@.len() == 1 ==> (r matches Ok(Some(Merged::Unchanged(s))) && s == segments@[0]),
            segments@.len() >= 2 ==> match r {
                Ok(Some(Merged::Written { uuid, files })) => is_v4(uuid) && (exists|m: Seq<(Seq<u8>, Seq<u8>)>|
                    is_merge_of(m, segments_view(segments@)) && #[trigger] written_form(files, m))
                    && files.bloom@.len() == 8 + BloomFilter::buffer_len(total_len(segments@) as usize),
                Err(e) => e == crate::SegmentError::TooLarge && exists|m: Seq<(Seq<u8>, Seq<u8>)>|
                    #[trigger] is_merge_of(m, segments_view(segments@)) && !fits(m, total_len(segments@)),
                _ => false,
            },
    {
        if segments.len() == 0 {
            return Ok(None);
        }
        if segments.len() == 1 {
            let mut segments = segments;
            let s = segments.pop().unwrap();
            return Ok(Some(Merged::Unchanged(s)));
        }
        let ghost sv = segments_view(segments@);
        let mut inputs: Vec<Vec<(Vec<u8>, Vec<u8>)>> = Vec::new();
        let mut num_items: usize = 0;
        let mut fits_count = true;
        let mut i: usize = 0;
        while i < segments.len()
            invariant
                sv == segments_view(segments@),
                forall|s: int| 0 <= s < segments@.len() ==> #[trigger] segments@[s].wf(),
                i <= segments@.len(),
                inputs@.len() == i,
                forall|s: int| 0 <= s < i ==> #[trigger] pairs_view(inputs@[s]@) == sv[s],
                fits_count ==> num_items == total_len(segments@.take(i as int)),
                !fits_count ==> total_len(segments@.take(i as int)) > usize::MAX,
                total_len(segments@.take(i as int)) >= 0,
            decreases segments.len() - i,
        {
            let entries = segments[i].iter_raw();
            let n = segments[i].len();
            assert(segments@.take(i + 1).drop_last() =~= segments@.take(i as int));
            if fits_count && num_items <= usize::MAX - n {
                num_items = num_items + n;
            } else {
                fits_count = false;
            }
            inputs.push(entries);
            i = i + 1;
        }
        assert(segments@.take(i as int) =~= segments@);
        assert(inputs_view(inputs@) =~= sv);
        proof {
            assert forall|s: int| 0 <= s < sv.len() implies #[trigger] keys_ascending(inputs_view(inputs@)[s]) by {
                segments@[s].lemma_ascending();
            }
        }
        let merged = merge_sorted(&inputs);
        let ghost m = pairs_view(merged@);
        assert(is_merge_of(m, sv));
        let size = store_size(&merged);
        if size.is_none() || !fits_count || num_items > usize::MAX / 8 || num_items + num_items / 5 + 8 > usize::MAX / 8 {
            proof {
                if fits_count && num_items <= usize::MAX / 8 && num_items + num_items / 5 + 8 <= usize::MAX / 8 {
                    assert(BloomFilter::buffer_len(num_items) * 8 <= usize::MAX);
                }
            }
            assert(!fits(m, total_len(segments@)));
            assert(is_merge_of(m, segments_view(segments@)));
            return Err(crate::SegmentError::TooLarge);
        }
        let uuid = new_uuid();
        let files = SegmentWriter::new(num_items).write_sorted_it(&merged);
        assert(written_form(files, m));
        assert(num_items == total_len(segments@));
        assert(is_merge_of(m, segments_view(segments@)));
        let r = Ok(Some(Merged::Written { uuid, files }));
        assert(r matches Ok(Some(Merged::Written { files: f, .. })) && f == files);
        r
    }
}

} // verus!
