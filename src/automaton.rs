//! A deterministic finite automaton over bytes: the predicate that drives a
//! search of the key index. It has a start state, a transition table with one
//! row of 256 entries per state, and an acceptance flag per state.
use vstd::prelude::*;

verus! {

pub struct Automaton {
    start: usize,
    next: Vec<usize>,
    accepting: Vec<bool>,
}

/// The parts form an automaton: a start state, one full row of transitions
/// per state, and transitions that lead to states.
pub open spec fn valid_parts(start: usize, next: Seq<usize>, accepting: Seq<bool>) -> bool {
    &&& start < accepting.len()
    &&& next.len() == accepting.len() * 256
    &&& forall|i: int| 0 <= i < next.len() ==> #[trigger] next[i] < accepting.len()
}

/// The state reached from `state` on reading `key`.
pub open spec fn run_from(next: Seq<usize>, state: int, key: Seq<u8>) -> int
    decreases key.len(),
{
    if key.len() == 0 {
        state
    } else {
        next[run_from(next, state, key.drop_last()) * 256 + key.last()] as int
    }
}

impl View for Automaton {
    type V = (usize, Seq<usize>, Seq<bool>);

    closed spec fn view(&self) -> (usize, Seq<usize>, Seq<bool>) {
        (self.start, self.next@, self.accepting@)
    }
}

impl Automaton {
    pub open spec fn wf(&self) -> bool {
        valid_parts(self@.0, self@.1, self@.2)
    }

    /// The automaton accepts `key`: reading it from the start state ends in an
    /// accepting state.
    pub open spec fn accepts(&self, key: Seq<u8>) -> bool {
        self@.2[run_from(self@.1, self@.0 as int, key)]
    }

    /// Makes an automaton from its parts, or `None` when they do not form one.
    pub fn new(start: usize, next: Vec<usize>, accepting: Vec<bool>) -> (r: Option<Self>)
        ensures
            r is Some <==> valid_parts(start, next@, accepting@),
            r matches Some(a) ==> a@ == (start, next@, accepting@),
    {
        let n = accepting.len();
        let table_len = next.len();
        if n > usize::MAX / 256 {
            assert(n * 256 > usize::MAX) by (nonlinear_arith)
                requires
                    n > usize::MAX / 256,
            ;
            assert(table_len != n * 256);
            return None;
        }
        if start >= n || next.len() != n * 256 {
            return None;
        }
        let mut i: usize = 0;
        while i < next.len()
            invariant
                i <= next@.len(),
                n == accepting@.len(),
                forall|j: int| 0 <= j < i ==> #[trigger] next@[j] < n,
            decreases next.len() - i,
        {
            if next[i] >= n {
                return None;
            }
            i = i + 1;
        }
        Some(Automaton { start, next, accepting })
    }

    /// Tests whether the automaton accepts `key`.
    pub fn matches(&self, key: &[u8]) -> (r: bool)
        requires
            self.wf(),
        ensures
            r == self.accepts(key@),
    {
        let n = self.accepting.len();
        let table_len = self.next.len();
        let mut state: usize = self.start;
        let mut i: usize = 0;
        while i < key.len()
            invariant
                self.wf(),
                n == self@.2.len(),
                table_len == self@.1.len(),
                i <= key@.len(),
                state < n,
                state == run_from(self@.1, self@.0 as int, key@.subrange(0, i as int)),
            decreases key.len() - i,
        {
            assert(key@.subrange(0, i + 1).drop_last() =~= key@.subrange(0, i as int));
            assert(state * 256 + key[i as int] < n * 256) by (nonlinear_arith)
                requires
                    state < n,
                    key[i as int] < 256,
            ;
            state = self.next[state * 256 + key[i] as usize];
            i = i + 1;
        }
        assert(key@.subrange(0, i as int) =~= key@);
        self.accepting[state]
    }

    /// An automaton that accepts exactly the keys that start with `p`.
    pub fn prefix(p: &[u8]) -> (r: Self)
        requires
            p@.len() + 2 <= usize::MAX / 256,
        ensures
            r.wf(),
            forall|k: Seq<u8>| #[trigger] r.accepts(k) <==> has_prefix(k, p@),
    {
        let len = p.len();
        let n = len + 2;
        let dead = len + 1;
        let mut next: Vec<usize> = Vec::new();
        let mut i: usize = 0;
        while i < n * 256
            invariant
                n == len + 2,
                dead == len + 1,
                len == p@.len(),
                n * 256 <= usize::MAX,
                i <= n * 256,
                next@.len() == i,
                forall|j: int| 0 <= j < i ==> #[trigger] next@[j] == prefix_next(p@, j / 256, j % 256),
            decreases n * 256 - i,
        {
            let s = i / 256;
            let b = i % 256;
            let v = if s < len && b == p[s] as usize {
                s + 1
            } else if s == len {
                len
            } else {
                dead
            };
            let ghost old_next = next@;
            next.push(v);
            assert(next@[i as int] == prefix_next(p@, i as int / 256, i as int % 256));
            assert forall|j: int| 0 <= j < i + 1 implies #[trigger] next@[j] == prefix_next(p@, j / 256, j % 256) by {
                if j < i {
                    assert(next@[j] == old_next[j]);
                }
            }
            i = i + 1;
        }
        let mut accepting: Vec<bool> = Vec::new();
        let mut j: usize = 0;
        while j < n
            invariant
                n == len + 2,
                j <= n,
                accepting@.len() == j,
                forall|q: int| 0 <= q < j ==> #[trigger] accepting@[q] == (q == len),
            decreases n - j,
        {
            accepting.push(j == len);
            j = j + 1;
        }
        let r = Automaton { start: 0, next, accepting };
        proof {
            assert forall|q: int| 0 <= q < r.next@.len() implies #[trigger] r.next@[q] < r.accepting@.len() by {
                assert(r.next@[q] == prefix_next(p@, q / 256, q % 256));
            }
            assert forall|k: Seq<u8>| #[trigger] r.accepts(k) <==> has_prefix(k, p@) by {
                lemma_prefix_run(p@, r.next@, k);
            }
        }
        r
    }
}

/// `p` is a prefix of `k`.
pub open spec fn has_prefix(k: Seq<u8>, p: Seq<u8>) -> bool {
    p.len() <= k.len() && k.take(p.len() as int) == p
}

/// The transitions of the prefix automaton of `p`: state `s < |p|` has read
/// the first `s` bytes of `p`, state `|p|` has read all of it, and state
/// `|p| + 1` has left it.
pub open spec fn prefix_next(p: Seq<u8>, s: int, b: int) -> usize {
    if s < p.len() && b == p[s] {
        (s + 1) as usize
    } else if s == p.len() {
        p.len() as usize
    } else {
        (p.len() + 1) as usize
    }
}

/// The state the prefix automaton of `p` reaches on `k`.
pub open spec fn prefix_state(p: Seq<u8>, k: Seq<u8>) -> int {
    if has_prefix(k, p) {
        p.len() as int
    } else if k.len() < p.len() && k == p.take(k.len() as int) {
        k.len() as int
    } else {
        p.len() + 1int
    }
}

proof fn lemma_prefix_run(p: Seq<u8>, next: Seq<usize>, k: Seq<u8>)
    requires
        p.len() + 2 <= usize::MAX / 256,
        next.len() == (p.len() + 2) * 256,
        forall|j: int| 0 <= j < next.len() ==> #[trigger] next[j] == prefix_next(p, j / 256, j % 256),
    ensures
        run_from(next, 0, k) == prefix_state(p, k),
    decreases k.len(),
{
    if k.len() > 0 {
        let k0 = k.drop_last();
        let b = k.last();
        lemma_prefix_run(p, next, k0);
        let s = prefix_state(p, k0);
        assert(0 <= s <= p.len() + 1);
        let j = s * 256 + b;
        assert(0 <= j < next.len()) by (nonlinear_arith)
            requires
                0 <= s <= p.len() + 1,
                0 <= b < 256,
                j == s * 256 + b,
                next.len() == (p.len() + 2) * 256,
        ;
        assert(j / 256 == s && j % 256 == b) by (nonlinear_arith)
            requires
                0 <= s,
                0 <= b < 256,
                j == s * 256 + b,
        ;
        assert(k0 =~= k.take(k.len() - 1));
        assert(run_from(next, 0, k) == next[j] as int);
        assert(next[j] == prefix_next(p, s, b as int));
        if has_prefix(k0, p) {
            assert(k.take(p.len() as int) =~= k0.take(p.len() as int));
            assert(has_prefix(k, p));
            assert(s == p.len());
            assert(prefix_next(p, s, b as int) as int == p.len());
        } else if k0.len() < p.len() && k0 == p.take(k0.len() as int) {
            assert(s == k0.len());
            if b == p[k0.len() as int] {
                assert(prefix_next(p, s, b as int) as int == k.len());
                assert(k =~= p.take(k.len() as int));
                if k.len() == p.len() {
                    assert(k.take(p.len() as int) =~= k);
                    assert(p.take(p.len() as int) =~= p);
                    assert(has_prefix(k, p));
                } else {
                    assert(!has_prefix(k, p));
                }
            } else {
                assert(prefix_next(p, s, b as int) as int == p.len() + 1);
                assert(k[k0.len() as int] != p[k0.len() as int]);
                if has_prefix(k, p) {
                    assert(k.take(p.len() as int)[k0.len() as int] == k[k0.len() as int]);
                }
                if k.len() < p.len() && k == p.take(k.len() as int) {
                    assert(p.take(k.len() as int)[k0.len() as int] == p[k0.len() as int]);
                }
            }
        } else {
            assert(s == p.len() + 1);
            assert(prefix_next(p, s, b as int) as int == p.len() + 1);
            if has_prefix(k, p) {
                if p.len() <= k0.len() {
                    assert(k0.take(p.len() as int) =~= k.take(p.len() as int));
                    assert(has_prefix(k0, p));
                } else {
                    assert(k.take(p.len() as int) =~= k);
                    assert(k0 =~= p.take(k0.len() as int));
                }
            }
            if k.len() < p.len() && k == p.take(k.len() as int) {
                assert(k0 =~= p.take(k0.len() as int));
            }
        }
    } else {
        if p.len() == 0 {
            assert(k.take(0) =~= p);
        } else {
            assert(k =~= p.take(0));
        }
    }
}

} // verus!
