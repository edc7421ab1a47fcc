//! The integer parts of ranking signals: what each signal reads from a page
//! or a fast field before it is turned into a score.
use vstd::prelude::*;

verus! {

/// The number of bytes of `s` that are ASCII digits.
pub open spec fn digit_count(s: Seq<u8>) -> nat
    decreases s.len(),
{
    if s.len() == 0 {
        0
    } else {
        digit_count(s.drop_last()) + if 0x30 <= s.last() <= 0x39 { 1nat } else { 0nat }
    }
}

/// The number of bytes of `s` equal to `b`.
pub open spec fn byte_count(s: Seq<u8>, b: u8) -> nat
    decreases s.len(),
{
    if s.len() == 0 {
        0
    } else {
        byte_count(s.drop_last(), b) + if s.last() == b { 1nat } else { 0nat }
    }
}

proof fn lemma_digit_count_bound(s: Seq<u8>)
    ensures
        digit_count(s) <= s.len(),
    decreases s.len(),
{
    if s.len() > 0 {
        lemma_digit_count_bound(s.drop_last());
    }
}

proof fn lemma_byte_count_bound(s: Seq<u8>, b: u8)
    ensures
        byte_count(s, b) <= s.len(),
    decreases s.len(),
{
    if s.len() > 0 {
        lemma_byte_count_bound(s.drop_last(), b);
    }
}

fn count_digits(s: &[u8]) -> (n: usize)
    ensures
        n == digit_count(s@),
        n <= s@.len(),
{
    proof {
        lemma_digit_count_bound(s@);
    }
    let mut n: usize = 0;
    let mut i: usize = 0;
    while i < s.len()
        invariant
            i <= s@.len(),
            n == digit_count(s@.subrange(0, i as int)),
        decreases s.len() - i,
    {
        assert(s@.subrange(0, i + 1).drop_last() =~= s@.subrange(0, i as int));
        proof {
            lemma_digit_count_bound(s@.subrange(0, i as int));
        }
        if s[i] >= 0x30 && s[i] <= 0x39 {
            n = n + 1;
        }
        i = i + 1;
    }
    assert(s@.subrange(0, i as int) =~= s@);
    n
}

fn count_byte(s: &[u8], b: u8) -> (n: usize)
    ensures
        n == byte_count(s@, b),
{
    let mut n: usize = 0;
    let mut i: usize = 0;
    while i < s.len()
        invariant
            i <= s@.len(),
            n == byte_count(s@.subrange(0, i as int), b),
        decreases s.len() - i,
    {
        assert(s@.subrange(0, i + 1).drop_last() =~= s@.subrange(0, i as int));
        proof {
            lemma_byte_count_bound(s@.subrange(0, i as int), b);
        }
        if s[i] == b {
            n = n + 1;
        }
        i = i + 1;
    }
    assert(s@.subrange(0, i as int) =~= s@);
    n
}

/// The signal of how many digits a URL's path and query hold.
#[derive(Debug, Clone, Copy, PartialEq, Eq, Hash)]
pub struct UrlDigits;

impl UrlDigits {
    /// The number of ASCII digits in the path and the query together.
    pub fn num_digits(path: &[u8], query: &[u8]) -> (n: u64)
        requires
            path@.len() + query@.len() <= u64::MAX,
        ensures
            n == digit_count(path@) + digit_count(query@),
    {
        let a = count_digits(path);
        let b = count_digits(query);
        a as u64 + b as u64
    }
}

/// The signal of how many slashes a URL's path holds.
#[derive(Debug, Clone, Copy, PartialEq, Eq, Hash)]
pub struct UrlSlashes;

impl UrlSlashes {
    /// The number of `/` in the path.
    pub fn num_slashes(path: &[u8]) -> (n: u64)
        ensures
            n == byte_count(path@, 0x2f),
    {
        count_byte(path, 0x2f) as u64
    }
}

/// The signal of how long a page took to fetch, scored through a table
/// indexed by milliseconds.
#[derive(Debug, Clone, Copy, PartialEq, Eq, Hash)]
pub struct FetchTimeMs;

impl FetchTimeMs {
    /// The slot of the score table for a fetch time, or `None` when the time
    /// is past the table's end (the score is then zero).
    pub fn cache_slot(fetch_time_ms: u64, table_len: usize) -> (r: Option<usize>)
        ensures
            fetch_time_ms < table_len ==> r == Some(fetch_time_ms as usize),
            fetch_time_ms >= table_len ==> r is None,
    {
        if fetch_time_ms >= table_len as u64 {
            None
        } else {
            Some(fetch_time_ms as usize)
        }
    }
}

/// The signal of how recently a page was updated.
#[derive(Debug, Clone, Copy, PartialEq, Eq, Hash)]
pub struct UpdateTimestamp;

impl UpdateTimestamp {
    /// Whole hours since a page's update, at least one second counted; `None`
    /// when the update is not before `now` (or `now` is unknown), which scores
    /// zero.
    pub fn hours_since_update(page_timestamp: u64, now: Option<u64>) -> (r: Option<u64>)
        ensures
            match now {
                Some(t) => if page_timestamp < t {
                    r == Some(((if t - page_timestamp >= 1 { t - page_timestamp } else { 1 }) / 3600) as u64)
                } else {
                    r is None
                },
                None => r is None,
            },
    {
        match now {
            Some(t) => {
                if page_timestamp >= t {
                    None
                } else {
                    let d = t - page_timestamp;
                    let d = if d >= 1 { d } else { 1 };
                    Some(d / 3600)
                }
            },
            None => None,
        }
    }
}

/// The node id a fast field stores for a page without a host.
pub const NO_HOST: u64 = u64::MAX;

/// The host id stored in a fast field, or `None` for the marker of no host.
pub fn host_id(node_id: u64) -> (r: Option<u64>)
    ensures
        node_id == NO_HOST ==> r is None,
        node_id != NO_HOST ==> r == Some(node_id),
{
    if node_id == NO_HOST {
        None
    } else {
        Some(node_id)
    }
}

/// The signal of how central a page's host is for the query.
#[derive(Debug, Clone, Copy, PartialEq, Eq, Hash)]
pub struct QueryCentrality;

impl QueryCentrality {
    /// The host to look up, if the page has one.
    pub fn host(node_id: u64) -> (r: Option<u64>)
        ensures
            r == (if node_id == NO_HOST { None } else { Some(node_id) }),
    {
        host_id(node_id)
    }
}

/// The signal of how similar a host's inbound links are to the user's.
#[derive(Debug, Clone, Copy, PartialEq, Eq, Hash)]
pub struct InboundSimilarity;

impl InboundSimilarity {
    /// The host to look up, if the page has one.
    pub fn host(node_id: u64) -> (r: Option<u64>)
        ensures
            r == (if node_id == NO_HOST { None } else { Some(node_id) }),
    {
        host_id(node_id)
    }
}

} // verus!
