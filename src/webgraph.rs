//! Which cluster members a remote webgraph talks to.
use vstd::prelude::*;

verus! {

/// Whether a webgraph holds hosts or pages.
#[derive(Debug, Clone, Copy, PartialEq, Eq, Structural)]
pub enum Granularity {
    Host,
    Page,
}

/// What a cluster member serves, as far as a remote webgraph cares.
#[derive(Debug, Clone, Copy, PartialEq, Eq, Structural)]
pub enum Service {
    /// A webgraph shard of the given granularity.
    Webgraph { shard: u64, granularity: Granularity },
    /// Any other service.
    Other,
}

/// The (shard, member position) pairs of the first `n` members that serve a
/// webgraph of granularity `g`, in member order.
pub open spec fn shards_of(members: Seq<Service>, g: Granularity, n: int) -> Seq<(u64, usize)>
    decreases n,
{
    if n <= 0 {
        Seq::empty()
    } else {
        let rest = shards_of(members, g, n - 1);
        match members[n - 1] {
            Service::Webgraph { shard, granularity } => if granularity == g {
                rest.push((shard, (n - 1) as usize))
            } else {
                rest
            },
            Service::Other => rest,
        }
    }
}

/// The member positions among `p`'s (shard, member) pairs that serve
/// `shard`, in order.
pub open spec fn members_of_shard(p: Seq<(u64, usize)>, shard: u64) -> Seq<usize>
    decreases p.len(),
{
    if p.len() == 0 {
        Seq::empty()
    } else {
        let rest = members_of_shard(p.drop_last(), shard);
        if p.last().0 == shard {
            rest.push(p.last().1)
        } else {
            rest
        }
    }
}

proof fn lemma_members_of_shard_nonempty(p: Seq<(u64, usize)>, shard: u64, k: int)
    requires
        0 <= k < p.len(),
        p[k].0 == shard,
    ensures
        members_of_shard(p, shard).len() > 0,
    decreases p.len(),
{
    if k < p.len() - 1 {
        lemma_members_of_shard_nonempty(p.drop_last(), shard, k);
    }
}

/// The members of `p` that serve `shard`, in order.
fn collect_shard(pairs: &Vec<(u64, usize)>, shard: u64) -> (r: Vec<usize>)
    ensures
        r@ == members_of_shard(pairs@, shard),
{
    let mut out: Vec<usize> = Vec::new();
    let mut i: usize = 0;
    while i < pairs.len()
        invariant
            i <= pairs@.len(),
            out@ == members_of_shard(pairs@.take(i as int), shard),
        decreases pairs.len() - i,
    {
        assert(pairs@.take(i + 1).drop_last() =~= pairs@.take(i as int));
        if pairs[i].0 == shard {
            out.push(pairs[i].1);
        }
        i = i + 1;
    }
    assert(pairs@.take(i as int) =~= pairs@);
    out
}

/// Some group of `r` is for `shard`.
pub open spec fn has_group(r: Seq<(u64, Vec<usize>)>, shard: u64) -> bool {
    exists|a: int| 0 <= a < r.len() && r[a].0 == shard
}

/// A webgraph whose shards live on other members of the cluster.
pub struct RemoteWebgraph {
    granularity: Granularity,
}

impl RemoteWebgraph {
    pub fn new(granularity: Granularity) -> (r: Self)
        ensures
            r.spec_granularity() == granularity,
    {
        RemoteWebgraph { granularity }
    }

    pub closed spec fn spec_granularity(&self) -> Granularity {
        self.granularity
    }

    pub fn granularity(&self) -> (r: Granularity)
        ensures
            r == self.spec_granularity(),
    {
        self.granularity
    }

    /// The members to ask, each with the shard it serves: those that serve a
    /// webgraph of this graph's granularity, in member order.
    pub fn shard_members(&self, members: &Vec<Service>) -> (r: Vec<(u64, usize)>)
        ensures
            r@ == shards_of(members@, self.spec_granularity(), members@.len() as int),
    {
        let mut out: Vec<(u64, usize)> = Vec::new();
        let mut i: usize = 0;
        while i < members.len()
            invariant
                i <= members@.len(),
                out@ == shards_of(members@, self.granularity, i as int),
            decreases members.len() - i,
        {
            match members[i] {
                Service::Webgraph { shard, granularity } => {
                    if granularity == self.granularity {
                        out.push((shard, i));
                    }
                },
                Service::Other => {},
            }
            i = i + 1;
        }
        out
    }

    /// The shards to ask: one group per distinct shard id among the members
    /// that serve a webgraph of this graph's granularity, in order of first
    /// appearance, each with exactly the positions of the members serving it.
    pub fn shard_groups(&self, members: &Vec<Service>) -> (r: Vec<(u64, Vec<usize>)>)
        ensures
            forall|a: int, b: int| 0 <= a < b < r@.len() ==> r@[a].0 != r@[b].0,
            forall|a: int| 0 <= a < r@.len() ==> #[trigger] r@[a].1@ == members_of_shard(
                shards_of(members@, self.spec_granularity(), members@.len() as int),
                r@[a].0,
            ) && r@[a].1@.len() > 0,
            forall|k: int| 0 <= k < shards_of(members@, self.spec_granularity(), members@.len() as int).len()
                ==> #[trigger] has_group(r@, shards_of(members@, self.spec_granularity(), members@.len() as int)[k].0),
    {
        let pairs = self.shard_members(members);
        let ghost p = pairs@;
        let mut groups: Vec<(u64, Vec<usize>)> = Vec::new();
        let mut j: usize = 0;
        while j < pairs.len()
            invariant
                p == pairs@,
                j <= p.len(),
                forall|a: int, b: int| 0 <= a < b < groups@.len() ==> groups@[a].0 != groups@[b].0,
                forall|a: int| 0 <= a < groups@.len() ==> #[trigger] groups@[a].1@ == members_of_shard(p, groups@[a].0)
                    && groups@[a].1@.len() > 0,
                forall|k: int| 0 <= k < j ==> exists|a: int| 0 <= a < groups@.len() && groups@[a].0 == #[trigger] p[k].0,
            decreases pairs.len() - j,
        {
            let shard = pairs[j].0;
            let mut found = false;
            let mut a: usize = 0;
            while a < groups.len()
                invariant
                    a <= groups@.len(),
                    found == exists|b: int| 0 <= b < a && groups@[b].0 == shard,
                decreases groups.len() - a,
            {
                if groups[a].0 == shard {
                    found = true;
                }
                a = a + 1;
            }
            if !found {
                let list = collect_shard(&pairs, shard);
                proof {
                    lemma_members_of_shard_nonempty(p, shard, j as int);
                }
                let ghost old_groups = groups@;
                groups.push((shard, list));
                proof {
                    assert forall|a: int| 0 <= a < groups@.len() implies #[trigger] groups@[a].1@ == members_of_shard(p, groups@[a].0)
                        && groups@[a].1@.len() > 0 by {
                        if a < old_groups.len() {
                            assert(groups@[a] == old_groups[a]);
                        }
                    }
                    assert forall|k: int| 0 <= k < j + 1 implies exists|a: int| 0 <= a < groups@.len() && groups@[a].0 == #[trigger] p[k].0 by {
                        if k < j {
                            let a = choose|a: int| 0 <= a < old_groups.len() && old_groups[a].0 == p[k].0;
                            assert(groups@[a] == old_groups[a]);
                        } else {
                            assert(groups@[old_groups.len() as int].0 == shard);
                        }
                    }
                }
            }
            j = j + 1;
        }
        proof {
            let q = shards_of(members@, self.spec_granularity(), members@.len() as int);
            assert(q == p);
            assert forall|k: int| 0 <= k < q.len() implies #[trigger] has_group(groups@, q[k].0) by {
                assert(q[k] == p[k]);
                assert(k < j);
                assert(p[k].0 == q[k].0);
            }
        }
        groups
    }
}

} // verus!
