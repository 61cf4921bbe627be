//! Controller-side coordination of a domain's shards: which shard is local,
//! where each shard runs, and what the control replies from the shards add up
//! to. The sockets and the polling stay with the caller, which hands the
//! replies in as they arrive.
use vstd::prelude::*;

use crate::clock::DomainIndex;

verus! {

/// Time spent by a domain.
#[derive(Debug)]
pub struct DomainStats {
    pub total_time: u64,
    pub total_ptime: u64,
    pub wait_time: u64,
}

/// Work done by one node of a domain.
#[derive(Debug)]
pub struct NodeStats {
    pub desc: String,
    pub process_time: u64,
    pub process_ptime: u64,
    pub mem_size: u64,
}

/// The statistics of one shard: the domain's, and each node's by index.
pub type ShardStatistics = (DomainStats, Vec<(usize, NodeStats)>);

/// A reply from a shard on its control connection.
#[derive(Debug)]
pub enum ControlReplyPacket {
    Ack,
    StateSize(usize),
    Statistics(DomainStats, Vec<(usize, NodeStats)>),
    Booted(usize, String),
}

/// A shard sent a reply of another kind than the one awaited.
#[derive(Debug)]
pub enum WaitError {
    WrongReply(ControlReplyPacket),
}

/// The sum of the state sizes among `rs`.
pub open spec fn size_total(rs: Seq<ControlReplyPacket>) -> int
    decreases rs.len(),
{
    if rs.len() == 0 {
        0
    } else {
        size_total(rs.drop_last()) + match rs.last() {
            ControlReplyPacket::StateSize(s) => s as int,
            _ => 0,
        }
    }
}

/// The kind of a reply: 0 for an acknowledgement, 1 for a state size, 2 for
/// statistics, 3 for a boot report.
pub open spec fn kind(r: ControlReplyPacket) -> int {
    match r {
        ControlReplyPacket::Ack => 0,
        ControlReplyPacket::StateSize(_) => 1,
        ControlReplyPacket::Statistics(_, _) => 2,
        ControlReplyPacket::Booted(_, _) => 3,
    }
}

/// `rs[k]` is the first reply of `rs` not of kind `want`.
pub open spec fn first_wrong(rs: Seq<ControlReplyPacket>, want: int, k: int) -> bool {
    &&& 0 <= k < rs.len()
    &&& kind(rs[k]) != want
    &&& forall|j: int| 0 <= j < k ==> kind(#[trigger] rs[j]) == want
}

/// The result of waiting for one reply of kind `want` from every shard:
/// success when every reply is of that kind, else the first one that is not.
pub open spec fn wait_outcome<T>(r: Result<T, WaitError>, rs: Seq<ControlReplyPacket>, want: int) -> bool {
    match r {
        Ok(_) => forall|k: int| 0 <= k < rs.len() ==> kind(#[trigger] rs[k]) == want,
        Err(WaitError::WrongReply(x)) => exists|k: int| first_wrong(rs, want, k) && #[trigger] rs[k] == x,
    }
}

/// The shards of one domain, as the controller sees them once they booted.
pub struct DomainHandle {
    idx: DomainIndex,
    local: Vec<bool>,
    assignments: Vec<String>,
}

impl DomainHandle {
    pub closed spec fn index_spec(&self) -> DomainIndex {
        self.idx
    }

    /// Whether each shard runs in this process.
    pub closed spec fn local_spec(&self) -> Seq<bool> {
        self.local@
    }

    /// The worker that each shard runs on.
    pub closed spec fn assignments_spec(&self) -> Seq<String> {
        self.assignments@
    }

    /// The handle of domain `idx`, whose shard `i` runs on worker
    /// `assignments[i]`, in this process where `local[i]`.
    pub fn new(idx: DomainIndex, local: Vec<bool>, assignments: Vec<String>) -> (r: DomainHandle)
        requires
            local.len() == assignments.len(),
        ensures
            r.index_spec() == idx,
            r.local_spec() == local@,
            r.assignments_spec() == assignments@,
    {
        DomainHandle { idx, local, assignments }
    }

    /// The number of shards.
    pub fn shards(&self) -> (r: usize)
        ensures
            r == self.local_spec().len(),
    {
        self.local.len()
    }

    /// The worker that shard `shard` runs on.
    pub fn assignment(&self, shard: usize) -> (r: String)
        requires
            shard < self.assignments_spec().len(),
        ensures
            r@ == self.assignments_spec()[shard as int]@,
    {
        self.assignments[shard].clone()
    }

    /// Whether shard `shard` runs in this process, so that a packet for it
    /// may skip serialization.
    pub fn is_local(&self, shard: usize) -> (r: bool)
        requires
            shard < self.local_spec().len(),
        ensures
            r == self.local_spec()[shard as int],
    {
        self.local[shard]
    }

    /// Settles a wait for an acknowledgement from every shard, given the
    /// replies in the order in which they came.
    pub fn wait_for_ack(&self, replies: Vec<ControlReplyPacket>) -> (r: Result<(), WaitError>)
        requires
            replies.len() == self.local_spec().len(),
        ensures
            wait_outcome(r, replies@, 0),
    {
        let ghost orig = replies@;
        let ghost want: int = 0;
        let mut rest = replies;
        let n = rest.len();
        let mut i: usize = 0;
        while i < n
            invariant
                n == orig.len(),
                orig == replies@,
                want == 0,
                i <= n,
                rest@ == orig.subrange(i as int, n as int),
                forall|j: int| 0 <= j < i ==> kind(#[trigger] orig[j]) == want,
            decreases n - i,
        {
            let x = rest.remove(0);
            proof {
                assert(x == orig[i as int]);
            }
            match x {
                ControlReplyPacket::Ack => {},
                other => {
                    proof {
                        assert(first_wrong(orig, want, i as int));
                        assert(orig[i as int] == other);
                    }
                    return Err(WaitError::WrongReply(other));
                },
            }
            proof {
                assert(rest@ =~= orig.subrange(i + 1, n as int));
            }
            i = i + 1;
        }
        Ok(())
    }

    /// Settles a wait for the state size of every shard, given the replies in
    /// the order in which they came: their sum.
    pub fn wait_for_state_size(&self, replies: Vec<ControlReplyPacket>) -> (r: Result<usize, WaitError>)
        requires
            replies.len() == self.local_spec().len(),
            size_total(replies@) <= usize::MAX,
        ensures
            wait_outcome(r, replies@, 1),
            r matches Ok(size) ==> size == size_total(replies@),
    {
        let ghost orig = replies@;
        let ghost want: int = 1;
        let mut rest = replies;
        let n = rest.len();
        let mut size: usize = 0;
        let mut i: usize = 0;
        proof {
            lemma_size_total_prefix(orig, n as int);
        }
        while i < n
            invariant
                n == orig.len(),
                orig == replies@,
                want == 1,
                i <= n,
                rest@ == orig.subrange(i as int, n as int),
                forall|j: int| 0 <= j < i ==> kind(#[trigger] orig[j]) == want,
                size == size_total(orig.subrange(0, i as int)),
                forall|j: int| 0 <= j <= n ==> #[trigger] size_total(orig.subrange(0, j)) <= size_total(orig),
                size_total(orig) <= usize::MAX,
            decreases n - i,
        {
            let x = rest.remove(0);
            proof {
                assert(x == orig[i as int]);
                assert(orig.subrange(0, i + 1).drop_last() =~= orig.subrange(0, i as int));
            }
            match x {
                ControlReplyPacket::StateSize(s) => {
                    proof {
                        assert(size_total(orig.subrange(0, i + 1)) <= size_total(orig));
                    }
                    size = size + s;
                },
                other => {
                    proof {
                        assert(first_wrong(orig, want, i as int));
                        assert(orig[i as int] == other);
                    }
                    return Err(WaitError::WrongReply(other));
                },
            }
            proof {
                assert(rest@ =~= orig.subrange(i + 1, n as int));
            }
            i = i + 1;
        }
        proof {
            assert(orig.subrange(0, n as int) =~= orig);
        }
        Ok(size)
    }

    /// Settles a wait for the statistics of every shard, given the replies in
    /// the order in which they came: the statistics, shard reply by reply.
    pub fn wait_for_statistics(&self, replies: Vec<ControlReplyPacket>) -> (r: Result<Vec<ShardStatistics>, WaitError>)
        requires
            replies.len() == self.local_spec().len(),
        ensures
            wait_outcome(r, replies@, 2),
            r matches Ok(stats) ==> stats.len() == replies.len() && forall|k: int| 0 <= k < stats.len() ==>
                #[trigger] replies@[k] == ControlReplyPacket::Statistics(stats@[k].0, stats@[k].1),
    {
        let ghost orig = replies@;
        let ghost want: int = 2;
        let mut rest = replies;
        let n = rest.len();
        let mut stats: Vec<ShardStatistics> = Vec::new();
        let mut i: usize = 0;
        while i < n
            invariant
                n == orig.len(),
                orig == replies@,
                want == 2,
                i <= n,
                rest@ == orig.subrange(i as int, n as int),
                forall|j: int| 0 <= j < i ==> kind(#[trigger] orig[j]) == want,
                stats.len() == i,
                forall|k: int| 0 <= k < i ==> #[trigger] orig[k] == ControlReplyPacket::Statistics(stats@[k].0, stats@[k].1),
            decreases n - i,
        {
            let x = rest.remove(0);
            proof {
                assert(x == orig[i as int]);
            }
            match x {
                ControlReplyPacket::Statistics(d, s) => {
                    stats.push((d, s));
                },
                other => {
                    proof {
                        assert(first_wrong(orig, want, i as int));
                        assert(orig[i as int] == other);
                    }
                    return Err(WaitError::WrongReply(other));
                },
            }
            proof {
                assert(rest@ =~= orig.subrange(i + 1, n as int));
            }
            i = i + 1;
        }
        Ok(stats)
    }
}

/// Every prefix of the replies sums to no more than all of them.
proof fn lemma_size_total_prefix(rs: Seq<ControlReplyPacket>, n: int)
    requires
        n == rs.len(),
    ensures
        forall|j: int| 0 <= j <= n ==> #[trigger] size_total(rs.subrange(0, j)) <= size_total(rs),
    decreases rs.len(),
{
    if rs.len() > 0 {
        let pre = rs.drop_last();
        lemma_size_total_prefix(pre, n - 1);
        assert forall|j: int| 0 <= j <= n implies #[trigger] size_total(rs.subrange(0, j)) <= size_total(rs) by {
            if j < n {
                assert(rs.subrange(0, j) =~= pre.subrange(0, j));
            } else {
                assert(rs.subrange(0, j) =~= rs);
            }
        }
    }
}

/// The shards of a domain that reported booting so far, while the controller
/// waits for all of them.
pub struct BootState {
    pub idx: DomainIndex,
    pub num_shards: usize,
    pub booted: Vec<(usize, String)>,
}

impl BootState {
    pub fn new(idx: DomainIndex, num_shards: usize) -> (r: BootState)
        ensures
            r.idx == idx,
            r.num_shards == num_shards,
            r.booted@.len() == 0,
    {
        BootState { idx, num_shards, booted: Vec::new() }
    }

    /// Takes the next reply while shards boot: a boot report is recorded as
    /// `on_booted` does, and the result says whether polling may stop; any
    /// other reply is a protocol violation, returned as the error.
    pub fn on_reply(&mut self, reply: ControlReplyPacket) -> (r: Result<bool, WaitError>)
        requires
            old(self).booted.len() < old(self).num_shards,
        ensures
            final(self).idx == old(self).idx,
            final(self).num_shards == old(self).num_shards,
            reply is Booted ==> {
                &&& r is Ok
                &&& final(self).booted@ == old(self).booted@.push((reply->Booted_0, reply->Booted_1))
                &&& r->Ok_0 == (final(self).booted.len() == final(self).num_shards)
            },
            !(reply is Booted) ==> final(self).booted@ == old(self).booted@ && (r matches Err(WaitError::WrongReply(x)) && x == reply),
    {
        match reply {
            ControlReplyPacket::Booted(shard, addr) => Ok(self.on_booted(shard, addr)),
            other => Err(WaitError::WrongReply(other)),
        }
    }

    /// Records that shard `shard` booted and listens at `addr`; the caller
    /// registers the address and announces it to every worker. Returns
    /// whether every shard has now booted, so that polling may stop.
    pub fn on_booted(&mut self, shard: usize, addr: String) -> (stop: bool)
        requires
            old(self).booted.len() < old(self).num_shards,
        ensures
            final(self).idx == old(self).idx,
            final(self).num_shards == old(self).num_shards,
            final(self).booted@ == old(self).booted@.push((shard, addr)),
            stop == (final(self).booted.len() == final(self).num_shards),
    {
        self.booted.push((shard, addr));
        self.booted.len() == self.num_shards
    }
}

}
