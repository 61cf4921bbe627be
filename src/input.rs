//! The write path into a base table that is split into shards: each record
//! goes to the shard of its key, and the acknowledgements that come back
//! settle the write.
use vstd::prelude::*;

use crate::packet::Record;

verus! {

/// Why a batch of writes to a sharded base could not be routed.
#[derive(Debug)]
pub enum RouteError {
    /// The base is sharded but no key column was given.
    MissingKey,
    /// The base is sharded by more than one column, which is not supported.
    CompositeKey,
    /// A record has no value in the key column.
    MissingColumn,
}

/// The key of a record: its value in column `col`, or for a delete request
/// the first value of the key it names.
pub open spec fn record_key(r: Record, col: int) -> Option<u64> {
    match r {
        Record::Positive(row) => if 0 <= col < row.len() { Some(row@[col]) } else { None },
        Record::Negative(row) => if 0 <= col < row.len() { Some(row@[col]) } else { None },
        Record::DeleteRequest(k) => if k.len() > 0 { Some(k@[0]) } else { None },
    }
}

/// The shard, out of `n`, that a record with key `k` goes to: an integer key
/// is its own hash, so the shard is the key modulo the number of shards.
pub open spec fn shard_of(k: u64, n: int) -> int {
    k as int % n
}

/// The records of `data` that go to shard `s` out of `n`, in their order.
pub open spec fn bucket(data: Seq<Record>, col: int, n: int, s: int) -> Seq<Record>
    decreases data.len(),
{
    if data.len() == 0 {
        Seq::empty()
    } else if shard_of(record_key(data.last(), col)->0, n) == s {
        bucket(data.drop_last(), col, n, s).push(data.last())
    } else {
        bucket(data.drop_last(), col, n, s)
    }
}

/// Every record of `data` has a key in column `col`.
pub open spec fn all_keyed(data: Seq<Record>, col: int) -> bool {
    forall|k: int| 0 <= k < data.len() ==> #[trigger] record_key(data[k], col) is Some
}

pub open spec fn seq_sum(s: Seq<usize>) -> int
    decreases s.len(),
{
    if s.len() == 0 { 0 } else { seq_sum(s.drop_last()) + s.last() }
}

/// Whether a write failed somewhere.
pub open spec fn any_failed(acks: Seq<Result<i64, ()>>) -> bool {
    exists|k: int| 0 <= k < acks.len() && #[trigger] acks[k] is Err
}

fn key_of(r: &Record, col: usize) -> (k: Option<u64>)
    ensures
        k == record_key(*r, col as int),
{
    match r {
        Record::Positive(row) => if col < row.len() { Some(row[col]) } else { None },
        Record::Negative(row) => if col < row.len() { Some(row[col]) } else { None },
        Record::DeleteRequest(k) => if k.len() > 0 { Some(k[0]) } else { None },
    }
}

/// The writes sent to each shard of a base, whose acknowledgements are due.
pub struct BatchSendHandle {
    sent: Vec<usize>,
}

impl BatchSendHandle {
    /// The number of writes sent to each shard.
    pub closed spec fn sent_spec(&self) -> Seq<usize> {
        self.sent@
    }

    /// A handle for a base with `nshards` shards, nothing sent.
    pub fn new(nshards: usize) -> (r: BatchSendHandle)
        ensures
            r.sent_spec() == Seq::new(nshards as nat, |_i: int| 0usize),
    {
        let mut sent: Vec<usize> = Vec::new();
        let mut i: usize = 0;
        while i < nshards
            invariant
                i <= nshards,
                sent@ == Seq::new(i as nat, |_i: int| 0usize),
            decreases nshards - i,
        {
            sent.push(0);
            i = i + 1;
            proof {
                assert(sent@ =~= Seq::new(i as nat, |_i: int| 0usize));
            }
        }
        BatchSendHandle { sent }
    }

    /// Routes the records of one write to the shards of the base, by the
    /// value of the key column `key[0]`: shard `key mod nshards`. Returns the
    /// records for each shard that gets any, by increasing shard, and counts
    /// one write sent to each of those shards. A base with one shard takes
    /// the write whole.
    pub fn enqueue(&mut self, data: Vec<Record>, key: &[usize]) -> (r: Result<Vec<(usize, Vec<Record>)>, RouteError>)
        requires
            old(self).sent_spec().len() >= 1,
            forall|s: int| 0 <= s < old(self).sent_spec().len() ==> #[trigger] old(self).sent_spec()[s] < usize::MAX,
        ensures
            old(self).sent_spec().len() == 1 ==> {
                &&& (r matches Ok(v) && v.len() == 1 && v@[0].0 == 0 && v@[0].1@ == data@)
                &&& final(self).sent_spec() == old(self).sent_spec().update(0, (old(self).sent_spec()[0] + 1) as usize)
            },
            old(self).sent_spec().len() > 1 ==> {
                &&& key@.len() == 0 ==> (r matches Err(RouteError::MissingKey))
                &&& key@.len() > 1 ==> (r matches Err(RouteError::CompositeKey))
                &&& key@.len() == 1 && !all_keyed(data@, key@[0] as int) ==> (r matches Err(RouteError::MissingColumn))
                &&& r is Err ==> final(self).sent_spec() == old(self).sent_spec()
                &&& key@.len() == 1 && all_keyed(data@, key@[0] as int) ==> r is Ok
            },
            r is Ok && old(self).sent_spec().len() > 1 ==> {
                let v = r->Ok_0;
                let n = old(self).sent_spec().len() as int;
                let col = key@[0] as int;
                &&& forall|j: int| 0 <= j < v.len() ==> {
                    &&& (#[trigger] v@[j]).0 < n
                    &&& v@[j].1@ == bucket(data@, col, n, v@[j].0 as int)
                    &&& v@[j].1.len() > 0
                }
                &&& forall|j1: int, j2: int| 0 <= j1 < j2 < v.len() ==> v@[j1].0 < v@[j2].0
                &&& forall|s: int| 0 <= s < n && #[trigger] bucket(data@, col, n, s).len() > 0 ==> exists|j: int| 0 <= j < v.len() && v@[j].0 == s
                &&& final(self).sent_spec().len() == n
                &&& forall|s: int| 0 <= s < n ==> #[trigger] final(self).sent_spec()[s] == old(self).sent_spec()[s]
                    + if bucket(data@, col, n, s).len() > 0 { 1int } else { 0int }
            },
    {
        let n = self.sent.len();
        if n == 1 {
            let c = self.sent[0];
            self.sent.set(0, c + 1);
            let mut v: Vec<(usize, Vec<Record>)> = Vec::new();
            v.push((0, data));
            return Ok(v);
        }
        if key.len() == 0 {
            return Err(RouteError::MissingKey);
        }
        if key.len() != 1 {
            return Err(RouteError::CompositeKey);
        }
        let col = key[0];
        let ghost orig = data@;
        let dn = data.len();
        let mut k: usize = 0;
        while k < dn
            invariant
                dn == data.len(),
                n == self.sent@.len(),
                n > 1,
                key@.len() == 1,
                col == key@[0],
                orig == data@,
                self.sent@ == old(self).sent@,
                forall|x: int| 0 <= x < k ==> #[trigger] record_key(data@[x], col as int) is Some,
            decreases dn - k,
        {
            if key_of(&data[k], col).is_none() {
                proof {
                    assert(record_key(data@[k as int], col as int) is None);
                }
                return Err(RouteError::MissingColumn);
            }
            k = k + 1;
        }
        let mut buckets: Vec<Vec<Record>> = Vec::new();
        let mut s: usize = 0;
        while s < n
            invariant
                s <= n,
                n == self.sent@.len(),
                n > 1,
                key@.len() == 1,
                col == key@[0],
                orig == data@,
                self.sent@ == old(self).sent@,
                all_keyed(orig, col as int),
                buckets.len() == s,
                forall|x: int| 0 <= x < s ==> (#[trigger] buckets@[x])@ == Seq::<Record>::empty(),
            decreases n - s,
        {
            buckets.push(Vec::new());
            s = s + 1;
        }
        proof {
            assert forall|x: int| 0 <= x < n implies (#[trigger] buckets@[x])@ == bucket(orig.subrange(0, 0), col as int, n as int, x) by {
                assert(orig.subrange(0, 0).len() == 0);
            }
        }
        let mut rest = data;
        let mut i: usize = 0;
        while i < dn
            invariant
                dn == orig.len(),
                i <= dn,
                n == self.sent@.len(),
                n > 1,
                key@.len() == 1,
                col == key@[0],
                orig == data@,
                self.sent@ == old(self).sent@,
                rest@ == orig.subrange(i as int, dn as int),
                all_keyed(orig, col as int),
                buckets.len() == n,
                forall|x: int| 0 <= x < n ==> (#[trigger] buckets@[x])@ == bucket(orig.subrange(0, i as int), col as int, n as int, x),
            decreases dn - i,
        {
            let rec = rest.remove(0);
            proof {
                assert(rec == orig[i as int]);
                assert(record_key(orig[i as int], col as int) is Some);
            }
            let kv = match key_of(&rec, col) {
                Some(kv) => kv,
                None => 0,
            };
            let sh = (kv % (n as u64)) as usize;
            let mut b = buckets.remove(sh);
            b.push(rec);
            buckets.insert(sh, b);
            proof {
                let pre = orig.subrange(0, i as int);
                let cur = orig.subrange(0, i + 1);
                assert(cur.drop_last() =~= pre);
                assert(cur.last() == rec);
                assert(shard_of(kv, n as int) == sh);
                assert forall|x: int| 0 <= x < n implies (#[trigger] buckets@[x])@ == bucket(cur, col as int, n as int, x) by {
                    if x == sh as int {
                        assert(buckets@[x]@ == bucket(pre, col as int, n as int, x).push(rec));
                    }
                }
                assert(rest@ =~= orig.subrange(i + 1, dn as int));
            }
            i = i + 1;
        }
        proof {
            assert(orig.subrange(0, dn as int) =~= orig);
        }
        let ghost full = buckets@;
        let ghost sent0 = self.sent@;
        let mut v: Vec<(usize, Vec<Record>)> = Vec::new();
        let mut s: usize = 0;
        while s < n
            invariant
                s <= n,
                n > 1,
                n == full.len(),
                n == self.sent@.len(),
                n == sent0.len(),
                sent0 == old(self).sent@,
                key@.len() == 1,
                col == key@[0],
                orig == data@,
                buckets@ == full.subrange(s as int, n as int),
                forall|x: int| 0 <= x < n ==> (#[trigger] full[x])@ == bucket(orig, col as int, n as int, x),
                forall|x: int| 0 <= x < n ==> #[trigger] sent0[x] < usize::MAX,
                forall|x: int| s <= x < n ==> #[trigger] self.sent@[x] == sent0[x],
                forall|x: int| 0 <= x < s ==> #[trigger] self.sent@[x] == sent0[x]
                    + if bucket(orig, col as int, n as int, x).len() > 0 { 1int } else { 0int },
                forall|j: int| 0 <= j < v.len() ==> {
                    &&& (#[trigger] v@[j]).0 < s
                    &&& v@[j].1@ == bucket(orig, col as int, n as int, v@[j].0 as int)
                    &&& v@[j].1.len() > 0
                },
                forall|j1: int, j2: int| 0 <= j1 < j2 < v.len() ==> v@[j1].0 < v@[j2].0,
                forall|x: int| 0 <= x < s && #[trigger] bucket(orig, col as int, n as int, x).len() > 0 ==> exists|j: int| 0 <= j < v.len() && v@[j].0 == x,
            decreases n - s,
        {
            let b = buckets.remove(0);
            proof {
                assert(b == full[s as int]);
                assert(buckets@ =~= full.subrange(s + 1, n as int));
            }
            if b.len() > 0 {
                let c = self.sent[s];
                self.sent.set(s, c + 1);
                let ghost before = v@;
                v.push((s, b));
                proof {
                    assert forall|x: int| 0 <= x < s + 1 && #[trigger] bucket(orig, col as int, n as int, x).len() > 0 implies exists|j: int| 0 <= j < v.len() && v@[j].0 == x by {
                        if x == s {
                            assert(v@[v.len() - 1].0 == x);
                        } else {
                            let j = choose|j: int| 0 <= j < before.len() && before[j].0 == x;
                            assert(v@[j] == before[j]);
                        }
                    }
                }
            }
            s = s + 1;
        }
        Ok(v)
    }

    /// Settles the write from the acknowledgements that came back, one for
    /// each write sent: an error if any write failed, else the id in the last
    /// acknowledgement, or 0 when none came.
    pub fn wait(&self, acks: Vec<Result<i64, ()>>) -> (r: Result<i64, ()>)
        requires
            acks.len() == seq_sum(self.sent_spec()),
        ensures
            any_failed(acks@) ==> r is Err,
            !any_failed(acks@) && acks.len() == 0 ==> r == Ok::<i64, ()>(0),
            !any_failed(acks@) && acks.len() > 0 ==> r == acks@.last(),
    {
        let mut id: Result<i64, ()> = Ok(0);
        let mut failed = false;
        let n = acks.len();
        let mut i: usize = 0;
        while i < n
            invariant
                n == acks.len(),
                i <= n,
                failed == exists|k: int| 0 <= k < i && #[trigger] acks@[k] is Err,
                i == 0 ==> id == Ok::<i64, ()>(0),
                i > 0 ==> id == acks@[i - 1],
            decreases n - i,
        {
            id = acks[i];
            if acks[i].is_err() {
                failed = true;
            }
            i = i + 1;
        }
        if failed {
            Err(())
        } else {
            id
        }
    }
}

/// The write path into one base table, split over `shards` shards.
pub struct DomainInputHandle {
    shards: usize,
}

impl DomainInputHandle {
    pub closed spec fn shards_spec(&self) -> usize {
        self.shards
    }

    pub fn new(shards: usize) -> (r: DomainInputHandle)
        requires
            shards >= 1,
        ensures
            r.shards_spec() == shards,
    {
        DomainInputHandle { shards }
    }

    /// A handle for one write, with nothing sent yet to any shard.
    pub fn sender(&self) -> (r: BatchSendHandle)
        ensures
            r.sent_spec() == Seq::new(self.shards_spec() as nat, |_i: int| 0usize),
    {
        BatchSendHandle::new(self.shards)
    }
}

}
