//! The receiving end of the edges into a domain: the last label seen from each
//! parent, and the handover to a replacement parent.
use std::collections::HashMap;

use vstd::prelude::*;

use crate::clock::DomainIndex;
use crate::packet::Packet;

verus! {

broadcast use vstd::std_specs::hash::group_hash_axioms;

/// One packet as sequencing sees it: its parent, its label, and whether it
/// is a replay.
pub type Arrival = (DomainIndex, usize, bool);

/// A packet with `label` from `from` is in order after the labels in `last`:
/// nothing came from that parent yet, or the label is higher than the last
/// one, or it repeats the last one on a replay.
pub open spec fn admits(last: Map<DomainIndex, usize>, from: DomainIndex, label: usize, replay: bool) -> bool {
    ||| !last.contains_key(from)
    ||| label > last[from]
    ||| label == last[from] && replay
}

/// The last labels after `events` arrive, one after another, on `last`.
pub open spec fn after(last: Map<DomainIndex, usize>, events: Seq<Arrival>) -> Map<DomainIndex, usize>
    decreases events.len(),
{
    if events.len() == 0 {
        last
    } else {
        after(last, events.drop_last()).insert(events.last().0, events.last().1)
    }
}

/// Every one of `events` is in order when it arrives.
pub open spec fn accepted(last: Map<DomainIndex, usize>, events: Seq<Arrival>) -> bool
    decreases events.len(),
{
    events.len() == 0 || {
        &&& accepted(last, events.drop_last())
        &&& admits(after(last, events.drop_last()), events.last().0, events.last().1, events.last().2)
    }
}

/// The last labels once parent `prev` hands over to `next`: `next` takes
/// `prev`'s last label, or 0 when nothing came from `prev`.
pub open spec fn handover(last: Map<DomainIndex, usize>, prev: DomainIndex, next: DomainIndex) -> Map<DomainIndex, usize> {
    last.remove(prev).insert(next, resume_after(last, prev))
}

/// The last label seen from `prev`, or 0 when nothing came from it.
pub open spec fn resume_after(last: Map<DomainIndex, usize>, prev: DomainIndex) -> usize {
    if last.contains_key(prev) { last[prev] } else { 0 }
}

/// A stream of fresh packets from one parent, with the given labels.
pub open spec fn stream(from: DomainIndex, labels: Seq<usize>) -> Seq<Arrival> {
    Seq::new(labels.len(), |k: int| (from, labels[k], false))
}

/// The receive state of an ingress node.
pub struct Ingress {
    src: Option<DomainIndex>,
    last_packet_received: HashMap<DomainIndex, usize>,
}

impl Ingress {
    /// The parent domain, once wired.
    pub closed spec fn parent(&self) -> Option<DomainIndex> {
        self.src
    }

    /// The last label received from each parent.
    pub closed spec fn last(&self) -> Map<DomainIndex, usize> {
        self.last_packet_received@
    }

    /// An ingress with no parent and nothing received.
    pub fn new() -> (r: Ingress)
        ensures
            r.parent() is None,
            r.last() == Map::<DomainIndex, usize>::empty(),
    {
        Ingress { src: None, last_packet_received: HashMap::new() }
    }

    /// Wires the parent; it may be set only once.
    pub fn set_src(&mut self, src: DomainIndex)
        requires
            old(self).parent() is None,
        ensures
            final(self).parent() == Some(src),
            final(self).last() == old(self).last(),
    {
        self.src = Some(src);
    }

    /// The parent domain.
    pub fn src(&self) -> (r: DomainIndex)
        requires
            self.parent() is Some,
        ensures
            self.parent() == Some(r),
    {
        self.src.unwrap()
    }

    /// Whether a packet is in order after the labels received so far.
    pub fn accepts(&self, m: &Packet) -> (r: bool)
        ensures
            r == admits(self.last(), m.id_spec().from, m.id_spec().label, m.is_replay_spec()),
    {
        let id = m.id();
        match self.last_packet_received.get(&id.from) {
            None => true,
            Some(prev) => id.label > *prev || (id.label == *prev && m.is_replay()),
        }
    }

    /// Records the label of a packet from a parent. Labels from one parent
    /// rise, but for a replay, which may repeat the last one.
    pub fn receive_packet(&mut self, m: &Packet)
        requires
            admits(old(self).last(), m.id_spec().from, m.id_spec().label, m.is_replay_spec()),
        ensures
            final(self).parent() == old(self).parent(),
            final(self).last() == old(self).last().insert(m.id_spec().from, m.id_spec().label),
    {
        let id = m.id();
        self.last_packet_received.insert(id.from, id.label);
    }

    /// Replaces the connection from `prev` with one from `next`, which takes
    /// over `prev`'s last label. Returns the first label that `next` must send.
    pub fn new_incoming(&mut self, prev: DomainIndex, next: DomainIndex) -> (r: usize)
        requires
            old(self).parent() == Some(prev),
            resume_after(old(self).last(), prev) < usize::MAX,
        ensures
            final(self).parent() == Some(next),
            final(self).last() == handover(old(self).last(), prev, next),
            r == resume_after(old(self).last(), prev) + 1,
    {
        self.src = Some(next);
        let label = match self.last_packet_received.remove(&prev) {
            Some(l) => l,
            None => 0,
        };
        self.last_packet_received.insert(next, label);
        proof {
            assert(self.last_packet_received@ =~= handover(old(self).last(), prev, next));
        }
        label + 1
    }
}

impl Default for Ingress {
    fn default() -> (r: Ingress)
        ensures
            r.parent() is None,
            r.last() == Map::<DomainIndex, usize>::empty(),
    {
        Ingress::new()
    }
}

/// After a run of arrivals, a parent's entry is the label of its latest one.
proof fn lemma_after_latest(last: Map<DomainIndex, usize>, events: Seq<Arrival>, i: int)
    requires
        0 <= i < events.len(),
        forall|k: int| i < k < events.len() ==> (#[trigger] events[k]).0 != events[i].0,
    ensures
        after(last, events).contains_key(events[i].0),
        after(last, events)[events[i].0] == events[i].1,
    decreases events.len(),
{
    if i < events.len() - 1 {
        let pre = events.drop_last();
        assert forall|k: int| i < k < pre.len() implies (#[trigger] pre[k]).0 != pre[i].0 by {
            assert(pre[k] == events[k]);
        }
        lemma_after_latest(last, pre, i);
    }
}

/// Each arrival of an accepted run is in order after the ones before it.
proof fn lemma_accepted_step(last: Map<DomainIndex, usize>, events: Seq<Arrival>, j: int)
    requires
        accepted(last, events),
        0 <= j < events.len(),
    ensures
        admits(after(last, events.subrange(0, j)), events[j].0, events[j].1, events[j].2),
    decreases events.len(),
{
    if j == events.len() - 1 {
        assert(events.subrange(0, j) =~= events.drop_last());
    } else {
        let pre = events.drop_last();
        lemma_accepted_step(last, pre, j);
        assert(pre.subrange(0, j) =~= events.subrange(0, j));
    }
}

/// Along any run of packets that an ingress accepts, a packet from a parent
/// carries a higher label than the previous packet from that parent, or the
/// same label on a replay.
pub proof fn lemma_labels_rise(last: Map<DomainIndex, usize>, events: Seq<Arrival>, i: int, j: int)
    requires
        accepted(last, events),
        0 <= i < j < events.len(),
        events[i].0 == events[j].0,
        forall|k: int| i < k < j ==> (#[trigger] events[k]).0 != events[i].0,
    ensures
        events[j].1 > events[i].1 || (events[j].1 == events[i].1 && events[j].2),
{
    lemma_accepted_step(last, events, j);
    let pre = events.subrange(0, j);
    assert forall|k: int| i < k < pre.len() implies (#[trigger] pre[k]).0 != pre[i].0 by {
        assert(pre[k] == events[k]);
    }
    lemma_after_latest(last, pre, i);
}

/// Once parent `prev` hands over to `next`, a replacement that starts at the
/// label that the handover returned and sends rising labels is accepted
/// wherever the replaced parent, going on with the same labels, would have
/// been, and leaves the same last labels, with `next` in place of `prev`.
pub proof fn lemma_resume_continues(last: Map<DomainIndex, usize>, prev: DomainIndex, next: DomainIndex, labels: Seq<usize>)
    requires
        last.contains_key(prev),
        labels.len() > 0 ==> labels[0] == resume_after(last, prev) + 1,
        forall|k: int| 0 <= k < labels.len() - 1 ==> #[trigger] labels[k] < labels[k + 1],
    ensures
        accepted(last, stream(prev, labels)),
        accepted(handover(last, prev, next), stream(next, labels)),
        after(handover(last, prev, next), stream(next, labels)) == handover(after(last, stream(prev, labels)), prev, next),
        after(last, stream(prev, labels)).contains_key(prev),
        after(last, stream(prev, labels))[prev] == if labels.len() > 0 { labels.last() } else { last[prev] },
    decreases labels.len(),
{
    let h = handover(last, prev, next);
    if labels.len() == 0 {
        assert(stream(prev, labels) =~= Seq::<Arrival>::empty());
        assert(stream(next, labels) =~= Seq::<Arrival>::empty());
    } else {
        let pre = labels.drop_last();
        let x = labels.last();
        assert forall|k: int| 0 <= k < pre.len() - 1 implies #[trigger] pre[k] < pre[k + 1] by {
            assert(labels[k] < labels[k + 1]);
        }
        lemma_resume_continues(last, prev, next, pre);
        assert(stream(prev, labels).drop_last() =~= stream(prev, pre));
        assert(stream(next, labels).drop_last() =~= stream(next, pre));
        let a = after(last, stream(prev, pre));
        let b = after(h, stream(next, pre));
        if pre.len() > 0 {
            assert(labels[pre.len() - 1] < labels[pre.len() as int]);
        }
        assert(x > a[prev]);
        assert(b[next] == a[prev]);
        assert(after(h, stream(next, labels)) =~= handover(after(last, stream(prev, labels)), prev, next));
    }
}

}
