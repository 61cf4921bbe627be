//! Tree-shaped logical clocks that record, for every domain on the upstream
//! path of a message, the label of the message that contributed to it.
use vstd::prelude::*;

use crate::graph::{
    edges_valid, graph_edges, graph_weights, incoming, is_pred, lemma_sources_into, node_count, node_weight,
    weights_distinct, within, DomainGraph,
};

verus! {

broadcast use vstd::std_specs::vec::group_vec_axioms;

/// Index of a domain in the domain graph.
pub type DomainIndex = usize;

/// A shard of a domain: `(domain, shard)`.
pub type ReplicaAddr = (DomainIndex, usize);

/// Address and label of each node that an update moved, in no particular order.
pub type AddrLabels = Vec<(ReplicaAddr, usize)>;

/// A diff has the shape of a clock: the labels that produced one new message.
pub type TreeClockDiff = TreeClock;

/// A rooted tree of `(address, label)` pairs. The children of a node are kept
/// in `edges`, at most one per address (see `wf`); their order carries no
/// meaning. The clock is modelled by `root` and `labels()`, a map from the
/// path of addresses that leads below the root to a node, to that node's label.
#[derive(Debug)]
pub struct TreeClock {
    pub root: ReplicaAddr,
    pub label: usize,
    pub edges: Vec<TreeClock>,
}

/// Keeps the entries of `m` whose path is shorter than `d`, i.e. the nodes at
/// depth at most `d` (the root is at depth 1).
pub open spec fn within_depth(m: Map<Seq<ReplicaAddr>, usize>, d: int) -> Map<Seq<ReplicaAddr>, usize> {
    m.restrict(Set::new(|p: Seq<ReplicaAddr>| p.len() < d))
}

impl TreeClock {
    /// Sibling nodes have distinct addresses, at every level.
    pub open spec fn wf(self) -> bool
        decreases self,
    {
        &&& forall|i: int, j: int|
            0 <= i < j < self.edges.len() ==> self.edges@[i].root != self.edges@[j].root
        &&& forall|i: int| 0 <= i < self.edges.len() ==> (#[trigger] self.edges@[i]).wf()
    }

    pub open spec fn has_child(self, a: ReplicaAddr) -> bool {
        exists|i: int| 0 <= i < self.edges.len() && self.edges@[i].root == a
    }

    pub open spec fn child(self, a: ReplicaAddr) -> TreeClock {
        self.edges@[choose|i: int| 0 <= i < self.edges.len() && self.edges@[i].root == a]
    }

    /// The node reached from this one by following the addresses of `p`.
    pub open spec fn at(self, p: Seq<ReplicaAddr>) -> Option<TreeClock>
        decreases p.len(),
    {
        if p.len() == 0 {
            Some(self)
        } else if self.has_child(p[0]) {
            self.child(p[0]).at(p.drop_first())
        } else {
            None
        }
    }

    /// The label of every node, keyed by its path below the root.
    pub open spec fn labels(self) -> Map<Seq<ReplicaAddr>, usize> {
        Map::new(|p: Seq<ReplicaAddr>| self.at(p) is Some, |p: Seq<ReplicaAddr>| self.at(p)->0.label)
    }

    /// The addresses that appear anywhere in the clock.
    pub open spec fn addrs(self) -> Set<ReplicaAddr> {
        Set::new(|a: ReplicaAddr| exists|p: Seq<ReplicaAddr>| self.at(p) is Some && (#[trigger] self.at(p))->0.root == a)
    }

    /// The clock mirrors the graph read against its edges from node `ni`, to
    /// `d` levels (the root is level 1), with every label 0: a node has a child
    /// for each address of a node that feeds it, and that child mirrors such a
    /// node to one level less.
    pub open spec fn spans(self, g: DomainGraph, ni: usize, d: nat) -> bool
        decreases d, 0nat,
    {
        &&& self.root == graph_weights(g)[ni as int]
        &&& self.label == 0
        &&& d <= 1 ==> self.edges.len() == 0
        &&& d > 1 ==> forall|a: ReplicaAddr| #[trigger] self.has_child(a) <==> exists|m: usize|
            m < graph_weights(g).len() && #[trigger] is_pred(g, m, ni) && graph_weights(g)[m as int] == a
        &&& d > 1 ==> forall|k: int| 0 <= k < self.edges.len() ==> (#[trigger] self.edges@[k]).spans_pred(g, ni, (d - 1) as nat)
    }

    /// The clock mirrors, to `d` levels, some node of the graph that feeds `ni`.
    pub open spec fn spans_pred(self, g: DomainGraph, ni: usize, d: nat) -> bool
        decreases d, 1nat,
    {
        exists|m: usize| m < graph_weights(g).len() && #[trigger] is_pred(g, m, ni) && self.spans(g, m, d)
    }

    /// The two clocks hold the same labels in the same shape, whatever the
    /// order of their children.
    pub open spec fn same_tree(self, o: TreeClock) -> bool
        decreases self, 0nat,
    {
        &&& self.label == o.label
        &&& forall|k: int| 0 <= k < self.edges.len() ==> (#[trigger] self.edges@[k]).matched_in(o.edges@)
        &&& forall|m: int| 0 <= m < o.edges.len() ==> root_in_from(self.edges@, 0, (#[trigger] o.edges@[m]).root)
    }

    /// Some clock of `os` has this clock's root and is the same tree.
    pub open spec fn matched_in(self, os: Seq<TreeClock>) -> bool
        decreases self, 1nat,
    {
        exists|m: int| #![trigger os[m]] 0 <= m < os.len() && os[m].root == self.root && self.same_tree(os[m])
    }

    /// Every strict prefix of `p` leads to a node in this clock and in `u`, and
    /// `u`'s label there is ahead of this clock's.
    pub open spec fn advanced_above(self, u: TreeClock, p: Seq<ReplicaAddr>) -> bool {
        forall|j: int| 0 <= j < p.len() ==> {
            &&& #[trigger] self.at(p.take(j)) is Some
            &&& u.at(p.take(j)) is Some
            &&& self.at(p.take(j))->0.label < u.at(p.take(j))->0.label
        }
    }

    /// Applying `u` visits the node at `p`: it is in both clocks, and every
    /// node above it moved forward.
    pub open spec fn reaches(self, u: TreeClock, p: Seq<ReplicaAddr>) -> bool {
        &&& self.at(p) is Some
        &&& u.at(p) is Some
        &&& self.advanced_above(u, p)
    }

    /// Applying `u` changes the label of the node at `p`.
    pub open spec fn advances(self, u: TreeClock, p: Seq<ReplicaAddr>) -> bool {
        self.reaches(u, p) && self.at(p)->0.label < u.at(p)->0.label
    }

    /// Applying `u` moves the node at `p`, which has the address and old label
    /// of `e`, to the new label of `e`.
    pub open spec fn changes_at(self, u: TreeClock, p: Seq<ReplicaAddr>, e: (ReplicaAddr, usize, usize)) -> bool {
        &&& self.advances(u, p)
        &&& self.at(p)->0.root == e.0
        &&& self.at(p)->0.label == e.1
        &&& u.at(p)->0.label == e.2
    }

    /// `e` records the move of some node when `u` is applied.
    pub open spec fn justifies(self, u: TreeClock, e: (ReplicaAddr, usize, usize)) -> bool {
        exists|p: Seq<ReplicaAddr>| #[trigger] self.changes_at(u, p, e)
    }

    /// The record of the move of the node at `p` when `u` is applied.
    pub open spec fn change_of(self, u: TreeClock, p: Seq<ReplicaAddr>) -> (ReplicaAddr, usize, usize) {
        (self.at(p)->0.root, self.at(p)->0.label, u.at(p)->0.label)
    }

    /// `ps` gives, position by position, the path of the node whose move `s`
    /// records when `u` is applied; every node that moves is listed exactly once.
    pub open spec fn moves_listed(self, u: TreeClock, ps: Seq<Seq<ReplicaAddr>>, s: Seq<(ReplicaAddr, usize, usize)>) -> bool {
        &&& ps.len() == s.len()
        &&& ps.no_duplicates()
        &&& forall|k: int| 0 <= k < ps.len() ==> self.changes_at(u, #[trigger] ps[k], s[k])
        &&& forall|p: Seq<ReplicaAddr>| #[trigger] self.advances(u, p) ==> ps.contains(p)
    }

    /// `ps` gives, position by position, the path of the node whose move the
    /// pair of lists records (address and old label in `olds`, address and new
    /// label in `news`); every node that moves and does not carry the root's
    /// address is listed exactly once.
    pub open spec fn changes_listed(self, u: TreeClock, ps: Seq<Seq<ReplicaAddr>>, olds: Seq<(ReplicaAddr, usize)>, news: Seq<(ReplicaAddr, usize)>) -> bool {
        &&& ps.len() == olds.len()
        &&& ps.len() == news.len()
        &&& ps.no_duplicates()
        &&& forall|k: int| 0 <= k < ps.len() ==> {
            &&& self.changes_at(u, #[trigger] ps[k], (olds[k].0, olds[k].1, news[k].1))
            &&& news[k].0 == olds[k].0
            &&& self.at(ps[k])->0.root != self.root
        }
        &&& forall|p: Seq<ReplicaAddr>| #[trigger] self.advances(u, p) && self.at(p)->0.root != self.root ==> ps.contains(p)
    }

    /// `ps` gives, position by position, the path of the node whose address and
    /// label `s` holds; every node is listed exactly once.
    pub open spec fn nodes_listed(self, ps: Seq<Seq<ReplicaAddr>>, s: Seq<(ReplicaAddr, usize)>) -> bool {
        &&& ps.len() == s.len()
        &&& ps.no_duplicates()
        &&& forall|k: int| 0 <= k < ps.len() ==> (#[trigger] self.at(ps[k])) is Some
            && s[k] == (self.at(ps[k])->0.root, self.at(ps[k])->0.label)
        &&& forall|p: Seq<ReplicaAddr>| #[trigger] self.at(p) is Some ==> ps.contains(p)
    }

    /// Every node on the way from the root down to the end of `p` (the root
    /// excluded) is held by both clocks and is not the same tree in both.
    pub open spec fn differs_along(self, o: TreeClock, p: Seq<ReplicaAddr>) -> bool {
        forall|j: int| 1 <= j <= p.len() ==> {
            &&& #[trigger] self.at(p.take(j)) is Some
            &&& o.at(p.take(j)) is Some
            &&& !self.at(p.take(j))->0.same_tree(o.at(p.take(j))->0)
        }
    }

    /// The labels of `o` at the paths along which it differs from this clock.
    pub open spec fn diff_labels(self, o: TreeClock) -> Map<Seq<ReplicaAddr>, usize> {
        Map::new(
            |p: Seq<ReplicaAddr>| o.at(p) is Some && self.differs_along(o, p),
            |p: Seq<ReplicaAddr>| o.at(p)->0.label,
        )
    }

    /// `u` has this clock's root, and is nowhere behind it where it is applied.
    pub open spec fn can_apply(self, u: TreeClock) -> bool {
        &&& self.root == u.root
        &&& forall|p: Seq<ReplicaAddr>| #[trigger] self.reaches(u, p) ==> self.at(p)->0.label <= u.at(p)->0.label
    }

    /// The labels after `u` is applied: `u`'s label on every node reached,
    /// the old one elsewhere.
    pub open spec fn applied(self, u: TreeClock) -> Map<Seq<ReplicaAddr>, usize> {
        Map::new(
            |p: Seq<ReplicaAddr>| self.at(p) is Some,
            |p: Seq<ReplicaAddr>| if self.reaches(u, p) { u.at(p)->0.label } else { self.at(p)->0.label },
        )
    }
}

pub proof fn lemma_child_index(t: TreeClock, i: int)
    requires
        t.wf(),
        0 <= i < t.edges.len(),
    ensures
        t.has_child(t.edges@[i].root),
        t.child(t.edges@[i].root) == t.edges@[i],
{
    let a = t.edges@[i].root;
    assert(t.has_child(a));
    let j = choose|j: int| 0 <= j < t.edges.len() && t.edges@[j].root == a;
    if j != i {
        if j < i {
            assert(t.edges@[j].root != t.edges@[i].root);
        } else {
            assert(t.edges@[i].root != t.edges@[j].root);
        }
    }
}

/// Following a path that starts at the address of child `i` means following
/// the rest of it from that child.
pub proof fn lemma_at_step(t: TreeClock, i: int, p: Seq<ReplicaAddr>)
    requires
        t.wf(),
        0 <= i < t.edges.len(),
        p.len() > 0,
        p[0] == t.edges@[i].root,
    ensures
        t.at(p) == t.edges@[i].at(p.drop_first()),
{
    lemma_child_index(t, i);
}

/// Every path starts either at the address of some child or nowhere.
pub proof fn lemma_at_none(t: TreeClock, p: Seq<ReplicaAddr>)
    requires
        p.len() > 0,
        !t.has_child(p[0]),
    ensures
        t.at(p) is None,
{
}

/// A path into child `i` of `t`, which is child `m` of `u`, is reached in `t`
/// exactly when its rest is reached in the child, once `t`'s root moved forward.
proof fn lemma_reaches_step(t: TreeClock, u: TreeClock, i: int, m: int, p: Seq<ReplicaAddr>)
    requires
        t.wf(),
        u.wf(),
        t.label < u.label,
        0 <= i < t.edges.len(),
        0 <= m < u.edges.len(),
        t.edges@[i].root == u.edges@[m].root,
        p.len() > 0,
        p[0] == t.edges@[i].root,
    ensures
        t.reaches(u, p) == t.edges@[i].reaches(u.edges@[m], p.drop_first()),
        t.at(p) == t.edges@[i].at(p.drop_first()),
        u.at(p) == u.edges@[m].at(p.drop_first()),
{
    let c = t.edges@[i];
    let uc = u.edges@[m];
    let q = p.drop_first();
    lemma_at_step(t, i, p);
    lemma_at_step(u, m, p);
    assert forall|j: int| 0 <= j < q.len() implies
        t.at(#[trigger] p.take(j + 1)) == c.at(q.take(j)) && u.at(p.take(j + 1)) == uc.at(q.take(j)) by {
        assert(p.take(j + 1).drop_first() =~= q.take(j));
        lemma_at_step(t, i, p.take(j + 1));
        lemma_at_step(u, m, p.take(j + 1));
    }
    assert(p.take(0) =~= Seq::<ReplicaAddr>::empty());
    if t.advanced_above(u, p) {
        assert forall|j: int| 0 <= j < q.len() implies {
            &&& #[trigger] c.at(q.take(j)) is Some
            &&& uc.at(q.take(j)) is Some
            &&& c.at(q.take(j))->0.label < uc.at(q.take(j))->0.label
        } by {
            assert(t.at(p.take(j + 1)) is Some);
        }
    }
    if c.advanced_above(uc, q) {
        assert forall|j: int| 0 <= j < p.len() implies {
            &&& #[trigger] t.at(p.take(j)) is Some
            &&& u.at(p.take(j)) is Some
            &&& t.at(p.take(j))->0.label < u.at(p.take(j))->0.label
        } by {
            if j > 0 {
                assert(c.at(q.take(j - 1)) is Some);
                assert(p.take((j - 1) + 1) == p.take(j));
            }
        }
    }
}

/// The labels of both clocks, the larger where both hold a node.
pub open spec fn max_merge(m1: Map<Seq<ReplicaAddr>, usize>, m2: Map<Seq<ReplicaAddr>, usize>) -> Map<Seq<ReplicaAddr>, usize> {
    Map::new(
        |p: Seq<ReplicaAddr>| m1.contains_key(p) || m2.contains_key(p),
        |p: Seq<ReplicaAddr>|
            if m1.contains_key(p) && m2.contains_key(p) {
                if m1[p] >= m2[p] { m1[p] } else { m2[p] }
            } else if m1.contains_key(p) {
                m1[p]
            } else {
                m2[p]
            },
    )
}

/// The labels of a clock without the subtree under address `a`.
pub open spec fn prune(m: Map<Seq<ReplicaAddr>, usize>, a: ReplicaAddr) -> Map<Seq<ReplicaAddr>, usize> {
    m.restrict(Set::new(|p: Seq<ReplicaAddr>| !(p.len() > 0 && p[0] == a)))
}

/// The two maps give the same label wherever both hold a path.
pub open spec fn agree(m1: Map<Seq<ReplicaAddr>, usize>, m2: Map<Seq<ReplicaAddr>, usize>) -> bool {
    forall|p: Seq<ReplicaAddr>| m1.contains_key(p) && m2.contains_key(p) ==> m1[p] == m2[p]
}

/// No clock of `es` has root `a`.
pub open spec fn root_absent(es: Seq<TreeClock>, a: ReplicaAddr) -> bool {
    forall|y: int| 0 <= y < es.len() ==> es[y].root != a
}

/// Some clock of `es`, from position `lo` on, has root `a`.
pub open spec fn root_in_from(es: Seq<TreeClock>, lo: int, a: ReplicaAddr) -> bool {
    exists|k: int| lo <= k < es.len() && es[k].root == a
}

/// `c` has the root and the labels of one of the first `j` clocks of `os`,
/// whose root no clock of `es` has.
pub open spec fn copied_from(os: Seq<TreeClock>, j: int, c: TreeClock, es: Seq<TreeClock>) -> bool {
    exists|x: int| 0 <= x < j && #[trigger] os[x].root == c.root && c.labels() == os[x].labels() && root_absent(es, os[x].root)
}

/// `e` is among the entries of `s` from position `lo` on.
pub open spec fn recorded(s: Seq<(ReplicaAddr, usize, usize)>, lo: int, e: (ReplicaAddr, usize, usize)) -> bool {
    exists|k: int| lo <= k < s.len() && s[k] == e
}

/// The paths of `ps`, each under address `a`.
pub open spec fn under(a: ReplicaAddr, ps: Seq<Seq<ReplicaAddr>>) -> Seq<Seq<ReplicaAddr>> {
    ps.map_values(|q: Seq<ReplicaAddr>| seq![a] + q)
}

proof fn lemma_under(a: ReplicaAddr, ps: Seq<Seq<ReplicaAddr>>)
    requires
        ps.no_duplicates(),
    ensures
        under(a, ps).len() == ps.len(),
        under(a, ps).no_duplicates(),
        forall|k: int| 0 <= k < ps.len() ==> (#[trigger] under(a, ps)[k]).len() > 0 && under(a, ps)[k][0] == a
            && under(a, ps)[k].drop_first() == ps[k],
{
    let us = under(a, ps);
    assert forall|k: int| 0 <= k < ps.len() implies (#[trigger] us[k]).len() > 0 && us[k][0] == a
        && us[k].drop_first() == ps[k] by {
        assert(us[k] == seq![a] + ps[k]);
        assert((seq![a] + ps[k]).drop_first() =~= ps[k]);
    }
    assert forall|i: int, j: int| 0 <= i < us.len() && 0 <= j < us.len() && i != j implies us[i] != us[j] by {
        assert(us[i].drop_first() == ps[i]);
        assert(us[j].drop_first() == ps[j]);
    }
}

/// `p` is among the first `i` paths of `ps`.
pub open spec fn path_before(ps: Seq<Seq<ReplicaAddr>>, i: int, p: Seq<ReplicaAddr>) -> bool {
    exists|j: int| 0 <= j < i && ps[j] == p
}

/// Some clock among the first `i` of `es` has root `a`.
pub open spec fn root_before(es: Seq<TreeClock>, i: int, a: ReplicaAddr) -> bool {
    exists|x: int| 0 <= x < i && es[x].root == a
}

/// The position in `edges` of the clock with root `a`, if there is one.
fn find_in(edges: &Vec<TreeClock>, a: ReplicaAddr) -> (r: Option<usize>)
    ensures
        match r {
            Some(i) => i < edges.len() && edges@[i as int].root == a,
            None => forall|k: int| 0 <= k < edges.len() ==> edges@[k].root != a,
        },
{
    let n = edges.len();
    let mut i: usize = 0;
    while i < n
        invariant
            n == edges.len(),
            forall|k: int| 0 <= k < i ==> edges@[k].root != a,
        decreases n - i,
    {
        if edges[i].root.0 == a.0 && edges[i].root.1 == a.1 {
            return Some(i);
        }
        i = i + 1;
    }
    None
}

/// A diff can be applied exactly when it is not behind at the root and, where
/// it is ahead there, each child that both clocks hold can take the diff's
/// child.
proof fn lemma_can_apply_step(t: TreeClock, u: TreeClock)
    requires
        t.wf(),
        u.wf(),
        t.root == u.root,
    ensures
        t.can_apply(u) == (t.label <= u.label && (t.label < u.label ==> forall|i: int| 0 <= i < t.edges.len()
            && u.has_child(t.edges@[i].root) ==> (#[trigger] t.edges@[i]).can_apply(u.child(t.edges@[i].root)))),
{
    let e = Seq::<ReplicaAddr>::empty();
    assert(t.at(e) == Some(t));
    assert(u.at(e) == Some(u));
    assert(t.reaches(u, e));
    if t.can_apply(u) && t.label < u.label {
        assert forall|i: int| 0 <= i < t.edges.len() && u.has_child(t.edges@[i].root) implies (#[trigger] t.edges@[i]).can_apply(u.child(t.edges@[i].root)) by {
            let c = t.edges@[i];
            let m = choose|m: int| 0 <= m < u.edges.len() && u.edges@[m].root == c.root;
            lemma_child_index(u, m);
            let uc = u.edges@[m];
            assert forall|q: Seq<ReplicaAddr>| #[trigger] c.reaches(uc, q) implies c.at(q)->0.label <= uc.at(q)->0.label by {
                let p = seq![c.root] + q;
                assert(p.drop_first() =~= q);
                lemma_reaches_step(t, u, i, m, p);
                assert(t.reaches(u, p));
            }
        }
    }
    if t.label <= u.label && (t.label < u.label ==> forall|i: int| 0 <= i < t.edges.len()
        && u.has_child(t.edges@[i].root) ==> (#[trigger] t.edges@[i]).can_apply(u.child(t.edges@[i].root))) {
        assert forall|p: Seq<ReplicaAddr>| #[trigger] t.reaches(u, p) implies t.at(p)->0.label <= u.at(p)->0.label by {
            if p.len() > 0 {
                assert(p.take(0) =~= e);
                let i = choose|i: int| 0 <= i < t.edges.len() && t.edges@[i].root == p[0];
                let m = choose|m: int| 0 <= m < u.edges.len() && u.edges@[m].root == p[0];
                lemma_child_index(u, m);
                lemma_reaches_step(t, u, i, m, p);
                assert(t.edges@[i].can_apply(u.child(t.edges@[i].root)));
                assert(t.edges@[i].reaches(u.edges@[m], p.drop_first()));
            } else {
                assert(p =~= e);
            }
        }
    }
}

/// A path into child `i` of `s`, which differs from child `m` of `o` with the
/// same address, differs all along exactly when its rest does in the children.
proof fn lemma_differs_step(s: TreeClock, o: TreeClock, i: int, m: int, p: Seq<ReplicaAddr>)
    requires
        s.wf(),
        o.wf(),
        0 <= i < s.edges.len(),
        0 <= m < o.edges.len(),
        s.edges@[i].root == o.edges@[m].root,
        !s.edges@[i].same_tree(o.edges@[m]),
        p.len() > 0,
        p[0] == s.edges@[i].root,
    ensures
        s.differs_along(o, p) == s.edges@[i].differs_along(o.edges@[m], p.drop_first()),
        o.at(p) == o.edges@[m].at(p.drop_first()),
{
    let c = s.edges@[i];
    let oc = o.edges@[m];
    let q = p.drop_first();
    lemma_at_step(o, m, p);
    assert forall|j: int| 1 <= j <= p.len() implies
        s.at(#[trigger] p.take(j)) == c.at(q.take(j - 1)) && o.at(p.take(j)) == oc.at(q.take(j - 1)) by {
        assert(p.take(j).drop_first() =~= q.take(j - 1));
        lemma_at_step(s, i, p.take(j));
        lemma_at_step(o, m, p.take(j));
    }
    let e = Seq::<ReplicaAddr>::empty();
    assert(q.take(0) =~= e);
    assert(c.at(e) == Some(c));
    assert(oc.at(e) == Some(oc));
    if s.differs_along(o, p) {
        assert forall|j: int| 1 <= j <= q.len() implies {
            &&& #[trigger] c.at(q.take(j)) is Some
            &&& oc.at(q.take(j)) is Some
            &&& !c.at(q.take(j))->0.same_tree(oc.at(q.take(j))->0)
        } by {
            assert(s.at(p.take(j + 1)) is Some);
            assert((j + 1) - 1 == j);
        }
    }
    if c.differs_along(oc, q) {
        assert forall|j: int| 1 <= j <= p.len() implies {
            &&& #[trigger] s.at(p.take(j)) is Some
            &&& o.at(p.take(j)) is Some
            &&& !s.at(p.take(j))->0.same_tree(o.at(p.take(j))->0)
        } by {
            if j > 1 {
                assert(c.at(q.take(j - 1)) is Some);
            }
        }
    }
}

/// A clock whose children have the same addresses, in the same places, as the
/// children of a well-formed clock, and are well formed, is well formed.
proof fn lemma_same_roots(a: TreeClock, b: TreeClock)
    requires
        a.wf(),
        a.edges.len() == b.edges.len(),
        forall|k: int| 0 <= k < a.edges.len() ==> (#[trigger] b.edges@[k]).root == a.edges@[k].root,
        forall|k: int| 0 <= k < b.edges.len() ==> (#[trigger] b.edges@[k]).wf(),
    ensures
        b.wf(),
        forall|x: ReplicaAddr| #[trigger] b.has_child(x) == a.has_child(x),
{
    assert forall|x: ReplicaAddr| #[trigger] b.has_child(x) == a.has_child(x) by {
        if b.has_child(x) {
            let k = choose|k: int| 0 <= k < b.edges.len() && b.edges@[k].root == x;
            assert(a.edges@[k].root == x);
        }
        if a.has_child(x) {
            let k = choose|k: int| 0 <= k < a.edges.len() && a.edges@[k].root == x;
            assert(b.edges@[k].root == x);
        }
    }
    assert forall|i: int, j: int| 0 <= i < j < b.edges.len() implies b.edges@[i].root != b.edges@[j].root by {
        assert(a.edges@[i].root != a.edges@[j].root);
    }
}

/// Two well-formed clocks with the same label whose children match place by
/// place, in address and in labels, have the same labels.
proof fn lemma_labels_ext(a: TreeClock, b: TreeClock)
    requires
        a.wf(),
        b.wf(),
        a.label == b.label,
        a.edges.len() == b.edges.len(),
        forall|k: int| 0 <= k < a.edges.len() ==> (#[trigger] b.edges@[k]).root == a.edges@[k].root,
        forall|k: int| 0 <= k < a.edges.len() ==> (#[trigger] b.edges@[k]).labels() == a.edges@[k].labels(),
    ensures
        a.labels() == b.labels(),
{
    lemma_same_roots(a, b);
    assert forall|p: Seq<ReplicaAddr>| (a.at(p) is Some) == (b.at(p) is Some)
        && (a.at(p) is Some ==> a.at(p)->0.label == b.at(p)->0.label) by {
        if p.len() > 0 && a.has_child(p[0]) {
            let k = choose|k: int| 0 <= k < a.edges.len() && a.edges@[k].root == p[0];
            lemma_at_step(a, k, p);
            lemma_at_step(b, k, p);
            assert(a.edges@[k].labels().contains_key(p.drop_first()) == b.edges@[k].labels().contains_key(p.drop_first()));
            if a.at(p) is Some {
                assert(a.edges@[k].labels()[p.drop_first()] == b.edges@[k].labels()[p.drop_first()]);
            }
        }
    }
    assert(a.labels() =~= b.labels());
}

/// The labels of a clock after the subtree under address `a` is replaced by a
/// clock with labels `c`.
pub open spec fn graft(m: Map<Seq<ReplicaAddr>, usize>, a: ReplicaAddr, c: Map<Seq<ReplicaAddr>, usize>) -> Map<Seq<ReplicaAddr>, usize> {
    Map::new(
        |p: Seq<ReplicaAddr>| if p.len() > 0 && p[0] == a { c.contains_key(p.drop_first()) } else { m.contains_key(p) },
        |p: Seq<ReplicaAddr>| if p.len() > 0 && p[0] == a { c[p.drop_first()] } else { m[p] },
    )
}

/// Grafts each clock of `cs` in turn, so that a later one replaces an earlier
/// one with the same root.
pub open spec fn graft_all(m: Map<Seq<ReplicaAddr>, usize>, cs: Seq<TreeClock>) -> Map<Seq<ReplicaAddr>, usize>
    decreases cs.len(),
{
    if cs.len() == 0 {
        m
    } else {
        graft(graft_all(m, cs.drop_last()), cs.last().root, cs.last().labels())
    }
}

impl TreeClock {
    /// A clock with a root and a label and no children.
    pub fn new(root: ReplicaAddr, label: usize) -> (r: TreeClock)
        ensures
            r.wf(),
            r.root == root,
            r.label == label,
            r.edges.len() == 0,
            r.labels() == map![Seq::<ReplicaAddr>::empty() => label],
    {
        let r = TreeClock { root, label, edges: Vec::new() };
        proof {
            assert forall|p: Seq<ReplicaAddr>| r.at(p) is Some <==> p == Seq::<ReplicaAddr>::empty() by {
                if p.len() > 0 {
                    assert(!r.has_child(p[0]));
                } else {
                    assert(p =~= Seq::<ReplicaAddr>::empty());
                }
            }
            assert(r.labels() =~= map![Seq::<ReplicaAddr>::empty() => label]);
        }
        r
    }

    /// The position of the child with address `a`, if there is one.
    pub fn find(&self, a: ReplicaAddr) -> (r: Option<usize>)
        ensures
            match r {
                Some(i) => i < self.edges.len() && self.edges@[i as int].root == a,
                None => !self.has_child(a),
            },
    {
        let n = self.edges.len();
        let mut i: usize = 0;
        while i < n
            invariant
                n == self.edges.len(),
                forall|k: int| 0 <= k < i ==> self.edges@[k].root != a,
            decreases n - i,
        {
            if self.edges[i].root.0 == a.0 && self.edges[i].root.1 == a.1 {
                return Some(i);
            }
            i = i + 1;
        }
        None
    }

    /// A copy of the clock, node by node.
    pub fn duplicate(&self) -> (r: TreeClock)
        ensures
            r.root == self.root,
            r.label == self.label,
            self.wf() ==> r.wf() && r.labels() == self.labels(),
        decreases self,
    {
        let n = self.edges.len();
        let mut edges: Vec<TreeClock> = Vec::new();
        let mut i: usize = 0;
        while i < n
            invariant
                n == self.edges.len(),
                i <= n,
                edges.len() == i,
                forall|k: int| 0 <= k < i ==> {
                    &&& (#[trigger] edges@[k]).root == self.edges@[k].root
                    &&& self.edges@[k].wf() ==> edges@[k].wf() && edges@[k].labels() == self.edges@[k].labels()
                },
            decreases n - i,
        {
            proof {
                assert(decreases_to!(self.edges => self.edges[i as int]));
            }
            let c = self.edges[i].duplicate();
            edges.push(c);
            i = i + 1;
        }
        let r = TreeClock { root: self.root, label: self.label, edges };
        proof {
            if self.wf() {
                lemma_same_roots(*self, r);
                lemma_labels_ext(*self, r);
            }
        }
        r
    }

    /// Puts `child` under this clock, in place of any child with the same root.
    pub fn add_child(&mut self, child: TreeClock)
        requires
            old(self).wf(),
            child.wf(),
        ensures
            final(self).wf(),
            final(self).root == old(self).root,
            final(self).label == old(self).label,
            final(self).labels() == graft(old(self).labels(), child.root, child.labels()),
            forall|x: ReplicaAddr| #[trigger] final(self).has_child(x) == (old(self).has_child(x) || x == child.root),
            forall|k: int| 0 <= k < final(self).edges.len() ==> #[trigger] final(self).edges@[k] == child
                || old(self).edges@.contains(final(self).edges@[k]),
    {
        let ghost a = child.root;
        let ghost c = child;
        let i = match self.find(child.root) {
            Some(i) => {
                self.edges.set(i, child);
                i
            },
            None => {
                self.edges.push(child);
                proof {
                    assert(self.edges@[self.edges.len() - 1] == c);
                }
                self.edges.len() - 1
            },
        };
        proof {
            let o = *old(self);
            let t = *self;
            assert(t.edges@[i as int] == c);
            assert forall|x: int, y: int| 0 <= x < y < t.edges.len() implies t.edges@[x].root != t.edges@[y].root by {
                if x != i && y != i {
                    assert(o.edges@[x].root != o.edges@[y].root);
                } else if x == i {
                    assert(!(o.edges@[y].root == a) || y == i);
                    if y < o.edges.len() && o.edges@[y].root == a {
                        assert(o.has_child(a));
                    }
                } else {
                    if x < o.edges.len() && o.edges@[x].root == a {
                        assert(o.has_child(a));
                    }
                }
            }
            assert forall|k: int| 0 <= k < t.edges.len() implies (#[trigger] t.edges@[k]).wf() by {
                if k != i {
                    assert(t.edges@[k] == o.edges@[k]);
                }
            }
            assert(t.wf());
            let g = graft(o.labels(), a, c.labels());
            assert forall|p: Seq<ReplicaAddr>| #[trigger] t.labels().contains_key(p) == g.contains_key(p)
                && (t.labels().contains_key(p) ==> t.labels()[p] == g[p]) by {
                if p.len() > 0 {
                    if p[0] == a {
                        lemma_at_step(t, i as int, p);
                    } else if o.has_child(p[0]) {
                        let k = choose|k: int| 0 <= k < o.edges.len() && o.edges@[k].root == p[0];
                        assert(k != i);
                        assert(t.edges@[k] == o.edges@[k]);
                        lemma_at_step(o, k, p);
                        lemma_at_step(t, k, p);
                    } else {
                        assert(!t.has_child(p[0])) by {
                            if t.has_child(p[0]) {
                                let k = choose|k: int| 0 <= k < t.edges.len() && t.edges@[k].root == p[0];
                                assert(k != i);
                                assert(o.edges@[k] == t.edges@[k]);
                            }
                        }
                    }
                }
            }
            assert(t.labels() =~= g);
            assert forall|k: int| 0 <= k < t.edges.len() implies #[trigger] t.edges@[k] == c
                || o.edges@.contains(t.edges@[k]) by {
                if k != i {
                    assert(t.edges@[k] == o.edges@[k]);
                }
            }
            assert forall|x: ReplicaAddr| #[trigger] t.has_child(x) == (o.has_child(x) || x == a) by {
                if t.has_child(x) && x != a {
                    let k = choose|k: int| 0 <= k < t.edges.len() && t.edges@[k].root == x;
                    assert(o.edges@[k] == t.edges@[k]);
                }
                if o.has_child(x) && x != a {
                    let k = choose|k: int| 0 <= k < o.edges.len() && o.edges@[k].root == x;
                    assert(o.edges@[k] == t.edges@[k]);
                }
                if x == a {
                    assert(t.edges@[i as int].root == a);
                }
            }
        }
    }

    /// A clock with the given root and label and a copy of each of `children`
    /// under it; a later child replaces an earlier one with the same root.
    pub fn new_with(root: ReplicaAddr, label: usize, children: &[TreeClock]) -> (r: TreeClock)
        requires
            forall|k: int| 0 <= k < children@.len() ==> (#[trigger] children@[k]).wf(),
        ensures
            r.wf(),
            r.root == root,
            r.label == label,
            r.labels() == graft_all(map![Seq::<ReplicaAddr>::empty() => label], children@),
    {
        let mut p = TreeClock::new(root, label);
        let n = children.len();
        let mut i: usize = 0;
        while i < n
            invariant
                n == children@.len(),
                i <= n,
                forall|k: int| 0 <= k < children@.len() ==> (#[trigger] children@[k]).wf(),
                p.wf(),
                p.root == root,
                p.label == label,
                p.labels() == graft_all(map![Seq::<ReplicaAddr>::empty() => label], children@.subrange(0, i as int)),
            decreases n - i,
        {
            let c = children[i].duplicate();
            proof {
                let s = children@.subrange(0, i + 1);
                assert(s.drop_last() =~= children@.subrange(0, i as int));
                assert(s.last() == children@[i as int]);
            }
            p.add_child(c);
            proof {
                let s = children@.subrange(0, i + 1);
                assert(graft(p.labels(), c.root, c.labels()) == graft(p.labels(), c.root, c.labels()));
            }
            i = i + 1;
        }
        proof {
            assert(children@.subrange(0, n as int) =~= children@);
        }
        p
    }

    fn placeholder() -> (r: TreeClock) {
        TreeClock { root: (0, 0), label: 0, edges: Vec::new() }
    }

    /// Clears the labels of the clock, keeping its shape.
    fn zeroed(self) -> (r: TreeClock)
        requires
            self.wf(),
        ensures
            r.wf(),
            r.root == self.root,
            r.labels().dom() == self.labels().dom(),
            forall|p: Seq<ReplicaAddr>| #[trigger] r.labels().contains_key(p) ==> r.labels()[p] == 0,
        decreases self,
    {
        let ghost orig = self.edges;
        let mut edges = self.edges;
        let n = edges.len();
        let mut i: usize = 0;
        while i < n
            invariant
                n == edges.len(),
                n == orig.len(),
                orig == self.edges,
                self.wf(),
                forall|k: int| i <= k < n ==> edges@[k] == orig@[k],
                forall|k: int| 0 <= k < i ==> {
                    &&& (#[trigger] edges@[k]).wf()
                    &&& edges@[k].root == orig@[k].root
                    &&& edges@[k].labels().dom() == orig@[k].labels().dom()
                    &&& forall|p: Seq<ReplicaAddr>| #[trigger] edges@[k].labels().contains_key(p) ==> edges@[k].labels()[p] == 0
                },
            decreases n - i,
        {
            let c = edges.remove(i);
            proof {
                assert(decreases_to!(self => self.edges));
            }
            let z = c.zeroed();
            edges.insert(i, z);
            i = i + 1;
        }
        let r = TreeClock { root: self.root, label: 0, edges };
        proof {
            lemma_same_roots(self, r);
            assert forall|p: Seq<ReplicaAddr>| (r.at(p) is Some) == (self.at(p) is Some)
                && (r.at(p) is Some ==> r.at(p)->0.label == 0) by {
                if p.len() > 0 {
                    if self.has_child(p[0]) {
                        let k = choose|k: int| 0 <= k < self.edges.len() && self.edges@[k].root == p[0];
                        lemma_at_step(self, k, p);
                        lemma_at_step(r, k, p);
                        assert(r.edges@[k].labels().contains_key(p.drop_first()) == orig@[k].labels().contains_key(p.drop_first()));
                    }
                }
            }
            assert(r.labels().dom() =~= self.labels().dom());
        }
        r
    }

    /// Sets every label of the clock to 0, keeping its shape.
    pub fn zero(&mut self)
        requires
            old(self).wf(),
        ensures
            final(self).wf(),
            final(self).root == old(self).root,
            final(self).labels().dom() == old(self).labels().dom(),
            forall|p: Seq<ReplicaAddr>| #[trigger] final(self).labels().contains_key(p) ==> final(self).labels()[p] == 0,
    {
        let mut t = TreeClock::placeholder();
        std::mem::swap(self, &mut t);
        *self = t.zeroed();
    }

    fn trimmed(self, depth: usize) -> (r: TreeClock)
        requires
            self.wf(),
            depth >= 1,
        ensures
            r.wf(),
            r.root == self.root,
            r.labels() == within_depth(self.labels(), depth as int),
        decreases self,
    {
        if depth == 1 {
            let r = TreeClock { root: self.root, label: self.label, edges: Vec::new() };
            proof {
                assert forall|p: Seq<ReplicaAddr>| (r.at(p) is Some) == (self.at(p) is Some && p.len() < 1)
                    by {
                    if p.len() > 0 {
                        assert(!r.has_child(p[0]));
                    }
                }
                assert(r.labels() =~= within_depth(self.labels(), depth as int));
            }
            return r;
        }
        let ghost orig = self.edges;
        let mut edges = self.edges;
        let n = edges.len();
        let mut i: usize = 0;
        while i < n
            invariant
                n == edges.len(),
                n == orig.len(),
                orig == self.edges,
                self.wf(),
                depth > 1,
                forall|k: int| i <= k < n ==> edges@[k] == orig@[k],
                forall|k: int| 0 <= k < i ==> {
                    &&& (#[trigger] edges@[k]).wf()
                    &&& edges@[k].root == orig@[k].root
                    &&& edges@[k].labels() == within_depth(orig@[k].labels(), depth - 1)
                },
            decreases n - i,
        {
            let c = edges.remove(i);
            proof {
                assert(decreases_to!(self => self.edges));
            }
            let t = c.trimmed(depth - 1);
            edges.insert(i, t);
            i = i + 1;
        }
        let r = TreeClock { root: self.root, label: self.label, edges };
        proof {
            lemma_same_roots(self, r);
            assert forall|p: Seq<ReplicaAddr>|
                (r.at(p) is Some) == (self.at(p) is Some && p.len() < depth)
                && (r.at(p) is Some ==> r.at(p)->0.label == self.at(p)->0.label) by {
                if p.len() > 0 {
                    if self.has_child(p[0]) {
                        let k = choose|k: int| 0 <= k < self.edges.len() && self.edges@[k].root == p[0];
                        lemma_at_step(self, k, p);
                        lemma_at_step(r, k, p);
                        assert(r.edges@[k].labels().contains_key(p.drop_first()) == (orig@[k].labels().contains_key(p.drop_first()) && p.drop_first().len() < depth - 1));
                        if r.at(p) is Some {
                            assert(r.edges@[k].labels()[p.drop_first()] == orig@[k].labels()[p.drop_first()]);
                        }
                    }
                }
            }
            assert(r.labels() =~= within_depth(self.labels(), depth as int));
        }
        r
    }

    /// Applies the diff `update`, recording `(address, old label, new label)`
    /// for every node whose label moves forward.
    fn applied_to(self, update: &TreeClockDiff, changes: &mut Vec<(ReplicaAddr, usize, usize)>) -> (r: TreeClock)
        requires
            self.wf(),
            update.wf(),
            self.can_apply(*update),
        ensures
            r.wf(),
            r.root == self.root,
            r.labels() == self.applied(*update),
            final(changes)@.len() >= old(changes)@.len(),
            final(changes)@.subrange(0, old(changes)@.len() as int) == old(changes)@,
            forall|k: int| old(changes)@.len() <= k < final(changes)@.len() ==> self.justifies(*update, #[trigger] final(changes)@[k]),
            forall|p: Seq<ReplicaAddr>| #[trigger] self.advances(*update, p) ==> recorded(final(changes)@, old(changes)@.len() as int, self.change_of(*update, p)),
            exists|ps: Seq<Seq<ReplicaAddr>>| self.moves_listed(*update, ps, final(changes)@.subrange(old(changes)@.len() as int, final(changes)@.len() as int)),
        decreases self,
    {
        let ghost empty = Seq::<ReplicaAddr>::empty();
        proof {
            assert(self.reaches(*update, empty));
        }
        if self.label >= update.label {
            let r = self;
            proof {
                assert(self.label == update.label);
                assert forall|p: Seq<ReplicaAddr>| #[trigger] r.labels().contains_key(p) implies
                    r.labels()[p] == self.applied(*update)[p] by {
                    if p.len() > 0 && self.reaches(*update, p) {
                        assert(p.take(0) =~= empty);
                    }
                }
                assert(r.labels() =~= self.applied(*update));
                assert(final(changes)@.subrange(0, old(changes)@.len() as int) =~= old(changes)@);
                assert forall|p: Seq<ReplicaAddr>| #[trigger] self.advances(*update, p) implies recorded(final(changes)@, old(changes)@.len() as int, self.change_of(*update, p)) by {
                    if p.len() > 0 {
                        assert(p.take(0) =~= empty);
                    } else {
                        assert(p =~= empty);
                    }
                }
                let ps0 = Seq::<Seq<ReplicaAddr>>::empty();
                assert(final(changes)@.subrange(old(changes)@.len() as int, final(changes)@.len() as int).len() == 0);
                assert(self.moves_listed(*update, ps0, final(changes)@.subrange(old(changes)@.len() as int, final(changes)@.len() as int)));
            }
            return r;
        }
        changes.push((self.root, self.label, update.label));
        proof {
            assert(self.changes_at(*update, empty, changes@[changes@.len() - 1]));
            assert(changes@[changes@.len() - 1] == self.change_of(*update, empty));
            assert(changes@.subrange(0, old(changes)@.len() as int) =~= old(changes)@);
        }
        let ghost orig = self.edges;
        let ghost start = old(changes)@;
        let ghost mut gps: Seq<Seq<ReplicaAddr>> = seq![empty];
        proof {
            assert forall|p: Seq<ReplicaAddr>| #[trigger] self.advances(*update, p) && (p.len() == 0 || root_before(orig@, 0, p[0]))
                implies gps.contains(p) by {
                assert(p =~= empty);
                assert(gps[0] == p);
            }
        }
        let mut edges = self.edges;
        let n = edges.len();
        let mut i: usize = 0;
        while i < n
            invariant
                n == edges.len(),
                n == orig.len(),
                i <= n,
                orig == self.edges,
                self.wf(),
                update.wf(),
                self.can_apply(*update),
                self.label < update.label,
                forall|k: int| i <= k < n ==> edges@[k] == orig@[k],
                forall|k: int| 0 <= k < i ==> {
                    &&& (#[trigger] edges@[k]).wf()
                    &&& edges@[k].root == orig@[k].root
                    &&& update.has_child(orig@[k].root) ==> edges@[k].labels() == orig@[k].applied(update.child(orig@[k].root))
                    &&& !update.has_child(orig@[k].root) ==> edges@[k] == orig@[k]
                },
                changes@.len() > start.len(),
                changes@.subrange(0, start.len() as int) == start,
                forall|k: int| start.len() <= k < changes@.len() ==> self.justifies(*update, #[trigger] changes@[k]),
                forall|p: Seq<ReplicaAddr>| #[trigger] self.advances(*update, p) && (p.len() == 0 || root_before(orig@, i as int, p[0]))
                    ==> recorded(changes@, start.len() as int, self.change_of(*update, p)),
                gps.len() + start.len() == changes@.len(),
                gps.no_duplicates(),
                forall|k: int| 0 <= k < gps.len() ==> self.changes_at(*update, #[trigger] gps[k], changes@[start.len() + k]),
                forall|k: int| 0 <= k < gps.len() ==> (#[trigger] gps[k]).len() == 0 || root_before(orig@, i as int, gps[k][0]),
                forall|p: Seq<ReplicaAddr>| #[trigger] self.advances(*update, p) && (p.len() == 0 || root_before(orig@, i as int, p[0]))
                    ==> gps.contains(p),
            decreases n - i,
        {
            let c = edges.remove(i);
            proof {
                assert(decreases_to!(self => self.edges));
            }
            match update.find(c.root) {
                Some(m) => {
                    let ghost uc = update.edges@[m as int];
                    let ghost before = changes@;
                    proof {
                        lemma_child_index(*update, m as int);
                        assert forall|q: Seq<ReplicaAddr>| #[trigger] c.reaches(uc, q) implies
                            c.at(q)->0.label <= uc.at(q)->0.label by {
                            let p = seq![c.root] + q;
                            assert(p.drop_first() =~= q);
                            lemma_reaches_step(self, *update, i as int, m as int, p);
                            assert(self.reaches(*update, p));
                        }
                    }
                    let t = c.applied_to(&update.edges[m], changes);
                    proof {
                        assert forall|k: int| start.len() <= k < changes@.len() implies self.justifies(*update, #[trigger] changes@[k]) by {
                            if k < before.len() {
                                assert(changes@[k] == changes@.subrange(0, before.len() as int)[k]);
                            } else {
                                assert(c.justifies(uc, changes@[k]));
                                let q = choose|q: Seq<ReplicaAddr>| c.changes_at(uc, q, changes@[k]);
                                let p = seq![c.root] + q;
                                assert(p.drop_first() =~= q);
                                lemma_reaches_step(self, *update, i as int, m as int, p);
                                assert(self.changes_at(*update, p, changes@[k]));
                            }
                        }
                        assert(changes@.subrange(0, start.len() as int) =~= before.subrange(0, start.len() as int));
                        assert forall|p: Seq<ReplicaAddr>| #[trigger] self.advances(*update, p) && (p.len() == 0 || root_before(orig@, i + 1, p[0]))
                            implies recorded(changes@, start.len() as int, self.change_of(*update, p)) by {
                            if p.len() > 0 && p[0] == c.root {
                                let q = p.drop_first();
                                lemma_reaches_step(self, *update, i as int, m as int, p);
                                assert(c.advances(uc, q));
                                assert(recorded(changes@, before.len() as int, c.change_of(uc, q)));
                                assert(c.change_of(uc, q) == self.change_of(*update, p));
                            } else {
                                if p.len() > 0 {
                                    let x = choose|x: int| 0 <= x < i + 1 && orig@[x].root == p[0];
                                    assert(x != i);
                                    assert(root_before(orig@, i as int, p[0]));
                                }
                                assert(recorded(before, start.len() as int, self.change_of(*update, p)));
                                let k = choose|k: int| start.len() <= k < before.len() && before[k] == self.change_of(*update, p);
                                assert(changes@[k] == changes@.subrange(0, before.len() as int)[k]);
                            }
                        }
                        let sub = changes@.subrange(before.len() as int, changes@.len() as int);
                        let psc = choose|psc: Seq<Seq<ReplicaAddr>>| c.moves_listed(uc, psc, sub);
                        let a = c.root;
                        lemma_under(a, psc);
                        let ups = under(a, psc);
                        let ngps = gps + ups;
                        assert forall|k: int| 0 <= k < ngps.len() implies self.changes_at(*update, #[trigger] ngps[k], changes@[start.len() + k]) by {
                            if k < gps.len() {
                                assert(ngps[k] == gps[k]);
                                assert(changes@[start.len() + k] == changes@.subrange(0, before.len() as int)[start.len() + k]);
                            } else {
                                let j = k - gps.len();
                                assert(ngps[k] == ups[j]);
                                let p = ups[j];
                                lemma_reaches_step(self, *update, i as int, m as int, p);
                                assert(c.changes_at(uc, psc[j], sub[j]));
                                assert(sub[j] == changes@[start.len() + k]);
                            }
                        }
                        assert forall|x: int, y: int| 0 <= x < ngps.len() && 0 <= y < ngps.len() && x != y implies ngps[x] != ngps[y] by {
                            if x < gps.len() && y < gps.len() {
                            } else if x >= gps.len() && y >= gps.len() {
                                assert(ngps[x] == ups[x - gps.len()]);
                                assert(ngps[y] == ups[y - gps.len()]);
                            } else {
                                let (g, h) = if x < gps.len() { (x, y) } else { (y, x) };
                                assert(ngps[h] == ups[h - gps.len()]);
                                assert(ngps[g] == gps[g]);
                                if gps[g].len() > 0 {
                                    let w = choose|w: int| 0 <= w < i && orig@[w].root == gps[g][0];
                                    assert(orig@[w].root != orig@[i as int].root);
                                }
                            }
                        }
                        assert forall|k: int| 0 <= k < ngps.len() implies (#[trigger] ngps[k]).len() == 0 || root_before(orig@, i + 1, ngps[k][0]) by {
                            if k < gps.len() {
                                assert(ngps[k] == gps[k]);
                                if gps[k].len() > 0 {
                                    let w = choose|w: int| 0 <= w < i && orig@[w].root == gps[k][0];
                                }
                            } else {
                                assert(ngps[k] == ups[k - gps.len()]);
                                assert(orig@[i as int].root == a);
                            }
                        }
                        assert forall|p: Seq<ReplicaAddr>| #[trigger] self.advances(*update, p) && (p.len() == 0 || root_before(orig@, i + 1, p[0]))
                            implies ngps.contains(p) by {
                            if p.len() > 0 && p[0] == a {
                                let q = p.drop_first();
                                lemma_reaches_step(self, *update, i as int, m as int, p);
                                assert(c.advances(uc, q));
                                assert(psc.contains(q));
                                let j = choose|j: int| 0 <= j < psc.len() && psc[j] == q;
                                assert(ups[j] == seq![a] + q);
                                assert(seq![a] + q =~= p);
                                assert(ngps[gps.len() + j] == p);
                            } else {
                                if p.len() > 0 {
                                    let x = choose|x: int| 0 <= x < i + 1 && orig@[x].root == p[0];
                                    assert(x != i);
                                    assert(root_before(orig@, i as int, p[0]));
                                }
                                assert(gps.contains(p));
                                let j = choose|j: int| 0 <= j < gps.len() && gps[j] == p;
                                assert(ngps[j] == p);
                            }
                        }
                        gps = ngps;
                    }
                    edges.insert(i, t);
                },
                None => {
                    proof {
                        assert forall|p: Seq<ReplicaAddr>| #[trigger] self.advances(*update, p) && (p.len() == 0 || root_before(orig@, i + 1, p[0]))
                            implies recorded(changes@, start.len() as int, self.change_of(*update, p)) by {
                            if p.len() > 0 && p[0] == c.root {
                                lemma_at_none(*update, p);
                            } else if p.len() > 0 {
                                let x = choose|x: int| 0 <= x < i + 1 && orig@[x].root == p[0];
                                assert(x != i);
                                assert(root_before(orig@, i as int, p[0]));
                            }
                        }
                        assert forall|k: int| 0 <= k < gps.len() implies (#[trigger] gps[k]).len() == 0 || root_before(orig@, i + 1, gps[k][0]) by {
                            if gps[k].len() > 0 {
                                let w = choose|w: int| 0 <= w < i && orig@[w].root == gps[k][0];
                            }
                        }
                        assert forall|p: Seq<ReplicaAddr>| #[trigger] self.advances(*update, p) && (p.len() == 0 || root_before(orig@, i + 1, p[0]))
                            implies gps.contains(p) by {
                            if p.len() > 0 && p[0] == c.root {
                                lemma_at_none(*update, p);
                            } else if p.len() > 0 {
                                let x = choose|x: int| 0 <= x < i + 1 && orig@[x].root == p[0];
                                assert(x != i);
                                assert(root_before(orig@, i as int, p[0]));
                            }
                        }
                    }
                    edges.insert(i, c);
                },
            }
            i = i + 1;
        }
        proof {
            assert forall|p: Seq<ReplicaAddr>| #[trigger] self.advances(*update, p) implies recorded(changes@, start.len() as int, self.change_of(*update, p)) by {
                if p.len() > 0 {
                    let k = choose|k: int| 0 <= k < self.edges.len() && self.edges@[k].root == p[0];
                    assert(root_before(orig@, n as int, p[0]));
                }
            }
            let sub = changes@.subrange(start.len() as int, changes@.len() as int);
            assert forall|k: int| 0 <= k < gps.len() implies self.changes_at(*update, #[trigger] gps[k], sub[k]) by {
                assert(sub[k] == changes@[start.len() + k]);
            }
            assert forall|p: Seq<ReplicaAddr>| #[trigger] self.advances(*update, p) implies gps.contains(p) by {
                if p.len() > 0 {
                    let k = choose|k: int| 0 <= k < self.edges.len() && self.edges@[k].root == p[0];
                    assert(root_before(orig@, n as int, p[0]));
                }
            }
            assert(self.moves_listed(*update, gps, sub));
        }
        let r = TreeClock { root: self.root, label: update.label, edges };
        proof {
            lemma_same_roots(self, r);
            assert forall|p: Seq<ReplicaAddr>| #[trigger] r.labels().contains_key(p) == self.labels().contains_key(p)
                && (r.labels().contains_key(p) ==> r.labels()[p] == self.applied(*update)[p]) by {
                if p.len() > 0 {
                    if self.has_child(p[0]) {
                        let k = choose|k: int| 0 <= k < self.edges.len() && self.edges@[k].root == p[0];
                        lemma_at_step(self, k, p);
                        lemma_at_step(r, k, p);
                        let q = p.drop_first();
                        if update.has_child(p[0]) {
                            let m = choose|m: int| 0 <= m < update.edges.len() && update.edges@[m].root == p[0];
                            lemma_child_index(*update, m);
                            lemma_reaches_step(self, *update, k, m, p);
                            assert(r.edges@[k].labels().contains_key(q) == orig@[k].labels().contains_key(q));
                            if r.at(p) is Some {
                                assert(r.edges@[k].labels()[q] == orig@[k].applied(update.child(p[0]))[q]);
                            }
                        } else {
                            assert(update.at(p) is None);
                        }
                    }
                } else {
                    assert(p =~= empty);
                }
            }
            assert(r.labels() =~= self.applied(*update));
        }
        r
    }

    /// Applies the diff `update`: every node that both clocks hold, and under
    /// which every node moved forward, takes the diff's label. Returns the old
    /// and the new label of each node that moved, but for the root's address.
    pub fn apply_update(&mut self, update: &TreeClockDiff) -> (r: (AddrLabels, AddrLabels))
        requires
            old(self).wf(),
            update.wf(),
            old(self).can_apply(*update),
        ensures
            final(self).wf(),
            final(self).root == old(self).root,
            final(self).labels() == old(self).applied(*update),
            exists|ps: Seq<Seq<ReplicaAddr>>| #[trigger] old(self).changes_listed(*update, ps, r.0@, r.1@),
    {
        let mut t = TreeClock::placeholder();
        std::mem::swap(self, &mut t);
        let ghost t0 = t;
        let mut changes: Vec<(ReplicaAddr, usize, usize)> = Vec::new();
        *self = t.applied_to(update, &mut changes);
        let ghost aps = choose|ps: Seq<Seq<ReplicaAddr>>| t0.moves_listed(*update, ps, changes@.subrange(0, changes@.len() as int));
        proof {
            assert(changes@.subrange(0, changes@.len() as int) =~= changes@);
        }
        let root = self.root;
        let mut changed_old: AddrLabels = Vec::new();
        let mut changed_new: AddrLabels = Vec::new();
        let ghost mut fps: Seq<Seq<ReplicaAddr>> = Seq::empty();
        let n = changes.len();
        let mut i: usize = 0;
        while i < n
            invariant
                n == changes@.len(),
                i <= n,
                root == t0.root,
                t0.moves_listed(*update, aps, changes@),
                fps.len() == changed_old.len(),
                fps.len() == changed_new.len(),
                fps.no_duplicates(),
                forall|k: int| 0 <= k < fps.len() ==> {
                    &&& t0.changes_at(*update, #[trigger] fps[k], (changed_old@[k].0, changed_old@[k].1, changed_new@[k].1))
                    &&& changed_new@[k].0 == changed_old@[k].0
                    &&& t0.at(fps[k])->0.root != t0.root
                    &&& path_before(aps, i as int, fps[k])
                },
                forall|j: int| 0 <= j < i && t0.at(#[trigger] aps[j])->0.root != t0.root ==> fps.contains(aps[j]),
            decreases n - i,
        {
            let (a, l_old, l_new) = changes[i];
            proof {
                assert(t0.changes_at(*update, aps[i as int], changes@[i as int]));
            }
            if !(a.0 == root.0 && a.1 == root.1) {
                let ghost bf = fps;
                changed_old.push((a, l_old));
                changed_new.push((a, l_new));
                proof {
                    fps = fps.push(aps[i as int]);
                    assert forall|x: int, y: int| 0 <= x < fps.len() && 0 <= y < fps.len() && x != y implies fps[x] != fps[y] by {
                        if x < bf.len() && y < bf.len() {
                            assert(bf[x] != bf[y]);
                        } else if x < bf.len() {
                            let j = choose|j: int| 0 <= j < i && aps[j] == bf[x];
                        } else if y < bf.len() {
                            let j = choose|j: int| 0 <= j < i && aps[j] == bf[y];
                        }
                    }
                    assert forall|k: int| 0 <= k < fps.len() implies {
                        &&& t0.changes_at(*update, #[trigger] fps[k], (changed_old@[k].0, changed_old@[k].1, changed_new@[k].1))
                        &&& changed_new@[k].0 == changed_old@[k].0
                        &&& t0.at(fps[k])->0.root != t0.root
                        &&& path_before(aps, i + 1, fps[k])
                    } by {
                        if k < bf.len() {
                            assert(fps[k] == bf[k]);
                            let j = choose|j: int| 0 <= j < i && aps[j] == bf[k];
                        } else {
                            assert(a != root);
                        }
                    }
                    assert forall|j: int| 0 <= j < i + 1 && t0.at(#[trigger] aps[j])->0.root != t0.root implies fps.contains(aps[j]) by {
                        if j == i {
                            assert(fps[bf.len() as int] == aps[j]);
                        } else {
                            let k = choose|k: int| 0 <= k < bf.len() && bf[k] == aps[j];
                            assert(fps[k] == aps[j]);
                        }
                    }
                }
            } else {
                proof {
                    assert(a == root);
                    assert forall|k: int| 0 <= k < fps.len() implies path_before(aps, i + 1, #[trigger] fps[k]) by {
                        let j = choose|j: int| 0 <= j < i && aps[j] == fps[k];
                    }
                }
            }
            i = i + 1;
        }
        proof {
            assert forall|p: Seq<ReplicaAddr>| #[trigger] t0.advances(*update, p) && t0.at(p)->0.root != t0.root implies fps.contains(p) by {
                assert(aps.contains(p));
                let j = choose|j: int| 0 <= j < aps.len() && aps[j] == p;
            }
            assert(t0.changes_listed(*update, fps, changed_old@, changed_new@));
            assert(t0 == *old(self));
        }
        let r = (changed_old, changed_new);
        proof {
            assert(old(self).changes_listed(*update, fps, r.0@, r.1@));
        }
        r
    }

    /// The clock of node `ni` of `graph`, read against its edges to `depth`
    /// levels, with every label 0.
    fn build(graph: &DomainGraph, ni: usize, depth: usize) -> (r: TreeClock)
        requires
            ni < graph_weights(*graph).len(),
            depth >= 1,
        ensures
            r.wf(),
            r.spans(*graph, ni, depth as nat),
        decreases depth,
    {
        let root = node_weight(graph, ni);
        let mut p = TreeClock::new(root, 0);
        if depth > 1 {
            let children = incoming(graph, ni);
            proof {
                lemma_sources_into(graph_edges(*graph), ni);
            }
            let n = children.len();
            let mut i: usize = 0;
            while i < n
                invariant
                    n == children@.len(),
                    i <= n,
                    depth > 1,
                    ni < graph_weights(*graph).len(),
                    children@ == crate::graph::sources_into(graph_edges(*graph), ni),
                    forall|k: int| 0 <= k < children@.len() ==> #[trigger] children@[k] < graph_weights(*graph).len(),
                    forall|m: usize| #[trigger] children@.contains(m) <==> is_pred(*graph, m, ni),
                    p.wf(),
                    p.root == graph_weights(*graph)[ni as int],
                    p.label == 0,
                    forall|a: ReplicaAddr| #[trigger] p.has_child(a) <==> exists|j: int|
                        0 <= j < i && graph_weights(*graph)[children@[j] as int] == a,
                    forall|k: int| 0 <= k < p.edges.len() ==> (#[trigger] p.edges@[k]).spans_pred(*graph, ni, (depth - 1) as nat),
                decreases n - i,
            {
                let child_ni = children[i];
                let c = TreeClock::build(graph, child_ni, depth - 1);
                let ghost before = p;
                proof {
                    assert(children@.contains(child_ni));
                }
                p.add_child(c);
                proof {
                    assert(c.spans_pred(*graph, ni, (depth - 1) as nat));
                    assert forall|k: int| 0 <= k < p.edges.len() implies (#[trigger] p.edges@[k]).spans_pred(*graph, ni, (depth - 1) as nat) by {
                        if p.edges@[k] != c {
                            let j = choose|j: int| 0 <= j < before.edges.len() && before.edges@[j] == p.edges@[k];
                            assert(before.edges@[j] == p.edges@[k]);
                        }
                    }
                    assert forall|a: ReplicaAddr| #[trigger] p.has_child(a) <==> exists|j: int|
                        0 <= j < i + 1 && graph_weights(*graph)[children@[j] as int] == a by {
                        if a == c.root {
                            assert(graph_weights(*graph)[children@[i as int] as int] == a);
                        }
                        if exists|j: int| 0 <= j < i + 1 && graph_weights(*graph)[children@[j] as int] == a {
                            let j = choose|j: int| 0 <= j < i + 1 && graph_weights(*graph)[children@[j] as int] == a;
                            if j < i {
                                assert(before.has_child(a));
                            }
                        }
                    }
                }
                i = i + 1;
            }
            proof {
                assert forall|a: ReplicaAddr| #[trigger] p.has_child(a) <==> exists|m: usize|
                    m < graph_weights(*graph).len() && #[trigger] is_pred(*graph, m, ni) && graph_weights(*graph)[m as int] == a by {
                    if p.has_child(a) {
                        let j = choose|j: int| 0 <= j < n && graph_weights(*graph)[children@[j] as int] == a;
                        assert(children@.contains(children@[j]));
                    }
                    if exists|m: usize| m < graph_weights(*graph).len() && #[trigger] is_pred(*graph, m, ni) && graph_weights(*graph)[m as int] == a {
                        let m = choose|m: usize| m < graph_weights(*graph).len() && #[trigger] is_pred(*graph, m, ni) && graph_weights(*graph)[m as int] == a;
                        assert(children@.contains(m));
                        let j = choose|j: int| 0 <= j < n && children@[j] == m;
                    }
                }
                assert(((depth as nat - 1) as nat) == ((depth - 1) as nat));
            }
        }
        proof {
            assert(p.root == graph_weights(*graph)[ni as int]);
            assert(p.label == 0);
            assert(depth <= 1 ==> p.edges.len() == 0);
        }
        p
    }

    /// Makes this the clock of node `root_ni` of `graph`, which carries the
    /// address `root`: a tree of the nodes that feed it, read against the
    /// graph's edges to `depth` levels, every label 0.
    pub fn init(&mut self, graph: &DomainGraph, root: ReplicaAddr, root_ni: usize, depth: usize)
        requires
            root_ni < graph_weights(*graph).len(),
            graph_weights(*graph)[root_ni as int] == root,
            depth >= 1,
        ensures
            final(self).wf(),
            final(self).root == root,
            final(self).spans(*graph, root_ni, depth as nat),
    {
        *self = TreeClock::build(graph, root_ni, depth);
    }

    /// Merges `other` into this clock: each node takes the larger of the two
    /// labels, and the nodes that only `other` holds are copied in.
    fn max_merged(self, other: &TreeClock) -> (r: TreeClock)
        requires
            self.wf(),
            other.wf(),
            self.root == other.root,
        ensures
            r.wf(),
            r.root == self.root,
            r.labels() == max_merge(self.labels(), other.labels()),
        decreases self,
    {
        let label = if other.label > self.label { other.label } else { self.label };
        let ghost orig = self.edges;
        let mut edges = self.edges;
        let n = edges.len();
        let mut i: usize = 0;
        while i < n
            invariant
                n == edges.len(),
                n == orig.len(),
                i <= n,
                orig == self.edges,
                self.wf(),
                other.wf(),
                forall|k: int| i <= k < n ==> edges@[k] == orig@[k],
                forall|k: int| 0 <= k < i ==> {
                    &&& (#[trigger] edges@[k]).wf()
                    &&& edges@[k].root == orig@[k].root
                    &&& other.has_child(orig@[k].root) ==> edges@[k].labels() == max_merge(orig@[k].labels(), other.child(orig@[k].root).labels())
                    &&& !other.has_child(orig@[k].root) ==> edges@[k] == orig@[k]
                },
            decreases n - i,
        {
            let c = edges.remove(i);
            proof {
                assert(decreases_to!(self => self.edges));
            }
            match other.find(c.root) {
                Some(m) => {
                    proof {
                        lemma_child_index(*other, m as int);
                    }
                    let t = c.max_merged(&other.edges[m]);
                    edges.insert(i, t);
                },
                None => {
                    edges.insert(i, c);
                },
            }
            i = i + 1;
        }
        let ghost merged = edges;
        let on = other.edges.len();
        let mut j: usize = 0;
        while j < on
            invariant
                on == other.edges.len(),
                j <= on,
                other.wf(),
                edges.len() >= n,
                forall|k: int| 0 <= k < n ==> edges@[k] == merged@[k],
                n == orig.len(),
                orig == self.edges,
                self.wf(),
                forall|k: int| 0 <= k < n ==> {
                    &&& (#[trigger] merged@[k]).wf()
                    &&& merged@[k].root == orig@[k].root
                    &&& other.has_child(orig@[k].root) ==> merged@[k].labels() == max_merge(orig@[k].labels(), other.child(orig@[k].root).labels())
                    &&& !other.has_child(orig@[k].root) ==> merged@[k] == orig@[k]
                },
                forall|k: int| n <= k < edges.len() ==> (#[trigger] edges@[k]).wf() && copied_from(other.edges@, j as int, edges@[k], orig@),
                forall|x: int| #![trigger other.edges@[x]] 0 <= x < j && root_absent(orig@, other.edges@[x].root)
                    ==> root_in_from(edges@, n as int, other.edges@[x].root),
                forall|k1: int, k2: int| n <= k1 < k2 < edges.len() ==> edges@[k1].root != edges@[k2].root,
            decreases on - j,
        {
            let oc = &other.edges[j];
            let ghost before = edges@;
            match find_in(&edges, oc.root) {
                Some(w) => {
                    proof {
                        if w < n {
                            assert(!root_absent(orig@, oc.root));
                        } else {
                            assert(root_in_from(edges@, n as int, oc.root));
                        }
                    }
                },
                None => {
                    let d = oc.duplicate();
                    proof {
                        assert forall|y: int| 0 <= y < n implies orig@[y].root != oc.root by {
                            assert(edges@[y].root != oc.root);
                        }
                        assert(copied_from(other.edges@, j + 1, d, orig@));
                    }
                    edges.push(d);
                    proof {
                        assert(edges@[edges.len() - 1] == d);
                        assert(root_in_from(edges@, n as int, oc.root));
                        assert forall|k: int| n <= k < edges.len() implies (#[trigger] edges@[k]).wf() && copied_from(other.edges@, j + 1, edges@[k], orig@) by {
                            if k < edges.len() - 1 {
                                assert(edges@[k] == before[k]);
                                assert(copied_from(other.edges@, j as int, before[k], orig@));
                            }
                        }
                        assert forall|x: int| #![trigger other.edges@[x]] 0 <= x < j && root_absent(orig@, other.edges@[x].root)
                            implies root_in_from(edges@, n as int, other.edges@[x].root) by {
                            assert(root_in_from(before, n as int, other.edges@[x].root));
                            let k = choose|k: int| n <= k < before.len() && before[k].root == other.edges@[x].root;
                            assert(edges@[k] == before[k]);
                        }
                        assert forall|k1: int, k2: int| n <= k1 < k2 < edges.len() implies edges@[k1].root != edges@[k2].root by {
                            if k2 == edges.len() - 1 {
                                assert(before[k1].root != oc.root);
                            } else {
                                assert(before[k1].root != before[k2].root);
                            }
                        }
                    }
                },
            }
            proof {
                assert forall|k: int| n <= k < edges.len() implies (#[trigger] edges@[k]).wf() && copied_from(other.edges@, j + 1, edges@[k], orig@) by {
                    assert(copied_from(other.edges@, j as int, edges@[k], orig@) || copied_from(other.edges@, j + 1, edges@[k], orig@));
                    if copied_from(other.edges@, j as int, edges@[k], orig@) {
                        let x = choose|x: int| 0 <= x < j && #[trigger] other.edges@[x].root == edges@[k].root
                            && edges@[k].labels() == other.edges@[x].labels() && root_absent(orig@, other.edges@[x].root);
                        assert(0 <= x < j + 1 && other.edges@[x].root == edges@[k].root);
                    }
                }
                assert(root_absent(orig@, oc.root) ==> root_in_from(edges@, n as int, oc.root));
            }
            j = j + 1;
        }
        let r = TreeClock { root: self.root, label, edges };
        proof {
            assert forall|k1: int, k2: int| 0 <= k1 < k2 < r.edges.len() implies r.edges@[k1].root != r.edges@[k2].root by {
                if k2 < n {
                    assert(orig@[k1].root != orig@[k2].root);
                } else if k1 < n {
                    assert(r.edges@[k1].root == orig@[k1].root);
                    assert(copied_from(other.edges@, on as int, r.edges@[k2], orig@));
                }
            }
            assert forall|k: int| 0 <= k < r.edges.len() implies (#[trigger] r.edges@[k]).wf() by {
                if k < n {
                    assert(r.edges@[k] == merged@[k]);
                }
            }
            assert(r.wf());
            let e = Seq::<ReplicaAddr>::empty();
            let g = max_merge(self.labels(), other.labels());
            assert forall|p: Seq<ReplicaAddr>| #[trigger] r.labels().contains_key(p) == g.contains_key(p)
                && (r.labels().contains_key(p) ==> r.labels()[p] == g[p]) by {
                if p.len() == 0 {
                    assert(p =~= e);
                    assert(self.at(p) == Some(self));
                    assert(other.at(p) == Some(*other));
                } else {
                    let a = p[0];
                    let q = p.drop_first();
                    if self.has_child(a) {
                        let k = choose|k: int| 0 <= k < self.edges.len() && self.edges@[k].root == a;
                        assert(r.edges@[k] == merged@[k]);
                        lemma_at_step(self, k, p);
                        lemma_at_step(r, k, p);
                        if other.has_child(a) {
                            let m = choose|m: int| 0 <= m < other.edges.len() && other.edges@[m].root == a;
                            lemma_child_index(*other, m);
                            lemma_at_step(*other, m, p);
                            assert(r.edges@[k].labels().contains_key(q) == max_merge(orig@[k].labels(), other.edges@[m].labels()).contains_key(q));
                            if r.labels().contains_key(p) {
                                assert(r.edges@[k].labels()[q] == max_merge(orig@[k].labels(), other.edges@[m].labels())[q]);
                            }
                        } else {
                            lemma_at_none(*other, p);
                        }
                    } else if other.has_child(a) {
                        let m = choose|m: int| 0 <= m < other.edges.len() && other.edges@[m].root == a;
                        lemma_at_step(*other, m, p);
                        lemma_at_none(self, p);
                        assert forall|y: int| 0 <= y < n implies orig@[y].root != other.edges@[m].root by {
                            if orig@[y].root == a {
                                assert(self.has_child(a));
                            }
                        }
                        assert(root_absent(orig@, other.edges@[m].root));
                        let k = choose|k: int| n <= k < r.edges.len() && r.edges@[k].root == other.edges@[m].root;
                        assert(copied_from(other.edges@, on as int, r.edges@[k], orig@));
                        let x = choose|x: int| 0 <= x < on && #[trigger] other.edges@[x].root == r.edges@[k].root
                            && r.edges@[k].labels() == other.edges@[x].labels() && root_absent(orig@, other.edges@[x].root);
                        if x != m {
                            if x < m {
                                assert(other.edges@[x].root != other.edges@[m].root);
                            } else {
                                assert(other.edges@[m].root != other.edges@[x].root);
                            }
                        }
                        lemma_at_step(r, k, p);
                        assert(r.edges@[k].labels().contains_key(q) == other.edges@[m].labels().contains_key(q));
                        if r.labels().contains_key(p) {
                            assert(r.edges@[k].labels()[q] == other.edges@[m].labels()[q]);
                        }
                    } else {
                        lemma_at_none(self, p);
                        lemma_at_none(*other, p);
                        assert(!r.has_child(a)) by {
                            if r.has_child(a) {
                                let k = choose|k: int| 0 <= k < r.edges.len() && r.edges@[k].root == a;
                                if k < n {
                                    assert(orig@[k].root == a);
                                    assert(self.has_child(a));
                                } else {
                                    assert(copied_from(other.edges@, on as int, r.edges@[k], orig@));
                                    let x = choose|x: int| 0 <= x < on && #[trigger] other.edges@[x].root == r.edges@[k].root
                                        && r.edges@[k].labels() == other.edges@[x].labels() && root_absent(orig@, other.edges@[x].root);
                                    assert(other.has_child(a));
                                }
                            }
                        }
                        lemma_at_none(r, p);
                    }
                }
            }
            assert(r.labels() =~= g);
        }
        r
    }

    /// Each node takes the larger of its own label and `other`'s at the same
    /// place; the nodes that only `other` holds are copied in.
    pub fn max_union(&mut self, other: &TreeClock)
        requires
            old(self).wf(),
            other.wf(),
            old(self).root == other.root,
        ensures
            final(self).wf(),
            final(self).root == old(self).root,
            final(self).labels() == max_merge(old(self).labels(), other.labels()),
    {
        let mut t = TreeClock::placeholder();
        std::mem::swap(self, &mut t);
        *self = t.max_merged(other);
    }

    /// Merges `other`, which agrees with this clock wherever both hold a
    /// node, into it: the nodes that only `other` holds are added.
    pub fn union(&mut self, other: TreeClock)
        requires
            old(self).wf(),
            other.wf(),
            old(self).root == other.root,
            agree(old(self).labels(), other.labels()),
        ensures
            final(self).wf(),
            final(self).root == old(self).root,
            final(self).labels() == old(self).labels().union_prefer_right(other.labels()),
    {
        let mut t = TreeClock::placeholder();
        std::mem::swap(self, &mut t);
        let ghost t0 = t;
        *self = t.max_merged(&other);
        proof {
            assert(max_merge(t0.labels(), other.labels()) =~= t0.labels().union_prefer_right(other.labels()));
        }
    }

    /// Takes out child `i`.
    fn take_child(&mut self, i: usize) -> (c: TreeClock)
        requires
            old(self).wf(),
            i < old(self).edges.len(),
        ensures
            c == old(self).edges@[i as int],
            c.wf(),
            final(self).wf(),
            final(self).root == old(self).root,
            final(self).label == old(self).label,
            final(self).labels() == prune(old(self).labels(), c.root),
    {
        let c = self.edges.remove(i);
        proof {
            let o = *old(self);
            let t = *self;
            let a = c.root;
            assert forall|x: int, y: int| 0 <= x < y < t.edges.len() implies t.edges@[x].root != t.edges@[y].root by {
                let ox = if x < i { x } else { x + 1 };
                let oy = if y < i { y } else { y + 1 };
                assert(o.edges@[ox].root != o.edges@[oy].root);
            }
            assert forall|k: int| 0 <= k < t.edges.len() implies (#[trigger] t.edges@[k]).wf() by {
                let ok = if k < i { k } else { k + 1 };
                assert(t.edges@[k] == o.edges@[ok]);
            }
            assert(t.wf());
            let g = prune(o.labels(), a);
            assert forall|p: Seq<ReplicaAddr>| #[trigger] t.labels().contains_key(p) == g.contains_key(p)
                && (t.labels().contains_key(p) ==> t.labels()[p] == g[p]) by {
                if p.len() > 0 {
                    if p[0] == a {
                        assert(!t.has_child(a)) by {
                            if t.has_child(a) {
                                let k = choose|k: int| 0 <= k < t.edges.len() && t.edges@[k].root == a;
                                let ok = if k < i { k } else { k + 1 };
                                assert(o.edges@[ok].root == a);
                                if ok < i {
                                    assert(o.edges@[ok].root != o.edges@[i as int].root);
                                } else {
                                    assert(o.edges@[i as int].root != o.edges@[ok].root);
                                }
                            }
                        }
                    } else if o.has_child(p[0]) {
                        let k = choose|k: int| 0 <= k < o.edges.len() && o.edges@[k].root == p[0];
                        let tk = if k < i { k } else { k - 1 };
                        assert(t.edges@[tk] == o.edges@[k]);
                        lemma_at_step(o, k, p);
                        lemma_at_step(t, tk, p);
                    } else {
                        assert(!t.has_child(p[0])) by {
                            if t.has_child(p[0]) {
                                let k = choose|k: int| 0 <= k < t.edges.len() && t.edges@[k].root == p[0];
                                let ok = if k < i { k } else { k + 1 };
                                assert(o.edges@[ok] == t.edges@[k]);
                            }
                        }
                    }
                } else {
                    assert(t.at(p) == Some(t));
                    assert(o.at(p) == Some(o));
                }
            }
            assert(t.labels() =~= g);
        }
        c
    }

    /// Replaces the upstream connection from `prev` with one from `next`.
    /// Where `prev`'s subtree holds `next` (the replacement is `prev`'s own
    /// upstream), that subtree of `next` becomes a direct child and the rest
    /// of `prev`'s subtree goes; the result is then `true`. Otherwise `prev`'s
    /// subtree moves under the address `next`, and the result is `false`.
    pub fn new_incoming(&mut self, prev: ReplicaAddr, next: ReplicaAddr) -> (r: bool)
        requires
            old(self).wf(),
            old(self).has_child(prev),
        ensures
            final(self).wf(),
            final(self).root == old(self).root,
            final(self).label == old(self).label,
            r == old(self).child(prev).has_child(next),
            r ==> final(self).labels() == graft(prune(old(self).labels(), prev), next, old(self).child(prev).child(next).labels()),
            !r ==> final(self).labels() == graft(prune(old(self).labels(), prev), next, old(self).child(prev).labels()),
    {
        if let Some(i) = self.find(prev) {
            proof {
                lemma_child_index(*self, i as int);
            }
            let mut sub = self.take_child(i);
            match sub.find(next) {
                Some(j) => {
                    proof {
                        lemma_child_index(sub, j as int);
                    }
                    let g = sub.take_child(j);
                    self.add_child(g);
                    true
                },
                None => {
                    let ghost s0 = sub;
                    sub.root = next;
                    proof {
                        assert(sub.edges == s0.edges);
                        assert forall|p: Seq<ReplicaAddr>| #[trigger] sub.labels().contains_key(p) == s0.labels().contains_key(p)
                            && (sub.labels().contains_key(p) ==> sub.labels()[p] == s0.labels()[p]) by {
                            if p.len() > 0 {
                                assert(sub.has_child(p[0]) == s0.has_child(p[0]));
                                assert(sub.child(p[0]) == s0.child(p[0]));
                            } else {
                                assert(sub.at(p) == Some(sub));
                                assert(s0.at(p) == Some(s0));
                            }
                        }
                        assert(sub.labels() =~= s0.labels());
                    }
                    self.add_child(sub);
                    false
                },
            }
        } else {
            false
        }
    }

    /// The clock of `new_root` where it is a child or a grandchild of the root.
    pub fn subgraph(&self, new_root: ReplicaAddr) -> (r: Option<&TreeClock>)
        requires
            self.wf(),
        ensures
            match r {
                Some(c) => (self.has_child(new_root) && *c == self.child(new_root)) || (!self.has_child(new_root)
                    && exists|k: int| 0 <= k < self.edges.len() && (#[trigger] self.edges@[k]).has_child(new_root)
                    && *c == self.edges@[k].child(new_root)),
                None => !self.has_child(new_root) && forall|k: int|
                    0 <= k < self.edges.len() ==> !(#[trigger] self.edges@[k]).has_child(new_root),
            },
    {
        if let Some(i) = self.find(new_root) {
            proof {
                lemma_child_index(*self, i as int);
            }
            return Some(&self.edges[i]);
        }
        let n = self.edges.len();
        let mut k: usize = 0;
        while k < n
            invariant
                n == self.edges.len(),
                self.wf(),
                !self.has_child(new_root),
                forall|x: int| 0 <= x < k ==> !(#[trigger] self.edges@[x]).has_child(new_root),
            decreases n - k,
        {
            if let Some(j) = self.edges[k].find(new_root) {
                proof {
                    assert(self.edges@[k as int].wf());
                    lemma_child_index(self.edges@[k as int], j as int);
                }
                return Some(&self.edges[k].edges[j]);
            }
            k = k + 1;
        }
        None
    }

    /// The only child, if there is one.
    pub fn parent(&self) -> (r: Option<&TreeClock>)
        requires
            self.edges.len() <= 1,
        ensures
            match r {
                Some(c) => self.edges.len() == 1 && *c == self.edges@[0],
                None => self.edges.len() == 0,
            },
    {
        if self.edges.len() == 0 {
            None
        } else {
            Some(&self.edges[0])
        }
    }

    pub fn root(&self) -> (r: ReplicaAddr)
        ensures
            r == self.root,
    {
        self.root
    }

    pub fn label(&self) -> (r: usize)
        ensures
            r == self.label,
    {
        self.label
    }

    pub fn edges(&self) -> (r: &Vec<TreeClock>)
        ensures
            r == &self.edges,
    {
        &self.edges
    }

    /// Sets the shard of the root's address, as when a sharded domain is
    /// instantiated as one of its shards.
    pub fn set_shard(&mut self, shard: usize)
        ensures
            final(self).root == (old(self).root.0, shard),
            final(self).label == old(self).label,
            final(self).edges == old(self).edges,
    {
        self.root = (self.root.0, shard);
    }

    /// Sets the root's label.
    pub fn set_label(&mut self, label: usize)
        ensures
            final(self).root == old(self).root,
            final(self).label == label,
            final(self).edges == old(self).edges,
    {
        self.label = label;
    }

    /// Whether the two clocks hold the same labels in the same shape.
    pub fn same_tree_as(&self, o: &TreeClock) -> (r: bool)
        ensures
            r == self.same_tree(*o),
        decreases self,
    {
        if self.label != o.label {
            return false;
        }
        let n = self.edges.len();
        let on = o.edges.len();
        let mut k: usize = 0;
        while k < n
            invariant
                n == self.edges.len(),
                on == o.edges.len(),
                forall|x: int| 0 <= x < k ==> (#[trigger] self.edges@[x]).matched_in(o.edges@),
            decreases n - k,
        {
            let c = &self.edges[k];
            proof {
                assert(decreases_to!(self.edges => self.edges[k as int]));
            }
            let mut found = false;
            let mut m: usize = 0;
            while m < on
                invariant
                    on == o.edges.len(),
                    k < n,
                    n == self.edges.len(),
                    *c == self.edges@[k as int],
                    found ==> c.matched_in(o.edges@),
                    !found ==> forall|y: int| 0 <= y < m ==> !(o.edges@[y].root == c.root && c.same_tree(o.edges@[y])),
                decreases on - m,
            {
                if !found && o.edges[m].root.0 == c.root.0 && o.edges[m].root.1 == c.root.1 {
                    proof {
                        assert(decreases_to!(self.edges => self.edges[k as int]));
                    }
                    if c.same_tree_as(&o.edges[m]) {
                        found = true;
                        proof {
                            assert(o.edges@[m as int].root == c.root);
                            assert(c.same_tree(o.edges@[m as int]));
                        }
                    }
                }
                m = m + 1;
            }
            if !found {
                return false;
            }
            k = k + 1;
        }
        let mut m: usize = 0;
        while m < on
            invariant
                on == o.edges.len(),
                n == self.edges.len(),
                forall|y: int| 0 <= y < m ==> root_in_from(self.edges@, 0, (#[trigger] o.edges@[y]).root),
            decreases on - m,
        {
            match find_in(&self.edges, o.edges[m].root) {
                Some(_) => {},
                None => {
                    return false;
                },
            }
            m = m + 1;
        }
        true
    }

    /// The part of `other` that moved away from this clock: `other`'s root
    /// and, under it, the diff of each child of `other` whose subtree is not
    /// the same in this clock.
    pub fn diff(&self, other: &TreeClock) -> (r: TreeClockDiff)
        requires
            self.wf(),
            other.wf(),
        ensures
            r.wf(),
            r.root == other.root,
            r.labels() == self.diff_labels(*other),
        decreases other,
    {
        let mut p = TreeClock::new(other.root, other.label);
        let ghost e = Seq::<ReplicaAddr>::empty();
        let on = other.edges.len();
        let mut m: usize = 0;
        while m < on
            invariant
                on == other.edges.len(),
                m <= on,
                self.wf(),
                other.wf(),
                p.wf(),
                p.root == other.root,
                p.label == other.label,
                e == Seq::<ReplicaAddr>::empty(),
                forall|q: Seq<ReplicaAddr>| #[trigger] p.labels().contains_key(q) == (self.diff_labels(*other).contains_key(q)
                    && (q.len() == 0 || root_before(other.edges@, m as int, q[0]))),
                forall|q: Seq<ReplicaAddr>| #[trigger] p.labels().contains_key(q) ==> p.labels()[q] == other.at(q)->0.label,
            decreases on - m,
        {
            let oc = &other.edges[m];
            let ghost before = p;
            let mut added = false;
            if let Some(i) = self.find(oc.root) {
                if !self.edges[i].same_tree_as(oc) {
                    proof {
                        assert(decreases_to!(other.edges => other.edges[m as int]));
                        assert(other.edges@[m as int].wf());
                        assert(self.edges@[i as int].wf());
                    }
                    let d = self.edges[i].diff(oc);
                    p.add_child(d);
                    added = true;
                    proof {
                        let a = oc.root;
                        assert forall|q: Seq<ReplicaAddr>| #[trigger] p.labels().contains_key(q) == (self.diff_labels(*other).contains_key(q)
                            && (q.len() == 0 || root_before(other.edges@, m + 1, q[0])))
                            && (p.labels().contains_key(q) ==> p.labels()[q] == other.at(q)->0.label) by {
                            if q.len() > 0 && q[0] == a {
                                lemma_differs_step(*self, *other, i as int, m as int, q);
                                assert(root_before(other.edges@, m + 1, q[0]));
                            } else {
                                assert(before.labels().contains_key(q) == p.labels().contains_key(q));
                                if q.len() > 0 {
                                    if root_before(other.edges@, m + 1, q[0]) {
                                        let x = choose|x: int| 0 <= x < m + 1 && other.edges@[x].root == q[0];
                                        assert(x != m);
                                    }
                                }
                            }
                        }
                    }
                }
            }
            if !added {
                proof {
                    assert forall|q: Seq<ReplicaAddr>| #[trigger] p.labels().contains_key(q) == (self.diff_labels(*other).contains_key(q)
                        && (q.len() == 0 || root_before(other.edges@, m + 1, q[0]))) by {
                        if q.len() > 0 && q[0] == oc.root {
                            let q1 = q.take(1);
                            assert(q1.len() == 1);
                            if self.at(q1) is Some && other.at(q1) is Some {
                                let i = choose|i: int| 0 <= i < self.edges.len() && self.edges@[i].root == oc.root;
                                lemma_child_index(*self, i);
                                lemma_child_index(*other, m as int);
                                assert(q1.drop_first() =~= e);
                                lemma_at_step(*self, i, q1);
                                lemma_at_step(*other, m as int, q1);
                                assert(self.edges@[i].at(e) == Some(self.edges@[i]));
                                assert(other.edges@[m as int].at(e) == Some(other.edges@[m as int]));
                            }
                            assert(!self.differs_along(*other, q));
                            assert(!p.has_child(q[0])) by {
                                if p.has_child(q[0]) {
                                    let k = choose|k: int| 0 <= k < p.edges.len() && p.edges@[k].root == q[0];
                                    let qq = seq![q[0]];
                                    assert(qq.drop_first() =~= e);
                                    lemma_at_step(p, k, qq);
                                    assert(p.edges@[k].at(e) == Some(p.edges@[k]));
                                    assert(p.labels().contains_key(qq));
                                    let x = choose|x: int| 0 <= x < m && other.edges@[x].root == q[0];
                                    assert(other.edges@[x].root != other.edges@[m as int].root);
                                }
                            }
                        } else if q.len() > 0 {
                            if root_before(other.edges@, m + 1, q[0]) {
                                let x = choose|x: int| 0 <= x < m + 1 && other.edges@[x].root == q[0];
                                assert(x != m);
                            }
                        }
                    }
                }
            }
            m = m + 1;
        }
        proof {
            assert forall|q: Seq<ReplicaAddr>| #[trigger] p.labels().contains_key(q) == self.diff_labels(*other).contains_key(q) by {
                if q.len() > 0 && self.diff_labels(*other).contains_key(q) {
                    let x = choose|x: int| 0 <= x < other.edges.len() && other.edges@[x].root == q[0];
                    assert(root_before(other.edges@, on as int, q[0]));
                }
            }
            assert(p.labels() =~= self.diff_labels(*other));
        }
        p
    }

    /// Each node's address and label, one pair per node: an address that
    /// appears on several paths appears once for each.
    pub fn into_addr_labels(&self) -> (r: AddrLabels)
        requires
            self.wf(),
        ensures
            exists|ps: Seq<Seq<ReplicaAddr>>| #[trigger] self.nodes_listed(ps, r@),
        decreases self,
    {
        let mut out: AddrLabels = Vec::new();
        out.push((self.root, self.label));
        let ghost e = Seq::<ReplicaAddr>::empty();
        let ghost mut gps: Seq<Seq<ReplicaAddr>> = seq![e];
        proof {
            assert(self.at(e) == Some(*self));
            assert(gps[0] == e);
            assert forall|p: Seq<ReplicaAddr>| #[trigger] self.at(p) is Some && (p.len() == 0 || root_before(self.edges@, 0, p[0]))
                implies gps.contains(p) by {
                assert(p =~= e);
            }
        }
        let n = self.edges.len();
        let mut i: usize = 0;
        while i < n
            invariant
                n == self.edges.len(),
                i <= n,
                self.wf(),
                self.at(e) == Some(*self),
                gps.len() == out.len(),
                gps.no_duplicates(),
                forall|k: int| 0 <= k < gps.len() ==> (#[trigger] self.at(gps[k])) is Some
                    && out@[k] == (self.at(gps[k])->0.root, self.at(gps[k])->0.label),
                forall|k: int| 0 <= k < gps.len() ==> (#[trigger] gps[k]).len() == 0 || root_before(self.edges@, i as int, gps[k][0]),
                forall|p: Seq<ReplicaAddr>| #[trigger] self.at(p) is Some && (p.len() == 0 || root_before(self.edges@, i as int, p[0]))
                    ==> gps.contains(p),
            decreases n - i,
        {
            proof {
                assert(decreases_to!(self.edges => self.edges[i as int]));
            }
            let c = &self.edges[i];
            let sub = c.into_addr_labels();
            let ghost before = out@;
            let m = sub.len();
            let mut j: usize = 0;
            while j < m
                invariant
                    m == sub.len(),
                    j <= m,
                    before.len() <= out.len(),
                    out@.len() == before.len() + j,
                    forall|k: int| 0 <= k < before.len() ==> out@[k] == before[k],
                    forall|k: int| 0 <= k < j ==> out@[before.len() + k] == sub@[k],
                decreases m - j,
            {
                out.push(sub[j]);
                j = j + 1;
            }
            proof {
                lemma_child_index(*self, i as int);
                let a = c.root;
                let psc = choose|psc: Seq<Seq<ReplicaAddr>>| #[trigger] c.nodes_listed(psc, sub@);
                lemma_under(a, psc);
                let ups = under(a, psc);
                let ngps = gps + ups;
                assert forall|k: int| 0 <= k < ngps.len() implies (#[trigger] self.at(ngps[k])) is Some
                    && out@[k] == (self.at(ngps[k])->0.root, self.at(ngps[k])->0.label) by {
                    if k < gps.len() {
                        assert(ngps[k] == gps[k]);
                        assert(out@[k] == before[k]);
                    } else {
                        let jj = k - gps.len();
                        assert(ngps[k] == ups[jj]);
                        lemma_at_step(*self, i as int, ups[jj]);
                        assert(c.at(psc[jj]) is Some);
                        assert(out@[k] == sub@[jj]);
                    }
                }
                assert forall|x: int, y: int| 0 <= x < ngps.len() && 0 <= y < ngps.len() && x != y implies ngps[x] != ngps[y] by {
                    if x < gps.len() && y < gps.len() {
                    } else if x >= gps.len() && y >= gps.len() {
                        assert(ngps[x] == ups[x - gps.len()]);
                        assert(ngps[y] == ups[y - gps.len()]);
                    } else {
                        let (g, h) = if x < gps.len() { (x, y) } else { (y, x) };
                        assert(ngps[h] == ups[h - gps.len()]);
                        assert(ngps[g] == gps[g]);
                        if gps[g].len() > 0 {
                            let w = choose|w: int| 0 <= w < i && self.edges@[w].root == gps[g][0];
                            assert(self.edges@[w].root != self.edges@[i as int].root);
                        }
                    }
                }
                assert forall|k: int| 0 <= k < ngps.len() implies (#[trigger] ngps[k]).len() == 0 || root_before(self.edges@, i + 1, ngps[k][0]) by {
                    if k < gps.len() {
                        assert(ngps[k] == gps[k]);
                        if gps[k].len() > 0 {
                            let w = choose|w: int| 0 <= w < i && self.edges@[w].root == gps[k][0];
                        }
                    } else {
                        assert(ngps[k] == ups[k - gps.len()]);
                    }
                }
                assert forall|p: Seq<ReplicaAddr>| #[trigger] self.at(p) is Some && (p.len() == 0 || root_before(self.edges@, i + 1, p[0]))
                    implies ngps.contains(p) by {
                    if p.len() > 0 && p[0] == a {
                        let q = p.drop_first();
                        lemma_at_step(*self, i as int, p);
                        assert(psc.contains(q));
                        let jj = choose|jj: int| 0 <= jj < psc.len() && psc[jj] == q;
                        assert(ups[jj] == seq![a] + q);
                        assert(seq![a] + q =~= p);
                        assert(ngps[gps.len() + jj] == p);
                    } else {
                        if p.len() > 0 {
                            let x = choose|x: int| 0 <= x < i + 1 && self.edges@[x].root == p[0];
                            assert(x != i);
                            assert(root_before(self.edges@, i as int, p[0]));
                        }
                        assert(gps.contains(p));
                        let jj = choose|jj: int| 0 <= jj < gps.len() && gps[jj] == p;
                        assert(ngps[jj] == p);
                    }
                }
                gps = ngps;
            }
            i = i + 1;
        }
        proof {
            assert forall|p: Seq<ReplicaAddr>| #[trigger] self.at(p) is Some implies gps.contains(p) by {
                if p.len() > 0 {
                    let x = choose|x: int| 0 <= x < self.edges.len() && self.edges@[x].root == p[0];
                    assert(root_before(self.edges@, n as int, p[0]));
                }
            }
            assert(self.nodes_listed(gps, out@));
        }
        out
    }

    /// Makes this the clock of node `root_ni` of `graph` as `init` does, where
    /// that node exists and carries `root` and `depth` is at least 1; returns
    /// whether it did, and leaves the clock as it was otherwise. Every edge of
    /// the graph joins two of its nodes.
    pub fn try_init(&mut self, graph: &DomainGraph, root: ReplicaAddr, root_ni: usize, depth: usize) -> (r: bool)
        ensures
            edges_valid(*graph),
            r == (root_ni < graph_weights(*graph).len() && graph_weights(*graph)[root_ni as int] == root && depth >= 1),
            r ==> final(self).wf() && final(self).root == root && final(self).spans(*graph, root_ni, depth as nat),
            !r ==> *final(self) == *old(self),
    {
        let count = node_count(graph);
        if depth == 0 || root_ni >= count {
            return false;
        }
        let w = node_weight(graph, root_ni);
        if !(w.0 == root.0 && w.1 == root.1) {
            return false;
        }
        self.init(graph, root, root_ni, depth);
        true
    }

    /// Whether `update` can be applied to this clock: it has the clock's root
    /// and is nowhere behind it where it would be applied.
    pub fn admits_update(&self, update: &TreeClockDiff) -> (r: bool)
        requires
            self.wf(),
            update.wf(),
        ensures
            r == self.can_apply(*update),
        decreases self,
    {
        if !(self.root.0 == update.root.0 && self.root.1 == update.root.1) {
            return false;
        }
        proof {
            lemma_can_apply_step(*self, *update);
        }
        if self.label > update.label {
            return false;
        }
        if self.label == update.label {
            return true;
        }
        let n = self.edges.len();
        let mut i: usize = 0;
        while i < n
            invariant
                n == self.edges.len(),
                self.wf(),
                update.wf(),
                self.root == update.root,
                self.label < update.label,
                forall|x: int| 0 <= x < i && update.has_child(self.edges@[x].root) ==> (#[trigger] self.edges@[x]).can_apply(update.child(self.edges@[x].root)),
            decreases n - i,
        {
            let c = &self.edges[i];
            if let Some(m) = update.find(c.root) {
                proof {
                    assert(decreases_to!(self.edges => self.edges[i as int]));
                    assert(self.edges@[i as int].wf());
                    lemma_child_index(*update, m as int);
                }
                if !c.admits_update(&update.edges[m]) {
                    proof {
                        lemma_can_apply_step(*self, *update);
                        assert(update.has_child(self.edges@[i as int].root));
                    }
                    return false;
                }
            }
            i = i + 1;
        }
        proof {
            lemma_can_apply_step(*self, *update);
        }
        true
    }

    /// Applies `update` as `apply_update` does where it can be applied, and
    /// returns `None`, leaving the clock as it was, where it cannot.
    pub fn try_apply_update(&mut self, update: &TreeClockDiff) -> (r: Option<(AddrLabels, AddrLabels)>)
        requires
            old(self).wf(),
            update.wf(),
        ensures
            r is Some == old(self).can_apply(*update),
            r is None ==> *final(self) == *old(self),
            r is Some ==> final(self).wf() && final(self).root == old(self).root && final(self).labels() == old(self).applied(*update),
    {
        if self.admits_update(update) {
            Some(self.apply_update(update))
        } else {
            None
        }
    }

    /// Drops every node deeper than `depth`; the root is at depth 1.
    pub fn trim(&mut self, depth: usize)
        requires
            old(self).wf(),
            depth >= 1,
        ensures
            final(self).wf(),
            final(self).root == old(self).root,
            final(self).labels() == within_depth(old(self).labels(), depth as int),
    {
        let mut t = TreeClock::placeholder();
        std::mem::swap(self, &mut t);
        *self = t.trimmed(depth);
    }
}

/// Applying a diff leaves the root at the diff's label; every node that the
/// diff reaches holds the larger of its own and the diff's label there, and
/// every other node keeps its label. A node is reached when both clocks hold
/// it and every node above it moved forward.
pub proof fn lemma_apply_takes_max(t: TreeClock, u: TreeClock)
    requires
        t.wf(),
        u.wf(),
        t.can_apply(u),
    ensures
        t.applied(u)[Seq::<ReplicaAddr>::empty()] == u.label,
        forall|p: Seq<ReplicaAddr>| #[trigger] t.reaches(u, p) ==> {
            &&& u.labels().contains_key(p)
            &&& t.applied(u)[p] == if t.labels()[p] >= u.labels()[p] { t.labels()[p] } else { u.labels()[p] }
        },
        forall|p: Seq<ReplicaAddr>| #[trigger] t.labels().contains_key(p) && !t.reaches(u, p) ==> t.applied(u)[p] == t.labels()[p],
{
    let e = Seq::<ReplicaAddr>::empty();
    assert(t.reaches(u, e));
    assert forall|p: Seq<ReplicaAddr>| #[trigger] t.reaches(u, p) implies {
        &&& u.labels().contains_key(p)
        &&& t.applied(u)[p] == if t.labels()[p] >= u.labels()[p] { t.labels()[p] } else { u.labels()[p] }
    } by {
        assert(t.at(p)->0.label <= u.at(p)->0.label);
    }
}

/// Applying the same diff a second time changes nothing: once applied, the
/// root carries the diff's label and nothing below it is reached again.
pub proof fn lemma_apply_idempotent(t: TreeClock, u: TreeClock, t1: TreeClock)
    requires
        t.wf(),
        u.wf(),
        t.can_apply(u),
        t1.wf(),
        t1.root == t.root,
        t1.labels() == t.applied(u),
    ensures
        t1.can_apply(u),
        t1.applied(u) == t1.labels(),
{
    let e = Seq::<ReplicaAddr>::empty();
    assert(t.reaches(u, e));
    assert(t1.labels().contains_key(e));
    assert(t1.at(e) == Some(t1));
    assert(u.at(e) == Some(u));
    assert(t.applied(u)[e] == u.label);
    assert(t1.labels()[e] == t1.label);
    assert(t1.label == u.label);
    assert forall|p: Seq<ReplicaAddr>| #[trigger] t1.reaches(u, p) implies p.len() == 0 by {
        if p.len() > 0 {
            assert(p.take(0) =~= e);
        }
    }
    assert forall|p: Seq<ReplicaAddr>| #[trigger] t1.reaches(u, p) implies t1.at(p)->0.label <= u.at(p)->0.label by {
        assert(p =~= e);
    }
    assert forall|p: Seq<ReplicaAddr>| #[trigger] t1.labels().contains_key(p) implies t1.applied(u)[p] == t1.labels()[p] by {
        if t1.reaches(u, p) {
            assert(p =~= e);
        }
    }
    assert(t1.applied(u) =~= t1.labels());
}

/// The addresses of a clock are its root's and those of its children's clocks.
pub proof fn lemma_addrs_split(t: TreeClock)
    requires
        t.wf(),
    ensures
        forall|a: ReplicaAddr| #[trigger] t.addrs().contains(a) <==> (a == t.root || exists|k: int|
            0 <= k < t.edges.len() && (#[trigger] t.edges@[k].addrs()).contains(a)),
{
    let e = Seq::<ReplicaAddr>::empty();
    assert(t.at(e) == Some(t));
    assert forall|a: ReplicaAddr| #[trigger] t.addrs().contains(a) <==> (a == t.root || exists|k: int|
        0 <= k < t.edges.len() && (#[trigger] t.edges@[k].addrs()).contains(a)) by {
        if t.addrs().contains(a) {
            let p = choose|p: Seq<ReplicaAddr>| t.at(p) is Some && (#[trigger] t.at(p))->0.root == a;
            if p.len() > 0 {
                let k = choose|k: int| 0 <= k < t.edges.len() && t.edges@[k].root == p[0];
                lemma_at_step(t, k, p);
                let q = p.drop_first();
                assert(t.edges@[k].at(q) is Some);
                assert(t.edges@[k].addrs().contains(a));
            }
        }
        if exists|k: int| 0 <= k < t.edges.len() && (#[trigger] t.edges@[k].addrs()).contains(a) {
            let k = choose|k: int| 0 <= k < t.edges.len() && (#[trigger] t.edges@[k].addrs()).contains(a);
            let c = t.edges@[k];
            let q = choose|q: Seq<ReplicaAddr>| c.at(q) is Some && (#[trigger] c.at(q))->0.root == a;
            let p = seq![c.root] + q;
            assert(p.drop_first() =~= q);
            lemma_at_step(t, k, p);
            assert(t.at(p) is Some);
        }
    }
}

/// A clock that `init` built to depth `d` holds exactly the addresses of the
/// nodes that reach its root's node by at most `d - 1` edges, its root's
/// included, when no two nodes of the graph carry the same address.
pub proof fn lemma_init_addresses(t: TreeClock, g: DomainGraph, ni: usize, d: nat)
    requires
        t.wf(),
        d >= 1,
        ni < graph_weights(g).len(),
        edges_valid(g),
        weights_distinct(g),
        t.spans(g, ni, d),
    ensures
        forall|a: ReplicaAddr| #[trigger] t.addrs().contains(a) <==> exists|m: usize|
            m < graph_weights(g).len() && within(g, m, ni, (d - 1) as nat) && graph_weights(g)[m as int] == a,
    decreases d,
{
    lemma_addrs_split(t);
    assert(within(g, ni, ni, (d - 1) as nat));
    if d == 1 {
        assert forall|a: ReplicaAddr| #[trigger] t.addrs().contains(a) <==> exists|m: usize|
            m < graph_weights(g).len() && within(g, m, ni, (d - 1) as nat) && graph_weights(g)[m as int] == a by {
            if exists|m: usize| m < graph_weights(g).len() && within(g, m, ni, (d - 1) as nat) && graph_weights(g)[m as int] == a {
                let m = choose|m: usize| m < graph_weights(g).len() && within(g, m, ni, (d - 1) as nat) && graph_weights(g)[m as int] == a;
                assert(m == ni);
            }
        }
    } else {
        assert forall|a: ReplicaAddr| #[trigger] t.addrs().contains(a) <==> exists|m: usize|
            m < graph_weights(g).len() && within(g, m, ni, (d - 1) as nat) && graph_weights(g)[m as int] == a by {
            if t.addrs().contains(a) && a != t.root {
                let k = choose|k: int| 0 <= k < t.edges.len() && (#[trigger] t.edges@[k].addrs()).contains(a);
                let c = t.edges@[k];
                assert(c.spans_pred(g, ni, (d - 1) as nat));
                let mk = choose|m: usize| m < graph_weights(g).len() && #[trigger] is_pred(g, m, ni) && c.spans(g, m, (d - 1) as nat);
                lemma_init_addresses(c, g, mk, (d - 1) as nat);
                let m = choose|m: usize| m < graph_weights(g).len() && within(g, m, mk, (d - 2) as nat) && graph_weights(g)[m as int] == a;
                assert(within(g, m, ni, (d - 1) as nat));
            }
            if exists|m: usize| m < graph_weights(g).len() && within(g, m, ni, (d - 1) as nat) && graph_weights(g)[m as int] == a {
                let m = choose|m: usize| m < graph_weights(g).len() && within(g, m, ni, (d - 1) as nat) && graph_weights(g)[m as int] == a;
                if m != ni {
                    let x = choose|x: usize| #[trigger] is_pred(g, x, ni) && within(g, m, x, (d - 2) as nat);
                    let j = choose|j: int| 0 <= j < graph_edges(g).len() && #[trigger] graph_edges(g)[j] == (x, ni);
                    assert(x < graph_weights(g).len());
                    assert(t.has_child(graph_weights(g)[x as int]));
                    let k = choose|k: int| 0 <= k < t.edges.len() && t.edges@[k].root == graph_weights(g)[x as int];
                    let c = t.edges@[k];
                    assert(c.spans_pred(g, ni, (d - 1) as nat));
                    let mk = choose|mk: usize| mk < graph_weights(g).len() && #[trigger] is_pred(g, mk, ni) && c.spans(g, mk, (d - 1) as nat);
                    assert(graph_weights(g)[mk as int] == graph_weights(g)[x as int]);
                    assert(mk == x);
                    lemma_init_addresses(c, g, mk, (d - 1) as nat);
                    assert(c.addrs().contains(a));
                }
            }
        }
    }
}

/// Two well-formed clocks are the same tree, whatever the order of their
/// children, exactly when they hold the same labels at the same places.
pub proof fn lemma_same_tree_labels(a: TreeClock, b: TreeClock)
    requires
        a.wf(),
        b.wf(),
    ensures
        a.same_tree(b) == (a.labels() == b.labels()),
    decreases a,
{
    let e = Seq::<ReplicaAddr>::empty();
    assert(a.at(e) == Some(a));
    assert(b.at(e) == Some(b));
    assert forall|k: int, m: int| 0 <= k < a.edges.len() && 0 <= m < b.edges.len() && a.edges@[k].root == b.edges@[m].root
        implies (#[trigger] a.edges@[k]).same_tree(#[trigger] b.edges@[m]) == (a.edges@[k].labels() == b.edges@[m].labels()) by {
        assert(decreases_to!(a.edges => a.edges[k]));
        lemma_same_tree_labels(a.edges@[k], b.edges@[m]);
    }
    if a.same_tree(b) {
        assert forall|p: Seq<ReplicaAddr>| #[trigger] a.labels().contains_key(p) == b.labels().contains_key(p)
            && (a.labels().contains_key(p) ==> a.labels()[p] == b.labels()[p]) by {
            if p.len() > 0 {
                let x = p[0];
                let q = p.drop_first();
                if a.has_child(x) {
                    let k = choose|k: int| 0 <= k < a.edges.len() && a.edges@[k].root == x;
                    assert(a.edges@[k].matched_in(b.edges@));
                    let m = choose|m: int| #![trigger b.edges@[m]] 0 <= m < b.edges.len() && b.edges@[m].root == a.edges@[k].root
                        && a.edges@[k].same_tree(b.edges@[m]);
                    lemma_at_step(a, k, p);
                    lemma_at_step(b, m, p);
                    assert(a.edges@[k].labels().contains_key(q) == b.edges@[m].labels().contains_key(q));
                    if a.labels().contains_key(p) {
                        assert(a.edges@[k].labels()[q] == b.edges@[m].labels()[q]);
                    }
                } else {
                    assert(!b.has_child(x)) by {
                        if b.has_child(x) {
                            let m = choose|m: int| 0 <= m < b.edges.len() && b.edges@[m].root == x;
                            assert(root_in_from(a.edges@, 0, b.edges@[m].root));
                        }
                    }
                }
            } else {
                assert(p =~= e);
            }
        }
        assert(a.labels() =~= b.labels());
    }
    if a.labels() == b.labels() {
        assert(a.labels()[e] == b.labels()[e]);
        assert forall|k: int| 0 <= k < a.edges.len() implies (#[trigger] a.edges@[k]).matched_in(b.edges@) by {
            let c = a.edges@[k];
            let x = c.root;
            let px = seq![x];
            assert(px.drop_first() =~= e);
            lemma_at_step(a, k, px);
            assert(c.at(e) == Some(c));
            assert(a.labels().contains_key(px));
            assert(b.labels().contains_key(px));
            let m = choose|m: int| 0 <= m < b.edges.len() && b.edges@[m].root == x;
            let d = b.edges@[m];
            assert forall|q: Seq<ReplicaAddr>| #[trigger] c.labels().contains_key(q) == d.labels().contains_key(q)
                && (c.labels().contains_key(q) ==> c.labels()[q] == d.labels()[q]) by {
                let p = seq![x] + q;
                assert(p.drop_first() =~= q);
                assert(p[0] == x);
                lemma_at_step(a, k, p);
                lemma_at_step(b, m, p);
                assert(a.labels().contains_key(p) == b.labels().contains_key(p));
                if a.labels().contains_key(p) {
                    assert(a.labels()[p] == b.labels()[p]);
                }
            }
            assert(c.labels() =~= d.labels());
            assert(c.same_tree(d));
        }
        assert forall|m: int| 0 <= m < b.edges.len() implies root_in_from(a.edges@, 0, (#[trigger] b.edges@[m]).root) by {
            let y = b.edges@[m].root;
            let py = seq![y];
            assert(py.drop_first() =~= e);
            lemma_at_step(b, m, py);
            assert(b.edges@[m].at(e) == Some(b.edges@[m]));
            assert(b.labels().contains_key(py));
            assert(a.labels().contains_key(py));
            let k = choose|k: int| 0 <= k < a.edges.len() && a.edges@[k].root == y;
        }
    }
}

/// A node that a clock holds has every node above it in the clock as well.
pub proof fn lemma_at_prefix(t: TreeClock, p: Seq<ReplicaAddr>, j: int)
    requires
        0 <= j <= p.len(),
        t.at(p) is Some,
    ensures
        t.at(p.take(j)) is Some,
    decreases p.len(),
{
    if j == 0 {
        assert(p.take(0) =~= Seq::<ReplicaAddr>::empty());
    } else {
        let c = t.child(p[0]);
        let q = p.drop_first();
        lemma_at_prefix(c, q, j - 1);
        assert(p.take(j).drop_first() =~= q.take(j - 1));
        assert(p.take(j)[0] == p[0]);
    }
}

/// Labels further ahead subsume earlier ones: wherever `t` is not behind `u`
/// on a node both hold, it is not behind `u` on any node below it that both
/// hold either.
pub open spec fn subsumes_history(t: TreeClock, u: TreeClock) -> bool {
    forall|p: Seq<ReplicaAddr>, j: int|
        0 <= j <= p.len() && t.at(p) is Some && u.at(p) is Some && t.at(#[trigger] p.take(j)) is Some && u.at(p.take(j)) is Some
            && t.at(p.take(j))->0.label >= u.at(p.take(j))->0.label ==> t.at(p)->0.label >= u.at(p)->0.label
}

/// Where labels further ahead subsume earlier ones, applying a diff leaves
/// every node that both clocks hold at the larger of its two labels, and
/// every other node at its own.
pub proof fn lemma_apply_pointwise_max(t: TreeClock, u: TreeClock)
    requires
        t.wf(),
        u.wf(),
        t.can_apply(u),
        subsumes_history(t, u),
    ensures
        forall|p: Seq<ReplicaAddr>| #[trigger] t.applied(u).contains_key(p) && u.labels().contains_key(p) ==>
            t.applied(u)[p] == if t.labels()[p] >= u.labels()[p] { t.labels()[p] } else { u.labels()[p] },
        forall|p: Seq<ReplicaAddr>| #[trigger] t.applied(u).contains_key(p) && !u.labels().contains_key(p) ==>
            t.applied(u)[p] == t.labels()[p],
{
    assert forall|p: Seq<ReplicaAddr>| #[trigger] t.applied(u).contains_key(p) && u.labels().contains_key(p) implies
        t.applied(u)[p] == if t.labels()[p] >= u.labels()[p] { t.labels()[p] } else { u.labels()[p] } by {
        if t.reaches(u, p) {
            assert(t.at(p)->0.label <= u.at(p)->0.label);
        } else {
            let j = choose|j: int| 0 <= j < p.len() && !{
                &&& #[trigger] t.at(p.take(j)) is Some
                &&& u.at(p.take(j)) is Some
                &&& t.at(p.take(j))->0.label < u.at(p.take(j))->0.label
            };
            lemma_at_prefix(t, p, j);
            lemma_at_prefix(u, p, j);
            assert(t.at(p.take(j))->0.label >= u.at(p.take(j))->0.label);
            assert(t.at(p)->0.label >= u.at(p)->0.label);
        }
    }
}

impl PartialEq for TreeClock {
    fn eq(&self, other: &TreeClock) -> (r: bool) {
        self.root.0 == other.root.0 && self.root.1 == other.root.1 && self.same_tree_as(other)
    }
}

impl vstd::std_specs::cmp::PartialEqSpecImpl for TreeClock {
    open spec fn obeys_eq_spec() -> bool {
        true
    }

    open spec fn eq_spec(&self, o: &TreeClock) -> bool {
        self.root == o.root && self.same_tree(*o)
    }
}

impl Clone for TreeClock {
    fn clone(&self) -> (r: TreeClock) {
        self.duplicate()
    }
}

impl Default for TreeClock {
    /// A clock of address `(0, 0)` with label 0 and no children, to be set up
    /// by `init`.
    fn default() -> (r: TreeClock)
        ensures
            r.wf(),
            r.root == (0usize, 0usize),
            r.label == 0,
            r.edges.len() == 0,
    {
        TreeClock::new((0, 0), 0)
    }
}

}
