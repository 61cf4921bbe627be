//! The domain graph, a `petgraph` graph whose nodes carry replica addresses,
//! as far as clocks read it.
use vstd::prelude::*;

use crate::clock::ReplicaAddr;

verus! {

#[verifier::external_type_specification]
#[verifier::external_body]
#[verifier::reject_recursive_types(N)]
#[verifier::reject_recursive_types(E)]
#[verifier::reject_recursive_types(Ty)]
#[verifier::reject_recursive_types(Ix)]
pub struct ExGraph<N, E, Ty, Ix>(petgraph::Graph<N, E, Ty, Ix>);

#[verifier::external_type_specification]
#[verifier::external_body]
pub struct ExDirected(petgraph::Directed);

/// The graph of domains: an edge runs from a producer to a consumer.
pub type DomainGraph = petgraph::Graph<ReplicaAddr, ()>;

/// The weight of each node of the graph, by node index.
pub uninterp spec fn graph_weights(g: DomainGraph) -> Seq<ReplicaAddr>;

/// The `(source, target)` node indices of each edge, in the order in which
/// the edges were added (not the order of the edge indices, which removing an
/// edge renumbers).
pub uninterp spec fn graph_edges(g: DomainGraph) -> Seq<(usize, usize)>;

/// The sources of the edges in `es` that end at `t`, the last added first.
pub open spec fn sources_into(es: Seq<(usize, usize)>, t: usize) -> Seq<usize>
    decreases es.len(),
{
    if es.len() == 0 {
        Seq::empty()
    } else if es.last().1 == t {
        seq![es.last().0] + sources_into(es.drop_last(), t)
    } else {
        sources_into(es.drop_last(), t)
    }
}

/// `m` feeds `n` directly.
pub open spec fn is_pred(g: DomainGraph, m: usize, n: usize) -> bool {
    exists|k: int| 0 <= k < graph_edges(g).len() && #[trigger] graph_edges(g)[k] == (m, n)
}

/// `m` reaches `n` by following at most `k` edges.
pub open spec fn within(g: DomainGraph, m: usize, n: usize, k: nat) -> bool
    decreases k,
{
    m == n || (k > 0 && exists|x: usize| #[trigger] is_pred(g, x, n) && within(g, m, x, (k - 1) as nat))
}

/// Each edge joins two nodes of the graph.
pub open spec fn edges_valid(g: DomainGraph) -> bool {
    forall|k: int| 0 <= k < graph_edges(g).len() ==> {
        &&& (#[trigger] graph_edges(g)[k]).0 < graph_weights(g).len()
        &&& graph_edges(g)[k].1 < graph_weights(g).len()
    }
}

/// No two nodes carry the same address.
pub open spec fn weights_distinct(g: DomainGraph) -> bool {
    forall|a: usize, b: usize|
        a < graph_weights(g).len() && b < graph_weights(g).len() && #[trigger] graph_weights(g)[a as int]
            == #[trigger] graph_weights(g)[b as int] ==> a == b
}

pub proof fn lemma_sources_into(es: Seq<(usize, usize)>, t: usize)
    ensures
        forall|m: usize| #[trigger] sources_into(es, t).contains(m) <==> exists|k: int| 0 <= k < es.len() && es[k] == (m, t),
    decreases es.len(),
{
    if es.len() > 0 {
        let rest = es.drop_last();
        lemma_sources_into(rest, t);
        assert forall|m: usize| #[trigger] sources_into(es, t).contains(m) <==> exists|k: int| 0 <= k < es.len() && es[k] == (m, t) by {
            if sources_into(es, t).contains(m) {
                if es.last().1 == t && m == es.last().0 {
                    assert(es[es.len() - 1] == (m, t));
                } else {
                    if es.last().1 == t {
                        let j = choose|j: int| 0 <= j < sources_into(es, t).len() && sources_into(es, t)[j] == m;
                        assert(j > 0);
                        assert(sources_into(rest, t)[j - 1] == m);
                    }
                    assert(sources_into(rest, t).contains(m));
                    let k = choose|k: int| 0 <= k < rest.len() && rest[k] == (m, t);
                    assert(es[k] == (m, t));
                }
            }
            if exists|k: int| 0 <= k < es.len() && es[k] == (m, t) {
                let k = choose|k: int| 0 <= k < es.len() && es[k] == (m, t);
                if k == es.len() - 1 {
                    assert(sources_into(es, t)[0] == m);
                } else {
                    assert(rest[k] == (m, t));
                    assert(sources_into(rest, t).contains(m));
                    let j = choose|j: int| 0 <= j < sources_into(rest, t).len() && sources_into(rest, t)[j] == m;
                    if es.last().1 == t {
                        assert(sources_into(es, t)[j + 1] == m);
                    }
                }
            }
        }
    }
}

/// Relies on petgraph's `Graph::node_count`: the number of nodes. Every edge
/// of a graph joins two of its nodes: `add_edge` panics otherwise, and
/// `remove_node` takes the node's edges with it.
#[verifier::external_body]
pub(crate) fn node_count(g: &DomainGraph) -> (r: usize)
    ensures
        r == graph_weights(*g).len(),
        forall|k: int| 0 <= k < graph_edges(*g).len() ==> (#[trigger] graph_edges(*g)[k]).0 < r && graph_edges(*g)[k].1 < r,
{
    g.node_count()
}

/// Relies on petgraph's `Index<NodeIndex>` for `Graph`: the weight of a node,
/// which panics on an index that names no node.
#[verifier::external_body]
pub(crate) fn node_weight(g: &DomainGraph, ni: usize) -> (r: ReplicaAddr)
    requires
        ni < graph_weights(*g).len(),
    ensures
        r == graph_weights(*g)[ni as int],
{
    g[petgraph::graph::NodeIndex::new(ni)]
}

/// Relies on petgraph's `Graph::neighbors_directed` with `Incoming`: for a
/// directed graph, the sources of the edges into `ni`, the most recently added
/// edge first; `add_edge` admits only edges between nodes of the graph.
#[verifier::external_body]
pub(crate) fn incoming(g: &DomainGraph, ni: usize) -> (r: Vec<usize>)
    requires
        ni < graph_weights(*g).len(),
    ensures
        r@ == sources_into(graph_edges(*g), ni),
        forall|k: int| 0 <= k < r@.len() ==> #[trigger] r@[k] < graph_weights(*g).len(),
{
    g.neighbors_directed(petgraph::graph::NodeIndex::new(ni), petgraph::Direction::Incoming).map(|n| n.index()).collect()
}

}
