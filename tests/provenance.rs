use petgraph::graph::NodeIndex;
use provenance::clock::{ReplicaAddr, TreeClock};
use provenance::graph::DomainGraph;

/// 0     1
///  \   /
///    2
///  /   \
/// 3     4
///  \   /
///    5
fn default_graph() -> DomainGraph {
    let mut g = petgraph::Graph::new();
    let mut nodes = vec![];
    for i in 0..6 {
        let node = g.add_node(addr(i));
        nodes.push(node);
    }
    g.add_edge(nodes[0], nodes[2], ());
    g.add_edge(nodes[1], nodes[2], ());
    g.add_edge(nodes[2], nodes[3], ());
    g.add_edge(nodes[2], nodes[4], ());
    g.add_edge(nodes[3], nodes[5], ());
    g.add_edge(nodes[4], nodes[5], ());
    g
}

fn addr(x: usize) -> ReplicaAddr {
    (x, 0)
}

fn child_mut(p: &mut TreeClock, a: ReplicaAddr) -> &mut TreeClock {
    p.edges.iter_mut().find(|c| c.root == a).unwrap()
}

fn child(p: &TreeClock, a: ReplicaAddr) -> &TreeClock {
    p.edges.iter().find(|c| c.root == a).unwrap()
}

/// Full provenance for the test graph
fn default_provenance() -> TreeClock {
    let p0 = TreeClock::new(addr(0), 0);
    let p1 = TreeClock::new(addr(1), 0);
    let p2_left = TreeClock::new_with(addr(2), 0, &[p0.clone(), p1.clone()]);
    let p2_right = TreeClock::new_with(addr(2), 0, &[p0, p1]);
    let p3 = TreeClock::new_with(addr(3), 0, &[p2_left]);
    let p4 = TreeClock::new_with(addr(4), 0, &[p2_right]);
    TreeClock::new_with(addr(5), 0, &[p3, p4])
}

const MAX_DEPTH: usize = 10;

#[test]
fn test_graph_init_bases() {
    let g = default_graph();

    let expected0 = TreeClock::new(addr(0), 0);
    let expected1 = TreeClock::new(addr(1), 0);

    let mut p = TreeClock::default();
    p.init(&g, addr(0), 0, MAX_DEPTH);
    assert_eq!(p, expected0);
    let mut p = TreeClock::default();
    p.init(&g, addr(1), 1, MAX_DEPTH);
    assert_eq!(p, expected1);
    let mut p = TreeClock::default();
    p.init(&g, addr(0), 0, 1);
    assert_eq!(p, expected0);
    let mut p = TreeClock::default();
    p.init(&g, addr(1), 1, 1);
    assert_eq!(p, expected1);
}

#[test]
fn test_graph_init_leaf() {
    let g = default_graph();
    let mut p5 = default_provenance();

    // max depth and depth 4 should have a path for each branch
    let mut p = TreeClock::default();
    p.init(&g, addr(5), 5, MAX_DEPTH);
    assert_eq!(p, p5);
    let mut p = TreeClock::default();
    p.init(&g, addr(5), 5, 4);
    assert_eq!(p, p5);

    // depth 3 should have one less layer
    let mut p = TreeClock::default();
    p.init(&g, addr(5), 5, 3);
    child_mut(child_mut(&mut p5, addr(3)), addr(2)).edges.clear();
    child_mut(child_mut(&mut p5, addr(4)), addr(2)).edges.clear();
    assert_eq!(p, p5);

    // depth 2 should have even one less layer
    let mut p = TreeClock::default();
    p.init(&g, addr(5), 5, 2);
    child_mut(&mut p5, addr(3)).edges.clear();
    child_mut(&mut p5, addr(4)).edges.clear();
    assert_eq!(p, p5);

    // depth 1 should be domain 5 by itself
    let mut p = TreeClock::default();
    p.init(&g, addr(5), 5, 1);
    p5.edges.clear();
    assert_eq!(p, p5);
}

#[test]
fn test_linear_diff() {
    let mut original = default_provenance();
    let mut expected = original.clone();
    expected.label = 1;
    child_mut(&mut expected, addr(4)).label = 2;
    child_mut(child_mut(&mut expected, addr(4)), addr(2)).label = 3;
    child_mut(child_mut(child_mut(&mut expected, addr(4)), addr(2)), addr(0)).label = 4;

    let p0 = TreeClock::new(addr(0), 4);
    let p2 = TreeClock::new_with(addr(2), 3, &[p0]);
    let p4 = TreeClock::new_with(addr(4), 2, &[p2]);
    let diff = TreeClock::new_with(addr(5), 1, &[p4]);

    // expected - original = diff
    // original + diff = expected
    assert_eq!(original.diff(&expected), diff);
    original.apply_update(&diff);
    assert_eq!(original, expected);
}

#[test]
fn test_partial_diff() {
    let mut original = default_provenance();
    let mut expected = original.clone();
    expected.label = 3;
    child_mut(&mut expected, addr(3)).label = 2;
    child_mut(&mut expected, addr(4)).label = 4;
    child_mut(child_mut(&mut expected, addr(3)), addr(2)).label = 5;

    let p2 = TreeClock::new(addr(2), 5);
    let p4 = TreeClock::new(addr(4), 4);
    let p3 = TreeClock::new_with(addr(3), 2, &[p2]);
    let diff = TreeClock::new_with(addr(5), 3, &[p3, p4]);

    // expected - original = diff
    // original + diff = expected
    assert_eq!(original.diff(&expected), diff);
    original.apply_update(&diff);
    assert_eq!(original, expected);
}

#[test]
fn test_trim() {
    let mut p = default_provenance();

    // depth 3
    p.trim(3);
    assert!(child(child(&p, addr(3)), addr(2)).edges.is_empty());
    assert!(child(child(&p, addr(4)), addr(2)).edges.is_empty());

    // depth 2
    p.trim(2);
    assert!(child(&p, addr(3)).edges.is_empty());
    assert!(child(&p, addr(4)).edges.is_empty());

    // depth 1
    p.trim(1);
    assert!(p.edges.is_empty());
}

fn addr_set(p: &TreeClock) -> Vec<ReplicaAddr> {
    let mut v: Vec<ReplicaAddr> = p.into_addr_labels().into_iter().map(|(a, _)| a).collect();
    v.sort();
    v.dedup();
    v
}

#[test]
fn init_holds_ancestors_within_depth() {
    let g = default_graph();
    let mut p = TreeClock::default();
    p.init(&g, addr(5), 5, 2);
    assert_eq!(addr_set(&p), vec![addr(3), addr(4), addr(5)]);
    let mut p = TreeClock::default();
    p.init(&g, addr(5), 5, 3);
    assert_eq!(addr_set(&p), vec![addr(2), addr(3), addr(4), addr(5)]);
    let mut p = TreeClock::default();
    p.init(&g, addr(2), 2, 2);
    assert_eq!(addr_set(&p), vec![addr(0), addr(1), addr(2)]);
}

#[test]
fn init_depth_one_has_no_children() {
    let mut g = petgraph::Graph::new();
    let a = g.add_node(addr(1));
    let b = g.add_node(addr(2));
    g.add_edge(a, b, ());
    let mut p = TreeClock::default();
    p.init(&g, addr(2), b.index(), 1);
    assert_eq!(p, TreeClock::new(addr(2), 0));
    let mut p = TreeClock::default();
    p.init(&g, addr(2), NodeIndex::<u32>::new(1).index(), 2);
    assert_eq!(p, TreeClock::new_with(addr(2), 0, &[TreeClock::new(addr(1), 0)]));
}

#[test]
fn apply_update_reports_changes_without_root() {
    let mut p = default_provenance();
    let diff = TreeClock::new_with(addr(5), 1, &[TreeClock::new(addr(4), 2)]);
    let (old, new) = p.apply_update(&diff);
    assert_eq!(old, vec![(addr(4), 0)]);
    assert_eq!(new, vec![(addr(4), 2)]);
    assert_eq!(p.label(), 1);
}

#[test]
fn apply_update_takes_the_larger_label() {
    let mut p = TreeClock::new_with(addr(5), 1, &[TreeClock::new(addr(3), 7), TreeClock::new(addr(4), 2)]);
    let diff = TreeClock::new_with(addr(5), 4, &[TreeClock::new(addr(3), 7), TreeClock::new(addr(4), 9)]);
    p.apply_update(&diff);
    assert_eq!(p, TreeClock::new_with(addr(5), 4, &[TreeClock::new(addr(3), 7), TreeClock::new(addr(4), 9)]));
}

#[test]
fn apply_update_equal_label_is_a_no_op() {
    let mut p = TreeClock::new_with(addr(5), 3, &[TreeClock::new(addr(4), 1)]);
    let before = p.clone();
    let diff = TreeClock::new_with(addr(5), 3, &[TreeClock::new(addr(4), 8)]);
    let (old, new) = p.apply_update(&diff);
    assert!(old.is_empty() && new.is_empty());
    assert_eq!(p, before);
}

#[test]
fn apply_update_twice_equals_once() {
    let mut once = default_provenance();
    let diff = TreeClock::new_with(addr(5), 3, &[TreeClock::new_with(addr(3), 2, &[TreeClock::new(addr(2), 5)])]);
    once.apply_update(&diff);
    let mut twice = once.clone();
    twice.apply_update(&diff);
    assert_eq!(once, twice);
}

#[test]
fn apply_update_ignores_children_the_clock_lacks() {
    let mut p = TreeClock::new(addr(5), 0);
    let diff = TreeClock::new_with(addr(5), 1, &[TreeClock::new(addr(4), 2)]);
    p.apply_update(&diff);
    assert_eq!(p, TreeClock::new(addr(5), 1));
}

#[test]
fn trim_keeps_labels_above_the_depth() {
    let mut p = TreeClock::new_with(addr(5), 6, &[TreeClock::new_with(addr(4), 5, &[TreeClock::new(addr(2), 4)])]);
    p.trim(2);
    assert_eq!(p, TreeClock::new_with(addr(5), 6, &[TreeClock::new(addr(4), 5)]));
}

#[test]
fn zero_clears_every_label() {
    let mut p = TreeClock::new_with(addr(5), 6, &[TreeClock::new(addr(4), 5)]);
    p.zero();
    assert_eq!(p, TreeClock::new_with(addr(5), 0, &[TreeClock::new(addr(4), 0)]));
}

#[test]
fn max_union_takes_larger_labels_and_copies_missing_nodes() {
    let mut p = TreeClock::new_with(addr(5), 2, &[TreeClock::new(addr(3), 7)]);
    let other = TreeClock::new_with(addr(5), 4, &[TreeClock::new(addr(3), 1), TreeClock::new(addr(4), 9)]);
    p.max_union(&other);
    assert_eq!(p, TreeClock::new_with(addr(5), 4, &[TreeClock::new(addr(3), 7), TreeClock::new(addr(4), 9)]));
}

#[test]
fn union_adds_the_other_clocks_children() {
    let mut p = TreeClock::new_with(addr(5), 2, &[TreeClock::new(addr(3), 7)]);
    let other = TreeClock::new_with(addr(5), 2, &[TreeClock::new_with(addr(3), 7, &[TreeClock::new(addr(2), 1)]), TreeClock::new(addr(4), 9)]);
    p.union(other.clone());
    assert_eq!(p, other);
}

#[test]
fn new_incoming_renames_the_old_parent() {
    let mut p = TreeClock::new_with(addr(5), 2, &[TreeClock::new_with(addr(3), 7, &[TreeClock::new(addr(2), 1)])]);
    assert!(!p.new_incoming(addr(3), addr(8)));
    assert_eq!(p, TreeClock::new_with(addr(5), 2, &[TreeClock::new_with(addr(8), 7, &[TreeClock::new(addr(2), 1)])]));
}

#[test]
fn new_incoming_promotes_the_grand_ancestor() {
    let mut p = TreeClock::new_with(addr(5), 2, &[TreeClock::new_with(addr(3), 7, &[TreeClock::new(addr(2), 1)])]);
    assert!(p.new_incoming(addr(3), addr(2)));
    assert_eq!(p, TreeClock::new_with(addr(5), 2, &[TreeClock::new(addr(2), 1)]));
}

#[test]
fn subgraph_finds_children_and_grandchildren() {
    let p = default_provenance();
    assert_eq!(p.subgraph(addr(3)).unwrap().root(), addr(3));
    let g = p.subgraph(addr(2)).unwrap();
    assert_eq!(g.root(), addr(2));
    assert_eq!(g.edges().len(), 2);
    assert!(p.subgraph(addr(0)).is_none());
    assert!(p.subgraph(addr(9)).is_none());
}

#[test]
fn into_addr_labels_lists_every_node() {
    let mut p = default_provenance();
    child_mut(child_mut(&mut p, addr(3)), addr(2)).label = 5;
    let mut v = p.into_addr_labels();
    v.sort();
    assert_eq!(
        v,
        vec![
            (addr(0), 0), (addr(0), 0), (addr(1), 0), (addr(1), 0), (addr(2), 0), (addr(2), 5),
            (addr(3), 0), (addr(4), 0), (addr(5), 0),
        ]
    );
}

#[test]
fn parent_is_the_only_child() {
    let p = TreeClock::new_with(addr(5), 2, &[TreeClock::new(addr(3), 7)]);
    assert_eq!(p.parent().unwrap().root(), addr(3));
    assert!(TreeClock::new(addr(5), 2).parent().is_none());
}

#[test]
fn setters_change_root_shard_and_label() {
    let mut p = TreeClock::new(addr(5), 2);
    p.set_shard(3);
    p.set_label(9);
    assert_eq!(p.root(), (5, 3));
    assert_eq!(p.label(), 9);
}

#[test]
fn add_child_replaces_a_child_with_the_same_root() {
    let mut p = TreeClock::new(addr(5), 2);
    p.add_child(TreeClock::new(addr(3), 1));
    p.add_child(TreeClock::new(addr(3), 4));
    assert_eq!(p.edges().len(), 1);
    assert_eq!(p, TreeClock::new_with(addr(5), 2, &[TreeClock::new(addr(3), 4)]));
}

#[test]
fn equality_ignores_child_order() {
    let a = TreeClock::new_with(addr(5), 2, &[TreeClock::new(addr(3), 1), TreeClock::new(addr(4), 1)]);
    let b = TreeClock::new_with(addr(5), 2, &[TreeClock::new(addr(4), 1), TreeClock::new(addr(3), 1)]);
    let c = TreeClock::new_with(addr(5), 2, &[TreeClock::new(addr(4), 1), TreeClock::new(addr(3), 2)]);
    assert_eq!(a, b);
    assert_ne!(a, c);
}

#[test]
fn try_init_refuses_a_node_that_is_not_there() {
    let g = default_graph();
    let mut p = TreeClock::new(addr(9), 4);
    assert!(!p.try_init(&g, addr(5), 6, 2));
    assert!(!p.try_init(&g, addr(4), 5, 2));
    assert!(!p.try_init(&g, addr(5), 5, 0));
    assert_eq!(p, TreeClock::new(addr(9), 4));
    assert!(p.try_init(&g, addr(5), 5, 2));
    assert_eq!(p, TreeClock::new_with(addr(5), 0, &[TreeClock::new(addr(3), 0), TreeClock::new(addr(4), 0)]));
}

#[test]
fn try_apply_update_refuses_a_diff_that_is_behind() {
    let mut p = TreeClock::new_with(addr(5), 1, &[TreeClock::new(addr(4), 6)]);
    let behind = TreeClock::new_with(addr(5), 2, &[TreeClock::new(addr(4), 3)]);
    assert!(!p.admits_update(&behind));
    assert!(p.try_apply_update(&behind).is_none());
    assert!(!p.admits_update(&TreeClock::new(addr(7), 2)));
    assert!(!p.admits_update(&TreeClock::new(addr(5), 0)));
    let ahead = TreeClock::new_with(addr(5), 2, &[TreeClock::new(addr(4), 8)]);
    assert!(p.admits_update(&ahead));
    assert!(p.try_apply_update(&ahead).is_some());
    assert_eq!(p, ahead);
}
