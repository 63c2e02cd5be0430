use std::collections::HashSet;

use weibian::import_graph::ImportGraph;
use weibian::interner::NodeId;
use weibian::transclusion_graph::TransclusionGraph;

fn entries(edges: &[(u32, &[u32])]) -> Vec<(NodeId, Vec<NodeId>)> {
    edges
        .iter()
        .map(|(n, ts)| (NodeId(*n), ts.iter().map(|t| NodeId(*t)).collect()))
        .collect()
}

#[test]
fn topo_sort_puts_dependencies_first() {
    let graph = TransclusionGraph::build(&entries(&[(1, &[2, 3]), (2, &[3]), (3, &[])]));
    let order = graph.topo_sort().expect("acyclic");
    let pos = |n: u32| order.iter().position(|x| *x == NodeId(n)).unwrap();
    assert_eq!(order.len(), 3);
    assert!(pos(3) < pos(2));
    assert!(pos(2) < pos(1));
}

#[test]
fn topo_sort_reports_a_cycle() {
    let graph = TransclusionGraph::build(&entries(&[(1, &[2]), (2, &[1]), (3, &[1])]));
    let cycle = graph.topo_sort().expect_err("cyclic");
    let members: HashSet<NodeId> = cycle.nodes.iter().copied().collect();
    assert!(members.contains(&NodeId(1)));
    assert!(members.contains(&NodeId(2)));
    assert!(!members.contains(&NodeId(3)));
}

#[test]
fn dependents_are_the_transitive_transcluders() {
    let graph = TransclusionGraph::build(&entries(&[(1, &[2]), (2, &[3]), (4, &[])]));
    let mut deps: Vec<u32> = graph.dependents(NodeId(3)).iter().map(|n| n.0).collect();
    deps.sort();
    assert_eq!(deps, vec![1, 2]);
    assert!(graph.dependents(NodeId(4)).is_empty());
    assert!(graph.dependents(NodeId(9)).is_empty());
}

#[test]
fn import_dependents_follow_importers() {
    let mut graph = ImportGraph::new();
    graph.update(1, HashSet::from([2]));
    graph.update(2, HashSet::from([3]));
    graph.update(4, HashSet::from([3]));
    let deps = graph.dependents(3);
    assert_eq!(deps, HashSet::from([1, 2, 4]));
    assert_eq!(graph.dependents(1), HashSet::new());
}

#[test]
fn import_update_replaces_old_edges() {
    let mut graph = ImportGraph::new();
    graph.update(1, HashSet::from([2]));
    graph.update(1, HashSet::from([3]));
    assert_eq!(graph.dependents(2), HashSet::new());
    assert_eq!(graph.dependents(3), HashSet::from([1]));
}

#[test]
fn import_remove_forgets_the_file() {
    let mut graph = ImportGraph::new();
    graph.update(1, HashSet::from([2]));
    graph.update(2, HashSet::from([3]));
    graph.remove(2);
    assert_eq!(graph.dependents(3), HashSet::new());
    assert_eq!(graph.dependents(2), HashSet::new());
}
