use petgraph::graphmap::{DiGraphMap, GraphMap};
use petgraph::{Directed, Direction};

use vstd::prelude::*;

verus! {

/// petgraph's `GraphMap`, the directed graph that holds transclusions and
/// links between nodes. Its contents are seen through [`graph_nodes`] and
/// [`graph_edges`].
#[verifier::external_type_specification]
#[verifier::external_body]
#[verifier::reject_recursive_types(N)]
#[verifier::reject_recursive_types(E)]
#[verifier::reject_recursive_types(Ty)]
#[verifier::reject_recursive_types(S)]
pub struct ExGraphMap<N, E, Ty, S: std::hash::BuildHasher>(GraphMap<N, E, Ty, S>);

/// petgraph's marker for directed edges.
#[verifier::external_type_specification]
#[verifier::external_body]
pub struct ExDirected(Directed);

/// The nodes of a graph.
pub uninterp spec fn graph_nodes(g: DiGraphMap<u32, ()>) -> Set<u32>;

/// The edges of a graph, each a pair (source, target).
pub uninterp spec fn graph_edges(g: DiGraphMap<u32, ()>) -> Set<(u32, u32)>;

/// `w` follows edges from its first node to its last; a single node is a
/// walk of no steps.
pub open spec fn is_walk(edges: Set<(u32, u32)>, w: Seq<u32>) -> bool {
    &&& w.len() >= 1
    &&& forall|k: int| 0 <= k < w.len() - 1 ==> edges.contains((#[trigger] w[k], w[k + 1]))
}

/// `b` can be reached from `a` by following zero or more edges.
pub open spec fn reaches(edges: Set<(u32, u32)>, a: u32, b: u32) -> bool {
    exists|w: Seq<u32>|
        #![trigger is_walk(edges, w), w.last()]
        is_walk(edges, w) && w[0] == a && w.last() == b
}

/// `sccs` lists the strongly connected components of the graph in
/// postorder: every node is in exactly one component, two nodes share a
/// component exactly when each reaches the other, and an edge never leads to
/// a later component.
#[verifier::opaque]
pub open spec fn is_scc_order(nodes: Set<u32>, edges: Set<(u32, u32)>, sccs: Seq<Vec<u32>>) -> bool {
    &&& forall|i: int| 0 <= i < sccs.len() ==> (#[trigger] sccs[i])@.len() > 0
    &&& forall|i: int, p: int|
        0 <= i < sccs.len() && 0 <= p < sccs[i]@.len() ==> nodes.contains(#[trigger] sccs[i]@[p])
    &&& forall|n: u32|
        #[trigger] nodes.contains(n) ==> exists|i: int, p: int|
            0 <= i < sccs.len() && 0 <= p < sccs[i]@.len() && #[trigger] sccs[i]@[p] == n
    &&& forall|i: int, p: int, j: int, q: int|
        0 <= i < sccs.len() && 0 <= p < sccs[i]@.len() && 0 <= j < sccs.len() && 0 <= q
            < sccs[j]@.len() && #[trigger] sccs[i]@[p] == #[trigger] sccs[j]@[q] ==> i == j && p == q
    &&& forall|i: int, p: int, j: int, q: int|
        0 <= i < sccs.len() && 0 <= p < sccs[i]@.len() && 0 <= j < sccs.len() && 0 <= q
            < sccs[j]@.len() ==> ((i == j) <==> (reaches(edges, #[trigger] sccs[i]@[p], #[trigger] sccs[j]@[q])
            && reaches(edges, sccs[j]@[q], sccs[i]@[p])))
    &&& forall|i: int, p: int, j: int, q: int|
        0 <= i < sccs.len() && 0 <= p < sccs[i]@.len() && 0 <= j < sccs.len() && 0 <= q
            < sccs[j]@.len() && edges.contains((#[trigger] sccs[i]@[p], #[trigger] sccs[j]@[q])) ==> j <= i
}

/// petgraph's `GraphMap::new`: a graph without nodes or edges.
#[verifier::external_body]
pub(crate) fn new_graph() -> (g: DiGraphMap<u32, ()>)
    ensures
        graph_nodes(g) == Set::<u32>::empty(),
        graph_edges(g) == Set::<(u32, u32)>::empty(),
{
    DiGraphMap::new()
}

/// petgraph's `GraphMap::add_node`: adds `n` to the nodes, if absent.
#[verifier::external_body]
pub(crate) fn add_graph_node(g: &mut DiGraphMap<u32, ()>, n: u32)
    ensures
        graph_nodes(*final(g)) == graph_nodes(*old(g)).insert(n),
        graph_edges(*final(g)) == graph_edges(*old(g)),
{
    g.add_node(n);
}

/// petgraph's `GraphMap::add_edge`: adds the edge from `a` to `b`, and both
/// nodes, if absent. The graph holds no parallel edges.
#[verifier::external_body]
pub(crate) fn add_graph_edge(g: &mut DiGraphMap<u32, ()>, a: u32, b: u32)
    ensures
        graph_nodes(*final(g)) == graph_nodes(*old(g)).insert(a).insert(b),
        graph_edges(*final(g)) == graph_edges(*old(g)).insert((a, b)),
{
    g.add_edge(a, b, ());
}

/// petgraph's `GraphMap::neighbors` on a directed graph: the targets of the
/// edges from `a`, each once (one adjacency entry per edge), in an order the
/// crate leaves open.
#[verifier::external_body]
pub(crate) fn graph_targets(g: &DiGraphMap<u32, ()>, a: u32) -> (out: Vec<u32>)
    ensures
        out@.no_duplicates(),
        forall|b: u32| out@.contains(b) <==> graph_edges(*g).contains((a, b)),
{
    g.neighbors(a).collect()
}

/// petgraph's `GraphMap::neighbors_directed` with `Incoming`: the sources of
/// the edges into `a`, each once, in an order the crate leaves open.
#[verifier::external_body]
pub(crate) fn graph_sources(g: &DiGraphMap<u32, ()>, a: u32) -> (inc: Vec<u32>)
    ensures
        inc@.no_duplicates(),
        forall|s: u32| inc@.contains(s) <==> graph_edges(*g).contains((s, a)),
{
    g.neighbors_directed(a, Direction::Incoming).collect()
}

/// petgraph's `GraphMap::contains_edge`.
#[verifier::external_body]
pub(crate) fn graph_has_edge(g: &DiGraphMap<u32, ()>, a: u32, b: u32) -> (r: bool)
    ensures
        r == graph_edges(*g).contains((a, b)),
{
    g.contains_edge(a, b)
}

/// petgraph's `algo::tarjan_scc`: the strongly connected components in
/// postorder, as its documentation states. The order of the nodes inside a
/// component is left open. The implementation recurses along the graph; its
/// stack use is not stated here.
#[verifier::external_body]
pub(crate) fn strongly_connected_components(g: &DiGraphMap<u32, ()>) -> (sccs: Vec<Vec<u32>>)
    ensures
        is_scc_order(graph_nodes(*g), graph_edges(*g), sccs@),
{
    petgraph::algo::tarjan_scc(g)
}

/// Reaching is transitive.
pub proof fn lemma_reaches_trans(edges: Set<(u32, u32)>, a: u32, b: u32, c: u32)
    requires
        reaches(edges, a, b),
        reaches(edges, b, c),
    ensures
        reaches(edges, a, c),
{
    let w1 = choose|w: Seq<u32>| #![trigger is_walk(edges, w), w.last()] is_walk(edges, w) && w[0] == a && w.last() == b;
    let w2 = choose|w: Seq<u32>| #![trigger is_walk(edges, w), w.last()] is_walk(edges, w) && w[0] == b && w.last() == c;
    let w = w1 + w2.drop_first();
    assert forall|k: int| 0 <= k < w.len() - 1 implies edges.contains((#[trigger] w[k], w[k + 1])) by {
        if k < w1.len() - 1 {
            assert(w[k] == w1[k] && w[k + 1] == w1[k + 1]);
        } else if k == w1.len() - 1 {
            assert(w[k] == w1.last());
            assert(w[k + 1] == w2[1]);
            assert(w2[0] == b);
        } else {
            let m = k - w1.len() + 1;
            assert(w[k] == w2[m] && w[k + 1] == w2[m + 1]);
        }
    }
    if w2.len() == 1 {
        assert(w =~= w1);
    } else {
        assert(w.last() == w2.last());
    }
    assert(is_walk(edges, w) && w[0] == a && w.last() == c);
}

/// Every node reaches itself; an edge is a walk of one step.
pub proof fn lemma_reaches_step(edges: Set<(u32, u32)>, a: u32, b: u32)
    ensures
        reaches(edges, a, a),
        edges.contains((a, b)) ==> reaches(edges, a, b),
{
    let w = seq![a];
    assert(is_walk(edges, w) && w[0] == a && w.last() == a);
    if edges.contains((a, b)) {
        let v = seq![a, b];
        assert(v[0] == a && v[1] == b);
        assert(is_walk(edges, v) && v[0] == a && v.last() == b);
    }
}

/// A node reaches another exactly when it is that node or one of its targets
/// reaches it.
pub proof fn lemma_reaches_unfold(edges: Set<(u32, u32)>, a: u32, b: u32)
    ensures
        reaches(edges, a, b) <==> (a == b || exists|t: u32| #[trigger] edges.contains((a, t)) && reaches(edges, t, b)),
{
    lemma_reaches_step(edges, a, a);
    if reaches(edges, a, b) && a != b {
        let w = choose|w: Seq<u32>| #![trigger is_walk(edges, w), w.last()] is_walk(edges, w) && w[0] == a && w.last() == b;
        assert(w.len() >= 2);
        let rest = w.drop_first();
        assert forall|k: int| 0 <= k < rest.len() - 1 implies edges.contains((#[trigger] rest[k], rest[k + 1])) by {
            assert(rest[k] == w[k + 1] && rest[k + 1] == w[k + 2]);
        }
        assert(is_walk(edges, rest) && rest[0] == w[1] && rest.last() == b);
        assert(edges.contains((w[0], w[1])));
        assert(edges.contains((a, w[1])) && reaches(edges, w[1], b));
    }
    if exists|t: u32| #[trigger] edges.contains((a, t)) && reaches(edges, t, b) {
        let t = choose|t: u32| #[trigger] edges.contains((a, t)) && reaches(edges, t, b);
        lemma_reaches_step(edges, a, t);
        lemma_reaches_trans(edges, a, t, b);
    }
}

/// A node without outgoing edges reaches only itself.
pub proof fn lemma_reaches_from_sink(edges: Set<(u32, u32)>, a: u32, b: u32)
    requires
        forall|t: u32| !edges.contains((a, t)),
        reaches(edges, a, b),
    ensures
        a == b,
{
    lemma_reaches_unfold(edges, a, b);
}

} // verus!
