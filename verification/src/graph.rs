//! The board's passages, kept in a `petgraph` undirected graph.
//!
//! Verus does not look inside the graph. What it holds is named by two
//! uninterpreted functions, and each operation the engine uses is a small
//! function whose contract is taken from the graph crate's source and is
//! trusted, not proved.

use petgraph::algo::{dijkstra, has_path_connecting};
use petgraph::graph::{EdgeIndex, Graph, NodeIndex, UnGraph};
use petgraph::Undirected;
use std::collections::HashMap;
use vstd::prelude::*;

verus! {

/// `petgraph::graph::Graph`, opaque to the verifier.
#[verifier::external_type_specification]
#[verifier::external_body]
#[verifier::reject_recursive_types(N)]
#[verifier::reject_recursive_types(E)]
#[verifier::reject_recursive_types(Ty)]
#[verifier::reject_recursive_types(Ix)]
pub struct ExGraph<N, E, Ty, Ix>(Graph<N, E, Ty, Ix>);

/// `petgraph::Undirected`, the marker of graphs whose edges have no direction.
#[verifier::external_type_specification]
#[verifier::external_body]
pub struct ExUndirected(Undirected);

/// The weight of each node, by node index.
pub uninterp spec fn graph_nodes(g: UnGraph<(usize, usize), ()>) -> Seq<(usize, usize)>;

/// The two end nodes of each edge, by edge index.
pub uninterp spec fn graph_edges(g: UnGraph<(usize, usize), ()>) -> Seq<(usize, usize)>;

/// Edge `e` runs between `a` and `b`, in either direction.
pub open spec fn joins(e: (usize, usize), a: usize, b: usize) -> bool {
    (e.0 == a && e.1 == b) || (e.0 == b && e.1 == a)
}

/// Some edge runs between `a` and `b`.
pub open spec fn linked(edges: Seq<(usize, usize)>, a: usize, b: usize) -> bool {
    exists|k: int| 0 <= k < edges.len() && joins(#[trigger] edges[k], a, b)
}

/// `walk` is a non-empty list of nodes in which each is linked to the next.
pub open spec fn is_walk(edges: Seq<(usize, usize)>, walk: Seq<usize>) -> bool {
    &&& walk.len() >= 1
    &&& forall|i: int| 0 <= i < walk.len() - 1 ==> linked(edges, #[trigger] walk[i], walk[i + 1])
}

/// `walk` leads from `a` to `b`.
pub open spec fn walk_between(edges: Seq<(usize, usize)>, walk: Seq<usize>, a: usize, b: usize) -> bool {
    is_walk(edges, walk) && walk[0] == a && walk[walk.len() - 1] == b
}

/// `b` can be reached from `a` along edges; every node reaches itself.
pub open spec fn reachable(edges: Seq<(usize, usize)>, a: usize, b: usize) -> bool {
    exists|walk: Seq<usize>| walk_between(edges, walk, a, b)
}

/// `d` is the number of edges on a shortest walk from `a` to `b`.
pub open spec fn is_distance(edges: Seq<(usize, usize)>, a: usize, b: usize, d: nat) -> bool {
    &&& exists|walk: Seq<usize>| walk_between(edges, walk, a, b) && walk.len() == d + 1
    &&& forall|walk: Seq<usize>| walk_between(edges, walk, a, b) ==> walk.len() >= d + 1
}

/// The edge list after edge `k` is taken out and the last edge moves into its
/// place.
pub open spec fn swap_removed(edges: Seq<(usize, usize)>, k: int) -> Seq<(usize, usize)> {
    edges.update(k, edges[edges.len() - 1]).drop_last()
}

/// `a` names a node of `g`, and fits the graph's 32-bit indices.
pub open spec fn is_node(g: UnGraph<(usize, usize), ()>, a: usize) -> bool {
    a < graph_nodes(g).len() && a <= u32::MAX
}

/// The cost of walking along one edge.
pub(crate) fn unit_cost() -> (cost: usize)
    ensures
        cost == 1,
{
    1
}

/// `Graph::new_undirected`: a graph without nodes or edges.
#[verifier::external_body]
pub(crate) fn empty_graph() -> (g: UnGraph<(usize, usize), ()>)
    ensures
        graph_nodes(g) == Seq::<(usize, usize)>::empty(),
        graph_edges(g) == Seq::<(usize, usize)>::empty(),
{
    Graph::new_undirected()
}

/// `Graph::add_node`: appends a node and returns its index. The graph crate
/// panics when its 32-bit index space is used up, so that is required not to
/// be the case.
#[verifier::external_body]
pub(crate) fn add_node(g: &mut UnGraph<(usize, usize), ()>, weight: (usize, usize)) -> (index: usize)
    requires
        graph_nodes(*old(g)).len() < u32::MAX,
    ensures
        index == graph_nodes(*old(g)).len(),
        graph_nodes(*final(g)) == graph_nodes(*old(g)).push(weight),
        graph_edges(*final(g)) == graph_edges(*old(g)),
{
    g.add_node(weight).index()
}

/// `Graph::add_edge`: appends an edge between two existing nodes. The graph
/// crate panics when an end node is missing or when its 32-bit index space is
/// used up.
#[verifier::external_body]
pub(crate) fn add_edge(g: &mut UnGraph<(usize, usize), ()>, a: usize, b: usize)
    requires
        is_node(*old(g), a),
        is_node(*old(g), b),
        graph_edges(*old(g)).len() < u32::MAX,
    ensures
        graph_nodes(*final(g)) == graph_nodes(*old(g)),
        graph_edges(*final(g)) == graph_edges(*old(g)).push((a, b)),
{
    g.add_edge(NodeIndex::new(a), NodeIndex::new(b), ());
}

/// `Graph::find_edge`: the index of an edge between `a` and `b`, in either
/// direction, or nothing when no edge runs between them.
#[verifier::external_body]
pub(crate) fn find_edge(g: &UnGraph<(usize, usize), ()>, a: usize, b: usize) -> (found: Option<usize>)
    requires
        is_node(*g, a),
        is_node(*g, b),
    ensures
        match found {
            Some(k) => k < graph_edges(*g).len() && k <= u32::MAX && joins(graph_edges(*g)[k as int], a, b),
            None => !linked(graph_edges(*g), a, b),
        },
{
    match g.find_edge(NodeIndex::new(a), NodeIndex::new(b)) {
        Some(e) => Some(e.index()),
        None => None,
    }
}

/// `Graph::contains_edge`: whether an edge runs between `a` and `b`.
#[verifier::external_body]
pub(crate) fn contains_edge(g: &UnGraph<(usize, usize), ()>, a: usize, b: usize) -> (found: bool)
    requires
        is_node(*g, a),
        is_node(*g, b),
    ensures
        found == linked(graph_edges(*g), a, b),
{
    g.contains_edge(NodeIndex::new(a), NodeIndex::new(b))
}

/// `Graph::remove_edge`: takes edge `k` out; the last edge adopts its index.
/// Nodes are untouched.
#[verifier::external_body]
pub(crate) fn remove_edge(g: &mut UnGraph<(usize, usize), ()>, k: usize)
    requires
        k < graph_edges(*old(g)).len(),
        k <= u32::MAX,
    ensures
        graph_nodes(*final(g)) == graph_nodes(*old(g)),
        graph_edges(*final(g)) == swap_removed(graph_edges(*old(g)), k as int),
{
    g.remove_edge(EdgeIndex::new(k));
}

/// `Graph::neighbors`: the nodes that share an edge with `a`. The graph crate
/// leaves their order open for an undirected graph, and so does this contract.
#[verifier::external_body]
pub(crate) fn neighbors(g: &UnGraph<(usize, usize), ()>, a: usize) -> (found: Vec<usize>)
    requires
        is_node(*g, a),
    ensures
        forall|b: usize| found@.contains(b) <==> linked(graph_edges(*g), a, b),
{
    g.neighbors(NodeIndex::new(a)).map(|n| n.index()).collect()
}

/// Indexing a `Graph` by a node index: the node's weight. The graph crate
/// panics when the node is missing.
#[verifier::external_body]
pub(crate) fn node_weight(g: &UnGraph<(usize, usize), ()>, a: usize) -> (weight: (usize, usize))
    requires
        is_node(*g, a),
    ensures
        weight == graph_nodes(*g)[a as int],
{
    g[NodeIndex::new(a)]
}

/// `Clone::clone` of a `Graph`: the copy has the same nodes and edges under
/// the same indices.
#[verifier::external_body]
pub(crate) fn clone_graph(g: &UnGraph<(usize, usize), ()>) -> (copy: UnGraph<(usize, usize), ()>)
    ensures
        graph_nodes(copy) == graph_nodes(*g),
        graph_edges(copy) == graph_edges(*g),
{
    g.clone()
}

/// `petgraph::algo::has_path_connecting`: whether a depth-first search from
/// `from` meets `to`. The search marks `from` in a bit set sized by the node
/// count, so `from` has to be a node.
#[verifier::external_body]
pub(crate) fn has_path(g: &UnGraph<(usize, usize), ()>, from: usize, to: usize) -> (found: bool)
    requires
        is_node(*g, from),
        is_node(*g, to),
    ensures
        found == reachable(graph_edges(*g), from, to),
{
    has_path_connecting(g, NodeIndex::new(from), NodeIndex::new(to), None)
}

/// `petgraph::algo::dijkstra` with every edge costing one step and no goal
/// to stop at: a map from each node that `start` reaches to the length of a
/// shortest walk to it.
#[verifier::external_body]
pub(crate) fn shortest_distances(g: &UnGraph<(usize, usize), ()>, start: usize) -> (found: HashMap<usize, usize>)
    requires
        is_node(*g, start),
    ensures
        forall|b: usize| found@.contains_key(b) <==> reachable(graph_edges(*g), start, b),
        forall|b: usize| found@.contains_key(b) ==> is_distance(graph_edges(*g), start, b, #[trigger] found@[b] as nat),
{
    dijkstra(g, NodeIndex::new(start), None, |_| unit_cost()).into_iter().map(|(n, d)| (n.index(), d)).collect()
}

} // verus!
