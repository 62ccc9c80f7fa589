//! The petgraph directed graph that holds the vault graph, and the calls made on it.
use vstd::prelude::*;
use petgraph::graph::{DiGraph, EdgeIndex, Graph, NodeIndex};
use petgraph::visit::EdgeRef;
use petgraph::Directed;
use crate::graph::{VaultEdge, VaultNode};

verus! {

#[verifier::external_type_specification]
#[verifier::external_body]
#[verifier::reject_recursive_types(N)]
#[verifier::reject_recursive_types(E)]
#[verifier::reject_recursive_types(Ty)]
#[verifier::reject_recursive_types(Ix)]
pub struct ExGraph<N, E, Ty, Ix>(Graph<N, E, Ty, Ix>);

#[verifier::external_type_specification]
#[verifier::external_body]
pub struct ExDirected(Directed);

/// The node weights of a graph, by node index.
pub uninterp spec fn graph_nodes(g: DiGraph<VaultNode, VaultEdge>) -> Seq<VaultNode>;

/// The edges of a graph, by edge index: (source, target, weight).
pub uninterp spec fn graph_edges(g: DiGraph<VaultNode, VaultEdge>) -> Seq<(usize, usize, VaultEdge)>;

/// The edges at node `n` among the first `k` edges of `es`, newest first, as
/// (edge index, source, target): those leaving `n` when `outgoing`, else
/// those entering it. This is the order of a node's adjacency list.
pub open spec fn incident(es: Seq<(usize, usize, VaultEdge)>, n: usize, outgoing: bool, k: nat) -> Seq<(usize, usize, usize)>
    decreases k,
{
    if k == 0 || k > es.len() {
        seq![]
    } else {
        let e = es[k - 1];
        let rest = incident(es, n, outgoing, (k - 1) as nat);
        if (outgoing && e.0 == n) || (!outgoing && e.1 == n) {
            seq![((k - 1) as usize, e.0, e.1)] + rest
        } else {
            rest
        }
    }
}

/// The edges from `a` to `b` among the first `k` edges of `es`, newest first.
pub open spec fn connecting(es: Seq<(usize, usize, VaultEdge)>, a: usize, b: usize, k: nat) -> Seq<usize>
    decreases k,
{
    if k == 0 || k > es.len() {
        seq![]
    } else {
        let rest = connecting(es, a, b, (k - 1) as nat);
        if es[k - 1].0 == a && es[k - 1].1 == b {
            seq![(k - 1) as usize] + rest
        } else {
            rest
        }
    }
}

/// Wraps `Graph::new`: a graph with no nodes and no edges.
#[verifier::external_body]
pub(crate) fn graph_new() -> (g: DiGraph<VaultNode, VaultEdge>)
    ensures
        graph_nodes(g) == Seq::<VaultNode>::empty(),
        graph_edges(g) == Seq::<(usize, usize, VaultEdge)>::empty(),
{
    DiGraph::new()
}

/// Wraps `Graph::add_node`: appends a node and returns its index. The call
/// panics when the index would reach `u32::MAX`, which `requires` rules out.
#[verifier::external_body]
pub(crate) fn graph_add_node(g: &mut DiGraph<VaultNode, VaultEdge>, weight: VaultNode) -> (idx: usize)
    requires
        graph_nodes(*old(g)).len() < u32::MAX,
    ensures
        idx == graph_nodes(*old(g)).len(),
        graph_nodes(*final(g)) == graph_nodes(*old(g)).push(weight),
        graph_edges(*final(g)) == graph_edges(*old(g)),
{
    g.add_node(weight).index()
}

/// Wraps `Graph::add_edge`: appends an edge from `a` to `b` (parallel edges
/// allowed) and returns its index. The call panics on a missing node or when
/// the index would reach `u32::MAX`, which `requires` rules out.
#[verifier::external_body]
pub(crate) fn graph_add_edge(g: &mut DiGraph<VaultNode, VaultEdge>, a: usize, b: usize, weight: VaultEdge) -> (idx: usize)
    requires
        a < graph_nodes(*old(g)).len(),
        b < graph_nodes(*old(g)).len(),
        graph_edges(*old(g)).len() < u32::MAX,
    ensures
        idx == graph_edges(*old(g)).len(),
        graph_nodes(*final(g)) == graph_nodes(*old(g)),
        graph_edges(*final(g)) == graph_edges(*old(g)).push((a, b, weight)),
{
    g.add_edge(NodeIndex::new(a), NodeIndex::new(b), weight).index()
}

/// Wraps `Graph::node_count`.
#[verifier::external_body]
pub(crate) fn graph_node_count(g: &DiGraph<VaultNode, VaultEdge>) -> (n: usize)
    ensures
        n == graph_nodes(*g).len(),
{
    g.node_count()
}

/// Wraps `Graph::edge_count`.
#[verifier::external_body]
pub(crate) fn graph_edge_count(g: &DiGraph<VaultNode, VaultEdge>) -> (n: usize)
    ensures
        n == graph_edges(*g).len(),
{
    g.edge_count()
}

/// Wraps indexing a graph by a node index: the weight of node `n`.
#[verifier::external_body]
pub(crate) fn graph_node<'a>(g: &'a DiGraph<VaultNode, VaultEdge>, n: usize) -> (w: &'a VaultNode)
    requires
        n < graph_nodes(*g).len(),
    ensures
        *w == graph_nodes(*g)[n as int],
{
    &g[NodeIndex::new(n)]
}

/// Wraps indexing a graph by an edge index: the weight of edge `e`.
#[verifier::external_body]
pub(crate) fn graph_edge<'a>(g: &'a DiGraph<VaultNode, VaultEdge>, e: usize) -> (w: &'a VaultEdge)
    requires
        e < graph_edges(*g).len(),
    ensures
        *w == graph_edges(*g)[e as int].2,
{
    &g[EdgeIndex::new(e)]
}

/// Wraps `Graph::edges_directed`: the edges leaving (`outgoing`) or entering
/// node `n`, each as (edge index, source, target), in the order of the node's
/// adjacency list, newest edge first.
#[verifier::external_body]
pub(crate) fn graph_edges_directed(g: &DiGraph<VaultNode, VaultEdge>, n: usize, outgoing: bool) -> (res: Vec<(usize, usize, usize)>)
    requires
        n < graph_nodes(*g).len(),
    ensures
        res@ == incident(graph_edges(*g), n, outgoing, graph_edges(*g).len()),
{
    let dir = if outgoing { petgraph::Direction::Outgoing } else { petgraph::Direction::Incoming };
    g.edges_directed(NodeIndex::new(n), dir)
        .map(|e| (e.id().index(), e.source().index(), e.target().index()))
        .collect()
}

/// Wraps `Graph::edges_connecting`: the indices of the edges from `a` to `b`, newest first.
#[verifier::external_body]
pub(crate) fn graph_edges_connecting(g: &DiGraph<VaultNode, VaultEdge>, a: usize, b: usize) -> (res: Vec<usize>)
    requires
        a < graph_nodes(*g).len(),
        b < graph_nodes(*g).len(),
    ensures
        res@ == connecting(graph_edges(*g), a, b, graph_edges(*g).len()),
{
    g.edges_connecting(NodeIndex::new(a), NodeIndex::new(b)).map(|e| e.id().index()).collect()
}

} // verus!
