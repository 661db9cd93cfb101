//! The trusted boundary around petgraph: the directed graph that carries the
//! CFG is a `petgraph::graph::DiGraph`, declared opaque here and reached only
//! through thin wrappers. Two names describe what a graph value holds: its
//! node payloads in index order, and its edges as index pairs in insertion
//! order. Every wrapper contract below states what the petgraph source shows
//! of the wrapped call in terms of those two names.

use vstd::prelude::*;

use petgraph::graph::DiGraph;
use petgraph::graph::NodeIndex;
use petgraph::Direction;

use crate::cfg::BasicBlock;

verus! {

#[verifier::external_type_specification]
#[verifier::external_body]
#[verifier::reject_recursive_types(N)]
#[verifier::reject_recursive_types(E)]
#[verifier::reject_recursive_types(Ty)]
#[verifier::reject_recursive_types(Ix)]
pub struct ExGraph<N, E, Ty, Ix>(petgraph::graph::Graph<N, E, Ty, Ix>);

#[verifier::external_type_specification]
#[verifier::external_body]
pub struct ExDirected(petgraph::Directed);

/// The node payloads of a CFG graph, in node-index order.
pub uninterp spec fn graph_nodes(g: DiGraph<BasicBlock, ()>) -> Seq<BasicBlock>;

/// The directed edges of a CFG graph as (source, target) index pairs, in the
/// order they were added.
pub uninterp spec fn graph_edges(g: DiGraph<BasicBlock, ()>) -> Seq<(usize, usize)>;

/// Every edge endpoint is a valid node index.
pub open spec fn graph_wf(g: DiGraph<BasicBlock, ()>) -> bool {
    forall|j: int|
        0 <= j < graph_edges(g).len() ==> (#[trigger] graph_edges(g)[j]).0 < graph_nodes(g).len()
            && graph_edges(g)[j].1 < graph_nodes(g).len()
}

/// Relies on petgraph's `DiGraph::new`: a fresh graph has no nodes and no
/// edges.
#[verifier::external_body]
pub(crate) fn new_digraph() -> (g: DiGraph<BasicBlock, ()>)
    ensures
        graph_nodes(g) == Seq::<BasicBlock>::empty(),
        graph_edges(g) == Seq::<(usize, usize)>::empty(),
{
    DiGraph::new()
}

/// Relies on petgraph's `Graph::add_node`: appends one node and returns its
/// index, which equals the node count before the call. The index-type limit
/// that would make it panic is excluded by the precondition.
#[verifier::external_body]
pub(crate) fn graph_add_node(g: &mut DiGraph<BasicBlock, ()>, b: BasicBlock) -> (r: usize)
    requires
        graph_nodes(*old(g)).len() < 0xffff_ffff,
    ensures
        graph_nodes(*final(g)) == graph_nodes(*old(g)).push(b),
        graph_edges(*final(g)) == graph_edges(*old(g)),
        r == graph_nodes(*old(g)).len(),
{
    g.add_node(b).index()
}

/// Relies on petgraph's `Graph::add_edge`: appends one directed edge from
/// `a` to `b`. The preconditions exclude the out-of-bounds and index-limit
/// panics.
#[verifier::external_body]
pub(crate) fn graph_add_edge(g: &mut DiGraph<BasicBlock, ()>, a: usize, b: usize)
    requires
        a < graph_nodes(*old(g)).len(),
        b < graph_nodes(*old(g)).len(),
        graph_edges(*old(g)).len() < 0xffff_ffff,
    ensures
        graph_nodes(*final(g)) == graph_nodes(*old(g)),
        graph_edges(*final(g)) == graph_edges(*old(g)).push((a, b)),
{
    g.add_edge(NodeIndex::new(a), NodeIndex::new(b), ());
}

/// Relies on petgraph's `Graph::node_count`.
#[verifier::external_body]
pub(crate) fn graph_node_count(g: &DiGraph<BasicBlock, ()>) -> (r: usize)
    ensures
        r == graph_nodes(*g).len(),
{
    g.node_count()
}

/// Relies on petgraph's `Index<NodeIndex>` impl for `Graph`: returns the
/// payload of node `i`; the precondition excludes the missing-node panic.
#[verifier::external_body]
pub(crate) fn graph_node(g: &DiGraph<BasicBlock, ()>, i: usize) -> (r: BasicBlock)
    requires
        i < graph_nodes(*g).len(),
    ensures
        r == graph_nodes(*g)[i as int],
{
    g[NodeIndex::new(i)].clone()
}

/// The sources of the edges into `v`, most recently added first.
pub open spec fn incoming_sources(edges: Seq<(usize, usize)>, v: usize) -> Seq<usize> {
    edges.filter(|e: (usize, usize)| e.1 == v).map_values(|e: (usize, usize)| e.0).reverse()
}

/// The targets of the edges out of `v`, most recently added first.
pub open spec fn outgoing_targets(edges: Seq<(usize, usize)>, v: usize) -> Seq<usize> {
    edges.filter(|e: (usize, usize)| e.0 == v).map_values(|e: (usize, usize)| e.1).reverse()
}

/// Relies on petgraph's `Graph::neighbors_directed` with
/// `Direction::Incoming`: it yields the source of every edge into `v`, in
/// reverse order of edge addition.
#[verifier::external_body]
pub(crate) fn graph_preds(g: &DiGraph<BasicBlock, ()>, v: usize) -> (r: Vec<usize>)
    requires
        v < graph_nodes(*g).len(),
    ensures
        r@ == incoming_sources(graph_edges(*g), v),
        forall|u: usize| r@.contains(u) <==> graph_edges(*g).contains((u, v)),
{
    g.neighbors_directed(NodeIndex::new(v), Direction::Incoming).map(|n| n.index()).collect()
}

/// Relies on petgraph's `Graph::neighbors`: it yields the target of every
/// edge out of `v`, in reverse order of edge addition.
#[verifier::external_body]
pub(crate) fn graph_succs(g: &DiGraph<BasicBlock, ()>, v: usize) -> (r: Vec<usize>)
    requires
        v < graph_nodes(*g).len(),
    ensures
        r@ == outgoing_targets(graph_edges(*g), v),
        forall|u: usize| r@.contains(u) <==> graph_edges(*g).contains((v, u)),
{
    g.neighbors(NodeIndex::new(v)).map(|n| n.index()).collect()
}

} // verus!
