//! The directed graph of `petgraph` that holds the nodes and edges, and what
//! this library takes as given about it.

use vstd::prelude::*;
use crate::file_node::FileNode;

verus! {

/// `petgraph`'s `Graph`, taken as opaque: all that is known of a graph is
/// what the functions below say of its nodes and edges.
#[verifier::external_type_specification]
#[verifier::external_body]
#[verifier::reject_recursive_types(N)]
#[verifier::reject_recursive_types(E)]
#[verifier::reject_recursive_types(Ty)]
#[verifier::reject_recursive_types(Ix)]
pub struct ExGraph<N, E, Ty, Ix>(petgraph::graph::Graph<N, E, Ty, Ix>);

/// `petgraph`'s marker for a graph whose edges have a direction.
#[verifier::external_type_specification]
#[verifier::external_body]
pub struct ExDirected(petgraph::Directed);

/// A directed graph of files whose handles are plain `usize` numbers, so that
/// the graph has no node or edge limit of its own.
pub type DiGraph = petgraph::graph::Graph<FileNode, bool, petgraph::Directed, usize>;

/// The node weights of a graph, in the order of their handles.
pub uninterp spec fn graph_nodes(g: DiGraph) -> Seq<FileNode>;

/// The edges of a graph as (source handle, target handle), oldest first.
pub uninterp spec fn graph_edges(g: DiGraph) -> Seq<(usize, usize)>;

/// The far ends of the edges that leave `a`, newest edge first.
pub open spec fn targets_of(edges: Seq<(usize, usize)>, a: usize) -> Seq<usize>
    decreases edges.len(),
{
    if edges.len() == 0 {
        Seq::empty()
    } else if edges.last().0 == a {
        seq![edges.last().1] + targets_of(edges.drop_last(), a)
    } else {
        targets_of(edges.drop_last(), a)
    }
}

/// The near ends of the edges that arrive at `a`, newest edge first.
pub open spec fn sources_of(edges: Seq<(usize, usize)>, a: usize) -> Seq<usize>
    decreases edges.len(),
{
    if edges.len() == 0 {
        Seq::empty()
    } else if edges.last().1 == a {
        seq![edges.last().0] + sources_of(edges.drop_last(), a)
    } else {
        sources_of(edges.drop_last(), a)
    }
}

/// `Graph::with_capacity`: the graph it returns has no node and no edge.
#[verifier::external_body]
pub(crate) fn graph_new() -> (g: DiGraph)
    ensures
        graph_nodes(g) == Seq::<FileNode>::empty(),
        graph_edges(g) == Seq::<(usize, usize)>::empty(),
{
    petgraph::graph::Graph::with_capacity(0, 0)
}

/// `Graph::node_count`: the number of nodes.
#[verifier::external_body]
pub(crate) fn graph_node_count(g: &DiGraph) -> (n: usize)
    ensures
        n == graph_nodes(*g).len(),
{
    g.node_count()
}

/// `Graph::edge_count`: the number of edges.
#[verifier::external_body]
pub(crate) fn graph_edge_count(g: &DiGraph) -> (n: usize)
    ensures
        n == graph_edges(*g).len(),
{
    g.edge_count()
}

/// `Graph::add_node`: appends the weight as a new node, whose handle is the
/// number of nodes before the call, and leaves the edges alone. With `usize`
/// handles the graph has no node limit, so the call does not panic.
#[verifier::external_body]
pub(crate) fn graph_add_node(g: &mut DiGraph, weight: FileNode) -> (handle: usize)
    ensures
        graph_nodes(*final(g)) == graph_nodes(*old(g)).push(weight),
        graph_edges(*final(g)) == graph_edges(*old(g)),
        handle == graph_nodes(*old(g)).len(),
{
    g.add_node(weight).index()
}

/// `Graph::add_edge`: appends an edge from `a` to `b`, parallel edges
/// included, and leaves the nodes alone. It panics where a handle names no
/// node, which `requires` leaves out; with `usize` handles there is no edge
/// limit.
#[verifier::external_body]
pub(crate) fn graph_add_edge(g: &mut DiGraph, a: usize, b: usize)
    requires
        a < graph_nodes(*old(g)).len(),
        b < graph_nodes(*old(g)).len(),
    ensures
        graph_nodes(*final(g)) == graph_nodes(*old(g)),
        graph_edges(*final(g)) == graph_edges(*old(g)).push((a, b)),
{
    g.add_edge(petgraph::graph::NodeIndex::new(a), petgraph::graph::NodeIndex::new(b), true);
}

/// Indexing a `Graph` by a node handle: the weight of that node. It panics
/// where the handle names no node, which `requires` leaves out.
#[verifier::external_body]
pub(crate) fn graph_node(g: &DiGraph, a: usize) -> (weight: &FileNode)
    requires
        a < graph_nodes(*g).len(),
    ensures
        *weight == graph_nodes(*g)[a as int],
{
    &g[petgraph::graph::NodeIndex::new(a)]
}

/// `Graph::neighbors_directed` with `Outgoing`: the targets of the edges that
/// leave `a`, the most recently added edge first; nothing for a handle that
/// names no node.
#[verifier::external_body]
pub(crate) fn graph_successors(g: &DiGraph, a: usize) -> (found: Vec<usize>)
    ensures
        found@ == targets_of(graph_edges(*g), a),
{
    g.neighbors_directed(petgraph::graph::NodeIndex::new(a), petgraph::Direction::Outgoing)
        .map(|n| n.index())
        .collect()
}

/// `Graph::neighbors_directed` with `Incoming`: the sources of the edges that
/// arrive at `a`, the most recently added edge first; nothing for a handle
/// that names no node.
#[verifier::external_body]
pub(crate) fn graph_predecessors(g: &DiGraph, a: usize) -> (found: Vec<usize>)
    ensures
        found@ == sources_of(graph_edges(*g), a),
{
    g.neighbors_directed(petgraph::graph::NodeIndex::new(a), petgraph::Direction::Incoming)
        .map(|n| n.index())
        .collect()
}

/// `Graph::edge_references`: every edge as (source handle, target handle), in
/// the order in which the edges were added.
#[verifier::external_body]
pub(crate) fn graph_edge_list(g: &DiGraph) -> (found: Vec<(usize, usize)>)
    ensures
        found@ == graph_edges(*g),
{
    g.edge_references()
        .map(|e| (petgraph::visit::EdgeRef::source(&e).index(), petgraph::visit::EdgeRef::target(&e).index()))
        .collect()
}

} // verus!
