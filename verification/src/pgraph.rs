//! The trusted interface to petgraph's adjacency-list graph.
//!
//! The graph itself is opaque to the verifier. Its contents are named by two
//! uninterpreted spec functions — `nodes_of`, the node count, and `edges_of`,
//! the stored edges in insertion order — and every wrapper below states, over
//! those names, what the petgraph call it makes does to them.

use vstd::prelude::*;
use petgraph::graph::{Graph, NodeIndex};
use petgraph::Undirected;
use crate::edges::{degree_of, edge_between, simple_edges};

verus! {

#[verifier::external_type_specification]
#[verifier::external_body]
#[verifier::reject_recursive_types(N)]
#[verifier::reject_recursive_types(E)]
#[verifier::reject_recursive_types(Ty)]
#[verifier::reject_recursive_types(Ix)]
pub struct ExGraph<N, E, Ty, Ix>(Graph<N, E, Ty, Ix>);

#[verifier::external_type_specification]
#[verifier::external_body]
pub struct ExUndirected(Undirected);

#[verifier::external_type_specification]
#[verifier::external_body]
#[verifier::reject_recursive_types(Ix)]
pub struct ExNodeIndex<Ix>(NodeIndex<Ix>);

/// The number of nodes the graph holds.
pub uninterp spec fn nodes_of(g: Graph<(), (), Undirected, u32>) -> nat;

/// The stored edges, as (source, target) node-index pairs in insertion order.
pub uninterp spec fn edges_of(g: Graph<(), (), Undirected, u32>) -> Seq<(nat, nat)>;

/// The node a handle stands for.
pub uninterp spec fn index_of(v: NodeIndex<u32>) -> nat;

/// Relies on petgraph's `Graph::new_undirected`: a graph with no nodes and no
/// edges.
#[verifier::external_body]
pub(crate) fn new_graph() -> (g: Graph<(), (), Undirected, u32>)
    ensures
        nodes_of(g) == 0,
        edges_of(g) == Seq::<(nat, nat)>::empty(),
{
    Graph::new_undirected()
}

/// Relies on petgraph's `Graph::node_count`, and on node indices being 32-bit
/// here: a node whose index would be the `u32` sentinel is refused, so the
/// count never exceeds it.
#[verifier::external_body]
pub(crate) fn node_count(g: &Graph<(), (), Undirected, u32>) -> (n: usize)
    ensures
        n == nodes_of(*g),
        n <= 0xffff_ffff,
{
    g.node_count()
}

/// Relies on petgraph's `Graph::add_node`: appends one node whose index is
/// the former node count, leaving the edges alone.
#[verifier::external_body]
pub(crate) fn add_node(g: &mut Graph<(), (), Undirected, u32>) -> (v: NodeIndex<u32>)
    requires
        nodes_of(*old(g)) < 0xffff_ffff,
    ensures
        nodes_of(*final(g)) == nodes_of(*old(g)) + 1,
        edges_of(*final(g)) == edges_of(*old(g)),
        index_of(v) == nodes_of(*old(g)),
{
    g.add_node(())
}

/// Relies on petgraph's `Graph::add_edge`: appends one edge from `a` to `b`,
/// leaving the nodes alone.
#[verifier::external_body]
pub(crate) fn add_edge(g: &mut Graph<(), (), Undirected, u32>, a: NodeIndex<u32>, b: NodeIndex<u32>)
    requires
        index_of(a) < nodes_of(*old(g)),
        index_of(b) < nodes_of(*old(g)),
        edges_of(*old(g)).len() < 0xffff_ffff,
    ensures
        nodes_of(*final(g)) == nodes_of(*old(g)),
        edges_of(*final(g)) == edges_of(*old(g)).push((index_of(a), index_of(b))),
{
    g.add_edge(a, b, ());
}

/// Relies on petgraph's `NodeIndex::new`: the handle for a node index.
#[verifier::external_body]
pub(crate) fn node_handle(i: usize) -> (v: NodeIndex<u32>)
    requires
        i < 0xffff_ffff,
    ensures
        index_of(v) == i,
{
    NodeIndex::new(i)
}

/// Relies on petgraph's `Graph::edges`: on an undirected graph without
/// parallel edges or self-loops it yields each edge incident to the node
/// exactly once, so its count is the node's degree.
#[verifier::external_body]
pub(crate) fn degree(g: &Graph<(), (), Undirected, u32>, v: NodeIndex<u32>) -> (d: usize)
    requires
        simple_edges(edges_of(*g), nodes_of(*g)),
        index_of(v) < nodes_of(*g),
    ensures
        d == degree_of(edges_of(*g), index_of(v)),
{
    g.edges(v).count()
}

/// Relies on petgraph's `Graph::neighbors`: on an undirected graph without
/// parallel edges or self-loops it yields, once each, exactly the nodes that
/// share an edge with the given node.
#[verifier::external_body]
pub(crate) fn neighbors(g: &Graph<(), (), Undirected, u32>, v: NodeIndex<u32>) -> (ns: Vec<usize>)
    requires
        simple_edges(edges_of(*g), nodes_of(*g)),
        index_of(v) < nodes_of(*g),
    ensures
        ns@.no_duplicates(),
        forall|w: usize| #[trigger]
            ns@.contains(w) <==> edge_between(edges_of(*g), index_of(v), w as nat),
        forall|k: int| 0 <= k < ns@.len() ==> (((#[trigger] ns@[k]) as nat) < nodes_of(*g)),
{
    g.neighbors(v).map(|x: NodeIndex<u32>| x.index()).collect()
}

} // verus!
