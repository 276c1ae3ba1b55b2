//! The mathematical model of an undirected edge collection: a sequence of
//! ordered endpoint pairs, in insertion order.

use vstd::prelude::*;

verus! {

/// Whether an edge has the node as an endpoint.
pub open spec fn touches(e: (nat, nat), v: nat) -> bool {
    e.0 == v || e.1 == v
}

/// Whether two stored pairs denote the same undirected edge.
pub open spec fn same_pair(e1: (nat, nat), e2: (nat, nat)) -> bool {
    e1 == e2 || (e1.0 == e2.1 && e1.1 == e2.0)
}

/// Whether the nodes are joined by an edge, in either stored orientation.
pub open spec fn edge_between(es: Seq<(nat, nat)>, a: nat, b: nat) -> bool {
    es.contains((a, b)) || es.contains((b, a))
}

/// Every endpoint names a node and no edge is a self-loop.
pub open spec fn edges_within(es: Seq<(nat, nat)>, n: nat) -> bool {
    forall|k: int|
        0 <= k < es.len() ==> (#[trigger] es[k]).0 < n && es[k].1 < n && es[k].0 != es[k].1
}

/// No undirected edge occurs twice, in either orientation.
pub open spec fn no_dup_edges(es: Seq<(nat, nat)>) -> bool {
    forall|k1: int, k2: int|
        0 <= k1 < k2 < es.len() ==> !same_pair(#[trigger] es[k1], #[trigger] es[k2])
}

/// A simple undirected graph over `n` nodes: valid endpoints, no self-loops,
/// no parallel edges.
pub open spec fn simple_edges(es: Seq<(nat, nat)>, n: nat) -> bool {
    edges_within(es, n) && no_dup_edges(es)
}

/// The degree of a node: how many edges touch it.
pub open spec fn degree_of(es: Seq<(nat, nat)>, v: nat) -> nat
    decreases es.len(),
{
    if es.len() == 0 {
        0
    } else {
        degree_of(es.drop_last(), v) + if touches(es.last(), v) {
            1nat
        } else {
            0nat
        }
    }
}

/// A node's degree never exceeds the number of edges.
pub proof fn lemma_degree_le_edges(es: Seq<(nat, nat)>, v: nat)
    ensures
        degree_of(es, v) <= es.len(),
    decreases es.len(),
{
    if es.len() > 0 {
        lemma_degree_le_edges(es.drop_last(), v);
    }
}

} // verus!
