//! Building the similarity graph: one node per record, and an edge for every
//! unordered pair of distinct records the similarity predicate accepts.

use vstd::prelude::*;
use std::collections::HashMap;
use petgraph::graph::{Graph, NodeIndex};
use petgraph::Undirected;
use crate::record::{Person, should_connect, spec_should_connect};
use crate::edges::{edges_within, same_pair, simple_edges};
use crate::pgraph::{add_edge, add_node, edges_of, index_of, new_graph, nodes_of};

verus! {

/// The edges laid down by the pairwise scan before it reaches the pair
/// (i, j): all pairs of earlier rows, and the pairs (i, b) with b < j.
pub open spec fn edges_upto(recs: Seq<Person>, i: nat, j: nat) -> Seq<(nat, nat)>
    decreases i, j,
{
    if j == 0 {
        if i == 0 {
            Seq::empty()
        } else {
            edges_upto(recs, (i - 1) as nat, recs.len())
        }
    } else {
        let prev = edges_upto(recs, i, (j - 1) as nat);
        if i < j - 1 && j - 1 < recs.len() && spec_should_connect(
            recs[i as int],
            recs[j - 1],
        ) {
            prev.push((i, (j - 1) as nat))
        } else {
            prev
        }
    }
}

/// The full edge sequence of the graph built from a record sequence.
pub open spec fn edge_seq_spec(recs: Seq<Person>) -> Seq<(nat, nat)> {
    edges_upto(recs, recs.len(), 0)
}

/// Whether the pair (a, b) has already been visited when the scan stands at
/// the pair (i, j).
spec fn visited(a: nat, b: nat, i: nat, j: nat) -> bool {
    a < i || (a == i && b < j)
}

proof fn lemma_edges_upto_len(recs: Seq<Person>, i: nat, j: nat)
    ensures
        edges_upto(recs, i, j).len() <= i * recs.len() + j,
    decreases i, j,
{
    if j == 0 {
        if i > 0 {
            lemma_edges_upto_len(recs, (i - 1) as nat, recs.len());
            assert(i * recs.len() == (i - 1) * recs.len() + recs.len()) by (nonlinear_arith);
        }
    } else {
        lemma_edges_upto_len(recs, i, (j - 1) as nat);
    }
}

proof fn lemma_contains_pair(recs: Seq<Person>, i: nat, j: nat, a: nat, b: nat)
    requires
        j <= recs.len(),
        i <= recs.len(),
    ensures
        edges_upto(recs, i, j).contains((a, b)) <==> (visited(a, b, i, j) && a < b
            && b < recs.len() && spec_should_connect(recs[a as int], recs[b as int])),
    decreases i, j,
{
    let es = edges_upto(recs, i, j);
    if j == 0 {
        if i == 0 {
            assert(es.len() == 0);
            assert(!es.contains((a, b)));
        } else {
            lemma_contains_pair(recs, (i - 1) as nat, recs.len(), a, b);
        }
    } else {
        lemma_contains_pair(recs, i, (j - 1) as nat, a, b);
        let prev = edges_upto(recs, i, (j - 1) as nat);
        let e = (i, (j - 1) as nat);
        if i < j - 1 && spec_should_connect(recs[i as int], recs[j - 1]) {
            assert(es == prev.push(e));
            assert(es[prev.len() as int] == e);
            assert(es.contains((a, b)) <==> prev.contains((a, b)) || (a, b) == e) by {
                if es.contains((a, b)) {
                    let k = choose|k: int| 0 <= k < es.len() && es[k] == (a, b);
                    if k < prev.len() {
                        assert(prev[k] == (a, b));
                        assert(prev.contains((a, b)));
                    }
                }
                if prev.contains((a, b)) {
                    let k = choose|k: int| 0 <= k < prev.len() && prev[k] == (a, b);
                    assert(es[k] == (a, b));
                }
            }
        } else {
            assert(es == prev);
        }
    }
}

/// The built edge sequence holds the pair (a, b) exactly when a < b, both
/// name records, and the similarity predicate accepts the two records. In
/// particular an edge exists between two distinct records if and only if they
/// are similar, and no record is paired with itself.
pub proof fn lemma_edge_characterization(recs: Seq<Person>)
    ensures
        forall|a: nat, b: nat|
            edge_seq_spec(recs).contains((a, b)) <==> (a < b && b < recs.len()
                && spec_should_connect(recs[a as int], recs[b as int])),
{
    assert forall|a: nat, b: nat|
        edge_seq_spec(recs).contains((a, b)) <==> (a < b && b < recs.len()
            && spec_should_connect(recs[a as int], recs[b as int])) by {
        lemma_contains_pair(recs, recs.len(), 0, a, b);
    }
}

/// No self-edges: graph construction never pairs a record with itself.
pub proof fn lemma_no_self_edges(recs: Seq<Person>)
    ensures
        forall|k: int|
            0 <= k < edge_seq_spec(recs).len() ==> (#[trigger] edge_seq_spec(recs)[k]).0
                != edge_seq_spec(recs)[k].1,
{
    lemma_edge_characterization(recs);
    let es = edge_seq_spec(recs);
    assert forall|k: int| 0 <= k < es.len() implies (#[trigger] es[k]).0 != es[k].1 by {
        assert(es.contains(es[k]));
        let (a, b) = es[k];
        assert(a < b);
    }
}

/// The built edge sequence is a simple undirected graph over the records:
/// endpoints in range, no self-loops, no duplicate edges in either
/// orientation.
pub proof fn lemma_edge_seq_simple(recs: Seq<Person>)
    ensures
        simple_edges(edge_seq_spec(recs), recs.len()),
{
    lemma_edge_characterization(recs);
    let es = edge_seq_spec(recs);
    assert forall|k: int|
        0 <= k < es.len() implies (#[trigger] es[k]).0 < recs.len() && es[k].1 < recs.len()
        && es[k].0 != es[k].1 by {
        assert(es.contains(es[k]));
        let (a, b) = es[k];
        assert(a < b && b < recs.len());
    }
    assert(edges_within(es, recs.len()));
    assert forall|k1: int, k2: int|
        0 <= k1 < k2 < es.len() implies !same_pair(#[trigger] es[k1], #[trigger] es[k2]) by {
        lemma_no_dup(recs, recs.len(), 0, k1, k2);
    }
}

proof fn lemma_no_dup(recs: Seq<Person>, i: nat, j: nat, k1: int, k2: int)
    requires
        j <= recs.len(),
        i <= recs.len(),
        0 <= k1 < k2 < edges_upto(recs, i, j).len(),
    ensures
        !same_pair(edges_upto(recs, i, j)[k1], edges_upto(recs, i, j)[k2]),
    decreases i, j,
{
    let es = edges_upto(recs, i, j);
    if j == 0 {
        if i > 0 {
            lemma_no_dup(recs, (i - 1) as nat, recs.len(), k1, k2);
        }
    } else {
        let prev = edges_upto(recs, i, (j - 1) as nat);
        if i < j - 1 && j - 1 < recs.len() && spec_should_connect(recs[i as int], recs[j - 1]) {
            let e = (i, (j - 1) as nat);
            if k2 < prev.len() {
                lemma_no_dup(recs, i, (j - 1) as nat, k1, k2);
            } else {
                // the new pair has not been visited, in either orientation
                assert(es[k2] == e);
                assert(es[k1] == prev[k1]);
                assert(prev.contains(prev[k1]));
                let (a, b) = prev[k1];
                lemma_contains_pair(recs, i, (j - 1) as nat, a, b);
                assert(visited(a, b, i, (j - 1) as nat) && a < b);
                assert(!(a == i && b == j - 1));
                assert(!(a == j - 1 && b == i));
            }
        } else {
            lemma_no_dup(recs, i, (j - 1) as nat, k1, k2);
        }
    }
}

/// Builds the graph: one node per record, in record order, and one edge per
/// similar unordered pair, found by the quadratic pairwise scan. Returns the
/// graph and the record-index-to-node-handle map.
pub fn create_graph(data: &[Person]) -> (r: (
    Graph<(), (), Undirected, u32>,
    HashMap<usize, NodeIndex<u32>>,
))
    requires
        // the pairwise scan indexes every pair, and petgraph's 32-bit edge
        // indices must be able to hold the result
        data@.len() <= 0xffff,
    ensures
        nodes_of(r.0) == data@.len(),
        edges_of(r.0) == edge_seq_spec(data@),
        forall|k: usize| r.1@.contains_key(k) <==> (k as nat) < data@.len(),
        forall|k: usize| (k as nat) < data@.len() ==> index_of(#[trigger] r.1@[k]) == k,
{
    broadcast use vstd::std_specs::hash::group_hash_axioms;

    let ghost recs = data@;
    let n = data.len();
    let mut graph = new_graph();
    let mut node_map: HashMap<usize, NodeIndex<u32>> = HashMap::new();
    let mut index: usize = 0;
    while index < n
        invariant
            n == recs.len(),
            n <= 0xffff,
            index <= n,
            nodes_of(graph) == index,
            edges_of(graph) == Seq::<(nat, nat)>::empty(),
            forall|k: usize| node_map@.contains_key(k) <==> (k as nat) < index,
            forall|k: usize| (k as nat) < index ==> index_of(#[trigger] node_map@[k]) == k,
        decreases n - index,
    {
        broadcast use vstd::std_specs::hash::group_hash_axioms;

        let node = add_node(&mut graph);
        node_map.insert(index, node);
        index += 1;
    }
    let mut i: usize = 0;
    while i < n
        invariant
            n == recs.len(),
            n <= 0xffff,
            recs == data@,
            i <= n,
            nodes_of(graph) == n,
            edges_of(graph) == edges_upto(recs, i as nat, 0),
            forall|k: usize| node_map@.contains_key(k) <==> (k as nat) < n,
            forall|k: usize| (k as nat) < n ==> index_of(#[trigger] node_map@[k]) == k,
        decreases n - i,
    {
        let mut j: usize = 0;
        while j < n
            invariant
                n == recs.len(),
                n <= 0xffff,
                recs == data@,
                i < n,
                j <= n,
                nodes_of(graph) == n,
                edges_of(graph) == edges_upto(recs, i as nat, j as nat),
                forall|k: usize| node_map@.contains_key(k) <==> (k as nat) < n,
                forall|k: usize| (k as nat) < n ==> index_of(#[trigger] node_map@[k]) == k,
            decreases n - j,
        {
            broadcast use vstd::std_specs::hash::group_hash_axioms;

            if i < j && should_connect(&data[i], &data[j]) {
                proof {
                    lemma_edges_upto_len(recs, i as nat, j as nat);
                    assert((i as nat) * recs.len() <= 0xffff * 0xffff) by (nonlinear_arith)
                        requires
                            (i as nat) <= 0xffff,
                            recs.len() <= 0xffff,
                    ;
                }
                let ni = *node_map.get(&i).unwrap();
                let nj = *node_map.get(&j).unwrap();
                add_edge(&mut graph, ni, nj);
            }
            j += 1;
        }
        i += 1;
        assert(edges_upto(recs, i as nat, 0) == edges_upto(recs, (i - 1) as nat, recs.len()));
    }
    (graph, node_map)
}

} // verus!
