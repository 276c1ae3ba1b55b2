//! Structural and behavioral statistics over the finished graph.

use vstd::prelude::*;
use std::collections::HashMap;
use petgraph::graph::{Graph, NodeIndex};
use petgraph::Undirected;
use crate::edges::{
    degree_of, edge_between, edges_within, lemma_degree_le_edges, simple_edges,
};
use crate::graph::edge_seq_spec;
use crate::pgraph::{degree, edges_of, index_of, neighbors, node_count, node_handle, nodes_of};
use crate::record::Person;

verus! {

/// How many of the nodes below `upto` have degree `d`.
pub open spec fn count_with_degree(es: Seq<(nat, nat)>, upto: nat, d: nat) -> nat
    decreases upto,
{
    if upto == 0 {
        0
    } else {
        count_with_degree(es, (upto - 1) as nat, d) + if degree_of(es, (upto - 1) as nat) == d {
            1nat
        } else {
            0nat
        }
    }
}

proof fn lemma_count_le(es: Seq<(nat, nat)>, upto: nat, d: nat)
    ensures
        count_with_degree(es, upto, d) <= upto,
    decreases upto,
{
    if upto > 0 {
        lemma_count_le(es, (upto - 1) as nat, d);
    }
}

/// The degree distribution: how many nodes have each occurring degree.
/// A degree that no node has gets no entry; nodes without edges count
/// under degree 0.
pub fn compute_degree_distribution(graph: &Graph<(), (), Undirected, u32>) -> (dist: HashMap<
    usize,
    usize,
>)
    requires
        simple_edges(edges_of(*graph), nodes_of(*graph)),
    ensures
        forall|d: usize| #[trigger]
            dist@.contains_key(d) <==> count_with_degree(
                edges_of(*graph),
                nodes_of(*graph),
                d as nat,
            ) > 0,
        forall|d: usize| #[trigger]
            dist@.contains_key(d) ==> dist@[d] == count_with_degree(
                edges_of(*graph),
                nodes_of(*graph),
                d as nat,
            ),
{
    broadcast use vstd::std_specs::hash::group_hash_axioms;

    let ghost es = edges_of(*graph);
    let n = node_count(graph);
    let mut dist: HashMap<usize, usize> = HashMap::new();
    let mut v: usize = 0;
    while v < n
        invariant
            n == nodes_of(*graph),
            n <= 0xffff_ffff,
            v <= n,
            es == edges_of(*graph),
            simple_edges(es, nodes_of(*graph)),
            forall|d: usize| #[trigger]
                dist@.contains_key(d) <==> count_with_degree(es, v as nat, d as nat) > 0,
            forall|d: usize| #[trigger]
                dist@.contains_key(d) ==> dist@[d] == count_with_degree(es, v as nat, d as nat),
        decreases n - v,
    {
        broadcast use vstd::std_specs::hash::group_hash_axioms;

        let h = node_handle(v);
        let d = degree(graph, h);
        let c = match dist.get(&d) {
            Some(c0) => *c0,
            None => 0,
        };
        proof {
            lemma_count_le(es, v as nat, d as nat);
        }
        dist.insert(d, c + 1);
        v += 1;
        assert forall|dd: usize| #[trigger]
            dist@.contains_key(dd) <==> count_with_degree(es, v as nat, dd as nat) > 0 by {
            assert(count_with_degree(es, v as nat, dd as nat) == count_with_degree(
                es,
                (v - 1) as nat,
                dd as nat,
            ) + if degree_of(es, (v - 1) as nat) == dd as nat {
                1nat
            } else {
                0nat
            });
        }
        assert forall|dd: usize| #[trigger]
            dist@.contains_key(dd) implies dist@[dd] == count_with_degree(
            es,
            v as nat,
            dd as nat,
        ) by {
            assert(count_with_degree(es, v as nat, dd as nat) == count_with_degree(
                es,
                (v - 1) as nat,
                dd as nat,
            ) + if degree_of(es, (v - 1) as nat) == dd as nat {
                1nat
            } else {
                0nat
            });
        }
    }
    dist
}

/// The degrees of all nodes below `n`, totalled.
pub open spec fn degree_sum(es: Seq<(nat, nat)>, n: nat) -> nat
    decreases n,
{
    if n == 0 {
        0
    } else {
        degree_sum(es, (n - 1) as nat) + degree_of(es, (n - 1) as nat)
    }
}

/// How many endpoints of one edge lie below `n`, endpoints that coincide
/// counted once.
spec fn touched_below(e: (nat, nat), n: nat) -> nat {
    (if e.0 < n {
        1nat
    } else {
        0nat
    }) + (if e.1 < n && e.1 != e.0 {
        1nat
    } else {
        0nat
    })
}

proof fn lemma_degree_sum_empty(es: Seq<(nat, nat)>, n: nat)
    requires
        es.len() == 0,
    ensures
        degree_sum(es, n) == 0,
    decreases n,
{
    if n > 0 {
        lemma_degree_sum_empty(es, (n - 1) as nat);
    }
}

proof fn lemma_degree_sum_drop(es: Seq<(nat, nat)>, n: nat)
    requires
        es.len() > 0,
    ensures
        degree_sum(es, n) == degree_sum(es.drop_last(), n) + touched_below(es.last(), n),
    decreases n,
{
    if n > 0 {
        lemma_degree_sum_drop(es, (n - 1) as nat);
    }
}

/// Degree sum: over a graph without self-loops, the degrees of all nodes
/// total exactly twice the number of edges.
pub proof fn lemma_degree_sum(es: Seq<(nat, nat)>, n: nat)
    requires
        edges_within(es, n),
    ensures
        degree_sum(es, n) == 2 * es.len(),
    decreases es.len(),
{
    if es.len() == 0 {
        lemma_degree_sum_empty(es, n);
    } else {
        let head = es.drop_last();
        assert(es[es.len() - 1] == es.last());
        assert forall|k: int|
            0 <= k < head.len() implies (#[trigger] head[k]).0 < n && head[k].1 < n && head[k].0
            != head[k].1 by {
            assert(head[k] == es[k]);
        }
        lemma_degree_sum(head, n);
        lemma_degree_sum_drop(es, n);
        assert(touched_below(es.last(), n) == 2);
    }
}

/// The histogram entries for all degrees below `dbound`, totalled.
pub open spec fn dist_total(m: Map<usize, usize>, dbound: nat) -> nat
    decreases dbound,
{
    if dbound == 0 {
        0
    } else {
        dist_total(m, (dbound - 1) as nat) + if m.contains_key((dbound - 1) as usize) {
            m[(dbound - 1) as usize] as nat
        } else {
            0nat
        }
    }
}

spec fn ind_sum(es: Seq<(nat, nat)>, v: nat, dbound: nat) -> nat
    decreases dbound,
{
    if dbound == 0 {
        0
    } else {
        ind_sum(es, v, (dbound - 1) as nat) + if degree_of(es, v) == (dbound - 1) as nat {
            1nat
        } else {
            0nat
        }
    }
}

proof fn lemma_ind_sum(es: Seq<(nat, nat)>, v: nat, dbound: nat)
    ensures
        ind_sum(es, v, dbound) == if degree_of(es, v) < dbound {
            1nat
        } else {
            0nat
        },
    decreases dbound,
{
    if dbound > 0 {
        lemma_ind_sum(es, v, (dbound - 1) as nat);
    }
}

spec fn sum_counts(es: Seq<(nat, nat)>, n: nat, dbound: nat) -> nat
    decreases dbound,
{
    if dbound == 0 {
        0
    } else {
        sum_counts(es, n, (dbound - 1) as nat) + count_with_degree(es, n, (dbound - 1) as nat)
    }
}

proof fn lemma_sum_counts_step(es: Seq<(nat, nat)>, n: nat, dbound: nat)
    requires
        n > 0,
    ensures
        sum_counts(es, n, dbound) == sum_counts(es, (n - 1) as nat, dbound) + ind_sum(
            es,
            (n - 1) as nat,
            dbound,
        ),
    decreases dbound,
{
    if dbound > 0 {
        lemma_sum_counts_step(es, n, (dbound - 1) as nat);
    }
}

proof fn lemma_sum_counts_zero(es: Seq<(nat, nat)>, n: nat, dbound: nat)
    requires
        n == 0,
    ensures
        sum_counts(es, n, dbound) == 0,
    decreases dbound,
{
    if dbound > 0 {
        lemma_sum_counts_zero(es, n, (dbound - 1) as nat);
    }
}

proof fn lemma_sum_counts(es: Seq<(nat, nat)>, n: nat, dbound: nat)
    requires
        forall|v: nat| v < n ==> #[trigger] degree_of(es, v) < dbound,
    ensures
        sum_counts(es, n, dbound) == n,
    decreases n,
{
    if n == 0 {
        lemma_sum_counts_zero(es, n, dbound);
    } else {
        lemma_sum_counts(es, (n - 1) as nat, dbound);
        lemma_sum_counts_step(es, n, dbound);
        lemma_ind_sum(es, (n - 1) as nat, dbound);
    }
}

proof fn lemma_dist_total(m: Map<usize, usize>, es: Seq<(nat, nat)>, n: nat, dbound: nat)
    requires
        dbound <= usize::MAX,
        forall|d: usize| #[trigger] m.contains_key(d) <==> count_with_degree(es, n, d as nat) > 0,
        forall|d: usize| #[trigger] m.contains_key(d) ==> m[d] == count_with_degree(es, n, d as nat),
    ensures
        dist_total(m, dbound) == sum_counts(es, n, dbound),
    decreases dbound,
{
    if dbound > 0 {
        lemma_dist_total(m, es, n, (dbound - 1) as nat);
        let d = (dbound - 1) as usize;
        if m.contains_key(d) {
            assert(m[d] == count_with_degree(es, n, d as nat));
        } else {
            assert(count_with_degree(es, n, d as nat) == 0);
        }
    }
}

/// Distribution coverage: the counts of a degree histogram that matches
/// `count_with_degree` — as the one `compute_degree_distribution` returns
/// does — total exactly the node count `n`. Every degree lies below
/// `es.len() + 1`, so that bound covers the whole histogram.
pub proof fn lemma_distribution_coverage(m: Map<usize, usize>, es: Seq<(nat, nat)>, n: nat)
    requires
        es.len() < usize::MAX,
        forall|d: usize| #[trigger] m.contains_key(d) <==> count_with_degree(es, n, d as nat) > 0,
        forall|d: usize| #[trigger] m.contains_key(d) ==> m[d] == count_with_degree(es, n, d as nat),
    ensures
        dist_total(m, es.len() + 1) == n,
{
    assert forall|v: nat| v < n implies #[trigger] degree_of(es, v) < es.len() + 1 by {
        lemma_degree_le_edges(es, v);
    }
    lemma_sum_counts(es, n, es.len() + 1);
    lemma_dist_total(m, es, n, es.len() + 1);
}


/// Whether some intermediate node joins `v` to `w` by two hops.
pub open spec fn has_two_hop(es: Seq<(nat, nat)>, v: nat, w: nat) -> bool {
    exists|u: nat| edge_between(es, v, u) && edge_between(es, u, w)
}

/// Whether `w` belongs to `v`'s distance-2 set: reachable through one
/// intermediate node, and not `v` itself. A direct neighbor that is also
/// reachable through an intermediate belongs to the set; only `v` itself is
/// excluded.
pub open spec fn d2_member(es: Seq<(nat, nat)>, v: nat, w: nat) -> bool {
    w != v && has_two_hop(es, v, w)
}

/// How many of the nodes below `upto` belong to `v`'s distance-2 set.
pub open spec fn d2_count(es: Seq<(nat, nat)>, v: nat, upto: nat) -> nat
    decreases upto,
{
    if upto == 0 {
        0
    } else {
        d2_count(es, v, (upto - 1) as nat) + if d2_member(es, v, (upto - 1) as nat) {
            1nat
        } else {
            0nat
        }
    }
}

/// Distance-2 exclusion: a node never belongs to its own distance-2 set.
pub proof fn lemma_distance2_excludes_self(es: Seq<(nat, nat)>, v: nat)
    ensures
        !d2_member(es, v, v),
{
}

/// How many of the entries below `upto` are set.
spec fn count_true(s: Seq<bool>, upto: nat) -> nat
    decreases upto,
{
    if upto == 0 {
        0
    } else {
        count_true(s, (upto - 1) as nat) + if s[upto - 1] {
            1nat
        } else {
            0nat
        }
    }
}

proof fn lemma_count_true_zero(s: Seq<bool>, upto: nat)
    requires
        forall|k: int| 0 <= k < upto ==> !s[k],
    ensures
        count_true(s, upto) == 0,
    decreases upto,
{
    if upto > 0 {
        lemma_count_true_zero(s, (upto - 1) as nat);
    }
}

proof fn lemma_count_true_le(s: Seq<bool>, upto: nat)
    ensures
        count_true(s, upto) <= upto,
    decreases upto,
{
    if upto > 0 {
        lemma_count_true_le(s, (upto - 1) as nat);
    }
}

proof fn lemma_count_true_update(s: Seq<bool>, w: int, upto: nat)
    requires
        0 <= w < s.len(),
        upto <= s.len(),
    ensures
        count_true(s.update(w, true), upto) == count_true(s, upto) + if w < upto && !s[w] {
            1nat
        } else {
            0nat
        },
    decreases upto,
{
    if upto > 0 {
        lemma_count_true_update(s, w, (upto - 1) as nat);
    }
}

proof fn lemma_count_true_matches(s: Seq<bool>, es: Seq<(nat, nat)>, v: nat, upto: nat)
    requires
        upto <= s.len(),
        forall|w: int| 0 <= w < upto ==> (#[trigger] s[w] <==> d2_member(es, v, w as nat)),
    ensures
        count_true(s, upto) == d2_count(es, v, upto),
    decreases upto,
{
    if upto > 0 {
        lemma_count_true_matches(s, es, v, (upto - 1) as nat);
    }
}

/// Whether one of the listed intermediates joins to `w`.
spec fn hop_via(es: Seq<(nat, nat)>, mids: Seq<usize>, w: nat) -> bool {
    exists|k: int| 0 <= k < mids.len() && edge_between(es, (#[trigger] mids[k]) as nat, w)
}

/// How many distinct nodes each node reaches through exactly one
/// intermediate node, the node itself excluded, direct neighbors included
/// when an intermediate reaches them. Keyed by node index.
pub fn compute_distance_2_neighbors(graph: &Graph<(), (), Undirected, u32>) -> (res: HashMap<
    usize,
    usize,
>)
    requires
        simple_edges(edges_of(*graph), nodes_of(*graph)),
    ensures
        forall|v: usize| #[trigger] res@.contains_key(v) <==> (v as nat) < nodes_of(*graph),
        forall|v: usize|
            (v as nat) < nodes_of(*graph) ==> #[trigger] res@[v] == d2_count(
                edges_of(*graph),
                v as nat,
                nodes_of(*graph),
            ),
{
    broadcast use vstd::std_specs::hash::group_hash_axioms;

    let ghost es = edges_of(*graph);
    let n = node_count(graph);
    let mut res: HashMap<usize, usize> = HashMap::new();
    let mut v: usize = 0;
    while v < n
        invariant
            n == nodes_of(*graph),
            n <= 0xffff_ffff,
            v <= n,
            es == edges_of(*graph),
            simple_edges(es, nodes_of(*graph)),
            forall|k: usize| #[trigger] res@.contains_key(k) <==> (k as nat) < v,
            forall|k: usize|
                (k as nat) < v ==> #[trigger] res@[k] == d2_count(es, k as nat, n as nat),
        decreases n - v,
    {
        broadcast use vstd::std_specs::hash::group_hash_axioms;

        let ns = neighbors(graph, node_handle(v));
        let mut seen: Vec<bool> = Vec::new();
        let mut t: usize = 0;
        while t < n
            invariant
                t <= n,
                seen@.len() == t,
                forall|k: int| 0 <= k < t ==> !seen@[k],
            decreases n - t,
        {
            seen.push(false);
            t += 1;
        }
        let mut cnt: usize = 0;
        proof {
            lemma_count_true_zero(seen@, n as nat);
        }
        let mut a: usize = 0;
        while a < ns.len()
            invariant
                n == nodes_of(*graph),
                n <= 0xffff_ffff,
                v < n,
                es == edges_of(*graph),
                simple_edges(es, nodes_of(*graph)),
                a <= ns.len(),
                seen@.len() == n,
                ns@.no_duplicates(),
                forall|w: usize| #[trigger]
                    ns@.contains(w) <==> edge_between(es, v as nat, w as nat),
                forall|k: int| 0 <= k < ns@.len() ==> (((#[trigger] ns@[k]) as nat) < n),
                forall|w: int|
                    0 <= w < n ==> (#[trigger] seen@[w] <==> (w != v && hop_via(
                        es,
                        ns@.take(a as int),
                        w as nat,
                    ))),
                cnt == count_true(seen@, n as nat),
            decreases ns.len() - a,
        {
            let u = ns[a];
            let ms = neighbors(graph, node_handle(u));
            let ghost taken = ns@.take(a as int);
            let mut b: usize = 0;
            while b < ms.len()
                invariant
                    n == nodes_of(*graph),
                    n <= 0xffff_ffff,
                    v < n,
                    (u as nat) < n,
                    es == edges_of(*graph),
                    simple_edges(es, nodes_of(*graph)),
                    b <= ms.len(),
                    seen@.len() == n,
                    taken == ns@.take(a as int),
                    forall|w: usize| #[trigger]
                        ms@.contains(w) <==> edge_between(es, u as nat, w as nat),
                    forall|k: int| 0 <= k < ms@.len() ==> (((#[trigger] ms@[k]) as nat) < n),
                    forall|w: int|
                        0 <= w < n ==> (#[trigger] seen@[w] <==> (w != v && (hop_via(
                            es,
                            taken,
                            w as nat,
                        ) || ms@.take(b as int).contains(w as usize)))),
                    cnt == count_true(seen@, n as nat),
                decreases ms.len() - b,
            {
                let w = ms[b];
                assert(ms@.contains(w));
                if w != v && !seen[w] {
                    proof {
                        lemma_count_true_update(seen@, w as int, n as nat);
                        lemma_count_true_le(seen@.update(w as int, true), n as nat);
                    }
                    seen.set(w, true);
                    cnt += 1;
                }
                b += 1;
                proof {
                    let tb = ms@.take(b as int);
                    assert forall|x: usize| #[trigger] tb.contains(x) implies ms@.take(b - 1).contains(
                        x,
                    ) || x == ms@[b - 1] by {
                        let k = choose|k: int| 0 <= k < tb.len() && tb[k] == x;
                        if k < b - 1 {
                            assert(ms@.take(b - 1)[k] == x);
                        }
                    }
                    assert forall|x: usize| ms@.take(b - 1).contains(x) implies #[trigger] tb.contains(
                        x,
                    ) by {
                        let tp = ms@.take(b - 1);
                        let k = choose|k: int| 0 <= k < tp.len() && tp[k] == x;
                        assert(tb[k] == x);
                    }
                    assert(tb[b - 1] == ms@[b - 1]);
                    assert(tb.contains(ms@[b - 1]));
                }
            }
            a += 1;
            proof {
                assert(ms@.take(b as int) =~= ms@);
                let ta = ns@.take(a as int);
                assert(ta[a - 1] == ns@[a - 1]);
                assert(ta.contains(ns@[a - 1]));
                assert forall|w: int|
                    0 <= w < n implies (#[trigger] seen@[w] <==> (w != v && hop_via(
                        es,
                        ta,
                        w as nat,
                    ))) by {
                    assert(seen@[w] <==> (w != v && (hop_via(es, taken, w as nat) || ms@.contains(
                        w as usize,
                    ))));
                    assert(ms@.contains(w as usize) <==> edge_between(es, u as nat, w as nat));
                    if hop_via(es, ta, w as nat) {
                        let k = choose|k: int|
                            0 <= k < ta.len() && edge_between(es, (ta[k]) as nat, w as nat);
                        if k < a - 1 {
                            assert(taken[k] == ta[k]);
                            assert(hop_via(es, taken, w as nat));
                        } else {
                            assert(ta[k] == ns@[a - 1]);
                        }
                    }
                    if hop_via(es, taken, w as nat) {
                        let k = choose|k: int|
                            0 <= k < taken.len() && edge_between(es, (taken[k]) as nat, w as nat);
                        assert(ta[k] == taken[k]);
                        assert(hop_via(es, ta, w as nat));
                    }
                    if edge_between(es, u as nat, w as nat) {
                        assert(ta[a - 1] == u);
                        assert(hop_via(es, ta, w as nat));
                    }
                }
            }
        }
        // the neighbor list is exhausted: what was marked is the distance-2 set
        proof {
            assert forall|w: int|
                0 <= w < n implies (#[trigger] seen@[w] <==> d2_member(es, v as nat, w as nat)) by {
                assert(ns@.take(ns@.len() as int) =~= ns@);
                assert(seen@[w] <==> (w != v && hop_via(es, ns@, w as nat)));
                if hop_via(es, ns@, w as nat) {
                    let k = choose|k: int|
                        0 <= k < ns@.len() && edge_between(es, (ns@[k]) as nat, w as nat);
                    assert(ns@.contains(ns@[k]));
                    assert(edge_between(es, v as nat, (ns@[k]) as nat));
                    assert(has_two_hop(es, v as nat, w as nat));
                }
                if d2_member(es, v as nat, w as nat) {
                    let u0 = choose|u0: nat|
                        edge_between(es, v as nat, u0) && edge_between(es, u0, w as nat);
                    // an intermediate named by an edge is a node index
                    assert((u0 as usize) as nat == u0 && u0 < n) by {
                        if es.contains((v as nat, u0)) {
                            let k = choose|k: int| 0 <= k < es.len() && es[k] == (v as nat, u0);
                            assert(es[k].1 < nodes_of(*graph));
                        } else {
                            let k = choose|k: int| 0 <= k < es.len() && es[k] == (u0, v as nat);
                            assert(es[k].0 < nodes_of(*graph));
                        }
                    }
                    assert(ns@.contains(u0 as usize));
                    let k = choose|k: int| 0 <= k < ns@.len() && ns@[k] == u0 as usize;
                    assert(edge_between(es, (ns@[k]) as nat, w as nat));
                    assert(hop_via(es, ns@, w as nat));
                }
            }
            lemma_count_true_matches(seen@, es, v as nat, n as nat);
        }
        res.insert(v, cnt);
        v += 1;
    }
    res
}


/// Per-degree running totals of the two behavioral scores, and how many
/// records contributed. The means are the totals over the count; keeping the
/// exact integer totals leaves the division to the consumer.
#[derive(Clone, Copy, Debug, PartialEq, Eq, Structural)]
pub struct BehaviorTotals {
    pub smoking_sum: i128,
    pub drug_sum: i128,
    pub count: usize,
}

/// The smoking-prevalence scores of a record sequence, as integers.
pub open spec fn smoking_values(recs: Seq<Person>) -> Seq<int> {
    Seq::new(recs.len(), |k: int| recs[k].smoking_prevalence as int)
}

/// The drug-experimentation scores of a record sequence, as integers.
pub open spec fn drug_values(recs: Seq<Person>) -> Seq<int> {
    Seq::new(recs.len(), |k: int| recs[k].drug_experimentation as int)
}

/// The values of the nodes below `upto` whose degree is `d`, totalled.
pub open spec fn sum_by_degree(es: Seq<(nat, nat)>, vals: Seq<int>, upto: nat, d: nat) -> int
    decreases upto,
{
    if upto == 0 {
        0
    } else {
        sum_by_degree(es, vals, (upto - 1) as nat, d) + if degree_of(es, (upto - 1) as nat) == d {
            vals[upto - 1]
        } else {
            0int
        }
    }
}

proof fn lemma_sum_by_degree_bound(
    es: Seq<(nat, nat)>,
    vals: Seq<int>,
    upto: nat,
    d: nat,
    bound: int,
)
    requires
        upto <= vals.len(),
        bound >= 0,
        forall|k: int| 0 <= k < vals.len() ==> -bound <= #[trigger] vals[k] <= bound,
    ensures
        -(upto * bound) <= sum_by_degree(es, vals, upto, d) <= upto * bound,
    decreases upto,
{
    if upto > 0 {
        lemma_sum_by_degree_bound(es, vals, (upto - 1) as nat, d, bound);
        assert(upto * bound == (upto - 1) * bound + bound) by (nonlinear_arith);
    }
}

proof fn lemma_sum_zero_when_count_zero(es: Seq<(nat, nat)>, vals: Seq<int>, upto: nat, d: nat)
    requires
        count_with_degree(es, upto, d) == 0,
    ensures
        sum_by_degree(es, vals, upto, d) == 0,
    decreases upto,
{
    if upto > 0 {
        lemma_sum_zero_when_count_zero(es, vals, (upto - 1) as nat, d);
    }
}

proof fn lemma_step_unfold(es: Seq<(nat, nat)>, svals: Seq<int>, dvals: Seq<int>, v: nat, d: nat)
    ensures
        count_with_degree(es, v + 1, d) == count_with_degree(es, v, d) + if degree_of(es, v) == d {
            1nat
        } else {
            0nat
        },
        sum_by_degree(es, svals, v + 1, d) == sum_by_degree(es, svals, v, d) + if degree_of(es, v)
            == d {
            svals[v as int]
        } else {
            0int
        },
        sum_by_degree(es, dvals, v + 1, d) == sum_by_degree(es, dvals, v, d) + if degree_of(es, v)
            == d {
            dvals[v as int]
        } else {
            0int
        },
{
}

/// For every degree that occurs, the totals of the two behavioral scores
/// over the records whose node has that degree, and how many there are. The
/// record at each index is joined to its node through the index map, so a
/// bucket's mean is its total over its count. A degree nobody has gets no
/// entry.
pub fn analyze_behavior_by_degree(
    graph: &Graph<(), (), Undirected, u32>,
    data: &[Person],
    node_map: &HashMap<usize, NodeIndex<u32>>,
) -> (res: HashMap<usize, BehaviorTotals>)
    requires
        simple_edges(edges_of(*graph), nodes_of(*graph)),
        nodes_of(*graph) == data@.len(),
        forall|i: usize| (i as nat) < data@.len() ==> #[trigger] node_map@.contains_key(i),
        forall|i: usize|
            (i as nat) < data@.len() ==> index_of(#[trigger] node_map@[i]) == i,
    ensures
        forall|d: usize| #[trigger]
            res@.contains_key(d) <==> count_with_degree(
                edges_of(*graph),
                nodes_of(*graph),
                d as nat,
            ) > 0,
        forall|d: usize| #[trigger]
            res@.contains_key(d) ==> res@[d].count == count_with_degree(
                edges_of(*graph),
                nodes_of(*graph),
                d as nat,
            ) && res@[d].smoking_sum == sum_by_degree(
                edges_of(*graph),
                smoking_values(data@),
                nodes_of(*graph),
                d as nat,
            ) && res@[d].drug_sum == sum_by_degree(
                edges_of(*graph),
                drug_values(data@),
                nodes_of(*graph),
                d as nat,
            ),
{
    broadcast use vstd::std_specs::hash::group_hash_axioms;

    let ghost es = edges_of(*graph);
    let ghost svals = smoking_values(data@);
    let ghost dvals = drug_values(data@);
    let n = node_count(graph);
    let mut res: HashMap<usize, BehaviorTotals> = HashMap::new();
    let mut v: usize = 0;
    while v < n
        invariant
            n == nodes_of(*graph),
            n <= 0xffff_ffff,
            n == data@.len(),
            v <= n,
            es == edges_of(*graph),
            svals == smoking_values(data@),
            dvals == drug_values(data@),
            simple_edges(es, nodes_of(*graph)),
            forall|i: usize|
                (i as nat) < data@.len() ==> #[trigger] node_map@.contains_key(i),
            forall|i: usize|
                (i as nat) < data@.len() ==> index_of(#[trigger] node_map@[i]) == i,
            forall|d: usize| #[trigger]
                res@.contains_key(d) <==> count_with_degree(es, v as nat, d as nat) > 0,
            forall|d: usize| #[trigger]
                res@.contains_key(d) ==> res@[d].count == count_with_degree(es, v as nat, d as nat)
                    && res@[d].smoking_sum == sum_by_degree(es, svals, v as nat, d as nat)
                    && res@[d].drug_sum == sum_by_degree(es, dvals, v as nat, d as nat),
        decreases n - v,
    {
        broadcast use vstd::std_specs::hash::group_hash_axioms;

        let h = *node_map.get(&v).unwrap();
        let d = degree(graph, h);
        let smoking = data[v].smoking_prevalence as i128;
        let drug = data[v].drug_experimentation as i128;
        proof {
            lemma_count_le(es, v as nat, d as nat);
            lemma_sum_by_degree_bound(es, svals, v as nat, d as nat, 0x8000_0000_0000_0000);
            lemma_sum_by_degree_bound(es, dvals, v as nat, d as nat, 0x8000_0000_0000_0000);
            assert((v as int) * 0x8000_0000_0000_0000 <= 0xffff_ffff * 0x8000_0000_0000_0000)
                by (nonlinear_arith)
                requires
                    0 <= (v as int) <= 0xffff_ffff,
            ;
        }
        let ghost res0 = res@;
        let entry = match res.get(&d) {
            Some(b) => BehaviorTotals {
                smoking_sum: b.smoking_sum + smoking,
                drug_sum: b.drug_sum + drug,
                count: b.count + 1,
            },
            None => BehaviorTotals { smoking_sum: smoking, drug_sum: drug, count: 1 },
        };
        proof {
            if !res0.contains_key(d) {
                assert(count_with_degree(es, v as nat, d as nat) == 0);
                lemma_sum_zero_when_count_zero(es, svals, v as nat, d as nat);
                lemma_sum_zero_when_count_zero(es, dvals, v as nat, d as nat);
            }
            assert(entry.count == count_with_degree(es, v as nat, d as nat) + 1);
            assert(entry.smoking_sum == sum_by_degree(es, svals, v as nat, d as nat) + smoking);
            assert(entry.drug_sum == sum_by_degree(es, dvals, v as nat, d as nat) + drug);
        }
        res.insert(d, entry);
        v += 1;
        proof {
            assert(res@ == res0.insert(d, entry));
            assert(svals[(v - 1) as int] == data@[(v - 1) as int].smoking_prevalence as int);
            assert(dvals[(v - 1) as int] == data@[(v - 1) as int].drug_experimentation as int);
            assert(degree_of(es, (v - 1) as nat) == d as nat);
        }
        assert forall|dd: usize| #[trigger]
            res@.contains_key(dd) <==> count_with_degree(es, v as nat, dd as nat) > 0 by {
            lemma_step_unfold(es, svals, dvals, (v - 1) as nat, dd as nat);
            assert(res@.contains_key(dd) <==> dd == d || res0.contains_key(dd));
        }
        assert forall|dd: usize| #[trigger]
            res@.contains_key(dd) implies res@[dd].count == count_with_degree(
            es,
            v as nat,
            dd as nat,
        ) && res@[dd].smoking_sum == sum_by_degree(es, svals, v as nat, dd as nat)
            && res@[dd].drug_sum == sum_by_degree(es, dvals, v as nat, dd as nat) by {
            lemma_step_unfold(es, svals, dvals, (v - 1) as nat, dd as nat);
            if dd == d {
                assert(res@[dd] == entry);
            } else {
                assert(res@[dd] == res0[dd]);
                assert(res0.contains_key(dd));
                assert(degree_of(es, (v - 1) as nat) != dd as nat);
            }
        }
    }
    res
}

/// Behavior mean bounds: when every record in a degree bucket has its score
/// within [lo, hi], the bucket's total lies within [count times lo, count
/// times hi] — so the bucket's mean, the total over the member count, lies
/// within [lo, hi]. Taking lo and hi as the bucket's actual extremes, every
/// reported mean lies between the least and greatest contributing score.
pub proof fn lemma_behavior_mean_bounds(
    es: Seq<(nat, nat)>,
    vals: Seq<int>,
    n: nat,
    d: nat,
    lo: int,
    hi: int,
)
    requires
        n <= vals.len(),
        forall|v: int|
            0 <= v < n && degree_of(es, v as nat) == d ==> lo <= #[trigger] vals[v] <= hi,
    ensures
        count_with_degree(es, n, d) * lo <= sum_by_degree(es, vals, n, d),
        sum_by_degree(es, vals, n, d) <= count_with_degree(es, n, d) * hi,
    decreases n,
{
    if n == 0 {
        assert(count_with_degree(es, n, d) * lo == 0 && count_with_degree(es, n, d) * hi == 0)
            by (nonlinear_arith)
            requires
                count_with_degree(es, n, d) == 0,
        ;
    } else {
        lemma_behavior_mean_bounds(es, vals, (n - 1) as nat, d, lo, hi);
        let c0 = count_with_degree(es, (n - 1) as nat, d);
        let s0 = sum_by_degree(es, vals, (n - 1) as nat, d);
        if degree_of(es, (n - 1) as nat) == d {
            assert(count_with_degree(es, n, d) == c0 + 1);
            assert(sum_by_degree(es, vals, n, d) == s0 + vals[n - 1]);
            assert(lo <= vals[n - 1] <= hi);
            assert(count_with_degree(es, n, d) * lo <= sum_by_degree(es, vals, n, d)
                && sum_by_degree(es, vals, n, d) <= count_with_degree(es, n, d) * hi)
                by (nonlinear_arith)
                requires
                    count_with_degree(es, n, d) == c0 + 1,
                    sum_by_degree(es, vals, n, d) == s0 + vals[n - 1],
                    c0 * lo <= s0 <= c0 * hi,
                    lo <= vals[n - 1] <= hi,
            ;
        } else {
            assert(count_with_degree(es, n, d) == c0);
            assert(sum_by_degree(es, vals, n, d) == s0);
        }
    }
}

/// Determinism: two graphs built from the same record sequence carry the
/// same node count and edge sequence, so every derived statistic — each
/// degree-histogram entry, each distance-2 count, each behavioral total —
/// coincides between them.
pub proof fn lemma_determinism(
    g1: Graph<(), (), Undirected, u32>,
    g2: Graph<(), (), Undirected, u32>,
    recs: Seq<Person>,
)
    requires
        nodes_of(g1) == recs.len(),
        edges_of(g1) == edge_seq_spec(recs),
        nodes_of(g2) == recs.len(),
        edges_of(g2) == edge_seq_spec(recs),
    ensures
        forall|d: nat|
            count_with_degree(edges_of(g1), nodes_of(g1), d) == count_with_degree(
                edges_of(g2),
                nodes_of(g2),
                d,
            ),
        forall|v: nat|
            d2_count(edges_of(g1), v, nodes_of(g1)) == d2_count(edges_of(g2), v, nodes_of(g2)),
        forall|d: nat|
            sum_by_degree(edges_of(g1), smoking_values(recs), nodes_of(g1), d) == sum_by_degree(
                edges_of(g2),
                smoking_values(recs),
                nodes_of(g2),
                d,
            ),
        forall|d: nat|
            sum_by_degree(edges_of(g1), drug_values(recs), nodes_of(g1), d) == sum_by_degree(
                edges_of(g2),
                drug_values(recs),
                nodes_of(g2),
                d,
            ),
{
}


/// The whole pipeline once the records are loaded: build the similarity
/// graph, then compute the degree distribution, the distance-2 counts and
/// the behavioral totals over it. Every output is a pure function of the
/// record sequence alone.
pub fn run_pipeline(data: &[Person]) -> (r: (
    HashMap<usize, usize>,
    HashMap<usize, usize>,
    HashMap<usize, BehaviorTotals>,
))
    requires
        data@.len() <= 0xffff,
    ensures
        forall|d: usize| #[trigger]
            r.0@.contains_key(d) <==> count_with_degree(
                edge_seq_spec(data@),
                data@.len(),
                d as nat,
            ) > 0,
        forall|d: usize| #[trigger]
            r.0@.contains_key(d) ==> r.0@[d] == count_with_degree(
                edge_seq_spec(data@),
                data@.len(),
                d as nat,
            ),
        forall|v: usize| #[trigger] r.1@.contains_key(v) <==> (v as nat) < data@.len(),
        forall|v: usize|
            (v as nat) < data@.len() ==> #[trigger] r.1@[v] == d2_count(
                edge_seq_spec(data@),
                v as nat,
                data@.len(),
            ),
        forall|d: usize| #[trigger]
            r.2@.contains_key(d) <==> count_with_degree(
                edge_seq_spec(data@),
                data@.len(),
                d as nat,
            ) > 0,
        forall|d: usize| #[trigger]
            r.2@.contains_key(d) ==> r.2@[d].count == count_with_degree(
                edge_seq_spec(data@),
                data@.len(),
                d as nat,
            ) && r.2@[d].smoking_sum == sum_by_degree(
                edge_seq_spec(data@),
                smoking_values(data@),
                data@.len(),
                d as nat,
            ) && r.2@[d].drug_sum == sum_by_degree(
                edge_seq_spec(data@),
                drug_values(data@),
                data@.len(),
                d as nat,
            ),
{
    let (graph, node_map) = crate::graph::create_graph(data);
    proof {
        crate::graph::lemma_edge_seq_simple(data@);
    }
    let dist = compute_degree_distribution(&graph);
    let d2 = compute_distance_2_neighbors(&graph);
    let behavior = analyze_behavior_by_degree(&graph, data, &node_map);
    (dist, d2, behavior)
}


/// The histogram entries for all degrees below `dbound`, each weighted by
/// its degree, totalled.
pub open spec fn weighted_dist_total(m: Map<usize, usize>, dbound: nat) -> nat
    decreases dbound,
{
    if dbound == 0 {
        0
    } else {
        weighted_dist_total(m, (dbound - 1) as nat) + if m.contains_key((dbound - 1) as usize) {
            ((dbound - 1) as nat) * (m[(dbound - 1) as usize] as nat)
        } else {
            0nat
        }
    }
}

spec fn weighted_ind(es: Seq<(nat, nat)>, v: nat, dbound: nat) -> nat
    decreases dbound,
{
    if dbound == 0 {
        0
    } else {
        weighted_ind(es, v, (dbound - 1) as nat) + if degree_of(es, v) == (dbound - 1) as nat {
            (dbound - 1) as nat
        } else {
            0nat
        }
    }
}

proof fn lemma_weighted_ind(es: Seq<(nat, nat)>, v: nat, dbound: nat)
    ensures
        weighted_ind(es, v, dbound) == if degree_of(es, v) < dbound {
            degree_of(es, v)
        } else {
            0nat
        },
    decreases dbound,
{
    if dbound > 0 {
        lemma_weighted_ind(es, v, (dbound - 1) as nat);
    }
}

spec fn weighted_sum_counts(es: Seq<(nat, nat)>, n: nat, dbound: nat) -> nat
    decreases dbound,
{
    if dbound == 0 {
        0
    } else {
        weighted_sum_counts(es, n, (dbound - 1) as nat) + ((dbound - 1) as nat)
            * count_with_degree(es, n, (dbound - 1) as nat)
    }
}

proof fn lemma_weighted_sum_counts_zero(es: Seq<(nat, nat)>, n: nat, dbound: nat)
    requires
        n == 0,
    ensures
        weighted_sum_counts(es, n, dbound) == 0,
    decreases dbound,
{
    if dbound > 0 {
        lemma_weighted_sum_counts_zero(es, n, (dbound - 1) as nat);
        let dm = (dbound - 1) as nat;
        assert(count_with_degree(es, n, dm) == 0);
        assert(dm * count_with_degree(es, n, dm) == 0) by (nonlinear_arith)
            requires
                count_with_degree(es, n, dm) == 0,
        ;
    }
}

proof fn lemma_weighted_sum_counts_step(es: Seq<(nat, nat)>, n: nat, dbound: nat)
    requires
        n > 0,
    ensures
        weighted_sum_counts(es, n, dbound) == weighted_sum_counts(es, (n - 1) as nat, dbound)
            + weighted_ind(es, (n - 1) as nat, dbound),
    decreases dbound,
{
    if dbound > 0 {
        lemma_weighted_sum_counts_step(es, n, (dbound - 1) as nat);
        let dm = (dbound - 1) as nat;
        let c0 = count_with_degree(es, (n - 1) as nat, dm);
        if degree_of(es, (n - 1) as nat) == dm {
            assert(count_with_degree(es, n, dm) == c0 + 1);
            assert(dm * (c0 + 1) == dm * c0 + dm) by (nonlinear_arith);
        } else {
            assert(count_with_degree(es, n, dm) == c0);
        }
    }
}

proof fn lemma_weighted_sum_counts(es: Seq<(nat, nat)>, n: nat, dbound: nat)
    requires
        forall|v: nat| v < n ==> #[trigger] degree_of(es, v) < dbound,
    ensures
        weighted_sum_counts(es, n, dbound) == degree_sum(es, n),
    decreases n,
{
    if n == 0 {
        lemma_weighted_sum_counts_zero(es, n, dbound);
    } else {
        lemma_weighted_sum_counts(es, (n - 1) as nat, dbound);
        lemma_weighted_sum_counts_step(es, n, dbound);
        lemma_weighted_ind(es, (n - 1) as nat, dbound);
    }
}

proof fn lemma_weighted_dist_total(m: Map<usize, usize>, es: Seq<(nat, nat)>, n: nat, dbound: nat)
    requires
        dbound <= usize::MAX,
        forall|d: usize| #[trigger] m.contains_key(d) <==> count_with_degree(es, n, d as nat) > 0,
        forall|d: usize| #[trigger] m.contains_key(d) ==> m[d] == count_with_degree(es, n, d as nat),
    ensures
        weighted_dist_total(m, dbound) == weighted_sum_counts(es, n, dbound),
    decreases dbound,
{
    if dbound > 0 {
        lemma_weighted_dist_total(m, es, n, (dbound - 1) as nat);
        let d = (dbound - 1) as usize;
        let dm = (dbound - 1) as nat;
        assert(d as nat == dm);
        if m.contains_key(d) {
            assert(m[d] == count_with_degree(es, n, dm));
            assert(m[d] as nat == count_with_degree(es, n, dm));
        } else {
            assert(count_with_degree(es, n, dm) == 0);
            assert(dm * count_with_degree(es, n, dm) == 0) by (nonlinear_arith)
                requires
                    count_with_degree(es, n, dm) == 0,
            ;
        }
    }
}

/// Degree sum, read off the histogram: over a degree histogram that matches
/// `count_with_degree` — as the one `compute_degree_distribution` returns
/// does — weighting each entry by its degree totals exactly twice the number
/// of edges, since each edge contributes one to the degree of each of its
/// two distinct endpoints.
pub proof fn lemma_histogram_degree_sum(m: Map<usize, usize>, es: Seq<(nat, nat)>, n: nat)
    requires
        es.len() < usize::MAX,
        edges_within(es, n),
        forall|d: usize| #[trigger] m.contains_key(d) <==> count_with_degree(es, n, d as nat) > 0,
        forall|d: usize| #[trigger] m.contains_key(d) ==> m[d] == count_with_degree(es, n, d as nat),
    ensures
        weighted_dist_total(m, es.len() + 1) == 2 * es.len(),
{
    assert forall|v: nat| v < n implies #[trigger] degree_of(es, v) < es.len() + 1 by {
        lemma_degree_le_edges(es, v);
    }
    lemma_weighted_sum_counts(es, n, es.len() + 1);
    lemma_weighted_dist_total(m, es, n, es.len() + 1);
    lemma_degree_sum(es, n);
}

} // verus!
