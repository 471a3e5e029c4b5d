//! The part of the timetable graph made of some of its edges.

use vstd::prelude::*;
use std::collections::HashSet;
use crate::graph::{graph_edge_count, graph_edge_endpoints, graph_edges, graph_node_count, graph_nodes, GraphEdge, TimetableGraph};
use crate::graph_weight::{TimetableEdge, TimetableNode};

verus! {

broadcast use vstd::std_specs::hash::group_hash_axioms;

/// the number of flags set among the first `n` of `keep`
pub open spec fn kept_before(keep: Seq<bool>, n: int) -> int
    decreases n,
{
    if n <= 0 {
        0
    } else {
        kept_before(keep, n - 1) + if keep[n - 1] {
            1int
        } else {
            0int
        }
    }
}

/// the first `n` of `nodes` whose flag in `keep` is set, in their order
pub open spec fn kept_nodes(nodes: Seq<TimetableNode>, keep: Seq<bool>, n: int) -> Seq<TimetableNode>
    decreases n,
{
    if n <= 0 {
        Seq::empty()
    } else if keep[n - 1] {
        kept_nodes(nodes, keep, n - 1).push(nodes[n - 1])
    } else {
        kept_nodes(nodes, keep, n - 1)
    }
}

/// the first `m` of `edges` whose flag in `keep_edge` is set and whose ends are both
/// kept by `keep_node`, in their order, each joining the positions its ends take
/// among the kept nodes
pub open spec fn kept_edges(edges: Seq<GraphEdge>, keep_node: Seq<bool>, keep_edge: Seq<bool>, m: int) -> Seq<GraphEdge>
    decreases m,
{
    if m <= 0 {
        Seq::empty()
    } else {
        let (s, t, w) = edges[m - 1];
        let rest = kept_edges(edges, keep_node, keep_edge, m - 1);
        if keep_edge[m - 1] && keep_node[s as int] && keep_node[t as int] {
            rest.push((kept_before(keep_node, s as int) as usize, kept_before(keep_node, t as int) as usize, w))
        } else {
            rest
        }
    }
}

/// node `n` is an end of one of the edges of `edges` at the positions in `listed`
pub open spec fn touched(edges: Seq<GraphEdge>, listed: Set<usize>, n: int) -> bool {
    exists|e: int| 0 <= e < edges.len() && listed.contains(e as usize) && (edges[e].0 == n || edges[e].1 == n)
}

/// for each of `n` nodes, whether an edge of `edges` at a position in `listed` touches it
pub open spec fn touched_flags(edges: Seq<GraphEdge>, listed: Set<usize>, n: int) -> Seq<bool> {
    Seq::new(n as nat, |i: int| touched(edges, listed, i))
}

/// for each of `m` edge positions, whether it is in `listed`
pub open spec fn listed_flags(listed: Set<usize>, m: int) -> Seq<bool> {
    Seq::new(m as nat, |e: int| listed.contains(e as usize))
}

/// The node weight handed to `Graph::filter_map`: a copy of `weight` when the flag
/// of node `i` is set, none otherwise.
fn kept_node_weight(keep: &Vec<bool>, i: usize, weight: &TimetableNode) -> (kept: Option<TimetableNode>)
    ensures
        kept == if i < keep@.len() && keep@[i as int] {
            Some(*weight)
        } else {
            None::<TimetableNode>
        },
{
    if i < keep.len() && keep[i] {
        Some(weight.duplicate())
    } else {
        None
    }
}

/// The edge weight handed to `Graph::filter_map`: `weight` when the flag of edge `i`
/// is set, none otherwise.
fn kept_edge_weight(keep: &Vec<bool>, i: usize, weight: &TimetableEdge) -> (kept: Option<TimetableEdge>)
    ensures
        kept == if i < keep@.len() && keep@[i as int] {
            Some(*weight)
        } else {
            None::<TimetableEdge>
        },
{
    if i < keep.len() && keep[i] {
        Some(*weight)
    } else {
        None
    }
}

/// `Graph::filter_map`, with the nodes and edges kept by their flags: the new graph
/// has the nodes whose flag in `keep_node` is set, in their order, and the edges
/// whose flag in `keep_edge` is set and whose ends are both kept, in their order,
/// each between the new positions of its ends.
#[verifier::external_body]
fn graph_filter(graph: &TimetableGraph, keep_node: &Vec<bool>, keep_edge: &Vec<bool>) -> (sub: TimetableGraph)
    requires
        keep_node@.len() == graph_nodes(*graph).len(),
        keep_edge@.len() == graph_edges(*graph).len(),
    ensures
        graph_nodes(sub) == kept_nodes(graph_nodes(*graph), keep_node@, graph_nodes(*graph).len() as int),
        graph_edges(sub) == kept_edges(graph_edges(*graph), keep_node@, keep_edge@, graph_edges(*graph).len() as int),
{
    graph.filter_map(
        |n, w| kept_node_weight(keep_node, n.index(), w),
        |e, w| kept_edge_weight(keep_edge, e.index(), w),
    )
}

/// The graph made of the edges at the positions in `edges` (positions beyond the
/// graph's edges are passed by) and of the nodes they join: the nodes in their order,
/// the edges in their order, each between the new positions of its ends (both ends
/// of a listed edge are touched, so every listed edge is kept).
pub fn subgraph_from_edges(graph: &TimetableGraph, edges: &HashSet<usize>) -> (sub: TimetableGraph)
    requires
        forall|i: int|
            0 <= i < graph_edges(*graph).len() ==> {
                let (s, t, _) = #[trigger] graph_edges(*graph)[i];
                &&& s < graph_nodes(*graph).len()
                &&& t < graph_nodes(*graph).len()
            },
    ensures
        graph_nodes(sub) == kept_nodes(
            graph_nodes(*graph),
            touched_flags(graph_edges(*graph), edges@, graph_nodes(*graph).len() as int),
            graph_nodes(*graph).len() as int,
        ),
        graph_edges(sub) == kept_edges(
            graph_edges(*graph),
            touched_flags(graph_edges(*graph), edges@, graph_nodes(*graph).len() as int),
            listed_flags(edges@, graph_edges(*graph).len() as int),
            graph_edges(*graph).len() as int,
        ),
{
    let ghost ge = graph_edges(*graph);
    let ghost gn = graph_nodes(*graph);
    let ghost listed = edges@;
    let n = graph_node_count(graph);
    let m = graph_edge_count(graph);
    // which nodes an edge of the set touches
    let mut is_touched: Vec<bool> = Vec::new();
    let mut x: usize = 0;
    while x < n
        invariant
            x <= n,
            is_touched@.len() == x,
            forall|y: int| 0 <= y < x ==> !is_touched@[y],
        decreases n - x,
    {
        is_touched.push(false);
        x = x + 1;
    }
    let mut is_listed: Vec<bool> = Vec::new();
    let mut e: usize = 0;
    while e < m
        invariant
            e <= m,
            n == gn.len(),
            m == ge.len(),
            ge == graph_edges(*graph),
            gn == graph_nodes(*graph),
            listed == edges@,
            is_touched@.len() == n,
            is_listed@.len() == e,
            forall|i: int| 0 <= i < e ==> #[trigger] is_listed@[i] == listed.contains(i as usize),
            forall|i: int|
                0 <= i < ge.len() ==> {
                    let (s, t, _) = #[trigger] ge[i];
                    &&& s < gn.len()
                    &&& t < gn.len()
                },
            forall|y: int|
                0 <= y < n ==> (#[trigger] is_touched@[y] <==> exists|i: int|
                    0 <= i < e && listed.contains(i as usize) && (ge[i].0 == y || ge[i].1 == y)),
        decreases m - e,
    {
        let contained = edges.contains(&e);
        if contained {
            let (s, t) = graph_edge_endpoints(graph, e);
            proof {
                assert(ge[e as int].0 < gn.len());
            }
            is_touched.set(s, true);
            is_touched.set(t, true);
        }
        is_listed.push(contained);
        proof {
            assert forall|y: int| 0 <= y < n implies (#[trigger] is_touched@[y] <==> exists|i: int|
                0 <= i < e + 1 && listed.contains(i as usize) && (ge[i].0 == y || ge[i].1 == y)) by {
                if exists|i: int| 0 <= i < e + 1 && listed.contains(i as usize) && (ge[i].0 == y || ge[i].1 == y) {
                    let i = choose|i: int| 0 <= i < e + 1 && listed.contains(i as usize) && (ge[i].0 == y || ge[i].1 == y);
                    if i < e {
                        assert(exists|i: int| 0 <= i < e && listed.contains(i as usize) && (ge[i].0 == y || ge[i].1 == y));
                    }
                }
            }
        }
        e = e + 1;
    }
    proof {
        assert(is_touched@ =~= touched_flags(ge, listed, n as int));
        assert(is_listed@ =~= listed_flags(listed, m as int));
    }
    graph_filter(graph, &is_touched, &is_listed)
}

} // verus!
