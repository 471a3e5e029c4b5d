//! The time-expanded timetable graph: a `petgraph` directed graph, reached only
//! through the small set of trusted items below.
//!
//! Nodes and edges are addressed by their position. The graph uses `usize`
//! indices, so `NodeIndex::index` and `EdgeIndex::index` are those positions and
//! adding a node or an edge has no index limit to reach.

use vstd::prelude::*;
use petgraph::dot::Dot;
use petgraph::graph::{DiGraph, EdgeIndex, NodeIndex};
use petgraph::visit::EdgeRef;
use petgraph::Direction;
use crate::graph_weight::{TimetableEdge, TimetableNode};

verus! {

#[verifier::external_type_specification]
#[verifier::external_body]
#[verifier::reject_recursive_types(N)]
#[verifier::reject_recursive_types(E)]
#[verifier::reject_recursive_types(Ty)]
#[verifier::reject_recursive_types(Ix)]
pub struct ExGraph<N, E, Ty, Ix>(petgraph::graph::Graph<N, E, Ty, Ix>);

#[verifier::external_type_specification]
#[verifier::external_body]
pub struct ExDirected(petgraph::Directed);

/// the timetable graph
pub type TimetableGraph = DiGraph<TimetableNode, TimetableEdge, usize>;

/// an edge of the graph as (source node, target node, weight)
pub type GraphEdge = (usize, usize, TimetableEdge);

/// node weights of the graph, by node index
pub uninterp spec fn graph_nodes(graph: TimetableGraph) -> Seq<TimetableNode>;

/// edges of the graph, by edge index
pub uninterp spec fn graph_edges(graph: TimetableGraph) -> Seq<GraphEdge>;

/// every edge joins nodes of the graph (as in every graph that petgraph builds)
pub open spec fn edges_join_nodes(graph: TimetableGraph) -> bool {
    forall|i: int|
        0 <= i < graph_edges(graph).len() ==> (#[trigger] graph_edges(graph)[i]).0 < graph_nodes(graph).len()
            && graph_edges(graph)[i].1 < graph_nodes(graph).len()
}

/// the outgoing edges of `node` among `edges`, as (edge index, target), most recently added first
pub open spec fn outgoing_of(edges: Seq<GraphEdge>, node: usize) -> Seq<(usize, usize)>
    decreases edges.len(),
{
    if edges.len() == 0 {
        Seq::empty()
    } else {
        let last = edges.last();
        let rest = outgoing_of(edges.drop_last(), node);
        if last.0 == node {
            seq![((edges.len() - 1) as usize, last.1)] + rest
        } else {
            rest
        }
    }
}

/// Every entry of `outgoing_of(edges, node)` is an edge leaving `node`, with its target.
pub proof fn lemma_outgoing_of(edges: Seq<GraphEdge>, node: usize)
    requires
        edges.len() <= usize::MAX,
    ensures
        forall|k: int|
            0 <= k < outgoing_of(edges, node).len() ==> {
                let (e, t) = #[trigger] outgoing_of(edges, node)[k];
                &&& e < edges.len()
                &&& edges[e as int].0 == node
                &&& edges[e as int].1 == t
            },
    decreases edges.len(),
{
    if edges.len() > 0 {
        lemma_outgoing_of(edges.drop_last(), node);
        let rest = outgoing_of(edges.drop_last(), node);
        let last = edges.last();
        let out = outgoing_of(edges, node);
        assert forall|k: int| 0 <= k < out.len() implies {
            let (e, t) = #[trigger] out[k];
            &&& e < edges.len()
            &&& edges[e as int].0 == node
            &&& edges[e as int].1 == t
        } by {
            if last.0 == node {
                if k > 0 {
                    assert(out[k] == rest[k - 1]);
                    let (e, t) = rest[k - 1];
                    assert(edges.drop_last()[e as int] == edges[e as int]);
                } else {
                    assert(out[0] == ((edges.len() - 1) as usize, last.1));
                }
            } else {
                assert(out[k] == rest[k]);
                let (e, t) = rest[k];
                assert(edges.drop_last()[e as int] == edges[e as int]);
            }
        }
    }
}

/// the first edge among `out` (pairs of edge index and target) that leads to `target`
pub open spec fn first_edge_to(out: Seq<(usize, usize)>, target: usize) -> Option<usize>
    decreases out.len(),
{
    if out.len() == 0 {
        None
    } else if out[0].1 == target {
        Some(out[0].0)
    } else {
        first_edge_to(out.drop_first(), target)
    }
}

/// An edge found by `first_edge_to` is one of the pairs, with the wanted target.
pub proof fn lemma_first_edge_to(out: Seq<(usize, usize)>, target: usize)
    ensures
        first_edge_to(out, target) matches Some(e) ==> exists|k: int|
            0 <= k < out.len() && (#[trigger] out[k]).0 == e && out[k].1 == target,
    decreases out.len(),
{
    if out.len() > 0 && out[0].1 != target {
        lemma_first_edge_to(out.drop_first(), target);
        if let Some(e) = first_edge_to(out, target) {
            let k = choose|k: int| 0 <= k < out.drop_first().len() && (#[trigger] out.drop_first()[k]).0 == e && out.drop_first()[k].1 == target;
            assert(out[k + 1] == out.drop_first()[k]);
        }
    }
}

/// the GraphViz DOT code that petgraph writes for the graph with the nodes `nodes`
/// and the edges `edges`
pub uninterp spec fn dot_text(nodes: Seq<TimetableNode>, edges: Seq<GraphEdge>) -> Seq<char>;

/// `petgraph::dot::Dot` (with no configuration) formatted as text: the DOT code of
/// the graph, which depends on its nodes and edges alone (named `dot_text`).
#[verifier::external_body]
fn graph_dot_text(graph: &TimetableGraph) -> (text: String)
    ensures
        text@ == dot_text(graph_nodes(*graph), graph_edges(*graph)),
{
    format!("{:?}", Dot::with_config(graph, &[]))
}

/// The graph as GraphViz DOT code.
pub fn dot_code(graph: &TimetableGraph) -> (text: String)
    ensures
        text@ == dot_text(graph_nodes(*graph), graph_edges(*graph)),
{
    graph_dot_text(graph)
}

/// `Graph::default`: an empty graph.
#[verifier::external_body]
pub(crate) fn graph_new() -> (graph: TimetableGraph)
    ensures
        graph_nodes(graph) == Seq::<TimetableNode>::empty(),
        graph_edges(graph) == Seq::<GraphEdge>::empty(),
{
    DiGraph::default()
}

/// `Graph::node_count`: the number of nodes.
#[verifier::external_body]
pub(crate) fn graph_node_count(graph: &TimetableGraph) -> (n: usize)
    ensures
        n == graph_nodes(*graph).len(),
{
    graph.node_count()
}

/// `Graph::edge_count`: the number of edges.
#[verifier::external_body]
pub(crate) fn graph_edge_count(graph: &TimetableGraph) -> (n: usize)
    ensures
        n == graph_edges(*graph).len(),
{
    graph.edge_count()
}

/// `Graph::add_node`: appends a node and returns its index, the former node count.
#[verifier::external_body]
pub(crate) fn graph_add_node(graph: &mut TimetableGraph, weight: TimetableNode) -> (index: usize)
    ensures
        index == graph_nodes(*old(graph)).len(),
        graph_nodes(*final(graph)) == graph_nodes(*old(graph)).push(weight),
        graph_edges(*final(graph)) == graph_edges(*old(graph)),
{
    graph.add_node(weight).index()
}

/// `Graph::add_edge`: appends an edge from `source` to `target` and returns its index,
/// the former edge count. It panics on a missing node, which `requires` rules out.
#[verifier::external_body]
pub(crate) fn graph_add_edge(
    graph: &mut TimetableGraph,
    source: usize,
    target: usize,
    weight: TimetableEdge,
) -> (index: usize)
    requires
        source < graph_nodes(*old(graph)).len(),
        target < graph_nodes(*old(graph)).len(),
    ensures
        index == graph_edges(*old(graph)).len(),
        graph_edges(*final(graph)) == graph_edges(*old(graph)).push((source, target, weight)),
        graph_nodes(*final(graph)) == graph_nodes(*old(graph)),
{
    graph.add_edge(NodeIndex::new(source), NodeIndex::new(target), weight).index()
}

/// `Index<NodeIndex>` of `Graph`: the weight of a node.
#[verifier::external_body]
pub(crate) fn graph_node(graph: &TimetableGraph, node: usize) -> (weight: &TimetableNode)
    requires
        node < graph_nodes(*graph).len(),
    ensures
        *weight == graph_nodes(*graph)[node as int],
{
    &graph[NodeIndex::new(node)]
}

/// `Index<EdgeIndex>` of `Graph`: the weight of an edge.
#[verifier::external_body]
pub(crate) fn graph_edge(graph: &TimetableGraph, edge: usize) -> (weight: &TimetableEdge)
    requires
        edge < graph_edges(*graph).len(),
    ensures
        *weight == graph_edges(*graph)[edge as int].2,
{
    &graph[EdgeIndex::new(edge)]
}

/// `IndexMut<EdgeIndex>` of `Graph`: replaces the weight of an edge.
#[verifier::external_body]
pub(crate) fn graph_set_edge(graph: &mut TimetableGraph, edge: usize, weight: TimetableEdge)
    requires
        edge < graph_edges(*old(graph)).len(),
    ensures
        graph_edges(*final(graph)) == graph_edges(*old(graph)).update(
            edge as int,
            (graph_edges(*old(graph))[edge as int].0, graph_edges(*old(graph))[edge as int].1, weight),
        ),
        graph_nodes(*final(graph)) == graph_nodes(*old(graph)),
{
    graph[EdgeIndex::new(edge)] = weight;
}

/// `Graph::raw_edges`: the source and target node of an edge.
#[verifier::external_body]
pub(crate) fn graph_edge_endpoints(graph: &TimetableGraph, edge: usize) -> (ends: (usize, usize))
    requires
        edge < graph_edges(*graph).len(),
    ensures
        ends.0 == graph_edges(*graph)[edge as int].0,
        ends.1 == graph_edges(*graph)[edge as int].1,
{
    let e = &graph.raw_edges()[edge];
    (e.source().index(), e.target().index())
}

/// `Graph::find_edge`: the first outgoing edge of `source` (in the order of
/// `edges_directed`) that leads to `target`; none for a missing `source`.
#[verifier::external_body]
pub(crate) fn graph_find_edge(graph: &TimetableGraph, source: usize, target: usize) -> (edge: Option<usize>)
    ensures
        edge == (if source < graph_nodes(*graph).len() {
            first_edge_to(outgoing_of(graph_edges(*graph), source), target)
        } else {
            None
        }),
{
    match graph.find_edge(NodeIndex::new(source), NodeIndex::new(target)) {
        Some(e) => Some(e.index()),
        None => None,
    }
}

/// `Graph::edges_directed(node, Outgoing)`: the outgoing edges of a node as
/// (edge index, target), in reverse order of their addition, as petgraph documents
/// for directed graphs.
#[verifier::external_body]
pub(crate) fn graph_outgoing(graph: &TimetableGraph, node: usize) -> (out: Vec<(usize, usize)>)
    requires
        node < graph_nodes(*graph).len(),
    ensures
        out@ == outgoing_of(graph_edges(*graph), node),
{
    graph.edges_directed(NodeIndex::new(node), Direction::Outgoing).map(
        |e| (e.id().index(), e.target().index()),
    ).collect()
}

} // verus!
