//! Structural integrity of the timetable graph: which nodes an edge of each kind
//! joins, and how their times relate.

use vstd::prelude::*;
use crate::graph::{graph_edges, graph_nodes, GraphEdge, TimetableGraph};
use crate::graph_weight::{TimetableEdge, TimetableNode};

verus! {

/// time of a node that has one
pub open spec fn time_of(node: TimetableNode) -> int {
    match node.spec_time() {
        Some(t) => t as int,
        None => 0,
    }
}

/// both nodes belong to the same station
pub open spec fn same_station(a: TimetableNode, b: TimetableNode) -> bool {
    a.spec_station_id() == b.spec_station_id()
}

/// An edge joins nodes as its kind demands:
/// - a trip goes from a departure to an arrival of the same trip, no earlier, and lasts the time in between;
/// - waiting in a train goes from an arrival to a departure of the same trip at the same station, no earlier;
/// - boarding goes from a transfer node to a departure at the same station and time;
/// - alighting goes from an arrival to a transfer node of the same station reached after the transfer time;
/// - waiting at a station goes from a transfer node to a later (or simultaneous) one of the same station;
/// - walking goes from an arrival to a transfer node reached after the walking time.
pub open spec fn edge_ok(nodes: Seq<TimetableNode>, edge: GraphEdge) -> bool {
    let (source, target, weight) = edge;
    &&& source < nodes.len()
    &&& target < nodes.len()
    &&& {
        let a = nodes[source as int];
        let b = nodes[target as int];
        match weight {
            TimetableEdge::Trip { duration, .. } => {
                &&& a is Departure
                &&& b is Arrival
                &&& a.spec_trip_id() == b.spec_trip_id()
                &&& time_of(a) <= time_of(b)
                &&& duration == time_of(b) - time_of(a)
            },
            TimetableEdge::WaitInTrain { duration } => {
                &&& a is Arrival
                &&& b is Departure
                &&& a.spec_trip_id() == b.spec_trip_id()
                &&& same_station(a, b)
                &&& time_of(a) <= time_of(b)
                &&& duration == time_of(b) - time_of(a)
            },
            TimetableEdge::Board => {
                &&& a is Transfer
                &&& b is Departure
                &&& same_station(a, b)
                &&& time_of(a) == time_of(b)
            },
            TimetableEdge::Alight { duration } => {
                &&& a is Arrival
                &&& b is Transfer
                &&& same_station(a, b)
                &&& time_of(a) + duration <= time_of(b)
            },
            TimetableEdge::WaitAtStation { duration } => {
                &&& a is Transfer
                &&& b is Transfer
                &&& same_station(a, b)
                &&& time_of(a) <= time_of(b)
                &&& duration == time_of(b) - time_of(a)
            },
            TimetableEdge::Walk { duration } => {
                &&& a is Arrival
                &&& b is Transfer
                &&& time_of(a) + duration <= time_of(b)
            },
            TimetableEdge::MainArrivalRelation => false,
        }
    }
}

/// every node has a time (there are no main arrival nodes)
pub open spec fn nodes_ok(nodes: Seq<TimetableNode>) -> bool {
    forall|i: int| 0 <= i < nodes.len() ==> !(#[trigger] nodes[i] is MainArrival)
}

/// every edge joins nodes as its kind demands
pub open spec fn edges_ok(nodes: Seq<TimetableNode>, edges: Seq<GraphEdge>) -> bool {
    forall|i: int| 0 <= i < edges.len() ==> edge_ok(nodes, #[trigger] edges[i])
}

/// the graph is a well-formed time-expanded timetable
pub open spec fn timetable_integrity(graph: TimetableGraph) -> bool {
    &&& nodes_ok(graph_nodes(graph))
    &&& edges_ok(graph_nodes(graph), graph_edges(graph))
}

/// An edge that joins its nodes properly still does after nodes are appended.
pub proof fn lemma_edge_ok_extend(nodes: Seq<TimetableNode>, more: Seq<TimetableNode>, edge: GraphEdge)
    requires
        edge_ok(nodes, edge),
    ensures
        edge_ok(nodes + more, edge),
{
    assert((nodes + more)[edge.0 as int] == nodes[edge.0 as int]);
    assert((nodes + more)[edge.1 as int] == nodes[edge.1 as int]);
}

/// Appending nodes keeps all edges proper.
pub proof fn lemma_edges_ok_extend(nodes: Seq<TimetableNode>, more: Seq<TimetableNode>, edges: Seq<GraphEdge>)
    requires
        edges_ok(nodes, edges),
    ensures
        edges_ok(nodes + more, edges),
{
    assert forall|i: int| 0 <= i < edges.len() implies edge_ok(nodes + more, #[trigger] edges[i]) by {
        lemma_edge_ok_extend(nodes, more, edges[i]);
    }
}

/// the edge at index `i` is the one and only edge of `edges` leaving node `n`
pub open spec fn sole_edge_from(edges: Seq<GraphEdge>, n: int, i: int) -> bool {
    &&& 0 <= i < edges.len()
    &&& edges[i].0 == n
    &&& forall|j: int| 0 <= j < edges.len() && (#[trigger] edges[j]).0 == n ==> j == i
}

/// the edge at index `i` is the one and only boarding edge of `edges` leaving node `n`
pub open spec fn sole_board_from(edges: Seq<GraphEdge>, n: int, i: int) -> bool {
    &&& 0 <= i < edges.len()
    &&& edges[i].0 == n
    &&& edges[i].2 is Board
    &&& forall|j: int| 0 <= j < edges.len() && (#[trigger] edges[j]).0 == n && edges[j].2 is Board ==> j == i
}

/// every departure node has exactly one outgoing edge
pub open spec fn departures_leave_once(nodes: Seq<TimetableNode>, edges: Seq<GraphEdge>) -> bool {
    forall|d: int| 0 <= d < nodes.len() && (#[trigger] nodes[d]) is Departure ==> exists|i: int| sole_edge_from(edges, d, i)
}

/// every transfer node has exactly one outgoing boarding edge
pub open spec fn transfers_board_once(nodes: Seq<TimetableNode>, edges: Seq<GraphEdge>) -> bool {
    forall|t: int| 0 <= t < nodes.len() && (#[trigger] nodes[t]) is Transfer ==> exists|i: int| sole_board_from(edges, t, i)
}

/// no two wait-in-train edges leave the same node
pub open spec fn waits_in_train_leave_once(edges: Seq<GraphEdge>) -> bool {
    forall|i: int, j: int|
        0 <= i < j < edges.len() && (#[trigger] edges[i]).2 is WaitInTrain && (#[trigger] edges[j]).2 is WaitInTrain
            ==> edges[i].0 != edges[j].0
}

/// The out-degrees of a timetable: a departure has exactly one outgoing edge (its
/// ride), a transfer node exactly one boarding edge, and an arrival at most one
/// wait-in-train edge.
pub open spec fn out_degrees_ok(graph: TimetableGraph) -> bool {
    &&& departures_leave_once(graph_nodes(graph), graph_edges(graph))
    &&& transfers_board_once(graph_nodes(graph), graph_edges(graph))
    &&& waits_in_train_leave_once(graph_edges(graph))
}

/// Appending proper edges that neither ride nor board keeps every departure with its
/// one outgoing edge and every transfer node with its one boarding edge.
pub proof fn lemma_out_degrees_append(nodes: Seq<TimetableNode>, before: Seq<GraphEdge>, after: Seq<GraphEdge>)
    requires
        before.len() <= after.len(),
        after.take(before.len() as int) == before,
        edges_ok(nodes, after),
        forall|k: int| before.len() <= k < after.len() ==> !((#[trigger] after[k]).2 is Trip) && !(after[k].2 is Board),
        departures_leave_once(nodes, before),
        transfers_board_once(nodes, before),
    ensures
        departures_leave_once(nodes, after),
        transfers_board_once(nodes, after),
{
    assert forall|k: int| 0 <= k < before.len() implies #[trigger] after[k] == before[k] by {
        assert(after.take(before.len() as int)[k] == after[k]);
    }
    assert forall|d: int| 0 <= d < nodes.len() && (#[trigger] nodes[d]) is Departure implies exists|i: int| sole_edge_from(after, d, i) by {
        let i = choose|i: int| sole_edge_from(before, d, i);
        assert forall|j: int| 0 <= j < after.len() && (#[trigger] after[j]).0 == d implies j == i by {
            if j < before.len() {
                assert(after[j] == before[j]);
            } else {
                assert(edge_ok(nodes, after[j]));
            }
        }
        assert(after[i] == before[i]);
        assert(sole_edge_from(after, d, i));
    }
    assert forall|t: int| 0 <= t < nodes.len() && (#[trigger] nodes[t]) is Transfer implies exists|i: int| sole_board_from(after, t, i) by {
        let i = choose|i: int| sole_board_from(before, t, i);
        assert forall|j: int| 0 <= j < after.len() && (#[trigger] after[j]).0 == t && after[j].2 is Board implies j == i by {
            if j < before.len() {
                assert(after[j] == before[j]);
            }
        }
        assert(after[i] == before[i]);
        assert(sole_board_from(after, t, i));
    }
}

/// Appending edges none of which waits in a train keeps wait-in-train edges leaving distinct nodes.
pub proof fn lemma_waits_in_train_append(before: Seq<GraphEdge>, after: Seq<GraphEdge>)
    requires
        before.len() <= after.len(),
        after.take(before.len() as int) == before,
        forall|k: int| before.len() <= k < after.len() ==> !((#[trigger] after[k]).2 is WaitInTrain),
        waits_in_train_leave_once(before),
    ensures
        waits_in_train_leave_once(after),
{
    assert forall|i: int, j: int|
        0 <= i < j < after.len() && (#[trigger] after[i]).2 is WaitInTrain && (#[trigger] after[j]).2 is WaitInTrain
            implies after[i].0 != after[j].0 by {
        assert(after.take(before.len() as int)[i] == after[i]);
        assert(after.take(before.len() as int)[j] == after[j]);
        assert(before[i] == after[i]);
        assert(before[j] == after[j]);
    }
}

/// Appending a trip's departure, transfer node and arrival, with a boarding edge from
/// the transfer node to the departure and a ride from the departure to the arrival,
/// gives the new departure its one outgoing edge and the new transfer node its one
/// boarding edge, and leaves those of the other nodes as they were.
pub proof fn lemma_out_degrees_trip(
    n0: Seq<TimetableNode>,
    e0: Seq<GraphEdge>,
    n1: Seq<TimetableNode>,
    e1: Seq<GraphEdge>,
)
    requires
        edges_ok(n0, e0),
        n1.len() == n0.len() + 3,
        n1.take(n0.len() as int) == n0,
        n1[n0.len() as int] is Departure,
        n1[n0.len() + 1int] is Transfer,
        n1[n0.len() + 2int] is Arrival,
        e1.len() == e0.len() + 2,
        e1.take(e0.len() as int) == e0,
        e1[e0.len() as int].0 == n0.len() + 1,
        e1[e0.len() as int].2 is Board,
        e1[e0.len() + 1int].0 == n0.len(),
        e1[e0.len() + 1int].2 is Trip,
        departures_leave_once(n0, e0),
        transfers_board_once(n0, e0),
    ensures
        departures_leave_once(n1, e1),
        transfers_board_once(n1, e1),
{
    let m = e0.len() as int;
    let n = n0.len() as int;
    assert forall|k: int| 0 <= k < m implies #[trigger] e1[k] == e0[k] && e0[k].0 < n by {
        assert(e1.take(m)[k] == e1[k]);
        assert(edge_ok(n0, e0[k]));
    }
    assert forall|k: int| 0 <= k < n implies #[trigger] n1[k] == n0[k] by {
        assert(n1.take(n)[k] == n1[k]);
    }
    assert forall|d: int| 0 <= d < n1.len() && (#[trigger] n1[d]) is Departure implies exists|i: int| sole_edge_from(e1, d, i) by {
        if d < n {
            assert(n0[d] is Departure);
            let i = choose|i: int| sole_edge_from(e0, d, i);
            assert forall|j: int| 0 <= j < e1.len() && (#[trigger] e1[j]).0 == d implies j == i by {
                if j < m {
                    assert(e1[j] == e0[j]);
                }
            }
            assert(e1[i] == e0[i]);
            assert(sole_edge_from(e1, d, i));
        } else {
            assert(d == n);
            assert forall|j: int| 0 <= j < e1.len() && (#[trigger] e1[j]).0 == d implies j == m + 1 by {
                if j < m {
                    assert(e1[j] == e0[j]);
                }
            }
            assert(sole_edge_from(e1, d, m + 1));
        }
    }
    assert forall|t: int| 0 <= t < n1.len() && (#[trigger] n1[t]) is Transfer implies exists|i: int| sole_board_from(e1, t, i) by {
        if t < n {
            assert(n0[t] is Transfer);
            let i = choose|i: int| sole_board_from(e0, t, i);
            assert forall|j: int| 0 <= j < e1.len() && (#[trigger] e1[j]).0 == t && e1[j].2 is Board implies j == i by {
                if j < m {
                    assert(e1[j] == e0[j]);
                }
            }
            assert(e1[i] == e0[i]);
            assert(sole_board_from(e1, t, i));
        } else {
            assert(t == n + 1);
            assert forall|j: int| 0 <= j < e1.len() && (#[trigger] e1[j]).0 == t && e1[j].2 is Board implies j == m by {
                if j < m {
                    assert(e1[j] == e0[j]);
                }
            }
            assert(sole_board_from(e1, t, m));
        }
    }
}

} // verus!
