//! How the edges that a station adds when it connects its nodes are laid out.

use vstd::prelude::*;
use crate::graph::GraphEdge;
use crate::graph_weight::TimetableNode;
use crate::station::Station;

verus! {

/// every edge of `edges` from position `from` on is a wait-in-train edge of `station`
/// (see `Station::wait_in_train_pair`)
#[verifier::opaque]
pub open spec fn waits_listed(station: Station, nodes: Seq<TimetableNode>, edges: Seq<GraphEdge>, from: int) -> bool {
    forall|k: int|
        #![trigger edges[k]]
        from <= k < edges.len() ==> exists|t: u64, jj: int|
            #![trigger station.wait_in_train_pair(nodes, t, jj)]
            station.wait_in_train_pair(nodes, t, jj) == Some(edges[k])
}

/// every wait-in-train edge of the trips `trips` at `station` is among the edges of
/// `edges` from position `from` on
#[verifier::opaque]
pub open spec fn waits_covered(station: Station, nodes: Seq<TimetableNode>, edges: Seq<GraphEdge>, from: int, trips: Seq<u64>) -> bool {
    forall|t: u64, jj: int|
        trips.contains(t) && (#[trigger] station.wait_in_train_pair(nodes, t, jj)) is Some ==> exists|k: int|
            #![trigger edges[k]]
            from <= k < edges.len() && Some(edges[k]) == station.wait_in_train_pair(nodes, t, jj)
}

} // verus!
