//! A footpath between two stations.

use vstd::prelude::*;
use crate::graph::{graph_add_edge, graph_edges, graph_node, graph_nodes, GraphEdge, TimetableGraph};
use crate::graph_weight::{TimetableEdge, TimetableNode};
use crate::integrity::{edge_ok, edges_ok, time_of, timetable_integrity};
use crate::station::nodes_exist;
use crate::parse::{number_field, number_in, number_of};
use std::collections::HashMap;

verus! {

/// A footpath from one station to another, taking `duration` minutes.
#[derive(Debug, Clone, Copy, PartialEq, Eq, Structural)]
pub struct Footpath {
    pub from_station: u64,
    pub to_station: u64,
    pub duration: u64,
}

/// the record's fields of a footpath hold numbers
pub open spec fn footpath_record_ok(r: Map<String, String>) -> bool {
    &&& number_field(r, "from_station"@)
    &&& number_field(r, "to_station"@)
    &&& number_field(r, "duration"@)
}

/// the footpath a record describes
pub open spec fn footpath_of_record(r: Map<String, String>) -> Footpath {
    Footpath {
        from_station: number_of(r, "from_station"@),
        to_station: number_of(r, "to_station"@),
        duration: number_of(r, "duration"@),
    }
}

/// the first node of `candidates` whose time is at least `time`
pub open spec fn first_reached(nodes: Seq<TimetableNode>, candidates: Seq<usize>, time: int) -> Option<usize>
    decreases candidates.len(),
{
    if candidates.len() == 0 {
        None
    } else if time <= time_of(nodes[candidates[0] as int]) {
        Some(candidates[0])
    } else {
        first_reached(nodes, candidates.drop_first(), time)
    }
}

/// the walk edges a footpath of `duration` adds for the arrivals `arrivals`: each goes
/// to the first transfer node reached after walking, if there is one
pub open spec fn walk_edges(
    nodes: Seq<TimetableNode>,
    arrivals: Seq<usize>,
    transfers: Seq<usize>,
    duration: u64,
) -> Seq<GraphEdge>
    decreases arrivals.len(),
{
    if arrivals.len() == 0 {
        Seq::empty()
    } else {
        let rest = walk_edges(nodes, arrivals.drop_last(), transfers, duration);
        let a = arrivals.last();
        match first_reached(nodes, transfers, time_of(nodes[a as int]) + duration) {
            Some(b) => rest.push((a, b, TimetableEdge::Walk { duration })),
            None => rest,
        }
    }
}

/// Every edge that a footpath adds is a walk.
pub proof fn lemma_walk_edges_are_walks(nodes: Seq<TimetableNode>, arrivals: Seq<usize>, transfers: Seq<usize>, duration: u64)
    ensures
        forall|k: int|
            0 <= k < walk_edges(nodes, arrivals, transfers, duration).len()
                ==> (#[trigger] walk_edges(nodes, arrivals, transfers, duration)[k]).2 is Walk,
    decreases arrivals.len(),
{
    if arrivals.len() > 0 {
        lemma_walk_edges_are_walks(nodes, arrivals.drop_last(), transfers, duration);
    }
}

/// A first reached node is one of the candidates, reached in time.
pub proof fn lemma_first_reached(nodes: Seq<TimetableNode>, candidates: Seq<usize>, time: int)
    ensures
        first_reached(nodes, candidates, time) matches Some(b) ==> candidates.contains(b) && time <= time_of(nodes[b as int]),
    decreases candidates.len(),
{
    if candidates.len() > 0 && time > time_of(nodes[candidates[0] as int]) {
        lemma_first_reached(nodes, candidates.drop_first(), time);
        if let Some(b) = first_reached(nodes, candidates.drop_first(), time) {
            let k = choose|k: int| 0 <= k < candidates.drop_first().len() && candidates.drop_first()[k] == b;
            assert(candidates[k + 1] == b);
        }
    } else if candidates.len() > 0 {
        assert(candidates[0] == candidates[0]);
    }
}

impl Footpath {
    /// The footpath described by a record (fields `from_station`, `to_station`,
    /// `duration`).
    pub fn from_map(map: HashMap<String, String>) -> (footpath: Self)
        requires
            footpath_record_ok(map@),
        ensures
            footpath == footpath_of_record(map@),
    {
        Footpath {
            from_station: number_in(&map, "from_station"),
            to_station: number_in(&map, "to_station"),
            duration: number_in(&map, "duration"),
        }
    }

    /// The footpaths described by the records, in their order.
    pub fn from_maps_to_vec(footpath_maps: &Vec<HashMap<String, String>>) -> (footpaths: Vec<Footpath>)
        requires
            forall|i: int| 0 <= i < footpath_maps@.len() ==> footpath_record_ok(#[trigger] footpath_maps@[i]@),
        ensures
            footpaths@.len() == footpath_maps@.len(),
            forall|i: int| 0 <= i < footpaths@.len() ==> #[trigger] footpaths@[i] == footpath_of_record(footpath_maps@[i]@),
    {
        let mut footpaths: Vec<Footpath> = Vec::with_capacity(footpath_maps.len());
        let mut i: usize = 0;
        while i < footpath_maps.len()
            invariant
                i <= footpath_maps@.len(),
                footpaths@.len() == i,
                forall|j: int| 0 <= j < footpath_maps@.len() ==> footpath_record_ok(#[trigger] footpath_maps@[j]@),
                forall|j: int| 0 <= j < i ==> #[trigger] footpaths@[j] == footpath_of_record(footpath_maps@[j]@),
            decreases footpath_maps@.len() - i,
        {
            let footpath_map = &footpath_maps[i];
            proof {
                assert(footpath_record_ok(footpath_maps@[i as int]@));
            }
            footpaths.push(Footpath {
                from_station: number_in(footpath_map, "from_station"),
                to_station: number_in(footpath_map, "to_station"),
                duration: number_in(footpath_map, "duration"),
            });
            i = i + 1;
        }
        footpaths
    }

    /// Connects every arrival of the start station with the first transfer node of the
    /// destination station that is reached after walking (the transfer nodes are taken
    /// in the given order, earliest first when they are sorted by time). Returns the
    /// number of arrivals connected and the number for which no transfer node is reached.
    pub fn connect(
        self,
        graph: &mut TimetableGraph,
        from_station_arrivals: &Vec<usize>,
        to_station_transfers: &Vec<usize>,
    ) -> (counts: (u64, u64))
        requires
            timetable_integrity(*old(graph)),
            forall|i: int| 0 <= i < from_station_arrivals@.len() ==> {
                let a = #[trigger] from_station_arrivals@[i];
                &&& a < graph_nodes(*old(graph)).len()
                &&& graph_nodes(*old(graph))[a as int] is Arrival
                &&& time_of(graph_nodes(*old(graph))[a as int]) + self.duration <= u64::MAX
            },
            forall|i: int| 0 <= i < to_station_transfers@.len() ==> {
                let b = #[trigger] to_station_transfers@[i];
                &&& b < graph_nodes(*old(graph)).len()
                &&& graph_nodes(*old(graph))[b as int] is Transfer
            },
        ensures
            graph_nodes(*final(graph)) == graph_nodes(*old(graph)),
            graph_edges(*final(graph)) == graph_edges(*old(graph)) + walk_edges(
                graph_nodes(*old(graph)),
                from_station_arrivals@,
                to_station_transfers@,
                self.duration,
            ),
            counts.0 == walk_edges(graph_nodes(*old(graph)), from_station_arrivals@, to_station_transfers@, self.duration).len(),
            counts.0 + counts.1 == from_station_arrivals@.len(),
            timetable_integrity(*final(graph)),
    {
        let ghost gn = graph_nodes(*graph);
        let ghost e0 = graph_edges(*graph);
        let mut successful_footpath_counter: u64 = 0;
        let mut failed_footpath_counter: u64 = 0;
        let mut i: usize = 0;
        while i < from_station_arrivals.len()
            invariant
                i <= from_station_arrivals.len(),
                gn == graph_nodes(*graph),
                gn == graph_nodes(*old(graph)),
                e0 == graph_edges(*old(graph)),
                timetable_integrity(*graph),
                forall|k: int| 0 <= k < from_station_arrivals@.len() ==> {
                    let a = #[trigger] from_station_arrivals@[k];
                    &&& a < gn.len()
                    &&& gn[a as int] is Arrival
                    &&& time_of(gn[a as int]) + self.duration <= u64::MAX
                },
                forall|k: int| 0 <= k < to_station_transfers@.len() ==> {
                    let b = #[trigger] to_station_transfers@[k];
                    &&& b < gn.len()
                    &&& gn[b as int] is Transfer
                },
                graph_edges(*graph) == e0 + walk_edges(gn, from_station_arrivals@.take(i as int), to_station_transfers@, self.duration),
                successful_footpath_counter == walk_edges(gn, from_station_arrivals@.take(i as int), to_station_transfers@, self.duration).len(),
                successful_footpath_counter + failed_footpath_counter == i,
            decreases from_station_arrivals.len() - i,
        {
            let arrival = from_station_arrivals[i];
            let arrival_time = match graph_node(graph, arrival).time() {
                Some(t) => t,
                None => 0,
            };
            let earliest_transfer_time = arrival_time + self.duration;
            let ghost prefix = from_station_arrivals@.take(i as int);
            let ghost next = from_station_arrivals@.take(i + 1);
            proof {
                assert(next.drop_last() == prefix);
                assert(next.last() == arrival);
            }
            // find the first transfer node reached after walking
            let mut p: usize = 0;
            let mut found = false;
            assert(to_station_transfers@.skip(0) == to_station_transfers@);
            while p < to_station_transfers.len() && !found
                invariant
                    p <= to_station_transfers.len(),
                    gn == graph_nodes(*graph),
                    forall|k: int| 0 <= k < to_station_transfers@.len() ==> {
                        let b = #[trigger] to_station_transfers@[k];
                        &&& b < gn.len()
                        &&& gn[b as int] is Transfer
                    },
                    first_reached(gn, to_station_transfers@, earliest_transfer_time as int)
                        == if found {
                            Some(to_station_transfers@[p as int])
                        } else {
                            first_reached(gn, to_station_transfers@.skip(p as int), earliest_transfer_time as int)
                        },
                    found ==> p < to_station_transfers.len(),
                decreases to_station_transfers.len() - p, if found { 0int } else { 1int },
            {
                let transfer = to_station_transfers[p];
                let transfer_time = match graph_node(graph, transfer).time() {
                    Some(t) => t,
                    None => 0,
                };
                proof {
                    let rest = to_station_transfers@.skip(p as int);
                    assert(rest[0] == transfer);
                    assert(rest.drop_first() == to_station_transfers@.skip(p + 1));
                }
                if earliest_transfer_time <= transfer_time {
                    found = true;
                } else {
                    p = p + 1;
                }
            }
            if found {
                let transfer = to_station_transfers[p];
                let ghost before = graph_edges(*graph);
                proof {
                    assert(transfer < gn.len());
                }
                graph_add_edge(graph, arrival, transfer, TimetableEdge::Walk { duration: self.duration });
                proof {
                    let after = graph_edges(*graph);
                    lemma_first_reached(gn, to_station_transfers@, earliest_transfer_time as int);
                    assert(edge_ok(gn, after[before.len() as int]));
                    assert(forall|k: int| 0 <= k < before.len() ==> after[k] == before[k]);
                    assert(edges_ok(gn, after));
                    assert(after == e0 + walk_edges(gn, next, to_station_transfers@, self.duration));
                }
                successful_footpath_counter = successful_footpath_counter + 1;
            } else {
                proof {
                    assert(to_station_transfers@.skip(p as int).len() == 0);
                }
                failed_footpath_counter = failed_footpath_counter + 1;
            }
            i = i + 1;
        }
        proof {
            assert(from_station_arrivals@.take(i as int) == from_station_arrivals@);
        }
        (successful_footpath_counter, failed_footpath_counter)
    }
}

} // verus!
