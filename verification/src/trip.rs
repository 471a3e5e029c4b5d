//! A ride of a train between two stations.

use vstd::prelude::*;
use std::collections::HashMap;
use crate::graph::{graph_add_edge, graph_edges, graph_nodes, TimetableGraph};
use crate::graph_weight::{TimetableEdge, TimetableNode};
use crate::integrity::{edge_ok, edges_ok, time_of, timetable_integrity};
use crate::station::{lemma_stations_ok_extend, lemma_stations_times_fit_extend, stations_ok, stations_times_fit, Station};
use crate::parse::{number_field, number_in, number_of};

verus! {

broadcast use vstd::std_specs::hash::group_hash_axioms;

/// One ride of trip `id` from `from_station` (leaving at `departure`) to
/// `to_station` (arriving at `arrival`), with room for `capacity` passengers.
#[derive(Debug, Clone, Copy, PartialEq, Eq, Structural)]
pub struct Trip {
    pub id: u64,
    pub from_station: u64,
    pub departure: u64,
    pub to_station: u64,
    pub arrival: u64,
    pub capacity: u64,
}

/// the record's fields of a trip hold numbers
pub open spec fn trip_record_ok(r: Map<String, String>) -> bool {
    &&& number_field(r, "id"@)
    &&& number_field(r, "from_station"@)
    &&& number_field(r, "departure"@)
    &&& number_field(r, "to_station"@)
    &&& number_field(r, "arrival"@)
    &&& number_field(r, "capacity"@)
}

/// the trip a record describes
pub open spec fn trip_of_record(r: Map<String, String>) -> Trip {
    Trip {
        id: number_of(r, "id"@),
        from_station: number_of(r, "from_station"@),
        departure: number_of(r, "departure"@),
        to_station: number_of(r, "to_station"@),
        arrival: number_of(r, "arrival"@),
        capacity: number_of(r, "capacity"@),
    }
}

impl Trip {
    /// The trips described by the records (fields `id`, `from_station`,
    /// `departure`, `to_station`, `arrival`, `capacity`), in their order.
    pub fn from_maps_to_vec(trip_maps: &Vec<HashMap<String, String>>) -> (trips: Vec<Trip>)
        requires
            forall|i: int| 0 <= i < trip_maps@.len() ==> trip_record_ok(#[trigger] trip_maps@[i]@),
        ensures
            trips@.len() == trip_maps@.len(),
            forall|i: int| 0 <= i < trips@.len() ==> #[trigger] trips@[i] == trip_of_record(trip_maps@[i]@),
    {
        let mut trips: Vec<Trip> = Vec::with_capacity(trip_maps.len());
        let mut i: usize = 0;
        while i < trip_maps.len()
            invariant
                i <= trip_maps@.len(),
                trips@.len() == i,
                forall|j: int| 0 <= j < trip_maps@.len() ==> trip_record_ok(#[trigger] trip_maps@[j]@),
                forall|j: int| 0 <= j < i ==> #[trigger] trips@[j] == trip_of_record(trip_maps@[j]@),
            decreases trip_maps@.len() - i,
        {
            let trip_map = &trip_maps[i];
            proof {
                assert(trip_record_ok(trip_maps@[i as int]@));
            }
            let id = number_in(trip_map, "id");
            let from_station = number_in(trip_map, "from_station");
            let to_station = number_in(trip_map, "to_station");
            trips.push(Trip {
                id,
                from_station,
                departure: number_in(trip_map, "departure"),
                to_station,
                arrival: number_in(trip_map, "arrival"),
                capacity: number_in(trip_map, "capacity"),
            });
            i = i + 1;
        }
        trips
    }

    /// the trip can be added to the graph of `stations`: both stations exist and it does
    /// not arrive before it departs
    pub open spec fn fits_stations(&self, stations: Map<u64, Station>) -> bool {
        &&& stations.contains_key(self.from_station)
        &&& stations.contains_key(self.to_station)
        &&& self.departure <= self.arrival
    }

    /// Adds the trip to the graph: a departure node (with its transfer node and board
    /// edge) at the start station, an arrival node at the destination station, and
    /// the trip edge between them, carrying no passengers yet. The start station
    /// records the departure and the transfer node, the destination station the
    /// arrival; the other stations are left as they are.
    pub fn connect(self, graph: &mut TimetableGraph, stations: &mut HashMap<u64, Station>)
        requires
            self.fits_stations(old(stations)@),
            stations_ok(old(stations)@, graph_nodes(*old(graph))),
            timetable_integrity(*old(graph)),
        ensures
            old(stations)@.dom() == final(stations)@.dom(),
            forall|k: u64| #[trigger] final(stations)@.contains_key(k) ==> final(stations)@[k].transfer_time == old(stations)@[k].transfer_time,
            forall|k: u64| #[trigger] final(stations)@.contains_key(k) ==> final(stations)@[k].name == old(stations)@[k].name,
            stations_ok(final(stations)@, graph_nodes(*final(graph))),
            stations_times_fit(old(stations)@, graph_nodes(*old(graph))) && self.arrival + old(stations)@[self.to_station].transfer_time
                <= u64::MAX ==> stations_times_fit(final(stations)@, graph_nodes(*final(graph))),
            timetable_integrity(*final(graph)),
            graph_nodes(*final(graph)).len() == graph_nodes(*old(graph)).len() + 3,
            graph_nodes(*old(graph)).len() + 2 <= usize::MAX,
            graph_nodes(*final(graph)).take(graph_nodes(*old(graph)).len() as int) == graph_nodes(*old(graph)),
            graph_nodes(*final(graph))[graph_nodes(*old(graph)).len() as int] == (TimetableNode::Departure {
                trip_id: self.id,
                time: self.departure,
                station_id: self.from_station,
                station_name: old(stations)@[self.from_station].name,
            }),
            graph_nodes(*final(graph))[graph_nodes(*old(graph)).len() as int + 1] == (TimetableNode::Transfer {
                time: self.departure,
                station_id: self.from_station,
                station_name: old(stations)@[self.from_station].name,
            }),
            graph_nodes(*final(graph))[graph_nodes(*old(graph)).len() as int + 2] == (TimetableNode::Arrival {
                trip_id: self.id,
                time: self.arrival,
                station_id: self.to_station,
                station_name: old(stations)@[self.to_station].name,
            }),
            forall|k: u64|
                k != self.from_station && k != self.to_station && #[trigger] old(stations)@.contains_key(k)
                    ==> final(stations)@[k] == old(stations)@[k],
            ({
                let n = graph_nodes(*old(graph)).len();
                let from_before = old(stations)@[self.from_station];
                let from_after = final(stations)@[self.from_station];
                let to_before = old(stations)@[self.to_station];
                let to_after = final(stations)@[self.to_station];
                &&& from_after.transfers@ == from_before.transfers@.push((n + 1) as usize)
                &&& self.from_station != self.to_station ==> from_after.arrivals@ == from_before.arrivals@
                    && to_after.transfers@ == to_before.transfers@
                &&& from_after.departures@.dom() == from_before.departures@.dom().insert(self.id)
                &&& forall|t: u64|
                    t != self.id && #[trigger] from_before.departures@.contains_key(t) ==> from_after.departures@[t]
                        == from_before.departures@[t]
                &&& from_after.departures@[self.id]@ == if from_before.departures@.contains_key(self.id) {
                    from_before.departures@[self.id]@.push(n as usize)
                } else {
                    seq![n as usize]
                }
                &&& to_after.arrivals@.dom() == to_before.arrivals@.dom().insert(self.id)
                &&& forall|t: u64|
                    t != self.id && #[trigger] to_before.arrivals@.contains_key(t) ==> to_after.arrivals@[t] == to_before.arrivals@[t]
                &&& to_after.arrivals@[self.id]@ == if to_before.arrivals@.contains_key(self.id) {
                    to_before.arrivals@[self.id]@.push((n + 2) as usize)
                } else {
                    seq![(n + 2) as usize]
                }
            }),
            graph_edges(*final(graph)) == graph_edges(*old(graph)).push(
                ((graph_nodes(*old(graph)).len() + 1) as usize, graph_nodes(*old(graph)).len() as usize, TimetableEdge::Board),
            ).push(
                (
                    graph_nodes(*old(graph)).len() as usize,
                    (graph_nodes(*old(graph)).len() + 2) as usize,
                    TimetableEdge::Trip { duration: (self.arrival - self.departure) as u64, capacity: self.capacity, utilization: 0 },
                ),
            ),
    {
        let ghost s0 = stations@;
        let ghost n0 = graph_nodes(*graph);
        let departure = match stations.remove(&self.from_station) {
            Some(mut from_station) => {
                proof {
                    assert(s0.contains_key(self.from_station));
                }
                let departure = from_station.add_departure(graph, self.id, self.departure);
                stations.insert(self.from_station, from_station);
                departure
            },
            None => {
                proof {
                    assert(false);
                }
                0
            },
        };
        let ghost s1 = stations@;
        let ghost n1 = graph_nodes(*graph);
        proof {
            let more = n1.subrange(n0.len() as int, n1.len() as int);
            assert(n1 == n0 + more);
            lemma_stations_ok_extend(s0, n0, more);
            assert(stations_ok(s1, n1));
            if stations_times_fit(s0, n0) {
                lemma_stations_times_fit_extend(s0, n0, more);
                assert forall|k: u64| #[trigger] s1.contains_key(k) implies s1[k].transfer_times_fit(n1) by {
                    assert(s0.contains_key(k));
                    assert(s0[k].transfer_times_fit(n1));
                }
            }
        }
        let arrival = match stations.remove(&self.to_station) {
            Some(mut to_station) => {
                let arrival = to_station.add_arrival(graph, self.id, self.arrival);
                stations.insert(self.to_station, to_station);
                arrival
            },
            None => {
                proof {
                    assert(false);
                }
                0
            },
        };
        let ghost n2 = graph_nodes(*graph);
        proof {
            let more = n2.subrange(n1.len() as int, n2.len() as int);
            assert(n2 == n1 + more);
            lemma_stations_ok_extend(s1, n1, more);
            if stations_times_fit(s0, n0) && self.arrival + s0[self.to_station].transfer_time <= u64::MAX {
                lemma_stations_times_fit_extend(s1, n1, more);
                let st = stations@[self.to_station];
                assert forall|t: u64, i: int|
                    st.arrivals@.contains_key(t) && 0 <= i < st.arrivals@[t]@.len()
                        implies time_of(n2[#[trigger] st.arrivals@[t]@[i] as int]) + st.transfer_time <= u64::MAX by {
                    if st.arrivals@[t]@[i] != arrival {
                        assert(s1[self.to_station].arrivals@.contains_key(t));
                        let old_st = s1[self.to_station];
                        if t == self.id {
                            if old_st.arrivals@.contains_key(t) {
                                assert(st.arrivals@[t]@ == old_st.arrivals@[t]@.push(arrival));
                                assert(st.arrivals@[t]@[i] == old_st.arrivals@[t]@[i]);
                            }
                        } else {
                            assert(st.arrivals@[t] == old_st.arrivals@[t]);
                        }
                        assert(time_of((n1 + more)[old_st.arrivals@[t]@[i] as int]) + st.transfer_time <= u64::MAX);
                    }
                }
                assert forall|k: u64| #[trigger] stations@.contains_key(k) implies stations@[k].transfer_times_fit(n2) by {
                    assert(s1.contains_key(k));
                    assert(s1[k].transfer_times_fit(n2));
                }
            }
            assert(stations_ok(stations@, n2));
        }
        let ghost e2 = graph_edges(*graph);
        graph_add_edge(
            graph,
            departure,
            arrival,
            TimetableEdge::Trip { duration: self.arrival - self.departure, capacity: self.capacity, utilization: 0 },
        );
        proof {
            let e3 = graph_edges(*graph);
            assert(forall|k: int| 0 <= k < e2.len() ==> e3[k] == e2[k]);
            assert(edge_ok(n2, e3[e2.len() as int]));
            assert(edges_ok(n2, e3));
            assert(n2.take(n0.len() as int) =~= n0);
        }
    }
}

} // verus!
