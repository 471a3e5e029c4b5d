//! A station of the timetable, while its nodes are being added to the graph.

use vstd::prelude::*;
use vstd::std_specs::iter::IteratorSpec;
use std::collections::HashMap;
use crate::footpath::first_reached;
use crate::station_layout::{waits_covered, waits_listed};
use crate::graph::{
    graph_add_edge, graph_add_node, graph_edges, graph_node, graph_nodes, GraphEdge, TimetableGraph,
};
use crate::graph_weight::{TimetableEdge, TimetableNode};
use crate::parse::{field, number_field, number_in, number_of, text_in};
use crate::integrity::{edge_ok, edges_ok, lemma_edges_ok_extend, nodes_ok, time_of, timetable_integrity};

verus! {

broadcast use vstd::std_specs::hash::group_hash_axioms;

/// A stop station, with the nodes it has in the graph so far.
pub struct Station {
    /// unique identifier
    pub id: u64,
    /// minutes a passenger needs to alight from a train to the station
    pub transfer_time: u64,
    /// the station's name
    pub name: String,
    /// arrival nodes by trip id (a trip may arrive more than once at a station)
    pub arrivals: HashMap<u64, Vec<usize>>,
    /// departure nodes by trip id (a trip may depart more than once from a station)
    pub departures: HashMap<u64, Vec<usize>>,
    /// transfer nodes, one for each departure
    pub transfers: Vec<usize>,
}

/// the record's fields of a station: numbers for `id` and `transfer`, and a `name`
pub open spec fn station_record_ok(r: Map<String, String>) -> bool {
    &&& number_field(r, "id"@)
    &&& number_field(r, "transfer"@)
    &&& field(r, "name"@) is Some
}

/// the stations of the records, by id: the transfer time and the name of the last
/// record with that id
pub open spec fn stations_of_records(records: Seq<HashMap<String, String>>) -> Map<u64, (u64, Seq<char>)>
    decreases records.len(),
{
    if records.len() == 0 {
        Map::empty()
    } else {
        let r = records.last()@;
        stations_of_records(records.drop_last()).insert(
            number_of(r, "id"@),
            (number_of(r, "transfer"@), field(r, "name"@).unwrap()),
        )
    }
}

/// node `n` of `nodes` is a transfer node at `station`
pub open spec fn is_transfer_of(nodes: Seq<TimetableNode>, n: usize, station: u64) -> bool {
    &&& n < nodes.len()
    &&& nodes[n as int] is Transfer
    &&& nodes[n as int].spec_station_id() == Some(station)
}

/// node `n` of `nodes` is an arrival of trip `trip` at `station`
pub open spec fn is_arrival_of(nodes: Seq<TimetableNode>, n: usize, station: u64, trip: u64) -> bool {
    &&& n < nodes.len()
    &&& nodes[n as int] is Arrival
    &&& nodes[n as int].spec_station_id() == Some(station)
    &&& nodes[n as int].spec_trip_id() == Some(trip)
}

/// node `n` of `nodes` is a departure of trip `trip` at `station`
pub open spec fn is_departure_of(nodes: Seq<TimetableNode>, n: usize, station: u64, trip: u64) -> bool {
    &&& n < nodes.len()
    &&& nodes[n as int] is Departure
    &&& nodes[n as int].spec_station_id() == Some(station)
    &&& nodes[n as int].spec_trip_id() == Some(trip)
}

/// The alight edges for the arrivals `arrivals`, in their order: each goes, with
/// `transfer_time` as its duration, to the first of `transfers` reached after the
/// transfer time, if there is one.
pub open spec fn alight_edges(nodes: Seq<TimetableNode>, arrivals: Seq<usize>, transfers: Seq<usize>, transfer_time: u64) -> Seq<GraphEdge>
    decreases arrivals.len(),
{
    if arrivals.len() == 0 {
        Seq::empty()
    } else {
        let rest = alight_edges(nodes, arrivals.drop_last(), transfers, transfer_time);
        let a = arrivals.last();
        match first_reached(nodes, transfers, time_of(nodes[a as int]) + transfer_time) {
            Some(b) => rest.push((a, b, TimetableEdge::Alight { duration: transfer_time })),
            None => rest,
        }
    }
}

/// `seq` lists nodes of `nodes` in order of non-decreasing time
pub open spec fn sorted_by_time(nodes: Seq<TimetableNode>, seq: Seq<usize>) -> bool {
    forall|i: int, j: int| 0 <= i <= j < seq.len() ==> time_of(nodes[seq[i] as int]) <= time_of(nodes[seq[j] as int])
}

/// every item of `seq` is a node index of `nodes`
pub open spec fn nodes_exist(nodes: Seq<TimetableNode>, seq: Seq<usize>) -> bool {
    forall|i: int| 0 <= i < seq.len() ==> #[trigger] seq[i] < nodes.len()
}

/// the time of a node of the graph (0 for a node without time)
pub(crate) fn node_time(graph: &TimetableGraph, node: usize) -> (t: u64)
    requires
        node < graph_nodes(*graph).len(),
    ensures
        t == time_of(graph_nodes(*graph)[node as int]),
{
    match graph_node(graph, node).time() {
        Some(t) => t,
        None => 0,
    }
}

/// The node indices `nodes`, ordered by the time of their node (earliest first).
pub fn sort_nodes_by_time(graph: &TimetableGraph, nodes: &Vec<usize>) -> (sorted: Vec<usize>)
    requires
        nodes_exist(graph_nodes(*graph), nodes@),
    ensures
        sorted@.to_multiset() == nodes@.to_multiset(),
        sorted@.len() == nodes@.len(),
        nodes_exist(graph_nodes(*graph), sorted@),
        sorted_by_time(graph_nodes(*graph), sorted@),
{
    let ghost gn = graph_nodes(*graph);
    let mut sorted: Vec<usize> = Vec::new();
    let mut i: usize = 0;
    proof {
        assert(nodes@.take(0) =~= Seq::<usize>::empty());
        assert(sorted@ =~= Seq::<usize>::empty());
        vstd::seq_lib::to_multiset_len(sorted@);
        vstd::seq_lib::to_multiset_len(nodes@.take(0));
        vstd::multiset::lemma_multiset_empty_len(sorted@.to_multiset());
        vstd::multiset::lemma_multiset_empty_len(nodes@.take(0).to_multiset());
    }
    while i < nodes.len()
        invariant
            i <= nodes.len(),
            gn == graph_nodes(*graph),
            nodes_exist(gn, nodes@),
            nodes_exist(gn, sorted@),
            sorted_by_time(gn, sorted@),
            sorted@.len() == i,
            sorted@.to_multiset() == nodes@.take(i as int).to_multiset(),
        decreases nodes.len() - i,
    {
        let x = nodes[i];
        let t = node_time(graph, x);
        let mut pos: usize = 0;
        while pos < sorted.len() && node_time(graph, sorted[pos]) <= t
            invariant
                pos <= sorted.len(),
                gn == graph_nodes(*graph),
                nodes_exist(gn, sorted@),
                x < gn.len(),
                t == time_of(gn[x as int]),
                forall|j: int| 0 <= j < pos ==> time_of(gn[sorted@[j] as int]) <= t,
            decreases sorted.len() - pos,
        {
            pos = pos + 1;
        }
        let ghost before = sorted@;
        sorted.insert(pos, x);
        proof {
            assert(nodes@.take(i + 1) == nodes@.take(i as int).push(x));
            assert(nodes@.take(i as int).push(x) == nodes@.take(i as int).insert(i as int, x));
            vstd::seq_lib::to_multiset_insert(before, pos as int, x);
            vstd::seq_lib::to_multiset_insert(nodes@.take(i as int), i as int, x);
            assert(sorted@.to_multiset() == before.to_multiset().insert(x));
            assert forall|a: int, b: int| 0 <= a <= b < sorted@.len() implies time_of(gn[sorted@[a] as int]) <= time_of(gn[sorted@[b] as int]) by {
                if pos < before.len() {
                    assert(t < time_of(gn[before[pos as int] as int]));
                }
                if a < pos && b == pos {
                } else if a < pos && b > pos {
                    assert(sorted@[b] == before[b - 1]);
                } else if a == pos && b > pos {
                    assert(sorted@[b] == before[b - 1]);
                    assert(time_of(gn[before[pos as int] as int]) <= time_of(gn[before[b - 1] as int]));
                } else if a > pos {
                    assert(sorted@[a] == before[a - 1]);
                    assert(sorted@[b] == before[b - 1]);
                }
            }
        }
        i = i + 1;
    }
    proof {
        assert(nodes@.take(nodes.len() as int) == nodes@);
    }
    sorted
}

impl Station {
    /// The nodes recorded for this station are nodes of the graph of the kind they are recorded as.
    pub open spec fn nodes_recorded(&self, nodes: Seq<TimetableNode>) -> bool {
        &&& forall|i: int| 0 <= i < self.transfers@.len() ==> is_transfer_of(nodes, #[trigger] self.transfers@[i], self.id)
        &&& forall|t: u64, i: int|
            self.arrivals@.contains_key(t) && 0 <= i < self.arrivals@[t]@.len()
                ==> is_arrival_of(nodes, #[trigger] self.arrivals@[t]@[i], self.id, t)
        &&& forall|t: u64, i: int|
            self.departures@.contains_key(t) && 0 <= i < self.departures@[t]@.len()
                ==> is_departure_of(nodes, #[trigger] self.departures@[t]@[i], self.id, t)
        &&& forall|t: u64| #[trigger] self.arrivals@.contains_key(t) ==> self.arrivals@[t]@.no_duplicates()
    }

    /// the node kinds stay recorded as they are when nodes are appended
    pub proof fn lemma_nodes_recorded_extend(&self, nodes: Seq<TimetableNode>, more: Seq<TimetableNode>)
        requires
            self.nodes_recorded(nodes),
        ensures
            self.nodes_recorded(nodes + more),
    {
        assert forall|i: int| 0 <= i < self.transfers@.len() implies is_transfer_of(nodes + more, #[trigger] self.transfers@[i], self.id) by {
            assert((nodes + more)[self.transfers@[i] as int] == nodes[self.transfers@[i] as int]);
        }
        assert forall|t: u64, i: int|
            self.arrivals@.contains_key(t) && 0 <= i < self.arrivals@[t]@.len()
                implies is_arrival_of(nodes + more, #[trigger] self.arrivals@[t]@[i], self.id, t) by {
            assert((nodes + more)[self.arrivals@[t]@[i] as int] == nodes[self.arrivals@[t]@[i] as int]);
        }
        assert forall|t: u64, i: int|
            self.departures@.contains_key(t) && 0 <= i < self.departures@[t]@.len()
                implies is_departure_of(nodes + more, #[trigger] self.departures@[t]@[i], self.id, t) by {
            assert((nodes + more)[self.departures@[t]@[i] as int] == nodes[self.departures@[t]@[i] as int]);
        }
    }

    /// The stations described by the records (fields `id`, `transfer`, `name`), by
    /// id, without any nodes yet; of records with the same id the last one counts.
    pub fn from_maps_to_map(station_maps: &Vec<HashMap<String, String>>) -> (stations: HashMap<u64, Station>)
        requires
            forall|i: int| 0 <= i < station_maps@.len() ==> station_record_ok(#[trigger] station_maps@[i]@),
        ensures
            stations@.dom() == stations_of_records(station_maps@).dom(),
            forall|k: u64| #[trigger] stations@.contains_key(k) ==> {
                let s = stations@[k];
                &&& s.id == k
                &&& (s.transfer_time, s.name@) == stations_of_records(station_maps@)[k]
                &&& s.arrivals@ == Map::<u64, Vec<usize>>::empty()
                &&& s.departures@ == Map::<u64, Vec<usize>>::empty()
                &&& s.transfers@ == Seq::<usize>::empty()
            },
    {
        let mut stations_map: HashMap<u64, Station> = HashMap::with_capacity(station_maps.len());
        let mut i: usize = 0;
        while i < station_maps.len()
            invariant
                i <= station_maps@.len(),
                forall|j: int| 0 <= j < station_maps@.len() ==> station_record_ok(#[trigger] station_maps@[j]@),
                stations_map@.dom() == stations_of_records(station_maps@.take(i as int)).dom(),
                forall|k: u64| #[trigger] stations_map@.contains_key(k) ==> {
                    let s = stations_map@[k];
                    &&& s.id == k
                    &&& (s.transfer_time, s.name@) == stations_of_records(station_maps@.take(i as int))[k]
                    &&& s.arrivals@ == Map::<u64, Vec<usize>>::empty()
                    &&& s.departures@ == Map::<u64, Vec<usize>>::empty()
                    &&& s.transfers@ == Seq::<usize>::empty()
                },
            decreases station_maps@.len() - i,
        {
            let station_map = &station_maps[i];
            proof {
                assert(station_record_ok(station_maps@[i as int]@));
                assert(station_maps@.take(i + 1).drop_last() == station_maps@.take(i as int));
                assert(station_maps@.take(i + 1).last() == station_maps@[i as int]);
            }
            let id = number_in(station_map, "id");
            let name = text_in(station_map, "name");
            let transfer_time = number_in(station_map, "transfer");
            stations_map.insert(id, Station::new(id, transfer_time, name));
            proof {
                assert(stations_map@.dom() =~= stations_of_records(station_maps@.take(i + 1)).dom());
            }
            i = i + 1;
        }
        proof {
            assert(station_maps@.take(station_maps@.len() as int) == station_maps@);
        }
        stations_map
    }

    /// A station without any nodes yet.
    pub fn new(id: u64, transfer_time: u64, name: String) -> (station: Self)
        ensures
            station.id == id,
            station.transfer_time == transfer_time,
            station.name == name,
            station.arrivals@ == Map::<u64, Vec<usize>>::empty(),
            station.departures@ == Map::<u64, Vec<usize>>::empty(),
            station.transfers@ == Seq::<usize>::empty(),
    {
        Station { id, transfer_time, name, arrivals: HashMap::new(), departures: HashMap::new(), transfers: Vec::new() }
    }

    /// Adds a departure node of `trip_id` at `time`, together with the transfer node it
    /// induces at this station and the board edge from that transfer node to it.
    /// Returns the departure node.
    pub fn add_departure(&mut self, graph: &mut TimetableGraph, trip_id: u64, time: u64) -> (departure: usize)
        requires
            old(self).nodes_recorded(graph_nodes(*old(graph))),
            timetable_integrity(*old(graph)),
        ensures
            departure == graph_nodes(*old(graph)).len(),
            graph_nodes(*final(graph)) == graph_nodes(*old(graph)).push(
                TimetableNode::Departure { trip_id, time, station_id: old(self).id, station_name: old(self).name },
            ).push(TimetableNode::Transfer { time, station_id: old(self).id, station_name: old(self).name }),
            graph_edges(*final(graph)) == graph_edges(*old(graph)).push(
                ((departure + 1) as usize, departure, TimetableEdge::Board),
            ),
            final(self).id == old(self).id,
            final(self).transfer_time == old(self).transfer_time,
            final(self).name == old(self).name,
            final(self).arrivals@ == old(self).arrivals@,
            final(self).departures@.dom() == old(self).departures@.dom().insert(trip_id),
            forall|t: u64| t != trip_id && #[trigger] old(self).departures@.contains_key(t) ==> final(self).departures@[t] == old(self).departures@[t],
            old(self).departures@.contains_key(trip_id) ==> final(self).departures@[trip_id]@ == old(self).departures@[trip_id]@.push(departure),
            !old(self).departures@.contains_key(trip_id) ==> final(self).departures@[trip_id]@ == seq![departure],
            final(self).transfers@ == old(self).transfers@.push((departure + 1) as usize),
            final(self).nodes_recorded(graph_nodes(*final(graph))),
            timetable_integrity(*final(graph)),
    {
        let ghost nodes0 = graph_nodes(*graph);
        let departure = graph_add_node(
            graph,
            TimetableNode::Departure { trip_id, time, station_id: self.id, station_name: self.name.clone() },
        );
        self.departures.entry(trip_id).or_insert(Vec::new()).push(departure);
        let transfer = graph_add_node(
            graph,
            TimetableNode::Transfer { time, station_id: self.id, station_name: self.name.clone() },
        );
        graph_add_edge(graph, transfer, departure, TimetableEdge::Board);
        self.transfers.push(transfer);
        proof {
            let nodes1 = graph_nodes(*graph);
            let more = seq![nodes1[departure as int], nodes1[transfer as int]];
            assert(nodes1 == nodes0 + more);
            old(self).lemma_nodes_recorded_extend(nodes0, more);
            lemma_edges_ok_extend(nodes0, more, graph_edges(*old(graph)));
            assert(edge_ok(nodes1, (transfer, departure, TimetableEdge::Board)));
            let edges1 = graph_edges(*graph);
            assert(forall|i: int| 0 <= i < edges1.len() - 1 ==> edges1[i] == graph_edges(*old(graph))[i]);
            assert(edges_ok(nodes1, edges1));
            assert(nodes_ok(nodes1));
        }
        departure
    }

    /// Adds an arrival node of `trip_id` at `time` and returns it.
    pub fn add_arrival(&mut self, graph: &mut TimetableGraph, trip_id: u64, time: u64) -> (arrival: usize)
        requires
            old(self).nodes_recorded(graph_nodes(*old(graph))),
            timetable_integrity(*old(graph)),
        ensures
            arrival == graph_nodes(*old(graph)).len(),
            graph_nodes(*final(graph)) == graph_nodes(*old(graph)).push(
                TimetableNode::Arrival { trip_id, time, station_id: old(self).id, station_name: old(self).name },
            ),
            graph_edges(*final(graph)) == graph_edges(*old(graph)),
            final(self).id == old(self).id,
            final(self).transfer_time == old(self).transfer_time,
            final(self).name == old(self).name,
            final(self).departures@ == old(self).departures@,
            final(self).transfers@ == old(self).transfers@,
            final(self).arrivals@.dom() == old(self).arrivals@.dom().insert(trip_id),
            forall|t: u64| t != trip_id && #[trigger] old(self).arrivals@.contains_key(t) ==> final(self).arrivals@[t] == old(self).arrivals@[t],
            old(self).arrivals@.contains_key(trip_id) ==> final(self).arrivals@[trip_id]@ == old(self).arrivals@[trip_id]@.push(arrival),
            !old(self).arrivals@.contains_key(trip_id) ==> final(self).arrivals@[trip_id]@ == seq![arrival],
            final(self).nodes_recorded(graph_nodes(*final(graph))),
            timetable_integrity(*final(graph)),
    {
        let ghost nodes0 = graph_nodes(*graph);
        let arrival = graph_add_node(
            graph,
            TimetableNode::Arrival { trip_id, time, station_id: self.id, station_name: self.name.clone() },
        );
        self.arrivals.entry(trip_id).or_insert(Vec::new()).push(arrival);
        proof {
            if old(self).arrivals@.contains_key(trip_id) {
                let listed = old(self).arrivals@[trip_id]@;
                assert forall|i: int| 0 <= i < listed.len() implies #[trigger] listed[i] != arrival by {
                    assert(is_arrival_of(nodes0, old(self).arrivals@[trip_id]@[i], old(self).id, trip_id));
                }
                assert(self.arrivals@[trip_id]@ == listed.push(arrival));
            }
            let nodes1 = graph_nodes(*graph);
            let more = seq![nodes1[arrival as int]];
            assert(nodes1 == nodes0 + more);
            old(self).lemma_nodes_recorded_extend(nodes0, more);
            lemma_edges_ok_extend(nodes0, more, graph_edges(*old(graph)));
        }
        arrival
    }

    /// every arrival node of the station, increased by the transfer time, is still a `u64` time
    pub open spec fn transfer_times_fit(&self, nodes: Seq<TimetableNode>) -> bool {
        forall|t: u64, i: int|
            self.arrivals@.contains_key(t) && 0 <= i < self.arrivals@[t]@.len()
                ==> time_of(nodes[#[trigger] self.arrivals@[t]@[i] as int]) + self.transfer_time <= u64::MAX
    }

    /// The wait-in-train edge from the `j`-th arrival of trip `t` at the station to the
    /// trip's `j`-th departure there, when both exist and the departure is not earlier.
    pub open spec fn wait_in_train_pair(&self, nodes: Seq<TimetableNode>, t: u64, j: int) -> Option<GraphEdge> {
        if self.arrivals@.contains_key(t) && self.departures@.contains_key(t) && 0 <= j < self.arrivals@[t]@.len() && j
            < self.departures@[t]@.len() {
            let a = self.arrivals@[t]@[j];
            let d = self.departures@[t]@[j];
            if time_of(nodes[a as int]) <= time_of(nodes[d as int]) {
                Some((a, d, TimetableEdge::WaitInTrain { duration: (time_of(nodes[d as int]) - time_of(nodes[a as int])) as u64 }))
            } else {
                None
            }
        } else {
            None
        }
    }

    /// Adds the wait-in-train edges of the station: the `i`-th arrival of each trip at
    /// the station waits in the train for the trip's `i`-th departure there, when that
    /// is not earlier (see `wait_in_train_pair`).
    #[verifier::rlimit(30)]
    fn add_waits_in_train(&self, graph: &mut TimetableGraph)
        requires
            self.nodes_recorded(graph_nodes(*old(graph))),
            timetable_integrity(*old(graph)),
        ensures
            graph_nodes(*final(graph)) == graph_nodes(*old(graph)),
            timetable_integrity(*final(graph)),
            graph_edges(*final(graph)).len() >= graph_edges(*old(graph)).len(),
            graph_edges(*final(graph)).take(graph_edges(*old(graph)).len() as int) == graph_edges(*old(graph)),
            forall|k: int|
                graph_edges(*old(graph)).len() <= k < graph_edges(*final(graph)).len() ==> {
                    let e = #[trigger] graph_edges(*final(graph))[k];
                    &&& e.2 is WaitInTrain
                    &&& graph_nodes(*old(graph))[e.0 as int].spec_station_id() == Some(self.id)
                },
            forall|k1: int, k2: int|
                graph_edges(*old(graph)).len() <= k1 < k2 < graph_edges(*final(graph)).len()
                    ==> (#[trigger] graph_edges(*final(graph))[k1]).0 != (#[trigger] graph_edges(*final(graph))[k2]).0,
            waits_listed(*self, graph_nodes(*old(graph)), graph_edges(*final(graph)), graph_edges(*old(graph)).len() as int),
            forall|t: u64, j: int|
                #[trigger] self.wait_in_train_pair(graph_nodes(*old(graph)), t, j) is Some ==> exists|k: int|
                    graph_edges(*old(graph)).len() <= k < graph_edges(*final(graph)).len() && Some(graph_edges(*final(graph))[k])
                        == self.wait_in_train_pair(graph_nodes(*old(graph)), t, j),
    {
        let ghost gn = graph_nodes(*graph);
        let ghost n2 = graph_edges(*graph).len();
        let ghost e2 = graph_edges(*graph);
        proof {
            assert(e2.take(n2 as int) =~= e2);
        }
        let mut trip_ids: Vec<u64> = Vec::new();
        let ghost keys = vstd::std_specs::hash::spec_keys_iter(&self.arrivals).remaining();
        for trip_id in it2: self.arrivals.keys()
            invariant
                keys == it2.seq(),
                trip_ids@ == it2.seq().take(it2.index() as int).unref(),
        {
            trip_ids.push(*trip_id);
        }
        proof {
            assert(trip_ids@ =~= keys.unref());
            assert forall|a: int, b: int| 0 <= a < trip_ids@.len() && 0 <= b < trip_ids@.len() && a != b implies trip_ids@[a] != trip_ids@[b] by {
                assert(keys[a] != keys[b]);
            }
            assert forall|q: int| 0 <= q < trip_ids@.len() implies self.arrivals@.contains_key(#[trigger] trip_ids@[q]) by {
                assert(keys.unref().to_set().contains(trip_ids@[q]));
            }
        }
        let mut t_i: usize = 0;
        proof {
            reveal(waits_listed);
            reveal(waits_covered);
            assert(trip_ids@.take(0) =~= Seq::<u64>::empty());
            assert(waits_listed(*self, gn, graph_edges(*graph), n2 as int));
            assert(waits_covered(*self, gn, graph_edges(*graph), n2 as int, trip_ids@.take(0)));
        }
        while t_i < trip_ids.len()
            invariant
                t_i <= trip_ids.len(),
                gn == graph_nodes(*graph),
                nodes_ok(gn),
                edges_ok(gn, graph_edges(*graph)),
                graph_edges(*graph).len() >= n2,
                graph_edges(*graph).take(n2 as int) == e2,
                self.nodes_recorded(gn),
                trip_ids@.no_duplicates(),
                forall|q: int| 0 <= q < trip_ids@.len() ==> self.arrivals@.contains_key(#[trigger] trip_ids@[q]),
                forall|k: int| n2 <= k < graph_edges(*graph).len() ==> {
                    let e = #[trigger] graph_edges(*graph)[k];
                    &&& e.2 is WaitInTrain
                    &&& gn[e.0 as int].spec_station_id() == Some(self.id)
                    &&& exists|q: int| 0 <= q < t_i && gn[e.0 as int].spec_trip_id() == Some(#[trigger] trip_ids@[q])
                },
                forall|k1: int, k2: int|
                    n2 <= k1 < k2 < graph_edges(*graph).len() ==> (#[trigger] graph_edges(*graph)[k1]).0 != (#[trigger] graph_edges(*graph)[k2]).0,
                waits_listed(*self, gn, graph_edges(*graph), n2 as int),
                waits_covered(*self, gn, graph_edges(*graph), n2 as int, trip_ids@.take(t_i as int)),
            decreases trip_ids.len() - t_i,
        {
            let trip_id = trip_ids[t_i];
            let ghost n3 = graph_edges(*graph).len();
            proof {
                assert(self.arrivals@.contains_key(trip_ids@[t_i as int]));
            }
            match self.arrivals.get(&trip_id) {
                Some(arrivals_of_trip) => {
                    match self.departures.get(&trip_id) {
                        Some(departures_of_trip) => {
                            let mut j: usize = 0;
                            while j < arrivals_of_trip.len() && j < departures_of_trip.len()
                                invariant
                                    gn == graph_nodes(*graph),
                                    nodes_ok(gn),
                                    edges_ok(gn, graph_edges(*graph)),
                                    n2 <= n3 <= graph_edges(*graph).len(),
                                    j <= arrivals_of_trip@.len(),
                                    graph_edges(*graph).take(n2 as int) == e2,
                                    self.nodes_recorded(gn),
                                    self.arrivals@.contains_key(trip_id),
                                    self.arrivals@[trip_id] == *arrivals_of_trip,
                                    self.departures@.contains_key(trip_id),
                                    self.departures@[trip_id] == *departures_of_trip,
                                    trip_ids@.no_duplicates(),
                                    t_i < trip_ids@.len(),
                                    trip_ids@[t_i as int] == trip_id,
                                    forall|k: int| n2 <= k < n3 ==> {
                                        let e = #[trigger] graph_edges(*graph)[k];
                                        &&& e.2 is WaitInTrain
                                        &&& gn[e.0 as int].spec_station_id() == Some(self.id)
                                        &&& exists|q: int| 0 <= q < t_i && gn[e.0 as int].spec_trip_id() == Some(#[trigger] trip_ids@[q])
                                    },
                                    forall|k: int| n3 <= k < graph_edges(*graph).len() ==> {
                                        let e = #[trigger] graph_edges(*graph)[k];
                                        &&& e.2 is WaitInTrain
                                        &&& exists|q: int| 0 <= q < j && e.0 == #[trigger] arrivals_of_trip@[q]
                                    },
                                    forall|k1: int, k2: int|
                                        n2 <= k1 < k2 < graph_edges(*graph).len() ==> (#[trigger] graph_edges(*graph)[k1]).0 != (#[trigger] graph_edges(*graph)[k2]).0,
                                    waits_listed(*self, gn, graph_edges(*graph), n2 as int),
                                    waits_covered(*self, gn, graph_edges(*graph), n2 as int, trip_ids@.take(t_i as int)),
                                    forall|jj: int|
                                        0 <= jj < j && (#[trigger] self.wait_in_train_pair(gn, trip_id, jj)) is Some ==> exists|k: int|
                                            n3 <= k < graph_edges(*graph).len() && Some(graph_edges(*graph)[k])
                                                == self.wait_in_train_pair(gn, trip_id, jj),
                                decreases arrivals_of_trip.len() - j,
                            {
                                let arrival = arrivals_of_trip[j];
                                let departure = departures_of_trip[j];
                                proof {
                                    assert(is_arrival_of(gn, self.arrivals@[trip_id]@[j as int], self.id, trip_id));
                                    assert(is_departure_of(gn, self.departures@[trip_id]@[j as int], self.id, trip_id));
                                }
                                let arrival_time = node_time(graph, arrival);
                                let departure_time = node_time(graph, departure);
                                if arrival_time <= departure_time {
                                    let ghost before = graph_edges(*graph);
                                    graph_add_edge(
                                        graph,
                                        arrival,
                                        departure,
                                        TimetableEdge::WaitInTrain { duration: departure_time - arrival_time },
                                    );
                                    proof {
                                        let after = graph_edges(*graph);
                                        assert(forall|k: int| 0 <= k < before.len() ==> after[k] == before[k]);
                                        assert(edge_ok(gn, after[before.len() as int]));
                                        assert(edges_ok(gn, after));
                                        assert(after.take(n2 as int) =~= before.take(n2 as int));
                                        assert(after[before.len() as int].0 == arrivals_of_trip@[j as int]);
                                        assert forall|k1: int, k2: int|
                                            n2 <= k1 < k2 < after.len() implies (#[trigger] after[k1]).0 != (#[trigger] after[k2]).0 by {
                                            if k2 == before.len() {
                                                if k1 < n3 {
                                                    assert(before[k1] == after[k1]);
                                                    let q = choose|q: int| 0 <= q < t_i && gn[before[k1].0 as int].spec_trip_id() == Some(#[trigger] trip_ids@[q]);
                                                    assert(trip_ids@[q] != trip_ids@[t_i as int]);
                                                } else {
                                                    assert(before[k1] == after[k1]);
                                                    let q = choose|q: int| 0 <= q < j && before[k1].0 == #[trigger] arrivals_of_trip@[q];
                                                    assert(self.arrivals@[trip_id]@.no_duplicates());
                                                }
                                            } else {
                                                assert(before[k1] == after[k1]);
                                                assert(before[k2] == after[k2]);
                                            }
                                        }
                                        assert forall|k: int| n3 <= k < after.len() implies {
                                            let e = #[trigger] after[k];
                                            &&& e.2 is WaitInTrain
                                            &&& exists|q: int| 0 <= q < j + 1 && e.0 == #[trigger] arrivals_of_trip@[q]
                                        } by {
                                            if k < before.len() {
                                                assert(before[k] == after[k]);
                                                let q = choose|q: int| 0 <= q < j && before[k].0 == #[trigger] arrivals_of_trip@[q];
                                                assert(arrivals_of_trip@[q] == arrivals_of_trip@[q]);
                                            } else {
                                                assert(arrivals_of_trip@[j as int] == arrivals_of_trip@[j as int]);
                                            }
                                        }
                                        assert forall|k: int| n2 <= k < n3 implies {
                                            let e = #[trigger] after[k];
                                            &&& e.2 is WaitInTrain
                                            &&& gn[e.0 as int].spec_station_id() == Some(self.id)
                                            &&& exists|q: int| 0 <= q < t_i && gn[e.0 as int].spec_trip_id() == Some(#[trigger] trip_ids@[q])
                                        } by {
                                            assert(before[k] == after[k]);
                                        }
                                        let new_edge = after[before.len() as int];
                                        assert(self.wait_in_train_pair(gn, trip_id, j as int) == Some(new_edge));
                                        reveal(waits_listed);
                                        reveal(waits_covered);
                                        assert forall|k: int| #![trigger after[k]] n2 <= k < after.len() implies exists|t: u64, jj: int|
                                            #![trigger self.wait_in_train_pair(gn, t, jj)]
                                            self.wait_in_train_pair(gn, t, jj) == Some(after[k]) by {
                                            if k < before.len() {
                                                assert(before[k] == after[k]);
                                                let (t, jj) = choose|t: u64, jj: int| self.wait_in_train_pair(gn, t, jj) == Some(before[k]);
                                                assert(self.wait_in_train_pair(gn, t, jj) == Some(after[k]));
                                            } else {
                                                assert(self.wait_in_train_pair(gn, trip_id, j as int) == Some(after[k]));
                                            }
                                        }
                                        assert(waits_listed(*self, gn, after, n2 as int));
                                        let done = trip_ids@.take(t_i as int);
                                        assert forall|t: u64, jj: int|
                                            done.contains(t) && (#[trigger] self.wait_in_train_pair(gn, t, jj)) is Some implies exists|k: int|
                                                n2 <= k < after.len() && Some(after[k]) == self.wait_in_train_pair(gn, t, jj) by {
                                            let k = choose|k: int|
                                                n2 <= k < before.len() && Some(before[k]) == self.wait_in_train_pair(gn, t, jj);
                                            assert(after[k] == before[k]);
                                        }
                                        assert(waits_covered(*self, gn, after, n2 as int, done));
                                        assert forall|jj: int|
                                            0 <= jj < j + 1 && (#[trigger] self.wait_in_train_pair(gn, trip_id, jj)) is Some implies exists|k: int|
                                                n3 <= k < after.len() && Some(after[k]) == self.wait_in_train_pair(gn, trip_id, jj) by {
                                            if jj < j {
                                                let k = choose|k: int|
                                                    n3 <= k < before.len() && Some(before[k]) == self.wait_in_train_pair(gn, trip_id, jj);
                                                assert(after[k] == before[k]);
                                            } else {
                                                assert(Some(after[before.len() as int]) == self.wait_in_train_pair(gn, trip_id, jj));
                                            }
                                        }
                                    }
                                } else {
                                    proof {
                                        assert(self.wait_in_train_pair(gn, trip_id, j as int) is None);
                                    }
                                }
                                j = j + 1;
                            }
                            proof {
                                let ef = graph_edges(*graph);
                                assert forall|k: int| n3 <= k < ef.len() implies {
                                    let e = #[trigger] ef[k];
                                    &&& gn[e.0 as int].spec_station_id() == Some(self.id)
                                    &&& exists|q: int| 0 <= q < t_i + 1 && gn[e.0 as int].spec_trip_id() == Some(#[trigger] trip_ids@[q])
                                } by {
                                    let q = choose|q: int| 0 <= q < j && ef[k].0 == #[trigger] arrivals_of_trip@[q];
                                    assert(is_arrival_of(gn, self.arrivals@[trip_id]@[q], self.id, trip_id));
                                    assert(trip_ids@[t_i as int] == trip_id);
                                }
                                reveal(waits_covered);
                                let done1 = trip_ids@.take(t_i + 1);
                                assert(done1 == trip_ids@.take(t_i as int).push(trip_id));
                                assert forall|t: u64, jj: int|
                                    done1.contains(t) && (#[trigger] self.wait_in_train_pair(gn, t, jj)) is Some implies exists|k: int|
                                        n2 <= k < ef.len() && Some(ef[k]) == self.wait_in_train_pair(gn, t, jj) by {
                                    if t == trip_id {
                                        assert(jj < j);
                                        assert(self.wait_in_train_pair(gn, trip_id, jj) is Some);
                                    } else {
                                        assert(trip_ids@.take(t_i as int).contains(t));
                                    }
                                }
                                assert(waits_covered(*self, gn, ef, n2 as int, done1));
                            }
                        },
                        None => {
                            proof {
                                reveal(waits_covered);
                                let ef = graph_edges(*graph);
                                let done1 = trip_ids@.take(t_i + 1);
                                assert(done1 == trip_ids@.take(t_i as int).push(trip_id));
                                assert forall|t: u64, jj: int|
                                    done1.contains(t) && (#[trigger] self.wait_in_train_pair(gn, t, jj)) is Some implies exists|k: int|
                                        n2 <= k < ef.len() && Some(ef[k]) == self.wait_in_train_pair(gn, t, jj) by {
                                    if t == trip_id {
                                        assert(!self.departures@.contains_key(trip_id));
                                    } else {
                                        assert(trip_ids@.take(t_i as int).contains(t));
                                    }
                                }
                                assert(waits_covered(*self, gn, ef, n2 as int, done1));
                            }
                        },
                    }
                },
                None => {},
            }
            t_i = t_i + 1;
        }
        proof {
            let ef = graph_edges(*graph);
            reveal(waits_covered);
            assert(trip_ids@.take(trip_ids@.len() as int) == trip_ids@);
            assert(keys.unref().to_set() == self.arrivals@.dom());
            assert forall|t: u64, j: int|
                #[trigger] self.wait_in_train_pair(gn, t, j) is Some implies exists|k: int|
                    n2 <= k < ef.len() && Some(ef[k]) == self.wait_in_train_pair(gn, t, j) by {
                assert(self.arrivals@.contains_key(t));
                assert(keys.unref().to_set().contains(t));
                assert(trip_ids@.contains(t));
            }
        }
    }

    /// The arrival nodes of the station, trip after trip (in the order of the trips'
    /// keys), each once.
    fn arrival_nodes(&self, Ghost(nodes): Ghost<Seq<TimetableNode>>) -> (all: Vec<usize>)
        requires
            self.nodes_recorded(nodes),
        ensures
            all@.no_duplicates(),
            forall|n: usize| all@.contains(n) <==> self.has_arrival(n),
    {
        let mut trip_ids: Vec<u64> = Vec::new();
        let ghost keys = vstd::std_specs::hash::spec_keys_iter(&self.arrivals).remaining();
        for trip_id in it: self.arrivals.keys()
            invariant
                keys == it.seq(),
                trip_ids@ == it.seq().take(it.index() as int).unref(),
        {
            trip_ids.push(*trip_id);
        }
        proof {
            assert(trip_ids@ =~= keys.unref());
            assert(keys.unref().to_set() == self.arrivals@.dom());
            assert forall|a: int, b: int| 0 <= a < trip_ids@.len() && 0 <= b < trip_ids@.len() && a != b implies trip_ids@[a]
                != trip_ids@[b] by {
                assert(keys[a] != keys[b]);
            }
            assert forall|q: int| 0 <= q < trip_ids@.len() implies self.arrivals@.contains_key(#[trigger] trip_ids@[q]) by {
                assert(keys.unref().to_set().contains(trip_ids@[q]));
            }
        }
        let mut all: Vec<usize> = Vec::new();
        let mut t_i: usize = 0;
        while t_i < trip_ids.len()
            invariant
                t_i <= trip_ids.len(),
                self.nodes_recorded(nodes),
                trip_ids@.no_duplicates(),
                trip_ids@.to_set() == self.arrivals@.dom(),
                forall|q: int| 0 <= q < trip_ids@.len() ==> self.arrivals@.contains_key(#[trigger] trip_ids@[q]),
                all@.no_duplicates(),
                forall|n: usize|
                    all@.contains(n) <==> exists|q: int, k: int|
                        0 <= q < t_i && 0 <= k < self.arrivals@[trip_ids@[q]]@.len() && #[trigger] self.arrivals@[trip_ids@[q]]@[k]
                            == n,
            decreases trip_ids.len() - t_i,
        {
            let trip_id = trip_ids[t_i];
            proof {
                assert(self.arrivals@.contains_key(trip_ids@[t_i as int]));
            }
            let ghost before = all@;
            match self.arrivals.get(&trip_id) {
                Some(of_trip) => {
                    let mut k: usize = 0;
                    while k < of_trip.len()
                        invariant
                            k <= of_trip.len(),
                            self.nodes_recorded(nodes),
                            self.arrivals@.contains_key(trip_id),
                            self.arrivals@[trip_id] == *of_trip,
                            trip_ids@.no_duplicates(),
                            t_i < trip_ids@.len(),
                            trip_ids@[t_i as int] == trip_id,
                            forall|q: int| 0 <= q < trip_ids@.len() ==> self.arrivals@.contains_key(#[trigger] trip_ids@[q]),
                            forall|n: usize|
                                before.contains(n) <==> exists|q: int, kk: int|
                                    0 <= q < t_i && 0 <= kk < self.arrivals@[trip_ids@[q]]@.len()
                                        && #[trigger] self.arrivals@[trip_ids@[q]]@[kk] == n,
                            before.no_duplicates(),
                            all@ == before + of_trip@.take(k as int),
                            all@.no_duplicates(),
                        decreases of_trip.len() - k,
                    {
                        let x = of_trip[k];
                        proof {
                            assert(self.arrivals@[trip_id]@.no_duplicates());
                            assert(is_arrival_of(nodes, self.arrivals@[trip_id]@[k as int], self.id, trip_id));
                            if all@.contains(x) {
                                let p = choose|p: int| 0 <= p < all@.len() && all@[p] == x;
                                if p < before.len() {
                                    assert(before.contains(x));
                                    let (q, kk) = choose|q: int, kk: int|
                                        0 <= q < t_i && 0 <= kk < self.arrivals@[trip_ids@[q]]@.len()
                                            && #[trigger] self.arrivals@[trip_ids@[q]]@[kk] == x;
                                    assert(is_arrival_of(nodes, self.arrivals@[trip_ids@[q]]@[kk], self.id, trip_ids@[q]));
                                    assert(trip_ids@[q] != trip_ids@[t_i as int]);
                                } else {
                                    assert(of_trip@[p - before.len()] == x);
                                }
                                assert(false);
                            }
                            assert(of_trip@.take(k + 1) == of_trip@.take(k as int).push(x));
                        }
                        all.push(x);
                        k = k + 1;
                    }
                    proof {
                        assert(of_trip@.take(of_trip.len() as int) == of_trip@);
                    }
                },
                None => {
                    proof {
                        assert(false);
                    }
                },
            }
            proof {
                let of_trip = self.arrivals@[trip_id]@;
                assert(all@ == before + of_trip);
                assert forall|n: usize|
                    all@.contains(n) <==> exists|q: int, k: int|
                        0 <= q < t_i + 1 && 0 <= k < self.arrivals@[trip_ids@[q]]@.len() && #[trigger] self.arrivals@[trip_ids@[q]]@[k]
                            == n by {
                    if all@.contains(n) {
                        let p = choose|p: int| 0 <= p < all@.len() && all@[p] == n;
                        if p < before.len() {
                            assert(before.contains(n));
                        } else {
                            assert(self.arrivals@[trip_ids@[t_i as int]]@[p - before.len()] == n);
                        }
                    }
                    if exists|q: int, k: int|
                        0 <= q < t_i + 1 && 0 <= k < self.arrivals@[trip_ids@[q]]@.len() && #[trigger] self.arrivals@[trip_ids@[q]]@[k]
                            == n {
                        let (q, k) = choose|q: int, k: int|
                            0 <= q < t_i + 1 && 0 <= k < self.arrivals@[trip_ids@[q]]@.len()
                                && #[trigger] self.arrivals@[trip_ids@[q]]@[k] == n;
                        if q < t_i {
                            assert(before.contains(n));
                            let p = choose|p: int| 0 <= p < before.len() && before[p] == n;
                            assert(all@[p] == n);
                        } else {
                            assert(all@[before.len() + k] == n);
                        }
                    }
                }
            }
            t_i = t_i + 1;
        }
        proof {
            assert forall|n: usize| all@.contains(n) <==> self.has_arrival(n) by {
                if all@.contains(n) {
                    let (q, k) = choose|q: int, k: int|
                        0 <= q < trip_ids@.len() && 0 <= k < self.arrivals@[trip_ids@[q]]@.len()
                            && #[trigger] self.arrivals@[trip_ids@[q]]@[k] == n;
                    assert(self.arrivals@.contains_key(trip_ids@[q]));
                }
                if self.has_arrival(n) {
                    let (t, k) = choose|t: u64, k: int|
                        self.arrivals@.contains_key(t) && 0 <= k < self.arrivals@[t]@.len() && #[trigger] self.arrivals@[t]@[k] == n;
                    assert(trip_ids@.to_set().contains(t));
                    let q = choose|q: int| 0 <= q < trip_ids@.len() && trip_ids@[q] == t;
                    assert(self.arrivals@[trip_ids@[q]]@[k] == n);
                }
            }
        }
        all
    }

    /// `n` is one of the station's arrival nodes
    pub open spec fn has_arrival(&self, n: usize) -> bool {
        exists|t: u64, i: int|
            self.arrivals@.contains_key(t) && 0 <= i < self.arrivals@[t]@.len() && #[trigger] self.arrivals@[t]@[i] == n
    }

    /// Connects the station's nodes with each other and returns its transfer nodes
    /// (ordered by time) and its arrival nodes:
    /// - consecutive transfer nodes are joined by wait-at-station edges;
    /// - every arrival is joined by an alight edge to the earliest transfer node reached
    ///   after the transfer time, if there is one;
    /// - the i-th arrival of a trip is joined by a wait-in-train edge to the i-th
    ///   departure of the same trip, if it is not later than that departure.
    #[verifier::rlimit(60)]
    #[verifier::spinoff_prover]
    pub fn connect(self, graph: &mut TimetableGraph) -> (result: (Vec<usize>, Vec<usize>))
        requires
            self.nodes_recorded(graph_nodes(*old(graph))),
            self.transfer_times_fit(graph_nodes(*old(graph))),
            timetable_integrity(*old(graph)),
        ensures
            graph_nodes(*final(graph)) == graph_nodes(*old(graph)),
            graph_edges(*final(graph)).len() >= graph_edges(*old(graph)).len(),
            graph_edges(*final(graph)).take(graph_edges(*old(graph)).len() as int) == graph_edges(*old(graph)),
            timetable_integrity(*final(graph)),
            result.0@.to_multiset() == self.transfers@.to_multiset(),
            sorted_by_time(graph_nodes(*old(graph)), result.0@),
            result.1@.no_duplicates(),
            forall|n: usize| result.1@.contains(n) <==> self.has_arrival(n),
            forall|i: int|
                0 <= i < result.0@.len() - 1 ==> #[trigger] graph_edges(*final(graph))[graph_edges(*old(graph)).len() + i] == (
                    result.0@[i],
                    result.0@[i + 1],
                    TimetableEdge::WaitAtStation {
                        duration: (time_of(graph_nodes(*old(graph))[result.0@[i + 1] as int]) - time_of(
                            graph_nodes(*old(graph))[result.0@[i] as int],
                        )) as u64,
                    },
                ),
            forall|k: int|
                graph_edges(*old(graph)).len() <= k < graph_edges(*final(graph)).len() ==> {
                    let w = (#[trigger] graph_edges(*final(graph))[k]).2;
                    w is WaitAtStation || w is Alight || w is WaitInTrain
                },
            ({
                let start = graph_edges(*old(graph)).len() + if result.0@.len() > 0 {
                    result.0@.len() - 1
                } else {
                    0
                };
                let alights = alight_edges(graph_nodes(*old(graph)), result.1@, result.0@, self.transfer_time);
                &&& graph_edges(*final(graph)).len() >= start + alights.len()
                &&& graph_edges(*final(graph)).subrange(start, start + alights.len()) == alights
                &&& waits_listed(self, graph_nodes(*old(graph)), graph_edges(*final(graph)), start + alights.len())
                &&& forall|t: u64, j: int|
                    #[trigger] self.wait_in_train_pair(graph_nodes(*old(graph)), t, j) is Some ==> exists|k: int|
                        start + alights.len() <= k < graph_edges(*final(graph)).len() && Some(graph_edges(*final(graph))[k])
                            == self.wait_in_train_pair(graph_nodes(*old(graph)), t, j)
            }),
            forall|k: int|
                graph_edges(*old(graph)).len() <= k < graph_edges(*final(graph)).len()
                    && (#[trigger] graph_edges(*final(graph))[k]).2 is WaitInTrain
                    ==> graph_nodes(*old(graph))[graph_edges(*final(graph))[k].0 as int].spec_station_id() == Some(self.id),
            forall|k1: int, k2: int|
                graph_edges(*old(graph)).len() <= k1 < k2 < graph_edges(*final(graph)).len()
                    && (#[trigger] graph_edges(*final(graph))[k1]).2 is WaitInTrain
                    && (#[trigger] graph_edges(*final(graph))[k2]).2 is WaitInTrain
                    ==> graph_edges(*final(graph))[k1].0 != graph_edges(*final(graph))[k2].0,
            forall|k: int|
                graph_edges(*old(graph)).len() <= k < graph_edges(*final(graph)).len()
                    && (#[trigger] graph_edges(*final(graph))[k]).2 is Alight ==> {
                    let (a, b, _) = graph_edges(*final(graph))[k];
                    exists|p: int|
                        0 <= p < result.0@.len() && result.0@[p] == b && forall|q: int|
                            0 <= q < p ==> time_of(graph_nodes(*old(graph))[result.0@[q] as int]) < time_of(
                                graph_nodes(*old(graph))[a as int],
                            ) + self.transfer_time
                },
            forall|t: u64, j: int|
                #![trigger self.arrivals@[t]@[j], self.departures@[t]@[j]]
                self.arrivals@.contains_key(t) && self.departures@.contains_key(t) && 0 <= j < self.arrivals@[t]@.len() && j
                    < self.departures@[t]@.len() && time_of(graph_nodes(*old(graph))[self.arrivals@[t]@[j] as int]) <= time_of(
                    graph_nodes(*old(graph))[self.departures@[t]@[j] as int],
                ) ==> exists|k: int|
                    graph_edges(*old(graph)).len() <= k < graph_edges(*final(graph)).len() && graph_edges(*final(graph))[k] == (
                        self.arrivals@[t]@[j],
                        self.departures@[t]@[j],
                        TimetableEdge::WaitInTrain {
                            duration: (time_of(graph_nodes(*old(graph))[self.departures@[t]@[j] as int]) - time_of(
                                graph_nodes(*old(graph))[self.arrivals@[t]@[j] as int],
                            )) as u64,
                        },
                    ),
    {
        let ghost gn = graph_nodes(*graph);
        let ghost e0 = graph_edges(*graph);
        let ghost n0 = e0.len();
        proof {
            assert forall|i: int| 0 <= i < self.transfers@.len() implies #[trigger] self.transfers@[i] < gn.len() by {
                assert(is_transfer_of(gn, self.transfers@[i], self.id));
            }
        }
        // FIRST: order the transfer nodes by time
        let transfers = sort_nodes_by_time(graph, &self.transfers);
        proof {
            assert forall|i: int| 0 <= i < transfers@.len() implies is_transfer_of(gn, #[trigger] transfers@[i], self.id) by {
                let x = transfers@[i];
                assert(transfers@.contains(x));
                vstd::seq_lib::to_multiset_contains(transfers@, x);
                vstd::seq_lib::to_multiset_contains(self.transfers@, x);
                let j = choose|j: int| 0 <= j < self.transfers@.len() && self.transfers@[j] == x;
                assert(is_transfer_of(gn, self.transfers@[j], self.id));
            }
        }
        // SECOND: join consecutive transfer nodes
        let mut i: usize = 0;
        while transfers.len() > 0 && i < transfers.len() - 1
            invariant
                gn == graph_nodes(*graph),
                nodes_ok(gn),
                edges_ok(gn, graph_edges(*graph)),
                graph_edges(*graph).len() == n0 + i,
                graph_edges(*graph).take(n0 as int) == e0,
                transfers@.len() == 0 || i < transfers@.len(),
                transfers@.len() == 0 ==> i == 0,
                sorted_by_time(gn, transfers@),
                forall|j: int| 0 <= j < transfers@.len() ==> is_transfer_of(gn, #[trigger] transfers@[j], self.id),
                forall|j: int|
                    0 <= j < i ==> #[trigger] graph_edges(*graph)[n0 + j] == (
                        transfers@[j],
                        transfers@[j + 1],
                        TimetableEdge::WaitAtStation {
                            duration: (time_of(gn[transfers@[j + 1] as int]) - time_of(gn[transfers@[j] as int])) as u64,
                        },
                    ),
            decreases transfers.len() - i,
        {
            let a = transfers[i];
            let b = transfers[i + 1];
            let ghost i0 = i;
            let ta = node_time(graph, a);
            let tb = node_time(graph, b);
            proof {
                assert(is_transfer_of(gn, a, self.id));
                assert(is_transfer_of(gn, b, self.id));
            }
            let ghost before = graph_edges(*graph);
            graph_add_edge(graph, a, b, TimetableEdge::WaitAtStation { duration: tb - ta });
            proof {
                let after = graph_edges(*graph);
                assert(forall|k: int| 0 <= k < before.len() ==> after[k] == before[k]);
                assert(edges_ok(gn, after));
                assert(after.take(n0 as int) =~= before.take(n0 as int));
            }
            i = i + 1;
        }
        let ghost n1 = graph_edges(*graph).len();
        let ghost e1 = graph_edges(*graph);
        let ghost i_end = i;
        assert(forall|j: int| 0 <= j < i_end ==> (#[trigger] e1[n0 + j]).2 is WaitAtStation);
        // THIRD: every arrival alights to the next reachable transfer node
        let all_arrivals = self.arrival_nodes(Ghost(gn));
        let mut a_i: usize = 0;
        while a_i < all_arrivals.len()
            invariant
                gn == graph_nodes(*graph),
                nodes_ok(gn),
                edges_ok(gn, graph_edges(*graph)),
                graph_edges(*graph).len() >= n1,
                graph_edges(*graph).take(n1 as int) == e1,
                forall|n: usize| all_arrivals@.contains(n) <==> self.has_arrival(n),
                self.nodes_recorded(gn),
                self.transfer_times_fit(gn),
                forall|j: int| 0 <= j < transfers@.len() ==> is_transfer_of(gn, #[trigger] transfers@[j], self.id),
                forall|k: int|
                    n1 <= k < graph_edges(*graph).len() ==> {
                        let (a, b, w) = #[trigger] graph_edges(*graph)[k];
                        &&& w is Alight
                        &&& exists|p: int|
                            0 <= p < transfers@.len() && transfers@[p] == b && forall|q: int|
                                0 <= q < p ==> time_of(gn[transfers@[q] as int]) < time_of(gn[a as int]) + self.transfer_time
                    },
                a_i <= all_arrivals@.len(),
                graph_edges(*graph).subrange(n1 as int, graph_edges(*graph).len() as int) == alight_edges(
                    gn,
                    all_arrivals@.take(a_i as int),
                    transfers@,
                    self.transfer_time,
                ),
            decreases all_arrivals.len() - a_i,
        {
            let arrival = all_arrivals[a_i];
            proof {
                assert(all_arrivals@.contains(arrival));
                assert(self.has_arrival(arrival));
                let (t, k2) = choose|t: u64, k2: int| self.arrivals@.contains_key(t) && 0 <= k2 < self.arrivals@[t]@.len() && #[trigger] self.arrivals@[t]@[k2] == arrival;
                assert(is_arrival_of(gn, self.arrivals@[t]@[k2], self.id, t));
                assert(time_of(gn[self.arrivals@[t]@[k2] as int]) + self.transfer_time <= u64::MAX);
            }
            let arrival_time = node_time(graph, arrival);
            let earliest_transfer_time = arrival_time + self.transfer_time;
            let mut p: usize = 0;
            let mut found = false;
            let ghost prefix = all_arrivals@.take(a_i as int);
            let ghost next = all_arrivals@.take(a_i + 1);
            proof {
                assert(next.drop_last() == prefix);
                assert(next.last() == arrival);
                assert(transfers@.skip(0) == transfers@);
            }
            while p < transfers.len() && !found
                invariant
                    p <= transfers.len(),
                    gn == graph_nodes(*graph),
                    forall|j: int| 0 <= j < transfers@.len() ==> is_transfer_of(gn, #[trigger] transfers@[j], self.id),
                    forall|q: int| 0 <= q < p ==> time_of(gn[transfers@[q] as int]) < earliest_transfer_time,
                    found ==> p < transfers.len() && earliest_transfer_time <= time_of(gn[transfers@[p as int] as int]),
                    first_reached(gn, transfers@, earliest_transfer_time as int) == if found {
                        Some(transfers@[p as int])
                    } else {
                        first_reached(gn, transfers@.skip(p as int), earliest_transfer_time as int)
                    },
                decreases transfers.len() - p, if found { 0int } else { 1int },
            {
                let transfer = transfers[p];
                proof {
                    assert(is_transfer_of(gn, transfer, self.id));
                    let rest = transfers@.skip(p as int);
                    assert(rest[0] == transfer);
                    assert(rest.drop_first() == transfers@.skip(p + 1));
                    assert(time_of(gn[transfer as int]) == time_of(gn[transfers@[p as int] as int]));
                }
                if earliest_transfer_time <= node_time(graph, transfer) {
                    found = true;
                } else {
                    p = p + 1;
                }
            }
            if found {
                // connect the earliest reachable transfer node
                let transfer = transfers[p];
                let ghost before = graph_edges(*graph);
                proof {
                    assert(is_transfer_of(gn, transfer, self.id));
                }
                graph_add_edge(graph, arrival, transfer, TimetableEdge::Alight { duration: self.transfer_time });
                proof {
                    let after = graph_edges(*graph);
                    assert(forall|k: int| 0 <= k < before.len() ==> after[k] == before[k]);
                    let (t, k2) = choose|t: u64, k2: int| self.arrivals@.contains_key(t) && 0 <= k2 < self.arrivals@[t]@.len() && #[trigger] self.arrivals@[t]@[k2] == arrival;
                    assert(is_arrival_of(gn, self.arrivals@[t]@[k2], self.id, t));
                    assert(edge_ok(gn, after[before.len() as int]));
                    assert(edges_ok(gn, after));
                    assert(after.take(n1 as int) =~= before.take(n1 as int));
                    assert(transfers@[p as int] == transfer);
                    assert(after.subrange(n1 as int, after.len() as int) =~= before.subrange(n1 as int, before.len() as int).push(
                        after[before.len() as int],
                    ));
                    assert(after.subrange(n1 as int, after.len() as int) == alight_edges(gn, next, transfers@, self.transfer_time));
                }
            } else {
                proof {
                    assert(transfers@.skip(p as int).len() == 0);
                    assert(alight_edges(gn, next, transfers@, self.transfer_time) == alight_edges(gn, prefix, transfers@, self.transfer_time));
                }
            }
            a_i = a_i + 1;
        }
        let ghost n2 = graph_edges(*graph).len();
        let ghost e2 = graph_edges(*graph);
        assert(forall|k: int| n1 <= k < n2 ==> (#[trigger] e2[k]).2 is Alight);
        proof {
            assert(all_arrivals@.take(all_arrivals@.len() as int) == all_arrivals@);
        }
        let ghost alights = alight_edges(gn, all_arrivals@, transfers@, self.transfer_time);
        assert(e2.subrange(n1 as int, n2 as int) == alights);
        // FOURTH: the i-th arrival of a trip waits in the train for the i-th departure of the trip
        self.add_waits_in_train(graph);
        proof {
            let ef = graph_edges(*graph);
            assert(n1 == n0 + if transfers@.len() > 0 { transfers@.len() - 1 } else { 0 });
            assert(ef.subrange(n1 as int, n2 as int) =~= e2.subrange(n1 as int, n2 as int)) by {
                assert forall|k: int| 0 <= k < n2 - n1 implies #[trigger] ef.subrange(n1 as int, n2 as int)[k]
                    == e2.subrange(n1 as int, n2 as int)[k] by {
                    assert(ef.take(n2 as int)[n1 + k] == ef[n1 + k]);
                }
            }
            assert(alights.len() == n2 - n1);
            assert forall|k: int| n0 <= k < ef.len() implies {
                let w = (#[trigger] ef[k]).2;
                w is WaitAtStation || w is Alight || w is WaitInTrain
            } by {
                if k < n1 {
                    assert(ef.take(n2 as int)[k] == ef[k]);
                    assert(e2.take(n1 as int)[k] == e2[k]);
                    assert(e1[n0 + (k - n0)] == e1[k]);
                } else if k < n2 {
                    assert(ef.take(n2 as int)[k] == ef[k]);
                }
            }
            assert forall|k1: int, k2: int|
                n0 <= k1 < k2 < ef.len() && (#[trigger] ef[k1]).2 is WaitInTrain && (#[trigger] ef[k2]).2 is WaitInTrain
                    implies ef[k1].0 != ef[k2].0 by {
                if k1 < n2 {
                    assert(ef.take(n2 as int)[k1] == ef[k1]);
                    if k1 < n1 {
                        assert(e2.take(n1 as int)[k1] == e2[k1]);
                        assert(e1[n0 + (k1 - n0)] == e1[k1]);
                    }
                }
                if k2 < n2 {
                    assert(ef.take(n2 as int)[k2] == ef[k2]);
                    if k2 < n1 {
                        assert(e2.take(n1 as int)[k2] == e2[k2]);
                        assert(e1[n0 + (k2 - n0)] == e1[k2]);
                    }
                }
            }
            assert forall|k: int| n0 <= k < ef.len() && (#[trigger] ef[k]).2 is WaitInTrain
                implies gn[ef[k].0 as int].spec_station_id() == Some(self.id) by {
                if k < n2 {
                    assert(ef.take(n2 as int)[k] == ef[k]);
                    if k < n1 {
                        assert(e2.take(n1 as int)[k] == e2[k]);
                        assert(e1[n0 + (k - n0)] == e1[k]);
                    }
                }
            }
            assert(ef.take(n0 as int) =~= ef.take(n2 as int).take(n0 as int));
            assert(ef.take(n2 as int).take(n1 as int) =~= ef.take(n1 as int));
            assert forall|k: int| graph_edges(*old(graph)).len() <= k < ef.len() && (#[trigger] ef[k]).2 is Alight implies {
                let (a, b, _) = ef[k];
                exists|p: int|
                    0 <= p < transfers@.len() && transfers@[p] == b && forall|q: int|
                        0 <= q < p ==> time_of(gn[transfers@[q] as int]) < time_of(gn[a as int]) + self.transfer_time
            } by {
                if k < n1 {
                    assert(ef[k] == e1[k]);
                    assert(e1[n0 + (k - n0)] == e1[k]);
                } else if k < n2 {
                    assert(ef[k] == e2[k]);
                }
            }
            assert forall|i: int| 0 <= i < transfers@.len() - 1 implies #[trigger] ef[n0 + i] == (
                transfers@[i],
                transfers@[i + 1],
                TimetableEdge::WaitAtStation { duration: (time_of(gn[transfers@[i + 1] as int]) - time_of(gn[transfers@[i] as int])) as u64 },
            ) by {
                assert(ef[n0 + i] == e2[n0 + i]);
                assert(e2[n0 + i] == e1[n0 + i]);
            }
            assert forall|t: u64, j: int|
                #![trigger self.arrivals@[t]@[j], self.departures@[t]@[j]]
                self.arrivals@.contains_key(t) && self.departures@.contains_key(t) && 0 <= j < self.arrivals@[t]@.len() && j
                    < self.departures@[t]@.len() && time_of(gn[self.arrivals@[t]@[j] as int]) <= time_of(
                    gn[self.departures@[t]@[j] as int],
                ) implies exists|k: int|
                    n0 <= k < ef.len() && ef[k] == (
                        self.arrivals@[t]@[j],
                        self.departures@[t]@[j],
                        TimetableEdge::WaitInTrain {
                            duration: (time_of(gn[self.departures@[t]@[j] as int]) - time_of(gn[self.arrivals@[t]@[j] as int])) as u64,
                        },
                    ) by {
                lemma_wait_in_train_when_not_later(self, gn, t, j);
                assert(self.wait_in_train_pair(gn, t, j) is Some);
                let k = choose|k: int| n2 <= k < ef.len() && Some(ef[k]) == self.wait_in_train_pair(gn, t, j);
                assert(n0 <= k);
            }
        }
        (transfers, all_arrivals)
    }
}

/// A trip can be stayed on at a station it arrives at no later than it departs from
/// there again: for its `j`-th arrival and `j`-th departure at the station, with the
/// departure at the arrival's time or later (equal times included), the station's
/// wait-in-train edge joins the arrival to the departure, with the dwell time as its
/// duration.
pub proof fn lemma_wait_in_train_when_not_later(station: Station, nodes: Seq<TimetableNode>, t: u64, j: int)
    requires
        station.arrivals@.contains_key(t),
        station.departures@.contains_key(t),
        0 <= j < station.arrivals@[t]@.len(),
        j < station.departures@[t]@.len(),
        time_of(nodes[station.arrivals@[t]@[j] as int]) <= time_of(nodes[station.departures@[t]@[j] as int]),
    ensures
        station.wait_in_train_pair(nodes, t, j) == Some(
            (
                station.arrivals@[t]@[j],
                station.departures@[t]@[j],
                TimetableEdge::WaitInTrain {
                    duration: (time_of(nodes[station.departures@[t]@[j] as int]) - time_of(
                        nodes[station.arrivals@[t]@[j] as int],
                    )) as u64,
                },
            ),
        ),
{
}

/// Recording the arrival `node` of trip `trip` adds exactly that node to the
/// station's arrivals.
pub proof fn lemma_has_arrival_push(before: Station, after: Station, trip: u64, node: usize)
    requires
        after.arrivals@.dom() == before.arrivals@.dom().insert(trip),
        forall|t: u64| t != trip && #[trigger] before.arrivals@.contains_key(t) ==> after.arrivals@[t] == before.arrivals@[t],
        after.arrivals@[trip]@ == if before.arrivals@.contains_key(trip) {
            before.arrivals@[trip]@.push(node)
        } else {
            seq![node]
        },
    ensures
        forall|x: usize| #[trigger] after.has_arrival(x) <==> (before.has_arrival(x) || x == node),
{
    assert forall|x: usize| #[trigger] after.has_arrival(x) <==> (before.has_arrival(x) || x == node) by {
        if after.has_arrival(x) {
            let (t, i) = choose|t: u64, i: int|
                after.arrivals@.contains_key(t) && 0 <= i < after.arrivals@[t]@.len() && #[trigger] after.arrivals@[t]@[i] == x;
            if t != trip {
                assert(before.arrivals@[t]@[i] == x);
            } else if before.arrivals@.contains_key(trip) && i < before.arrivals@[trip]@.len() {
                assert(before.arrivals@[trip]@[i] == x);
            }
        }
        if before.has_arrival(x) {
            let (t, i) = choose|t: u64, i: int|
                before.arrivals@.contains_key(t) && 0 <= i < before.arrivals@[t]@.len() && #[trigger] before.arrivals@[t]@[i] == x;
            if t != trip {
                assert(after.arrivals@[t]@[i] == x);
            } else {
                assert(after.arrivals@[trip]@[i] == x);
            }
        }
        if x == node {
            let last: int = after.arrivals@[trip]@.len() - 1;
            assert(after.arrivals@[trip]@[last] == x);
        }
    }
}

/// Every station of the map is stored under its id, and its recorded nodes are
/// nodes of the graph.
pub open spec fn stations_ok(stations: Map<u64, Station>, nodes: Seq<TimetableNode>) -> bool {
    forall|k: u64|
        #[trigger] stations.contains_key(k) ==> {
            &&& stations[k].id == k
            &&& stations[k].nodes_recorded(nodes)
        }
}

/// the arrival times of every station of the map leave room for its transfer time
pub open spec fn stations_times_fit(stations: Map<u64, Station>, nodes: Seq<TimetableNode>) -> bool {
    forall|k: u64| #[trigger] stations.contains_key(k) ==> stations[k].transfer_times_fit(nodes)
}

/// Appending nodes keeps the stations' records valid.
pub proof fn lemma_stations_ok_extend(stations: Map<u64, Station>, nodes: Seq<TimetableNode>, more: Seq<TimetableNode>)
    requires
        stations_ok(stations, nodes),
    ensures
        stations_ok(stations, nodes + more),
{
    assert forall|k: u64| #[trigger] stations.contains_key(k) implies {
        &&& stations[k].id == k
        &&& stations[k].nodes_recorded(nodes + more)
    } by {
        stations[k].lemma_nodes_recorded_extend(nodes, more);
    }
}

/// Appending nodes keeps the stations' arrival times fitting.
pub proof fn lemma_stations_times_fit_extend(stations: Map<u64, Station>, nodes: Seq<TimetableNode>, more: Seq<TimetableNode>)
    requires
        stations_ok(stations, nodes),
        stations_times_fit(stations, nodes),
    ensures
        stations_times_fit(stations, nodes + more),
{
    assert forall|k: u64| #[trigger] stations.contains_key(k) implies stations[k].transfer_times_fit(nodes + more) by {
        assert forall|t: u64, i: int|
            stations[k].arrivals@.contains_key(t) && 0 <= i < stations[k].arrivals@[t]@.len()
                implies time_of((nodes + more)[#[trigger] stations[k].arrivals@[t]@[i] as int]) + stations[k].transfer_time <= u64::MAX by {
            assert(is_arrival_of(nodes, stations[k].arrivals@[t]@[i], k, t));
            assert((nodes + more)[stations[k].arrivals@[t]@[i] as int] == nodes[stations[k].arrivals@[t]@[i] as int]);
        }
    }
}

} // verus!
