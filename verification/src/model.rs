//! The combined timetable model: the graph and, for every station, its transfer
//! and arrival nodes (the entry and exit points of route searches).

use vstd::prelude::*;
use std::collections::HashMap;
use vstd::std_specs::iter::IteratorSpec;
use crate::footpath::Footpath;
use crate::graph::{graph_new, graph_nodes, TimetableGraph};
use crate::graph_weight::TimetableNode;
use crate::graph::graph_edges;
use crate::integrity::{
    departures_leave_once, lemma_out_degrees_append, lemma_out_degrees_trip, lemma_waits_in_train_append, nodes_ok,
    out_degrees_ok, time_of, timetable_integrity, transfers_board_once, waits_in_train_leave_once,
};
use crate::station::{is_arrival_of, is_transfer_of, sorted_by_time, stations_ok, stations_times_fit, Station};
use crate::trip::Trip;

verus! {

broadcast use vstd::std_specs::hash::group_hash_axioms;

/// entire combined data model
pub struct Model {
    pub graph: TimetableGraph,
    /// all transfer nodes of each station, ordered by time
    pub stations_transfers: HashMap<u64, Vec<usize>>,
    /// all arrival nodes of each station
    pub stations_arrivals: HashMap<u64, Vec<usize>>,
}

/// node `n` of `nodes` is an arrival at `station` (of any trip)
pub open spec fn is_arrival_at(nodes: Seq<TimetableNode>, n: usize, station: u64) -> bool {
    &&& n < nodes.len()
    &&& nodes[n as int] is Arrival
    &&& nodes[n as int].spec_station_id() == Some(station)
}

/// `node` belongs to a station of `stations` and carries that station's name
pub open spec fn named_after(stations: Map<u64, Station>, node: TimetableNode) -> bool {
    &&& stations.contains_key(node.spec_station_id().unwrap())
    &&& node.spec_station_name() == stations[node.spec_station_id().unwrap()].name
}

/// nodes of the same station carry the same station name
pub open spec fn names_by_station(nodes: Seq<TimetableNode>) -> bool {
    forall|i: int, j: int|
        #![trigger nodes[i].spec_station_name(), nodes[j].spec_station_name()]
        0 <= i < nodes.len() && 0 <= j < nodes.len() && nodes[i].spec_station_id() == nodes[j].spec_station_id()
            ==> nodes[i].spec_station_name() == nodes[j].spec_station_name()
}

/// `node` is the arrival of `trip` at its destination
pub open spec fn arrival_of_trip(trip: Trip, node: TimetableNode) -> bool {
    trip.arrival == time_of(node) && Some(trip.to_station) == node.spec_station_id()
}

/// every arrival node of the graph arrives at the destination of one of `trips`, at its arrival time
pub open spec fn arrivals_from_trips(nodes: Seq<TimetableNode>, trips: Seq<Trip>) -> bool {
    forall|n: int|
        0 <= n < nodes.len() && (#[trigger] nodes[n]) is Arrival ==> exists|j: int|
            0 <= j < trips.len() && #[trigger] arrival_of_trip(trips[j], nodes[n])
}

impl Model {
    /// The graph is a well-formed timetable, and the recorded transfer and arrival
    /// nodes of each station are nodes of that station (the transfer nodes ordered by time).
    pub open spec fn wf(&self) -> bool {
        let nodes = graph_nodes(self.graph);
        &&& timetable_integrity(self.graph)
        &&& names_by_station(nodes)
        &&& forall|s: u64, i: int|
            self.stations_transfers@.contains_key(s) && 0 <= i < self.stations_transfers@[s]@.len()
                ==> is_transfer_of(nodes, #[trigger] self.stations_transfers@[s]@[i], s)
        &&& forall|s: u64| #[trigger] self.stations_transfers@.contains_key(s) ==> sorted_by_time(nodes, self.stations_transfers@[s]@)
        &&& forall|s: u64, i: int|
            self.stations_arrivals@.contains_key(s) && 0 <= i < self.stations_arrivals@[s]@.len()
                ==> is_arrival_at(nodes, #[trigger] self.stations_arrivals@[s]@[i], s)
    }

    /// Builds the timetable graph from its stations (without nodes yet), its trips and
    /// its footpaths: every trip adds a departure (with its transfer node) and an
    /// arrival, every station then connects its own nodes, and every footpath connects
    /// the arrivals at its start station to the transfer nodes of its destination.
    /// In the graph built, every departure has exactly one outgoing edge, every
    /// transfer node exactly one boarding edge, and every arrival at most one
    /// wait-in-train edge.
    pub fn from_timetable(stations: HashMap<u64, Station>, trips: Vec<Trip>, footpaths: Vec<Footpath>) -> (model: Self)
        requires
            forall|k: u64| #[trigger] stations@.contains_key(k) ==> {
                &&& stations@[k].id == k
                &&& stations@[k].arrivals@ == Map::<u64, Vec<usize>>::empty()
                &&& stations@[k].departures@ == Map::<u64, Vec<usize>>::empty()
                &&& stations@[k].transfers@ == Seq::<usize>::empty()
            },
            forall|i: int| 0 <= i < trips@.len() ==> (#[trigger] trips@[i]).fits_stations(stations@),
            forall|i: int|
                0 <= i < trips@.len() ==> (#[trigger] trips@[i]).arrival + stations@[trips@[i].to_station].transfer_time <= u64::MAX,
            forall|i: int| 0 <= i < footpaths@.len() ==> {
                let f = #[trigger] footpaths@[i];
                &&& stations@.contains_key(f.from_station)
                &&& stations@.contains_key(f.to_station)
                &&& forall|j: int| 0 <= j < trips@.len() && (#[trigger] trips@[j]).to_station == f.from_station
                    ==> trips@[j].arrival + f.duration <= u64::MAX
            },
        ensures
            model.wf(),
            out_degrees_ok(model.graph),
            model.stations_transfers@.dom() == stations@.dom(),
            model.stations_arrivals@.dom() == stations@.dom(),
            graph_nodes(model.graph).len() == 3 * trips@.len(),
            forall|k: u64, n: usize|
                #![trigger model.stations_transfers@[k]@.contains(n)]
                model.stations_transfers@.contains_key(k) ==> (model.stations_transfers@[k]@.contains(n) <==> is_transfer_of(
                    graph_nodes(model.graph),
                    n,
                    k,
                )),
            forall|k: u64, n: usize|
                #![trigger model.stations_arrivals@[k]@.contains(n)]
                model.stations_arrivals@.contains_key(k) ==> (model.stations_arrivals@[k]@.contains(n) <==> is_arrival_at(
                    graph_nodes(model.graph),
                    n,
                    k,
                )),
    {
        let mut stations = stations;
        let mut graph = graph_new();
        let ghost st0 = stations@;
        proof {
            assert(stations_ok(stations@, graph_nodes(graph)));
            assert(stations_times_fit(stations@, graph_nodes(graph)));
            assert forall|k: u64, n: usize| stations@.contains_key(k) implies !(#[trigger] stations@[k].has_arrival(n)) by {
                assert(stations@[k].arrivals@ == Map::<u64, Vec<usize>>::empty());
            }
        }
        let mut i: usize = 0;
        while i < trips.len()
            invariant
                i <= trips.len(),
                stations@.dom() == st0.dom(),
                forall|k: u64| #[trigger] stations@.contains_key(k) ==> stations@[k].transfer_time == st0[k].transfer_time,
                forall|j: int| 0 <= j < trips@.len() ==> (#[trigger] trips@[j]).fits_stations(st0),
                forall|j: int|
                    0 <= j < trips@.len() ==> (#[trigger] trips@[j]).arrival + st0[trips@[j].to_station].transfer_time <= u64::MAX,
                stations_ok(stations@, graph_nodes(graph)),
                stations_times_fit(stations@, graph_nodes(graph)),
                forall|k: u64| #[trigger] stations@.contains_key(k) ==> stations@[k].name == st0[k].name,
                forall|n: int| 0 <= n < graph_nodes(graph).len() ==> named_after(st0, #[trigger] graph_nodes(graph)[n]),
                timetable_integrity(graph),
                arrivals_from_trips(graph_nodes(graph), trips@.take(i as int)),
                departures_leave_once(graph_nodes(graph), graph_edges(graph)),
                transfers_board_once(graph_nodes(graph), graph_edges(graph)),
                forall|k: int| 0 <= k < graph_edges(graph).len() ==> (#[trigger] graph_edges(graph)[k]).2 is Board || graph_edges(graph)[k].2 is Trip,
                graph_nodes(graph).len() == 3 * i,
                forall|k: u64, n: usize|
                    #![trigger stations@[k].transfers@.contains(n)]
                    #![trigger stations@.contains_key(k), is_transfer_of(graph_nodes(graph), n, k)]
                    stations@.contains_key(k) ==> (stations@[k].transfers@.contains(n) <==> is_transfer_of(graph_nodes(graph), n, k)),
                forall|k: u64, n: usize|
                    #![trigger stations@[k].has_arrival(n)]
                    #![trigger stations@.contains_key(k), is_arrival_at(graph_nodes(graph), n, k)]
                    stations@.contains_key(k) ==> (stations@[k].has_arrival(n) <==> is_arrival_at(graph_nodes(graph), n, k)),
            decreases trips.len() - i,
        {
            let trip = trips[i];
            let ghost n0 = graph_nodes(graph);
            let ghost e0 = graph_edges(graph);
            let ghost sb = stations@;
            proof {
                assert(trips@[i as int].fits_stations(st0));
                assert(trips@[i as int].arrival + st0[trips@[i as int].to_station].transfer_time <= u64::MAX);
            }
            trip.connect(&mut graph, &mut stations);
            proof {
                let n1 = graph_nodes(graph);
                let nn = n0.len();
                assert forall|x: int| 0 <= x < nn implies n1[x] == n0[x] by {
                    assert(n1.take(nn as int)[x] == n1[x]);
                }
                assert forall|x: int| 0 <= x < n1.len() implies named_after(st0, #[trigger] n1[x]) by {
                    if x < nn {
                        assert(n1[x] == n0[x]);
                    }
                }
                assert forall|k: u64, x: usize| stations@.contains_key(k) implies (#[trigger] stations@[k].transfers@.contains(x)
                    <==> is_transfer_of(n1, x, k)) by {
                    assert(sb.contains_key(k));
                    assert(sb[k].transfers@.contains(x) <==> is_transfer_of(n0, x, k));
                    if k == trip.from_station {
                        let after = stations@[k].transfers@;
                        assert(after == sb[k].transfers@.push((nn + 1) as usize));
                        if after.contains(x) {
                            let q = choose|q: int| 0 <= q < after.len() && after[q] == x;
                            if q < after.len() - 1 {
                                assert(sb[k].transfers@[q] == x);
                                assert(sb[k].transfers@.contains(x));
                            }
                        }
                        if sb[k].transfers@.contains(x) {
                            let q = choose|q: int| 0 <= q < sb[k].transfers@.len() && sb[k].transfers@[q] == x;
                            assert(after[q] == x);
                        }
                        if x == nn + 1 {
                            assert(after[after.len() - 1] == x);
                        }
                    } else if k == trip.to_station {
                        assert(stations@[k].transfers@ == sb[k].transfers@);
                    } else {
                        assert(stations@[k] == sb[k]);
                    }
                    if x < nn {
                        assert(n1[x as int] == n0[x as int]);
                    }
                }
                assert forall|k: u64, x: usize| stations@.contains_key(k) implies (#[trigger] stations@[k].has_arrival(x)
                    <==> is_arrival_at(n1, x, k)) by {
                    assert(sb.contains_key(k));
                    assert(sb[k].has_arrival(x) <==> is_arrival_at(n0, x, k));
                    if k == trip.to_station {
                        crate::station::lemma_has_arrival_push(sb[k], stations@[k], trip.id, (nn + 2) as usize);
                    } else if k == trip.from_station {
                        assert(stations@[k].arrivals@ == sb[k].arrivals@);
                        assert(stations@[k].has_arrival(x) == sb[k].has_arrival(x));
                    } else {
                        assert(stations@[k] == sb[k]);
                    }
                    if x < nn {
                        assert(n1[x as int] == n0[x as int]);
                    }
                }
                let e1 = graph_edges(graph);
                assert(e1.take(e0.len() as int) =~= e0);
                lemma_out_degrees_trip(n0, e0, n1, e1);
                assert forall|k: int| 0 <= k < e1.len() implies (#[trigger] e1[k]).2 is Board || e1[k].2 is Trip by {
                    if k < e0.len() {
                        assert(e1[k] == e0[k]);
                    }
                }
                assert forall|n: int|
                    0 <= n < n1.len() && (#[trigger] n1[n]) is Arrival implies exists|j: int|
                        0 <= j < trips@.take(i + 1).len() && #[trigger] arrival_of_trip(trips@.take(i + 1)[j], n1[n]) by {
                    if n < n0.len() {
                        assert(n1[n] == n0[n]);
                        let j = choose|j: int|
                            0 <= j < trips@.take(i as int).len() && #[trigger] arrival_of_trip(trips@.take(i as int)[j], n0[n]);
                        assert(trips@.take(i + 1)[j] == trips@.take(i as int)[j]);
                        assert(arrival_of_trip(trips@.take(i + 1)[j], n1[n]));
                    } else {
                        assert(trips@.take(i + 1)[i as int] == trip);
                        assert(arrival_of_trip(trips@.take(i + 1)[i as int], n1[n]));
                    }
                }
            }
            i = i + 1;
        }
        proof {
            assert(trips@.take(trips.len() as int) == trips@);
        }
        let ghost nodes = graph_nodes(graph);
        proof {
            assert forall|i: int, j: int|
                #![trigger nodes[i].spec_station_name(), nodes[j].spec_station_name()]
                0 <= i < nodes.len() && 0 <= j < nodes.len() && nodes[i].spec_station_id() == nodes[j].spec_station_id()
                    implies nodes[i].spec_station_name() == nodes[j].spec_station_name() by {
                assert(named_after(st0, nodes[i]));
                assert(named_after(st0, nodes[j]));
            }
        }
        let ghost st1 = stations@;
        // every station connects its own nodes
        let mut station_ids: Vec<u64> = Vec::new();
        let ghost keys = vstd::std_specs::hash::spec_keys_iter(&stations).remaining();
        for station_id in it: stations.keys()
            invariant
                keys == it.seq(),
                station_ids@ == it.seq().take(it.index() as int).unref(),
        {
            station_ids.push(*station_id);
        }
        proof {
            assert(station_ids@ =~= keys.unref());
            assert(keys.unref().to_set() == stations@.dom());
            assert forall|a: int, b: int| 0 <= a < station_ids@.len() && 0 <= b < station_ids@.len() && a != b implies station_ids@[a] != station_ids@[b] by {
                assert(keys[a] != keys[b]);
            }
        }
        let mut stations_transfers: HashMap<u64, Vec<usize>> = HashMap::with_capacity(station_ids.len());
        let mut stations_arrivals: HashMap<u64, Vec<usize>> = HashMap::with_capacity(station_ids.len());
        let mut s: usize = 0;
        while s < station_ids.len()
            invariant
                s <= station_ids.len(),
                station_ids@.to_set() == st1.dom(),
                station_ids@.no_duplicates(),
                graph_nodes(graph) == nodes,
                timetable_integrity(graph),
                arrivals_from_trips(nodes, trips@),
                departures_leave_once(nodes, graph_edges(graph)),
                transfers_board_once(nodes, graph_edges(graph)),
                waits_in_train_leave_once(graph_edges(graph)),
                forall|k: int|
                    0 <= k < graph_edges(graph).len() && (#[trigger] graph_edges(graph)[k]).2 is WaitInTrain
                        ==> station_ids@.take(s as int).contains(nodes[graph_edges(graph)[k].0 as int].spec_station_id().unwrap()),
                forall|k: u64| #[trigger] stations@.contains_key(k) <==> st1.contains_key(k) && !station_ids@.take(s as int).contains(k),
                forall|k: u64| #[trigger] stations@.contains_key(k) ==> stations@[k] == st1[k],
                stations_ok(st1, nodes),
                stations_times_fit(st1, nodes),
                nodes.len() == 3 * trips@.len(),
                forall|k: u64, n: usize|
                    #![trigger st1[k].transfers@.contains(n)]
                    st1.contains_key(k) ==> (st1[k].transfers@.contains(n) <==> is_transfer_of(nodes, n, k)),
                forall|k: u64, n: usize|
                    #![trigger st1[k].has_arrival(n)]
                    st1.contains_key(k) ==> (st1[k].has_arrival(n) <==> is_arrival_at(nodes, n, k)),
                forall|k: u64, n: usize|
                    #![trigger stations_transfers@[k]@.contains(n)]
                    stations_transfers@.contains_key(k) ==> (stations_transfers@[k]@.contains(n) <==> is_transfer_of(nodes, n, k)),
                forall|k: u64, n: usize|
                    #![trigger stations_arrivals@[k]@.contains(n)]
                    stations_arrivals@.contains_key(k) ==> (stations_arrivals@[k]@.contains(n) <==> is_arrival_at(nodes, n, k)),
                stations_transfers@.dom() == station_ids@.take(s as int).to_set(),
                stations_arrivals@.dom() == station_ids@.take(s as int).to_set(),
                forall|k: u64, j: int|
                    stations_transfers@.contains_key(k) && 0 <= j < stations_transfers@[k]@.len()
                        ==> is_transfer_of(nodes, #[trigger] stations_transfers@[k]@[j], k),
                forall|k: u64| #[trigger] stations_transfers@.contains_key(k) ==> sorted_by_time(nodes, stations_transfers@[k]@),
                forall|k: u64, j: int|
                    stations_arrivals@.contains_key(k) && 0 <= j < stations_arrivals@[k]@.len()
                        ==> is_arrival_at(nodes, #[trigger] stations_arrivals@[k]@[j], k),
            decreases station_ids.len() - s,
        {
            let station_id = station_ids[s];
            proof {
                assert(station_ids@.contains(station_id));
                assert(!station_ids@.take(s as int).contains(station_id)) by {
                    if station_ids@.take(s as int).contains(station_id) {
                        let q = choose|q: int| 0 <= q < s && station_ids@.take(s as int)[q] == station_id;
                        assert(station_ids@[q] == station_ids@[s as int]);
                    }
                }
                assert(station_ids@.take(s + 1) == station_ids@.take(s as int).push(station_id));
                crate::path::lemma_push_to_set(station_ids@.take(s as int), station_id);
                assert forall|k: u64| station_ids@.take(s + 1).contains(k) <==> (station_ids@.take(s as int).contains(k) || k == station_id) by {
                    assert(station_ids@.take(s + 1).to_set().contains(k) == station_ids@.take(s + 1).contains(k));
                }
            }
            match stations.remove(&station_id) {
                Some(station) => {
                    proof {
                        assert(st1.contains_key(station_id));
                        assert(station == st1[station_id]);
                        assert(station.id == station_id);
                    }
                    let ghost e_before = graph_edges(graph);
                    let (transfers, arrivals) = station.connect(&mut graph);
                    proof {
                        let e_after = graph_edges(graph);
                        let m = e_before.len() as int;
                        assert forall|k: int| 0 <= k < m implies #[trigger] e_after[k] == e_before[k] by {
                            assert(e_after.take(m)[k] == e_after[k]);
                        }
                        lemma_out_degrees_append(nodes, e_before, e_after);
                        assert forall|k1: int, k2: int|
                            0 <= k1 < k2 < e_after.len() && (#[trigger] e_after[k1]).2 is WaitInTrain && (#[trigger] e_after[k2]).2 is WaitInTrain
                                implies e_after[k1].0 != e_after[k2].0 by {
                            if k2 < m {
                                assert(e_after[k1] == e_before[k1]);
                                assert(e_after[k2] == e_before[k2]);
                            } else if k1 < m {
                                assert(e_after[k1] == e_before[k1]);
                                assert(station_ids@.take(s as int).contains(nodes[e_before[k1].0 as int].spec_station_id().unwrap()));
                            }
                        }
                        assert forall|k: int|
                            0 <= k < e_after.len() && (#[trigger] e_after[k]).2 is WaitInTrain
                                implies station_ids@.take(s + 1).contains(nodes[e_after[k].0 as int].spec_station_id().unwrap()) by {
                            if k < m {
                                assert(e_after[k] == e_before[k]);
                                assert(station_ids@.take(s as int).contains(nodes[e_before[k].0 as int].spec_station_id().unwrap()));
                            }
                        }
                        assert forall|j: int| 0 <= j < transfers@.len() implies is_transfer_of(nodes, #[trigger] transfers@[j], station_id) by {
                            let x = transfers@[j];
                            assert(transfers@.contains(x));
                            vstd::seq_lib::to_multiset_contains(transfers@, x);
                            vstd::seq_lib::to_multiset_contains(station.transfers@, x);
                            let q = choose|q: int| 0 <= q < station.transfers@.len() && station.transfers@[q] == x;
                            assert(is_transfer_of(nodes, station.transfers@[q], station_id));
                        }
                        assert forall|j: int| 0 <= j < arrivals@.len() implies is_arrival_at(nodes, #[trigger] arrivals@[j], station_id) by {
                            let x = arrivals@[j];
                            assert(arrivals@.contains(x));
                            assert(station.has_arrival(x));
                            let (t, k2) = choose|t: u64, k2: int| station.arrivals@.contains_key(t) && 0 <= k2 < station.arrivals@[t]@.len() && #[trigger] station.arrivals@[t]@[k2] == x;
                            assert(is_arrival_of(nodes, station.arrivals@[t]@[k2], station_id, t));
                        }
                    }
                    proof {
                        assert forall|x: usize| #[trigger] transfers@.contains(x) <==> is_transfer_of(nodes, x, station_id) by {
                            vstd::seq_lib::to_multiset_contains(transfers@, x);
                            vstd::seq_lib::to_multiset_contains(station.transfers@, x);
                            assert(station.transfers@.contains(x) <==> is_transfer_of(nodes, x, station_id));
                        }
                        assert forall|x: usize| #[trigger] arrivals@.contains(x) <==> is_arrival_at(nodes, x, station_id) by {
                            assert(station.has_arrival(x) <==> is_arrival_at(nodes, x, station_id));
                        }
                    }
                    stations_transfers.insert(station_id, transfers);
                    stations_arrivals.insert(station_id, arrivals);
                },
                None => {
                    proof {
                        assert(false);
                    }
                },
            }
            s = s + 1;
        }
        proof {
            assert(station_ids@.take(station_ids.len() as int) == station_ids@);
        }
        // footpaths connect arrivals with transfer nodes of other stations
        let mut f: usize = 0;
        while f < footpaths.len()
            invariant
                f <= footpaths.len(),
                graph_nodes(graph) == nodes,
                timetable_integrity(graph),
                arrivals_from_trips(nodes, trips@),
                stations_transfers@.dom() == st1.dom(),
                stations_arrivals@.dom() == st1.dom(),
                st1.dom() == st0.dom(),
                departures_leave_once(nodes, graph_edges(graph)),
                transfers_board_once(nodes, graph_edges(graph)),
                waits_in_train_leave_once(graph_edges(graph)),
                forall|i: int| 0 <= i < footpaths@.len() ==> {
                    let fp = #[trigger] footpaths@[i];
                    &&& st0.contains_key(fp.from_station)
                    &&& st0.contains_key(fp.to_station)
                    &&& forall|j: int| 0 <= j < trips@.len() && (#[trigger] trips@[j]).to_station == fp.from_station
                        ==> trips@[j].arrival + fp.duration <= u64::MAX
                },
                forall|k: u64, j: int|
                    stations_transfers@.contains_key(k) && 0 <= j < stations_transfers@[k]@.len()
                        ==> is_transfer_of(nodes, #[trigger] stations_transfers@[k]@[j], k),
                forall|k: u64| #[trigger] stations_transfers@.contains_key(k) ==> sorted_by_time(nodes, stations_transfers@[k]@),
                forall|k: u64, j: int|
                    stations_arrivals@.contains_key(k) && 0 <= j < stations_arrivals@[k]@.len()
                        ==> is_arrival_at(nodes, #[trigger] stations_arrivals@[k]@[j], k),
                nodes.len() == 3 * trips@.len(),
                forall|k: u64, n: usize|
                    #![trigger stations_transfers@[k]@.contains(n)]
                    stations_transfers@.contains_key(k) ==> (stations_transfers@[k]@.contains(n) <==> is_transfer_of(nodes, n, k)),
                forall|k: u64, n: usize|
                    #![trigger stations_arrivals@[k]@.contains(n)]
                    stations_arrivals@.contains_key(k) ==> (stations_arrivals@[k]@.contains(n) <==> is_arrival_at(nodes, n, k)),
            decreases footpaths.len() - f,
        {
            let footpath = footpaths[f];
            proof {
                assert(st0.contains_key(footpath.from_station));
                assert(st0.contains_key(footpath.to_station));
            }
            match stations_arrivals.get(&footpath.from_station) {
                Some(from_station_arrivals) => {
                    match stations_transfers.get(&footpath.to_station) {
                        Some(to_station_transfers) => {
                            proof {
                                assert forall|j: int| 0 <= j < from_station_arrivals@.len() implies {
                                    let a = #[trigger] from_station_arrivals@[j];
                                    &&& a < nodes.len()
                                    &&& nodes[a as int] is Arrival
                                    &&& time_of(nodes[a as int]) + footpath.duration <= u64::MAX
                                } by {
                                    let a = from_station_arrivals@[j];
                                    assert(is_arrival_at(nodes, stations_arrivals@[footpath.from_station]@[j], footpath.from_station));
                                    let t = choose|t: int| 0 <= t < trips@.len() && #[trigger] arrival_of_trip(trips@[t], nodes[a as int]);
                                    assert(trips@[t].to_station == footpath.from_station);
                                }
                                assert forall|j: int| 0 <= j < to_station_transfers@.len() implies {
                                    let b = #[trigger] to_station_transfers@[j];
                                    &&& b < nodes.len()
                                    &&& nodes[b as int] is Transfer
                                } by {
                                    assert(is_transfer_of(nodes, stations_transfers@[footpath.to_station]@[j], footpath.to_station));
                                }
                            }
                            let ghost e_before = graph_edges(graph);
                            footpath.connect(&mut graph, from_station_arrivals, to_station_transfers);
                            proof {
                                let e_after = graph_edges(graph);
                                let walks = crate::footpath::walk_edges(nodes, from_station_arrivals@, to_station_transfers@, footpath.duration);
                                crate::footpath::lemma_walk_edges_are_walks(nodes, from_station_arrivals@, to_station_transfers@, footpath.duration);
                                assert(e_after.take(e_before.len() as int) =~= e_before);
                                assert forall|k: int| e_before.len() <= k < e_after.len() implies (#[trigger] e_after[k]).2 is Walk by {
                                    assert(e_after[k] == walks[k - e_before.len()]);
                                }
                                lemma_out_degrees_append(nodes, e_before, e_after);
                                lemma_waits_in_train_append(e_before, e_after);
                            }
                        },
                        None => {
                            proof {
                                assert(false);
                            }
                        },
                    }
                },
                None => {
                    proof {
                        assert(false);
                    }
                },
            }
            f = f + 1;
        }
        Model { graph, stations_transfers, stations_arrivals }
    }
}

/// A node of a plain timetable graph: a train's arrival or departure at a time, or
/// a station's transfer taking some minutes.
#[derive(Debug, Clone, Copy, PartialEq, Eq, Structural)]
pub enum Node {
    Arrival { time: u64 },
    Departure { time: u64 },
    Transfer { duration: u64 },
}

impl Node {
    /// an arrival at `time`
    pub fn new_arrival(time: u64) -> (node: Self)
        ensures
            node == (Node::Arrival { time }),
    {
        Node::Arrival { time }
    }

    /// a departure at `time`
    pub fn new_departure(time: u64) -> (node: Self)
        ensures
            node == (Node::Departure { time }),
    {
        Node::Departure { time }
    }
}

} // verus!
