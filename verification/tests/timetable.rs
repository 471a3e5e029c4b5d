use std::collections::HashMap;

use mcf_timetable::footpath::Footpath;
use mcf_timetable::graph_weight::{TimetableEdge, TimetableNode};
use mcf_timetable::model::{Model, Node};
use mcf_timetable::station::Station;
use mcf_timetable::trip::Trip;
use petgraph::graph::{EdgeIndex, NodeIndex};
use petgraph::visit::EdgeRef;
use petgraph::Direction;

fn small_model() -> Model {
    let mut stations = HashMap::new();
    stations.insert(1, Station::new(1, 2, "A".to_string()));
    stations.insert(2, Station::new(2, 3, "B".to_string()));
    stations.insert(3, Station::new(3, 1, "C".to_string()));
    let trips = vec![
        Trip { id: 10, from_station: 1, departure: 10, to_station: 2, arrival: 20, capacity: 5 },
        Trip { id: 10, from_station: 2, departure: 25, to_station: 3, arrival: 40, capacity: 5 },
        Trip { id: 11, from_station: 1, departure: 12, to_station: 3, arrival: 50, capacity: 100 },
        Trip { id: 12, from_station: 3, departure: 60, to_station: 1, arrival: 70, capacity: 100 },
    ];
    let footpaths = vec![
        Footpath { from_station: 2, to_station: 3, duration: 30 },
        Footpath { from_station: 1, to_station: 2, duration: 1 },
    ];
    Model::from_timetable(stations, trips, footpaths)
}

fn node(model: &Model, i: usize) -> &TimetableNode {
    model.graph.node_weight(NodeIndex::new(i)).unwrap()
}

fn edge(model: &Model, e: usize) -> &TimetableEdge {
    model.graph.edge_weight(EdgeIndex::new(e)).unwrap()
}

#[test]
fn node_accessors() {
    let departure = TimetableNode::Departure { trip_id: 7, time: 30, station_id: 4, station_name: "X".to_string() };
    assert_eq!(departure.time(), Some(30));
    assert_eq!(departure.station_id(), Some(4));
    assert_eq!(departure.station_name(), "X".to_string());
    assert_eq!(departure.trip_id(), Some(7));
    assert!(departure.is_departure());
    assert!(!departure.is_arrival());
    assert_eq!(departure.kind_as_str(), "Departure");

    let arrival = TimetableNode::Arrival { trip_id: 7, time: 40, station_id: 5, station_name: "Y".to_string() };
    assert!(arrival.is_arrival_at_station(5));
    assert!(!arrival.is_arrival_at_station(4));
    assert!(!departure.is_arrival_at_station(4));
    assert_eq!(arrival.kind_as_str(), "Arrival");

    let transfer = TimetableNode::Transfer { time: 3, station_id: 5, station_name: "Y".to_string() };
    assert!(transfer.is_transfer());
    assert_eq!(transfer.trip_id(), None);
    assert_eq!(transfer.kind_as_str(), "Transfer");

    let main = TimetableNode::MainArrival { station_id: 9, station_name: "Z".to_string() };
    assert!(main.is_main_arrival());
    assert_eq!(main.time(), None);
    assert_eq!(main.station_id(), Some(9));
    assert_eq!(main.kind_as_str(), "MainArrival");
}

#[test]
fn edge_costs_and_kinds() {
    assert_eq!(TimetableEdge::Trip { duration: 5, capacity: 3, utilization: 0 }.travel_cost(), 2);
    assert_eq!(TimetableEdge::WaitInTrain { duration: 1 }.travel_cost(), 1);
    assert_eq!(TimetableEdge::Alight { duration: 1 }.travel_cost(), 4);
    assert_eq!(TimetableEdge::WaitAtStation { duration: 1 }.travel_cost(), 3);
    assert_eq!(TimetableEdge::Walk { duration: 1 }.travel_cost(), 10);
    assert_eq!(TimetableEdge::Board.travel_cost(), 5);
    assert_eq!(TimetableEdge::MainArrivalRelation.travel_cost(), 0);

    assert!(TimetableEdge::Trip { duration: 5, capacity: 3, utilization: 0 }.is_trip());
    assert!(TimetableEdge::WaitInTrain { duration: 1 }.is_wait_in_train());
    assert!(TimetableEdge::Walk { duration: 1 }.is_walk());
    assert!(TimetableEdge::Alight { duration: 1 }.is_alight());
    assert!(TimetableEdge::WaitAtStation { duration: 1 }.is_wait_at_station());
    assert!(TimetableEdge::Board.is_board());
    assert!(TimetableEdge::MainArrivalRelation.is_main_arrival_relation());
    assert_eq!(TimetableEdge::Walk { duration: 7 }.kind_as_str(), "Walk");
    assert_eq!(TimetableEdge::Board.kind_as_str(), "Board");

    assert_eq!(TimetableEdge::Walk { duration: 7 }.duration(), 7);
    assert_eq!(TimetableEdge::Board.duration(), 0);
    assert_eq!(TimetableEdge::Trip { duration: 5, capacity: 3, utilization: 0 }.capacity(), 3);
    assert_eq!(TimetableEdge::Walk { duration: 7 }.capacity(), u64::MAX);
}

#[test]
fn utilization_cost_is_squared_overload() {
    assert_eq!(TimetableEdge::Trip { duration: 5, capacity: 5, utilization: 8 }.utilization_cost(), 9);
    assert_eq!(TimetableEdge::Trip { duration: 5, capacity: 5, utilization: 5 }.utilization_cost(), 0);
    assert_eq!(TimetableEdge::Trip { duration: 5, capacity: 5, utilization: 4 }.utilization_cost(), 0);
    assert_eq!(TimetableEdge::Walk { duration: 5 }.utilization_cost(), 0);
}

#[test]
fn utilization_round_trip() {
    let mut e = TimetableEdge::Trip { duration: 5, capacity: 5, utilization: 2 };
    e.increase_utilization(7);
    assert_eq!(e.utilization(), 9);
    e.decrease_utilization(7);
    assert_eq!(e, TimetableEdge::Trip { duration: 5, capacity: 5, utilization: 2 });
    let mut w = TimetableEdge::Walk { duration: 3 };
    w.increase_utilization(4);
    assert_eq!(w, TimetableEdge::Walk { duration: 3 });
    assert_eq!(w.utilization(), 0);
}

#[test]
fn plain_nodes() {
    assert_eq!(Node::new_arrival(5), Node::Arrival { time: 5 });
    assert_eq!(Node::new_departure(6), Node::Departure { time: 6 });
}

#[test]
fn timetable_nodes_and_station_lists() {
    let model = small_model();
    // each trip adds a departure, its transfer node and an arrival
    assert_eq!(model.graph.node_count(), 12);
    assert_eq!(model.stations_transfers.len(), 3);
    assert_eq!(model.stations_arrivals.len(), 3);
    // transfer nodes of A, by time
    let transfers_a = &model.stations_transfers[&1];
    assert_eq!(transfers_a.len(), 2);
    assert_eq!(node(&model, transfers_a[0]).time(), Some(10));
    assert_eq!(node(&model, transfers_a[1]).time(), Some(12));
    for (station, transfers) in model.stations_transfers.iter() {
        for t in transfers {
            assert!(node(&model, *t).is_transfer());
            assert_eq!(node(&model, *t).station_id(), Some(*station));
        }
    }
    for (station, arrivals) in model.stations_arrivals.iter() {
        for a in arrivals {
            assert!(node(&model, *a).is_arrival_at_station(*station));
        }
    }
    assert_eq!(model.stations_arrivals[&3].len(), 2);
}

#[test]
fn validate_graph_integrity() {
    let model = small_model();
    let graph = &model.graph;
    for n in graph.node_indices() {
        let a = graph.node_weight(n).unwrap();
        let mut num_wait_in_train = 0;
        let mut num_board = 0;
        let mut num_out = 0;
        for e in graph.edges_directed(n, Direction::Outgoing) {
            num_out += 1;
            let w = e.weight();
            let b = graph.node_weight(e.target()).unwrap();
            match a {
                TimetableNode::Departure { .. } => {
                    assert!(w.is_trip());
                    assert!(b.is_arrival());
                    assert!(a.time() <= b.time());
                    assert_eq!(a.trip_id(), b.trip_id());
                }
                TimetableNode::Arrival { .. } => {
                    assert!(w.is_wait_in_train() || w.is_alight() || w.is_walk());
                    if w.is_wait_in_train() {
                        assert!(b.is_departure());
                        assert_eq!(a.trip_id(), b.trip_id());
                        assert_eq!(a.station_id(), b.station_id());
                        num_wait_in_train += 1;
                    } else {
                        assert!(b.is_transfer());
                    }
                    assert!(a.time() <= b.time());
                }
                TimetableNode::Transfer { .. } => {
                    assert!(w.is_board() || w.is_wait_at_station());
                    if w.is_board() {
                        assert!(b.is_departure());
                        assert_eq!(a.time(), b.time());
                        num_board += 1;
                    } else {
                        assert!(b.is_transfer());
                        assert!(a.time() <= b.time());
                    }
                    assert_eq!(a.station_id(), b.station_id());
                }
                TimetableNode::MainArrival { .. } => panic!("no main arrival nodes are built"),
            }
        }
        match a {
            TimetableNode::Departure { .. } => assert_eq!(num_out, 1),
            TimetableNode::Arrival { .. } => assert!(num_wait_in_train <= 1),
            TimetableNode::Transfer { .. } => assert_eq!(num_board, 1),
            TimetableNode::MainArrival { .. } => {}
        }
    }
}

#[test]
fn timetable_edges_by_kind() {
    let model = small_model();
    let mut kinds: HashMap<&str, usize> = HashMap::new();
    for e in 0..model.graph.edge_count() {
        *kinds.entry(edge(&model, e).kind_as_str()).or_insert(0) += 1;
    }
    assert_eq!(kinds["Trip"], 4);
    assert_eq!(kinds["Board"], 4);
    // trip 10 waits at B
    assert_eq!(kinds["WaitInTrain"], 1);
    // A has two transfer nodes
    assert_eq!(kinds["WaitAtStation"], 1);
    // arrivals at B (20+3) and C (40+1, 50+1) reach no later transfer node there except C's 60;
    // arrival at A (70+2) reaches none
    assert_eq!(kinds["Alight"], 3);
    // footpath B -> C: arrival at B at 20 walks to C's transfer at 60;
    // footpath A -> B: arrival at A at 70 reaches no transfer at B
    assert_eq!(kinds["Walk"], 1);
}
