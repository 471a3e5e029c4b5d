use std::collections::HashMap;

use mcf_timetable::footpath::Footpath;
use mcf_timetable::graph::TimetableGraph;
use mcf_timetable::graph_weight::{TimetableEdge, TimetableNode};
use mcf_timetable::group::Group;
use mcf_timetable::model::Model;
use mcf_timetable::path::Path;
use mcf_timetable::search::goal_test;
use mcf_timetable::station::Station;
use mcf_timetable::trip::Trip;
use petgraph::graph::{EdgeIndex, NodeIndex};
use petgraph::Direction;

fn small_model() -> Model {
    let mut stations = HashMap::new();
    stations.insert(1, Station::new(1, 2, "A".to_string()));
    stations.insert(2, Station::new(2, 3, "B".to_string()));
    stations.insert(3, Station::new(3, 1, "C".to_string()));
    let trips = vec![
        Trip { id: 10, from_station: 1, departure: 10, to_station: 2, arrival: 20, capacity: 5 },
        Trip { id: 10, from_station: 2, departure: 25, to_station: 3, arrival: 40, capacity: 5 },
        Trip { id: 11, from_station: 1, departure: 12, to_station: 3, arrival: 50, capacity: 100 },
        Trip { id: 12, from_station: 3, departure: 60, to_station: 1, arrival: 70, capacity: 100 },
    ];
    let footpaths = vec![
        Footpath { from_station: 2, to_station: 3, duration: 30 },
        Footpath { from_station: 1, to_station: 2, duration: 1 },
    ];
    Model::from_timetable(stations, trips, footpaths)
}

fn group(passengers: u64) -> Group {
    Group {
        id: 1,
        start_station_id: 1,
        destination_station_id: 3,
        departure_time: 0,
        arrival_time: 45,
        passengers,
        in_trip: None,
        paths: Vec::new(),
    }
}

fn node(model: &Model, i: usize) -> &TimetableNode {
    model.graph.node_weight(NodeIndex::new(i)).unwrap()
}

fn endpoints(model: &Model, e: usize) -> (usize, usize) {
    let (a, b) = model.graph.edge_endpoints(EdgeIndex::new(e)).unwrap();
    (a.index(), b.index())
}

const BUDGETS: [u64; 7] = [30, 35, 40, 45, 50, 55, 60];

#[test]
fn start_node_at_station_or_in_trip() {
    let model = small_model();
    let g = group(3);
    let start = g.find_start_node(&model).unwrap();
    assert!(node(&model, start).is_transfer());
    assert_eq!(node(&model, start).time(), Some(10));

    let mut later = group(3);
    later.departure_time = 11;
    let start = later.find_start_node(&model).unwrap();
    assert_eq!(node(&model, start).time(), Some(12));

    let mut too_late = group(3);
    too_late.departure_time = 13;
    assert_eq!(too_late.find_start_node(&model), None);

    // sitting in trip 10 when it arrives at B at 20
    let mut in_trip = group(3);
    in_trip.start_station_id = 2;
    in_trip.departure_time = 20;
    in_trip.in_trip = Some(10);
    let start = in_trip.find_start_node(&model).unwrap();
    assert!(node(&model, start).is_arrival_at_station(2));
    assert_eq!(node(&model, start).trip_id(), Some(10));

    in_trip.in_trip = Some(11);
    assert_eq!(in_trip.find_start_node(&model), None);
}

#[test]
fn search_paths_finds_sorted_routes() {
    let model = small_model();
    let mut g = group(3);
    g.search_paths(&model, &BUDGETS, 1);
    let costs: Vec<i64> = g.paths.iter().map(|p| p.cost()).collect();
    assert_eq!(costs, vec![5, 13, 32]);
    let travel_costs: Vec<u64> = g.paths.iter().map(|p| p.travel_cost()).collect();
    assert_eq!(travel_costs, vec![10, 18, 17]);
    let durations: Vec<u64> = g.paths.iter().map(|p| p.duration()).collect();
    assert_eq!(durations, vec![30, 28, 40]);
    let delays: Vec<i64> = g.paths.iter().map(|p| p.travel_delay()).collect();
    assert_eq!(delays, vec![-5, -5, 15]);
    let start = g.find_start_node(&model).unwrap();
    for p in g.paths.iter() {
        assert_eq!(p.utilization(), 3);
        let edges: Vec<usize> = p.edges().iter().cloned().collect();
        assert_eq!(endpoints(&model, edges[0]).0, start);
        for w in edges.windows(2) {
            assert_eq!(endpoints(&model, w[0]).1, endpoints(&model, w[1]).0);
        }
        let last = endpoints(&model, *edges.last().unwrap()).1;
        assert_eq!(node(&model, last).station_id(), Some(3));
        assert!(node(&model, last).is_arrival() || node(&model, last).is_transfer());
    }
}

#[test]
fn search_paths_skips_group_arriving_before_departure() {
    let model = small_model();
    let mut g = group(3);
    g.departure_time = 50;
    g.arrival_time = 45;
    g.search_paths(&model, &BUDGETS, 1);
    assert!(g.paths.is_empty());
}

#[test]
fn budget_limits_routes() {
    let model = small_model();
    let start = group(3).find_start_node(&model).unwrap();
    // at B the first outgoing edge is the walk (cost 10): a smaller remaining budget
    // ends the search there
    let routes = Path::recursive_dfs_search(&model.graph, start, 3, 100, 16);
    assert!(routes.is_empty());
    let routes = Path::recursive_dfs_search(&model.graph, start, 3, 100, 17);
    assert_eq!(routes.len(), 2);
    let routes = Path::recursive_dfs_search(&model.graph, start, 3, 100, 18);
    assert_eq!(routes.len(), 3);
    let routes = Path::recursive_dfs_search(&model.graph, start, 3, 100, 30);
    assert_eq!(routes.len(), 3);
}

#[test]
fn iterative_deepening_takes_first_budget_with_enough_routes() {
    let model = small_model();
    let start = group(3).find_start_node(&model).unwrap();
    assert_eq!(Path::all_paths_iddfs(&model.graph, start, 3, 100, &[5, 17, 30], 1).len(), 2);
    assert_eq!(Path::all_paths_iddfs(&model.graph, start, 3, 100, &[5, 17, 30], 3).len(), 3);
    assert_eq!(Path::all_paths_iddfs(&model.graph, start, 3, 100, &[5, 17, 30], 4).len(), 3);
    assert_eq!(Path::all_paths_iddfs(&model.graph, start, 3, 100, &[5], 1).len(), 0);
    assert_eq!(Path::all_paths_iddfs(&model.graph, start, 3, 100, &[], 1).len(), 0);
}

#[test]
fn search_from_destination_gives_empty_route() {
    let model = small_model();
    let at_c = model.stations_transfers[&3][0];
    let routes = Path::recursive_dfs_search(&model.graph, at_c, 3, 100, 30);
    assert_eq!(routes, vec![Vec::<usize>::new()]);
}

#[test]
fn dfs_visitor_search_reaches_destination() {
    let model = small_model();
    let start = group(3).find_start_node(&model).unwrap();
    let paths = Path::dfs_visitor_search(&model.graph, start, 3, 3, 45, 0);
    assert!(!paths.is_empty());
    for p in paths.iter() {
        let edges: Vec<usize> = p.edges().iter().cloned().collect();
        assert_eq!(endpoints(&model, edges[0]).0, start);
        let last = endpoints(&model, *edges.last().unwrap()).1;
        assert_eq!(node(&model, last).station_id(), Some(3));
        assert_eq!(p.utilization(), 3);
    }
    let limited = Path::dfs_visitor_search(&model.graph, start, 3, 3, 45, 1);
    assert_eq!(limited.len(), 1);
}

#[test]
fn goal_test_checks_station() {
    let model = small_model();
    let at_c = model.stations_transfers[&3][0];
    assert!(goal_test(&model.graph, at_c, 3));
    assert!(!goal_test(&model.graph, at_c, 1));
}

#[test]
fn path_costs_and_order() {
    let model = small_model();
    let mut g = group(3);
    g.search_paths(&model, &BUDGETS, 1);
    let a = &g.paths[0];
    let b = &g.paths[1];
    assert_eq!(a.cmp(b), std::cmp::Ordering::Less);
    assert_eq!(b.cmp(a), std::cmp::Ordering::Greater);
    assert_eq!(a.partial_cmp(a), Some(std::cmp::Ordering::Equal));
    assert!(a == a);
    assert!(a != b);
    // both board trip 10 at A and ride it to B, and from B to C
    let common = a.intersecting_edges(b);
    let own: Vec<usize> = a.edges().iter().cloned().collect();
    assert_eq!(common, vec![own[0], own[1], own[3]]);
}

#[test]
fn path_new_sums_edges_and_drops_repetitions() {
    let model = small_model();
    let mut g = group(3);
    g.search_paths(&model, &BUDGETS, 1);
    let edges: Vec<usize> = g.paths[0].edges().iter().cloned().collect();
    let mut repeated = edges.clone();
    repeated.insert(1, edges[0]);
    let p = Path::new(&model.graph, repeated, 4, 30);
    let kept: Vec<usize> = p.edges().iter().cloned().collect();
    assert_eq!(kept, edges);
    // the repeated board edge is paid twice
    assert_eq!(p.travel_cost(), 15);
    assert_eq!(p.travel_delay(), 10);
    assert_eq!(p.cost(), 25);
    assert_eq!(p.utilization(), 4);
}

#[test]
fn travel_plans_of_routes() {
    let model = small_model();
    let mut g = group(3);
    g.search_paths(&model, &BUDGETS, 1);
    // staying in trip 10 at B: the trip is still going on at the end, and is written
    // with the arrival where the path ends
    let plan = g.paths[0].to_location_time_and_type(&model.graph);
    assert_eq!(
        plan,
        vec![
            ("A".to_string(), 10, "Departure".to_string()),
            ("10".to_string(), 30, "Trip".to_string()),
            ("C".to_string(), 40, "Arrival".to_string()),
        ]
    );
    assert_eq!(g.paths[0].to_string(&model.graph), "A$10$Departure->10$30$Trip->C$40$Arrival");
    // changing trains at B
    let plan = g.paths[1].to_location_time_and_type(&model.graph);
    assert_eq!(
        plan,
        vec![
            ("A".to_string(), 10, "Departure".to_string()),
            ("10".to_string(), 10, "Trip".to_string()),
            ("B".to_string(), 20, "Arrival".to_string()),
            ("B".to_string(), 25, "Departure".to_string()),
            ("10".to_string(), 15, "Trip".to_string()),
            ("C".to_string(), 40, "Arrival".to_string()),
        ]
    );
    assert_eq!(
        g.paths[1].to_string(&model.graph),
        "A$10$Departure->10$10$Trip->B$20$Arrival->B$25$Departure->10$15$Trip->C$40$Arrival"
    );
    // walking from B to C
    assert_eq!(
        g.paths[2].to_string(&model.graph),
        "A$10$Departure->10$10$Trip->B$20$Arrival->$40$Walk"
    );
    assert_eq!(g.paths[2].to_human_readable_string(&model.graph), "\nA -> Trip -> B\nB -> Walk -> C");
    assert_eq!(g.paths[0].to_human_readable_string(&model.graph), "\nA -> Trip -> B\nB -> Trip -> C");
}

#[test]
fn validate_groups_paths_integrity() {
    let model = small_model();
    let graph = &model.graph;
    let mut in_trip = group(2);
    in_trip.start_station_id = 2;
    in_trip.in_trip = Some(10);
    in_trip.departure_time = 20;
    let mut groups = vec![group(3), in_trip];
    for g in groups.iter_mut() {
        g.search_paths(&model, &BUDGETS, 1);
        assert!(!g.paths.is_empty());
    }
    for group in groups {
        let start: usize = match group.in_trip {
            Some(in_trip) => {
                let mut selected = None;
                for a in model.stations_arrivals[&group.start_station_id].iter() {
                    let arrival = node(&model, *a);
                    if arrival.trip_id() == Some(in_trip) && arrival.time() == Some(group.departure_time) {
                        selected = Some(*a);
                        break;
                    }
                }
                selected.expect("no arrival of the group's trip at its departure")
            }
            None => {
                let mut selected = None;
                for t in model.stations_transfers[&group.start_station_id].iter() {
                    if Some(group.departure_time) <= node(&model, *t).time() {
                        selected = Some(*t);
                        break;
                    }
                }
                selected.expect("no transfer node at the start station after the departure")
            }
        };
        let destination_station_name = node(&model, model.stations_arrivals[&group.destination_station_id][0]).station_name();
        let start_node = node(&model, start);
        assert_eq!(start_node.station_id(), Some(group.start_station_id));
        assert!(start_node.is_arrival() || start_node.is_transfer());
        assert!(start_node.time().unwrap() >= group.departure_time);
        for path in group.paths.iter() {
            let edges: Vec<usize> = path.edges().iter().cloned().collect();
            assert_eq!(endpoints(&model, edges[0]).0, start);
            let mut current = start;
            for e in edges.iter() {
                let mut walker = graph.neighbors_directed(NodeIndex::new(current), Direction::Outgoing).detach();
                let mut connected = false;
                while let Some((edge_index, node_index)) = walker.next(graph) {
                    if edge_index.index() == *e {
                        current = node_index.index();
                        connected = true;
                        break;
                    }
                }
                assert!(connected, "path is not connected");
            }
            assert_eq!(current, endpoints(&model, *edges.last().unwrap()).1);
            let last = node(&model, current);
            assert_eq!(last.station_id(), Some(group.destination_station_id));
            assert_eq!(last.station_name(), destination_station_name);
            assert!(last.is_arrival() || last.is_transfer());
        }
    }
}

#[test]
fn travel_plan_ends_with_running_trip() {
    let mut graph = TimetableGraph::default();
    let t = graph.add_node(TimetableNode::Transfer { time: 10, station_id: 1, station_name: "X".to_string() });
    let d = graph.add_node(TimetableNode::Departure { trip_id: 7, time: 10, station_id: 1, station_name: "X".to_string() });
    let a = graph.add_node(TimetableNode::Arrival { trip_id: 7, time: 20, station_id: 2, station_name: "Y".to_string() });
    let b = graph.add_edge(t, d, TimetableEdge::Board);
    let r = graph.add_edge(d, a, TimetableEdge::Trip { duration: 10, capacity: 5, utilization: 0 });
    let p = Path::new(&graph, vec![b.index(), r.index()], 1, 20);
    assert_eq!(
        p.to_location_time_and_type(&graph),
        vec![
            ("X".to_string(), 10, "Departure".to_string()),
            ("7".to_string(), 10, "Trip".to_string()),
            ("Y".to_string(), 20, "Arrival".to_string()),
        ]
    );
    assert_eq!(p.to_string(&graph), "X$10$Departure->7$10$Trip->Y$20$Arrival");
    assert_eq!(
        p.display_lines(&graph),
        vec![
            "Departure at station X, time=10 ->".to_string(),
            "Trip with duration 10 in trip 7 ->".to_string(),
            "Arrival at station Y, time=20 ->".to_string(),
        ]
    );
}

#[test]
fn search_paths_returns_number_of_paths() {
    let model = small_model();
    let mut g = group(3);
    let found = g.search_paths(&model, &BUDGETS, 1);
    assert_eq!(found, g.paths.len());
    assert!(found > 0);
    let mut late = group(3);
    late.departure_time = 50;
    assert_eq!(late.search_paths(&model, &BUDGETS, 1), 0);
}

#[test]
fn model_lists_every_transfer_and_arrival() {
    let model = small_model();
    assert_eq!(model.graph.node_count(), 12);
    for (station, transfers) in model.stations_transfers.iter() {
        for i in 0..model.graph.node_count() {
            let is_transfer = matches!(node(&model, i), TimetableNode::Transfer { station_id, .. } if station_id == station);
            assert_eq!(transfers.contains(&i), is_transfer);
        }
    }
    for (station, arrivals) in model.stations_arrivals.iter() {
        for i in 0..model.graph.node_count() {
            let is_arrival = matches!(node(&model, i), TimetableNode::Arrival { station_id, .. } if station_id == station);
            assert_eq!(arrivals.contains(&i), is_arrival);
        }
    }
    // trips 10 and 11 leave A; trip 10 (from B) and trip 11 arrive at C
    assert_eq!(model.stations_transfers[&1].len(), 2);
    assert_eq!(model.stations_arrivals[&3].len(), 2);
}

#[test]
fn dfs_visitor_search_has_no_duration_limit() {
    let mut graph = TimetableGraph::default();
    let t = graph.add_node(TimetableNode::Transfer { time: 0, station_id: 1, station_name: "X".to_string() });
    let d = graph.add_node(TimetableNode::Departure { trip_id: 7, time: 0, station_id: 1, station_name: "X".to_string() });
    let a = graph.add_node(TimetableNode::Arrival { trip_id: 7, time: 1000, station_id: 2, station_name: "Y".to_string() });
    graph.add_edge(t, d, TimetableEdge::Board);
    graph.add_edge(d, a, TimetableEdge::Trip { duration: 1000, capacity: 5, utilization: 0 });
    // planned to arrive at once: the destination, 1000 minutes later, is still found
    let paths = Path::dfs_visitor_search(&graph, t.index(), 2, 1, 0, 0);
    assert_eq!(paths.len(), 1);
    let edges: Vec<usize> = paths[0].edges().iter().cloned().collect();
    assert_eq!(edges, vec![0, 1]);
    assert_eq!(paths[0].travel_delay(), 1000);
}

#[test]
fn time_statistics_sum_waits_rides_and_walks() {
    let mut graph = TimetableGraph::default();
    let a = graph.add_node(TimetableNode::Arrival { trip_id: 1, time: 5, station_id: 1, station_name: "X".to_string() });
    let t = graph.add_node(TimetableNode::Transfer { time: 8, station_id: 1, station_name: "X".to_string() });
    let t2 = graph.add_node(TimetableNode::Transfer { time: 10, station_id: 1, station_name: "X".to_string() });
    let d = graph.add_node(TimetableNode::Departure { trip_id: 7, time: 10, station_id: 1, station_name: "X".to_string() });
    let b = graph.add_node(TimetableNode::Arrival { trip_id: 7, time: 30, station_id: 2, station_name: "Y".to_string() });
    let c = graph.add_node(TimetableNode::Transfer { time: 40, station_id: 3, station_name: "Z".to_string() });
    let e0 = graph.add_edge(a, t, TimetableEdge::Alight { duration: 3 });
    let e1 = graph.add_edge(t, t2, TimetableEdge::WaitAtStation { duration: 2 });
    let e2 = graph.add_edge(t2, d, TimetableEdge::Board);
    let e3 = graph.add_edge(d, b, TimetableEdge::Trip { duration: 20, capacity: 5, utilization: 0 });
    let e4 = graph.add_edge(b, c, TimetableEdge::Walk { duration: 10 });
    let p = Path::new(&graph, vec![e0.index(), e1.index(), e2.index(), e3.index(), e4.index()], 1, 40);
    assert_eq!(p.time_statistics(&graph), Some((5, 20, 1)));
}
