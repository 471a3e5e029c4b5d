use std::collections::{HashMap, HashSet};

use mcf_timetable::footpath::Footpath;
use mcf_timetable::graph_weight::TimetableEdge;
use mcf_timetable::group::Group;
use mcf_timetable::model::Model;
use mcf_timetable::optimization::SelectionState;
use mcf_timetable::randomized_best::{randomized_best, randomized_best_from_draws};
use mcf_timetable::randomized_hillclimb::randomized_hillclimb;
use mcf_timetable::graph::TimetableGraph;
use mcf_timetable::selection_check::{paths_in_graph_checked, selections_fit_checked};
use mcf_timetable::station::Station;
use mcf_timetable::trip::Trip;
use petgraph::graph::{EdgeIndex, NodeIndex};

fn small_model() -> Model {
    let mut stations = HashMap::new();
    stations.insert(1, Station::new(1, 2, "A".to_string()));
    stations.insert(2, Station::new(2, 3, "B".to_string()));
    stations.insert(3, Station::new(3, 1, "C".to_string()));
    let trips = vec![
        Trip { id: 10, from_station: 1, departure: 10, to_station: 2, arrival: 20, capacity: 5 },
        Trip { id: 10, from_station: 2, departure: 25, to_station: 3, arrival: 40, capacity: 5 },
        Trip { id: 11, from_station: 1, departure: 12, to_station: 3, arrival: 50, capacity: 100 },
        Trip { id: 12, from_station: 3, departure: 60, to_station: 1, arrival: 70, capacity: 100 },
    ];
    let footpaths = vec![
        Footpath { from_station: 2, to_station: 3, duration: 30 },
        Footpath { from_station: 1, to_station: 2, duration: 1 },
    ];
    Model::from_timetable(stations, trips, footpaths)
}

fn searched_groups(model: &Model, passengers: &[u64]) -> Vec<Group> {
    let mut groups = Vec::new();
    for (i, p) in passengers.iter().enumerate() {
        let mut g = Group {
            id: i as u64,
            start_station_id: 1,
            destination_station_id: 3,
            departure_time: 0,
            arrival_time: 45,
            passengers: *p,
            in_trip: None,
            paths: Vec::new(),
        };
        g.search_paths(model, &[30, 35, 40, 45, 50, 55, 60], 1);
        groups.push(g);
    }
    groups
}

fn edge_weights(model: &Model) -> Vec<TimetableEdge> {
    (0..model.graph.edge_count()).map(|e| *model.graph.edge_weight(EdgeIndex::new(e)).unwrap()).collect()
}

#[test]
fn strain_and_relieve_restore_the_graph() {
    let mut model = small_model();
    let groups = searched_groups(&model, &[3]);
    let before = edge_weights(&model);
    let path = &groups[0].paths[0];
    let mut strained = HashSet::new();
    path.strain_to_graph(&mut model.graph, &mut strained);
    let edges: Vec<usize> = path.edges().iter().cloned().collect();
    assert_eq!(strained, edges.iter().cloned().collect::<HashSet<usize>>());
    let mut trips = 0;
    for e in edges.iter() {
        let w = model.graph.edge_weight(EdgeIndex::new(*e)).unwrap();
        if w.is_trip() {
            assert_eq!(w.utilization(), 3);
            trips += 1;
        }
    }
    assert_eq!(trips, 2);
    path.relieve_from_graph(&mut model.graph, &mut strained);
    assert_eq!(edge_weights(&model), before);
    assert!(strained.iter().all(|e| !model.graph.edge_weight(EdgeIndex::new(*e)).unwrap().is_trip()));
}

#[test]
fn cost_of_strained_edges_is_summed_overload() {
    let mut model = small_model();
    let groups = searched_groups(&model, &[3, 3]);
    let mut strained = HashSet::new();
    groups[0].paths[0].strain_to_graph(&mut model.graph, &mut strained);
    assert_eq!(SelectionState::calculate_cost_of_strained_edges(&mut model.graph, &strained), 0);
    groups[1].paths[0].strain_to_graph(&mut model.graph, &mut strained);
    // both trips of the route carry 6 on a capacity of 5
    assert_eq!(SelectionState::calculate_cost_of_strained_edges(&mut model.graph, &strained), 2);
    let _ = NodeIndex::<usize>::new(0);
}

#[test]
fn cost_sums_of_selected_paths() {
    let model = small_model();
    let groups = searched_groups(&model, &[3, 3]);
    assert_eq!(SelectionState::calculate_cost_sum_of_selected_paths(&groups, &vec![0, 0]), 10);
    assert_eq!(SelectionState::calculate_cost_sum_of_selected_paths(&groups, &vec![1, 2]), 45);
    assert_eq!(SelectionState::calculate_cost_sum_of_selected_paths(&groups, &vec![2]), 32);
}

#[test]
fn best_path_state_costs() {
    let mut model = small_model();
    let groups = searched_groups(&model, &[3, 3]);
    let before = edge_weights(&model);
    let state = SelectionState::generate_state_with_best_path_per_group(&mut model.graph, &groups);
    assert_eq!(edge_weights(&model), before);
    assert_eq!(state.groups_path_index, vec![0, 0]);
    assert_eq!(state.strained_edges_cost, 2);
    assert_eq!(state.travel_cost, 20);
    assert_eq!(state.travel_delay_cost, -10);
    assert_eq!(state.cost, 12);
    assert_eq!(state.calculate_total_travel_delay(), -10);
}

#[test]
fn overload_of_one_large_group() {
    let mut model = small_model();
    let groups = searched_groups(&model, &[8]);
    let state = SelectionState::generate_state_with_best_path_per_group(&mut model.graph, &groups);
    assert_eq!(state.strained_edges_cost, 18);
    assert_eq!(state.cost, 23);
    let walk = state.neighbor_for(&mut model.graph, 0, 2);
    assert_eq!(walk.strained_edges_cost, 9);
    assert_eq!(walk.cost, 41);
}

#[test]
fn random_state_is_costed_like_its_selection() {
    let mut model = small_model();
    let groups = searched_groups(&model, &[3, 3]);
    let before = edge_weights(&model);
    let state = SelectionState::generate_random_state(&mut model.graph, &groups);
    assert_eq!(edge_weights(&model), before);
    let again = SelectionState::generate_state_with_best_path_per_group(&mut model.graph, &groups);
    let same = again.neighbor_for(&mut model.graph, 0, state.groups_path_index[0]);
    let same = same.neighbor_for(&mut model.graph, 1, state.groups_path_index[1]);
    assert_eq!(same.groups_path_index, state.groups_path_index);
    assert_eq!(same.cost, state.cost);
    assert_eq!(state.cost, state.strained_edges_cost as i64 + state.travel_cost as i64 + state.travel_delay_cost);
}

#[test]
fn state_from_draws_takes_draws_modulo_path_count() {
    let mut model = small_model();
    let groups = searched_groups(&model, &[3, 3]);
    let before = edge_weights(&model);
    let n0 = groups[0].paths.len();
    let n1 = groups[1].paths.len();
    assert!(n0 > 1 && n1 > 1);
    let wrapped = SelectionState::state_from_draws(&mut model.graph, &groups, &vec![n0, 2 * n1]);
    assert_eq!(edge_weights(&model), before);
    assert_eq!(wrapped.groups_path_index, vec![0, 0]);
    assert_eq!(wrapped.cost, 12);
    let second = SelectionState::state_from_draws(&mut model.graph, &groups, &vec![n0 + 1, 1]);
    assert_eq!(second.groups_path_index, vec![1, 1]);
    let expected = SelectionState::generate_state_with_best_path_per_group(&mut model.graph, &groups)
        .neighbor_for(&mut model.graph, 0, 1)
        .neighbor_for(&mut model.graph, 1, 1);
    assert_eq!(second.cost, expected.cost);
}

#[test]
fn neighbor_from_draws_takes_draws_modulo_counts() {
    let mut model = small_model();
    let groups = searched_groups(&model, &[3, 3]);
    let state = SelectionState::generate_state_with_best_path_per_group(&mut model.graph, &groups);
    let n1 = groups[1].paths.len();
    let neighbor = state.neighbor_from_draws(&mut model.graph, 3, n1 + 1);
    assert_eq!(neighbor.groups_path_index, vec![0, 1]);
    let same = state.neighbor_for(&mut model.graph, 1, 1);
    assert_eq!(neighbor.cost, same.cost);
    let first = state.neighbor_from_draws(&mut model.graph, 4, 1);
    assert_eq!(first.groups_path_index, vec![1, 0]);
}

#[test]
fn all_group_neighbors_switch_one_group() {
    let mut model = small_model();
    let groups = searched_groups(&model, &[3, 3]);
    let before = edge_weights(&model);
    let state = SelectionState::generate_state_with_best_path_per_group(&mut model.graph, &groups);
    let neighbors = state.all_group_neighbors(&mut model.graph);
    assert_eq!(edge_weights(&model), before);
    let indices: Vec<Vec<usize>> = neighbors.iter().map(|n| n.groups_path_index.clone()).collect();
    assert_eq!(indices, vec![vec![1, 0], vec![2, 0], vec![0, 1], vec![0, 2]]);
    let costs: Vec<i64> = neighbors.iter().map(|n| n.cost).collect();
    assert_eq!(costs, vec![20, 38, 20, 38]);
    let edge_costs: Vec<u64> = neighbors.iter().map(|n| n.strained_edges_cost).collect();
    assert_eq!(edge_costs, vec![2, 1, 2, 1]);
}

#[test]
fn all_direct_neighbors_step_by_one() {
    let mut model = small_model();
    let groups = searched_groups(&model, &[3, 3]);
    let before = edge_weights(&model);
    let state = SelectionState::generate_state_with_best_path_per_group(&mut model.graph, &groups);
    let neighbors = state.all_direct_neighbors(&mut model.graph);
    assert_eq!(edge_weights(&model), before);
    let indices: Vec<Vec<usize>> = neighbors.iter().map(|n| n.groups_path_index.clone()).collect();
    assert_eq!(indices, vec![vec![1, 0], vec![0, 1]]);
    let middle = state.neighbor_for(&mut model.graph, 0, 1);
    let neighbors = middle.all_direct_neighbors(&mut model.graph);
    let indices: Vec<Vec<usize>> = neighbors.iter().map(|n| n.groups_path_index.clone()).collect();
    assert_eq!(indices, vec![vec![0, 0], vec![2, 0], vec![1, 1]]);
    assert_eq!(neighbors[0].cost, 12);
}

#[test]
fn random_neighbor_switches_at_most_one_group() {
    let mut model = small_model();
    let groups = searched_groups(&model, &[3, 3]);
    let state = SelectionState::generate_state_with_best_path_per_group(&mut model.graph, &groups);
    let mut rng = rand::thread_rng();
    for _ in 0..20 {
        let next = state.random_group_neighbor(&mut model.graph, &mut rng);
        let changed = next.groups_path_index.iter().zip(state.groups_path_index.iter()).filter(|(a, b)| a != b).count();
        assert!(changed <= 1);
        assert_eq!(next.cost, next.strained_edges_cost as i64 + next.travel_cost as i64 + next.travel_delay_cost);
    }
}

#[test]
fn neighbor_from_other_groups_paths() {
    let mut model = small_model();
    let groups = searched_groups(&model, &[3, 3]);
    let state = SelectionState::generate_state_with_best_path_per_group(&mut model.graph, &groups);
    let mut copies = searched_groups(&model, &[3, 3]);
    let next = state.group_neighbor_from_group_and_path(&mut model.graph, &mut copies, 0, 2);
    assert_eq!(next.groups_path_index, vec![2, 0]);
    assert_eq!(next.cost, 38);
}

#[test]
fn overcrowded_edge_and_its_groups() {
    let mut model = small_model();
    let groups = searched_groups(&model, &[3, 3]);
    let state = SelectionState::generate_state_with_best_path_per_group(&mut model.graph, &groups);
    let before = edge_weights(&model);
    let mut copies = searched_groups(&model, &[3, 3]);
    for draw in 0..4 {
        let (edge, users) = state.overcrowded_edge_with_groups(&mut model.graph, &mut copies, draw);
        assert!(model.graph.edge_weight(EdgeIndex::new(edge)).unwrap().is_trip());
        assert_eq!(users, vec![0, 1]);
    }
    assert_eq!(edge_weights(&model), before);
    let mut rng = rand::thread_rng();
    let (_, users) = state.get_random_overcrowded_edge_with_groups(&mut model.graph, &mut copies, &mut rng);
    assert_eq!(users, vec![0, 1]);
}

#[test]
fn detour_around_an_overcrowded_edge() {
    let mut model = small_model();
    let groups = searched_groups(&model, &[3, 3]);
    let state = SelectionState::generate_state_with_best_path_per_group(&mut model.graph, &groups);
    let mut copies = searched_groups(&model, &[3, 3]);
    let (edge, users) = state.overcrowded_edge_with_groups(&mut model.graph, &mut copies, 0);
    let (group, detour) = state.find_detour_for_group(&mut model.graph, &mut copies, users[0], edge, 0);
    assert_eq!(group, users[0]);
    let detour = detour.unwrap();
    assert_eq!(detour.utilization(), 3);
    let last = *detour.edges().iter().last().unwrap();
    let (_, end) = model.graph.edge_endpoints(EdgeIndex::new(last)).unwrap();
    assert_eq!(model.graph.node_weight(end).unwrap().station_id(), Some(3));
    let mut rng = rand::thread_rng();
    let (group, _) = state.find_detour_for_random_group(&mut model.graph, &mut copies, users.clone(), edge, &mut rng);
    assert!(users.contains(&group));
}

#[test]
fn randomized_best_never_gets_worse() {
    let mut model = small_model();
    let groups = searched_groups(&model, &[3, 3]);
    let (state, records) = randomized_best(&mut model.graph, &groups, 30);
    assert_eq!(records.len(), 30);
    assert_eq!(records[0].cost, 12);
    for (i, r) in records.iter().enumerate() {
        assert_eq!(r.time, i as u64);
        assert!(state.cost <= r.cost);
    }
    assert!(records.windows(2).all(|w| w[1].cost <= w[0].cost));
    assert!(state.cost <= 12);
}

#[test]
fn hillclimb_stops_at_local_minimum() {
    let mut model = small_model();
    let groups = searched_groups(&model, &[3, 3]);
    let (state, records) = randomized_hillclimb(&mut model.graph, &groups, 2, 10);
    assert_eq!(state.groups_path_index, vec![0, 0]);
    assert_eq!(state.cost, 12);
    assert_eq!(records.len(), 4);
    assert!(records.iter().all(|r| r.time < 2 && r.cost == 12));
}

#[test]
fn hillclimb_moves_to_cheaper_neighbor() {
    let mut model = small_model();
    let mut groups = searched_groups(&model, &[3]);
    // put the most expensive path first
    groups[0].paths.swap(0, 2);
    let start = SelectionState::generate_state_with_best_path_per_group(&mut model.graph, &groups);
    let (state, records) = randomized_hillclimb(&mut model.graph, &groups, 1, 10);
    // a single step: from the walk (index 0) to its only direct neighbor, index 1 (cost 13);
    // index 2 (cost 5) would take a second step
    assert!(start.cost > 13);
    assert_eq!(state.groups_path_index, vec![1]);
    assert_eq!(state.cost, 13);
    assert_eq!(records.len(), 2);
    assert_eq!(records[0].cost, start.cost);
    assert_eq!(records[1].cost, start.cost);
    let (unmoved, _) = randomized_hillclimb(&mut model.graph, &groups, 1, 0);
    assert_eq!(unmoved.groups_path_index, vec![0]);
    assert_eq!(unmoved.cost, start.cost);
}

#[test]
fn detour_picks_found_path_by_draw() {
    let mut model = small_model();
    let groups = searched_groups(&model, &[3, 3]);
    let state = SelectionState::generate_state_with_best_path_per_group(&mut model.graph, &groups);
    let mut copies = searched_groups(&model, &[3, 3]);
    let (edge, users) = state.overcrowded_edge_with_groups(&mut model.graph, &mut copies, 0);
    let mut found: Vec<Vec<usize>> = Vec::new();
    for draw in 0..3 {
        let (_, detour) = state.find_detour_for_group(&mut model.graph, &mut copies, users[0], edge, draw);
        found.push(detour.unwrap().edges().iter().cloned().collect());
    }
    // the draws pick different paths among the (more than two) found ones
    assert_ne!(found[0], found[1]);
    assert_ne!(found[1], found[2]);
    // the same draw gives the same detour
    let (_, again) = state.find_detour_for_group(&mut model.graph, &mut copies, users[0], edge, 3 * 1000);
    let again: Vec<usize> = again.unwrap().edges().iter().cloned().collect();
    assert!(found.contains(&again));
}

#[test]
fn randomized_best_from_draws_keeps_cheaper_selection() {
    let mut model = small_model();
    let groups = searched_groups(&model, &[3, 3]);
    // no draw: the first path of every group
    let (state, records) = randomized_best_from_draws(&mut model.graph, &groups, &Vec::new());
    assert_eq!(state.groups_path_index, vec![0, 0]);
    assert!(records.is_empty());
    // the random state [2, 0] costs more (38 against 12): it is not taken; the draws
    // are taken modulo the number of paths, so [0, 0] is drawn again by its multiple
    let n0 = groups[0].paths.len();
    let n1 = groups[1].paths.len();
    let (state, records) = randomized_best_from_draws(&mut model.graph, &groups, &vec![vec![2, 0], vec![n0, 2 * n1]]);
    assert_eq!(state.groups_path_index, vec![0, 0]);
    assert_eq!(state.cost, 12);
    assert_eq!(records.len(), 2);
    assert_eq!(records[0].cost, 12);
    assert_eq!(records[1].cost, 12);
}

#[test]
fn hillclimb_on_loaded_graph_is_the_same_in_every_run() {
    let mut model = small_model();
    let groups = searched_groups(&model, &[3, 3]);
    // passengers already on every trip edge
    for e in 0..model.graph.edge_count() {
        if let TimetableEdge::Trip { duration, capacity, .. } = *model.graph.edge_weight(EdgeIndex::new(e)).unwrap() {
            *model.graph.edge_weight_mut(EdgeIndex::new(e)).unwrap() =
                TimetableEdge::Trip { duration, capacity, utilization: capacity + 1 };
        }
    }
    let before = edge_weights(&model);
    let (one, _) = randomized_hillclimb(&mut model.graph, &groups, 1, 10);
    let (three, records) = randomized_hillclimb(&mut model.graph, &groups, 3, 10);
    assert_eq!(one.groups_path_index, three.groups_path_index);
    assert_eq!(one.cost, three.cost);
    assert!(records.iter().all(|r| three.cost <= r.cost));
    assert_eq!(edge_weights(&model), before);
}

#[test]
fn selection_checks_accept_searched_groups() {
    let model = small_model();
    let groups = searched_groups(&model, &[3, 4]);
    assert!(groups.iter().all(|g| !g.paths.is_empty()));
    assert!(paths_in_graph_checked(&model.graph, &groups));
    assert!(selections_fit_checked(&model.graph, &groups));
}

#[test]
fn paths_in_graph_check_refuses_paths_beyond_the_graph() {
    let model = small_model();
    let groups = searched_groups(&model, &[3]);
    let empty = TimetableGraph::default();
    assert!(!paths_in_graph_checked(&empty, &groups));
    assert!(paths_in_graph_checked(&empty, &Vec::new()));
}

#[test]
fn selection_fit_check_refuses_loads_beyond_u64() {
    let model = small_model();
    let groups = searched_groups(&model, &[u64::MAX, 1]);
    assert!(groups.iter().all(|g| !g.paths.is_empty()));
    assert!(!selections_fit_checked(&model.graph, &groups));
    let one = searched_groups(&model, &[1]);
    assert!(selections_fit_checked(&model.graph, &one));
}
