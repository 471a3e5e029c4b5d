//! A travel group and the search of its routes.

use vstd::prelude::*;
use crate::graph::{graph_edges, graph_node, graph_nodes, TimetableGraph};
use crate::graph_weight::TimetableNode;
use crate::integrity::time_of;
use crate::model::Model;
use crate::path::{
    built_from, fits_new_path, lemma_paths_signatures_multiset, path_fits, path_signature, paths_signatures, sort_paths_by_cost,
    sorted_by_cost, walk_signature, walks_signatures, Path,
};
use crate::parse::{field, number_field, number_in, number_of, parse_u64, parsed_u64, record_field};
use std::collections::HashMap;
use crate::search::{all_routes, at_station, dfs_found_walks, ends_at_arrival_or_transfer, ends_at_destination, iddfs_routes, is_found_path, is_walk_from, routes_view, searchable, walk_end};

verus! {

broadcast use vstd::std_specs::hash::group_hash_axioms;

/// whether a route found for a group becomes one of its paths: it has an edge, and
/// the sums of the path fit their types (see `path_fits`)
pub open spec fn route_usable(graph: TimetableGraph, planned_arrival: u64) -> spec_fn(Seq<usize>) -> bool {
    |w: Seq<usize>| w.len() > 0 && path_fits(graph, w, planned_arrival)
}

/// A travel group: `passengers` people who want to travel from the station
/// `start_station_id`, no earlier than `departure_time` (or, with `in_trip`, sitting
/// in that trip when it arrives there at `departure_time`), to the station
/// `destination_station_id`, where they were planned to arrive at `arrival_time`.
#[derive(Clone, Debug)]
pub struct Group {
    pub id: u64,
    pub start_station_id: u64,
    pub destination_station_id: u64,
    pub departure_time: u64,
    pub arrival_time: u64,
    pub passengers: u64,
    pub in_trip: Option<u64>,
    /// the routes found for this group, cheapest first
    pub paths: Vec<Path>,
}

/// the record's fields of a group: numbers for `id`, `start`, `destination`,
/// `departure`, `arrival`, `passengers`, and an `in_trip` that is empty or a number
pub open spec fn group_record_ok(r: Map<String, String>) -> bool {
    &&& number_field(r, "id"@)
    &&& number_field(r, "start"@)
    &&& number_field(r, "destination"@)
    &&& number_field(r, "departure"@)
    &&& number_field(r, "arrival"@)
    &&& number_field(r, "passengers"@)
    &&& field(r, "in_trip"@) is Some
    &&& (field(r, "in_trip"@).unwrap().len() == 0 || parsed_u64(field(r, "in_trip"@).unwrap()) is Some)
}

/// `group` is the group a record describes, without paths yet
pub open spec fn group_of_record(group: Group, r: Map<String, String>) -> bool {
    let in_trip = field(r, "in_trip"@).unwrap();
    &&& group.id == number_of(r, "id"@)
    &&& group.start_station_id == number_of(r, "start"@)
    &&& group.destination_station_id == number_of(r, "destination"@)
    &&& group.departure_time == number_of(r, "departure"@)
    &&& group.arrival_time == number_of(r, "arrival"@)
    &&& group.passengers == number_of(r, "passengers"@)
    &&& group.in_trip == (if in_trip.len() == 0 {
        None
    } else {
        parsed_u64(in_trip)
    })
    &&& group.paths@ == Seq::<Path>::empty()
}

/// The node a group's routes start at belongs to its start station, is an arrival
/// or a transfer node, and is no earlier than its departure.
pub proof fn lemma_start_node(group: Group, model: &Model, n: usize)
    requires
        model.wf(),
        group.is_start_node(model, n),
    ensures
        n < graph_nodes(model.graph).len(),
        graph_nodes(model.graph)[n as int].spec_station_id() == Some(group.start_station_id),
        graph_nodes(model.graph)[n as int] is Arrival || graph_nodes(model.graph)[n as int] is Transfer,
        group.departure_time <= time_of(graph_nodes(model.graph)[n as int]),
{
    let candidates = group.start_candidates(model);
    let k = choose|k: int|
        0 <= k < candidates.len() && candidates[k] == n && group.fits_start(model, n) && forall|j: int|
            0 <= j < k ==> !group.fits_start(model, #[trigger] candidates[j]);
    match group.in_trip {
        Some(_) => {
            assert(crate::model::is_arrival_at(graph_nodes(model.graph), model.stations_arrivals@[group.start_station_id]@[k], group.start_station_id));
        },
        None => {
            assert(crate::station::is_transfer_of(graph_nodes(model.graph), model.stations_transfers@[group.start_station_id]@[k], group.start_station_id));
        },
    }
}

/// each of `paths` is built from a walk that reaches the station `station` (see
/// `walk_reaches`)
pub open spec fn paths_reach(
    graph: TimetableGraph,
    start: usize,
    station: u64,
    paths: Seq<Path>,
    passengers: u64,
    arrival: u64,
    kinds: bool,
) -> bool {
    forall|i: int| 0 <= i < paths.len() ==> #[trigger] walk_reaches(graph, start, station, paths[i], passengers, arrival, kinds)
}

/// `path` is built from a walk that reaches the station `station` from `start` (see
/// `ends_at_destination`), and, where `kinds` holds, ends at an arrival or transfer
/// node
pub open spec fn walk_reaches(
    graph: TimetableGraph,
    start: usize,
    station: u64,
    path: Path,
    passengers: u64,
    arrival: u64,
    kinds: bool,
) -> bool {
    exists|walk: Seq<usize>|
        #![trigger built_from(path, graph, walk, passengers, arrival)]
        built_from(path, graph, walk, passengers, arrival) && ends_at_destination(graph, start, station, walk) && (kinds
            ==> ends_at_arrival_or_transfer(graph, start, walk))
}

/// each of `paths` is built from the walk at the same position of `walks`, which
/// reaches the station `station` from `start` and ends at an arrival or transfer node
#[verifier::opaque]
spec fn paths_end_well(
    graph: TimetableGraph,
    start: usize,
    station: u64,
    paths: Seq<Path>,
    walks: Seq<Seq<usize>>,
    passengers: u64,
    arrival: u64,
) -> bool {
    &&& walks.len() == paths.len()
    &&& forall|i: int|
        0 <= i < paths.len() ==> {
            &&& built_from(#[trigger] paths[i], graph, walks[i], passengers, arrival)
            &&& ends_at_destination(graph, start, station, walks[i])
            &&& ends_at_arrival_or_transfer(graph, start, walks[i])
        }
}

impl Group {
    /// The groups described by the records (fields `id`, `start`, `destination`,
    /// `departure`, `arrival`, `passengers`, `in_trip`), in their order; an empty
    /// `in_trip` means the group starts at its station.
    pub fn from_maps_to_vec(group_maps: &Vec<HashMap<String, String>>) -> (groups: Vec<Self>)
        requires
            forall|i: int| 0 <= i < group_maps@.len() ==> group_record_ok(#[trigger] group_maps@[i]@),
        ensures
            groups@.len() == group_maps@.len(),
            forall|i: int| 0 <= i < groups@.len() ==> group_of_record(#[trigger] groups@[i], group_maps@[i]@),
    {
        let mut groups: Vec<Group> = Vec::with_capacity(group_maps.len());
        let mut i: usize = 0;
        while i < group_maps.len()
            invariant
                i <= group_maps@.len(),
                groups@.len() == i,
                forall|j: int| 0 <= j < group_maps@.len() ==> group_record_ok(#[trigger] group_maps@[j]@),
                forall|j: int| 0 <= j < i ==> group_of_record(#[trigger] groups@[j], group_maps@[j]@),
            decreases group_maps@.len() - i,
        {
            let group_map = &group_maps[i];
            proof {
                assert(group_record_ok(group_maps@[i as int]@));
            }
            let id = number_in(group_map, "id");
            let in_trip = match record_field(group_map, "in_trip") {
                Some(text) => {
                    if text.as_str().is_empty() {
                        None
                    } else {
                        parse_u64(text.as_str())
                    }
                },
                None => None,
            };
            groups.push(Group {
                id,
                start_station_id: number_in(group_map, "start"),
                destination_station_id: number_in(group_map, "destination"),
                departure_time: number_in(group_map, "departure"),
                arrival_time: number_in(group_map, "arrival"),
                passengers: number_in(group_map, "passengers"),
                in_trip,
                paths: Vec::new(),
            });
            i = i + 1;
        }
        groups
    }

    /// the nodes a route of the group may start at, in the order they are tried:
    /// the arrivals at the start station when the group sits in a trip, else the
    /// transfer nodes of the start station
    pub open spec fn start_candidates(&self, model: &Model) -> Seq<usize> {
        match self.in_trip {
            Some(_) => if model.stations_arrivals@.contains_key(self.start_station_id) {
                model.stations_arrivals@[self.start_station_id]@
            } else {
                Seq::empty()
            },
            None => if model.stations_transfers@.contains_key(self.start_station_id) {
                model.stations_transfers@[self.start_station_id]@
            } else {
                Seq::empty()
            },
        }
    }

    /// node `n` can start the group's routes: the arrival of the group's trip at the
    /// departure time, or a transfer node no earlier than the departure time
    pub open spec fn fits_start(&self, model: &Model, n: usize) -> bool {
        let node = graph_nodes(model.graph)[n as int];
        match self.in_trip {
            Some(trip) => node.spec_trip_id() == Some(trip) && node.spec_time() == Some(self.departure_time),
            None => self.departure_time <= time_of(node),
        }
    }

    /// `n` is the first candidate that can start the group's routes
    pub open spec fn is_start_node(&self, model: &Model, n: usize) -> bool {
        let candidates = self.start_candidates(model);
        exists|k: int|
            0 <= k < candidates.len() && candidates[k] == n && self.fits_start(model, n) && forall|j: int|
                0 <= j < k ==> !self.fits_start(model, #[trigger] candidates[j])
    }

    /// some candidate can start the group's routes
    pub open spec fn has_start(&self, model: &Model) -> bool {
        exists|k: int|
            0 <= k < self.start_candidates(model).len() && self.fits_start(
                model,
                #[trigger] self.start_candidates(model)[k],
            )
    }

    /// The node the group's routes start at: the first arrival of the group's trip
    /// at the start station at the departure time, when the group sits in a trip;
    /// else the first transfer node of the start station (they are ordered by time)
    /// no earlier than the departure. `None` when there is no such node.
    pub fn find_start_node(&self, model: &Model) -> (start: Option<usize>)
        requires
            model.wf(),
        ensures
            match start {
                Some(n) => self.is_start_node(model, n),
                None => !self.has_start(model),
            },
            start matches Some(n) ==> n < graph_nodes(model.graph).len(),
    {
        let candidates = match self.in_trip {
            Some(_) => model.stations_arrivals.get(&self.start_station_id),
            None => model.stations_transfers.get(&self.start_station_id),
        };
        let candidates = match candidates {
            Some(c) => c,
            None => {
                return None;
            },
        };
        proof {
            assert(candidates@ == self.start_candidates(model));
            assert forall|k: int| 0 <= k < candidates@.len() implies #[trigger] candidates@[k] < graph_nodes(model.graph).len() by {
                match self.in_trip {
                    Some(_) => {
                        assert(crate::model::is_arrival_at(graph_nodes(model.graph), model.stations_arrivals@[self.start_station_id]@[k], self.start_station_id));
                    },
                    None => {
                        assert(crate::station::is_transfer_of(graph_nodes(model.graph), model.stations_transfers@[self.start_station_id]@[k], self.start_station_id));
                    },
                }
            }
        }
        let mut k: usize = 0;
        while k < candidates.len()
            invariant
                k <= candidates@.len(),
                candidates@ == self.start_candidates(model),
                forall|q: int| 0 <= q < candidates@.len() ==> #[trigger] candidates@[q] < graph_nodes(model.graph).len(),
                forall|j: int| 0 <= j < k ==> !self.fits_start(model, #[trigger] candidates@[j]),
            decreases candidates@.len() - k,
        {
            let n = candidates[k];
            let node = graph_node(&model.graph, n);
            let fits = match self.in_trip {
                Some(trip) => {
                    let same_trip = match node.trip_id() {
                        Some(t) => t == trip,
                        None => false,
                    };
                    let same_time = match node.time() {
                        Some(t) => t == self.departure_time,
                        None => false,
                    };
                    same_trip && same_time
                },
                None => {
                    let t = match node.time() {
                        Some(t) => t,
                        None => 0,
                    };
                    self.departure_time <= t
                },
            };
            if fits {
                return Some(n);
            }
            k = k + 1;
        }
        None
    }

    /// Searches the routes of the group, unless its departure is after its planned
    /// arrival (then nothing changes). The routes are found by iterative deepening
    /// over `search_budgets` (see `Path::all_paths_iddfs`, with at most twice the
    /// planned travel time plus two hours); when that finds no route with an edge,
    /// petgraph's depth-first traversal looks for them (`Path::dfs_visitor_search`).
    /// Every route becomes a path for the group's passengers against its planned
    /// arrival, and the paths are kept cheapest first. A route whose sums would not
    /// fit their types (see `path_fits`) is left out. Returns the number of paths the
    /// group has afterwards.
    #[verifier::rlimit(100)]
    #[verifier::spinoff_prover]
    pub fn search_paths(&mut self, model: &Model, search_budgets: &[u64], min_paths: usize) -> (found: usize)
        requires
            model.wf(),
            old(self).has_start(model),
        ensures
            found == final(self).paths@.len(),
            final(self).id == old(self).id,
            final(self).start_station_id == old(self).start_station_id,
            final(self).destination_station_id == old(self).destination_station_id,
            final(self).departure_time == old(self).departure_time,
            final(self).arrival_time == old(self).arrival_time,
            final(self).passengers == old(self).passengers,
            final(self).in_trip == old(self).in_trip,
            old(self).departure_time > old(self).arrival_time ==> final(self).paths@ == old(self).paths@,
            old(self).departure_time <= old(self).arrival_time ==> {
                &&& sorted_by_cost(final(self).paths@)
                &&& exists|start: usize|
                    {
                        &&& #[trigger] old(self).is_start_node(model, start)
                        &&& ({
                            let usable = iddfs_routes(model.graph, start, old(self).destination_station_id, search_budgets@, min_paths as int)
                                .filter(route_usable(model.graph, old(self).arrival_time));
                            &&& usable.len() > 0 ==> paths_signatures(final(self).paths@).to_multiset() == walks_signatures(
                                model.graph,
                                usable,
                                old(self).passengers,
                                old(self).arrival_time,
                            ).to_multiset()
                            &&& usable.len() == 0 ==> paths_signatures(final(self).paths@).to_multiset() == walks_signatures(
                                model.graph,
                                dfs_found_walks(
                                    model.graph,
                                    start,
                                    old(self).destination_station_id,
                                    old(self).passengers,
                                    old(self).arrival_time,
                                    0,
                                ),
                                old(self).passengers,
                                old(self).arrival_time,
                            ).to_multiset()
                        })
                        &&& forall|i: int|
                            0 <= i < final(self).paths@.len() ==> is_found_path(
                                model.graph,
                                start,
                                old(self).destination_station_id,
                                #[trigger] final(self).paths@[i],
                                old(self).passengers,
                                old(self).arrival_time,
                            )
                        &&& paths_reach(
                            model.graph,
                            start,
                            old(self).destination_station_id,
                            final(self).paths@,
                            old(self).passengers,
                            old(self).arrival_time,
                            iddfs_routes(model.graph, start, old(self).destination_station_id, search_budgets@, min_paths as int).filter(
                                route_usable(model.graph, old(self).arrival_time),
                            ).len() > 0 || !at_station(graph_nodes(model.graph), start, old(self).destination_station_id),
                        )
                    }
            },
    {
        let start = match self.find_start_node(model) {
            Some(n) => n,
            None => {
                proof {
                    assert(false);
                }
                return self.paths.len();
            },
        };
        if self.departure_time > self.arrival_time {
            // the planned arrival is before the departure: no search
            return self.paths.len();
        }
        let graph = &model.graph;
        proof {
            crate::search::lemma_integrity_searchable(model.graph);
        }
        // the planned travel time bounds how long a route may take
        let travel_time = self.arrival_time - self.departure_time;
        let max_duration = travel_time.wrapping_mul(2).wrapping_add(120);
        let mut routes = Path::all_paths_iddfs(
            graph,
            start,
            self.destination_station_id,
            max_duration,
            search_budgets,
            min_paths,
        );
        let ghost dest = self.destination_station_id;
        let ghost passengers = self.passengers;
        let ghost arrival = self.arrival_time;
        let ghost usable = routes_view(routes@).filter(route_usable(*graph, arrival));
        let mut paths: Vec<Path> = Vec::new();
        // the walk each path was built from
        let ghost mut walks: Seq<Seq<usize>> = Seq::empty();
        proof {
            reveal(paths_end_well);
            assert(paths_signatures(paths@) =~= Seq::empty());
            broadcast use vstd::multiset::group_multiset_axioms, vstd::multiset::group_multiset_properties;
            broadcast use vstd::seq_lib::group_to_multiset_ensures;
            assert(paths_signatures(paths@).to_multiset().len() == 0);
            assert(paths_signatures(paths@).to_multiset() =~= vstd::multiset::Multiset::empty());
        }
        while routes.len() > 0
            invariant
                routes@.len() == 0 || exists|b: int| all_routes(*graph, start, dest, routes@, b),
                dest == self.destination_station_id,
                passengers == self.passengers,
                arrival == self.arrival_time,
                paths_signatures(paths@).to_multiset().add(
                    walks_signatures(*graph, routes_view(routes@).filter(route_usable(*graph, arrival)), passengers, arrival).to_multiset(),
                ) == walks_signatures(*graph, usable, passengers, arrival).to_multiset(),
                forall|i: int|
                    0 <= i < paths@.len() ==> is_found_path(*graph, start, dest, #[trigger] paths@[i], passengers, arrival),
                paths_end_well(*graph, start, dest, paths@, walks, passengers, arrival),
                model.wf(),
                *graph == model.graph,
            decreases routes@.len(),
        {
            let ghost b = choose|b: int| all_routes(*graph, start, dest, routes@, b);
            let ghost routes_before = routes@;
            let ghost paths_before = paths@;
            let route = routes.pop().unwrap();
            proof {
                assert(routes@.len() == 0 || all_routes(*graph, start, dest, routes@, b));
                assert(crate::search::is_route(*graph, start, dest, route@, b));
                assert(routes_view(routes_before) =~= routes_view(routes@).push(route@));
                routes_view(routes@).lemma_filter_push(route@, route_usable(*graph, arrival));
            }
            if route.len() != 0 && fits_new_path(graph, &route, self.arrival_time) {
                let ghost walk = route@;
                let path = Path::new(graph, route, self.passengers, self.arrival_time);
                proof {
                    assert(crate::path::built_from(path, *graph, walk, passengers, arrival));
                }
                paths.push(path);
                proof {
                    assert(crate::search::is_route(*graph, start, dest, walk, b));
                    crate::search::lemma_route_ends_at_arrival_or_transfer(*graph, start, dest, walk, b);
                    let end = walk_end(graph_edges(*graph), start, walk);
                    assert forall|n: usize| #[trigger] at_station(graph_nodes(*graph), n, dest) implies graph_nodes(
                        *graph,
                    )[n as int].spec_station_name() == graph_nodes(*graph)[end as int].spec_station_name() by {
                        assert(graph_nodes(*graph)[n as int].spec_station_name() == graph_nodes(*graph)[n as int].spec_station_name());
                        assert(graph_nodes(*graph)[end as int].spec_station_name() == graph_nodes(*graph)[end as int].spec_station_name());
                    }
                    assert(ends_at_destination(*graph, start, dest, walk));
                    let ghost walks_before = walks;
                    walks = walks.push(walk);
                    reveal(paths_end_well);
                    assert forall|i: int| 0 <= i < paths@.len() implies {
                        &&& built_from(#[trigger] paths@[i], *graph, walks[i], passengers, arrival)
                        &&& ends_at_destination(*graph, start, dest, walks[i])
                        &&& ends_at_arrival_or_transfer(*graph, start, walks[i])
                    } by {
                        if i < paths@.len() - 1 {
                            assert(paths@[i] == paths_before[i]);
                            assert(walks[i] == walks_before[i]);
                        }
                    }
                    assert forall|i: int| 0 <= i < paths@.len() implies is_found_path(*graph, start, dest, #[trigger] paths@[i], passengers, arrival) by {
                        if i == paths@.len() - 1 {
                            assert(crate::path::built_from(paths@[i], *graph, walk, passengers, arrival));
                        }
                    }
                    assert(paths_end_well(*graph, start, dest, paths@, walks, passengers, arrival));
                }
            } else {
                assert(paths_end_well(*graph, start, dest, paths@, walks, passengers, arrival));
            }
            assert(paths_end_well(*graph, start, dest, paths@, walks, passengers, arrival));
            proof {
                broadcast use vstd::seq_lib::group_to_multiset_ensures;
                broadcast use vstd::multiset::group_multiset_axioms;
                let rest = routes_view(routes@).filter(route_usable(*graph, arrival));
                if route_usable(*graph, arrival)(route@) {
                    assert(paths@ == paths_before.push(paths@.last()));
                    assert(path_signature(paths@.last()) == walk_signature(*graph, route@, passengers, arrival));
                    assert(paths_signatures(paths@) =~= paths_signatures(paths_before).push(path_signature(paths@.last())));
                    assert(walks_signatures(*graph, rest.push(route@), passengers, arrival) =~= walks_signatures(*graph, rest, passengers, arrival).push(
                        walk_signature(*graph, route@, passengers, arrival),
                    ));
                    assert(paths_signatures(paths@).to_multiset().add(walks_signatures(*graph, rest, passengers, arrival).to_multiset())
                        =~= paths_signatures(paths_before).to_multiset().add(walks_signatures(*graph, rest.push(route@), passengers, arrival).to_multiset()));
                } else {
                    assert(paths@ == paths_before);
                }
            }
        }
        proof {
            assert(routes_view(routes@) =~= Seq::<Seq<usize>>::empty());
            assert(routes_view(routes@).filter(route_usable(*graph, arrival)) =~= Seq::<Seq<usize>>::empty());
            broadcast use vstd::multiset::group_multiset_axioms;
            broadcast use vstd::multiset::group_multiset_properties;
            broadcast use vstd::seq_lib::group_to_multiset_ensures;
            assert(walks_signatures(*graph, Seq::<Seq<usize>>::empty(), passengers, arrival) =~= Seq::empty());
            assert(walks_signatures(*graph, Seq::<Seq<usize>>::empty(), passengers, arrival).to_multiset().len() == 0);
            assert(paths_signatures(paths@).to_multiset() =~= walks_signatures(*graph, usable, passengers, arrival).to_multiset());
        }
        let ghost fitted = paths@;
        let ghost fitted_walks = walks;
        proof {
            broadcast use vstd::seq_lib::group_to_multiset_ensures;
            assert(walks_signatures(*graph, usable, passengers, arrival).len() == usable.len());
            assert(paths_signatures(paths@).len() == paths@.len());
            assert(paths_signatures(paths@).to_multiset().len() == paths_signatures(paths@).len());
            assert(walks_signatures(*graph, usable, passengers, arrival).to_multiset().len() == usable.len());
        }
        if paths.len() == 0 {
            paths = Path::dfs_visitor_search(
                graph,
                start,
                self.destination_station_id,
                self.passengers,
                self.arrival_time,
                0,
            );
        }
        let ghost unsorted = paths@;
        let sorted = sort_paths_by_cost(paths);
        proof {
            lemma_paths_signatures_multiset(sorted@, unsorted);
            if usable.len() > 0 {
                assert(unsorted == fitted);
            } else {
                let walks = dfs_found_walks(*graph, start, dest, passengers, arrival, 0);
                assert(paths_signatures(unsorted) =~= walks_signatures(*graph, walks, passengers, arrival)) by {
                    assert forall|i: int| 0 <= i < unsorted.len() implies #[trigger] path_signature(unsorted[i])
                        == walk_signature(*graph, walks[i], passengers, arrival) by {
                        assert(crate::path::built_from(unsorted[i], *graph, walks[i], passengers, arrival));
                    }
                }
            }
            assert(usable == iddfs_routes(model.graph, start, dest, search_budgets@, min_paths as int).filter(
                route_usable(model.graph, arrival),
            ));
            assert forall|i: int| 0 <= i < sorted@.len() implies is_found_path(*graph, start, dest, #[trigger] sorted@[i], passengers, arrival) by {
                vstd::seq_lib::to_multiset_contains(sorted@, sorted@[i]);
                vstd::seq_lib::to_multiset_contains(paths@, sorted@[i]);
                assert(sorted@.contains(sorted@[i]));
                let q = choose|q: int| 0 <= q < paths@.len() && paths@[q] == sorted@[i];
                assert(is_found_path(*graph, start, dest, paths@[q], passengers, arrival));
            }
            let kinds = usable.len() > 0 || !at_station(graph_nodes(*graph), start, dest);
            assert forall|i: int| 0 <= i < sorted@.len() implies #[trigger] walk_reaches(
                *graph,
                start,
                dest,
                sorted@[i],
                passengers,
                arrival,
                kinds,
            ) by {
                vstd::seq_lib::to_multiset_contains(sorted@, sorted@[i]);
                vstd::seq_lib::to_multiset_contains(unsorted, sorted@[i]);
                assert(sorted@.contains(sorted@[i]));
                let q = choose|q: int| 0 <= q < unsorted.len() && unsorted[q] == sorted@[i];
                if usable.len() > 0 {
                    assert(unsorted[q] == fitted[q]);
                    reveal(paths_end_well);
                    let w = fitted_walks[q];
                    assert(built_from(fitted[q], *graph, w, passengers, arrival));
                    assert(built_from(sorted@[i], *graph, w, passengers, arrival));
                } else {
                    let w = dfs_found_walks(*graph, start, dest, passengers, arrival, 0)[q];
                    assert(built_from(unsorted[q], *graph, w, passengers, arrival));
                    assert(crate::search::leads_to_station(*graph, start, dest, w, arrival));
                    let end = walk_end(graph_edges(*graph), start, w);
                    assert forall|n: usize| #[trigger] at_station(graph_nodes(*graph), n, dest) implies graph_nodes(
                        *graph,
                    )[n as int].spec_station_name() == graph_nodes(*graph)[end as int].spec_station_name() by {
                        assert(graph_nodes(*graph)[n as int].spec_station_name() == graph_nodes(*graph)[n as int].spec_station_name());
                        assert(graph_nodes(*graph)[end as int].spec_station_name() == graph_nodes(*graph)[end as int].spec_station_name());
                    }
                    assert(ends_at_destination(*graph, start, dest, w));
                    assert(built_from(sorted@[i], *graph, w, passengers, arrival));
                }
            }
            assert(paths_reach(*graph, start, dest, sorted@, passengers, arrival, kinds));
            assert(old(self).is_start_node(model, start));
        }
        self.paths = sorted;
        proof {
            assert(self.paths@ == sorted@);
        }
        self.paths.len()
    }
}

} // verus!
