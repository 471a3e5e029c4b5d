//! Selections of one path per travel group, and their cost: the overload of the
//! strained trips plus the travel cost and delay of the selected paths.

use vstd::prelude::*;
use std::collections::HashSet;
use vstd::std_specs::iter::IteratorSpec;
use rand::rngs::ThreadRng;
use rand::Rng;
use crate::graph::{graph_edge, graph_edge_count, graph_edges, graph_nodes, GraphEdge, TimetableGraph};
use crate::group::Group;
use crate::load::{
    lemma_fit_prefix, lemma_load_update, lemma_loaded_empty, lemma_loaded_same, lemma_relieve_loaded,
    lemma_seq_cost, lemma_strain_loaded, lemma_strained_cost_subset, lemma_strained_set_cost,
    lemma_selection_overload_is_total, lemma_strained_set_initial, lemma_strained_set_relieve, lemma_strained_set_strain, lemma_union_exists,
    lemma_union_remove, lemma_union_update, lemma_edge_cost_bounded, load_on, loaded_edges, path_union, seq_cost, strained_cost,
    strained_cost_upto, strained_set_ok, total_overload, trip_loads_fit, unloaded,
};
use crate::path::{built_from, edges_exist, fits_new_path, path_fits, Path};
use crate::graph::{graph_edge_endpoints, graph_node};
use crate::index_set::{
    index_set_clone, index_set_contains, index_set_get, index_set_insert, index_set_items, index_set_len,
    index_set_new, index_set_reverse, seq_dedup,
};
use crate::search::{dfs_found_walks, is_found_path, searchable};
use indexmap::IndexSet;

verus! {

broadcast use vstd::std_specs::hash::group_hash_axioms;

#[verifier::external_type_specification]
#[verifier::external_body]
pub struct ExThreadRng(rand::rngs::ThreadRng);

/// `rand::thread_rng`: the thread's random number generator.
#[verifier::external_body]
pub(crate) fn new_thread_rng() -> ThreadRng {
    rand::thread_rng()
}

/// `Rng::gen::<usize>`: a random `usize`; nothing is known of which.
#[verifier::external_body]
pub(crate) fn random_usize(rng: &mut ThreadRng) -> usize {
    rng.gen::<usize>()
}

/// the path of each group that `index` selects (for as many groups as `index` covers)
pub open spec fn selected_paths(groups: Seq<Group>, index: Seq<usize>) -> Seq<Path> {
    Seq::new(
        if index.len() <= groups.len() {
            index.len()
        } else {
            groups.len()
        },
        |g: int| groups[g].paths@[index[g] as int],
    )
}

/// `index` selects an existing path for every group
pub open spec fn valid_selection(groups: Seq<Group>, index: Seq<usize>) -> bool {
    &&& index.len() == groups.len()
    &&& forall|g: int| 0 <= g < index.len() ==> #[trigger] index[g] < groups[g].paths@.len()
}

/// summed travel cost of `paths`
pub open spec fn paths_travel_cost_sum(paths: Seq<Path>) -> int
    decreases paths.len(),
{
    if paths.len() == 0 {
        0
    } else {
        paths_travel_cost_sum(paths.drop_last()) + paths.last().spec_travel_cost()
    }
}

/// summed delay of `paths`
pub open spec fn paths_delay_sum(paths: Seq<Path>) -> int
    decreases paths.len(),
{
    if paths.len() == 0 {
        0
    } else {
        paths_delay_sum(paths.drop_last()) + paths.last().spec_travel_delay()
    }
}

/// summed cost (travel cost plus delay) of `paths`
pub open spec fn paths_cost_sum(paths: Seq<Path>) -> int
    decreases paths.len(),
{
    if paths.len() == 0 {
        0
    } else {
        paths_cost_sum(paths.drop_last()) + paths.last().spec_cost()
    }
}

/// every path of every group takes edges of `edges`
pub open spec fn paths_in_graph(groups: Seq<Group>, edges: Seq<GraphEdge>) -> bool {
    forall|g: int, k: int|
        0 <= g < groups.len() && 0 <= k < groups[g].paths@.len() ==> edges_exist(
            edges,
            #[trigger] groups[g].paths@[k].edge_seq(),
        )
}

/// the costs of selecting `paths` on `edges` fit the integer types they are computed in
pub open spec fn selection_fits(edges: Seq<GraphEdge>, paths: Seq<Path>) -> bool {
    let loaded = loaded_edges(edges, paths);
    &&& trip_loads_fit(edges, paths)
    &&& total_overload(loaded) <= i64::MAX
    &&& paths_travel_cost_sum(paths) <= i64::MAX
    &&& i64::MIN <= paths_delay_sum(paths) <= i64::MAX
    &&& i64::MIN <= paths_cost_sum(paths)
    &&& total_overload(loaded) + paths_cost_sum(paths) <= i64::MAX
}

/// every selection of a path per group fits on `edges`
pub open spec fn all_selections_fit(edges: Seq<GraphEdge>, groups: Seq<Group>) -> bool {
    forall|index: Seq<usize>| #[trigger] valid_selection(groups, index) ==> selection_fits(edges, selected_paths(groups, index))
}

/// the selections that differ from `index` only in group `g`, switched to each of
/// its paths below `p` but the selected one
pub open spec fn group_alternatives(index: Seq<usize>, g: int, p: int) -> Seq<Seq<usize>>
    decreases p,
{
    if p <= 0 {
        Seq::empty()
    } else {
        let rest = group_alternatives(index, g, p - 1);
        if index[g] == (p - 1) as usize {
            rest
        } else {
            rest.push(index.update(g, (p - 1) as usize))
        }
    }
}

/// the selections that differ from `index` in one of the groups below `g` only, by
/// group and then by path
pub open spec fn group_neighbors_upto(groups: Seq<Group>, index: Seq<usize>, g: int) -> Seq<Seq<usize>>
    decreases g,
{
    if g <= 0 {
        Seq::empty()
    } else {
        group_neighbors_upto(groups, index, g - 1) + group_alternatives(index, g - 1, groups[g - 1].paths@.len() as int)
    }
}

/// the selections that differ from `index` only in group `g`, switched to the path
/// before the selected one (if there is one) and to the path after it (if there is one)
pub open spec fn direct_alternatives(groups: Seq<Group>, index: Seq<usize>, g: int) -> Seq<Seq<usize>> {
    (if index[g] != 0 {
        seq![index.update(g, (index[g] - 1) as usize)]
    } else {
        Seq::empty()
    }) + (if index[g] != groups[g].paths@.len() - 1 {
        seq![index.update(g, (index[g] + 1) as usize)]
    } else {
        Seq::empty()
    })
}

/// the direct alternatives of the groups below `g`, by group
pub open spec fn direct_neighbors_upto(groups: Seq<Group>, index: Seq<usize>, g: int) -> Seq<Seq<usize>>
    decreases g,
{
    if g <= 0 {
        Seq::empty()
    } else {
        direct_neighbors_upto(groups, index, g - 1) + direct_alternatives(groups, index, g - 1)
    }
}

/// The sets of strained edges over which `SelectionState::all_group_neighbors` takes
/// the overload costs of the alternatives of group `g` among its paths below `p`, in
/// their order (second), and the set it holds after them (first), starting from
/// `set`: each path but the selected one is put on (its edges join the set, which
/// gives that alternative's set) and taken off again (those of its edges left
/// without passengers leave the set).
pub open spec fn alternative_sets(
    edges: Seq<GraphEdge>,
    groups: Seq<Group>,
    index: Seq<usize>,
    g: int,
    p: int,
    set: Set<usize>,
) -> (Set<usize>, Seq<Set<usize>>)
    decreases p,
{
    if p <= 0 {
        (set, Seq::empty())
    } else {
        let before = alternative_sets(edges, groups, index, g, p - 1, set);
        if index[g] == (p - 1) as usize {
            before
        } else {
            let base = loaded_edges(edges, selected_paths(groups, index).remove(g));
            let path = groups[g].paths@[p - 1];
            let with_path = before.0.union(path.edge_seq().to_set());
            (relieved(with_path, path, base), before.1.push(with_path))
        }
    }
}

/// The sets of strained edges over which `SelectionState::all_group_neighbors` takes
/// the overload costs of the neighbors of the selection `index` for the groups below
/// `g`, in the order of `group_neighbors_upto` (second), and the set it holds after
/// them (first). It starts with the edges of the selection; for each group in turn,
/// the group's path is taken off the graph (those of its edges left without
/// passengers leave the set), its alternatives are costed (see `alternative_sets`),
/// and the group's path is put back (its edges join the set).
pub open spec fn group_neighbor_sets(edges: Seq<GraphEdge>, groups: Seq<Group>, index: Seq<usize>, g: int) -> (
    Set<usize>,
    Seq<Set<usize>>,
)
    decreases g,
{
    if g <= 0 {
        (path_union(selected_paths(groups, index)), Seq::empty())
    } else {
        let before = group_neighbor_sets(edges, groups, index, g - 1);
        let sel = selected_paths(groups, index);
        let base = loaded_edges(edges, sel.remove(g - 1));
        let own = sel[g - 1];
        let alternatives = alternative_sets(
            edges,
            groups,
            index,
            g - 1,
            groups[g - 1].paths@.len() as int,
            relieved(before.0, own, base),
        );
        (alternatives.0.union(own.edge_seq().to_set()), before.1 + alternatives.1)
    }
}

/// There are as many alternative sets as alternatives.
pub proof fn lemma_alternative_sets_len(edges: Seq<GraphEdge>, groups: Seq<Group>, index: Seq<usize>, g: int, p: int, set: Set<usize>)
    ensures
        alternative_sets(edges, groups, index, g, p, set).1.len() == group_alternatives(index, g, p).len(),
    decreases p,
{
    if p > 0 {
        lemma_alternative_sets_len(edges, groups, index, g, p - 1, set);
    }
}

/// There are as many neighbor sets as neighbors.
pub proof fn lemma_group_neighbor_sets_len(edges: Seq<GraphEdge>, groups: Seq<Group>, index: Seq<usize>, g: int)
    ensures
        group_neighbor_sets(edges, groups, index, g).1.len() == group_neighbors_upto(groups, index, g).len(),
    decreases g,
{
    if g > 0 {
        lemma_group_neighbor_sets_len(edges, groups, index, g - 1);
        let before = group_neighbor_sets(edges, groups, index, g - 1);
        let sel = selected_paths(groups, index);
        let base = loaded_edges(edges, sel.remove(g - 1));
        lemma_alternative_sets_len(
            edges,
            groups,
            index,
            g - 1,
            groups[g - 1].paths@.len() as int,
            relieved(before.0, sel[g - 1], base),
        );
    }
}

/// `set` without those edges of `path` that carry no passengers in `edges`
pub open spec fn relieved(set: Set<usize>, path: Path, edges: Seq<GraphEdge>) -> Set<usize> {
    set.difference(path.edge_seq().to_set().filter(|e: usize| edges[e as int].2.spec_utilization() == 0))
}

/// The sets of strained edges over which `SelectionState::all_direct_neighbors` takes
/// the overload costs of the direct neighbors of the selection `index` for the groups
/// below `g`, in the order of `direct_neighbors_upto` (second), and the set it holds
/// after them (first). It starts with the edges of the selection. For each group in
/// turn, the group's path is taken off the graph (those of its edges left without
/// passengers leave the set); each alternative path is put on (its edges join the
/// set, which gives that neighbor's set) and taken off again; the group's path is put
/// back (its edges join the set).
pub open spec fn direct_neighbor_sets(edges: Seq<GraphEdge>, groups: Seq<Group>, index: Seq<usize>, g: int) -> (
    Set<usize>,
    Seq<Set<usize>>,
)
    decreases g,
{
    if g <= 0 {
        (path_union(selected_paths(groups, index)), Seq::empty())
    } else {
        let before = direct_neighbor_sets(edges, groups, index, g - 1);
        let sel = selected_paths(groups, index);
        let base = loaded_edges(edges, sel.remove(g - 1));
        let own = sel[g - 1];
        let i = index[g - 1];
        let s1 = relieved(before.0, own, base);
        let down = groups[g - 1].paths@[i - 1];
        let with_down = s1.union(down.edge_seq().to_set());
        let s2 = if i != 0 { relieved(with_down, down, base) } else { s1 };
        let sets2 = if i != 0 { before.1.push(with_down) } else { before.1 };
        let up = groups[g - 1].paths@[i + 1];
        let with_up = s2.union(up.edge_seq().to_set());
        let s3 = if i != groups[g - 1].paths@.len() - 1 { relieved(with_up, up, base) } else { s2 };
        let sets3 = if i != groups[g - 1].paths@.len() - 1 { sets2.push(with_up) } else { sets2 };
        (s3.union(own.edge_seq().to_set()), sets3)
    }
}

/// The cost `SelectionState::all_direct_neighbors` gives the direct neighbor at
/// position `k` of the selection `index`: the overload cost of its selection over
/// its set of strained edges (see `direct_neighbor_sets`), plus its travel cost and
/// delay.
pub open spec fn direct_neighbor_cost(edges: Seq<GraphEdge>, groups: Seq<Group>, index: Seq<usize>, k: int) -> int {
    let sel = selected_paths(groups, direct_neighbors_upto(groups, index, groups.len() as int)[k]);
    strained_cost(loaded_edges(edges, sel), direct_neighbor_sets(edges, groups, index, groups.len() as int).1[k])
        + paths_travel_cost_sum(sel) + paths_delay_sum(sel)
}

/// There are as many neighbor sets as direct neighbors.
pub proof fn lemma_direct_neighbor_sets_len(edges: Seq<GraphEdge>, groups: Seq<Group>, index: Seq<usize>, g: int)
    ensures
        direct_neighbor_sets(edges, groups, index, g).1.len() == direct_neighbors_upto(groups, index, g).len(),
    decreases g,
{
    if g > 0 {
        lemma_direct_neighbor_sets_len(edges, groups, index, g - 1);
    }
}

/// the groups (ascending) whose path in `paths` takes the edge `e`
pub open spec fn groups_using(paths: Seq<Path>, e: usize) -> Seq<usize>
    decreases paths.len(),
{
    if paths.len() == 0 {
        Seq::empty()
    } else {
        groups_using(paths.drop_last(), e) + if paths.last().edge_seq().contains(e) {
            seq![(paths.len() - 1) as usize]
        } else {
            Seq::empty()
        }
    }
}

/// `e` is an edge of `paths` whose trip is over capacity with their passengers on `edges`
pub open spec fn is_overcrowded(edges: Seq<GraphEdge>, paths: Seq<Path>, e: usize) -> bool {
    &&& path_union(paths).contains(e)
    &&& e < edges.len()
    &&& loaded_edges(edges, paths)[e as int].2.spec_utilization_cost() > 0
}

/// the station of the node the last edge of `path` leads to
pub open spec fn end_station(graph: TimetableGraph, path: Seq<usize>) -> Option<u64> {
    graph_nodes(graph)[graph_edges(graph)[path.last() as int].1 as int].spec_station_id()
}

/// `p` is a detour of the path `path` for `passengers` planned to arrive at `planned`:
/// the edges of `path` before its edge at position `k` (below `cut`), then those of
/// a path found from that edge's source to the station `station`
pub open spec fn is_detour(
    graph: TimetableGraph,
    path: Seq<usize>,
    cut: int,
    station: u64,
    p: Path,
    passengers: u64,
    planned: u64,
) -> bool {
    exists|k: int, d: Path|
        {
            &&& 0 <= k < cut
            &&& is_found_path(graph, graph_edges(graph)[path[k] as int].0, station, d, passengers, planned)
            &&& #[trigger] built_from(p, graph, seq_dedup(path.take(k) + d.edge_seq()), passengers, planned)
        }
}

/// The position of the edge of `path`, among its first `upto` ones and trying the
/// latest first, from whose source `Path::dfs_visitor_search` (with no limit) finds
/// more than two paths to the station `station`; none if there is no such edge.
pub open spec fn detour_position(
    graph: TimetableGraph,
    path: Seq<usize>,
    upto: int,
    station: u64,
    passengers: u64,
    planned: u64,
) -> Option<int>
    decreases upto,
{
    if upto <= 0 {
        None
    } else if dfs_found_walks(graph, graph_edges(graph)[path[upto - 1] as int].0, station, passengers, planned, 0).len() > 2 {
        Some(upto - 1)
    } else {
        detour_position(graph, path, upto - 1, station, passengers, planned)
    }
}

/// The walk of the detour of `path` before its position `cut` to the station
/// `station`: the edges of `path` before the position given by `detour_position`,
/// then the edges of the found path picked by `path_draw` (modulo the number of
/// paths found), without repetitions; none when there is no such position.
pub open spec fn detour_walk(
    graph: TimetableGraph,
    path: Seq<usize>,
    cut: int,
    station: u64,
    passengers: u64,
    planned: u64,
    path_draw: usize,
) -> Option<Seq<usize>> {
    match detour_position(graph, path, cut, station, passengers, planned) {
        None => None,
        Some(k) => {
            let walks = dfs_found_walks(graph, graph_edges(graph)[path[k] as int].0, station, passengers, planned, 0);
            Some(seq_dedup(path.take(k) + seq_dedup(walks[path_draw as int % walks.len() as int])))
        },
    }
}

/// `result` is the detour found for the selected path (by `index`) of group `group`
/// of `groups` around its edge `edge`, with the draw `path_draw`: the path built from
/// the `detour_walk` before that edge to the station the path ends at, when there is
/// one and it fits (see `path_fits`); none otherwise.
pub open spec fn is_detour_result(
    graph: TimetableGraph,
    groups: Seq<Group>,
    index: Seq<usize>,
    group: usize,
    edge: usize,
    path_draw: usize,
    result: Option<Path>,
) -> bool {
    let g = groups[group as int];
    let path = g.paths@[index[group as int] as int].edge_seq();
    let walk = match end_station(graph, path) {
        Some(station) => detour_walk(graph, path, path.index_of(edge), station, g.passengers, g.arrival_time, path_draw),
        None => None,
    };
    match walk {
        Some(w) => if path_fits(graph, w, g.arrival_time) {
            result matches Some(p) && built_from(p, graph, w, g.passengers, g.arrival_time)
        } else {
            result is None
        },
        None => result is None,
    }
}

/// total cost of selecting `paths` on `edges`: overload of their edges plus their
/// travel cost and delay
pub open spec fn selection_cost(edges: Seq<GraphEdge>, paths: Seq<Path>) -> int {
    strained_cost(loaded_edges(edges, paths), path_union(paths)) + paths_travel_cost_sum(paths) + paths_delay_sum(paths)
}

/// the selection of the first path of every group
pub open spec fn first_paths(groups: Seq<Group>) -> Seq<usize> {
    Seq::new(groups.len(), |g: int| 0usize)
}

/// Some group has at least two paths: then every selection has a direct neighbor.
pub proof fn lemma_direct_neighbors_exist(groups: Seq<Group>, index: Seq<usize>, g: int, n: int)
    requires
        valid_selection(groups, index),
        0 <= g < n <= groups.len(),
        groups[g].paths@.len() >= 2,
    ensures
        direct_neighbors_upto(groups, index, n).len() > 0,
    decreases n,
{
    if g < n - 1 {
        lemma_direct_neighbors_exist(groups, index, g, n - 1);
    } else {
        assert(index[g] < groups[g].paths@.len());
        assert(direct_alternatives(groups, index, g).len() > 0);
    }
}

/// The cost of paths is their travel cost plus their delay.
pub proof fn lemma_paths_cost_sum(paths: Seq<Path>)
    ensures
        paths_cost_sum(paths) == paths_travel_cost_sum(paths) + paths_delay_sum(paths),
        paths_travel_cost_sum(paths) >= 0,
    decreases paths.len(),
{
    if paths.len() > 0 {
        lemma_paths_cost_sum(paths.drop_last());
    }
}

/// The paths of a selection take edges of the graph.
pub proof fn lemma_selection_in_graph(groups: Seq<Group>, index: Seq<usize>, edges: Seq<GraphEdge>)
    requires
        valid_selection(groups, index),
        paths_in_graph(groups, edges),
    ensures
        forall|k: int| 0 <= k < selected_paths(groups, index).len() ==> edges_exist(edges, #[trigger] selected_paths(groups, index)[k].edge_seq()),
        forall|e: usize| path_union(selected_paths(groups, index)).contains(e) ==> e < edges.len(),
{
    let sel = selected_paths(groups, index);
    assert forall|k: int| 0 <= k < sel.len() implies edges_exist(edges, #[trigger] sel[k].edge_seq()) by {
        assert(index[k] < groups[k].paths@.len());
        assert(edges_exist(edges, groups[k].paths@[index[k] as int].edge_seq()));
    }
    lemma_union_exists(edges, sel);
}

/// On a graph without passengers, the cost of a state evaluated there (as is every
/// neighbor that `SelectionState::all_direct_neighbors` and
/// `SelectionState::all_group_neighbors` give) is the overload summed over all edges,
/// with its selection on the graph, plus the travel cost and delay of its paths.
pub proof fn lemma_state_cost_is_total_overload<'a>(state: SelectionState<'a>, edges: Seq<GraphEdge>)
    requires
        unloaded(edges),
        edges.len() <= usize::MAX,
        state.evaluated_on(edges),
        all_selections_fit(edges, state.groups@),
    ensures
        state.cost == total_overload(loaded_edges(edges, state.selection())) + paths_travel_cost_sum(state.selection())
            + paths_delay_sum(state.selection()),
{
    assert(valid_selection(state.groups@, state.groups_path_index@));
    assert(selection_fits(edges, state.selection()));
    lemma_selection_overload_is_total(edges, state.selection());
}

/// The costs of a selection at some step of an optimization.
#[derive(Clone, Copy, Debug, PartialEq, Eq, Structural)]
pub struct CostRecord {
    /// the step (iteration or run) the costs were recorded at
    pub time: u64,
    pub cost: i64,
    pub strained_edges_cost: u64,
    pub travel_cost: u64,
    pub travel_delay_cost: i64,
}

/// A choice of one path per travel group (by index into each group's paths), with
/// its cost: the overload cost of the strained edges plus the travel cost and the
/// delay of the selected paths.
pub struct SelectionState<'a> {
    pub groups: &'a Vec<Group>,
    /// total cost of the selection
    pub cost: i64,
    /// overload cost of the strained trips
    pub strained_edges_cost: u64,
    /// summed travel cost of the selected paths
    pub travel_cost: u64,
    /// summed delay of the selected paths
    pub travel_delay_cost: i64,
    /// the index of the selected path of each group
    pub groups_path_index: Vec<usize>,
}

impl<'a> SelectionState<'a> {
    /// the selected paths
    pub open spec fn selection(&self) -> Seq<Path> {
        selected_paths(self.groups@, self.groups_path_index@)
    }

    /// The state's costs are those of selecting `paths` on `edges` (the graph's edges
    /// without the passengers of `paths`).
    pub open spec fn has_costs_of(&self, paths: Seq<Path>, edges: Seq<GraphEdge>) -> bool {
        &&& self.strained_edges_cost == strained_cost(loaded_edges(edges, paths), path_union(paths))
        &&& self.travel_cost == paths_travel_cost_sum(paths)
        &&& self.travel_delay_cost == paths_delay_sum(paths)
        &&& self.cost == self.strained_edges_cost + self.travel_cost + self.travel_delay_cost
    }

    /// The state selects a path for each group, and its costs are those of its
    /// selection on `edges`.
    pub open spec fn costs_on(&self, edges: Seq<GraphEdge>) -> bool {
        &&& valid_selection(self.groups@, self.groups_path_index@)
        &&& self.has_costs_of(self.selection(), edges)
    }

    /// The state selects a path for each group, its travel cost, delay and total cost
    /// are those of its selection, and, on edges without passengers, so is its
    /// overload cost.
    pub open spec fn evaluated_on(&self, edges: Seq<GraphEdge>) -> bool {
        &&& valid_selection(self.groups@, self.groups_path_index@)
        &&& self.travel_cost == paths_travel_cost_sum(self.selection())
        &&& self.travel_delay_cost == paths_delay_sum(self.selection())
        &&& self.cost == self.strained_edges_cost + self.travel_cost + self.travel_delay_cost
        &&& unloaded(edges) ==> self.costs_on(edges)
    }

    /// Summed overload cost of the strained edges (see `TimetableEdge::utilization_cost`).
    pub fn calculate_cost_of_strained_edges(graph: &mut TimetableGraph, strained_edges: &HashSet<usize>) -> (cost: u64)
        requires
            forall|e: usize| #[trigger] strained_edges@.contains(e) ==> e < graph_edges(*old(graph)).len(),
            strained_cost(graph_edges(*old(graph)), strained_edges@) <= u64::MAX,
        ensures
            *final(graph) == *old(graph),
            cost == strained_cost(graph_edges(*old(graph)), strained_edges@),
    {
        let ghost edges = graph_edges(*graph);
        let n = graph_edge_count(graph);
        let ghost keys = vstd::std_specs::hash::spec_hash_keys_iter(strained_edges).remaining();
        proof {
            assert(keys.unref().to_set() == strained_edges@);
            assert(keys.no_duplicates());
            assert(keys.unref().no_duplicates()) by {
                assert forall|a: int, b: int| 0 <= a < keys.unref().len() && 0 <= b < keys.unref().len() && a != b implies keys.unref()[a]
                    != keys.unref()[b] by {
                    assert(keys[a] != keys[b]);
                }
            }
        }
        let mut cost: u64 = 0;
        for e in it: strained_edges.iter()
            invariant
                keys == it.seq(),
                graph_edges(*graph) == edges,
                n == edges.len(),
                keys.unref().to_set() == strained_edges@,
                keys.unref().no_duplicates(),
                forall|x: usize| #[trigger] strained_edges@.contains(x) ==> x < n,
                strained_cost(edges, strained_edges@) <= u64::MAX,
                cost == seq_cost(edges, keys.unref().take(it.index() as int)),
        {
            let ghost i = it.index() as int;
            let ghost prefix = keys.unref().take(i + 1);
            proof {
                assert(keys.unref()[i] == *e);
                assert(strained_edges@.contains(*e));
                assert(prefix.drop_last() == keys.unref().take(i));
                assert(prefix.no_duplicates());
                assert forall|k: int| 0 <= k < prefix.len() implies #[trigger] prefix[k] < n by {
                    assert(strained_edges@.contains(prefix[k]));
                }
                lemma_seq_cost(edges, prefix, n as int);
                assert(prefix.to_set().subset_of(strained_edges@));
                lemma_strained_cost_subset(edges, prefix.to_set(), strained_edges@, n as int);
                lemma_seq_cost(edges, keys.unref().take(i), n as int);
                lemma_strained_cost_subset(edges, keys.unref().take(i).to_set(), strained_edges@, n as int);
            }
            let c = graph_edge(graph, *e).utilization_cost();
            cost = cost + c;
        }
        proof {
            assert(keys.unref().take(keys.len() as int) == keys.unref());
            assert forall|k: int| 0 <= k < keys.unref().len() implies #[trigger] keys.unref()[k] < n by {
                assert(keys.unref().to_set().contains(keys.unref()[k]));
            }
            lemma_seq_cost(edges, keys.unref(), n as int);
        }
        cost
    }

    /// Summed cost (travel cost plus delay) of the selected paths, for as many
    /// groups as `groups_path_index` covers.
    pub fn calculate_cost_sum_of_selected_paths(groups: &Vec<Group>, groups_path_index: &Vec<usize>) -> (cost: i64)
        requires
            forall|g: int|
                0 <= g < groups@.len() && 0 <= g < groups_path_index@.len() ==> #[trigger] groups_path_index@[g]
                    < groups@[g].paths@.len(),
            i64::MIN <= paths_cost_sum(selected_paths(groups@, groups_path_index@)) <= i64::MAX,
        ensures
            cost == paths_cost_sum(selected_paths(groups@, groups_path_index@)),
    {
        let ghost sel = selected_paths(groups@, groups_path_index@);
        let n = if groups.len() <= groups_path_index.len() {
            groups.len()
        } else {
            groups_path_index.len()
        };
        let mut sum: i128 = 0;
        let mut g: usize = 0;
        while g < n
            invariant
                n == sel.len(),
                g <= n,
                n <= groups@.len(),
                n <= groups_path_index@.len(),
                sel == selected_paths(groups@, groups_path_index@),
                forall|q: int|
                    0 <= q < groups@.len() && 0 <= q < groups_path_index@.len() ==> #[trigger] groups_path_index@[q]
                        < groups@[q].paths@.len(),
                sum == paths_cost_sum(sel.take(g as int)),
                -(g as int) * 0x8000_0000_0000_0000 <= sum <= (g as int) * 0x7fff_ffff_ffff_ffff,
            decreases n - g,
        {
            let c = groups[g].paths[groups_path_index[g]].cost();
            proof {
                assert(sel.take(g + 1).drop_last() == sel.take(g as int));
                assert(sel.take(g + 1).last() == sel[g as int]);
            }
            sum = sum + c as i128;
            g = g + 1;
        }
        proof {
            assert(sel.take(n as int) == sel);
        }
        sum as i64
    }

    /// summed travel cost of the selected paths
    fn travel_cost_sum(groups: &Vec<Group>, groups_path_index: &Vec<usize>) -> (cost: u64)
        requires
            valid_selection(groups@, groups_path_index@),
            paths_travel_cost_sum(selected_paths(groups@, groups_path_index@)) <= u64::MAX,
        ensures
            cost == paths_travel_cost_sum(selected_paths(groups@, groups_path_index@)),
    {
        let ghost sel = selected_paths(groups@, groups_path_index@);
        let mut sum: u128 = 0;
        let mut g: usize = 0;
        while g < groups_path_index.len()
            invariant
                valid_selection(groups@, groups_path_index@),
                sel == selected_paths(groups@, groups_path_index@),
                sel.len() == groups_path_index@.len(),
                g <= groups_path_index@.len(),
                sum == paths_travel_cost_sum(sel.take(g as int)),
                0 <= sum <= (g as int) * 0xffff_ffff_ffff_ffff,
            decreases groups_path_index@.len() - g,
        {
            let c = groups[g].paths[groups_path_index[g]].travel_cost();
            proof {
                assert(sel.take(g + 1).drop_last() == sel.take(g as int));
                assert(sel.take(g + 1).last() == sel[g as int]);
            }
            sum = sum + c as u128;
            g = g + 1;
        }
        proof {
            assert(sel.take(groups_path_index@.len() as int) == sel);
        }
        sum as u64
    }

    /// summed delay of the selected paths
    fn delay_sum(groups: &Vec<Group>, groups_path_index: &Vec<usize>) -> (delay: i64)
        requires
            valid_selection(groups@, groups_path_index@),
            i64::MIN <= paths_delay_sum(selected_paths(groups@, groups_path_index@)) <= i64::MAX,
        ensures
            delay == paths_delay_sum(selected_paths(groups@, groups_path_index@)),
    {
        let ghost sel = selected_paths(groups@, groups_path_index@);
        let mut sum: i128 = 0;
        let mut g: usize = 0;
        while g < groups_path_index.len()
            invariant
                valid_selection(groups@, groups_path_index@),
                sel == selected_paths(groups@, groups_path_index@),
                sel.len() == groups_path_index@.len(),
                g <= groups_path_index@.len(),
                sum == paths_delay_sum(sel.take(g as int)),
                -(g as int) * 0x8000_0000_0000_0000 <= sum <= (g as int) * 0x7fff_ffff_ffff_ffff,
            decreases groups_path_index@.len() - g,
        {
            let d = groups[g].paths[groups_path_index[g]].travel_delay();
            proof {
                assert(sel.take(g + 1).drop_last() == sel.take(g as int));
                assert(sel.take(g + 1).last() == sel[g as int]);
            }
            sum = sum + d as i128;
            g = g + 1;
        }
        proof {
            assert(sel.take(groups_path_index@.len() as int) == sel);
        }
        sum as i64
    }

    /// Puts the passengers of the selected paths onto the graph, in the order of the
    /// groups, and records their edges as strained.
    fn strain_selection(
        graph: &mut TimetableGraph,
        groups: &Vec<Group>,
        index: &Vec<usize>,
        strained: &mut HashSet<usize>,
        Ghost(edges0): Ghost<Seq<GraphEdge>>,
    )
        requires
            valid_selection(groups@, index@),
            paths_in_graph(groups@, edges0),
            graph_edges(*old(graph)) == edges0,
            trip_loads_fit(edges0, selected_paths(groups@, index@)),
        ensures
            graph_edges(*final(graph)) == loaded_edges(edges0, selected_paths(groups@, index@)),
            graph_nodes(*final(graph)) == graph_nodes(*old(graph)),
            final(strained)@ == old(strained)@.union(path_union(selected_paths(groups@, index@))),
    {
        let ghost sel = selected_paths(groups@, index@);
        proof {
            lemma_loaded_empty(edges0);
            assert(sel.take(0) =~= Seq::<Path>::empty());
            assert(strained@ =~= strained@.union(path_union(sel.take(0))));
            lemma_selection_in_graph(groups@, index@, edges0);
        }
        let mut g: usize = 0;
        while g < index.len()
            invariant
                g <= index@.len(),
                sel == selected_paths(groups@, index@),
                valid_selection(groups@, index@),
                sel.len() == index@.len(),
                forall|k: int| 0 <= k < sel.len() ==> edges_exist(edges0, #[trigger] sel[k].edge_seq()),
                trip_loads_fit(edges0, sel),
                graph_edges(*graph) == loaded_edges(edges0, sel.take(g as int)),
                graph_nodes(*graph) == graph_nodes(*old(graph)),
                strained@ == old(strained)@.union(path_union(sel.take(g as int))),
            decreases index@.len() - g,
        {
            let path = &groups[g].paths[index[g]];
            proof {
                assert(sel[g as int] == *path);
                assert(sel.take(g + 1) == sel.take(g as int).push(*path));
                assert(sel.take(g + 1).drop_last() == sel.take(g as int));
                lemma_fit_prefix(edges0, sel, g + 1);
                lemma_strain_loaded(edges0, sel.take(g as int), *path);
                assert(edges_exist(edges0, path.edge_seq()));
                assert(edges_exist(graph_edges(*graph), path.edge_seq()));
            }
            path.strain_to_graph(graph, strained);
            proof {
                assert(strained@ =~= old(strained)@.union(path_union(sel.take(g + 1))));
            }
            g = g + 1;
        }
        proof {
            assert(sel.take(index@.len() as int) == sel);
        }
    }

    /// Takes the passengers of the selected paths off the graph again, in the order
    /// of the groups.
    fn relieve_selection(
        graph: &mut TimetableGraph,
        groups: &Vec<Group>,
        index: &Vec<usize>,
        strained: &mut HashSet<usize>,
        Ghost(edges0): Ghost<Seq<GraphEdge>>,
    )
        requires
            valid_selection(groups@, index@),
            paths_in_graph(groups@, edges0),
            trip_loads_fit(edges0, selected_paths(groups@, index@)),
            graph_edges(*old(graph)) == loaded_edges(edges0, selected_paths(groups@, index@)),
        ensures
            graph_edges(*final(graph)) == edges0,
            graph_nodes(*final(graph)) == graph_nodes(*old(graph)),
    {
        let ghost sel = selected_paths(groups@, index@);
        proof {
            lemma_selection_in_graph(groups@, index@, edges0);
            assert(sel.skip(0) == sel);
        }
        let mut g: usize = 0;
        while g < index.len()
            invariant
                g <= index@.len(),
                sel == selected_paths(groups@, index@),
                valid_selection(groups@, index@),
                sel.len() == index@.len(),
                forall|k: int| 0 <= k < sel.len() ==> edges_exist(edges0, #[trigger] sel[k].edge_seq()),
                trip_loads_fit(edges0, sel.skip(g as int)),
                graph_edges(*graph) == loaded_edges(edges0, sel.skip(g as int)),
                graph_nodes(*graph) == graph_nodes(*old(graph)),
            decreases index@.len() - g,
        {
            let path = &groups[g].paths[index[g]];
            proof {
                let rest = sel.skip(g as int);
                assert(rest[0] == *path);
                assert(rest.remove(0) == sel.skip(g + 1));
                lemma_relieve_loaded(edges0, rest, 0);
                assert(edges_exist(edges0, path.edge_seq()));
                assert(edges_exist(graph_edges(*graph), path.edge_seq()));
            }
            path.relieve_from_graph(graph, strained);
            g = g + 1;
        }
        proof {
            assert(sel.skip(index@.len() as int) =~= Seq::<Path>::empty());
            lemma_loaded_empty(edges0);
        }
    }

    /// The costs of selecting the paths `index` of `groups`: overload cost of the
    /// strained edges, travel cost, delay, and their total. The graph is loaded with
    /// the selection while its overload is summed, and is unchanged afterwards.
    fn evaluate_selection(graph: &mut TimetableGraph, groups: &Vec<Group>, index: &Vec<usize>) -> (costs: (u64, u64, i64, i64))
        requires
            valid_selection(groups@, index@),
            paths_in_graph(groups@, graph_edges(*old(graph))),
            selection_fits(graph_edges(*old(graph)), selected_paths(groups@, index@)),
        ensures
            graph_edges(*final(graph)) == graph_edges(*old(graph)),
            graph_nodes(*final(graph)) == graph_nodes(*old(graph)),
            ({
                let paths = selected_paths(groups@, index@);
                &&& costs.0 == strained_cost(loaded_edges(graph_edges(*old(graph)), paths), path_union(paths))
                &&& costs.1 == paths_travel_cost_sum(paths)
                &&& costs.2 == paths_delay_sum(paths)
                &&& costs.3 == costs.0 + costs.1 + costs.2
            }),
    {
        let ghost edges0 = graph_edges(*graph);
        let ghost sel = selected_paths(groups@, index@);
        let mut strained: HashSet<usize> = HashSet::new();
        Self::strain_selection(graph, groups, index, &mut strained, Ghost(edges0));
        proof {
            let loaded = loaded_edges(edges0, sel);
            lemma_selection_in_graph(groups@, index@, edges0);
            assert(strained@ =~= path_union(sel));
            lemma_strained_cost_subset(loaded, path_union(sel), Set::new(|i: usize| true), loaded.len() as int);
            lemma_paths_cost_sum(sel);
        }
        let strained_edges_cost = Self::calculate_cost_of_strained_edges(graph, &strained);
        let travel_cost = Self::travel_cost_sum(groups, index);
        let travel_delay_cost = Self::delay_sum(groups, index);
        let cost = (strained_edges_cost as i64) + Self::calculate_cost_sum_of_selected_paths(groups, index);
        Self::relieve_selection(graph, groups, index, &mut strained, Ghost(edges0));
        (strained_edges_cost, travel_cost, travel_delay_cost, cost)
    }

    /// The state that selects the paths `index` of `groups`, with its costs.
    fn from_selection(graph: &mut TimetableGraph, groups: &'a Vec<Group>, index: Vec<usize>) -> (state: Self)
        requires
            valid_selection(groups@, index@),
            paths_in_graph(groups@, graph_edges(*old(graph))),
            selection_fits(graph_edges(*old(graph)), selected_paths(groups@, index@)),
        ensures
            graph_edges(*final(graph)) == graph_edges(*old(graph)),
            graph_nodes(*final(graph)) == graph_nodes(*old(graph)),
            state.groups == groups,
            state.groups_path_index@ == index@,
            state.costs_on(graph_edges(*old(graph))),
    {
        let (strained_edges_cost, travel_cost, travel_delay_cost, cost) = Self::evaluate_selection(graph, groups, &index);
        SelectionState { groups, cost, strained_edges_cost, travel_cost, travel_delay_cost, groups_path_index: index }
    }

    /// The state that selects a random path for each group (each group needs a path).
    pub fn generate_random_state(graph: &mut TimetableGraph, groups: &'a Vec<Group>) -> (state: Self)
        requires
            forall|g: int| 0 <= g < groups@.len() ==> (#[trigger] groups@[g]).paths@.len() > 0,
            paths_in_graph(groups@, graph_edges(*old(graph))),
            all_selections_fit(graph_edges(*old(graph)), groups@),
        ensures
            graph_edges(*final(graph)) == graph_edges(*old(graph)),
            graph_nodes(*final(graph)) == graph_nodes(*old(graph)),
            state.groups == groups,
            state.costs_on(graph_edges(*old(graph))),
    {
        let mut rng = new_thread_rng();
        let mut draws: Vec<usize> = Vec::with_capacity(groups.len());
        let mut g: usize = 0;
        while g < groups.len()
            invariant
                g <= groups@.len(),
                draws@.len() == g,
            decreases groups@.len() - g,
        {
            draws.push(random_usize(&mut rng));
            g = g + 1;
        }
        Self::state_from_draws(graph, groups, &draws)
    }

    /// The state that selects for each group `g` its path number `draws[g]`, taken
    /// modulo the number of its paths (each group needs a path).
    pub fn state_from_draws(graph: &mut TimetableGraph, groups: &'a Vec<Group>, draws: &Vec<usize>) -> (state: Self)
        requires
            draws@.len() == groups@.len(),
            forall|g: int| 0 <= g < groups@.len() ==> (#[trigger] groups@[g]).paths@.len() > 0,
            paths_in_graph(groups@, graph_edges(*old(graph))),
            all_selections_fit(graph_edges(*old(graph)), groups@),
        ensures
            graph_edges(*final(graph)) == graph_edges(*old(graph)),
            graph_nodes(*final(graph)) == graph_nodes(*old(graph)),
            state.groups == groups,
            state.groups_path_index@ == Seq::new(groups@.len(), |g: int| (draws@[g] as nat % groups@[g].paths@.len()) as usize),
            state.costs_on(graph_edges(*old(graph))),
    {
        let mut index: Vec<usize> = Vec::with_capacity(groups.len());
        let mut g: usize = 0;
        while g < groups.len()
            invariant
                g <= groups@.len(),
                draws@.len() == groups@.len(),
                forall|q: int| 0 <= q < groups@.len() ==> (#[trigger] groups@[q]).paths@.len() > 0,
                index@ == Seq::new(g as nat, |q: int| (draws@[q] as nat % groups@[q].paths@.len()) as usize),
            decreases groups@.len() - g,
        {
            index.push(draws[g] % groups[g].paths.len());
            g = g + 1;
        }
        proof {
            assert(valid_selection(groups@, index@));
        }
        Self::from_selection(graph, groups, index)
    }

    /// The state that selects the first (cheapest) path of each group (each group
    /// needs a path).
    pub fn generate_state_with_best_path_per_group(graph: &mut TimetableGraph, groups: &'a Vec<Group>) -> (state: Self)
        requires
            forall|g: int| 0 <= g < groups@.len() ==> (#[trigger] groups@[g]).paths@.len() > 0,
            paths_in_graph(groups@, graph_edges(*old(graph))),
            all_selections_fit(graph_edges(*old(graph)), groups@),
        ensures
            graph_edges(*final(graph)) == graph_edges(*old(graph)),
            graph_nodes(*final(graph)) == graph_nodes(*old(graph)),
            state.groups == groups,
            state.groups_path_index@ == Seq::new(groups@.len(), |g: int| 0usize),
            state.costs_on(graph_edges(*old(graph))),
    {
        let mut index: Vec<usize> = Vec::with_capacity(groups.len());
        let mut g: usize = 0;
        while g < groups.len()
            invariant
                g <= groups@.len(),
                index@ == Seq::new(g as nat, |q: int| 0usize),
            decreases groups@.len() - g,
        {
            index.push(0);
            g = g + 1;
        }
        proof {
            assert(valid_selection(groups@, index@));
        }
        Self::from_selection(graph, groups, index)
    }

    /// The state with group `group_index` switched to its path `path_index`.
    pub fn neighbor_for(&self, graph: &mut TimetableGraph, group_index: usize, path_index: usize) -> (state: Self)
        requires
            valid_selection(self.groups@, self.groups_path_index@),
            group_index < self.groups@.len(),
            path_index < self.groups@[group_index as int].paths@.len(),
            paths_in_graph(self.groups@, graph_edges(*old(graph))),
            all_selections_fit(graph_edges(*old(graph)), self.groups@),
        ensures
            graph_edges(*final(graph)) == graph_edges(*old(graph)),
            graph_nodes(*final(graph)) == graph_nodes(*old(graph)),
            state.groups == self.groups,
            state.groups_path_index@ == self.groups_path_index@.update(group_index as int, path_index),
            state.costs_on(graph_edges(*old(graph))),
    {
        let mut index = self.groups_path_index.clone();
        proof {
            assert(index@ =~= self.groups_path_index@);
        }
        index.set(group_index, path_index);
        proof {
            assert(valid_selection(self.groups@, index@));
        }
        Self::from_selection(graph, self.groups, index)
    }

    /// The state with a random group switched to a random one of its paths.
    pub fn random_group_neighbor(&self, graph: &mut TimetableGraph, rng: &mut ThreadRng) -> (state: Self)
        requires
            valid_selection(self.groups@, self.groups_path_index@),
            self.groups@.len() > 0,
            paths_in_graph(self.groups@, graph_edges(*old(graph))),
            all_selections_fit(graph_edges(*old(graph)), self.groups@),
        ensures
            graph_edges(*final(graph)) == graph_edges(*old(graph)),
            graph_nodes(*final(graph)) == graph_nodes(*old(graph)),
            state.groups == self.groups,
            exists|g: int, p: usize|
                0 <= g < self.groups@.len() && state.groups_path_index@ == self.groups_path_index@.update(g, p),
            state.costs_on(graph_edges(*old(graph))),
    {
        let group_draw = random_usize(rng);
        let path_draw = random_usize(rng);
        self.neighbor_from_draws(graph, group_draw, path_draw)
    }

    /// The state with group number `group_draw` switched to its path number
    /// `path_draw`, each number taken modulo the number of groups or paths.
    pub fn neighbor_from_draws(&self, graph: &mut TimetableGraph, group_draw: usize, path_draw: usize) -> (state: Self)
        requires
            valid_selection(self.groups@, self.groups_path_index@),
            self.groups@.len() > 0,
            paths_in_graph(self.groups@, graph_edges(*old(graph))),
            all_selections_fit(graph_edges(*old(graph)), self.groups@),
        ensures
            graph_edges(*final(graph)) == graph_edges(*old(graph)),
            graph_nodes(*final(graph)) == graph_nodes(*old(graph)),
            state.groups == self.groups,
            ({
                let g = group_draw as int % self.groups@.len() as int;
                state.groups_path_index@ == self.groups_path_index@.update(
                    g,
                    (path_draw as int % self.groups@[g].paths@.len() as int) as usize,
                )
            }),
            state.costs_on(graph_edges(*old(graph))),
    {
        let group_index = group_draw % self.groups.len();
        proof {
            assert(self.groups_path_index@[group_index as int] < self.groups@[group_index as int].paths@.len());
        }
        let path_index = path_draw % self.groups[group_index].paths.len();
        self.neighbor_for(graph, group_index, path_index)
    }

    /// The state (over the same groups) with group `group_index` switched to path
    /// `path_index`, where the paths are taken from `groups` and the costs are those
    /// of that selection of `groups`' paths.
    pub fn group_neighbor_from_group_and_path(
        &self,
        graph: &mut TimetableGraph,
        groups: &mut Vec<Group>,
        group_index: usize,
        path_index: usize,
    ) -> (state: Self)
        requires
            valid_selection(old(groups)@, self.groups_path_index@),
            group_index < old(groups)@.len(),
            path_index < old(groups)@[group_index as int].paths@.len(),
            paths_in_graph(old(groups)@, graph_edges(*old(graph))),
            all_selections_fit(graph_edges(*old(graph)), old(groups)@),
        ensures
            *final(groups) == *old(groups),
            graph_edges(*final(graph)) == graph_edges(*old(graph)),
            graph_nodes(*final(graph)) == graph_nodes(*old(graph)),
            state.groups == self.groups,
            state.groups_path_index@ == self.groups_path_index@.update(group_index as int, path_index),
            state.has_costs_of(selected_paths(old(groups)@, state.groups_path_index@), graph_edges(*old(graph))),
    {
        let mut index = self.groups_path_index.clone();
        proof {
            assert(index@ =~= self.groups_path_index@);
        }
        index.set(group_index, path_index);
        proof {
            assert(valid_selection(groups@, index@));
        }
        let (strained_edges_cost, travel_cost, travel_delay_cost, cost) = Self::evaluate_selection(graph, groups, &index);
        SelectionState {
            groups: self.groups,
            cost,
            strained_edges_cost,
            travel_cost,
            travel_delay_cost,
            groups_path_index: index,
        }
    }

    /// The edges of the selection but the path of group `g`, and of one more path,
    /// are edges of the graph.
    proof fn lemma_selection_edges(&self, g: int, p: Path, edges0: Seq<GraphEdge>)
        requires
            valid_selection(self.groups@, self.groups_path_index@),
            0 <= g < self.groups@.len(),
            paths_in_graph(self.groups@, edges0),
            edges_exist(edges0, p.edge_seq()),
        ensures
            forall|e: usize| path_union(self.selection()).contains(e) ==> e < edges0.len(),
            forall|e: usize| path_union(self.selection().remove(g).push(p)).contains(e) ==> e < edges0.len(),
    {
        let sel = self.selection();
        lemma_selection_in_graph(self.groups@, self.groups_path_index@, edges0);
        let q = sel.remove(g).push(p);
        assert forall|k: int| 0 <= k < q.len() implies edges_exist(edges0, #[trigger] q[k].edge_seq()) by {
            if k < g {
                assert(q[k] == sel[k]);
            } else if k < q.len() - 1 {
                assert(q[k] == sel[k + 1]);
            }
        }
        lemma_union_exists(edges0, q);
    }

    /// Takes the passengers of group `g`'s selected path off the graph loaded with the
    /// selection.
    fn release_group(&self, graph: &mut TimetableGraph, strained: &mut HashSet<usize>, g: usize, Ghost(edges0): Ghost<Seq<GraphEdge>>)
        requires
            valid_selection(self.groups@, self.groups_path_index@),
            g < self.groups@.len(),
            paths_in_graph(self.groups@, edges0),
            all_selections_fit(edges0, self.groups@),
            edges0.len() <= usize::MAX,
            graph_edges(*old(graph)) == loaded_edges(edges0, self.selection()),
            forall|e: usize| old(strained)@.contains(e) ==> e < edges0.len(),
            unloaded(edges0) ==> strained_set_ok(graph_edges(*old(graph)), old(strained)@, self.selection()),
        ensures
            graph_edges(*final(graph)) == loaded_edges(edges0, self.selection().remove(g as int)),
            graph_nodes(*final(graph)) == graph_nodes(*old(graph)),
            forall|e: usize| final(strained)@.contains(e) ==> e < edges0.len(),
            unloaded(edges0) ==> strained_set_ok(graph_edges(*final(graph)), final(strained)@, self.selection().remove(g as int)),
            final(strained)@ == relieved(old(strained)@, self.selection()[g as int], graph_edges(*final(graph))),
    {
        let ghost sel = self.selection();
        let path = &self.groups[g].paths[self.groups_path_index[g]];
        proof {
            assert(valid_selection(self.groups@, self.groups_path_index@));
            assert(sel[g as int] == *path);
            lemma_relieve_loaded(edges0, sel, g as int);
            lemma_selection_in_graph(self.groups@, self.groups_path_index@, edges0);
            assert(edges_exist(graph_edges(*graph), path.edge_seq()));
        }
        path.relieve_from_graph(graph, strained);
        proof {
            if unloaded(edges0) {
                lemma_strained_set_relieve(edges0, sel, g as int, old(strained)@);
            }
            assert(strained@ =~= relieved(old(strained)@, sel[g as int], graph_edges(*graph)));
        }
    }

    /// Puts the passengers of group `g`'s selected path back onto the graph.
    fn restore_group(&self, graph: &mut TimetableGraph, strained: &mut HashSet<usize>, g: usize, Ghost(edges0): Ghost<Seq<GraphEdge>>)
        requires
            valid_selection(self.groups@, self.groups_path_index@),
            g < self.groups@.len(),
            paths_in_graph(self.groups@, edges0),
            all_selections_fit(edges0, self.groups@),
            edges0.len() <= usize::MAX,
            graph_edges(*old(graph)) == loaded_edges(edges0, self.selection().remove(g as int)),
            forall|e: usize| old(strained)@.contains(e) ==> e < edges0.len(),
            unloaded(edges0) ==> strained_set_ok(graph_edges(*old(graph)), old(strained)@, self.selection().remove(g as int)),
        ensures
            graph_edges(*final(graph)) == loaded_edges(edges0, self.selection()),
            graph_nodes(*final(graph)) == graph_nodes(*old(graph)),
            forall|e: usize| final(strained)@.contains(e) ==> e < edges0.len(),
            unloaded(edges0) ==> strained_set_ok(graph_edges(*final(graph)), final(strained)@, self.selection()),
            final(strained)@ == old(strained)@.union(self.selection()[g as int].edge_seq().to_set()),
    {
        let ghost sel = self.selection();
        let path = &self.groups[g].paths[self.groups_path_index[g]];
        let ghost back = sel.remove(g as int).push(*path);
        proof {
            assert(valid_selection(self.groups@, self.groups_path_index@));
            assert(sel[g as int] == *path);
            assert(sel.update(g as int, *path) == sel);
            assert forall|i: int| 0 <= i < edges0.len() implies load_on(sel, i) == load_on(back, i) by {
                lemma_load_update(sel, g as int, *path, i);
            }
            assert(selection_fits(edges0, selected_paths(self.groups@, self.groups_path_index@)));
            assert forall|i: int| 0 <= i < edges0.len() && (#[trigger] edges0[i]).2 is Trip implies edges0[i].2.spec_utilization()
                + load_on(back, i) <= u64::MAX by {
                assert(edges0[i].2.spec_utilization() + load_on(sel, i) <= u64::MAX);
            }
            lemma_strain_loaded(edges0, sel.remove(g as int), *path);
            lemma_selection_in_graph(self.groups@, self.groups_path_index@, edges0);
            assert(edges_exist(graph_edges(*graph), path.edge_seq()));
        }
        path.strain_to_graph(graph, strained);
        proof {
            lemma_loaded_same(edges0, back, sel);
            lemma_union_update(sel, g as int, *path);
            self.lemma_selection_edges(g as int, *path, edges0);
            if unloaded(edges0) {
                lemma_strained_set_strain(edges0, sel.remove(g as int), *path, old(strained)@);
            }
        }
    }

    /// With the graph loaded with the selection but group `g`'s path: the state with
    /// group `g` switched to its path `p`, whose overload cost is taken over the set
    /// of strained edges with that path strained too. Graph and set are unchanged
    /// afterwards.
    fn neighbor_while_strained(
        &self,
        graph: &mut TimetableGraph,
        strained: &mut HashSet<usize>,
        g: usize,
        p: usize,
        Ghost(edges0): Ghost<Seq<GraphEdge>>,
    ) -> (state: Self)
        requires
            valid_selection(self.groups@, self.groups_path_index@),
            g < self.groups@.len(),
            p < self.groups@[g as int].paths@.len(),
            paths_in_graph(self.groups@, edges0),
            all_selections_fit(edges0, self.groups@),
            edges0.len() <= usize::MAX,
            graph_edges(*old(graph)) == loaded_edges(edges0, self.selection().remove(g as int)),
            forall|e: usize| old(strained)@.contains(e) ==> e < edges0.len(),
            unloaded(edges0) ==> strained_set_ok(graph_edges(*old(graph)), old(strained)@, self.selection().remove(g as int)),
        ensures
            graph_edges(*final(graph)) == graph_edges(*old(graph)),
            graph_nodes(*final(graph)) == graph_nodes(*old(graph)),
            forall|e: usize| final(strained)@.contains(e) ==> e < edges0.len(),
            unloaded(edges0) ==> strained_set_ok(graph_edges(*final(graph)), final(strained)@, self.selection().remove(g as int)),
            state.groups == self.groups,
            state.groups_path_index@ == self.groups_path_index@.update(g as int, p),
            state.evaluated_on(edges0),
            ({
                let path = self.groups@[g as int].paths@[p as int];
                let with_path = old(strained)@.union(path.edge_seq().to_set());
                &&& state.strained_edges_cost == strained_cost(
                    loaded_edges(edges0, selected_paths(self.groups@, state.groups_path_index@)),
                    with_path,
                )
                &&& final(strained)@ == relieved(with_path, path, graph_edges(*old(graph)))
            }),
    {
        let ghost sel = self.selection();
        let ghost rest = sel.remove(g as int);
        let path = &self.groups[g].paths[p];
        let ghost q = rest.push(*path);
        let mut index = self.groups_path_index.clone();
        proof {
            assert(index@ =~= self.groups_path_index@);
        }
        index.set(g, p);
        let ghost sel2 = selected_paths(self.groups@, index@);
        proof {
            assert(valid_selection(self.groups@, index@));
            assert(selection_fits(edges0, sel2));
            assert(sel2 =~= sel.update(g as int, *path));
            assert forall|i: int| 0 <= i < edges0.len() implies load_on(sel2, i) == load_on(q, i) by {
                lemma_load_update(sel, g as int, *path, i);
            }
            assert forall|i: int| 0 <= i < edges0.len() && (#[trigger] edges0[i]).2 is Trip implies edges0[i].2.spec_utilization()
                + load_on(q, i) <= u64::MAX by {
                assert(edges0[i].2.spec_utilization() + load_on(sel2, i) <= u64::MAX);
            }
            lemma_strain_loaded(edges0, rest, *path);
            assert(edges_exist(edges0, self.groups@[g as int].paths@[p as int].edge_seq()));
            assert(edges_exist(graph_edges(*graph), path.edge_seq()));
        }
        path.strain_to_graph(graph, strained);
        proof {
            lemma_loaded_same(edges0, q, sel2);
            lemma_union_update(sel, g as int, *path);
            self.lemma_selection_edges(g as int, *path, edges0);
            let loaded = loaded_edges(edges0, sel2);
            assert forall|e: usize| strained@.contains(e) implies e < edges0.len() by {
                if path.edge_seq().to_set().contains(e) {
                    let k = choose|k: int| 0 <= k < path.edge_seq().len() && path.edge_seq()[k] == e;
                }
            }
            lemma_strained_cost_subset(loaded, strained@, Set::new(|i: usize| true), loaded.len() as int);
            if unloaded(edges0) {
                lemma_strained_set_strain(edges0, rest, *path, old(strained)@);
                lemma_strained_set_cost(edges0, q, strained@);
            }
            lemma_relieve_loaded(edges0, q, q.len() - 1);
            assert(q.remove(q.len() - 1) == rest);
            assert(q[q.len() - 1] == *path);
        }
        let ghost strained1 = strained@;
        let strained_edges_cost = Self::calculate_cost_of_strained_edges(graph, strained);
        path.relieve_from_graph(graph, strained);
        proof {
            if unloaded(edges0) {
                lemma_strained_set_relieve(edges0, q, q.len() - 1, strained1);
            }
            lemma_paths_cost_sum(sel2);
            assert(strained@ =~= relieved(strained1, *path, graph_edges(*graph)));
        }
        let travel_cost = Self::travel_cost_sum(self.groups, &index);
        let travel_delay_cost = Self::delay_sum(self.groups, &index);
        let cost = (strained_edges_cost as i64) + Self::calculate_cost_sum_of_selected_paths(self.groups, &index);
        SelectionState {
            groups: self.groups,
            cost,
            strained_edges_cost,
            travel_cost,
            travel_delay_cost,
            groups_path_index: index,
        }
    }

    /// All states that differ from this one in the path of one group: for each group
    /// in turn, each of its other paths in turn. Their costs are computed with the
    /// other groups' paths strained on the graph; the graph is unchanged afterwards.
    /// The overload cost of each is taken over the set of strained edges at that
    /// point (see `group_neighbor_sets`); on a graph without passengers that is the
    /// set of the edges of its selection, so that its costs are exactly those of its
    /// selection. Their travel cost, delay and total are so in any case.
    pub fn all_group_neighbors(&self, graph: &mut TimetableGraph) -> (neighbors: Vec<Self>)
        requires
            valid_selection(self.groups@, self.groups_path_index@),
            paths_in_graph(self.groups@, graph_edges(*old(graph))),
            all_selections_fit(graph_edges(*old(graph)), self.groups@),
        ensures
            graph_edges(*final(graph)) == graph_edges(*old(graph)),
            graph_nodes(*final(graph)) == graph_nodes(*old(graph)),
            neighbors@.len() == group_neighbors_upto(self.groups@, self.groups_path_index@, self.groups@.len() as int).len(),
            forall|k: int|
                0 <= k < neighbors@.len() ==> {
                    &&& (#[trigger] neighbors@[k]).groups == self.groups
                    &&& neighbors@[k].groups_path_index@ == group_neighbors_upto(
                        self.groups@,
                        self.groups_path_index@,
                        self.groups@.len() as int,
                    )[k]
                    &&& neighbors@[k].evaluated_on(graph_edges(*old(graph)))
                    &&& neighbors@[k].strained_edges_cost == strained_cost(
                        loaded_edges(graph_edges(*old(graph)), neighbors@[k].selection()),
                        group_neighbor_sets(
                            graph_edges(*old(graph)),
                            self.groups@,
                            self.groups_path_index@,
                            self.groups@.len() as int,
                        ).1[k],
                    )
                },
    {
        let ghost edges0 = graph_edges(*graph);
        let ghost index = self.groups_path_index@;
        let ghost groups = self.groups@;
        let _ = graph_edge_count(graph);
        let mut neighbors: Vec<Self> = Vec::new();
        let mut strained: HashSet<usize> = HashSet::new();
        Self::strain_selection(graph, self.groups, &self.groups_path_index, &mut strained, Ghost(edges0));
        proof {
            assert(strained@ =~= path_union(self.selection()));
            lemma_selection_in_graph(groups, index, edges0);
            assert(selection_fits(edges0, self.selection()));
            if unloaded(edges0) {
                lemma_strained_set_initial(edges0, self.selection());
            }
        }
        let n = self.groups_path_index.len();
        let mut g: usize = 0;
        while g < n
            invariant
                n == groups.len(),
                g <= n,
                groups == self.groups@,
                index == self.groups_path_index@,
                valid_selection(groups, index),
                paths_in_graph(groups, edges0),
                all_selections_fit(edges0, groups),
                edges0.len() <= usize::MAX,
                graph_edges(*graph) == loaded_edges(edges0, self.selection()),
                graph_nodes(*graph) == graph_nodes(*old(graph)),
                edges0 == graph_edges(*old(graph)),
                forall|e: usize| strained@.contains(e) ==> e < edges0.len(),
                unloaded(edges0) ==> strained_set_ok(graph_edges(*graph), strained@, self.selection()),
                neighbors@.len() == group_neighbors_upto(groups, index, g as int).len(),
                forall|k: int|
                    0 <= k < neighbors@.len() ==> {
                        &&& (#[trigger] neighbors@[k]).groups == self.groups
                        &&& neighbors@[k].groups_path_index@ == group_neighbors_upto(groups, index, g as int)[k]
                        &&& neighbors@[k].evaluated_on(edges0)
                        &&& neighbors@[k].strained_edges_cost == strained_cost(
                            loaded_edges(edges0, neighbors@[k].selection()),
                            group_neighbor_sets(edges0, groups, index, g as int).1[k],
                        )
                    },
                strained@ == group_neighbor_sets(edges0, groups, index, g as int).0,
            decreases n - g,
        {
            let ghost prev = group_neighbor_sets(edges0, groups, index, g as int);
            let ghost start = neighbors@;
            proof {
                lemma_group_neighbor_sets_len(edges0, groups, index, g as int);
            }
            self.release_group(graph, &mut strained, g, Ghost(edges0));
            let ghost released = strained@;
            let n_paths = self.groups[g].paths.len();
            let mut p: usize = 0;
            while p < n_paths
                invariant
                    n == groups.len(),
                    g < n,
                    p <= n_paths,
                    n_paths == groups[g as int].paths@.len(),
                    groups == self.groups@,
                    index == self.groups_path_index@,
                    valid_selection(groups, index),
                    paths_in_graph(groups, edges0),
                    all_selections_fit(edges0, groups),
                    edges0.len() <= usize::MAX,
                    graph_edges(*graph) == loaded_edges(edges0, self.selection().remove(g as int)),
                    graph_nodes(*graph) == graph_nodes(*old(graph)),
                    edges0 == graph_edges(*old(graph)),
                    forall|e: usize| strained@.contains(e) ==> e < edges0.len(),
                    unloaded(edges0) ==> strained_set_ok(graph_edges(*graph), strained@, self.selection().remove(g as int)),
                    neighbors@.len() == (group_neighbors_upto(groups, index, g as int) + group_alternatives(index, g as int, p as int)).len(),
                    forall|k: int|
                        0 <= k < neighbors@.len() ==> {
                            &&& (#[trigger] neighbors@[k]).groups == self.groups
                            &&& neighbors@[k].groups_path_index@ == (group_neighbors_upto(groups, index, g as int)
                                + group_alternatives(index, g as int, p as int))[k]
                            &&& neighbors@[k].evaluated_on(edges0)
                            &&& neighbors@[k].strained_edges_cost == strained_cost(
                                loaded_edges(edges0, neighbors@[k].selection()),
                                (prev.1 + alternative_sets(edges0, groups, index, g as int, p as int, released).1)[k],
                            )
                        },
                    prev == group_neighbor_sets(edges0, groups, index, g as int),
                    prev.1.len() == start.len(),
                    start.len() == group_neighbors_upto(groups, index, g as int).len(),
                    strained@ == alternative_sets(edges0, groups, index, g as int, p as int, released).0,
                decreases n_paths - p,
            {
                let ghost before = group_neighbors_upto(groups, index, g as int) + group_alternatives(index, g as int, p as int);
                let ghost sets_before = prev.1 + alternative_sets(edges0, groups, index, g as int, p as int, released).1;
                let ghost states_before = neighbors@;
                proof {
                    lemma_alternative_sets_len(edges0, groups, index, g as int, p as int, released);
                }
                if p != self.groups_path_index[g] {
                    let state = self.neighbor_while_strained(graph, &mut strained, g, p, Ghost(edges0));
                    neighbors.push(state);
                    proof {
                        assert(group_neighbors_upto(groups, index, g as int) + group_alternatives(index, g as int, p + 1)
                            =~= before.push(index.update(g as int, p)));
                        let sets_after = prev.1 + alternative_sets(edges0, groups, index, g as int, p + 1, released).1;
                        assert(sets_after =~= sets_before.push(alternative_sets(edges0, groups, index, g as int, p + 1, released).1.last()));
                        assert forall|k: int| 0 <= k < neighbors@.len() implies (#[trigger] neighbors@[k]).strained_edges_cost
                            == strained_cost(loaded_edges(edges0, neighbors@[k].selection()), sets_after[k]) by {
                            if k < states_before.len() {
                                assert(neighbors@[k] == states_before[k]);
                            }
                        }
                    }
                } else {
                    proof {
                        assert(group_neighbors_upto(groups, index, g as int) + group_alternatives(index, g as int, p + 1)
                            =~= before);
                    }
                }
                p = p + 1;
            }
            self.restore_group(graph, &mut strained, g, Ghost(edges0));
            proof {
                assert(group_neighbors_upto(groups, index, g + 1) =~= group_neighbors_upto(groups, index, g as int)
                    + group_alternatives(index, g as int, groups[g as int].paths@.len() as int));
                let next = group_neighbor_sets(edges0, groups, index, g + 1);
                assert(strained@ == next.0);
                assert(next.1 == prev.1 + alternative_sets(
                    edges0,
                    groups,
                    index,
                    g as int,
                    groups[g as int].paths@.len() as int,
                    released,
                ).1);
            }
            g = g + 1;
        }
        Self::relieve_selection(graph, self.groups, &self.groups_path_index, &mut strained, Ghost(edges0));
        neighbors
    }

    /// The states that differ from this one in the path of one group by one position:
    /// for each group in turn, the path before its selected one (if any) and the path
    /// after it (if any). Costs as with `all_group_neighbors`: the overload cost of each
    /// is taken over the set of strained edges at that point (see
    /// `direct_neighbor_sets`), which on a graph without passengers is the set of the
    /// edges of its selection.
    pub fn all_direct_neighbors(&self, graph: &mut TimetableGraph) -> (neighbors: Vec<Self>)
        requires
            valid_selection(self.groups@, self.groups_path_index@),
            paths_in_graph(self.groups@, graph_edges(*old(graph))),
            all_selections_fit(graph_edges(*old(graph)), self.groups@),
        ensures
            graph_edges(*final(graph)) == graph_edges(*old(graph)),
            graph_nodes(*final(graph)) == graph_nodes(*old(graph)),
            neighbors@.len() == direct_neighbors_upto(self.groups@, self.groups_path_index@, self.groups@.len() as int).len(),
            forall|k: int|
                0 <= k < neighbors@.len() ==> {
                    &&& (#[trigger] neighbors@[k]).groups == self.groups
                    &&& neighbors@[k].groups_path_index@ == direct_neighbors_upto(
                        self.groups@,
                        self.groups_path_index@,
                        self.groups@.len() as int,
                    )[k]
                    &&& neighbors@[k].evaluated_on(graph_edges(*old(graph)))
                    &&& neighbors@[k].strained_edges_cost == strained_cost(
                        loaded_edges(graph_edges(*old(graph)), neighbors@[k].selection()),
                        direct_neighbor_sets(
                            graph_edges(*old(graph)),
                            self.groups@,
                            self.groups_path_index@,
                            self.groups@.len() as int,
                        ).1[k],
                    )
                },
    {
        let ghost edges0 = graph_edges(*graph);
        let ghost index = self.groups_path_index@;
        let ghost groups = self.groups@;
        let _ = graph_edge_count(graph);
        let mut neighbors: Vec<Self> = Vec::new();
        let mut strained: HashSet<usize> = HashSet::new();
        Self::strain_selection(graph, self.groups, &self.groups_path_index, &mut strained, Ghost(edges0));
        proof {
            assert(strained@ =~= path_union(self.selection()));
            lemma_selection_in_graph(groups, index, edges0);
            assert(selection_fits(edges0, self.selection()));
            if unloaded(edges0) {
                lemma_strained_set_initial(edges0, self.selection());
            }
        }
        let n = self.groups_path_index.len();
        let mut g: usize = 0;
        while g < n
            invariant
                n == groups.len(),
                g <= n,
                groups == self.groups@,
                index == self.groups_path_index@,
                valid_selection(groups, index),
                paths_in_graph(groups, edges0),
                all_selections_fit(edges0, groups),
                edges0.len() <= usize::MAX,
                graph_edges(*graph) == loaded_edges(edges0, self.selection()),
                graph_nodes(*graph) == graph_nodes(*old(graph)),
                edges0 == graph_edges(*old(graph)),
                forall|e: usize| strained@.contains(e) ==> e < edges0.len(),
                unloaded(edges0) ==> strained_set_ok(graph_edges(*graph), strained@, self.selection()),
                neighbors@.len() == direct_neighbors_upto(groups, index, g as int).len(),
                forall|k: int|
                    0 <= k < neighbors@.len() ==> {
                        &&& (#[trigger] neighbors@[k]).groups == self.groups
                        &&& neighbors@[k].groups_path_index@ == direct_neighbors_upto(groups, index, g as int)[k]
                        &&& neighbors@[k].evaluated_on(edges0)
                        &&& neighbors@[k].strained_edges_cost == strained_cost(
                            loaded_edges(edges0, neighbors@[k].selection()),
                            direct_neighbor_sets(edges0, groups, index, g as int).1[k],
                        )
                    },
                strained@ == direct_neighbor_sets(edges0, groups, index, g as int).0,
            decreases n - g,
        {
            let actual = self.groups_path_index[g];
            let n_paths = self.groups[g].paths.len();
            proof {
                assert(index[g as int] < groups[g as int].paths@.len());
            }
            let ghost start = direct_neighbors_upto(groups, index, g as int);
            let ghost before = neighbors@;
            proof {
                lemma_direct_neighbor_sets_len(edges0, groups, index, g as int);
            }
            self.release_group(graph, &mut strained, g, Ghost(edges0));
            if actual != 0 {
                let state = self.neighbor_while_strained(graph, &mut strained, g, actual - 1, Ghost(edges0));
                neighbors.push(state);
            }
            let ghost mid = neighbors@;
            if actual != n_paths - 1 {
                let state = self.neighbor_while_strained(graph, &mut strained, g, actual + 1, Ghost(edges0));
                neighbors.push(state);
            }
            self.restore_group(graph, &mut strained, g, Ghost(edges0));
            proof {
                let next = direct_neighbor_sets(edges0, groups, index, g + 1);
                let prev = direct_neighbor_sets(edges0, groups, index, g as int);
                assert(strained@ == next.0);
                lemma_direct_neighbor_sets_len(edges0, groups, index, g + 1);
                assert forall|k: int| 0 <= k < neighbors@.len() implies (#[trigger] neighbors@[k]).strained_edges_cost
                    == strained_cost(loaded_edges(edges0, neighbors@[k].selection()), next.1[k]) by {
                    if k < before.len() {
                        assert(neighbors@[k] == before[k]);
                        assert(next.1[k] == prev.1[k]);
                    } else if k < mid.len() {
                        assert(neighbors@[k] == mid[k]);
                    }
                }
            }
            proof {
                let down: Seq<Seq<usize>> = if index[g as int] != 0 {
                    seq![index.update(g as int, (index[g as int] - 1) as usize)]
                } else {
                    Seq::empty()
                };
                let up: Seq<Seq<usize>> = if index[g as int] != groups[g as int].paths@.len() - 1 {
                    seq![index.update(g as int, (index[g as int] + 1) as usize)]
                } else {
                    Seq::empty()
                };
                assert(direct_neighbors_upto(groups, index, g + 1) =~= start + down + up);
                assert forall|k: int| 0 <= k < neighbors@.len() implies neighbors@[k].groups_path_index@
                    == (start + down + up)[k] by {
                    if k >= start.len() && k < start.len() + down.len() {
                        assert(neighbors@[k] == mid[k]);
                    }
                }
            }
            g = g + 1;
        }
        Self::relieve_selection(graph, self.groups, &self.groups_path_index, &mut strained, Ghost(edges0));
        neighbors
    }

    /// With the selected paths (taken from `groups`) on the graph: an overcrowded
    /// edge among the strained ones, picked by `draw` from them in the order the set
    /// of strained edges gives them, and the groups whose selected path takes it.
    /// The graph is unchanged afterwards.
    pub fn overcrowded_edge_with_groups(&self, graph: &mut TimetableGraph, groups: &mut Vec<Group>, draw: usize) -> (result: (usize, Vec<usize>))
        requires
            valid_selection(old(groups)@, self.groups_path_index@),
            paths_in_graph(old(groups)@, graph_edges(*old(graph))),
            all_selections_fit(graph_edges(*old(graph)), old(groups)@),
            exists|e: usize| is_overcrowded(graph_edges(*old(graph)), selected_paths(old(groups)@, self.groups_path_index@), e),
        ensures
            *final(groups) == *old(groups),
            graph_edges(*final(graph)) == graph_edges(*old(graph)),
            graph_nodes(*final(graph)) == graph_nodes(*old(graph)),
            is_overcrowded(graph_edges(*old(graph)), selected_paths(old(groups)@, self.groups_path_index@), result.0),
            result.1@ == groups_using(selected_paths(old(groups)@, self.groups_path_index@), result.0),
    {
        let ghost edges0 = graph_edges(*graph);
        let ghost sel = selected_paths(groups@, self.groups_path_index@);
        let _ = graph_edge_count(graph);
        let mut strained: HashSet<usize> = HashSet::new();
        Self::strain_selection(graph, groups, &self.groups_path_index, &mut strained, Ghost(edges0));
        let ghost loaded = loaded_edges(edges0, sel);
        proof {
            assert(strained@ =~= path_union(sel));
            lemma_selection_in_graph(groups@, self.groups_path_index@, edges0);
            assert(selection_fits(edges0, sel));
        }
        let ghost keys = vstd::std_specs::hash::spec_hash_keys_iter(&strained).remaining();
        let mut edges: Vec<usize> = Vec::new();
        for e in it: strained.iter()
            invariant
                keys == it.seq(),
                loaded == loaded_edges(edges0, sel),
                keys.unref().to_set() == path_union(sel),
                strained@ == path_union(sel),
                graph_edges(*graph) == loaded,
                loaded.len() <= usize::MAX,
                total_overload(loaded) <= i64::MAX,
                forall|x: usize| path_union(sel).contains(x) ==> x < loaded.len(),
                forall|k: int| 0 <= k < edges@.len() ==> is_overcrowded(edges0, sel, #[trigger] edges@[k]),
                forall|j: int|
                    0 <= j < it.index() && loaded[keys.unref()[j] as int].2.spec_utilization_cost() > 0 ==> edges@.contains(
                        #[trigger] keys.unref()[j],
                    ),
        {
            proof {
                assert(keys.unref()[it.index() as int] == *e);
                assert(path_union(sel).contains(*e));
                lemma_edge_cost_bounded(loaded, *e);
            }
            let c = graph_edge(graph, *e).utilization_cost();
            let ghost old_edges = edges@;
            if c > 0 {
                edges.push(*e);
            }
            proof {
                assert forall|k: int| 0 <= k < edges@.len() implies is_overcrowded(edges0, sel, #[trigger] edges@[k]) by {
                    if k < old_edges.len() {
                        assert(edges@[k] == old_edges[k]);
                    } else {
                        assert(c > 0);
                        assert(edges@[k] == *e);
                        assert(loaded[*e as int].2.spec_utilization_cost() == c);
                    }
                }
                assert forall|j: int|
                    0 <= j < it.index() + 1 && loaded[keys.unref()[j] as int].2.spec_utilization_cost() > 0 implies edges@.contains(
                        #[trigger] keys.unref()[j],
                    ) by {
                    if j == it.index() {
                        assert(edges@[edges@.len() - 1] == *e);
                    } else {
                        assert(old_edges.contains(keys.unref()[j]));
                        let x = choose|x: int| 0 <= x < old_edges.len() && old_edges[x] == keys.unref()[j];
                        assert(edges@[x] == old_edges[x]);
                    }
                }
            }
        }
        proof {
            let w = choose|w: usize| is_overcrowded(edges0, sel, w);
            assert(keys.unref().to_set().contains(w));
            let j = choose|j: int| 0 <= j < keys.unref().len() && keys.unref()[j] == w;
            assert(edges@.contains(keys.unref()[j]));
        }
        let random_edge = edges[draw % edges.len()];
        let mut group_indices: Vec<usize> = Vec::new();
        let mut g: usize = 0;
        while g < self.groups_path_index.len()
            invariant
                g <= self.groups_path_index@.len(),
                valid_selection(groups@, self.groups_path_index@),
                sel == selected_paths(groups@, self.groups_path_index@),
                sel.len() == self.groups_path_index@.len(),
                group_indices@ == groups_using(sel.take(g as int), random_edge),
            decreases self.groups_path_index@.len() - g,
        {
            let path = &groups[g].paths[self.groups_path_index[g]];
            let uses = index_set_contains(path.edges(), random_edge);
            proof {
                assert(sel[g as int] == *path);
                assert(sel.take(g + 1).drop_last() == sel.take(g as int));
                assert(sel.take(g + 1).last() == *path);
            }
            if uses {
                group_indices.push(g);
            }
            proof {
                assert(group_indices@ =~= groups_using(sel.take(g + 1), random_edge));
            }
            g = g + 1;
        }
        proof {
            assert(sel.take(self.groups_path_index@.len() as int) == sel);
        }
        Self::relieve_selection(graph, groups, &self.groups_path_index, &mut strained, Ghost(edges0));
        (random_edge, group_indices)
    }

    /// `overcrowded_edge_with_groups` with a random pick.
    pub fn get_random_overcrowded_edge_with_groups(
        &self,
        graph: &mut TimetableGraph,
        groups: &mut Vec<Group>,
        rng: &mut ThreadRng,
    ) -> (result: (usize, Vec<usize>))
        requires
            valid_selection(old(groups)@, self.groups_path_index@),
            paths_in_graph(old(groups)@, graph_edges(*old(graph))),
            all_selections_fit(graph_edges(*old(graph)), old(groups)@),
            exists|e: usize| is_overcrowded(graph_edges(*old(graph)), selected_paths(old(groups)@, self.groups_path_index@), e),
        ensures
            *final(groups) == *old(groups),
            graph_edges(*final(graph)) == graph_edges(*old(graph)),
            graph_nodes(*final(graph)) == graph_nodes(*old(graph)),
            is_overcrowded(graph_edges(*old(graph)), selected_paths(old(groups)@, self.groups_path_index@), result.0),
            result.1@ == groups_using(selected_paths(old(groups)@, self.groups_path_index@), result.0),
    {
        let draw = random_usize(rng);
        self.overcrowded_edge_with_groups(graph, groups, draw)
    }

    /// For the selected path of group `group`, which takes the edge `edge`: tries the
    /// edges before `edge`, nearest first, as the start of a detour (see `strategie_1`).
    pub fn find_detour_for_group(
        &self,
        graph: &mut TimetableGraph,
        groups: &mut Vec<Group>,
        group: usize,
        edge: usize,
        path_draw: usize,
    ) -> (result: (usize, Option<Path>))
        requires
            valid_selection(old(groups)@, self.groups_path_index@),
            group < old(groups)@.len(),
            paths_in_graph(old(groups)@, graph_edges(*old(graph))),
            searchable(*old(graph)),
            old(groups)@[group as int].paths@[self.groups_path_index@[group as int] as int].edge_seq().contains(edge),
        ensures
            *final(groups) == *old(groups),
            *final(graph) == *old(graph),
            result.0 == group,
            is_detour_result(*old(graph), old(groups)@, self.groups_path_index@, group, edge, path_draw, result.1),
            ({
                let g = old(groups)@[group as int];
                let path = g.paths@[self.groups_path_index@[group as int] as int].edge_seq();
                result.1 matches Some(p) ==> exists|station: u64|
                    {
                        &&& end_station(*old(graph), path) == Some(station)
                        &&& is_detour(*old(graph), path, path.index_of(edge), station, p, g.passengers, g.arrival_time)
                    }
            }),
    {
        let ghost gr = *graph;
        let path = &groups[group].paths[self.groups_path_index[group]];
        let path_edges = path.edges();
        let ghost items = path.edge_seq();
        proof {
            assert(valid_selection(groups@, self.groups_path_index@));
            assert(edges_exist(graph_edges(gr), items));
        }
        let n = index_set_len(path_edges);
        // the edges before `edge`, and from `edge` on
        let mut edges_before_edge = index_set_new();
        let mut edges_after_edge = index_set_new();
        let mut switched = false;
        let ghost cut = items.index_of(edge);
        proof {
            assert(items.contains(edge));
            assert(items[cut] == edge);
        }
        let mut i: usize = 0;
        while i < n
            invariant
                n == items.len(),
                i <= n,
                items == path.edge_seq(),
                index_set_items(*path_edges) == items,
                items.no_duplicates(),
                0 <= cut < n,
                items[cut] == edge,
                switched == (i > cut),
                index_set_items(edges_before_edge) == items.take(if i <= cut { i as int } else { cut }),
                index_set_items(edges_after_edge) == items.subrange(cut, if i <= cut { cut } else { i as int }),
            decreases n - i,
        {
            let e = index_set_get(path_edges, i);
            if e == edge {
                switched = true;
                proof {
                    assert(i == cut);
                }
            }
            if switched {
                proof {
                    assert(!items.subrange(cut, i as int).contains(e));
                }
                index_set_insert(&mut edges_after_edge, e);
                proof {
                    assert(items.subrange(cut, i + 1) == items.subrange(cut, i as int).push(e));
                }
            } else {
                proof {
                    assert(!items.take(i as int).contains(e));
                }
                index_set_insert(&mut edges_before_edge, e);
                proof {
                    assert(items.take(i + 1) == items.take(i as int).push(e));
                }
            }
            i = i + 1;
        }
        // start with the edge before the overcrowded one
        index_set_reverse(&mut edges_before_edge);
        let last_after = index_set_get(&edges_after_edge, index_set_len(&edges_after_edge) - 1);
        proof {
            assert(index_set_items(edges_after_edge) == items.subrange(cut, n as int));
            assert(last_after == items.last());
        }
        let (_, end) = graph_edge_endpoints(graph, last_after);
        proof {
            let k: int = last_after as int;
            assert(graph_edges(gr)[k].1 < graph_nodes(gr).len());
        }
        match graph_node(graph, end).station_id() {
            Some(station) => {
                let result = Self::strategie_1(graph, groups, group, &mut edges_before_edge, station, path_draw, Ghost(items), Ghost(cut));
                result
            },
            None => (group, None),
        }
    }

    /// For each edge among `edges_before_edge` (the edges of group `random_group`'s
    /// path before the overcrowded one, nearest first): searches paths from its source
    /// to the station `end_station` with `Path::dfs_visitor_search`; the first edge
    /// for which more than two are found gives the detour: the path's edges before it,
    /// then those of the found path picked by `path_draw`. `None` when no edge does (or
    /// when the detour's sums would not fit their types).
    fn strategie_1(
        graph: &mut TimetableGraph,
        groups: &mut Vec<Group>,
        random_group: usize,
        edges_before_edge: &mut IndexSet<usize>,
        end_station: u64,
        path_draw: usize,
        Ghost(path): Ghost<Seq<usize>>,
        Ghost(cut): Ghost<int>,
    ) -> (result: (usize, Option<Path>))
        requires
            random_group < old(groups)@.len(),
            searchable(*old(graph)),
            path.no_duplicates(),
            0 <= cut <= path.len(),
            edges_exist(graph_edges(*old(graph)), path),
            index_set_items(*old(edges_before_edge)) == path.take(cut).reverse(),
        ensures
            *final(groups) == *old(groups),
            *final(graph) == *old(graph),
            result.0 == random_group,
            result.1 matches Some(p) ==> is_detour(
                *old(graph),
                path,
                cut,
                end_station,
                p,
                old(groups)@[random_group as int].passengers,
                old(groups)@[random_group as int].arrival_time,
            ),
            ({
                let g = old(groups)@[random_group as int];
                match detour_walk(*old(graph), path, cut, end_station, g.passengers, g.arrival_time, path_draw) {
                    Some(w) => if path_fits(*old(graph), w, g.arrival_time) {
                        result.1 matches Some(p) && built_from(p, *old(graph), w, g.passengers, g.arrival_time)
                    } else {
                        result.1 is None
                    },
                    None => result.1 is None,
                }
            }),
    {
        let ghost gr = *graph;
        let passengers = groups[random_group].passengers;
        let arrival_time = groups[random_group].arrival_time;
        let candidates = index_set_clone(edges_before_edge);
        let m = index_set_len(&candidates);
        let mut i: usize = 0;
        while i < m
            invariant
                m == cut,
                i <= m,
                *graph == gr,
                searchable(gr),
                path.no_duplicates(),
                0 <= cut <= path.len(),
                edges_exist(graph_edges(gr), path),
                index_set_items(candidates) == path.take(cut).reverse(),
                index_set_items(*edges_before_edge) == path.take(cut).reverse(),
                *groups == *old(groups),
                random_group < groups@.len(),
                passengers == groups@[random_group as int].passengers,
                arrival_time == groups@[random_group as int].arrival_time,
                detour_position(gr, path, cut, end_station, passengers, arrival_time) == detour_position(
                    gr,
                    path,
                    cut - i,
                    end_station,
                    passengers,
                    arrival_time,
                ),
            decreases m - i,
        {
            let edge_index = index_set_get(&candidates, i);
            let ghost k: int = cut - 1 - i;
            proof {
                assert(edge_index == path[k]);
                assert(path[k] < graph_edges(gr).len());
            }
            let (start, _) = graph_edge_endpoints(graph, edge_index);
            proof {
                let q: int = edge_index as int;
                assert(graph_edges(gr)[q].0 < graph_nodes(gr).len());
            }
            let possible_paths = Path::dfs_visitor_search(graph, start, end_station, passengers, arrival_time, 0);
            let ghost walks = dfs_found_walks(gr, start, end_station, passengers, arrival_time, 0);
            if possible_paths.len() > 2 {
                let random_path_index = path_draw % possible_paths.len();
                proof {
                    assert(detour_position(gr, path, cut - i, end_station, passengers, arrival_time) == Some(k));
                }
                // the path's edges before this edge, in their order
                index_set_reverse(edges_before_edge);
                proof {
                    assert(path.take(cut).reverse().reverse() =~= path.take(cut));
                }
                let mut new_path = index_set_new();
                let mut j: usize = 0;
                let len_before = index_set_len(edges_before_edge);
                while j < len_before
                    invariant
                        len_before == cut,
                        j <= k,
                        0 <= k < cut,
                        path.no_duplicates(),
                        0 <= cut <= path.len(),
                        edge_index == path[k],
                        index_set_items(*edges_before_edge) == path.take(cut),
                        index_set_items(new_path) == seq_dedup(path.take(j as int)),
                    ensures
                        j == k,
                        index_set_items(new_path) == seq_dedup(path.take(j as int)),
                    decreases len_before - j,
                {
                    let e = index_set_get(edges_before_edge, j);
                    if e == edge_index {
                        proof {
                            assert(path[j as int] == path[k]);
                        }
                        break;
                    }
                    proof {
                        assert(j != k);
                        assert(path.take(j + 1).drop_last() == path.take(j as int));
                        assert(path.take(j + 1).last() == e);
                    }
                    index_set_insert(&mut new_path, e);
                    j = j + 1;
                }
                let chosen = &possible_paths[random_path_index];
                let chosen_edges = chosen.edges();
                let ghost d = chosen.edge_seq();
                let ghost prefix = path.take(k);
                let n_chosen = index_set_len(chosen_edges);
                let mut q: usize = 0;
                while q < n_chosen
                    invariant
                        n_chosen == d.len(),
                        q <= n_chosen,
                        d == chosen.edge_seq(),
                        index_set_items(*chosen_edges) == d,
                        index_set_items(new_path) == seq_dedup(prefix + d.take(q as int)),
                    decreases n_chosen - q,
                {
                    let e = index_set_get(chosen_edges, q);
                    proof {
                        assert((prefix + d.take(q + 1)).drop_last() == prefix + d.take(q as int));
                        assert((prefix + d.take(q + 1)).last() == e);
                    }
                    index_set_insert(&mut new_path, e);
                    q = q + 1;
                }
                proof {
                    assert(d.take(n_chosen as int) == d);
                }
                // the detour's edges as a sequence
                let count = index_set_len(&new_path);
                let mut detour: Vec<usize> = Vec::new();
                let mut r: usize = 0;
                while r < count
                    invariant
                        count == index_set_items(new_path).len(),
                        r <= count,
                        detour@ == index_set_items(new_path).take(r as int),
                    decreases count - r,
                {
                    detour.push(index_set_get(&new_path, r));
                    r = r + 1;
                }
                proof {
                    assert(index_set_items(new_path).take(count as int) == index_set_items(new_path));
                }
                proof {
                    assert(possible_paths@[random_path_index as int].edge_seq() == seq_dedup(walks[random_path_index as int]));
                    assert(detour@ == seq_dedup(path.take(k) + seq_dedup(walks[path_draw as int % walks.len() as int])));
                }
                if !fits_new_path(graph, &detour, arrival_time) {
                    return (random_group, None);
                }
                let ghost walk = detour@;
                let new = Path::new(graph, detour, passengers, arrival_time);
                proof {
                    assert(is_found_path(gr, graph_edges(gr)[path[k] as int].0, end_station, possible_paths@[random_path_index as int], passengers, arrival_time));
                    crate::index_set::lemma_seq_dedup(prefix + d);
                    crate::index_set::lemma_seq_dedup_unique(seq_dedup(prefix + d));
                    assert(built_from(new, gr, seq_dedup(path.take(k) + d), passengers, arrival_time));
                }
                return (random_group, Some(new));
            }
            proof {
                assert(detour_position(gr, path, cut - i, end_station, passengers, arrival_time) == detour_position(
                    gr,
                    path,
                    cut - (i + 1),
                    end_station,
                    passengers,
                    arrival_time,
                ));
            }
            i = i + 1;
        }
        (random_group, None)
    }

    /// `find_detour_for_group` for a random one of `group_indices` (which must not be
    /// empty), with a random pick among the found paths.
    pub fn find_detour_for_random_group(
        &self,
        graph: &mut TimetableGraph,
        groups: &mut Vec<Group>,
        group_indices: Vec<usize>,
        edge: usize,
        rng: &mut ThreadRng,
    ) -> (result: (usize, Option<Path>))
        requires
            valid_selection(old(groups)@, self.groups_path_index@),
            group_indices@.len() > 0,
            forall|k: int| 0 <= k < group_indices@.len() ==> {
                let g = #[trigger] group_indices@[k];
                &&& g < old(groups)@.len()
                &&& old(groups)@[g as int].paths@[self.groups_path_index@[g as int] as int].edge_seq().contains(edge)
            },
            paths_in_graph(old(groups)@, graph_edges(*old(graph))),
            searchable(*old(graph)),
        ensures
            *final(groups) == *old(groups),
            *final(graph) == *old(graph),
            group_indices@.contains(result.0),
            exists|path_draw: usize|
                is_detour_result(*old(graph), old(groups)@, self.groups_path_index@, result.0, edge, path_draw, result.1),
            ({
                let g = old(groups)@[result.0 as int];
                let path = g.paths@[self.groups_path_index@[result.0 as int] as int].edge_seq();
                result.1 matches Some(p) ==> exists|station: u64|
                    {
                        &&& end_station(*old(graph), path) == Some(station)
                        &&& is_detour(*old(graph), path, path.index_of(edge), station, p, g.passengers, g.arrival_time)
                    }
            }),
    {
        let random_group = group_indices[random_usize(rng) % group_indices.len()];
        let path_draw = random_usize(rng);
        let ghost old_graph = *graph;
        let ghost old_groups = groups@;
        let result = self.find_detour_for_group(graph, groups, random_group, edge, path_draw);
        proof {
            assert(is_detour_result(old_graph, old_groups, self.groups_path_index@, result.0, edge, path_draw, result.1));
        }
        result
    }

    /// Index of the first state of least cost.
    pub fn cheapest(states: &Vec<Self>) -> (k: usize)
        requires
            states@.len() > 0,
        ensures
            k < states@.len(),
            forall|j: int| 0 <= j < states@.len() ==> states@[k as int].cost <= (#[trigger] states@[j]).cost,
            forall|j: int| 0 <= j < k ==> states@[k as int].cost < (#[trigger] states@[j]).cost,
    {
        let mut k: usize = 0;
        let mut j: usize = 1;
        while j < states.len()
            invariant
                states@.len() > 0,
                k < j <= states@.len(),
                forall|q: int| 0 <= q < j ==> states@[k as int].cost <= (#[trigger] states@[q]).cost,
                forall|q: int| 0 <= q < k ==> states@[k as int].cost < (#[trigger] states@[q]).cost,
            decreases states@.len() - j,
        {
            if states[j].cost < states[k].cost {
                k = j;
            }
            j = j + 1;
        }
        k
    }

    /// the state's costs, recorded at step `time`
    pub open spec fn spec_record(&self, time: u64) -> CostRecord {
        CostRecord {
            time,
            cost: self.cost,
            strained_edges_cost: self.strained_edges_cost,
            travel_cost: self.travel_cost,
            travel_delay_cost: self.travel_delay_cost,
        }
    }

    /// The state's costs, recorded at step `time`.
    pub fn record(&self, time: u64) -> (record: CostRecord)
        ensures
            record == self.spec_record(time),
    {
        CostRecord {
            time,
            cost: self.cost,
            strained_edges_cost: self.strained_edges_cost,
            travel_cost: self.travel_cost,
            travel_delay_cost: self.travel_delay_cost,
        }
    }

    /// Summed delay of the selected paths.
    pub fn calculate_total_travel_delay(&self) -> (delay: i64)
        requires
            valid_selection(self.groups@, self.groups_path_index@),
            i64::MIN <= paths_delay_sum(self.selection()) <= i64::MAX,
        ensures
            delay == paths_delay_sum(self.selection()),
    {
        Self::delay_sum(self.groups, &self.groups_path_index)
    }
}

} // verus!
