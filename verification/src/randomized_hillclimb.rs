//! Hill climbing over direct neighbors, from several restarts.

use vstd::prelude::*;
use crate::graph::{graph_edges, graph_nodes, GraphEdge, TimetableGraph};
use crate::load::unloaded;
use crate::group::Group;
use crate::optimization::{
    all_selections_fit, direct_neighbor_cost, direct_neighbors_upto, first_paths, lemma_direct_neighbors_exist,
    paths_in_graph, selected_paths, selection_cost, CostRecord, SelectionState,
};

verus! {

/// `k` is the first position among `candidates` (selections of paths of `groups`)
/// of one of least cost on `edges`
pub open spec fn is_first_cheapest(edges: Seq<GraphEdge>, groups: Seq<Group>, candidates: Seq<Seq<usize>>, k: int) -> bool {
    &&& 0 <= k < candidates.len()
    &&& forall|j: int|
        0 <= j < candidates.len() ==> selection_cost(edges, selected_paths(groups, candidates[k])) <= selection_cost(
            edges,
            selected_paths(groups, #[trigger] candidates[j]),
        )
    &&& forall|j: int|
        0 <= j < k ==> selection_cost(edges, selected_paths(groups, candidates[k])) < selection_cost(
            edges,
            selected_paths(groups, #[trigger] candidates[j]),
        )
}

/// At most one position is the first of least cost.
pub proof fn lemma_first_cheapest_unique(edges: Seq<GraphEdge>, groups: Seq<Group>, candidates: Seq<Seq<usize>>, k1: int, k2: int)
    requires
        is_first_cheapest(edges, groups, candidates, k1),
        is_first_cheapest(edges, groups, candidates, k2),
    ensures
        k1 == k2,
{
    if k1 < k2 {
        assert(selection_cost(edges, selected_paths(groups, candidates[k2])) < selection_cost(edges, selected_paths(groups, candidates[k1])));
    } else if k2 < k1 {
        assert(selection_cost(edges, selected_paths(groups, candidates[k1])) < selection_cost(edges, selected_paths(groups, candidates[k2])));
    }
}

/// The selection that hill climbing reaches from the selection `index` in at most
/// `steps` moves on `edges`: while the first cheapest direct neighbor costs less, it
/// moves there.
pub open spec fn climb(edges: Seq<GraphEdge>, groups: Seq<Group>, index: Seq<usize>, steps: nat) -> Seq<usize>
    decreases steps,
{
    if steps == 0 {
        index
    } else {
        let candidates = direct_neighbors_upto(groups, index, groups.len() as int);
        let k = choose|k: int| is_first_cheapest(edges, groups, candidates, k);
        if selection_cost(edges, selected_paths(groups, candidates[k])) >= selection_cost(edges, selected_paths(groups, index)) {
            index
        } else {
            climb(edges, groups, candidates[k], (steps - 1) as nat)
        }
    }
}

/// `k` is the first position among the direct neighbors of the selection `index` of
/// one of least cost as `SelectionState::all_direct_neighbors` costs them (see
/// `direct_neighbor_cost`)
pub open spec fn is_first_cheapest_neighbor(edges: Seq<GraphEdge>, groups: Seq<Group>, index: Seq<usize>, k: int) -> bool {
    let n = direct_neighbors_upto(groups, index, groups.len() as int).len();
    &&& 0 <= k < n
    &&& forall|j: int|
        0 <= j < n ==> direct_neighbor_cost(edges, groups, index, k) <= #[trigger] direct_neighbor_cost(edges, groups, index, j)
    &&& forall|j: int|
        0 <= j < k ==> direct_neighbor_cost(edges, groups, index, k) < #[trigger] direct_neighbor_cost(edges, groups, index, j)
}

/// At most one position is the first cheapest neighbor.
pub proof fn lemma_first_cheapest_neighbor_unique(edges: Seq<GraphEdge>, groups: Seq<Group>, index: Seq<usize>, k1: int, k2: int)
    requires
        is_first_cheapest_neighbor(edges, groups, index, k1),
        is_first_cheapest_neighbor(edges, groups, index, k2),
    ensures
        k1 == k2,
{
    if k1 < k2 {
        assert(direct_neighbor_cost(edges, groups, index, k2) < direct_neighbor_cost(edges, groups, index, k1));
    } else if k2 < k1 {
        assert(direct_neighbor_cost(edges, groups, index, k1) < direct_neighbor_cost(edges, groups, index, k2));
    }
}

/// The selection that hill climbing reaches from the selection `index`, of cost
/// `cost`, in at most `steps` moves on `edges`, with the neighbors costed as
/// `SelectionState::all_direct_neighbors` costs them: while the first cheapest
/// direct neighbor costs less than the current selection, it moves there.
pub open spec fn climb_as_costed(edges: Seq<GraphEdge>, groups: Seq<Group>, index: Seq<usize>, cost: int, steps: nat) -> Seq<usize>
    decreases steps,
{
    if steps == 0 {
        index
    } else {
        let k = choose|k: int| is_first_cheapest_neighbor(edges, groups, index, k);
        if direct_neighbor_cost(edges, groups, index, k) >= cost {
            index
        } else {
            climb_as_costed(
                edges,
                groups,
                direct_neighbors_upto(groups, index, groups.len() as int)[k],
                direct_neighbor_cost(edges, groups, index, k),
                (steps - 1) as nat,
            )
        }
    }
}

/// The cost, as `SelectionState::all_direct_neighbors` costs it, of the selection
/// that `climb_as_costed` reaches.
pub open spec fn climb_cost(edges: Seq<GraphEdge>, groups: Seq<Group>, index: Seq<usize>, cost: int, steps: nat) -> int
    decreases steps,
{
    if steps == 0 {
        cost
    } else {
        let k = choose|k: int| is_first_cheapest_neighbor(edges, groups, index, k);
        if direct_neighbor_cost(edges, groups, index, k) >= cost {
            cost
        } else {
            climb_cost(
                edges,
                groups,
                direct_neighbors_upto(groups, index, groups.len() as int)[k],
                direct_neighbor_cost(edges, groups, index, k),
                (steps - 1) as nat,
            )
        }
    }
}

/// The moves a hill-climb search makes at most: a single step, none when no
/// iteration is asked for.
pub open spec fn hill_steps(max_n_iterations: u64) -> nat {
    if max_n_iterations > 0 {
        1
    } else {
        0
    }
}

/// A single hill-climbing step from the selection `index` of cost `cost` (with a
/// first cheapest direct neighbor) stays there, or moves to the first cheapest
/// direct neighbor, which then costs less.
pub proof fn lemma_single_step(edges: Seq<GraphEdge>, groups: Seq<Group>, index: Seq<usize>, cost: int)
    requires
        exists|k: int| is_first_cheapest_neighbor(edges, groups, index, k),
    ensures
        climb_as_costed(edges, groups, index, cost, 1) == index && climb_cost(edges, groups, index, cost, 1) == cost
            || exists|k: int|
            #[trigger] is_first_cheapest_neighbor(edges, groups, index, k) && climb_as_costed(edges, groups, index, cost, 1)
                == direct_neighbors_upto(groups, index, groups.len() as int)[k] && climb_cost(edges, groups, index, cost, 1)
                == direct_neighbor_cost(edges, groups, index, k) && direct_neighbor_cost(edges, groups, index, k) < cost,
{
    let k = choose|k: int| is_first_cheapest_neighbor(edges, groups, index, k);
    assert(climb_as_costed(edges, groups, index, cost, 1) == if direct_neighbor_cost(edges, groups, index, k) >= cost {
        index
    } else {
        climb_as_costed(
            edges,
            groups,
            direct_neighbors_upto(groups, index, groups.len() as int)[k],
            direct_neighbor_cost(edges, groups, index, k),
            0,
        )
    });
    assert(climb_cost(edges, groups, index, cost, 1) == if direct_neighbor_cost(edges, groups, index, k) >= cost {
        cost
    } else {
        climb_cost(
            edges,
            groups,
            direct_neighbors_upto(groups, index, groups.len() as int)[k],
            direct_neighbor_cost(edges, groups, index, k),
            0,
        )
    });
}

/// Performs a single hill-climbing step, in each of `n_restarts` searches: each starts
/// from the first (cheapest) path of every group and, when `max_n_iterations` asks
/// for any iteration, moves once to the first cheapest direct neighbor (see
/// `SelectionState::all_direct_neighbors`) if that costs less than the start.
/// Returns the cheapest of the states reached, and the costs recorded along the way
/// (with the run as their time): at the start of each run and before the move or
/// stop. Every run ends at the same selection, the one `climb_as_costed` describes
/// for a single step; on a graph without passengers that is also the one `climb`
/// describes over the costs of the selections. The cost of the result is the one
/// `climb_cost` gives.
pub fn randomized_hillclimb<'a>(
    graph: &mut TimetableGraph,
    groups: &'a Vec<Group>,
    n_restarts: u64,
    max_n_iterations: u64,
) -> (result: (SelectionState<'a>, Vec<CostRecord>))
    requires
        n_restarts > 0,
        forall|g: int| 0 <= g < groups@.len() ==> (#[trigger] groups@[g]).paths@.len() > 0,
        max_n_iterations > 0 ==> exists|g: int| 0 <= g < groups@.len() && (#[trigger] groups@[g]).paths@.len() >= 2,
        paths_in_graph(groups@, graph_edges(*old(graph))),
        all_selections_fit(graph_edges(*old(graph)), groups@),
    ensures
        graph_edges(*final(graph)) == graph_edges(*old(graph)),
        graph_nodes(*final(graph)) == graph_nodes(*old(graph)),
        result.0.groups == groups,
        result.0.evaluated_on(graph_edges(*old(graph))),
        result.0.cost <= selection_cost(graph_edges(*old(graph)), selected_paths(groups@, first_paths(groups@))),
        forall|i: int| 0 <= i < result.1@.len() ==> (#[trigger] result.1@[i]).time < n_restarts,
        forall|i: int| 0 <= i < result.1@.len() ==> result.0.cost <= (#[trigger] result.1@[i]).cost,
        result.0.groups_path_index@ == climb_as_costed(
            graph_edges(*old(graph)),
            groups@,
            first_paths(groups@),
            selection_cost(graph_edges(*old(graph)), selected_paths(groups@, first_paths(groups@))),
            hill_steps(max_n_iterations),
        ),
        result.0.cost == climb_cost(
            graph_edges(*old(graph)),
            groups@,
            first_paths(groups@),
            selection_cost(graph_edges(*old(graph)), selected_paths(groups@, first_paths(groups@))),
            hill_steps(max_n_iterations),
        ),
        unloaded(graph_edges(*old(graph))) ==> result.0.groups_path_index@ == climb(
            graph_edges(*old(graph)),
            groups@,
            first_paths(groups@),
            hill_steps(max_n_iterations),
        ),
        max_n_iterations == 0 ==> result.0.groups_path_index@ == first_paths(groups@),
        max_n_iterations > 0 ==> {
            let edges = graph_edges(*old(graph));
            let first = first_paths(groups@);
            let first_cost = selection_cost(edges, selected_paths(groups@, first));
            ||| result.0.groups_path_index@ == first && result.0.cost == first_cost
            ||| exists|k: int|
                #[trigger] is_first_cheapest_neighbor(edges, groups@, first, k) && result.0.groups_path_index@
                    == direct_neighbors_upto(groups@, first, groups@.len() as int)[k] && result.0.cost == direct_neighbor_cost(
                    edges,
                    groups@,
                    first,
                    k,
                ) && result.0.cost < first_cost
        },
{
    let ghost edges0 = graph_edges(*graph);
    let ghost first_cost = selection_cost(edges0, selected_paths(groups@, first_paths(groups@)));
    let mut local_minima: Vec<SelectionState<'a>> = Vec::new();
    let mut records: Vec<CostRecord> = Vec::new();
    // a single hill-climbing step per search
    let steps: u64 = if max_n_iterations > 0 {
        1
    } else {
        0
    };
    let mut run: u64 = 0;
    while run < n_restarts
        invariant
            run <= n_restarts,
            steps == hill_steps(max_n_iterations),
            run > 0 && max_n_iterations > 0 ==> exists|k: int| is_first_cheapest_neighbor(edges0, groups@, first_paths(groups@), k),
            local_minima@.len() == run,
            first_cost == selection_cost(edges0, selected_paths(groups@, first_paths(groups@))),
            edges0 == graph_edges(*old(graph)),
            graph_edges(*graph) == edges0,
            graph_nodes(*graph) == graph_nodes(*old(graph)),
            forall|g: int| 0 <= g < groups@.len() ==> (#[trigger] groups@[g]).paths@.len() > 0,
            max_n_iterations > 0 ==> exists|g: int| 0 <= g < groups@.len() && (#[trigger] groups@[g]).paths@.len() >= 2,
            paths_in_graph(groups@, edges0),
            all_selections_fit(edges0, groups@),
            forall|k: int|
                0 <= k < local_minima@.len() ==> {
                    &&& (#[trigger] local_minima@[k]).groups == groups
                    &&& local_minima@[k].evaluated_on(edges0)
                    &&& local_minima@[k].cost <= first_cost
                },
            forall|i: int| 0 <= i < records@.len() ==> (#[trigger] records@[i]).time < run,
            forall|i: int|
                0 <= i < records@.len() ==> local_minima@[(#[trigger] records@[i]).time as int].cost <= records@[i].cost,
            forall|k: int|
                0 <= k < local_minima@.len() ==> (unloaded(edges0) ==> (#[trigger] local_minima@[k]).groups_path_index@
                    == climb(edges0, groups@, first_paths(groups@), hill_steps(max_n_iterations))),
            forall|k: int|
                0 <= k < local_minima@.len() ==> (#[trigger] local_minima@[k]).groups_path_index@ == climb_as_costed(
                    edges0,
                    groups@,
                    first_paths(groups@),
                    first_cost,
                    hill_steps(max_n_iterations),
                ),
            forall|k: int|
                0 <= k < local_minima@.len() ==> (#[trigger] local_minima@[k]).cost == climb_cost(
                    edges0,
                    groups@,
                    first_paths(groups@),
                    first_cost,
                    hill_steps(max_n_iterations),
                ),
        decreases n_restarts - run,
    {
        let mut local_minimum = SelectionState::generate_state_with_best_path_per_group(graph, groups);
        proof {
            assert(local_minimum.groups_path_index@ == first_paths(groups@));
            assert(local_minimum.selection() == selected_paths(groups@, first_paths(groups@)));
            assert(local_minimum.cost == first_cost);
        }
        let ghost records_before = records@.len();
        records.push(local_minimum.record(run));
        let mut j: u64 = 0;
        while j < steps
            invariant
                j <= steps,
                steps == hill_steps(max_n_iterations),
                j == 0 ==> local_minimum.groups_path_index@ == first_paths(groups@) && local_minimum.cost == first_cost,
                j > 0 ==> exists|k: int| is_first_cheapest_neighbor(edges0, groups@, first_paths(groups@), k),
                graph_edges(*graph) == edges0,
                graph_nodes(*graph) == graph_nodes(*old(graph)),
                max_n_iterations > 0 ==> exists|g: int| 0 <= g < groups@.len() && (#[trigger] groups@[g]).paths@.len() >= 2,
                paths_in_graph(groups@, edges0),
                all_selections_fit(edges0, groups@),
                local_minimum.groups == groups,
                local_minimum.evaluated_on(edges0),
                local_minimum.cost <= first_cost,
                records_before < records@.len(),
                forall|i: int| 0 <= i < records_before ==> (#[trigger] records@[i]).time < run,
                forall|i: int| records_before <= i < records@.len() ==> (#[trigger] records@[i]).time == run,
                forall|i: int| records_before <= i < records@.len() ==> local_minimum.cost <= (#[trigger] records@[i]).cost,
                forall|i: int|
                    0 <= i < records_before ==> local_minima@[(#[trigger] records@[i]).time as int].cost <= records@[i].cost,
                unloaded(edges0) ==> climb(edges0, groups@, first_paths(groups@), hill_steps(max_n_iterations)) == climb(
                    edges0,
                    groups@,
                    local_minimum.groups_path_index@,
                    (steps - j) as nat,
                ),
                climb_as_costed(edges0, groups@, first_paths(groups@), first_cost, hill_steps(max_n_iterations)) == climb_as_costed(
                    edges0,
                    groups@,
                    local_minimum.groups_path_index@,
                    local_minimum.cost as int,
                    (steps - j) as nat,
                ),
                climb_cost(edges0, groups@, first_paths(groups@), first_cost, hill_steps(max_n_iterations)) == climb_cost(
                    edges0,
                    groups@,
                    local_minimum.groups_path_index@,
                    local_minimum.cost as int,
                    (steps - j) as nat,
                ),
            ensures
                max_n_iterations > 0 ==> exists|k: int| is_first_cheapest_neighbor(edges0, groups@, first_paths(groups@), k),
                climb_cost(edges0, groups@, first_paths(groups@), first_cost, hill_steps(max_n_iterations)) == local_minimum.cost,
                unloaded(edges0) ==> climb(edges0, groups@, first_paths(groups@), hill_steps(max_n_iterations))
                    == local_minimum.groups_path_index@,
                climb_as_costed(edges0, groups@, first_paths(groups@), first_cost, hill_steps(max_n_iterations))
                    == local_minimum.groups_path_index@,
            decreases steps - j,
        {
            let mut neighbors = local_minimum.all_direct_neighbors(graph);
            proof {
                let g = choose|g: int| 0 <= g < groups@.len() && (#[trigger] groups@[g]).paths@.len() >= 2;
                lemma_direct_neighbors_exist(groups@, local_minimum.groups_path_index@, g, groups@.len() as int);
            }
            let best = SelectionState::cheapest(&neighbors);
            let ghost all_neighbors = neighbors@;
            let best_neighbor = neighbors.remove(best);
            proof {
                let index_now = local_minimum.groups_path_index@;
                let candidates = direct_neighbors_upto(groups@, index_now, groups@.len() as int);
                assert forall|q: int| 0 <= q < all_neighbors.len() implies (#[trigger] all_neighbors[q]).cost
                    == direct_neighbor_cost(edges0, groups@, index_now, q) by {
                    assert(all_neighbors[q].evaluated_on(edges0));
                    assert(all_neighbors[q].selection() == selected_paths(groups@, candidates[q]));
                }
                assert(is_first_cheapest_neighbor(edges0, groups@, index_now, best as int)) by {
                    assert forall|q: int| 0 <= q < candidates.len() implies direct_neighbor_cost(edges0, groups@, index_now, best as int)
                        <= #[trigger] direct_neighbor_cost(edges0, groups@, index_now, q) by {
                        assert(all_neighbors[best as int].cost <= all_neighbors[q].cost);
                    }
                    assert forall|q: int| 0 <= q < best implies direct_neighbor_cost(edges0, groups@, index_now, best as int)
                        < #[trigger] direct_neighbor_cost(edges0, groups@, index_now, q) by {
                        assert(all_neighbors[best as int].cost < all_neighbors[q].cost);
                    }
                }
                let k = choose|k: int| is_first_cheapest_neighbor(edges0, groups@, index_now, k);
                lemma_first_cheapest_neighbor_unique(edges0, groups@, index_now, k, best as int);
                if j == 0 {
                    assert(is_first_cheapest_neighbor(edges0, groups@, first_paths(groups@), best as int));
                }
                assert(best_neighbor == all_neighbors[best as int]);
                assert((steps - j) as nat > 0);
            }
            proof {
                if unloaded(edges0) {
                    let candidates = direct_neighbors_upto(groups@, local_minimum.groups_path_index@, groups@.len() as int);
                    assert forall|q: int| 0 <= q < all_neighbors.len() implies (#[trigger] all_neighbors[q]).cost == selection_cost(
                        edges0,
                        selected_paths(groups@, candidates[q]),
                    ) by {
                        assert(all_neighbors[q].evaluated_on(edges0));
                    }
                    assert(is_first_cheapest(edges0, groups@, candidates, best as int)) by {
                        assert forall|q: int| 0 <= q < candidates.len() implies selection_cost(edges0, selected_paths(groups@, candidates[best as int]))
                            <= selection_cost(edges0, selected_paths(groups@, #[trigger] candidates[q])) by {
                            assert(all_neighbors[best as int].cost <= all_neighbors[q].cost);
                        }
                        assert forall|q: int| 0 <= q < best implies selection_cost(edges0, selected_paths(groups@, candidates[best as int]))
                            < selection_cost(edges0, selected_paths(groups@, #[trigger] candidates[q])) by {
                            assert(all_neighbors[best as int].cost < all_neighbors[q].cost);
                        }
                    }
                    let k = choose|k: int| is_first_cheapest(edges0, groups@, candidates, k);
                    lemma_first_cheapest_unique(edges0, groups@, candidates, k, best as int);
                    assert(best_neighbor == all_neighbors[best as int]);
                    assert(local_minimum.cost == selection_cost(edges0, local_minimum.selection()));
                    assert((steps - j) as nat > 0);
                }
            }
            records.push(local_minimum.record(run));
            if best_neighbor.cost >= local_minimum.cost {
                // no neighbor is cheaper: a local minimum
                break;
            }
            local_minimum = best_neighbor;
            j = j + 1;
        }
        local_minima.push(local_minimum);
        run = run + 1;
    }
    // the cheapest local minimum
    let k = SelectionState::cheapest(&local_minima);
    let ghost old_minima = local_minima@;
    let best = local_minima.remove(k);
    proof {
        assert forall|i: int| 0 <= i < records@.len() implies best.cost <= (#[trigger] records@[i]).cost by {
            let q = records@[i].time as int;
            assert(old_minima[k as int] == best);
            assert(old_minima[k as int].cost <= old_minima[q].cost);
        }
        assert(best == old_minima[k as int]);
        if max_n_iterations > 0 {
            assert(hill_steps(max_n_iterations) == 1);
            lemma_single_step(edges0, groups@, first_paths(groups@), first_cost);
        }
    }
    (best, records)
}

} // verus!
