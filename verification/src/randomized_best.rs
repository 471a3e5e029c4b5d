//! Randomized improvement: try random states and keep the cheaper ones.

use vstd::prelude::*;
use crate::graph::{graph_edges, graph_nodes, GraphEdge, TimetableGraph};
use crate::group::Group;
use crate::optimization::{
    all_selections_fit, first_paths, new_thread_rng, paths_in_graph, random_usize, selected_paths, selection_cost,
    CostRecord, SelectionState,
};

verus! {

/// the selection that takes for each group its path numbered by the group's number
/// in `draw`, modulo its number of paths
pub open spec fn drawn_state(groups: Seq<Group>, draw: Seq<usize>) -> Seq<usize> {
    Seq::new(groups.len(), |g: int| (draw[g] as nat % groups[g].paths@.len()) as usize)
}

/// The selection that the randomized improvement reaches from `index` with the
/// numbers `draws`: in turn, the state each sequence of numbers picks replaces the
/// current selection when it costs less on `edges`.
pub open spec fn improved_by_draws(edges: Seq<GraphEdge>, groups: Seq<Group>, index: Seq<usize>, draws: Seq<Seq<usize>>) -> Seq<usize>
    decreases draws.len(),
{
    if draws.len() == 0 {
        index
    } else {
        let next = drawn_state(groups, draws[0]);
        let kept = if selection_cost(edges, selected_paths(groups, next)) < selection_cost(edges, selected_paths(groups, index)) {
            next
        } else {
            index
        };
        improved_by_draws(edges, groups, kept, draws.drop_first())
    }
}

/// Starts from the first (cheapest) path of every group and, `iterations` times,
/// generates a random state (a random path for each group), which replaces the
/// current state when it costs less. Returns the final state and the costs of the
/// current state at the start of each iteration. It draws a random number for each
/// group in each iteration and goes on as `randomized_best_from_draws` does with
/// them.
pub fn randomized_best<'a>(graph: &mut TimetableGraph, groups: &'a Vec<Group>, iterations: u64) -> (result: (
    SelectionState<'a>,
    Vec<CostRecord>,
))
    requires
        forall|g: int| 0 <= g < groups@.len() ==> (#[trigger] groups@[g]).paths@.len() > 0,
        paths_in_graph(groups@, graph_edges(*old(graph))),
        all_selections_fit(graph_edges(*old(graph)), groups@),
    ensures
        graph_edges(*final(graph)) == graph_edges(*old(graph)),
        graph_nodes(*final(graph)) == graph_nodes(*old(graph)),
        result.0.groups == groups,
        result.0.costs_on(graph_edges(*old(graph))),
        result.1@.len() == iterations,
        forall|i: int| 0 <= i < result.1@.len() ==> (#[trigger] result.1@[i]).time == i,
        forall|i: int, j: int| 0 <= i <= j < result.1@.len() ==> result.1@[j].cost <= result.1@[i].cost,
        forall|i: int| 0 <= i < result.1@.len() ==> result.0.cost <= (#[trigger] result.1@[i]).cost,
        result.0.cost <= selection_cost(graph_edges(*old(graph)), selected_paths(groups@, first_paths(groups@))),
        iterations > 0 ==> result.1@[0].cost == selection_cost(
            graph_edges(*old(graph)),
            selected_paths(groups@, first_paths(groups@)),
        ),
        exists|draws: Seq<Seq<usize>>|
            draws.len() == iterations && (forall|i: int| 0 <= i < draws.len() ==> (#[trigger] draws[i]).len() == groups@.len())
                && result.0.groups_path_index@ == #[trigger] improved_by_draws(
                graph_edges(*old(graph)),
                groups@,
                first_paths(groups@),
                draws,
            ),
{
    let mut rng = new_thread_rng();
    let mut draws: Vec<Vec<usize>> = Vec::new();
    let mut time: u64 = 0;
    while time < iterations
        invariant
            time <= iterations,
            draws@.len() == time,
            forall|i: int| 0 <= i < draws@.len() ==> (#[trigger] draws@[i])@.len() == groups@.len(),
        decreases iterations - time,
    {
        let mut draw: Vec<usize> = Vec::new();
        let mut g: usize = 0;
        while g < groups.len()
            invariant
                g <= groups@.len(),
                draw@.len() == g,
            decreases groups@.len() - g,
        {
            draw.push(random_usize(&mut rng));
            g = g + 1;
        }
        draws.push(draw);
        time = time + 1;
    }
    let result = randomized_best_from_draws(graph, groups, &draws);
    proof {
        let ds = draws@.map_values(|d: Vec<usize>| d@);
        assert(ds.len() == iterations);
        assert(forall|i: int| 0 <= i < ds.len() ==> (#[trigger] ds[i]).len() == groups@.len());
        assert(result.0.groups_path_index@ == improved_by_draws(
            graph_edges(*old(graph)),
            groups@,
            first_paths(groups@),
            ds,
        ));
    }
    result
}

/// Starts from the first (cheapest) path of every group and, for each sequence of
/// numbers of `draws` in turn (one number per group), tries the state it picks (see
/// `drawn_state`),
/// which replaces the current state when it costs less. Returns the final state,
/// which `improved_by_draws` describes, and the costs of the current state at the
/// start of each step.
pub fn randomized_best_from_draws<'a>(graph: &mut TimetableGraph, groups: &'a Vec<Group>, draws: &Vec<Vec<usize>>) -> (result: (
    SelectionState<'a>,
    Vec<CostRecord>,
))
    requires
        forall|g: int| 0 <= g < groups@.len() ==> (#[trigger] groups@[g]).paths@.len() > 0,
        forall|i: int| 0 <= i < draws@.len() ==> (#[trigger] draws@[i])@.len() == groups@.len(),
        paths_in_graph(groups@, graph_edges(*old(graph))),
        all_selections_fit(graph_edges(*old(graph)), groups@),
    ensures
        graph_edges(*final(graph)) == graph_edges(*old(graph)),
        graph_nodes(*final(graph)) == graph_nodes(*old(graph)),
        result.0.groups == groups,
        result.0.groups_path_index@ == improved_by_draws(
            graph_edges(*old(graph)),
            groups@,
            first_paths(groups@),
            draws@.map_values(|d: Vec<usize>| d@),
        ),
        result.0.costs_on(graph_edges(*old(graph))),
        result.1@.len() == draws@.len(),
        forall|i: int| 0 <= i < result.1@.len() ==> (#[trigger] result.1@[i]).time == i,
        forall|i: int, j: int| 0 <= i <= j < result.1@.len() ==> result.1@[j].cost <= result.1@[i].cost,
        forall|i: int| 0 <= i < result.1@.len() ==> result.0.cost <= (#[trigger] result.1@[i]).cost,
        result.0.cost <= selection_cost(graph_edges(*old(graph)), selected_paths(groups@, first_paths(groups@))),
        draws@.len() > 0 ==> result.1@[0].cost == selection_cost(
            graph_edges(*old(graph)),
            selected_paths(groups@, first_paths(groups@)),
        ),
{
    let ghost edges0 = graph_edges(*graph);
    let ghost first_cost = selection_cost(edges0, selected_paths(groups@, first_paths(groups@)));
    let ghost ds = draws@.map_values(|d: Vec<usize>| d@);
    let mut current = SelectionState::generate_state_with_best_path_per_group(graph, groups);
    let mut records: Vec<CostRecord> = Vec::new();
    proof {
        assert(current.groups_path_index@ == first_paths(groups@));
        assert(ds.take(0) =~= Seq::<Seq<usize>>::empty());
    }
    let mut time: usize = 0;
    while time < draws.len()
        invariant
            time <= draws@.len(),
            ds == draws@.map_values(|d: Vec<usize>| d@),
            forall|i: int| 0 <= i < draws@.len() ==> (#[trigger] draws@[i])@.len() == groups@.len(),
            forall|g: int| 0 <= g < groups@.len() ==> (#[trigger] groups@[g]).paths@.len() > 0,
            graph_edges(*graph) == edges0,
            graph_nodes(*graph) == graph_nodes(*old(graph)),
            paths_in_graph(groups@, edges0),
            all_selections_fit(edges0, groups@),
            current.groups == groups,
            current.costs_on(edges0),
            current.cost <= first_cost,
            records@.len() == time,
            forall|i: int| 0 <= i < records@.len() ==> (#[trigger] records@[i]).time == i,
            forall|i: int, j: int| 0 <= i <= j < records@.len() ==> records@[j].cost <= records@[i].cost,
            forall|i: int| 0 <= i < records@.len() ==> current.cost <= (#[trigger] records@[i]).cost,
            time > 0 ==> records@[0].cost == first_cost,
            time == 0 ==> current.cost == first_cost,
            improved_by_draws(edges0, groups@, first_paths(groups@), ds.take(time as int)) == current.groups_path_index@,
        decreases draws@.len() - time,
    {
        records.push(current.record(time as u64));
        let draw = &draws[time];
        proof {
            assert(draw@.len() == groups@.len());
        }
        let next = SelectionState::state_from_draws(graph, groups, draw);
        let ghost before = current.groups_path_index@;
        proof {
            lemma_improved_by_draws_push(edges0, groups@, first_paths(groups@), ds.take(time as int), draw@);
            assert(ds[time as int] == draw@);
            assert(ds.take(time + 1) == ds.take(time as int).push(draw@));
            assert(next.groups_path_index@ == drawn_state(groups@, draw@));
            assert(next.cost == selection_cost(edges0, selected_paths(groups@, next.groups_path_index@)));
            assert(current.cost == selection_cost(edges0, selected_paths(groups@, before)));
        }
        if next.cost < current.cost {
            // the random state is cheaper: continue from it
            current = next;
        }
        time = time + 1;
    }
    proof {
        assert(ds.take(draws@.len() as int) == ds);
    }
    (current, records)
}

/// One more sequence of numbers takes one more step from where the others led.
proof fn lemma_improved_by_draws_push(
    edges: Seq<GraphEdge>,
    groups: Seq<Group>,
    index: Seq<usize>,
    draws: Seq<Seq<usize>>,
    draw: Seq<usize>,
)
    ensures
        ({
            let reached = improved_by_draws(edges, groups, index, draws);
            let next = drawn_state(groups, draw);
            improved_by_draws(edges, groups, index, draws.push(draw)) == if selection_cost(edges, selected_paths(groups, next))
                < selection_cost(edges, selected_paths(groups, reached)) {
                next
            } else {
                reached
            }
        }),
    decreases draws.len(),
{
    if draws.len() > 0 {
        let next = drawn_state(groups, draws[0]);
        let kept = if selection_cost(edges, selected_paths(groups, next)) < selection_cost(edges, selected_paths(groups, index)) {
            next
        } else {
            index
        };
        lemma_improved_by_draws_push(edges, groups, kept, draws.drop_first(), draw);
        assert(draws.push(draw)[0] == draws[0]);
        assert(draws.push(draw).drop_first() == draws.drop_first().push(draw));
        assert(improved_by_draws(edges, groups, index, draws) == improved_by_draws(edges, groups, kept, draws.drop_first()));
    } else {
        let next = drawn_state(groups, draw);
        let kept = if selection_cost(edges, selected_paths(groups, next)) < selection_cost(edges, selected_paths(groups, index)) {
            next
        } else {
            index
        };
        assert(draws.push(draw)[0] == draw);
        assert(draws.push(draw).drop_first() =~= Seq::<Seq<usize>>::empty());
        assert(improved_by_draws(edges, groups, kept, Seq::<Seq<usize>>::empty()) == kept);
        assert(improved_by_draws(edges, groups, index, draws) == index);
    }
}

} // verus!
