//! Checks, made before an optimization run, of what its functions ask of the groups'
//! paths: that they take edges of the graph, and that no selection of a path per
//! group gives costs beyond the integer types they are computed in.

use vstd::prelude::*;
use crate::graph::{graph_edge, graph_edge_count, graph_edges, GraphEdge, TimetableGraph};
use crate::graph_weight::TimetableEdge;
use crate::group::Group;
use crate::index_set::{index_set_get, index_set_items, index_set_len};
use crate::load::{lemma_load_nonneg, load_on, loaded_edges, strained_cost_upto, total_overload, trip_loads_fit};
use crate::optimization::{
    all_selections_fit, paths_cost_sum, paths_delay_sum, paths_in_graph, paths_travel_cost_sum, selected_paths, selection_fits,
    valid_selection,
};
use crate::path::{edges_exist, Path};

verus! {

/// Whether every path of every group takes only edges of the graph.
pub fn paths_in_graph_checked(graph: &TimetableGraph, groups: &Vec<Group>) -> (ok: bool)
    ensures
        ok == paths_in_graph(groups@, graph_edges(*graph)),
{
    let m = graph_edge_count(graph);
    let ghost edges = graph_edges(*graph);
    let mut g: usize = 0;
    while g < groups.len()
        invariant
            g <= groups@.len(),
            m == edges.len(),
            edges == graph_edges(*graph),
            forall|a: int, k: int|
                0 <= a < g && 0 <= k < groups@[a].paths@.len() ==> edges_exist(edges, #[trigger] groups@[a].paths@[k].edge_seq()),
        decreases groups@.len() - g,
    {
        let paths = &groups[g].paths;
        let mut k: usize = 0;
        while k < paths.len()
            invariant
                g < groups@.len(),
                paths@ == groups@[g as int].paths@,
                k <= paths@.len(),
                m == edges.len(),
                edges == graph_edges(*graph),
                forall|a: int, q: int|
                    0 <= a < g && 0 <= q < groups@[a].paths@.len() ==> edges_exist(edges, #[trigger] groups@[a].paths@[q].edge_seq()),
                forall|q: int| 0 <= q < k ==> edges_exist(edges, #[trigger] paths@[q].edge_seq()),
            decreases paths@.len() - k,
        {
            let set = paths[k].edges();
            let len = index_set_len(set);
            let mut j: usize = 0;
            while j < len
                invariant
                    j <= len,
                    g < groups@.len(),
                    paths@ == groups@[g as int].paths@,
                    k < paths@.len(),
                    edges == graph_edges(*graph),
                    len == index_set_items(*set).len(),
                    index_set_items(*set) == paths@[k as int].edge_seq(),
                    m == edges.len(),
                    forall|q: int| 0 <= q < j ==> #[trigger] index_set_items(*set)[q] < m,
                decreases len - j,
            {
                if index_set_get(set, j) >= m {
                    proof {
                        assert(index_set_items(*set)[j as int] >= m);
                        assert(!edges_exist(edges, groups@[g as int].paths@[k as int].edge_seq()));
                    }
                    return false;
                }
                j = j + 1;
            }
            proof {
                assert(edges_exist(edges, paths@[k as int].edge_seq()));
            }
            k = k + 1;
        }
        g = g + 1;
    }
    true
}

/// `index` selects an existing path for each of the first `index.len()` groups
spec fn valid_prefix(groups: Seq<Group>, index: Seq<usize>) -> bool {
    &&& index.len() <= groups.len()
    &&& forall|a: int| 0 <= a < index.len() ==> #[trigger] index[a] < groups[a].paths@.len()
}

/// the paths `sel` put at most `load` passengers on any edge, and their summed travel
/// cost, delay and cost lie within the given bounds
spec fn sums_within(
    sel: Seq<Path>,
    load: int,
    travel: int,
    delay_low: int,
    delay_high: int,
    cost_low: int,
    cost_high: int,
) -> bool {
    &&& forall|i: int| #[trigger] load_on(sel, i) <= load
    &&& paths_travel_cost_sum(sel) <= travel
    &&& delay_low <= paths_delay_sum(sel) <= delay_high
    &&& cost_low <= paths_cost_sum(sel) <= cost_high
}

/// the path `p` has at most `load` passengers and its travel cost, delay and cost lie
/// within the given bounds
spec fn path_within(p: Path, load: int, travel: int, delay_low: int, delay_high: int, cost_low: int, cost_high: int) -> bool {
    &&& p.spec_utilization() <= load
    &&& p.spec_travel_cost() <= travel
    &&& delay_low <= p.spec_travel_delay() <= delay_high
    &&& cost_low <= p.spec_cost() <= cost_high
}

/// every edge index
spec fn every_edge() -> Set<usize> {
    Set::new(|i: usize| true)
}

/// no trip among the first `n` edges gets more than `u64::MAX` passengers with those of `sel`
spec fn trip_loads_fit_upto(edges: Seq<GraphEdge>, sel: Seq<Path>, n: int) -> bool {
    forall|j: int|
        0 <= j < n && (#[trigger] edges[j]).2 is Trip ==> edges[j].2.spec_utilization() + load_on(sel, j) <= u64::MAX
}

/// the squared overload of a trip with `utilization` passengers and the given capacity
spec fn overload_bound(utilization: int, capacity: int) -> int {
    if utilization > capacity {
        (utilization - capacity) * (utilization - capacity)
    } else {
        0
    }
}

/// Selecting one more path adds at most its bounds to those of the selection before.
proof fn lemma_extend_selection(
    groups: Seq<Group>,
    index: Seq<usize>,
    load: int,
    travel: int,
    delay_low: int,
    delay_high: int,
    cost_low: int,
    cost_high: int,
    p_load: int,
    p_travel: int,
    p_delay_low: int,
    p_delay_high: int,
    p_cost_low: int,
    p_cost_high: int,
)
    requires
        index.len() > 0,
        valid_prefix(groups, index),
        sums_within(selected_paths(groups, index.drop_last()), load, travel, delay_low, delay_high, cost_low, cost_high),
        path_within(
            groups[index.len() - 1].paths@[index.last() as int],
            p_load,
            p_travel,
            p_delay_low,
            p_delay_high,
            p_cost_low,
            p_cost_high,
        ),
    ensures
        sums_within(
            selected_paths(groups, index),
            load + p_load,
            travel + p_travel,
            delay_low + p_delay_low,
            delay_high + p_delay_high,
            cost_low + p_cost_low,
            cost_high + p_cost_high,
        ),
{
    let sel = selected_paths(groups, index);
    let prev = selected_paths(groups, index.drop_last());
    assert(sel.drop_last() =~= prev);
    assert(sel.last() == groups[index.len() - 1].paths@[index.last() as int]);
    assert forall|i: int| #[trigger] load_on(sel, i) <= load + p_load by {
        assert(load_on(prev, i) <= load);
    }
}

/// Adding at most `load` passengers to a trip that can hold them gives at most the
/// squared overload with all `load` of them.
proof fn lemma_added_overload(e: TimetableEdge, extra: int, load: int)
    requires
        e is Trip,
        0 <= extra <= load,
        e.spec_utilization() + load <= u64::MAX,
    ensures
        e.with_added_utilization(extra).spec_utilization_cost() <= overload_bound(
            e.spec_utilization() + load,
            e.spec_capacity() as int,
        ),
{
    let u = e.spec_utilization() + extra;
    let c = e.spec_capacity() as int;
    let top = e.spec_utilization() + load;
    let added = e.with_added_utilization(extra);
    assert(added is Trip && added.spec_utilization() == u && added.spec_capacity() == c);
    if top > c {
        assert(0 <= (top - c) * (top - c)) by (nonlinear_arith);
    }
    if u > c {
        assert((u - c) * (u - c) <= (top - c) * (top - c)) by (nonlinear_arith)
            requires
                0 <= u - c <= top - c,
        ;
    } else if u == c {
        assert((u - c) * (u - c) == 0);
    }
}

/// Whether the costs of every selection of a path per group fit the integer types
/// they are computed in: checked on bounds (the most passengers, travel cost, delay
/// and cost a path of each group can add), so `true` is an answer on which the
/// optimization can rely, and `false` only says that the bounds do not show it.
pub fn selections_fit_checked(graph: &TimetableGraph, groups: &Vec<Group>) -> (ok: bool)
    ensures
        ok ==> all_selections_fit(graph_edges(*graph), groups@),
{
    let ghost edges = graph_edges(*graph);
    let mut load: u128 = 0;
    let mut travel: i128 = 0;
    let mut delay_low: i128 = 0;
    let mut delay_high: i128 = 0;
    let mut cost_low: i128 = 0;
    let mut cost_high: i128 = 0;
    proof {
        assert forall|index: Seq<usize>| index.len() == 0 && #[trigger] valid_prefix(groups@, index) implies sums_within(
            selected_paths(groups@, index),
            0,
            0,
            0,
            0,
            0,
            0,
        ) by {
            assert(selected_paths(groups@, index) =~= Seq::<Path>::empty());
        }
    }
    let mut g: usize = 0;
    while g < groups.len()
        invariant
            g <= groups@.len(),
            edges == graph_edges(*graph),
            load <= u64::MAX,
            0 <= travel <= i64::MAX,
            i64::MIN <= delay_low <= i64::MAX,
            i64::MIN <= delay_high <= i64::MAX,
            i64::MIN <= cost_low <= i64::MAX,
            i64::MIN <= cost_high <= i64::MAX,
            forall|index: Seq<usize>|
                index.len() == g && #[trigger] valid_prefix(groups@, index) ==> sums_within(
                    selected_paths(groups@, index),
                    load as int,
                    travel as int,
                    delay_low as int,
                    delay_high as int,
                    cost_low as int,
                    cost_high as int,
                ),
        decreases groups@.len() - g,
    {
        let paths = &groups[g].paths;
        if paths.len() == 0 {
            proof {
                assert forall|index: Seq<usize>| #[trigger] valid_selection(groups@, index) implies selection_fits(
                    edges,
                    selected_paths(groups@, index),
                ) by {
                    assert(index[g as int] < groups@[g as int].paths@.len());
                }
            }
            return true;
        }
        let first = &paths[0];
        let mut p_load: u64 = first.utilization();
        let mut p_travel: u64 = first.travel_cost();
        let mut p_delay_low: i64 = first.travel_delay();
        let mut p_delay_high: i64 = first.travel_delay();
        let mut p_cost_low: i64 = first.cost();
        let mut p_cost_high: i64 = first.cost();
        let mut k: usize = 1;
        while k < paths.len()
            invariant
                1 <= k <= paths@.len(),
                g < groups@.len(),
                paths@ == groups@[g as int].paths@,
                forall|q: int|
                    0 <= q < k ==> path_within(
                        #[trigger] paths@[q],
                        p_load as int,
                        p_travel as int,
                        p_delay_low as int,
                        p_delay_high as int,
                        p_cost_low as int,
                        p_cost_high as int,
                    ),
            decreases paths@.len() - k,
        {
            let p = &paths[k];
            if p.utilization() > p_load {
                p_load = p.utilization();
            }
            if p.travel_cost() > p_travel {
                p_travel = p.travel_cost();
            }
            if p.travel_delay() < p_delay_low {
                p_delay_low = p.travel_delay();
            }
            if p.travel_delay() > p_delay_high {
                p_delay_high = p.travel_delay();
            }
            if p.cost() < p_cost_low {
                p_cost_low = p.cost();
            }
            if p.cost() > p_cost_high {
                p_cost_high = p.cost();
            }
            k = k + 1;
        }
        let next_load = load + p_load as u128;
        let next_travel = travel + p_travel as i128;
        let next_delay_low = delay_low + p_delay_low as i128;
        let next_delay_high = delay_high + p_delay_high as i128;
        let next_cost_low = cost_low + p_cost_low as i128;
        let next_cost_high = cost_high + p_cost_high as i128;
        if next_load > u64::MAX as u128 || next_travel > i64::MAX as i128 || next_delay_low < i64::MIN as i128
            || next_delay_low > i64::MAX as i128 || next_cost_low > i64::MAX as i128 || next_delay_high > i64::MAX as i128 || next_delay_high < i64::MIN as i128 || next_cost_low < i64::MIN
            as i128 || next_cost_high > i64::MAX as i128 || next_cost_high < i64::MIN as i128 {
            return false;
        }
        proof {
            assert forall|index: Seq<usize>| index.len() == g + 1 && #[trigger] valid_prefix(groups@, index) implies sums_within(
                selected_paths(groups@, index),
                next_load as int,
                next_travel as int,
                next_delay_low as int,
                next_delay_high as int,
                next_cost_low as int,
                next_cost_high as int,
            ) by {
                let before = index.drop_last();
                assert forall|a: int| 0 <= a < before.len() implies #[trigger] before[a] < groups@[a].paths@.len() by {
                    assert(before[a] == index[a]);
                }
                assert(valid_prefix(groups@, before));
                assert(index[g as int] < groups@[g as int].paths@.len());
                assert(path_within(
                    paths@[index.last() as int],
                    p_load as int,
                    p_travel as int,
                    p_delay_low as int,
                    p_delay_high as int,
                    p_cost_low as int,
                    p_cost_high as int,
                ));
                lemma_extend_selection(
                    groups@,
                    index,
                    load as int,
                    travel as int,
                    delay_low as int,
                    delay_high as int,
                    cost_low as int,
                    cost_high as int,
                    p_load as int,
                    p_travel as int,
                    p_delay_low as int,
                    p_delay_high as int,
                    p_cost_low as int,
                    p_cost_high as int,
                );
            }
        }
        load = next_load;
        travel = next_travel;
        delay_low = next_delay_low;
        delay_high = next_delay_high;
        cost_low = next_cost_low;
        cost_high = next_cost_high;
        g = g + 1;
    }
    proof {
        assert forall|index: Seq<usize>| #[trigger] valid_selection(groups@, index) implies valid_prefix(groups@, index) by {}
    }
    // the squared overload of every trip, with as many passengers added as any
    // selection can add
    let m = graph_edge_count(graph);
    let mut overload: u128 = 0;
    let mut i: usize = 0;
    while i < m
        invariant
            i <= m,
            m == edges.len(),
            edges == graph_edges(*graph),
            overload <= i64::MAX,
            load <= u64::MAX,
            forall|index: Seq<usize>|
                #[trigger] valid_selection(groups@, index) ==> {
                    let sel = selected_paths(groups@, index);
                    &&& sums_within(
                        sel,
                        load as int,
                        travel as int,
                        delay_low as int,
                        delay_high as int,
                        cost_low as int,
                        cost_high as int,
                    )
                    &&& trip_loads_fit_upto(edges, sel, i as int)
                    &&& strained_cost_upto(loaded_edges(edges, sel), every_edge(), i as int) <= overload
                },
        decreases m - i,
    {
        let weight = graph_edge(graph, i);
        let mut term: u128 = 0;
        if weight.is_trip() {
            let top = weight.utilization() as u128 + load;
            if top > u64::MAX as u128 {
                return false;
            }
            let capacity = weight.capacity() as u128;
            let over: u128 = if top > capacity {
                top - capacity
            } else {
                0
            };
            assert(over * over <= u64::MAX * u64::MAX) by (nonlinear_arith)
                requires
                    over <= u64::MAX,
            ;
            term = over * over;
            assert(term == overload_bound(top as int, capacity as int));
        }
        if term > i64::MAX as u128 || overload + term > i64::MAX as u128 {
            return false;
        }
        proof {
            assert forall|index: Seq<usize>| #[trigger] valid_selection(groups@, index) implies {
                let sel = selected_paths(groups@, index);
                &&& trip_loads_fit_upto(edges, sel, i + 1)
                &&& strained_cost_upto(loaded_edges(edges, sel), every_edge(), i + 1) <= overload + term
            } by {
                let sel = selected_paths(groups@, index);
                let loaded = loaded_edges(edges, sel);
                assert(load_on(sel, i as int) <= load);
                lemma_load_nonneg(sel, i as int);
                assert(every_edge().contains(i));
                assert(strained_cost_upto(loaded, every_edge(), i + 1) == strained_cost_upto(loaded, every_edge(), i as int)
                    + loaded[i as int].2.spec_utilization_cost());
                assert(loaded[i as int].2 == edges[i as int].2.with_added_utilization(load_on(sel, i as int)));
                if edges[i as int].2 is Trip {
                    lemma_added_overload(edges[i as int].2, load_on(sel, i as int), load as int);
                }
                assert forall|j: int| 0 <= j < i + 1 && (#[trigger] edges[j]).2 is Trip implies edges[j].2.spec_utilization()
                    + load_on(sel, j) <= u64::MAX by {
                    if j < i {
                        assert(trip_loads_fit_upto(edges, sel, i as int));
                    }
                }
            }
        }
        overload = overload + term;
        i = i + 1;
    }
    if overload as i128 + cost_high > i64::MAX as i128 {
        return false;
    }
    proof {
        assert(every_edge() =~= Set::new(|i: usize| true));
        assert forall|index: Seq<usize>| #[trigger] valid_selection(groups@, index) implies selection_fits(
            edges,
            selected_paths(groups@, index),
        ) by {
            let sel = selected_paths(groups@, index);
            let loaded = loaded_edges(edges, sel);
            assert(total_overload(loaded) == strained_cost_upto(loaded, every_edge(), m as int));
            assert(trip_loads_fit(edges, sel)) by {
                assert(trip_loads_fit_upto(edges, sel, m as int));
            }
        }
    }
    true
}

} // verus!
