//! Enumeration of the walks from a node to a destination node within a duration
//! limit, depth first along the outgoing edges in the order the graph keeps them.

use vstd::prelude::*;
use indexmap::IndexSet;
use crate::graph::{
    edges_join_nodes, first_edge_to, graph_edge, graph_edge_count, graph_edges, graph_node_count, graph_nodes,
    graph_outgoing, lemma_first_edge_to, lemma_outgoing_of, outgoing_of, GraphEdge, TimetableGraph,
};
use crate::search::{is_walk_from, walk_end};
use crate::index_set::{
    index_set_contains, index_set_get, index_set_insert, index_set_items, index_set_len, index_set_new, index_set_pop,
};

verus! {

/// the found walks with their edges as sequences
pub open spec fn found_view(found: Seq<(u64, Vec<usize>)>) -> Seq<(u64, Seq<usize>)> {
    found.map_values(|x: (u64, Vec<usize>)| (x.0, x.1@))
}

/// The walks found, depth first, from a node whose outgoing edges still to be tried
/// are `children`, reached along the edges `path` in `sum` minutes. For each edge in
/// turn:
/// - if it fits the duration limit (and rides are allowed) and leads to the
///   destination, the walk along it is found, with the minutes left;
/// - if it fits but leads elsewhere and is not on the walk yet, the search goes on
///   from its target before the next edge is tried;
/// - if it does not fit, the walk along the first later edge to the destination is
///   found with no minutes left, or, when there is none, the walk so far if this
///   edge leads to the destination; otherwise the search gives up the remaining
///   edges of this node.
pub open spec fn dorian_paths(
    edges: Seq<GraphEdge>,
    destination: usize,
    max_duration: int,
    rides_allowed: bool,
    children: Seq<(usize, usize)>,
    path: Seq<usize>,
    sum: int,
) -> Seq<(u64, Seq<usize>)>
    decreases edges.len() - path.len(), children.len(),
{
    if children.len() == 0 {
        Seq::empty()
    } else {
        let (e, t) = children[0];
        let rest = children.drop_first();
        let d = edges[e as int].2.spec_duration();
        let later = dorian_paths(edges, destination, max_duration, rides_allowed, rest, path, sum);
        if sum + d < max_duration && rides_allowed {
            if t == destination {
                seq![((max_duration - sum - d) as u64, path.push(e))] + later
            } else if !path.contains(e) && path.len() < edges.len() {
                dorian_paths(edges, destination, max_duration, rides_allowed, outgoing_of(edges, t), path.push(e), sum + d)
                    + later
            } else {
                later
            }
        } else {
            match first_edge_to(rest, destination) {
                Some(e2) => seq![(0u64, path.push(e2))] + later,
                None => if t == destination {
                    seq![(0u64, path)] + later
                } else {
                    Seq::empty()
                },
            }
        }
    }
}

/// total duration of the edges `path`
pub open spec fn walk_duration(edges: Seq<GraphEdge>, path: Seq<usize>) -> int
    decreases path.len(),
{
    if path.len() == 0 {
        0
    } else {
        walk_duration(edges, path.drop_last()) + edges[path.last() as int].2.spec_duration()
    }
}

/// Every walk found with minutes left continues the walk `path` from `start` to the
/// destination, and its duration and the minutes left add up to the limit.
proof fn lemma_dorian_paths_walks(
    edges: Seq<GraphEdge>,
    destination: usize,
    max_duration: int,
    rides_allowed: bool,
    children: Seq<(usize, usize)>,
    path: Seq<usize>,
    sum: int,
    start: usize,
    node: usize,
)
    requires
        edges.len() <= usize::MAX,
        max_duration <= u64::MAX,
        is_walk_from(edges, start, path),
        walk_end(edges, start, path) == node,
        sum == walk_duration(edges, path),
        sum >= 0,
        forall|k: int|
            0 <= k < children.len() ==> {
                let (e, t) = #[trigger] children[k];
                &&& e < edges.len()
                &&& edges[e as int].0 == node
                &&& edges[e as int].1 == t
            },
    ensures
        forall|k: int|
            0 <= k < dorian_paths(edges, destination, max_duration, rides_allowed, children, path, sum).len()
                && (#[trigger] dorian_paths(edges, destination, max_duration, rides_allowed, children, path, sum)[k]).0 > 0 ==> {
                let (left, walk) = dorian_paths(edges, destination, max_duration, rides_allowed, children, path, sum)[k];
                &&& is_walk_from(edges, start, walk)
                &&& walk_end(edges, start, walk) == destination
                &&& walk_duration(edges, walk) + left == max_duration
            },
    decreases edges.len() - path.len(), children.len(),
{
    let found = dorian_paths(edges, destination, max_duration, rides_allowed, children, path, sum);
    if children.len() > 0 {
        let (e, t) = children[0];
        let rest = children.drop_first();
        let d = edges[e as int].2.spec_duration();
        let later = dorian_paths(edges, destination, max_duration, rides_allowed, rest, path, sum);
        assert(children[0] == (e, t));
        assert forall|k: int|
            0 <= k < rest.len() implies {
                let (e2, t2) = #[trigger] rest[k];
                &&& e2 < edges.len()
                &&& edges[e2 as int].0 == node
                &&& edges[e2 as int].1 == t2
            } by {
            assert(rest[k] == children[k + 1]);
        }
        lemma_dorian_paths_walks(edges, destination, max_duration, rides_allowed, rest, path, sum, start, node);
        assert(path.push(e).drop_last() == path);
        if sum + d < max_duration && rides_allowed {
            if t == destination {
                assert(found == seq![((max_duration - sum - d) as u64, path.push(e))] + later);
                assert forall|k: int| 0 <= k < found.len() && (#[trigger] found[k]).0 > 0 implies {
                    let (left, walk) = found[k];
                    &&& is_walk_from(edges, start, walk)
                    &&& walk_end(edges, start, walk) == destination
                    &&& walk_duration(edges, walk) + left == max_duration
                } by {
                    if k > 0 {
                        assert(found[k] == later[k - 1]);
                    } else {
                        assert(found[0] == ((max_duration - sum - d) as u64, path.push(e)));
                        assert(path.push(e).last() == e);
                        assert(is_walk_from(edges, start, path.push(e)));
                        assert(walk_duration(edges, path.push(e)) == sum + d);
                    }
                }
            } else if !path.contains(e) && path.len() < edges.len() {
                lemma_outgoing_of(edges, t);
                lemma_dorian_paths_walks(
                    edges,
                    destination,
                    max_duration,
                    rides_allowed,
                    outgoing_of(edges, t),
                    path.push(e),
                    sum + d,
                    start,
                    t,
                );
                let inner = dorian_paths(edges, destination, max_duration, rides_allowed, outgoing_of(edges, t), path.push(e), sum + d);
                assert(found == inner + later);
                assert forall|k: int| 0 <= k < found.len() && (#[trigger] found[k]).0 > 0 implies {
                    let (left, walk) = found[k];
                    &&& is_walk_from(edges, start, walk)
                    &&& walk_end(edges, start, walk) == destination
                    &&& walk_duration(edges, walk) + left == max_duration
                } by {
                    if k < inner.len() {
                        assert(found[k] == inner[k]);
                    } else {
                        assert(found[k] == later[k - inner.len()]);
                    }
                }
            }
        } else {
            match first_edge_to(rest, destination) {
                Some(e2) => {
                    assert(found == seq![(0u64, path.push(e2))] + later);
                    assert forall|k: int| 0 <= k < found.len() && (#[trigger] found[k]).0 > 0 implies {
                        let (left, walk) = found[k];
                        &&& is_walk_from(edges, start, walk)
                        &&& walk_end(edges, start, walk) == destination
                        &&& walk_duration(edges, walk) + left == max_duration
                    } by {
                        assert(k > 0);
                        assert(found[k] == later[k - 1]);
                    }
                },
                None => {
                    if t == destination {
                        assert(found == seq![(0u64, path)] + later);
                        assert forall|k: int| 0 <= k < found.len() && (#[trigger] found[k]).0 > 0 implies {
                            let (left, walk) = found[k];
                            &&& is_walk_from(edges, start, walk)
                            &&& walk_end(edges, start, walk) == destination
                            &&& walk_duration(edges, walk) + left == max_duration
                        } by {
                            assert(k > 0);
                            assert(found[k] == later[k - 1]);
                        }
                    }
                },
            }
        }
    }
}

/// Every walk that `all_simple_paths_dfs_dorian` finds with minutes left leads from
/// the start to the destination, and its duration and the minutes left add up to the
/// duration limit.
pub proof fn lemma_found_walks_reach_destination(
    graph: TimetableGraph,
    start: usize,
    destination: usize,
    max_duration: u64,
    max_rides: u64,
)
    requires
        graph_edges(graph).len() <= usize::MAX,
    ensures
        ({
            let edges = graph_edges(graph);
            let found = dorian_paths(edges, destination, max_duration as int, max_rides > 0, outgoing_of(edges, start), Seq::empty(), 0);
            forall|k: int|
                0 <= k < found.len() && (#[trigger] found[k]).0 > 0 ==> {
                    &&& is_walk_from(edges, start, found[k].1)
                    &&& walk_end(edges, start, found[k].1) == destination
                    &&& walk_duration(edges, found[k].1) + found[k].0 == max_duration
                }
        }),
{
    let edges = graph_edges(graph);
    lemma_outgoing_of(edges, start);
    lemma_dorian_paths_walks(
        edges,
        destination,
        max_duration as int,
        max_rides > 0,
        outgoing_of(edges, start),
        Seq::empty(),
        0,
        start,
        start,
    );
}

/// A walk of distinct edges of a graph has no more edges than the graph.
proof fn lemma_distinct_edges_len(s: Seq<usize>, bound: nat)
    requires
        s.no_duplicates(),
        forall|i: int| 0 <= i < s.len() ==> #[trigger] s[i] < bound,
    ensures
        s.len() <= bound,
{
    let t = s.map_values(|x: usize| x as int);
    assert forall|i: int, j: int| 0 <= i < t.len() && 0 <= j < t.len() && i != j implies t[i] != t[j] by {
        assert(s[i] != s[j]);
    }
    assert(t.no_duplicates());
    t.unique_seq_to_set();
    vstd::set_lib::lemma_int_range(0, bound as int);
    assert forall|x: int| t.to_set().contains(x) implies vstd::set_lib::set_int_range(0, bound as int).contains(x) by {
        let i = choose|i: int| 0 <= i < t.len() && t[i] == x;
        assert(s[i] < bound);
    }
    vstd::set_lib::lemma_len_subset(t.to_set(), vstd::set_lib::set_int_range(0, bound as int));
}

/// the items of `visited` followed by `last`, if there is one
fn walk_with(visited: &IndexSet<usize>, last: Option<usize>) -> (walk: Vec<usize>)
    ensures
        last is None ==> walk@ == index_set_items(*visited),
        last matches Some(e) ==> walk@ == index_set_items(*visited).push(e),
{
    let mut walk: Vec<usize> = Vec::new();
    let n = index_set_len(visited);
    let mut i: usize = 0;
    while i < n
        invariant
            i <= n,
            n == index_set_items(*visited).len(),
            walk@ == index_set_items(*visited).take(i as int),
        decreases n - i,
    {
        walk.push(index_set_get(visited, i));
        proof {
            assert(index_set_items(*visited).take(i + 1) == index_set_items(*visited).take(i as int).push(
                index_set_items(*visited)[i as int],
            ));
        }
        i = i + 1;
    }
    proof {
        assert(index_set_items(*visited).take(n as int) == index_set_items(*visited));
    }
    if let Some(e) = last {
        walk.push(e);
    }
    walk
}

/// Explores the outgoing edges of `node`, reached along the edges `visited` in `sum`
/// minutes, and appends the walks found to `found` (see `dorian_paths`).
fn dorian_explore(
    graph: &TimetableGraph,
    node: usize,
    destination: usize,
    max_duration: u64,
    rides_allowed: bool,
    visited: &mut IndexSet<usize>,
    sum: u64,
    found: &mut Vec<(u64, Vec<usize>)>,
)
    requires
        edges_join_nodes(*graph),
        graph_edges(*graph).len() <= usize::MAX,
        node < graph_nodes(*graph).len(),
        sum <= max_duration,
        index_set_items(*old(visited)).no_duplicates(),
        forall|i: int| 0 <= i < index_set_items(*old(visited)).len() ==> #[trigger] index_set_items(*old(visited))[i] < graph_edges(*graph).len(),
    ensures
        index_set_items(*final(visited)) == index_set_items(*old(visited)),
        found_view(final(found)@) == found_view(old(found)@) + dorian_paths(
            graph_edges(*graph),
            destination,
            max_duration as int,
            rides_allowed,
            outgoing_of(graph_edges(*graph), node),
            index_set_items(*old(visited)),
            sum as int,
        ),
    decreases graph_edges(*graph).len() - index_set_items(*old(visited)).len(),
{
    let ghost edges = graph_edges(*graph);
    let ghost path = index_set_items(*visited);
    let ghost found0 = found@;
    let ghost all = outgoing_of(edges, node);
    let ghost total = found_view(found0) + dorian_paths(edges, destination, max_duration as int, rides_allowed, all, path, sum as int);
    let children = graph_outgoing(graph, node);
    proof {
        lemma_outgoing_of(edges, node);
        lemma_distinct_edges_len(path, edges.len());
        assert(children@.skip(0) == children@);
        assert(found_view(found0) + dorian_paths(edges, destination, max_duration as int, rides_allowed, children@.skip(0), path, sum as int) == total);
    }
    let mut i: usize = 0;
    while i < children.len()
        invariant
            i <= children@.len(),
            children@ == all,
            all == outgoing_of(edges, node),
            edges == graph_edges(*graph),
            edges_join_nodes(*graph),
            edges.len() <= usize::MAX,
            sum <= max_duration,
            path == index_set_items(*old(visited)),
            found0 == old(found)@,
            index_set_items(*visited) == path,
            path.no_duplicates(),
            path.len() <= edges.len(),
            forall|k: int| 0 <= k < path.len() ==> #[trigger] path[k] < edges.len(),
            forall|k: int|
                0 <= k < all.len() ==> {
                    let (e, t) = #[trigger] all[k];
                    &&& e < edges.len()
                    &&& edges[e as int].0 == node
                    &&& edges[e as int].1 == t
                },
            total == found_view(found0) + dorian_paths(edges, destination, max_duration as int, rides_allowed, all, path, sum as int),
            found_view(found@) + dorian_paths(edges, destination, max_duration as int, rides_allowed, all.skip(i as int), path, sum as int) == total,
        decreases children@.len() - i,
    {
        let (e, t) = children[i];
        let ghost rest = all.skip(i + 1);
        let ghost later = dorian_paths(edges, destination, max_duration as int, rides_allowed, rest, path, sum as int);
        proof {
            assert(all.skip(i as int)[0] == all[i as int]);
            assert(all.skip(i as int).drop_first() == rest);
            assert(all[i as int] == (e, t));
        }
        let d: u64 = graph_edge(graph, e).duration();
        // no ride is ever counted towards the ride limit, so only a zero limit stops the search
        if d < max_duration - sum && rides_allowed {
            if t == destination {
                let walk = walk_with(visited, Some(e));
                let ghost before = found@;
                found.push((max_duration - sum - d, walk));
                proof {
                    assert(found_view(found@) == found_view(before).push((((max_duration - sum - d) as u64), path.push(e))));
                    assert(found_view(found@) + later == found_view(before) + (seq![((max_duration - sum - d) as u64, path.push(e))] + later));
                }
            } else if !index_set_contains(visited, e) {
                proof {
                    assert(edges[e as int].1 == t);
                    assert(t < graph_nodes(*graph).len());
                    lemma_distinct_edges_len(path.push(e), edges.len());
                }
                index_set_insert(visited, e);
                let ghost before = found@;
                dorian_explore(graph, t, destination, max_duration, rides_allowed, visited, sum + d, found);
                index_set_pop(visited);
                proof {
                    assert(path.push(e).drop_last() == path);
                    let inner = dorian_paths(edges, destination, max_duration as int, rides_allowed, outgoing_of(edges, t), path.push(e), sum + d);
                    assert(found_view(found@) == found_view(before) + inner);
                    assert(found_view(found@) + later == found_view(before) + (inner + later));
                }
            }
        } else {
            // look for a later edge to the destination
            let mut j: usize = i + 1;
            let mut to_destination: Option<usize> = None;
            proof {
                assert(all.skip(j as int) == rest);
            }
            while j < children.len() && to_destination.is_none()
                invariant
                    i < j <= children@.len(),
                    children@ == all,
                    rest == all.skip(i + 1),
                    to_destination is None ==> first_edge_to(rest, destination) == first_edge_to(all.skip(j as int), destination),
                    to_destination is Some ==> to_destination == first_edge_to(rest, destination),
                decreases children@.len() - j, if to_destination is None { 1int } else { 0int },
            {
                let (c_edge, c_node) = children[j];
                proof {
                    assert(all.skip(j as int)[0] == all[j as int]);
                    assert(all.skip(j as int).drop_first() == all.skip(j + 1));
                }
                if c_node == destination {
                    to_destination = Some(c_edge);
                } else {
                    j = j + 1;
                }
            }
            proof {
                if to_destination is None {
                    assert(all.skip(j as int).len() == 0);
                }
            }
            match to_destination {
                Some(e2) => {
                    let walk = walk_with(visited, Some(e2));
                    let ghost before = found@;
                    found.push((0, walk));
                    proof {
                        assert(found_view(found@) == found_view(before).push((0u64, path.push(e2))));
                        assert(found_view(found@) + later == found_view(before) + (seq![(0u64, path.push(e2))] + later));
                    }
                },
                None => {
                    if t == destination {
                        let walk = walk_with(visited, None);
                        let ghost before = found@;
                        found.push((0, walk));
                        proof {
                            assert(found_view(found@) == found_view(before).push((0u64, path)));
                            assert(found_view(found@) + later == found_view(before) + (seq![(0u64, path)] + later));
                        }
                    } else {
                        // give up the remaining edges of this node
                        proof {
                            assert(first_edge_to(rest, destination) is None);
                            assert(dorian_paths(edges, destination, max_duration as int, rides_allowed, all.skip(i as int), path, sum as int)
                                =~= Seq::<(u64, Seq<usize>)>::empty());
                            assert(found_view(found@) =~= found_view(found@) + Seq::<(u64, Seq<usize>)>::empty());
                        }
                        return;
                    }
                },
            }
        }
        i = i + 1;
    }
    proof {
        assert(all.skip(i as int).len() == 0);
        assert(found_view(found@) == found_view(found@) + Seq::<(u64, Seq<usize>)>::empty());
    }
}

/// All walks from `start` to the node `destination` that a depth-first search finds
/// within `max_duration` minutes, each with the minutes left (none for the walks
/// found at the limit); see `dorian_paths` for the order and the pruning. A start
/// that is no node of the graph has no walks.
pub fn all_simple_paths_dfs_dorian(
    graph: &TimetableGraph,
    start: usize,
    destination: usize,
    max_duration: u64,
    max_rides: u64,
) -> (found: Vec<(u64, Vec<usize>)>)
    requires
        edges_join_nodes(*graph),
    ensures
        start >= graph_nodes(*graph).len() ==> found@.len() == 0,
        start < graph_nodes(*graph).len() ==> found_view(found@) == dorian_paths(
            graph_edges(*graph),
            destination,
            max_duration as int,
            max_rides > 0,
            outgoing_of(graph_edges(*graph), start),
            Seq::empty(),
            0,
        ),
{
    let mut found: Vec<(u64, Vec<usize>)> = Vec::new();
    if start >= graph_node_count(graph) {
        return found;
    }
    // the number of edges bounds the depth of the search
    let _edge_count: usize = graph_edge_count(graph);
    let mut visited = index_set_new();
    dorian_explore(graph, start, destination, max_duration, max_rides > 0, &mut visited, 0, &mut found);
    proof {
        assert(found_view(Seq::<(u64, Vec<usize>)>::empty()) == Seq::<(u64, Seq<usize>)>::empty());
    }
    found
}

} // verus!
