//! Route search through the timetable graph: a depth-first search bounded by a
//! budget of travel cost, and its iterative deepening over a list of budgets.

use vstd::prelude::*;
use std::collections::HashMap;
use crate::graph::{
    first_edge_to, graph_edge, graph_edge_count, graph_edges, graph_find_edge, graph_node, graph_node_count,
    graph_nodes, graph_outgoing, lemma_first_edge_to, lemma_outgoing_of, outgoing_of, GraphEdge,
    TimetableGraph,
};
use crate::graph_weight::{TimetableEdge, TimetableNode};
use crate::path::{built_from, fits_new_path, path_fits, path_travel_cost, Path};
use petgraph::graph::NodeIndex;
use petgraph::visit::{depth_first_search, Control, DfsEvent};

verus! {

broadcast use vstd::std_specs::hash::group_hash_axioms;

/// Every edge of the graph joins existing nodes and has a positive travel cost.
pub open spec fn searchable(graph: TimetableGraph) -> bool {
    forall|i: int|
        0 <= i < graph_edges(graph).len() ==> {
            let (s, t, w) = #[trigger] graph_edges(graph)[i];
            &&& s < graph_nodes(graph).len()
            &&& t < graph_nodes(graph).len()
            &&& !(w is MainArrivalRelation)
        }
}

/// A well-formed timetable can be searched.
pub proof fn lemma_integrity_searchable(graph: TimetableGraph)
    requires
        crate::integrity::timetable_integrity(graph),
    ensures
        searchable(graph),
{
    assert forall|i: int| 0 <= i < graph_edges(graph).len() implies {
        let (s, t, w) = #[trigger] graph_edges(graph)[i];
        &&& s < graph_nodes(graph).len()
        &&& t < graph_nodes(graph).len()
        &&& !(w is MainArrivalRelation)
    } by {
        assert(crate::integrity::edge_ok(graph_nodes(graph), graph_edges(graph)[i]));
    }
}

/// A route with an edge in a well-formed timetable ends at an arrival or at a
/// transfer node: the edges that stay within a station cannot be its last one.
pub proof fn lemma_route_ends_at_arrival_or_transfer(
    graph: TimetableGraph,
    start: usize,
    station: u64,
    path: Seq<usize>,
    budget: int,
)
    requires
        crate::integrity::timetable_integrity(graph),
        is_route(graph, start, station, path, budget),
        path.len() > 0,
    ensures
        graph_nodes(graph)[walk_end(graph_edges(graph), start, path) as int] is Arrival || graph_nodes(
            graph,
        )[walk_end(graph_edges(graph), start, path) as int] is Transfer,
{
    let edges = graph_edges(graph);
    let nodes = graph_nodes(graph);
    let e = edges[path.last() as int];
    assert(crate::integrity::edge_ok(nodes, e));
    assert(!at_station(nodes, walk_end(edges, start, path.drop_last()), station));
}

/// `walk` is a walk with an edge from `start` to a node of the station `station`,
/// which carries the name that every node of that station carries
pub open spec fn ends_at_destination(graph: TimetableGraph, start: usize, station: u64, walk: Seq<usize>) -> bool {
    let edges = graph_edges(graph);
    let nodes = graph_nodes(graph);
    let end = walk_end(edges, start, walk);
    &&& is_walk_from(edges, start, walk)
    &&& walk.len() > 0
    &&& at_station(nodes, end, station)
    &&& forall|n: usize| #[trigger] at_station(nodes, n, station) ==> nodes[n as int].spec_station_name() == nodes[end as int].spec_station_name()
}

/// the walk from `start` ends at an arrival or a transfer node
pub open spec fn ends_at_arrival_or_transfer(graph: TimetableGraph, start: usize, walk: Seq<usize>) -> bool {
    let end = walk_end(graph_edges(graph), start, walk);
    graph_nodes(graph)[end as int] is Arrival || graph_nodes(graph)[end as int] is Transfer
}

/// the node a walk from `start` along the edge indices `path` has reached
pub open spec fn walk_end(edges: Seq<GraphEdge>, start: usize, path: Seq<usize>) -> usize {
    if path.len() == 0 {
        start
    } else {
        edges[path.last() as int].1
    }
}

/// `path` is a walk from `start`: each edge leaves the node the previous ones reached
pub open spec fn is_walk_from(edges: Seq<GraphEdge>, start: usize, path: Seq<usize>) -> bool
    decreases path.len(),
{
    if path.len() == 0 {
        true
    } else {
        &&& is_walk_from(edges, start, path.drop_last())
        &&& path.last() < edges.len()
        &&& edges[path.last() as int].0 == walk_end(edges, start, path.drop_last())
    }
}

/// `node` is a node of the station `station`
pub open spec fn at_station(nodes: Seq<TimetableNode>, node: usize, station: u64) -> bool {
    &&& node < nodes.len()
    &&& nodes[node as int].spec_station_id() == Some(station)
}

/// no node that the walk passes before its last edge belongs to `station`
pub open spec fn avoids_before_end(
    edges: Seq<GraphEdge>,
    nodes: Seq<TimetableNode>,
    start: usize,
    path: Seq<usize>,
    station: u64,
) -> bool
    decreases path.len(),
{
    if path.len() == 0 {
        true
    } else {
        &&& avoids_before_end(edges, nodes, start, path.drop_last(), station)
        &&& !at_station(nodes, walk_end(edges, start, path.drop_last()), station)
    }
}

/// `path` is a route from `start` to `station` within `budget`: a walk that ends at
/// the first node of `station` it reaches, with a travel cost of at most `budget`
pub open spec fn is_route(graph: TimetableGraph, start: usize, station: u64, path: Seq<usize>, budget: int) -> bool {
    let edges = graph_edges(graph);
    let nodes = graph_nodes(graph);
    &&& is_walk_from(edges, start, path)
    &&& at_station(nodes, walk_end(edges, start, path), station)
    &&& avoids_before_end(edges, nodes, start, path, station)
    &&& path_travel_cost(edges, path) <= budget
}

/// every item of `routes` is a route from `start` to `station` within `budget`
pub open spec fn all_routes(
    graph: TimetableGraph,
    start: usize,
    station: u64,
    routes: Seq<Vec<usize>>,
    budget: int,
) -> bool {
    forall|i: int| 0 <= i < routes.len() ==> is_route(graph, start, station, #[trigger] routes[i]@, budget)
}

/// Whether the node `node_index` belongs to the station `destination_station`.
pub fn goal_test(graph: &TimetableGraph, node_index: usize, destination_station: u64) -> (reached: bool)
    requires
        node_index < graph_nodes(*graph).len(),
    ensures
        reached == at_station(graph_nodes(*graph), node_index, destination_station),
{
    match graph_node(graph, node_index).station_id() {
        Some(id) => id == destination_station,
        None => false,
    }
}

/// the routes as sequences of edge indices
pub open spec fn routes_view(routes: Seq<Vec<usize>>) -> Seq<Seq<usize>> {
    routes.map_values(|r: Vec<usize>| r@)
}

/// the station and the time under which a transfer node is remembered
pub open spec fn transfer_key(node: TimetableNode) -> (u64, u64) {
    (
        match node.spec_station_id() {
            Some(id) => id,
            None => 0,
        },
        match node.spec_time() {
            Some(t) => t,
            None => 0,
        },
    )
}

/// The routes that the depth-first search finds from `node`, reached along the edges
/// `stack` with `left` of its budget, in the order it finds them, and the earliest
/// time remembered for the transfer nodes of each station afterwards, given those
/// remembered before (`visited`):
/// - at a node of the destination station the walk ends, and it is a route;
/// - at a transfer node of a station whose transfer nodes were reached at no later
///   time before, the walk ends without a route; at any other transfer node, its
///   time is remembered for its station;
/// - from any other node the search follows the outgoing edges (see `dfs_edges`).
pub open spec fn dfs_routes(
    edges: Seq<GraphEdge>,
    nodes: Seq<TimetableNode>,
    destination: u64,
    node: usize,
    stack: Seq<usize>,
    visited: Map<u64, u64>,
    left: int,
) -> (Seq<Seq<usize>>, Map<u64, u64>)
    decreases left, 1int, 0int,
{
    let (station, time) = transfer_key(nodes[node as int]);
    if at_station(nodes, node, destination) {
        (seq![stack], visited)
    } else if nodes[node as int] is Transfer && visited.contains_key(station) && visited[station] <= time {
        (Seq::empty(), visited)
    } else {
        let remembered = if nodes[node as int] is Transfer {
            visited.insert(station, time)
        } else {
            visited
        };
        dfs_edges(edges, nodes, destination, outgoing_of(edges, node), stack, remembered, left)
    }
}

/// The routes that the depth-first search finds along the edges `children` (pairs of
/// edge index and target) leaving the end of the walk `stack`, taken in turn, with
/// `left` of its budget, and the times remembered afterwards: the first edge whose
/// travel cost is more than what is left ends the search from this node (as an
/// edge without cost would, of which a searchable graph has none); otherwise the
/// search goes on along the edge with its cost paid, and then with the next edge.
pub open spec fn dfs_edges(
    edges: Seq<GraphEdge>,
    nodes: Seq<TimetableNode>,
    destination: u64,
    children: Seq<(usize, usize)>,
    stack: Seq<usize>,
    visited: Map<u64, u64>,
    left: int,
) -> (Seq<Seq<usize>>, Map<u64, u64>)
    decreases left, 0int, children.len(),
{
    if children.len() == 0 {
        (Seq::empty(), visited)
    } else {
        let (e, t) = children[0];
        let cost = edges[e as int].2.spec_travel_cost();
        if cost > left || cost == 0 {
            (Seq::empty(), visited)
        } else {
            let (found, visited1) = dfs_routes(edges, nodes, destination, t, stack.push(e), visited, left - cost);
            let (more, visited2) = dfs_edges(edges, nodes, destination, children.drop_first(), stack, visited1, left);
            (found + more, visited2)
        }
    }
}

/// A later visit remembered for a station does not stop the search at a transfer node
/// of that station reached earlier: from a transfer node (not at the destination)
/// whose time is before the one remembered for its station, the search finds the
/// same routes, and leaves the same remembered times, as if the station had not been
/// reached before.
pub proof fn lemma_later_visit_does_not_prune(
    edges: Seq<GraphEdge>,
    nodes: Seq<TimetableNode>,
    destination: u64,
    node: usize,
    stack: Seq<usize>,
    visited: Map<u64, u64>,
    left: int,
)
    requires
        nodes[node as int] is Transfer,
        !at_station(nodes, node, destination),
        visited.contains_key(transfer_key(nodes[node as int]).0) ==> transfer_key(nodes[node as int]).1 < visited[transfer_key(
            nodes[node as int],
        ).0],
    ensures
        dfs_routes(edges, nodes, destination, node, stack, visited, left) == dfs_routes(
            edges,
            nodes,
            destination,
            node,
            stack,
            visited.remove(transfer_key(nodes[node as int]).0),
            left,
        ),
{
    let (station, time) = transfer_key(nodes[node as int]);
    assert(visited.insert(station, time) =~= visited.remove(station).insert(station, time));
}

/// Edges to the destination station are routes: among the outgoing edges `children`
/// taken in turn, when the budget pays for each of the first `k + 1` of them and the
/// `k`-th leads to a node of the destination station, the walk along it is found.
pub proof fn lemma_edge_to_destination_found(
    edges: Seq<GraphEdge>,
    nodes: Seq<TimetableNode>,
    destination: u64,
    children: Seq<(usize, usize)>,
    stack: Seq<usize>,
    visited: Map<u64, u64>,
    left: int,
    k: int,
)
    requires
        0 <= k < children.len(),
        forall|j: int| 0 <= j <= k ==> 0 < edges[(#[trigger] children[j]).0 as int].2.spec_travel_cost() <= left,
        at_station(nodes, children[k].1, destination),
    ensures
        dfs_edges(edges, nodes, destination, children, stack, visited, left).0.contains(stack.push(children[k].0)),
    decreases k,
{
    let (e, t) = children[0];
    assert(0 < edges[children[0].0 as int].2.spec_travel_cost() <= left);
    let cost = edges[e as int].2.spec_travel_cost();
    let (found, visited1) = dfs_routes(edges, nodes, destination, t, stack.push(e), visited, left - cost);
    let (more, visited2) = dfs_edges(edges, nodes, destination, children.drop_first(), stack, visited1, left);
    let all = dfs_edges(edges, nodes, destination, children, stack, visited, left).0;
    assert(all == found + more);
    if k == 0 {
        assert(found == seq![stack.push(e)]);
        assert(all[0] == stack.push(e));
    } else {
        let rest = children.drop_first();
        assert forall|j: int| 0 <= j <= k - 1 implies 0 < edges[(#[trigger] rest[j]).0 as int].2.spec_travel_cost() <= left by {
            assert(rest[j] == children[j + 1]);
        }
        assert(rest[k - 1] == children[k]);
        lemma_edge_to_destination_found(edges, nodes, destination, rest, stack, visited1, left, k - 1);
        let i = choose|i: int| 0 <= i < more.len() && more[i] == stack.push(children[k].0);
        assert(all[found.len() + i] == more[i]);
    }
}

/// The search goes on from a transfer node not at the destination that is reached
/// earlier than every visit remembered for its station (or at a station not reached
/// before): each of its outgoing edges (in the order of `outgoing_of`) that leads to
/// the destination station gives a route, when the budget pays for it and for the
/// edges before it.
pub proof fn lemma_earlier_transfer_is_searched_on(
    edges: Seq<GraphEdge>,
    nodes: Seq<TimetableNode>,
    destination: u64,
    node: usize,
    stack: Seq<usize>,
    visited: Map<u64, u64>,
    left: int,
    k: int,
)
    requires
        nodes[node as int] is Transfer,
        !at_station(nodes, node, destination),
        visited.contains_key(transfer_key(nodes[node as int]).0) ==> transfer_key(nodes[node as int]).1 < visited[transfer_key(
            nodes[node as int],
        ).0],
        0 <= k < outgoing_of(edges, node).len(),
        forall|j: int|
            0 <= j <= k ==> 0 < edges[(#[trigger] outgoing_of(edges, node)[j]).0 as int].2.spec_travel_cost() <= left,
        at_station(nodes, outgoing_of(edges, node)[k].1, destination),
    ensures
        dfs_routes(edges, nodes, destination, node, stack, visited, left).0.contains(stack.push(outgoing_of(edges, node)[k].0)),
{
    let (station, time) = transfer_key(nodes[node as int]);
    lemma_edge_to_destination_found(edges, nodes, destination, outgoing_of(edges, node), stack, visited.insert(station, time), left, k);
}

/// the routes from `start` to the station `destination` that the depth-first search
/// with `budget` finds, in the order it finds them
pub open spec fn search_routes(graph: TimetableGraph, start: usize, destination: u64, budget: int) -> Seq<Seq<usize>> {
    dfs_routes(graph_edges(graph), graph_nodes(graph), destination, start, Seq::empty(), Map::empty(), budget).0
}

/// The routes of iterative deepening over `budgets`: those of the first budget whose
/// search finds at least `min_paths` routes, else those of the last budget (none
/// without budgets).
pub open spec fn iddfs_routes(
    graph: TimetableGraph,
    start: usize,
    destination: u64,
    budgets: Seq<u64>,
    min_paths: int,
) -> Seq<Seq<usize>>
    decreases budgets.len(),
{
    if budgets.len() == 0 {
        Seq::empty()
    } else {
        let routes = search_routes(graph, start, destination, budgets[0] as int);
        if routes.len() >= min_paths || budgets.len() == 1 {
            routes
        } else {
            iddfs_routes(graph, start, destination, budgets.drop_first(), min_paths)
        }
    }
}

/// `path` was built for `utilization` passengers planned to arrive at `planned_arrival`
/// from a non-empty walk that starts at `start` and ends at a node of `station`
pub open spec fn is_found_path(
    graph: TimetableGraph,
    start: usize,
    station: u64,
    path: Path,
    utilization: u64,
    planned_arrival: u64,
) -> bool {
    exists|walk: Seq<usize>|
        {
            &&& is_walk_from(graph_edges(graph), start, walk)
            &&& at_station(graph_nodes(graph), walk_end(graph_edges(graph), start, walk), station)
            &&& path_fits(graph, walk, planned_arrival)
            &&& #[trigger] built_from(path, graph, walk, utilization, planned_arrival)
        }
}

/// what a visit of a tree edge asks of the depth-first traversal
enum VisitControl {
    Continue,
    Prune,
    Break,
}

/// State of a depth-first traversal from `start` that collects the paths to the
/// station `destination_station_id` along the traversal's tree edges.
struct DfsVisit {
    start: usize,
    destination_station_id: u64,
    utilization: u64,
    planned_arrival: u64,
    limit_paths: usize,
    /// the tree predecessor of each node reached
    predecessor: Vec<usize>,
    paths: Vec<Path>,
}

/// `prefix` put before the sequence in `rest`, if there is one
spec fn prepend(prefix: Seq<usize>, rest: Option<Seq<usize>>) -> Option<Seq<usize>> {
    match rest {
        Some(s) => Some(prefix + s),
        None => None,
    }
}

/// The nodes from `node` back to `start` along the recorded predecessors `pred`,
/// taking at most `fuel` steps; none where a predecessor is missing or the steps run
/// out.
spec fn predecessor_chain(pred: Seq<usize>, node: usize, start: usize, fuel: nat) -> Option<Seq<usize>>
    decreases fuel,
{
    if node == start {
        Some(seq![node])
    } else if fuel == 0 || pred[node as int] >= pred.len() {
        None
    } else {
        prepend(seq![node], predecessor_chain(pred, pred[node as int], start, (fuel - 1) as nat))
    }
}

/// The edges of the walk from the last node of `back` to its node at position `j`,
/// each the first edge between consecutive nodes (`back` lists the walk's nodes from
/// its end back to its start); none where two consecutive nodes are not joined.
spec fn edges_back(edges: Seq<GraphEdge>, back: Seq<usize>, j: int) -> Option<Seq<usize>>
    decreases back.len() - j,
{
    if j >= back.len() - 1 {
        Some(Seq::empty())
    } else {
        match edges_back(edges, back, j + 1) {
            Some(walk) => match first_edge_to(outgoing_of(edges, back[j + 1]), back[j]) {
                Some(e) => Some(walk.push(e)),
                None => None,
            },
            None => None,
        }
    }
}

/// Where the walk to a later node is missing, so is the walk to any earlier one.
proof fn lemma_edges_back_none(edges: Seq<GraphEdge>, back: Seq<usize>, j: int, k: int)
    requires
        0 <= k <= j,
        edges_back(edges, back, j) is None,
    ensures
        edges_back(edges, back, k) is None,
    decreases j - k,
{
    if k < j {
        lemma_edges_back_none(edges, back, j, k + 1);
    }
}

/// What visiting the tree edge from `u` to `v` does in the state `visit`: the control
/// asked of the traversal, and the walk of the path added, if one is. A node beyond
/// the recorded ones is passed by; one of another station than the destination is explored further; at the destination
/// station the walk back along the predecessors (with `u` now recorded for `v`) gives
/// a path when it reaches the start, its consecutive nodes are joined and it fits,
/// unless the limit of paths was already reached (then the traversal stops); after
/// the path is added the traversal is pruned there, or stops when the limit is
/// reached.
spec fn tree_edge_outcome(visit: DfsVisit, graph: TimetableGraph, u: usize, v: usize) -> (VisitControl, Option<Seq<usize>>) {
    visit_outcome(
        graph,
        visit.start,
        visit.destination_station_id,
        visit.planned_arrival,
        visit.limit_paths,
        visit.predecessor@,
        visit.paths@.len(),
        u,
        v,
    )
}

/// `tree_edge_outcome` for a visit from `start` to the station `station` with the
/// given planned arrival and limit of paths, which has recorded the
/// predecessors `pred` and found `found` paths so far
spec fn visit_outcome(
    graph: TimetableGraph,
    start: usize,
    station: u64,
    planned_arrival: u64,
    limit_paths: usize,
    pred: Seq<usize>,
    found: nat,
    u: usize,
    v: usize,
) -> (VisitControl, Option<Seq<usize>>) {
    let n = pred.len();
    let nodes = graph_nodes(graph);
    if v >= n {
        (VisitControl::Continue, None)
    } else {
        let pred = pred.update(v as int, u);
        if nodes[v as int].spec_station_id() != Some(station) {
            (VisitControl::Continue, None)
        } else {
            match predecessor_chain(pred, v, start, n as nat) {
                None => (VisitControl::Prune, None),
                Some(back) => match edges_back(graph_edges(graph), back, 0) {
                    None => (VisitControl::Prune, None),
                    Some(walk) => if !path_fits(graph, walk, planned_arrival) {
                        (VisitControl::Prune, None)
                    } else if limit_paths != 0 && found >= limit_paths {
                        (VisitControl::Break, None)
                    } else if limit_paths != 0 && found + 1 >= limit_paths {
                        (VisitControl::Break, Some(walk))
                    } else {
                        (VisitControl::Prune, Some(walk))
                    },
                },
            }
        }
    }
}

/// The walks of the paths added when the tree edges `steps` are visited in turn by a
/// visit as in `visit_outcome`, starting with the predecessors `pred` and `found`
/// paths found.
spec fn walks_found(
    graph: TimetableGraph,
    start: usize,
    station: u64,
    planned_arrival: u64,
    limit_paths: usize,
    pred: Seq<usize>,
    found: nat,
    steps: Seq<(usize, usize)>,
) -> Seq<Seq<usize>>
    decreases steps.len(),
{
    if steps.len() == 0 {
        Seq::empty()
    } else {
        let u = steps[0].0;
        let v = steps[0].1;
        let next = if v < pred.len() {
            pred.update(v as int, u)
        } else {
            pred
        };
        let rest = steps.drop_first();
        match visit_outcome(graph, start, station, planned_arrival, limit_paths, pred, found, u, v).1 {
            Some(walk) => seq![walk] + walks_found(graph, start, station, planned_arrival, limit_paths, next, found + 1, rest),
            None => walks_found(graph, start, station, planned_arrival, limit_paths, next, found, rest),
        }
    }
}

/// What a visit as in `visit_outcome` asks of the traversal at each of the tree edges
/// `steps` in turn, starting with the predecessors `pred` and `found` paths found.
spec fn controls(
    graph: TimetableGraph,
    start: usize,
    station: u64,
    planned_arrival: u64,
    limit_paths: usize,
    pred: Seq<usize>,
    found: nat,
    steps: Seq<(usize, usize)>,
) -> Seq<VisitControl>
    decreases steps.len(),
{
    if steps.len() == 0 {
        Seq::empty()
    } else {
        let u = steps[0].0;
        let v = steps[0].1;
        let next = if v < pred.len() {
            pred.update(v as int, u)
        } else {
            pred
        };
        let rest = steps.drop_first();
        let outcome = visit_outcome(graph, start, station, planned_arrival, limit_paths, pred, found, u, v);
        seq![outcome.0] + controls(
            graph,
            start,
            station,
            planned_arrival,
            limit_paths,
            next,
            if outcome.1 is Some {
                found + 1
            } else {
                found
            },
            rest,
        )
    }
}

/// The tree edges `steps` follow edges of `edges`, and each leaves `start` or the
/// target of an earlier one at which the visit (see `controls`) let the traversal go
/// on: a depth-first traversal descends only into the nodes it is let into.
spec fn tree_edges_descend(
    graph: TimetableGraph,
    start: usize,
    station: u64,
    planned_arrival: u64,
    limit_paths: usize,
    pred: Seq<usize>,
    found: nat,
    steps: Seq<(usize, usize)>,
) -> bool {
    let edges = graph_edges(graph);
    let asked = controls(graph, start, station, planned_arrival, limit_paths, pred, found, steps);
    &&& forall|i: int|
        0 <= i < steps.len() ==> exists|e: int|
            0 <= e < edges.len() && edges[e].0 == (#[trigger] steps[i]).0 && edges[e].1 == steps[i].1
    &&& forall|i: int|
        0 <= i < steps.len() ==> (#[trigger] steps[i]).0 == start || exists|j: int|
            0 <= j < i && steps[j].1 == steps[i].0 && asked[j] is Continue
}

/// The tree edges that `petgraph::visit::depth_first_search` hands to the visitor of
/// `run_depth_first_search`, in the order it hands them over, when it runs from
/// `start` on the graph with the nodes `nodes` and the edges `edges`, the visit
/// starting in the state with the fields given by the remaining arguments.
pub uninterp spec fn dfs_tree_edges(
    nodes: Seq<TimetableNode>,
    edges: Seq<GraphEdge>,
    start: usize,
    visit_start: usize,
    destination_station_id: u64,
    utilization: u64,
    planned_arrival: u64,
    limit_paths: usize,
    predecessor: Seq<usize>,
    paths: Seq<Path>,
) -> Seq<(usize, usize)>;

/// The walks of the paths that `Path::dfs_visitor_search` finds from `start` to the
/// station `station`, in the order found: those added by the visit along the tree
/// edges that the traversal hands over (`dfs_tree_edges`), from no recorded
/// predecessor and no path.
pub closed spec fn dfs_found_walks(
    graph: TimetableGraph,
    start: usize,
    station: u64,
    utilization: u64,
    planned_arrival: u64,
    limit_paths: usize,
) -> Seq<Seq<usize>> {
    let nodes = graph_nodes(graph);
    let pred = Seq::new(nodes.len(), |i: int| usize::MAX);
    walks_found(
        graph,
        start,
        station,
        planned_arrival,
        limit_paths,
        pred,
        0,
        dfs_tree_edges(
            nodes,
            graph_edges(graph),
            start,
            start,
            station,
            utilization,
            planned_arrival,
            limit_paths,
            pred,
            Seq::empty(),
        ),
    )
}

impl DfsVisit {
    spec fn inv(&self, graph: TimetableGraph) -> bool {
        &&& self.predecessor@.len() == graph_nodes(graph).len()
        &&& graph_edges(graph).len() <= usize::MAX
        &&& self.limit_paths != 0 ==> self.paths@.len() <= self.limit_paths
        &&& forall|i: int|
            0 <= i < self.paths@.len() ==> is_found_path(
                graph,
                self.start,
                self.destination_station_id,
                #[trigger] self.paths@[i],
                self.utilization,
                self.planned_arrival,
            )
    }

    /// Visits the tree edge from `u` to `v`: records `u` as the predecessor of `v`; at a
    /// node of the destination station, adds the path along the predecessors from the
    /// start, and prunes there (or stops the traversal when the limit of paths is reached).
    fn tree_edge(&mut self, graph: &TimetableGraph, u: usize, v: usize) -> (control: VisitControl)
        requires
            old(self).inv(*graph),
        ensures
            final(self).inv(*graph),
            final(self).start == old(self).start,
            final(self).destination_station_id == old(self).destination_station_id,
            final(self).utilization == old(self).utilization,
            final(self).planned_arrival == old(self).planned_arrival,
            final(self).limit_paths == old(self).limit_paths,
            final(self).predecessor@ == if v < old(self).predecessor@.len() {
                old(self).predecessor@.update(v as int, u)
            } else {
                old(self).predecessor@
            },
            control == tree_edge_outcome(*old(self), *graph, u, v).0,
            tree_edge_outcome(*old(self), *graph, u, v).1 is None ==> final(self).paths@ == old(self).paths@,
            tree_edge_outcome(*old(self), *graph, u, v).1 matches Some(walk) ==> {
                &&& final(self).paths@.len() == old(self).paths@.len() + 1
                &&& final(self).paths@.drop_last() == old(self).paths@
                &&& built_from(final(self).paths@.last(), *graph, walk, old(self).utilization, old(self).planned_arrival)
            },
    {
        let ghost outcome = tree_edge_outcome(*self, *graph, u, v);
        let n = self.predecessor.len();
        if v >= n {
            return VisitControl::Continue;
        }
        self.predecessor.set(v, u);
        let ghost pred = self.predecessor@;
        let reached = match graph_node(graph, v).station_id() {
            Some(id) => id == self.destination_station_id,
            None => false,
        };
        if !reached {
            return VisitControl::Continue;
        }
        // walk back along the predecessors to the start
        let mut node_path: Vec<usize> = Vec::new();
        node_path.push(v);
        let mut next = v;
        let mut steps: usize = 0;
        proof {
            assert(node_path@.drop_last() + seq![v] =~= node_path@);
            assert(Seq::<usize>::empty() + seq![v] =~= seq![v]);
            let c = predecessor_chain(pred, v, self.start, n as nat);
            if c is Some {
                assert(Seq::<usize>::empty() + c.unwrap() =~= c.unwrap());
            }
            assert(node_path@.drop_last() =~= Seq::<usize>::empty());
        }
        while next != self.start
            invariant
                self.inv(*graph),
                self.predecessor@ == pred,
                outcome == tree_edge_outcome(*old(self), *graph, u, v),
                pred == old(self).predecessor@.update(v as int, u),
                v < n,
                n == old(self).predecessor@.len(),
                graph_nodes(*graph)[v as int].spec_station_id() == Some(old(self).destination_station_id),
                predecessor_chain(pred, v, self.start, n as nat) == prepend(
                    node_path@.drop_last(),
                    predecessor_chain(pred, next, self.start, (n - steps) as nat),
                ),
                self.start == old(self).start,
                self.destination_station_id == old(self).destination_station_id,
                self.utilization == old(self).utilization,
                self.planned_arrival == old(self).planned_arrival,
                self.limit_paths == old(self).limit_paths,
                self.paths@ == old(self).paths@,
                n == self.predecessor@.len(),
                n == graph_nodes(*graph).len(),
                steps <= n,
                node_path@.len() > 0,
                node_path@[0] == v,
                node_path@.last() == next,
                forall|j: int| 0 <= j < node_path@.len() ==> #[trigger] node_path@[j] < n,
            decreases n - steps,
        {
            if steps >= n {
                return VisitControl::Prune;
            }
            let p = self.predecessor[next];
            if p >= n {
                return VisitControl::Prune;
            }
            let ghost before = node_path@;
            node_path.push(p);
            proof {
                let rest = predecessor_chain(pred, p, self.start, (n - steps - 1) as nat);
                assert(predecessor_chain(pred, next, self.start, (n - steps) as nat) == prepend(seq![next], rest));
                assert(node_path@.drop_last() == before);
                assert(before =~= before.drop_last() + seq![next]);
                if rest is Some {
                    assert(before.drop_last() + (seq![next] + rest.unwrap()) =~= before + rest.unwrap());
                }
            }
            next = p;
            steps = steps + 1;
        }
        // the edges between consecutive nodes, from the start on
        let ghost edges = graph_edges(*graph);
        proof {
            assert(predecessor_chain(pred, next, self.start, (n - steps) as nat) == Some(seq![next]));
            assert(node_path@ =~= node_path@.drop_last() + seq![next]);
            assert(predecessor_chain(pred, v, self.start, n as nat) == Some(node_path@));
        }
        let mut path_edges: Vec<usize> = Vec::new();
        let mut j: usize = node_path.len() - 1;
        while j > 0
            invariant
                self.inv(*graph),
                self.predecessor@ == pred,
                outcome == tree_edge_outcome(*old(self), *graph, u, v),
                pred == old(self).predecessor@.update(v as int, u),
                v < n,
                n == old(self).predecessor@.len(),
                graph_nodes(*graph)[v as int].spec_station_id() == Some(old(self).destination_station_id),
                n == graph_nodes(*graph).len(),
                node_path@.len() > 0,
                node_path@[0] == v,
                predecessor_chain(pred, v, self.start, n as nat) == Some(node_path@),
                edges_back(edges, node_path@, j as int) == Some(path_edges@),
                self.start == old(self).start,
                self.destination_station_id == old(self).destination_station_id,
                self.utilization == old(self).utilization,
                self.planned_arrival == old(self).planned_arrival,
                self.limit_paths == old(self).limit_paths,
                self.paths@ == old(self).paths@,
                j < node_path@.len(),
                edges == graph_edges(*graph),
                edges.len() <= usize::MAX,
                node_path@.last() == self.start,
                forall|q: int| 0 <= q < node_path@.len() ==> #[trigger] node_path@[q] < graph_nodes(*graph).len(),
                is_walk_from(edges, self.start, path_edges@),
                walk_end(edges, self.start, path_edges@) == node_path@[j as int],
            decreases j,
        {
            let a = node_path[j];
            let b = node_path[j - 1];
            proof {
                assert(edges_back(edges, node_path@, j - 1) == match first_edge_to(outgoing_of(edges, a), b) {
                    Some(e) => Some(path_edges@.push(e)),
                    None => None,
                });
            }
            match graph_find_edge(graph, a, b) {
                Some(e) => {
                    proof {
                        lemma_outgoing_of(edges, a);
                        lemma_first_edge_to(outgoing_of(edges, a), b);
                        let k = choose|k: int|
                            0 <= k < outgoing_of(edges, a).len() && (#[trigger] outgoing_of(edges, a)[k]).0 == e
                                && outgoing_of(edges, a)[k].1 == b;
                        assert(outgoing_of(edges, a)[k].0 == e);
                    }
                    let ghost before = path_edges@;
                    path_edges.push(e);
                    proof {
                        assert(path_edges@.drop_last() == before);
                    }
                    j = j - 1;
                },
                None => {
                    proof {
                        lemma_edges_back_none(edges, node_path@, j - 1, 0);
                    }
                    return VisitControl::Prune;
                },
            }
        }
        if !fits_new_path(graph, &path_edges, self.planned_arrival) {
            return VisitControl::Prune;
        }
        if self.limit_paths != 0 && self.paths.len() >= self.limit_paths {
            return VisitControl::Break;
        }
        proof {
            assert(edges_back(edges, node_path@, 0) == Some(path_edges@));
            assert(walk_end(edges, self.start, path_edges@) == v);
            assert(at_station(graph_nodes(*graph), v, self.destination_station_id));
        }
        let path = Path::new(graph, path_edges, self.utilization, self.planned_arrival);
        proof {
            assert(built_from(path, *graph, path_edges@, self.utilization, self.planned_arrival));
        }
        self.paths.push(path);
        proof {
            assert forall|i: int| 0 <= i < self.paths@.len() implies is_found_path(
                *graph,
                self.start,
                self.destination_station_id,
                #[trigger] self.paths@[i],
                self.utilization,
                self.planned_arrival,
            ) by {
                if i == self.paths@.len() - 1 {
                    assert(self.paths@[i] == path);
                    assert(built_from(self.paths@[i], *graph, path_edges@, self.utilization, self.planned_arrival));
                } else {
                    assert(self.paths@[i] == old(self).paths@[i]);
                }
            }
        }
        if self.limit_paths != 0 && self.paths.len() >= self.limit_paths {
            VisitControl::Break
        } else {
            VisitControl::Prune
        }
    }
}

/// the first target among `out` (pairs of edge index and target) other than `node`
pub open spec fn first_other_target(out: Seq<(usize, usize)>, node: usize) -> Option<usize>
    decreases out.len(),
{
    if out.len() == 0 {
        None
    } else if out[0].1 != node {
        Some(out[0].1)
    } else {
        first_other_target(out.drop_first(), node)
    }
}

/// A first target other than `node` has an edge leading to it.
proof fn lemma_first_other_target(out: Seq<(usize, usize)>, node: usize)
    ensures
        first_other_target(out, node) matches Some(t) ==> t != node && first_edge_to(out, t) is Some,
    decreases out.len(),
{
    if out.len() > 0 && out[0].1 == node {
        lemma_first_other_target(out.drop_first(), node);
    }
}

/// `after` is a state that visiting the tree edge from `u` to `v` can leave in the
/// state `before` (see `DfsVisit::tree_edge`)
spec fn tree_edge_step(graph: TimetableGraph, before: DfsVisit, after: DfsVisit, u: usize, v: usize) -> bool {
    let added = tree_edge_outcome(before, graph, u, v).1;
    &&& after.inv(graph)
    &&& after.start == before.start
    &&& after.destination_station_id == before.destination_station_id
    &&& after.utilization == before.utilization
    &&& after.planned_arrival == before.planned_arrival
    &&& after.limit_paths == before.limit_paths
    &&& after.predecessor@ == if v < before.predecessor@.len() {
        before.predecessor@.update(v as int, u)
    } else {
        before.predecessor@
    }
    &&& added is None ==> after.paths@ == before.paths@
    &&& added matches Some(walk) ==> {
        &&& after.paths@.len() == before.paths@.len() + 1
        &&& after.paths@.drop_last() == before.paths@
        &&& built_from(after.paths@.last(), graph, walk, before.utilization, before.planned_arrival)
    }
}

/// the tree edges `steps` begin with the edge from `start` to its first neighbor other
/// than itself, when it has one
spec fn starts_at_first_neighbor(graph: TimetableGraph, start: usize, steps: Seq<(usize, usize)>) -> bool {
    first_other_target(outgoing_of(graph_edges(graph), start), start) matches Some(t) ==> steps.len() > 0 && steps[0] == (
        start,
        t,
    )
}

/// `after` is reached from `before` by visiting the tree edges `steps` in turn, the
/// first of them from `start` to its first neighbor other than itself (when it has one)
spec fn traversal_reaches(graph: TimetableGraph, start: usize, before: DfsVisit, after: DfsVisit, steps: Seq<(usize, usize)>) -> bool {
    &&& starts_at_first_neighbor(graph, start, steps)
    &&& exists|states: Seq<DfsVisit>|
        #[trigger] tree_edge_steps(graph, states, steps) && states[0] == before && states.last() == after
}

/// each of `states` after the first is reached from the one before by visiting the
/// tree edge at the same position of `steps`
spec fn tree_edge_steps(graph: TimetableGraph, states: Seq<DfsVisit>, steps: Seq<(usize, usize)>) -> bool {
    &&& states.len() == steps.len() + 1
    &&& forall|i: int| 0 <= i < steps.len() ==> tree_edge_step(graph, states[i], states[i + 1], (#[trigger] steps[i]).0, steps[i].1)
}

/// Visiting tree edges never removes a path found before.
proof fn lemma_tree_edge_steps_keep_paths(graph: TimetableGraph, states: Seq<DfsVisit>, steps: Seq<(usize, usize)>, i: int, j: int)
    requires
        tree_edge_steps(graph, states, steps),
        0 <= i <= j < states.len(),
    ensures
        states[j].paths@.len() >= states[i].paths@.len(),
    decreases j - i,
{
    if i < j {
        lemma_tree_edge_steps_keep_paths(graph, states, steps, i, j - 1);
        assert(tree_edge_step(graph, states[j - 1], states[j], steps[j - 1].0, steps[j - 1].1));
    }
}

/// Visiting the tree edges `steps` in turn adds, after the paths found before, one
/// path built from each walk of `walks_found`.
proof fn lemma_walks_found(graph: TimetableGraph, states: Seq<DfsVisit>, steps: Seq<(usize, usize)>)
    requires
        tree_edge_steps(graph, states, steps),
    ensures
        ({
            let s0 = states[0];
            let last = states.last();
            let w = walks_found(
                graph,
                s0.start,
                s0.destination_station_id,
                s0.planned_arrival,
                s0.limit_paths,
                s0.predecessor@,
                s0.paths@.len(),
                steps,
            );
            &&& last.paths@.len() == s0.paths@.len() + w.len()
            &&& last.paths@.take(s0.paths@.len() as int) == s0.paths@
            &&& forall|i: int|
                0 <= i < w.len() ==> built_from(
                    #[trigger] last.paths@[s0.paths@.len() + i],
                    graph,
                    w[i],
                    s0.utilization,
                    s0.planned_arrival,
                )
        }),
    decreases steps.len(),
{
    let s0 = states[0];
    if steps.len() == 0 {
        assert(s0.paths@.take(s0.paths@.len() as int) =~= s0.paths@);
    } else {
        let rest_states = states.drop_first();
        let rest_steps = steps.drop_first();
        assert forall|i: int| 0 <= i < rest_steps.len() implies tree_edge_step(
            graph,
            rest_states[i],
            rest_states[i + 1],
            (#[trigger] rest_steps[i]).0,
            rest_steps[i].1,
        ) by {
            assert(rest_steps[i] == steps[i + 1]);
        }
        assert(tree_edge_steps(graph, rest_states, rest_steps));
        lemma_walks_found(graph, rest_states, rest_steps);
        let s1 = states[1];
        let u = steps[0].0;
        let v = steps[0].1;
        assert(tree_edge_step(graph, s0, s1, steps[0].0, steps[0].1));
        let last = states.last();
        assert(rest_states.last() == last);
        assert(rest_states[0] == s1);
        let w1 = walks_found(
            graph,
            s1.start,
            s1.destination_station_id,
            s1.planned_arrival,
            s1.limit_paths,
            s1.predecessor@,
            s1.paths@.len(),
            rest_steps,
        );
        let w = walks_found(
            graph,
            s0.start,
            s0.destination_station_id,
            s0.planned_arrival,
            s0.limit_paths,
            s0.predecessor@,
            s0.paths@.len(),
            steps,
        );
        let n0 = s0.paths@.len();
        let n1 = s1.paths@.len();
        match tree_edge_outcome(s0, graph, u, v).1 {
            Some(walk) => {
                assert(w == seq![walk] + w1);
                assert(n1 == n0 + 1);
                assert(last.paths@.take(n0 as int) =~= last.paths@.take(n1 as int).take(n0 as int));
                assert(s1.paths@.take(n0 as int) =~= s1.paths@.drop_last());
                assert(last.paths@[n0 as int] == last.paths@.take(n1 as int)[n0 as int]);
                assert(s1.paths@.last() == s1.paths@[n0 as int]);
                assert forall|i: int| 0 <= i < w.len() implies built_from(
                    #[trigger] last.paths@[n0 + i],
                    graph,
                    w[i],
                    s0.utilization,
                    s0.planned_arrival,
                ) by {
                    if i > 0 {
                        assert(w[i] == w1[i - 1]);
                        assert(last.paths@[n1 + (i - 1)] == last.paths@[n0 + i]);
                    }
                }
            },
            None => {
                assert(w == w1);
                assert(n1 == n0);
                assert forall|i: int| 0 <= i < w.len() implies built_from(
                    #[trigger] last.paths@[n0 + i],
                    graph,
                    w[i],
                    s0.utilization,
                    s0.planned_arrival,
                ) by {
                    assert(last.paths@[n1 + i] == last.paths@[n0 + i]);
                }
            },
        }
    }
}

/// There is one control per tree edge.
proof fn lemma_controls_len(
    graph: TimetableGraph,
    start: usize,
    station: u64,
    planned_arrival: u64,
    limit_paths: usize,
    pred: Seq<usize>,
    found: nat,
    steps: Seq<(usize, usize)>,
)
    ensures
        controls(graph, start, station, planned_arrival, limit_paths, pred, found, steps).len() == steps.len(),
    decreases steps.len(),
{
    if steps.len() > 0 {
        let u = steps[0].0;
        let v = steps[0].1;
        let next = if v < pred.len() {
            pred.update(v as int, u)
        } else {
            pred
        };
        let outcome = visit_outcome(graph, start, station, planned_arrival, limit_paths, pred, found, u, v);
        let found2 = if outcome.1 is Some {
            found + 1
        } else {
            found
        };
        lemma_controls_len(graph, start, station, planned_arrival, limit_paths, next, found2, steps.drop_first());
    }
}

/// The visit lets the traversal go on only past a node beyond the recorded ones or
/// one of another station than the destination.
proof fn lemma_controls_continue(
    graph: TimetableGraph,
    start: usize,
    station: u64,
    planned_arrival: u64,
    limit_paths: usize,
    pred: Seq<usize>,
    found: nat,
    steps: Seq<(usize, usize)>,
    j: int,
)
    requires
        0 <= j < steps.len(),
        controls(graph, start, station, planned_arrival, limit_paths, pred, found, steps)[j] is Continue,
    ensures
        steps[j].1 >= pred.len() || graph_nodes(graph)[steps[j].1 as int].spec_station_id() != Some(station),
    decreases j,
{
    let u = steps[0].0;
    let v = steps[0].1;
    let next = if v < pred.len() {
        pred.update(v as int, u)
    } else {
        pred
    };
    let outcome = visit_outcome(graph, start, station, planned_arrival, limit_paths, pred, found, u, v);
    let found2 = if outcome.1 is Some {
        found + 1
    } else {
        found
    };
    let rest = controls(graph, start, station, planned_arrival, limit_paths, next, found2, steps.drop_first());
    assert(controls(graph, start, station, planned_arrival, limit_paths, pred, found, steps) == seq![outcome.0] + rest);
    lemma_controls_len(graph, start, station, planned_arrival, limit_paths, next, found2, steps.drop_first());
    if j > 0 {
        assert(controls(graph, start, station, planned_arrival, limit_paths, pred, found, steps)[j] == rest[j - 1]);
        lemma_controls_continue(graph, start, station, planned_arrival, limit_paths, next, found2, steps.drop_first(), j - 1);
        assert(steps.drop_first()[j - 1] == steps[j]);
    }
}

/// The nodes back along the predecessors begin with the node itself.
proof fn lemma_predecessor_chain_first(pred: Seq<usize>, node: usize, start: usize, fuel: nat)
    ensures
        predecessor_chain(pred, node, start, fuel) matches Some(c) ==> c.len() > 0 && c[0] == node,
    decreases fuel,
{
    if node != start && fuel > 0 && pred[node as int] < pred.len() {
        lemma_predecessor_chain_first(pred, pred[node as int], start, (fuel - 1) as nat);
    }
}

/// A path found at the tree edge from `u` to `v` ends with an edge from `u` to `v`;
/// when `u` is not of the destination station (or is the start, which is not), it
/// ends at an arrival or a transfer node.
proof fn lemma_found_walk_end(
    graph: TimetableGraph,
    start: usize,
    station: u64,
    planned_arrival: u64,
    limit_paths: usize,
    pred: Seq<usize>,
    found: nat,
    u: usize,
    v: usize,
)
    requires
        crate::integrity::timetable_integrity(graph),
        graph_edges(graph).len() <= usize::MAX,
        pred.len() == graph_nodes(graph).len(),
        !at_station(graph_nodes(graph), start, station),
        u == start || !at_station(graph_nodes(graph), u, station),
    ensures
        visit_outcome(graph, start, station, planned_arrival, limit_paths, pred, found, u, v).1 matches Some(walk)
            ==> ends_at_arrival_or_transfer(graph, start, walk),
{
    let nodes = graph_nodes(graph);
    let edges = graph_edges(graph);
    let n = pred.len();
    if let Some(walk) = visit_outcome(graph, start, station, planned_arrival, limit_paths, pred, found, u, v).1 {
        let p2 = pred.update(v as int, u);
        let back = predecessor_chain(p2, v, start, n as nat).unwrap();
        assert(v < n);
        assert(nodes[v as int].spec_station_id() == Some(station));
        assert(v != start);
        assert(p2[v as int] == u);
        lemma_predecessor_chain_first(p2, u, start, (n - 1) as nat);
        assert(back == seq![v] + predecessor_chain(p2, u, start, (n - 1) as nat).unwrap());
        assert(back[1] == u);
        assert(back[0] == v);
        let e = first_edge_to(outgoing_of(edges, u), v).unwrap();
        assert(edges_back(edges, back, 0) == Some(edges_back(edges, back, 1).unwrap().push(e)));
        assert(walk.last() == e);
        lemma_first_edge_to(outgoing_of(edges, u), v);
        lemma_outgoing_of(edges, u);
        let k = choose|k: int| 0 <= k < outgoing_of(edges, u).len() && (#[trigger] outgoing_of(edges, u)[k]).0 == e
            && outgoing_of(edges, u)[k].1 == v;
        assert(edges[e as int].0 == u && edges[e as int].1 == v);
        assert(crate::integrity::edge_ok(nodes, edges[e as int]));
        assert(walk_end(edges, start, walk) == v);
    }
}

/// Every path found along tree edges that leave the start or nodes of other stations
/// than the destination ends at an arrival or a transfer node.
proof fn lemma_walks_found_end(
    graph: TimetableGraph,
    start: usize,
    station: u64,
    planned_arrival: u64,
    limit_paths: usize,
    pred: Seq<usize>,
    found: nat,
    steps: Seq<(usize, usize)>,
)
    requires
        crate::integrity::timetable_integrity(graph),
        graph_edges(graph).len() <= usize::MAX,
        pred.len() == graph_nodes(graph).len(),
        !at_station(graph_nodes(graph), start, station),
        forall|i: int|
            0 <= i < steps.len() ==> (#[trigger] steps[i]).0 == start || !at_station(graph_nodes(graph), steps[i].0, station),
    ensures
        forall|k: int|
            0 <= k < walks_found(graph, start, station, planned_arrival, limit_paths, pred, found, steps).len()
                ==> ends_at_arrival_or_transfer(
                graph,
                start,
                #[trigger] walks_found(graph, start, station, planned_arrival, limit_paths, pred, found, steps)[k],
            ),
    decreases steps.len(),
{
    if steps.len() > 0 {
        let u = steps[0].0;
        let v = steps[0].1;
        let next = if v < pred.len() {
            pred.update(v as int, u)
        } else {
            pred
        };
        let rest = steps.drop_first();
        assert forall|i: int| 0 <= i < rest.len() implies (#[trigger] rest[i]).0 == start || !at_station(
            graph_nodes(graph),
            rest[i].0,
            station,
        ) by {
            assert(rest[i] == steps[i + 1]);
        }
        lemma_found_walk_end(graph, start, station, planned_arrival, limit_paths, pred, found, u, v);
        let outcome = visit_outcome(graph, start, station, planned_arrival, limit_paths, pred, found, u, v);
        let found2 = if outcome.1 is Some {
            found + 1
        } else {
            found
        };
        lemma_walks_found_end(graph, start, station, planned_arrival, limit_paths, next, found2, rest);
        let all = walks_found(graph, start, station, planned_arrival, limit_paths, pred, found, steps);
        let later = walks_found(graph, start, station, planned_arrival, limit_paths, next, found2, rest);
        if let Some(walk) = outcome.1 {
            assert(all == seq![walk] + later);
            assert forall|k: int| 0 <= k < all.len() implies ends_at_arrival_or_transfer(graph, start, #[trigger] all[k]) by {
                if k > 0 {
                    assert(all[k] == later[k - 1]);
                }
            }
        } else {
            assert(all == later);
        }
    }
}

/// `walk` is a walk from `start` to a node of the station `station` that fits (see
/// `path_fits`)
pub open spec fn leads_to_station(graph: TimetableGraph, start: usize, station: u64, walk: Seq<usize>, planned_arrival: u64) -> bool {
    &&& is_walk_from(graph_edges(graph), start, walk)
    &&& at_station(graph_nodes(graph), walk_end(graph_edges(graph), start, walk), station)
    &&& path_fits(graph, walk, planned_arrival)
}

/// The nodes back along the predecessors end at the start.
proof fn lemma_predecessor_chain_last(pred: Seq<usize>, node: usize, start: usize, fuel: nat)
    ensures
        predecessor_chain(pred, node, start, fuel) matches Some(c) ==> c.len() > 0 && c.last() == start,
    decreases fuel,
{
    if node != start && fuel > 0 && pred[node as int] < pred.len() {
        lemma_predecessor_chain_last(pred, pred[node as int], start, (fuel - 1) as nat);
        if let Some(rest) = predecessor_chain(pred, pred[node as int], start, (fuel - 1) as nat) {
            assert((seq![node] + rest).last() == rest.last());
        }
    }
}

/// The edges back from the node at position `j` of `back` form a walk from the last
/// node of `back` to that node.
proof fn lemma_edges_back_walk(edges: Seq<GraphEdge>, back: Seq<usize>, j: int)
    requires
        edges.len() <= usize::MAX,
        0 <= j < back.len(),
    ensures
        edges_back(edges, back, j) matches Some(w) ==> is_walk_from(edges, back.last(), w) && walk_end(edges, back.last(), w)
            == back[j],
    decreases back.len() - j,
{
    if j < back.len() - 1 {
        lemma_edges_back_walk(edges, back, j + 1);
        if let Some(w) = edges_back(edges, back, j) {
            let prev = edges_back(edges, back, j + 1).unwrap();
            let e = first_edge_to(outgoing_of(edges, back[j + 1]), back[j]).unwrap();
            assert(w == prev.push(e));
            assert(w.drop_last() == prev);
            lemma_first_edge_to(outgoing_of(edges, back[j + 1]), back[j]);
            lemma_outgoing_of(edges, back[j + 1]);
            let k = choose|k: int|
                0 <= k < outgoing_of(edges, back[j + 1]).len() && (#[trigger] outgoing_of(edges, back[j + 1])[k]).0 == e
                    && outgoing_of(edges, back[j + 1])[k].1 == back[j];
            assert(edges[e as int].0 == back[j + 1] && edges[e as int].1 == back[j]);
        }
    }
}

/// A path found at a tree edge is built from a walk from the start to a node of the
/// destination station that fits.
proof fn lemma_found_walk_leads_to_station(
    graph: TimetableGraph,
    start: usize,
    station: u64,
    planned_arrival: u64,
    limit_paths: usize,
    pred: Seq<usize>,
    found: nat,
    u: usize,
    v: usize,
)
    requires
        graph_edges(graph).len() <= usize::MAX,
        pred.len() == graph_nodes(graph).len(),
    ensures
        visit_outcome(graph, start, station, planned_arrival, limit_paths, pred, found, u, v).1 matches Some(walk)
            ==> leads_to_station(graph, start, station, walk, planned_arrival),
{
    let n = pred.len();
    if let Some(walk) = visit_outcome(graph, start, station, planned_arrival, limit_paths, pred, found, u, v).1 {
        let p2 = pred.update(v as int, u);
        let back = predecessor_chain(p2, v, start, n as nat).unwrap();
        lemma_predecessor_chain_first(p2, v, start, n as nat);
        lemma_predecessor_chain_last(p2, v, start, n as nat);
        lemma_edges_back_walk(graph_edges(graph), back, 0);
    }
}

/// Every walk found along tree edges leads to the destination station and fits.
proof fn lemma_walks_found_lead_to_station(
    graph: TimetableGraph,
    start: usize,
    station: u64,
    planned_arrival: u64,
    limit_paths: usize,
    pred: Seq<usize>,
    found: nat,
    steps: Seq<(usize, usize)>,
)
    requires
        graph_edges(graph).len() <= usize::MAX,
        pred.len() == graph_nodes(graph).len(),
    ensures
        forall|k: int|
            0 <= k < walks_found(graph, start, station, planned_arrival, limit_paths, pred, found, steps).len()
                ==> leads_to_station(
                graph,
                start,
                station,
                #[trigger] walks_found(graph, start, station, planned_arrival, limit_paths, pred, found, steps)[k],
                planned_arrival,
            ),
    decreases steps.len(),
{
    if steps.len() > 0 {
        let u = steps[0].0;
        let v = steps[0].1;
        let next = if v < pred.len() {
            pred.update(v as int, u)
        } else {
            pred
        };
        let rest = steps.drop_first();
        lemma_found_walk_leads_to_station(graph, start, station, planned_arrival, limit_paths, pred, found, u, v);
        let outcome = visit_outcome(graph, start, station, planned_arrival, limit_paths, pred, found, u, v);
        let found2 = if outcome.1 is Some {
            found + 1
        } else {
            found
        };
        lemma_walks_found_lead_to_station(graph, start, station, planned_arrival, limit_paths, next, found2, rest);
        let all = walks_found(graph, start, station, planned_arrival, limit_paths, pred, found, steps);
        let later = walks_found(graph, start, station, planned_arrival, limit_paths, next, found2, rest);
        if let Some(walk) = outcome.1 {
            assert(all == seq![walk] + later);
            assert forall|k: int| 0 <= k < all.len() implies leads_to_station(graph, start, station, #[trigger] all[k], planned_arrival) by {
                if k > 0 {
                    assert(all[k] == later[k - 1]);
                }
            }
        } else {
            assert(all == later);
        }
    }
}

/// Tree edges that descend only past nodes the visit let the traversal into leave
/// the start or nodes of other stations than the destination.
proof fn lemma_descending_steps_leave_other_stations(
    graph: TimetableGraph,
    start: usize,
    station: u64,
    planned_arrival: u64,
    limit_paths: usize,
    pred: Seq<usize>,
    found: nat,
    steps: Seq<(usize, usize)>,
)
    requires
        tree_edges_descend(graph, start, station, planned_arrival, limit_paths, pred, found, steps),
        pred.len() == graph_nodes(graph).len(),
    ensures
        forall|i: int|
            0 <= i < steps.len() ==> (#[trigger] steps[i]).0 == start || !at_station(graph_nodes(graph), steps[i].0, station),
{
    let asked = controls(graph, start, station, planned_arrival, limit_paths, pred, found, steps);
    assert forall|i: int| 0 <= i < steps.len() implies (#[trigger] steps[i]).0 == start || !at_station(
        graph_nodes(graph),
        steps[i].0,
        station,
    ) by {
        if steps[i].0 != start {
            let j = choose|j: int| 0 <= j < i && steps[j].1 == steps[i].0 && asked[j] is Continue;
            lemma_controls_continue(graph, start, station, planned_arrival, limit_paths, pred, found, steps, j);
        }
    }
}

/// `petgraph::visit::depth_first_search` from `start`, handing each tree edge to
/// `DfsVisit::tree_edge` and following what it asks (continue, prune, stop). The
/// traversal changes the state only through that verified function, which keeps
/// its invariant whatever edge it is handed: the state it leaves is reached by
/// visiting in turn the tree edges it hands over. Which edges those are, and in
/// which order, is determined by the graph, `start` and the visit's state at the
/// start, and is named `dfs_tree_edges`; its walk through the graph is not stated
/// here, but for these short facts: each tree edge follows an edge of the graph and
/// leaves `start` or a node the traversal went into after an earlier tree edge whose
/// visit let it go on (it does not descend past a pruned one; see
/// `tree_edges_descend`, for a visit starting at `start`); the first event of the
/// traversal is the discovery of `start`, and the first tree edge it hands over leads
/// from `start` to the first of its neighbors (in the order of `edges_directed`) other
/// than itself.
#[verifier::external_body]
fn run_depth_first_search(graph: &TimetableGraph, start: usize, visit: &mut DfsVisit)
    requires
        old(visit).inv(*graph),
        old(visit).start == start,
        start < graph_nodes(*graph).len(),
    ensures
        traversal_reaches(
            *graph,
            start,
            *old(visit),
            *final(visit),
            dfs_tree_edges(
                graph_nodes(*graph),
                graph_edges(*graph),
                start,
                old(visit).start,
                old(visit).destination_station_id,
                old(visit).utilization,
                old(visit).planned_arrival,
                old(visit).limit_paths,
                old(visit).predecessor@,
                old(visit).paths@,
            ),
        ),
        tree_edges_descend(
            *graph,
            old(visit).start,
            old(visit).destination_station_id,
            old(visit).planned_arrival,
            old(visit).limit_paths,
            old(visit).predecessor@,
            old(visit).paths@.len(),
            dfs_tree_edges(
                graph_nodes(*graph),
                graph_edges(*graph),
                start,
                old(visit).start,
                old(visit).destination_station_id,
                old(visit).utilization,
                old(visit).planned_arrival,
                old(visit).limit_paths,
                old(visit).predecessor@,
                old(visit).paths@,
            ),
        ),
        final(visit).inv(*graph),
        final(visit).start == old(visit).start,
        final(visit).destination_station_id == old(visit).destination_station_id,
        final(visit).utilization == old(visit).utilization,
        final(visit).planned_arrival == old(visit).planned_arrival,
        final(visit).limit_paths == old(visit).limit_paths,
{
    depth_first_search(graph, Some(NodeIndex::new(start)), |event| match event {
        DfsEvent::TreeEdge(u, v) => match visit.tree_edge(graph, u.index(), v.index()) {
            VisitControl::Continue => Control::Continue,
            VisitControl::Prune => Control::Prune,
            VisitControl::Break => Control::Break(v),
        },
        _ => Control::Continue,
    });
}

impl Path {
    /// Depth-first traversal (petgraph's) from `start`: every node of the station
    /// `destination_station_id` reached along the traversal's tree gives a path for
    /// `utilization` passengers planned to arrive at `planned_arrival`, and the
    /// traversal does not go on beyond it; it stops once `limit_paths` paths are
    /// found (no limit for 0). The traversal is otherwise full: no limit of duration,
    /// budget or capacity. The first node the traversal reaches is the first neighbor
    /// of `start` other than itself: when that is a node of the destination station
    /// and the walk along the first edge to it fits (see `path_fits`), a path is found.
    pub fn dfs_visitor_search(
        graph: &TimetableGraph,
        start: usize,
        destination_station_id: u64,
        utilization: u64,
        planned_arrival: u64,
        limit_paths: usize,
    ) -> (paths: Vec<Path>)
        requires
            start < graph_nodes(*graph).len(),
        ensures
            paths@.len() == dfs_found_walks(*graph, start, destination_station_id, utilization, planned_arrival, limit_paths).len(),
            forall|i: int|
                0 <= i < paths@.len() ==> built_from(
                    #[trigger] paths@[i],
                    *graph,
                    dfs_found_walks(*graph, start, destination_station_id, utilization, planned_arrival, limit_paths)[i],
                    utilization,
                    planned_arrival,
                ),
            forall|i: int|
                0 <= i < paths@.len() ==> is_found_path(
                    *graph,
                    start,
                    destination_station_id,
                    #[trigger] paths@[i],
                    utilization,
                    planned_arrival,
                ),
            limit_paths != 0 ==> paths@.len() <= limit_paths,
            forall|i: int|
                0 <= i < paths@.len() ==> leads_to_station(
                    *graph,
                    start,
                    destination_station_id,
                    #[trigger] dfs_found_walks(*graph, start, destination_station_id, utilization, planned_arrival, limit_paths)[i],
                    planned_arrival,
                ),
            crate::integrity::timetable_integrity(*graph) && !at_station(graph_nodes(*graph), start, destination_station_id)
                ==> forall|i: int|
                0 <= i < paths@.len() ==> ends_at_arrival_or_transfer(
                    *graph,
                    start,
                    #[trigger] dfs_found_walks(*graph, start, destination_station_id, utilization, planned_arrival, limit_paths)[i],
                ),
            ({
                let edges = graph_edges(*graph);
                let nodes = graph_nodes(*graph);
                let out = outgoing_of(edges, start);
                first_other_target(out, start) matches Some(t) ==> {
                    at_station(nodes, t, destination_station_id)
                        && path_fits(*graph, seq![first_edge_to(out, t).unwrap()], planned_arrival) ==> paths@.len() > 0
                }
            }),
    {
        let n = graph_node_count(graph);
        let _ = graph_edge_count(graph);
        // no node has a predecessor yet
        let predecessor: Vec<usize> = vec![usize::MAX; n];
        let mut visit = DfsVisit {
            start,
            destination_station_id,
            utilization,
            planned_arrival,
            limit_paths,
            predecessor,
            paths: Vec::new(),
        };
        let ghost init = visit;
        let ghost steps = dfs_tree_edges(
            graph_nodes(*graph),
            graph_edges(*graph),
            start,
            init.start,
            init.destination_station_id,
            init.utilization,
            init.planned_arrival,
            init.limit_paths,
            init.predecessor@,
            init.paths@,
        );
        run_depth_first_search(graph, start, &mut visit);
        proof {
            let edges = graph_edges(*graph);
            let nodes = graph_nodes(*graph);
            let out = outgoing_of(edges, start);
            let states = choose|states: Seq<DfsVisit>|
                #[trigger] tree_edge_steps(*graph, states, steps) && states[0] == init && states.last() == visit;
            lemma_walks_found(*graph, states, steps);
            assert forall|i: int| 0 <= i < nodes.len() implies init.predecessor@[i] == usize::MAX by {
                assert(cloned(usize::MAX, init.predecessor@[i]));
            }
            assert(init.predecessor@ =~= Seq::new(nodes.len(), |i: int| usize::MAX));
            assert(init.paths@ =~= Seq::<Path>::empty());
            let walks = dfs_found_walks(*graph, start, destination_station_id, utilization, planned_arrival, limit_paths);
            assert forall|i: int| 0 <= i < visit.paths@.len() implies built_from(
                #[trigger] visit.paths@[i],
                *graph,
                walks[i],
                utilization,
                planned_arrival,
            ) by {
                assert(visit.paths@[init.paths@.len() + i] == visit.paths@[i]);
            }
            lemma_walks_found_lead_to_station(
                *graph,
                start,
                destination_station_id,
                planned_arrival,
                limit_paths,
                init.predecessor@,
                0,
                steps,
            );
            if crate::integrity::timetable_integrity(*graph) && !at_station(nodes, start, destination_station_id) {
                lemma_descending_steps_leave_other_stations(
                    *graph,
                    start,
                    destination_station_id,
                    planned_arrival,
                    limit_paths,
                    init.predecessor@,
                    0,
                    steps,
                );
                lemma_walks_found_end(
                    *graph,
                    start,
                    destination_station_id,
                    planned_arrival,
                    limit_paths,
                    init.predecessor@,
                    0,
                    steps,
                );
            }
            if let Some(t) = first_other_target(out, start) {
                let mid = states[1];
                assert(tree_edge_step(*graph, states[0], states[1], steps[0].0, steps[0].1));
                lemma_tree_edge_steps_keep_paths(*graph, states, steps, 1, states.len() - 1);
                lemma_first_other_target(out, start);
                if at_station(nodes, t, destination_station_id)
                    && path_fits(*graph, seq![first_edge_to(out, t).unwrap()], planned_arrival) {
                    let pred = init.predecessor@.update(t as int, start);
                    assert(init.predecessor@.len() == nodes.len());
                    assert(t != start);
                    assert(predecessor_chain(pred, start, start, (n - 1) as nat) == Some(seq![start]));
                    assert(seq![t] + seq![start] =~= seq![t, start]);
                    assert(predecessor_chain(pred, t, start, n as nat) == Some(seq![t, start]));
                    let back = seq![t, start];
                    assert(edges_back(edges, back, 1) == Some(Seq::<usize>::empty()));
                    assert(Seq::<usize>::empty().push(first_edge_to(out, t).unwrap()) =~= seq![first_edge_to(out, t).unwrap()]);
                    assert(edges_back(edges, back, 0) == Some(seq![first_edge_to(out, t).unwrap()]));
                    assert(tree_edge_outcome(init, *graph, start, t).1 is Some);
                    assert(mid.paths@.len() == 1);
                }
            }
        }
        visit.paths
    }

    fn recursive_dfs_search_helper(
        graph: &TimetableGraph,
        results: &mut Vec<Vec<usize>>,
        current_node: usize,
        destination_station_id: u64,
        edge_stack: &mut Vec<usize>,
        visited_stations: &mut HashMap<u64, u64>,
        remaining_duration: u64,
        remaining_budget: u64,
        Ghost(start): Ghost<usize>,
        Ghost(budget): Ghost<int>,
    )
        requires
            searchable(*graph),
            graph_edges(*graph).len() <= usize::MAX,
            current_node < graph_nodes(*graph).len(),
            is_walk_from(graph_edges(*graph), start, old(edge_stack)@),
            walk_end(graph_edges(*graph), start, old(edge_stack)@) == current_node,
            avoids_before_end(graph_edges(*graph), graph_nodes(*graph), start, old(edge_stack)@, destination_station_id),
            path_travel_cost(graph_edges(*graph), old(edge_stack)@) + remaining_budget <= budget,
            all_routes(*graph, start, destination_station_id, old(results)@, budget),
        ensures
            final(edge_stack)@ == old(edge_stack)@,
            final(results)@.len() >= old(results)@.len(),
            final(results)@.take(old(results)@.len() as int) == old(results)@,
            all_routes(*graph, start, destination_station_id, final(results)@, budget),
            at_station(graph_nodes(*graph), current_node, destination_station_id) ==> {
                &&& final(results)@.len() == old(results)@.len() + 1
                &&& final(results)@.last()@ == old(edge_stack)@
            },
            ({
                let (found, remembered) = dfs_routes(
                    graph_edges(*graph),
                    graph_nodes(*graph),
                    destination_station_id,
                    current_node,
                    old(edge_stack)@,
                    old(visited_stations)@,
                    remaining_budget as int,
                );
                &&& routes_view(final(results)@) == routes_view(old(results)@) + found
                &&& final(visited_stations)@ == remembered
            }),
        decreases remaining_budget,
    {
        let ghost edges = graph_edges(*graph);
        let ghost nodes = graph_nodes(*graph);
        let node = graph_node(graph, current_node);
        let station = node.station_id();
        let reached = match station {
            Some(id) => id == destination_station_id,
            None => false,
        };
        if reached {
            // found a node of the destination station: this route ends here
            let found = edge_stack.clone();
            assert(found@ =~= edge_stack@);
            results.push(found);
            assert(results@.take(old(results)@.len() as int) =~= old(results)@);
            assert(routes_view(results@) =~= routes_view(old(results)@) + seq![old(edge_stack)@]);
            return;
        }
        if node.is_transfer() {
            // a transfer node of this station reached no later before ends this walk
            let time = match node.time() {
                Some(t) => t,
                None => 0,
            };
            let id = match station {
                Some(id) => id,
                None => 0,
            };
            match visited_stations.get(&id) {
                Some(last_time) => {
                    if *last_time <= time {
                        return;
                    } else {
                        visited_stations.insert(id, time);
                    }
                },
                None => {
                    visited_stations.insert(id, time);
                },
            }
        }
        let out = graph_outgoing(graph, current_node);
        proof {
            lemma_outgoing_of(edges, current_node);
        }
        let ghost stack0 = edge_stack@;
        let ghost results0 = results@;
        let ghost total_visited0 = visited_stations@;
        let ghost total = dfs_edges(edges, nodes, destination_station_id, out@, stack0, total_visited0, remaining_budget as int);
        proof {
            assert(total == dfs_routes(edges, nodes, destination_station_id, current_node, stack0, old(visited_stations)@, remaining_budget as int));
            assert(out@.skip(0) == out@);
            assert(routes_view(results@) + total.0 =~= routes_view(results0) + total.0);
        }
        let mut k: usize = 0;
        while k < out.len()
            invariant
                k <= out.len(),
                edges == graph_edges(*graph),
                nodes == graph_nodes(*graph),
                searchable(*graph),
                edges.len() <= usize::MAX,
                out@ == crate::graph::outgoing_of(edges, current_node),
                forall|j: int|
                    0 <= j < out@.len() ==> {
                        let (e, t) = #[trigger] out@[j];
                        &&& e < edges.len()
                        &&& edges[e as int].0 == current_node
                        &&& edges[e as int].1 == t
                    },
                edge_stack@ == stack0,
                stack0 == old(edge_stack)@,
                results0 == old(results)@,
                is_walk_from(edges, start, stack0),
                walk_end(edges, start, stack0) == current_node,
                avoids_before_end(edges, nodes, start, stack0, destination_station_id),
                !at_station(nodes, current_node, destination_station_id),
                path_travel_cost(edges, stack0) + remaining_budget <= budget,
                results@.len() >= results0.len(),
                results@.take(results0.len() as int) == results0,
                all_routes(*graph, start, destination_station_id, results@, budget),
                total == dfs_edges(edges, nodes, destination_station_id, out@, stack0, total_visited0, remaining_budget as int),
                total == dfs_routes(edges, nodes, destination_station_id, current_node, stack0, old(visited_stations)@, remaining_budget as int),
                ({
                    let (rest_found, rest_visited) = dfs_edges(
                        edges,
                        nodes,
                        destination_station_id,
                        out@.skip(k as int),
                        stack0,
                        visited_stations@,
                        remaining_budget as int,
                    );
                    &&& routes_view(results@) + rest_found == routes_view(results0) + total.0
                    &&& rest_visited == total.1
                }),
            decreases out.len() - k,
        {
            let (next_edge, next_node) = out[k];
            let weight = graph_edge(graph, next_edge);
            let cost = weight.travel_cost();
            let duration = weight.duration();
            let ghost visited_before = visited_stations@;
            let ghost results_before = results@;
            proof {
                assert(out@.skip(k as int)[0] == out@[k as int]);
                assert(out@.skip(k as int).drop_first() == out@.skip(k + 1));
                assert(out@[k as int] == (next_edge, next_node));
                let i: int = next_edge as int;
                assert(!(edges[i].2 is MainArrivalRelation));
                assert(cost > 0);
            }
            if cost > remaining_budget {
                // the budget does not cover this edge: the search ends here
                proof {
                    assert(routes_view(results@) =~= routes_view(results@) + Seq::<Seq<usize>>::empty());
                }
                return;
            }
            edge_stack.push(next_edge);
            proof {
                let pushed = edge_stack@;
                assert(pushed.drop_last() == stack0);
                assert(pushed.last() == next_edge);
                assert(is_walk_from(edges, start, pushed));
                assert(avoids_before_end(edges, nodes, start, pushed, destination_station_id));
                assert(path_travel_cost(edges, pushed) == path_travel_cost(edges, stack0) + cost);
                assert(edges[next_edge as int].1 == next_node);
                let i: int = next_edge as int;
                assert(edges[i].1 < nodes.len());
                assert(!(edges[i].2 is MainArrivalRelation));
            }
            let ghost results1 = results@;
            Self::recursive_dfs_search_helper(
                graph,
                results,
                next_node,
                destination_station_id,
                edge_stack,
                visited_stations,
                remaining_duration.wrapping_sub(duration),
                remaining_budget - cost,
                Ghost(start),
                Ghost(budget),
            );
            edge_stack.pop();
            proof {
                assert(edge_stack@ =~= stack0);
                assert(results@.take(results0.len() as int) =~= results1.take(results0.len() as int));
                let (found1, v1) = dfs_routes(
                    edges,
                    nodes,
                    destination_station_id,
                    next_node,
                    stack0.push(next_edge),
                    visited_before,
                    remaining_budget - cost,
                );
                let (more, v2) = dfs_edges(
                    edges,
                    nodes,
                    destination_station_id,
                    out@.skip(k + 1),
                    stack0,
                    v1,
                    remaining_budget as int,
                );
                assert(routes_view(results@) == routes_view(results_before) + found1);
                assert(routes_view(results@) + more =~= routes_view(results_before) + (found1 + more));
            }
            k = k + 1;
        }
    }

    /// Depth-first search of routes from node `start` to any node of the station
    /// `destination_station_id`. Every edge taken is paid from `budget` with its
    /// travel cost; the search along a walk ends at the first node of the
    /// destination station, at a transfer node of a station whose transfer nodes
    /// it reached at no later time before, and at the first outgoing edge that the
    /// remaining budget does not cover.
    pub fn recursive_dfs_search(
        graph: &TimetableGraph,
        start: usize,
        destination_station_id: u64,
        max_duration: u64,
        budget: u64,
    ) -> (routes: Vec<Vec<usize>>)
        requires
            searchable(*graph),
            start < graph_nodes(*graph).len(),
        ensures
            routes_view(routes@) == search_routes(*graph, start, destination_station_id, budget as int),
            all_routes(*graph, start, destination_station_id, routes@, budget as int),
            at_station(graph_nodes(*graph), start, destination_station_id) ==> routes@.len() == 1 && routes@[0]@
                == Seq::<usize>::empty(),
    {
        let mut results: Vec<Vec<usize>> = Vec::new();
        let mut edge_stack: Vec<usize> = Vec::new();
        // the earliest time each station's transfer nodes were reached
        let mut visited_stations: HashMap<u64, u64> = HashMap::new();
        let _ = graph_edge_count(graph);
        proof {
            assert(path_travel_cost(graph_edges(*graph), edge_stack@) == 0);
        }
        Self::recursive_dfs_search_helper(
            graph,
            &mut results,
            start,
            destination_station_id,
            &mut edge_stack,
            &mut visited_stations,
            max_duration,
            budget,
            Ghost(start),
            Ghost(budget as int),
        );
        proof {
            assert(routes_view(Seq::<Vec<usize>>::empty()) =~= Seq::<Seq<usize>>::empty());
            assert(routes_view(results@) =~= search_routes(*graph, start, destination_station_id, budget as int));
        }
        results
    }

    /// Iterative deepening: runs the depth-first search with each budget in turn and
    /// returns the routes of the first run that finds at least `min_paths` of them;
    /// when no run does, the routes of the last run (none without budgets).
    pub fn all_paths_iddfs(
        graph: &TimetableGraph,
        start: usize,
        destination_station_id: u64,
        max_duration: u64,
        budgets: &[u64],
        min_paths: usize,
    ) -> (routes: Vec<Vec<usize>>)
        requires
            searchable(*graph),
            start < graph_nodes(*graph).len(),
        ensures
            routes_view(routes@) == iddfs_routes(*graph, start, destination_station_id, budgets@, min_paths as int),
            budgets@.len() == 0 ==> routes@.len() == 0,
            budgets@.len() > 0 ==> exists|i: int|
                0 <= i < budgets@.len() && all_routes(
                    *graph,
                    start,
                    destination_station_id,
                    routes@,
                    #[trigger] budgets@[i] as int,
                ),
            budgets@.len() > 0 && at_station(graph_nodes(*graph), start, destination_station_id) ==> routes@.len() == 1
                && routes@[0]@ == Seq::<usize>::empty(),
    {
        let mut routes: Vec<Vec<usize>> = Vec::new();
        let mut i: usize = 0;
        proof {
            assert(budgets@.skip(0) == budgets@);
        }
        while i < budgets.len()
            invariant
                i <= budgets@.len(),
                searchable(*graph),
                start < graph_nodes(*graph).len(),
                i == 0 ==> routes@.len() == 0,
                i > 0 ==> all_routes(*graph, start, destination_station_id, routes@, budgets@[i - 1] as int),
                i > 0 && at_station(graph_nodes(*graph), start, destination_station_id) ==> routes@.len() == 1
                    && routes@[0]@ == Seq::<usize>::empty(),
                i < budgets@.len() ==> iddfs_routes(*graph, start, destination_station_id, budgets@, min_paths as int)
                    == iddfs_routes(*graph, start, destination_station_id, budgets@.skip(i as int), min_paths as int),
                i == budgets@.len() && i > 0 ==> iddfs_routes(*graph, start, destination_station_id, budgets@, min_paths as int)
                    == routes_view(routes@),
            decreases budgets@.len() - i,
        {
            routes = Self::recursive_dfs_search(graph, start, destination_station_id, max_duration, budgets[i]);
            proof {
                let rest = budgets@.skip(i as int);
                assert(rest[0] == budgets@[i as int]);
                assert(rest.drop_first() == budgets@.skip(i + 1));
                assert(routes_view(routes@).len() == routes@.len());
            }
            if routes.len() >= min_paths {
                // found enough routes: no need for a larger budget
                proof {
                    assert(all_routes(*graph, start, destination_station_id, routes@, budgets@[i as int] as int));
                }
                return routes;
            }
            i = i + 1;
        }
        proof {
            if i > 0 {
                assert(all_routes(*graph, start, destination_station_id, routes@, budgets@[i - 1] as int));
            }
        }
        routes
    }
}

} // verus!
