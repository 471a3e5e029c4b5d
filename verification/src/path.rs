//! A route of a travel group through the timetable graph, with its cost.

use vstd::prelude::*;
use vstd::std_specs::cmp::PartialEqSpecImpl;
use std::cmp::Ordering;
use std::collections::HashSet;
use indexmap::IndexSet;
use crate::graph::{
    graph_edge, graph_edge_count, graph_edge_endpoints, graph_node_count, graph_edges, graph_node, graph_nodes, graph_set_edge, GraphEdge,
    TimetableGraph,
};
use crate::graph_weight::TimetableEdge;
use crate::index_set::{
    index_set_clone, index_set_from_vec, index_set_get, index_set_intersection, index_set_items, index_set_len,
    lemma_seq_dedup, seq_dedup,
};

verus! {

broadcast use vstd::std_specs::hash::group_hash_axioms;

/// sum of `f` over the weights of the edges `path` (edge indices into `edges`)
pub open spec fn path_sum(edges: Seq<GraphEdge>, path: Seq<usize>, f: spec_fn(TimetableEdge) -> int) -> int
    decreases path.len(),
{
    if path.len() == 0 {
        0
    } else {
        path_sum(edges, path.drop_last(), f) + f(edges[path.last() as int].2)
    }
}

/// travel cost of an edge, as an integer
pub open spec fn edge_travel_cost(e: TimetableEdge) -> int {
    e.spec_travel_cost() as int
}

/// duration of an edge, as an integer
pub open spec fn edge_duration(e: TimetableEdge) -> int {
    e.spec_duration() as int
}

/// summed travel cost of the edges of a path
pub open spec fn path_travel_cost(edges: Seq<GraphEdge>, path: Seq<usize>) -> int {
    path_sum(edges, path, |e: TimetableEdge| edge_travel_cost(e))
}

/// summed duration of the edges of a path
pub open spec fn path_duration(edges: Seq<GraphEdge>, path: Seq<usize>) -> int {
    path_sum(edges, path, |e: TimetableEdge| edge_duration(e))
}

/// every item of `path` is an edge index of `edges`
pub open spec fn edges_exist(edges: Seq<GraphEdge>, path: Seq<usize>) -> bool {
    forall|i: int| 0 <= i < path.len() ==> #[trigger] path[i] < edges.len()
}

/// time of the node a (non-empty) path ends at
pub open spec fn path_end_time(graph: TimetableGraph, path: Seq<usize>) -> Option<u64> {
    graph_nodes(graph)[graph_edges(graph)[path.last() as int].1 as int].spec_time()
}

/// `path` holds the edge index `i`
pub open spec fn path_has(path: Seq<usize>, i: int) -> bool {
    exists|k: int| 0 <= k < path.len() && path[k] as int == i
}

/// `edges` with `amount` passengers added to every trip edge whose index is in `path`
pub open spec fn add_load(edges: Seq<GraphEdge>, path: Seq<usize>, amount: int) -> Seq<GraphEdge> {
    Seq::new(
        edges.len(),
        |i: int|
            if path_has(path, i) {
                (edges[i].0, edges[i].1, edges[i].2.with_added_utilization(amount))
            } else {
                edges[i]
            },
    )
}

/// no edge of `path` would exceed `u64::MAX` passengers with `amount` more
pub open spec fn load_fits(edges: Seq<GraphEdge>, path: Seq<usize>, amount: int) -> bool {
    forall|i: int|
        0 <= i < path.len() ==> #[trigger] edges[path[i] as int].2.spec_utilization() + amount
            <= u64::MAX
}

/// Straining a path onto the graph (`Path::strain_to_graph`) and relieving it again
/// (`Path::relieve_from_graph`) gives back the graph's edges; the set of strained
/// edges comes back without those edges of the path that carry no passengers, which
/// is the set itself when it held every edge with passengers and none of the path's
/// edges without.
pub proof fn lemma_strain_then_relieve(edges: Seq<GraphEdge>, path: Seq<usize>, amount: u64, set: Set<usize>)
    requires
        edges_exist(edges, path),
        load_fits(edges, path, amount as int),
    ensures
        add_load(add_load(edges, path, amount as int), path, -(amount as int)) == edges,
        ({
            let restored = add_load(add_load(edges, path, amount as int), path, -(amount as int));
            let unused = path.to_set().filter(|e: usize| restored[e as int].2.spec_utilization() == 0);
            &&& strained_covers_load(edges, set) ==> set.union(path.to_set()).difference(unused) == set.difference(unused)
            &&& strained_covers_load(edges, set) && set.disjoint(unused) ==> set.union(path.to_set()).difference(unused)
                == set
        }),
{
    let once = add_load(edges, path, amount as int);
    let twice = add_load(once, path, -(amount as int));
    assert forall|i: int| 0 <= i < edges.len() implies #[trigger] twice[i] == edges[i] by {
        if path_has(path, i) {
            let k = choose|k: int| 0 <= k < path.len() && path[k] as int == i;
            assert(edges[path[k] as int].2.spec_utilization() + amount <= u64::MAX);
        }
    }
    assert(twice =~= edges);
    let unused = path.to_set().filter(|e: usize| twice[e as int].2.spec_utilization() == 0);
    if strained_covers_load(edges, set) {
        assert forall|e: usize| #[trigger] set.union(path.to_set()).difference(unused).contains(e) == set.difference(unused).contains(e) by {
            if path.to_set().contains(e) && !unused.contains(e) && !set.contains(e) {
                let k = choose|k: int| 0 <= k < path.len() && path[k] == e;
                assert(edges[e as int].2.spec_utilization() > 0);
            }
        }
        assert(set.union(path.to_set()).difference(unused) =~= set.difference(unused));
        if set.disjoint(unused) {
            assert(set.difference(unused) =~= set);
        }
    }
}

/// every edge with passengers on it is in the set of strained edges
pub open spec fn strained_covers_load(edges: Seq<GraphEdge>, strained: Set<usize>) -> bool {
    forall|i: int| 0 <= i < edges.len() && #[trigger] edges[i].2.spec_utilization() > 0 ==> strained.contains(i as usize)
}

/// The sums that building a path from the (non-empty) edge sequence `edges` computes
/// fit their types: the travel cost and the cost with delay in an `i64`, the
/// duration in a `u64`; and the last edge ends at a node with a time.
pub open spec fn path_fits(graph: TimetableGraph, edges: Seq<usize>, planned_arrival: u64) -> bool {
    let ge = graph_edges(graph);
    &&& edges.len() > 0
    &&& edges_exist(ge, edges)
    &&& ge[edges.last() as int].1 < graph_nodes(graph).len()
    &&& path_end_time(graph, edges) is Some
    &&& path_end_time(graph, edges).unwrap() <= i64::MAX
    &&& planned_arrival <= i64::MAX
    &&& path_duration(ge, edges) <= u64::MAX
    &&& path_travel_cost(ge, edges) <= i64::MAX
    &&& path_travel_cost(ge, edges) + path_end_time(graph, edges).unwrap() - planned_arrival <= i64::MAX
}

/// `path` is the path built from the edges `edges` for `utilization` passengers planned
/// to arrive at `planned_arrival`: costs and duration summed over `edges`, the delay of
/// its last node against the planned arrival, and the edges with repetitions dropped
pub open spec fn built_from(path: Path, graph: TimetableGraph, edges: Seq<usize>, utilization: u64, planned_arrival: u64) -> bool {
    &&& path.spec_travel_cost() == path_travel_cost(graph_edges(graph), edges)
    &&& path.spec_duration() == path_duration(graph_edges(graph), edges)
    &&& path.spec_travel_delay() == path_end_time(graph, edges).unwrap() - planned_arrival
    &&& path.spec_utilization() == utilization
    &&& path.edge_seq() == seq_dedup(edges)
}

/// what a path is made of: its travel cost, duration, delay, passengers and edges
pub open spec fn path_signature(path: Path) -> (int, int, int, int, Seq<usize>) {
    (
        path.spec_travel_cost() as int,
        path.spec_duration() as int,
        path.spec_travel_delay() as int,
        path.spec_utilization() as int,
        path.edge_seq(),
    )
}

/// what the path built from the edges `edges` for `utilization` passengers planned to
/// arrive at `planned_arrival` is made of (see `built_from`)
pub open spec fn walk_signature(
    graph: TimetableGraph,
    edges: Seq<usize>,
    utilization: u64,
    planned_arrival: u64,
) -> (int, int, int, int, Seq<usize>) {
    (
        path_travel_cost(graph_edges(graph), edges),
        path_duration(graph_edges(graph), edges),
        path_end_time(graph, edges).unwrap() - planned_arrival,
        utilization as int,
        seq_dedup(edges),
    )
}

/// what each of `paths` is made of
pub open spec fn paths_signatures(paths: Seq<Path>) -> Seq<(int, int, int, int, Seq<usize>)> {
    paths.map_values(|p: Path| path_signature(p))
}

/// what the paths built from each of `walks` are made of
pub open spec fn walks_signatures(
    graph: TimetableGraph,
    walks: Seq<Seq<usize>>,
    utilization: u64,
    planned_arrival: u64,
) -> Seq<(int, int, int, int, Seq<usize>)> {
    walks.map_values(|w: Seq<usize>| walk_signature(graph, w, utilization, planned_arrival))
}

/// Paths that are the same items in another order are made of the same things.
pub proof fn lemma_paths_signatures_multiset(a: Seq<Path>, b: Seq<Path>)
    requires
        a.to_multiset() == b.to_multiset(),
    ensures
        paths_signatures(a).to_multiset() == paths_signatures(b).to_multiset(),
{
    let f = |p: Path| path_signature(p);
    lemma_map_values_multiset(a, b, f);
    assert(paths_signatures(a) =~= a.map_values(f));
    assert(paths_signatures(b) =~= b.map_values(f));
}

/// Sequences with the same items have the same items after mapping.
proof fn lemma_map_values_multiset<A, B>(a: Seq<A>, b: Seq<A>, f: spec_fn(A) -> B)
    requires
        a.to_multiset() == b.to_multiset(),
    ensures
        a.map_values(f).to_multiset() == b.map_values(f).to_multiset(),
    decreases a.len(),
{
    broadcast use vstd::seq_lib::group_to_multiset_ensures;
    broadcast use vstd::multiset::group_multiset_axioms;

    if a.len() == 0 {
        assert(a.to_multiset().len() == a.len());
        assert(b.to_multiset().len() == b.len());
        assert(b.len() == 0);
        assert(a.map_values(f) =~= b.map_values(f));
    } else {
        let x = a.last();
        let a1 = a.drop_last();
        assert(a1.push(x) == a);
        assert(a.to_multiset().count(x) > 0);
        assert(b.contains(x));
        let j = choose|j: int| 0 <= j < b.len() && b[j] == x;
        let b1 = b.remove(j);
        assert(a1.to_multiset() =~= a.to_multiset().remove(x));
        assert(b1.to_multiset() =~= b.to_multiset().remove(x));
        lemma_map_values_multiset(a1, b1, f);
        assert(a.map_values(f) =~= a1.map_values(f).push(f(x)));
        assert(b.map_values(f).remove(j) =~= b1.map_values(f));
        assert(b.map_values(f)[j] == f(x));
        assert(b.map_values(f).to_multiset().count(f(x)) > 0);
        assert(b.map_values(f).to_multiset() =~= b1.map_values(f).to_multiset().insert(f(x)));
    }
}

/// paths ordered by cost, cheapest first
pub open spec fn sorted_by_cost(paths: Seq<Path>) -> bool {
    forall|i: int, j: int| 0 <= i <= j < paths.len() ==> paths[i].spec_cost() <= paths[j].spec_cost()
}

/// A route: a sequence of edges without repetition, with its travel cost, duration,
/// delay against the planned arrival and the number of passengers taking it.
#[derive(Debug)]
pub struct Path {
    travel_cost: u64,
    travel_duration: u64,
    travel_delay: i64,
    utilization: u64,
    edges: IndexSet<usize>,
}

impl Path {
    #[verifier::type_invariant]
    spec fn cost_in_range(&self) -> bool {
        &&& self.travel_cost <= i64::MAX
        &&& i64::MIN <= self.travel_cost + self.travel_delay <= i64::MAX
        &&& index_set_items(self.edges).no_duplicates()
    }

    /// the edges of the path, in order
    pub closed spec fn edge_seq(&self) -> Seq<usize> {
        index_set_items(self.edges)
    }

    pub closed spec fn spec_travel_cost(&self) -> u64 {
        self.travel_cost
    }

    pub closed spec fn spec_duration(&self) -> u64 {
        self.travel_duration
    }

    pub closed spec fn spec_travel_delay(&self) -> i64 {
        self.travel_delay
    }

    pub closed spec fn spec_utilization(&self) -> u64 {
        self.utilization
    }

    /// cost of the path: travel cost plus delay
    pub open spec fn spec_cost(&self) -> int {
        self.spec_travel_cost() + self.spec_travel_delay()
    }

    /// Builds the path taking the edges `edges` (which must not be empty) with
    /// `utilization` passengers, planned to arrive at `planned_arrival_time`.
    /// Travel cost and duration are summed over `edges`; the delay is the time of
    /// the last node minus the planned arrival. Repeated edges are kept once, at
    /// their first position.
    pub fn new(
        graph: &TimetableGraph,
        edges: Vec<usize>,
        utilization: u64,
        planned_arrival_time: u64,
    ) -> (path: Self)
        requires
            path_fits(*graph, edges@, planned_arrival_time),
        ensures
            built_from(path, *graph, edges@, utilization, planned_arrival_time),
    {
        let ghost ge = graph_edges(*graph);
        let mut travel_cost: u64 = 0;
        let mut duration: u64 = 0;
        let mut i: usize = 0;
        proof {
            lemma_path_sum_prefix_bounded(ge, edges@, |e: TimetableEdge| edge_travel_cost(e));
            lemma_path_sum_prefix_bounded(ge, edges@, |e: TimetableEdge| edge_duration(e));
        }
        while i < edges.len()
            invariant
                i <= edges.len(),
                ge == graph_edges(*graph),
                edges_exist(ge, edges@),
                travel_cost == path_travel_cost(ge, edges@.take(i as int)),
                duration == path_duration(ge, edges@.take(i as int)),
                forall|k: int| 0 <= k <= edges.len() ==> path_travel_cost(ge, #[trigger] edges@.take(k)) <= path_travel_cost(ge, edges@),
                forall|k: int| 0 <= k <= edges.len() ==> path_duration(ge, #[trigger] edges@.take(k)) <= path_duration(ge, edges@),
                path_duration(ge, edges@) <= u64::MAX,
                path_travel_cost(ge, edges@) <= i64::MAX,
            decreases edges.len() - i,
        {
            let edge_weight = graph_edge(graph, edges[i]);
            assert(edges@.take(i + 1).drop_last() == edges@.take(i as int));
            assert(edges@.take(i + 1).last() == edges@[i as int]);
            travel_cost = travel_cost + edge_weight.travel_cost();
            duration = duration + edge_weight.duration();
            i = i + 1;
        }
        assert(edges@.take(edges.len() as int) == edges@);
        let (_, last_node) = graph_edge_endpoints(graph, edges[edges.len() - 1]);
        let real_arrival_time = match graph_node(graph, last_node).time() {
            Some(t) => t,
            None => 0,
        };
        let travel_delay = (real_arrival_time as i64) - (planned_arrival_time as i64);
        proof {
            lemma_seq_dedup(edges@);
        }
        Path {
            travel_cost,
            travel_duration: duration,
            utilization,
            travel_delay,
            edges: index_set_from_vec(edges),
        }
    }

    /// cost of this path: travel cost plus delay
    pub fn cost(&self) -> (c: i64)
        ensures
            c == self.spec_cost(),
    {
        proof {
            use_type_invariant(self);
        }
        (self.travel_cost as i64) + self.travel_delay
    }

    pub fn travel_cost(&self) -> (c: u64)
        ensures
            c == self.spec_travel_cost(),
    {
        self.travel_cost
    }

    pub fn duration(&self) -> (d: u64)
        ensures
            d == self.spec_duration(),
    {
        self.travel_duration
    }

    pub fn utilization(&self) -> (u: u64)
        ensures
            u == self.spec_utilization(),
    {
        self.utilization
    }

    pub fn travel_delay(&self) -> (d: i64)
        ensures
            d == self.spec_travel_delay(),
    {
        self.travel_delay
    }

    /// the ordered set of the path's edges
    pub fn edges(&self) -> (edges: &IndexSet<usize>)
        ensures
            index_set_items(*edges) == self.edge_seq(),
            self.edge_seq().no_duplicates(),
    {
        proof {
            use_type_invariant(self);
        }
        &self.edges
    }

    /// the edges of this path that `other` takes too, in this path's order
    pub fn intersecting_edges(&self, other: &Self) -> (common: Vec<usize>)
        ensures
            common@ == self.edge_seq().filter(|e: usize| other.edge_seq().contains(e)),
    {
        index_set_intersection(&self.edges, &other.edges)
    }

    /// paths are ordered by their cost
    pub fn cmp(&self, other: &Self) -> (order: Ordering)
        ensures
            (order == Ordering::Less) == (self.spec_cost() < other.spec_cost()),
            (order == Ordering::Equal) == (self.spec_cost() == other.spec_cost()),
            (order == Ordering::Greater) == (self.spec_cost() > other.spec_cost()),
    {
        let a = self.cost();
        let b = other.cost();
        if a < b {
            Ordering::Less
        } else if a == b {
            Ordering::Equal
        } else {
            Ordering::Greater
        }
    }

    /// paths are ordered by their cost; the order is total
    pub fn partial_cmp(&self, other: &Self) -> (order: Option<Ordering>)
        ensures
            order is Some,
            (order == Some(Ordering::Less)) == (self.spec_cost() < other.spec_cost()),
            (order == Some(Ordering::Equal)) == (self.spec_cost() == other.spec_cost()),
            (order == Some(Ordering::Greater)) == (self.spec_cost() > other.spec_cost()),
    {
        Some(self.cmp(other))
    }

    /// Puts the path's passengers onto its edges and records the edges as strained.
    pub fn strain_to_graph(&self, graph: &mut TimetableGraph, strained_edges: &mut HashSet<usize>)
        requires
            edges_exist(graph_edges(*old(graph)), self.edge_seq()),
            load_fits(graph_edges(*old(graph)), self.edge_seq(), self.spec_utilization() as int),
        ensures
            graph_edges(*final(graph)) == add_load(
                graph_edges(*old(graph)),
                self.edge_seq(),
                self.spec_utilization() as int,
            ),
            graph_nodes(*final(graph)) == graph_nodes(*old(graph)),
            final(strained_edges)@ == old(strained_edges)@.union(self.edge_seq().to_set()),
    {
        proof {
            use_type_invariant(self);
        }
        let ghost edges0 = graph_edges(*graph);
        let ghost set0 = strained_edges@;
        let ghost items = self.edge_seq();
        let n = index_set_len(&self.edges);
        let mut i: usize = 0;
        while i < n
            invariant
                n == items.len(),
                items == self.edge_seq(),
                items.no_duplicates(),
                i <= n,
                edges_exist(edges0, items),
                load_fits(edges0, items, self.spec_utilization() as int),
                graph_nodes(*graph) == graph_nodes(*old(graph)),
                edges0 == graph_edges(*old(graph)),
                graph_edges(*graph) == add_load(edges0, items.take(i as int), self.spec_utilization() as int),
                strained_edges@ == set0.union(items.take(i as int).to_set()),
            decreases n - i,
        {
            let edge = index_set_get(&self.edges, i);
            let mut weight = *graph_edge(graph, edge);
            proof {
                assert(!items.take(i as int).contains(edge));
                assert(weight == edges0[edge as int].2);
            }
            weight.increase_utilization(self.utilization);
            graph_set_edge(graph, edge, weight);
            strained_edges.insert(edge);
            proof {
                assert(items.take(i + 1) == items.take(i as int).push(edge));
                lemma_push_has(items.take(i as int), edge);
                lemma_push_to_set(items.take(i as int), edge);
                assert(graph_edges(*graph) =~= add_load(edges0, items.take(i + 1), self.spec_utilization() as int));
                assert(strained_edges@ =~= set0.union(items.take(i + 1).to_set()));
            }
            i = i + 1;
        }
        assert(items.take(n as int) == items);
    }

    /// Takes the path's passengers off its edges; every edge of the path that is left
    /// without passengers is no longer recorded as strained.
    pub fn relieve_from_graph(&self, graph: &mut TimetableGraph, strained_edges: &mut HashSet<usize>)
        requires
            edges_exist(graph_edges(*old(graph)), self.edge_seq()),
            forall|i: int|
                0 <= i < self.edge_seq().len() ==> self.spec_utilization()
                    <= #[trigger] graph_edges(*old(graph))[self.edge_seq()[i] as int].2.spec_utilization()
                    || !(graph_edges(*old(graph))[self.edge_seq()[i] as int].2 is Trip),
        ensures
            graph_edges(*final(graph)) == add_load(
                graph_edges(*old(graph)),
                self.edge_seq(),
                -(self.spec_utilization() as int),
            ),
            graph_nodes(*final(graph)) == graph_nodes(*old(graph)),
            final(strained_edges)@ == old(strained_edges)@.difference(
                self.edge_seq().to_set().filter(
                    |e: usize| graph_edges(*final(graph))[e as int].2.spec_utilization() == 0,
                ),
            ),
    {
        proof {
            use_type_invariant(self);
        }
        let ghost edges0 = graph_edges(*graph);
        let ghost set0 = strained_edges@;
        let ghost items = self.edge_seq();
        let ghost amount = -(self.spec_utilization() as int);
        let n = index_set_len(&self.edges);
        let mut i: usize = 0;
        while i < n
            invariant
                n == items.len(),
                items == self.edge_seq(),
                items.no_duplicates(),
                i <= n,
                edges_exist(edges0, items),
                amount == -(self.spec_utilization() as int),
                forall|k: int|
                    0 <= k < items.len() ==> self.spec_utilization()
                        <= #[trigger] edges0[items[k] as int].2.spec_utilization()
                        || !(edges0[items[k] as int].2 is Trip),
                graph_nodes(*graph) == graph_nodes(*old(graph)),
                edges0 == graph_edges(*old(graph)),
                graph_edges(*graph) == add_load(edges0, items.take(i as int), amount),
                strained_edges@ == set0.difference(
                    items.take(i as int).to_set().filter(
                        |e: usize| add_load(edges0, items, amount)[e as int].2.spec_utilization() == 0,
                    ),
                ),
            decreases n - i,
        {
            let edge = index_set_get(&self.edges, i);
            let mut weight = *graph_edge(graph, edge);
            proof {
                assert(!items.take(i as int).contains(edge));
                assert(weight == edges0[edge as int].2);
                assert(items[i as int] == edge);
            }
            weight.decrease_utilization(self.utilization);
            graph_set_edge(graph, edge, weight);
            if weight.utilization() == 0 {
                strained_edges.remove(&edge);
            }
            proof {
                assert(items.take(i + 1) == items.take(i as int).push(edge));
                lemma_push_has(items.take(i as int), edge);
                lemma_push_to_set(items.take(i as int), edge);
                assert(graph_edges(*graph) =~= add_load(edges0, items.take(i + 1), amount));
                assert(items.contains(edge));
                assert(path_has(items, edge as int));
                assert(add_load(edges0, items, amount)[edge as int].2 == weight);
                assert(strained_edges@ =~= set0.difference(
                    items.take(i + 1).to_set().filter(
                        |e: usize| add_load(edges0, items, amount)[e as int].2.spec_utilization() == 0,
                    ),
                ));
            }
            i = i + 1;
        }
        assert(items.take(n as int) == items);
    }
}

/// Whether a path can be built from `edges` (see `path_fits`), checked without overflow.
pub fn fits_new_path(graph: &TimetableGraph, edges: &Vec<usize>, planned_arrival: u64) -> (ok: bool)
    ensures
        ok == path_fits(*graph, edges@, planned_arrival),
{
    let ghost ge = graph_edges(*graph);
    if edges.len() == 0 || planned_arrival > i64::MAX as u64 {
        return false;
    }
    let n_edges = graph_edge_count(graph);
    let mut travel_cost: u64 = 0;
    let mut duration: u64 = 0;
    let mut i: usize = 0;
    while i < edges.len()
        invariant
            i <= edges.len(),
            ge == graph_edges(*graph),
            n_edges == ge.len(),
            edges_exist(ge, edges@.take(i as int)),
            travel_cost == path_travel_cost(ge, edges@.take(i as int)),
            duration == path_duration(ge, edges@.take(i as int)),
            travel_cost <= i64::MAX,
        decreases edges.len() - i,
    {
        let e = edges[i];
        if e >= n_edges {
            proof {
                assert(edges@[i as int] == e);
            }
            return false;
        }
        let weight = graph_edge(graph, e);
        let c = weight.travel_cost();
        let d = weight.duration();
        proof {
            assert(edges@.take(i + 1).drop_last() == edges@.take(i as int));
            assert(edges@.take(i + 1).last() == e);
            lemma_path_sum_prefix_bounded(ge, edges@, |e: TimetableEdge| edge_travel_cost(e));
            lemma_path_sum_prefix_bounded(ge, edges@, |e: TimetableEdge| edge_duration(e));
        }
        if c > i64::MAX as u64 - travel_cost || d > u64::MAX - duration {
            proof {
                assert(edges_exist(ge, edges@.take(i + 1)));
                assert(path_travel_cost(ge, edges@.take(i + 1)) > i64::MAX || path_duration(ge, edges@.take(i + 1)) > u64::MAX);
                if edges_exist(ge, edges@) {
                    assert(path_travel_cost(ge, edges@.take(i + 1)) <= path_travel_cost(ge, edges@));
                    assert(path_duration(ge, edges@.take(i + 1)) <= path_duration(ge, edges@));
                }
            }
            return false;
        }
        travel_cost = travel_cost + c;
        duration = duration + d;
        i = i + 1;
    }
    assert(edges@.take(edges.len() as int) == edges@);
    let (_, last_node) = graph_edge_endpoints(graph, edges[edges.len() - 1]);
    if last_node >= graph_node_count(graph) {
        return false;
    }
    match graph_node(graph, last_node).time() {
        Some(t) => {
            if t > i64::MAX as u64 {
                return false;
            }
            (travel_cost as i128) + (t as i128) - (planned_arrival as i128) <= (i64::MAX as i128)
        },
        None => false,
    }
}

/// Orders paths by cost, cheapest first.
pub(crate) fn sort_paths_by_cost(paths: Vec<Path>) -> (sorted: Vec<Path>)
    ensures
        sorted@.to_multiset() == paths@.to_multiset(),
        sorted_by_cost(sorted@),
{
    broadcast use vstd::seq_lib::group_to_multiset_ensures;
    let mut rest = paths;
    let mut sorted: Vec<Path> = Vec::new();
    while rest.len() > 0
        invariant
            sorted@.to_multiset().add(rest@.to_multiset()) == paths@.to_multiset(),
            sorted_by_cost(sorted@),
        decreases rest.len(),
    {
        let ghost before_rest = rest@;
        let p = match rest.pop() {
            Some(p) => p,
            None => {
                return sorted;
            },
        };
        proof {
            assert(before_rest == rest@.push(p));
        }
        let c = p.cost();
        let mut pos: usize = 0;
        while pos < sorted.len() && sorted[pos].cost() <= c
            invariant
                pos <= sorted.len(),
                c == p.spec_cost(),
                forall|j: int| 0 <= j < pos ==> sorted@[j].spec_cost() <= c,
            decreases sorted.len() - pos,
        {
            pos = pos + 1;
        }
        let ghost before = sorted@;
        sorted.insert(pos, p);
        proof {
            vstd::seq_lib::to_multiset_insert(before, pos as int, p);
            assert(sorted@.to_multiset() == before.to_multiset().insert(p));
            vstd::seq_lib::to_multiset_build(rest@, p);
            assert(before_rest.to_multiset() == rest@.to_multiset().insert(p));
            assert(sorted@.to_multiset().add(rest@.to_multiset()) =~= before.to_multiset().add(before_rest.to_multiset()));
            assert forall|a: int, b: int| 0 <= a <= b < sorted@.len() implies sorted@[a].spec_cost() <= sorted@[b].spec_cost() by {
                if pos < before.len() {
                    assert(c < before[pos as int].spec_cost());
                }
                if a < pos && b == pos {
                } else if a < pos && b > pos {
                    assert(sorted@[b] == before[b - 1]);
                } else if a == pos && b > pos {
                    assert(sorted@[b] == before[b - 1]);
                } else if a > pos {
                    assert(sorted@[a] == before[a - 1]);
                    assert(sorted@[b] == before[b - 1]);
                }
            }
        }
    }
    proof {
        assert(rest@ =~= Seq::<Path>::empty());
    }
    sorted
}

/// A copy of the path, with the same costs and edges.
impl Clone for Path {
    fn clone(&self) -> (copy: Self)
        ensures
            copy.edge_seq() == self.edge_seq(),
            copy.spec_travel_cost() == self.spec_travel_cost(),
            copy.spec_duration() == self.spec_duration(),
            copy.spec_travel_delay() == self.spec_travel_delay(),
            copy.spec_utilization() == self.spec_utilization(),
    {
        proof {
            use_type_invariant(self);
        }
        Path {
            travel_cost: self.travel_cost,
            travel_duration: self.travel_duration,
            travel_delay: self.travel_delay,
            utilization: self.utilization,
            edges: index_set_clone(&self.edges),
        }
    }
}

/// Two paths are equal when their costs are.
impl PartialEq for Path {
    fn eq(&self, other: &Self) -> (equal: bool) {
        self.cost() == other.cost()
    }
}

impl PartialEqSpecImpl for Path {
    open spec fn obeys_eq_spec() -> bool {
        true
    }

    open spec fn eq_spec(&self, other: &Path) -> bool {
        self.spec_cost() == other.spec_cost()
    }
}

/// A prefix of a path has a sum of non-negative edge values no larger than the whole path.
pub proof fn lemma_path_sum_prefix_bounded(edges: Seq<GraphEdge>, path: Seq<usize>, f: spec_fn(TimetableEdge) -> int)
    requires
        forall|e: TimetableEdge| #[trigger] f(e) >= 0,
    ensures
        forall|k: int| 0 <= k <= path.len() ==> path_sum(edges, #[trigger] path.take(k), f) <= path_sum(edges, path, f),
    decreases path.len(),
{
    if path.len() > 0 {
        lemma_path_sum_prefix_bounded(edges, path.drop_last(), f);
        assert forall|k: int| 0 <= k <= path.len() implies path_sum(edges, #[trigger] path.take(k), f) <= path_sum(edges, path, f) by {
            if k < path.len() {
                assert(path.take(k) == path.drop_last().take(k));
            } else {
                assert(path.take(k) == path);
            }
        }
    }
}

/// Appending an item to a sequence adds exactly that item to what it holds.
pub proof fn lemma_push_has(s: Seq<usize>, x: usize)
    ensures
        forall|i: int| path_has(s.push(x), i) <==> (path_has(s, i) || i == x as int),
{
    assert forall|i: int| path_has(s.push(x), i) <==> (path_has(s, i) || i == x as int) by {
        if path_has(s.push(x), i) {
            let k = choose|k: int| 0 <= k < s.push(x).len() && s.push(x)[k] as int == i;
            if k < s.len() {
                assert(s[k] as int == i);
            }
        }
        if path_has(s, i) {
            let k = choose|k: int| 0 <= k < s.len() && s[k] as int == i;
            assert(s.push(x)[k] as int == i);
        }
        if i == x as int {
            assert(s.push(x)[s.len() as int] as int == i);
        }
    }
}

/// The set of a sequence with one item appended.
pub proof fn lemma_push_to_set<A>(s: Seq<A>, x: A)
    ensures
        s.push(x).to_set() == s.to_set().insert(x),
{
    assert forall|y: A| s.push(x).to_set().contains(y) <==> s.to_set().insert(x).contains(y) by {
        if s.push(x).contains(y) {
            let k = choose|k: int| 0 <= k < s.push(x).len() && s.push(x)[k] == y;
            if k < s.len() {
                assert(s[k] == y);
            }
        }
        if s.contains(y) {
            let k = choose|k: int| 0 <= k < s.len() && s[k] == y;
            assert(s.push(x)[k] == y);
        }
        if y == x {
            assert(s.push(x)[s.len() as int] == y);
        }
    }
    assert(s.push(x).to_set() =~= s.to_set().insert(x));
}

/// Taking a path's passengers off the graph after putting them on gives back the graph's edges.
pub proof fn lemma_strain_relieve_round_trip(edges: Seq<GraphEdge>, path: Seq<usize>, amount: u64)
    requires
        edges_exist(edges, path),
        load_fits(edges, path, amount as int),
    ensures
        add_load(add_load(edges, path, amount as int), path, -(amount as int)) == edges,
{
    let loaded = add_load(edges, path, amount as int);
    assert forall|i: int| 0 <= i < edges.len() implies #[trigger] add_load(loaded, path, -(amount as int))[i] == edges[i] by {
        if path_has(path, i) {
            let k = choose|k: int| 0 <= k < path.len() && path[k] as int == i;
            assert(edges[path[k] as int].2.spec_utilization() + amount <= u64::MAX);
        }
    }
    assert(add_load(loaded, path, -(amount as int)) =~= edges);
}

} // verus!
