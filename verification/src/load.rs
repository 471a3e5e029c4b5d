//! The passengers that a selection of paths puts on the graph's edges, and the
//! overload cost of a set of edges.

use vstd::prelude::*;
use crate::graph::GraphEdge;
use crate::graph_weight::TimetableEdge;
use crate::path::{add_load, edges_exist, path_has, strained_covers_load, Path};

verus! {

/// passengers that `path` puts on the edge with index `i`
pub open spec fn contribution(path: Path, i: int) -> int {
    if path_has(path.edge_seq(), i) {
        path.spec_utilization() as int
    } else {
        0
    }
}

/// passengers that all of `paths` put on the edge with index `i`
pub open spec fn load_on(paths: Seq<Path>, i: int) -> int
    decreases paths.len(),
{
    if paths.len() == 0 {
        0
    } else {
        load_on(paths.drop_last(), i) + contribution(paths.last(), i)
    }
}

/// `edges` with the passengers of `paths` added to their trips
pub open spec fn loaded_edges(edges: Seq<GraphEdge>, paths: Seq<Path>) -> Seq<GraphEdge> {
    Seq::new(
        edges.len(),
        |i: int| (edges[i].0, edges[i].1, edges[i].2.with_added_utilization(load_on(paths, i))),
    )
}

/// no trip of `edges` gets more than `u64::MAX` passengers with those of `paths`
pub open spec fn trip_loads_fit(edges: Seq<GraphEdge>, paths: Seq<Path>) -> bool {
    forall|i: int|
        0 <= i < edges.len() && (#[trigger] edges[i]).2 is Trip ==> edges[i].2.spec_utilization() + load_on(paths, i)
            <= u64::MAX
}

/// no trip of `edges` carries passengers
pub open spec fn unloaded(edges: Seq<GraphEdge>) -> bool {
    forall|i: int| 0 <= i < edges.len() ==> (#[trigger] edges[i]).2.spec_utilization() == 0
}

/// the edges that some of `paths` take
pub open spec fn path_union(paths: Seq<Path>) -> Set<usize>
    decreases paths.len(),
{
    if paths.len() == 0 {
        Set::empty()
    } else {
        path_union(paths.drop_last()).union(paths.last().edge_seq().to_set())
    }
}

/// overload cost of the edges of `set` among the first `n` edges
pub open spec fn strained_cost_upto(edges: Seq<GraphEdge>, set: Set<usize>, n: int) -> int
    decreases n,
{
    if n <= 0 {
        0
    } else {
        strained_cost_upto(edges, set, n - 1) + if set.contains((n - 1) as usize) {
            edges[n - 1].2.spec_utilization_cost()
        } else {
            0
        }
    }
}

/// overload cost of the edges in `set`: the summed squared overload of their trips
pub open spec fn strained_cost(edges: Seq<GraphEdge>, set: Set<usize>) -> int {
    strained_cost_upto(edges, set, edges.len() as int)
}

/// overload cost of all edges
pub open spec fn total_overload(edges: Seq<GraphEdge>) -> int {
    strained_cost(edges, Set::new(|i: usize| true))
}

/// overload cost of the edge indices `s`, in their order
pub open spec fn seq_cost(edges: Seq<GraphEdge>, s: Seq<usize>) -> int
    decreases s.len(),
{
    if s.len() == 0 {
        0
    } else {
        seq_cost(edges, s.drop_last()) + edges[s.last() as int].2.spec_utilization_cost()
    }
}

pub proof fn lemma_load_nonneg(paths: Seq<Path>, i: int)
    ensures
        load_on(paths, i) >= 0,
    decreases paths.len(),
{
    if paths.len() > 0 {
        lemma_load_nonneg(paths.drop_last(), i);
    }
}

/// The first paths put no more passengers on an edge than all of them.
pub proof fn lemma_load_prefix(paths: Seq<Path>, k: int, i: int)
    requires
        0 <= k <= paths.len(),
    ensures
        0 <= load_on(paths.take(k), i) <= load_on(paths, i),
    decreases paths.len(),
{
    lemma_load_nonneg(paths.take(k), i);
    if k < paths.len() {
        assert(paths.drop_last().take(k) == paths.take(k));
        lemma_load_prefix(paths.drop_last(), k, i);
    } else {
        assert(paths.take(k) == paths);
    }
}

/// Loads that fit for all paths fit for the first ones.
pub proof fn lemma_fit_prefix(edges: Seq<GraphEdge>, paths: Seq<Path>, k: int)
    requires
        0 <= k <= paths.len(),
        trip_loads_fit(edges, paths),
    ensures
        trip_loads_fit(edges, paths.take(k)),
{
    assert forall|i: int| 0 <= i < edges.len() && (#[trigger] edges[i]).2 is Trip implies edges[i].2.spec_utilization()
        + load_on(paths.take(k), i) <= u64::MAX by {
        lemma_load_prefix(paths, k, i);
    }
}

/// Every edge taken by the paths is an edge of the graph when each path's edges are.
pub proof fn lemma_union_exists(edges: Seq<GraphEdge>, paths: Seq<Path>)
    requires
        forall|k: int| 0 <= k < paths.len() ==> edges_exist(edges, #[trigger] paths[k].edge_seq()),
    ensures
        forall|e: usize| path_union(paths).contains(e) ==> e < edges.len(),
    decreases paths.len(),
{
    if paths.len() > 0 {
        lemma_union_exists(edges, paths.drop_last());
        assert forall|e: usize| path_union(paths).contains(e) implies e < edges.len() by {
            let last = paths[paths.len() - 1].edge_seq();
            if last.to_set().contains(e) {
                assert(last.contains(e));
                let q = choose|q: int| 0 <= q < last.len() && last[q] == e;
                assert(edges_exist(edges, last));
                assert(last[q] < edges.len());
            } else {
                assert(path_union(paths.drop_last()).contains(e));
            }
        }
    }
}

/// Removing one path takes away exactly its passengers.
pub proof fn lemma_load_remove(paths: Seq<Path>, g: int, i: int)
    requires
        0 <= g < paths.len(),
    ensures
        load_on(paths, i) == load_on(paths.remove(g), i) + contribution(paths[g], i),
    decreases paths.len(),
{
    if g < paths.len() - 1 {
        assert(paths.remove(g).drop_last() == paths.drop_last().remove(g));
        assert(paths.remove(g).last() == paths.last());
        lemma_load_remove(paths.drop_last(), g, i);
    } else {
        assert(paths.remove(g) == paths.drop_last());
    }
}

/// Replacing one path by another changes the load as removing the first and adding the second.
pub proof fn lemma_load_update(paths: Seq<Path>, g: int, p: Path, i: int)
    requires
        0 <= g < paths.len(),
    ensures
        load_on(paths.update(g, p), i) == load_on(paths.remove(g).push(p), i),
{
    lemma_load_remove(paths.update(g, p), g, i);
    assert(paths.update(g, p).remove(g) == paths.remove(g));
    assert(paths.remove(g).push(p).drop_last() == paths.remove(g));
}

/// Selections with the same load on every edge load the edges alike.
pub proof fn lemma_loaded_same(edges: Seq<GraphEdge>, a: Seq<Path>, b: Seq<Path>)
    requires
        forall|i: int| 0 <= i < edges.len() ==> load_on(a, i) == load_on(b, i),
    ensures
        loaded_edges(edges, a) == loaded_edges(edges, b),
{
    assert(loaded_edges(edges, a) =~= loaded_edges(edges, b));
}

/// Without paths the edges are as they were.
pub proof fn lemma_loaded_empty(edges: Seq<GraphEdge>)
    ensures
        loaded_edges(edges, Seq::<Path>::empty()) == edges,
{
    assert(loaded_edges(edges, Seq::<Path>::empty()) =~= edges);
}

/// Putting one more path's passengers on loaded edges loads them with that path too.
pub proof fn lemma_strain_loaded(edges: Seq<GraphEdge>, paths: Seq<Path>, p: Path)
    requires
        trip_loads_fit(edges, paths.push(p)),
    ensures
        add_load(loaded_edges(edges, paths), p.edge_seq(), p.spec_utilization() as int)
            == loaded_edges(edges, paths.push(p)),
        forall|k: int|
            0 <= k < p.edge_seq().len() && p.edge_seq()[k] < edges.len() ==> #[trigger] loaded_edges(edges, paths)[p.edge_seq()[k] as int].2.spec_utilization()
                + p.spec_utilization() <= u64::MAX,
{
    let before = loaded_edges(edges, paths);
    let after = loaded_edges(edges, paths.push(p));
    assert(paths.push(p).drop_last() == paths);
    assert forall|i: int| 0 <= i < edges.len() implies #[trigger] add_load(before, p.edge_seq(), p.spec_utilization() as int)[i] == after[i] by {
        lemma_load_nonneg(paths, i);
        if edges[i].2 is Trip {
            assert(edges[i].2.spec_utilization() + load_on(paths.push(p), i) <= u64::MAX);
        }
    }
    assert(add_load(before, p.edge_seq(), p.spec_utilization() as int) =~= after);
    assert forall|k: int|
        0 <= k < p.edge_seq().len() && p.edge_seq()[k] < edges.len() implies #[trigger] before[p.edge_seq()[k] as int].2.spec_utilization()
            + p.spec_utilization() <= u64::MAX by {
        let i = p.edge_seq()[k] as int;
        lemma_load_nonneg(paths, i);
        assert(path_has(p.edge_seq(), i));
        if edges[i].2 is Trip {
            assert(edges[i].2.spec_utilization() + load_on(paths.push(p), i) <= u64::MAX);
        }
    }
}

/// Taking one path's passengers off loaded edges leaves them loaded with the other paths.
pub proof fn lemma_relieve_loaded(edges: Seq<GraphEdge>, paths: Seq<Path>, g: int)
    requires
        0 <= g < paths.len(),
        trip_loads_fit(edges, paths),
    ensures
        add_load(loaded_edges(edges, paths), paths[g].edge_seq(), -(paths[g].spec_utilization() as int))
            == loaded_edges(edges, paths.remove(g)),
        trip_loads_fit(edges, paths.remove(g)),
        forall|k: int|
            0 <= k < paths[g].edge_seq().len() && paths[g].edge_seq()[k] < edges.len() ==> paths[g].spec_utilization()
                <= #[trigger] loaded_edges(edges, paths)[paths[g].edge_seq()[k] as int].2.spec_utilization()
                || !(loaded_edges(edges, paths)[paths[g].edge_seq()[k] as int].2 is Trip),
{
    let p = paths[g];
    let before = loaded_edges(edges, paths);
    let after = loaded_edges(edges, paths.remove(g));
    assert forall|i: int| 0 <= i < edges.len() implies #[trigger] add_load(before, p.edge_seq(), -(p.spec_utilization() as int))[i]
        == after[i] by {
        lemma_load_remove(paths, g, i);
        lemma_load_nonneg(paths.remove(g), i);
        if edges[i].2 is Trip {
            assert(edges[i].2.spec_utilization() + load_on(paths, i) <= u64::MAX);
        }
    }
    assert(add_load(before, p.edge_seq(), -(p.spec_utilization() as int)) =~= after);
    assert forall|i: int| 0 <= i < edges.len() && (#[trigger] edges[i]).2 is Trip implies edges[i].2.spec_utilization()
        + load_on(paths.remove(g), i) <= u64::MAX by {
        lemma_load_remove(paths, g, i);
    }
    assert forall|k: int|
        0 <= k < p.edge_seq().len() && p.edge_seq()[k] < edges.len() implies p.spec_utilization()
            <= #[trigger] before[p.edge_seq()[k] as int].2.spec_utilization() || !(before[p.edge_seq()[k] as int].2 is Trip) by {
        let i = p.edge_seq()[k] as int;
        lemma_load_remove(paths, g, i);
        lemma_load_nonneg(paths.remove(g), i);
        assert(path_has(p.edge_seq(), i));
        if edges[i].2 is Trip {
            assert(edges[i].2.spec_utilization() + load_on(paths, i) <= u64::MAX);
        }
    }
}

/// On unloaded edges, a trip carries exactly the passengers of the paths that take it.
pub proof fn lemma_unloaded_utilization(edges: Seq<GraphEdge>, paths: Seq<Path>, i: int)
    requires
        unloaded(edges),
        trip_loads_fit(edges, paths),
        0 <= i < edges.len(),
    ensures
        loaded_edges(edges, paths)[i].2.spec_utilization() == if edges[i].2 is Trip {
            load_on(paths, i)
        } else {
            0
        },
{
    lemma_load_nonneg(paths, i);
    if edges[i].2 is Trip {
        assert(edges[i].2.spec_utilization() + load_on(paths, i) <= u64::MAX);
    }
}

/// An edge with passengers from the paths is taken by one of them.
pub proof fn lemma_load_in_union(paths: Seq<Path>, i: int)
    requires
        load_on(paths, i) > 0,
    ensures
        path_union(paths).contains(i as usize),
    decreases paths.len(),
{
    if paths.len() > 0 {
        if load_on(paths.drop_last(), i) > 0 {
            lemma_load_in_union(paths.drop_last(), i);
        } else {
            assert(path_has(paths.last().edge_seq(), i));
            let k = choose|k: int| 0 <= k < paths.last().edge_seq().len() && paths.last().edge_seq()[k] as int == i;
            assert(paths.last().edge_seq().contains(i as usize));
        }
    }
}

/// The edges of the paths after one is removed, with that one's, are all the edges.
pub proof fn lemma_union_remove(paths: Seq<Path>, g: int)
    requires
        0 <= g < paths.len(),
    ensures
        path_union(paths) == path_union(paths.remove(g)).union(paths[g].edge_seq().to_set()),
    decreases paths.len(),
{
    if g < paths.len() - 1 {
        assert(paths.remove(g).drop_last() == paths.drop_last().remove(g));
        assert(paths.remove(g).last() == paths.last());
        lemma_union_remove(paths.drop_last(), g);
    } else {
        assert(paths.remove(g) == paths.drop_last());
    }
    assert(path_union(paths) =~= path_union(paths.remove(g)).union(paths[g].edge_seq().to_set()));
}

/// The cost of a set only counts its members below `n`.
pub proof fn lemma_strained_cost_same(edges: Seq<GraphEdge>, a: Set<usize>, b: Set<usize>, n: int)
    requires
        n <= edges.len(),
        forall|i: int|
            0 <= i < n && (a.contains(i as usize) != b.contains(i as usize)) ==> #[trigger] edges[i].2.spec_utilization_cost()
                == 0,
    ensures
        strained_cost_upto(edges, a, n) == strained_cost_upto(edges, b, n),
    decreases n,
{
    if n > 0 {
        lemma_strained_cost_same(edges, a, b, n - 1);
        assert(edges[n - 1].2.spec_utilization_cost() == 0 || a.contains((n - 1) as usize) == b.contains((n - 1) as usize));
    }
}

pub proof fn lemma_utilization_cost_nonneg(e: TimetableEdge)
    ensures
        e.spec_utilization_cost() >= 0,
{
    match e {
        TimetableEdge::Trip { capacity, utilization, .. } => {
            if utilization >= capacity {
                assert((utilization - capacity) * (utilization - capacity) >= 0) by (nonlinear_arith);
            }
        },
        _ => {},
    }
}

/// A smaller set costs no more.
pub proof fn lemma_strained_cost_subset(edges: Seq<GraphEdge>, a: Set<usize>, b: Set<usize>, n: int)
    requires
        n <= edges.len(),
        a.subset_of(b),
    ensures
        0 <= strained_cost_upto(edges, a, n) <= strained_cost_upto(edges, b, n),
    decreases n,
{
    if n > 0 {
        lemma_strained_cost_subset(edges, a, b, n - 1);
        lemma_utilization_cost_nonneg(edges[n - 1].2);
    }
}

/// Summing the costs of distinct edge indices in any order gives the cost of their set.
pub proof fn lemma_seq_cost(edges: Seq<GraphEdge>, s: Seq<usize>, n: int)
    requires
        s.no_duplicates(),
        0 <= n <= edges.len(),
        edges.len() <= usize::MAX,
        forall|k: int| 0 <= k < s.len() ==> #[trigger] s[k] < n,
    ensures
        seq_cost(edges, s) == strained_cost_upto(edges, s.to_set(), n),
    decreases n, s.len(),
{
    if n == 0 {
        if s.len() > 0 {
            assert(s[0] < n);
        }
    } else if s.contains((n - 1) as usize) {
        let k = choose|k: int| 0 <= k < s.len() && s[k] == (n - 1) as usize;
        let r = s.remove(k);
        lemma_seq_cost_remove(edges, s, k);
        assert forall|j: int| 0 <= j < r.len() implies #[trigger] r[j] < n - 1 by {
            if j < k {
                assert(r[j] == s[j]);
            } else {
                assert(r[j] == s[j + 1]);
            }
        }
        assert(r.no_duplicates()) by {
            assert forall|a: int, b: int| 0 <= a < r.len() && 0 <= b < r.len() && a != b implies r[a] != r[b] by {
                let ia = if a < k { a } else { a + 1 };
                let ib = if b < k { b } else { b + 1 };
                assert(r[a] == s[ia]);
                assert(r[b] == s[ib]);
            }
        }
        lemma_seq_cost(edges, r, n - 1);
        assert forall|i: int| 0 <= i < n - 1 implies #[trigger] r.to_set().contains(i as usize) == s.to_set().contains(i as usize) by {
            if s.contains(i as usize) {
                let q = choose|q: int| 0 <= q < s.len() && s[q] == i as usize;
                assert(q != k);
                if q < k {
                    assert(r[q] == s[q]);
                } else {
                    assert(r[q - 1] == s[q]);
                }
            }
            if r.contains(i as usize) {
                let q = choose|q: int| 0 <= q < r.len() && r[q] == i as usize;
                if q < k {
                    assert(s[q] == r[q]);
                } else {
                    assert(s[q + 1] == r[q]);
                }
            }
        }
        lemma_strained_cost_same(edges, r.to_set(), s.to_set(), n - 1);
        assert(s.to_set().contains((n - 1) as usize));
    } else {
        assert forall|j: int| 0 <= j < s.len() implies #[trigger] s[j] < n - 1 by {
            assert(s[j] != (n - 1) as usize);
        }
        lemma_seq_cost(edges, s, n - 1);
        assert(!s.to_set().contains((n - 1) as usize));
    }
}

/// Taking one index out of a sequence takes its cost out of the sum.
pub proof fn lemma_seq_cost_remove(edges: Seq<GraphEdge>, s: Seq<usize>, k: int)
    requires
        0 <= k < s.len(),
    ensures
        seq_cost(edges, s) == seq_cost(edges, s.remove(k)) + edges[s[k] as int].2.spec_utilization_cost(),
    decreases s.len(),
{
    if k < s.len() - 1 {
        assert(s.remove(k).drop_last() == s.drop_last().remove(k));
        assert(s.remove(k).last() == s.last());
        lemma_seq_cost_remove(edges, s.drop_last(), k);
    } else {
        assert(s.remove(k) == s.drop_last());
    }
}

/// The set of strained edges of a graph loaded with `paths`: only edges of those
/// paths, and every edge that carries passengers.
pub open spec fn strained_set_ok(edges: Seq<GraphEdge>, set: Set<usize>, paths: Seq<Path>) -> bool {
    &&& set.subset_of(path_union(paths))
    &&& strained_covers_load(edges, set)
}

/// An edge that none of the paths take carries none of their passengers.
pub proof fn lemma_load_outside_union(paths: Seq<Path>, i: int)
    requires
        !path_union(paths).contains(i as usize),
        0 <= i <= usize::MAX,
    ensures
        load_on(paths, i) == 0,
{
    lemma_load_nonneg(paths, i);
    if load_on(paths, i) > 0 {
        lemma_load_in_union(paths, i);
    }
}

/// Straining one more path keeps the strained set as it should be.
pub proof fn lemma_strained_set_strain(edges: Seq<GraphEdge>, paths: Seq<Path>, p: Path, set: Set<usize>)
    requires
        strained_set_ok(loaded_edges(edges, paths), set, paths),
        trip_loads_fit(edges, paths.push(p)),
    ensures
        strained_set_ok(
            loaded_edges(edges, paths.push(p)),
            set.union(p.edge_seq().to_set()),
            paths.push(p),
        ),
{
    let after = loaded_edges(edges, paths.push(p));
    let before = loaded_edges(edges, paths);
    assert(paths.push(p).drop_last() == paths);
    assert forall|i: int| 0 <= i < after.len() && (#[trigger] after[i]).2.spec_utilization() > 0 implies set.union(
        p.edge_seq().to_set(),
    ).contains(i as usize) by {
        lemma_load_nonneg(paths, i);
        if edges[i].2 is Trip {
            assert(edges[i].2.spec_utilization() + load_on(paths.push(p), i) <= u64::MAX);
        }
        if before[i].2.spec_utilization() == 0 {
            assert(path_has(p.edge_seq(), i));
            let k = choose|k: int| 0 <= k < p.edge_seq().len() && p.edge_seq()[k] as int == i;
            assert(p.edge_seq().contains(i as usize));
        }
    }
}

/// Relieving one of the paths, with the edges left without passengers taken out of
/// the strained set, keeps the strained set as it should be (on unloaded edges).
pub proof fn lemma_strained_set_relieve(edges: Seq<GraphEdge>, paths: Seq<Path>, g: int, set: Set<usize>)
    requires
        unloaded(edges),
        edges.len() <= usize::MAX,
        0 <= g < paths.len(),
        trip_loads_fit(edges, paths),
        forall|e: usize| path_union(paths).contains(e) ==> e < edges.len(),
        strained_set_ok(loaded_edges(edges, paths), set, paths),
    ensures
        strained_set_ok(
            loaded_edges(edges, paths.remove(g)),
            set.difference(
                paths[g].edge_seq().to_set().filter(
                    |e: usize| loaded_edges(edges, paths.remove(g))[e as int].2.spec_utilization() == 0,
                ),
            ),
            paths.remove(g),
        ),
{
    let after = loaded_edges(edges, paths.remove(g));
    let before = loaded_edges(edges, paths);
    let zero = paths[g].edge_seq().to_set().filter(|e: usize| after[e as int].2.spec_utilization() == 0);
    let set2 = set.difference(zero);
    lemma_relieve_loaded(edges, paths, g);
    lemma_union_remove(paths, g);
    assert forall|e: usize| set2.contains(e) implies path_union(paths.remove(g)).contains(e) by {
        if !path_union(paths.remove(g)).contains(e) {
            assert(path_union(paths).contains(e));
            lemma_load_outside_union(paths.remove(g), e as int);
            lemma_unloaded_utilization(edges, paths.remove(g), e as int);
            assert(zero.contains(e));
        }
    }
    assert forall|i: int| 0 <= i < after.len() && (#[trigger] after[i]).2.spec_utilization() > 0 implies set2.contains(i as usize) by {
        lemma_load_remove(paths, g, i);
        lemma_load_nonneg(paths.remove(g), i);
        lemma_unloaded_utilization(edges, paths.remove(g), i);
        lemma_unloaded_utilization(edges, paths, i);
        assert(before[i].2.spec_utilization() > 0);
    }
}

/// On unloaded edges, the strained set costs as much as all the edges of the paths.
pub proof fn lemma_strained_set_cost(edges: Seq<GraphEdge>, paths: Seq<Path>, set: Set<usize>)
    requires
        edges.len() <= usize::MAX,
        strained_set_ok(loaded_edges(edges, paths), set, paths),
    ensures
        strained_cost(loaded_edges(edges, paths), set) == strained_cost(loaded_edges(edges, paths), path_union(paths)),
{
    let loaded = loaded_edges(edges, paths);
    assert forall|i: int|
        0 <= i < loaded.len() && (set.contains(i as usize) != path_union(paths).contains(i as usize)) implies #[trigger] loaded[i].2.spec_utilization_cost()
            == 0 by {
        assert(!set.contains(i as usize));
        assert(loaded[i].2.spec_utilization() == 0);
        match loaded[i].2 {
            TimetableEdge::Trip { capacity, utilization, .. } => {
                assert(utilization == 0);
                if utilization >= capacity {
                    assert((utilization - capacity) * (utilization - capacity) == 0) by (nonlinear_arith)
                        requires
                            utilization == 0,
                            capacity == 0,
                    ;
                }
            },
            _ => {},
        }
    }
    lemma_strained_cost_same(loaded, set, path_union(paths), loaded.len() as int);
}

/// The edges of a selection with one path replaced.
pub proof fn lemma_union_update(paths: Seq<Path>, g: int, p: Path)
    requires
        0 <= g < paths.len(),
    ensures
        path_union(paths.update(g, p)) == path_union(paths.remove(g).push(p)),
{
    lemma_union_remove(paths.update(g, p), g);
    assert(paths.update(g, p).remove(g) == paths.remove(g));
    assert(paths.remove(g).push(p).drop_last() == paths.remove(g));
}

/// On unloaded edges, the set of all edges of the paths is as a strained set should be.
pub proof fn lemma_strained_set_initial(edges: Seq<GraphEdge>, paths: Seq<Path>)
    requires
        unloaded(edges),
        edges.len() <= usize::MAX,
        trip_loads_fit(edges, paths),
    ensures
        strained_set_ok(loaded_edges(edges, paths), path_union(paths), paths),
{
    let loaded = loaded_edges(edges, paths);
    assert forall|i: int| 0 <= i < loaded.len() && (#[trigger] loaded[i]).2.spec_utilization() > 0 implies path_union(
        paths,
    ).contains(i as usize) by {
        lemma_unloaded_utilization(edges, paths, i);
        lemma_load_in_union(paths, i);
    }
}

/// One edge costs no more than all edges.
pub proof fn lemma_edge_cost_bounded(edges: Seq<GraphEdge>, e: usize)
    requires
        e < edges.len(),
        edges.len() <= usize::MAX,
    ensures
        0 <= edges[e as int].2.spec_utilization_cost() <= total_overload(edges),
{
    let s = seq![e];
    assert(s.drop_last() =~= Seq::<usize>::empty());
    assert(s.last() == e);
    assert(seq_cost(edges, s.drop_last()) == 0);
    assert(seq_cost(edges, s) == edges[e as int].2.spec_utilization_cost());
    lemma_seq_cost(edges, s, edges.len() as int);
    lemma_strained_cost_subset(edges, s.to_set(), Set::new(|i: usize| true), edges.len() as int);
}

/// On edges without passengers, the overload of the edges taken by a selection is
/// the overload of the whole loaded graph.
pub proof fn lemma_selection_overload_is_total(edges: Seq<GraphEdge>, paths: Seq<Path>)
    requires
        unloaded(edges),
        edges.len() <= usize::MAX,
        trip_loads_fit(edges, paths),
    ensures
        strained_cost(loaded_edges(edges, paths), path_union(paths)) == total_overload(loaded_edges(edges, paths)),
{
    let loaded = loaded_edges(edges, paths);
    let all = Set::new(|i: usize| true);
    assert forall|i: int|
        0 <= i < loaded.len() && (path_union(paths).contains(i as usize) != all.contains(i as usize)) implies #[trigger] loaded[i].2.spec_utilization_cost()
            == 0 by {
        if load_on(paths, i) > 0 {
            lemma_load_in_union(paths, i);
        }
        lemma_load_nonneg(paths, i);
        lemma_unloaded_utilization(edges, paths, i);
        match loaded[i].2 {
            TimetableEdge::Trip { capacity, utilization, .. } => {
                assert(utilization == 0);
                if utilization >= capacity {
                    assert((utilization - capacity) * (utilization - capacity) == 0) by (nonlinear_arith)
                        requires
                            utilization == 0,
                            capacity == 0,
                    ;
                }
            },
            _ => {},
        }
    }
    lemma_strained_cost_same(loaded, path_union(paths), all, loaded.len() as int);
}

} // verus!
