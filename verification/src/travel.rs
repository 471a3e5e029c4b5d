//! Paths written as travel plans: the stations, times and kinds of their nodes and
//! the trips and walks between them.

use vstd::prelude::*;
use vstd::string::StringExecFns;
use crate::graph::{graph_edge, graph_edge_endpoints, graph_edges, graph_node, graph_nodes, GraphEdge, TimetableGraph};
use crate::graph_weight::{TimetableEdge, TimetableNode};
use crate::index_set::{index_set_get, index_set_items, index_set_len};
use crate::integrity::{edge_ok, time_of, timetable_integrity};
use crate::path::{edge_duration, edges_exist, lemma_path_sum_prefix_bounded, path_duration, Path};
use crate::station::node_time;

verus! {

/// the character of the decimal digit `d`
pub open spec fn digit_char(d: int) -> char {
    ('0' as int + d) as char
}

/// the decimal digits of `n`
pub open spec fn decimal(n: nat) -> Seq<char>
    decreases n,
{
    if n < 10 {
        seq![digit_char(n as int)]
    } else {
        decimal(n / 10).push(digit_char((n % 10) as int))
    }
}

/// the text of the digit `d`
fn digit_str(d: u64) -> (s: &'static str)
    requires
        d < 10,
    ensures
        s@ == seq![digit_char(d as int)],
{
    proof {
        reveal_strlit("0");
        reveal_strlit("1");
        reveal_strlit("2");
        reveal_strlit("3");
        reveal_strlit("4");
        reveal_strlit("5");
        reveal_strlit("6");
        reveal_strlit("7");
        reveal_strlit("8");
        reveal_strlit("9");
    }
    match d {
        0 => "0",
        1 => "1",
        2 => "2",
        3 => "3",
        4 => "4",
        5 => "5",
        6 => "6",
        7 => "7",
        8 => "8",
        _ => "9",
    }
}

/// `n` in decimal, as `u64::to_string` writes it.
pub fn decimal_string(n: u64) -> (s: String)
    ensures
        s@ == decimal(n as nat),
    decreases n,
{
    if n < 10 {
        let mut s = String::new();
        s.append(digit_str(n));
        proof {
            assert(s@ =~= seq![digit_char(n as int)]);
        }
        s
    } else {
        let mut s = decimal_string(n / 10);
        s.append(digit_str(n % 10));
        proof {
            assert(s@ =~= decimal((n / 10) as nat).push(digit_char((n % 10) as int)));
        }
        s
    }
}

/// the name of a node's kind
pub open spec fn node_kind(n: TimetableNode) -> Seq<char> {
    match n {
        TimetableNode::Departure { .. } => "Departure"@,
        TimetableNode::Arrival { .. } => "Arrival"@,
        TimetableNode::Transfer { .. } => "Transfer"@,
        TimetableNode::MainArrival { .. } => "MainArrival"@,
    }
}

/// the name of an edge's kind
pub open spec fn edge_kind(e: TimetableEdge) -> Seq<char> {
    match e {
        TimetableEdge::Trip { .. } => "Trip"@,
        TimetableEdge::WaitInTrain { .. } => "WaitInTrain"@,
        TimetableEdge::Board => "Board"@,
        TimetableEdge::Alight { .. } => "Alight"@,
        TimetableEdge::WaitAtStation { .. } => "WaitAtStation"@,
        TimetableEdge::Walk { .. } => "Walk"@,
        TimetableEdge::MainArrivalRelation => "MainArrivalRelation"@,
    }
}

/// an entry of a travel plan: a place (a station's name, a trip's id or nothing), a
/// time or duration, and a kind
pub type PlanEntry = (Seq<char>, u64, Seq<char>);

/// the plan entry of a node: its station, time and kind
pub open spec fn node_entry(n: TimetableNode) -> PlanEntry {
    (n.spec_station_name()@, time_of(n) as u64, node_kind(n))
}

/// `n` is an arrival or a departure
pub open spec fn is_stop(n: TimetableNode) -> bool {
    n is Arrival || n is Departure
}

/// The plan after one more edge, from the entries so far, the minutes spent in
/// the current trip and that trip: trip and wait-in-train edges add to the time in
/// the trip; any other edge first ends the current trip (its id, its minutes, and
/// the node where it is left), then adds a walk's minutes, then the node it reaches
/// if that is an arrival or departure.
pub open spec fn plan_step(graph: TimetableGraph, state: (Seq<PlanEntry>, int, u64), e: usize) -> (Seq<PlanEntry>, int, u64) {
    let (entries, trip_duration, current_trip) = state;
    let (a, b, w) = graph_edges(graph)[e as int];
    let na = graph_nodes(graph)[a as int];
    let nb = graph_nodes(graph)[b as int];
    if w is Trip || w is WaitInTrain {
        (entries, trip_duration + w.spec_duration(), na.spec_trip_id().unwrap())
    } else {
        let ended = if trip_duration != 0 {
            entries.push((decimal(current_trip as nat), trip_duration as u64, "Trip"@)).push(node_entry(na))
        } else {
            entries
        };
        let walked = if w is Walk {
            ended.push((Seq::<char>::empty(), (time_of(nb) - time_of(na)) as u64, "Walk"@))
        } else {
            ended
        };
        let reached = if is_stop(nb) {
            walked.push(node_entry(nb))
        } else {
            walked
        };
        (reached, 0, if trip_duration != 0 { 0 } else { current_trip })
    }
}

/// the plan of the first `k` edges of `path`, which starts with its first node if
/// that is an arrival or departure
pub open spec fn plan_upto(graph: TimetableGraph, path: Seq<usize>, k: int) -> (Seq<PlanEntry>, int, u64)
    decreases k,
{
    if k <= 0 {
        let first = graph_nodes(graph)[graph_edges(graph)[path[0] as int].0 as int];
        (if is_stop(first) {
            seq![node_entry(first)]
        } else {
            Seq::empty()
        }, 0, 0)
    } else {
        plan_step(graph, plan_upto(graph, path, k - 1), path[k - 1])
    }
}

/// the travel plan of `path`: a trip still going on at its end is written with the
/// node where the path ends
pub open spec fn travel_plan(graph: TimetableGraph, path: Seq<usize>) -> Seq<PlanEntry> {
    let (entries, trip_duration, current_trip) = plan_upto(graph, path, path.len() as int);
    if trip_duration != 0 {
        let last = graph_nodes(graph)[graph_edges(graph)[path.last() as int].1 as int];
        entries.push((decimal(current_trip as nat), trip_duration as u64, "Trip"@)).push(node_entry(last))
    } else {
        entries
    }
}

/// the entries written as `place$time$kind`, joined by `->`
pub open spec fn plan_text(plan: Seq<PlanEntry>) -> Seq<char>
    decreases plan.len(),
{
    if plan.len() == 0 {
        Seq::empty()
    } else {
        let (place, time, kind) = plan.last();
        let entry = place + "$"@ + decimal(time as nat) + "$"@ + kind;
        if plan.len() == 1 {
            entry
        } else {
            plan_text(plan.drop_last()) + "->"@ + entry
        }
    }
}

/// the printed line of a travel plan's entry: an arrival or departure as
/// `kind at station place, time=time ->`, any other entry as
/// `kind with duration time ->`, with ` in trip place` before the arrow when it has
/// a place
pub open spec fn display_line(entry: PlanEntry) -> Seq<char> {
    let (place, time, kind) = entry;
    if kind == "Arrival"@ || kind == "Departure"@ {
        kind + " at station "@ + place + ", time="@ + decimal(time as nat) + " ->"@
    } else {
        kind + " with duration "@ + decimal(time as nat) + (if place.len() > 0 {
            " in trip "@ + place
        } else {
            Seq::empty()
        }) + " ->"@
    }
}

/// for each trip or walk edge of `path`: a line with the station it leaves, its
/// kind and the station it reaches
pub open spec fn readable_text(graph: TimetableGraph, path: Seq<usize>) -> Seq<char>
    decreases path.len(),
{
    if path.len() == 0 {
        Seq::empty()
    } else {
        let rest = readable_text(graph, path.drop_last());
        let (a, b, w) = graph_edges(graph)[path.last() as int];
        if w is Trip || w is Walk {
            rest + "\n"@ + graph_nodes(graph)[a as int].spec_station_name()@ + " -> "@ + edge_kind(w) + " -> "@
                + graph_nodes(graph)[b as int].spec_station_name()@
        } else {
            rest
        }
    }
}

/// how often `c` occurs in `s`
pub open spec fn occurrences(s: Seq<char>, c: char) -> nat
    decreases s.len(),
{
    if s.len() == 0 {
        0
    } else {
        occurrences(s.drop_last(), c) + if s.last() == c {
            1nat
        } else {
            0nat
        }
    }
}

/// how many of the edges `path` (indices into `edges`) are trips or walks
pub open spec fn trips_and_walks(edges: Seq<GraphEdge>, path: Seq<usize>) -> nat
    decreases path.len(),
{
    if path.len() == 0 {
        0
    } else {
        let w = edges[path.last() as int].2;
        trips_and_walks(edges, path.drop_last()) + if w is Trip || w is Walk {
            1nat
        } else {
            0nat
        }
    }
}

/// Occurrences add up over a concatenation.
proof fn lemma_occurrences_concat(a: Seq<char>, b: Seq<char>, c: char)
    ensures
        occurrences(a + b, c) == occurrences(a, c) + occurrences(b, c),
    decreases b.len(),
{
    if b.len() > 0 {
        assert((a + b).drop_last() =~= a + b.drop_last());
        assert((a + b).last() == b.last());
        lemma_occurrences_concat(a, b.drop_last(), c);
    } else {
        assert(a + b =~= a);
    }
}

/// A sequence without `c` has no occurrence of it.
proof fn lemma_occurrences_none(s: Seq<char>, c: char)
    requires
        !s.contains(c),
    ensures
        occurrences(s, c) == 0,
    decreases s.len(),
{
    if s.len() > 0 {
        assert(!s.drop_last().contains(c)) by {
            if s.drop_last().contains(c) {
                let i = choose|i: int| 0 <= i < s.drop_last().len() && s.drop_last()[i] == c;
                assert(s[i] == c);
            }
        }
        assert(s[s.len() - 1] != c);
        lemma_occurrences_none(s.drop_last(), c);
    }
}

/// One line per trip or walk: when no station's name holds a line break, the
/// human-readable text of `path` has exactly as many lines (each begun by a line
/// break) as `path` has trip and walk edges; no other edge gives a line.
pub proof fn lemma_readable_text_lines(graph: TimetableGraph, path: Seq<usize>)
    requires
        edges_exist(graph_edges(graph), path),
        forall|i: int| 0 <= i < graph_edges(graph).len() ==> {
            let (a, b, w) = #[trigger] graph_edges(graph)[i];
            &&& a < graph_nodes(graph).len()
            &&& b < graph_nodes(graph).len()
        },
        forall|n: int| 0 <= n < graph_nodes(graph).len() ==> !(#[trigger] graph_nodes(graph)[n]).spec_station_name()@.contains('\n'),
    ensures
        occurrences(readable_text(graph, path), '\n') == trips_and_walks(graph_edges(graph), path),
    decreases path.len(),
{
    if path.len() > 0 {
        let rest = path.drop_last();
        assert(edges_exist(graph_edges(graph), rest)) by {
            assert forall|i: int| 0 <= i < rest.len() implies #[trigger] rest[i] < graph_edges(graph).len() by {
                assert(rest[i] == path[i]);
            }
        }
        lemma_readable_text_lines(graph, rest);
        assert(path[path.len() - 1] < graph_edges(graph).len());
        let (a, b, w) = graph_edges(graph)[path.last() as int];
        if w is Trip || w is Walk {
            let an = graph_nodes(graph)[a as int].spec_station_name()@;
            let bn = graph_nodes(graph)[b as int].spec_station_name()@;
            reveal_strlit("\n");
            reveal_strlit(" -> ");
            reveal_strlit("Trip");
            reveal_strlit("Walk");
            let arrow = " -> "@;
            let kind = edge_kind(w);
            assert(!arrow.contains('\n')) by {
                if arrow.contains('\n') {
                    let i = choose|i: int| 0 <= i < arrow.len() && arrow[i] == '\n';
                }
            }
            assert(!kind.contains('\n')) by {
                if kind.contains('\n') {
                    let i = choose|i: int| 0 <= i < kind.len() && kind[i] == '\n';
                }
            }
            assert(!an.contains('\n'));
            assert(!bn.contains('\n'));
            lemma_occurrences_none(arrow, '\n');
            lemma_occurrences_none(kind, '\n');
            lemma_occurrences_none(an, '\n');
            lemma_occurrences_none(bn, '\n');
            let nl = "\n"@;
            assert(nl.len() == 1 && nl[0] == '\n');
            assert(nl.drop_last() =~= Seq::<char>::empty());
            assert(occurrences(nl.drop_last(), '\n') == 0);
            assert(nl.last() == '\n');
            assert(occurrences(nl, '\n') == 1);
            let r = readable_text(graph, rest);
            lemma_occurrences_concat(r, nl, '\n');
            lemma_occurrences_concat(r + nl, an, '\n');
            lemma_occurrences_concat(r + nl + an, arrow, '\n');
            lemma_occurrences_concat(r + nl + an + arrow, kind, '\n');
            lemma_occurrences_concat(r + nl + an + arrow + kind, arrow, '\n');
            lemma_occurrences_concat(r + nl + an + arrow + kind + arrow, bn, '\n');
        }
    }
}

/// the minutes of the current trip are spent on the edges so far
proof fn lemma_plan_duration(graph: TimetableGraph, path: Seq<usize>, k: int)
    requires
        0 <= k <= path.len(),
        path.len() > 0,
    ensures
        0 <= plan_upto(graph, path, k).1 <= path_duration(graph_edges(graph), path.take(k)),
    decreases k,
{
    if k > 0 {
        lemma_plan_duration(graph, path, k - 1);
        assert(path.take(k).drop_last() == path.take(k - 1));
        assert(path.take(k).last() == path[k - 1]);
    }
}

impl Path {
    /// The path as a travel plan: its first node if it is an arrival or departure;
    /// then, each time the path leaves a trip, the trip's id, its minutes and the
    /// node where it is left; for each walk, its minutes; and each arrival or
    /// departure reached by an edge other than a trip or a wait in the train; a trip
    /// still going on at the end is written with the path's last node.
    pub fn to_location_time_and_type(&self, graph: &TimetableGraph) -> (travel: Vec<(String, u64, String)>)
        requires
            self.edge_seq().len() > 0,
            edges_exist(graph_edges(*graph), self.edge_seq()),
            timetable_integrity(*graph),
            path_duration(graph_edges(*graph), self.edge_seq()) <= u64::MAX,
        ensures
            travel@.len() == travel_plan(*graph, self.edge_seq()).len(),
            forall|i: int|
                0 <= i < travel@.len() ==> (#[trigger] travel@[i].0@, travel@[i].1, travel@[i].2@) == travel_plan(
                    *graph,
                    self.edge_seq(),
                )[i],
    {
        let ghost path = self.edge_seq();
        let ghost edges = graph_edges(*graph);
        let ghost nodes = graph_nodes(*graph);
        let set = self.edges();
        let n = index_set_len(set);
        let mut travel: Vec<(String, u64, String)> = Vec::new();
        let first_edge = index_set_get(set, 0);
        let (first, _) = graph_edge_endpoints(graph, first_edge);
        proof {
            assert(path[0] < edges.len());
            assert(edge_ok(nodes, edges[path[0] as int]));
        }
        let first_node = graph_node(graph, first);
        if first_node.is_arrival() || first_node.is_departure() {
            travel.push((first_node.station_name(), node_time(graph, first), first_node.kind_as_str().to_owned()));
        }
        proof {
            lemma_path_sum_prefix_bounded(edges, path, |e: TimetableEdge| edge_duration(e));
        }
        let mut trip_duration: u64 = 0;
        let mut current_trip: u64 = 0;
        let mut k: usize = 0;
        while k < n
            invariant
                n == path.len(),
                k <= n,
                path == self.edge_seq(),
                index_set_items(*set) == path,
                edges == graph_edges(*graph),
                nodes == graph_nodes(*graph),
                edges_exist(edges, path),
                timetable_integrity(*graph),
                path.len() > 0,
                forall|q: int| 0 <= q <= path.len() ==> path_duration(edges, #[trigger] path.take(q)) <= path_duration(edges, path),
                path_duration(edges, path) <= u64::MAX,
                trip_duration == plan_upto(*graph, path, k as int).1,
                current_trip == plan_upto(*graph, path, k as int).2,
                travel@.len() == plan_upto(*graph, path, k as int).0.len(),
                forall|i: int|
                    0 <= i < travel@.len() ==> (#[trigger] travel@[i].0@, travel@[i].1, travel@[i].2@) == plan_upto(
                        *graph,
                        path,
                        k as int,
                    ).0[i],
            decreases n - k,
        {
            let e = index_set_get(set, k);
            let weight = graph_edge(graph, e);
            let (a, b) = graph_edge_endpoints(graph, e);
            proof {
                assert(path[k as int] == e);
                assert(edge_ok(nodes, edges[e as int]));
                lemma_plan_duration(*graph, path, k as int);
                assert(path.take(k + 1).drop_last() == path.take(k as int));
                assert(path.take(k + 1).last() == e);
            }
            let node_a = graph_node(graph, a);
            let node_b = graph_node(graph, b);
            let ghost before = travel@;
            if weight.is_trip() || weight.is_wait_in_train() {
                // still in the trip
                trip_duration = trip_duration + weight.duration();
                current_trip = match node_a.trip_id() {
                    Some(t) => t,
                    None => 0,
                };
            } else {
                if trip_duration != 0 {
                    // the trip ends here
                    let mut trip_text = decimal_string(current_trip);
                    travel.push((trip_text, trip_duration, "Trip".to_owned()));
                    travel.push((node_a.station_name(), node_time(graph, a), node_a.kind_as_str().to_owned()));
                    trip_duration = 0;
                    current_trip = 0;
                }
                let ghost ended = travel@;
                if weight.is_walk() {
                    travel.push((String::new(), node_time(graph, b) - node_time(graph, a), weight.kind_as_str().to_owned()));
                }
                let ghost walked = travel@;
                if node_b.is_arrival() || node_b.is_departure() {
                    travel.push((node_b.station_name(), node_time(graph, b), node_b.kind_as_str().to_owned()));
                }
                proof {
                    let prev = plan_upto(*graph, path, k as int);
                    let ended_spec = if prev.1 != 0 {
                        prev.0.push((decimal(prev.2 as nat), prev.1 as u64, "Trip"@)).push(node_entry(nodes[a as int]))
                    } else {
                        prev.0
                    };
                    assert(ended.len() == ended_spec.len());
                    assert forall|i: int| 0 <= i < ended.len() implies (#[trigger] ended[i].0@, ended[i].1, ended[i].2@) == ended_spec[i] by {
                        if i < before.len() {
                            assert(ended[i] == before[i]);
                        }
                    }
                    let walked_spec = if weight is Walk {
                        ended_spec.push((Seq::<char>::empty(), (time_of(nodes[b as int]) - time_of(nodes[a as int])) as u64, "Walk"@))
                    } else {
                        ended_spec
                    };
                    assert(walked.len() == walked_spec.len());
                    assert forall|i: int| 0 <= i < walked.len() implies (#[trigger] walked[i].0@, walked[i].1, walked[i].2@) == walked_spec[i] by {
                        if i < ended.len() {
                            assert(walked[i] == ended[i]);
                        }
                    }
                    assert forall|i: int| 0 <= i < travel@.len() implies (#[trigger] travel@[i].0@, travel@[i].1, travel@[i].2@) == plan_upto(
                        *graph,
                        path,
                        k + 1,
                    ).0[i] by {
                        if i < walked.len() {
                            assert(travel@[i] == walked[i]);
                        }
                    }
                }
            }
            k = k + 1;
        }
        if trip_duration != 0 {
            // the path ends in the trip: write the trip and the node where the path ends
            let last_edge = index_set_get(set, n - 1);
            let (_, last) = graph_edge_endpoints(graph, last_edge);
            proof {
                assert(path.last() == last_edge);
                assert(edge_ok(nodes, edges[last_edge as int]));
            }
            let last_node = graph_node(graph, last);
            let ghost before = travel@;
            let trip_text = decimal_string(current_trip);
            travel.push((trip_text, trip_duration, "Trip".to_owned()));
            travel.push((last_node.station_name(), node_time(graph, last), last_node.kind_as_str().to_owned()));
            proof {
                assert forall|i: int| 0 <= i < travel@.len() implies (#[trigger] travel@[i].0@, travel@[i].1, travel@[i].2@)
                    == travel_plan(*graph, path)[i] by {
                    if i < before.len() {
                        assert(travel@[i] == before[i]);
                    }
                }
            }
        }
        travel
    }

    /// The travel plan as text: its entries as `place$time$kind`, joined by `->`.
    pub fn to_string(&self, graph: &TimetableGraph) -> (text: String)
        requires
            self.edge_seq().len() > 0,
            edges_exist(graph_edges(*graph), self.edge_seq()),
            timetable_integrity(*graph),
            path_duration(graph_edges(*graph), self.edge_seq()) <= u64::MAX,
        ensures
            text@ == plan_text(travel_plan(*graph, self.edge_seq())),
    {
        let travel = self.to_location_time_and_type(graph);
        let ghost plan = travel_plan(*graph, self.edge_seq());
        let mut path_string = String::new();
        let mut i: usize = 0;
        while i < travel.len()
            invariant
                i <= travel@.len(),
                travel@.len() == plan.len(),
                forall|q: int| 0 <= q < travel@.len() ==> (#[trigger] travel@[q].0@, travel@[q].1, travel@[q].2@) == plan[q],
                path_string@ == plan_text(plan.take(i as int)),
            decreases travel@.len() - i,
        {
            let (location, time, kind) = &travel[i];
            if i > 0 {
                path_string.append("->");
            }
            path_string.append(location.as_str());
            path_string.append("$");
            let time_text = decimal_string(*time);
            path_string.append(time_text.as_str());
            path_string.append("$");
            path_string.append(kind.as_str());
            proof {
                assert(plan.take(i + 1).drop_last() == plan.take(i as int));
                assert(plan.take(i + 1).last() == plan[i as int]);
                assert(travel@[i as int].0@ == plan[i as int].0);
                if i == 0 {
                    assert(plan.take(0) =~= Seq::<PlanEntry>::empty());
                }
                assert(path_string@ =~= plan_text(plan.take(i + 1)));
            }
            i = i + 1;
        }
        proof {
            assert(plan.take(plan.len() as int) == plan);
        }
        path_string
    }

    /// The travel plan as printed lines, one per entry (see `display_line`).
    pub fn display_lines(&self, graph: &TimetableGraph) -> (lines: Vec<String>)
        requires
            self.edge_seq().len() > 0,
            edges_exist(graph_edges(*graph), self.edge_seq()),
            timetable_integrity(*graph),
            path_duration(graph_edges(*graph), self.edge_seq()) <= u64::MAX,
        ensures
            lines@.len() == travel_plan(*graph, self.edge_seq()).len(),
            forall|i: int|
                0 <= i < lines@.len() ==> (#[trigger] lines@[i])@ == display_line(travel_plan(*graph, self.edge_seq())[i]),
    {
        let travel = self.to_location_time_and_type(graph);
        let ghost plan = travel_plan(*graph, self.edge_seq());
        let arrival_kind = "Arrival".to_owned();
        let departure_kind = "Departure".to_owned();
        let mut lines: Vec<String> = Vec::new();
        let mut i: usize = 0;
        while i < travel.len()
            invariant
                i <= travel@.len(),
                travel@.len() == plan.len(),
                forall|q: int| 0 <= q < travel@.len() ==> (#[trigger] travel@[q].0@, travel@[q].1, travel@[q].2@) == plan[q],
                arrival_kind@ == "Arrival"@,
                departure_kind@ == "Departure"@,
                lines@.len() == i,
                forall|q: int| 0 <= q < i ==> (#[trigger] lines@[q])@ == display_line(plan[q]),
            decreases travel@.len() - i,
        {
            let (location, time, kind) = &travel[i];
            proof {
                assert((travel@[i as int].0@, travel@[i as int].1, travel@[i as int].2@) == plan[i as int]);
            }
            let mut line = String::new();
            line.append(kind.as_str());
            let time_text = decimal_string(*time);
            if *kind == arrival_kind || *kind == departure_kind {
                line.append(" at station ");
                line.append(location.as_str());
                line.append(", time=");
                line.append(time_text.as_str());
            } else {
                line.append(" with duration ");
                line.append(time_text.as_str());
                if !location.as_str().is_empty() {
                    line.append(" in trip ");
                    line.append(location.as_str());
                }
            }
            line.append(" ->");
            proof {
                assert(line@ =~= display_line(plan[i as int]));
            }
            lines.push(line);
            i = i + 1;
        }
        lines
    }

    /// The trips and walks of the path, a line each: `from -> kind -> to` with the
    /// stations' names.
    pub fn to_human_readable_string(&self, graph: &TimetableGraph) -> (text: String)
        requires
            edges_exist(graph_edges(*graph), self.edge_seq()),
            forall|i: int| 0 <= i < graph_edges(*graph).len() ==> {
                let (a, b, w) = #[trigger] graph_edges(*graph)[i];
                &&& a < graph_nodes(*graph).len()
                &&& b < graph_nodes(*graph).len()
            },
        ensures
            text@ == readable_text(*graph, self.edge_seq()),
    {
        let ghost path = self.edge_seq();
        let ghost edges = graph_edges(*graph);
        let set = self.edges();
        let n = index_set_len(set);
        let mut result = String::new();
        let mut k: usize = 0;
        while k < n
            invariant
                n == path.len(),
                k <= n,
                path == self.edge_seq(),
                index_set_items(*set) == path,
                edges == graph_edges(*graph),
                edges_exist(edges, path),
                forall|i: int| 0 <= i < edges.len() ==> {
                    let (a, b, w) = #[trigger] edges[i];
                    &&& a < graph_nodes(*graph).len()
                    &&& b < graph_nodes(*graph).len()
                },
                result@ == readable_text(*graph, path.take(k as int)),
            decreases n - k,
        {
            let e = index_set_get(set, k);
            let weight = graph_edge(graph, e);
            proof {
                assert(path[k as int] == e);
                assert(path.take(k + 1).drop_last() == path.take(k as int));
                assert(path.take(k + 1).last() == e);
                let q: int = e as int;
                assert(edges[q].0 < graph_nodes(*graph).len());
            }
            if weight.is_trip() || weight.is_walk() {
                let (a, b) = graph_edge_endpoints(graph, e);
                let source_name = graph_node(graph, a).station_name();
                let target_name = graph_node(graph, b).station_name();
                result.append("\n");
                result.append(source_name.as_str());
                result.append(" -> ");
                result.append(weight.kind_as_str());
                result.append(" -> ");
                result.append(target_name.as_str());
                proof {
                    assert(result@ =~= readable_text(*graph, path.take(k + 1)));
                }
            }
            k = k + 1;
        }
        proof {
            assert(path.take(n as int) == path);
        }
        result
    }
}


/// the time spent waiting at stations along the edges `path` of `edges`: the durations
/// of its wait-at-station and alight edges
pub open spec fn waiting_time(edges: Seq<GraphEdge>, path: Seq<usize>) -> int
    decreases path.len(),
{
    if path.len() == 0 {
        0
    } else {
        let w = edges[path.last() as int].2;
        waiting_time(edges, path.drop_last()) + if w is WaitAtStation || w is Alight {
            w.spec_duration() as int
        } else {
            0
        }
    }
}

/// the time spent in trains along the edges `path` of `edges`: the durations of its
/// trip and wait-in-train edges
pub open spec fn in_trip_time(edges: Seq<GraphEdge>, path: Seq<usize>) -> int
    decreases path.len(),
{
    if path.len() == 0 {
        0
    } else {
        let w = edges[path.last() as int].2;
        in_trip_time(edges, path.drop_last()) + if w is Trip || w is WaitInTrain {
            w.spec_duration() as int
        } else {
            0
        }
    }
}

/// the number of walk edges among the edges `path` of `edges`
pub open spec fn walk_count(edges: Seq<GraphEdge>, path: Seq<usize>) -> int
    decreases path.len(),
{
    if path.len() == 0 {
        0
    } else {
        walk_count(edges, path.drop_last()) + if edges[path.last() as int].2 is Walk {
            1int
        } else {
            0int
        }
    }
}

impl Path {
    /// The time the path spends waiting at stations, the time it spends in trains and
    /// its number of walks; none when one of the times does not fit a `u64`.
    pub fn time_statistics(&self, graph: &TimetableGraph) -> (stats: Option<(u64, u64, u64)>)
        requires
            edges_exist(graph_edges(*graph), self.edge_seq()),
        ensures
            ({
                let edges = graph_edges(*graph);
                let path = self.edge_seq();
                match stats {
                    Some((waiting, in_trip, walks)) => {
                        &&& waiting == waiting_time(edges, path)
                        &&& in_trip == in_trip_time(edges, path)
                        &&& walks == walk_count(edges, path)
                    },
                    None => waiting_time(edges, path) > u64::MAX || in_trip_time(edges, path) > u64::MAX,
                }
            }),
    {
        let ghost edges = graph_edges(*graph);
        let ghost path = self.edge_seq();
        let items = self.edges();
        let n = index_set_len(items);
        let mut waiting: u64 = 0;
        let mut in_trip: u64 = 0;
        let mut walks: u64 = 0;
        let mut overflow = false;
        let mut i: usize = 0;
        while i < n
            invariant
                n == path.len(),
                i <= n,
                index_set_items(*items) == path,
                edges == graph_edges(*graph),
                edges_exist(edges, path),
                walks == walk_count(edges, path.take(i as int)),
                walks <= i,
                !overflow ==> waiting == waiting_time(edges, path.take(i as int)),
                !overflow ==> in_trip == in_trip_time(edges, path.take(i as int)),
                overflow ==> waiting_time(edges, path.take(i as int)) > u64::MAX || in_trip_time(edges, path.take(i as int)) > u64::MAX,
            decreases n - i,
        {
            let e = index_set_get(items, i);
            proof {
                assert(path.take(i + 1).drop_last() == path.take(i as int));
                assert(path.take(i + 1).last() == e);
                assert(e < edges.len());
                lemma_times_grow(edges, path.take(i + 1));
            }
            let w = graph_edge(graph, e);
            if w.is_wait_at_station() || w.is_alight() {
                match waiting.checked_add(w.duration()) {
                    Some(sum) => waiting = sum,
                    None => overflow = true,
                }
            } else if w.is_trip() || w.is_wait_in_train() {
                match in_trip.checked_add(w.duration()) {
                    Some(sum) => in_trip = sum,
                    None => overflow = true,
                }
            } else if w.is_walk() {
                walks = walks + 1;
            }
            i = i + 1;
        }
        proof {
            assert(path.take(n as int) == path);
        }
        if overflow {
            None
        } else {
            Some((waiting, in_trip, walks))
        }
    }
}

/// The times only grow along a path: those of its prefix without the last edge are
/// no larger.
proof fn lemma_times_grow(edges: Seq<GraphEdge>, path: Seq<usize>)
    requires
        path.len() > 0,
    ensures
        waiting_time(edges, path.drop_last()) <= waiting_time(edges, path),
        in_trip_time(edges, path.drop_last()) <= in_trip_time(edges, path),
{
}

} // verus!
