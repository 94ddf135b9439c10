//! The collectors that a failed branch reports to: a breadth-first search
//! along success edges from the node where the branch ended, stopping at the
//! first distance at which a collector is met.

use vstd::prelude::*;

use crate::graph::{
    EdgeView, GraphView, NodeKindView, WorkflowEdge, WorkflowEdgeOutcome, WorkflowGraph, find_node,
    merge_key, merge_key_for_edge,
};
use crate::strset::{lemma_lt_irreflexive, lemma_lt_total, lemma_lt_transitive};
use crate::text::{seq_lt, str_eq};

verus! {

/// A collector a branch reports to, and the edge it arrives by.
#[derive(Debug)]
pub struct CollectorTarget {
    pub collector_id: String,
    pub inbound_edge: WorkflowEdge,
}

/// A target as the search keeps it: the collector, the merge key, the edge.
pub type TargetEntry = (Seq<char>, Seq<char>, EdgeView);

/// Targets are ordered by collector, then merge key.
pub open spec fn key_lt(a: (Seq<char>, Seq<char>), b: (Seq<char>, Seq<char>)) -> bool {
    seq_lt(a.0, b.0) || (a.0 == b.0 && seq_lt(a.1, b.1))
}

pub open spec fn entry_key(t: TargetEntry) -> (Seq<char>, Seq<char>) {
    (t.0, t.1)
}

pub open spec fn entries_sorted(ts: Seq<TargetEntry>) -> bool {
    forall|i: int, j: int| 0 <= i < j < ts.len() ==> key_lt(entry_key(ts[i]), entry_key(ts[j]))
}

pub open spec fn key_below(k: (Seq<char>, Seq<char>)) -> spec_fn(TargetEntry) -> bool {
    |t: TargetEntry| key_lt(entry_key(t), k)
}

pub open spec fn key_above(k: (Seq<char>, Seq<char>)) -> spec_fn(TargetEntry) -> bool {
    |t: TargetEntry| key_lt(k, entry_key(t))
}

/// The entries with `x` recorded under its key, replacing an entry with the
/// same key.
pub open spec fn upsert(ts: Seq<TargetEntry>, x: TargetEntry) -> Seq<TargetEntry> {
    ts.filter(key_below(entry_key(x))) + seq![x] + ts.filter(key_above(entry_key(x)))
}

proof fn lemma_key_lt_irreflexive(a: (Seq<char>, Seq<char>))
    ensures
        !key_lt(a, a),
{
    lemma_lt_irreflexive(a.0);
    lemma_lt_irreflexive(a.1);
}

proof fn lemma_key_lt_transitive(a: (Seq<char>, Seq<char>), b: (Seq<char>, Seq<char>), c: (Seq<char>, Seq<char>))
    requires
        key_lt(a, b),
        key_lt(b, c),
    ensures
        key_lt(a, c),
{
    if seq_lt(a.0, b.0) && seq_lt(b.0, c.0) {
        lemma_lt_transitive(a.0, b.0, c.0);
    } else if seq_lt(a.1, b.1) && seq_lt(b.1, c.1) {
        lemma_lt_transitive(a.1, b.1, c.1);
    }
}

proof fn lemma_key_lt_total(a: (Seq<char>, Seq<char>), b: (Seq<char>, Seq<char>))
    ensures
        a == b || key_lt(a, b) || key_lt(b, a),
{
    lemma_lt_total(a.0, b.0);
    lemma_lt_total(a.1, b.1);
}

/// A filter that keeps exactly the indices of a range keeps that range.
proof fn lemma_filter_range<A>(s: Seq<A>, p: spec_fn(A) -> bool, a: int, b: int)
    requires
        0 <= a <= b <= s.len(),
        forall|i: int| 0 <= i < s.len() ==> (p(#[trigger] s[i]) <==> a <= i < b),
    ensures
        s.filter(p) == s.subrange(a, b),
    decreases s.len(),
{
    reveal(Seq::filter);
    if s.len() == 0 {
        assert(s.subrange(a, b) =~= Seq::<A>::empty());
    } else {
        let init = s.drop_last();
        let n = s.len() - 1;
        assert forall|i: int| 0 <= i < init.len() implies (p(#[trigger] init[i]) <==> a <= i < (if b
            > n {
            n
        } else {
            b
        })) by {
            assert(init[i] == s[i]);
        }
        if b == s.len() && a < b {
            lemma_filter_range(init, p, a, n);
            assert(p(s[n]));
            assert(s.subrange(a, b) =~= init.subrange(a, n).push(s[n]));
        } else if b == s.len() {
            lemma_filter_range(init, p, n, n);
            assert(!p(s[n]));
            assert(s.subrange(a, b) =~= Seq::<A>::empty());
            assert(init.subrange(n, n) =~= Seq::<A>::empty());
        } else {
            lemma_filter_range(init, p, a, b);
            assert(!p(s[n]));
            assert(s.subrange(a, b) =~= init.subrange(a, b));
        }
    }
}

/// Records `x` in the sorted entries.
fn upsert_entry(ts: &mut Vec<(String, String, WorkflowEdge)>, x: (String, String, WorkflowEdge))
    requires
        entries_sorted(entries_view(old(ts)@)),
    ensures
        entries_sorted(entries_view(final(ts)@)),
        entries_view(final(ts)@) == upsert(entries_view(old(ts)@), (x.0@, x.1@, x.2@)),
{
    let ghost s = entries_view(ts@);
    let ghost xv: TargetEntry = (x.0@, x.1@, x.2@);
    let ghost k = entry_key(xv);
    let mut i: usize = 0;
    while i < ts.len() && key_lt_exec(&ts[i], &x)
        invariant
            i <= ts.len(),
            s == entries_view(ts@),
            entries_sorted(s),
            xv == (x.0@, x.1@, x.2@),
            k == entry_key(xv),
            forall|j: int| 0 <= j < i ==> key_lt(entry_key(#[trigger] s[j]), k),
        decreases ts.len() - i,
    {
        i += 1;
    }
    proof {
        if i < s.len() {
            lemma_key_lt_total(entry_key(s[i as int]), k);
        }
        assert forall|j: int| 0 <= j < s.len() implies (key_below(k)(#[trigger] s[j]) <==> 0 <= j < i) by {
            if j >= i {
                if key_lt(entry_key(s[j]), k) {
                    if j > i {
                        lemma_key_lt_transitive(entry_key(s[i as int]), entry_key(s[j]), k);
                    }
                    lemma_key_lt_irreflexive(k);
                    if entry_key(s[i as int]) == k {
                    } else {
                        lemma_key_lt_transitive(k, entry_key(s[i as int]), k);
                    }
                }
            }
        }
        lemma_filter_range(s, key_below(k), 0, i as int);
    }
    let same = i < ts.len() && key_eq_exec(&ts[i], &x);
    if same {
        proof {
            assert(entry_key(s[i as int]) == k);
            assert forall|j: int| 0 <= j < s.len() implies (key_above(k)(#[trigger] s[j]) <==> i + 1 <= j
                < s.len()) by {
                lemma_key_lt_irreflexive(k);
                if j > i {
                    assert(key_lt(entry_key(s[i as int]), entry_key(s[j])));
                } else if j < i {
                    if key_lt(k, entry_key(s[j])) {
                        lemma_key_lt_transitive(entry_key(s[j]), k, entry_key(s[j]));
                        lemma_key_lt_irreflexive(entry_key(s[j]));
                    }
                }
            }
            lemma_filter_range(s, key_above(k), i + 1, s.len() as int);
        }
        ts.set(i, x);
        proof {
            assert(entries_view(ts@) =~= s.update(i as int, xv));
            assert(entries_view(ts@) =~= s.subrange(0, i as int) + seq![xv] + s.subrange(i + 1, s.len() as int));
        }
    } else {
        proof {
            if i < s.len() {
                lemma_key_lt_total(entry_key(s[i as int]), k);
            }
            assert forall|j: int| 0 <= j < s.len() implies (key_above(k)(#[trigger] s[j]) <==> i <= j
                < s.len()) by {
                lemma_key_lt_irreflexive(k);
                if j > i {
                    lemma_key_lt_transitive(k, entry_key(s[i as int]), entry_key(s[j]));
                } else if j < i {
                    if key_lt(k, entry_key(s[j])) {
                        lemma_key_lt_transitive(entry_key(s[j]), k, entry_key(s[j]));
                        lemma_key_lt_irreflexive(entry_key(s[j]));
                    }
                }
            }
            lemma_filter_range(s, key_above(k), i as int, s.len() as int);
        }
        ts.insert(i, x);
        proof {
            assert(entries_view(ts@) =~= s.insert(i as int, xv));
            assert(entries_view(ts@) =~= s.subrange(0, i as int) + seq![xv] + s.subrange(i as int, s.len() as int));
        }
    }
    proof {
        let n = entries_view(ts@);
        assert forall|a: int, b: int| 0 <= a < b < n.len() implies key_lt(entry_key(n[a]), entry_key(n[b])) by {
            let lo = i as int;
            let hi = if same {
                i + 1
            } else {
                i as int
            };
            if b < lo {
            } else if b == lo {
                assert(n[b] == xv);
            } else {
                let sb = b - lo - 1 + hi;
                assert(n[b] == s[sb]);
                assert(key_lt(k, entry_key(s[sb])));
                if a < lo {
                    assert(key_lt(entry_key(n[a]), k));
                    lemma_key_lt_transitive(entry_key(n[a]), k, entry_key(n[b]));
                } else if a == lo {
                } else {
                    let sa = a - lo - 1 + hi;
                    assert(n[a] == s[sa]);
                }
            }
        }
    }
}

pub open spec fn entries_view(ts: Seq<(String, String, WorkflowEdge)>) -> Seq<TargetEntry> {
    ts.map_values(|t: (String, String, WorkflowEdge)| (t.0@, t.1@, t.2@))
}

fn key_lt_exec(a: &(String, String, WorkflowEdge), b: &(String, String, WorkflowEdge)) -> (r: bool)
    ensures
        r == key_lt((a.0@, a.1@), (b.0@, b.1@)),
{
    crate::strset::str_lt(a.0.as_str(), b.0.as_str()) || (str_eq(a.0.as_str(), b.0.as_str())
        && crate::strset::str_lt(a.1.as_str(), b.1.as_str()))
}

fn key_eq_exec(a: &(String, String, WorkflowEdge), b: &(String, String, WorkflowEdge)) -> (r: bool)
    ensures
        r == ((a.0@, a.1@) == (b.0@, b.1@)),
{
    str_eq(a.0.as_str(), b.0.as_str()) && str_eq(a.1.as_str(), b.1.as_str())
}

/// A target as the result lists it.
pub struct TargetView {
    pub collector_id: Seq<char>,
    pub inbound_edge: EdgeView,
}

impl View for CollectorTarget {
    type V = TargetView;

    open spec fn view(&self) -> TargetView {
        TargetView { collector_id: self.collector_id@, inbound_edge: self.inbound_edge@ }
    }
}

/// The state of the search: nodes still to look at with their distance,
/// nodes looked at, the distance at which a collector was first met, and
/// the targets met so far.
pub struct BfsState {
    pub queue: Seq<(Seq<char>, nat)>,
    pub visited: Seq<Seq<char>>,
    pub found: Option<nat>,
    pub targets: Seq<TargetEntry>,
}

pub open spec fn node_has_id(g: GraphView, id: Seq<char>) -> spec_fn(int) -> bool {
    |i: int| g.nodes[i].id == id
}

/// The index of the node with `id` (its first node), or -1.
pub open spec fn node_at(g: GraphView, id: Seq<char>) -> int {
    crate::routing::first_idx(node_has_id(g, id), 0, g.nodes.len() as int)
}

pub open spec fn is_collector(g: GraphView, id: Seq<char>) -> bool {
    node_at(g, id) >= 0 && g.nodes[node_at(g, id)].kind is Collector
}

/// Looking along one edge out of `cur` (at distance `d`): a success edge to
/// a collector records the target (and the distance, the first time); a
/// success edge to another node queues it while no collector was met.
pub open spec fn visit_edge(g: GraphView, cur: Seq<char>, d: nat, st: BfsState, e: EdgeView) -> BfsState {
    if e.from != cur || e.outcome != WorkflowEdgeOutcome::Success || node_at(g, e.to) < 0 {
        st
    } else if is_collector(g, e.to) {
        BfsState {
            found: Some(
                match st.found {
                    Some(b) => b,
                    None => d + 1,
                },
            ),
            targets: upsert(st.targets, (e.to, merge_key(e), e)),
            ..st
        }
    } else if st.found is None {
        BfsState { queue: st.queue.push((e.to, d + 1)), ..st }
    } else {
        st
    }
}

pub open spec fn visit_edges(g: GraphView, cur: Seq<char>, d: nat, st: BfsState, n: nat) -> BfsState
    decreases n,
{
    if n == 0 {
        st
    } else {
        visit_edge(g, cur, d, visit_edges(g, cur, d, st, (n - 1) as nat), g.edges[n - 1])
    }
}

/// One step of the search: the next queued node is taken; a node seen
/// before is dropped; a new one is marked seen and, unless it lies beyond
/// the distance of the first collector, its edges are looked along.
pub open spec fn bfs_step(g: GraphView, st: BfsState) -> BfsState {
    if st.queue.len() == 0 {
        st
    } else {
        let cur = st.queue[0].0;
        let d = st.queue[0].1;
        let rest = BfsState { queue: st.queue.drop_first(), ..st };
        if st.visited.contains(cur) {
            rest
        } else {
            let v = BfsState { visited: st.visited.push(cur), ..rest };
            if st.found is Some && d > st.found.unwrap() {
                v
            } else {
                visit_edges(g, cur, d, v, g.edges.len())
            }
        }
    }
}

pub open spec fn bfs_steps(g: GraphView, st: BfsState, n: nat) -> BfsState
    decreases n,
{
    if n == 0 {
        st
    } else {
        bfs_step(g, bfs_steps(g, st, (n - 1) as nat))
    }
}

pub open spec fn bfs_start(id: Seq<char>) -> BfsState {
    BfsState { queue: seq![(id, 0nat)], visited: Seq::empty(), found: None, targets: Seq::empty() }
}

/// The targets, as the result lists them.
pub open spec fn listing(ts: Seq<TargetEntry>) -> Seq<TargetView> {
    ts.map_values(|t: TargetEntry| TargetView { collector_id: t.0, inbound_edge: t.2 })
}

/// Once the queue is empty the search stands still.
pub proof fn lemma_bfs_settled(g: GraphView, st: BfsState, n: nat, m: nat)
    requires
        bfs_steps(g, st, n).queue.len() == 0,
        n <= m,
    ensures
        bfs_steps(g, st, m) == bfs_steps(g, st, n),
    decreases m,
{
    if m > n {
        lemma_bfs_settled(g, st, n, (m - 1) as nat);
    }
}

/// A success edge of the graph leads from `a` to `b`.
pub open spec fn success_step(g: GraphView, a: Seq<char>, b: Seq<char>) -> bool {
    exists|i: int|
        0 <= i < g.edges.len() && (#[trigger] g.edges[i]).from == a && g.edges[i].to == b && g.edges[i].outcome
            == WorkflowEdgeOutcome::Success
}

/// A path whose every step is a success edge of the graph.
pub open spec fn is_success_path(g: GraphView, p: Seq<Seq<char>>) -> bool {
    &&& p.len() > 0
    &&& forall|k: int| 0 <= k < p.len() - 1 ==> success_step(g, #[trigger] p[k], p[k + 1])
}

/// `to` can be reached from `from` along success edges (in zero or more
/// steps).
pub open spec fn success_reachable(g: GraphView, from: Seq<char>, to: Seq<char>) -> bool {
    exists|p: Seq<Seq<char>>| is_success_path(g, p) && p[0] == from && p.last() == to
}

/// A collector target as a failed branch at `start` may report to it: a
/// success edge of the graph into a collector node, leaving a node that
/// `start` reaches along success edges, recorded under its merge key.
pub open spec fn target_ok(g: GraphView, start: Seq<char>, t: TargetEntry) -> bool {
    &&& t.2.to == t.0
    &&& t.1 == merge_key(t.2)
    &&& t.2.outcome == WorkflowEdgeOutcome::Success
    &&& is_collector(g, t.0)
    &&& g.edges.contains(t.2)
    &&& success_reachable(g, start, t.2.from)
}

pub open spec fn search_ok(g: GraphView, start: Seq<char>, st: BfsState) -> bool {
    &&& forall|q: int| 0 <= q < st.queue.len() ==> success_reachable(g, start, (#[trigger] st.queue[q]).0)
    &&& forall|t: int| 0 <= t < st.targets.len() ==> target_ok(g, start, #[trigger] st.targets[t])
}

proof fn lemma_reach_step(g: GraphView, start: Seq<char>, e: EdgeView, i: int)
    requires
        success_reachable(g, start, e.from),
        0 <= i < g.edges.len(),
        g.edges[i] == e,
        e.outcome == WorkflowEdgeOutcome::Success,
    ensures
        success_reachable(g, start, e.to),
{
    let p = choose|p: Seq<Seq<char>>| is_success_path(g, p) && p[0] == start && p.last() == e.from;
    let q = p.push(e.to);
    assert forall|k: int| 0 <= k < q.len() - 1 implies success_step(g, #[trigger] q[k], q[k + 1]) by {
        if k == p.len() - 1 {
            assert(g.edges[i].from == q[k]);
        } else {
            assert(q[k] == p[k] && q[k + 1] == p[k + 1]);
        }
    }
    assert(q[0] == p[0]);
    assert(q.last() == e.to);
    assert(is_success_path(g, q) && q[0] == start && q.last() == e.to);
}

proof fn lemma_upsert_ok(g: GraphView, start: Seq<char>, ts: Seq<TargetEntry>, x: TargetEntry)
    requires
        forall|t: int| 0 <= t < ts.len() ==> target_ok(g, start, #[trigger] ts[t]),
        target_ok(g, start, x),
    ensures
        forall|t: int|
            0 <= t < upsert(ts, x).len() ==> target_ok(g, start, #[trigger] upsert(ts, x)[t]),
{
    let lo = ts.filter(key_below(entry_key(x)));
    let hi = ts.filter(key_above(entry_key(x)));
    let u = upsert(ts, x);
    assert forall|t: int| 0 <= t < u.len() implies target_ok(g, start, #[trigger] u[t]) by {
        if t < lo.len() {
            assert(u[t] == lo[t]);
            assert(lo.contains(lo[t]));
            ts.lemma_filter_contains_rev(key_below(entry_key(x)), lo[t]);
        } else if t == lo.len() {
            assert(u[t] == x);
        } else {
            let h = t - lo.len() - 1;
            assert(u[t] == hi[h]);
            assert(hi.contains(hi[h]));
            ts.lemma_filter_contains_rev(key_above(entry_key(x)), hi[h]);
        }
    }
}

proof fn lemma_visit_edges_ok(g: GraphView, start: Seq<char>, cur: Seq<char>, d: nat, st: BfsState, n: nat)
    requires
        search_ok(g, start, st),
        success_reachable(g, start, cur),
        n <= g.edges.len(),
    ensures
        search_ok(g, start, visit_edges(g, cur, d, st, n)),
    decreases n,
{
    if n > 0 {
        lemma_visit_edges_ok(g, start, cur, d, st, (n - 1) as nat);
        let before = visit_edges(g, cur, d, st, (n - 1) as nat);
        let e = g.edges[n - 1];
        if !(e.from != cur || e.outcome != WorkflowEdgeOutcome::Success || node_at(g, e.to) < 0) {
            assert(g.edges.contains(e));
            lemma_reach_step(g, start, e, n - 1);
            if is_collector(g, e.to) {
                lemma_upsert_ok(g, start, before.targets, (e.to, merge_key(e), e));
            } else if before.found is None {
                let after = visit_edge(g, cur, d, before, e);
                assert forall|q: int| 0 <= q < after.queue.len() implies success_reachable(
                    g,
                    start,
                    (#[trigger] after.queue[q]).0,
                ) by {
                    if q < before.queue.len() {
                        assert(after.queue[q] == before.queue[q]);
                    }
                }
            }
        }
    }
}

/// Every target the search records is a success edge into a collector,
/// leaving a node that the start reaches along success edges.
pub proof fn lemma_search_sound(g: GraphView, start: Seq<char>, n: nat)
    ensures
        search_ok(g, start, bfs_steps(g, bfs_start(start), n)),
    decreases n,
{
    if n == 0 {
        let p = seq![start];
        assert(is_success_path(g, p) && p[0] == start && p.last() == start);
        assert(success_reachable(g, start, start));
        assert(bfs_start(start).queue[0].0 == start);
    } else {
        lemma_search_sound(g, start, (n - 1) as nat);
        let st = bfs_steps(g, bfs_start(start), (n - 1) as nat);
        if st.queue.len() > 0 {
            let cur = st.queue[0].0;
            let d = st.queue[0].1;
            let rest = BfsState { queue: st.queue.drop_first(), ..st };
            assert forall|q: int| 0 <= q < rest.queue.len() implies success_reachable(
                g,
                start,
                (#[trigger] rest.queue[q]).0,
            ) by {
                assert(rest.queue[q] == st.queue[q + 1]);
            }
            if !st.visited.contains(cur) {
                let v = BfsState { visited: st.visited.push(cur), ..rest };
                if !(st.found is Some && d > st.found.unwrap()) {
                    lemma_visit_edges_ok(g, start, cur, d, v, g.edges.len());
                }
            }
        }
    }
}

pub open spec fn queue_view(q: Seq<(String, usize)>, head: int) -> Seq<(Seq<char>, nat)> {
    q.skip(head).map_values(|e: (String, usize)| (e.0@, e.1 as nat))
}

pub open spec fn found_view(f: Option<usize>) -> Option<nat> {
    match f {
        Some(b) => Some(b as nat),
        None => None,
    }
}

pub open spec fn exec_state(
    q: Seq<(String, usize)>,
    head: int,
    visited: Seq<Seq<char>>,
    found: Option<usize>,
    targets: Seq<(String, String, WorkflowEdge)>,
) -> BfsState {
    BfsState {
        queue: queue_view(q, head),
        visited,
        found: found_view(found),
        targets: entries_view(targets),
    }
}

fn node_index(graph: &WorkflowGraph, id: &str) -> (r: Option<usize>)
    ensures
        match r {
            Some(k) => k < graph@.nodes.len() && k as int == node_at(graph@, id@),
            None => node_at(graph@, id@) == -1,
        },
{
    let r = find_node(graph, id);
    proof {
        let p = node_has_id(graph@, id@);
        match r {
            Some(k) => {
                assert(p(k as int));
                assert forall|j: int| 0 <= j < k implies !#[trigger] p(j) by {}
                crate::routing::lemma_first_idx_is(p, graph@.nodes.len() as int, k as int);
            },
            None => {
                assert forall|j: int| 0 <= j < graph@.nodes.len() implies !#[trigger] p(j) by {}
                crate::routing::lemma_first_idx(p, 0, graph@.nodes.len() as int);
            },
        }
    }
    r
}

/// The collectors nearest to `node_id` along success edges, with the edges
/// they are entered by, ordered by collector and merge key: the listing of
/// the finished search. Each is a collector entered by a success edge of the
/// graph from a node that `node_id` reaches along success edges, and no
/// (collector, merge key) pair is listed twice.
pub fn nearest_collectors_for_node(graph: &WorkflowGraph, node_id: &str) -> (r: Vec<CollectorTarget>)
    ensures
        exists|n: nat|
            bfs_steps(graph@, bfs_start(node_id@), n).queue.len() == 0 && r@.map_values(
                |t: CollectorTarget| t@,
            ) == listing(#[trigger] bfs_steps(graph@, bfs_start(node_id@), n).targets),
        forall|t: int|
            0 <= t < r.len() ==> {
                let e = (#[trigger] r@[t])@.inbound_edge;
                &&& e.to == r@[t]@.collector_id
                &&& e.outcome == WorkflowEdgeOutcome::Success
                &&& is_collector(graph@, e.to)
                &&& graph@.edges.contains(e)
                &&& success_reachable(graph@, node_id@, e.from)
            },
        forall|a: int, b: int|
            0 <= a < b < r.len() ==> key_lt(
                (r@[a]@.collector_id, merge_key(r@[a]@.inbound_edge)),
                (r@[b]@.collector_id, merge_key(r@[b]@.inbound_edge)),
            ),
{
    let ghost g = graph@;
    let ghost universe = seq![node_id@] + g.edges.map_values(|e: EdgeView| e.to);
    let mut queue: Vec<(String, usize)> = Vec::new();
    queue.push((node_id.to_owned(), 0));
    let mut head: usize = 0;
    let mut visited: Vec<String> = Vec::new();
    let mut found: Option<usize> = None;
    let mut targets: Vec<(String, String, WorkflowEdge)> = Vec::new();
    let ghost mut steps: nat = 0;
    proof {
        assert(exec_state(queue@, 0, visited.deep_view(), found, targets@) =~= bfs_start(node_id@)) by {
            assert(queue_view(queue@, 0) =~= seq![(node_id@, 0nat)]);
            assert(entries_view(targets@) =~= Seq::<TargetEntry>::empty());
            assert(visited.deep_view() =~= Seq::<Seq<char>>::empty());
        }
        assert(universe[0] == node_id@);
    }
    while head < queue.len()
        invariant
            head <= queue.len(),
            g == graph@,
            universe == seq![node_id@] + g.edges.map_values(|e: EdgeView| e.to),
            exec_state(queue@, head as int, visited.deep_view(), found, targets@) == bfs_steps(
                g,
                bfs_start(node_id@),
                steps,
            ),
            visited.deep_view().no_duplicates(),
            forall|x: Seq<char>| visited.deep_view().contains(x) ==> universe.contains(x),
            visited.len() <= universe.len(),
            forall|j: int|
                head <= j < queue.len() ==> universe.contains((#[trigger] queue@[j]).0@) && queue@[j].1
                    <= visited.len(),
            entries_sorted(entries_view(targets@)),
        decreases universe.len() - visited.len(), queue.len() - head,
    {
        let ghost st = exec_state(queue@, head as int, visited.deep_view(), found, targets@);
        let cur = queue[head].0.clone();
        let d = queue[head].1;
        proof {
            assert(queue_view(queue@, head as int)[0] == (cur@, d as nat));
        }
        head = head + 1;
        proof {
            assert(queue_view(queue@, head as int) =~= st.queue.drop_first());
        }
        if crate::strset::contains_str(&visited, cur.as_str()) {
            proof {
                assert(exec_state(queue@, head as int, visited.deep_view(), found, targets@) == bfs_step(g, st));
                steps = steps + 1;
            }
            continue;
        }
        let ghost before_visited = visited.deep_view();
        assert(!before_visited.contains(cur@));
        visited.push(cur.clone());
        proof {
            assert(visited.deep_view() =~= before_visited.push(cur@));
            assert forall|a: int, b: int|
                0 <= a < visited.deep_view().len() && 0 <= b < visited.deep_view().len() && a != b implies visited.deep_view()[a]
                != visited.deep_view()[b] by {
                let n = before_visited.len() as int;
                if a == n {
                    assert(visited.deep_view()[a] == cur@);
                    assert(visited.deep_view()[b] == before_visited[b]);
                    assert(before_visited.contains(before_visited[b]));
                } else if b == n {
                    assert(visited.deep_view()[b] == cur@);
                    assert(visited.deep_view()[a] == before_visited[a]);
                    assert(before_visited.contains(before_visited[a]));
                } else {
                    assert(visited.deep_view()[a] == before_visited[a]);
                    assert(visited.deep_view()[b] == before_visited[b]);
                }
            }
            assert forall|x: Seq<char>| visited.deep_view().contains(x) implies universe.contains(x) by {
                if x != cur@ {
                    let c = choose|c: int| 0 <= c < visited.deep_view().len() && visited.deep_view()[c] == x;
                    assert(before_visited.contains(x));
                }
            }
            crate::seqs::lemma_no_dup_len_bound(visited.deep_view(), universe);
        }
        let beyond = match found {
            Some(best) => d > best,
            None => false,
        };
        if beyond {
            proof {
                assert(exec_state(queue@, head as int, visited.deep_view(), found, targets@) == bfs_step(g, st));
                steps = steps + 1;
            }
            continue;
        }
        let ghost v0 = exec_state(queue@, head as int, visited.deep_view(), found, targets@);
        let mut i: usize = 0;
        while i < graph.edges.len()
            invariant
                i <= graph.edges.len(),
                g == graph@,
                head <= queue.len(),
                universe == seq![node_id@] + g.edges.map_values(|e: EdgeView| e.to),
                exec_state(queue@, head as int, visited.deep_view(), found, targets@) == visit_edges(
                    g,
                    cur@,
                    d as nat,
                    v0,
                    i as nat,
                ),
                d < visited.len(),
                forall|j: int|
                    head <= j < queue.len() ==> universe.contains((#[trigger] queue@[j]).0@) && queue@[j].1
                        <= visited.len(),
                entries_sorted(entries_view(targets@)),
            decreases graph.edges.len() - i,
        {
            let e = &graph.edges[i];
            let ghost before = exec_state(queue@, head as int, visited.deep_view(), found, targets@);
            proof {
                assert(g.edges[i as int] == e@);
                assert(universe[i + 1] == e@.to);
            }
            if str_eq(e.from.as_str(), cur.as_str()) && e.outcome == WorkflowEdgeOutcome::Success {
                match node_index(graph, e.to.as_str()) {
                    Some(k) => {
                        let is_coll = match graph.nodes[k].kind {
                            crate::graph::NodeKind::Collector => true,
                            _ => false,
                        };
                        proof {
                            assert(g.nodes[k as int] == graph.nodes@[k as int]@);
                            assert(is_coll == is_collector(g, e@.to));
                        }
                        if is_coll {
                            let best = match found {
                                Some(b) => b,
                                None => d + 1,
                            };
                            found = Some(best);
                            let mk = merge_key_for_edge(e);
                            upsert_entry(&mut targets, (e.to.clone(), mk, e.duplicate()));
                        } else if found.is_none() {
                            let ghost qb = queue@;
                            queue.push((e.to.clone(), d + 1));
                            proof {
                                assert(queue_view(queue@, head as int) =~= queue_view(qb, head as int).push(
                                    (e@.to, (d + 1) as nat),
                                ));
                            }
                        }
                    },
                    None => {},
                }
            }
            proof {
                assert(exec_state(queue@, head as int, visited.deep_view(), found, targets@) == visit_edge(
                    g,
                    cur@,
                    d as nat,
                    before,
                    g.edges[i as int],
                ));
            }
            i += 1;
        }
        proof {
            assert(exec_state(queue@, head as int, visited.deep_view(), found, targets@) == bfs_step(g, st));
            steps = steps + 1;
        }
    }
    proof {
        assert(queue_view(queue@, head as int) =~= Seq::<(Seq<char>, nat)>::empty());
    }
    let mut out: Vec<CollectorTarget> = Vec::new();
    let mut t: usize = 0;
    while t < targets.len()
        invariant
            t <= targets.len(),
            out@.map_values(|x: CollectorTarget| x@) == listing(entries_view(targets@)).take(t as int),
        decreases targets.len() - t,
    {
        let ghost before = out@.map_values(|x: CollectorTarget| x@);
        let item = CollectorTarget { collector_id: targets[t].0.clone(), inbound_edge: targets[t].2.duplicate() };
        proof {
            let ev = entries_view(targets@);
            assert(ev[t as int] == (targets@[t as int].0@, targets@[t as int].1@, targets@[t as int].2@));
            assert(listing(ev)[t as int] == item@);
        }
        out.push(item);
        proof {
            assert(out@.map_values(|x: CollectorTarget| x@) =~= before.push(listing(entries_view(targets@))[t as int]));
            assert(out@.map_values(|x: CollectorTarget| x@) =~= listing(entries_view(targets@)).take(t + 1));
        }
        t += 1;
    }
    proof {
        assert(listing(entries_view(targets@)).take(targets.len() as int) =~= listing(entries_view(targets@)));
        let fin = bfs_steps(g, bfs_start(node_id@), steps);
        assert(fin.queue.len() == 0);
        assert(fin.targets == entries_view(targets@));
        assert(out@.map_values(|x: CollectorTarget| x@) == listing(fin.targets));
        lemma_search_sound(g, node_id@, steps);
        assert forall|t: int| 0 <= t < out.len() implies {
            let e = (#[trigger] out@[t])@.inbound_edge;
            &&& e.to == out@[t]@.collector_id
            &&& e.outcome == WorkflowEdgeOutcome::Success
            &&& is_collector(g, e.to)
            &&& g.edges.contains(e)
            &&& success_reachable(g, node_id@, e.from)
        } by {
            assert(out@.map_values(|x: CollectorTarget| x@)[t] == out@[t]@);
            assert(target_ok(g, node_id@, fin.targets[t]));
        }
        assert forall|a: int, b: int| 0 <= a < b < out.len() implies key_lt(
            (out@[a]@.collector_id, merge_key(out@[a]@.inbound_edge)),
            (out@[b]@.collector_id, merge_key(out@[b]@.inbound_edge)),
        ) by {
            assert(out@.map_values(|x: CollectorTarget| x@)[a] == out@[a]@);
            assert(out@.map_values(|x: CollectorTarget| x@)[b] == out@[b]@);
            assert(target_ok(g, node_id@, fin.targets[a]));
            assert(target_ok(g, node_id@, fin.targets[b]));
            assert(key_lt(entry_key(fin.targets[a]), entry_key(fin.targets[b])));
        }
    }
    out
}

} // verus!
