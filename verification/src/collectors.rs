//! How cursors meet at collectors: a cursor entering a collector records its
//! input and parks at the barrier of its scope; a branch that ends in
//! failure reports to the collectors nearest to it.

use vstd::prelude::*;

use crate::barrier::{
    arrival_for, first_live_waiting, is_live, released_siblings, revive_from_snapshot, revived, ArrivalView,
    BarrierKeyView, BarrierView, CollectorBarrierKey, CollectorBarriers, CollectorInputStatus, InputView,
};
use crate::strset::contains_str;
use crate::cursor::{
    barrier_scope, clone_strings, cursors_view, find_cursor_index, find_first_cursor, lemma_find_first_cursor,
    lemma_no_cursor, CursorRuntimeState, CursorState, CursorTerminalStatus, CursorView,
};
use crate::graph::{merge_key, merge_key_for_edge, EdgeView, GraphView, WorkflowGraph};
use crate::lifecycle::{
    collector_entry_edge, collector_incoming_edge, cursors_after_failure, fail_branch, failure_fails_run,
    marked_by_failure, FamilyView, SplitFamilies,
};
use crate::nearest::{bfs_start, bfs_steps, listing, nearest_collectors_for_node, CollectorTarget, TargetView};
use crate::text::opt_str_view;

verus! {

/// The barrier key of a cursor at a collector in an epoch.
pub open spec fn key_of(c: CursorView, collector_id: Seq<char>, epoch: u64) -> BarrierKeyView {
    BarrierKeyView { scope: barrier_scope(c), collector_id, execution_epoch: epoch }
}

/// What a barrier holds, whatever order its lists are kept in: the required
/// merge keys, the input recorded under each merge key, the waiting cursors,
/// whether it was released, and its snapshot.
pub struct BarrierAbs {
    pub required: Set<Seq<char>>,
    pub inputs: Map<Seq<char>, InputView>,
    pub waiting: Seq<Seq<char>>,
    pub released: bool,
    pub snapshot: Option<CursorView>,
}

/// The input recorded under each merge key.
pub open spec fn inputs_of(s: Seq<ArrivalView>) -> Map<Seq<char>, InputView> {
    Map::new(|k: Seq<char>| arrival_for(s, k) is Some, |k: Seq<char>| arrival_for(s, k).unwrap())
}

pub open spec fn abs_of(b: BarrierView) -> BarrierAbs {
    BarrierAbs {
        required: b.required.to_set(),
        inputs: inputs_of(b.arrivals),
        waiting: b.waiting,
        released: b.released,
        snapshot: b.snapshot,
    }
}

/// No key occurs twice.
pub open spec fn keys_distinct(keys: Seq<BarrierKeyView>) -> bool {
    forall|i: int, j: int| 0 <= i < j < keys.len() ==> keys[i] != keys[j]
}

/// A table of barriers, by key.
pub open spec fn table(keys: Seq<BarrierKeyView>, bs: Seq<BarrierView>) -> Map<BarrierKeyView, BarrierAbs> {
    Map::new(
        |k: BarrierKeyView| keys.contains(k),
        |k: BarrierKeyView| abs_of(bs[choose|i: int| 0 <= i < keys.len() && keys[i] == k]),
    )
}

/// The merge keys of the edges into `collector_id`.
pub open spec fn inbound_keys(g: GraphView, collector_id: Seq<char>) -> Set<Seq<char>> {
    Set::new(
        |x: Seq<char>|
            exists|i: int|
                0 <= i < g.edges.len() && g.edges[i].to == collector_id && merge_key(#[trigger] g.edges[i]) == x,
    )
}

/// A barrier as it is made for `collector_id`: nothing arrived, nobody waits.
pub open spec fn fresh_barrier(g: GraphView, collector_id: Seq<char>) -> BarrierAbs {
    BarrierAbs {
        required: inbound_keys(g, collector_id),
        inputs: Map::empty(),
        waiting: Seq::empty(),
        released: false,
        snapshot: None,
    }
}

/// The failed input a branch leaves at a collector it heads for by `edge`.
pub open spec fn failed_input(
    edge: EdgeView,
    cursor: CursorView,
    status: CursorTerminalStatus,
    output: Seq<char>,
    stderr: Seq<char>,
    exit_code: i32,
) -> InputView {
    InputView {
        source_node_id: edge.from,
        edge_id: edge.id,
        edge_label: edge.label,
        split_family_ids: cursor.split_family_ids,
        status,
        success: false,
        output,
        stderr,
        exit_code,
    }
}

/// The barrier after a failure is reported to it: one that was released (or
/// was missing) starts fresh; it keeps its snapshot, else takes the cursor;
/// the input goes under `mk` unless something arrived there already.
pub open spec fn reported(
    prev: Option<BarrierAbs>,
    g: GraphView,
    collector_id: Seq<char>,
    cursor: CursorView,
    mk: Seq<char>,
    input: InputView,
) -> BarrierAbs {
    let b = match prev {
        Some(b) => if b.released {
            fresh_barrier(g, collector_id)
        } else {
            b
        },
        None => fresh_barrier(g, collector_id),
    };
    BarrierAbs {
        snapshot: if b.snapshot is Some {
            b.snapshot
        } else {
            Some(cursor)
        },
        inputs: if b.inputs.contains_key(mk) {
            b.inputs
        } else {
            b.inputs.insert(mk, input)
        },
        ..b
    }
}

/// The barrier table after a failure is reported to each target in turn.
pub open spec fn report_all(
    tab: Map<BarrierKeyView, BarrierAbs>,
    targets: Seq<TargetView>,
    g: GraphView,
    cursor: CursorView,
    status: CursorTerminalStatus,
    output: Seq<char>,
    stderr: Seq<char>,
    exit_code: i32,
    epoch: u64,
) -> Map<BarrierKeyView, BarrierAbs>
    decreases targets.len(),
{
    if targets.len() == 0 {
        tab
    } else {
        let before = report_all(tab, targets.drop_last(), g, cursor, status, output, stderr, exit_code, epoch);
        let t = targets.last();
        let k = key_of(cursor, t.collector_id, epoch);
        before.insert(
            k,
            reported(
                if before.contains_key(k) {
                    Some(before[k])
                } else {
                    None
                },
                g,
                t.collector_id,
                cursor,
                merge_key(t.inbound_edge),
                failed_input(t.inbound_edge, cursor, status, output, stderr, exit_code),
            ),
        )
    }
}

/// A failed branch leaves every collector it heads for able to release:
/// each one's barrier in the branch's scope is unreleased, keeps a
/// snapshot, and holds an input under the edge the branch would have
/// entered by.
pub proof fn lemma_failure_reaches_every_target(
    tab: Map<BarrierKeyView, BarrierAbs>,
    targets: Seq<TargetView>,
    g: GraphView,
    cursor: CursorView,
    status: CursorTerminalStatus,
    output: Seq<char>,
    stderr: Seq<char>,
    exit_code: i32,
    epoch: u64,
)
    ensures
        forall|t: int|
            0 <= t < targets.len() ==> {
                let r = report_all(tab, targets, g, cursor, status, output, stderr, exit_code, epoch);
                let k = key_of(cursor, (#[trigger] targets[t]).collector_id, epoch);
                &&& r.contains_key(k)
                &&& !r[k].released
                &&& r[k].snapshot is Some
                &&& r[k].inputs.contains_key(merge_key(targets[t].inbound_edge))
            },
    decreases targets.len(),
{
    if targets.len() > 0 {
        let init = targets.drop_last();
        lemma_failure_reaches_every_target(tab, init, g, cursor, status, output, stderr, exit_code, epoch);
        let before = report_all(tab, init, g, cursor, status, output, stderr, exit_code, epoch);
        let r = report_all(tab, targets, g, cursor, status, output, stderr, exit_code, epoch);
        let last = targets.last();
        let kl = key_of(cursor, last.collector_id, epoch);
        assert forall|t: int| 0 <= t < targets.len() implies {
            let k = key_of(cursor, (#[trigger] targets[t]).collector_id, epoch);
            &&& r.contains_key(k)
            &&& !r[k].released
            &&& r[k].snapshot is Some
            &&& r[k].inputs.contains_key(merge_key(targets[t].inbound_edge))
        } by {
            if t < targets.len() - 1 {
                assert(targets[t] == init[t]);
                let k = key_of(cursor, init[t].collector_id, epoch);
                assert(before.contains_key(k));
                if k == kl {
                    assert(before[k].inputs.contains_key(merge_key(init[t].inbound_edge)));
                }
            }
        }
    }
}

/// Changing one barrier of a table changes the table under its key only.
proof fn lemma_table_update(keys: Seq<BarrierKeyView>, bs: Seq<BarrierView>, bs2: Seq<BarrierView>, i: int)
    requires
        keys_distinct(keys),
        keys.len() == bs.len(),
        bs2.len() == bs.len(),
        0 <= i < keys.len(),
        forall|j: int| 0 <= j < bs.len() && j != i ==> bs2[j] == bs[j],
    ensures
        table(keys, bs2) == table(keys, bs).insert(keys[i], abs_of(bs2[i])),
{
    let t2 = table(keys, bs2);
    let t1 = table(keys, bs).insert(keys[i], abs_of(bs2[i]));
    assert(keys.contains(keys[i]));
    assert forall|k: BarrierKeyView| t2.contains_key(k) implies t2[k] == t1[k] by {
        let c = choose|c: int| 0 <= c < keys.len() && keys[c] == k;
        if k == keys[i] {
            assert(c == i);
        } else {
            assert(c != i);
        }
    }
    assert(t2 =~= t1);
}

/// Adding a barrier under a new key adds it to the table.
proof fn lemma_table_push(keys: Seq<BarrierKeyView>, bs: Seq<BarrierView>, k: BarrierKeyView, b: BarrierView)
    requires
        keys_distinct(keys),
        keys.len() == bs.len(),
        !keys.contains(k),
    ensures
        table(keys.push(k), bs.push(b)) == table(keys, bs).insert(k, abs_of(b)),
{
    let nk = keys.push(k);
    let nb = bs.push(b);
    let t2 = table(nk, nb);
    let t1 = table(keys, bs).insert(k, abs_of(b));
    assert(nk[keys.len() as int] == k);
    assert forall|x: BarrierKeyView| t1.contains_key(x) implies t2.contains_key(x) by {
        if x != k {
            let c = choose|c: int| 0 <= c < keys.len() && keys[c] == x;
            assert(nk[c] == x);
        }
    }
    assert forall|x: BarrierKeyView| t2.contains_key(x) implies t1.contains_key(x) && t2[x] == t1[x] by {
        let c = choose|c: int| 0 <= c < nk.len() && nk[c] == x;
        if x == k {
            if c < keys.len() {
                assert(keys[c] == k);
            }
            assert(c == keys.len());
        } else {
            assert(c < keys.len());
            assert(keys[c] == x);
            let d = choose|d: int| 0 <= d < keys.len() && keys[d] == x;
            if c != d {
                if c < d {
                    assert(keys[c] != keys[d]);
                } else {
                    assert(keys[d] != keys[c]);
                }
            }
        }
    }
    assert(t2 =~= t1);
}

/// What entering a collector did.
#[derive(Debug, Clone, Copy, PartialEq, Eq, Structural)]
pub enum CollectorEntry {
    /// The collector has no inbound edge to arrive by: the run fails.
    NoInboundEdge,
    /// The cursor waits at the barrier at this position.
    Waiting { barrier: usize },
}

/// The cursor at position `k` enters collector `node_id`: it arrives by its
/// recorded inbound edge (else the collector's first), records the source's
/// result (or its own output when the source has none) under the edge's
/// merge key at the barrier of its scope, and waits there.
pub fn enter_collector(
    barriers: &mut CollectorBarriers,
    graph: &WorkflowGraph,
    cursors: &mut Vec<CursorState>,
    k: usize,
    node_id: &str,
    source_result: Option<(String, String, i32)>,
    epoch: u64,
) -> (r: CollectorEntry)
    requires
        old(barriers).wf(),
        k < old(cursors).len(),
    ensures
        final(barriers).wf(),
        final(cursors).len() == old(cursors).len(),
        ({
            let c = old(cursors)@[k as int]@;
            let entry = collector_entry_edge(graph@, node_id@, c.incoming_edge_id);
            match r {
                CollectorEntry::NoInboundEdge => entry is None && final(cursors)@ == old(cursors)@
                    && final(barriers).keys() == old(barriers).keys() && final(barriers).barriers() == old(
                    barriers,
                ).barriers(),
                CollectorEntry::Waiting { barrier: i } => {
                    let key = key_of(c, node_id@, epoch);
                    let mk = merge_key(entry.unwrap());
                    let b = final(barriers).barriers()[i as int];
                    &&& entry is Some
                    &&& final(cursors)@[k as int]@ == (CursorView {
                        state: CursorRuntimeState::WaitingCollector,
                        ..c
                    })
                    &&& forall|j: int|
                        #![trigger final(cursors)@[j]]
                        0 <= j < old(cursors).len() && j != k ==> final(cursors)@[j] == old(cursors)@[j]
                    &&& i < final(barriers).keys().len()
                    &&& final(barriers).keys()[i as int] == key
                    &&& final(barriers).keys() == if old(barriers).keys().contains(key) {
                        old(barriers).keys()
                    } else {
                        old(barriers).keys().push(key)
                    }
                    &&& forall|j: int|
                        #![trigger final(barriers).barriers()[j]]
                        0 <= j < old(barriers).barriers().len() && j != i ==> final(barriers).barriers()[j]
                            == old(barriers).barriers()[j]
                    &&& !b.released
                    &&& arrival_for(b.arrivals, mk) is Some
                    &&& b.waiting.contains(c.cursor_id)
                }
            }
        }),
{
    let ghost c = cursors@[k as int]@;
    let incoming = match &cursors[k].incoming_edge_id {
        Some(id) => Some(id.as_str()),
        None => None,
    };
    let edge = match collector_incoming_edge(graph, node_id, incoming) {
        Some(e) => e,
        None => return CollectorEntry::NoInboundEdge,
    };
    cursors[k].state = CursorRuntimeState::WaitingCollector;
    let mk = merge_key_for_edge(&edge);
    let key = CollectorBarrierKey::from_cursor(&cursors[k], node_id, epoch);
    let ghost kv = key@;
    let ghost ok = barriers.keys();
    let ghost ob = barriers.barriers();
    let i = barriers.entry_for(key, graph, node_id);
    let ghost b1 = barriers.barriers();
    proof {
        barriers.lemma_view_lengths();
    }
    barriers.reset_released_at(i, graph, node_id);
    let (output, stderr, exit_code) = match source_result {
        Some(r) => r,
        None => (cursors[k].last_output.clone(), String::new(), 0),
    };
    let arrival = CollectorInputStatus {
        source_node_id: edge.from.clone(),
        edge_id: edge.id.clone(),
        edge_label: crate::graph::clone_opt_string(&edge.label),
        split_family_ids: clone_strings(&cursors[k].split_family_ids),
        status: CursorTerminalStatus::Success,
        success: true,
        output,
        stderr,
        exit_code,
    };
    let ghost arrival_v = arrival@;
    barriers.insert_arrival_at(i, mk, arrival);
    let cursor_id = cursors[k].cursor_id.clone();
    barriers.add_waiting_at(i, cursor_id.as_str());
    proof {
        let b = barriers.barriers()[i as int];
        assert(b.waiting.contains(c.cursor_id)) by {
            let w = b.waiting;
            if !w.contains(c.cursor_id) {
                assert(w[w.len() - 1] == c.cursor_id);
            }
        }
    }
    CollectorEntry::Waiting { barrier: i }
}

/// The barrier at position `i` is what the table holds under its key.
proof fn lemma_table_at(keys: Seq<BarrierKeyView>, bs: Seq<BarrierView>, i: int)
    requires
        keys_distinct(keys),
        keys.len() == bs.len(),
        0 <= i < keys.len(),
    ensures
        table(keys, bs).contains_key(keys[i]),
        table(keys, bs)[keys[i]] == abs_of(bs[i]),
{
    assert(keys.contains(keys[i]));
    let c = choose|c: int| 0 <= c < keys.len() && keys[c] == keys[i];
    if c != i {
        if c < i {
            assert(keys[c] != keys[i]);
        } else {
            assert(keys[i] != keys[c]);
        }
    }
}

/// A barrier just made for `collector_id` is a fresh one.
proof fn lemma_fresh_abs(b: BarrierView, g: GraphView, collector_id: Seq<char>)
    requires
        forall|x: Seq<char>| #[trigger]
            b.required.contains(x) <==> exists|i: int|
                0 <= i < g.edges.len() && g.edges[i].to == collector_id && merge_key(#[trigger] g.edges[i]) == x,
        b.arrivals == Seq::<ArrivalView>::empty(),
        b.waiting == Seq::<Seq<char>>::empty(),
        !b.released,
        b.snapshot is None,
    ensures
        abs_of(b) == fresh_barrier(g, collector_id),
{
    assert(b.required.to_set() =~= inbound_keys(g, collector_id));
    assert(inputs_of(b.arrivals) =~= Map::<Seq<char>, InputView>::empty());
}

/// Recording an arrival (the first per merge key is kept) adds the input
/// under its merge key unless one is there.
proof fn lemma_inputs_after_arrival(o: Seq<ArrivalView>, n: Seq<ArrivalView>, mk: Seq<char>, input: InputView)
    requires
        arrival_for(o, mk) is Some ==> n == o,
        arrival_for(o, mk) is None ==> arrival_for(n, mk) == Some(input),
        forall|k: Seq<char>| k != mk ==> #[trigger] arrival_for(n, k) == arrival_for(o, k),
    ensures
        inputs_of(n) == if inputs_of(o).contains_key(mk) {
            inputs_of(o)
        } else {
            inputs_of(o).insert(mk, input)
        },
{
    if arrival_for(o, mk) is None {
        let a = inputs_of(n);
        let b = inputs_of(o).insert(mk, input);
        assert forall|k: Seq<char>| a.contains_key(k) <==> b.contains_key(k) by {
            if k != mk {
                assert(arrival_for(n, k) == arrival_for(o, k));
            }
        }
        assert forall|k: Seq<char>| a.contains_key(k) implies a[k] == b[k] by {
            if k != mk {
                assert(arrival_for(n, k) == arrival_for(o, k));
            }
        }
        assert(a =~= b);
    }
}

/// A branch that ended with `status` at node `node_id` reports to the
/// collectors nearest to the node: at each one's barrier in the cursor's
/// scope (made, or started over after a release) it leaves the cursor as
/// snapshot when none is kept, and records a failed input under the edge's
/// merge key unless something arrived there already. Returns the collectors
/// reported to.
pub fn report_branch_failure(
    barriers: &mut CollectorBarriers,
    graph: &WorkflowGraph,
    cursor: &CursorState,
    node_id: &str,
    status: CursorTerminalStatus,
    output: &str,
    stderr: &str,
    exit_code: i32,
    epoch: u64,
) -> (targets: Vec<CollectorTarget>)
    requires
        old(barriers).wf(),
    ensures
        final(barriers).wf(),
        exists|n: nat|
            bfs_steps(graph@, bfs_start(node_id@), n).queue.len() == 0 && targets@.map_values(
                |t: CollectorTarget| t@,
            ) == listing(#[trigger] bfs_steps(graph@, bfs_start(node_id@), n).targets),
        table(final(barriers).keys(), final(barriers).barriers()) == report_all(
            table(old(barriers).keys(), old(barriers).barriers()),
            targets@.map_values(|t: CollectorTarget| t@),
            graph@,
            cursor@,
            status,
            output@,
            stderr@,
            exit_code,
            epoch,
        ),
{
    let targets = nearest_collectors_for_node(graph, node_id);
    let ghost tv = targets@.map_values(|t: CollectorTarget| t@);
    let ghost tab0 = table(barriers.keys(), barriers.barriers());
    let mut t: usize = 0;
    proof {
        assert(tv.take(0) =~= Seq::<TargetView>::empty());
    }
    while t < targets.len()
        invariant
            t <= targets.len(),
            barriers.wf(),
            tv == targets@.map_values(|t: CollectorTarget| t@),
            table(barriers.keys(), barriers.barriers()) == report_all(
                tab0,
                tv.take(t as int),
                graph@,
                cursor@,
                status,
                output@,
                stderr@,
                exit_code,
                epoch,
            ),
        decreases targets.len() - t,
    {
        let target = &targets[t];
        let ghost g = graph@;
        let ghost cid = target.collector_id@;
        let ghost mk = merge_key(target.inbound_edge@);
        let ghost tab_b = table(barriers.keys(), barriers.barriers());
        let ghost keys_b = barriers.keys();
        let ghost bs_b = barriers.barriers();
        proof {
            barriers.lemma_unique_keys();
            barriers.lemma_view_lengths();
            assert(keys_distinct(keys_b));
        }
        let key = CollectorBarrierKey::from_cursor(cursor, target.collector_id.as_str(), epoch);
        let ghost k = key@;
        assert(k == key_of(cursor@, cid, epoch));
        let i = barriers.entry_for(key, graph, target.collector_id.as_str());
        let ghost bs1 = barriers.barriers();
        proof {
            barriers.lemma_unique_keys();
            barriers.lemma_view_lengths();
            if !keys_b.contains(k) {
                assert(barriers.keys()[keys_b.len() as int] == k);
                if (i as int) < keys_b.len() {
                    assert(keys_b[i as int] == k);
                }
                assert(i as int == keys_b.len());
                assert(bs1 =~= bs_b.push(bs1[i as int]));
                lemma_table_push(keys_b, bs_b, k, bs1[i as int]);
                lemma_fresh_abs(bs1[i as int], g, cid);
                assert(!tab_b.contains_key(k));
            } else {
                lemma_table_at(keys_b, bs_b, i as int);
            }
        }
        barriers.reset_released_at(i, graph, target.collector_id.as_str());
        let ghost bs2 = barriers.barriers();
        proof {
            barriers.lemma_view_lengths();
            lemma_table_update(barriers.keys(), bs1, bs2, i as int);
            if bs1[i as int].released {
                lemma_fresh_abs(bs2[i as int], g, cid);
            } else {
                assert(bs2[i as int] == bs1[i as int]);
            }
        }
        barriers.keep_snapshot_at(i, cursor);
        let ghost bs3 = barriers.barriers();
        proof {
            barriers.lemma_view_lengths();
            lemma_table_update(barriers.keys(), bs2, bs3, i as int);
        }
        let arrival = CollectorInputStatus {
            source_node_id: target.inbound_edge.from.clone(),
            edge_id: target.inbound_edge.id.clone(),
            edge_label: crate::graph::clone_opt_string(&target.inbound_edge.label),
            split_family_ids: clone_strings(&cursor.split_family_ids),
            status,
            success: false,
            output: output.to_owned(),
            stderr: stderr.to_owned(),
            exit_code,
        };
        let ghost input = arrival@;
        assert(input == failed_input(target.inbound_edge@, cursor@, status, output@, stderr@, exit_code));
        barriers.insert_arrival_at(i, merge_key_for_edge(&target.inbound_edge), arrival);
        let ghost bs4 = barriers.barriers();
        proof {
            barriers.lemma_view_lengths();
            lemma_table_update(barriers.keys(), bs3, bs4, i as int);
            lemma_inputs_after_arrival(bs3[i as int].arrivals, bs4[i as int].arrivals, mk, input);
            let prev = if tab_b.contains_key(k) {
                Some(tab_b[k])
            } else {
                None
            };
            let want = reported(prev, g, cid, cursor@, mk, input);
            let got = abs_of(bs4[i as int]);
            assert(got.required =~= want.required);
            assert(got.inputs =~= want.inputs);
            assert(got.waiting =~= want.waiting);
            assert(got == want);
            assert(table(barriers.keys(), bs4) =~= tab_b.insert(k, want));
            assert(tv.take(t + 1).drop_last() =~= tv.take(t as int));
            assert(tv.take(t + 1).last() == targets@[t as int]@);
        }
        t += 1;
    }
    proof {
        assert(tv.take(targets.len() as int) =~= tv);
    }
    targets
}

/// The cursor `cursor_id` ended with `status` at node `node_id`: it reports
/// its failure to the nearest collectors, its split families react by their
/// policies, the other cursors are cancelled when the run fails, and it is
/// removed. Returns whether the run fails, or `None`, changing nothing,
/// when no cursor has that id.
pub fn handle_terminal_cursor_status(
    barriers: &mut CollectorBarriers,
    families: &mut SplitFamilies,
    cursors: &mut Vec<CursorState>,
    graph: &WorkflowGraph,
    cursor_id: &str,
    node_id: &str,
    status: CursorTerminalStatus,
    output: &str,
    stderr: &str,
    exit_code: i32,
    epoch: u64,
) -> (r: Option<bool>)
    requires
        old(barriers).wf(),
        old(families).wf(),
    ensures
        final(barriers).wf(),
        final(families).wf(),
        match find_first_cursor(cursors_view(old(cursors)@), cursor_id@) {
            None => {
                &&& r is None
                &&& final(cursors)@ == old(cursors)@
                &&& final(families).view_seq() == old(families).view_seq()
                &&& final(barriers).keys() == old(barriers).keys()
                &&& final(barriers).barriers() == old(barriers).barriers()
            },
            Some(k) => {
                let c = cursors_view(old(cursors)@)[k];
                &&& exists|n: nat|
                    bfs_steps(graph@, bfs_start(node_id@), n).queue.len() == 0 && table(
                        final(barriers).keys(),
                        final(barriers).barriers(),
                    ) == report_all(
                        table(old(barriers).keys(), old(barriers).barriers()),
                        listing(#[trigger] bfs_steps(graph@, bfs_start(node_id@), n).targets),
                        graph@,
                        c,
                        status,
                        output@,
                        stderr@,
                        exit_code,
                        epoch,
                    )
                &&& r == Some(failure_fails_run(old(families).view_seq(), c.split_family_ids))
                &&& final(families).view_seq() == old(families).view_seq().map_values(
                    |f: FamilyView| marked_by_failure(f, c.split_family_ids),
                )
                &&& cursors_view(final(cursors)@) == cursors_after_failure(
                    cursors_view(old(cursors)@),
                    k,
                    r.unwrap(),
                )
            },
        },
{
    let ghost cs = cursors_view(cursors@);
    let k = match find_cursor_index(cursors, cursor_id) {
        Some(k) => k,
        None => {
            proof {
                lemma_no_cursor(cs, cursor_id@);
            }
            return None;
        },
    };
    proof {
        lemma_find_first_cursor(cs, cursor_id@, k as int);
    }
    let cursor = cursors[k].duplicate();
    let targets = report_branch_failure(barriers, graph, &cursor, node_id, status, output, stderr, exit_code, epoch);
    proof {
        let n = choose|n: nat|
            bfs_steps(graph@, bfs_start(node_id@), n).queue.len() == 0 && targets@.map_values(
                |t: CollectorTarget| t@,
            ) == listing(#[trigger] bfs_steps(graph@, bfs_start(node_id@), n).targets);
        assert(bfs_steps(graph@, bfs_start(node_id@), n).queue.len() == 0);
    }
    fail_branch(families, cursors, cursor_id)
}

/// What releasing a barrier does to the cursors, given its waiting list
/// `w`, its snapshot and a fresh id: the first waiting cursor still live
/// carries the collector on and the other live waiting cursors are removed;
/// with none live, the snapshot is revived under the fresh id (unless a
/// cursor has that id already); with no snapshot either, no cursor carries
/// it on. Also returns the id of the cursor that carries it on.
pub open spec fn release_step(
    cs: Seq<CursorView>,
    w: Seq<Seq<char>>,
    snapshot: Option<CursorView>,
    fresh: Seq<char>,
    collector_id: Seq<char>,
) -> (Seq<CursorView>, Option<Seq<char>>) {
    let k = first_live_waiting(w, cs);
    if k >= 0 {
        let rep = w[k];
        let sib = released_siblings(w, cs, rep);
        (cs.filter(|c: CursorView| !sib.contains(c.cursor_id)), Some(rep))
    } else {
        match snapshot {
            Some(snap) => if is_live(cs, fresh) {
                (cs, Some(fresh))
            } else {
                (cs.push(revived(snap, fresh, collector_id)), Some(fresh))
            },
            None => (cs, None),
        }
    }
}

/// No two cursors share an id.
pub open spec fn ids_distinct(cs: Seq<CursorView>) -> bool {
    forall|a: int, b: int| 0 <= a < b < cs.len() ==> cs[a].cursor_id != cs[b].cursor_id
}

proof fn lemma_filter_keeps_distinct(cs: Seq<CursorView>, p: spec_fn(CursorView) -> bool)
    requires
        ids_distinct(cs),
    ensures
        ids_distinct(cs.filter(p)),
    decreases cs.len(),
{
    if cs.len() > 0 {
        let init = cs.drop_last();
        let x = cs.last();
        assert(ids_distinct(init));
        lemma_filter_keeps_distinct(init, p);
        assert(cs =~= init.push(x));
        crate::seqs::lemma_filter_push(init, p, x);
        let f = init.filter(p);
        if p(x) {
            assert forall|a: int| 0 <= a < f.len() implies f[a].cursor_id != x.cursor_id by {
                init.lemma_filter_contains_rev(p, f[a]);
                assert(f.contains(f[a]));
                let j = choose|j: int| 0 <= j < init.len() && init[j] == f[a];
                assert(cs[j] == init[j]);
                assert(cs[cs.len() - 1] == x);
            }
            assert forall|a: int, b: int| 0 <= a < b < f.push(x).len() implies f.push(x)[a].cursor_id
                != f.push(x)[b].cursor_id by {
                if b < f.len() {
                } else {
                    assert(f.push(x)[b] == x);
                }
            }
        }
    }
}

/// Releasing a barrier leaves exactly one cursor to carry the collector on,
/// when one does: it is the only cursor with its id, and no other cursor
/// that waited at the barrier is left.
pub proof fn lemma_release_continues_one_cursor(
    cs: Seq<CursorView>,
    w: Seq<Seq<char>>,
    snapshot: Option<CursorView>,
    fresh: Seq<char>,
    collector_id: Seq<char>,
)
    requires
        ids_distinct(cs),
    ensures
        ({
            let (after, r) = release_step(cs, w, snapshot, fresh, collector_id);
            r matches Some(id) ==> {
                &&& exists|j: int| 0 <= j < after.len() && (#[trigger] after[j]).cursor_id == id
                &&& forall|a: int, b: int|
                    0 <= a < b < after.len() ==> (#[trigger] after[a]).cursor_id != (#[trigger] after[b]).cursor_id
                &&& forall|j: int|
                    0 <= j < after.len() && w.contains(#[trigger] after[j].cursor_id) ==> after[j].cursor_id
                        == id
            }
        }),
{
    let k = first_live_waiting(w, cs);
    let pw = |i: int| is_live(cs, w[i]);
    crate::routing::lemma_first_idx(pw, 0, w.len() as int);
    if k >= 0 {
        let rep = w[k];
        let sib = released_siblings(w, cs, rep);
        let sp = |id: Seq<char>| id != rep && is_live(cs, id);
        let p = |c: CursorView| !sib.contains(c.cursor_id);
        let after = cs.filter(p);
        lemma_filter_keeps_distinct(cs, p);
        assert(pw(k));
        let q = choose|q: int| 0 <= q < cs.len() && (#[trigger] cs[q]).cursor_id == rep;
        assert(!sib.contains(rep)) by {
            if sib.contains(rep) {
                w.lemma_filter_contains_rev(sp, rep);
            }
        }
        cs.lemma_filter_contains(p, q);
        assert(after.contains(cs[q]));
        assert forall|j: int| 0 <= j < after.len() && w.contains(#[trigger] after[j].cursor_id) implies after[j].cursor_id
            == rep by {
            let c = after[j];
            cs.lemma_filter_pred(p, j);
            assert(after.contains(c));
            cs.lemma_filter_contains_rev(p, c);
            let m = choose|m: int| 0 <= m < cs.len() && cs[m] == c;
            assert(is_live(cs, c.cursor_id));
            if c.cursor_id != rep {
                let i = choose|i: int| 0 <= i < w.len() && w[i] == c.cursor_id;
                assert(sp(w[i]));
                w.lemma_filter_contains(sp, i);
            }
        }
    } else {
        match snapshot {
            Some(snap) => {
                if !is_live(cs, fresh) {
                    let after = cs.push(revived(snap, fresh, collector_id));
                    assert(after[cs.len() as int].cursor_id == fresh);
                    assert forall|j: int| 0 <= j < after.len() && w.contains(#[trigger] after[j].cursor_id) implies after[j].cursor_id
                        == fresh by {
                        if j < cs.len() {
                            let i = choose|i: int| 0 <= i < w.len() && w[i] == after[j].cursor_id;
                            assert(cs[j] == after[j]);
                            assert(!pw(i));
                        }
                    }
                    assert forall|a: int, b: int|
                        0 <= a < b < after.len() implies (#[trigger] after[a]).cursor_id != (#[trigger] after[b]).cursor_id by {
                        if b == cs.len() {
                            assert(after[a] == cs[a]);
                        }
                    }
                } else {
                    assert forall|j: int| 0 <= j < cs.len() && w.contains(#[trigger] cs[j].cursor_id) implies cs[j].cursor_id
                        == fresh by {
                        let i = choose|i: int| 0 <= i < w.len() && w[i] == cs[j].cursor_id;
                        assert(!pw(i));
                    }
                }
            },
            None => {},
        }
    }
}

/// Releases barrier `i`: marks it released and hands the collector to one
/// cursor (see `release_step`; `fresh_id` is the id a revived snapshot
/// takes). Returns the id of that cursor, if any.
pub fn release_collector(
    barriers: &mut CollectorBarriers,
    cursors: &mut Vec<CursorState>,
    i: usize,
    fresh_id: String,
) -> (r: Option<String>)
    requires
        old(barriers).wf(),
        i < old(barriers).keys().len(),
    ensures
        final(barriers).wf(),
        final(barriers).keys() == old(barriers).keys(),
        final(barriers).barriers() == old(barriers).barriers().update(
            i as int,
            BarrierView { released: true, ..old(barriers).barriers()[i as int] },
        ),
        (cursors_view(final(cursors)@), r.deep_view()) == release_step(
            cursors_view(old(cursors)@),
            old(barriers).barriers()[i as int].waiting,
            old(barriers).barriers()[i as int].snapshot,
            fresh_id@,
            old(barriers).keys()[i as int].collector_id,
        ),
{
    proof {
        barriers.lemma_view_lengths();
    }
    let ghost cs = cursors_view(cursors@);
    let collector_id = barriers.key_at(i).collector_id.clone();
    let b = barriers.barrier_at(i);
    let ghost w = b.waiting();
    let r = match b.representative_waiting(cursors) {
        Some(k) => {
            let rep = b.waiting_id(k).to_owned();
            let sib = b.released_siblings(cursors, rep.as_str());
            let ghost sv = sib.deep_view();
            let ghost p = |c: CursorView| !sv.contains(c.cursor_id);
            let mut kept: Vec<CursorState> = Vec::new();
            let mut j: usize = 0;
            while j < cursors.len()
                invariant
                    j <= cursors.len(),
                    cs == cursors_view(cursors@),
                    sv == sib.deep_view(),
                    p == (|c: CursorView| !sv.contains(c.cursor_id)),
                    cursors_view(kept@) == cs.take(j as int).filter(p),
                decreases cursors.len() - j,
            {
                proof {
                    crate::seqs::lemma_filter_take_step(cs, p, j as int);
                }
                if !contains_str(&sib, cursors[j].cursor_id.as_str()) {
                    let ghost before = cursors_view(kept@);
                    kept.push(cursors[j].duplicate());
                    assert(cursors_view(kept@) =~= before.push(cs[j as int]));
                }
                j += 1;
            }
            proof {
                crate::seqs::lemma_take_full(cs);
            }
            *cursors = kept;
            Some(rep)
        },
        None => match b.snapshot_copy() {
            Some(snap) => {
                if find_cursor_index(cursors, fresh_id.as_str()).is_none() {
                    let c = revive_from_snapshot(snap, fresh_id.clone(), collector_id.as_str());
                    let ghost before = cursors_view(cursors@);
                    cursors.push(c);
                    assert(cursors_view(cursors@) =~= before.push(c@));
                } else {
                    proof {
                        let k = choose|k: int| 0 <= k < cursors@.len() && cursors@[k]@.cursor_id == fresh_id@;
                        assert(cs[k].cursor_id == fresh_id@);
                    }
                }
                Some(fresh_id)
            },
            None => None,
        },
    };
    barriers.release_at(i);
    r
}

} // verus!
