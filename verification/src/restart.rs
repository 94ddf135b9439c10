//! Restarting a run from a node: the node and everything reachable from it
//! runs again under a new run id and epoch; the results of the other nodes
//! are kept, marked as preserved from the earlier run.

use vstd::prelude::*;

use crate::counters::{Counters, OutputHashes};
use crate::cursor::{CursorRuntimeState, CursorState, CursorView};
use crate::graph::{collect_descendants, find_node, reachable, WorkflowGraph};
use crate::ids::{new_cursor_id, new_run_id, prefixed_id};
use crate::records::RunControlError;
use crate::results::{results_view, NodeResult, NodeResultView};
use crate::strset::contains_str;
use crate::text::{clone_pairs, pairs_view};

verus! {

/// The results a restart from `node_id` keeps: those of nodes the restarted
/// node cannot reach, marked stale and preserved from `run_id`.
pub open spec fn kept_results(g: crate::graph::GraphView, node_id: Seq<char>, rs: Seq<NodeResultView>, run_id: Seq<char>) -> Seq<NodeResultView> {
    rs.filter(|r: NodeResultView| !reachable(g, node_id, r.node_id)).map_values(
        |r: NodeResultView| NodeResultView { stale: true, preserved_from_run_id: Some(run_id), ..r },
    )
}

/// The cursor a restart starts with, seeing the run's variables.
pub open spec fn restart_cursor(
    cursor_id: Seq<char>,
    node_id: Seq<char>,
    epoch: u64,
    last_output: Seq<char>,
    var_map: Seq<(Seq<char>, Seq<char>)>,
) -> CursorView {
    CursorView {
        cursor_id,
        node_id,
        execution_epoch: epoch,
        parent_cursor_id: None,
        incoming_edge_id: None,
        incoming_node_id: None,
        split_family_ids: Seq::empty(),
        last_output,
        loop_counters: Seq::empty(),
        visit_counters: Seq::empty(),
        var_map,
        call_stack: Seq::empty(),
        last_branch_origin_id: None,
        last_branch_choice: None,
        cancel_requested: false,
        state: CursorRuntimeState::Runnable,
    }
}

/// What a restart starts from.
#[derive(Debug)]
pub struct RestartPlan {
    pub run_id: String,
    pub execution_epoch: u64,
    pub cursor: CursorState,
    pub results: Vec<NodeResult>,
    pub last_output: String,
}

/// Plans the restart of run `run_id` from `node_id`: refused when the
/// workflow has no such node; otherwise the epoch advances (saturating),
/// the results, counters and output histories of every node reachable from
/// `node_id` are dropped, the other results are kept as preserved, and one
/// fresh cursor starts at `node_id` with the output of the last kept result
/// and the run's variables `var_map`.
pub fn plan_restart(
    graph: &WorkflowGraph,
    node_id: &str,
    run_id: &str,
    execution_epoch: u64,
    var_map: &Vec<(String, String)>,
    results: Vec<NodeResult>,
    loop_counters: &mut Counters,
    visit_counters: &mut Counters,
    output_hashes: &mut OutputHashes,
) -> (r: Result<RestartPlan, RunControlError>)
    ensures
        (forall|j: int| 0 <= j < graph@.nodes.len() ==> graph@.nodes[j].id != node_id@) <==> r is Err,
        r is Err ==> r == Err::<RestartPlan, RunControlError>(RunControlError::NodeNotFound)
            && *final(loop_counters) == *old(loop_counters) && *final(visit_counters) == *old(visit_counters)
            && *final(output_hashes) == *old(output_hashes),
        r is Ok ==> ({
            let p = r.unwrap();
            let kept = kept_results(graph@, node_id@, results_view(results@), run_id@);
            &&& prefixed_id("run_"@, p.run_id@)
            &&& p.execution_epoch == (if execution_epoch == u64::MAX {
                u64::MAX
            } else {
                (execution_epoch + 1) as u64
            })
            &&& results_view(p.results@) == kept
            &&& p.last_output@ == (if kept.len() > 0 {
                kept.last().output
            } else {
                Seq::empty()
            })
            &&& prefixed_id("cursor_"@, p.cursor@.cursor_id)
            &&& p.cursor@ == restart_cursor(
                p.cursor@.cursor_id,
                node_id@,
                p.execution_epoch,
                p.last_output@,
                pairs_view(var_map@),
            )
            &&& forall|k: Seq<char>|
                #[trigger] final(loop_counters).count(k) == if reachable(graph@, node_id@, k) {
                    0
                } else {
                    old(loop_counters).count(k)
                }
            &&& forall|k: Seq<char>|
                #[trigger] final(visit_counters).count(k) == if reachable(graph@, node_id@, k) {
                    0
                } else {
                    old(visit_counters).count(k)
                }
            &&& forall|k: Seq<char>|
                #[trigger] final(output_hashes).history(k) == if reachable(graph@, node_id@, k) {
                    Seq::<u32>::empty()
                } else {
                    old(output_hashes).history(k)
                }
        }),
{
    if find_node(graph, node_id).is_none() {
        return Err(RunControlError::NodeNotFound);
    }
    let descendants = collect_descendants(graph, node_id);
    let ghost g = graph@;
    let ghost start = node_id@;
    let mut d: usize = 0;
    while d < descendants.len()
        invariant
            d <= descendants.len(),
            forall|x: Seq<char>| #[trigger]
                descendants.deep_view().contains(x) <==> reachable(g, start, x),
            forall|k: Seq<char>|
                #[trigger] loop_counters.count(k) == if descendants.deep_view().take(d as int).contains(k) {
                    0
                } else {
                    old(loop_counters).count(k)
                },
            forall|k: Seq<char>|
                #[trigger] visit_counters.count(k) == if descendants.deep_view().take(d as int).contains(k) {
                    0
                } else {
                    old(visit_counters).count(k)
                },
            forall|k: Seq<char>|
                #[trigger] output_hashes.history(k) == if descendants.deep_view().take(d as int).contains(k) {
                    Seq::<u32>::empty()
                } else {
                    old(output_hashes).history(k)
                },
        decreases descendants.len() - d,
    {
        let name = descendants[d].as_str();
        proof {
            assert(descendants.deep_view()[d as int] == name@);
            assert forall|k: Seq<char>|
                descendants.deep_view().take(d + 1).contains(k) == (descendants.deep_view().take(d as int).contains(k)
                    || k == name@) by {
                let t1 = descendants.deep_view().take(d + 1);
                let t0 = descendants.deep_view().take(d as int);
                assert(t1 =~= t0.push(name@));
                if t1.contains(k) && k != name@ {
                    let c = choose|c: int| 0 <= c < t1.len() && t1[c] == k;
                    assert(t0[c] == k);
                }
                if t0.contains(k) {
                    let c = choose|c: int| 0 <= c < t0.len() && t0[c] == k;
                    assert(t1[c] == k);
                }
                if k == name@ {
                    assert(t1[d as int] == k);
                }
            }
        }
        let ghost lc = *loop_counters;
        let ghost vc = *visit_counters;
        loop_counters.remove(name);
        visit_counters.remove(name);
        output_hashes.remove(name);
        proof {
            assert forall|k: Seq<char>|
                #[trigger] loop_counters.count(k) == if descendants.deep_view().take(d + 1).contains(k) {
                    0
                } else {
                    old(loop_counters).count(k)
                } by {
                let t1 = descendants.deep_view().take(d + 1);
                let t0 = descendants.deep_view().take(d as int);
                assert(t1.contains(k) == (t0.contains(k) || k == name@));
                if k != name@ {
                    assert(loop_counters.count(k) == lc.count(k));
                    assert(lc.count(k) == if t0.contains(k) {
                        0
                    } else {
                        old(loop_counters).count(k)
                    });
                }
            }
            assert forall|k: Seq<char>|
                #[trigger] visit_counters.count(k) == if descendants.deep_view().take(d + 1).contains(k) {
                    0
                } else {
                    old(visit_counters).count(k)
                } by {
                let t1 = descendants.deep_view().take(d + 1);
                let t0 = descendants.deep_view().take(d as int);
                assert(t1.contains(k) == (t0.contains(k) || k == name@));
                if k != name@ {
                    assert(visit_counters.count(k) == vc.count(k));
                    assert(vc.count(k) == if t0.contains(k) {
                        0
                    } else {
                        old(visit_counters).count(k)
                    });
                }
            }
        }
        d += 1;
    }
    proof {
        assert(descendants.deep_view().take(descendants.len() as int) =~= descendants.deep_view());
    }
    let ghost rv = results_view(results@);
    let ghost keep = |x: NodeResultView| !reachable(g, start, x.node_id);
    let mut kept: Vec<NodeResult> = Vec::new();
    let mut rest = results;
    let ghost src = rest@;
    assert(src.len() == rest.len());
    let mut i: usize = 0;
    while rest.len() > 0
        invariant
            i + rest.len() == src.len(),
            src.len() <= usize::MAX,
            rest@ == src.skip(i as int),
            rv == results_view(src),
            keep == (|x: NodeResultView| !reachable(g, start, x.node_id)),
            forall|x: Seq<char>| #[trigger]
                descendants.deep_view().contains(x) <==> reachable(g, start, x),
            results_view(kept@) == rv.take(i as int).filter(keep).map_values(
                |r: NodeResultView| NodeResultView { stale: true, preserved_from_run_id: Some(run_id@), ..r },
            ),
        decreases rest.len(),
    {
        let mut res = rest.remove(0);
        proof {
            assert(res == src[i as int]);
            assert(rest@ =~= src.skip(i + 1));
            crate::seqs::lemma_filter_take_step(rv, keep, i as int);
        }
        if !contains_str(&descendants, res.node_id.as_str()) {
            let ghost before = results_view(kept@);
            let ghost f = rv.take(i as int).filter(keep);
            res.stale = true;
            res.preserved_from_run_id = Some(run_id.to_owned());
            kept.push(res);
            proof {
                assert(results_view(kept@) =~= before.push(results_view(kept@)[kept@.len() - 1]));
                assert(f.push(rv[i as int]).map_values(
                    |r: NodeResultView| NodeResultView { stale: true, preserved_from_run_id: Some(run_id@), ..r },
                ) =~= f.map_values(
                    |r: NodeResultView| NodeResultView { stale: true, preserved_from_run_id: Some(run_id@), ..r },
                ).push(NodeResultView { stale: true, preserved_from_run_id: Some(run_id@), ..rv[i as int] }));
            }
        }
        i += 1;
    }
    proof {
        crate::seqs::lemma_take_full(rv);
    }
    let last_output = if kept.len() > 0 {
        kept[kept.len() - 1].output.clone()
    } else {
        String::new()
    };
    proof {
        let kv = results_view(kept@);
        if kept.len() > 0 {
            assert(kv.last() == kept@[kept.len() - 1]@);
        }
    }
    let epoch = if execution_epoch == u64::MAX { u64::MAX } else { execution_epoch + 1 };
    let cursor = CursorState {
        cursor_id: new_cursor_id(),
        node_id: node_id.to_owned(),
        execution_epoch: epoch,
        parent_cursor_id: None,
        incoming_edge_id: None,
        incoming_node_id: None,
        split_family_ids: Vec::new(),
        last_output: last_output.clone(),
        loop_counters: Counters::new(),
        visit_counters: Counters::new(),
        var_map: clone_pairs(var_map),
        call_stack: Vec::new(),
        last_branch_origin_id: None,
        last_branch_choice: None,
        cancel_requested: false,
        state: CursorRuntimeState::Runnable,
    };
    proof {
        assert(cursor.split_family_ids.deep_view() =~= Seq::<Seq<char>>::empty());
        assert(cursor@.call_stack =~= Seq::empty());
    }
    Ok(RestartPlan { run_id: new_run_id(), execution_epoch: epoch, cursor, results: kept, last_output })
}

} // verus!
