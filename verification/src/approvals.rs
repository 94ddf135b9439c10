//! Approval nodes: cursors queue their approvals, one approval at a time is
//! pending before the user, and the user's answer decides the node's result
//! and where the cursor goes next.

use vstd::prelude::*;

use crate::cursor::{
    CursorRuntimeState, CursorState, CursorView, PendingApproval, QueuedApproval, ApprovalView,
    approval_wait_consistent, cursors_view, find_cursor_index, find_first_cursor,
    is_approval_wait_consistent, lemma_find_first_cursor, lemma_no_cursor, queued_view,
};
use crate::graph::{WorkflowGraph, WorkflowNode, WorkflowEdge, WorkflowEdgeOutcome, EdgeView, first_success_edge, select_success_edge};
use crate::routing::{find_edge, first_edge_is};
use crate::text::{trim_str, trim_ws};

verus! {

/// The user's answer to an approval.
#[derive(Debug)]
pub struct ApprovalDecision {
    pub approved: bool,
    pub user_input: String,
}

/// The result an approval node records.
#[derive(Debug)]
pub struct ApprovalResult {
    pub success: bool,
    pub output: String,
    pub stderr: String,
    pub exit_code: i32,
}

pub struct ApprovalResultView {
    pub success: bool,
    pub output: Seq<char>,
    pub stderr: Seq<char>,
    pub exit_code: i32,
}

impl View for ApprovalResult {
    type V = ApprovalResultView;

    open spec fn view(&self) -> ApprovalResultView {
        ApprovalResultView {
            success: self.success,
            output: self.output@,
            stderr: self.stderr@,
            exit_code: self.exit_code,
        }
    }
}

/// The recorded result for an answer (no answer counts as a rejection): an
/// approval outputs the user's input, or `[Approved by user]` when the input
/// is blank; a rejection outputs nothing, with `Rejected by user` as stderr
/// and exit code 1.
pub open spec fn approval_result_of(approved: bool, user_input: Seq<char>) -> ApprovalResultView {
    if approved {
        ApprovalResultView {
            success: true,
            output: if trim_ws(user_input).len() == 0 {
                "[Approved by user]"@
            } else {
                user_input
            },
            stderr: Seq::empty(),
            exit_code: 0,
        }
    } else {
        ApprovalResultView {
            success: false,
            output: Seq::empty(),
            stderr: "Rejected by user"@,
            exit_code: 1,
        }
    }
}

/// What an answer records, over all answers: it succeeds exactly when the
/// user approved; a rejection records the same result whatever the user
/// typed (no output, `Rejected by user`, exit code 1); an approval records
/// exit code 0, no stderr and a non-empty output, which is the user's input
/// whenever that holds more than white space.
pub proof fn lemma_approval_results(approved: bool, user_input: Seq<char>, other_input: Seq<char>)
    ensures
        approval_result_of(approved, user_input).success == approved,
        !approved ==> approval_result_of(approved, user_input) == approval_result_of(false, other_input),
        !approved ==> approval_result_of(approved, user_input).output.len() == 0
            && approval_result_of(approved, user_input).stderr == "Rejected by user"@
            && approval_result_of(approved, user_input).exit_code == 1,
        approved ==> approval_result_of(approved, user_input).exit_code == 0
            && approval_result_of(approved, user_input).stderr.len() == 0
            && approval_result_of(approved, user_input).output.len() > 0,
        approved && trim_ws(user_input).len() > 0 ==> approval_result_of(approved, user_input).output == user_input,
        approved && trim_ws(user_input).len() == 0 ==> approval_result_of(approved, user_input).output
            == "[Approved by user]"@,
{
    reveal_strlit("[Approved by user]");
    if user_input.len() == 0 {
        assert(crate::text::trim_start_by(user_input, crate::text::Strip::Whitespace) == user_input);
        assert(trim_ws(user_input).len() == 0);
    }
}

/// The result an approval node records for the decision it got; no decision
/// counts as a rejection without input.
pub fn approval_result(decision: Option<ApprovalDecision>) -> (r: ApprovalResult)
    ensures
        r@ == match decision {
            Some(d) => approval_result_of(d.approved, d.user_input@),
            None => approval_result_of(false, Seq::empty()),
        },
        r.success == match decision {
            Some(d) => d.approved,
            None => false,
        },
        !r.success ==> r.output@ == Seq::<char>::empty() && r.stderr@ == "Rejected by user"@ && r.exit_code == 1,
        r.success ==> r.stderr@ == Seq::<char>::empty() && r.exit_code == 0 && r.output@.len() > 0,
        match decision {
            Some(d) => d.approved ==> r.output@ == if trim_ws(d.user_input@).len() == 0 {
                "[Approved by user]"@
            } else {
                d.user_input@
            },
            None => true,
        },
{
    let (approved, user_input) = match decision {
        Some(d) => (d.approved, d.user_input),
        None => (false, String::new()),
    };
    proof {
        lemma_approval_results(approved, user_input@, Seq::empty());
    }
    if approved {
        let blank = trim_str(user_input.as_str()).as_str().is_empty();
        let output = if blank {
            "[Approved by user]".to_string()
        } else {
            user_input
        };
        ApprovalResult { success: true, output, stderr: String::new(), exit_code: 0 }
    } else {
        ApprovalResult {
            success: false,
            output: String::new(),
            stderr: "Rejected by user".to_string(),
            exit_code: 1,
        }
    }
}

/// Where the cursor goes after an answer.
#[derive(Debug)]
pub enum ApprovalRoute {
    /// Approved: along the node's first success edge.
    Advance(WorkflowEdge),
    /// Approved, and the node has no success edge: the cursor is done.
    Finish,
    /// Rejected: along the node's first reject edge.
    Reject(WorkflowEdge),
    /// Rejected, and the node has no reject edge: the branch fails.
    Fail,
}

/// Where an approval node goes once decided: its approved or rejected edge.
pub fn approval_route(graph: &WorkflowGraph, node_id: &str, approved: bool) -> (r: ApprovalRoute)
    ensures
        approved ==> match r {
            ApprovalRoute::Advance(e) => first_success_edge(graph@, node_id@) == Some(e@),
            ApprovalRoute::Finish => first_success_edge(graph@, node_id@) is None,
            _ => false,
        },
        !approved ==> ({
            let k = first_edge_is(graph@, node_id@, WorkflowEdgeOutcome::Reject, None);
            match r {
                ApprovalRoute::Reject(e) => k >= 0 && e@ == graph@.edges[k],
                ApprovalRoute::Fail => k == -1,
                _ => false,
            }
        }),
{
    if approved {
        match select_success_edge(graph, node_id) {
            Some(e) => ApprovalRoute::Advance(e),
            None => ApprovalRoute::Finish,
        }
    } else {
        match find_edge(graph, node_id, WorkflowEdgeOutcome::Reject, None) {
            Some(i) => {
                let e = graph.edges[i].duplicate();
                proof {
                    assert(graph@.edges[i as int] == graph.edges@[i as int]@);
                }
                ApprovalRoute::Reject(e)
            },
            None => ApprovalRoute::Fail,
        }
    }
}

/// The approval a cursor queues when it reaches an approval node.
pub open spec fn queued_for(c: CursorView, node_id: Seq<char>, node_name: Seq<char>, prompt: Seq<char>) -> ApprovalView {
    ApprovalView {
        cursor_id: c.cursor_id,
        node_id,
        node_name,
        prompt,
        last_output: c.last_output,
    }
}

/// The cursor `cursor_id` reaches the approval node `node`: it waits, and its
/// approval joins the end of the queue. Returns false, changing nothing,
/// when no cursor has that id.
pub fn queue_approval(
    cursors: &mut Vec<CursorState>,
    queued: &mut Vec<QueuedApproval>,
    cursor_id: &str,
    node: &WorkflowNode,
) -> (r: bool)
    ensures
        final(cursors).len() == old(cursors).len(),
        match find_first_cursor(cursors_view(old(cursors)@), cursor_id@) {
            Some(k) => {
                &&& r
                &&& final(cursors)@[k]@ == (CursorView {
                    state: CursorRuntimeState::WaitingApproval,
                    ..old(cursors)@[k]@
                })
                &&& forall|j: int|
                    0 <= j < old(cursors).len() && j != k ==> (#[trigger] final(cursors)@[j]) == old(
                        cursors,
                    )@[j]
                &&& queued_view(final(queued)@) == queued_view(old(queued)@).push(
                    queued_for(old(cursors)@[k]@, node@.id, node@.name, node@.prompt),
                )
            },
            None => !r && final(cursors)@ == old(cursors)@ && final(queued)@ == old(queued)@,
        },
{
    match find_cursor_index(cursors, cursor_id) {
        Some(k) => {
            proof {
                lemma_find_first_cursor(cursors_view(cursors@), cursor_id@, k as int);
            }
            let last_output = cursors[k].last_output.clone();
            cursors[k].state = CursorRuntimeState::WaitingApproval;
            let ghost before = queued_view(queued@);
            queued.push(
                QueuedApproval {
                    approval: PendingApproval {
                        cursor_id: cursor_id.to_owned(),
                        node_id: node.id.clone(),
                        node_name: node.name.clone(),
                        prompt: node.prompt.clone(),
                        last_output,
                    },
                },
            );
            proof {
                assert(queued_view(queued@) =~= before.push(
                    queued_for(old(cursors)@[k as int]@, node@.id, node@.name, node@.prompt),
                ));
            }
            true
        },
        None => {
            proof {
                lemma_no_cursor(cursors_view(cursors@), cursor_id@);
            }
            false
        },
    }
}

/// When no approval is pending, the oldest queued approval becomes pending.
/// Returns whether one did.
pub fn activate_next_approval(pending: &mut Option<PendingApproval>, queued: &mut Vec<QueuedApproval>) -> (r: bool)
    ensures
        r == ((*old(pending)) is None && old(queued).len() > 0),
        r ==> (*final(pending)) is Some && (*final(pending)).unwrap()@ == queued_view(old(queued)@)[0]
            && queued_view(final(queued)@) == queued_view(old(queued)@).skip(1),
        !r ==> *final(pending) == *old(pending) && final(queued)@ == old(queued)@,
{
    if pending.is_some() || queued.len() == 0 {
        return false;
    }
    let ghost before = queued_view(queued@);
    let q = queued.remove(0);
    proof {
        assert(queued_view(queued@) =~= before.skip(1));
    }
    *pending = Some(q.approval);
    true
}

/// Drops the cursors waiting on an approval that neither the pending
/// approval, the queue, nor the pending fallback accounts for. Returns the
/// dropped cursors, in order; the rest stay, in order.
pub fn drop_inconsistent_waiting_approval_cursors(
    cursors: &mut Vec<CursorState>,
    pending: &Option<PendingApproval>,
    queued: &Vec<QueuedApproval>,
) -> (dropped: Vec<CursorState>)
    ensures
        ({
            let p = match pending {
                Some(a) => Some(a@),
                None => None,
            };
            let q = queued_view(queued@);
            &&& cursors_view(final(cursors)@) == cursors_view(old(cursors)@).filter(
                |c: CursorView| approval_wait_consistent(p, q, c),
            )
            &&& cursors_view(dropped@) == cursors_view(old(cursors)@).filter(
                |c: CursorView| !approval_wait_consistent(p, q, c),
            )
        }),
{
    let ghost p = match pending {
        Some(a) => Some(a@),
        None => None,
    };
    let ghost q = queued_view(queued@);
    let ghost keep = |c: CursorView| approval_wait_consistent(p, q, c);
    let ghost drop = |c: CursorView| !approval_wait_consistent(p, q, c);
    let ghost ov = cursors_view(cursors@);
    let mut rest: Vec<CursorState> = Vec::new();
    std::mem::swap(&mut rest, cursors);
    let ghost src = rest@;
    assert(src.len() == rest.len());
    let mut dropped: Vec<CursorState> = Vec::new();
    let mut i: usize = 0;
    while rest.len() > 0
        invariant
            i + rest.len() == src.len(),
            src.len() <= usize::MAX,
            rest@ == src.skip(i as int),
            ov == cursors_view(src),
            cursors_view(cursors@) == ov.take(i as int).filter(keep),
            cursors_view(dropped@) == ov.take(i as int).filter(drop),
            p == match pending {
                Some(a) => Some(a@),
                None => None,
            },
            q == queued_view(queued@),
            keep == (|c: CursorView| approval_wait_consistent(p, q, c)),
            drop == (|c: CursorView| !approval_wait_consistent(p, q, c)),
        decreases rest.len(),
    {
        let c = rest.remove(0);
        proof {
            assert(c == src[i as int]);
            assert(ov[i as int] == c@);
            crate::seqs::lemma_filter_take_step(ov, keep, i as int);
            crate::seqs::lemma_filter_take_step(ov, drop, i as int);
            assert(rest@ =~= src.skip(i + 1));
        }
        if is_approval_wait_consistent(pending, queued, &c) {
            let ghost before = cursors@;
            cursors.push(c);
            proof {
                assert(cursors_view(cursors@) =~= cursors_view(before).push(ov[i as int]));
            }
        } else {
            let ghost before = dropped@;
            dropped.push(c);
            proof {
                assert(cursors_view(dropped@) =~= cursors_view(before).push(ov[i as int]));
            }
        }
        i += 1;
    }
    proof {
        crate::seqs::lemma_take_full(ov);
    }
    dropped
}

/// What answering an approval did.
#[derive(Debug)]
pub enum ApprovalStep {
    /// No cursor has the id, or its node is not in the graph.
    Ignore,
    /// The cursor stands at its subflow's exit: the call completes with the
    /// result.
    CompleteSubflow(ApprovalResult),
    /// The cursor was routed (see `approval_moved`): advanced along the
    /// success edge, removed as finished, sent along the reject edge, or (on
    /// `Fail`) left for its branch failure to be handled.
    Routed(ApprovalResult, ApprovalRoute),
}

/// The cursor moved along `e` from node `from`, runnable; on an approval it
/// carries the approval's output.
pub open spec fn moved_along(c: CursorView, e: EdgeView, from: Seq<char>, output: Option<Seq<char>>) -> CursorView {
    CursorView {
        node_id: e.to,
        incoming_edge_id: Some(e.id),
        incoming_node_id: Some(from),
        last_output: match output {
            Some(o) => o,
            None => c.last_output,
        },
        state: CursorRuntimeState::Runnable,
        ..c
    }
}

/// The cursors after the cursor at `i` was routed by `route`.
pub open spec fn approval_moved(cs: Seq<CursorView>, i: int, route: ApprovalRoute, output: Seq<char>) -> Seq<
    CursorView,
> {
    let c = cs[i];
    match route {
        ApprovalRoute::Advance(e) => cs.update(i, moved_along(c, e@, c.node_id, Some(output))),
        ApprovalRoute::Finish => cs.remove(i),
        ApprovalRoute::Reject(e) => cs.update(i, moved_along(c, e@, c.node_id, None)),
        ApprovalRoute::Fail => cs,
    }
}

/// Applies the user's answer to the approval of cursor `cursor_id`: the
/// pending approval is cleared; the result is made from the answer; a cursor
/// at its subflow's exit completes the call, any other is routed by the
/// answer.
pub fn approval_step(
    pending: &mut Option<PendingApproval>,
    cursors: &mut Vec<CursorState>,
    graph: &WorkflowGraph,
    cursor_id: &str,
    decision: Option<ApprovalDecision>,
) -> (r: ApprovalStep)
    ensures
        (*final(pending)) is None,
        match find_first_cursor(cursors_view(old(cursors)@), cursor_id@) {
            None => r is Ignore && final(cursors)@ == old(cursors)@,
            Some(i) => {
                let c = cursors_view(old(cursors)@)[i];
                let approved = match decision {
                    Some(d) => d.approved,
                    None => false,
                };
                let res = match decision {
                    Some(d) => approval_result_of(d.approved, d.user_input@),
                    None => approval_result_of(false, Seq::empty()),
                };
                if !(exists|j: int| 0 <= j < graph@.nodes.len() && graph@.nodes[j].id == c.node_id) {
                    r is Ignore && final(cursors)@ == old(cursors)@
                } else if crate::lifecycle::at_subflow_exit(c, c.node_id) {
                    r matches ApprovalStep::CompleteSubflow(x) && x@ == res && final(cursors)@ == old(cursors)@
                } else {
                    r matches ApprovalStep::Routed(x, route) && x@ == res && cursors_view(final(cursors)@)
                        == approval_moved(cursors_view(old(cursors)@), i, route, res.output) && (approved
                        ==> match route {
                        ApprovalRoute::Advance(e) => first_success_edge(graph@, c.node_id) == Some(e@),
                        ApprovalRoute::Finish => first_success_edge(graph@, c.node_id) is None,
                        _ => false,
                    }) && (!approved ==> ({
                        let k = first_edge_is(graph@, c.node_id, WorkflowEdgeOutcome::Reject, None);
                        match route {
                            ApprovalRoute::Reject(e) => k >= 0 && e@ == graph@.edges[k],
                            ApprovalRoute::Fail => k == -1,
                            _ => false,
                        }
                    }))
                }
            },
        },
{
    *pending = None;
    let ghost cs = cursors_view(cursors@);
    let i = match find_cursor_index(cursors, cursor_id) {
        Some(i) => i,
        None => {
            proof {
                lemma_no_cursor(cs, cursor_id@);
            }
            return ApprovalStep::Ignore;
        },
    };
    proof {
        lemma_find_first_cursor(cs, cursor_id@, i as int);
    }
    let node_id = cursors[i].node_id.clone();
    if crate::graph::find_node(graph, node_id.as_str()).is_none() {
        return ApprovalStep::Ignore;
    }
    let approved = match &decision {
        Some(d) => d.approved,
        None => false,
    };
    let result = approval_result(decision);
    if crate::lifecycle::should_complete_subflow(&cursors[i], node_id.as_str()) {
        return ApprovalStep::CompleteSubflow(result);
    }
    let route = approval_route(graph, node_id.as_str(), approved);
    match &route {
        ApprovalRoute::Advance(e) => {
            let mut c = cursors[i].duplicate();
            c.node_id = e.to.clone();
            c.incoming_edge_id = Some(e.id.clone());
            c.incoming_node_id = Some(node_id.clone());
            c.last_output = result.output.clone();
            c.state = CursorRuntimeState::Runnable;
            cursors.set(i, c);
            assert(cursors_view(cursors@) =~= approval_moved(cs, i as int, route, result@.output));
        },
        ApprovalRoute::Finish => {
            cursors.remove(i);
            assert(cursors_view(cursors@) =~= approval_moved(cs, i as int, route, result@.output));
        },
        ApprovalRoute::Reject(e) => {
            let mut c = cursors[i].duplicate();
            c.node_id = e.to.clone();
            c.incoming_edge_id = Some(e.id.clone());
            c.incoming_node_id = Some(node_id.clone());
            c.state = CursorRuntimeState::Runnable;
            cursors.set(i, c);
            assert(cursors_view(cursors@) =~= approval_moved(cs, i as int, route, result@.output));
        },
        ApprovalRoute::Fail => {},
    }
    ApprovalStep::Routed(result, route)
}

} // verus!
