//! Cursors: the independent threads of execution of a run, their call
//! stacks into subflows, and the approvals they wait on.

use vstd::prelude::*;

use crate::counters::Counters;
use crate::graph::clone_opt_string;
use crate::results::{clone_results, results_view, NodeResult, NodeResultView};
use crate::text::{clone_pairs, extend_str, join_strings, join_with, pairs_view, str_eq, string_of};

verus! {

#[derive(Debug, Clone, Copy, PartialEq, Eq, Structural)]
pub enum CursorRuntimeState {
    Runnable,
    Running,
    WaitingCollector,
    WaitingApproval,
}

#[derive(Debug, Clone, Copy, PartialEq, Eq, Structural)]
pub enum CursorTerminalStatus {
    Success,
    Failure,
    Timeout,
    Cancelled,
}

#[derive(Debug, Clone, Copy, PartialEq, Eq, Structural)]
pub enum RuntimeStatus {
    Running,
    Paused,
    Completed,
    Failed,
    Aborted,
    Restarted,
}

/// One frame of a cursor's call stack: a call into a subflow, with the
/// parent's state that returning from the subflow restores.
#[derive(Debug)]
pub struct CallFrameState {
    pub frame_id: String,
    pub call_node_id: String,
    pub call_node_name: String,
    pub subflow_name: String,
    pub exit_node_id: String,
    pub parent_last_output: String,
    pub parent_loop_counters: Counters,
    pub parent_visit_counters: Counters,
    pub parent_last_branch_origin_id: Option<String>,
    pub parent_last_branch_choice: Option<String>,
    pub parent_var_map: Vec<(String, String)>,
    /// The results recorded inside this call.
    pub subflow_results: Vec<NodeResult>,
}

pub struct FrameView {
    pub frame_id: Seq<char>,
    pub call_node_id: Seq<char>,
    pub call_node_name: Seq<char>,
    pub subflow_name: Seq<char>,
    pub exit_node_id: Seq<char>,
    pub parent_last_output: Seq<char>,
    pub parent_loop_counters: Seq<(Seq<char>, u32)>,
    pub parent_visit_counters: Seq<(Seq<char>, u32)>,
    pub parent_last_branch_origin_id: Option<Seq<char>>,
    pub parent_last_branch_choice: Option<Seq<char>>,
    pub parent_var_map: Seq<(Seq<char>, Seq<char>)>,
    pub subflow_results: Seq<NodeResultView>,
}

impl View for CallFrameState {
    type V = FrameView;

    open spec fn view(&self) -> FrameView {
        FrameView {
            frame_id: self.frame_id@,
            call_node_id: self.call_node_id@,
            call_node_name: self.call_node_name@,
            subflow_name: self.subflow_name@,
            exit_node_id: self.exit_node_id@,
            parent_last_output: self.parent_last_output@,
            parent_loop_counters: self.parent_loop_counters.entries_view(),
            parent_visit_counters: self.parent_visit_counters.entries_view(),
            parent_last_branch_origin_id: self.parent_last_branch_origin_id.deep_view(),
            parent_last_branch_choice: self.parent_last_branch_choice.deep_view(),
            parent_var_map: pairs_view(self.parent_var_map@),
            subflow_results: results_view(self.subflow_results@),
        }
    }
}

impl CallFrameState {
    /// A copy of the frame.
    pub fn duplicate(&self) -> (r: CallFrameState)
        ensures
            r@ == self@,
    {
        CallFrameState {
            frame_id: self.frame_id.clone(),
            call_node_id: self.call_node_id.clone(),
            call_node_name: self.call_node_name.clone(),
            subflow_name: self.subflow_name.clone(),
            exit_node_id: self.exit_node_id.clone(),
            parent_last_output: self.parent_last_output.clone(),
            parent_loop_counters: self.parent_loop_counters.duplicate(),
            parent_visit_counters: self.parent_visit_counters.duplicate(),
            parent_last_branch_origin_id: clone_opt_string(&self.parent_last_branch_origin_id),
            parent_last_branch_choice: clone_opt_string(&self.parent_last_branch_choice),
            parent_var_map: clone_pairs(&self.parent_var_map),
            subflow_results: clone_results(&self.subflow_results),
        }
    }
}

/// The scheduling state of one cursor.
#[derive(Debug)]
pub struct CursorState {
    pub cursor_id: String,
    pub node_id: String,
    pub execution_epoch: u64,
    pub parent_cursor_id: Option<String>,
    pub incoming_edge_id: Option<String>,
    pub incoming_node_id: Option<String>,
    pub split_family_ids: Vec<String>,
    pub last_output: String,
    pub loop_counters: Counters,
    pub visit_counters: Counters,
    /// The variables the cursor sees (empty at the root: the run's).
    pub var_map: Vec<(String, String)>,
    pub call_stack: Vec<CallFrameState>,
    pub last_branch_origin_id: Option<String>,
    pub last_branch_choice: Option<String>,
    pub cancel_requested: bool,
    pub state: CursorRuntimeState,
}

pub struct CursorView {
    pub cursor_id: Seq<char>,
    pub node_id: Seq<char>,
    pub execution_epoch: u64,
    pub parent_cursor_id: Option<Seq<char>>,
    pub incoming_edge_id: Option<Seq<char>>,
    pub incoming_node_id: Option<Seq<char>>,
    pub split_family_ids: Seq<Seq<char>>,
    pub last_output: Seq<char>,
    pub loop_counters: Seq<(Seq<char>, u32)>,
    pub visit_counters: Seq<(Seq<char>, u32)>,
    pub var_map: Seq<(Seq<char>, Seq<char>)>,
    pub call_stack: Seq<FrameView>,
    pub last_branch_origin_id: Option<Seq<char>>,
    pub last_branch_choice: Option<Seq<char>>,
    pub cancel_requested: bool,
    pub state: CursorRuntimeState,
}

impl View for CursorState {
    type V = CursorView;

    open spec fn view(&self) -> CursorView {
        CursorView {
            cursor_id: self.cursor_id@,
            node_id: self.node_id@,
            execution_epoch: self.execution_epoch,
            parent_cursor_id: self.parent_cursor_id.deep_view(),
            incoming_edge_id: self.incoming_edge_id.deep_view(),
            incoming_node_id: self.incoming_node_id.deep_view(),
            split_family_ids: self.split_family_ids.deep_view(),
            last_output: self.last_output@,
            loop_counters: self.loop_counters.entries_view(),
            visit_counters: self.visit_counters.entries_view(),
            var_map: pairs_view(self.var_map@),
            call_stack: self.call_stack@.map_values(|f: CallFrameState| f@),
            last_branch_origin_id: self.last_branch_origin_id.deep_view(),
            last_branch_choice: self.last_branch_choice.deep_view(),
            cancel_requested: self.cancel_requested,
            state: self.state,
        }
    }
}

/// A copy of a list of strings.
pub fn clone_strings(v: &Vec<String>) -> (r: Vec<String>)
    ensures
        r.deep_view() == v.deep_view(),
{
    let mut out: Vec<String> = Vec::new();
    let mut i: usize = 0;
    while i < v.len()
        invariant
            i <= v.len(),
            out.deep_view() == v.deep_view().take(i as int),
        decreases v.len() - i,
    {
        let ghost before = out.deep_view();
        out.push(v[i].clone());
        assert(out.deep_view() =~= before.push(v.deep_view()[i as int]));
        assert(out.deep_view() =~= v.deep_view().take(i + 1));
        i += 1;
    }
    assert(v.deep_view().take(v.len() as int) =~= v.deep_view());
    out
}

/// A copy of a call stack.
pub fn clone_call_stack(v: &Vec<CallFrameState>) -> (r: Vec<CallFrameState>)
    ensures
        r@.map_values(|f: CallFrameState| f@) == v@.map_values(|f: CallFrameState| f@),
{
    let mut out: Vec<CallFrameState> = Vec::new();
    let mut i: usize = 0;
    while i < v.len()
        invariant
            i <= v.len(),
            out.len() == i,
            forall|j: int| 0 <= j < i ==> (#[trigger] out@[j])@ == v@[j]@,
        decreases v.len() - i,
    {
        out.push(v[i].duplicate());
        i += 1;
    }
    assert(out@.map_values(|f: CallFrameState| f@) =~= v@.map_values(|f: CallFrameState| f@));
    out
}

impl CursorState {
    /// A copy of the cursor.
    pub fn duplicate(&self) -> (r: CursorState)
        ensures
            r@ == self@,
    {
        let r = CursorState {
            cursor_id: self.cursor_id.clone(),
            node_id: self.node_id.clone(),
            execution_epoch: self.execution_epoch,
            parent_cursor_id: clone_opt_string(&self.parent_cursor_id),
            incoming_edge_id: clone_opt_string(&self.incoming_edge_id),
            incoming_node_id: clone_opt_string(&self.incoming_node_id),
            split_family_ids: clone_strings(&self.split_family_ids),
            last_output: self.last_output.clone(),
            loop_counters: self.loop_counters.duplicate(),
            visit_counters: self.visit_counters.duplicate(),
            var_map: clone_pairs(&self.var_map),
            call_stack: clone_call_stack(&self.call_stack),
            last_branch_origin_id: clone_opt_string(&self.last_branch_origin_id),
            last_branch_choice: clone_opt_string(&self.last_branch_choice),
            cancel_requested: self.cancel_requested,
            state: self.state,
        };
        r
    }
}

pub open spec fn cursors_view(cs: Seq<CursorState>) -> Seq<CursorView> {
    cs.map_values(|c: CursorState| c@)
}

/// An approval a cursor waits on.
#[derive(Debug, Clone, PartialEq, Eq)]
pub struct PendingApproval {
    pub cursor_id: String,
    pub node_id: String,
    pub node_name: String,
    pub prompt: String,
    pub last_output: String,
}

#[derive(Debug, Clone, PartialEq, Eq)]
pub struct QueuedApproval {
    pub approval: PendingApproval,
}

pub struct ApprovalView {
    pub cursor_id: Seq<char>,
    pub node_id: Seq<char>,
    pub node_name: Seq<char>,
    pub prompt: Seq<char>,
    pub last_output: Seq<char>,
}

impl View for PendingApproval {
    type V = ApprovalView;

    open spec fn view(&self) -> ApprovalView {
        ApprovalView {
            cursor_id: self.cursor_id@,
            node_id: self.node_id@,
            node_name: self.node_name@,
            prompt: self.prompt@,
            last_output: self.last_output@,
        }
    }
}

impl View for QueuedApproval {
    type V = ApprovalView;

    open spec fn view(&self) -> ApprovalView {
        self.approval@
    }
}

pub open spec fn queued_view(q: Seq<QueuedApproval>) -> Seq<ApprovalView> {
    q.map_values(|a: QueuedApproval| a@)
}

/// The scope a collector barrier lives in: the innermost call frame (its id,
/// or its call node for frames without one), else `root`.
pub open spec fn barrier_scope(c: CursorView) -> Seq<char> {
    if c.call_stack.len() > 0 {
        let f = c.call_stack.last();
        if f.frame_id.len() == 0 {
            f.call_node_id
        } else {
            f.frame_id
        }
    } else {
        "root"@
    }
}

/// The scope of the barriers a cursor arrives at (see `barrier_scope`).
pub fn collector_barrier_scope(cursor: &CursorState) -> (r: &str)
    ensures
        r@ == barrier_scope(cursor@),
{
    let n = cursor.call_stack.len();
    if n > 0 {
        let frame = &cursor.call_stack[n - 1];
        assert(cursor@.call_stack.last() == frame@);
        if frame.frame_id.as_str().is_empty() {
            frame.call_node_id.as_str()
        } else {
            frame.frame_id.as_str()
        }
    } else {
        "root"
    }
}

/// The ids of the call nodes on the stack, outermost first.
pub open spec fn call_node_ids(c: CursorView) -> Seq<Seq<char>> {
    c.call_stack.map_values(|f: FrameView| f.call_node_id)
}

fn call_node_id_list(cursor: &CursorState) -> (r: Vec<String>)
    ensures
        r.deep_view() == call_node_ids(cursor@),
{
    let mut out: Vec<String> = Vec::new();
    let mut i: usize = 0;
    while i < cursor.call_stack.len()
        invariant
            i <= cursor.call_stack.len(),
            out.deep_view() == call_node_ids(cursor@).take(i as int),
        decreases cursor.call_stack.len() - i,
    {
        let ghost before = out.deep_view();
        out.push(cursor.call_stack[i].call_node_id.clone());
        assert(cursor@.call_stack[i as int] == cursor.call_stack@[i as int]@);
        assert(out.deep_view() =~= before.push(call_node_ids(cursor@)[i as int]));
        assert(out.deep_view() =~= call_node_ids(cursor@).take(i + 1));
        i += 1;
    }
    assert(call_node_ids(cursor@).take(cursor.call_stack.len() as int) =~= call_node_ids(cursor@));
    out
}

/// The key of a node's output history: the node id at the root, else the
/// call node ids and the node id joined by `::`.
pub open spec fn output_hash_key(c: CursorView, node_id: Seq<char>) -> Seq<char> {
    if c.call_stack.len() == 0 {
        node_id
    } else {
        join_with(call_node_ids(c).push(node_id), "::"@)
    }
}

/// The key of a node's output history for a cursor (see `output_hash_key`).
pub fn scoped_output_hash_key(cursor: &CursorState, node_id: &str) -> (r: String)
    ensures
        r@ == output_hash_key(cursor@, node_id@),
{
    if cursor.call_stack.len() == 0 {
        return node_id.to_owned();
    }
    let mut parts = call_node_id_list(cursor);
    let ghost before = parts.deep_view();
    parts.push(node_id.to_owned());
    assert(parts.deep_view() =~= before.push(node_id@));
    join_strings(&parts, "::")
}

/// The key under which a parallel batch's item results are checkpointed:
/// the call node ids, the cursor id and the node id joined by `::`.
pub open spec fn batch_key(c: CursorView, node_id: Seq<char>) -> Seq<char> {
    join_with(call_node_ids(c).push(c.cursor_id).push(node_id), "::"@)
}

/// The key of a parallel batch's item results (see `batch_key`).
pub fn parallel_batch_checkpoint_key(cursor: &CursorState, node_id: &str) -> (r: String)
    ensures
        r@ == batch_key(cursor@, node_id@),
{
    let mut parts = call_node_id_list(cursor);
    let ghost before = parts.deep_view();
    parts.push(cursor.cursor_id.clone());
    parts.push(node_id.to_owned());
    assert(parts.deep_view() =~= before.push(cursor@.cursor_id).push(node_id@));
    join_strings(&parts, "::")
}

/// The subflow whose skip conditions apply to the cursor (none at the root).
pub fn skip_regex_scope_key(cursor: &CursorState) -> (r: Option<String>)
    ensures
        match r {
            Some(s) => cursor@.call_stack.len() > 0 && s@ == cursor@.call_stack.last().subflow_name,
            None => cursor@.call_stack.len() == 0,
        },
{
    let n = cursor.call_stack.len();
    if n > 0 {
        Some(cursor.call_stack[n - 1].subflow_name.clone())
    } else {
        None
    }
}

/// Index of the cursor with `cursor_id`.
pub fn find_cursor_index(cursors: &Vec<CursorState>, cursor_id: &str) -> (r: Option<usize>)
    ensures
        match r {
            Some(k) => k < cursors.len() && cursors@[k as int]@.cursor_id == cursor_id@ && forall|
                j: int,
            | 0 <= j < k ==> (#[trigger] cursors@[j])@.cursor_id != cursor_id@,
            None => forall|j: int|
                0 <= j < cursors.len() ==> (#[trigger] cursors@[j])@.cursor_id != cursor_id@,
        },
{
    let mut i: usize = 0;
    while i < cursors.len()
        invariant
            i <= cursors.len(),
            forall|j: int| 0 <= j < i ==> (#[trigger] cursors@[j])@.cursor_id != cursor_id@,
        decreases cursors.len() - i,
    {
        if str_eq(cursors[i].cursor_id.as_str(), cursor_id) {
            return Some(i);
        }
        i += 1;
    }
    None
}

/// The index of the first cursor with `cursor_id`.
pub open spec fn find_first_cursor(cs: Seq<CursorView>, cursor_id: Seq<char>) -> Option<int> {
    if exists|k: int| 0 <= k < cs.len() && cs[k].cursor_id == cursor_id {
        Some(
            choose|k: int|
                0 <= k < cs.len() && cs[k].cursor_id == cursor_id && forall|j: int|
                    0 <= j < k ==> (#[trigger] cs[j]).cursor_id != cursor_id,
        )
    } else {
        None
    }
}

/// The first cursor with an id is found at its index.
pub proof fn lemma_find_first_cursor(cs: Seq<CursorView>, cursor_id: Seq<char>, k: int)
    requires
        0 <= k < cs.len(),
        cs[k].cursor_id == cursor_id,
        forall|j: int| 0 <= j < k ==> (#[trigger] cs[j]).cursor_id != cursor_id,
    ensures
        find_first_cursor(cs, cursor_id) == Some(k),
{
    let c = choose|c: int|
        0 <= c < cs.len() && cs[c].cursor_id == cursor_id && forall|j: int|
            0 <= j < c ==> (#[trigger] cs[j]).cursor_id != cursor_id;
    assert(0 <= c < cs.len() && cs[c].cursor_id == cursor_id);
    if c < k {
        assert(cs[c].cursor_id != cursor_id);
    }
    if c > k {
        assert(cs[k].cursor_id != cursor_id);
    }
}

/// Without a cursor of that id, none is found.
pub proof fn lemma_no_cursor(cs: Seq<CursorView>, cursor_id: Seq<char>)
    requires
        forall|j: int| 0 <= j < cs.len() ==> (#[trigger] cs[j]).cursor_id != cursor_id,
    ensures
        find_first_cursor(cs, cursor_id) is None,
{
}

/// Some queued approval belongs to the cursor.
pub open spec fn has_own_queued(q: Seq<ApprovalView>, cursor_id: Seq<char>) -> bool {
    exists|i: int| 0 <= i < q.len() && q[i].cursor_id == cursor_id
}

/// Whether some queued approval belongs to the cursor.
pub fn cursor_has_own_queued_approval(queued_approvals: &Vec<QueuedApproval>, cursor_id: &str) -> (r:
    bool)
    ensures
        r == has_own_queued(queued_view(queued_approvals@), cursor_id@),
{
    let mut i: usize = 0;
    while i < queued_approvals.len()
        invariant
            i <= queued_approvals.len(),
            forall|j: int| 0 <= j < i ==> (#[trigger] queued_approvals@[j])@.cursor_id != cursor_id@,
        decreases queued_approvals.len() - i,
    {
        if str_eq(queued_approvals[i].approval.cursor_id.as_str(), cursor_id) {
            assert(queued_view(queued_approvals@)[i as int].cursor_id == cursor_id@);
            return true;
        }
        i += 1;
    }
    false
}

/// A waiting cursor that can stand in for a pending approval recorded for
/// another cursor at the same node: it has no queued approval of its own.
pub open spec fn pending_fallback(q: Seq<ApprovalView>, p: ApprovalView, c: CursorView) -> bool {
    &&& c.state == CursorRuntimeState::WaitingApproval
    &&& p.cursor_id.len() > 0
    &&& p.cursor_id != c.cursor_id
    &&& p.node_id == c.node_id
    &&& !has_own_queued(q, c.cursor_id)
}

/// Whether a waiting cursor may take over a pending approval whose own cursor is gone.
pub fn waiting_approval_cursor_matches_pending_fallback(
    queued_approvals: &Vec<QueuedApproval>,
    pending: &PendingApproval,
    cursor: &CursorState,
) -> (r: bool)
    ensures
        r == pending_fallback(queued_view(queued_approvals@), pending@, cursor@),
{
    cursor.state == CursorRuntimeState::WaitingApproval && !pending.cursor_id.as_str().is_empty()
        && !str_eq(pending.cursor_id.as_str(), cursor.cursor_id.as_str()) && str_eq(
        pending.node_id.as_str(),
        cursor.node_id.as_str(),
    ) && !cursor_has_own_queued_approval(queued_approvals, cursor.cursor_id.as_str())
}

/// A waiting cursor bound directly to the pending approval: same cursor, or
/// any waiting cursor when the approval names none.
pub open spec fn binds_directly(p: ApprovalView, c: CursorView) -> bool {
    c.state == CursorRuntimeState::WaitingApproval && (p.cursor_id.len() == 0 || c.cursor_id
        == p.cursor_id)
}

/// Which cursor a restored pending approval binds to.
pub enum RestoreBinding {
    /// The cursor at this index.
    Cursor(usize),
    /// No cursor; the approval is dropped.
    Unbound,
    /// Several fallback cursors match; their ids.
    Ambiguous(Vec<String>),
}

/// The cursor a restored pending approval binds to: a directly bound waiting cursor, else
/// the single fallback cursor; none or several fallbacks leave it unbound or ambiguous.
pub fn resolve_restore_approval_cursor(
    cursors: &Vec<CursorState>,
    queued_approvals: &Vec<QueuedApproval>,
    pending: &PendingApproval,
) -> (r: RestoreBinding)
    ensures
        ({
            let cs = cursors_view(cursors@);
            let q = queued_view(queued_approvals@);
            let p = pending@;
            let direct = exists|i: int| 0 <= i < cs.len() && binds_directly(p, cs[i]);
            let fallbacks = cs.filter(|c: CursorView| pending_fallback(q, p, c));
            match r {
                RestoreBinding::Cursor(k) => k < cs.len() && if direct {
                    binds_directly(p, cs[k as int]) && forall|j: int|
                        0 <= j < k ==> !binds_directly(p, #[trigger] cs[j])
                } else {
                    p.cursor_id.len() > 0 && fallbacks.len() == 1 && fallbacks[0] == cs[k as int]
                },
                RestoreBinding::Unbound => !direct && (p.cursor_id.len() == 0 || fallbacks.len()
                    == 0),
                RestoreBinding::Ambiguous(ids) => !direct && p.cursor_id.len() > 0 && fallbacks.len()
                    > 1 && ids.deep_view() == fallbacks.map_values(|c: CursorView| c.cursor_id),
            }
        }),
{
    let ghost cs = cursors_view(cursors@);
    let ghost q = queued_view(queued_approvals@);
    let ghost p = pending@;
    let mut i: usize = 0;
    while i < cursors.len()
        invariant
            i <= cursors.len(),
            cs == cursors_view(cursors@),
            p == pending@,
            forall|j: int| 0 <= j < i ==> !binds_directly(p, #[trigger] cs[j]),
        decreases cursors.len() - i,
    {
        let c = &cursors[i];
        if c.state == CursorRuntimeState::WaitingApproval && (pending.cursor_id.as_str().is_empty()
            || str_eq(c.cursor_id.as_str(), pending.cursor_id.as_str())) {
            assert(binds_directly(p, cs[i as int]));
            return RestoreBinding::Cursor(i);
        }
        i += 1;
    }
    if pending.cursor_id.as_str().is_empty() {
        return RestoreBinding::Unbound;
    }
    let ghost pred = |c: CursorView| pending_fallback(q, p, c);
    let mut first: usize = 0;
    let mut ids: Vec<String> = Vec::new();
    let mut k: usize = 0;
    while k < cursors.len()
        invariant
            k <= cursors.len(),
            cs == cursors_view(cursors@),
            q == queued_view(queued_approvals@),
            p == pending@,
            pred == (|c: CursorView| pending_fallback(q, p, c)),
            ids.deep_view() == cs.take(k as int).filter(pred).map_values(|c: CursorView| c.cursor_id),
            ids.len() == cs.take(k as int).filter(pred).len(),
            ids.len() >= 1 ==> first < k && cs.take(k as int).filter(pred)[0] == cs[first as int],
        decreases cursors.len() - k,
    {
        proof {
            crate::seqs::lemma_filter_take_step(cs, pred, k as int);
        }
        let ghost before = ids.deep_view();
        if waiting_approval_cursor_matches_pending_fallback(queued_approvals, pending, &cursors[k]) {
            if ids.len() == 0 {
                first = k;
            }
            ids.push(cursors[k].cursor_id.clone());
            proof {
                let f = cs.take(k as int).filter(pred);
                assert(f.push(cs[k as int]).map_values(|c: CursorView| c.cursor_id) =~= f.map_values(
                    |c: CursorView| c.cursor_id,
                ).push(cs[k as int].cursor_id));
                assert(ids.deep_view() =~= before.push(cs[k as int].cursor_id));
            }
        }
        k += 1;
    }
    proof {
        crate::seqs::lemma_take_full(cs);
    }
    if ids.len() == 0 {
        RestoreBinding::Unbound
    } else if ids.len() == 1 {
        RestoreBinding::Cursor(first)
    } else {
        RestoreBinding::Ambiguous(ids)
    }
}

/// A cursor waiting on an approval keeps its wait when the pending approval,
/// a queued approval, or the pending fallback accounts for it.
pub open spec fn approval_wait_consistent(
    pending: Option<ApprovalView>,
    q: Seq<ApprovalView>,
    c: CursorView,
) -> bool {
    c.state != CursorRuntimeState::WaitingApproval || (pending is Some && pending.unwrap().node_id
        == c.node_id && (pending.unwrap().cursor_id.len() == 0 || pending.unwrap().cursor_id
        == c.cursor_id)) || (exists|i: int|
        0 <= i < q.len() && q[i].node_id == c.node_id && (q[i].cursor_id.len() == 0
            || q[i].cursor_id == c.cursor_id)) || (pending is Some && pending_fallback(
        q,
        pending.unwrap(),
        c,
    ))
}


/// Whether a waiting cursor's wait is accounted for (see
/// `approval_wait_consistent`).
pub fn is_approval_wait_consistent(
    pending: &Option<PendingApproval>,
    queued_approvals: &Vec<QueuedApproval>,
    cursor: &CursorState,
) -> (r: bool)
    ensures
        r == approval_wait_consistent(
            match pending {
                Some(a) => Some(a@),
                None => None,
            },
            queued_view(queued_approvals@),
            cursor@,
        ),
{
    let ghost q = queued_view(queued_approvals@);
    if cursor.state != CursorRuntimeState::WaitingApproval {
        return true;
    }
    if let Some(p) = pending {
        if str_eq(p.node_id.as_str(), cursor.node_id.as_str()) && (p.cursor_id.as_str().is_empty()
            || str_eq(p.cursor_id.as_str(), cursor.cursor_id.as_str())) {
            return true;
        }
    }
    let mut i: usize = 0;
    while i < queued_approvals.len()
        invariant
            i <= queued_approvals.len(),
            q == queued_view(queued_approvals@),
            forall|j: int|
                0 <= j < i ==> !((#[trigger] q[j]).node_id == cursor@.node_id && (q[j].cursor_id.len()
                    == 0 || q[j].cursor_id == cursor@.cursor_id)),
        decreases queued_approvals.len() - i,
    {
        let a = &queued_approvals[i].approval;
        if str_eq(a.node_id.as_str(), cursor.node_id.as_str()) && (a.cursor_id.as_str().is_empty()
            || str_eq(a.cursor_id.as_str(), cursor.cursor_id.as_str())) {
            assert(q[i as int] == a@);
            return true;
        }
        i += 1;
    }
    match pending {
        Some(p) => waiting_approval_cursor_matches_pending_fallback(queued_approvals, p, cursor),
        None => false,
    }
}

} // verus!
