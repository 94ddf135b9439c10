//! The scheduler's own decisions: which cursors may run, what a cursor does
//! at a node that runs no agent, what an idle scheduler concludes, the
//! status a run ends with, and how a parallel batch runs its items and ends.

use vstd::prelude::*;

use crate::counters::{djb2_spec, last_window, record_output_hash, stagnant, OutputHashes};
use crate::cursor::{
    cursors_view, find_cursor_index, find_first_cursor, lemma_find_first_cursor, lemma_no_cursor,
    output_hash_key, scoped_output_hash_key, CursorRuntimeState, CursorState, CursorTerminalStatus,
    CursorView, RuntimeStatus,
};
use crate::graph::NodeKind;
use crate::lifecycle::{
    at_subflow_exit, classify_task_failure, should_complete_subflow, task_failure_class, var_map_for_cursor,
    vars_for, SplitFamilies, TaskFailureClass,
};
use crate::routing::decimal_string;
use crate::template::{set_entry, set_entry_exec};
use crate::text::{decimal, extend_str, opt_str_view, pairs_view, string_of, trim_str, trim_ws};
use vstd::string::StringSliceAdditionalSpecFns;

verus! {

/// A cursor the scheduler may start: runnable and not asked to cancel.
pub open spec fn dispatchable(c: CursorView) -> bool {
    c.state == CursorRuntimeState::Runnable && !c.cancel_requested
}

/// The ids of the dispatchable cursors, in cursor order.
pub fn dispatchable_cursor_ids(cursors: &Vec<CursorState>) -> (r: Vec<String>)
    ensures
        r.deep_view() == cursors_view(cursors@).filter(|c: CursorView| dispatchable(c)).map_values(
            |c: CursorView| c.cursor_id,
        ),
{
    let ghost cs = cursors_view(cursors@);
    let ghost p = |c: CursorView| dispatchable(c);
    let mut out: Vec<String> = Vec::new();
    let mut i: usize = 0;
    while i < cursors.len()
        invariant
            i <= cursors.len(),
            cs == cursors_view(cursors@),
            p == (|c: CursorView| dispatchable(c)),
            out.deep_view() == cs.take(i as int).filter(p).map_values(|c: CursorView| c.cursor_id),
        decreases cursors.len() - i,
    {
        proof {
            crate::seqs::lemma_filter_take_step(cs, p, i as int);
        }
        let c = &cursors[i];
        assert(cs[i as int] == c@);
        if c.state == CursorRuntimeState::Runnable && !c.cancel_requested {
            let ghost before = out.deep_view();
            out.push(c.cursor_id.clone());
            proof {
                let f = cs.take(i as int).filter(p);
                assert(f.push(c@).map_values(|c: CursorView| c.cursor_id) =~= f.map_values(
                    |c: CursorView| c.cursor_id,
                ).push(c@.cursor_id));
                assert(out.deep_view() =~= before.push(c@.cursor_id));
            }
        }
        i += 1;
    }
    proof {
        crate::seqs::lemma_take_full(cs);
    }
    out
}

/// What a runnable cursor does at its node before any agent runs.
#[derive(Debug, Clone, Copy, PartialEq, Eq, Structural)]
pub enum ImmediateAction {
    /// A node that runs an agent: checked for its skip condition, then
    /// dispatched.
    RunnerNode,
    QueueApproval,
    Split,
    EnterCollector,
    ParallelBatch,
    EnterSubflow,
}

pub open spec fn immediate_action_of(k: crate::graph::NodeKindView) -> ImmediateAction {
    match k {
        crate::graph::NodeKindView::Approval => ImmediateAction::QueueApproval,
        crate::graph::NodeKindView::Split => ImmediateAction::Split,
        crate::graph::NodeKindView::Collector => ImmediateAction::EnterCollector,
        crate::graph::NodeKindView::ParallelBatch => ImmediateAction::ParallelBatch,
        crate::graph::NodeKindView::Subflow => ImmediateAction::EnterSubflow,
        crate::graph::NodeKindView::Call => ImmediateAction::EnterSubflow,
        _ => ImmediateAction::RunnerNode,
    }
}

/// What the scheduler does at once with a node of this kind (see `immediate_action_of`).
pub fn immediate_action(kind: &NodeKind) -> (r: ImmediateAction)
    ensures
        r == immediate_action_of(kind@),
{
    match kind {
        NodeKind::Approval => ImmediateAction::QueueApproval,
        NodeKind::Split => ImmediateAction::Split,
        NodeKind::Collector => ImmediateAction::EnterCollector,
        NodeKind::ParallelBatch => ImmediateAction::ParallelBatch,
        NodeKind::Subflow => ImmediateAction::EnterSubflow,
        NodeKind::Call => ImmediateAction::EnterSubflow,
        _ => ImmediateAction::RunnerNode,
    }
}

/// What the scheduler concludes when it has nothing to wait for.
#[derive(Debug, Clone, Copy, PartialEq, Eq, Structural)]
pub enum IdleVerdict {
    /// Tasks are still running: wait for one.
    WaitForTasks,
    /// An approval is before the user: wait for the answer.
    WaitForApproval,
    /// No cursor is left: the run is done.
    Done,
    /// Every cursor waits at a collector whose inputs never come: the run
    /// fails.
    CollectorBlocked,
    /// The cursor at this index can never be scheduled: the run fails.
    Stalled(usize),
}

/// The cursor at an index does not wait at a collector.
pub open spec fn not_at_collector(cs: Seq<CursorView>) -> spec_fn(int) -> bool {
    |i: int| cs[i].state != CursorRuntimeState::WaitingCollector
}

pub open spec fn idle_verdict_of(tasks_running: bool, approval_active: bool, cs: Seq<CursorView>) -> IdleVerdict {
    if tasks_running {
        IdleVerdict::WaitForTasks
    } else if approval_active {
        IdleVerdict::WaitForApproval
    } else if cs.len() == 0 {
        IdleVerdict::Done
    } else {
        let k = crate::routing::first_idx(not_at_collector(cs), 0, cs.len() as int);
        if k == -1 {
            IdleVerdict::CollectorBlocked
        } else {
            IdleVerdict::Stalled(k as usize)
        }
    }
}

/// What the scheduler does when no cursor could be dispatched (see `idle_verdict_of`).
pub fn idle_verdict(tasks_running: bool, approval_active: bool, cursors: &Vec<CursorState>) -> (r: IdleVerdict)
    ensures
        r == idle_verdict_of(tasks_running, approval_active, cursors_view(cursors@)),
{
    if tasks_running {
        return IdleVerdict::WaitForTasks;
    }
    if approval_active {
        return IdleVerdict::WaitForApproval;
    }
    if cursors.len() == 0 {
        return IdleVerdict::Done;
    }
    let ghost cs = cursors_view(cursors@);
    let ghost p = not_at_collector(cs);
    let mut i: usize = 0;
    while i < cursors.len()
        invariant
            i <= cursors.len(),
            cs == cursors_view(cursors@),
            !tasks_running,
            !approval_active,
            cs.len() > 0,
            p == not_at_collector(cs),
            forall|j: int| 0 <= j < i ==> !#[trigger] p(j),
        decreases cursors.len() - i,
    {
        if cursors[i].state != CursorRuntimeState::WaitingCollector {
            proof {
                assert(p(i as int));
                crate::routing::lemma_first_idx_is(p, cs.len() as int, i as int);
            }
            return IdleVerdict::Stalled(i);
        }
        i += 1;
    }
    proof {
        crate::routing::lemma_first_idx(p, 0, cs.len() as int);
    }
    IdleVerdict::CollectorBlocked
}

/// How a run ends: its status, and the reason its log records.
#[derive(Debug, Clone, Copy, PartialEq, Eq, Structural)]
pub enum TerminalReason {
    Completed,
    Failed,
    Aborted,
}

pub open spec fn final_outcome(
    status: RuntimeStatus,
    reason: Option<TerminalReason>,
    any_force_failed: bool,
) -> (RuntimeStatus, TerminalReason) {
    match reason {
        Some(r) => (status, r),
        None => if any_force_failed {
            (RuntimeStatus::Failed, TerminalReason::Failed)
        } else {
            (RuntimeStatus::Completed, TerminalReason::Completed)
        },
    }
}

/// The status and reason a run ends with: a run that already has a reason
/// keeps its status; otherwise it failed when a split family was
/// force-failed, and completed when not. A completed status always records
/// the reason `completed`.
pub fn finalize_outcome(
    status: RuntimeStatus,
    reason: Option<TerminalReason>,
    families: &SplitFamilies,
) -> (r: (RuntimeStatus, TerminalReason))
    ensures
        ({
            let f = final_outcome(
                status,
                reason,
                exists|j: int|
                    0 <= j < families.view_seq().len() && (#[trigger] families.view_seq()[j]).force_failed,
            );
            r == if f.0 == RuntimeStatus::Completed {
                (f.0, TerminalReason::Completed)
            } else {
                f
            }
        }),
{
    let mut any = false;
    let mut i: usize = 0;
    while i < families.len()
        invariant
            i <= families.view_seq().len(),
            any == exists|j: int| 0 <= j < i && (#[trigger] families.view_seq()[j]).force_failed,
        decreases families.view_seq().len() - i,
    {
        if families.get(i).force_failed {
            any = true;
        }
        i += 1;
    }
    let (st, re) = match reason {
        Some(r) => (status, r),
        None => if any {
            (RuntimeStatus::Failed, TerminalReason::Failed)
        } else {
            (RuntimeStatus::Completed, TerminalReason::Completed)
        },
    };
    if st == RuntimeStatus::Completed {
        (st, TerminalReason::Completed)
    } else {
        (st, re)
    }
}

/// Where an item of a parallel batch stands.
#[derive(Debug, Clone, Copy, PartialEq, Eq, Structural)]
pub enum ItemState {
    Pending,
    Running,
    Finished,
}

/// How many items are running.
pub open spec fn running_count(s: Seq<ItemState>) -> nat
    decreases s.len(),
{
    if s.len() == 0 {
        0
    } else {
        running_count(s.drop_last()) + if s.last() == ItemState::Running {
            1nat
        } else {
            0nat
        }
    }
}

/// Changing one item changes the running count by at most that item.
pub proof fn lemma_running_count_update(s: Seq<ItemState>, i: int, v: ItemState)
    requires
        0 <= i < s.len(),
    ensures
        running_count(s.update(i, v)) + (if s[i] == ItemState::Running {
            1int
        } else {
            0int
        }) == running_count(s) + (if v == ItemState::Running {
            1int
        } else {
            0int
        }),
    decreases s.len(),
{
    let t = s.update(i, v);
    if i == s.len() - 1 {
        assert(t.drop_last() =~= s.drop_last());
    } else {
        assert(t.drop_last() =~= s.drop_last().update(i, v));
        lemma_running_count_update(s.drop_last(), i, v);
    }
}

/// No more items run than there are.
pub proof fn lemma_running_count_bound(s: Seq<ItemState>)
    ensures
        running_count(s) <= s.len(),
    decreases s.len(),
{
    if s.len() > 0 {
        lemma_running_count_bound(s.drop_last());
    }
}

/// The first pending item, or -1.
pub open spec fn first_pending(s: Seq<ItemState>) -> int {
    crate::routing::first_idx(pending_at(s), 0, s.len() as int)
}

/// The item at an index is pending.
pub open spec fn pending_at(s: Seq<ItemState>) -> spec_fn(int) -> bool {
    |i: int| s[i] == ItemState::Pending
}

/// The items of a parallel batch: at most `max_concurrent` run at once, and
/// the pending item with the lowest index starts first.
#[derive(Debug)]
pub struct BatchQueue {
    states: Vec<ItemState>,
    running: usize,
    max_concurrent: usize,
    aborted: bool,
}

impl BatchQueue {
    pub closed spec fn items(&self) -> Seq<ItemState> {
        self.states@
    }

    pub closed spec fn limit(&self) -> nat {
        self.max_concurrent as nat
    }

    pub closed spec fn is_aborted(&self) -> bool {
        self.aborted
    }

    /// The running count is exact and never above the limit.
    pub closed spec fn wf(&self) -> bool {
        &&& self.running == running_count(self.states@)
        &&& self.running <= self.max_concurrent
        &&& self.max_concurrent >= 1
    }

    /// A batch of `total` items of which those marked in `finished` already
    /// have a result from an earlier attempt.
    pub fn new(finished: &Vec<bool>, max_concurrent: usize) -> (r: BatchQueue)
        requires
            max_concurrent >= 1,
        ensures
            r.wf(),
            r.limit() == max_concurrent,
            !r.is_aborted(),
            r.items().len() == finished.len(),
            forall|i: int|
                0 <= i < finished.len() ==> (#[trigger] r.items()[i]) == if finished@[i] {
                    ItemState::Finished
                } else {
                    ItemState::Pending
                },
    {
        let mut states: Vec<ItemState> = Vec::new();
        let mut i: usize = 0;
        while i < finished.len()
            invariant
                i <= finished.len(),
                states.len() == i,
                running_count(states@) == 0,
                forall|j: int|
                    0 <= j < i ==> (#[trigger] states@[j]) == if finished@[j] {
                        ItemState::Finished
                    } else {
                        ItemState::Pending
                    },
            decreases finished.len() - i,
        {
            let ghost before = states@;
            states.push(if finished[i] { ItemState::Finished } else { ItemState::Pending });
            assert(states@.drop_last() =~= before);
            i += 1;
        }
        BatchQueue { states, running: 0, max_concurrent, aborted: false }
    }

    /// Starts the next item when the batch is not aborted and below its
    /// limit: the pending item with the lowest index. Returns its index.
    pub fn start_next(&mut self) -> (r: Option<usize>)
        requires
            old(self).wf(),
        ensures
            final(self).wf(),
            final(self).limit() == old(self).limit(),
            final(self).is_aborted() == old(self).is_aborted(),
            ({
                let k = first_pending(old(self).items());
                if old(self).is_aborted() || running_count(old(self).items()) >= old(self).limit() || k == -1 {
                    r is None && final(self).items() == old(self).items()
                } else {
                    r == Some(k as usize) && final(self).items() == old(self).items().update(
                        k,
                        ItemState::Running,
                    )
                }
            }),
    {
        let ghost s = self.states@;
        let ghost p = pending_at(s);
        if self.aborted || self.running >= self.max_concurrent {
            return None;
        }
        let mut i: usize = 0;
        while i < self.states.len()
            invariant
                i <= self.states.len(),
                s == self.states@,
                s == old(self).states@,
                self.running == old(self).running,
                self.max_concurrent == old(self).max_concurrent,
                self.aborted == old(self).aborted,
                !self.aborted,
                self.running == running_count(s),
                self.running < self.max_concurrent,
                p == pending_at(s),
                forall|j: int| 0 <= j < i ==> !#[trigger] p(j),
            decreases self.states.len() - i,
        {
            if self.states[i] == ItemState::Pending {
                proof {
                    assert(p(i as int));
                    crate::routing::lemma_first_idx_is(p, s.len() as int, i as int);
                    lemma_running_count_update(s, i as int, ItemState::Running);
                }
                self.states.set(i, ItemState::Running);
                self.running = self.running + 1;
                return Some(i);
            }
            i += 1;
        }
        proof {
            crate::routing::lemma_first_idx(p, 0, s.len() as int);
        }
        None
    }

    /// Records the result of item `index`; a running item stops running.
    pub fn finish(&mut self, index: usize)
        requires
            old(self).wf(),
            index < old(self).items().len(),
        ensures
            final(self).wf(),
            final(self).limit() == old(self).limit(),
            final(self).is_aborted() == old(self).is_aborted(),
            final(self).items() == old(self).items().update(index as int, ItemState::Finished),
    {
        proof {
            lemma_running_count_update(self.states@, index as int, ItemState::Finished);
        }
        if self.states[index] == ItemState::Running {
            self.running = self.running - 1;
        }
        self.states.set(index, ItemState::Finished);
    }

    /// Stops starting items.
    pub fn abort(&mut self)
        requires
            old(self).wf(),
        ensures
            final(self).wf(),
            final(self).is_aborted(),
            final(self).limit() == old(self).limit(),
            final(self).items() == old(self).items(),
    {
        self.aborted = true;
    }

    /// How many items are running.
    pub fn running_items(&self) -> (r: usize)
        requires
            self.wf(),
        ensures
            r == running_count(self.items()),
    {
        self.running
    }

    /// The items without a result, in index order: when the batch was
    /// aborted, these get a cancelled result.
    pub fn unfinished(&self) -> (r: Vec<usize>)
        ensures
            r@.map_values(|i: usize| i as int) == Seq::new(self.items().len(), |i: int| i).filter(
                |i: int| self.items()[i] != ItemState::Finished,
            ),
    {
        let ghost s = self.states@;
        let ghost idx = Seq::new(s.len(), |i: int| i);
        let ghost p = |i: int| s[i] != ItemState::Finished;
        let mut out: Vec<usize> = Vec::new();
        let mut i: usize = 0;
        while i < self.states.len()
            invariant
                i <= self.states.len(),
                s == self.states@,
                idx == Seq::new(s.len(), |i: int| i),
                p == (|i: int| s[i] != ItemState::Finished),
                out@.map_values(|i: usize| i as int) == idx.take(i as int).filter(p),
            decreases self.states.len() - i,
        {
            proof {
                crate::seqs::lemma_filter_take_step(idx, p, i as int);
            }
            if self.states[i] != ItemState::Finished {
                let ghost before = out@;
                out.push(i);
                proof {
                    assert(out@.map_values(|i: usize| i as int) =~= before.map_values(|i: usize| i as int).push(
                        i as int,
                    ));
                }
            }
            i += 1;
        }
        proof {
            crate::seqs::lemma_take_full(idx);
        }
        out
    }
}

/// How many items a batch runs at once: the requested number, at least 1
/// and at most `limit`.
pub fn batch_concurrency(requested: u32, limit: u32) -> (r: u32)
    requires
        limit >= 1,
    ensures
        r == if requested < 1 {
            1
        } else if requested > limit {
            limit
        } else {
            requested
        },
{
    if requested < 1 {
        1
    } else if requested > limit {
        limit
    } else {
        requested
    }
}

/// What one batch item's result reports.
#[derive(Debug, Clone, Copy, PartialEq, Eq, Structural)]
pub struct BatchItemOutcome {
    pub success: bool,
    pub cancelled: bool,
}

/// What a parallel batch reports of its items.
#[derive(Debug, Clone, Copy, PartialEq, Eq, Structural)]
pub struct BatchSummary {
    pub total: usize,
    pub succeeded: usize,
    pub failed: usize,
    pub cancelled: usize,
    pub max_concurrent: usize,
}

/// The summary of a batch of `total` items: the successes counted, every
/// other item failed, and the cancelled ones counted.
pub fn batch_summary(total: usize, results: &Vec<BatchItemOutcome>, max_concurrent: usize) -> (r: BatchSummary)
    ensures
        r.total == total,
        r.succeeded == results@.filter(|o: BatchItemOutcome| o.success).len(),
        r.failed == if total >= r.succeeded {
            total - r.succeeded
        } else {
            0
        },
        r.cancelled == results@.filter(|o: BatchItemOutcome| o.cancelled).len(),
        r.max_concurrent == max_concurrent,
{
    let ghost s = results@;
    let ghost ps = |o: BatchItemOutcome| o.success;
    let ghost pc = |o: BatchItemOutcome| o.cancelled;
    let mut succeeded: usize = 0;
    let mut cancelled: usize = 0;
    let mut i: usize = 0;
    while i < results.len()
        invariant
            i <= results.len(),
            s == results@,
            ps == (|o: BatchItemOutcome| o.success),
            pc == (|o: BatchItemOutcome| o.cancelled),
            succeeded == s.take(i as int).filter(ps).len(),
            cancelled == s.take(i as int).filter(pc).len(),
            succeeded <= i,
            cancelled <= i,
        decreases results.len() - i,
    {
        proof {
            crate::seqs::lemma_filter_take_step(s, ps, i as int);
            crate::seqs::lemma_filter_take_step(s, pc, i as int);
        }
        if results[i].success {
            succeeded += 1;
        }
        if results[i].cancelled {
            cancelled += 1;
        }
        i += 1;
    }
    proof {
        crate::seqs::lemma_take_full(s);
    }
    let failed = if total >= succeeded { total - succeeded } else { 0 };
    BatchSummary { total, succeeded, failed, cancelled, max_concurrent }
}

/// How a parallel batch node ends: its success, its error text and its
/// exit code.
pub struct BatchVerdict {
    pub success: bool,
    pub stderr: String,
    pub exit_code: i32,
}

/// The error text of a batch: the abort message when it was aborted, none
/// when every item succeeded, else how many of how many items failed.
pub open spec fn batch_stderr(aborted: bool, total: nat, succeeded: nat) -> Seq<char> {
    if aborted {
        "Workflow aborted by user."@
    } else if succeeded == total {
        Seq::empty()
    } else {
        decimal((total - succeeded) as nat) + " of "@ + decimal(total) + " batch items failed"@
    }
}

/// The verdict of a batch whose items are summarised in `summary`: it
/// succeeds when it was not aborted and every item succeeded, and exits 0
/// exactly then.
pub fn batch_verdict(aborted: bool, summary: &BatchSummary) -> (r: BatchVerdict)
    requires
        summary.succeeded <= summary.total,
    ensures
        r.success == (!aborted && summary.succeeded == summary.total),
        r.stderr@ == batch_stderr(aborted, summary.total as nat, summary.succeeded as nat),
        r.exit_code == if r.success {
            0i32
        } else {
            1i32
        },
{
    let success = !aborted && summary.succeeded == summary.total;
    let stderr = if aborted {
        "Workflow aborted by user.".to_owned()
    } else if success {
        String::new()
    } else {
        let mut text: Vec<char> = Vec::new();
        let failed = decimal_string((summary.total - summary.succeeded) as u64);
        extend_str(&mut text, failed.as_str());
        extend_str(&mut text, " of ");
        let total = decimal_string(summary.total as u64);
        extend_str(&mut text, total.as_str());
        extend_str(&mut text, " batch items failed");
        string_of(text.as_slice())
    };
    BatchVerdict { success, stderr, exit_code: if success { 0 } else { 1 } }
}

/// Whether a collector variable names a place for a batch's items: it is
/// set and not blank.
pub open spec fn names_collector_var(v: Option<Seq<char>>) -> bool {
    v is Some && trim_ws(v.unwrap()).len() > 0
}

/// A batch's collected items, as JSON text, stored under `collector_var`
/// (when it is set and not blank) in the cursor's variables, and in the
/// run's variables too when the cursor is outside any call. Nothing else
/// changes.
pub fn store_batch_items(
    cursor: &mut CursorState,
    run_vars: &mut Vec<(String, String)>,
    collector_var: &Option<String>,
    items_json: &String,
)
    ensures
        ({
            let c = old(cursor)@;
            let v = collector_var.deep_view();
            if names_collector_var(v) {
                &&& final(cursor)@ == CursorView {
                    var_map: set_entry(c.var_map, v.unwrap(), items_json@),
                    ..c
                }
                &&& pairs_view(final(run_vars)@) == if c.call_stack.len() == 0 {
                    set_entry(pairs_view(old(run_vars)@), v.unwrap(), items_json@)
                } else {
                    pairs_view(old(run_vars)@)
                }
            } else {
                &&& final(cursor)@ == c
                &&& final(run_vars)@ == old(run_vars)@
            }
        }),
{
    match collector_var {
        Some(name) => {
            let trimmed = trim_str(name.as_str());
            if trimmed.as_str().is_empty() {
                return;
            }
            let write_run = cursor.call_stack.len() == 0;
            set_entry_exec(&mut cursor.var_map, name, items_json);
            if write_run {
                set_entry_exec(run_vars, name, items_json);
            }
        },
        None => {},
    }
}

/// The cursor that runs one item of a batch: a child of `parent` at the
/// body node, come from the batch node, seeing the parent's variables with
/// the item bound to `item_var`, already running.
pub open spec fn batch_item_child(
    parent: CursorView,
    run_vars: Seq<(Seq<char>, Seq<char>)>,
    child_id: Seq<char>,
    batch_node_id: Seq<char>,
    body_node_id: Seq<char>,
    epoch: u64,
    item_var: Seq<char>,
    item_text: Seq<char>,
) -> CursorView {
    CursorView {
        cursor_id: child_id,
        node_id: body_node_id,
        execution_epoch: epoch,
        parent_cursor_id: Some(parent.cursor_id),
        incoming_edge_id: None,
        incoming_node_id: Some(batch_node_id),
        var_map: set_entry(vars_for(parent, run_vars), item_var, item_text),
        cancel_requested: false,
        state: CursorRuntimeState::Running,
        ..parent
    }
}

/// Builds the cursor for a batch item whose value reads `item_text` in a
/// template, under the fresh id `child_id`.
pub fn batch_item_cursor(
    parent: &CursorState,
    run_vars: &Vec<(String, String)>,
    child_id: String,
    batch_node_id: &str,
    body_node_id: &str,
    epoch: u64,
    item_var: &String,
    item_text: &String,
) -> (r: CursorState)
    ensures
        r@ == batch_item_child(
            parent@,
            pairs_view(run_vars@),
            child_id@,
            batch_node_id@,
            body_node_id@,
            epoch,
            item_var@,
            item_text@,
        ),
{
    let mut vars = var_map_for_cursor(run_vars, parent);
    set_entry_exec(&mut vars, item_var, item_text);
    let mut child = parent.duplicate();
    child.cursor_id = child_id;
    child.node_id = body_node_id.to_owned();
    child.execution_epoch = epoch;
    child.parent_cursor_id = Some(parent.cursor_id.clone());
    child.incoming_edge_id = None;
    child.incoming_node_id = Some(batch_node_id.to_owned());
    child.var_map = vars;
    child.cancel_requested = false;
    child.state = CursorRuntimeState::Running;
    child
}

/// The result recorded for one item of a batch. `item` is the item's
/// compact JSON text.
#[derive(Debug)]
pub struct BatchItemResult {
    pub index: usize,
    pub item: String,
    pub cursor_id: Option<String>,
    pub node_id: Option<String>,
    pub success: bool,
    pub output: String,
    pub stderr: String,
    pub exit_code: i32,
    pub parsed_output: Option<String>,
    pub cancelled: bool,
}

pub struct BatchItemResultView {
    pub index: usize,
    pub item: Seq<char>,
    pub cursor_id: Option<Seq<char>>,
    pub node_id: Option<Seq<char>>,
    pub success: bool,
    pub output: Seq<char>,
    pub stderr: Seq<char>,
    pub exit_code: i32,
    pub parsed_output: Option<Seq<char>>,
    pub cancelled: bool,
}

impl View for BatchItemResult {
    type V = BatchItemResultView;

    open spec fn view(&self) -> BatchItemResultView {
        BatchItemResultView {
            index: self.index,
            item: self.item@,
            cursor_id: self.cursor_id.deep_view(),
            node_id: self.node_id.deep_view(),
            success: self.success,
            output: self.output@,
            stderr: self.stderr@,
            exit_code: self.exit_code,
            parsed_output: self.parsed_output.deep_view(),
            cancelled: self.cancelled,
        }
    }
}

impl BatchItemResult {
    pub fn duplicate(&self) -> (r: BatchItemResult)
        ensures
            r@ == self@,
    {
        BatchItemResult {
            index: self.index,
            item: self.item.clone(),
            cursor_id: crate::graph::clone_opt_string(&self.cursor_id),
            node_id: crate::graph::clone_opt_string(&self.node_id),
            success: self.success,
            output: self.output.clone(),
            stderr: self.stderr.clone(),
            exit_code: self.exit_code,
            parsed_output: crate::graph::clone_opt_string(&self.parsed_output),
            cancelled: self.cancelled,
        }
    }
}

pub open spec fn item_results_view(rs: Seq<BatchItemResult>) -> Seq<BatchItemResultView> {
    rs.map_values(|r: BatchItemResult| r@)
}

/// A stored result still belongs to the batch: its index is that of an
/// item, and that item has not changed.
pub open spec fn still_valid(r: BatchItemResultView, items: Seq<Seq<char>>) -> bool {
    r.index < items.len() && r.item == items[r.index as int]
}

/// The stored results a batch reuses when it runs again over `items`.
pub fn reusable_results(stored: &Vec<BatchItemResult>, items: &Vec<String>) -> (r: Vec<BatchItemResult>)
    ensures
        item_results_view(r@) == item_results_view(stored@).filter(
            |x: BatchItemResultView| still_valid(x, items.deep_view()),
        ),
        forall|j: int| 0 <= j < r.len() ==> still_valid(#[trigger] r@[j]@, items.deep_view()),
{
    let ghost sv = item_results_view(stored@);
    let ghost iv = items.deep_view();
    let ghost p = |x: BatchItemResultView| still_valid(x, iv);
    let mut out: Vec<BatchItemResult> = Vec::new();
    let mut j: usize = 0;
    while j < stored.len()
        invariant
            j <= stored.len(),
            sv == item_results_view(stored@),
            iv == items.deep_view(),
            p == (|x: BatchItemResultView| still_valid(x, iv)),
            item_results_view(out@) == sv.take(j as int).filter(p),
            forall|a: int| 0 <= a < out.len() ==> still_valid(#[trigger] out@[a]@, iv),
        decreases stored.len() - j,
    {
        proof {
            crate::seqs::lemma_filter_take_step(sv, p, j as int);
        }
        let x = &stored[j];
        assert(sv[j as int] == x@);
        if x.index < items.len() && crate::text::str_eq(x.item.as_str(), items[x.index].as_str()) {
            let ghost before = item_results_view(out@);
            out.push(x.duplicate());
            assert(item_results_view(out@) =~= before.push(x@));
        }
        j += 1;
    }
    proof {
        crate::seqs::lemma_take_full(sv);
    }
    out
}

/// The first result recorded for item `i`.
pub open spec fn result_at(rs: Seq<BatchItemResultView>, i: int) -> Option<BatchItemResultView> {
    let k = crate::routing::first_idx(|j: int| rs[j].index == i, 0, rs.len() as int);
    if k >= 0 {
        Some(rs[k])
    } else {
        None
    }
}

fn find_item_result(rs: &Vec<BatchItemResult>, i: usize) -> (r: Option<usize>)
    ensures
        match r {
            Some(k) => k < rs.len() && result_at(item_results_view(rs@), i as int) == Some(rs@[k as int]@),
            None => result_at(item_results_view(rs@), i as int) is None,
        },
{
    let ghost v = item_results_view(rs@);
    let ghost p = |j: int| v[j].index == i;
    let mut k: usize = 0;
    while k < rs.len()
        invariant
            k <= rs.len(),
            v == item_results_view(rs@),
            p == (|j: int| v[j].index == i),
            forall|j: int| 0 <= j < k ==> !#[trigger] p(j),
        decreases rs.len() - k,
    {
        if rs[k].index == i {
            proof {
                assert(p(k as int));
                crate::routing::lemma_first_idx_is(p, v.len() as int, k as int);
            }
            return Some(k);
        }
        k += 1;
    }
    proof {
        crate::routing::lemma_first_idx(p, 0, v.len() as int);
    }
    None
}

/// Which of `n` items already have a result: these are not run again.
pub fn finished_flags(rs: &Vec<BatchItemResult>, n: usize) -> (r: Vec<bool>)
    ensures
        r.len() == n,
        forall|i: int| 0 <= i < n ==> r@[i] == (result_at(item_results_view(rs@), i) is Some),
{
    let mut out: Vec<bool> = Vec::new();
    let mut i: usize = 0;
    while i < n
        invariant
            i <= n,
            out.len() == i,
            forall|a: int| 0 <= a < i ==> out@[a] == (result_at(item_results_view(rs@), a) is Some),
        decreases n - i,
    {
        out.push(find_item_result(rs, i).is_some());
        i += 1;
    }
    out
}

/// The result an item gets when its batch is aborted before it finished.
pub open spec fn cancelled_result(index: usize, item: Seq<char>) -> BatchItemResultView {
    BatchItemResultView {
        index,
        item,
        cursor_id: None,
        node_id: None,
        success: false,
        output: Seq::empty(),
        stderr: "cancelled"@,
        exit_code: -1i32,
        parsed_output: None,
        cancelled: true,
    }
}

/// The result of an item of an aborted batch that did not finish.
pub fn cancelled_batch_item_result(item_index: usize, item_value: &String) -> (r: BatchItemResult)
    ensures
        r@ == cancelled_result(item_index, item_value@),
{
    BatchItemResult {
        index: item_index,
        item: item_value.clone(),
        cursor_id: None,
        node_id: None,
        success: false,
        output: String::new(),
        stderr: "cancelled".to_owned(),
        exit_code: -1,
        parsed_output: None,
        cancelled: true,
    }
}

/// The results a batch reports for its first `k` items, in item order: each
/// item's recorded result; an item without one gets the cancelled result
/// when the batch was aborted, and is left out otherwise.
pub open spec fn assembled(rs: Seq<BatchItemResultView>, items: Seq<Seq<char>>, aborted: bool, k: int) -> Seq<
    BatchItemResultView,
>
    decreases k,
{
    if k <= 0 {
        Seq::empty()
    } else {
        let prev = assembled(rs, items, aborted, k - 1);
        match result_at(rs, k - 1) {
            Some(r) => prev.push(r),
            None => if aborted {
                prev.push(cancelled_result((k - 1) as usize, items[k - 1]))
            } else {
                prev
            },
        }
    }
}

/// The item results a batch reports (see `assembled`).
pub fn batch_item_results(rs: &Vec<BatchItemResult>, items: &Vec<String>, aborted: bool) -> (r: Vec<
    BatchItemResult,
>)
    ensures
        item_results_view(r@) == assembled(item_results_view(rs@), items.deep_view(), aborted, items.len() as int),
{
    let ghost rv = item_results_view(rs@);
    let ghost iv = items.deep_view();
    let mut out: Vec<BatchItemResult> = Vec::new();
    let mut i: usize = 0;
    while i < items.len()
        invariant
            i <= items.len(),
            rv == item_results_view(rs@),
            iv == items.deep_view(),
            item_results_view(out@) == assembled(rv, iv, aborted, i as int),
        decreases items.len() - i,
    {
        let ghost before = item_results_view(out@);
        match find_item_result(rs, i) {
            Some(k) => {
                out.push(rs[k].duplicate());
                assert(item_results_view(out@) =~= before.push(rs@[k as int]@));
            },
            None => {
                if aborted {
                    let c = cancelled_batch_item_result(i, &items[i]);
                    out.push(c);
                    assert(item_results_view(out@) =~= before.push(cancelled_result(i, iv[i as int])));
                }
            },
        }
        i += 1;
    }
    out
}

/// An aborted batch reports one result per item, in item order: the item's
/// own when it finished, a cancelled one otherwise.
pub proof fn lemma_aborted_batch_reports_every_item(
    rs: Seq<BatchItemResultView>,
    items: Seq<Seq<char>>,
    k: int,
)
    requires
        0 <= k <= items.len(),
    ensures
        assembled(rs, items, true, k).len() == k,
        forall|i: int|
            0 <= i < k ==> (#[trigger] assembled(rs, items, true, k)[i]) == match result_at(rs, i) {
                Some(r) => r,
                None => cancelled_result(i as usize, items[i]),
            },
    decreases k,
{
    if k > 0 {
        lemma_aborted_batch_reports_every_item(rs, items, k - 1);
    }
}

/// What each reported item result counts for in the batch summary.
pub fn item_outcomes(rs: &Vec<BatchItemResult>) -> (r: Vec<BatchItemOutcome>)
    ensures
        r.len() == rs.len(),
        forall|j: int|
            0 <= j < rs.len() ==> (#[trigger] r@[j]) == (BatchItemOutcome {
                success: rs@[j].success,
                cancelled: rs@[j].cancelled,
            }),
{
    let mut out: Vec<BatchItemOutcome> = Vec::new();
    let mut j: usize = 0;
    while j < rs.len()
        invariant
            j <= rs.len(),
            out.len() == j,
            forall|a: int|
                0 <= a < j ==> (#[trigger] out@[a]) == (BatchItemOutcome {
                    success: rs@[a].success,
                    cancelled: rs@[a].cancelled,
                }),
        decreases rs.len() - j,
    {
        out.push(BatchItemOutcome { success: rs[j].success, cancelled: rs[j].cancelled });
        j += 1;
    }
    out
}

/// How a batch over `items` starts, given the results stored by an earlier
/// run of it: it keeps the stored results whose item is unchanged, and its
/// queue has those items finished and the others pending.
pub fn start_batch(stored: &Vec<BatchItemResult>, items: &Vec<String>, max_concurrent: usize) -> (r: (
    Vec<BatchItemResult>,
    BatchQueue,
))
    requires
        max_concurrent >= 1,
    ensures
        item_results_view(r.0@) == item_results_view(stored@).filter(
            |x: BatchItemResultView| still_valid(x, items.deep_view()),
        ),
        r.1.wf(),
        r.1.limit() == max_concurrent,
        !r.1.is_aborted(),
        r.1.items().len() == items.len(),
        forall|i: int|
            0 <= i < items.len() ==> (#[trigger] r.1.items()[i]) == if result_at(item_results_view(r.0@), i) is Some {
                ItemState::Finished
            } else {
                ItemState::Pending
            },
{
    let kept = reusable_results(stored, items);
    let flags = finished_flags(&kept, items.len());
    let queue = BatchQueue::new(&flags, max_concurrent);
    (kept, queue)
}

/// What the scheduler does next with a finished task, in the order it
/// checks: the cursor may be gone; a cursor at its subflow's exit completes
/// the call; a failed task aborts the run or ends the cursor; a success that
/// repeats the node's output too often aborts the run; otherwise the cursor
/// is routed on.
#[derive(Debug, Clone, Copy, PartialEq, Eq, Structural)]
pub enum JoinAction {
    Ignore,
    CompleteSubflow,
    Abort,
    Terminal(CursorTerminalStatus),
    Stagnant,
    Route,
}

/// The cursor once its task came back with `output`: runnable, carrying the
/// output.
pub open spec fn joined(c: CursorView, output: Seq<char>) -> CursorView {
    CursorView { state: CursorRuntimeState::Runnable, last_output: output, ..c }
}

/// Takes back the task that cursor `cursor_id` ran at node `node_id`: the
/// cursor becomes runnable with the task's output, and the next action is
/// decided (see `JoinAction`). The node's output hash is recorded only for
/// a successful task of a cursor not at its subflow's exit.
pub fn join_step(
    cursors: &mut Vec<CursorState>,
    output_hashes: &mut OutputHashes,
    cursor_id: &str,
    node_id: &str,
    success: bool,
    output: &str,
    run_aborted: bool,
    error_type: Option<&str>,
    exit_code: i32,
) -> (r: JoinAction)
    ensures
        match find_first_cursor(cursors_view(old(cursors)@), cursor_id@) {
            None => {
                &&& r == JoinAction::Ignore
                &&& final(cursors)@ == old(cursors)@
                &&& forall|k: Seq<char>| #[trigger] final(output_hashes).history(k) == old(output_hashes).history(k)
            },
            Some(i) => {
                let c = cursors_view(old(cursors)@)[i];
                let key = output_hash_key(c, node_id@);
                let hashed = success && !at_subflow_exit(c, node_id@);
                &&& cursors_view(final(cursors)@) == cursors_view(old(cursors)@).update(i, joined(c, output@))
                &&& hashed ==> final(output_hashes).history(key) == last_window(
                    old(output_hashes).history(key).push(djb2_spec(output.spec_bytes())),
                )
                &&& forall|k: Seq<char>|
                    !(hashed && k == key) ==> #[trigger] final(output_hashes).history(k) == old(
                        output_hashes,
                    ).history(k)
                &&& r == if at_subflow_exit(c, node_id@) {
                    JoinAction::CompleteSubflow
                } else if !success {
                    match task_failure_class(run_aborted, opt_str_view(error_type), exit_code) {
                        TaskFailureClass::Aborted => JoinAction::Abort,
                        TaskFailureClass::Terminal(st) => JoinAction::Terminal(st),
                    }
                } else if stagnant(final(output_hashes).history(key)) {
                    JoinAction::Stagnant
                } else {
                    JoinAction::Route
                }
            },
        },
{
    let ghost cs = cursors_view(cursors@);
    let i = match find_cursor_index(cursors, cursor_id) {
        Some(i) => i,
        None => {
            proof {
                lemma_no_cursor(cs, cursor_id@);
            }
            return JoinAction::Ignore;
        },
    };
    proof {
        lemma_find_first_cursor(cs, cursor_id@, i as int);
    }
    let key = scoped_output_hash_key(&cursors[i], node_id);
    let at_exit = should_complete_subflow(&cursors[i], node_id);
    let mut c = cursors[i].duplicate();
    c.state = CursorRuntimeState::Runnable;
    c.last_output = output.to_owned();
    cursors.set(i, c);
    assert(cursors_view(cursors@) =~= cs.update(i as int, joined(cs[i as int], output@)));
    if at_exit {
        return JoinAction::CompleteSubflow;
    }
    if !success {
        return match classify_task_failure(run_aborted, error_type, exit_code) {
            TaskFailureClass::Aborted => JoinAction::Abort,
            TaskFailureClass::Terminal(st) => JoinAction::Terminal(st),
        };
    }
    if record_output_hash(output_hashes, key, output) {
        JoinAction::Stagnant
    } else {
        JoinAction::Route
    }
}

} // verus!
