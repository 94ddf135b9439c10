//! What happens to a cursor when its node is done: how a failure is
//! classified, how the cursor moves along the chosen edge, how the split
//! families it belongs to react to a failed branch, and which families are
//! still needed.

use vstd::prelude::*;

use crate::cursor::{
    CallFrameState, FrameView, CursorRuntimeState, CursorState, CursorTerminalStatus, CursorView, clone_call_stack,
    clone_strings, cursors_view, find_cursor_index, find_first_cursor, lemma_find_first_cursor,
    lemma_no_cursor,
};
use crate::graph::{
    EdgeView, GraphView, NodeView, SplitFailurePolicy, WorkflowEdge, WorkflowEdgeOutcome,
    WorkflowGraph, WorkflowNode, clone_opt_string, inbound, is_success_from,
};
use crate::counters::Counters;
use crate::results::{record_result, results_view, with_result, NodeResult, NodeResultView};
use crate::ids::{new_call_frame_id, new_cursor_id, new_split_family_id, prefixed_id};
use crate::routing::decimal_string;
use crate::strset::contains_str;
use crate::text::{clone_pairs, decimal, extend_str, opt_str_view, pairs_view, str_eq, string_of};

verus! {

/// One split's family of branch cursors.
#[derive(Debug)]
pub struct SplitFamilyState {
    pub family_id: String,
    pub split_node_id: String,
    pub execution_epoch: u64,
    pub failure_policy: SplitFailurePolicy,
    pub force_failed: bool,
}

pub struct FamilyView {
    pub family_id: Seq<char>,
    pub split_node_id: Seq<char>,
    pub execution_epoch: u64,
    pub failure_policy: SplitFailurePolicy,
    pub force_failed: bool,
}

impl View for SplitFamilyState {
    type V = FamilyView;

    open spec fn view(&self) -> FamilyView {
        FamilyView {
            family_id: self.family_id@,
            split_node_id: self.split_node_id@,
            execution_epoch: self.execution_epoch,
            failure_policy: self.failure_policy,
            force_failed: self.force_failed,
        }
    }
}

/// A failed branch marks its family when the family's policy asks for it.
pub open spec fn marked_by_failure(f: FamilyView, failed_ids: Seq<Seq<char>>) -> FamilyView {
    if failed_ids.contains(f.family_id) && f.failure_policy != SplitFailurePolicy::BestEffortContinue {
        FamilyView { force_failed: true, ..f }
    } else {
        f
    }
}

/// A failed branch fails the run when it belongs to no family, or to a
/// family whose policy is to fail fast.
pub open spec fn failure_fails_run(fs: Seq<FamilyView>, failed_ids: Seq<Seq<char>>) -> bool {
    failed_ids.len() == 0 || exists|j: int|
        0 <= j < fs.len() && failed_ids.contains(#[trigger] fs[j].family_id) && fs[j].failure_policy
            == SplitFailurePolicy::FailFastCancel
}

/// Some live cursor still belongs to the family.
pub open spec fn family_referenced(cs: Seq<CursorView>, family_id: Seq<char>) -> bool {
    exists|i: int| 0 <= i < cs.len() && (#[trigger] cs[i]).split_family_ids.contains(family_id)
}

/// A family survives eviction while a cursor belongs to it, or while it is
/// force-failed and force-failed families are kept.
pub open spec fn family_kept(cs: Seq<CursorView>, allow_force_failed: bool, f: FamilyView) -> bool {
    (f.force_failed && !allow_force_failed) || family_referenced(cs, f.family_id)
}

/// The split families of a run, each id at most once.
#[derive(Debug)]
pub struct SplitFamilies {
    families: Vec<SplitFamilyState>,
}

impl SplitFamilies {
    pub closed spec fn view_seq(&self) -> Seq<FamilyView> {
        self.families@.map_values(|f: SplitFamilyState| f@)
    }

    /// No two families share an id.
    pub open spec fn wf(&self) -> bool {
        forall|i: int, j: int|
            0 <= i < j < self.view_seq().len() ==> (#[trigger] self.view_seq()[i]).family_id
                != (#[trigger] self.view_seq()[j]).family_id
    }

/// No split families.
    pub fn new() -> (r: SplitFamilies)
        ensures
            r.wf(),
            r.view_seq() == Seq::<FamilyView>::empty(),
    {
        let r = SplitFamilies { families: Vec::new() };
        assert(r.view_seq() =~= Seq::<FamilyView>::empty());
        r
    }

/// The number of families.
    pub fn len(&self) -> (r: usize)
        ensures
            r == self.view_seq().len(),
    {
        self.families.len()
    }

    /// The family at position `i`.
    pub fn get(&self, i: usize) -> (r: &SplitFamilyState)
        requires
            i < self.view_seq().len(),
        ensures
            r@ == self.view_seq()[i as int],
    {
        &self.families[i]
    }

    /// Position of the family with `family_id`.
    pub fn find(&self, family_id: &str) -> (r: Option<usize>)
        ensures
            match r {
                Some(i) => i < self.view_seq().len() && self.view_seq()[i as int].family_id
                    == family_id@,
                None => forall|j: int|
                    0 <= j < self.view_seq().len() ==> (#[trigger] self.view_seq()[j]).family_id
                        != family_id@,
            },
    {
        let mut i: usize = 0;
        while i < self.families.len()
            invariant
                i <= self.families.len(),
                forall|j: int| 0 <= j < i ==> (#[trigger] self.view_seq()[j]).family_id != family_id@,
            decreases self.families.len() - i,
        {
            if str_eq(self.families[i].family_id.as_str(), family_id) {
                return Some(i);
            }
            i += 1;
        }
        None
    }

    /// Records a new family; one with the same id is replaced.
    pub fn insert(&mut self, family: SplitFamilyState)
        requires
            old(self).wf(),
        ensures
            final(self).wf(),
            final(self).view_seq().contains(family@),
            forall|j: int|
                0 <= j < old(self).view_seq().len() && (#[trigger] old(self).view_seq()[j]).family_id
                    != family@.family_id ==> final(self).view_seq().contains(old(self).view_seq()[j]),
            forall|j: int|
                0 <= j < final(self).view_seq().len() ==> (#[trigger] final(self).view_seq()[j])
                    == family@ || old(self).view_seq().contains(final(self).view_seq()[j]),
    {
        let ghost ov = self.view_seq();
        let ghost fv = family@;
        match self.find(family.family_id.as_str()) {
            Some(i) => {
                self.families.set(i, family);
                proof {
                    assert(self.view_seq() =~= ov.update(i as int, fv));
                    assert(self.view_seq()[i as int] == fv);
                    assert forall|j: int|
                        0 <= j < ov.len() && (#[trigger] ov[j]).family_id != fv.family_id implies self.view_seq().contains(
                        ov[j],
                    ) by {
                        assert(self.view_seq()[j] == ov[j]);
                    }
                    assert forall|j: int| 0 <= j < self.view_seq().len() implies (#[trigger] self.view_seq()[j])
                        == fv || ov.contains(self.view_seq()[j]) by {
                        if j != i {
                            assert(self.view_seq()[j] == ov[j]);
                        }
                    }
                }
            },
            None => {
                self.families.push(family);
                proof {
                    assert(self.view_seq() =~= ov.push(fv));
                    assert(self.view_seq()[ov.len() as int] == fv);
                    assert forall|j: int|
                        0 <= j < ov.len() && (#[trigger] ov[j]).family_id != fv.family_id implies self.view_seq().contains(
                        ov[j],
                    ) by {
                        assert(self.view_seq()[j] == ov[j]);
                    }
                    assert forall|j: int| 0 <= j < self.view_seq().len() implies (#[trigger] self.view_seq()[j])
                        == fv || ov.contains(self.view_seq()[j]) by {
                        if j < ov.len() {
                            assert(self.view_seq()[j] == ov[j]);
                        }
                    }
                }
            },
        }
    }

    /// A branch in the families `failed_ids` failed: families whose policy
    /// is not best effort become force-failed. Returns whether the run
    /// fails.
    pub fn apply_branch_failure(&mut self, failed_ids: &Vec<String>) -> (fail_run: bool)
        requires
            old(self).wf(),
        ensures
            final(self).wf(),
            final(self).view_seq() == old(self).view_seq().map_values(
                |f: FamilyView| marked_by_failure(f, failed_ids.deep_view()),
            ),
            fail_run == failure_fails_run(old(self).view_seq(), failed_ids.deep_view()),
    {
        let ghost ov = self.view_seq();
        let ghost ids = failed_ids.deep_view();
        let mut fail_run = failed_ids.len() == 0;
        let mut i: usize = 0;
        while i < self.families.len()
            invariant
                i <= self.families.len(),
                self.families.len() == ov.len(),
                ids == failed_ids.deep_view(),
                forall|j: int| 0 <= j < i ==> (#[trigger] self.view_seq()[j]) == marked_by_failure(ov[j], ids),
                forall|j: int| i <= j < ov.len() ==> (#[trigger] self.view_seq()[j]) == ov[j],
                fail_run == (ids.len() == 0 || exists|j: int|
                    0 <= j < i && ids.contains(#[trigger] ov[j].family_id) && ov[j].failure_policy
                        == SplitFailurePolicy::FailFastCancel),
            decreases self.families.len() - i,
        {
            let listed = contains_str(failed_ids, self.families[i].family_id.as_str());
            let policy = self.families[i].failure_policy;
            let ghost before = self.view_seq();
            proof {
                assert(before[i as int] == ov[i as int]);
            }
            if listed && policy != SplitFailurePolicy::BestEffortContinue {
                self.families[i].force_failed = true;
                proof {
                    assert forall|j: int| 0 <= j < self.families.len() && j != i implies (#[trigger] self.view_seq()[j])
                        == before[j] by {}
                }
            }
            if listed && policy == SplitFailurePolicy::FailFastCancel {
                fail_run = true;
            }
            proof {
                assert(self.view_seq()[i as int] == marked_by_failure(ov[i as int], ids));
            }
            i += 1;
        }
        proof {
            assert(self.view_seq() =~= ov.map_values(|f: FamilyView| marked_by_failure(f, ids)));
        }
        fail_run
    }

    /// Drops the families no live cursor belongs to; force-failed families
    /// stay unless `allow_force_failed`.
    pub fn evict_idle(&mut self, cursors: &Vec<CursorState>, allow_force_failed: bool)
        requires
            old(self).wf(),
        ensures
            final(self).wf(),
            final(self).view_seq() == old(self).view_seq().filter(
                |f: FamilyView| family_kept(cursors_view(cursors@), allow_force_failed, f),
            ),
    {
        let ghost ov = self.view_seq();
        let ghost cs = cursors_view(cursors@);
        let ghost keep = |f: FamilyView| family_kept(cs, allow_force_failed, f);
        let mut kept: Vec<SplitFamilyState> = Vec::new();
        let mut old_families: Vec<SplitFamilyState> = Vec::new();
        std::mem::swap(&mut old_families, &mut self.families);
        let ghost src = old_families@;
        assert(src.len() == old_families.len());
        assert(src.map_values(|f: SplitFamilyState| f@) == ov);
        let mut i: usize = 0;
        while old_families.len() > 0
            invariant
                i + old_families.len() == src.len(),
                src.len() <= usize::MAX,
                old_families@ == src.skip(i as int),
                kept@.map_values(|f: SplitFamilyState| f@) == ov.take(i as int).filter(keep),
                ov == src.map_values(|f: SplitFamilyState| f@),
                cs == cursors_view(cursors@),
                keep == (|f: FamilyView| family_kept(cs, allow_force_failed, f)),
            decreases old_families.len(),
        {
            let f = old_families.remove(0);
            proof {
                assert(f == src[i as int]);
                crate::seqs::lemma_filter_take_step(ov, keep, i as int);
                assert(old_families@ =~= src.skip(i + 1));
            }
            let referenced = family_is_referenced(cursors, f.family_id.as_str());
            if (f.force_failed && !allow_force_failed) || referenced {
                let ghost before = kept@;
                kept.push(f);
                proof {
                    assert(kept@.map_values(|f: SplitFamilyState| f@) =~= before.map_values(
                        |f: SplitFamilyState| f@,
                    ).push(ov[i as int]));
                }
            }
            i += 1;
        }
        proof {
            crate::seqs::lemma_take_full(ov);
        }
        self.families = kept;
        proof {
            let nv = self.view_seq();
            assert(nv == ov.filter(keep));
            assert forall|a: int, b: int| 0 <= a < b < nv.len() implies (#[trigger] nv[a]).family_id
                != (#[trigger] nv[b]).family_id by {
                lemma_filter_preserves_distinct_ids(ov, keep, a, b);
            }
        }
    }
}

/// Filtering keeps family ids distinct.
proof fn lemma_filter_preserves_distinct_ids(
    s: Seq<FamilyView>,
    p: spec_fn(FamilyView) -> bool,
    a: int,
    b: int,
)
    requires
        forall|i: int, j: int| 0 <= i < j < s.len() ==> (#[trigger] s[i]).family_id != (#[trigger] s[j]).family_id,
        0 <= a < b < s.filter(p).len(),
    ensures
        s.filter(p)[a].family_id != s.filter(p)[b].family_id,
    decreases s.len(),
{
    reveal(Seq::filter);
    if s.len() == 0 {
        return;
    }
    let init = s.drop_last();
    assert forall|i: int, j: int| 0 <= i < j < init.len() implies (#[trigger] init[i]).family_id
        != (#[trigger] init[j]).family_id by {
        assert(init[i] == s[i]);
        assert(init[j] == s[j]);
    }
    let fi = init.filter(p);
    if p(s.last()) {
        assert(s.filter(p) == fi.push(s.last()));
        if b < fi.len() {
            lemma_filter_preserves_distinct_ids(init, p, a, b);
        } else {
            let x = fi[a];
            assert(fi.contains(x));
            init.lemma_filter_contains_rev(p, x);
            assert(init.contains(x));
            let k = choose|k: int| 0 <= k < init.len() && init[k] == x;
            assert(init[k] == s[k]);
            assert(s[k].family_id != s[s.len() - 1].family_id);
        }
    } else {
        assert(s.filter(p) == fi);
        lemma_filter_preserves_distinct_ids(init, p, a, b);
    }
}

/// Some cursor in `cursors` belongs to the family.
pub fn family_is_referenced(cursors: &Vec<CursorState>, family_id: &str) -> (r: bool)
    ensures
        r == family_referenced(cursors_view(cursors@), family_id@),
{
    let ghost cs = cursors_view(cursors@);
    let mut i: usize = 0;
    while i < cursors.len()
        invariant
            i <= cursors.len(),
            cs == cursors_view(cursors@),
            forall|j: int| 0 <= j < i ==> !(#[trigger] cs[j]).split_family_ids.contains(family_id@),
        decreases cursors.len() - i,
    {
        if contains_str(&cursors[i].split_family_ids, family_id) {
            assert(cs[i as int].split_family_ids.contains(family_id@));
            return true;
        }
        i += 1;
    }
    false
}

/// How a failed node result ends its cursor.
#[derive(Debug, Clone, Copy, PartialEq, Eq, Structural)]
pub enum TaskFailureClass {
    /// The run was aborted: it ends as aborted with no cursors left.
    Aborted,
    /// The cursor ends with this status and its branch failure is handled.
    Terminal(CursorTerminalStatus),
}

pub open spec fn task_failure_class(run_aborted: bool, error_type: Option<Seq<char>>, exit_code: i32) -> TaskFailureClass {
    if run_aborted || error_type == Some("aborted"@) {
        TaskFailureClass::Aborted
    } else if exit_code == -2 || error_type == Some("timeout"@) {
        TaskFailureClass::Terminal(CursorTerminalStatus::Timeout)
    } else {
        TaskFailureClass::Terminal(CursorTerminalStatus::Failure)
    }
}

/// How a failed task is classified, over all inputs: it is an abort exactly
/// when the run was aborted or the agent reported an abort; otherwise it is
/// a timeout exactly when the exit code is -2 or the agent reported a
/// timeout, and a failure in every other case (in particular when nothing
/// was reported and the exit code is not -2). An error type other than
/// `aborted` and `timeout` counts as no error type at all.
pub proof fn lemma_failure_classes(run_aborted: bool, error_type: Option<Seq<char>>, exit_code: i32)
    ensures
        (task_failure_class(run_aborted, error_type, exit_code) == TaskFailureClass::Aborted) == (run_aborted
            || error_type == Some("aborted"@)),
        task_failure_class(run_aborted, error_type, exit_code) == TaskFailureClass::Terminal(
            CursorTerminalStatus::Timeout,
        ) <==> (!run_aborted && error_type != Some("aborted"@) && (exit_code == -2 || error_type == Some(
            "timeout"@,
        ))),
        task_failure_class(run_aborted, error_type, exit_code) == TaskFailureClass::Terminal(
            CursorTerminalStatus::Failure,
        ) <==> (!run_aborted && error_type != Some("aborted"@) && exit_code != -2 && error_type != Some(
            "timeout"@,
        )),
        exit_code != -2 ==> task_failure_class(false, None, exit_code) == TaskFailureClass::Terminal(
            CursorTerminalStatus::Failure,
        ),
        task_failure_class(run_aborted, None, -2i32) != TaskFailureClass::Terminal(CursorTerminalStatus::Failure),
        forall|t: Seq<char>|
            t != "aborted"@ && t != "timeout"@ ==> #[trigger] task_failure_class(run_aborted, Some(t), exit_code)
                == task_failure_class(run_aborted, None, exit_code),
{
}

/// Classifies a failed node result: an abort (of the run, or reported by the
/// agent) ends the run; exit code -2 or a reported timeout is a timeout;
/// anything else a failure.
pub fn classify_task_failure(run_aborted: bool, error_type: Option<&str>, exit_code: i32) -> (r: TaskFailureClass)
    ensures
        r == task_failure_class(run_aborted, crate::text::opt_str_view(error_type), exit_code),
        (r == TaskFailureClass::Aborted) == (run_aborted || crate::text::opt_str_view(error_type) == Some(
            "aborted"@,
        )),
        r == TaskFailureClass::Terminal(CursorTerminalStatus::Timeout) ==> exit_code == -2
            || crate::text::opt_str_view(error_type) == Some("timeout"@),
        !run_aborted && error_type is None && exit_code != -2 ==> r == TaskFailureClass::Terminal(
            CursorTerminalStatus::Failure,
        ),
{
    let aborted_reported = match error_type {
        Some(t) => str_eq(t, "aborted"),
        None => false,
    };
    if run_aborted || aborted_reported {
        return TaskFailureClass::Aborted;
    }
    let timeout_reported = match error_type {
        Some(t) => str_eq(t, "timeout"),
        None => false,
    };
    if exit_code == -2 || timeout_reported {
        TaskFailureClass::Terminal(CursorTerminalStatus::Timeout)
    } else {
        TaskFailureClass::Terminal(CursorTerminalStatus::Failure)
    }
}

/// The status a failed subflow call ends with: exit code -2 is a timeout.
pub fn subflow_failure_status(exit_code: i32) -> (r: CursorTerminalStatus)
    ensures
        r == (if exit_code == -2 {
            CursorTerminalStatus::Timeout
        } else {
            CursorTerminalStatus::Failure
        }),
{
    if exit_code == -2 {
        CursorTerminalStatus::Timeout
    } else {
        CursorTerminalStatus::Failure
    }
}

/// Asks every cursor but `cursor_id` to cancel.
pub fn cancel_other_cursors(cursors: &mut Vec<CursorState>, cursor_id: &str)
    ensures
        final(cursors).len() == old(cursors).len(),
        forall|j: int|
            0 <= j < old(cursors).len() ==> (#[trigger] final(cursors)@[j])@ == (CursorView {
                cancel_requested: old(cursors)@[j]@.cancel_requested || old(cursors)@[j]@.cursor_id
                    != cursor_id@,
                ..old(cursors)@[j]@
            }),
{
    let mut i: usize = 0;
    while i < cursors.len()
        invariant
            i <= cursors.len(),
            cursors.len() == old(cursors).len(),
            forall|j: int|
                0 <= j < i ==> (#[trigger] cursors@[j])@ == (CursorView {
                    cancel_requested: old(cursors)@[j]@.cancel_requested || old(cursors)@[j]@.cursor_id
                        != cursor_id@,
                    ..old(cursors)@[j]@
                }),
            forall|j: int| i <= j < cursors.len() ==> (#[trigger] cursors@[j]) == old(cursors)@[j],
        decreases cursors.len() - i,
    {
        if !str_eq(cursors[i].cursor_id.as_str(), cursor_id) {
            cursors[i].cancel_requested = true;
        }
        i += 1;
    }
}

/// Moves a cursor along `edge`, leaving node `from_node_id`; a branch
/// decision also records where the cursor branched and on which label.
pub fn advance_cursor(cursor: &mut CursorState, edge: &WorkflowEdge, from_node_id: &str, branch: bool)
    ensures
        final(cursor)@ == (CursorView {
            node_id: edge@.to,
            incoming_edge_id: Some(edge@.id),
            incoming_node_id: Some(from_node_id@),
            last_branch_origin_id: if branch {
                Some(from_node_id@)
            } else {
                old(cursor)@.last_branch_origin_id
            },
            last_branch_choice: if branch {
                edge@.label
            } else {
                old(cursor)@.last_branch_choice
            },
            state: CursorRuntimeState::Runnable,
            ..old(cursor)@
        }),
{
    cursor.node_id = edge.to.clone();
    cursor.incoming_edge_id = Some(edge.id.clone());
    cursor.incoming_node_id = Some(from_node_id.to_owned());
    if branch {
        cursor.last_branch_origin_id = Some(from_node_id.to_owned());
        cursor.last_branch_choice = clone_opt_string(&edge.label);
    }
    cursor.state = CursorRuntimeState::Runnable;
}

/// A cursor moved past a node along `e`, without a branch decision.
pub open spec fn advanced_past(c: CursorView, e: EdgeView, from: Seq<char>) -> CursorView {
    CursorView {
        node_id: e.to,
        incoming_edge_id: Some(e.id),
        incoming_node_id: Some(from),
        state: CursorRuntimeState::Runnable,
        ..c
    }
}

/// The cursors once cursor `cursor_id` skipped node `node_id`: it moves on
/// along the node's first success edge, or ends when the node has none.
pub open spec fn after_skip(g: GraphView, cs: Seq<CursorView>, cursor_id: Seq<char>, node_id: Seq<char>) -> Seq<
    CursorView,
> {
    match find_first_cursor(cs, cursor_id) {
        None => cs,
        Some(k) => match crate::graph::first_success_edge(g, node_id) {
            Some(e) => cs.update(k, advanced_past(cs[k], e, node_id)),
            None => cs.remove(k),
        },
    }
}

/// Passes cursor `cursor_id` over the skipped node `node_id`; returns the
/// node it moves to, for the transition log.
pub fn skip_node(graph: &WorkflowGraph, cursors: &mut Vec<CursorState>, cursor_id: &str, node_id: &str) -> (r:
    Option<String>)
    ensures
        r.deep_view() == (match crate::graph::first_success_edge(graph@, node_id@) {
            Some(e) => Some(e.to),
            None => None,
        }),
        cursors_view(final(cursors)@) == after_skip(
            graph@,
            cursors_view(old(cursors)@),
            cursor_id@,
            node_id@,
        ),
{
    let ghost cs = cursors_view(cursors@);
    let next_edge = crate::graph::select_success_edge(graph, node_id);
    let next = match &next_edge {
        Some(e) => Some(e.to.clone()),
        None => None,
    };
    match find_cursor_index(cursors, cursor_id) {
        Some(k) => {
            proof {
                lemma_find_first_cursor(cs, cursor_id@, k as int);
            }
            match next_edge {
                Some(e) => {
                    let mut c = cursors[k].duplicate();
                    advance_cursor(&mut c, &e, node_id, false);
                    cursors.set(k, c);
                    assert(cursors_view(cursors@) =~= cs.update(
                        k as int,
                        advanced_past(cs[k as int], e@, node_id@),
                    ));
                },
                None => {
                    cursors.remove(k);
                    assert(cursors_view(cursors@) =~= cs.remove(k as int));
                },
            }
        },
        None => {
            proof {
                lemma_no_cursor(cs, cursor_id@);
            }
        },
    }
    next
}

/// The cursor stands at the exit node of the subflow it is inside.
pub open spec fn at_subflow_exit(c: CursorView, node_id: Seq<char>) -> bool {
    c.call_stack.len() > 0 && c.call_stack.last().exit_node_id == node_id
}

/// Whether the cursor stands at the exit node of the subflow it is inside.
pub fn should_complete_subflow(cursor: &CursorState, node_id: &str) -> (r: bool)
    ensures
        r == at_subflow_exit(cursor@, node_id@),
{
    let n = cursor.call_stack.len();
    if n == 0 {
        return false;
    }
    assert(cursor@.call_stack.last() == cursor.call_stack@[n - 1]@);
    str_eq(cursor.call_stack[n - 1].exit_node_id.as_str(), node_id)
}

/// The cursor after returning from its innermost subflow with `exit_output`:
/// the frame (with the results recorded inside the call) is gone, the
/// parent's counters, variables and branch choice are back, the exit output
/// is the cursor's output, and the cursor can run.
pub open spec fn returned_from_subflow(c: CursorView, exit_output: Seq<char>) -> CursorView {
    let f = c.call_stack.last();
    CursorView {
        last_output: exit_output,
        loop_counters: f.parent_loop_counters,
        visit_counters: f.parent_visit_counters,
        var_map: f.parent_var_map,
        last_branch_origin_id: f.parent_last_branch_origin_id,
        last_branch_choice: f.parent_last_branch_choice,
        call_stack: c.call_stack.drop_last(),
        state: CursorRuntimeState::Runnable,
        ..c
    }
}

/// Pops the innermost call frame and restores the parent's state; returns
/// the popped frame.
pub fn return_from_subflow(cursor: &mut CursorState, exit_output: String) -> (frame: CallFrameState)
    requires
        old(cursor)@.call_stack.len() > 0,
    ensures
        frame@ == old(cursor)@.call_stack.last(),
        final(cursor)@ == returned_from_subflow(old(cursor)@, exit_output@),
{
    let ghost old_stack = cursor.call_stack@;
    let frame = cursor.call_stack.pop().unwrap();
    proof {
        assert(cursor.call_stack@ == old_stack.drop_last());
        assert(cursor.call_stack@.map_values(|f: CallFrameState| f@) =~= old_stack.map_values(
            |f: CallFrameState| f@,
        ).drop_last());
    }
    cursor.last_output = exit_output;
    cursor.loop_counters = frame.parent_loop_counters.duplicate();
    cursor.visit_counters = frame.parent_visit_counters.duplicate();
    cursor.var_map = clone_pairs(&frame.parent_var_map);
    cursor.last_branch_origin_id = clone_opt_string(&frame.parent_last_branch_origin_id);
    cursor.last_branch_choice = clone_opt_string(&frame.parent_last_branch_choice);
    cursor.state = CursorRuntimeState::Runnable;
    frame
}

/// The success edges leaving `node_id`, in edge order: the branches a split
/// spawns.
pub fn split_success_edges(graph: &WorkflowGraph, node_id: &str) -> (r: Vec<WorkflowEdge>)
    ensures
        r@.map_values(|e: WorkflowEdge| e@) == graph@.edges.filter(is_success_from(node_id@)),
{
    let ghost es = graph@.edges;
    let ghost p = is_success_from(node_id@);
    let mut out: Vec<WorkflowEdge> = Vec::new();
    let mut i: usize = 0;
    while i < graph.edges.len()
        invariant
            i <= graph.edges.len(),
            es == graph@.edges,
            p == is_success_from(node_id@),
            out@.map_values(|e: WorkflowEdge| e@) == es.take(i as int).filter(p),
        decreases graph.edges.len() - i,
    {
        proof {
            crate::seqs::lemma_filter_take_step(es, p, i as int);
        }
        let e = &graph.edges[i];
        assert(es[i as int] == e@);
        if str_eq(e.from.as_str(), node_id) && e.outcome == WorkflowEdgeOutcome::Success {
            let ghost before = out@;
            out.push(e.duplicate());
            proof {
                assert(out@.map_values(|e: WorkflowEdge| e@) =~= before.map_values(|e: WorkflowEdge| e@).push(
                    es[i as int],
                ));
            }
        }
        i += 1;
    }
    proof {
        crate::seqs::lemma_take_full(es);
    }
    out
}

/// The cursor a split spawns along `edge`: a child of `parent` in the new
/// family, carrying the parent's output, counters, call stack and branch
/// choice.
pub open spec fn split_child(
    parent: CursorView,
    edge: EdgeView,
    child_id: Seq<char>,
    family_id: Seq<char>,
    split_node_id: Seq<char>,
    epoch: u64,
) -> CursorView {
    CursorView {
        cursor_id: child_id,
        node_id: edge.to,
        execution_epoch: epoch,
        parent_cursor_id: Some(parent.cursor_id),
        incoming_edge_id: Some(edge.id),
        incoming_node_id: Some(split_node_id),
        split_family_ids: parent.split_family_ids.push(family_id),
        cancel_requested: false,
        state: CursorRuntimeState::Runnable,
        ..parent
    }
}

/// The branch cursors of a split: one per edge, with the given fresh ids.
pub fn spawn_split_children(
    parent: &CursorState,
    edges: &Vec<WorkflowEdge>,
    child_ids: &Vec<String>,
    family_id: &str,
    split_node_id: &str,
    epoch: u64,
) -> (r: Vec<CursorState>)
    requires
        child_ids.len() == edges.len(),
    ensures
        r.len() == edges.len(),
        forall|i: int|
            0 <= i < edges.len() ==> (#[trigger] r@[i])@ == split_child(
                parent@,
                edges@[i]@,
                child_ids@[i]@,
                family_id@,
                split_node_id@,
                epoch,
            ),
{
    let mut out: Vec<CursorState> = Vec::new();
    let mut i: usize = 0;
    while i < edges.len()
        invariant
            i <= edges.len(),
            child_ids.len() == edges.len(),
            out.len() == i,
            forall|j: int|
                0 <= j < i ==> (#[trigger] out@[j])@ == split_child(
                    parent@,
                    edges@[j]@,
                    child_ids@[j]@,
                    family_id@,
                    split_node_id@,
                    epoch,
                ),
        decreases edges.len() - i,
    {
        let edge = &edges[i];
        let mut families = clone_strings(&parent.split_family_ids);
        let ghost before = families.deep_view();
        families.push(family_id.to_owned());
        assert(families.deep_view() =~= before.push(family_id@));
        let child = CursorState {
            cursor_id: child_ids[i].clone(),
            node_id: edge.to.clone(),
            execution_epoch: epoch,
            parent_cursor_id: Some(parent.cursor_id.clone()),
            incoming_edge_id: Some(edge.id.clone()),
            incoming_node_id: Some(split_node_id.to_owned()),
            split_family_ids: families,
            last_output: parent.last_output.clone(),
            loop_counters: parent.loop_counters.duplicate(),
            visit_counters: parent.visit_counters.duplicate(),
            var_map: clone_pairs(&parent.var_map),
            call_stack: clone_call_stack(&parent.call_stack),
            last_branch_origin_id: clone_opt_string(&parent.last_branch_origin_id),
            last_branch_choice: clone_opt_string(&parent.last_branch_choice),
            cancel_requested: false,
            state: CursorRuntimeState::Runnable,
        };
        out.push(child);
        i += 1;
    }
    out
}

/// The lower-case name of a failure policy, as a split reports it.
pub open spec fn policy_label(p: SplitFailurePolicy) -> Seq<char> {
    match p {
        SplitFailurePolicy::BestEffortContinue => "besteffortcontinue"@,
        SplitFailurePolicy::DrainThenFail => "drainthenfail"@,
        SplitFailurePolicy::FailFastCancel => "failfastcancel"@,
    }
}

/// The lower-case name of a failure policy (see `policy_label`).
pub fn failure_policy_label(p: SplitFailurePolicy) -> (r: &'static str)
    ensures
        r@ == policy_label(p),
{
    match p {
        SplitFailurePolicy::BestEffortContinue => "besteffortcontinue",
        SplitFailurePolicy::DrainThenFail => "drainthenfail",
        SplitFailurePolicy::FailFastCancel => "failfastcancel",
    }
}

/// The output a split records: `Spawned {n} branches.`
pub open spec fn split_output(n: nat) -> Seq<char> {
    "Spawned "@ + decimal(n) + " branches."@
}

/// The output a split records after spawning `n` branches.
pub fn split_output_text(n: u64) -> (r: String)
    ensures
        r@ == split_output(n as nat),
{
    let mut v: Vec<char> = Vec::new();
    extend_str(&mut v, "Spawned ");
    let digits = decimal_string(n);
    extend_str(&mut v, digits.as_str());
    extend_str(&mut v, " branches.");
    let r = string_of(v.as_slice());
    assert(r@ =~= split_output(n as nat));
    r
}

/// The edge has the id `id`.
pub open spec fn edge_has_id(id: Seq<char>) -> spec_fn(EdgeView) -> bool {
    |e: EdgeView| e.id == id
}

/// The edge a cursor entered a collector by: the inbound edge it recorded
/// when that is one of the collector's inbound edges, else the collector's
/// first inbound edge.
pub open spec fn collector_entry_edge(g: GraphView, collector_id: Seq<char>, incoming: Option<Seq<char>>) -> Option<EdgeView> {
    let ins = inbound(g, collector_id);
    let by_id = match incoming {
        Some(id) => ins.filter(edge_has_id(id)),
        None => Seq::empty(),
    };
    if by_id.len() > 0 {
        Some(by_id[0])
    } else if ins.len() > 0 {
        Some(ins[0])
    } else {
        None
    }
}

/// The edge a cursor entered a collector along: the recorded edge when it enters the
/// collector, else the collector's first inbound edge.
pub fn collector_incoming_edge(graph: &WorkflowGraph, collector_id: &str, incoming_edge_id: Option<&str>) -> (r: Option<WorkflowEdge>)
    ensures
        match r {
            Some(e) => collector_entry_edge(graph@, collector_id@, opt_str_view(incoming_edge_id)) == Some(e@),
            None => collector_entry_edge(graph@, collector_id@, opt_str_view(incoming_edge_id)) is None,
        },
{
    let ghost g = graph@;
    let ghost ins = inbound(g, collector_id@);
    let ghost pin = |e: EdgeView| e.to == collector_id@;
    let mut first: Option<usize> = None;
    let mut by_id: Option<usize> = None;
    let ghost pid = edge_has_id(opt_str_view(incoming_edge_id).unwrap_or(Seq::empty()));
    let mut i: usize = 0;
    while i < graph.edges.len()
        invariant
            i <= graph.edges.len(),
            g == graph@,
            ins == g.edges.filter(pin),
            pin == (|e: EdgeView| e.to == collector_id@),
            match first {
                Some(k) => k < i && g.edges.take(i as int).filter(pin).len() > 0 && g.edges.take(i as int).filter(pin)[0] == g.edges[k as int],
                None => g.edges.take(i as int).filter(pin).len() == 0,
            },
            incoming_edge_id is Some ==> match by_id {
                Some(k) => k < i && g.edges.take(i as int).filter(pin).filter(pid).len() > 0
                    && g.edges.take(i as int).filter(pin).filter(pid)[0] == g.edges[k as int],
                None => g.edges.take(i as int).filter(pin).filter(pid).len() == 0,
            },
            incoming_edge_id is None ==> by_id is None,
            pid == edge_has_id(opt_str_view(incoming_edge_id).unwrap_or(Seq::empty())),
        decreases graph.edges.len() - i,
    {
        proof {
            crate::seqs::lemma_filter_take_step(g.edges, pin, i as int);
        }
        let e = &graph.edges[i];
        assert(g.edges[i as int] == e@);
        if str_eq(e.to.as_str(), collector_id) {
            let ghost fi = g.edges.take(i as int).filter(pin);
            assert(g.edges.take(i + 1).filter(pin) == fi.push(e@));
            if first.is_none() {
                first = Some(i);
                assert(fi.push(e@)[0] == e@);
            } else {
                assert(fi.push(e@)[0] == fi[0]);
            }
            proof {
                crate::seqs::lemma_filter_push(fi, pid, e@);
            }
            match incoming_edge_id {
                Some(id) => {
                    if by_id.is_none() && str_eq(e.id.as_str(), id) {
                        by_id = Some(i);
                    }
                },
                None => {},
            }
        }
        i += 1;
    }
    proof {
        crate::seqs::lemma_take_full(g.edges);
        assert(g.edges.filter(pin) == inbound(g, collector_id@));
    }
    match by_id {
        Some(k) => Some(graph.edges[k].duplicate()),
        None => match first {
            Some(k) => Some(graph.edges[k].duplicate()),
            None => None,
        },
    }
}

/// What a split did: the new family, its branch cursors' ids, and the
/// output it records.
#[derive(Debug)]
pub struct SplitOutcome {
    pub family_id: String,
    pub child_ids: Vec<String>,
    pub output: String,
}

/// The family a split at `node` opens.
pub open spec fn opened_family(family_id: Seq<char>, node: NodeView, epoch: u64) -> FamilyView {
    FamilyView {
        family_id,
        split_node_id: node.id,
        execution_epoch: epoch,
        failure_policy: node.split_failure_policy,
        force_failed: false,
    }
}

/// The cursors after a split: the splitting cursor is gone, and one branch
/// cursor per success edge follows the others.
pub open spec fn cursors_after_split(
    cs: Seq<CursorView>,
    k: int,
    edges: Seq<EdgeView>,
    ids: Seq<Seq<char>>,
    family_id: Seq<char>,
    node_id: Seq<char>,
    epoch: u64,
) -> Seq<CursorView> {
    cs.remove(k) + Seq::new(
        edges.len(),
        |i: int| split_child(cs[k], edges[i], ids[i], family_id, node_id, epoch),
    )
}

/// A split at `node` for the cursor `cursor_id`: the cursor is replaced by
/// one branch cursor per success edge of the node, all in a new family with
/// the node's failure policy. Returns `None`, changing nothing, when no
/// cursor has that id.
pub fn split_cursor(
    graph: &WorkflowGraph,
    cursors: &mut Vec<CursorState>,
    families: &mut SplitFamilies,
    cursor_id: &str,
    node: &WorkflowNode,
    epoch: u64,
) -> (r: Option<SplitOutcome>)
    requires
        old(families).wf(),
    ensures
        final(families).wf(),
        match find_first_cursor(cursors_view(old(cursors)@), cursor_id@) {
            None => r is None && final(cursors)@ == old(cursors)@ && final(families).view_seq()
                == old(families).view_seq(),
            Some(k) => r is Some && ({
                let o = r.unwrap();
                let edges = graph@.edges.filter(is_success_from(node@.id));
                let fam = opened_family(o.family_id@, node@, epoch);
                &&& prefixed_id("family_"@, o.family_id@)
                &&& o.child_ids.len() == edges.len()
                &&& forall|i: int| 0 <= i < edges.len() ==> prefixed_id("cursor_"@, #[trigger] o.child_ids@[i]@)
                &&& o.output@ == split_output(edges.len())
                &&& cursors_view(final(cursors)@) == cursors_after_split(
                    cursors_view(old(cursors)@),
                    k,
                    edges,
                    o.child_ids.deep_view(),
                    o.family_id@,
                    node@.id,
                    epoch,
                )
                &&& final(families).view_seq().contains(fam)
                &&& forall|j: int|
                    0 <= j < old(families).view_seq().len() && (#[trigger] old(families).view_seq()[j]).family_id
                        != o.family_id@ ==> final(families).view_seq().contains(old(families).view_seq()[j])
                &&& forall|j: int|
                    0 <= j < final(families).view_seq().len() ==> (#[trigger] final(families).view_seq()[j])
                        == fam || old(families).view_seq().contains(final(families).view_seq()[j])
            }),
        },
{
    let ghost cs = cursors_view(cursors@);
    let k = match find_cursor_index(cursors, cursor_id) {
        Some(k) => k,
        None => {
            proof {
                lemma_no_cursor(cs, cursor_id@);
            }
            return None;
        },
    };
    proof {
        lemma_find_first_cursor(cs, cursor_id@, k as int);
    }
    let parent = cursors.remove(k);
    proof {
        assert(parent@ == cs[k as int]);
        assert(cursors_view(cursors@) =~= cs.remove(k as int));
    }
    let edges = split_success_edges(graph, node.id.as_str());
    let ghost ev = edges@.map_values(|e: WorkflowEdge| e@);
    let family_id = new_split_family_id();
    let mut child_ids: Vec<String> = Vec::new();
    let mut i: usize = 0;
    while i < edges.len()
        invariant
            i <= edges.len(),
            child_ids.len() == i,
            forall|j: int| 0 <= j < i ==> prefixed_id("cursor_"@, #[trigger] child_ids@[j]@),
        decreases edges.len() - i,
    {
        child_ids.push(new_cursor_id());
        i += 1;
    }
    families.insert(
        SplitFamilyState {
            family_id: family_id.clone(),
            split_node_id: node.id.clone(),
            execution_epoch: epoch,
            failure_policy: node.split_failure_policy,
            force_failed: false,
        },
    );
    let children = spawn_split_children(&parent, &edges, &child_ids, family_id.as_str(), node.id.as_str(), epoch);
    let ghost base = cursors_view(cursors@);
    let mut j: usize = 0;
    let mut children = children;
    let ghost kids = children@;
    assert(kids.len() == edges.len());
    let mut rest: Vec<CursorState> = Vec::new();
    std::mem::swap(&mut rest, &mut children);
    while rest.len() > 0
        invariant
            j + rest.len() == kids.len(),
            kids.len() <= usize::MAX,
            rest@ == kids.skip(j as int),
            cursors_view(cursors@) == base + cursors_view(kids.take(j as int)),
        decreases rest.len(),
    {
        let c = rest.remove(0);
        proof {
            assert(c == kids[j as int]);
            assert(rest@ =~= kids.skip(j + 1));
        }
        let ghost before = cursors_view(cursors@);
        cursors.push(c);
        proof {
            assert(cursors_view(kids.take(j + 1)) =~= cursors_view(kids.take(j as int)).push(c@));
            assert(cursors_view(cursors@) =~= before.push(c@));
        }
        j += 1;
    }
    proof {
        assert(kids.take(kids.len() as int) =~= kids);
        let want = Seq::new(
            ev.len(),
            |i: int| split_child(cs[k as int], ev[i], child_ids.deep_view()[i], family_id@, node@.id, epoch),
        );
        assert(cursors_view(kids) =~= want);
        assert(cursors_view(cursors@) =~= cursors_after_split(
            cs,
            k as int,
            ev,
            child_ids.deep_view(),
            family_id@,
            node@.id,
            epoch,
        ));
    }
    let output = split_output_text(edges.len() as u64);
    Some(SplitOutcome { family_id, child_ids, output })
}

/// The cursors after a failed branch: when the run fails, every other
/// cursor is asked to cancel; the failed cursor is gone either way.
pub open spec fn cursors_after_failure(cs: Seq<CursorView>, k: int, fail_run: bool) -> Seq<CursorView> {
    let marked = if fail_run {
        cs.map_values(
            |c: CursorView| CursorView {
                cancel_requested: c.cancel_requested || c.cursor_id != cs[k].cursor_id,
                ..c
            },
        )
    } else {
        cs
    };
    marked.remove(k)
}

/// The cursor `cursor_id` ended in failure: its families react by their
/// policies, the other cursors are cancelled when the run fails, and the
/// cursor is removed. Returns whether the run fails, or `None`, changing
/// nothing, when no cursor has that id.
pub fn fail_branch(families: &mut SplitFamilies, cursors: &mut Vec<CursorState>, cursor_id: &str) -> (r: Option<bool>)
    requires
        old(families).wf(),
    ensures
        final(families).wf(),
        match find_first_cursor(cursors_view(old(cursors)@), cursor_id@) {
            None => r is None && final(cursors)@ == old(cursors)@ && final(families).view_seq()
                == old(families).view_seq(),
            Some(k) => {
                let ids = cursors_view(old(cursors)@)[k].split_family_ids;
                &&& r == Some(failure_fails_run(old(families).view_seq(), ids))
                &&& final(families).view_seq() == old(families).view_seq().map_values(
                    |f: FamilyView| marked_by_failure(f, ids),
                )
                &&& cursors_view(final(cursors)@) == cursors_after_failure(
                    cursors_view(old(cursors)@),
                    k,
                    r.unwrap(),
                )
            },
        },
{
    let ghost cs = cursors_view(cursors@);
    let k = match find_cursor_index(cursors, cursor_id) {
        Some(k) => k,
        None => {
            proof {
                lemma_no_cursor(cs, cursor_id@);
            }
            return None;
        },
    };
    proof {
        lemma_find_first_cursor(cs, cursor_id@, k as int);
    }
    let family_ids = clone_strings(&cursors[k].split_family_ids);
    let fail_run = families.apply_branch_failure(&family_ids);
    if fail_run {
        cancel_other_cursors(cursors, cursor_id);
        proof {
            assert(cursors_view(cursors@) =~= cs.map_values(
                |c: CursorView| CursorView {
                    cancel_requested: c.cancel_requested || c.cursor_id != cs[k as int].cursor_id,
                    ..c
                },
            ));
        }
    }
    let ghost marked = cursors_view(cursors@);
    cursors.remove(k);
    proof {
        assert(cursors_view(cursors@) =~= marked.remove(k as int));
    }
    Some(fail_run)
}

/// A call may go one frame deeper when the stack stays within the call's
/// maximum depth (at least 1).
pub open spec fn depth_allows(stack_len: nat, max_depth: u32) -> bool {
    stack_len + 1 <= if max_depth < 1 {
        1
    } else {
        max_depth
    }
}

/// Whether one more call fits under the depth limit (at least one).
pub fn subflow_depth_allows(cursor: &CursorState, max_depth: u32) -> (r: bool)
    ensures
        r == depth_allows(cursor@.call_stack.len(), max_depth),
{
    let limit: usize = if max_depth < 1 { 1 } else { max_depth as usize };
    cursor.call_stack.len() < limit
}

/// The variables a cursor sees: its own, except for a cursor at the root
/// without any, which sees the run's.
pub open spec fn vars_for(c: CursorView, run_vars: Seq<(Seq<char>, Seq<char>)>) -> Seq<(Seq<char>, Seq<char>)> {
    if c.var_map.len() == 0 && c.call_stack.len() == 0 {
        run_vars
    } else {
        c.var_map
    }
}

/// The variables `cursor` sees, given the run's variables.
pub fn var_map_for_cursor(run_var_map: &Vec<(String, String)>, cursor: &CursorState) -> (r: Vec<(String, String)>)
    ensures
        pairs_view(r@) == vars_for(cursor@, pairs_view(run_var_map@)),
{
    if cursor.var_map.len() == 0 && cursor.call_stack.len() == 0 {
        clone_pairs(run_var_map)
    } else {
        clone_pairs(&cursor.var_map)
    }
}

/// The results a cursor reads: those of the call it is inside, else the
/// run's.
pub open spec fn results_for(c: CursorView, run_results: Seq<NodeResultView>) -> Seq<NodeResultView> {
    if c.call_stack.len() > 0 {
        c.call_stack.last().subflow_results
    } else {
        run_results
    }
}

/// The results `cursor` reads (see `results_for`).
pub fn results_for_cursor<'a>(run_results: &'a Vec<NodeResult>, cursor: &'a CursorState) -> (r: &'a Vec<
    NodeResult,
>)
    ensures
        results_view(r@) == results_for(cursor@, results_view(run_results@)),
{
    let n = cursor.call_stack.len();
    if n > 0 {
        assert(cursor@.call_stack.last() == cursor.call_stack@[n - 1]@);
        &cursor.call_stack[n - 1].subflow_results
    } else {
        run_results
    }
}

/// The cursor with `r` recorded in the call it is inside.
pub open spec fn recorded_in_call(c: CursorView, r: NodeResultView) -> CursorView {
    let f = c.call_stack.last();
    CursorView {
        call_stack: c.call_stack.update(
            c.call_stack.len() - 1,
            FrameView { subflow_results: with_result(f.subflow_results, r), ..f },
        ),
        ..c
    }
}

impl CallFrameState {
    /// Records a result made inside this call.
    fn record(&mut self, result: NodeResult)
        ensures
            final(self)@ == (FrameView {
                subflow_results: with_result(old(self)@.subflow_results, result@),
                ..old(self)@
            }),
    {
        record_result(&mut self.subflow_results, result);
    }
}

/// Records `result` for cursor `cursor_index` where its scope keeps
/// results: in the call it is inside, else in the run's results. Returns
/// whether the run's results took it.
pub fn insert_result_for_cursor_index(
    run_results: &mut Vec<NodeResult>,
    cursors: &mut Vec<CursorState>,
    cursor_index: usize,
    result: NodeResult,
) -> (r: bool)
    requires
        cursor_index < old(cursors).len(),
    ensures
        r == (old(cursors)@[cursor_index as int]@.call_stack.len() == 0),
        r ==> results_view(final(run_results)@) == with_result(results_view(old(run_results)@), result@)
            && cursors_view(final(cursors)@) == cursors_view(old(cursors)@),
        !r ==> final(run_results)@ == old(run_results)@ && cursors_view(final(cursors)@) == cursors_view(
            old(cursors)@,
        ).update(cursor_index as int, recorded_in_call(old(cursors)@[cursor_index as int]@, result@)),
{
    let n = cursors[cursor_index].call_stack.len();
    if n == 0 {
        record_result(run_results, result);
        return true;
    }
    let ghost rv = result@;
    let ghost oc = cursors@[cursor_index as int]@;
    let ghost ocs = cursors_view(cursors@);
    let ghost ostack = cursors@[cursor_index as int].call_stack@;
    cursors[cursor_index].call_stack[n - 1].record(result);
    proof {
        let nc = cursors@[cursor_index as int]@;
        assert(cursors@[cursor_index as int].call_stack@ == ostack.update(
            n - 1,
            cursors@[cursor_index as int].call_stack@[n - 1],
        ));
        assert(nc.call_stack =~= oc.call_stack.update(
            n - 1,
            FrameView { subflow_results: with_result(oc.call_stack.last().subflow_results, rv), ..oc.call_stack.last() },
        ));
        assert(nc =~= recorded_in_call(oc, rv));
        assert(cursors_view(cursors@) =~= ocs.update(cursor_index as int, recorded_in_call(oc, rv)));
    }
    false
}

/// The frame a call pushes: the call node, the subflow, its exit node, the
/// caller's output, counters, variables and branch choice, and no results
/// yet.
pub open spec fn call_frame(
    c: CursorView,
    run_vars: Seq<(Seq<char>, Seq<char>)>,
    frame_id: Seq<char>,
    call_node_id: Seq<char>,
    call_node_name: Seq<char>,
    subflow_name: Seq<char>,
    exit_node_id: Seq<char>,
) -> FrameView {
    FrameView {
        frame_id,
        call_node_id,
        call_node_name,
        subflow_name,
        exit_node_id,
        parent_last_output: c.last_output,
        parent_loop_counters: c.loop_counters,
        parent_visit_counters: c.visit_counters,
        parent_last_branch_origin_id: c.last_branch_origin_id,
        parent_last_branch_choice: c.last_branch_choice,
        parent_var_map: vars_for(c, run_vars),
        subflow_results: Seq::empty(),
    }
}

/// The cursor entering a subflow: the frame is pushed, the cursor stands at
/// the subflow's entry node with empty output, fresh counters, the
/// subflow's variables and no branch choice.
pub open spec fn entered_subflow(
    c: CursorView,
    run_vars: Seq<(Seq<char>, Seq<char>)>,
    subflow_vars: Seq<(Seq<char>, Seq<char>)>,
    frame_id: Seq<char>,
    call_node_id: Seq<char>,
    call_node_name: Seq<char>,
    subflow_name: Seq<char>,
    exit_node_id: Seq<char>,
    entry_node_id: Seq<char>,
) -> CursorView {
    CursorView {
        call_stack: c.call_stack.push(
            call_frame(c, run_vars, frame_id, call_node_id, call_node_name, subflow_name, exit_node_id),
        ),
        node_id: entry_node_id,
        incoming_edge_id: None,
        incoming_node_id: Some(call_node_id),
        last_output: Seq::empty(),
        loop_counters: Seq::empty(),
        visit_counters: Seq::empty(),
        var_map: subflow_vars,
        last_branch_origin_id: None,
        last_branch_choice: None,
        state: CursorRuntimeState::Runnable,
        ..c
    }
}

/// The cursor calls the subflow `subflow_name` from node `call_node_id`: a
/// frame with a fresh id is pushed and the cursor moves to the subflow's
/// entry node, seeing `subflow_vars` (the subflow's defaults with the call's
/// inputs); `run_var_map` is the run's variables. Returns the frame id.
pub fn enter_subflow(
    cursor: &mut CursorState,
    run_var_map: &Vec<(String, String)>,
    subflow_vars: Vec<(String, String)>,
    call_node_id: &str,
    call_node_name: &str,
    subflow_name: &str,
    exit_node_id: &str,
    entry_node_id: &str,
) -> (frame_id: String)
    ensures
        prefixed_id("frame_"@, frame_id@),
        final(cursor)@ == entered_subflow(
            old(cursor)@,
            pairs_view(run_var_map@),
            pairs_view(subflow_vars@),
            frame_id@,
            call_node_id@,
            call_node_name@,
            subflow_name@,
            exit_node_id@,
            entry_node_id@,
        ),
{
    let frame_id = new_call_frame_id();
    let frame = CallFrameState {
        frame_id: frame_id.clone(),
        call_node_id: call_node_id.to_owned(),
        call_node_name: call_node_name.to_owned(),
        subflow_name: subflow_name.to_owned(),
        exit_node_id: exit_node_id.to_owned(),
        parent_last_output: cursor.last_output.clone(),
        parent_loop_counters: cursor.loop_counters.duplicate(),
        parent_visit_counters: cursor.visit_counters.duplicate(),
        parent_last_branch_origin_id: clone_opt_string(&cursor.last_branch_origin_id),
        parent_last_branch_choice: clone_opt_string(&cursor.last_branch_choice),
        parent_var_map: var_map_for_cursor(run_var_map, cursor),
        subflow_results: Vec::new(),
    };
    let ghost fv = frame@;
    assert(fv.subflow_results =~= Seq::<crate::results::NodeResultView>::empty());
    let ghost old_stack = cursor.call_stack@;
    cursor.call_stack.push(frame);
    proof {
        assert(cursor.call_stack@.map_values(|f: CallFrameState| f@) =~= old_stack.map_values(
            |f: CallFrameState| f@,
        ).push(fv));
    }
    cursor.node_id = entry_node_id.to_owned();
    cursor.incoming_edge_id = None;
    cursor.incoming_node_id = Some(call_node_id.to_owned());
    cursor.last_output = String::new();
    cursor.loop_counters = Counters::new();
    cursor.visit_counters = Counters::new();
    cursor.var_map = subflow_vars;
    cursor.last_branch_origin_id = None;
    cursor.last_branch_choice = None;
    cursor.state = CursorRuntimeState::Runnable;
    proof {
        assert(cursor.loop_counters.entries_view() =~= Seq::<(Seq<char>, u32)>::empty());
        assert(cursor.visit_counters.entries_view() =~= Seq::<(Seq<char>, u32)>::empty());
    }
    frame_id
}

/// Returning from a subflow undoes the call: the caller's call stack,
/// counters, variables (as the caller saw them) and branch choice are back,
/// and the cursor carries the exit output, standing where the subflow left
/// it.
pub proof fn lemma_return_undoes_call(
    c: CursorView,
    run_vars: Seq<(Seq<char>, Seq<char>)>,
    subflow_vars: Seq<(Seq<char>, Seq<char>)>,
    frame_id: Seq<char>,
    call_node_id: Seq<char>,
    call_node_name: Seq<char>,
    subflow_name: Seq<char>,
    exit_node_id: Seq<char>,
    entry_node_id: Seq<char>,
    exit_output: Seq<char>,
)
    ensures
        ({
            let inside = entered_subflow(
                c,
                run_vars,
                subflow_vars,
                frame_id,
                call_node_id,
                call_node_name,
                subflow_name,
                exit_node_id,
                entry_node_id,
            );
            let back = returned_from_subflow(inside, exit_output);
            &&& back.call_stack == c.call_stack
            &&& back.loop_counters == c.loop_counters
            &&& back.visit_counters == c.visit_counters
            &&& back.var_map == vars_for(c, run_vars)
            &&& back.last_branch_origin_id == c.last_branch_origin_id
            &&& back.last_branch_choice == c.last_branch_choice
            &&& back.last_output == exit_output
            &&& back.cursor_id == c.cursor_id
            &&& back.split_family_ids == c.split_family_ids
            &&& back.state == CursorRuntimeState::Runnable
            &&& at_subflow_exit(inside, exit_node_id)
        }),
{
    let inside = entered_subflow(
        c,
        run_vars,
        subflow_vars,
        frame_id,
        call_node_id,
        call_node_name,
        subflow_name,
        exit_node_id,
        entry_node_id,
    );
    assert(inside.call_stack.drop_last() =~= c.call_stack);
}

/// What a call records stays inside it: once the cursor returns, it reads
/// the same results and variables whether or not a result was recorded in
/// the call.
pub proof fn lemma_call_results_stay_inside(
    c: CursorView,
    r: NodeResultView,
    run_results: Seq<NodeResultView>,
    exit_output: Seq<char>,
)
    requires
        c.call_stack.len() > 0,
    ensures
        results_for(returned_from_subflow(recorded_in_call(c, r), exit_output), run_results)
            == results_for(returned_from_subflow(c, exit_output), run_results),
        returned_from_subflow(recorded_in_call(c, r), exit_output).var_map == returned_from_subflow(
            c,
            exit_output,
        ).var_map,
{
    let inside = recorded_in_call(c, r);
    assert(inside.call_stack.drop_last() =~= c.call_stack.drop_last());
}

/// Reporting the same failed branch twice marks the families no further
/// than reporting it once.
pub proof fn lemma_branch_failure_idempotent(fs: Seq<FamilyView>, failed_ids: Seq<Seq<char>>)
    ensures
        fs.map_values(|f: FamilyView| marked_by_failure(f, failed_ids)).map_values(
            |f: FamilyView| marked_by_failure(f, failed_ids),
        ) == fs.map_values(|f: FamilyView| marked_by_failure(f, failed_ids)),
        failure_fails_run(fs.map_values(|f: FamilyView| marked_by_failure(f, failed_ids)), failed_ids)
            == failure_fails_run(fs, failed_ids),
{
    let once = fs.map_values(|f: FamilyView| marked_by_failure(f, failed_ids));
    assert(once.map_values(|f: FamilyView| marked_by_failure(f, failed_ids)) =~= once);
    if failure_fails_run(fs, failed_ids) && failed_ids.len() > 0 {
        let j = choose|j: int|
            0 <= j < fs.len() && failed_ids.contains(#[trigger] fs[j].family_id) && fs[j].failure_policy
                == SplitFailurePolicy::FailFastCancel;
        assert(once[j].family_id == fs[j].family_id);
    }
    if failure_fails_run(once, failed_ids) && failed_ids.len() > 0 {
        let j = choose|j: int|
            0 <= j < once.len() && failed_ids.contains(#[trigger] once[j].family_id) && once[j].failure_policy
                == SplitFailurePolicy::FailFastCancel;
        assert(once[j].family_id == fs[j].family_id);
    }
}

/// A family that fails fast is force-failed by any failure of its branches,
/// and a best-effort family never is.
pub proof fn lemma_failure_marks_by_policy(f: FamilyView, failed_ids: Seq<Seq<char>>)
    requires
        failed_ids.contains(f.family_id),
    ensures
        f.failure_policy == SplitFailurePolicy::BestEffortContinue ==> marked_by_failure(f, failed_ids)
            == f,
        f.failure_policy != SplitFailurePolicy::BestEffortContinue ==> marked_by_failure(
            f,
            failed_ids,
        ).force_failed,
{
}

} // verus!
