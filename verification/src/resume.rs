//! Resuming a run from its checkpoint: the workflow each cursor runs in,
//! the checkpoint's summary of where the run stands, and the clean-up that
//! makes a stored checkpoint ready to execute again.

use vstd::prelude::*;

use crate::barrier::{BarrierKeyView, CollectorBarriers};
use crate::counters::{key_lookup, key_pred, Counters, OutputHashes};
use crate::cursor::{
    cursors_view, queued_view, ApprovalView, CursorRuntimeState, CursorState, CursorView, PendingApproval,
    QueuedApproval, RuntimeStatus,
};
use crate::graph::{clone_opt_string, find_node, GraphView, WorkflowGraph};
use crate::ids::{new_cursor_id, prefixed_id};
use crate::routing::{first_idx, lemma_first_idx, lemma_first_idx_is};
use crate::lifecycle::{vars_for, FamilyView, SplitFamilies};
use crate::results::{results_view, NodeResult, NodeResultView};
use crate::text::{clone_pairs, pairs_view, str_eq};

verus! {

/// The subflows of a run's catalog, by name.
pub open spec fn catalog_view(subflows: Seq<(String, WorkflowGraph)>) -> Seq<(Seq<char>, GraphView)> {
    subflows.map_values(|e: (String, WorkflowGraph)| (e.0@, e.1@))
}

/// The workflow a cursor runs in: the root outside any call, else the
/// subflow that its innermost frame called, when the catalog has it.
pub open spec fn workflow_of(root: GraphView, subflows: Seq<(Seq<char>, GraphView)>, c: CursorView) -> Option<
    GraphView,
> {
    if c.call_stack.len() == 0 {
        Some(root)
    } else {
        key_lookup(subflows, c.call_stack.last().subflow_name)
    }
}

/// The workflow `cursor` runs in; `None` when its subflow is missing from
/// the catalog.
pub fn workflow_for_cursor<'a>(
    root: &'a WorkflowGraph,
    subflows: &'a Vec<(String, WorkflowGraph)>,
    cursor: &CursorState,
) -> (r: Option<&'a WorkflowGraph>)
    ensures
        match r {
            Some(g) => workflow_of(root@, catalog_view(subflows@), cursor@) == Some(g@),
            None => workflow_of(root@, catalog_view(subflows@), cursor@) is None,
        },
{
    let depth = cursor.call_stack.len();
    if depth == 0 {
        return Some(root);
    }
    let name = &cursor.call_stack[depth - 1].subflow_name;
    assert(cursor@.call_stack.last() == cursor.call_stack@[depth - 1]@);
    let ghost cv = catalog_view(subflows@);
    let ghost p = key_pred(cv, name@);
    let mut i: usize = 0;
    while i < subflows.len()
        invariant
            i <= subflows.len(),
            cv == catalog_view(subflows@),
            p == key_pred(cv, name@),
            cursor@.call_stack.len() > 0,
            cursor@.call_stack.last().subflow_name == name@,
            forall|j: int| 0 <= j < i ==> !#[trigger] p(j),
        decreases subflows.len() - i,
    {
        if str_eq(subflows[i].0.as_str(), name.as_str()) {
            proof {
                assert(p(i as int));
                lemma_first_idx_is(p, cv.len() as int, i as int);
            }
            return Some(&subflows[i].1);
        }
        i += 1;
    }
    proof {
        lemma_first_idx(p, 0, cv.len() as int);
    }
    None
}

/// Whether node `j` of `g` has the id `id`.
pub open spec fn node_id_is(g: GraphView, id: Seq<char>) -> spec_fn(int) -> bool {
    |j: int| g.nodes[j].id == id
}

/// The name of the (first) node of `g` with the id `id`.
pub open spec fn node_name_of(g: GraphView, id: Seq<char>) -> Option<Seq<char>> {
    let k = first_idx(node_id_is(g, id), 0, g.nodes.len() as int);
    if k >= 0 {
        Some(g.nodes[k].name)
    } else {
        None
    }
}

fn node_name(g: &WorkflowGraph, id: &str) -> (r: Option<String>)
    ensures
        r.deep_view() == node_name_of(g@, id@),
{
    let ghost p = node_id_is(g@, id@);
    match find_node(g, id) {
        Some(k) => {
            proof {
                assert(p(k as int));
                assert forall|j: int| 0 <= j < k implies !#[trigger] p(j) by {}
                lemma_first_idx_is(p, g@.nodes.len() as int, k as int);
            }
            Some(g.nodes[k].name.clone())
        },
        None => {
            proof {
                assert forall|j: int| 0 <= j < g@.nodes.len() implies !#[trigger] p(j) by {}
                lemma_first_idx(p, 0, g@.nodes.len() as int);
            }
            None
        },
    }
}

pub open spec fn approval_opt(p: Option<PendingApproval>) -> Option<ApprovalView> {
    match p {
        Some(a) => Some(a@),
        None => None,
    }
}

/// Whether cursor `i` of `cs` is not being cancelled.
pub open spec fn not_cancelled(cs: Seq<CursorView>) -> spec_fn(int) -> bool {
    |i: int| !cs[i].cancel_requested
}

/// Where a run stands, as its checkpoint shows it: the node of the pending
/// approval, else the node of the first cursor not being cancelled (with
/// its name in the workflow that cursor runs in), else nowhere.
pub open spec fn summary_of(
    root: GraphView,
    subflows: Seq<(Seq<char>, GraphView)>,
    pending: Option<ApprovalView>,
    cs: Seq<CursorView>,
) -> (Option<Seq<char>>, Option<Seq<char>>) {
    match pending {
        Some(p) => (Some(p.node_id), Some(p.node_name)),
        None => {
            let i = first_idx(not_cancelled(cs), 0, cs.len() as int);
            if i < 0 {
                (None, None)
            } else {
                (
                    Some(cs[i].node_id),
                    match workflow_of(root, subflows, cs[i]) {
                        Some(g) => node_name_of(g, cs[i].node_id),
                        None => None,
                    },
                )
            }
        },
    }
}

/// The part of a run's checkpoint that resuming reads and rewrites.
#[derive(Debug)]
pub struct ResumeState {
    pub execution_epoch: u64,
    pub active_cursors: Vec<CursorState>,
    pub current_node_id: Option<String>,
    pub current_node_name: Option<String>,
    pub last_output: String,
    pub loop_counters: Counters,
    pub visit_counters: Counters,
    pub last_branch_origin_id: Option<String>,
    pub last_branch_choice: Option<String>,
    pub pending_approval: Option<PendingApproval>,
    /// The run's variables.
    pub var_map: Vec<(String, String)>,
}

/// Sets the checkpoint's current node and its name from its pending
/// approval and cursors.
pub fn update_checkpoint_summary(
    root: &WorkflowGraph,
    subflows: &Vec<(String, WorkflowGraph)>,
    state: &mut ResumeState,
)
    ensures
        (final(state).current_node_id.deep_view(), final(state).current_node_name.deep_view())
            == summary_of(
            root@,
            catalog_view(subflows@),
            approval_opt(old(state).pending_approval),
            cursors_view(old(state).active_cursors@),
        ),
        final(state).execution_epoch == old(state).execution_epoch,
        final(state).active_cursors@ == old(state).active_cursors@,
        final(state).last_output == old(state).last_output,
        final(state).loop_counters == old(state).loop_counters,
        final(state).visit_counters == old(state).visit_counters,
        final(state).last_branch_origin_id == old(state).last_branch_origin_id,
        final(state).last_branch_choice == old(state).last_branch_choice,
        final(state).pending_approval == old(state).pending_approval,
        final(state).var_map == old(state).var_map,
{
    match &state.pending_approval {
        Some(p) => {
            let id = p.node_id.clone();
            let name = p.node_name.clone();
            state.current_node_id = Some(id);
            state.current_node_name = Some(name);
            return ;
        },
        None => {},
    }
    let ghost cs = cursors_view(state.active_cursors@);
    let ghost p = not_cancelled(cs);
    let mut i: usize = 0;
    while i < state.active_cursors.len() && state.active_cursors[i].cancel_requested
        invariant
            i <= state.active_cursors.len(),
            cs == cursors_view(state.active_cursors@),
            p == not_cancelled(cs),
            forall|j: int| 0 <= j < i ==> !#[trigger] p(j),
        decreases state.active_cursors.len() - i,
    {
        i += 1;
    }
    if i == state.active_cursors.len() {
        proof {
            lemma_first_idx(p, 0, cs.len() as int);
        }
        state.current_node_id = None;
        state.current_node_name = None;
        return ;
    }
    proof {
        assert(p(i as int));
        lemma_first_idx_is(p, cs.len() as int, i as int);
    }
    let node_id = state.active_cursors[i].node_id.clone();
    let name = match workflow_for_cursor(root, subflows, &state.active_cursors[i]) {
        Some(g) => node_name(g, node_id.as_str()),
        None => None,
    };
    state.current_node_id = Some(node_id);
    state.current_node_name = name;
}

/// The cursor that resuming starts for a checkpoint without cursors: at the
/// checkpoint's current node, with its output, counters, variables and last
/// branch, waiting on the pending approval when there is one.
pub open spec fn rebuilt_cursor(
    cursor_id: Seq<char>,
    node_id: Seq<char>,
    epoch: u64,
    last_output: Seq<char>,
    loop_counters: Seq<(Seq<char>, u32)>,
    visit_counters: Seq<(Seq<char>, u32)>,
    var_map: Seq<(Seq<char>, Seq<char>)>,
    last_branch_origin_id: Option<Seq<char>>,
    last_branch_choice: Option<Seq<char>>,
    waiting_approval: bool,
) -> CursorView {
    CursorView {
        cursor_id,
        node_id,
        execution_epoch: epoch,
        parent_cursor_id: None,
        incoming_edge_id: None,
        incoming_node_id: None,
        split_family_ids: Seq::empty(),
        last_output,
        loop_counters,
        visit_counters,
        var_map,
        call_stack: Seq::empty(),
        last_branch_origin_id,
        last_branch_choice,
        cancel_requested: false,
        state: if waiting_approval {
            CursorRuntimeState::WaitingApproval
        } else {
            CursorRuntimeState::Runnable
        },
    }
}

/// A cursor as resuming leaves it: runnable again if it was running, and
/// holding the run's variables if it is at the root without any.
pub open spec fn resumed_cursor(c: CursorView, run_vars: Seq<(Seq<char>, Seq<char>)>) -> CursorView {
    CursorView {
        state: if c.state == CursorRuntimeState::Running {
            CursorRuntimeState::Runnable
        } else {
            c.state
        },
        var_map: vars_for(c, run_vars),
        ..c
    }
}

pub open spec fn is_live_cursor() -> spec_fn(CursorView) -> bool {
    |c: CursorView| !c.cancel_requested
}

pub open spec fn resumed_cursors(cs: Seq<CursorView>, run_vars: Seq<(Seq<char>, Seq<char>)>) -> Seq<
    CursorView,
> {
    cs.filter(is_live_cursor()).map_values(|c: CursorView| resumed_cursor(c, run_vars))
}

/// Some cursor waits on an approval.
pub open spec fn has_waiting_approval(cs: Seq<CursorView>) -> bool {
    exists|i: int| 0 <= i < cs.len() && #[trigger] cs[i].state == CursorRuntimeState::WaitingApproval
}

/// Makes a stored checkpoint ready to execute again: the epoch is at least
/// one; a checkpoint without cursors gets one at its current node (if it
/// has one); cursors being cancelled are dropped, running ones become
/// runnable and root cursors without variables get the run's. A pending approval that no cursor waits on is taken out and
/// returned, to be dropped as inconsistent; otherwise the summary of where
/// the run stands is brought up to date.
pub fn rehydrate_checkpoint_for_execution(
    root: &WorkflowGraph,
    subflows: &Vec<(String, WorkflowGraph)>,
    state: &mut ResumeState,
) -> (r: Option<PendingApproval>)
    ensures
        ({
            let epoch = if old(state).execution_epoch == 0 {
                1u64
            } else {
                old(state).execution_epoch
            };
            let cs = cursors_view(final(state).active_cursors@);
            &&& final(state).execution_epoch == epoch
            &&& old(state).active_cursors.len() == 0 && old(state).current_node_id is Some ==> {
                &&& cs.len() == 1
                &&& prefixed_id("cursor_"@, cs[0].cursor_id)
                &&& cs[0] == rebuilt_cursor(
                    cs[0].cursor_id,
                    old(state).current_node_id.unwrap()@,
                    epoch,
                    old(state).last_output@,
                    old(state).loop_counters.entries_view(),
                    old(state).visit_counters.entries_view(),
                    pairs_view(old(state).var_map@),
                    old(state).last_branch_origin_id.deep_view(),
                    old(state).last_branch_choice.deep_view(),
                    old(state).pending_approval is Some,
                )
            }
            &&& old(state).active_cursors.len() == 0 && old(state).current_node_id is None ==> cs.len()
                == 0
            &&& old(state).active_cursors.len() > 0 ==> cs == resumed_cursors(
                cursors_view(old(state).active_cursors@),
                pairs_view(old(state).var_map@),
            )
            &&& forall|i: int|
                0 <= i < cs.len() ==> !(#[trigger] cs[i]).cancel_requested && cs[i].state
                    != CursorRuntimeState::Running
            &&& if old(state).pending_approval is Some && !has_waiting_approval(cs) {
                &&& r == old(state).pending_approval
                &&& final(state).pending_approval is None
                &&& final(state).current_node_id == old(state).current_node_id
                &&& final(state).current_node_name == old(state).current_node_name
            } else {
                &&& r is None
                &&& final(state).pending_approval == old(state).pending_approval
                &&& (final(state).current_node_id.deep_view(), final(state).current_node_name.deep_view())
                    == summary_of(
                    root@,
                    catalog_view(subflows@),
                    approval_opt(old(state).pending_approval),
                    cs,
                )
            }
        }),
        final(state).last_output == old(state).last_output,
        final(state).loop_counters == old(state).loop_counters,
        final(state).visit_counters == old(state).visit_counters,
        final(state).last_branch_origin_id == old(state).last_branch_origin_id,
        final(state).last_branch_choice == old(state).last_branch_choice,
        final(state).var_map == old(state).var_map,
{
    if state.execution_epoch == 0 {
        state.execution_epoch = 1;
    }
    if state.active_cursors.len() == 0 {
        let start = match &state.current_node_id {
            Some(node_id) => Some(node_id.clone()),
            None => None,
        };
        match start {
            Some(node_id) => {
                let waiting = state.pending_approval.is_some();
                let cursor = CursorState {
                    cursor_id: new_cursor_id(),
                    node_id,
                    execution_epoch: state.execution_epoch,
                    parent_cursor_id: None,
                    incoming_edge_id: None,
                    incoming_node_id: None,
                    split_family_ids: Vec::new(),
                    last_output: state.last_output.clone(),
                    loop_counters: state.loop_counters.duplicate(),
                    visit_counters: state.visit_counters.duplicate(),
                    var_map: clone_pairs(&state.var_map),
                    call_stack: Vec::new(),
                    last_branch_origin_id: clone_opt_string(&state.last_branch_origin_id),
                    last_branch_choice: clone_opt_string(&state.last_branch_choice),
                    cancel_requested: false,
                    state: if waiting {
                        CursorRuntimeState::WaitingApproval
                    } else {
                        CursorRuntimeState::Runnable
                    },
                };
                assert(cursor@.split_family_ids =~= Seq::<Seq<char>>::empty());
                assert(cursor@.call_stack =~= Seq::<crate::cursor::FrameView>::empty());
                state.active_cursors.push(cursor);
            },
            None => {},
        }
    }
    let ghost base = cursors_view(state.active_cursors@);
    let ghost rv = pairs_view(state.var_map@);
    assert(old(state).active_cursors.len() > 0 ==> base == cursors_view(old(state).active_cursors@));
    proof {
        if old(state).active_cursors.len() == 0 && old(state).current_node_id is Some {
            assert(base.len() == 1);
            assert(resumed_cursor(base[0], rv) =~= base[0]);
            assert(resumed_cursors(base, rv) =~= base) by {
                crate::seqs::lemma_filter_push(Seq::<CursorView>::empty(), is_live_cursor(), base[0]);
                assert(base =~= Seq::<CursorView>::empty().push(base[0]));
                assert(Seq::<CursorView>::empty().filter(is_live_cursor()) =~= Seq::<CursorView>::empty()) by {
                    reveal(Seq::filter);
                }
            }
        }
        if old(state).active_cursors.len() == 0 && old(state).current_node_id is None {
            assert(base.len() == 0);
            assert(resumed_cursors(base, rv) =~= base) by {
                reveal(Seq::filter);
            }
        }
    }
    let mut kept: Vec<CursorState> = Vec::new();
    let mut i: usize = 0;
    while i < state.active_cursors.len()
        invariant
            i <= state.active_cursors.len(),
            base == cursors_view(state.active_cursors@),
            rv == pairs_view(state.var_map@),
            cursors_view(kept@) == base.take(i as int).filter(is_live_cursor()).map_values(
                |c: CursorView| resumed_cursor(c, rv),
            ),
        decreases state.active_cursors.len() - i,
    {
        proof {
            crate::seqs::lemma_filter_take_step(base, is_live_cursor(), i as int);
        }
        let ghost before = cursors_view(kept@);
        if !state.active_cursors[i].cancel_requested {
            let mut c = state.active_cursors[i].duplicate();
            if c.var_map.len() == 0 && c.call_stack.len() == 0 {
                c.var_map = clone_pairs(&state.var_map);
            }
            if c.state == CursorRuntimeState::Running {
                c.state = CursorRuntimeState::Runnable;
            }
            assert(c@ =~= resumed_cursor(base[i as int], rv));
            kept.push(c);
            assert(cursors_view(kept@) =~= before.push(resumed_cursor(base[i as int], rv)));
        }
        i += 1;
    }
    proof {
        crate::seqs::lemma_take_full(base);
    }
    state.active_cursors = kept;
    let ghost cs = cursors_view(state.active_cursors@);
    assert(cs == resumed_cursors(base, rv));
    assert forall|k: int| 0 <= k < cs.len() implies !(#[trigger] cs[k]).cancel_requested
        && cs[k].state != CursorRuntimeState::Running by {
        let f = base.filter(is_live_cursor());
        assert(cs[k] == resumed_cursor(f[k], rv));
        assert(is_live_cursor()(f[k])) by {
            reveal(Seq::filter);
        }
    }
    let mut waiting = false;
    let mut j: usize = 0;
    while j < state.active_cursors.len()
        invariant
            j <= state.active_cursors.len(),
            cs == cursors_view(state.active_cursors@),
            waiting == exists|m: int|
                0 <= m < j && #[trigger] cs[m].state == CursorRuntimeState::WaitingApproval,
        decreases state.active_cursors.len() - j,
    {
        if state.active_cursors[j].state == CursorRuntimeState::WaitingApproval {
            assert(cs[j as int].state == CursorRuntimeState::WaitingApproval);
            waiting = true;
        }
        j += 1;
    }
    if state.pending_approval.is_some() && !waiting {
        return state.pending_approval.take();
    }
    update_checkpoint_summary(root, subflows, state);
    None
}

/// A variable a workflow declares, with its default value.
#[derive(Debug)]
pub struct WorkflowVariable {
    pub name: String,
    pub default: String,
}

pub open spec fn variables_view(vs: Seq<WorkflowVariable>) -> Seq<(Seq<char>, Seq<char>)> {
    vs.map_values(|v: WorkflowVariable| (v.name@, v.default@))
}


/// The variables a run starts with: each declared variable takes its
/// override when there is one, else its default; a later declaration of a
/// name replaces an earlier one.
pub open spec fn initial_vars(vars: Seq<(Seq<char>, Seq<char>)>, overrides: Seq<(Seq<char>, Seq<char>)>) -> Map<
    Seq<char>,
    Seq<char>,
>
    decreases vars.len(),
{
    if vars.len() == 0 {
        Map::empty()
    } else {
        let v = vars.last();
        initial_vars(vars.drop_last(), overrides).insert(
            v.0,
            match key_lookup(overrides, v.0) {
                Some(o) => o,
                None => v.1,
            },
        )
    }
}

/// No key occurs twice.
pub open spec fn keys_unique<V>(s: Seq<(Seq<char>, V)>) -> bool {
    forall|i: int, j: int| 0 <= i < j < s.len() ==> #[trigger] s[i].0 != #[trigger] s[j].0
}

/// The association list `s` holds exactly the map `m`.
pub open spec fn holds_map(s: Seq<(Seq<char>, Seq<char>)>, m: Map<Seq<char>, Seq<char>>) -> bool {
    &&& keys_unique(s)
    &&& forall|k: Seq<char>|
        #[trigger] key_lookup(s, k) == (if m.contains_key(k) {
            Some(m[k])
        } else {
            None
        })
}

/// Sets `name` to `value` in an association list without repeated keys.
fn set_pair(out: &mut Vec<(String, String)>, name: String, value: String)
    requires
        keys_unique(pairs_view(old(out)@)),
    ensures
        keys_unique(pairs_view(final(out)@)),
        forall|k: Seq<char>|
            #[trigger] key_lookup(pairs_view(final(out)@), k) == (if k == name@ {
                Some(value@)
            } else {
                key_lookup(pairs_view(old(out)@), k)
            }),
{
    let ghost ov = pairs_view(out@);
    let ghost p = key_pred(ov, name@);
    let mut i: usize = 0;
    while i < out.len()
        invariant
            i <= out.len(),
            ov == pairs_view(out@),
            out@ == old(out)@,
            keys_unique(ov),
            p == key_pred(ov, name@),
            forall|j: int| 0 <= j < i ==> !#[trigger] p(j),
        decreases out.len() - i,
    {
        if str_eq(out[i].0.as_str(), name.as_str()) {
            proof {
                assert(p(i as int));
                lemma_first_idx_is(p, ov.len() as int, i as int);
            }
            let ghost nv_expected = ov.update(i as int, (name@, value@));
            out.set(i, (name, value));
            proof {
                assert(pairs_view(out@) =~= nv_expected);
                assert forall|k: Seq<char>|
                    #[trigger] key_lookup(pairs_view(out@), k) == (if k == name@ {
                        Some(value@)
                    } else {
                        key_lookup(ov, k)
                    }) by {
                    crate::counters::lemma_key_update_at(ov, i as int, name@, value@, k);
                }
                assert forall|a: int, b: int|
                    0 <= a < b < nv_expected.len() implies #[trigger] nv_expected[a].0
                    != #[trigger] nv_expected[b].0 by {
                    assert(ov[a].0 != ov[b].0);
                }
            }
            return ;
        }
        i += 1;
    }
    proof {
        lemma_first_idx(p, 0, ov.len() as int);
    }
    out.push((name, value));
    proof {
        let nv = pairs_view(out@);
        assert(nv =~= ov.push((name@, value@)));
        assert forall|k: Seq<char>|
            #[trigger] key_lookup(nv, k) == (if k == name@ {
                Some(value@)
            } else {
                key_lookup(ov, k)
            }) by {
            crate::counters::lemma_key_push(ov, name@, value@, k);
        }
        assert forall|a: int, b: int| 0 <= a < b < nv.len() implies #[trigger] nv[a].0
            != #[trigger] nv[b].0 by {
            if b == ov.len() {
                assert(!p(a));
            } else {
                assert(ov[a].0 != ov[b].0);
            }
        }
    }
}

/// The variables a run starts with, one entry per name.
pub fn initial_var_map(variables: &Vec<WorkflowVariable>, overrides: &Vec<(String, String)>) -> (r: Vec<
    (String, String),
>)
    ensures
        holds_map(pairs_view(r@), initial_vars(variables_view(variables@), pairs_view(overrides@))),
{
    let ghost vv = variables_view(variables@);
    let ghost ovr = pairs_view(overrides@);
    let mut out: Vec<(String, String)> = Vec::new();
    let mut i: usize = 0;
    while i < variables.len()
        invariant
            i <= variables.len(),
            vv == variables_view(variables@),
            ovr == pairs_view(overrides@),
            holds_map(pairs_view(out@), initial_vars(vv.take(i as int), ovr)),
        decreases variables.len() - i,
    {
        let ghost before = pairs_view(out@);
        let ghost m0 = initial_vars(vv.take(i as int), ovr);
        assert(vv.take(i + 1).drop_last() =~= vv.take(i as int));
        assert(vv.take(i + 1).last() == vv[i as int]);
        let value = match crate::skip::lookup_output(overrides, variables[i].name.as_str()) {
            Some(o) => o,
            None => variables[i].default.clone(),
        };
        set_pair(&mut out, variables[i].name.clone(), value);
        proof {
            let m1 = initial_vars(vv.take(i + 1), ovr);
            assert(m1 == m0.insert(vv[i as int].0, value@));
            assert forall|k: Seq<char>|
                #[trigger] key_lookup(pairs_view(out@), k) == (if m1.contains_key(k) {
                    Some(m1[k])
                } else {
                    None
                }) by {
                if k == vv[i as int].0 {
                } else {
                    assert(key_lookup(before, k) == (if m0.contains_key(k) {
                        Some(m0[k])
                    } else {
                        None
                    }));
                }
            }
        }
        i += 1;
    }
    proof {
        crate::seqs::lemma_take_full(vv);
    }
    out
}

/// The name a run of a workflow is listed under: its name, else its goal,
/// else `Untitled`.
pub open spec fn display_name(name: Option<Seq<char>>, goal: Seq<char>) -> Seq<char> {
    match name {
        Some(n) => n,
        None => if goal.len() == 0 {
            "Untitled"@
        } else {
            goal
        },
    }
}

/// The name a run is listed under (see `display_name`).
pub fn workflow_display_name(name: &Option<String>, goal: &str) -> (r: String)
    ensures
        r@ == display_name(name.deep_view(), goal@),
{
    match name {
        Some(n) => n.clone(),
        None => if goal.is_empty() {
            "Untitled".to_string()
        } else {
            goal.to_string()
        },
    }
}

/// What a new run starts from.
#[derive(Debug)]
pub struct InitialCheckpoint {
    pub run_id: String,
    pub status: RuntimeStatus,
    pub workflow_name: String,
    pub var_map: Vec<(String, String)>,
    pub state: ResumeState,
    pub results: Vec<NodeResult>,
    pub collector_barriers: CollectorBarriers,
    pub split_families: SplitFamilies,
    pub queued_approvals: Vec<QueuedApproval>,
    pub output_hashes: OutputHashes,
    pub total_executed: u32,
}

/// The checkpoint a new run `run_id` of `root` starts with: running, listed
/// under the workflow's display name, with its initial variables, at epoch
/// one, with one runnable cursor at `start_node_id` (the entry node when
/// none is given); no results, barriers, split families, queued approvals,
/// output hashes, counters, branch or approval, and nothing executed yet.
pub fn build_initial_checkpoint(
    root: &WorkflowGraph,
    run_id: &str,
    name: &Option<String>,
    goal: &str,
    entry_node_id: &str,
    variables: &Vec<WorkflowVariable>,
    variable_overrides: &Vec<(String, String)>,
    start_node_id: Option<String>,
) -> (r: InitialCheckpoint)
    ensures
        r.run_id@ == run_id@,
        r.status == RuntimeStatus::Running,
        results_view(r.results@) == Seq::<NodeResultView>::empty(),
        r.collector_barriers.wf(),
        r.collector_barriers.keys() == Seq::<BarrierKeyView>::empty(),
        r.split_families.wf(),
        r.split_families.view_seq() == Seq::<FamilyView>::empty(),
        queued_view(r.queued_approvals@) == Seq::<ApprovalView>::empty(),
        r.output_hashes.entries_view() == Seq::<(Seq<char>, Seq<u32>)>::empty(),
        r.total_executed == 0,
        r.workflow_name@ == display_name(name.deep_view(), goal@),
        holds_map(
            pairs_view(r.var_map@),
            initial_vars(variables_view(variables@), pairs_view(variable_overrides@)),
        ),
        ({
            let start = match start_node_id {
                Some(s) => s@,
                None => entry_node_id@,
            };
            let s = r.state;
            &&& s.execution_epoch == 1
            &&& s.current_node_id.deep_view() == Some(start)
            &&& s.current_node_name.deep_view() == node_name_of(root@, start)
            &&& s.active_cursors.len() == 1
            &&& prefixed_id("cursor_"@, s.active_cursors@[0]@.cursor_id)
            &&& s.active_cursors@[0]@ == rebuilt_cursor(
                s.active_cursors@[0]@.cursor_id,
                start,
                1,
                Seq::empty(),
                Seq::empty(),
                Seq::empty(),
                pairs_view(r.var_map@),
                None,
                None,
                false,
            )
            &&& pairs_view(s.var_map@) == pairs_view(r.var_map@)
            &&& s.last_output@ == Seq::<char>::empty()
            &&& s.loop_counters.entries_view() == Seq::<(Seq<char>, u32)>::empty()
            &&& s.visit_counters.entries_view() == Seq::<(Seq<char>, u32)>::empty()
            &&& s.last_branch_origin_id is None
            &&& s.last_branch_choice is None
            &&& s.pending_approval is None
        }),
{
    let start = match start_node_id {
        Some(s) => s,
        None => entry_node_id.to_string(),
    };
    let current_node_name = node_name(root, start.as_str());
    let var_map = initial_var_map(variables, variable_overrides);
    let cursor = CursorState {
        cursor_id: new_cursor_id(),
        node_id: start.clone(),
        execution_epoch: 1,
        parent_cursor_id: None,
        incoming_edge_id: None,
        incoming_node_id: None,
        split_family_ids: Vec::new(),
        last_output: String::new(),
        loop_counters: Counters::new(),
        visit_counters: Counters::new(),
        var_map: clone_pairs(&var_map),
        call_stack: Vec::new(),
        last_branch_origin_id: None,
        last_branch_choice: None,
        cancel_requested: false,
        state: CursorRuntimeState::Runnable,
    };
    assert(cursor@.split_family_ids =~= Seq::<Seq<char>>::empty());
    assert(cursor@.call_stack =~= Seq::<crate::cursor::FrameView>::empty());
    let mut active_cursors: Vec<CursorState> = Vec::new();
    active_cursors.push(cursor);
    let results: Vec<NodeResult> = Vec::new();
    assert(results_view(results@) =~= Seq::<NodeResultView>::empty());
    let queued_approvals: Vec<QueuedApproval> = Vec::new();
    assert(queued_view(queued_approvals@) =~= Seq::<ApprovalView>::empty());
    InitialCheckpoint {
        run_id: run_id.to_owned(),
        status: RuntimeStatus::Running,
        results,
        collector_barriers: CollectorBarriers::new(),
        split_families: SplitFamilies::new(),
        queued_approvals,
        output_hashes: OutputHashes::new(),
        total_executed: 0,
        workflow_name: workflow_display_name(name, goal),
        state: ResumeState {
            execution_epoch: 1,
            active_cursors,
            current_node_id: Some(start),
            current_node_name,
            last_output: String::new(),
            loop_counters: Counters::new(),
            visit_counters: Counters::new(),
            last_branch_origin_id: None,
            last_branch_choice: None,
            pending_approval: None,
            var_map: clone_pairs(&var_map),
        },
        var_map,
    }
}

/// Resuming cursors a second time changes nothing: none is left being
/// cancelled or running after the first time.
pub proof fn lemma_resume_cursors_idempotent(cs: Seq<CursorView>, run_vars: Seq<(Seq<char>, Seq<char>)>)
    ensures
        resumed_cursors(resumed_cursors(cs, run_vars), run_vars) == resumed_cursors(cs, run_vars),
{
    let once = resumed_cursors(cs, run_vars);
    let f = cs.filter(is_live_cursor());
    assert forall|k: int| 0 <= k < once.len() implies #[trigger] is_live_cursor()(once[k])
        && resumed_cursor(once[k], run_vars) == once[k] by {
        assert(once[k] == resumed_cursor(f[k], run_vars));
        assert(resumed_cursor(once[k], run_vars) =~= once[k]);
        assert(is_live_cursor()(f[k])) by {
            cs.lemma_filter_pred(is_live_cursor(), k);
        }
    }
    assert(once.filter(is_live_cursor()) =~= once) by {
        lemma_filter_all(once, is_live_cursor());
    }
    assert(once.filter(is_live_cursor()).map_values(|c: CursorView| resumed_cursor(c, run_vars)) =~= once);
}

/// Filtering keeps a sequence whose elements all pass.
proof fn lemma_filter_all<A>(s: Seq<A>, p: spec_fn(A) -> bool)
    requires
        forall|k: int| 0 <= k < s.len() ==> #[trigger] p(s[k]),
    ensures
        s.filter(p) == s,
    decreases s.len(),
{
    reveal(Seq::filter);
    if s.len() > 0 {
        lemma_filter_all(s.drop_last(), p);
        assert(p(s[s.len() - 1]));
        assert(s.drop_last().push(s.last()) =~= s);
    } else {
        assert(s.filter(p) =~= s);
    }
}

} // verus!
