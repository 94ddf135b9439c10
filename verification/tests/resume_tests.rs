use silverbond::counters::Counters;
use silverbond::cursor::{CallFrameState, CursorRuntimeState, CursorState, PendingApproval, RuntimeStatus};
use silverbond::graph::{
    NodeKind, SplitFailurePolicy, WorkflowEdge, WorkflowEdgeOutcome, WorkflowGraph, WorkflowNode,
};
use silverbond::lifecycle::skip_node;
use silverbond::resume::{
    build_initial_checkpoint, initial_var_map, rehydrate_checkpoint_for_execution,
    update_checkpoint_summary, workflow_display_name, workflow_for_cursor, ResumeState,
    WorkflowVariable,
};

fn named_node(id: &str, name: &str) -> WorkflowNode {
    WorkflowNode {
        id: id.to_string(),
        name: name.to_string(),
        kind: NodeKind::Task,
        prompt: String::new(),
        timeout: None,
        continue_session_from: None,
        loop_max_iterations: None,
        split_failure_policy: SplitFailurePolicy::BestEffortContinue,
    }
}

fn graph(nodes: &[(&str, &str)]) -> WorkflowGraph {
    WorkflowGraph {
        nodes: nodes.iter().map(|(id, name)| named_node(id, name)).collect(),
        edges: Vec::new(),
    }
}

fn plain_cursor(id: &str, node_id: &str) -> CursorState {
    CursorState {
        cursor_id: id.to_string(),
        node_id: node_id.to_string(),
        execution_epoch: 1,
        parent_cursor_id: None,
        incoming_edge_id: None,
        incoming_node_id: None,
        split_family_ids: Vec::new(),
        last_output: String::new(),
        loop_counters: Counters::new(),
        visit_counters: Counters::new(),
        var_map: Vec::new(),
        call_stack: Vec::new(),
        last_branch_origin_id: None,
        last_branch_choice: None,
        cancel_requested: false,
        state: CursorRuntimeState::Runnable,
    }
}

fn frame(subflow: &str) -> CallFrameState {
    CallFrameState {
        frame_id: "frame_1".to_string(),
        call_node_id: "call".to_string(),
        call_node_name: "Call".to_string(),
        subflow_name: subflow.to_string(),
        exit_node_id: "exit".to_string(),
        parent_last_output: String::new(),
        parent_loop_counters: Counters::new(),
        parent_visit_counters: Counters::new(),
        parent_last_branch_origin_id: None,
        parent_last_branch_choice: None,
        parent_var_map: Vec::new(),
        subflow_results: Vec::new(),
    }
}

fn in_subflow(id: &str, node_id: &str, subflow: &str) -> CursorState {
    let mut cursor = plain_cursor(id, node_id);
    cursor.call_stack.push(frame(subflow));
    cursor
}

fn approval(cursor_id: &str, node_id: &str, node_name: &str) -> PendingApproval {
    PendingApproval {
        cursor_id: cursor_id.to_string(),
        node_id: node_id.to_string(),
        node_name: node_name.to_string(),
        prompt: "Approve?".to_string(),
        last_output: String::new(),
    }
}

fn state(cursors: Vec<CursorState>) -> ResumeState {
    ResumeState {
        execution_epoch: 1,
        active_cursors: cursors,
        current_node_id: None,
        current_node_name: None,
        last_output: String::new(),
        loop_counters: Counters::new(),
        visit_counters: Counters::new(),
        last_branch_origin_id: None,
        last_branch_choice: None,
        pending_approval: None,
        var_map: Vec::new(),
    }
}

fn catalog() -> (WorkflowGraph, Vec<(String, WorkflowGraph)>) {
    let root = graph(&[("start", "Start"), ("draft_step", "Root Step")]);
    let child = graph(&[("start", "Child Start"), ("exit", "Child Exit")]);
    (root, vec![("child".to_string(), child)])
}

#[test]
fn cursors_run_in_the_subflow_of_their_innermost_frame() {
    let (root, subflows) = catalog();
    let at_root = plain_cursor("c1", "start");
    let in_child = in_subflow("c2", "start", "child");
    let in_missing = in_subflow("c3", "start", "missing");
    assert_eq!(workflow_for_cursor(&root, &subflows, &at_root).unwrap().nodes[0].name, "Start");
    assert_eq!(workflow_for_cursor(&root, &subflows, &in_child).unwrap().nodes[0].name, "Child Start");
    assert!(workflow_for_cursor(&root, &subflows, &in_missing).is_none());
}

#[test]
fn summary_prefers_the_pending_approval() {
    let (root, subflows) = catalog();
    let mut s = state(vec![plain_cursor("c1", "start")]);
    s.pending_approval = Some(approval("c9", "gate", "Gate"));
    update_checkpoint_summary(&root, &subflows, &mut s);
    assert_eq!(s.current_node_id.as_deref(), Some("gate"));
    assert_eq!(s.current_node_name.as_deref(), Some("Gate"));
}

#[test]
fn summary_names_the_first_cursor_not_being_cancelled() {
    let (root, subflows) = catalog();
    let mut cancelled = plain_cursor("c0", "draft_step");
    cancelled.cancel_requested = true;
    let mut s = state(vec![cancelled, in_subflow("c1", "start", "child"), plain_cursor("c2", "start")]);
    update_checkpoint_summary(&root, &subflows, &mut s);
    assert_eq!(s.current_node_id.as_deref(), Some("start"));
    assert_eq!(s.current_node_name.as_deref(), Some("Child Start"));
}

#[test]
fn summary_is_empty_without_live_cursors() {
    let (root, subflows) = catalog();
    let mut cancelled = plain_cursor("c0", "start");
    cancelled.cancel_requested = true;
    let mut s = state(vec![cancelled]);
    s.current_node_id = Some("stale".to_string());
    s.current_node_name = Some("Stale".to_string());
    update_checkpoint_summary(&root, &subflows, &mut s);
    assert_eq!(s.current_node_id, None);
    assert_eq!(s.current_node_name, None);
}

#[test]
fn rehydrate_drops_cancelled_cursors_and_reruns_interrupted_ones() {
    let (root, subflows) = catalog();
    let mut running = plain_cursor("c1", "draft_step");
    running.state = CursorRuntimeState::Running;
    let mut cancelled = plain_cursor("c2", "start");
    cancelled.cancel_requested = true;
    let mut s = state(vec![cancelled, running]);
    s.execution_epoch = 0;
    let dropped = rehydrate_checkpoint_for_execution(&root, &subflows, &mut s);
    assert!(dropped.is_none());
    assert_eq!(s.execution_epoch, 1);
    assert_eq!(s.active_cursors.len(), 1);
    assert_eq!(s.active_cursors[0].cursor_id, "c1");
    assert_eq!(s.active_cursors[0].state, CursorRuntimeState::Runnable);
    assert_eq!(s.current_node_id.as_deref(), Some("draft_step"));
    assert_eq!(s.current_node_name.as_deref(), Some("Root Step"));
}

#[test]
fn rehydrate_rebuilds_a_cursor_waiting_on_the_pending_approval() {
    let (root, subflows) = catalog();
    let mut s = state(Vec::new());
    s.execution_epoch = 4;
    s.current_node_id = Some("draft_step".to_string());
    s.last_output = "draft".to_string();
    s.last_branch_choice = Some("yes".to_string());
    s.pending_approval = Some(approval("old-cursor", "draft_step", "Root Step"));
    let dropped = rehydrate_checkpoint_for_execution(&root, &subflows, &mut s);
    assert!(dropped.is_none());
    assert_eq!(s.active_cursors.len(), 1);
    let c = &s.active_cursors[0];
    assert!(c.cursor_id.starts_with("cursor_"));
    assert_eq!(c.node_id, "draft_step");
    assert_eq!(c.execution_epoch, 4);
    assert_eq!(c.last_output, "draft");
    assert_eq!(c.last_branch_choice.as_deref(), Some("yes"));
    assert_eq!(c.state, CursorRuntimeState::WaitingApproval);
    assert!(s.pending_approval.is_some());
}

#[test]
fn rehydrate_hands_back_a_pending_approval_nobody_waits_on() {
    let (root, subflows) = catalog();
    let mut s = state(vec![plain_cursor("c1", "start")]);
    s.current_node_id = Some("gate".to_string());
    s.pending_approval = Some(approval("c1", "gate", "Gate"));
    let dropped = rehydrate_checkpoint_for_execution(&root, &subflows, &mut s);
    assert_eq!(dropped, Some(approval("c1", "gate", "Gate")));
    assert!(s.pending_approval.is_none());
    assert_eq!(s.current_node_id.as_deref(), Some("gate"));
}

#[test]
fn rehydrate_without_cursors_or_current_node_stays_empty() {
    let (root, subflows) = catalog();
    let mut s = state(Vec::new());
    let dropped = rehydrate_checkpoint_for_execution(&root, &subflows, &mut s);
    assert!(dropped.is_none());
    assert!(s.active_cursors.is_empty());
    assert_eq!(s.current_node_id, None);
}

#[test]
fn display_name_falls_back_to_goal_then_untitled() {
    assert_eq!(workflow_display_name(&Some("Named".to_string()), "goal"), "Named");
    assert_eq!(workflow_display_name(&None, "Ship it"), "Ship it");
    assert_eq!(workflow_display_name(&None, ""), "Untitled");
}

#[test]
fn initial_variables_take_overrides_and_last_declarations() {
    let variables = vec![
        WorkflowVariable { name: "topic".to_string(), default: "rust".to_string() },
        WorkflowVariable { name: "depth".to_string(), default: "1".to_string() },
        WorkflowVariable { name: "depth".to_string(), default: "2".to_string() },
    ];
    let overrides = vec![("topic".to_string(), "verus".to_string()), ("unused".to_string(), "x".to_string())];
    let mut vars = initial_var_map(&variables, &overrides);
    vars.sort();
    assert_eq!(
        vars,
        vec![("depth".to_string(), "2".to_string()), ("topic".to_string(), "verus".to_string())]
    );
}

#[test]
fn initial_checkpoint_starts_one_cursor_at_the_start_node() {
    let (root, _) = catalog();
    let checkpoint = build_initial_checkpoint(&root, "run_x", &None, "", "start", &Vec::new(), &Vec::new(), None);
    assert_eq!(checkpoint.run_id, "run_x");
    assert_eq!(checkpoint.status, RuntimeStatus::Running);
    assert!(checkpoint.results.is_empty());
    assert_eq!(checkpoint.collector_barriers.len(), 0);
    assert_eq!(checkpoint.split_families.len(), 0);
    assert!(checkpoint.queued_approvals.is_empty());
    assert_eq!(checkpoint.total_executed, 0);
    assert_eq!(checkpoint.workflow_name, "Untitled");
    assert!(checkpoint.var_map.is_empty());
    let s = &checkpoint.state;
    assert_eq!(s.execution_epoch, 1);
    assert_eq!(s.current_node_id.as_deref(), Some("start"));
    assert_eq!(s.current_node_name.as_deref(), Some("Start"));
    assert_eq!(s.active_cursors.len(), 1);
    assert!(s.active_cursors[0].cursor_id.starts_with("cursor_"));
    assert_eq!(s.active_cursors[0].node_id, "start");
    assert_eq!(s.active_cursors[0].state, CursorRuntimeState::Runnable);

    let restarted = build_initial_checkpoint(
        &root,
        "run_y",
        &Some("Flow".to_string()),
        "goal",
        "start",
        &Vec::new(),
        &Vec::new(),
        Some("draft_step".to_string()),
    );
    assert_eq!(restarted.workflow_name, "Flow");
    assert_eq!(restarted.state.current_node_name.as_deref(), Some("Root Step"));
    assert_eq!(restarted.state.active_cursors[0].node_id, "draft_step");
}

#[test]
fn skipped_nodes_pass_the_cursor_along_their_first_success_edge() {
    let mut g = graph(&[("a", "A"), ("b", "B")]);
    g.edges.push(WorkflowEdge {
        id: "e1".to_string(),
        from: "a".to_string(),
        to: "b".to_string(),
        label: None,
        outcome: WorkflowEdgeOutcome::Success,
        branch_id: None,
    });
    let mut waiting = plain_cursor("c1", "a");
    waiting.state = CursorRuntimeState::WaitingCollector;
    let mut cursors = vec![waiting, plain_cursor("c2", "a")];
    let next = skip_node(&g, &mut cursors, "c1", "a");
    assert_eq!(next.as_deref(), Some("b"));
    assert_eq!(cursors[0].node_id, "b");
    assert_eq!(cursors[0].incoming_edge_id.as_deref(), Some("e1"));
    assert_eq!(cursors[0].incoming_node_id.as_deref(), Some("a"));
    assert_eq!(cursors[0].state, CursorRuntimeState::Runnable);
    assert_eq!(cursors[1].node_id, "a");

    let next = skip_node(&g, &mut cursors, "c1", "b");
    assert_eq!(next, None);
    assert_eq!(cursors.len(), 1);
    assert_eq!(cursors[0].cursor_id, "c2");
}

#[test]
fn rehydrate_gives_root_cursors_without_variables_the_runs() {
    let (root, subflows) = catalog();
    let mut with_own = plain_cursor("c2", "start");
    with_own.var_map = vec![("own".to_string(), "1".to_string())];
    let mut s = state(vec![plain_cursor("c1", "start"), with_own, in_subflow("c3", "start", "child")]);
    s.var_map = vec![("topic".to_string(), "rust".to_string())];
    rehydrate_checkpoint_for_execution(&root, &subflows, &mut s);
    assert_eq!(s.active_cursors[0].var_map, s.var_map);
    assert_eq!(s.active_cursors[1].var_map, vec![("own".to_string(), "1".to_string())]);
    assert!(s.active_cursors[2].var_map.is_empty());
}

#[test]
fn initial_cursor_starts_with_the_runs_variables() {
    let (root, _) = catalog();
    let variables = vec![WorkflowVariable { name: "topic".to_string(), default: "rust".to_string() }];
    let checkpoint = build_initial_checkpoint(&root, "run_z", &None, "goal", "start", &variables, &Vec::new(), None);
    assert_eq!(checkpoint.var_map, vec![("topic".to_string(), "rust".to_string())]);
    assert_eq!(checkpoint.state.var_map, checkpoint.var_map);
    assert_eq!(checkpoint.state.active_cursors[0].var_map, checkpoint.var_map);
    assert_eq!(checkpoint.workflow_name, "goal");
}
