use silverbond::counters::Counters;
use silverbond::cursor::{
    collector_barrier_scope, cursor_has_own_queued_approval, is_approval_wait_consistent,
    parallel_batch_checkpoint_key, resolve_restore_approval_cursor, scoped_output_hash_key,
    skip_regex_scope_key, waiting_approval_cursor_matches_pending_fallback, CallFrameState,
    CursorRuntimeState, CursorState, PendingApproval, QueuedApproval, RestoreBinding,
};
use silverbond::decide::{coerce_decide_outcome_scalar, OutcomeField};
use silverbond::graph::{
    inbound_sources, resolve_subflow_exit_node, NodeKind, SplitFailurePolicy, SubflowExitError,
    WorkflowEdge, WorkflowEdgeOutcome, WorkflowGraph, WorkflowNode,
};
use silverbond::panes::{active_pane_key, confirmed_absent_sessions, ActivePanes, CleanupVerdict, PaneCleanupTarget};
use silverbond::routing::{select_next_decision, DecisionKind};
use silverbond::skip::{should_skip_node, SkipCondition};
use silverbond::scheduler::{
    batch_item_cursor, batch_summary, batch_verdict, store_batch_items, BatchItemOutcome,
};

fn node(id: &str, kind: NodeKind, loop_max: Option<u32>) -> WorkflowNode {
    WorkflowNode {
        id: id.to_string(),
        name: id.to_uppercase(),
        kind,
        prompt: String::new(),
        timeout: None,
        continue_session_from: None,
        loop_max_iterations: loop_max,
        split_failure_policy: SplitFailurePolicy::BestEffortContinue,
    }
}

fn edge(id: &str, from: &str, to: &str, label: Option<&str>, outcome: WorkflowEdgeOutcome) -> WorkflowEdge {
    WorkflowEdge {
        id: id.to_string(),
        from: from.to_string(),
        to: to.to_string(),
        label: label.map(|l| l.to_string()),
        outcome,
        branch_id: None,
    }
}

fn cursor(id: &str, node_id: &str) -> CursorState {
    CursorState {
        cursor_id: id.to_string(),
        node_id: node_id.to_string(),
        execution_epoch: 1,
        parent_cursor_id: None,
        incoming_edge_id: None,
        incoming_node_id: None,
        split_family_ids: Vec::new(),
        last_output: String::new(),
        loop_counters: Counters::new(),
        visit_counters: Counters::new(),
        var_map: Vec::new(),
        call_stack: Vec::new(),
        last_branch_origin_id: None,
        last_branch_choice: None,
        cancel_requested: false,
        state: CursorRuntimeState::Runnable,
    }
}

fn frame(frame_id: &str, call_node_id: &str, subflow: &str) -> CallFrameState {
    CallFrameState {
        frame_id: frame_id.to_string(),
        call_node_id: call_node_id.to_string(),
        call_node_name: call_node_id.to_uppercase(),
        subflow_name: subflow.to_string(),
        exit_node_id: "exit".to_string(),
        parent_last_output: String::new(),
        parent_loop_counters: Counters::new(),
        parent_visit_counters: Counters::new(),
        parent_last_branch_origin_id: None,
        parent_last_branch_choice: None,
        parent_var_map: Vec::new(),
        subflow_results: Vec::new(),
    }
}

fn approval(cursor_id: &str, node_id: &str) -> PendingApproval {
    PendingApproval {
        cursor_id: cursor_id.to_string(),
        node_id: node_id.to_string(),
        node_name: node_id.to_uppercase(),
        prompt: String::new(),
        last_output: String::new(),
    }
}

#[test]
fn decide_nodes_follow_the_branch_named_by_their_output() {
    let decide = node("d", NodeKind::Decide { prompt: String::new(), outcomes: Vec::new() }, None);
    let graph = WorkflowGraph {
        nodes: vec![decide],
        edges: vec![
            edge("s", "d", "fallback", None, WorkflowEdgeOutcome::Success),
            edge("y", "d", "yes_node", Some("approve"), WorkflowEdgeOutcome::Branch),
        ],
    };
    let verdicts = vec![false, false];
    let d = select_next_decision(&graph, &graph.nodes[0], "  approve\n", None, &verdicts, 1);
    assert_eq!(d.next_edge.map(|e| e.id), Some("y".to_string()));
    assert_eq!(d.control_type, "branch");
    assert_eq!(d.reason, "approve");
    assert_eq!(d.kind, DecisionKind::DecideMatched);
    let d = select_next_decision(&graph, &graph.nodes[0], "maybe", None, &verdicts, 1);
    assert_eq!(d.next_edge.map(|e| e.id), Some("s".to_string()));
    assert_eq!(d.control_type, "success");
    assert_eq!(d.reason, "decide outcome \"maybe\" has no matching branch edge");
    assert_eq!(d.kind, DecisionKind::DecideUnmatched);
}

#[test]
fn loops_stop_at_their_iteration_cap() {
    let looped = node("l", NodeKind::Task, Some(2));
    let graph = WorkflowGraph {
        nodes: vec![looped],
        edges: vec![
            edge("again", "l", "l", None, WorkflowEdgeOutcome::LoopContinue),
            edge("out", "l", "next", None, WorkflowEdgeOutcome::LoopExit),
        ],
    };
    let verdicts = vec![false, false];
    let d = select_next_decision(&graph, &graph.nodes[0], "", Some(true), &verdicts, 2);
    assert_eq!(d.next_edge.map(|e| e.id), Some("out".to_string()));
    assert_eq!(d.control_type, "loop_exit");
    assert_eq!(d.reason, "max iterations (2) reached");
    assert_eq!(d.kind, DecisionKind::LoopMaxReached { fails_run: false });
    let d = select_next_decision(&graph, &graph.nodes[0], "", Some(true), &verdicts, 1);
    assert_eq!(d.next_edge.map(|e| e.id), Some("again".to_string()));
    assert_eq!(d.control_type, "loop_continue");
    assert_eq!(d.reason, "iteration 1");
    assert_eq!(d.kind, DecisionKind::LoopVerdict { continue_loop: true });
    let d = select_next_decision(&graph, &graph.nodes[0], "", Some(false), &verdicts, 1);
    assert_eq!(d.next_edge.map(|e| e.id), Some("out".to_string()));
    assert_eq!(d.kind, DecisionKind::LoopVerdict { continue_loop: false });

    let default_cap = node("l", NodeKind::Task, None);
    let no_exit = WorkflowGraph {
        nodes: vec![default_cap],
        edges: vec![edge("again", "l", "l", None, WorkflowEdgeOutcome::LoopContinue)],
    };
    let d = select_next_decision(&no_exit, &no_exit.nodes[0], "", None, &vec![false], 5);
    assert!(d.next_edge.is_none());
    assert_eq!(d.reason, "max iterations (5) reached");
    assert_eq!(d.kind, DecisionKind::LoopMaxReached { fails_run: true });
}

#[test]
fn branches_take_the_first_matching_condition_else_the_first_branch() {
    let graph = WorkflowGraph {
        nodes: vec![node("b", NodeKind::Task, None)],
        edges: vec![
            edge("e1", "b", "x", Some("first"), WorkflowEdgeOutcome::Branch),
            edge("e2", "b", "y", None, WorkflowEdgeOutcome::Branch),
            edge("e3", "b", "z", Some("third"), WorkflowEdgeOutcome::Branch),
        ],
    };
    let d = select_next_decision(&graph, &graph.nodes[0], "", None, &vec![false, true, true], 1);
    assert_eq!(d.next_edge.map(|e| e.id), Some("e2".to_string()));
    assert_eq!(d.reason, "e2");
    assert_eq!(d.kind, DecisionKind::BranchTaken);
    let d = select_next_decision(&graph, &graph.nodes[0], "", None, &vec![false, false, false], 1);
    assert_eq!(d.next_edge.map(|e| e.id), Some("e1".to_string()));
    assert_eq!(d.reason, "first");
}

#[test]
fn plain_nodes_take_their_success_edge() {
    let graph = WorkflowGraph {
        nodes: vec![node("t", NodeKind::Task, None)],
        edges: vec![edge("go", "t", "u", None, WorkflowEdgeOutcome::Success)],
    };
    let d = select_next_decision(&graph, &graph.nodes[0], "out", None, &vec![false], 1);
    assert_eq!(d.next_edge.map(|e| e.id), Some("go".to_string()));
    assert_eq!(d.control_type, "success");
    assert_eq!(d.reason, "");
    assert_eq!(d.kind, DecisionKind::DefaultSuccess);
    let end = WorkflowGraph { nodes: vec![node("t", NodeKind::Task, None)], edges: Vec::new() };
    assert!(select_next_decision(&end, &end.nodes[0], "out", None, &Vec::new(), 1).next_edge.is_none());
}

#[test]
fn cursor_keys_are_scoped_by_call_nodes() {
    let mut c = cursor("c1", "n");
    assert_eq!(scoped_output_hash_key(&c, "n"), "n");
    assert_eq!(parallel_batch_checkpoint_key(&c, "batch"), "c1::batch");
    assert_eq!(skip_regex_scope_key(&c), None);
    assert_eq!(collector_barrier_scope(&c), "root");
    c.call_stack.push(frame("frame_a", "call1", "outer"));
    c.call_stack.push(frame("", "call2", "inner"));
    assert_eq!(scoped_output_hash_key(&c, "n"), "call1::call2::n");
    assert_eq!(parallel_batch_checkpoint_key(&c, "batch"), "call1::call2::c1::batch");
    assert_eq!(skip_regex_scope_key(&c), Some("inner".to_string()));
    assert_eq!(collector_barrier_scope(&c), "call2");
    c.call_stack.pop();
    assert_eq!(collector_barrier_scope(&c), "frame_a");
}

#[test]
fn restored_approvals_bind_to_their_own_waiting_cursor_first() {
    let mut own = cursor("c1", "gate");
    own.state = CursorRuntimeState::WaitingApproval;
    let mut other = cursor("c2", "gate");
    other.state = CursorRuntimeState::WaitingApproval;
    let cursors = vec![other, own];
    let queued: Vec<QueuedApproval> = Vec::new();
    assert!(matches!(
        resolve_restore_approval_cursor(&cursors, &queued, &approval("c1", "gate")),
        RestoreBinding::Cursor(1)
    ));
    assert!(waiting_approval_cursor_matches_pending_fallback(&queued, &approval("gone", "gate"), &cursors[0]));
    assert!(!waiting_approval_cursor_matches_pending_fallback(&queued, &approval("gone", "elsewhere"), &cursors[0]));
    match resolve_restore_approval_cursor(&cursors, &queued, &approval("gone", "gate")) {
        RestoreBinding::Ambiguous(ids) => assert_eq!(ids, vec!["c2".to_string(), "c1".to_string()]),
        _ => panic!("two fallback cursors should be ambiguous"),
    }
    let one = vec![cursors[0].duplicate()];
    assert!(matches!(resolve_restore_approval_cursor(&one, &queued, &approval("gone", "gate")), RestoreBinding::Cursor(0)));
    let queued_own = vec![QueuedApproval { approval: approval("c2", "gate") }];
    assert!(cursor_has_own_queued_approval(&queued_own, "c2"));
    assert!(matches!(resolve_restore_approval_cursor(&one, &queued_own, &approval("gone", "gate")), RestoreBinding::Unbound));
    assert!(is_approval_wait_consistent(&Some(approval("c2", "gate")), &Vec::new(), &one[0]));
}

#[test]
fn decide_outcome_scalars_coerce_strings_and_numbers_only() {
    assert_eq!(coerce_decide_outcome_scalar(&OutcomeField::Str("go".to_string())), Ok("go".to_string()));
    assert_eq!(coerce_decide_outcome_scalar(&OutcomeField::Number("2".to_string())), Ok("2".to_string()));
    assert_eq!(coerce_decide_outcome_scalar(&OutcomeField::Bool), Err("boolean"));
    assert_eq!(coerce_decide_outcome_scalar(&OutcomeField::Null), Err("null"));
}

#[test]
fn subflow_exit_is_the_configured_node_or_the_single_terminal() {
    let graph = WorkflowGraph {
        nodes: vec![node("a", NodeKind::Task, None), node("b", NodeKind::Task, None)],
        edges: vec![edge("ab", "a", "b", None, WorkflowEdgeOutcome::Success)],
    };
    assert_eq!(resolve_subflow_exit_node(Some(" a "), &graph), Ok("a".to_string()));
    assert_eq!(resolve_subflow_exit_node(Some("  "), &graph), Ok("b".to_string()));
    assert_eq!(resolve_subflow_exit_node(None, &graph), Ok("b".to_string()));
    let two_ends = WorkflowGraph {
        nodes: vec![node("a", NodeKind::Task, None), node("b", NodeKind::Task, None)],
        edges: Vec::new(),
    };
    assert_eq!(resolve_subflow_exit_node(None, &two_ends), Err(SubflowExitError::NotExactlyOneTerminal));
    assert_eq!(inbound_sources(&graph, "b"), vec!["a".to_string()]);
}

#[test]
fn pane_references_resolve_by_key_id_alias_then_node() {
    let mut panes = ActivePanes::new();
    panes.set_active_pane(&active_pane_key("c1", "n1"), "%1", Some("s1".to_string()));
    assert_eq!(panes.resolve_active_pane("active"), Some("%1".to_string()));
    panes.set_active_pane(&active_pane_key("c2", "n1"), "%2", Some("s2".to_string()));
    panes.set_active_pane(&active_pane_key("c3", "n3"), "%3", None);
    assert_eq!(panes.resolve_active_pane(&active_pane_key("c1", "n1")), Some("%1".to_string()));
    assert_eq!(panes.resolve_active_pane("%3"), Some("%3".to_string()));
    assert_eq!(panes.resolve_active_pane("current"), None);
    assert_eq!(panes.resolve_active_pane("n1"), Some("%2".to_string()));
    assert_eq!(panes.resolve_active_pane("missing"), None);

    let kept = panes.cleanup_targets_except_keys(&vec!["n1".to_string()]);
    assert_eq!(kept, vec![PaneCleanupTarget { pane_id: "%3".to_string(), session_name: None }]);
    assert_eq!(panes.cleanup_targets_except_keys(&Vec::new()).len(), 3);
    panes.clear_active_pane_target("%2");
    assert_eq!(panes.entries().len(), 2);
}

#[test]
fn cleanup_drops_registrations_only_of_sessions_confirmed_gone() {
    let verdict = |pane: &str, session: Option<&str>, absent: bool| CleanupVerdict {
        target: PaneCleanupTarget { pane_id: pane.to_string(), session_name: session.map(|s| s.to_string()) },
        absent,
    };
    let verdicts = vec![
        verdict("%1", Some("s-b"), true),
        verdict("%2", Some("s-a"), true),
        verdict("%3", Some("s-live"), false),
        verdict("%4", None, true),
        verdict("%5", Some("s-b"), true),
    ];
    assert_eq!(confirmed_absent_sessions(&verdicts), vec!["s-a".to_string(), "s-b".to_string()]);
}

#[test]
fn batch_verdict_reports_failed_items_abort_and_success() {
    let ok = BatchItemOutcome { success: true, cancelled: false };
    let bad = BatchItemOutcome { success: false, cancelled: false };
    let all_ok = batch_summary(2, &vec![ok, ok], 2);
    let v = batch_verdict(false, &all_ok);
    assert!(v.success);
    assert_eq!(v.stderr, "");
    assert_eq!(v.exit_code, 0);

    let some_failed = batch_summary(12, &vec![ok, bad, ok], 3);
    let v = batch_verdict(false, &some_failed);
    assert!(!v.success);
    assert_eq!(v.stderr, "10 of 12 batch items failed");
    assert_eq!(v.exit_code, 1);

    let v = batch_verdict(true, &all_ok);
    assert!(!v.success);
    assert_eq!(v.stderr, "Workflow aborted by user.");
    assert_eq!(v.exit_code, 1);
}

#[test]
fn batch_items_stored_globally_only_outside_calls() {
    let mut top = cursor("c1", "batch");
    top.var_map.push(("items".to_string(), "old".to_string()));
    let mut run_vars = vec![("other".to_string(), "x".to_string())];
    store_batch_items(&mut top, &mut run_vars, &Some("items".to_string()), &"[1,2]".to_string());
    assert_eq!(top.var_map, vec![("items".to_string(), "[1,2]".to_string())]);
    assert_eq!(
        run_vars,
        vec![("other".to_string(), "x".to_string()), ("items".to_string(), "[1,2]".to_string())]
    );

    let mut nested = cursor("c2", "batch");
    nested.call_stack.push(frame("f1", "call", "sub"));
    let mut run_vars = Vec::new();
    store_batch_items(&mut nested, &mut run_vars, &Some("items".to_string()), &"[]".to_string());
    assert_eq!(nested.var_map, vec![("items".to_string(), "[]".to_string())]);
    assert!(run_vars.is_empty());

    let mut blank = cursor("c3", "batch");
    store_batch_items(&mut blank, &mut run_vars, &Some("  ".to_string()), &"[]".to_string());
    store_batch_items(&mut blank, &mut run_vars, &None, &"[]".to_string());
    assert!(blank.var_map.is_empty());
    assert!(run_vars.is_empty());
}

#[test]
fn batch_item_cursor_binds_item_over_visible_variables() {
    let mut parent = cursor("p1", "batch");
    parent.split_family_ids.push("fam".to_string());
    parent.last_output = "prev".to_string();
    let run_vars = vec![("goal".to_string(), "ship".to_string()), ("item".to_string(), "stale".to_string())];
    let child = batch_item_cursor(
        &parent,
        &run_vars,
        "c9".to_string(),
        "batch",
        "body",
        3,
        &"item".to_string(),
        &"apple".to_string(),
    );
    assert_eq!(child.cursor_id, "c9");
    assert_eq!(child.node_id, "body");
    assert_eq!(child.execution_epoch, 3);
    assert_eq!(child.parent_cursor_id, Some("p1".to_string()));
    assert_eq!(child.incoming_edge_id, None);
    assert_eq!(child.incoming_node_id, Some("batch".to_string()));
    assert_eq!(child.split_family_ids, vec!["fam".to_string()]);
    assert_eq!(child.last_output, "prev");
    assert_eq!(child.state, CursorRuntimeState::Running);
    assert_eq!(
        child.var_map,
        vec![("goal".to_string(), "ship".to_string()), ("item".to_string(), "apple".to_string())]
    );

    parent.var_map.push(("own".to_string(), "1".to_string()));
    let child = batch_item_cursor(
        &parent,
        &run_vars,
        "c10".to_string(),
        "batch",
        "body",
        3,
        &"item".to_string(),
        &"pear".to_string(),
    );
    assert_eq!(
        child.var_map,
        vec![("own".to_string(), "1".to_string()), ("item".to_string(), "pear".to_string())]
    );
}

fn regex_skip(pattern: &str) -> SkipCondition {
    SkipCondition { source: "previous_output".to_string(), kind: "regex".to_string(), value: pattern.to_string() }
}

#[test]
fn compile_skip_regex_cache_honors_scope_for_duplicate_node_ids() {
    // Node "step1" exists at the root and in subflow "child", each with its own condition.
    let conditions = vec![(None, regex_skip("^root-skip$")), (Some("child".to_string()), regex_skip("^subflow-skip$"))];
    let condition_for = |c: &CursorState| {
        let scope = skip_regex_scope_key(c);
        conditions.iter().find(|(s, _)| *s == scope).map(|(_, cond)| cond.clone())
    };

    let mut root_cursor = cursor("root", "step1");
    root_cursor.last_output = "root-skip".to_string();
    let mut subflow_cursor = cursor("child", "step1");
    subflow_cursor.last_output = "subflow-skip".to_string();
    subflow_cursor.call_stack.push(frame("", "call_child", "child"));

    let root_cond = condition_for(&root_cursor).unwrap();
    assert_eq!(should_skip_node(Some(&root_cond), &root_cursor.last_output, &Vec::new()), Ok(true));
    assert_eq!(should_skip_node(Some(&root_cond), "subflow-skip", &Vec::new()), Ok(false));

    let sub_cond = condition_for(&subflow_cursor).unwrap();
    assert_eq!(should_skip_node(Some(&sub_cond), &subflow_cursor.last_output, &Vec::new()), Ok(true));
    assert_eq!(should_skip_node(Some(&sub_cond), "root-skip", &Vec::new()), Ok(false));
}
