use silverbond::registry::{
    resume_guard, should_persist, ActiveRuns, OwnedTmuxTargets, PendingInteractions, PersistHashes,
};
use silverbond::restart::plan_restart;
use silverbond::results::NodeResult;
use silverbond::barrier::CollectorBarriers;
use silverbond::candidates::{pane_candidates, ExecutionPanes};
use silverbond::collectors::{
    enter_collector, handle_terminal_cursor_status, release_collector, report_branch_failure,
    CollectorEntry,
};
use silverbond::nearest::nearest_collectors_for_node;
use silverbond::skip::{first_invalid_skip_regex, should_skip_node, SkipCondition, SkipError};
use silverbond::approvals::{
    activate_next_approval, approval_result, approval_route, drop_inconsistent_waiting_approval_cursors,
    queue_approval, approval_step, ApprovalDecision, ApprovalRoute, ApprovalStep,
};
use silverbond::barrier::{
    collector_barrier_is_idle, parse_legacy_collector_barrier_key, revive_from_snapshot,
    CollectorBarrierKey, CollectorBarrierState, CollectorInputStatus,
};
use silverbond::counters::{
    djb2, prepare_cursor_visit, record_output_hash, Counters, OutputHashes, VisitOutcome,
    STAGNATION_WINDOW,
};
use silverbond::cursor::{
    find_cursor_index, CallFrameState, CursorRuntimeState, CursorState, CursorTerminalStatus,
    PendingApproval, QueuedApproval, RuntimeStatus,
};
use silverbond::decide::{
    decide_outcome_failure_stderr, parse_decide_structured_response, select_decide_outcome,
    strip_markdown_json_fence, DecideOutcomeFailure, DecideOutcomeSelection, OutcomeField,
};
use silverbond::graph::{
    build_session_persistence_set, collect_descendants, collector_required_inputs, is_runner_node_kind,
    merge_key_for_edge, prompt_template_for_node, select_success_edge, timeout_for_node, NodeKind,
    SplitFailurePolicy, WorkflowEdge, WorkflowEdgeOutcome, WorkflowGraph, WorkflowNode,
};
use silverbond::ids::{new_cursor_id, new_stream_token};
use silverbond::lifecycle::{
    advance_cursor, classify_task_failure, collector_incoming_edge, enter_subflow, fail_branch,
    failure_policy_label, return_from_subflow, should_complete_subflow, split_cursor,
    split_output_text, subflow_depth_allows, subflow_failure_status, SplitFamilies, SplitFamilyState,
    TaskFailureClass,
};
use silverbond::naming::{build_log_id, safe_name, scoped_workflow_cwd, slugify_filename, NameError};
use silverbond::panes::{active_pane_key, active_pane_key_matches_node, ActivePanes};
use silverbond::records::{
    workflow_edge_outcome_tags, workflow_node_type_tags, RunControlError, TransitionLog,
};
use silverbond::scheduler::{
    batch_concurrency, batch_summary, dispatchable_cursor_ids, finalize_outcome, idle_verdict,
    immediate_action, BatchItemOutcome, BatchQueue, IdleVerdict, ImmediateAction, ItemState,
    TerminalReason, batch_item_results, item_outcomes, join_step, start_batch, BatchItemResult, JoinAction,
};

fn node(id: &str, name: &str, kind: NodeKind, prompt: &str) -> WorkflowNode {
    WorkflowNode {
        id: id.to_string(),
        name: name.to_string(),
        kind,
        prompt: prompt.to_string(),
        timeout: None,
        continue_session_from: None,
        loop_max_iterations: None,
        split_failure_policy: SplitFailurePolicy::BestEffortContinue,
    }
}

fn task_node(id: &str, name: &str, prompt: &str) -> WorkflowNode {
    node(id, name, NodeKind::Task, prompt)
}

fn edge(id: &str, from: &str, to: &str, label: Option<&str>, outcome: WorkflowEdgeOutcome) -> WorkflowEdge {
    WorkflowEdge {
        id: id.to_string(),
        from: from.to_string(),
        to: to.to_string(),
        label: label.map(|l| l.to_string()),
        outcome,
        branch_id: None,
    }
}

fn success_edge(id: &str, from: &str, to: &str, label: Option<&str>) -> WorkflowEdge {
    edge(id, from, to, label, WorkflowEdgeOutcome::Success)
}

fn cursor(id: &str, node_id: &str) -> CursorState {
    CursorState {
        cursor_id: id.to_string(),
        node_id: node_id.to_string(),
        execution_epoch: 1,
        parent_cursor_id: None,
        incoming_edge_id: None,
        incoming_node_id: None,
        split_family_ids: Vec::new(),
        last_output: String::new(),
        loop_counters: Counters::new(),
        visit_counters: Counters::new(),
        var_map: Vec::new(),
        call_stack: Vec::new(),
        last_branch_origin_id: None,
        last_branch_choice: None,
        cancel_requested: false,
        state: CursorRuntimeState::Runnable,
    }
}

fn decide_matched(label: &str) -> DecideOutcomeSelection {
    DecideOutcomeSelection::Matched(label.to_string())
}

fn decide_unmatched() -> DecideOutcomeSelection {
    DecideOutcomeSelection::Failed(DecideOutcomeFailure::Unmatched)
}

fn decide_structured_label_mismatch() -> DecideOutcomeSelection {
    DecideOutcomeSelection::Failed(DecideOutcomeFailure::StructuredLabelMismatch)
}

fn labels(items: &[&str]) -> Vec<String> {
    items.iter().map(|s| s.to_string()).collect()
}

#[test]
fn build_log_id_derives_from_run_id() {
    let id = build_log_id("My Flow!", "run_018f1234-5678-7abc-def0-123456789abc");
    assert_eq!(id, "My Flow__018f1234-5678-7abc-def0-123456789abc");
    assert!(safe_name(&id).is_ok());
}

#[test]
fn output_hash_history_is_capped_to_stagnation_window() {
    let key = "node".to_string();
    let mut hashes = OutputHashes::new();

    assert!(!record_output_hash(&mut hashes, key.clone(), "one"));
    assert!(!record_output_hash(&mut hashes, key.clone(), "two"));
    assert!(!record_output_hash(&mut hashes, key.clone(), "three"));
    assert!(!record_output_hash(&mut hashes, key.clone(), "four"));
    assert_eq!(hashes.get(&key), vec![djb2("two"), djb2("three"), djb2("four")]);

    let mut stagnant_hashes = OutputHashes::new();
    assert!(!record_output_hash(&mut stagnant_hashes, key.clone(), "same"));
    assert!(!record_output_hash(&mut stagnant_hashes, key.clone(), "same"));
    assert!(record_output_hash(&mut stagnant_hashes, key.clone(), "same"));
    assert_eq!(stagnant_hashes.get(&key).len(), STAGNATION_WINDOW);
}

#[test]
fn decide_outcome_selection_prefers_exact_then_substring() {
    let outcomes = labels(&["approve", "revise"]);
    assert_eq!(select_decide_outcome(&outcomes, "revise", None), decide_matched("revise"));
    assert_eq!(
        select_decide_outcome(&outcomes, "I would approve this path.", None),
        decide_matched("approve")
    );
    assert_eq!(select_decide_outcome(&outcomes, "unknown", None), decide_unmatched());
}

#[test]
fn decide_routing_exact_match_takes_priority_over_substring() {
    let outcomes = labels(&["approve", "revise", "reject"]);
    assert_eq!(select_decide_outcome(&outcomes, "revise", None), decide_matched("revise"));
    assert_eq!(
        select_decide_outcome(&outcomes, "I would approve this.", None),
        decide_matched("approve")
    );
    assert_eq!(select_decide_outcome(&outcomes, "unknown", None), decide_unmatched());
}

#[test]
fn decide_routing_trims_quotes_and_whitespace() {
    let outcomes = labels(&["NEXT_STORY", "DONE", "BLOCKED"]);
    assert_eq!(
        select_decide_outcome(&outcomes, "  \"NEXT_STORY\"  ", None),
        decide_matched("NEXT_STORY")
    );
    assert_eq!(select_decide_outcome(&outcomes, "`DONE`", None), decide_matched("DONE"));
}

#[test]
fn decide_routing_prefers_json_artifact_outcome_over_prose() {
    let outcomes = labels(&["approve", "reject"]);
    let response = r#"{"outcome":"approve","reason":"I would not reject this."}"#;
    let parsed = parse_decide_structured_response(response);
    assert_eq!(
        select_decide_outcome(&outcomes, response, parsed.as_ref()),
        decide_matched("approve")
    );
}

#[test]
fn decide_routing_invalid_json_artifact_outcome_does_not_fall_back_to_prose() {
    let outcomes = labels(&["approve", "reject"]);
    let response = r#"{"outcome":"maybe","reason":"approve"}"#;
    let parsed = parse_decide_structured_response(response);
    assert_eq!(
        select_decide_outcome(&outcomes, response, parsed.as_ref()),
        decide_structured_label_mismatch()
    );
}

#[test]
fn decide_outcome_overlapping_labels_prefers_longest_at_same_offset() {
    let outcomes = labels(&["approve", "approve_with_changes"]);
    assert_eq!(
        select_decide_outcome(&outcomes, "approve_with_changes", None),
        decide_matched("approve_with_changes")
    );
    assert_eq!(
        select_decide_outcome(&outcomes, "My decision is approve_with_changes.", None),
        decide_matched("approve_with_changes")
    );
}

#[test]
fn decide_outcome_reasoning_bleed_does_not_misroute_on_substring_sibling() {
    let outcomes = labels(&["revise", "approve"]);
    assert_eq!(
        select_decide_outcome(&outcomes, "I approve this revision.", None),
        decide_matched("approve")
    );
}

#[test]
fn decide_outcome_ambiguous_multi_match_returns_none() {
    let outcomes = labels(&["approve", "approve-with-changes"]);
    assert_eq!(
        select_decide_outcome(&outcomes, "approve-with-changes", None),
        decide_matched("approve-with-changes")
    );

    let outcomes = labels(&["yes", "no"]);
    assert_eq!(
        select_decide_outcome(&outcomes, "yes and no are both valid", None),
        decide_matched("yes")
    );

    let outcomes = labels(&["pick", "pick"]);
    assert_eq!(select_decide_outcome(&outcomes, "I choose pick.", None), decide_unmatched());
}

#[test]
fn decide_routing_numeric_json_outcome_matches_numeric_label() {
    let outcomes = labels(&["1", "2"]);
    let parsed = parse_decide_structured_response(r#"{"outcome": 1}"#);
    assert!(matches!(parsed, Some(OutcomeField::Number(_))));
    assert_eq!(select_decide_outcome(&outcomes, "", parsed.as_ref()), decide_matched("1"));
}

#[test]
fn decide_routing_boolean_json_outcome_reports_type_specific_failure() {
    let outcomes = labels(&["approve", "reject"]);
    let parsed = parse_decide_structured_response(r#"{"outcome": true}"#);
    assert_eq!(
        select_decide_outcome(&outcomes, "", parsed.as_ref()),
        DecideOutcomeSelection::Failed(DecideOutcomeFailure::StructuredNonScalar { json_type: "boolean" })
    );
}

#[test]
fn decide_routing_object_json_outcome_does_not_fall_back_to_prose() {
    let outcomes = labels(&["approve", "reject"]);
    let response = r#"{"outcome":{"choice":"approve"},"reason":"approve"}"#;
    let parsed = parse_decide_structured_response(response);
    assert_eq!(
        select_decide_outcome(&outcomes, response, parsed.as_ref()),
        DecideOutcomeSelection::Failed(DecideOutcomeFailure::StructuredNonScalar { json_type: "object" })
    );
}

#[test]
fn timeout_for_node_decide_uses_configured_node_timeout() {
    let mut n = task_node("decide", "Decide", "prompt");
    n.timeout = Some(12);
    n.kind = NodeKind::Decide { prompt: "pick".to_string(), outcomes: vec!["a".to_string()] };
    assert_eq!(timeout_for_node(&n), Some(12));
}

#[test]
fn build_session_persistence_set_collects_referenced_nodes() {
    let n1 = task_node("n1", "Step 1", "prompt1");
    let mut n2 = task_node("n2", "Step 2", "prompt2");
    n2.continue_session_from = Some("n1".to_string());
    let mut n3 = task_node("n3", "Step 3", "prompt3");
    n3.continue_session_from = Some("n2".to_string());
    let graph = WorkflowGraph { nodes: vec![n1, n2, n3], edges: vec![] };
    let set = build_session_persistence_set(&graph, &Vec::new());
    assert!(set.contains(&"n1".to_string()), "n1 should need persistent session");
    assert!(set.contains(&"n2".to_string()), "n2 should need persistent session");
    assert!(!set.contains(&"n3".to_string()), "n3 is not referenced by anyone");
}

#[test]
fn build_session_persistence_set_ignores_completed_continuations() {
    let n1 = task_node("n1", "Step 1", "prompt1");
    let mut n2 = task_node("n2", "Step 2", "prompt2");
    n2.continue_session_from = Some("n1".to_string());
    let graph = WorkflowGraph { nodes: vec![n1, n2], edges: vec![] };
    let set = build_session_persistence_set(&graph, &vec!["n2".to_string()]);
    assert!(set.is_empty(), "completed continuation nodes should no longer keep sources alive");
}

#[test]
fn build_session_persistence_set_empty_when_no_references() {
    let graph = WorkflowGraph { nodes: vec![task_node("n1", "Step 1", "prompt1")], edges: vec![] };
    let set = build_session_persistence_set(&graph, &Vec::new());
    assert!(set.is_empty());
}

// ---------------------------------------------------------------------------
// Names and identifiers
// ---------------------------------------------------------------------------

#[test]
fn slug_replaces_everything_but_letters_digits_space_dash_underscore() {
    assert_eq!(slugify_filename("a/b.c d-e_f"), "a_b_c d-e_f");
    assert_eq!(slugify_filename("ünï"), "_n_");
}

#[test]
fn log_id_trims_every_run_prefix() {
    assert_eq!(build_log_id("w", "run_run_x"), "w_x");
    assert_eq!(build_log_id("w", "x_run_"), "w_x_run_");
}

#[test]
fn safe_name_rejects_each_kind_of_bad_name() {
    assert_eq!(safe_name(""), Err(NameError::Empty));
    assert_eq!(safe_name(".."), Err(NameError::DotName));
    assert_eq!(safe_name("."), Err(NameError::DotName));
    assert_eq!(safe_name("a/b"), Err(NameError::Separator));
    assert_eq!(safe_name("a\\b"), Err(NameError::Separator));
    assert_eq!(safe_name("..a"), Ok(()));
}

#[test]
fn log_ids_are_always_safe_names() {
    for name in ["", ".", "..", "a/b", "x\\y", "My Flow!"] {
        for run in ["run_1", "", "run_", "abc"] {
            assert!(safe_name(&build_log_id(name, run)).is_ok());
        }
    }
}

#[test]
fn subflow_cwd_falls_back_to_run_cwd() {
    assert_eq!(scoped_workflow_cwd("", "/root"), "/root");
    assert_eq!(scoped_workflow_cwd("/sub", "/root"), "/sub");
}

#[test]
fn fresh_ids_have_their_prefix_and_length() {
    let id = new_cursor_id();
    assert!(id.starts_with("cursor_"));
    assert_eq!(id.len(), "cursor_".len() + 36);
    assert_ne!(new_cursor_id(), new_cursor_id());
    let token = new_stream_token();
    assert_eq!(token.len(), 32);
    assert!(token.chars().all(|c| c.is_ascii_hexdigit()));
    assert!(token.chars().all(|c| !c.is_ascii_uppercase()));
    assert_eq!(token.as_bytes()[12], b'4');
    let uuid = &id["cursor_".len()..];
    for (i, c) in uuid.chars().enumerate() {
        if i == 8 || i == 13 || i == 18 || i == 23 {
            assert_eq!(c, '-');
        } else {
            assert!(c.is_ascii_digit() || ('a'..='f').contains(&c));
        }
    }
    assert_eq!(uuid.as_bytes()[14], b'7');
}

// ---------------------------------------------------------------------------
// Records
// ---------------------------------------------------------------------------

#[test]
fn wire_tags_list_every_variant_in_order() {
    let nodes = workflow_node_type_tags();
    assert_eq!(nodes.len(), 14);
    assert_eq!(nodes[0], "task");
    assert_eq!(nodes[5], "parallel_batch");
    assert_eq!(nodes[13], "run_agent");
    assert_eq!(
        workflow_edge_outcome_tags(),
        vec!["success", "branch", "loop_continue", "loop_exit", "reject"]
    );
}

#[test]
fn run_control_errors_have_their_messages() {
    assert_eq!(RunControlError::RunNotFound.message(), "run not found");
    assert_eq!(
        RunControlError::StaleInteractionSession.message(),
        "interaction session is stale"
    );
    assert_eq!(RunControlError::Internal("boom".to_string()).message(), "boom");
}

#[test]
fn transition_log_keeps_its_fields() {
    let t = TransitionLog::new(
        Some("c".to_string()),
        "a".to_string(),
        None,
        "success",
        "approved",
        "t0".to_string(),
    );
    assert_eq!(t.control_type, "success");
    assert_eq!(t.reason, "approved");
    assert_eq!(t.to_node_id, None);
}

// ---------------------------------------------------------------------------
// Counters and visits
// ---------------------------------------------------------------------------

#[test]
fn counters_count_per_key() {
    let mut c = Counters::new();
    assert_eq!(c.get("a"), 0);
    assert_eq!(c.increment("a"), 1);
    assert_eq!(c.increment("b"), 1);
    assert_eq!(c.increment("a"), 2);
    assert_eq!(c.get("a"), 2);
    assert_eq!(c.get("b"), 1);
    let d = c.duplicate();
    assert_eq!(d.get("a"), 2);
}

#[test]
fn visit_caps_stop_runaway_loops() {
    let mut total = 0u32;
    let mut visits = Counters::new();
    let mut loops = Counters::new();
    assert_eq!(
        prepare_cursor_visit(&mut total, 10, 2, &mut visits, &mut loops, "n"),
        VisitOutcome::Proceed { iteration: 1 }
    );
    assert_eq!(
        prepare_cursor_visit(&mut total, 10, 2, &mut visits, &mut loops, "n"),
        VisitOutcome::Proceed { iteration: 2 }
    );
    assert_eq!(
        prepare_cursor_visit(&mut total, 10, 2, &mut visits, &mut loops, "n"),
        VisitOutcome::VisitCapReached
    );
    let mut total = 10u32;
    assert_eq!(
        prepare_cursor_visit(&mut total, 10, 2, &mut visits, &mut loops, "m"),
        VisitOutcome::GlobalCapReached
    );
}

#[test]
fn djb2_known_values() {
    assert_eq!(djb2(""), 5381);
    assert_eq!(djb2("a"), 5381 * 33 + 97);
}

// ---------------------------------------------------------------------------
// Graph queries
// ---------------------------------------------------------------------------

#[test]
fn graph_queries_follow_edge_order() {
    let graph = WorkflowGraph {
        nodes: vec![task_node("a", "A", ""), task_node("b", "B", ""), task_node("c", "C", "")],
        edges: vec![
            edge("r", "a", "c", None, WorkflowEdgeOutcome::Reject),
            success_edge("s1", "a", "b", Some("x")),
            success_edge("s2", "a", "c", None),
        ],
    };
    assert_eq!(select_success_edge(&graph, "a").map(|e| e.id), Some("s1".to_string()));
    assert!(select_success_edge(&graph, "b").is_none());
    let mut d = collect_descendants(&graph, "a");
    d.sort();
    assert_eq!(d, vec!["a".to_string(), "b".to_string(), "c".to_string()]);
    assert_eq!(merge_key_for_edge(&graph.edges[1]), "x");
    assert_eq!(merge_key_for_edge(&graph.edges[2]), "a");
    assert_eq!(collector_required_inputs(&graph, "c"), vec!["a".to_string()]);
    assert!(is_runner_node_kind(&NodeKind::Task));
    assert!(!is_runner_node_kind(&NodeKind::Split));
    let send = node("s", "S", NodeKind::Send { text: String::new() }, "fallback");
    assert_eq!(prompt_template_for_node(&send), "fallback");
}

// ---------------------------------------------------------------------------
// Node completion
// ---------------------------------------------------------------------------

#[test]
fn failures_are_classified_by_abort_exit_code_and_error_type() {
    assert_eq!(classify_task_failure(true, None, 1), TaskFailureClass::Aborted);
    assert_eq!(classify_task_failure(false, Some("aborted"), -2), TaskFailureClass::Aborted);
    assert_eq!(
        classify_task_failure(false, None, -2),
        TaskFailureClass::Terminal(CursorTerminalStatus::Timeout)
    );
    assert_eq!(
        classify_task_failure(false, Some("timeout"), 1),
        TaskFailureClass::Terminal(CursorTerminalStatus::Timeout)
    );
    assert_eq!(
        classify_task_failure(false, Some("other"), 1),
        TaskFailureClass::Terminal(CursorTerminalStatus::Failure)
    );
    assert_eq!(subflow_failure_status(-2), CursorTerminalStatus::Timeout);
    assert_eq!(subflow_failure_status(3), CursorTerminalStatus::Failure);
}

#[test]
fn advancing_a_cursor_records_the_edge_and_branch_choice() {
    let mut c = cursor("c1", "a");
    c.state = CursorRuntimeState::Running;
    let e = edge("e1", "a", "b", Some("yes"), WorkflowEdgeOutcome::Branch);
    advance_cursor(&mut c, &e, "a", true);
    assert_eq!(c.node_id, "b");
    assert_eq!(c.incoming_edge_id.as_deref(), Some("e1"));
    assert_eq!(c.incoming_node_id.as_deref(), Some("a"));
    assert_eq!(c.last_branch_origin_id.as_deref(), Some("a"));
    assert_eq!(c.last_branch_choice.as_deref(), Some("yes"));
    assert_eq!(c.state, CursorRuntimeState::Runnable);
    let e2 = success_edge("e2", "b", "c", Some("other"));
    advance_cursor(&mut c, &e2, "b", false);
    assert_eq!(c.last_branch_choice.as_deref(), Some("yes"));
}

#[test]
fn split_spawns_one_cursor_per_success_edge_in_a_new_family() {
    let mut split = node("split", "Split", NodeKind::Split, "");
    split.split_failure_policy = SplitFailurePolicy::FailFastCancel;
    let graph = WorkflowGraph {
        nodes: vec![split, task_node("a", "A", ""), task_node("b", "B", "")],
        edges: vec![
            success_edge("sa", "split", "a", Some("alpha")),
            edge("x", "split", "b", None, WorkflowEdgeOutcome::Branch),
            success_edge("sb", "split", "b", Some("beta")),
        ],
    };
    let mut parent = cursor("p", "split");
    parent.last_output = "out".to_string();
    let mut cursors = vec![cursor("other", "zzz"), parent];
    let mut families = SplitFamilies::new();
    let split_node = &graph.nodes[0];
    let outcome = split_cursor(&graph, &mut cursors, &mut families, "p", split_node, 7).unwrap();
    assert_eq!(outcome.output, "Spawned 2 branches.");
    assert_eq!(outcome.child_ids.len(), 2);
    assert!(outcome.family_id.starts_with("family_"));
    assert_eq!(cursors.len(), 3);
    assert_eq!(cursors[0].cursor_id, "other");
    assert_eq!(cursors[1].node_id, "a");
    assert_eq!(cursors[2].node_id, "b");
    for child in &cursors[1..] {
        assert_eq!(child.parent_cursor_id.as_deref(), Some("p"));
        assert_eq!(child.split_family_ids, vec![outcome.family_id.clone()]);
        assert_eq!(child.last_output, "out");
        assert_eq!(child.execution_epoch, 7);
    }
    assert_eq!(families.len(), 1);
    assert_eq!(families.get(0).failure_policy, SplitFailurePolicy::FailFastCancel);
    assert!(split_cursor(&graph, &mut cursors, &mut families, "missing", split_node, 7).is_none());
    assert_eq!(split_output_text(10), "Spawned 10 branches.");
    assert_eq!(failure_policy_label(SplitFailurePolicy::DrainThenFail), "drainthenfail");
}

fn family(id: &str, policy: SplitFailurePolicy) -> SplitFamilyState {
    SplitFamilyState {
        family_id: id.to_string(),
        split_node_id: "split".to_string(),
        execution_epoch: 1,
        failure_policy: policy,
        force_failed: false,
    }
}

#[test]
fn branch_failure_follows_family_policy() {
    let mut families = SplitFamilies::new();
    families.insert(family("best", SplitFailurePolicy::BestEffortContinue));
    families.insert(family("drain", SplitFailurePolicy::DrainThenFail));
    families.insert(family("fast", SplitFailurePolicy::FailFastCancel));

    let mut a = cursor("a", "n");
    a.split_family_ids = vec!["best".to_string()];
    let mut b = cursor("b", "n");
    b.split_family_ids = vec!["drain".to_string()];
    let mut cursors = vec![a, b, cursor("c", "n")];
    assert_eq!(fail_branch(&mut families, &mut cursors, "a"), Some(false));
    assert_eq!(cursors.len(), 2);
    assert!(!families.get(0).force_failed);

    assert_eq!(fail_branch(&mut families, &mut cursors, "b"), Some(false));
    assert!(families.get(1).force_failed);
    assert!(cursors.iter().all(|c| !c.cancel_requested));

    let mut f = cursor("f", "n");
    f.split_family_ids = vec!["fast".to_string()];
    cursors.push(f);
    assert_eq!(fail_branch(&mut families, &mut cursors, "f"), Some(true));
    assert!(families.get(2).force_failed);
    assert_eq!(cursors.len(), 1);
    assert!(cursors[0].cancel_requested);

    let mut root = vec![cursor("r", "n"), cursor("s", "n")];
    assert_eq!(fail_branch(&mut families, &mut root, "r"), Some(true));
    assert!(root[0].cancel_requested);
    assert_eq!(fail_branch(&mut families, &mut root, "nope"), None);
}

#[test]
fn idle_families_are_evicted_unless_force_failed() {
    let mut families = SplitFamilies::new();
    families.insert(family("live", SplitFailurePolicy::BestEffortContinue));
    let mut dead = family("dead", SplitFailurePolicy::DrainThenFail);
    dead.force_failed = true;
    families.insert(dead);
    families.insert(family("gone", SplitFailurePolicy::BestEffortContinue));
    let mut c = cursor("c", "n");
    c.split_family_ids = vec!["live".to_string()];
    let cursors = vec![c];
    families.evict_idle(&cursors, false);
    assert_eq!(families.len(), 2);
    assert_eq!(families.get(0).family_id, "live");
    assert_eq!(families.get(1).family_id, "dead");
    families.evict_idle(&cursors, true);
    assert_eq!(families.len(), 1);
}

#[test]
fn subflow_call_and_return_restore_the_caller() {
    let mut c = cursor("c", "call");
    c.last_output = "before".to_string();
    c.loop_counters.increment("call");
    c.last_branch_choice = Some("left".to_string());
    assert!(subflow_depth_allows(&c, 1));
    assert!(subflow_depth_allows(&c, 0));
    let run_vars = vec![("topic".to_string(), "rust".to_string())];
    let sub_vars = vec![("input".to_string(), "x".to_string())];
    let frame_id = enter_subflow(&mut c, &run_vars, sub_vars.clone(), "call", "Call", "sub", "exit", "entry");
    assert!(frame_id.starts_with("frame_"));
    assert_eq!(c.node_id, "entry");
    assert_eq!(c.var_map, sub_vars);
    assert_eq!(c.call_stack[0].parent_var_map, run_vars);
    assert_eq!(c.last_output, "");
    assert_eq!(c.loop_counters.get("call"), 0);
    assert_eq!(c.last_branch_choice, None);
    assert!(!subflow_depth_allows(&c, 1));
    assert!(subflow_depth_allows(&c, 2));
    assert!(should_complete_subflow(&c, "exit"));
    assert!(!should_complete_subflow(&c, "entry"));
    let frame: CallFrameState = return_from_subflow(&mut c, "result".to_string());
    assert_eq!(frame.call_node_id, "call");
    assert_eq!(frame.parent_last_output, "before");
    assert_eq!(c.last_output, "result");
    assert_eq!(c.loop_counters.get("call"), 1);
    assert_eq!(c.last_branch_choice.as_deref(), Some("left"));
    assert_eq!(c.var_map, run_vars);
    assert!(c.call_stack.is_empty());
}

#[test]
fn collector_entry_edge_prefers_the_recorded_edge() {
    let graph = WorkflowGraph {
        nodes: vec![task_node("a", "A", ""), task_node("b", "B", ""), node("j", "J", NodeKind::Collector, "")],
        edges: vec![success_edge("ea", "a", "j", None), success_edge("eb", "b", "j", None)],
    };
    assert_eq!(collector_incoming_edge(&graph, "j", Some("eb")).map(|e| e.id), Some("eb".to_string()));
    assert_eq!(collector_incoming_edge(&graph, "j", Some("zz")).map(|e| e.id), Some("ea".to_string()));
    assert_eq!(collector_incoming_edge(&graph, "j", None).map(|e| e.id), Some("ea".to_string()));
    assert!(collector_incoming_edge(&graph, "a", None).is_none());
}

// ---------------------------------------------------------------------------
// Collector barriers
// ---------------------------------------------------------------------------

fn arrival(status: CursorTerminalStatus) -> CollectorInputStatus {
    CollectorInputStatus {
        source_node_id: "s".to_string(),
        edge_id: "e".to_string(),
        edge_label: None,
        split_family_ids: Vec::new(),
        status,
        success: status == CursorTerminalStatus::Success,
        output: String::new(),
        stderr: String::new(),
        exit_code: 0,
    }
}

#[test]
fn barrier_releases_once_every_input_arrived() {
    let graph = WorkflowGraph {
        nodes: vec![task_node("a", "A", ""), task_node("b", "B", ""), node("j", "J", NodeKind::Collector, "")],
        edges: vec![success_edge("ea", "a", "j", Some("alpha")), success_edge("eb", "b", "j", Some("beta"))],
    };
    let mut barrier = CollectorBarrierState::new(&graph, "j");
    assert!(!barrier.is_ready());
    barrier.insert_arrival("alpha".to_string(), arrival(CursorTerminalStatus::Success));
    barrier.add_waiting_cursor("ca");
    assert!(!barrier.is_ready());
    barrier.insert_arrival("beta".to_string(), arrival(CursorTerminalStatus::Timeout));
    barrier.insert_arrival("beta".to_string(), arrival(CursorTerminalStatus::Success));
    barrier.add_waiting_cursor("cb");
    assert!(barrier.is_ready());
    let summary = barrier.summary();
    assert_eq!(summary.total, 2);
    assert_eq!(summary.succeeded, 1);
    assert_eq!(summary.timed_out, 1);
    assert_eq!(summary.failed, 0);

    let cursors = vec![cursor("cb", "j"), cursor("ca", "j")];
    let rep = barrier.representative_waiting(&cursors).unwrap();
    assert_eq!(barrier.waiting_id(rep), "ca");
    assert_eq!(barrier.released_siblings(&cursors, "ca"), vec!["cb".to_string()]);
    let only_b = vec![cursor("cb", "j")];
    assert_eq!(barrier.waiting_id(barrier.representative_waiting(&only_b).unwrap()), "cb");
    assert!(barrier.representative_waiting(&Vec::new()).is_none());

    barrier.release();
    assert!(!barrier.is_ready());
    let key = CollectorBarrierKey::new("root", "j", 1);
    let mut waiting = cursor("x", "j");
    waiting.state = CursorRuntimeState::WaitingCollector;
    assert!(!collector_barrier_is_idle(&key, &barrier, &vec![waiting]));
    assert!(collector_barrier_is_idle(&key, &barrier, &cursors));
}

#[test]
fn barrier_snapshot_revives_a_cursor() {
    let graph = WorkflowGraph { nodes: vec![], edges: vec![] };
    let mut barrier = CollectorBarrierState::new(&graph, "j");
    assert!(barrier.snapshot_copy().is_none());
    barrier.keep_snapshot(&cursor("first", "a"));
    barrier.keep_snapshot(&cursor("second", "b"));
    let snap = barrier.snapshot_copy().unwrap();
    assert_eq!(snap.cursor_id, "first");
    let revived = revive_from_snapshot(snap, "fresh".to_string(), "j");
    assert_eq!(revived.cursor_id, "fresh");
    assert_eq!(revived.node_id, "j");
    assert_eq!(revived.state, CursorRuntimeState::WaitingCollector);
}

#[test]
fn legacy_barrier_keys_parse_back() {
    let key = parse_legacy_collector_barrier_key("frame_1:join:42");
    assert_eq!(key.scope, "frame_1");
    assert_eq!(key.collector_id, "join");
    assert_eq!(key.execution_epoch, 42);
    let colon = parse_legacy_collector_barrier_key("frame_1:group:join:7");
    assert_eq!((colon.scope.as_str(), colon.collector_id.as_str(), colon.execution_epoch), ("frame_1", "group:join", 7));
}

// ---------------------------------------------------------------------------
// Approvals
// ---------------------------------------------------------------------------

#[test]
fn approvals_are_answered_one_at_a_time_in_queue_order() {
    let approval = node("ap", "Approve", NodeKind::Approval, "ok?");
    let mut a = cursor("a", "ap");
    a.last_output = "draft".to_string();
    let mut cursors = vec![a, cursor("b", "ap")];
    let mut queued: Vec<QueuedApproval> = Vec::new();
    assert!(queue_approval(&mut cursors, &mut queued, "a", &approval));
    assert!(queue_approval(&mut cursors, &mut queued, "b", &approval));
    assert!(!queue_approval(&mut cursors, &mut queued, "zz", &approval));
    assert_eq!(cursors[0].state, CursorRuntimeState::WaitingApproval);
    assert_eq!(queued.len(), 2);
    assert_eq!(queued[0].approval.last_output, "draft");

    let mut pending: Option<PendingApproval> = None;
    assert!(activate_next_approval(&mut pending, &mut queued));
    assert_eq!(pending.as_ref().unwrap().cursor_id, "a");
    assert!(!activate_next_approval(&mut pending, &mut queued));
    assert_eq!(queued.len(), 1);
    pending = None;
    assert!(activate_next_approval(&mut pending, &mut queued));
    assert_eq!(pending.as_ref().unwrap().cursor_id, "b");
    assert!(queued.is_empty());
}

#[test]
fn approval_answers_become_results_and_routes() {
    let r = approval_result(Some(ApprovalDecision { approved: true, user_input: "  ".to_string() }));
    assert!(r.success);
    assert_eq!(r.output, "[Approved by user]");
    assert_eq!(r.exit_code, 0);
    let r = approval_result(Some(ApprovalDecision { approved: true, user_input: "go".to_string() }));
    assert_eq!(r.output, "go");
    let r = approval_result(None);
    assert!(!r.success);
    assert_eq!(r.stderr, "Rejected by user");
    assert_eq!(r.exit_code, 1);

    let graph = WorkflowGraph {
        nodes: vec![node("ap", "Ap", NodeKind::Approval, ""), task_node("next", "N", "")],
        edges: vec![
            edge("rej", "ap", "next", None, WorkflowEdgeOutcome::Reject),
            success_edge("ok", "ap", "next", None),
        ],
    };
    assert!(matches!(approval_route(&graph, "ap", true), ApprovalRoute::Advance(e) if e.id == "ok"));
    assert!(matches!(approval_route(&graph, "ap", false), ApprovalRoute::Reject(e) if e.id == "rej"));
    assert!(matches!(approval_route(&graph, "next", true), ApprovalRoute::Finish));
    assert!(matches!(approval_route(&graph, "next", false), ApprovalRoute::Fail));
}

#[test]
fn waiting_cursors_without_an_approval_are_dropped() {
    let mut orphan = cursor("orphan", "ap");
    orphan.state = CursorRuntimeState::WaitingApproval;
    let mut held = cursor("held", "ap2");
    held.state = CursorRuntimeState::WaitingApproval;
    let mut cursors = vec![cursor("run", "x"), orphan, held];
    let pending = Some(PendingApproval {
        cursor_id: "held".to_string(),
        node_id: "ap2".to_string(),
        node_name: "Ap".to_string(),
        prompt: String::new(),
        last_output: String::new(),
    });
    let dropped = drop_inconsistent_waiting_approval_cursors(&mut cursors, &pending, &Vec::new());
    assert_eq!(dropped.len(), 1);
    assert_eq!(dropped[0].cursor_id, "orphan");
    assert_eq!(cursors.len(), 2);
    assert_eq!(find_cursor_index(&cursors, "held"), Some(1));
}

// ---------------------------------------------------------------------------
// Scheduler
// ---------------------------------------------------------------------------

#[test]
fn scheduler_dispatches_runnable_uncancelled_cursors() {
    let mut waiting = cursor("w", "n");
    waiting.state = CursorRuntimeState::WaitingCollector;
    let mut cancelled = cursor("x", "n");
    cancelled.cancel_requested = true;
    let cursors = vec![cursor("a", "n"), waiting, cancelled, cursor("b", "n")];
    assert_eq!(dispatchable_cursor_ids(&cursors), vec!["a".to_string(), "b".to_string()]);
    assert_eq!(immediate_action(&NodeKind::Call), ImmediateAction::EnterSubflow);
    assert_eq!(immediate_action(&NodeKind::Approval), ImmediateAction::QueueApproval);
    assert_eq!(immediate_action(&NodeKind::Kill), ImmediateAction::RunnerNode);
}

#[test]
fn idle_scheduler_verdicts() {
    let mut waiting = cursor("w", "n");
    waiting.state = CursorRuntimeState::WaitingCollector;
    let blocked = vec![waiting];
    assert_eq!(idle_verdict(true, false, &blocked), IdleVerdict::WaitForTasks);
    assert_eq!(idle_verdict(false, true, &blocked), IdleVerdict::WaitForApproval);
    assert_eq!(idle_verdict(false, false, &Vec::new()), IdleVerdict::Done);
    assert_eq!(idle_verdict(false, false, &blocked), IdleVerdict::CollectorBlocked);
    let mut w2 = cursor("w2", "n");
    w2.state = CursorRuntimeState::WaitingCollector;
    let stalled = vec![w2, cursor("r", "n")];
    assert_eq!(idle_verdict(false, false, &stalled), IdleVerdict::Stalled(1));
}

#[test]
fn runs_end_with_the_right_status() {
    let mut families = SplitFamilies::new();
    assert_eq!(
        finalize_outcome(RuntimeStatus::Running, None, &families),
        (RuntimeStatus::Completed, TerminalReason::Completed)
    );
    assert_eq!(
        finalize_outcome(RuntimeStatus::Aborted, Some(TerminalReason::Aborted), &families),
        (RuntimeStatus::Aborted, TerminalReason::Aborted)
    );
    let mut f = family("f", SplitFailurePolicy::DrainThenFail);
    f.force_failed = true;
    families.insert(f);
    assert_eq!(
        finalize_outcome(RuntimeStatus::Running, None, &families),
        (RuntimeStatus::Failed, TerminalReason::Failed)
    );
}

#[test]
fn parallel_batch_runs_at_most_its_limit_lowest_index_first() {
    let mut q = BatchQueue::new(&vec![false, true, false, false], 2);
    assert_eq!(q.start_next(), Some(0));
    assert_eq!(q.start_next(), Some(2));
    assert_eq!(q.start_next(), None);
    assert_eq!(q.running_items(), 2);
    q.finish(2);
    assert_eq!(q.start_next(), Some(3));
    assert_eq!(q.start_next(), None);
    q.abort();
    q.finish(0);
    assert_eq!(q.start_next(), None);
    assert_eq!(q.unfinished(), vec![3]);
    assert_eq!(batch_concurrency(0, 4), 1);
    assert_eq!(batch_concurrency(9, 4), 4);
    assert_eq!(batch_concurrency(3, 4), 3);
    let s = batch_summary(
        4,
        &vec![
            BatchItemOutcome { success: true, cancelled: false },
            BatchItemOutcome { success: false, cancelled: true },
            BatchItemOutcome { success: true, cancelled: false },
        ],
        2,
    );
    assert_eq!((s.total, s.succeeded, s.failed, s.cancelled, s.max_concurrent), (4, 2, 2, 1, 2));
    let _ = ItemState::Pending;
}

// ---------------------------------------------------------------------------
// Panes and decide helpers
// ---------------------------------------------------------------------------

#[test]
fn active_panes_resolve_to_the_newest_holder() {
    let key = active_pane_key("c1", "n1");
    assert!(active_pane_key_matches_node(&key, "n1"));
    assert!(!active_pane_key_matches_node(&key, "n"));
    let mut panes = ActivePanes::new();
    panes.set_active_pane(&key, "%1", None);
    panes.set_active_pane(&active_pane_key("c2", "n1"), "%1", None);
    assert_eq!(panes.cleanup_targets().len(), 1);
    panes.clear_active_pane(&key);
    assert_eq!(panes.entries().len(), 1);
}

#[test]
fn decide_helpers_strip_fences_and_report_failures() {
    assert_eq!(strip_markdown_json_fence("```json\n{}\n```"), Some("{}".to_string()));
    assert_eq!(strip_markdown_json_fence("{}"), None);
    let outcomes = labels(&["a", "b"]);
    let msg = decide_outcome_failure_stderr(DecideOutcomeFailure::Unmatched, &outcomes);
    assert!(msg.contains("a, b"));
}

#[test]
fn decide_failure_keeps_the_agent_result() {
    let outcomes = labels(&["approve", "reject"]);
    let r = silverbond::decide::apply_decide_outcome(
        false,
        "approve".to_string(),
        "Timeout waiting for agent response".to_string(),
        -2,
        None,
        &Vec::new(),
        &outcomes,
    );
    assert!(!r.success);
    assert_eq!(r.exit_code, -2);
    assert_eq!(r.output, "approve");
    assert_eq!(r.outcome, None);
}

#[test]
fn decide_success_applies_the_selected_outcome() {
    let outcomes = labels(&["approve", "reject"]);
    let r = silverbond::decide::apply_decide_outcome(true, "approve".to_string(), String::new(), 0, None, &Vec::new(), &outcomes);
    assert!(r.success);
    assert_eq!(r.output, "approve");
    assert_eq!(r.outcome.as_deref(), Some("approve"));
    let r = silverbond::decide::apply_decide_outcome(true, "maybe".to_string(), String::new(), 0, None, &Vec::new(), &outcomes);
    assert!(!r.success);
    assert_eq!(r.exit_code, 1);
    assert_eq!(r.stderr, "LLM response did not match any decide outcome: approve, reject");
    let r = silverbond::decide::apply_decide_outcome(
        true,
        "```json\n{\"outcome\": \"reject\"}\n```".to_string(),
        String::new(),
        0,
        None,
        &Vec::new(),
        &outcomes,
    );
    assert_eq!(r.outcome.as_deref(), Some("reject"));
}

#[test]
fn decide_agent_failure_skips_outcome_routing_even_when_output_matches() {
    let outcomes = labels(&["approve", "reject"]);
    let merged = silverbond::decide::apply_decide_outcome(
        false,
        "approve".to_string(),
        "Timeout waiting for agent response".to_string(),
        -2,
        None,
        &Vec::new(),
        &outcomes,
    );
    assert!(!merged.success);
    assert_eq!(merged.exit_code, -2);
    assert_eq!(merged.output, "approve");
    assert_eq!(merged.record.outcome, None);
    assert_eq!(merged.record.response, "approve");
    assert_eq!(merged.raw_output, None);
}

#[test]
fn decide_success_preserves_agent_metadata_and_applies_outcome() {
    let outcomes = labels(&["approve", "reject"]);
    let merged = silverbond::decide::apply_decide_outcome(
        true,
        "approve".to_string(),
        String::new(),
        0,
        None,
        &vec![("topic".to_string(), "x".to_string())],
        &outcomes,
    );
    assert!(merged.success);
    assert_eq!(merged.output, "approve");
    assert_eq!(merged.record.outcome.as_deref(), Some("approve"));
    assert_eq!(merged.record.inputs, vec![("topic".to_string(), "x".to_string())]);
    assert_eq!(merged.raw_output.as_deref(), Some("approve"));

    let rerouted = silverbond::decide::apply_decide_outcome(
        true,
        "  I pick reject.  ".to_string(),
        String::new(),
        0,
        Some("kept".to_string()),
        &Vec::new(),
        &outcomes,
    );
    assert_eq!(rerouted.output, "reject");
    assert_eq!(rerouted.record.response, "  I pick reject.  ");
    assert_eq!(rerouted.raw_output.as_deref(), Some("kept"));
}

#[test]
fn decide_prompt_lists_outcomes_as_json_strings() {
    let outcomes = labels(&["a", "say \"hi\""]);
    assert_eq!(
        silverbond::decide::format_decide_outcomes_for_prompt(&outcomes),
        "\"a\", \"say \\\"hi\\\"\""
    );
    let text = silverbond::decide::decide_instruction_text(&labels(&["x"]));
    assert!(text.starts_with("\n\nChoose exactly one outcome."));
    assert!(text.ends_with("one of: \"x\"."));
}

#[test]
fn skip_conditions_look_at_the_right_text() {
    let results = vec![("n1".to_string(), "the build failed".to_string())];
    let cond = |source: &str, kind: &str, value: &str| SkipCondition {
        source: source.to_string(),
        kind: kind.to_string(),
        value: value.to_string(),
    };
    assert_eq!(should_skip_node(None, "x", &results), Ok(false));
    assert_eq!(should_skip_node(Some(&cond("previous_output", "contains", "ok")), "all ok", &results), Ok(true));
    assert_eq!(should_skip_node(Some(&cond("n1", "not_contains", "failed")), "", &results), Ok(false));
    assert_eq!(should_skip_node(Some(&cond("n2", "contains", "")), "", &results), Ok(true));
    assert_eq!(should_skip_node(Some(&cond("n1", "regex", "fail(ed)?$")), "", &results), Ok(true));
    assert_eq!(should_skip_node(Some(&cond("n1", "regex", "^ok")), "", &results), Ok(false));
    assert_eq!(should_skip_node(Some(&cond("n1", "regex", "(")), "", &results), Err(SkipError::InvalidRegex));
    assert_eq!(should_skip_node(Some(&cond("n1", "other", "x")), "", &results), Ok(false));
    let conds = vec![None, Some(cond("a", "contains", "(")), Some(cond("a", "regex", "[")), Some(cond("a", "regex", "("))];
    assert_eq!(first_invalid_skip_regex(&conds), Some(2));
}

#[test]
fn pane_candidates_trust_only_reported_sessions() {
    let results = vec![
        NodeResult {
            node_id: "a".to_string(),
            output: "{\"target\": \"%1\"}".to_string(),
            stale: false,
            preserved_from_run_id: None,
            agent_session_id: Some(" %1 ".to_string()),
            parsed_output: Some("{\"paneId\": \"%2\"}".to_string()),
        },
        NodeResult {
            node_id: "b".to_string(),
            output: "{\"pane_id\": \"%3\"}".to_string(),
            stale: false,
            preserved_from_run_id: None,
            agent_session_id: None,
            parsed_output: None,
        },
    ];
    let executions = vec![
        ExecutionPanes { node_id: "c".to_string(), agent_session_id: Some("%3".to_string()) },
        ExecutionPanes { node_id: "a".to_string(), agent_session_id: Some("%1".to_string()) },
    ];
    let c = pane_candidates(&results, &executions);
    let pairs: Vec<(String, String)> = c.into_iter().map(|c| (c.key, c.target)).collect();
    assert_eq!(
        pairs,
        vec![
            ("a".to_string(), "%1".to_string()),
            ("b".to_string(), "%3".to_string()),
            ("c".to_string(), "%3".to_string()),
        ]
    );
}

#[test]
fn inbound_source_map_lists_sources_per_target() {
    let graph = WorkflowGraph {
        nodes: vec![],
        edges: vec![
            success_edge("1", "a", "j", None),
            success_edge("2", "b", "k", None),
            success_edge("3", "c", "j", None),
        ],
    };
    let map = silverbond::graph::build_inbound_source_map(&graph);
    assert_eq!(
        map,
        vec![
            ("j".to_string(), vec!["a".to_string(), "c".to_string()]),
            ("k".to_string(), vec!["b".to_string()]),
        ]
    );
}

#[test]
fn nearest_collectors_stop_at_the_first_collector_distance() {
    let graph = WorkflowGraph {
        nodes: vec![
            task_node("a", "A", ""),
            task_node("b", "B", ""),
            task_node("c", "C", ""),
            node("j1", "J1", NodeKind::Collector, ""),
            node("j2", "J2", NodeKind::Collector, ""),
        ],
        edges: vec![
            success_edge("ab", "a", "b", None),
            success_edge("bj1", "b", "j1", Some("beta")),
            success_edge("bc", "b", "c", None),
            success_edge("cj2", "c", "j2", None),
            edge("aj2", "a", "j2", None, WorkflowEdgeOutcome::Branch),
            success_edge("aghost", "a", "ghost", None),
        ],
    };
    let targets = nearest_collectors_for_node(&graph, "a");
    let found: Vec<(String, String)> = targets
        .iter()
        .map(|t| (t.collector_id.clone(), t.inbound_edge.id.clone()))
        .collect();
    assert_eq!(found, vec![("j1".to_string(), "bj1".to_string())]);
    assert!(nearest_collectors_for_node(&graph, "j2").is_empty());
    let from_c = nearest_collectors_for_node(&graph, "c");
    assert_eq!(from_c.len(), 1);
    assert_eq!(from_c[0].collector_id, "j2");
}

fn join_graph() -> WorkflowGraph {
    let mut split = node("split", "Split", NodeKind::Split, "");
    split.split_failure_policy = SplitFailurePolicy::BestEffortContinue;
    WorkflowGraph {
        nodes: vec![
            split,
            task_node("branch_a", "A", ""),
            task_node("branch_b", "B", ""),
            node("collector", "Collector", NodeKind::Collector, ""),
            task_node("after", "After", ""),
        ],
        edges: vec![
            success_edge("split_a", "split", "branch_a", Some("alpha")),
            success_edge("split_b", "split", "branch_b", Some("beta")),
            success_edge("join_a", "branch_a", "collector", Some("alpha")),
            success_edge("join_b", "branch_b", "collector", Some("beta")),
            success_edge("after_edge", "collector", "after", None),
        ],
    }
}

#[test]
fn branches_meet_at_the_collector_barrier_of_their_scope() {
    let graph = join_graph();
    let mut a = cursor("a", "collector");
    a.incoming_edge_id = Some("join_a".to_string());
    a.last_output = "from a".to_string();
    let mut b = cursor("b", "branch_b");
    b.incoming_edge_id = Some("split_b".to_string());
    let mut cursors = vec![a, b];
    let mut barriers = CollectorBarriers::new();

    let entry = enter_collector(&mut barriers, &graph, &mut cursors, 0, "collector", None, 1);
    assert_eq!(entry, CollectorEntry::Waiting { barrier: 0 });
    assert_eq!(cursors[0].state, CursorRuntimeState::WaitingCollector);
    assert_eq!(barriers.len(), 1);
    assert_eq!(barriers.key_at(0).scope, "root");
    assert!(barriers.ready_indices().is_empty());

    let reported = report_branch_failure(
        &mut barriers,
        &graph,
        &cursors[1],
        "branch_b",
        CursorTerminalStatus::Failure,
        "",
        "boom",
        1,
        1,
    );
    assert_eq!(reported.len(), 1);
    assert_eq!(reported[0].inbound_edge.id, "join_b");
    assert_eq!(barriers.len(), 1);
    assert_eq!(barriers.ready_indices(), vec![0]);
    let summary = barriers.barrier_at(0).summary();
    assert_eq!((summary.succeeded, summary.failed), (1, 1));

    barriers.release_at(0);
    assert!(barriers.ready_indices().is_empty());
    barriers.evict_idle(&cursors);
    assert_eq!(barriers.len(), 1);
    cursors[0].state = CursorRuntimeState::Runnable;
    barriers.evict_idle(&cursors);
    assert_eq!(barriers.len(), 0);

    let lonely = WorkflowGraph { nodes: vec![node("c", "C", NodeKind::Collector, "")], edges: vec![] };
    let mut c = vec![cursor("x", "c")];
    assert_eq!(
        enter_collector(&mut barriers, &lonely, &mut c, 0, "c", None, 1),
        CollectorEntry::NoInboundEdge
    );
}

#[test]
fn registry_tracks_runs_targets_interactions_and_hashes() {
    let mut runs = ActiveRuns::new();
    assert!(runs.register("r1"));
    assert!(!runs.register("r1"));
    assert!(runs.register("r0"));
    assert_eq!(runs.active_run_ids(), vec!["r0".to_string(), "r1".to_string()]);
    runs.clear("r1");
    assert!(!runs.is_active("r1"));

    let mut owned = OwnedTmuxTargets::new();
    owned.register_owned_tmux_target("%1", Some("sb-1"));
    owned.register_owned_tmux_target("%2", None);
    assert!(owned.owns_tmux_pane("%2"));
    assert!(owned.owns_tmux_session("sb-1"));
    assert!(!owned.owns_tmux_session("sb-2"));

    let mut pending = PendingInteractions::new();
    assert!(pending.set_pending_interaction("s1").is_ok());
    assert!(pending.set_pending_interaction("s1").is_err());
    assert!(pending.resolve_interaction("s1").is_ok());
    assert!(matches!(
        pending.resolve_interaction("s1"),
        Err(RunControlError::StaleInteractionSession)
    ));

    let mut hashes = PersistHashes::new();
    assert_eq!(hashes.last_persist_hash("r"), None);
    hashes.record_persist_hash("r", 7);
    hashes.record_persist_hash("q", 9);
    hashes.record_persist_hash("r", 8);
    assert_eq!(hashes.last_persist_hash("r"), Some(8));
    assert!(!should_persist(hashes.last_persist_hash("r"), 8));
    assert!(should_persist(hashes.last_persist_hash("r"), 7));
    hashes.clear("r");
    assert_eq!(hashes.last_persist_hash("r"), None);
    assert_eq!(hashes.last_persist_hash("q"), Some(9));
}

fn stored(node_id: &str, output: &str) -> NodeResult {
    NodeResult {
        node_id: node_id.to_string(),
        output: output.to_string(),
        stale: false,
        preserved_from_run_id: None,
        agent_session_id: None,
        parsed_output: None,
    }
}

#[test]
fn restart_keeps_upstream_results_and_drops_the_rest() {
    let graph = WorkflowGraph {
        nodes: vec![task_node("a", "A", ""), task_node("b", "B", ""), task_node("c", "C", "")],
        edges: vec![success_edge("ab", "a", "b", None), success_edge("bc", "b", "c", None)],
    };
    let mut loops = Counters::new();
    loops.increment("a");
    loops.increment("c");
    let mut visits = Counters::new();
    visits.increment("b");
    let mut hashes = OutputHashes::new();
    record_output_hash(&mut hashes, "b".to_string(), "x");
    let results = vec![stored("a", "A out"), stored("b", "B out"), stored("c", "C out")];
    let vars = vec![("k".to_string(), "v".to_string())];
    let plan = plan_restart(&graph, "b", "run_old", 3, &vars, results, &mut loops, &mut visits, &mut hashes).unwrap();
    assert!(plan.run_id.starts_with("run_"));
    assert_eq!(plan.execution_epoch, 4);
    assert_eq!(plan.results.len(), 1);
    assert_eq!(plan.results[0].node_id, "a");
    assert!(plan.results[0].stale);
    assert_eq!(plan.results[0].preserved_from_run_id.as_deref(), Some("run_old"));
    assert_eq!(plan.last_output, "A out");
    assert_eq!(plan.cursor.node_id, "b");
    assert_eq!(plan.cursor.last_output, "A out");
    assert_eq!(plan.cursor.var_map, vars);
    assert_eq!(loops.get("a"), 1);
    assert_eq!(loops.get("c"), 0);
    assert_eq!(visits.get("b"), 0);
    assert!(hashes.get("b").is_empty());

    let mut l2 = Counters::new();
    let mut v2 = Counters::new();
    let mut h2 = OutputHashes::new();
    assert!(matches!(
        plan_restart(&graph, "zz", "run_old", u64::MAX, &Vec::new(), Vec::new(), &mut l2, &mut v2, &mut h2),
        Err(RunControlError::NodeNotFound)
    ));
    let plan = plan_restart(&graph, "a", "r", u64::MAX, &Vec::new(), Vec::new(), &mut l2, &mut v2, &mut h2).unwrap();
    assert_eq!(plan.execution_epoch, u64::MAX);
    assert_eq!(plan.last_output, "");
}

#[test]
fn counters_forget_removed_keys() {
    let mut c = Counters::new();
    c.increment("a");
    c.increment("b");
    c.remove("a");
    assert_eq!(c.get("a"), 0);
    assert_eq!(c.get("b"), 1);
}

#[test]
fn terminal_cursor_reports_to_collector_and_follows_family_policy() {
    let graph = join_graph();
    let mut families = SplitFamilies::new();
    families.insert(family("fam", SplitFailurePolicy::DrainThenFail));
    let mut a = cursor("a", "collector");
    a.incoming_edge_id = Some("join_a".to_string());
    a.split_family_ids = vec!["fam".to_string()];
    let mut b = cursor("b", "branch_b");
    b.split_family_ids = vec!["fam".to_string()];
    let mut cursors = vec![a, b];
    let mut barriers = CollectorBarriers::new();
    assert_eq!(
        enter_collector(&mut barriers, &graph, &mut cursors, 0, "collector", None, 1),
        CollectorEntry::Waiting { barrier: 0 }
    );

    let r = handle_terminal_cursor_status(
        &mut barriers,
        &mut families,
        &mut cursors,
        &graph,
        "b",
        "branch_b",
        CursorTerminalStatus::Timeout,
        "partial",
        "timed out",
        -2,
        1,
    );
    assert_eq!(r, Some(false));
    assert!(families.get(0).force_failed);
    assert_eq!(cursors.len(), 1);
    assert_eq!(cursors[0].cursor_id, "a");
    assert!(!cursors[0].cancel_requested);
    assert_eq!(barriers.len(), 1);
    assert_eq!(barriers.ready_indices(), vec![0]);
    let summary = barriers.barrier_at(0).summary();
    assert_eq!((summary.succeeded, summary.timed_out), (1, 1));

    let unknown = handle_terminal_cursor_status(
        &mut barriers,
        &mut families,
        &mut cursors,
        &graph,
        "zzz",
        "branch_b",
        CursorTerminalStatus::Failure,
        "",
        "",
        1,
        1,
    );
    assert_eq!(unknown, None);
    assert_eq!(cursors.len(), 1);
}

#[test]
fn decide_labels_match_literally() {
    let outcomes = labels(&["v1.2", "v1x2"]);
    assert_eq!(select_decide_outcome(&outcomes, "ship v1x2 now", None), decide_matched("v1x2"));
    assert_eq!(select_decide_outcome(&outcomes, "ship v1.2 now", None), decide_matched("v1.2"));
}

#[test]
fn releasing_a_collector_hands_it_to_one_cursor() {
    let graph = join_graph();
    let mut a = cursor("a", "collector");
    a.incoming_edge_id = Some("join_a".to_string());
    let mut b = cursor("b", "collector");
    b.incoming_edge_id = Some("join_b".to_string());
    let mut cursors = vec![a, b, cursor("other", "after")];
    let mut barriers = CollectorBarriers::new();
    enter_collector(&mut barriers, &graph, &mut cursors, 0, "collector", None, 1);
    enter_collector(&mut barriers, &graph, &mut cursors, 1, "collector", None, 1);
    assert_eq!(barriers.ready_indices(), vec![0]);
    let carrier = release_collector(&mut barriers, &mut cursors, 0, "fresh".to_string());
    assert_eq!(carrier.as_deref(), Some("a"));
    let ids: Vec<&str> = cursors.iter().map(|c| c.cursor_id.as_str()).collect();
    assert_eq!(ids, vec!["a", "other"]);
    assert!(barriers.ready_indices().is_empty());

    let mut lone = vec![cursor("x", "branch_b")];
    let mut barriers = CollectorBarriers::new();
    report_branch_failure(&mut barriers, &graph, &lone[0], "branch_b", CursorTerminalStatus::Failure, "", "boom", 1, 1);
    lone.clear();
    let carrier = release_collector(&mut barriers, &mut lone, 0, "revived".to_string());
    assert_eq!(carrier.as_deref(), Some("revived"));
    assert_eq!(lone.len(), 1);
    assert_eq!(lone[0].cursor_id, "revived");
    assert_eq!(lone[0].node_id, "collector");
    assert_eq!(lone[0].state, CursorRuntimeState::WaitingCollector);
}

fn item_result(index: usize, item: &str, success: bool) -> BatchItemResult {
    BatchItemResult {
        index,
        item: item.to_string(),
        cursor_id: Some(format!("c{}", index)),
        node_id: Some("body".to_string()),
        success,
        output: "out".to_string(),
        stderr: String::new(),
        exit_code: if success { 0 } else { 1 },
        parsed_output: None,
        cancelled: false,
    }
}

#[test]
fn batches_reuse_unchanged_results_and_cancel_unfinished_items() {
    let items = vec!["\"a\"".to_string(), "\"b\"".to_string(), "\"c\"".to_string()];
    let stored = vec![item_result(0, "\"a\"", true), item_result(1, "\"changed\"", true), item_result(7, "\"z\"", true)];
    let (kept, mut queue) = start_batch(&stored, &items, 2);
    assert_eq!(kept.len(), 1);
    assert_eq!(kept[0].index, 0);
    assert_eq!(queue.start_next(), Some(1));
    assert_eq!(queue.start_next(), Some(2));
    assert_eq!(queue.start_next(), None);

    let mut done = kept;
    done.push(item_result(2, "\"c\"", false));
    let reported = batch_item_results(&done, &items, true);
    assert_eq!(reported.iter().map(|r| r.index).collect::<Vec<_>>(), vec![0, 1, 2]);
    assert!(reported[1].cancelled);
    assert_eq!(reported[1].stderr, "cancelled");
    assert_eq!(reported[1].exit_code, -1);
    assert_eq!(reported[1].item, "\"b\"");
    assert!(!reported[2].cancelled);
    let summary = batch_summary(items.len(), &item_outcomes(&reported), 2);
    assert_eq!((summary.succeeded, summary.failed, summary.cancelled), (1, 2, 1));

    let partial = batch_item_results(&done, &items, false);
    assert_eq!(partial.iter().map(|r| r.index).collect::<Vec<_>>(), vec![0, 2]);
}

#[test]
fn runs_resume_only_when_stored_live_and_idle() {
    let mut runs = ActiveRuns::new();
    assert_eq!(resume_guard(None, &mut runs, "r1"), Err(RunControlError::RunNotFound));
    assert_eq!(resume_guard(Some(RuntimeStatus::Completed), &mut runs, "r1"), Err(RunControlError::TerminalState));
    assert_eq!(resume_guard(Some(RuntimeStatus::Paused), &mut runs, "r1"), Ok(()));
    assert!(runs.is_active("r1"));
    assert_eq!(resume_guard(Some(RuntimeStatus::Running), &mut runs, "r1"), Err(RunControlError::AlreadyActive));
}

#[test]
fn answered_approvals_route_their_cursor() {
    let graph = WorkflowGraph {
        nodes: vec![node("ap", "Ap", NodeKind::Approval, ""), task_node("next", "N", "")],
        edges: vec![
            edge("rej", "ap", "next", None, WorkflowEdgeOutcome::Reject),
            success_edge("ok", "ap", "next", None),
        ],
    };
    let mut pending = Some(PendingApproval {
        cursor_id: "c1".to_string(),
        node_id: "ap".to_string(),
        node_name: "Ap".to_string(),
        prompt: String::new(),
        last_output: String::new(),
    });
    let mut cursors = vec![cursor("c1", "ap")];
    let step = approval_step(
        &mut pending,
        &mut cursors,
        &graph,
        "c1",
        Some(ApprovalDecision { approved: true, user_input: "  ".to_string() }),
    );
    assert!(pending.is_none());
    assert!(matches!(&step, ApprovalStep::Routed(r, ApprovalRoute::Advance(e)) if e.id == "ok" && r.output == "[Approved by user]"));
    assert_eq!(cursors[0].node_id, "next");
    assert_eq!(cursors[0].incoming_edge_id.as_deref(), Some("ok"));
    assert_eq!(cursors[0].last_output, "[Approved by user]");

    let mut cursors = vec![cursor("c1", "ap")];
    cursors[0].last_output = "before".to_string();
    let step = approval_step(&mut pending, &mut cursors, &graph, "c1", None);
    assert!(matches!(&step, ApprovalStep::Routed(r, ApprovalRoute::Reject(e)) if e.id == "rej" && !r.success));
    assert_eq!(cursors[0].node_id, "next");
    assert_eq!(cursors[0].last_output, "before");

    let mut cursors = vec![cursor("c1", "next")];
    let step = approval_step(&mut pending, &mut cursors, &graph, "c1", Some(ApprovalDecision { approved: true, user_input: "y".to_string() }));
    assert!(matches!(step, ApprovalStep::Routed(_, ApprovalRoute::Finish)));
    assert!(cursors.is_empty());
    assert!(matches!(approval_step(&mut pending, &mut cursors, &graph, "gone", None), ApprovalStep::Ignore));
}

#[test]
fn joined_tasks_are_decided_in_order() {
    let mut hashes = OutputHashes::new();
    let mut cursors = vec![cursor("c1", "n")];
    cursors[0].state = CursorRuntimeState::Running;
    assert_eq!(join_step(&mut cursors, &mut hashes, "c1", "n", true, "same", false, None, 0), JoinAction::Route);
    assert_eq!(cursors[0].state, CursorRuntimeState::Runnable);
    assert_eq!(cursors[0].last_output, "same");
    assert_eq!(join_step(&mut cursors, &mut hashes, "c1", "n", true, "same", false, None, 0), JoinAction::Route);
    assert_eq!(join_step(&mut cursors, &mut hashes, "c1", "n", true, "same", false, None, 0), JoinAction::Stagnant);
    assert_eq!(
        join_step(&mut cursors, &mut hashes, "c1", "n", false, "", false, Some("timeout"), 1),
        JoinAction::Terminal(CursorTerminalStatus::Timeout)
    );
    assert_eq!(join_step(&mut cursors, &mut hashes, "c1", "n", false, "", true, None, 1), JoinAction::Abort);
    assert_eq!(join_step(&mut cursors, &mut hashes, "zz", "n", true, "x", false, None, 0), JoinAction::Ignore);
}
