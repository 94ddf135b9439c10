use silverbond::counters::Counters;
use silverbond::cursor::{CursorRuntimeState, CursorState};
use silverbond::lifecycle::{
    enter_subflow, insert_result_for_cursor_index, results_for_cursor, return_from_subflow,
    var_map_for_cursor,
};
use silverbond::results::{record_result, NodeResult};
use silverbond::template::{resolve_template_vars, TemplateContext};

fn root_cursor(id: &str, node_id: &str) -> CursorState {
    CursorState {
        cursor_id: id.to_string(),
        node_id: node_id.to_string(),
        execution_epoch: 1,
        parent_cursor_id: None,
        incoming_edge_id: None,
        incoming_node_id: None,
        split_family_ids: Vec::new(),
        last_output: String::new(),
        loop_counters: Counters::new(),
        visit_counters: Counters::new(),
        var_map: Vec::new(),
        call_stack: Vec::new(),
        last_branch_origin_id: None,
        last_branch_choice: None,
        cancel_requested: false,
        state: CursorRuntimeState::Runnable,
    }
}

fn output_of(node_id: &str, output: &str) -> NodeResult {
    NodeResult {
        node_id: node_id.to_string(),
        output: output.to_string(),
        stale: false,
        preserved_from_run_id: None,
        agent_session_id: None,
        parsed_output: None,
    }
}

fn context_for(cursor: &CursorState, run_results: &Vec<NodeResult>, run_vars: &Vec<(String, String)>) -> TemplateContext {
    TemplateContext {
        current_node_id: cursor.node_id.clone(),
        context_sources: Vec::new(),
        results: results_for_cursor(run_results, cursor).iter().map(|r| r.duplicate()).collect(),
        last_output: cursor.last_output.clone(),
        var_map: var_map_for_cursor(run_vars, cursor),
        inbound_map: Vec::new(),
        last_branch_origin_id: cursor.last_branch_origin_id.clone(),
        last_branch_choice: cursor.last_branch_choice.clone(),
        output_fields: Vec::new(),
        parsed_fields: Vec::new(),
    }
}

#[test]
fn zero_variable_subflow_scope_hides_root_vars_and_results() {
    let run_vars = vec![("X".to_string(), "root-value".to_string())];
    let mut run_results: Vec<NodeResult> = Vec::new();
    let mut cursors = vec![root_cursor("c1", "call")];

    enter_subflow(&mut cursors[0], &run_vars, Vec::new(), "call", "Call", "empty_scope", "entry", "entry");
    let inside = resolve_template_vars("inside {{var:X}}", &context_for(&cursors[0], &run_results, &run_vars));
    assert_eq!(inside, "inside {{var:X}}");
    let at_root = insert_result_for_cursor_index(&mut run_results, &mut cursors, 0, output_of("entry", &inside));
    assert!(!at_root);
    assert!(run_results.is_empty());
    assert_eq!(cursors[0].call_stack[0].subflow_results.len(), 1);

    let frame = return_from_subflow(&mut cursors[0], inside.clone());
    assert_eq!(frame.subflow_results[0].node_id, "entry");
    assert_eq!(cursors[0].var_map, run_vars);
    let at_root = insert_result_for_cursor_index(&mut run_results, &mut cursors, 0, output_of("call", &inside));
    assert!(at_root);

    cursors[0].node_id = "after".to_string();
    let after = resolve_template_vars("after {{call}} {{var:X}}", &context_for(&cursors[0], &run_results, &run_vars));
    assert_eq!(after, "after inside {{var:X}} root-value");
    assert!(run_results.iter().all(|r| r.node_id != "entry"));
}

#[test]
fn calls_from_two_parents_see_only_their_own_inputs() {
    let run_vars: Vec<(String, String)> = Vec::new();
    let run_results: Vec<NodeResult> = Vec::new();
    let mut left = root_cursor("left", "call_left");
    let mut right = root_cursor("right", "call_right");
    enter_subflow(&mut left, &run_vars, vec![("topic".to_string(), "alpha".to_string())], "call_left", "L", "child", "exit", "entry");
    enter_subflow(&mut right, &run_vars, vec![("topic".to_string(), "beta".to_string())], "call_right", "R", "child", "exit", "entry");
    let l = resolve_template_vars("{{var:topic}}", &context_for(&left, &run_results, &run_vars));
    let r = resolve_template_vars("{{var:topic}}", &context_for(&right, &run_results, &run_vars));
    assert_eq!(l, "alpha");
    assert_eq!(r, "beta");
}

#[test]
fn root_cursors_without_variables_see_the_runs() {
    let run_vars = vec![("k".to_string(), "v".to_string())];
    let mut c = root_cursor("c", "n");
    assert_eq!(var_map_for_cursor(&run_vars, &c), run_vars);
    c.var_map = vec![("own".to_string(), "1".to_string())];
    assert_eq!(var_map_for_cursor(&run_vars, &c), c.var_map);
}

#[test]
fn recording_a_result_replaces_the_nodes_earlier_one() {
    let mut results = vec![output_of("a", "1"), output_of("b", "2")];
    record_result(&mut results, output_of("a", "3"));
    record_result(&mut results, output_of("c", "4"));
    let summary: Vec<(String, String)> = results.iter().map(|r| (r.node_id.clone(), r.output.clone())).collect();
    assert_eq!(
        summary,
        vec![
            ("a".to_string(), "3".to_string()),
            ("b".to_string(), "2".to_string()),
            ("c".to_string(), "4".to_string()),
        ]
    );
}
