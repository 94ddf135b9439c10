use silverbond::bindings::{
    read_batch_items, resolve_input_binding_value, BatchItemsError, BindingContext, BindingValue,
};
use silverbond::results::NodeResult;
use silverbond::graph::{NodeKind, SplitFailurePolicy, WorkflowNode};
use silverbond::records::NodeTestContext;
use silverbond::template::{preview_prompt, render_decide_prompt, resolve_template_vars, TemplateContext};
use silverbond::text::{replace_chars, trim_str};

fn result(node_id: &str, output: &str, stale: bool) -> NodeResult {
    NodeResult {
        node_id: node_id.to_string(),
        output: output.to_string(),
        stale,
        preserved_from_run_id: None,
        agent_session_id: None,
        parsed_output: None,
    }
}

fn pairs(items: &[(&str, &str)]) -> Vec<(String, String)> {
    items.iter().map(|(a, b)| (a.to_string(), b.to_string())).collect()
}

fn ctx(
    current: &str,
    sources: Vec<(String, String)>,
    results: Vec<NodeResult>,
    last_output: &str,
    vars: Vec<(String, String)>,
    inbound: Vec<(String, Vec<String>)>,
    origin: Option<&str>,
    choice: Option<&str>,
) -> TemplateContext {
    TemplateContext {
        current_node_id: current.to_string(),
        context_sources: sources,
        results,
        last_output: last_output.to_string(),
        var_map: vars,
        inbound_map: inbound,
        last_branch_origin_id: origin.map(|o| o.to_string()),
        last_branch_choice: choice.map(|c| c.to_string()),
        output_fields: Vec::new(),
        parsed_fields: Vec::new(),
    }
}

#[test]
fn resolves_template_vars() {
    let prompt = "Prev {{previous_output}} Var {{var:name}} {{node:n1.output}}";
    let results = vec![result("n1", "done", false)];
    let vars = pairs(&[("name", "world")]);
    let value = resolve_template_vars(
        prompt,
        &ctx("n2", Vec::new(), results, "last", vars, Vec::new(), None, None),
    );
    assert!(value.contains("last"));
    assert!(value.contains("world"));
    assert!(value.contains("done"));
}

#[test]
fn template_fills_every_kind_of_placeholder() {
    let prompt = "{{var:topic}}|{{plan}}|{{node:plan.output}}|{{context:brief}}|{{previous_output}}|{{branch_origin}}/{{branch_choice}}";
    let results = vec![result("plan", "P", false), result("notes", "N", false)];
    let value = resolve_template_vars(
        prompt,
        &ctx(
            "here",
            pairs(&[("brief", "notes"), ("missing", "nowhere")]),
            results,
            "prev",
            pairs(&[("topic", "rust")]),
            Vec::new(),
            Some("gate"),
            Some("yes"),
        ),
    );
    assert_eq!(value, "rust|P|P|N|prev|gate/yes");
}

#[test]
fn template_leaves_unknown_placeholders_and_blanks_unknown_fields() {
    let prompt = "{{var:unset}} {{node:plan.output.items}} {{context:missing}} {{branch_origin}}.";
    let results = vec![result("plan", "{\"items\": [1]}", false)];
    let value = resolve_template_vars(
        prompt,
        &ctx("here", pairs(&[("missing", "nowhere")]), results, "", Vec::new(), Vec::new(), None, None),
    );
    assert_eq!(value, "{{var:unset}}  {{context:missing}} .");
}

#[test]
fn all_predecessors_joins_outputs_and_marks_preserved_ones() {
    let results = vec![
        result("a", "first", false),
        result("b", "", false),
        result("c", "old", true),
    ];
    let inbound = vec![
        ("other".to_string(), vec!["a".to_string()]),
        ("here".to_string(), vec!["a".to_string(), "b".to_string(), "c".to_string(), "z".to_string()]),
    ];
    let here = ctx("here", Vec::new(), results, "", Vec::new(), inbound, None, None);
    let value = resolve_template_vars("<{{all_predecessors}}>", &here);
    assert_eq!(value, "<first\n---\n[preserved from prior run]\nold>");
    let mut lonely = here;
    lonely.current_node_id = "lonely".to_string();
    let none = resolve_template_vars("<{{all_predecessors}}>", &lonely);
    assert_eq!(none, "<>");
}

#[test]
fn replacement_scans_left_to_right_without_overlap() {
    let s: Vec<char> = "aaaa-aa".chars().collect();
    let pat: Vec<char> = "aa".chars().collect();
    let rep: Vec<char> = "b".chars().collect();
    let out: String = replace_chars(&s, &pat, &rep).into_iter().collect();
    assert_eq!(out, "aaaa-aa".replace("aa", "b"));
    assert_eq!(out, "bb-b");
    assert_eq!(trim_str("  x "), "x");
}

#[test]
fn decide_prompt_binds_inputs_then_asks_for_one_outcome_as_json() {
    let context = ctx(
        "decide",
        Vec::new(),
        vec![result("draft", "text", false)],
        "",
        pairs(&[("tone", "calm"), ("audience", "ops")]),
        Vec::new(),
        None,
        None,
    );
    let prompt = render_decide_prompt(
        "Judge {{draft_text}} for {{var:audience}} in a {{var:tone}} way",
        &context,
        &pairs(&[("draft_text", "the draft"), ("tone", "strict")]),
        &vec!["approve".to_string(), "revise".to_string()],
        Some("\n  - outcome (string, required)".to_string()),
    );
    assert_eq!(
        prompt,
        "Judge the draft for ops in a strict way\n\nChoose exactly one outcome. Emit a single JSON object in this exact shape: {\"outcome\":\"<label>\"}. The outcome value must exactly match one of: \"approve\", \"revise\".\n\nIMPORTANT: You MUST respond with valid JSON only. No markdown, no explanation — just a single JSON object.\n  - outcome (string, required)"
    );
}

#[test]
fn prompts_without_placeholders_come_back_unchanged() {
    let context = ctx(
        "here",
        pairs(&[("brief", "notes")]),
        vec![result("notes", "N", true)],
        "prev",
        pairs(&[("topic", "rust")]),
        vec![("here".to_string(), vec!["notes".to_string()])],
        Some("gate"),
        Some("yes"),
    );
    let prompt = "Summarise the topic { in one line } without {braces}";
    assert_eq!(resolve_template_vars(prompt, &context), prompt);
}

#[test]
fn previews_fill_the_template_from_the_mocked_context() {
    let node = WorkflowNode {
        id: "n2".to_string(),
        name: "Step 2".to_string(),
        kind: NodeKind::Task,
        prompt: "Prev {{previous_output}} Var {{var:name}} {{node:n1.output}} {{context:notes}} {{branch_choice}}".to_string(),
        timeout: None,
        continue_session_from: None,
        loop_max_iterations: None,
        split_failure_policy: SplitFailurePolicy::BestEffortContinue,
    };
    let mock = NodeTestContext {
        variables: pairs(&[("name", "world")]),
        node_outputs: pairs(&[("n1", "done"), ("n9", "nine")]),
        previous_output: "last".to_string(),
        branch_origin: None,
        branch_choice: Some("left".to_string()),
    };
    let sources = pairs(&[("notes", "n9")]);
    assert_eq!(preview_prompt(&node, &sources, &mock, &Vec::new(), false, None), "Prev last Var world done nine left");
    let json = preview_prompt(&node, &sources, &mock, &Vec::new(), true, None);
    assert!(json.starts_with("Prev last Var world done nine left\n\nIMPORTANT: You MUST respond with valid JSON"));
}

#[test]
fn field_paths_read_recorded_values_or_nothing() {
    let results = vec![result("plan", r#"{"tasks":["a","b"]}"#, false)];
    let mut c = ctx("n2", Vec::new(), results, "", Vec::new(), Vec::new(), None, None);
    c.output_fields = vec![("plan".to_string(), "tasks".to_string(), r#"["a","b"]"#.to_string())];
    c.parsed_fields = vec![("plan".to_string(), "x".to_string(), "5".to_string())];
    assert_eq!(resolve_template_vars("{{node:plan.output.tasks}}", &c), r#"["a","b"]"#);
    assert_eq!(resolve_template_vars("{{node:plan.parsedOutput.x}}", &c), "5");
    assert_eq!(resolve_template_vars("{{node:ghost.output.k}}", &c), "");
    assert_eq!(resolve_template_vars("{{plan}}", &c), r#"{"tasks":["a","b"]}"#);
    assert_eq!(
        resolve_template_vars("a {{node:plan.output.tasks}} b {{node:plan.output}} c {{node:x.output.}}", &c),
        r#"a ["a","b"] b {"tasks":["a","b"]} c {{node:x.output.}}"#
    );
}

fn strings(items: &[&str]) -> Vec<serde_json::Value> {
    items.iter().map(|s| serde_json::Value::String(s.to_string())).collect()
}

fn parsed(items: Vec<String>) -> Vec<serde_json::Value> {
    items.iter().map(|t| serde_json::from_str::<serde_json::Value>(t).unwrap()).collect()
}

#[test]
fn read_batch_items_resolves_node_output_path_parsed_output_path_and_var_binding() {
    let mut plan = result("plan", r#"{"tasks":["from-output-a","from-output-b"]}"#, false);
    plan.parsed_output = Some(r#"{"tasks":["from-parsed-a","from-parsed-b"]}"#.to_string());
    let results = vec![plan];
    let vars = pairs(&[("items", r#"["from-var-a","from-var-b"]"#)]);
    let ctx = BindingContext {
        last_output: String::new(),
        last_branch_origin_id: None,
        last_branch_choice: None,
        fields: pairs(&[
            ("node:plan.output.tasks", r#"["from-output-a","from-output-b"]"#),
            ("node:plan.parsedOutput.tasks", r#"["from-parsed-a","from-parsed-b"]"#),
        ]),
    };
    assert_eq!(
        parsed(read_batch_items("node:plan.output.tasks", &results, &vars, &ctx).unwrap()),
        strings(&["from-output-a", "from-output-b"])
    );
    assert_eq!(
        parsed(read_batch_items("node:plan.parsedOutput.tasks", &results, &vars, &ctx).unwrap()),
        strings(&["from-parsed-a", "from-parsed-b"])
    );
    assert_eq!(
        parsed(read_batch_items("var:items", &results, &vars, &ctx).unwrap()),
        strings(&["from-var-a", "from-var-b"])
    );
}

#[test]
fn batch_items_report_unset_and_non_array_bindings() {
    let mut list = result("list", "ignored", false);
    list.parsed_output = Some("[1, 2]".to_string());
    let mut obj = result("obj", "{}", false);
    obj.parsed_output = Some(r#"{"a":1}"#.to_string());
    let results = vec![list, obj, result("text", r#""[3]""#, false)];
    let vars = pairs(&[("quoted", r#""[4, 5]""#)]);
    let ctx = BindingContext {
        last_output: "[7]".to_string(),
        last_branch_origin_id: None,
        last_branch_choice: Some("x".to_string()),
        fields: pairs(&[("node:obj.parsedOutput.s", r#""[8,9]""#)]),
    };
    assert_eq!(read_batch_items("  list ", &results, &vars, &ctx), Ok(vec!["1".to_string(), "2".to_string()]));
    assert_eq!(read_batch_items("previous_output", &results, &vars, &ctx), Ok(vec!["7".to_string()]));
    assert_eq!(
        read_batch_items("node:obj.parsedOutput.s", &results, &vars, &ctx),
        Ok(vec!["8".to_string(), "9".to_string()])
    );
    assert_eq!(read_batch_items("missing", &results, &vars, &ctx), Err(BatchItemsError::NotSet));
    assert_eq!(read_batch_items("node:obj.parsedOutput.zz", &results, &vars, &ctx), Err(BatchItemsError::NotSet));
    assert_eq!(read_batch_items("obj", &results, &vars, &ctx), Err(BatchItemsError::NotAnArray));
    assert_eq!(read_batch_items("node:obj.parsedOutput", &results, &vars, &ctx), Err(BatchItemsError::NotAnArray));
    assert_eq!(read_batch_items("branch_choice", &results, &vars, &ctx), Err(BatchItemsError::NotAnArray));
    assert_eq!(read_batch_items("quoted", &results, &vars, &ctx), Err(BatchItemsError::NotAnArray));

    assert_eq!(
        resolve_input_binding_value("node:text.output", &results, &vars, &ctx),
        Some(BindingValue::Text(r#""[3]""#.to_string()))
    );
    assert_eq!(
        resolve_input_binding_value("node:list.parsedOutput", &results, &vars, &ctx),
        Some(BindingValue::Json("[1, 2]".to_string()))
    );
    assert_eq!(
        resolve_input_binding_value("branch_origin", &results, &vars, &ctx),
        Some(BindingValue::Text(String::new()))
    );
}
