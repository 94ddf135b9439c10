use silverbond::reaper::{
    group_terminal_sessions, runs_needing_invocation, split_by_liveness, ReapGroup, ReapableSession,
    SessionRuns, TmuxInvocation,
};
use silverbond::results::NodeResult;
use silverbond::task::{
    accepted_refinement, parse_structured_output, resume_session_id, retry_delay, should_refine,
    stale_predecessor_count, wrap_prompt_for_json, StructuredOutput,
};

fn invocation(prefix: &[&str], socket: Option<&str>, bin: &str) -> TmuxInvocation {
    TmuxInvocation {
        prefix: prefix.iter().map(|p| p.to_string()).collect(),
        socket: socket.map(|s| s.to_string()),
        tmux_bin: bin.to_string(),
    }
}

fn reapable(run_id: &str, session: &str, inv: Option<TmuxInvocation>) -> ReapableSession {
    ReapableSession {
        run_id: run_id.to_string(),
        session_name: session.to_string(),
        tmux_invocation: inv,
    }
}

fn strings(items: &[&str]) -> Vec<String> {
    items.iter().map(|s| s.to_string()).collect()
}

fn group_summary(groups: &[ReapGroup]) -> Vec<(Vec<String>, Option<String>, String, Vec<(String, Vec<String>)>)> {
    groups
        .iter()
        .map(|g| {
            (
                g.invocation.prefix.clone(),
                g.invocation.socket.clone(),
                g.invocation.tmux_bin.clone(),
                g.sessions
                    .iter()
                    .map(|s| (s.session_name.clone(), s.run_ids.clone()))
                    .collect(),
            )
        })
        .collect()
}

fn json(text: &str) -> serde_json::Value {
    serde_json::from_str(text).unwrap()
}

fn output(text: &str) -> StructuredOutput {
    StructuredOutput {
        output: text.to_string(),
        raw_output: None,
        parsed_output: None,
        parse_error: None,
    }
}

#[test]
fn reaper_lists_a_shared_invocation_once() {
    let inv = invocation(&["sudo", "-u", "agent"], Some("stale-run-socket"), "tmux");
    let sessions = vec![
        reapable("run_first", "silverbond-Stale-First", Some(inv.duplicate())),
        reapable("run_second", "silverbond-Stale-Second", Some(inv.duplicate())),
    ];
    let groups = group_terminal_sessions(&sessions, &Vec::new(), &Vec::new());
    assert_eq!(
        group_summary(&groups),
        vec![(
            strings(&["sudo", "-u", "agent"]),
            Some("stale-run-socket".to_string()),
            "tmux".to_string(),
            vec![
                ("silverbond-Stale-First".to_string(), strings(&["run_first"])),
                ("silverbond-Stale-Second".to_string(), strings(&["run_second"])),
            ],
        )]
    );
}

#[test]
fn reaper_keeps_distinct_invocations_apart() {
    let sessions = vec![
        reapable("run_a", "s1", Some(invocation(&[], Some("a"), "tmux"))),
        reapable("run_b", "s2", Some(invocation(&[], Some("b"), "tmux"))),
        reapable("run_c", "s3", Some(invocation(&[], Some("a"), "/usr/bin/tmux"))),
    ];
    let groups = group_terminal_sessions(&sessions, &Vec::new(), &Vec::new());
    assert_eq!(groups.len(), 3);
    assert_eq!(groups[0].invocation.socket.as_deref(), Some("a"));
    assert_eq!(groups[1].invocation.socket.as_deref(), Some("b"));
    assert_eq!(groups[2].invocation.tmux_bin, "/usr/bin/tmux");
}

#[test]
fn reaper_leaves_sessions_of_active_runs_alone() {
    let inv = invocation(&[], None, "tmux");
    let sessions = vec![
        reapable("terminal-run", "silverbond-shared", Some(inv.duplicate())),
        reapable("live-run", "silverbond-live", Some(inv.duplicate())),
    ];
    let groups = group_terminal_sessions(&sessions, &strings(&["live-run"]), &Vec::new());
    assert_eq!(groups.len(), 1);
    assert_eq!(groups[0].sessions.len(), 1);
    assert_eq!(groups[0].sessions[0].session_name, "silverbond-shared");
    assert_eq!(groups[0].sessions[0].run_ids, strings(&["terminal-run"]));
}

#[test]
fn reaper_merges_runs_that_registered_one_session_in_order() {
    let inv = invocation(&[], None, "tmux");
    let sessions = vec![
        reapable("run_z", "shared", Some(inv.duplicate())),
        reapable("run_a", "shared", Some(inv.duplicate())),
        reapable("run_z", "shared", Some(inv.duplicate())),
    ];
    let groups = group_terminal_sessions(&sessions, &Vec::new(), &Vec::new());
    assert_eq!(groups.len(), 1);
    assert_eq!(groups[0].sessions.len(), 1);
    assert_eq!(groups[0].sessions[0].run_ids, strings(&["run_a", "run_z"]));
}

#[test]
fn reaper_uses_rebuilt_invocations_for_legacy_registrations() {
    let rebuilt = invocation(&[], Some("silverbond-legacy"), "tmux");
    let sessions = vec![
        reapable("legacy-run", "legacy-session", None),
        reapable("missing-run", "orphan-session", None),
    ];
    let resolved = vec![("legacy-run".to_string(), rebuilt.duplicate())];
    let groups = group_terminal_sessions(&sessions, &Vec::new(), &resolved);
    assert_eq!(
        group_summary(&groups),
        vec![(
            Vec::new(),
            Some("silverbond-legacy".to_string()),
            "tmux".to_string(),
            vec![("legacy-session".to_string(), strings(&["legacy-run"]))],
        )]
    );
}

#[test]
fn runs_needing_invocation_lists_each_legacy_run_once() {
    let inv = invocation(&[], None, "tmux");
    let sessions = vec![
        reapable("legacy", "a", None),
        reapable("modern", "b", Some(inv)),
        reapable("legacy", "c", None),
        reapable("active-legacy", "d", None),
        reapable("other-legacy", "e", None),
    ];
    let runs = runs_needing_invocation(&sessions, &strings(&["active-legacy"]));
    assert_eq!(runs, strings(&["legacy", "other-legacy"]));
}

#[test]
fn split_by_liveness_separates_absent_from_listed_sessions() {
    let sessions = vec![
        SessionRuns { session_name: "gone".to_string(), run_ids: strings(&["r1"]) },
        SessionRuns { session_name: "alive".to_string(), run_ids: strings(&["r2", "r3"]) },
        SessionRuns { session_name: "also-gone".to_string(), run_ids: strings(&["r4"]) },
    ];
    let (absent, listed) = split_by_liveness(&sessions, &strings(&["alive", "unrelated"]));
    let names = |v: &Vec<SessionRuns>| v.iter().map(|s| s.session_name.clone()).collect::<Vec<_>>();
    assert_eq!(names(&absent), strings(&["gone", "also-gone"]));
    assert_eq!(names(&listed), strings(&["alive"]));
    assert_eq!(listed[0].run_ids, strings(&["r2", "r3"]));
}

#[test]
fn tmux_invocations_compare_prefix_socket_and_binary() {
    let base = invocation(&["sudo"], Some("s"), "tmux");
    assert!(base.same_as(&invocation(&["sudo"], Some("s"), "tmux")));
    assert!(!base.same_as(&invocation(&["sudo", "-u"], Some("s"), "tmux")));
    assert!(!base.same_as(&invocation(&["sudo"], None, "tmux")));
    assert!(!base.same_as(&invocation(&["sudo"], Some("s"), "tmux3")));
}

#[test]
fn parse_structured_output_uses_existing_parsed_output() {
    let mut result = output("raw text not json");
    result.raw_output = Some("original raw".to_string());
    result.parsed_output = Some(r#"{"name": "Alice"}"#.to_string());

    parse_structured_output(true, &mut result);
    assert_eq!(result.parsed_output.as_deref().map(json), Some(json(r#"{"name": "Alice"}"#)));
    assert!(result.parse_error.is_none());
}

#[test]
fn parse_structured_output_falls_back_to_text_parsing() {
    let mut result = output(r#"{"name": "Bob"}"#);

    parse_structured_output(true, &mut result);
    assert_eq!(result.parsed_output.as_deref().map(json), Some(json(r#"{"name": "Bob"}"#)));
}

#[test]
fn parse_structured_output_reads_a_fenced_reply() {
    let mut result = output("  ```json\n{\"items\": [1, 2]}\n```  ");
    parse_structured_output(true, &mut result);
    assert_eq!(result.parsed_output.as_deref(), Some(r#"{"items":[1,2]}"#));
    assert_eq!(result.raw_output.as_deref(), Some("  ```json\n{\"items\": [1, 2]}\n```  "));
}

#[test]
fn parse_structured_output_records_the_parse_error() {
    let mut result = output("not json at all");
    parse_structured_output(true, &mut result);
    assert!(result.parsed_output.is_none());
    let message = result.parse_error.expect("a parse error");
    assert!(!message.is_empty());
}

#[test]
fn parse_structured_output_keeps_text_replies_as_text() {
    let mut result = output(r#"{"name": "Bob"}"#);
    parse_structured_output(false, &mut result);
    assert!(result.parsed_output.is_none());
    assert!(result.parse_error.is_none());
    assert_eq!(result.raw_output.as_deref(), Some(r#"{"name": "Bob"}"#));
}

#[test]
fn orchestrator_refines_only_with_a_previous_output() {
    assert!(should_refine(true, "previous"));
    assert!(!should_refine(true, ""));
    assert!(!should_refine(false, "previous"));
}

#[test]
fn failed_or_empty_refinement_keeps_the_resolved_prompt() {
    assert_eq!(accepted_refinement(true, "refined".to_string()), Some("refined".to_string()));
    assert_eq!(accepted_refinement(true, String::new()), None);
    assert_eq!(accepted_refinement(false, "ignored".to_string()), None);
}

#[test]
fn retries_wait_the_configured_delay_until_attempts_run_out() {
    assert_eq!(retry_delay(false, 1, 3, None), Some(2));
    assert_eq!(retry_delay(false, 2, 3, Some(7)), Some(7));
    assert_eq!(retry_delay(false, 3, 3, Some(7)), None);
    assert_eq!(retry_delay(true, 1, 3, None), None);
}

fn stored(node_id: &str, stale: bool) -> NodeResult {
    NodeResult {
        node_id: node_id.to_string(),
        output: "out".to_string(),
        stale,
        preserved_from_run_id: None,
        agent_session_id: None,
        parsed_output: None,
    }
}

#[test]
fn stale_predecessors_count_preserved_results_only() {
    let results = vec![stored("a", true), stored("b", false), stored("c", true)];
    assert_eq!(stale_predecessor_count(&strings(&["a", "b", "c", "missing"]), &results), 2);
    assert_eq!(stale_predecessor_count(&strings(&["b"]), &results), 0);
}

#[test]
fn resumed_session_comes_from_the_continued_node() {
    let results = vec![
        NodeResult {
            node_id: "writer".to_string(),
            output: String::new(),
            stale: false,
            preserved_from_run_id: None,
            agent_session_id: Some("sess-1".to_string()),
            parsed_output: None,
        },
        NodeResult {
            node_id: "editor".to_string(),
            output: String::new(),
            stale: false,
            preserved_from_run_id: None,
            agent_session_id: None,
            parsed_output: None,
        },
    ];
    assert_eq!(resume_session_id(&Some("writer".to_string()), &results), Some("sess-1".to_string()));
    assert_eq!(resume_session_id(&Some("editor".to_string()), &results), None);
    assert_eq!(resume_session_id(&Some("absent".to_string()), &results), None);
    assert_eq!(resume_session_id(&None, &results), None);
}

#[test]
fn wrap_prompt_injects_when_no_schema_configured() {
    let prompt = "Do something".to_string();
    let result = wrap_prompt_for_json(true, prompt.clone(), &None, None);
    assert!(result.contains("MUST respond with valid JSON"));
}

#[test]
fn wrap_prompt_noop_for_text_format() {
    let prompt = "Do something".to_string();
    let result = wrap_prompt_for_json(false, prompt.clone(), &None, None);
    assert_eq!(result, prompt);
}

#[test]
fn wrap_prompt_appends_the_schema_description_unless_the_agent_enforces_it() {
    let hint = Some("\n  - name (string, required)".to_string());
    let wrapped = wrap_prompt_for_json(true, "Do".to_string(), &None, hint.clone());
    assert_eq!(
        wrapped,
        "Do\n\nIMPORTANT: You MUST respond with valid JSON only. No markdown, no explanation — just a single JSON object.\n  - name (string, required)"
    );
    let native = Some(json(r#"{"type": "object"}"#));
    assert_eq!(wrap_prompt_for_json(true, "Do".to_string(), &native, hint), "Do");
    let empty_hint = wrap_prompt_for_json(true, "Do".to_string(), &None, Some(String::new()));
    assert!(empty_hint.ends_with("single JSON object."));
}
