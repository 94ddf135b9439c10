use silverbond::session::{Role, SessionBook, SessionError, SessionState};

#[test]
fn session_book_starts_empty() {
    let book = SessionBook::new();
    assert!(book.list_sessions().is_empty());
}

#[test]
fn sessions_are_listed_until_closed() {
    let mut book = SessionBook::new();
    let id = book.create_session("test".to_string());
    assert_eq!(id.len(), 36);
    assert!(book.contains(&id));
    let sessions = book.list_sessions();
    assert_eq!(sessions.len(), 1);
    assert_eq!(sessions[0].agent_name, "test");
    assert_eq!(sessions[0].state, SessionState::Idle);
    assert_eq!(sessions[0].entry_count, 0);
    assert_eq!(sessions[0].created_at, sessions[0].last_activity);
    book.close_session(&id);
    assert!(book.list_sessions().is_empty());
    assert!(!book.contains(&id));
}

#[test]
fn a_prompt_and_its_answer_extend_the_history() {
    let mut book = SessionBook::new();
    book.open_session("s1".to_string(), "codex".to_string(), "2024-01-01T00:00:00Z".to_string());
    assert_eq!(book.begin_prompt("s1", "hello".to_string(), "2024-01-01T00:00:01Z".to_string()), Ok(()));
    assert_eq!(book.list_sessions()[0].state, SessionState::Processing);
    let answer = book.finish_prompt("s1", "\n  hi there \r\n", "2024-01-01T00:00:02Z".to_string());
    assert_eq!(answer, "hi there");
    let history = book.get_history("s1").unwrap();
    assert_eq!(history.len(), 2);
    assert_eq!(history[0].role, Role::User);
    assert_eq!(history[0].content, "hello");
    assert_eq!(history[0].timestamp, "2024-01-01T00:00:01Z");
    assert_eq!(history[1].role, Role::Agent);
    assert_eq!(history[1].content, "hi there");
    let summary = &book.list_sessions()[0];
    assert_eq!(summary.state, SessionState::Idle);
    assert_eq!(summary.entry_count, 2);
    assert_eq!(summary.created_at, "2024-01-01T00:00:00Z");
    assert_eq!(summary.last_activity, "2024-01-01T00:00:02Z");

    assert_eq!(book.record_prompt("s1", "again".to_string()), Ok(()));
    assert_eq!(book.record_answer("s1", " done\n"), "done");
    assert_eq!(book.get_history("s1").unwrap().len(), 4);
}

#[test]
fn missing_sessions_are_reported() {
    let mut book = SessionBook::new();
    assert_eq!(book.get_history("missing-session").err(), Some(SessionError::NotFound));
    assert_eq!(book.begin_prompt("missing-session", "x".to_string(), "t".to_string()), Err(SessionError::NotFound));
    book.finish_prompt("missing-session", "x", "t".to_string());
    assert!(book.list_sessions().is_empty());
    assert!(!book.contains("nonexistent-id"));
}

#[test]
fn close_all_forgets_every_session() {
    let mut book = SessionBook::new();
    book.create_session("a".to_string());
    book.create_session("b".to_string());
    assert_eq!(book.list_sessions().len(), 2);
    book.close_all();
    assert!(book.list_sessions().is_empty());
}
