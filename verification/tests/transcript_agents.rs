use pixel_agents::json::Json;
use pixel_agents::transcript::{format_tool_status, is_reading_tool, process_record, process_transcript_line, shown_name};
use pixel_agents::types::{AgentEvent, AgentState, AgentStatus};

fn s(x: &str) -> Json {
    Json::Str(x.to_string())
}

fn obj(pairs: Vec<(&str, Json)>) -> Json {
    Json::Object(pairs.into_iter().map(|(k, v)| (k.to_string(), v)).collect())
}

fn tool_use(id: &str, name: &str, input: Json) -> Json {
    obj(vec![("type", s("tool_use")), ("id", s(id)), ("name", s(name)), ("input", input)])
}

fn assistant(blocks: Vec<Json>) -> Json {
    obj(vec![("type", s("assistant")), ("message", obj(vec![("content", Json::Array(blocks))]))])
}

fn user_results(ids: Vec<&str>) -> Json {
    let blocks = ids
        .into_iter()
        .map(|id| obj(vec![("type", s("tool_result")), ("tool_use_id", s(id))]))
        .collect();
    obj(vec![("type", s("user")), ("message", obj(vec![("content", Json::Array(blocks))]))])
}

fn agent() -> AgentState {
    AgentState::new(7, "/p".to_string(), "/p/a.jsonl".to_string(), Some("proj".to_string()))
}

#[test]
fn status_of_file_tools_names_the_file() {
    let input = obj(vec![("file_path", s("/home/me/src/main.rs"))]);
    assert_eq!(format_tool_status("Read", &input), "Reading main.rs");
    assert_eq!(format_tool_status("Edit", &input), "Editing main.rs");
    assert_eq!(format_tool_status("Write", &input), "Writing main.rs");
    assert_eq!(format_tool_status("Read", &obj(vec![])), "Reading ");
}

#[test]
fn status_of_other_tools() {
    let none = obj(vec![]);
    assert_eq!(format_tool_status("Glob", &none), "Searching files");
    assert_eq!(format_tool_status("Grep", &none), "Searching code");
    assert_eq!(format_tool_status("WebFetch", &none), "Fetching web content");
    assert_eq!(format_tool_status("WebSearch", &none), "Searching the web");
    assert_eq!(format_tool_status("AskUserQuestion", &none), "Waiting for your answer");
    assert_eq!(format_tool_status("EnterPlanMode", &none), "Planning");
    assert_eq!(format_tool_status("NotebookEdit", &none), "Editing notebook");
    assert_eq!(format_tool_status("Frobnicate", &none), "Using Frobnicate");
}

#[test]
fn bash_status_is_cut_at_thirty_bytes() {
    let short = obj(vec![("command", s("cargo build"))]);
    assert_eq!(format_tool_status("Bash", &short), "Running: cargo build");
    let long = obj(vec![("command", s("cargo test --workspace --all-features -- --nocapture"))]);
    assert_eq!(format_tool_status("Bash", &long), "Running: cargo test --workspace --all-f\u{2026}");
}

#[test]
fn task_status_shows_the_description() {
    assert_eq!(format_tool_status("Task", &obj(vec![])), "Running subtask");
    assert_eq!(format_tool_status("Agent", &obj(vec![("description", s("find bugs"))])), "Subtask: find bugs");
    let long = "a description that is certainly longer than forty bytes";
    assert_eq!(
        format_tool_status("Task", &obj(vec![("description", s(long))])),
        format!("Subtask: {}\u{2026}", &long[..40])
    );
}

#[test]
fn a_cut_inside_a_character_moves_back_to_its_start() {
    // 29 ASCII bytes, then a two-byte character across byte 30
    let cmd = format!("{}é tail", "x".repeat(29));
    let input = obj(vec![("command", s(&cmd))]);
    assert_eq!(format_tool_status("Bash", &input), format!("Running: {}\u{2026}", "x".repeat(29)));
    // a four-byte character across byte 40 of a description
    let desc = format!("{}🦀 and more", "d".repeat(38));
    let input = obj(vec![("description", s(&desc))]);
    assert_eq!(format_tool_status("Task", &input), format!("Subtask: {}\u{2026}", "d".repeat(38)));
    // such a call still starts a tool
    let mut a = agent();
    let rec = assistant(vec![tool_use("t1", "Bash", obj(vec![("command", s(&cmd))]))]);
    let events = process_record(&rec, &mut a);
    assert_eq!(events.len(), 2);
    assert_eq!(a.last_status_text, format!("Running: {}\u{2026}", "x".repeat(29)));
}

#[test]
fn reading_tools() {
    for t in ["Read", "Grep", "Glob", "WebFetch", "WebSearch"] {
        assert!(is_reading_tool(t));
    }
    assert!(!is_reading_tool("Bash"));
    assert!(!is_reading_tool("Edit"));
}

#[test]
fn tool_use_makes_the_agent_active() {
    let mut a = agent();
    let rec = assistant(vec![
        obj(vec![("type", s("text")), ("text", s("ok"))]),
        tool_use("t1", "Read", obj(vec![("file_path", s("/x/lib.rs"))])),
        tool_use("t2", "Bash", obj(vec![("command", s("ls"))])),
    ]);
    let ev = process_record(&rec, &mut a);
    assert_eq!(a.status, AgentStatus::Active);
    assert!(a.had_tools_in_turn);
    assert!(!a.is_waiting);
    assert_eq!(a.active_tools.len(), 2);
    assert_eq!(a.last_status_text, "Running: ls");
    assert_eq!(ev.len(), 3);
    assert!(matches!(ev[0], AgentEvent::StatusChange { agent_id: 7, status: AgentStatus::Active }));
    match &ev[1] {
        AgentEvent::ToolStart { agent_id, tool_id, tool_name, status } => {
            assert_eq!(*agent_id, 7);
            assert_eq!(tool_id, "t1");
            assert_eq!(tool_name, "Read");
            assert_eq!(status, "Reading lib.rs");
        },
        other => panic!("unexpected {:?}", other),
    }
    assert_eq!(a.current_status_text(), "Reading lib.rs");
}

#[test]
fn tool_runs_until_its_result() {
    let mut a = agent();
    process_record(&assistant(vec![tool_use("t1", "Grep", obj(vec![]))]), &mut a);
    assert!(a.active_tools.iter().any(|t| t.id == "t1"));
    let ev = process_record(&user_results(vec!["t1"]), &mut a);
    assert!(a.active_tools.is_empty());
    assert!(!a.had_tools_in_turn);
    assert_eq!(ev.len(), 1);
    assert!(matches!(&ev[0], AgentEvent::ToolDone { agent_id: 7, tool_id } if tool_id == "t1"));
    // still active between tool calls: the last status is shown
    assert_eq!(a.status, AgentStatus::Active);
    assert_eq!(a.current_status_text(), "Searching code");
}

#[test]
fn a_new_prompt_clears_the_turn() {
    let mut a = agent();
    process_record(&assistant(vec![tool_use("t1", "Grep", obj(vec![]))]), &mut a);
    let prompt = obj(vec![("type", s("user")), ("message", obj(vec![("content", s("do more"))]))]);
    let ev = process_record(&prompt, &mut a);
    assert!(a.active_tools.is_empty());
    assert_eq!(a.status, AgentStatus::Idle);
    assert_eq!(a.last_status_text, "");
    assert_eq!(ev.len(), 1);
    assert!(matches!(ev[0], AgentEvent::ClearActivity { agent_id: 7 }));
    assert_eq!(a.current_status_text(), "Idle");
}

#[test]
fn end_of_turn_makes_the_agent_wait() {
    let mut a = agent();
    process_record(&assistant(vec![tool_use("t1", "Grep", obj(vec![]))]), &mut a);
    let done = obj(vec![("type", s("system")), ("subtype", s("turn_duration"))]);
    let ev = process_record(&done, &mut a);
    assert!(a.is_waiting);
    assert!(a.active_tools.is_empty());
    assert_eq!(a.status, AgentStatus::Idle);
    assert!(matches!(ev[0], AgentEvent::StatusChange { agent_id: 7, status: AgentStatus::Idle }));
    let other = obj(vec![("type", s("system")), ("subtype", s("other"))]);
    assert!(process_record(&other, &mut a).is_empty());
    assert!(process_record(&Json::Null, &mut a).is_empty());
}

#[test]
fn status_text_by_state() {
    let mut a = agent();
    assert_eq!(a.current_status_text(), "Idle");
    a.status = AgentStatus::Active;
    assert_eq!(a.current_status_text(), "Thinking...");
    a.last_status_text = "Reading x".to_string();
    assert_eq!(a.current_status_text(), "Reading x");
    a.status = AgentStatus::WaitingPermission;
    assert_eq!(a.current_status_text(), "Waiting for permission");
}

#[test]
fn new_agents_start_fresh() {
    let a = agent();
    assert_eq!(a.id, 7);
    assert_eq!(a.file_offset, 0);
    assert_eq!(a.status, AgentStatus::Idle);
    assert!(!a.is_subagent && a.parent_id.is_none());
    let s = AgentState::new_subagent(8, "/p".into(), "/p/s/subagents/x.jsonl".into(), Some("proj".into()), 7);
    assert!(s.is_subagent);
    assert_eq!(s.parent_id, Some(7));
    let m = AgentState::new_team_member(
        9,
        "/p".into(),
        "/p/m.jsonl".into(),
        None,
        "team".into(),
        "alice".into(),
        Some("blue".into()),
        false,
        Some(7),
    );
    assert!(m.is_subagent);
    assert_eq!(m.member_name.as_deref(), Some("alice"));
    assert_eq!(m.team_name.as_deref(), Some("team"));
    assert_eq!(m.color.as_deref(), Some("blue"));
    let lead = AgentState::new_team_member(10, "/p".into(), "/p/l.jsonl".into(), None, "team".into(), String::new(), None, true, None);
    assert!(!lead.is_subagent);
    assert!(lead.is_lead);
}

#[test]
fn clear_activity_keeps_the_identity() {
    let mut a = agent();
    process_record(&assistant(vec![tool_use("t1", "Grep", obj(vec![]))]), &mut a);
    a.clear_activity();
    assert!(a.active_tools.is_empty());
    assert_eq!(a.status, AgentStatus::Idle);
    assert!(a.had_tools_in_turn);
    assert_eq!(a.jsonl_file, "/p/a.jsonl");
    assert_eq!(a.current_status_text(), "Idle");
}

#[test]
fn json_members() {
    let v = obj(vec![("a", s("x")), ("a", s("y")), ("n", Json::Number(Some(3)))]);
    assert_eq!(v.str_member("a"), Some("x"));
    assert!(v.get("b").is_none());
    assert!(v.str_member("n").is_none());
    assert!(s("x").get("a").is_none());
    assert!(Json::Array(vec![]).as_array().is_some());
}

#[test]
fn raw_lines_are_parsed_before_they_are_processed() {
    let mut a = agent();
    let line = r#"{"type":"assistant","message":{"content":[{"type":"tool_use","id":"t1","name":"Read","input":{"file_path":"/x/lib.rs"}}]}}"#;
    let events = process_transcript_line(line, &mut a);
    assert_eq!(events.len(), 2);
    assert_eq!(a.status, AgentStatus::Active);
    assert_eq!(a.last_status_text, "Reading lib.rs");
    let done = r#"{"type":"user","message":{"content":[{"type":"tool_result","tool_use_id":"t1"}]}}"#;
    let events = process_transcript_line(done, &mut a);
    assert!(matches!(events[0], AgentEvent::ToolDone { agent_id: 7, .. }));
    // a line that is not JSON changes nothing
    let before_status = a.status;
    let before_text = a.last_status_text.clone();
    assert!(process_transcript_line("{not json", &mut a).is_empty());
    assert!(process_transcript_line("", &mut a).is_empty());
    assert_eq!(a.status, before_status);
    assert_eq!(a.last_status_text, before_text);
}

#[test]
fn a_path_without_a_file_name_is_shown_whole() {
    assert_eq!(shown_name("/a/b.rs", Some("b.rs".to_string())), "b.rs");
    assert_eq!(shown_name("/", None), "/");
    assert_eq!(format_tool_status("Read", &obj(vec![("file_path", s("/"))])), "Reading /");
    assert_eq!(format_tool_status("Edit", &obj(vec![("file_path", s("dir/.."))])), "Editing dir/..");
}
