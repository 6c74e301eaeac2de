use std::collections::{HashMap, HashSet};

use pixel_agents::json::Json;
use pixel_agents::types::{AgentEvent, AgentState, AgentStatus};
use pixel_agents::watcher::{
    decode_project_name, is_recent_file, meta_agent_type_text, parse_team_config_text, is_recent_team, meta_agent_type, parse_team_config, receive_chunk,
    sanitize_path, scan_fits, scan_for_agents, select_teams, settle_if_stale, FileSet, FileStamp, ProjectDir,
    ProjectEntry, ScanInput, SubagentEntry, TeamConfig, TeamMember,
};

const SEC: u128 = 1_000_000_000;
const NOW: u128 = 1_700_000_000 * SEC;

fn s(x: &str) -> Json {
    Json::Str(x.to_string())
}

fn obj(pairs: Vec<(&str, Json)>) -> Json {
    Json::Object(pairs.into_iter().map(|(k, v)| (k.to_string(), v)).collect())
}

fn stamp(dir: &str, name: &str, modified: Option<u128>) -> FileStamp {
    FileStamp { path: format!("{dir}/{name}"), name: name.to_string(), modified }
}

fn file(dir: &str, name: &str, modified: Option<u128>) -> ProjectEntry {
    ProjectEntry { file: stamp(dir, name, modified), is_dir: false, subagents: Vec::new() }
}

fn session(dir: &str, name: &str, subs: Vec<SubagentEntry>) -> ProjectEntry {
    ProjectEntry { file: stamp(dir, name, Some(NOW)), is_dir: true, subagents: subs }
}

fn sub(dir: &str, session: &str, name: &str, modified: Option<u128>, agent_type: Option<&str>) -> SubagentEntry {
    SubagentEntry {
        file: stamp(&format!("{dir}/{session}/subagents"), name, modified),
        agent_type: agent_type.map(|t| t.to_string()),
    }
}

fn member(name: &str, is_lead: bool, cwd: &str) -> TeamMember {
    TeamMember {
        name: name.to_string(),
        color: if is_lead { Some("gold".to_string()) } else { None },
        cwd: cwd.to_string(),
        is_lead,
        backend_type: None,
        prompt: None,
    }
}

const ROOT: &str = "/h/.p";
const APP: &str = "/h/.p/-Users-me-app";

fn root_dir() -> ProjectDir {
    ProjectDir { path: ROOT.to_string(), name: ".p".to_string(), folder_name: ".p".to_string(), entries: Vec::new() }
}

fn status_ids(events: &[AgentEvent]) -> Vec<u32> {
    events
        .iter()
        .filter_map(|e| match e {
            AgentEvent::StatusChange { agent_id, status: AgentStatus::Idle } => Some(*agent_id),
            _ => None,
        })
        .collect()
}

#[test]
fn paths_are_sanitized_like_project_directories() {
    assert_eq!(sanitize_path("/Users/me/my app.v2"), "-Users-me-my-app-v2");
    assert_eq!(sanitize_path("été/x"), "été-x");
    assert_eq!(sanitize_path(""), "");
}

#[test]
fn project_names_are_decoded_from_existing_paths() {
    let existing: HashSet<&str> = ["/", "/Users", "/Users/me", "/Users/me/my-app"].into_iter().collect();
    let exists = |p: &str| existing.contains(p);
    assert_eq!(decode_project_name("-Users-me-my-app", exists), "my-app");
    assert_eq!(decode_project_name("-Users-me-no-such", exists), "no-such");
    assert_eq!(decode_project_name("Users-me", exists), "me");
    assert_eq!(decode_project_name("", exists), "");
}

#[test]
fn team_configs_are_parsed() {
    let cfg = obj(vec![
        ("name", s("crew")),
        ("leadSessionId", s("S")),
        ("leadAgentId", s("L")),
        ("createdAt", Json::Number(Some(1234))),
        (
            "members",
            Json::Array(vec![
                obj(vec![("agentId", s("L")), ("name", s("lead")), ("cwd", s("/Users/me/app")), ("color", s("red"))]),
                obj(vec![("agentId", s("B")), ("name", s("bob")), ("prompt", s("help"))]),
                Json::Null,
            ]),
        ),
    ]);
    let t = parse_team_config(&cfg).unwrap();
    assert_eq!(t.name, "crew");
    assert_eq!(t.description, "");
    assert_eq!(t.lead_session_id, "S");
    assert_eq!(t.created_at, 1234);
    assert_eq!(t.members.len(), 3);
    assert!(t.members[0].is_lead);
    assert_eq!(t.members[0].cwd, "/Users/me/app");
    assert_eq!(t.members[0].color.as_deref(), Some("red"));
    assert!(!t.members[1].is_lead);
    assert_eq!(t.members[1].prompt.as_deref(), Some("help"));
    assert_eq!(t.members[2].name, "");
    assert!(parse_team_config(&obj(vec![("name", s("x"))])).is_none());
    assert!(parse_team_config(&obj(vec![("members", Json::Array(vec![]))])).is_none());
    assert_eq!(meta_agent_type(&obj(vec![("agentType", s("bob"))])).as_deref(), Some("bob"));
    assert!(meta_agent_type(&obj(vec![])).is_none());
}

#[test]
fn recent_means_under_two_hours() {
    assert!(is_recent_file(Some(NOW - 7199 * SEC), NOW));
    assert!(!is_recent_file(Some(NOW - 7200 * SEC), NOW));
    assert!(!is_recent_file(Some(NOW + SEC), NOW));
    assert!(!is_recent_file(None, NOW));
    let team = |created: u64| TeamConfig {
        name: "t".into(),
        description: String::new(),
        lead_session_id: "S".into(),
        created_at: created,
        members: Vec::new(),
    };
    let now_ms = (NOW / 1_000_000) as u64;
    assert!(is_recent_team(&team(now_ms - 7_199_999), NOW));
    assert!(!is_recent_team(&team(now_ms - 7_200_000), NOW));
    assert!(is_recent_team(&team(now_ms + 5), NOW));
}

#[test]
fn teams_are_taken_newest_first_once_per_session() {
    let t = |name: &str, sid: &str, at: u64| TeamConfig {
        name: name.into(),
        description: String::new(),
        lead_session_id: sid.into(),
        created_at: at,
        members: Vec::new(),
    };
    let teams = vec![t("a", "S1", 5), t("b", "S2", 9), t("c", "S1", 7), t("d", "", 99), t("e", "S3", 9)];
    assert_eq!(select_teams(&teams), vec![1, 4, 2]);
}

fn project_input() -> ScanInput {
    let entries = vec![
        file(APP, "old.jsonl", Some(NOW - 3 * 3600 * SEC)),
        file(APP, "new.jsonl", Some(NOW - SEC)),
        file(APP, "notes.txt", Some(NOW)),
        session(
            APP,
            "s1",
            vec![
                sub(APP, "s1", "x.jsonl", Some(NOW - 2 * SEC), None),
                sub(APP, "s1", "y.jsonl", Some(NOW - 3 * 3600 * SEC), None),
            ],
        ),
    ];
    ScanInput {
        teams: Vec::new(),
        root: Some(root_dir()),
        projects: vec![ProjectDir {
            path: APP.into(),
            name: "-Users-me-app".into(),
            folder_name: "app".into(),
            entries,
        }],
        now: NOW,
    }
}

#[test]
fn a_project_gives_an_agent_and_its_subagents() {
    let input = project_input();
    let mut known = FileSet::new();
    let mut agents: HashMap<u32, AgentState> = HashMap::new();
    let mut next_id: u32 = 1;
    assert!(scan_fits(&input, next_id));
    let events = scan_for_agents(&input, &mut known, &mut agents, &mut next_id);
    assert_eq!(next_id, 3);
    assert_eq!(status_ids(&events), vec![1, 2]);
    let a = &agents[&1];
    assert_eq!(a.jsonl_file, format!("{APP}/new.jsonl"));
    assert_eq!(a.folder_name.as_deref(), Some("app"));
    assert!(!a.is_subagent);
    let x = &agents[&2];
    assert_eq!(x.jsonl_file, format!("{APP}/s1/subagents/x.jsonl"));
    assert_eq!(x.parent_id, Some(1));
    assert!(x.is_subagent);
    assert!(known.contains(&format!("{APP}/new.jsonl")));
    assert!(!known.contains(&format!("{APP}/s1/subagents/y.jsonl")));

    // a second scan finds nothing new
    let again = scan_for_agents(&input, &mut known, &mut agents, &mut next_id);
    assert!(again.is_empty());
    assert_eq!(next_id, 3);
    assert_eq!(agents.len(), 2);
}

#[test]
fn an_old_transcript_gives_no_agent() {
    let mut input = project_input();
    input.projects[0].entries = vec![file(APP, "old.jsonl", Some(NOW - 3 * 3600 * SEC))];
    let mut known = FileSet::new();
    let mut agents = HashMap::new();
    let mut next_id: u32 = 1;
    let events = scan_for_agents(&input, &mut known, &mut agents, &mut next_id);
    assert!(events.is_empty());
    assert!(agents.is_empty());
    assert!(known.contains(&format!("{APP}/old.jsonl")));
}

#[test]
fn an_old_transcript_that_wakes_up_gets_an_agent() {
    let mut input = project_input();
    input.projects[0].entries = vec![file(APP, "old.jsonl", Some(NOW - 3 * 3600 * SEC))];
    let mut known = FileSet::new();
    let mut agents: HashMap<u32, AgentState> = HashMap::new();
    let mut next_id: u32 = 1;
    assert!(scan_for_agents(&input, &mut known, &mut agents, &mut next_id).is_empty());
    // the session is written to again
    input.projects[0].entries = vec![file(APP, "old.jsonl", Some(NOW - SEC))];
    let events = scan_for_agents(&input, &mut known, &mut agents, &mut next_id);
    assert_eq!(status_ids(&events), vec![1]);
    assert_eq!(agents[&1].jsonl_file, format!("{APP}/old.jsonl"));
    assert_eq!(next_id, 2);
    // and it is not doubled by the next scan
    assert!(scan_for_agents(&input, &mut known, &mut agents, &mut next_id).is_empty());
    // an agent that left is replaced while its transcript stays recent
    agents.remove(&1);
    let events = scan_for_agents(&input, &mut known, &mut agents, &mut next_id);
    assert_eq!(status_ids(&events), vec![2]);
}

fn team_input(bob_newest: &str) -> ScanInput {
    let s = "S";
    let subs = vec![
        sub(APP, s, "a1.meta.json", Some(NOW), Some("bob")),
        sub(APP, s, "a1.jsonl", Some(NOW - 3 * 3600 * SEC), None),
        sub(APP, s, "a2.meta.json", Some(NOW), Some("bob")),
        sub(APP, s, bob_newest, Some(NOW - 10 * SEC), None),
        sub(APP, s, "a9.meta.json", Some(NOW), Some("carl")),
    ];
    let entries = vec![
        file(APP, "S.jsonl", Some(NOW - SEC)),
        file(APP, "solo.jsonl", Some(NOW - 2 * SEC)),
        session(APP, s, subs),
    ];
    ScanInput {
        teams: vec![TeamConfig {
            name: "crew".into(),
            description: String::new(),
            lead_session_id: "S".into(),
            created_at: 0,
            members: vec![member("lead", true, "/Users/me/app"), member("bob", false, ""), member("amy", false, "")],
        }],
        root: Some(root_dir()),
        projects: vec![ProjectDir {
            path: APP.into(),
            name: "-Users-me-app".into(),
            folder_name: "app".into(),
            entries,
        }],
        now: NOW,
    }
}

#[test]
fn a_team_gives_its_lead_and_members() {
    let input = team_input("a2.jsonl");
    let mut known = FileSet::new();
    let mut agents: HashMap<u32, AgentState> = HashMap::new();
    let mut next_id: u32 = 1;
    let events = scan_for_agents(&input, &mut known, &mut agents, &mut next_id);
    // lead, bob, amy, then the standalone session of the project
    assert_eq!(status_ids(&events), vec![1, 2, 3, 4]);
    assert_eq!(next_id, 5);
    let lead = &agents[&1];
    assert_eq!(lead.jsonl_file, format!("{APP}/S.jsonl"));
    assert!(lead.is_lead && !lead.is_subagent);
    assert_eq!(lead.team_name.as_deref(), Some("crew"));
    assert_eq!(lead.member_name.as_deref(), Some(""));
    assert_eq!(lead.color.as_deref(), Some("gold"));
    assert_eq!(lead.folder_name.as_deref(), Some("app"));
    let bob = &agents[&2];
    assert_eq!(bob.jsonl_file, format!("{APP}/S/subagents/a2.jsonl"));
    assert_eq!(bob.parent_id, Some(1));
    assert_eq!(bob.member_name.as_deref(), Some("bob"));
    assert_eq!(bob.folder_name.as_deref(), Some("app"));
    let amy = &agents[&3];
    assert!(amy.jsonl_file.ends_with("__team_placeholder__amy.jsonl"));
    assert!(amy.jsonl_file.starts_with(APP));
    assert_eq!(amy.parent_id, Some(1));
    let solo = &agents[&4];
    assert_eq!(solo.jsonl_file, format!("{APP}/solo.jsonl"));
    assert!(!solo.is_subagent);
}

#[test]
fn a_member_moves_to_a_newer_transcript() {
    let mut known = FileSet::new();
    let mut agents: HashMap<u32, AgentState> = HashMap::new();
    let mut next_id: u32 = 1;
    scan_for_agents(&team_input("a2.jsonl"), &mut known, &mut agents, &mut next_id);
    agents.get_mut(&2).unwrap().file_offset = 99;
    let events = scan_for_agents(&team_input("a3.jsonl"), &mut known, &mut agents, &mut next_id);
    // a2.meta.json now has no transcript beside it; bob's newest is a1
    assert!(events.iter().any(|e| matches!(e, AgentEvent::ClearActivity { agent_id: 2 })));
    let bob = &agents[&2];
    assert_eq!(bob.jsonl_file, format!("{APP}/S/subagents/a1.jsonl"));
    assert_eq!(bob.file_offset, 0);
    // the new transcript is a subagent of the project's standalone session
    assert_eq!(next_id, 6);
    assert_eq!(agents[&5].jsonl_file, format!("{APP}/S/subagents/a3.jsonl"));
    assert_eq!(agents[&5].parent_id, Some(4));
}

#[test]
fn scan_needs_room_for_new_ids() {
    let input = team_input("a2.jsonl");
    assert!(scan_fits(&input, 1));
    assert!(!scan_fits(&input, u32::MAX - 2));
}

#[test]
fn lines_are_put_together_across_reads() {
    let mut a = AgentState::new(1, "/p".into(), "/p/a.jsonl".into(), None);
    let lines = receive_chunk(&mut a, 20, "{\"a\":1}\n   \n{\"b\"");
    assert_eq!(lines, vec!["{\"a\":1}".to_string()]);
    assert_eq!(a.line_buffer, "{\"b\"");
    assert_eq!(a.file_offset, 20);
    let more = receive_chunk(&mut a, 26, ":2}  \n");
    assert_eq!(more, vec!["{\"b\":2}".to_string()]);
    assert_eq!(a.line_buffer, "");

    let mut b = AgentState::new(1, "/p".into(), "/p/a.jsonl".into(), None);
    let once = receive_chunk(&mut b, 26, "{\"a\":1}\n   \n{\"b\":2}  \n");
    let mut joined = lines.clone();
    joined.extend(more);
    assert_eq!(once, joined);
    assert_eq!(b.line_buffer, a.line_buffer);
}

#[test]
fn a_stale_active_agent_turns_idle() {
    let mut a = AgentState::new(4, "/p".into(), "/p/a.jsonl".into(), None);
    a.status = AgentStatus::Active;
    a.had_tools_in_turn = true;
    assert!(settle_if_stale(&mut a, true, Some(100)).is_none());
    assert!(settle_if_stale(&mut a, false, Some(29)).is_none());
    assert!(settle_if_stale(&mut a, false, None).is_none());
    assert_eq!(a.status, AgentStatus::Active);
    let ev = settle_if_stale(&mut a, false, Some(30));
    assert!(matches!(ev, Some(AgentEvent::StatusChange { agent_id: 4, status: AgentStatus::Idle })));
    assert_eq!(a.status, AgentStatus::Idle);
    assert!(!a.had_tools_in_turn);
    assert!(settle_if_stale(&mut a, false, Some(100)).is_none());
}

#[test]
fn file_sets() {
    let mut f = FileSet::new();
    assert!(!f.contains("a"));
    f.insert("a");
    f.insert("a");
    assert!(f.contains("a"));
    assert_eq!(f.paths.len(), 1);
}

#[test]
fn a_scan_keeps_the_agents_it_does_not_see() {
    let mut known = FileSet::new();
    let mut agents: HashMap<u32, AgentState> = HashMap::new();
    agents.insert(50, AgentState::new(50, "/elsewhere".into(), "/elsewhere/a.jsonl".into(), None));
    known.insert("/elsewhere/a.jsonl");
    let mut next_id: u32 = 60;
    let events = scan_for_agents(&project_input(), &mut known, &mut agents, &mut next_id);
    assert!(agents.contains_key(&50));
    assert!(known.contains("/elsewhere/a.jsonl"));
    assert_eq!(status_ids(&events), vec![60, 61]);
    assert_eq!(next_id, 62);
}

#[test]
fn desks_go_to_top_level_agents_and_named_members() {
    let mut agents: HashMap<u32, AgentState> = HashMap::new();
    agents.insert(1, AgentState::new(1, "/p".into(), "/p/1.jsonl".into(), None));
    agents.insert(2, AgentState::new_subagent(2, "/p".into(), "/p/2.jsonl".into(), None, 1));
    agents.insert(
        3,
        AgentState::new_team_member(3, "/p".into(), "/p/3.jsonl".into(), None, "t".into(), "bob".into(), None, false, Some(1)),
    );
    let mut ids = pixel_agents::watcher::agents_with_desks(&agents);
    ids.sort();
    assert_eq!(ids, vec![1, 3]);
}

#[test]
fn agents_leave_when_their_transcript_goes_quiet() {
    assert!(pixel_agents::watcher::agent_expired(false, None));
    assert!(pixel_agents::watcher::agent_expired(true, Some(300)));
    assert!(!pixel_agents::watcher::agent_expired(true, Some(299)));
    assert!(!pixel_agents::watcher::agent_expired(true, None));
}

#[test]
fn configs_and_metadata_are_read_from_their_text() {
    let text = r#"{"name":"crew","leadSessionId":"S","leadAgentId":"L","createdAt":1234,
        "members":[{"agentId":"L","name":"lead","cwd":"/Users/me/app"},{"agentId":"B","name":"bob"}]}"#;
    let t = parse_team_config_text(text).unwrap();
    assert_eq!(t.name, "crew");
    assert_eq!(t.created_at, 1234);
    assert_eq!(t.members.len(), 2);
    assert!(t.members[0].is_lead);
    assert!(!t.members[1].is_lead);
    assert!(parse_team_config_text("not json").is_none());
    assert!(parse_team_config_text(r#"{"name":"x"}"#).is_none());
    assert_eq!(meta_agent_type_text(r#"{"agentType":"bob"}"#).as_deref(), Some("bob"));
    assert!(meta_agent_type_text(r#"{"agentType":3}"#).is_none());
    assert!(meta_agent_type_text("{").is_none());
}
