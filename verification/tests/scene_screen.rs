use std::collections::{HashMap, HashSet};

use pixel_agents::layout::build_office;
use pixel_agents::renderer::{activity_rows, build_activity_list};
use pixel_agents::scene::{Character, Scene};
use pixel_agents::text::split_chars;
use pixel_agents::types::{AgentEvent, AgentState, AgentStatus, CharacterState, Direction};
use pixel_agents::ui::{auto_scroll, handle_key, Key, UiAction, UiState};

fn agent(id: u32, folder: &str) -> AgentState {
    AgentState::new(id, "/p".into(), format!("/p/{id}.jsonl"), Some(folder.into()))
}

fn subagent(id: u32, parent: u32) -> AgentState {
    AgentState::new_subagent(id, "/p".into(), format!("/p/{id}.jsonl"), None, parent)
}

fn agents_of(list: Vec<AgentState>) -> HashMap<u32, AgentState> {
    list.into_iter().map(|a| (a.id, a)).collect()
}

#[test]
fn a_new_character_waits_at_its_seat() {
    let c = Character::new(3, 8, 6, 2, 5);
    assert_eq!((c.col, c.row), (8, 6));
    assert_eq!((c.seat_col, c.seat_row), (8, 6));
    assert_eq!((c.desk_col, c.desk_row), (8, 3));
    assert_eq!(c.state, CharacterState::Idle);
    assert_eq!(c.dir, Direction::Down);
    assert_eq!(c.status_text, "Idle");
    assert_eq!(c.wander_timer, 3000);
    assert_eq!(c.wander_limit, 4);
    assert_eq!(Character::new(1, 2, 1, 0, 0).desk_row, 0);
}

#[test]
fn agents_take_seats_and_palettes_in_turn() {
    let mut scene = Scene::new(build_office(3));
    let agents = agents_of(vec![agent(1, "a"), agent(2, "b"), agent(3, "c"), agent(4, "d")]);
    for id in 1..=4 {
        scene.ensure_character(id, &agents);
    }
    let c1 = &scene.characters[&1];
    let c2 = &scene.characters[&2];
    let c4 = &scene.characters[&4];
    assert_eq!((c1.seat_col, c1.seat_row), (8, 6));
    assert_eq!((c1.desk_col, c1.desk_row), (4, 2));
    assert_eq!((c2.seat_col, c2.seat_row), (28, 6));
    // three seats: the fourth agent shares the first seat
    assert_eq!((c4.seat_col, c4.seat_row), (8, 6));
    assert_eq!(c1.palette, 0);
    assert_eq!(c2.palette, 1);
    assert_eq!(c4.palette, 3);
    assert_eq!(c1.person, 1);
    assert!(!c1.is_subagent);
    // asking again changes nothing
    scene.ensure_character(1, &agents);
    assert_eq!(scene.characters.len(), 4);
}

#[test]
fn a_subagent_sits_beside_its_parent() {
    let mut scene = Scene::new(build_office(2));
    let agents = agents_of(vec![agent(1, "a"), subagent(2, 1), subagent(3, 99)]);
    scene.ensure_character(1, &agents);
    scene.ensure_character(2, &agents);
    scene.ensure_character(3, &agents);
    let p = &scene.characters[&1];
    let c = &scene.characters[&2];
    assert!(c.is_subagent);
    assert_eq!(c.palette, p.palette);
    assert_eq!((c.desk_col, c.desk_row), (p.desk_col, p.desk_row));
    assert!((c.seat_col as i32 - p.seat_col as i32).abs() <= 3);
    assert!((c.seat_row as i32 - p.seat_row as i32).abs() <= 2);
    // a subagent without a parent character takes the next seat
    let orphan = &scene.characters[&3];
    assert_eq!((orphan.seat_col, orphan.seat_row), (28, 6));
    assert!(orphan.is_subagent);
}

#[test]
fn a_tool_start_at_the_seat_sets_the_character_working() {
    let mut scene = Scene::new(build_office(2));
    let agents = agents_of(vec![agent(1, "a")]);
    let ev = vec![AgentEvent::ToolStart {
        agent_id: 1,
        tool_id: "t".into(),
        tool_name: "Read".into(),
        status: "Reading x".into(),
    }];
    scene.handle_events(&ev, &agents);
    let c = &scene.characters[&1];
    assert!(c.is_active);
    assert_eq!(c.state, CharacterState::Reading);
    assert_eq!(c.current_tool.as_deref(), Some("Read"));
    assert_eq!(c.status_text, "Reading x");
    let ev = vec![AgentEvent::ToolStart {
        agent_id: 1,
        tool_id: "u".into(),
        tool_name: "Bash".into(),
        status: "Running: ls".into(),
    }];
    scene.handle_events(&ev, &agents);
    assert_eq!(scene.characters[&1].state, CharacterState::Typing);
}

#[test]
fn a_character_away_from_its_seat_walks_back() {
    let mut scene = Scene::new(build_office(2));
    let agents = agents_of(vec![agent(1, "a")]);
    scene.ensure_character(1, &agents);
    {
        let c = scene.characters.get_mut(&1).unwrap();
        c.col = 14;
        c.row = 10;
    }
    scene.handle_events(&[AgentEvent::StatusChange { agent_id: 1, status: AgentStatus::Active }], &agents);
    let c = &scene.characters[&1];
    assert_eq!(c.state, CharacterState::Walking);
    assert_eq!(c.path.len(), 10);
    assert_eq!(*c.path.last().unwrap(), (8, 6));
    // walking: 1000 ms gives three steps
    scene.update(1000);
    let c = &scene.characters[&1];
    assert_eq!(c.path.len(), 9);
    assert_eq!(c.move_progress, 2000);
}

#[test]
fn idle_and_clear_stop_the_work() {
    let mut scene = Scene::new(build_office(2));
    let agents = agents_of(vec![agent(1, "a")]);
    scene.handle_events(&[AgentEvent::StatusChange { agent_id: 1, status: AgentStatus::Active }], &agents);
    assert_eq!(scene.characters[&1].state, CharacterState::Typing);
    scene.handle_events(&[AgentEvent::StatusChange { agent_id: 1, status: AgentStatus::WaitingPermission }], &agents);
    assert_eq!(scene.characters[&1].status_text, "Waiting for permission");
    scene.handle_events(&[AgentEvent::StatusChange { agent_id: 1, status: AgentStatus::Idle }], &agents);
    let c = &scene.characters[&1];
    assert!(!c.is_active);
    assert_eq!(c.status_text, "Idle");
    scene.handle_events(&[AgentEvent::ClearActivity { agent_id: 5 }], &agents);
    assert!(!scene.characters.contains_key(&5));
}

#[test]
fn a_resting_typist_goes_idle_when_its_timer_runs_out() {
    let mut scene = Scene::new(build_office(2));
    let agents = agents_of(vec![agent(1, "a")]);
    scene.handle_events(&[AgentEvent::StatusChange { agent_id: 1, status: AgentStatus::Active }], &agents);
    scene.handle_events(&[AgentEvent::StatusChange { agent_id: 1, status: AgentStatus::Idle }], &agents);
    scene.characters.get_mut(&1).unwrap().seat_timer = 500;
    scene.update(100);
    let c = &scene.characters[&1];
    assert_eq!(c.state, CharacterState::Typing);
    assert_eq!(c.seat_timer, 400);
    scene.update(400);
    let c = &scene.characters[&1];
    assert_eq!(c.state, CharacterState::Idle);
    assert!(c.wander_timer >= 2000 && c.wander_timer < 8000);
    assert!(c.wander_limit >= 3 && c.wander_limit <= 6);
    assert_eq!(c.wander_count, 0);
}

#[test]
fn typing_turns_the_frame_every_three_hundred_ms() {
    let mut scene = Scene::new(build_office(2));
    let agents = agents_of(vec![agent(1, "a")]);
    scene.handle_events(&[AgentEvent::StatusChange { agent_id: 1, status: AgentStatus::Active }], &agents);
    scene.update(200);
    assert_eq!(scene.characters[&1].frame, 0);
    scene.update(200);
    assert_eq!(scene.characters[&1].frame, 1);
    assert_eq!(scene.characters[&1].frame_timer, 100);
}

#[test]
fn the_activity_list_puts_children_under_parents() {
    let agents = agents_of(vec![agent(1, "Zeta"), agent(2, "alpha"), subagent(5, 1), subagent(3, 1), subagent(4, 2)]);
    let mut collapsed = HashSet::new();
    assert_eq!(build_activity_list(&agents, &collapsed), vec![2, 4, 1, 3, 5]);
    collapsed.insert(1);
    assert_eq!(build_activity_list(&agents, &collapsed), vec![2, 4, 1]);
}

#[test]
fn activity_rows_show_names_marks_and_the_cursor() {
    let mut agents = agents_of(vec![agent(1, "project-with-a-long-name"), subagent(2, 1), agent(3, "solo")]);
    agents.get_mut(&2).unwrap().member_name = Some("bob".into());
    let scene = Scene::new(build_office(2));
    let mut collapsed = HashSet::new();
    collapsed.insert(3);
    let ordered = build_activity_list(&agents, &collapsed);
    assert_eq!(ordered, vec![1, 2, 3]);
    let rows = activity_rows(&agents, &scene, &collapsed, &ordered, 0, 1, 10, 26);
    assert_eq!(rows.len(), 3);
    assert_eq!(rows[0].name, "project-wi");
    assert_eq!(rows[0].fold_mark, '\u{25BE}');
    assert!(!rows[0].selected);
    assert_eq!(rows[1].name, "\u{2514} bob");
    assert!(rows[1].selected && rows[1].named && rows[1].is_subagent);
    assert_eq!(rows[2].fold_mark, ' ');
    assert_eq!(rows[2].status_text, "Idle");
    assert_eq!(rows[2].palette, None);
    // a short panel shows the scrolled window
    let rows = activity_rows(&agents, &scene, &collapsed, &ordered, 1, 1, 2, 40);
    assert_eq!(rows.len(), 2);
    assert_eq!(rows[0].id, 2);
    assert!(rows[0].selected);
}

#[test]
fn keys_move_the_cursor_and_fold() {
    let agents = agents_of(vec![agent(1, "a"), subagent(2, 1), agent(3, "b")]);
    let list = vec![1, 2, 3];
    let mut ui = UiState::new();
    assert_eq!(handle_key(&mut ui, Key::Down, &list, &agents, 40), UiAction::Continue);
    assert_eq!(ui.activity_cursor, 1);
    handle_key(&mut ui, Key::Char('j'), &list, &agents, 40);
    handle_key(&mut ui, Key::Char('j'), &list, &agents, 40);
    assert_eq!(ui.activity_cursor, 2);
    handle_key(&mut ui, Key::Char('g'), &list, &agents, 40);
    assert!(ui.pending_g);
    handle_key(&mut ui, Key::Char('g'), &list, &agents, 40);
    assert_eq!(ui.activity_cursor, 0);
    assert!(!ui.pending_g);
    handle_key(&mut ui, Key::Char('G'), &list, &agents, 40);
    assert_eq!(ui.activity_cursor, 2);
    handle_key(&mut ui, Key::Char('u'), &list, &agents, 40);
    assert_eq!(ui.activity_cursor, 0);
    handle_key(&mut ui, Key::Char('d'), &list, &agents, 12);
    assert_eq!(ui.activity_cursor, 2);
    // fold from a subagent folds its parent
    ui.activity_cursor = 1;
    handle_key(&mut ui, Key::Char('h'), &list, &agents, 40);
    assert!(ui.collapsed.contains(&1));
    ui.activity_cursor = 0;
    handle_key(&mut ui, Key::Char('l'), &list, &agents, 40);
    assert!(!ui.collapsed.contains(&1));
    handle_key(&mut ui, Key::Enter, &list, &agents, 40);
    assert!(ui.collapsed.contains(&1));
    handle_key(&mut ui, Key::Enter, &list, &agents, 40);
    assert!(!ui.collapsed.contains(&1));
    assert_eq!(handle_key(&mut ui, Key::Char('r'), &list, &agents, 40), UiAction::Rescan);
    assert_eq!(handle_key(&mut ui, Key::Esc, &list, &agents, 40), UiAction::Quit);
}

#[test]
fn keys_in_the_help() {
    let agents = HashMap::new();
    let list: Vec<u32> = Vec::new();
    let mut ui = UiState::new();
    handle_key(&mut ui, Key::Char('?'), &list, &agents, 40);
    assert!(ui.show_help);
    handle_key(&mut ui, Key::Down, &list, &agents, 40);
    handle_key(&mut ui, Key::Char('d'), &list, &agents, 40);
    assert_eq!(ui.help_scroll, 17);
    handle_key(&mut ui, Key::Char('k'), &list, &agents, 40);
    assert_eq!(ui.help_scroll, 16);
    handle_key(&mut ui, Key::Char('G'), &list, &agents, 40);
    assert_eq!(ui.help_scroll, u16::MAX);
    handle_key(&mut ui, Key::Char('g'), &list, &agents, 40);
    assert_eq!(ui.help_scroll, 0);
    handle_key(&mut ui, Key::Char('x'), &list, &agents, 40);
    assert!(!ui.show_help);
    handle_key(&mut ui, Key::Char('?'), &list, &agents, 40);
    assert_eq!(handle_key(&mut ui, Key::Char('q'), &list, &agents, 40), UiAction::Quit);
}

#[test]
fn the_list_scrolls_to_keep_the_cursor_in_view() {
    let mut ui = UiState::new();
    ui.activity_cursor = 12;
    auto_scroll(&mut ui, 20, 15);
    // ten rows visible: rows 3..=12
    assert_eq!(ui.activity_scroll, 3);
    ui.activity_cursor = 1;
    auto_scroll(&mut ui, 20, 15);
    assert_eq!(ui.activity_scroll, 1);
    auto_scroll(&mut ui, 5, 15);
    assert_eq!(ui.activity_scroll, 0);
    ui.activity_cursor = 9;
    auto_scroll(&mut ui, 5, 15);
    assert_eq!(ui.activity_cursor, 4);
}

#[test]
fn text_is_split_at_each_separator() {
    assert_eq!(split_chars("a-b--c", '-'), vec!["a", "b", "", "c"]);
    assert_eq!(split_chars("", '-'), vec![""]);
    assert_eq!(split_chars("é\n", '\n'), vec!["é", ""]);
}

#[test]
fn an_idle_character_wanders_when_its_timer_runs_out() {
    let mut scene = Scene::new(build_office(2));
    let agents = agents_of(vec![agent(1, "a")]);
    scene.ensure_character(1, &agents);
    for _ in 0..20 {
        {
            let c = scene.characters.get_mut(&1).unwrap();
            c.state = CharacterState::Idle;
            c.path.clear();
            c.wander_timer = 10;
            c.wander_count = 0;
            c.wander_limit = 4;
        }
        scene.update(10);
        let c = &scene.characters[&1];
        assert!(c.wander_timer >= 2000 && c.wander_timer < 8000);
        if c.state == CharacterState::Walking {
            assert!(!c.path.is_empty() && c.path.len() < 30);
            assert_eq!(c.wander_count, 1);
        } else {
            assert_eq!(c.state, CharacterState::Idle);
            assert_eq!(c.wander_count, 0);
        }
    }
}

#[test]
fn a_character_done_wandering_heads_for_the_lounge_or_its_seat() {
    let mut scene = Scene::new(build_office(2));
    let agents = agents_of(vec![agent(1, "a")]);
    scene.ensure_character(1, &agents);
    for _ in 0..20 {
        {
            let c = scene.characters.get_mut(&1).unwrap();
            if let Some(i) = c.lounge_seat.take() {
                scene.lounge_seat_occupied[i] = false;
            }
            c.state = CharacterState::Idle;
            c.col = 20;
            c.row = 15;
            c.path.clear();
            c.wander_timer = 0;
            c.wander_count = 4;
            c.wander_limit = 4;
        }
        scene.update(10);
        let c = &scene.characters[&1];
        assert_eq!(c.state, CharacterState::Walking);
        assert_eq!(c.wander_count, 0);
        assert!(c.wander_limit >= 3 && c.wander_limit <= 6);
        match c.lounge_seat {
            Some(i) => {
                assert!(scene.lounge_seat_occupied[i]);
                let seat = scene.layout.lounge_seats[i];
                assert_eq!(*c.path.last().unwrap(), (seat.col, seat.row));
            },
            None => assert_eq!(*c.path.last().unwrap(), (c.seat_col, c.seat_row)),
        }
    }
}

#[test]
fn work_calls_an_idle_character_back_to_its_seat() {
    let mut scene = Scene::new(build_office(2));
    let agents = agents_of(vec![agent(1, "a")]);
    scene.ensure_character(1, &agents);
    {
        let c = scene.characters.get_mut(&1).unwrap();
        c.col = 20;
        c.row = 10;
        c.is_active = true;
    }
    scene.update(10);
    let c = &scene.characters[&1];
    assert_eq!(c.state, CharacterState::Walking);
    assert_eq!(c.path.len(), 16);
    assert_eq!(*c.path.last().unwrap(), (8, 6));
}

#[test]
fn characters_are_drawn_top_row_first_without_folded_subagents() {
    let mut scene = Scene::new(build_office(3));
    let agents = agents_of(vec![agent(1, "a"), agent(2, "b"), subagent(3, 1), agent(4, "c")]);
    for id in 1..=4 {
        scene.ensure_character(id, &agents);
    }
    scene.characters.get_mut(&1).unwrap().row = 20;
    scene.characters.get_mut(&2).unwrap().row = 5;
    scene.characters.get_mut(&3).unwrap().row = 12;
    scene.characters.get_mut(&4).unwrap().row = 9;
    let none = HashSet::new();
    assert_eq!(
        pixel_agents::renderer::characters_in_draw_order(&scene, &agents, &none),
        vec![2, 4, 3, 1]
    );
    let mut folded = HashSet::new();
    folded.insert(1);
    assert_eq!(pixel_agents::renderer::characters_in_draw_order(&scene, &agents, &folded), vec![2, 4, 1]);
}

#[test]
fn lounge_marks_match_their_holders_while_characters_move() {
    let mut scene = Scene::new(build_office(4));
    let agents = agents_of(vec![agent(1, "a"), agent(2, "b"), agent(3, "c"), agent(4, "d")]);
    for id in 1..=4 {
        scene.ensure_character(id, &agents);
    }
    for step in 0..4000u32 {
        scene.update(if step % 7 == 0 { 900 } else { 150 });
        let mut holders = vec![0usize; scene.lounge_seat_occupied.len()];
        for c in scene.characters.values() {
            if let Some(i) = c.lounge_seat {
                assert!(i < holders.len());
                assert!(matches!(c.state, CharacterState::Walking | CharacterState::Sitting));
                holders[i] += 1;
            }
        }
        for (i, taken) in scene.lounge_seat_occupied.iter().enumerate() {
            assert_eq!(*taken, holders[i] == 1, "seat {i} at step {step}");
            assert!(holders[i] <= 1);
        }
    }
}
