use std::collections::{HashMap, HashSet};

use vstd::prelude::*;

use crate::types::{AgentState, AgentView};
use crate::watcher::agents_view;

verus! {

broadcast use vstd::std_specs::hash::group_hash_axioms;

/// A key the program reacts to.
#[derive(Debug, Clone, Copy, PartialEq, Eq, Structural)]
pub enum Key {
    Char(char),
    Up,
    Down,
    Esc,
    Enter,
    Other,
}

/// What the program does after a key.
#[derive(Debug, Clone, Copy, PartialEq, Eq, Structural)]
pub enum UiAction {
    Continue,
    Quit,
    Rescan,
}

/// The state of the screen: the help overlay and its scroll, the activity list's
/// scroll and cursor, a pending `g` of `gg`, and the folded parents.
#[derive(Debug)]
pub struct UiState {
    pub show_help: bool,
    pub help_scroll: u16,
    pub activity_scroll: u16,
    pub activity_cursor: u16,
    pub pending_g: bool,
    pub collapsed: HashSet<u32>,
}

/// The screen state with the folded parents as a set.
#[verifier::ext_equal]
pub struct UiView {
    pub show_help: bool,
    pub help_scroll: u16,
    pub activity_scroll: u16,
    pub activity_cursor: u16,
    pub pending_g: bool,
    pub collapsed: Set<u32>,
}

impl View for UiState {
    type V = UiView;

    open spec fn view(&self) -> UiView {
        UiView {
            show_help: self.show_help,
            help_scroll: self.help_scroll,
            activity_scroll: self.activity_scroll,
            activity_cursor: self.activity_cursor,
            pending_g: self.pending_g,
            collapsed: self.collapsed@,
        }
    }
}

impl UiState {
    pub fn new() -> (s: Self)
        ensures
            s@ == (UiView {
                show_help: false,
                help_scroll: 0,
                activity_scroll: 0,
                activity_cursor: 0,
                pending_g: false,
                collapsed: Set::empty(),
            }),
    {
        UiState {
            show_help: false,
            help_scroll: 0,
            activity_scroll: 0,
            activity_cursor: 0,
            pending_g: false,
            collapsed: HashSet::new(),
        }
    }
}

/// Half a screen of `height` rows, less the frame: the step of `u` and `d`.
pub open spec fn page(height: u16) -> u16 {
    ((if height >= 8 { height - 8 } else { 0 }) / 2) as u16
}

/// `x - y`, stopping at 0.
pub open spec fn sat_sub(x: u16, y: u16) -> u16 {
    if x >= y { (x - y) as u16 } else { 0 }
}

/// The last position of a list of `n` entries (0 for an empty list).
pub open spec fn last_pos(n: nat) -> u16 {
    sat_sub(n as u16, 1)
}

/// The parent that `h` folds for the entry `id`: a subagent's parent, or the entry
/// itself.
pub open spec fn fold_target(agents: Map<u32, AgentView>, id: u32) -> Option<u32> {
    if agents.contains_key(id) {
        if agents[id].is_subagent { agents[id].parent_id } else { Some(id) }
    } else {
        None
    }
}

/// A key's arithmetic stays within `u16`: in the help, `j` and `d` scroll down from
/// where they may; in the list, `d` moves the cursor a page down.
pub open spec fn key_fits(ui: UiView, key: Key, height: u16) -> bool {
    if ui.show_help {
        match key {
            Key::Down | Key::Char('j') => ui.help_scroll < u16::MAX,
            Key::Char('d') => ui.help_scroll + page(height) <= u16::MAX,
            _ => true,
        }
    } else {
        key == Key::Char('d') ==> ui.activity_cursor + page(height) <= u16::MAX
    }
}

/// What a key does, given the activity list as shown and the terminal's height.
pub open spec fn key_effect(ui: UiView, key: Key, list: Seq<u32>, agents: Map<u32, AgentView>, height: u16) -> (
    UiView,
    UiAction,
) {
    if ui.show_help {
        match key {
            Key::Char('?') | Key::Esc => (UiView { show_help: false, ..ui }, UiAction::Continue),
            Key::Char('q') | Key::Char('Q') => (ui, UiAction::Quit),
            Key::Up | Key::Char('k') => (UiView { help_scroll: sat_sub(ui.help_scroll, 1), ..ui }, UiAction::Continue),
            Key::Down | Key::Char('j') => (UiView { help_scroll: (ui.help_scroll + 1) as u16, ..ui }, UiAction::Continue),
            Key::Char('u') => (UiView { help_scroll: sat_sub(ui.help_scroll, page(height)), ..ui }, UiAction::Continue),
            Key::Char('d') => (UiView { help_scroll: (ui.help_scroll + page(height)) as u16, ..ui }, UiAction::Continue),
            Key::Char('g') => (UiView { help_scroll: 0, ..ui }, UiAction::Continue),
            Key::Char('G') => (UiView { help_scroll: u16::MAX, ..ui }, UiAction::Continue),
            _ => (UiView { show_help: false, ..ui }, UiAction::Continue),
        }
    } else {
        let at = ui.activity_cursor as int;
        let selected: Option<u32> = if at < list.len() { Some(list[at]) } else { None };
        let ui0 = UiView { pending_g: false, ..ui };
        match key {
            Key::Char('q') | Key::Char('Q') | Key::Esc => (ui, UiAction::Quit),
            Key::Char('?') => (UiView { show_help: true, help_scroll: 0, ..ui }, UiAction::Continue),
            Key::Up | Key::Char('k') => (
                UiView { activity_cursor: sat_sub(ui.activity_cursor, 1), ..ui0 },
                UiAction::Continue,
            ),
            Key::Down | Key::Char('j') => (
                UiView {
                    activity_cursor: if ui.activity_cursor < last_pos(list.len()) {
                        (ui.activity_cursor + 1) as u16
                    } else {
                        ui.activity_cursor
                    },
                    ..ui0
                },
                UiAction::Continue,
            ),
            Key::Char('u') => (
                UiView { activity_cursor: sat_sub(ui.activity_cursor, page(height)), ..ui0 },
                UiAction::Continue,
            ),
            Key::Char('d') => {
                let down = (ui.activity_cursor + page(height)) as u16;
                let max = last_pos(list.len());
                (UiView { activity_cursor: if down <= max { down } else { max }, ..ui0 }, UiAction::Continue)
            },
            Key::Char('g') => if ui.pending_g {
                (UiView { activity_cursor: 0, pending_g: false, ..ui }, UiAction::Continue)
            } else {
                (UiView { pending_g: true, ..ui }, UiAction::Continue)
            },
            Key::Char('G') => (UiView { activity_cursor: last_pos(list.len()), ..ui0 }, UiAction::Continue),
            Key::Char('h') => match selected {
                Some(id) => match fold_target(agents, id) {
                    Some(pid) => (UiView { collapsed: ui.collapsed.insert(pid), ..ui0 }, UiAction::Continue),
                    None => (ui0, UiAction::Continue),
                },
                None => (ui0, UiAction::Continue),
            },
            Key::Char('l') => match selected {
                Some(id) => if agents.contains_key(id) && !agents[id].is_subagent {
                    (UiView { collapsed: ui.collapsed.remove(id), ..ui0 }, UiAction::Continue)
                } else {
                    (ui0, UiAction::Continue)
                },
                None => (ui0, UiAction::Continue),
            },
            Key::Enter => match selected {
                Some(id) => if agents.contains_key(id) && !agents[id].is_subagent {
                    let folded = if ui.collapsed.contains(id) {
                        ui.collapsed.remove(id)
                    } else {
                        ui.collapsed.insert(id)
                    };
                    (UiView { collapsed: folded, ..ui0 }, UiAction::Continue)
                } else {
                    (ui0, UiAction::Continue)
                },
                None => (ui0, UiAction::Continue),
            },
            Key::Char('r') | Key::Char('R') => (ui0, UiAction::Rescan),
            _ => (ui0, UiAction::Continue),
        }
    }
}

fn page_of(height: u16) -> (p: u16)
    ensures
        p == page(height),
{
    height.saturating_sub(8) / 2
}

/// Reacts to a key: moves through the help or the activity list, folds and unfolds
/// parents, and says whether to quit or scan again. `list` is the activity list as shown
/// and `height` the terminal's height.
pub fn handle_key(
    ui: &mut UiState,
    key: Key,
    list: &Vec<u32>,
    agents: &HashMap<u32, AgentState>,
    height: u16,
) -> (action: UiAction)
    requires
        key_fits(old(ui)@, key, height),
    ensures
        (final(ui)@, action) == key_effect(old(ui)@, key, list@, agents_view(agents@), height),
{
    if ui.show_help {
        match key {
            Key::Char('?') | Key::Esc => {
                ui.show_help = false;
            },
            Key::Char('q') | Key::Char('Q') => {
                return UiAction::Quit;
            },
            Key::Up | Key::Char('k') => {
                ui.help_scroll = ui.help_scroll.saturating_sub(1);
            },
            Key::Down | Key::Char('j') => {
                ui.help_scroll = ui.help_scroll + 1;
            },
            Key::Char('u') => {
                ui.help_scroll = ui.help_scroll.saturating_sub(page_of(height));
            },
            Key::Char('d') => {
                ui.help_scroll = ui.help_scroll + page_of(height);
            },
            Key::Char('g') => {
                ui.help_scroll = 0;
            },
            Key::Char('G') => {
                ui.help_scroll = u16::MAX;
            },
            _ => {
                ui.show_help = false;
            },
        }
        return UiAction::Continue;
    }
    let selected: Option<u32> = if (ui.activity_cursor as usize) < list.len() {
        Some(list[ui.activity_cursor as usize])
    } else {
        None
    };
    match key {
        Key::Char('q') | Key::Char('Q') | Key::Esc => {
            return UiAction::Quit;
        },
        Key::Char('?') => {
            ui.show_help = true;
            ui.help_scroll = 0;
            return UiAction::Continue;
        },
        Key::Char('g') => {
            if ui.pending_g {
                ui.activity_cursor = 0;
                ui.pending_g = false;
            } else {
                ui.pending_g = true;
            }
            return UiAction::Continue;
        },
        _ => {},
    }
    ui.pending_g = false;
    let max = (#[verifier::truncate] (list.len() as u16)).saturating_sub(1);
    match key {
        Key::Up | Key::Char('k') => {
            ui.activity_cursor = ui.activity_cursor.saturating_sub(1);
        },
        Key::Down | Key::Char('j') => {
            if ui.activity_cursor < max {
                ui.activity_cursor = ui.activity_cursor + 1;
            }
        },
        Key::Char('u') => {
            ui.activity_cursor = ui.activity_cursor.saturating_sub(page_of(height));
        },
        Key::Char('d') => {
            let down = ui.activity_cursor + page_of(height);
            ui.activity_cursor = if down <= max { down } else { max };
        },
        Key::Char('G') => {
            ui.activity_cursor = max;
        },
        Key::Char('h') => {
            if let Some(id) = selected {
                let target = match agents.get(&id) {
                    Some(a) => {
                        assert(agents_view(agents@)[id] == a@);
                        if a.is_subagent { a.parent_id } else { Some(id) }
                    },
                    None => None,
                };
                if let Some(pid) = target {
                    ui.collapsed.insert(pid);
                }
            }
        },
        Key::Char('l') => {
            if let Some(id) = selected {
                let top = match agents.get(&id) {
                    Some(a) => {
                        assert(agents_view(agents@)[id] == a@);
                        !a.is_subagent
                    },
                    None => false,
                };
                if top {
                    ui.collapsed.remove(&id);
                }
            }
        },
        Key::Enter => {
            if let Some(id) = selected {
                let top = match agents.get(&id) {
                    Some(a) => {
                        assert(agents_view(agents@)[id] == a@);
                        !a.is_subagent
                    },
                    None => false,
                };
                if top {
                    if !ui.collapsed.remove(&id) {
                        ui.collapsed.insert(id);
                    }
                }
            }
        },
        Key::Char('r') | Key::Char('R') => {
            return UiAction::Rescan;
        },
        _ => {},
    }
    UiAction::Continue
}

/// Whether the list's scroll can follow the cursor without leaving `u16`.
pub open spec fn scroll_fits(ui: UiView, list_len: u16, height: u16) -> bool {
    let visible = sat_sub(height, 5);
    list_len > visible ==> ui.activity_scroll + visible <= u16::MAX
}

/// The list's scroll and cursor after the list is laid out again: no scroll when the
/// list fits the panel (the terminal less five rows), else scrolled to keep the cursor
/// in view; the cursor kept within the list.
pub open spec fn scrolled(ui: UiView, list_len: u16, height: u16) -> UiView {
    let visible = sat_sub(height, 5);
    let scroll = if list_len <= visible {
        0
    } else {
        let s1 = if ui.activity_cursor < ui.activity_scroll { ui.activity_cursor } else { ui.activity_scroll };
        if visible > 0 && ui.activity_cursor >= s1 + visible {
            (ui.activity_cursor - visible + 1) as u16
        } else {
            s1
        }
    };
    let cursor = if list_len > 0 && ui.activity_cursor > list_len - 1 {
        (list_len - 1) as u16
    } else {
        ui.activity_cursor
    };
    UiView { activity_scroll: scroll, activity_cursor: cursor, ..ui }
}

/// Scrolls the activity list to keep the cursor in view, and keeps the cursor within
/// the list.
pub fn auto_scroll(ui: &mut UiState, list_len: u16, height: u16)
    requires
        scroll_fits(old(ui)@, list_len, height),
    ensures
        final(ui)@ == scrolled(old(ui)@, list_len, height),
{
    let panel_visible = height.saturating_sub(5);
    if list_len <= panel_visible {
        ui.activity_scroll = 0;
    } else {
        if ui.activity_cursor < ui.activity_scroll {
            ui.activity_scroll = ui.activity_cursor;
        }
        if panel_visible > 0 && ui.activity_cursor >= ui.activity_scroll + panel_visible {
            ui.activity_scroll = ui.activity_cursor - panel_visible + 1;
        }
    }
    if list_len > 0 && ui.activity_cursor > list_len - 1 {
        ui.activity_cursor = list_len - 1;
    }
}

// ── Laws ────────────────────────────────────────────────────────

/// `g` pressed twice in the list (with no `g` pending) moves the cursor to the top.
pub proof fn law_gg_goes_to_top(ui: UiView, list: Seq<u32>, agents: Map<u32, AgentView>, height: u16)
    requires
        !ui.show_help,
        !ui.pending_g,
    ensures
        ({
            let (ui1, a1) = key_effect(ui, Key::Char('g'), list, agents, height);
            let (ui2, a2) = key_effect(ui1, Key::Char('g'), list, agents, height);
            &&& ui2.activity_cursor == 0
            &&& !ui2.pending_g
            &&& a1 == UiAction::Continue && a2 == UiAction::Continue
            &&& ui2.collapsed == ui.collapsed
        }),
{
}

/// Enter pressed twice on a top-level agent leaves its folding as it was.
pub proof fn law_enter_twice_keeps_folding(ui: UiView, list: Seq<u32>, agents: Map<u32, AgentView>, height: u16)
    requires
        !ui.show_help,
    ensures
        ({
            let (ui1, _) = key_effect(ui, Key::Enter, list, agents, height);
            let (ui2, _) = key_effect(ui1, Key::Enter, list, agents, height);
            ui2.collapsed == ui.collapsed
        }),
{
    let (ui1, _) = key_effect(ui, Key::Enter, list, agents, height);
    let (ui2, _) = key_effect(ui1, Key::Enter, list, agents, height);
    let at = ui.activity_cursor as int;
    if at < list.len() {
        let id = list[at];
        if agents.contains_key(id) && !agents[id].is_subagent {
            if ui.collapsed.contains(id) {
                assert(ui.collapsed.remove(id).insert(id) =~= ui.collapsed);
            } else {
                assert(ui.collapsed.insert(id).remove(id) =~= ui.collapsed);
            }
        }
    }
}

/// `?` opens the help at its top, and `?` again closes it, leaving the list as it was.
pub proof fn law_help_toggles(ui: UiView, list: Seq<u32>, agents: Map<u32, AgentView>, height: u16)
    requires
        !ui.show_help,
    ensures
        ({
            let (ui1, _) = key_effect(ui, Key::Char('?'), list, agents, height);
            let (ui2, _) = key_effect(ui1, Key::Char('?'), list, agents, height);
            &&& ui1.show_help && ui1.help_scroll == 0
            &&& ui2 == UiView { help_scroll: 0, ..ui }
        }),
{
}

/// After laying out again, the cursor is within the list, and when the list is longer
/// than the panel the cursor's row is on screen; a list that fits is not scrolled.
pub proof fn law_cursor_in_view(ui: UiView, list_len: u16, height: u16)
    requires
        ui.activity_cursor < list_len,
    ensures
        ({
            let u = scrolled(ui, list_len, height);
            let visible = sat_sub(height, 5);
            &&& u.activity_cursor < list_len
            &&& list_len <= visible ==> u.activity_scroll == 0
            &&& list_len > visible && visible > 0 ==> u.activity_scroll <= u.activity_cursor < u.activity_scroll + visible
        }),
{
}

/// In the list, Up (or `k`) moves the cursor up one row, stopping at the top; Down (or
/// `j`) moves it down one row, stopping at the last; so Down then Up comes back to the
/// same row, unless the cursor was already on the last one.
pub proof fn law_up_down_move_one_row(ui: UiView, list: Seq<u32>, agents: Map<u32, AgentView>, height: u16)
    requires
        !ui.show_help,
    ensures
        ({
            let (up, a_up) = key_effect(ui, Key::Up, list, agents, height);
            let (k, _) = key_effect(ui, Key::Char('k'), list, agents, height);
            &&& a_up == UiAction::Continue
            &&& ui.activity_cursor > 0 ==> up.activity_cursor == ui.activity_cursor - 1
            &&& ui.activity_cursor == 0 ==> up.activity_cursor == 0
            &&& k.activity_cursor == up.activity_cursor
            &&& up.collapsed == ui.collapsed && !up.show_help
        }),
        ({
            let (down, _) = key_effect(ui, Key::Down, list, agents, height);
            let (j, _) = key_effect(ui, Key::Char('j'), list, agents, height);
            let (back, _) = key_effect(down, Key::Up, list, agents, height);
            &&& ui.activity_cursor + 1 < list.len() && list.len() <= u16::MAX ==> down.activity_cursor
                == ui.activity_cursor + 1 && back.activity_cursor == ui.activity_cursor
            &&& j.activity_cursor == down.activity_cursor
        }),
{
}

} // verus!
