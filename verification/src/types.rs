use vstd::prelude::*;

use crate::json::str_eq;

verus! {

#[derive(Debug, Clone, Copy, PartialEq, Eq, Structural)]
pub enum AgentStatus {
    Active,
    Idle,
    WaitingPermission,
}

#[derive(Debug, Clone, Copy, PartialEq, Eq, Structural)]
pub enum CharacterState {
    Typing,
    Reading,
    Walking,
    Idle,
    Sitting,
}

#[derive(Debug, Clone, Copy, PartialEq, Eq, Structural)]
pub enum Direction {
    Up,
    Down,
    Left,
    Right,
}

/// A tool call that has started and not finished yet.
#[derive(Debug)]
pub struct ActiveTool {
    pub id: String,
    pub name: String,
    pub status: String,
}

/// The running tools, by id: their names and status texts.
pub open spec fn tool_map(tools: Seq<ActiveTool>) -> Map<Seq<char>, (Seq<char>, Seq<char>)> {
    Map::new(
        |k: Seq<char>| exists|i: int| 0 <= i < tools.len() && #[trigger] tools[i].id@ == k,
        |k: Seq<char>|
            {
                let i = choose|i: int| 0 <= i < tools.len() && #[trigger] tools[i].id@ == k;
                (tools[i].name@, tools[i].status@)
            },
    )
}

/// No tool id occurs twice.
pub open spec fn ids_distinct(tools: Seq<ActiveTool>) -> bool {
    forall|i: int, j: int|
        0 <= i < tools.len() && 0 <= j < tools.len() && i != j ==> #[trigger] tools[i].id@
            != #[trigger] tools[j].id@
}

/// The state of one agent session, as read from its transcript.
///
/// `active_tools` holds the running tool calls, one entry per tool id.
#[derive(Debug)]
pub struct AgentState {
    pub id: u32,
    pub project_dir: String,
    pub jsonl_file: String,
    pub file_offset: u64,
    pub line_buffer: String,
    pub active_tools: Vec<ActiveTool>,
    pub is_waiting: bool,
    pub permission_sent: bool,
    pub had_tools_in_turn: bool,
    pub folder_name: Option<String>,
    pub status: AgentStatus,
    pub parent_id: Option<u32>,
    pub is_subagent: bool,
    pub last_status_text: String,
    pub team_name: Option<String>,
    pub member_name: Option<String>,
    pub color: Option<String>,
    pub is_lead: bool,
}

/// An agent's state with its strings as characters.
pub struct AgentView {
    pub id: u32,
    pub project_dir: Seq<char>,
    pub jsonl_file: Seq<char>,
    pub file_offset: u64,
    pub line_buffer: Seq<char>,
    pub active_tools: Seq<ActiveTool>,
    pub is_waiting: bool,
    pub permission_sent: bool,
    pub had_tools_in_turn: bool,
    pub folder_name: Option<Seq<char>>,
    pub status: AgentStatus,
    pub parent_id: Option<u32>,
    pub is_subagent: bool,
    pub last_status_text: Seq<char>,
    pub team_name: Option<Seq<char>>,
    pub member_name: Option<Seq<char>>,
    pub color: Option<Seq<char>>,
    pub is_lead: bool,
}

/// The characters of an optional string.
pub open spec fn opt_chars(s: Option<String>) -> Option<Seq<char>> {
    match s {
        Some(x) => Some(x@),
        None => None,
    }
}

impl View for AgentState {
    type V = AgentView;

    open spec fn view(&self) -> AgentView {
        AgentView {
            id: self.id,
            project_dir: self.project_dir@,
            jsonl_file: self.jsonl_file@,
            file_offset: self.file_offset,
            line_buffer: self.line_buffer@,
            active_tools: self.active_tools@,
            is_waiting: self.is_waiting,
            permission_sent: self.permission_sent,
            had_tools_in_turn: self.had_tools_in_turn,
            folder_name: opt_chars(self.folder_name),
            status: self.status,
            parent_id: self.parent_id,
            is_subagent: self.is_subagent,
            last_status_text: self.last_status_text@,
            team_name: opt_chars(self.team_name),
            member_name: opt_chars(self.member_name),
            color: opt_chars(self.color),
            is_lead: self.is_lead,
        }
    }
}

/// A newly discovered agent: nothing read, nothing running, idle.
pub open spec fn fresh_agent(
    id: u32,
    project_dir: Seq<char>,
    jsonl_file: Seq<char>,
    folder_name: Option<Seq<char>>,
    parent_id: Option<u32>,
    team_name: Option<Seq<char>>,
    member_name: Option<Seq<char>>,
    color: Option<Seq<char>>,
    is_lead: bool,
) -> AgentView {
    AgentView {
        id,
        project_dir,
        jsonl_file,
        file_offset: 0,
        line_buffer: Seq::empty(),
        active_tools: Seq::empty(),
        is_waiting: false,
        permission_sent: false,
        had_tools_in_turn: false,
        folder_name,
        status: AgentStatus::Idle,
        parent_id,
        is_subagent: parent_id is Some,
        last_status_text: Seq::empty(),
        team_name,
        member_name,
        color,
        is_lead,
    }
}

/// The status line of an agent: its first running tool's status; else, by its status,
/// the last status shown (or "Thinking..."), "Idle", or "Waiting for permission".
pub open spec fn status_line(a: AgentView) -> Seq<char> {
    if a.active_tools.len() > 0 {
        a.active_tools[0].status@
    } else {
        match a.status {
            AgentStatus::Active => if a.last_status_text.len() > 0 {
                a.last_status_text
            } else {
                "Thinking..."@
            },
            AgentStatus::Idle => "Idle"@,
            AgentStatus::WaitingPermission => "Waiting for permission"@,
        }
    }
}

/// Events emitted by the transcript parser
#[derive(Debug, Clone)]
pub enum AgentEvent {
    ToolStart { agent_id: u32, tool_id: String, tool_name: String, status: String },
    ToolDone { agent_id: u32, tool_id: String },
    StatusChange { agent_id: u32, status: AgentStatus },
    ClearActivity { agent_id: u32 },
}

/// An event with its strings as characters.
pub enum EventView {
    ToolStart { agent_id: u32, tool_id: Seq<char>, tool_name: Seq<char>, status: Seq<char> },
    ToolDone { agent_id: u32, tool_id: Seq<char> },
    StatusChange { agent_id: u32, status: AgentStatus },
    ClearActivity { agent_id: u32 },
}

impl View for AgentEvent {
    type V = EventView;

    open spec fn view(&self) -> EventView {
        match self {
            AgentEvent::ToolStart { agent_id, tool_id, tool_name, status } => EventView::ToolStart {
                agent_id: *agent_id,
                tool_id: tool_id@,
                tool_name: tool_name@,
                status: status@,
            },
            AgentEvent::ToolDone { agent_id, tool_id } => EventView::ToolDone {
                agent_id: *agent_id,
                tool_id: tool_id@,
            },
            AgentEvent::StatusChange { agent_id, status } => EventView::StatusChange {
                agent_id: *agent_id,
                status: *status,
            },
            AgentEvent::ClearActivity { agent_id } => EventView::ClearActivity { agent_id: *agent_id },
        }
    }
}

/// The views of a sequence of events.
pub open spec fn events_view(events: Seq<AgentEvent>) -> Seq<EventView> {
    events.map_values(|e: AgentEvent| e@)
}

impl AgentState {
    /// The running tools by id.
    pub open spec fn tools(&self) -> Map<Seq<char>, (Seq<char>, Seq<char>)> {
        tool_map(self.active_tools@)
    }

    /// The agent's tool list holds each tool id once.
    pub open spec fn wf(&self) -> bool {
        ids_distinct(self.active_tools@)
    }

    /// The fields that only the agent's discovery sets: the transcript never changes them.
    pub open spec fn same_identity(&self, other: &AgentState) -> bool {
        &&& self.id == other.id
        &&& self.project_dir == other.project_dir
        &&& self.jsonl_file == other.jsonl_file
        &&& self.file_offset == other.file_offset
        &&& self.line_buffer == other.line_buffer
        &&& self.folder_name == other.folder_name
        &&& self.parent_id == other.parent_id
        &&& self.is_subagent == other.is_subagent
        &&& self.team_name == other.team_name
        &&& self.member_name == other.member_name
        &&& self.color == other.color
        &&& self.is_lead == other.is_lead
    }

    /// A fresh, idle agent with nothing running.
    pub open spec fn is_fresh(&self) -> bool {
        &&& self.file_offset == 0
        &&& self.line_buffer@.len() == 0
        &&& self.active_tools@.len() == 0
        &&& !self.is_waiting
        &&& !self.permission_sent
        &&& !self.had_tools_in_turn
        &&& self.status == AgentStatus::Idle
        &&& self.last_status_text@.len() == 0
    }

    pub fn new(id: u32, project_dir: String, jsonl_file: String, folder_name: Option<String>) -> (a: Self)
        ensures
            a@ == fresh_agent(id, project_dir@, jsonl_file@, opt_chars(folder_name), None, None, None, None, false),
            a.wf(),
            a.is_fresh(),
            a.id == id,
            a.project_dir == project_dir,
            a.jsonl_file == jsonl_file,
            a.folder_name == folder_name,
            a.parent_id is None,
            !a.is_subagent,
            a.team_name is None,
            a.member_name is None,
            a.color is None,
            !a.is_lead,
    {
        Self {
            id,
            project_dir,
            jsonl_file,
            file_offset: 0,
            line_buffer: String::new(),
            active_tools: Vec::new(),
            is_waiting: false,
            permission_sent: false,
            had_tools_in_turn: false,
            folder_name,
            status: AgentStatus::Idle,
            parent_id: None,
            is_subagent: false,
            last_status_text: String::new(),
            team_name: None,
            member_name: None,
            color: None,
            is_lead: false,
        }
    }

    pub fn new_subagent(
        id: u32,
        project_dir: String,
        jsonl_file: String,
        folder_name: Option<String>,
        parent_id: u32,
    ) -> (a: Self)
        ensures
            a@ == fresh_agent(id, project_dir@, jsonl_file@, opt_chars(folder_name), Some(parent_id), None, None, None, false),
            a.wf(),
            a.is_fresh(),
            a.id == id,
            a.project_dir == project_dir,
            a.jsonl_file == jsonl_file,
            a.folder_name == folder_name,
            a.parent_id == Some(parent_id),
            a.is_subagent,
            a.team_name is None,
            a.member_name is None,
            a.color is None,
            !a.is_lead,
    {
        let mut agent = Self::new(id, project_dir, jsonl_file, folder_name);
        agent.parent_id = Some(parent_id);
        agent.is_subagent = true;
        agent
    }

    /// An agent of a team: its lead (no parent) or a member (under the lead).
    pub fn new_team_member(
        id: u32,
        project_dir: String,
        jsonl_file: String,
        folder_name: Option<String>,
        team_name: String,
        member_name: String,
        color: Option<String>,
        is_lead: bool,
        parent_id: Option<u32>,
    ) -> (a: Self)
        ensures
            a@ == fresh_agent(
                id,
                project_dir@,
                jsonl_file@,
                opt_chars(folder_name),
                parent_id,
                Some(team_name@),
                Some(member_name@),
                opt_chars(color),
                is_lead,
            ),
            a.wf(),
            a.is_fresh(),
            a.id == id,
            a.project_dir == project_dir,
            a.jsonl_file == jsonl_file,
            a.folder_name == folder_name,
            a.parent_id == parent_id,
            a.is_subagent == (parent_id is Some),
            a.team_name == Some(team_name),
            a.member_name == Some(member_name),
            a.color == color,
            a.is_lead == is_lead,
    {
        let mut agent = Self::new(id, project_dir, jsonl_file, folder_name);
        agent.team_name = Some(team_name);
        agent.member_name = Some(member_name);
        agent.color = color;
        agent.is_lead = is_lead;
        agent.is_subagent = parent_id.is_some();
        agent.parent_id = parent_id;
        agent
    }

    /// Forgets the running tools and the turn's status: the agent is idle again.
    pub fn clear_activity(&mut self)
        ensures
            final(self).wf(),
            final(self).same_identity(old(self)),
            final(self).active_tools@.len() == 0,
            !final(self).is_waiting,
            !final(self).permission_sent,
            final(self).status == AgentStatus::Idle,
            final(self).last_status_text@.len() == 0,
            final(self).had_tools_in_turn == old(self).had_tools_in_turn,
    {
        self.active_tools = Vec::new();
        self.is_waiting = false;
        self.permission_sent = false;
        self.status = AgentStatus::Idle;
        self.last_status_text = String::new();
    }

    /// The status line shown for this agent: a running tool's status first.
    pub fn current_status_text(&self) -> (s: String)
        ensures
            s@ == status_line(self@),
            self.active_tools@.len() > 0 ==> s@ == self.active_tools@[0].status@,
            self.wf() && self.active_tools@.len() > 0 ==> exists|k: Seq<char>|
                #[trigger] self.tools().contains_key(k) && self.tools()[k].1 == s@,
            self.active_tools@.len() == 0 ==> s@ == match self.status {
                AgentStatus::Active => if self.last_status_text@.len() > 0 {
                    self.last_status_text@
                } else {
                    "Thinking..."@
                },
                AgentStatus::Idle => "Idle"@,
                AgentStatus::WaitingPermission => "Waiting for permission"@,
            },
    {
        // Priority 1: actively running tool — show its specific status
        if self.active_tools.len() > 0 {
            let ghost k = self.active_tools@[0].id@;
            proof {
                if self.wf() {
                    assert(self.active_tools@[0].id@ == k);
                    assert(self.tools().contains_key(k));
                    let i = choose|i: int|
                        0 <= i < self.active_tools@.len() && #[trigger] self.active_tools@[i].id@ == k;
                    assert(i == 0);
                }
            }
            return self.active_tools[0].status.clone();
        }
        match self.status {
            AgentStatus::Active => {
                // Between tool calls: show last tool status if we have one,
                // otherwise "Thinking..." (the model is composing its next step)
                if !self.last_status_text.as_str().is_empty() {
                    self.last_status_text.clone()
                } else {
                    String::from_str("Thinking...")
                }
            },
            AgentStatus::Idle => String::from_str("Idle"),
            AgentStatus::WaitingPermission => String::from_str("Waiting for permission"),
        }
    }
}


/// The entry of a tool in the list is what the map gives for its id.
pub proof fn lemma_tool_map_entry(tools: Seq<ActiveTool>, j: int)
    requires
        ids_distinct(tools),
        0 <= j < tools.len(),
    ensures
        tool_map(tools).contains_key(tools[j].id@),
        tool_map(tools)[tools[j].id@] == (tools[j].name@, tools[j].status@),
{
    let k = tools[j].id@;
    assert(tool_map(tools).contains_key(k));
    let i = choose|i: int| 0 <= i < tools.len() && #[trigger] tools[i].id@ == k;
    assert(i == j);
}

proof fn lemma_map_update(s: Seq<ActiveTool>, i: int, t: ActiveTool)
    requires
        ids_distinct(s),
        0 <= i < s.len(),
        s[i].id@ == t.id@,
    ensures
        ids_distinct(s.update(i, t)),
        tool_map(s.update(i, t)) == tool_map(s).insert(t.id@, (t.name@, t.status@)),
{
    let s2 = s.update(i, t);
    assert forall|a: int, b: int|
        0 <= a < s2.len() && 0 <= b < s2.len() && a != b implies #[trigger] s2[a].id@
        != #[trigger] s2[b].id@ by {
        assert(s[a].id@ != s[b].id@);
    }
    let m = tool_map(s).insert(t.id@, (t.name@, t.status@));
    assert forall|k: Seq<char>| #[trigger] tool_map(s2).contains_key(k) <==> m.contains_key(k) by {
        if tool_map(s2).contains_key(k) {
            let j = choose|j: int| 0 <= j < s2.len() && #[trigger] s2[j].id@ == k;
            if j != i {
                lemma_tool_map_entry(s, j);
            }
        }
        if m.contains_key(k) && k != t.id@ {
            let j = choose|j: int| 0 <= j < s.len() && #[trigger] s[j].id@ == k;
            lemma_tool_map_entry(s2, j);
        }
        if k == t.id@ {
            lemma_tool_map_entry(s2, i);
        }
    }
    assert forall|k: Seq<char>| #[trigger] tool_map(s2).contains_key(k) implies tool_map(s2)[k]
        == m[k] by {
        let j = choose|j: int| 0 <= j < s2.len() && #[trigger] s2[j].id@ == k;
        lemma_tool_map_entry(s2, j);
        if j != i {
            lemma_tool_map_entry(s, j);
        }
    }
    assert(tool_map(s2) =~= m);
}

proof fn lemma_map_push(s: Seq<ActiveTool>, t: ActiveTool)
    requires
        ids_distinct(s),
        forall|j: int| 0 <= j < s.len() ==> (#[trigger] s[j]).id@ != t.id@,
    ensures
        ids_distinct(s.push(t)),
        tool_map(s.push(t)) == tool_map(s).insert(t.id@, (t.name@, t.status@)),
{
    let s2 = s.push(t);
    let n = s.len() as int;
    assert forall|a: int, b: int|
        0 <= a < s2.len() && 0 <= b < s2.len() && a != b implies #[trigger] s2[a].id@
        != #[trigger] s2[b].id@ by {
        if a == n {
            assert(s[b].id@ != t.id@);
        } else if b == n {
            assert(s[a].id@ != t.id@);
        } else {
            assert(s[a].id@ != s[b].id@);
        }
    }
    let m = tool_map(s).insert(t.id@, (t.name@, t.status@));
    assert forall|k: Seq<char>| #[trigger] tool_map(s2).contains_key(k) <==> m.contains_key(k) by {
        if tool_map(s2).contains_key(k) {
            let j = choose|j: int| 0 <= j < s2.len() && #[trigger] s2[j].id@ == k;
            if j != n {
                assert(s[j].id@ == k);
            }
        }
        if m.contains_key(k) && k != t.id@ {
            let j = choose|j: int| 0 <= j < s.len() && #[trigger] s[j].id@ == k;
            assert(s2[j].id@ == k);
        }
        if k == t.id@ {
            assert(s2[n].id@ == k);
        }
    }
    assert forall|k: Seq<char>| #[trigger] tool_map(s2).contains_key(k) implies tool_map(s2)[k]
        == m[k] by {
        let j = choose|j: int| 0 <= j < s2.len() && #[trigger] s2[j].id@ == k;
        lemma_tool_map_entry(s2, j);
        if j != n {
            assert(s2[j] == s[j]);
            lemma_tool_map_entry(s, j);
        }
    }
    assert(tool_map(s2) =~= m);
}

proof fn lemma_map_remove(s: Seq<ActiveTool>, i: int)
    requires
        ids_distinct(s),
        0 <= i < s.len(),
    ensures
        ids_distinct(s.remove(i)),
        tool_map(s.remove(i)) == tool_map(s).remove(s[i].id@),
{
    let s2 = s.remove(i);
    let id = s[i].id@;
    assert forall|a: int, b: int|
        0 <= a < s2.len() && 0 <= b < s2.len() && a != b implies #[trigger] s2[a].id@
        != #[trigger] s2[b].id@ by {
        let a0 = if a < i {
            a
        } else {
            a + 1
        };
        let b0 = if b < i {
            b
        } else {
            b + 1
        };
        assert(s2[a] == s[a0]);
        assert(s2[b] == s[b0]);
        assert(s[a0].id@ != s[b0].id@);
    }
    let m = tool_map(s).remove(id);
    assert forall|k: Seq<char>| #[trigger] tool_map(s2).contains_key(k) <==> m.contains_key(k) by {
        if tool_map(s2).contains_key(k) {
            let j = choose|j: int| 0 <= j < s2.len() && #[trigger] s2[j].id@ == k;
            let j0 = if j < i {
                j
            } else {
                j + 1
            };
            assert(s2[j] == s[j0]);
            assert(s[j0].id@ == k);
            assert(s[i].id@ != s[j0].id@);
        }
        if m.contains_key(k) {
            let j = choose|j: int| 0 <= j < s.len() && #[trigger] s[j].id@ == k;
            assert(j != i);
            let j2 = if j < i {
                j
            } else {
                j - 1
            };
            assert(s2[j2] == s[j]);
            assert(s2[j2].id@ == k);
        }
    }
    assert forall|k: Seq<char>| #[trigger] tool_map(s2).contains_key(k) implies tool_map(s2)[k]
        == m[k] by {
        let j = choose|j: int| 0 <= j < s2.len() && #[trigger] s2[j].id@ == k;
        let j0 = if j < i {
            j
        } else {
            j + 1
        };
        assert(s2[j] == s[j0]);
        lemma_tool_map_entry(s2, j);
        lemma_tool_map_entry(s, j0);
    }
    assert(tool_map(s2) =~= m);
}

/// Records a running tool: a tool with the same id is replaced in place.
pub fn set_tool(tools: &mut Vec<ActiveTool>, id: String, name: String, status: String)
    requires
        ids_distinct(old(tools)@),
    ensures
        ids_distinct(final(tools)@),
        tool_map(final(tools)@) == tool_map(old(tools)@).insert(id@, (name@, status@)),
{
    let ghost s = tools@;
    let mut i: usize = 0;
    while i < tools.len()
        invariant
            tools@ == s,
            old(tools)@ == s,
            ids_distinct(s),
            i <= s.len(),
            forall|j: int| 0 <= j < i ==> (#[trigger] s[j]).id@ != id@,
        decreases s.len() - i,
    {
        if str_eq(tools[i].id.as_str(), id.as_str()) {
            let t = ActiveTool { id, name, status };
            proof {
                lemma_map_update(s, i as int, t);
            }
            tools.set(i, t);
            return;
        }
        i = i + 1;
    }
    let t = ActiveTool { id, name, status };
    proof {
        lemma_map_push(s, t);
    }
    tools.push(t);
}

/// Forgets the running tool `id`, if there is one.
pub fn remove_tool(tools: &mut Vec<ActiveTool>, id: &str)
    requires
        ids_distinct(old(tools)@),
    ensures
        ids_distinct(final(tools)@),
        tool_map(final(tools)@) == tool_map(old(tools)@).remove(id@),
{
    let ghost s = tools@;
    let mut i: usize = 0;
    while i < tools.len()
        invariant
            tools@ == s,
            old(tools)@ == s,
            ids_distinct(s),
            i <= s.len(),
            forall|j: int| 0 <= j < i ==> (#[trigger] s[j]).id@ != id@,
        decreases s.len() - i,
    {
        if str_eq(tools[i].id.as_str(), id) {
            proof {
                lemma_map_remove(s, i as int);
            }
            let _ = tools.remove(i);
            return;
        }
        i = i + 1;
    }
    proof {
        assert forall|k: Seq<char>| #[trigger] tool_map(s).contains_key(k) implies k != id@ by {
            let j = choose|j: int| 0 <= j < s.len() && #[trigger] s[j].id@ == k;
        }
        assert(tool_map(s).remove(id@) =~= tool_map(s));
    }
}

} // verus!
