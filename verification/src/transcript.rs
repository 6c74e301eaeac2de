use vstd::prelude::*;
use vstd::string::*;
use vstd::utf8::*;

use crate::constants::{BASH_COMMAND_DISPLAY_MAX_LENGTH, TASK_DESCRIPTION_DISPLAY_MAX_LENGTH};
use crate::json::{Json, json_get, parse_json, parsed_json, str_eq, str_member, str_member_or_empty};
use crate::types::{ActiveTool, AgentEvent, AgentState, AgentStatus, AgentView, EventView, events_view, remove_tool, set_tool, status_line, tool_map};

verus! {

// ── Text helpers ────────────────────────────────────────────────

/// The UTF-8 length of a string, in bytes.
pub open spec fn utf8_len(s: Seq<char>) -> int {
    encode_utf8(s).len() as int
}

/// The first `n` bytes of `s`, read back as characters.
pub open spec fn utf8_prefix(s: Seq<char>, n: int) -> Seq<char> {
    decode_utf8(encode_utf8(s).subrange(0, n))
}

/// The greatest byte index up to `n` at which `bytes` falls between two characters.
pub open spec fn boundary_at_most(bytes: Seq<u8>, n: int) -> int
    decreases n,
{
    if n <= 0 {
        0
    } else if is_char_boundary(bytes, n) {
        n
    } else {
        boundary_at_most(bytes, n - 1)
    }
}

/// `s` cut to at most `n` bytes, with an ellipsis where something was cut. The cut falls
/// between two characters: where byte `n` is inside one, that character is left out too.
pub open spec fn shortened(s: Seq<char>, n: int) -> Seq<char> {
    if utf8_len(s) > n {
        utf8_prefix(s, boundary_at_most(encode_utf8(s), n)) + "\u{2026}"@
    } else {
        s
    }
}

/// The first `n` bytes of `s`.
fn byte_prefix(s: &str, n: usize) -> (r: &str)
    requires
        s.spec_bytes().len() > n,
        is_char_boundary(s.spec_bytes(), n as int),
    ensures
        r@ == utf8_prefix(s@, n as int),
{
    let (head, _tail) = s.split_at(n);
    proof {
        encode_utf8_decode_utf8(head@);
        assert(head.spec_bytes() =~= encode_utf8(s@).subrange(0, n as int));
    }
    head
}

/// The greatest byte index up to `n` at which `s` can be cut.
fn floor_boundary(s: &str, n: usize) -> (k: usize)
    requires
        s.spec_bytes().len() > n,
    ensures
        k == boundary_at_most(s.spec_bytes(), n as int),
        k <= n,
        is_char_boundary(s.spec_bytes(), k as int),
{
    proof {
        encode_utf8_valid_utf8(s@);
        is_char_boundary_start_end_of_seq(s.spec_bytes());
    }
    let mut k = n;
    while k > 0 && !s.is_char_boundary(k)
        invariant
            k <= n,
            s.spec_bytes().len() > n,
            valid_utf8(s.spec_bytes()),
            boundary_at_most(s.spec_bytes(), n as int) == boundary_at_most(s.spec_bytes(), k as int),
        decreases k,
    {
        k = k - 1;
    }
    k
}

/// `prefix` followed by `s` cut to at most `n` bytes (with an ellipsis where cut).
fn with_shortened(prefix: &str, s: &str, n: usize) -> (r: String)
    ensures
        r@ == prefix@ + shortened(s@, n as int),
{
    let mut out = String::from_str(prefix);
    if s.as_bytes().len() > n {
        let k = floor_boundary(s, n);
        let head = byte_prefix(s, k);
        out.append(head);
        out.append("\u{2026}");
        assert(out@ =~= prefix@ + (head@ + "\u{2026}"@));
    } else {
        out.append(s);
    }
    out
}

// ── Tool status lines ───────────────────────────────────────────

/// The file name of a path, as `std::path::Path::file_name` gives it.
pub uninterp spec fn path_file_name(path: Seq<char>) -> Option<Seq<char>>;

/// Calls `std::path::Path::file_name` on `path`; the result is stated only as the
/// named value `path_file_name(path)`.
#[verifier::external_body]
pub(crate) fn file_name(path: &str) -> (r: Option<String>)
    ensures
        match r {
            Some(f) => path_file_name(path@) == Some(f@),
            None => path_file_name(path@) is None,
        },
{
    std::path::Path::new(path).file_name().map(|f| f.to_string_lossy().to_string())
}

/// The string member `key` of the tool input, if there is one.
pub open spec fn input_str(input: Option<Json>, key: Seq<char>) -> Option<Seq<char>> {
    match input {
        Some(v) => str_member(v, key),
        None => None,
    }
}

/// The string member `key` of the tool input, or the empty string.
pub open spec fn input_str_or_empty(input: Option<Json>, key: Seq<char>) -> Seq<char> {
    match input_str(input, key) {
        Some(s) => s,
        None => Seq::empty(),
    }
}

/// The file name of the path in member `key` (the path itself if it has none).
pub open spec fn input_basename(input: Option<Json>, key: Seq<char>) -> Seq<char> {
    match input_str(input, key) {
        Some(p) => match path_file_name(p) {
            Some(f) => f,
            None => p,
        },
        None => Seq::empty(),
    }
}

/// The human-readable status of a call of tool `name` with `input`.
pub open spec fn tool_status(name: Seq<char>, input: Option<Json>) -> Seq<char> {
    if name == "Read"@ {
        "Reading "@ + input_basename(input, "file_path"@)
    } else if name == "Edit"@ {
        "Editing "@ + input_basename(input, "file_path"@)
    } else if name == "Write"@ {
        "Writing "@ + input_basename(input, "file_path"@)
    } else if name == "Bash"@ {
        "Running: "@ + shortened(
            input_str_or_empty(input, "command"@),
            BASH_COMMAND_DISPLAY_MAX_LENGTH as int,
        )
    } else if name == "Glob"@ {
        "Searching files"@
    } else if name == "Grep"@ {
        "Searching code"@
    } else if name == "WebFetch"@ {
        "Fetching web content"@
    } else if name == "WebSearch"@ {
        "Searching the web"@
    } else if name == "Task"@ || name == "Agent"@ {
        let desc = input_str_or_empty(input, "description"@);
        if desc.len() == 0 {
            "Running subtask"@
        } else {
            "Subtask: "@ + shortened(desc, TASK_DESCRIPTION_DISPLAY_MAX_LENGTH as int)
        }
    } else if name == "AskUserQuestion"@ {
        "Waiting for your answer"@
    } else if name == "EnterPlanMode"@ {
        "Planning"@
    } else if name == "NotebookEdit"@ {
        "Editing notebook"@
    } else {
        "Using "@ + name
    }
}

fn input_str_of<'a>(input: &'a Json, key: &str) -> (r: &'a str)
    ensures
        r@ == input_str_or_empty(Some(*input), key@),
{
    proof {
        reveal_strlit("");
    }
    match input.str_member(key) {
        Some(s) => s,
        None => "",
    }
}

/// The name a status shows for `path`, given what `Path::file_name` gave for it: that
/// file name, or the whole path where there is none.
pub fn shown_name(path: &str, file_name: Option<String>) -> (r: String)
    ensures
        r@ == match file_name {
            Some(f) => f@,
            None => path@,
        },
{
    match file_name {
        Some(f) => f,
        None => String::from_str(path),
    }
}

fn input_basename_of(input: &Json, key: &str) -> (r: String)
    ensures
        r@ == input_basename(Some(*input), key@),
{
    match input.str_member(key) {
        Some(p) => shown_name(p, file_name(p)),
        None => String::new(),
    }
}

/// Format a tool invocation into a human-readable status string.
pub fn format_tool_status(tool_name: &str, input: &Json) -> (s: String)
    ensures
        s@ == tool_status(tool_name@, Some(*input)),
{
    proof {
        reveal_strlit("");
    }
    if str_eq(tool_name, "Read") {
        String::from_str("Reading ").concat(input_basename_of(input, "file_path").as_str())
    } else if str_eq(tool_name, "Edit") {
        String::from_str("Editing ").concat(input_basename_of(input, "file_path").as_str())
    } else if str_eq(tool_name, "Write") {
        String::from_str("Writing ").concat(input_basename_of(input, "file_path").as_str())
    } else if str_eq(tool_name, "Bash") {
        let cmd = input_str_of(input, "command");
        with_shortened("Running: ", cmd, BASH_COMMAND_DISPLAY_MAX_LENGTH)
    } else if str_eq(tool_name, "Glob") {
        String::from_str("Searching files")
    } else if str_eq(tool_name, "Grep") {
        String::from_str("Searching code")
    } else if str_eq(tool_name, "WebFetch") {
        String::from_str("Fetching web content")
    } else if str_eq(tool_name, "WebSearch") {
        String::from_str("Searching the web")
    } else if str_eq(tool_name, "Task") || str_eq(tool_name, "Agent") {
        let desc = input_str_of(input, "description");
        if desc.is_empty() {
            String::from_str("Running subtask")
        } else {
            with_shortened("Subtask: ", desc, TASK_DESCRIPTION_DISPLAY_MAX_LENGTH)
        }
    } else if str_eq(tool_name, "AskUserQuestion") {
        String::from_str("Waiting for your answer")
    } else if str_eq(tool_name, "EnterPlanMode") {
        String::from_str("Planning")
    } else if str_eq(tool_name, "NotebookEdit") {
        String::from_str("Editing notebook")
    } else {
        String::from_str("Using ").concat(tool_name)
    }
}

/// Whether a tool animates its agent as reading (rather than typing).
pub open spec fn reading_tool(tool_name: Seq<char>) -> bool {
    ||| tool_name == "Read"@
    ||| tool_name == "Grep"@
    ||| tool_name == "Glob"@
    ||| tool_name == "WebFetch"@
    ||| tool_name == "WebSearch"@
}

/// Returns true if this tool triggers a reading animation rather than typing.
pub fn is_reading_tool(tool_name: &str) -> (r: bool)
    ensures
        r == reading_tool(tool_name@),
{
    str_eq(tool_name, "Read") || str_eq(tool_name, "Grep") || str_eq(tool_name, "Glob")
        || str_eq(tool_name, "WebFetch") || str_eq(tool_name, "WebSearch")
}


// ── Transcript records ──────────────────────────────────────────

/// The `type` of a record ("" when it has none).
pub open spec fn record_kind(r: Json) -> Seq<char> {
    str_member_or_empty(r, "type"@)
}

/// `record.message.content`, if there is one.
pub open spec fn message_content(r: Json) -> Option<Json> {
    match json_get(r, "message"@) {
        Some(m) => json_get(m, "content"@),
        None => None,
    }
}

/// The content blocks of a record whose content is an array.
pub open spec fn content_blocks(r: Json) -> Option<Seq<Json>> {
    match message_content(r) {
        Some(Json::Array(bs)) => Some(bs@),
        _ => None,
    }
}

/// Whether block `b` has the string `type` `t`.
pub open spec fn is_block_of_type(b: Json, t: Seq<char>) -> bool {
    str_member(b, "type"@) == Some(t)
}

/// Whether some block has type `t`.
pub open spec fn any_block_of_type(bs: Seq<Json>, t: Seq<char>) -> bool {
    exists|i: int| 0 <= i < bs.len() && is_block_of_type(#[trigger] bs[i], t)
}

/// The tool call of a `tool_use` block: its id, its tool's name and its status line.
pub open spec fn tool_call(b: Json) -> (Seq<char>, Seq<char>, Seq<char>) {
    let name = str_member_or_empty(b, "name"@);
    (str_member_or_empty(b, "id"@), name, tool_status(name, json_get(b, "input"@)))
}

/// The tool calls of the `tool_use` blocks, in order.
pub open spec fn tool_calls(bs: Seq<Json>) -> Seq<(Seq<char>, Seq<char>, Seq<char>)>
    decreases bs.len(),
{
    if bs.len() == 0 {
        Seq::empty()
    } else {
        tool_calls(bs.drop_last()) + if is_block_of_type(bs.last(), "tool_use"@) {
            seq![tool_call(bs.last())]
        } else {
            Seq::empty()
        }
    }
}

/// The ids of the tools that the `tool_result` blocks finish, in order (blocks without a
/// string `tool_use_id` finish nothing).
pub open spec fn result_ids(bs: Seq<Json>) -> Seq<Seq<char>>
    decreases bs.len(),
{
    if bs.len() == 0 {
        Seq::empty()
    } else {
        result_ids(bs.drop_last()) + if is_block_of_type(bs.last(), "tool_result"@) && str_member(
            bs.last(),
            "tool_use_id"@,
        ) is Some {
            seq![str_member(bs.last(), "tool_use_id"@).unwrap()]
        } else {
            Seq::empty()
        }
    }
}

/// `m` with each call recorded in turn (a later call with the same id wins).
pub open spec fn with_calls(
    m: Map<Seq<char>, (Seq<char>, Seq<char>)>,
    calls: Seq<(Seq<char>, Seq<char>, Seq<char>)>,
) -> Map<Seq<char>, (Seq<char>, Seq<char>)>
    decreases calls.len(),
{
    if calls.len() == 0 {
        m
    } else {
        with_calls(m, calls.drop_last()).insert(calls.last().0, (calls.last().1, calls.last().2))
    }
}

/// `m` without the given ids.
pub open spec fn without_ids(m: Map<Seq<char>, (Seq<char>, Seq<char>)>, ids: Seq<Seq<char>>) -> Map<
    Seq<char>,
    (Seq<char>, Seq<char>),
>
    decreases ids.len(),
{
    if ids.len() == 0 {
        m
    } else {
        without_ids(m, ids.drop_last()).remove(ids.last())
    }
}

/// A user record that opens a new turn: text content, or blocks without a tool result.
pub open spec fn starts_new_turn(r: Json) -> bool {
    match message_content(r) {
        Some(Json::Array(bs)) => !any_block_of_type(bs@, "tool_result"@),
        Some(Json::Str(_)) => true,
        _ => false,
    }
}

/// The events announcing the tool calls of agent `id`.
pub open spec fn start_events(id: u32, calls: Seq<(Seq<char>, Seq<char>, Seq<char>)>) -> Seq<EventView> {
    calls.map_values(
        |c: (Seq<char>, Seq<char>, Seq<char>)|
            EventView::ToolStart { agent_id: id, tool_id: c.0, tool_name: c.1, status: c.2 },
    )
}

/// The events announcing that tools `ids` of agent `id` are done.
pub open spec fn done_events(id: u32, ids: Seq<Seq<char>>) -> Seq<EventView> {
    ids.map_values(|t: Seq<char>| EventView::ToolDone { agent_id: id, tool_id: t })
}

/// What one transcript record does to an agent (`pre` before, `post` after) and the
/// events it emits.
pub open spec fn transcript_effect(
    pre: AgentState,
    post: AgentState,
    record: Json,
    events: Seq<EventView>,
) -> bool {
    let kind = record_kind(record);
    let id = pre.id;
    if kind == "assistant"@ && (content_blocks(record) matches Some(bs) && any_block_of_type(
        bs,
        "tool_use"@,
    )) {
        // The assistant called tools: they run now.
        let calls = tool_calls(content_blocks(record).unwrap());
        &&& post.same_identity(&pre)
        &&& !post.is_waiting
        &&& post.had_tools_in_turn
        &&& post.status == AgentStatus::Active
        &&& post.permission_sent == pre.permission_sent
        &&& post.tools() == with_calls(pre.tools(), calls)
        &&& post.last_status_text@ == calls.last().2
        &&& events == seq![EventView::StatusChange { agent_id: id, status: AgentStatus::Active }]
            + start_events(id, calls)
    } else if kind == "user"@ && starts_new_turn(record) {
        // A new user prompt: a new turn starts.
        &&& post.same_identity(&pre)
        &&& post.active_tools@.len() == 0
        &&& !post.is_waiting
        &&& !post.permission_sent
        &&& !post.had_tools_in_turn
        &&& post.status == AgentStatus::Idle
        &&& post.last_status_text@.len() == 0
        &&& events == seq![EventView::ClearActivity { agent_id: id }]
    } else if kind == "user"@ && (content_blocks(record) matches Some(bs) && any_block_of_type(
        bs,
        "tool_result"@,
    )) {
        // Tool results: those tools are done.
        let ids = result_ids(content_blocks(record).unwrap());
        &&& post.same_identity(&pre)
        &&& post.is_waiting == pre.is_waiting
        &&& post.permission_sent == pre.permission_sent
        &&& post.status == pre.status
        &&& post.last_status_text == pre.last_status_text
        &&& post.tools() == without_ids(pre.tools(), ids)
        &&& post.had_tools_in_turn == (pre.had_tools_in_turn && post.active_tools@.len() > 0)
        &&& events == done_events(id, ids)
    } else if kind == "system"@ && str_member_or_empty(record, "subtype"@) == "turn_duration"@ {
        // The turn is over: the agent waits for input.
        &&& post.same_identity(&pre)
        &&& post.active_tools@.len() == 0
        &&& post.is_waiting
        &&& !post.permission_sent
        &&& !post.had_tools_in_turn
        &&& post.status == AgentStatus::Idle
        &&& post.last_status_text == pre.last_status_text
        &&& events == seq![EventView::StatusChange { agent_id: id, status: AgentStatus::Idle }]
    } else {
        &&& post == pre
        &&& events.len() == 0
    }
}

/// `record.message.content`, if there is one.
fn message_content_of(record: &Json) -> (r: Option<&Json>)
    ensures
        match r {
            Some(c) => message_content(*record) == Some(*c),
            None => message_content(*record) is None,
        },
{
    match record.get("message") {
        Some(m) => m.get("content"),
        None => None,
    }
}

fn block_is(b: &Json, t: &str) -> (r: bool)
    ensures
        r == is_block_of_type(*b, t@),
{
    match b.str_member("type") {
        Some(bt) => str_eq(bt, t),
        None => false,
    }
}

fn any_of_type(blocks: &Vec<Json>, t: &str) -> (r: bool)
    ensures
        r == any_block_of_type(blocks@, t@),
{
    let mut i: usize = 0;
    while i < blocks.len()
        invariant
            i <= blocks@.len(),
            forall|j: int| 0 <= j < i ==> !is_block_of_type(#[trigger] blocks@[j], t@),
        decreases blocks@.len() - i,
    {
        if block_is(&blocks[i], t) {
            return true;
        }
        i = i + 1;
    }
    false
}

proof fn lemma_tool_map_empty(tools: Seq<ActiveTool>)
    requires
        tools.len() == 0,
    ensures
        tool_map(tools) == Map::<Seq<char>, (Seq<char>, Seq<char>)>::empty(),
{
    assert(tool_map(tools) =~= Map::<Seq<char>, (Seq<char>, Seq<char>)>::empty());
}

proof fn lemma_calls_nonempty(bs: Seq<Json>, j: int)
    requires
        0 <= j < bs.len(),
        is_block_of_type(bs[j], "tool_use"@),
    ensures
        tool_calls(bs).len() > 0,
    decreases bs.len(),
{
    if j < bs.len() - 1 {
        lemma_calls_nonempty(bs.drop_last(), j);
    }
}

/// The string member `key` of `b`, or "".
fn member_or_empty<'a>(b: &'a Json, key: &str) -> (r: &'a str)
    ensures
        r@ == str_member_or_empty(*b, key@),
{
    proof {
        reveal_strlit("");
    }
    match b.str_member(key) {
        Some(s) => s,
        None => "",
    }
}

proof fn lemma_kinds_distinct()
    ensures
        "assistant"@ != "user"@,
        "assistant"@ != "system"@,
        "user"@ != "system"@,
{
    reveal_strlit("assistant");
    reveal_strlit("user");
    reveal_strlit("system");
    assert("assistant"@[0] != "user"@[0]);
    assert("assistant"@[0] != "system"@[0]);
    assert("user"@[0] != "system"@[0]);
}

/// Process a single JSONL transcript line and update the agent state.
/// Returns a list of events to be handled by the UI. A line that is not JSON changes
/// nothing and gives no events.
pub fn process_transcript_line(line: &str, agent: &mut AgentState) -> (events: Vec<AgentEvent>)
    requires
        old(agent).wf(),
    ensures
        final(agent).wf(),
        match parsed_json(line@) {
            Some(r) => transcript_effect(*old(agent), *final(agent), r, events_view(events@)),
            None => *final(agent) == *old(agent) && events@.len() == 0,
        },
{
    match parse_json(line) {
        Some(record) => process_record(&record, agent),
        None => Vec::new(),
    }
}

/// Process one parsed transcript record and update the agent state.
/// Returns a list of events to be handled by the UI.
pub fn process_record(record: &Json, agent: &mut AgentState) -> (events: Vec<AgentEvent>)
    requires
        old(agent).wf(),
    ensures
        final(agent).wf(),
        transcript_effect(*old(agent), *final(agent), *record, events_view(events@)),
{
    let ghost pre = *agent;
    proof {
        lemma_kinds_distinct();
    }
    let mut events: Vec<AgentEvent> = Vec::new();
    let record_type = member_or_empty(record, "type");

    if str_eq(record_type, "assistant") {
        if let Some(content) = message_content_of(record) {
            if let Some(blocks) = content.as_array() {
                let has_tool_use = any_of_type(blocks, "tool_use");
                if has_tool_use {
                    agent.is_waiting = false;
                    agent.had_tools_in_turn = true;
                    agent.status = AgentStatus::Active;
                    events.push(AgentEvent::StatusChange { agent_id: agent.id, status: AgentStatus::Active });
                    let ghost id = pre.id;
                    let ghost bs = blocks@;
                    let ghost first = seq![EventView::StatusChange { agent_id: id, status: AgentStatus::Active }];
                    let mut i: usize = 0;
                    assert(bs.take(0) =~= Seq::<Json>::empty());
                    assert(events_view(events@) =~= first);
                    assert(start_events(id, tool_calls(bs.take(0))) =~= Seq::<EventView>::empty());
                    while i < blocks.len()
                        invariant
                            bs == blocks@,
                            content_blocks(*record) == Some(bs),
                            i <= bs.len(),
                            agent.wf(),
                            agent.same_identity(&pre),
                            id == pre.id,
                            !agent.is_waiting,
                            agent.had_tools_in_turn,
                            agent.status == AgentStatus::Active,
                            agent.permission_sent == pre.permission_sent,
                            agent.tools() == with_calls(pre.tools(), tool_calls(bs.take(i as int))),
                            tool_calls(bs.take(i as int)).len() > 0 ==> agent.last_status_text@
                                == tool_calls(bs.take(i as int)).last().2,
                            first == seq![EventView::StatusChange { agent_id: id, status: AgentStatus::Active }],
                            events_view(events@) == first + start_events(id, tool_calls(bs.take(i as int))),
                        decreases bs.len() - i,
                    {
                        let block = &blocks[i];
                        let ghost calls_before = tool_calls(bs.take(i as int));
                        assert(bs.take(i + 1).drop_last() =~= bs.take(i as int));
                        assert(bs.take(i + 1).last() == bs[i as int]);
                        if block_is(block, "tool_use") {
                            let tool_id = String::from_str(member_or_empty(block, "id"));
                            let tool_name = String::from_str(member_or_empty(block, "name"));
                            let status = match block.get("input") {
                                Some(input) => format_tool_status(tool_name.as_str(), input),
                                None => {
                                    let empty = Json::Object(Vec::new());
                                    assert(str_member(empty, "command"@) is None);
                                    assert(str_member(empty, "description"@) is None);
                                    assert(str_member(empty, "file_path"@) is None);
                                    assert(tool_status(tool_name@, Some(empty)) == tool_status(
                                        tool_name@,
                                        None,
                                    ));
                                    format_tool_status(tool_name.as_str(), &empty)
                                },
                            };
                            assert(status@ == tool_call(bs[i as int]).2);
                            let ghost call = tool_call(bs[i as int]);
                            assert(call == (tool_id@, tool_name@, status@));
                            set_tool(&mut agent.active_tools, tool_id.clone(), tool_name.clone(), status.clone());
                            agent.last_status_text = status.clone();
                            let ghost ev = EventView::ToolStart {
                                agent_id: id,
                                tool_id: call.0,
                                tool_name: call.1,
                                status: call.2,
                            };
                            let ghost old_events = events@;
                            events.push(AgentEvent::ToolStart { agent_id: agent.id, tool_id, tool_name, status });
                            proof {
                                assert(events@ == old_events.push(events@.last()));
                                assert(events@.last()@ == ev);
                                assert(tool_calls(bs.take(i + 1)) == calls_before + seq![call]);
                                assert((calls_before + seq![call]).drop_last() =~= calls_before);
                                assert(tool_calls(bs.take(i + 1)).last() == call);
                                assert(agent.tools() == with_calls(pre.tools(), tool_calls(bs.take(i + 1))));
                                assert(events_view(events@) =~= events_view(old_events).push(ev));
                                assert(start_events(id, calls_before + seq![call]) =~= start_events(id, calls_before).push(ev));
                                assert(events_view(events@) =~= first + start_events(id, tool_calls(bs.take(i + 1))));
                            }
                        } else {
                            proof {
                                assert(tool_calls(bs.take(i + 1)) =~= calls_before);
                            }
                        }
                        i = i + 1;
                    }
                    proof {
                        assert(bs.take(bs.len() as int) =~= bs);
                        let j = choose|j: int| 0 <= j < bs.len() && is_block_of_type(#[trigger] bs[j], "tool_use"@);
                        lemma_calls_nonempty(bs, j);
                    }
                    assert(transcript_effect(pre, *agent, *record, events_view(events@)));
                } else {
                    assert(events_view(events@).len() == 0);
                    assert(transcript_effect(pre, *agent, *record, events_view(events@)));
                }
            } else {
                assert(events_view(events@).len() == 0);
                assert(transcript_effect(pre, *agent, *record, events_view(events@)));
            }
        } else {
            assert(events_view(events@).len() == 0);
            assert(transcript_effect(pre, *agent, *record, events_view(events@)));
        }
    } else if str_eq(record_type, "user") {
        if let Some(content) = message_content_of(record) {
            if let Some(blocks) = content.as_array() {
                let has_tool_result = any_of_type(blocks, "tool_result");
                if has_tool_result {
                    let ghost id = pre.id;
                    let ghost bs = blocks@;
                    let mut i: usize = 0;
                    assert(bs.take(0) =~= Seq::<Json>::empty());
                    assert(events_view(events@) =~= Seq::<EventView>::empty());
                    assert(done_events(id, result_ids(bs.take(0))) =~= Seq::<EventView>::empty());
                    while i < blocks.len()
                        invariant
                            bs == blocks@,
                            i <= bs.len(),
                            agent.wf(),
                            id == pre.id,
                            *agent == (AgentState { active_tools: agent.active_tools, ..pre }),
                            agent.tools() == without_ids(pre.tools(), result_ids(bs.take(i as int))),
                            events_view(events@) == done_events(id, result_ids(bs.take(i as int))),
                        decreases bs.len() - i,
                    {
                        let block = &blocks[i];
                        let ghost ids_before = result_ids(bs.take(i as int));
                        assert(bs.take(i + 1).drop_last() =~= bs.take(i as int));
                        assert(bs.take(i + 1).last() == bs[i as int]);
                        if block_is(block, "tool_result") {
                            if let Some(tool_use_id) = block.str_member("tool_use_id") {
                                remove_tool(&mut agent.active_tools, tool_use_id);
                                let ghost old_events = events@;
                                events.push(AgentEvent::ToolDone {
                                    agent_id: agent.id,
                                    tool_id: String::from_str(tool_use_id),
                                });
                                proof {
                                    assert(events@ == old_events.push(events@.last()));
                                    assert(events@.last()@ == EventView::ToolDone { agent_id: id, tool_id: tool_use_id@ });
                                    assert(result_ids(bs.take(i + 1)) == ids_before + seq![tool_use_id@]);
                                    assert((ids_before + seq![tool_use_id@]).drop_last() =~= ids_before);
                                    assert(agent.tools() == without_ids(pre.tools(), result_ids(bs.take(i + 1))));
                                    let ghost ev = EventView::ToolDone { agent_id: id, tool_id: tool_use_id@ };
                                    assert(events_view(events@) =~= events_view(old_events).push(ev));
                                    assert(done_events(id, ids_before + seq![tool_use_id@]) =~= done_events(id, ids_before).push(ev));
                                    assert(events_view(events@) =~= done_events(id, result_ids(bs.take(i + 1))));
                                }
                            } else {
                                assert(result_ids(bs.take(i + 1)) =~= ids_before);
                            }
                        } else {
                            assert(result_ids(bs.take(i + 1)) =~= ids_before);
                        }
                        i = i + 1;
                    }
                    assert(bs.take(bs.len() as int) =~= bs);
                    if agent.active_tools.len() == 0 {
                        agent.had_tools_in_turn = false;
                    }
                    assert(transcript_effect(pre, *agent, *record, events_view(events@)));
                } else {
                    // New user text prompt — new turn
                    agent.clear_activity();
                    agent.had_tools_in_turn = false;
                    events.push(AgentEvent::ClearActivity { agent_id: agent.id });
                    assert(events_view(events@) =~= seq![EventView::ClearActivity { agent_id: pre.id }]);
                    assert(transcript_effect(pre, *agent, *record, events_view(events@)));
                }
            } else if let Json::Str(_) = content {
                // New user text prompt — new turn
                agent.clear_activity();
                agent.had_tools_in_turn = false;
                events.push(AgentEvent::ClearActivity { agent_id: agent.id });
                assert(events_view(events@) =~= seq![EventView::ClearActivity { agent_id: pre.id }]);
                assert(transcript_effect(pre, *agent, *record, events_view(events@)));
            } else {
                assert(events_view(events@).len() == 0);
                assert(transcript_effect(pre, *agent, *record, events_view(events@)));
            }
        } else {
            assert(events_view(events@).len() == 0);
            assert(transcript_effect(pre, *agent, *record, events_view(events@)));
        }
    } else if str_eq(record_type, "system") {
        let subtype = member_or_empty(record, "subtype");
        if str_eq(subtype, "turn_duration") {
            agent.active_tools = Vec::new();
            agent.is_waiting = true;
            agent.permission_sent = false;
            agent.had_tools_in_turn = false;
            agent.status = AgentStatus::Idle;
            events.push(AgentEvent::StatusChange { agent_id: agent.id, status: AgentStatus::Idle });
            assert(events_view(events@) =~= seq![EventView::StatusChange { agent_id: pre.id, status: AgentStatus::Idle }]);
            assert(transcript_effect(pre, *agent, *record, events_view(events@)));
        } else {
            assert(events_view(events@).len() == 0);
            assert(transcript_effect(pre, *agent, *record, events_view(events@)));
        }
    } else {
        assert(events_view(events@).len() == 0);
        assert(transcript_effect(pre, *agent, *record, events_view(events@)));
    }
    events
}

// ── Laws ────────────────────────────────────────────────────────

proof fn lemma_with_calls_has(
    m: Map<Seq<char>, (Seq<char>, Seq<char>)>,
    calls: Seq<(Seq<char>, Seq<char>, Seq<char>)>,
    j: int,
)
    requires
        0 <= j < calls.len(),
    ensures
        with_calls(m, calls).contains_key(calls[j].0),
    decreases calls.len(),
{
    if j < calls.len() - 1 {
        lemma_with_calls_has(m, calls.drop_last(), j);
    }
}

proof fn lemma_without_ids_lacks(m: Map<Seq<char>, (Seq<char>, Seq<char>)>, ids: Seq<Seq<char>>, j: int)
    requires
        0 <= j < ids.len(),
    ensures
        !without_ids(m, ids).contains_key(ids[j]),
    decreases ids.len(),
{
    if j < ids.len() - 1 {
        lemma_without_ids_lacks(m, ids.drop_last(), j);
    }
}

/// A tool runs from the record that calls it until a record with its result: after an
/// assistant record calling tool `t`, the agent runs `t`; after a user record with a
/// result for `t`, it no longer does.
pub proof fn law_tool_runs_until_result(
    a0: AgentState,
    a1: AgentState,
    a2: AgentState,
    call: Json,
    result: Json,
    e1: Seq<EventView>,
    e2: Seq<EventView>,
    t: Seq<char>,
)
    requires
        transcript_effect(a0, a1, call, e1),
        transcript_effect(a1, a2, result, e2),
        record_kind(call) == "assistant"@,
        content_blocks(call) matches Some(bs) && exists|j: int|
            0 <= j < tool_calls(bs).len() && (#[trigger] tool_calls(bs)[j]).0 == t,
        record_kind(result) == "user"@,
        content_blocks(result) matches Some(bs) && exists|j: int|
            0 <= j < result_ids(bs).len() && #[trigger] result_ids(bs)[j] == t,
    ensures
        a1.tools().contains_key(t),
        !a2.tools().contains_key(t),
{
    lemma_kinds_distinct();
    let bs1 = content_blocks(call).unwrap();
    let j1 = choose|j: int| 0 <= j < tool_calls(bs1).len() && (#[trigger] tool_calls(bs1)[j]).0 == t;
    lemma_tool_call_is_use(bs1, j1);
    lemma_with_calls_has(a0.tools(), tool_calls(bs1), j1);
    let bs2 = content_blocks(result).unwrap();
    let j2 = choose|j: int| 0 <= j < result_ids(bs2).len() && #[trigger] result_ids(bs2)[j] == t;
    lemma_result_id_is_result(bs2, j2);
    lemma_without_ids_lacks(a1.tools(), result_ids(bs2), j2);
}

/// Every tool call comes from a `tool_use` block.
proof fn lemma_tool_call_is_use(bs: Seq<Json>, j: int)
    requires
        0 <= j < tool_calls(bs).len(),
    ensures
        any_block_of_type(bs, "tool_use"@),
    decreases bs.len(),
{
    if bs.len() > 0 {
        if is_block_of_type(bs.last(), "tool_use"@) {
            assert(is_block_of_type(bs[bs.len() - 1], "tool_use"@));
        } else {
            assert(tool_calls(bs) =~= tool_calls(bs.drop_last()));
            lemma_tool_call_is_use(bs.drop_last(), j);
            let i = choose|i: int| 0 <= i < bs.drop_last().len() && is_block_of_type(#[trigger] bs.drop_last()[i], "tool_use"@);
            assert(bs[i] == bs.drop_last()[i]);
        }
    }
}

/// Every finished id comes from a `tool_result` block.
proof fn lemma_result_id_is_result(bs: Seq<Json>, j: int)
    requires
        0 <= j < result_ids(bs).len(),
    ensures
        any_block_of_type(bs, "tool_result"@),
    decreases bs.len(),
{
    if bs.len() > 0 {
        if is_block_of_type(bs.last(), "tool_result"@) && str_member(bs.last(), "tool_use_id"@) is Some {
            assert(is_block_of_type(bs[bs.len() - 1], "tool_result"@));
        } else {
            assert(result_ids(bs) =~= result_ids(bs.drop_last()));
            lemma_result_id_is_result(bs.drop_last(), j);
            let i = choose|i: int| 0 <= i < bs.drop_last().len() && is_block_of_type(#[trigger] bs.drop_last()[i], "tool_result"@);
            assert(bs[i] == bs.drop_last()[i]);
        }
    }
}

/// A cleared agent, like a new one, shows "Idle".
pub proof fn law_cleared_agent_shows_idle(a: AgentView)
    requires
        a.active_tools.len() == 0,
        a.status == AgentStatus::Idle,
    ensures
        status_line(a) == "Idle"@,
{
}

} // verus!
