use vstd::prelude::*;
use vstd::string::*;

use std::collections::HashMap;

use crate::constants::{STALE_ACTIVE_TIMEOUT_SECS, STALE_AGENT_REMOVE_SECS};
use crate::json::{Json, json_get, parse_json, parsed_json, str_eq, str_member, str_member_or_empty};
use crate::renderer::agent_ids;
use crate::text::{lemma_split_concat, lemma_split_nonempty, lemma_split_pieces, lemma_split_single, push_char, split_chars, split_on};
use crate::transcript::path_file_name;
use crate::types::{ActiveTool, AgentEvent, AgentState, AgentStatus, AgentView, EventView, events_view, fresh_agent, opt_chars};

verus! {

broadcast use vstd::std_specs::hash::group_hash_axioms;

// ── Names on disk ───────────────────────────────────────────────

/// Whether `c` is alphanumeric, as `char::is_alphanumeric` decides it (Unicode's
/// Alphabetic and Numeric properties).
pub uninterp spec fn char_alphanumeric(c: char) -> bool;

/// Calls `char::is_alphanumeric`; the result is stated only as the named value
/// `char_alphanumeric(c)`.
#[verifier::external_body]
fn is_alphanumeric(c: char) -> (r: bool)
    ensures
        r == char_alphanumeric(c),
{
    c.is_alphanumeric()
}

/// A working directory's name among the project directories: every character that is
/// not alphanumeric becomes `-`.
pub open spec fn sanitized(path: Seq<char>) -> Seq<char> {
    path.map_values(|c: char| if char_alphanumeric(c) { c } else { '-' })
}

/// Sanitizes a filesystem path the way project directories are named.
pub fn sanitize_path(path: &str) -> (r: String)
    ensures
        r@ == sanitized(path@),
{
    let n = path.unicode_len();
    let mut out = String::new();
    let mut i: usize = 0;
    while i < n
        invariant
            n == path@.len(),
            i <= n,
            out@ == sanitized(path@.take(i as int)),
        decreases n - i,
    {
        let c = path.get_char(i);
        if is_alphanumeric(c) {
            push_char(&mut out, c);
        } else {
            push_char(&mut out, '-');
        }
        assert(sanitized(path@.take(i + 1)) =~= sanitized(path@.take(i as int)).push(
            if char_alphanumeric(c) { c } else { '-' },
        ));
        i = i + 1;
    }
    assert(path@.take(n as int) =~= path@);
    out
}

/// The path `dir` joined with `name`, as `std::path::Path::join` builds it.
pub uninterp spec fn joined_path(dir: Seq<char>, name: Seq<char>) -> Seq<char>;

/// Calls `std::path::Path::join`; the result is stated as the named value
/// `joined_path(dir, name)`, and, as its documentation says, an absolute `name` (one that
/// starts with `/`) replaces `dir`. Where a separator goes between a relative `name` and
/// `dir` the documentation shows only by example, so that is left to the name.
#[verifier::external_body]
fn join_path(dir: &str, name: &str) -> (r: String)
    ensures
        r@ == joined_path(dir@, name@),
        name@.len() > 0 && name@[0] == '/' ==> r@ == name@,
{
    std::path::Path::new(dir).join(name).to_string_lossy().to_string()
}

/// Whether `s` ends with `suffix`.
pub open spec fn ends_with(s: Seq<char>, suffix: Seq<char>) -> bool {
    s.len() >= suffix.len() && s.subrange(s.len() - suffix.len(), s.len() as int) == suffix
}

fn has_suffix(s: &str, suffix: &str) -> (r: bool)
    ensures
        r == ends_with(s@, suffix@),
{
    let n = s.unicode_len();
    let m = suffix.unicode_len();
    if n < m {
        return false;
    }
    let mut i: usize = 0;
    while i < m
        invariant
            n == s@.len(),
            m == suffix@.len(),
            m <= n,
            i <= m,
            forall|j: int| 0 <= j < i ==> s@[n - m + j] == suffix@[j],
        decreases m - i,
    {
        if s.get_char(n - m + i) != suffix.get_char(i) {
            assert(s@.subrange(n - m, n as int)[i as int] == s@[n - m + i]);
            return false;
        }
        i = i + 1;
    }
    assert(s@.subrange(n - m, n as int) =~= suffix@);
    true
}

/// A transcript file: its extension (`Path::extension`) is `jsonl`. The extension is
/// what follows the last `.`, except in a name whose only `.` is its first character.
pub open spec fn is_transcript_name(name: Seq<char>) -> bool {
    ends_with(name, ".jsonl"@) && name.len() > 6
}

fn is_transcript(name: &str) -> (r: bool)
    ensures
        r == is_transcript_name(name@),
{
    proof {
        reveal_strlit(".jsonl");
    }
    has_suffix(name, ".jsonl") && name.unicode_len() > 6
}

/// A subagent's metadata file `<root>.meta.json`: its extension is `json` and its stem
/// ends with `.meta`.
pub open spec fn is_meta_name(name: Seq<char>) -> bool {
    ends_with(name, ".meta.json"@)
}

/// The name of the transcript beside a metadata file `<root>.meta.json`: `<root>.jsonl`.
pub open spec fn transcript_beside(meta_name: Seq<char>) -> Seq<char> {
    meta_name.take(meta_name.len() - 10) + ".jsonl"@
}

fn transcript_name_beside(meta_name: &str) -> (r: String)
    requires
        is_meta_name(meta_name@),
    ensures
        r@ == transcript_beside(meta_name@),
{
    proof {
        reveal_strlit(".meta.json");
    }
    let n = meta_name.unicode_len();
    let root = meta_name.substring_char(0, n - 10);
    assert(root@ =~= meta_name@.take(n - 10));
    String::from_str(root).concat(".jsonl")
}

// ── Team configs ────────────────────────────────────────────────

/// One member of a team, as its config lists it.
#[derive(Debug)]
pub struct TeamMember {
    pub name: String,
    pub color: Option<String>,
    pub cwd: String,
    pub is_lead: bool,
    pub backend_type: Option<String>,
    pub prompt: Option<String>,
}

/// A team config: the `config.json` of a team's directory.
#[derive(Debug)]
pub struct TeamConfig {
    pub name: String,
    pub description: String,
    pub lead_session_id: String,
    pub created_at: u64,
    pub members: Vec<TeamMember>,
}

/// The integer member `key`, when it is a non-negative integer that fits in `u64`, else 0.
pub open spec fn u64_member_or_zero(v: Json, key: Seq<char>) -> u64 {
    match json_get(v, key) {
        Some(Json::Number(Some(n))) => n,
        _ => 0,
    }
}

/// What a member entry of a team config says, given the lead's agent id.
pub open spec fn member_of(m: TeamMember, entry: Json, lead_agent_id: Seq<char>) -> bool {
    &&& m.name@ == str_member_or_empty(entry, "name"@)
    &&& opt_chars(m.color) == str_member(entry, "color"@)
    &&& m.cwd@ == str_member_or_empty(entry, "cwd"@)
    &&& m.is_lead == (str_member_or_empty(entry, "agentId"@) == lead_agent_id)
    &&& opt_chars(m.backend_type) == str_member(entry, "backendType"@)
    &&& opt_chars(m.prompt) == str_member(entry, "prompt"@)
}

/// A config parses when it has a string `name` and an array `members`.
pub open spec fn team_config_parses(v: Json) -> bool {
    &&& str_member(v, "name"@) is Some
    &&& json_get(v, "members"@) matches Some(Json::Array(_))
}

/// What a parsed team config holds of the JSON it was read from.
pub open spec fn team_config_of(t: TeamConfig, v: Json) -> bool {
    &&& Some(t.name@) == str_member(v, "name"@)
    &&& t.description@ == str_member_or_empty(v, "description"@)
    &&& t.lead_session_id@ == str_member_or_empty(v, "leadSessionId"@)
    &&& t.created_at == u64_member_or_zero(v, "createdAt"@)
    &&& json_get(v, "members"@) matches Some(Json::Array(entries)) && t.members@.len()
        == entries@.len() && forall|i: int|
        0 <= i < entries@.len() ==> member_of(
            #[trigger] t.members@[i],
            entries@[i],
            str_member_or_empty(v, "leadAgentId"@),
        )
}

fn str_or_empty(v: &Json, key: &str) -> (r: String)
    ensures
        r@ == str_member_or_empty(*v, key@),
{
    match v.str_member(key) {
        Some(s) => String::from_str(s),
        None => String::new(),
    }
}

fn opt_str(v: &Json, key: &str) -> (r: Option<String>)
    ensures
        opt_chars(r) == str_member(*v, key@),
{
    match v.str_member(key) {
        Some(s) => Some(String::from_str(s)),
        None => None,
    }
}

/// Reads a team config from its JSON. `None` when it has no string `name` or no array
/// `members`; other fields fall back to empty strings and 0.
pub fn parse_team_config(json: &Json) -> (r: Option<TeamConfig>)
    ensures
        r is Some <==> team_config_parses(*json),
        r matches Some(t) ==> team_config_of(t, *json),
{
    let name = match json.str_member("name") {
        Some(s) => String::from_str(s),
        None => return None,
    };
    let description = str_or_empty(json, "description");
    let lead_session_id = str_or_empty(json, "leadSessionId");
    let created_at: u64 = match json.get("createdAt") {
        Some(Json::Number(Some(n))) => *n,
        _ => 0,
    };
    let entries = match json.get("members") {
        Some(Json::Array(a)) => a,
        _ => return None,
    };
    let lead_agent_id = str_or_empty(json, "leadAgentId");
    let mut members: Vec<TeamMember> = Vec::new();
    let mut i: usize = 0;
    while i < entries.len()
        invariant
            i <= entries@.len(),
            members@.len() == i,
            forall|j: int|
                0 <= j < i ==> member_of(#[trigger] members@[j], entries@[j], lead_agent_id@),
        decreases entries@.len() - i,
    {
        let m = &entries[i];
        let agent_id = str_or_empty(m, "agentId");
        let member = TeamMember {
            name: str_or_empty(m, "name"),
            color: opt_str(m, "color"),
            cwd: str_or_empty(m, "cwd"),
            is_lead: agent_id == lead_agent_id,
            backend_type: opt_str(m, "backendType"),
            prompt: opt_str(m, "prompt"),
        };
        members.push(member);
        i = i + 1;
    }
    Some(TeamConfig { name, description, lead_session_id, created_at, members })
}

/// The `agentType` a subagent's metadata names, if it is a string.
pub fn meta_agent_type(json: &Json) -> (r: Option<String>)
    ensures
        opt_chars(r) == str_member(*json, "agentType"@),
{
    opt_str(json, "agentType")
}

/// Reads a team config from its text: `None` where the text is not JSON, else as
/// `parse_team_config` reads the value.
pub fn parse_team_config_text(data: &str) -> (r: Option<TeamConfig>)
    ensures
        match parsed_json(data@) {
            Some(v) => (r is Some <==> team_config_parses(v)) && (r matches Some(t) ==> team_config_of(t, v)),
            None => r is None,
        },
{
    match parse_json(data) {
        Some(v) => parse_team_config(&v),
        None => None,
    }
}

/// The `agentType` that a subagent's metadata text names: `None` where the text is not
/// JSON or names none as a string.
pub fn meta_agent_type_text(data: &str) -> (r: Option<String>)
    ensures
        opt_chars(r) == match parsed_json(data@) {
            Some(v) => str_member(v, "agentType"@),
            None => None,
        },
{
    match parse_json(data) {
        Some(v) => meta_agent_type(&v),
        None => None,
    }
}

// ── What the scan reads from disk ───────────────────────────────

/// A file or directory as the scan sees it.
#[derive(Debug)]
pub struct FileStamp {
    /// Its full path.
    pub path: String,
    /// Its file name, the last component of `path`.
    pub name: String,
    /// When it was last modified, in nanoseconds since the Unix epoch; `None` where that
    /// cannot be read (a time before the epoch counts as none).
    pub modified: Option<u128>,
}

/// An entry of a session's `subagents` directory.
#[derive(Debug)]
pub struct SubagentEntry {
    pub file: FileStamp,
    /// For a `.json` file whose contents parse: the `agentType` string it holds.
    pub agent_type: Option<String>,
}

/// An entry of a project directory.
#[derive(Debug)]
pub struct ProjectEntry {
    pub file: FileStamp,
    pub is_dir: bool,
    /// For a directory: the entries of its `subagents` subdirectory, in listing order
    /// (empty where there is none).
    pub subagents: Vec<SubagentEntry>,
}

/// A directory of session transcripts.
#[derive(Debug)]
pub struct ProjectDir {
    pub path: String,
    /// The directory's own name.
    pub name: String,
    /// The project name decoded from `name`.
    pub folder_name: String,
    /// Its entries, in listing order.
    pub entries: Vec<ProjectEntry>,
}

/// Everything one scan reads: the team configs in listing order, the projects directory
/// (`None` where it does not exist) and its subdirectories in listing order, and the
/// time of the scan in nanoseconds since the Unix epoch.
#[derive(Debug)]
pub struct ScanInput {
    pub teams: Vec<TeamConfig>,
    pub root: Option<ProjectDir>,
    pub projects: Vec<ProjectDir>,
    pub now: u128,
}

/// A set of paths.
#[derive(Debug)]
pub struct FileSet {
    pub paths: Vec<String>,
}

/// The characters of the paths.
pub open spec fn paths_view(paths: Seq<String>) -> Set<Seq<char>> {
    Set::new(|p: Seq<char>| exists|i: int| 0 <= i < paths.len() && #[trigger] paths[i]@ == p)
}

proof fn lemma_paths_view_push(paths: Seq<String>, x: String)
    ensures
        paths_view(paths.push(x)) == paths_view(paths).insert(x@),
{
    let a = paths_view(paths.push(x));
    let b = paths_view(paths).insert(x@);
    assert forall|p: Seq<char>| a.contains(p) <==> b.contains(p) by {
        if a.contains(p) {
            let i = choose|i: int| 0 <= i < paths.push(x).len() && #[trigger] paths.push(x)[i]@ == p;
            if i < paths.len() {
                assert(paths[i]@ == p);
            }
        }
        if b.contains(p) && p != x@ {
            let i = choose|i: int| 0 <= i < paths.len() && #[trigger] paths[i]@ == p;
            assert(paths.push(x)[i]@ == p);
        }
        if p == x@ {
            assert(paths.push(x)[paths.len() as int]@ == p);
        }
    }
    assert(a =~= b);
}

impl View for FileSet {
    type V = Set<Seq<char>>;

    open spec fn view(&self) -> Set<Seq<char>> {
        paths_view(self.paths@)
    }
}

impl FileSet {
    pub fn new() -> (r: FileSet)
        ensures
            r@ == Set::<Seq<char>>::empty(),
    {
        let r = FileSet { paths: Vec::new() };
        assert(r@ =~= Set::<Seq<char>>::empty());
        r
    }

    pub fn contains(&self, path: &str) -> (r: bool)
        ensures
            r == self@.contains(path@),
    {
        let mut i: usize = 0;
        while i < self.paths.len()
            invariant
                i <= self.paths@.len(),
                forall|j: int| 0 <= j < i ==> (#[trigger] self.paths@[j])@ != path@,
            decreases self.paths@.len() - i,
        {
            if str_eq(self.paths[i].as_str(), path) {
                assert(self.paths@[i as int]@ == path@);
                return true;
            }
            i = i + 1;
        }
        false
    }

    pub fn insert(&mut self, path: &str)
        ensures
            final(self)@ == old(self)@.insert(path@),
    {
        if !self.contains(path) {
            self.paths.push(String::from_str(path));
            let ghost n = self.paths@.len() - 1;
            assert(self.paths@[n]@ == path@);
            assert forall|p: Seq<char>| #[trigger] old(self)@.contains(p) implies self@.contains(p) by {
                let i = choose|i: int| 0 <= i < old(self).paths@.len() && #[trigger] old(self).paths@[i]@ == p;
                assert(self.paths@[i] == old(self).paths@[i]);
            }
        }
        assert(self@ =~= old(self)@.insert(path@));
    }

    pub fn remove(&mut self, path: &str)
        ensures
            final(self)@ == old(self)@.remove(path@),
    {
        let ghost old_paths = self.paths@;
        let mut kept: Vec<String> = Vec::new();
        let mut i: usize = 0;
        assert(paths_view(old_paths.take(0)) =~= Set::<Seq<char>>::empty());
        assert(paths_view(kept@) =~= Set::<Seq<char>>::empty());
        while i < self.paths.len()
            invariant
                self.paths@ == old_paths,
                i <= old_paths.len(),
                paths_view(kept@) == paths_view(old_paths.take(i as int)).remove(path@),
            decreases old_paths.len() - i,
        {
            proof {
                assert(old_paths.take(i + 1) =~= old_paths.take(i as int).push(old_paths[i as int]));
                lemma_paths_view_push(old_paths.take(i as int), old_paths[i as int]);
            }
            if !str_eq(self.paths[i].as_str(), path) {
                let ghost before = kept@;
                kept.push(self.paths[i].clone());
                proof {
                    lemma_paths_view_push(before, old_paths[i as int]);
                    assert(paths_view(kept@) =~= paths_view(old_paths.take(i + 1)).remove(path@));
                }
            } else {
                assert(paths_view(kept@) =~= paths_view(old_paths.take(i + 1)).remove(path@));
            }
            i = i + 1;
        }
        assert(old_paths.take(old_paths.len() as int) =~= old_paths);
        self.paths = kept;
        assert(self@ =~= old(self)@.remove(path@));
    }
}

/// Recently written: modified less than two hours before `now`, and not after it.
pub open spec fn recent(modified: Option<u128>, now: u128) -> bool {
    match modified {
        Some(m) => m <= now && now - m < 7_200_000_000_000,
        None => false,
    }
}

/// A team created less than two hours (by the millisecond clock) before `now`.
pub open spec fn team_recent(created_at: u64, now: u128) -> bool {
    let now_ms = (now / 1_000_000) as u64;
    (if now_ms >= created_at { now_ms - created_at } else { 0 }) < 7_200_000
}

/// The time a file sorts by: its modification time, or the epoch.
pub open spec fn stamp_key(modified: Option<u128>) -> u128 {
    match modified {
        Some(m) => m,
        None => 0,
    }
}

/// `keys[i]` is a greatest key among the indices that `ok` admits, and the first such.
pub open spec fn is_best_at(keys: Seq<u128>, ok: spec_fn(int) -> bool, i: int) -> bool {
    &&& 0 <= i < keys.len()
    &&& ok(i)
    &&& forall|j: int| 0 <= j < keys.len() && #[trigger] ok(j) ==> keys[j] < keys[i] || (keys[j] == keys[i] && i <= j)
}

/// The newest admitted index, the first of equals: what a stable sort newest-first puts
/// ahead.
pub open spec fn best_index(keys: Seq<u128>, ok: spec_fn(int) -> bool) -> Option<int> {
    if exists|i: int| is_best_at(keys, ok, i) {
        Some(choose|i: int| is_best_at(keys, ok, i))
    } else {
        None
    }
}

// ── Teams, in the order the scan takes them ─────────────────────

/// Stable insertion newest-first: `i` goes after every entry whose key is not smaller.
pub open spec fn insert_newest(order: Seq<int>, keys: Seq<u64>, i: int) -> Seq<int>
    decreases order.len(),
{
    if order.len() == 0 {
        seq![i]
    } else if keys[order.last()] >= keys[i] {
        order.push(i)
    } else {
        insert_newest(order.drop_last(), keys, i).push(order.last())
    }
}

/// The indices of `keys`, newest first, equal keys in their first order (a stable sort).
pub open spec fn newest_first(keys: Seq<u64>) -> Seq<int>
    decreases keys.len(),
{
    if keys.len() == 0 {
        Seq::empty()
    } else {
        insert_newest(newest_first(keys.drop_last()), keys, keys.len() - 1)
    }
}

/// The creation times of the teams.
pub open spec fn team_keys(teams: Seq<TeamConfig>) -> Seq<u64> {
    teams.map_values(|t: TeamConfig| t.created_at)
}

/// Of the teams in `order`, those with a lead session, each lead session once: the first
/// team that names it.
pub open spec fn one_per_session(teams: Seq<TeamConfig>, order: Seq<int>) -> Seq<int>
    decreases order.len(),
{
    if order.len() == 0 {
        Seq::empty()
    } else {
        let kept = one_per_session(teams, order.drop_last());
        let i = order.last();
        if teams[i].lead_session_id@.len() == 0 || exists|j: int|
            0 <= j < kept.len() && #[trigger] teams[kept[j]].lead_session_id@ == teams[i].lead_session_id@ {
            kept
        } else {
            kept.push(i)
        }
    }
}

/// The teams the scan takes, in order: newest first, one per lead session.
pub open spec fn selected_teams(teams: Seq<TeamConfig>) -> Seq<int> {
    one_per_session(teams, newest_first(team_keys(teams)))
}

/// Indices as integers.
pub open spec fn ints(s: Seq<usize>) -> Seq<int> {
    s.map_values(|x: usize| x as int)
}

proof fn lemma_insert_newest(o: Seq<int>, keys: Seq<u64>, i: int, j: int)
    requires
        0 <= j <= o.len(),
        forall|k: int| j <= k < o.len() ==> keys[#[trigger] o[k]] < keys[i],
        j == 0 || keys[o[j - 1]] >= keys[i],
    ensures
        insert_newest(o, keys, i) == o.take(j) + seq![i] + o.skip(j),
    decreases o.len(),
{
    if o.len() == 0 {
        assert(o.take(j) + seq![i] + o.skip(j) =~= seq![i]);
    } else if keys[o.last()] >= keys[i] {
        assert(j == o.len());
        assert(o.take(j) + seq![i] + o.skip(j) =~= o.push(i));
    } else {
        let o2 = o.drop_last();
        assert(j < o.len());
        assert forall|k: int| j <= k < o2.len() implies keys[#[trigger] o2[k]] < keys[i] by {
            assert(o2[k] == o[k]);
        }
        if j > 0 {
            assert(o2[j - 1] == o[j - 1]);
        }
        lemma_insert_newest(o2, keys, i, j);
        assert((o2.take(j) + seq![i] + o2.skip(j)).push(o.last()) =~= o.take(j) + seq![i] + o.skip(j));
    }
}

proof fn lemma_keys_prefix(o: Seq<int>, keys: Seq<u64>, n: int, i: int)
    requires
        0 <= i < n <= keys.len(),
        forall|k: int| 0 <= k < o.len() ==> 0 <= #[trigger] o[k] < i,
    ensures
        insert_newest(o, keys.take(n), i) == insert_newest(o, keys, i),
    decreases o.len(),
{
    if o.len() > 0 {
        assert(o.drop_last().len() < o.len());
        assert forall|k: int| 0 <= k < o.drop_last().len() implies 0 <= #[trigger] o.drop_last()[k] < i by {
            assert(o.drop_last()[k] == o[k]);
        }
        lemma_keys_prefix(o.drop_last(), keys, n, i);
        assert(keys.take(n)[o.last()] == keys[o.last()]);
    }
}

/// The indices of the teams, newest first (a stable sort by creation time).
fn teams_newest_first(teams: &Vec<TeamConfig>) -> (r: Vec<usize>)
    ensures
        ints(r@) == newest_first(team_keys(teams@)),
        forall|k: int| 0 <= k < r@.len() ==> r@[k] < teams@.len(),
{
    let ghost keys = team_keys(teams@);
    let mut order: Vec<usize> = Vec::new();
    let mut i: usize = 0;
    assert(keys.take(0) =~= Seq::<u64>::empty());
    assert(ints(order@) =~= Seq::<int>::empty());
    while i < teams.len()
        invariant
            keys == team_keys(teams@),
            i <= teams@.len(),
            ints(order@) == newest_first(keys.take(i as int)),
            order@.len() == i,
            forall|k: int| 0 <= k < order@.len() ==> order@[k] < i,
        decreases teams@.len() - i,
    {
        let key = teams[i].created_at;
        let mut j: usize = order.len();
        while j > 0 && teams[order[j - 1]].created_at < key
            invariant
                keys == team_keys(teams@),
                key == keys[i as int],
                i < teams@.len(),
                j <= order@.len(),
                order@.len() == i,
                forall|k: int| 0 <= k < order@.len() ==> order@[k] < i,
                forall|k: int| j <= k < order@.len() ==> keys[#[trigger] ints(order@)[k]] < key,
            decreases j,
        {
            j = j - 1;
        }
        let ghost o = ints(order@);
        proof {
            assert forall|k: int| j <= k < o.len() implies keys[#[trigger] o[k]] < keys[i as int] by {}
            if j > 0 {
                assert(o[j - 1] == order@[j - 1] as int);
            }
            lemma_insert_newest(o, keys, i as int, j as int);
            assert forall|k: int| 0 <= k < o.len() implies 0 <= #[trigger] o[k] < i by {}
            lemma_keys_prefix(o, keys, i + 1, i as int);
            assert(keys.take(i + 1).drop_last() =~= keys.take(i as int));
        }
        order.insert(j, i);
        proof {
            assert(ints(order@) =~= o.take(j as int) + seq![i as int] + o.skip(j as int));
        }
        i = i + 1;
        proof {
            assert forall|k: int| 0 <= k < order@.len() implies order@[k] < i by {
                assert(ints(order@)[k] == order@[k] as int);
            }
        }
    }
    assert(keys.take(teams@.len() as int) =~= keys);
    order
}

/// The teams a scan takes, in order: newest first, skipping teams without a lead
/// session and teams whose lead session a newer team already names.
pub fn select_teams(teams: &Vec<TeamConfig>) -> (r: Vec<usize>)
    ensures
        ints(r@) == selected_teams(teams@),
        forall|k: int| 0 <= k < r@.len() ==> r@[k] < teams@.len(),
{
    let order = teams_newest_first(teams);
    let ghost o = ints(order@);
    let mut kept: Vec<usize> = Vec::new();
    let mut k: usize = 0;
    assert(o.take(0) =~= Seq::<int>::empty());
    assert(ints(kept@) =~= Seq::<int>::empty());
    while k < order.len()
        invariant
            o == ints(order@),
            o == newest_first(team_keys(teams@)),
            forall|x: int| 0 <= x < order@.len() ==> order@[x] < teams@.len(),
            k <= order@.len(),
            ints(kept@) == one_per_session(teams@, o.take(k as int)),
            forall|x: int| 0 <= x < kept@.len() ==> kept@[x] < teams@.len(),
        decreases order@.len() - k,
    {
        let i = order[k];
        let ghost ks = ints(kept@);
        assert(o.take(k + 1).drop_last() =~= o.take(k as int));
        assert(o.take(k + 1).last() == i as int);
        let sid = teams[i].lead_session_id.as_str();
        let mut seen = false;
        if !sid.is_empty() {
            let mut x: usize = 0;
            while x < kept.len() && !seen
                invariant
                    ks == ints(kept@),
                    x <= kept@.len(),
                    forall|y: int| 0 <= y < kept@.len() ==> kept@[y] < teams@.len(),
                    seen ==> exists|y: int| 0 <= y < ks.len() && #[trigger] teams@[ks[y]].lead_session_id@ == sid@,
                    !seen ==> forall|y: int| 0 <= y < x ==> #[trigger] teams@[ks[y]].lead_session_id@ != sid@,
                decreases kept@.len() - x,
            {
                if str_eq(teams[kept[x]].lead_session_id.as_str(), sid) {
                    assert(teams@[ks[x as int]].lead_session_id@ == sid@);
                    seen = true;
                }
                x = x + 1;
            }
        }
        if !sid.is_empty() && !seen {
            kept.push(i);
            assert(ints(kept@) =~= ks.push(i as int));
        }
        k = k + 1;
    }
    assert(o.take(order@.len() as int) =~= o);
    kept
}

// ── The scan, as a change of state ──────────────────────────────

/// What a scan works on: the known transcript paths, the agents by id, the next id to
/// hand out, the events so far, and the paths that teams have claimed.
pub struct ScanView {
    pub known: Set<Seq<char>>,
    pub agents: Map<u32, AgentView>,
    pub next_id: int,
    pub events: Seq<EventView>,
    pub claimed: Set<Seq<char>>,
}

/// The agents of a map, by their views.
pub open spec fn agents_view(m: Map<u32, AgentState>) -> Map<u32, AgentView> {
    m.map_values(|a: AgentState| a@)
}

/// What an agent is looked up by.
pub enum AgentQuery {
    /// The top-level agent reading a transcript.
    Transcript(Seq<char>),
    /// The agent of a team's member.
    Member(Seq<char>, Seq<char>),
}

pub open spec fn answers(a: AgentView, q: AgentQuery) -> bool {
    match q {
        AgentQuery::Transcript(p) => a.jsonl_file == p && !a.is_subagent,
        AgentQuery::Member(team, member) => a.team_name == Some(team) && a.member_name == Some(member),
    }
}

pub open spec fn is_least_answer(agents: Map<u32, AgentView>, q: AgentQuery, k: u32) -> bool {
    &&& agents.contains_key(k)
    &&& answers(agents[k], q)
    &&& forall|k2: u32| #[trigger] agents.contains_key(k2) && answers(agents[k2], q) ==> k <= k2
}

/// The agent that answers `q`, the least id where several do.
pub open spec fn least_answer(agents: Map<u32, AgentView>, q: AgentQuery) -> Option<u32> {
    if exists|k: u32| is_least_answer(agents, q, k) {
        Some(choose|k: u32| is_least_answer(agents, q, k))
    } else {
        None
    }
}

/// `i` is the first index below `n` that `ok` admits.
pub open spec fn is_first(n: int, ok: spec_fn(int) -> bool, i: int) -> bool {
    0 <= i < n && ok(i) && forall|j: int| 0 <= j < i ==> !#[trigger] ok(j)
}

/// The first index below `n` that `ok` admits.
pub open spec fn first_index(n: int, ok: spec_fn(int) -> bool) -> Option<int> {
    if exists|i: int| is_first(n, ok, i) {
        Some(choose|i: int| is_first(n, ok, i))
    } else {
        None
    }
}

/// The first lead among the members.
pub open spec fn first_lead(ms: Seq<TeamMember>) -> Option<int> {
    first_index(ms.len() as int, is_lead_at(ms))
}

pub open spec fn is_lead_at(ms: Seq<TeamMember>) -> spec_fn(int) -> bool {
    |i: int| ms[i].is_lead
}

/// The lead's working directory ("" without a lead).
pub open spec fn lead_cwd(ms: Seq<TeamMember>) -> Seq<char> {
    match first_lead(ms) {
        Some(i) => ms[i].cwd@,
        None => Seq::empty(),
    }
}

/// The lead's color.
pub open spec fn lead_color(ms: Seq<TeamMember>) -> Option<Seq<char>> {
    match first_lead(ms) {
        Some(i) => opt_chars(ms[i].color),
        None => None,
    }
}

/// The project directory of a team: the one named after its lead's working directory,
/// sanitized (the projects directory itself for an empty name).
pub open spec fn team_project(input: ScanInput, t: TeamConfig) -> Option<ProjectDir> {
    let name = sanitized(lead_cwd(t.members@));
    match input.root {
        None => None,
        Some(r) => if name.len() == 0 {
            Some(r)
        } else {
            match first_index(input.projects@.len() as int, project_named(input.projects@, name)) {
                Some(i) => Some(input.projects@[i]),
                None => None,
            }
        },
    }
}

pub open spec fn project_named(ps: Seq<ProjectDir>, name: Seq<char>) -> spec_fn(int) -> bool {
    |i: int| ps[i].name@ == name
}

/// The entry of a project directory with the given name.
pub open spec fn entry_named(pd: ProjectDir, name: Seq<char>) -> Option<int> {
    first_index(pd.entries@.len() as int, entry_has_name(pd.entries@, name))
}

pub open spec fn entry_has_name(entries: Seq<ProjectEntry>, name: Seq<char>) -> spec_fn(int) -> bool {
    |i: int| entries[i].file.name@ == name
}

/// The `subagents` listing of a session of a project.
pub open spec fn session_subagents(pd: ProjectDir, session: Seq<char>) -> Seq<SubagentEntry> {
    match entry_named(pd, session) {
        Some(i) => pd.entries@[i].subagents@,
        None => Seq::empty(),
    }
}

/// The transcript beside the metadata file at `i` of a listing, if it is there.
pub open spec fn meta_transcript(list: Seq<SubagentEntry>, i: int) -> Option<int> {
    first_index(list.len() as int, sub_has_name(list, transcript_beside(list[i].file.name@)))
}

pub open spec fn sub_has_name(list: Seq<SubagentEntry>, name: Seq<char>) -> spec_fn(int) -> bool {
    |k: int| list[k].file.name@ == name
}

/// The metadata file at `i` names `member` and has its transcript beside it.
pub open spec fn member_meta(list: Seq<SubagentEntry>, member: Seq<char>, i: int) -> bool {
    &&& is_meta_name(list[i].file.name@)
    &&& opt_chars(list[i].agent_type) == Some(member)
    &&& meta_transcript(list, i) is Some
}

/// What the metadata file at `i` sorts by: the time of its transcript.
pub open spec fn meta_key(list: Seq<SubagentEntry>, i: int) -> u128 {
    match meta_transcript(list, i) {
        Some(k) => stamp_key(list[k].file.modified),
        None => 0,
    }
}

pub open spec fn meta_keys(list: Seq<SubagentEntry>) -> Seq<u128> {
    Seq::new(list.len(), |i: int| meta_key(list, i))
}

pub open spec fn member_meta_at(list: Seq<SubagentEntry>, member: Seq<char>) -> spec_fn(int) -> bool {
    |i: int| member_meta(list, member, i)
}

/// A member's newest transcript in a listing, found through the metadata files.
pub open spec fn member_transcript(list: Seq<SubagentEntry>, member: Seq<char>) -> Option<Seq<char>> {
    match best_index(meta_keys(list), member_meta_at(list, member)) {
        Some(i) => Some(list[meta_transcript(list, i)->0].file.path@),
        None => None,
    }
}

/// Where the transcript of a member without one is recorded.
pub open spec fn placeholder(dir: Seq<char>, member: Seq<char>) -> Seq<char> {
    joined_path(dir, "__team_placeholder__"@ + member + ".jsonl"@)
}

/// `s` with a new agent `a` under the next id, and its event.
pub open spec fn with_agent(s: ScanView, a: AgentView) -> ScanView {
    ScanView {
        agents: s.agents.insert(s.next_id as u32, a),
        next_id: s.next_id + 1,
        events: s.events.push(EventView::StatusChange { agent_id: s.next_id as u32, status: AgentStatus::Idle }),
        ..s
    }
}

/// An agent moved to another transcript, read from its start, with its activity cleared.
pub open spec fn switched(a: AgentView, path: Seq<char>) -> AgentView {
    AgentView {
        jsonl_file: path,
        file_offset: 0,
        line_buffer: Seq::empty(),
        active_tools: Seq::empty(),
        is_waiting: false,
        permission_sent: false,
        status: AgentStatus::Idle,
        last_status_text: Seq::empty(),
        ..a
    }
}

/// One member of a team, under the lead `lid`.
pub open spec fn member_step(
    s: ScanView,
    t: TeamConfig,
    pd: ProjectDir,
    lid: u32,
    parent_folder: Option<Seq<char>>,
    m: TeamMember,
) -> ScanView {
    let best = member_transcript(session_subagents(pd, t.lead_session_id@), m.name@);
    if m.is_lead {
        s
    } else {
        match least_answer(s.agents, AgentQuery::Member(t.name@, m.name@)) {
            Some(eid) => match best {
                None => s,
                Some(bp) => {
                    let s1 = ScanView { claimed: s.claimed.insert(bp), ..s };
                    if s1.agents[eid].jsonl_file != bp {
                        ScanView {
                            known: s1.known.insert(bp),
                            agents: s1.agents.insert(eid, switched(s1.agents[eid], bp)),
                            events: s1.events.push(EventView::ClearActivity { agent_id: eid }),
                            ..s1
                        }
                    } else {
                        s1
                    }
                },
            },
            None => {
                let (file, s1) = match best {
                    Some(bp) => (bp, ScanView { known: s.known.insert(bp), claimed: s.claimed.insert(bp), ..s }),
                    None => (placeholder(pd.path@, m.name@), s),
                };
                with_agent(
                    s1,
                    fresh_agent(
                        s.next_id as u32,
                        pd.path@,
                        file,
                        parent_folder,
                        Some(lid),
                        Some(t.name@),
                        Some(m.name@),
                        opt_chars(m.color),
                        false,
                    ),
                )
            },
        }
    }
}

/// The members of a team, in order.
pub open spec fn members_step(
    s: ScanView,
    t: TeamConfig,
    pd: ProjectDir,
    lid: u32,
    parent_folder: Option<Seq<char>>,
    ms: Seq<TeamMember>,
) -> ScanView
    decreases ms.len(),
{
    if ms.len() == 0 {
        s
    } else {
        member_step(members_step(s, t, pd, lid, parent_folder, ms.drop_last()), t, pd, lid, parent_folder, ms.last())
    }
}

/// One team: its lead's transcript, its lead agent, then its members. A lead transcript
/// that no agent reads gets a new lead agent, known or not.
pub open spec fn team_step(s: ScanView, input: ScanInput, t: TeamConfig) -> ScanView {
    match team_project(input, t) {
        None => s,
        Some(pd) => match entry_named(pd, t.lead_session_id@ + ".jsonl"@) {
            None => s,
            Some(e) => {
                let f = pd.entries@[e].file;
                let lead = f.path@;
                if !recent(f.modified, input.now) && !team_recent(t.created_at, input.now) {
                    s
                } else {
                    let s1 = ScanView { claimed: s.claimed.insert(lead), ..s };
                    match known_reader(s1, lead) {
                        Some(lid) => members_step(s1, t, pd, lid, s1.agents[lid].folder_name, t.members@),
                        None => {
                        let s2 = with_agent(
                            ScanView { known: s1.known.insert(lead), ..s1 },
                            fresh_agent(
                                s1.next_id as u32,
                                pd.path@,
                                lead,
                                Some(pd.folder_name@),
                                None,
                                Some(t.name@),
                                Some(Seq::empty()),
                                lead_color(t.members@),
                                true,
                            ),
                        );
                        members_step(s2, t, pd, s1.next_id as u32, Some(pd.folder_name@), t.members@)
                        },
                    }
                }
            },
        },
    }
}

/// The teams at `order`, in order.
pub open spec fn teams_step(s: ScanView, input: ScanInput, order: Seq<int>) -> ScanView
    decreases order.len(),
{
    if order.len() == 0 {
        s
    } else {
        team_step(teams_step(s, input, order.drop_last()), input, input.teams@[order.last()])
    }
}

/// The newest transcript of a project directory that no team claimed.
pub open spec fn newest_unclaimed(pd: ProjectDir, claimed: Set<Seq<char>>) -> Option<int> {
    best_index(entry_keys(pd.entries@), unclaimed_transcript(pd.entries@, claimed))
}

pub open spec fn entry_keys(entries: Seq<ProjectEntry>) -> Seq<u128> {
    Seq::new(entries.len(), |i: int| stamp_key(entries[i].file.modified))
}

pub open spec fn unclaimed_transcript(entries: Seq<ProjectEntry>, claimed: Set<Seq<char>>) -> spec_fn(int) -> bool {
    |i: int| is_transcript_name(entries[i].file.name@) && !claimed.contains(entries[i].file.path@)
}

/// One entry of a session's `subagents` listing, under the agent `pid`.
pub open spec fn subagent_step(
    s: ScanView,
    pd: ProjectDir,
    now: u128,
    pid: u32,
    parent_folder: Option<Seq<char>>,
    x: SubagentEntry,
) -> ScanView {
    let p = x.file.path@;
    if !is_transcript_name(x.file.name@) || s.known.contains(p) || s.claimed.contains(p) || !recent(
        x.file.modified,
        now,
    ) {
        s
    } else {
        with_agent(
            ScanView { known: s.known.insert(p), ..s },
            fresh_agent(s.next_id as u32, pd.path@, p, parent_folder, Some(pid), None, None, None, false),
        )
    }
}

/// The entries of one `subagents` listing, in order.
pub open spec fn subagents_step(
    s: ScanView,
    pd: ProjectDir,
    now: u128,
    pid: u32,
    parent_folder: Option<Seq<char>>,
    list: Seq<SubagentEntry>,
) -> ScanView
    decreases list.len(),
{
    if list.len() == 0 {
        s
    } else {
        subagent_step(subagents_step(s, pd, now, pid, parent_folder, list.drop_last()), pd, now, pid, parent_folder, list.last())
    }
}

/// The `subagents` listings of the sessions of a project directory, in order.
pub open spec fn sessions_step(
    s: ScanView,
    pd: ProjectDir,
    now: u128,
    pid: u32,
    parent_folder: Option<Seq<char>>,
    entries: Seq<ProjectEntry>,
) -> ScanView
    decreases entries.len(),
{
    if entries.len() == 0 {
        s
    } else {
        let s1 = sessions_step(s, pd, now, pid, parent_folder, entries.drop_last());
        if entries.last().is_dir {
            subagents_step(s1, pd, now, pid, parent_folder, entries.last().subagents@)
        } else {
            s1
        }
    }
}

/// The top-level agent that reads the known transcript `p`: none where `p` is not known,
/// or where no agent reads it (it was first seen too old, or its agent has left).
pub open spec fn known_reader(s: ScanView, p: Seq<char>) -> Option<u32> {
    if s.known.contains(p) {
        least_answer(s.agents, AgentQuery::Transcript(p))
    } else {
        None
    }
}

/// One project directory: its newest unclaimed transcript and that agent's subagents.
/// A transcript that no agent reads gets a new agent while it is recent, known or not.
pub open spec fn project_step(s: ScanView, now: u128, pd: ProjectDir) -> ScanView {
    match newest_unclaimed(pd, s.claimed) {
        None => s,
        Some(e) => {
            let f = pd.entries@[e].file;
            let p = f.path@;
            match known_reader(s, p) {
                Some(pid) => sessions_step(s, pd, now, pid, s.agents[pid].folder_name, pd.entries@),
                None => {
                    let s1 = ScanView { known: s.known.insert(p), ..s };
                    if !recent(f.modified, now) {
                        s1
                    } else {
                        let s2 = with_agent(
                            s1,
                            fresh_agent(s1.next_id as u32, pd.path@, p, Some(pd.folder_name@), None, None, None, None, false),
                        );
                        sessions_step(s2, pd, now, s1.next_id as u32, Some(pd.folder_name@), pd.entries@)
                    }
                },
            }
        },
    }
}

/// The project directories, in order.
pub open spec fn projects_step(s: ScanView, now: u128, pds: Seq<ProjectDir>) -> ScanView
    decreases pds.len(),
{
    if pds.len() == 0 {
        s
    } else {
        project_step(projects_step(s, now, pds.drop_last()), now, pds.last())
    }
}

/// A whole scan: the teams first, then the project directories.
pub open spec fn scan_effect(
    input: ScanInput,
    known: Set<Seq<char>>,
    agents: Map<u32, AgentView>,
    next_id: int,
) -> ScanView {
    let s0 = ScanView { known, agents, next_id, events: Seq::empty(), claimed: Set::empty() };
    projects_step(teams_step(s0, input, selected_teams(input.teams@)), input.now, input.projects@)
}

/// The most agents one team can add.
pub open spec fn team_bound(t: TeamConfig) -> nat {
    1 + t.members@.len()
}

/// The most agents the teams at `order` can add.
pub open spec fn teams_bound(teams: Seq<TeamConfig>, order: Seq<int>) -> nat
    decreases order.len(),
{
    if order.len() == 0 {
        0
    } else {
        teams_bound(teams, order.drop_last()) + team_bound(teams[order.last()])
    }
}

/// The number of subagent entries of a project directory.
pub open spec fn sessions_bound(entries: Seq<ProjectEntry>) -> nat
    decreases entries.len(),
{
    if entries.len() == 0 {
        0
    } else {
        sessions_bound(entries.drop_last()) + entries.last().subagents@.len()
    }
}

/// The most agents the project directories can add.
pub open spec fn projects_bound(pds: Seq<ProjectDir>) -> nat
    decreases pds.len(),
{
    if pds.len() == 0 {
        0
    } else {
        projects_bound(pds.drop_last()) + 1 + sessions_bound(pds.last().entries@)
    }
}

/// The most agents one scan can add.
pub open spec fn scan_bound(input: ScanInput) -> nat {
    teams_bound(input.teams@, selected_teams(input.teams@)) + projects_bound(input.projects@)
}

// ── Searches ────────────────────────────────────────────────────

proof fn lemma_first_found(n: int, ok: spec_fn(int) -> bool, i: int)
    requires
        is_first(n, ok, i),
    ensures
        first_index(n, ok) == Some(i),
{
    let k = choose|k: int| is_first(n, ok, k);
    if k < i {
        assert(!ok(k));
    } else if i < k {
        assert(!ok(i));
    }
}

proof fn lemma_first_none(n: int, ok: spec_fn(int) -> bool)
    requires
        forall|j: int| 0 <= j < n ==> !#[trigger] ok(j),
    ensures
        first_index(n, ok) is None,
{
}

proof fn lemma_best_found(keys: Seq<u128>, ok: spec_fn(int) -> bool, i: int)
    requires
        is_best_at(keys, ok, i),
    ensures
        best_index(keys, ok) == Some(i),
{
    let k = choose|k: int| is_best_at(keys, ok, k);
    assert(ok(k) && ok(i));
}

proof fn lemma_best_none(keys: Seq<u128>, ok: spec_fn(int) -> bool)
    requires
        forall|j: int| 0 <= j < keys.len() ==> !#[trigger] ok(j),
    ensures
        best_index(keys, ok) is None,
{
}

proof fn lemma_least_found(agents: Map<u32, AgentView>, q: AgentQuery, k: u32)
    requires
        is_least_answer(agents, q, k),
    ensures
        least_answer(agents, q) == Some(k),
{
    let k2 = choose|k2: u32| is_least_answer(agents, q, k2);
    assert(agents.contains_key(k2) && agents.contains_key(k));
}

/// The first lead among the members.
fn find_lead(ms: &Vec<TeamMember>) -> (r: Option<usize>)
    ensures
        match r {
            Some(i) => first_lead(ms@) == Some(i as int) && i < ms@.len(),
            None => first_lead(ms@) is None,
        },
{
    let ghost ok = is_lead_at(ms@);
    let mut i: usize = 0;
    while i < ms.len()
        invariant
            ok == is_lead_at(ms@),
            i <= ms@.len(),
            forall|j: int| 0 <= j < i ==> !#[trigger] ok(j),
        decreases ms@.len() - i,
    {
        if ms[i].is_lead {
            proof {
                lemma_first_found(ms@.len() as int, ok, i as int);
            }
            return Some(i);
        }
        i = i + 1;
    }
    proof {
        lemma_first_none(ms@.len() as int, ok);
    }
    None
}

/// The project directory of a team.
fn find_team_project<'a>(input: &'a ScanInput, t: &TeamConfig) -> (r: Option<&'a ProjectDir>)
    ensures
        match r {
            Some(pd) => team_project(*input, *t) == Some(*pd),
            None => team_project(*input, *t) is None,
        },
{
    let cwd: &str = match find_lead(&t.members) {
        Some(i) => t.members[i].cwd.as_str(),
        None => "",
    };
    proof {
        reveal_strlit("");
    }
    assert(cwd@ == lead_cwd(t.members@));
    let name = sanitize_path(cwd);
    let root = match &input.root {
        Some(r) => r,
        None => return None,
    };
    if name.as_str().is_empty() {
        return Some(root);
    }
    let ghost ok = project_named(input.projects@, name@);
    let mut i: usize = 0;
    while i < input.projects.len()
        invariant
            ok == project_named(input.projects@, name@),
            i <= input.projects@.len(),
            input.root == Some(*root),
            name@.len() != 0,
            name@ == sanitized(lead_cwd(t.members@)),
            forall|j: int| 0 <= j < i ==> !#[trigger] ok(j),
        decreases input.projects@.len() - i,
    {
        if str_eq(input.projects[i].name.as_str(), name.as_str()) {
            proof {
                lemma_first_found(input.projects@.len() as int, ok, i as int);
            }
            return Some(&input.projects[i]);
        }
        i = i + 1;
    }
    proof {
        lemma_first_none(input.projects@.len() as int, ok);
    }
    None
}

/// The entry of a project directory with the given name.
fn find_entry(pd: &ProjectDir, name: &str) -> (r: Option<usize>)
    ensures
        match r {
            Some(i) => entry_named(*pd, name@) == Some(i as int) && i < pd.entries@.len(),
            None => entry_named(*pd, name@) is None,
        },
{
    let ghost ok = entry_has_name(pd.entries@, name@);
    let mut i: usize = 0;
    while i < pd.entries.len()
        invariant
            ok == entry_has_name(pd.entries@, name@),
            i <= pd.entries@.len(),
            forall|j: int| 0 <= j < i ==> !#[trigger] ok(j),
        decreases pd.entries@.len() - i,
    {
        if str_eq(pd.entries[i].file.name.as_str(), name) {
            proof {
                lemma_first_found(pd.entries@.len() as int, ok, i as int);
            }
            return Some(i);
        }
        i = i + 1;
    }
    proof {
        lemma_first_none(pd.entries@.len() as int, ok);
    }
    None
}

/// The entry of a `subagents` listing with the given name.
fn find_sub(list: &Vec<SubagentEntry>, name: &str) -> (r: Option<usize>)
    ensures
        match r {
            Some(i) => first_index(list@.len() as int, sub_has_name(list@, name@)) == Some(i as int) && i < list@.len(),
            None => first_index(list@.len() as int, sub_has_name(list@, name@)) is None,
        },
{
    let ghost ok = sub_has_name(list@, name@);
    let mut i: usize = 0;
    while i < list.len()
        invariant
            ok == sub_has_name(list@, name@),
            i <= list@.len(),
            forall|j: int| 0 <= j < i ==> !#[trigger] ok(j),
        decreases list@.len() - i,
    {
        if str_eq(list[i].file.name.as_str(), name) {
            proof {
                lemma_first_found(list@.len() as int, ok, i as int);
            }
            return Some(i);
        }
        i = i + 1;
    }
    proof {
        lemma_first_none(list@.len() as int, ok);
    }
    None
}

/// What an agent is looked up by, with borrowed strings.
pub enum Query<'a> {
    Transcript(&'a str),
    Member(&'a str, &'a str),
}

impl<'a> View for Query<'a> {
    type V = AgentQuery;

    open spec fn view(&self) -> AgentQuery {
        match self {
            Query::Transcript(p) => AgentQuery::Transcript(p@),
            Query::Member(t, m) => AgentQuery::Member(t@, m@),
        }
    }
}

fn opt_is(o: &Option<String>, s: &str) -> (r: bool)
    ensures
        r == (opt_chars(*o) == Some(s@)),
{
    match o {
        Some(x) => str_eq(x.as_str(), s),
        None => false,
    }
}

fn answers_query(a: &AgentState, q: &Query) -> (r: bool)
    ensures
        r == answers(a@, q@),
{
    match q {
        Query::Transcript(p) => str_eq(a.jsonl_file.as_str(), p) && !a.is_subagent,
        Query::Member(t, m) => opt_is(&a.team_name, t) && opt_is(&a.member_name, m),
    }
}

/// The agent that answers `q`, the least id where several do.
fn least_agent(agents: &HashMap<u32, AgentState>, q: &Query) -> (r: Option<u32>)
    ensures
        r == least_answer(agents_view(agents@), q@),
{
    let ghost view = agents_view(agents@);
    let ids = agent_ids(agents);
    let mut best: Option<u32> = None;
    let mut i: usize = 0;
    while i < ids.len()
        invariant
            view == agents_view(agents@),
            forall|k: u32| ids@.contains(k) <==> agents@.contains_key(k),
            i <= ids@.len(),
            match best {
                Some(b) => view.contains_key(b) && answers(view[b], q@) && forall|j: int|
                    0 <= j < i && answers(view[ids@[j]], q@) ==> b <= #[trigger] ids@[j],
                None => forall|j: int| 0 <= j < i ==> !answers(view[#[trigger] ids@[j]], q@),
            },
        decreases ids@.len() - i,
    {
        let k = ids[i];
        assert(ids@.contains(k));
        let a = agents.get(&k).unwrap();
        assert(view[k] == a@);
        if answers_query(a, q) {
            match best {
                Some(b) => {
                    if k < b {
                        best = Some(k);
                    }
                },
                None => {
                    best = Some(k);
                },
            }
        }
        i = i + 1;
    }
    match best {
        Some(b) => {
            proof {
                assert forall|k2: u32| #[trigger] view.contains_key(k2) && answers(view[k2], q@) implies b <= k2 by {
                    assert(ids@.contains(k2));
                    let j = choose|j: int| 0 <= j < ids@.len() && ids@[j] == k2;
                    assert(answers(view[ids@[j]], q@));
                }
                lemma_least_found(view, q@, b);
            }
        },
        None => {
            proof {
                assert forall|k: u32| !is_least_answer(view, q@, k) by {
                    if view.contains_key(k) {
                        assert(ids@.contains(k));
                        let j = choose|j: int| 0 <= j < ids@.len() && ids@[j] == k;
                        assert(!answers(view[ids@[j]], q@));
                    }
                }
            }
        },
    }
    best
}

/// A member's newest transcript in a listing, found through the metadata files.
fn find_member_transcript<'a>(list: &'a Vec<SubagentEntry>, member: &str) -> (r: Option<&'a String>)
    ensures
        match r {
            Some(p) => member_transcript(list@, member@) == Some(p@),
            None => member_transcript(list@, member@) is None,
        },
{
    let ghost keys = meta_keys(list@);
    let ghost ok = member_meta_at(list@, member@);
    let mut best: Option<(usize, usize, u128)> = None;
    let mut i: usize = 0;
    while i < list.len()
        invariant
            keys == meta_keys(list@),
            ok == member_meta_at(list@, member@),
            i <= list@.len(),
            match best {
                Some((b, t, key)) => {
                    &&& b < i
                    &&& ok(b as int)
                    &&& meta_transcript(list@, b as int) == Some(t as int)
                    &&& t < list@.len()
                    &&& key == keys[b as int]
                    &&& forall|j: int| 0 <= j < i && #[trigger] ok(j) ==> keys[j] < key || (keys[j] == key && b <= j)
                },
                None => forall|j: int| 0 <= j < i ==> !#[trigger] ok(j),
            },
        decreases list@.len() - i,
    {
        let e = &list[i];
        let mut cand: Option<(usize, u128)> = None;
        if has_suffix(e.file.name.as_str(), ".meta.json") && opt_is(&e.agent_type, member) {
            let beside = transcript_name_beside(e.file.name.as_str());
            match find_sub(list, beside.as_str()) {
                Some(t) => {
                    let key: u128 = match list[t].file.modified {
                        Some(m) => m,
                        None => 0,
                    };
                    cand = Some((t, key));
                },
                None => {},
            }
        }
        assert(keys[i as int] == meta_key(list@, i as int));
        match cand {
            Some((t, key)) => {
                assert(ok(i as int));
                match best {
                    Some((b, bt, bkey)) => {
                        if key > bkey {
                            best = Some((i, t, key));
                        }
                    },
                    None => {
                        best = Some((i, t, key));
                    },
                }
            },
            None => {
                assert(!ok(i as int));
            },
        }
        i = i + 1;
    }
    match best {
        Some((b, t, key)) => {
            proof {
                lemma_best_found(keys, ok, b as int);
            }
            Some(&list[t].file.path)
        },
        None => {
            proof {
                lemma_best_none(keys, ok);
            }
            None
        },
    }
}

/// The newest transcript of a project directory that is not claimed.
fn find_newest_unclaimed(pd: &ProjectDir, claimed: &FileSet) -> (r: Option<usize>)
    ensures
        match r {
            Some(i) => newest_unclaimed(*pd, claimed@) == Some(i as int) && i < pd.entries@.len(),
            None => newest_unclaimed(*pd, claimed@) is None,
        },
{
    let ghost keys = entry_keys(pd.entries@);
    let ghost ok = unclaimed_transcript(pd.entries@, claimed@);
    let mut best: Option<(usize, u128)> = None;
    let mut i: usize = 0;
    while i < pd.entries.len()
        invariant
            keys == entry_keys(pd.entries@),
            ok == unclaimed_transcript(pd.entries@, claimed@),
            i <= pd.entries@.len(),
            match best {
                Some((b, key)) => {
                    &&& b < i
                    &&& ok(b as int)
                    &&& key == keys[b as int]
                    &&& forall|j: int| 0 <= j < i && #[trigger] ok(j) ==> keys[j] < key || (keys[j] == key && b <= j)
                },
                None => forall|j: int| 0 <= j < i ==> !#[trigger] ok(j),
            },
        decreases pd.entries@.len() - i,
    {
        let f = &pd.entries[i].file;
        assert(keys[i as int] == stamp_key(f.modified));
        if is_transcript(f.name.as_str()) && !claimed.contains(f.path.as_str()) {
            assert(ok(i as int));
            let key: u128 = match f.modified {
                Some(m) => m,
                None => 0,
            };
            match best {
                Some((b, bkey)) => {
                    if key > bkey {
                        best = Some((i, key));
                    }
                },
                None => {
                    best = Some((i, key));
                },
            }
        } else {
            assert(!ok(i as int));
        }
        i = i + 1;
    }
    match best {
        Some((b, key)) => {
            proof {
                lemma_best_found(keys, ok, b as int);
            }
            Some(b)
        },
        None => {
            proof {
                lemma_best_none(keys, ok);
            }
            None
        },
    }
}

// ── The scan ────────────────────────────────────────────────────

fn copy_opt(o: &Option<String>) -> (r: Option<String>)
    ensures
        opt_chars(r) == opt_chars(*o),
{
    match o {
        Some(x) => Some(x.clone()),
        None => None,
    }
}

/// Whether a file was written in the two hours before `now`.
pub fn is_recent_file(modified: Option<u128>, now: u128) -> (r: bool)
    ensures
        r == recent(modified, now),
{
    match modified {
        Some(m) => m <= now && now - m < 7_200_000_000_000,
        None => false,
    }
}

/// Whether a team was created in the two hours before `now`.
pub fn is_recent_team(team: &TeamConfig, now: u128) -> (r: bool)
    ensures
        r == team_recent(team.created_at, now),
{
    let now_ms = (now / 1_000_000) as u64;
    now_ms.saturating_sub(team.created_at) < 7_200_000
}

proof fn lemma_agents_insert(m: Map<u32, AgentState>, k: u32, a: AgentState)
    ensures
        agents_view(m.insert(k, a)) == agents_view(m).insert(k, a@),
{
    assert(agents_view(m.insert(k, a)) =~= agents_view(m).insert(k, a@));
}

proof fn lemma_agents_reinsert(m: Map<u32, AgentState>, k: u32, a: AgentState)
    requires
        m.contains_key(k),
    ensures
        agents_view(m.remove(k).insert(k, a)) == agents_view(m).insert(k, a@),
{
    assert(agents_view(m.remove(k).insert(k, a)) =~= agents_view(m).insert(k, a@));
}

/// The state of a scan in progress.
struct Scanner {
    known: FileSet,
    agents: HashMap<u32, AgentState>,
    next_id: u32,
    events: Vec<AgentEvent>,
    claimed: FileSet,
}

impl View for Scanner {
    type V = ScanView;

    closed spec fn view(&self) -> ScanView {
        ScanView {
            known: self.known@,
            agents: agents_view(self.agents@),
            next_id: self.next_id as int,
            events: events_view(self.events@),
            claimed: self.claimed@,
        }
    }
}

impl Scanner {
    /// The top-level agent that reads the known transcript `path`, if any.
    fn known_reader(&self, path: &str) -> (r: Option<u32>)
        ensures
            r == known_reader(self@, path@),
    {
        if self.known.contains(path) {
            least_agent(&self.agents, &Query::Transcript(path))
        } else {
            None
        }
    }

    /// Adds `a`, which has the next id, and its event.
    fn add_agent(&mut self, a: AgentState)
        requires
            a.id == old(self).next_id,
            old(self).next_id < u32::MAX,
        ensures
            final(self)@ == with_agent(old(self)@, a@),
    {
        let id = self.next_id;
        let ghost m = self.agents@;
        let ghost ev = self.events@;
        let ghost av = a@;
        self.agents.insert(id, a);
        let e = AgentEvent::StatusChange { agent_id: id, status: AgentStatus::Idle };
        self.events.push(e);
        self.next_id = id + 1;
        proof {
            lemma_agents_insert(m, id, a);
            assert(events_view(self.events@) =~= events_view(ev).push(e@));
        }
    }

    /// One member of team `t`, under the lead `lid`.
    fn add_member(
        &mut self,
        t: &TeamConfig,
        pd: &ProjectDir,
        lid: u32,
        parent_folder: &Option<String>,
        m: &TeamMember,
    )
        requires
            old(self).next_id < u32::MAX,
        ensures
            final(self)@ == member_step(old(self)@, *t, *pd, lid, opt_chars(*parent_folder), *m),
            old(self).next_id <= final(self).next_id <= old(self).next_id + 1,
    {
        if m.is_lead {
            return;
        }
        let ghost s = self@;
        let empty: Vec<SubagentEntry> = Vec::new();
        let list = match find_entry(pd, t.lead_session_id.as_str()) {
            Some(i) => &pd.entries[i].subagents,
            None => &empty,
        };
        assert(list@ == session_subagents(*pd, t.lead_session_id@));
        let best = find_member_transcript(list, m.name.as_str());
        let q = Query::Member(t.name.as_str(), m.name.as_str());
        match least_agent(&self.agents, &q) {
            Some(eid) => match best {
                None => {},
                Some(bp) => {
                    self.claimed.insert(bp.as_str());
                    let ghost m0 = self.agents@;
                    assert(agents_view(m0).contains_key(eid));
                    let mut a = self.agents.remove(&eid).unwrap();
                    let ghost a0 = a@;
                    assert(a0 == s.agents[eid]);
                    if !str_eq(a.jsonl_file.as_str(), bp.as_str()) {
                        self.known.insert(bp.as_str());
                        a.jsonl_file = bp.clone();
                        a.file_offset = 0;
                        a.line_buffer = String::new();
                        a.clear_activity();
                        let ghost ev = self.events@;
                        let e = AgentEvent::ClearActivity { agent_id: eid };
                        self.events.push(e);
                        proof {
                            assert(events_view(self.events@) =~= events_view(ev).push(e@));
                            assert(a@.active_tools =~= Seq::<ActiveTool>::empty());
                            assert(a@.line_buffer =~= Seq::<char>::empty());
                            assert(a@.last_status_text =~= Seq::<char>::empty());
                            assert(a@ == switched(a0, bp@));
                        }
                    } else {
                        assert(a@ == a0);
                    }
                    proof {
                        lemma_agents_reinsert(m0, eid, a);
                    }
                    self.agents.insert(eid, a);
                    proof {
                        assert(agents_view(m0).insert(eid, a0) =~= agents_view(m0));
                    }
                },
            },
            None => {
                let file = match best {
                    Some(bp) => {
                        self.known.insert(bp.as_str());
                        self.claimed.insert(bp.as_str());
                        bp.clone()
                    },
                    None => {
                        proof {
                            reveal_strlit("__team_placeholder__");
                            reveal_strlit(".jsonl");
                        }
                        let name = String::from_str("__team_placeholder__").concat(m.name.as_str()).concat(".jsonl");
                        join_path(pd.path.as_str(), name.as_str())
                    },
                };
                let agent = AgentState::new_team_member(
                    self.next_id,
                    pd.path.clone(),
                    file,
                    copy_opt(parent_folder),
                    t.name.clone(),
                    m.name.clone(),
                    copy_opt(&m.color),
                    false,
                    Some(lid),
                );
                self.add_agent(agent);
            },
        }
    }
    /// The members of team `t`, in order, under the lead `lid`.
    fn add_members(&mut self, t: &TeamConfig, pd: &ProjectDir, lid: u32, parent_folder: &Option<String>)
        requires
            old(self).next_id + t.members@.len() <= u32::MAX,
        ensures
            final(self)@ == members_step(old(self)@, *t, *pd, lid, opt_chars(*parent_folder), t.members@),
            old(self).next_id <= final(self).next_id <= old(self).next_id + t.members@.len(),
    {
        let ghost s0 = self@;
        let ghost n0 = self.next_id;
        let mut j: usize = 0;
        assert(t.members@.take(0) =~= Seq::<TeamMember>::empty());
        while j < t.members.len()
            invariant
                j <= t.members@.len(),
                n0 + t.members@.len() <= u32::MAX,
                self@ == members_step(s0, *t, *pd, lid, opt_chars(*parent_folder), t.members@.take(j as int)),
                n0 <= self.next_id <= n0 + j,
            decreases t.members@.len() - j,
        {
            self.add_member(t, pd, lid, parent_folder, &t.members[j]);
            assert(t.members@.take(j + 1).drop_last() =~= t.members@.take(j as int));
            j = j + 1;
        }
        assert(t.members@.take(t.members@.len() as int) =~= t.members@);
    }

    /// One team: its lead's transcript, its lead agent, then its members.
    fn add_team(&mut self, input: &ScanInput, t: &TeamConfig)
        requires
            old(self).next_id + team_bound(*t) <= u32::MAX,
        ensures
            final(self)@ == team_step(old(self)@, *input, *t),
            old(self).next_id <= final(self).next_id <= old(self).next_id + team_bound(*t),
    {
        let pd = match find_team_project(input, t) {
            Some(pd) => pd,
            None => return,
        };
        let lead_name = t.lead_session_id.clone().concat(".jsonl");
        let e = match find_entry(pd, lead_name.as_str()) {
            Some(e) => e,
            None => return,
        };
        let f = &pd.entries[e].file;
        if !is_recent_file(f.modified, input.now) && !is_recent_team(t, input.now) {
            return;
        }
        self.claimed.insert(f.path.as_str());
        let ghost s1 = self@;
        match self.known_reader(f.path.as_str()) {
            Some(lid) => {
                let a = self.agents.get(&lid).unwrap();
                assert(s1.agents[lid] == a@);
                let pf = copy_opt(&a.folder_name);
                self.add_members(t, pd, lid, &pf);
            },
            None => {
            self.known.insert(f.path.as_str());
            let color = match find_lead(&t.members) {
                Some(i) => copy_opt(&t.members[i].color),
                None => None,
            };
            let lid = self.next_id;
            let agent = AgentState::new_team_member(
                lid,
                pd.path.clone(),
                f.path.clone(),
                Some(pd.folder_name.clone()),
                t.name.clone(),
                String::new(),
                color,
                true,
                None,
            );
            self.add_agent(agent);
            let pf = Some(pd.folder_name.clone());
            self.add_members(t, pd, lid, &pf);
            },
        }
    }

    /// One entry of a `subagents` listing, under the agent `pid`.
    fn add_subagent(
        &mut self,
        pd: &ProjectDir,
        now: u128,
        pid: u32,
        parent_folder: &Option<String>,
        x: &SubagentEntry,
    )
        requires
            old(self).next_id < u32::MAX,
        ensures
            final(self)@ == subagent_step(old(self)@, *pd, now, pid, opt_chars(*parent_folder), *x),
            old(self).next_id <= final(self).next_id <= old(self).next_id + 1,
    {
        let p = x.file.path.as_str();
        if !is_transcript(x.file.name.as_str()) || self.known.contains(p) || self.claimed.contains(p)
            || !is_recent_file(x.file.modified, now) {
            return;
        }
        self.known.insert(p);
        let agent = AgentState::new_subagent(
            self.next_id,
            pd.path.clone(),
            x.file.path.clone(),
            copy_opt(parent_folder),
            pid,
        );
        self.add_agent(agent);
    }

    /// The `subagents` listings of the sessions of `pd`, in order.
    fn add_subagents(&mut self, pd: &ProjectDir, now: u128, pid: u32, parent_folder: &Option<String>)
        requires
            old(self).next_id + sessions_bound(pd.entries@) <= u32::MAX,
        ensures
            final(self)@ == sessions_step(old(self)@, *pd, now, pid, opt_chars(*parent_folder), pd.entries@),
            old(self).next_id <= final(self).next_id <= old(self).next_id + sessions_bound(pd.entries@),
    {
        let ghost s0 = self@;
        let ghost n0 = self.next_id;
        let ghost pf = opt_chars(*parent_folder);
        let ghost es = pd.entries@;
        let mut k: usize = 0;
        assert(es.take(0) =~= Seq::<ProjectEntry>::empty());
        proof {
            lemma_sessions_bound_prefix(es, es.len() as int);
            assert(es.take(es.len() as int) =~= es);
        }
        while k < pd.entries.len()
            invariant
                es == pd.entries@,
                pf == opt_chars(*parent_folder),
                k <= es.len(),
                n0 + sessions_bound(es) <= u32::MAX,
                self@ == sessions_step(s0, *pd, now, pid, pf, es.take(k as int)),
                n0 <= self.next_id <= n0 + sessions_bound(es.take(k as int)),
                forall|k2: int| 0 <= k2 <= es.len() ==> sessions_bound(#[trigger] es.take(k2)) <= sessions_bound(es),
            decreases es.len() - k,
        {
            let entry = &pd.entries[k];
            assert(es.take(k + 1).drop_last() =~= es.take(k as int));
            assert(es.take(k + 1).last() == *entry);
            let ghost s1 = self@;
            let ghost n1 = self.next_id;
            if entry.is_dir {
                let list = &entry.subagents;
                let mut x: usize = 0;
                assert(list@.take(0) =~= Seq::<SubagentEntry>::empty());
                while x < list.len()
                    invariant
                        es == pd.entries@,
                        pf == opt_chars(*parent_folder),
                        k < es.len(),
                        list == pd.entries@[k as int].subagents,
                        x <= list@.len(),
                        n1 + list@.len() <= u32::MAX,
                        self@ == subagents_step(s1, *pd, now, pid, pf, list@.take(x as int)),
                        n1 <= self.next_id <= n1 + x,
                    decreases list@.len() - x,
                {
                    self.add_subagent(pd, now, pid, parent_folder, &list[x]);
                    assert(list@.take(x + 1).drop_last() =~= list@.take(x as int));
                    x = x + 1;
                }
                assert(list@.take(list@.len() as int) =~= list@);
            }
            k = k + 1;
        }
        assert(es.take(es.len() as int) =~= es);
    }

    /// One project directory: its newest unclaimed transcript and that agent's subagents.
    fn add_project(&mut self, now: u128, pd: &ProjectDir)
        requires
            old(self).next_id + 1 + sessions_bound(pd.entries@) <= u32::MAX,
        ensures
            final(self)@ == project_step(old(self)@, now, *pd),
            old(self).next_id <= final(self).next_id <= old(self).next_id + 1 + sessions_bound(pd.entries@),
    {
        let e = match find_newest_unclaimed(pd, &self.claimed) {
            Some(e) => e,
            None => return,
        };
        let f = &pd.entries[e].file;
        match self.known_reader(f.path.as_str()) {
            Some(pid) => {
                let a = self.agents.get(&pid).unwrap();
                assert(self@.agents[pid] == a@);
                let pf = copy_opt(&a.folder_name);
                self.add_subagents(pd, now, pid, &pf);
            },
            None => {
                self.known.insert(f.path.as_str());
                if !is_recent_file(f.modified, now) {
                    return;
                }
                let pid = self.next_id;
                let agent = AgentState::new(pid, pd.path.clone(), f.path.clone(), Some(pd.folder_name.clone()));
                self.add_agent(agent);
                let pf = Some(pd.folder_name.clone());
                self.add_subagents(pd, now, pid, &pf);
            },
        }
    }
}

proof fn lemma_sessions_bound_prefix(es: Seq<ProjectEntry>, n: int)
    requires
        0 <= n <= es.len(),
    ensures
        forall|k: int| 0 <= k <= n ==> sessions_bound(#[trigger] es.take(k)) <= sessions_bound(es.take(n)),
    decreases n,
{
    if n > 0 {
        lemma_sessions_bound_prefix(es, n - 1);
        assert(es.take(n).drop_last() =~= es.take(n - 1));
        assert forall|k: int| 0 <= k <= n implies sessions_bound(#[trigger] es.take(k)) <= sessions_bound(es.take(n)) by {
            if k == n {
            } else {
                assert(sessions_bound(es.take(k)) <= sessions_bound(es.take(n - 1)));
            }
        }
    }
    assert(es.take(es.len() as int) =~= es);
}

proof fn lemma_teams_bound_prefix(teams: Seq<TeamConfig>, order: Seq<int>, n: int)
    requires
        0 <= n <= order.len(),
    ensures
        forall|k: int| 0 <= k <= n ==> teams_bound(teams, #[trigger] order.take(k)) <= teams_bound(teams, order.take(n)),
    decreases n,
{
    if n > 0 {
        lemma_teams_bound_prefix(teams, order, n - 1);
        assert(order.take(n).drop_last() =~= order.take(n - 1));
    }
}

proof fn lemma_projects_bound_prefix(pds: Seq<ProjectDir>, n: int)
    requires
        0 <= n <= pds.len(),
    ensures
        forall|k: int| 0 <= k <= n ==> projects_bound(#[trigger] pds.take(k)) <= projects_bound(pds.take(n)),
    decreases n,
{
    if n > 0 {
        lemma_projects_bound_prefix(pds, n - 1);
        assert(pds.take(n).drop_last() =~= pds.take(n - 1));
    }
}

/// Scans for agents in two phases: first the teams, newest first, each matched to its
/// lead's transcript and its members' newest transcripts; then every project directory
/// for its newest transcript that no team claimed, and that agent's subagents.
///
/// New agents take ids from `next_id` on; each new agent gets a `StatusChange` to idle,
/// and a team member moved to a newer transcript gets a `ClearActivity`. Every path read
/// as a transcript joins `known_files`. A recent transcript that is known but that no
/// agent reads (first seen when old, or left by an agent that expired) gets an agent
/// again, so a session that comes back to life is shown again.
pub fn scan_for_agents(
    input: &ScanInput,
    known_files: &mut FileSet,
    agents: &mut HashMap<u32, AgentState>,
    next_id: &mut u32,
) -> (events: Vec<AgentEvent>)
    requires
        *old(next_id) + scan_bound(*input) <= u32::MAX,
    ensures
        ({
            let r = scan_effect(*input, old(known_files)@, agents_view(old(agents)@), *old(next_id) as int);
            &&& final(known_files)@ == r.known
            &&& agents_view(final(agents)@) == r.agents
            &&& *final(next_id) == r.next_id
            &&& events_view(events@) == r.events
        }),
{
    let mut sc = Scanner {
        known: FileSet::new(),
        agents: HashMap::new(),
        next_id: *next_id,
        events: Vec::new(),
        claimed: FileSet::new(),
    };
    std::mem::swap(&mut sc.known, known_files);
    std::mem::swap(&mut sc.agents, agents);
    let ghost s0 = sc@;
    proof {
        assert(events_view(sc.events@) =~= Seq::<EventView>::empty());
        assert(s0 == ScanView {
            known: old(known_files)@,
            agents: agents_view(old(agents)@),
            next_id: *old(next_id) as int,
            events: Seq::empty(),
            claimed: Set::empty(),
        });
    }
    let ghost n0 = sc.next_id;

    // Phase 1: teams, newest first, one per lead session.
    let order = select_teams(&input.teams);
    let ghost o = ints(order@);
    let mut i: usize = 0;
    assert(o.take(0) =~= Seq::<int>::empty());
    proof {
        lemma_teams_bound_prefix(input.teams@, o, o.len() as int);
        assert(o.take(o.len() as int) =~= o);
    }
    while i < order.len()
        invariant
            o == ints(order@),
            o == selected_teams(input.teams@),
            forall|k: int| 0 <= k < order@.len() ==> order@[k] < input.teams@.len(),
            i <= order@.len(),
            n0 + scan_bound(*input) <= u32::MAX,
            sc@ == teams_step(s0, *input, o.take(i as int)),
            n0 <= sc.next_id <= n0 + teams_bound(input.teams@, o.take(i as int)),
            forall|k: int| 0 <= k <= o.len() ==> teams_bound(input.teams@, #[trigger] o.take(k)) <= teams_bound(input.teams@, o),
        decreases order@.len() - i,
    {
        let t = &input.teams[order[i]];
        assert(o.take(i + 1).drop_last() =~= o.take(i as int));
        assert(o.take(i + 1).last() == order@[i as int] as int);
        sc.add_team(input, t);
        i = i + 1;
    }
    assert(o.take(o.len() as int) =~= o);
    let ghost s1 = sc@;
    let ghost n1 = sc.next_id;

    // Phase 2: project directories, for what the teams left.
    let ghost ps = input.projects@;
    let mut k: usize = 0;
    assert(ps.take(0) =~= Seq::<ProjectDir>::empty());
    proof {
        lemma_projects_bound_prefix(ps, ps.len() as int);
        assert(ps.take(ps.len() as int) =~= ps);
    }
    while k < input.projects.len()
        invariant
            ps == input.projects@,
            k <= ps.len(),
            n1 + projects_bound(ps) <= u32::MAX,
            sc@ == projects_step(s1, input.now, ps.take(k as int)),
            n1 <= sc.next_id <= n1 + projects_bound(ps.take(k as int)),
            forall|k2: int| 0 <= k2 <= ps.len() ==> projects_bound(#[trigger] ps.take(k2)) <= projects_bound(ps),
        decreases ps.len() - k,
    {
        assert(ps.take(k + 1).drop_last() =~= ps.take(k as int));
        assert(ps.take(k + 1).last() == ps[k as int]);
        sc.add_project(input.now, &input.projects[k]);
        k = k + 1;
    }
    assert(ps.take(ps.len() as int) =~= ps);

    std::mem::swap(&mut sc.known, known_files);
    std::mem::swap(&mut sc.agents, agents);
    *next_id = sc.next_id;
    sc.events
}

/// Whether `next_id` leaves room for every agent one scan of `input` could add.
pub fn scan_fits(input: &ScanInput, next_id: u32) -> (r: bool)
    ensures
        r == (next_id + scan_bound(*input) <= u32::MAX),
{
    let order = select_teams(&input.teams);
    let ghost o = ints(order@);
    let mut total: u128 = next_id as u128;
    let mut i: usize = 0;
    assert(o.take(0) =~= Seq::<int>::empty());
    while i < order.len()
        invariant
            o == ints(order@),
            o == selected_teams(input.teams@),
            forall|k: int| 0 <= k < order@.len() ==> order@[k] < input.teams@.len(),
            i <= order@.len(),
            total == next_id + teams_bound(input.teams@, o.take(i as int)),
            total <= u32::MAX,
        decreases order@.len() - i,
    {
        assert(o.take(i + 1).drop_last() =~= o.take(i as int));
        total = total + 1 + input.teams[order[i]].members.len() as u128;
        if total > 0xffff_ffff {
            proof {
                lemma_teams_bound_prefix(input.teams@, o, o.len() as int);
                assert(o.take(o.len() as int) =~= o);
            }
            return false;
        }
        i = i + 1;
    }
    assert(o.take(o.len() as int) =~= o);
    let ghost ps = input.projects@;
    let ghost tb = teams_bound(input.teams@, o);
    let mut k: usize = 0;
    assert(ps.take(0) =~= Seq::<ProjectDir>::empty());
    while k < input.projects.len()
        invariant
            ps == input.projects@,
            k <= ps.len(),
            tb == teams_bound(input.teams@, selected_teams(input.teams@)),
            total == next_id + tb + projects_bound(ps.take(k as int)),
            total <= u32::MAX,
        decreases ps.len() - k,
    {
        assert(ps.take(k + 1).drop_last() =~= ps.take(k as int));
        let es = &input.projects[k].entries;
        total = total + 1;
        let ghost base = total;
        let mut x: usize = 0;
        assert(es@.take(0) =~= Seq::<ProjectEntry>::empty());
        while x < es.len()
            invariant
                ps == input.projects@,
                k < ps.len(),
                *es == ps[k as int].entries,
                tb == teams_bound(input.teams@, selected_teams(input.teams@)),
                base == next_id + tb + projects_bound(ps.take(k as int)) + 1,
                x <= es@.len(),
                total == base + sessions_bound(es@.take(x as int)),
                base <= u32::MAX + 1,
                total <= u32::MAX + 1,
            decreases es@.len() - x,
        {
            assert(es@.take(x + 1).drop_last() =~= es@.take(x as int));
            total = total + es[x].subagents.len() as u128;
            if total > 0xffff_ffff {
                proof {
                    lemma_sessions_bound_prefix(es@, es@.len() as int);
                    assert(es@.take(es@.len() as int) =~= es@);
                    lemma_projects_bound_prefix(ps, ps.len() as int);
                    assert(ps.take(ps.len() as int) =~= ps);
                    assert(ps.take(k + 1).drop_last() =~= ps.take(k as int));
                    assert(ps.take(k + 1).last() == ps[k as int]);
                    assert(sessions_bound(es@.take(x + 1)) <= sessions_bound(es@));
                }
                return false;
            }
            x = x + 1;
        }
        assert(es@.take(es@.len() as int) =~= es@);
        assert(ps.take(k + 1).last() == input.projects@[k as int]);
        if total > 0xffff_ffff {
            proof {
                lemma_projects_bound_prefix(ps, ps.len() as int);
                assert(ps.take(ps.len() as int) =~= ps);
            }
            return false;
        }
        k = k + 1;
    }
    assert(ps.take(ps.len() as int) =~= ps);
    true
}

// ── Reading transcripts as they grow ────────────────────────────

/// A line without its leading and trailing whitespace, as `str::trim` gives it.
pub uninterp spec fn str_trimmed(s: Seq<char>) -> Seq<char>;

/// Calls `str::trim`; the result is stated only as the named value `str_trimmed(s)`.
#[verifier::external_body]
fn trim(s: &str) -> (r: String)
    ensures
        r@ == str_trimmed(s@),
{
    s.trim().to_string()
}

/// The complete lines among `pieces`, trimmed, without the blank ones.
pub open spec fn nonblank_lines(pieces: Seq<Seq<char>>) -> Seq<Seq<char>>
    decreases pieces.len(),
{
    if pieces.len() == 0 {
        Seq::empty()
    } else {
        let rest = nonblank_lines(pieces.drop_last());
        let t = str_trimmed(pieces.last());
        if t.len() > 0 { rest.push(t) } else { rest }
    }
}

/// Takes in newly read text: the agent's unfinished line and `chunk` together are cut at
/// each newline; the last piece waits for more, the others are returned trimmed, without
/// the blank ones. The agent has now read up to `new_offset`.
pub fn receive_chunk(agent: &mut AgentState, new_offset: u64, chunk: &str) -> (lines: Vec<String>)
    ensures
        ({
            let pieces = split_on(old(agent).line_buffer@ + chunk@, '\n');
            &&& final(agent)@ == (AgentView {
                line_buffer: pieces.last(),
                file_offset: new_offset,
                ..old(agent)@
            })
            &&& lines@.map_values(|l: String| l@) == nonblank_lines(pieces.drop_last())
        }),
{
    agent.file_offset = new_offset;
    let text = agent.line_buffer.clone().concat(chunk);
    let mut pieces = split_chars(text.as_str(), '\n');
    let ghost ps = pieces@.map_values(|p: String| p@);
    proof {
        lemma_split_nonempty(text@, '\n');
    }
    let last = pieces.pop().unwrap();
    assert(ps.drop_last() =~= pieces@.map_values(|p: String| p@));
    agent.line_buffer = last;
    let mut lines: Vec<String> = Vec::new();
    let mut i: usize = 0;
    let ghost done = ps.drop_last();
    assert(done.take(0) =~= Seq::<Seq<char>>::empty());
    while i < pieces.len()
        invariant
            done == ps.drop_last(),
            done == pieces@.map_values(|p: String| p@),
            i <= pieces@.len(),
            lines@.map_values(|l: String| l@) == nonblank_lines(done.take(i as int)),
        decreases pieces@.len() - i,
    {
        let t = trim(pieces[i].as_str());
        assert(done.take(i + 1).drop_last() =~= done.take(i as int));
        assert(done.take(i + 1).last() == pieces@[i as int]@);
        let ghost before = lines@.map_values(|l: String| l@);
        if !t.as_str().is_empty() {
            lines.push(t);
            assert(lines@.map_values(|l: String| l@) =~= before.push(t@));
        }
        i = i + 1;
    }
    assert(done.take(done.len() as int) =~= done);
    lines
}

/// A transcript that has not changed for `STALE_ACTIVE_TIMEOUT_SECS` seconds.
pub open spec fn stale(age_secs: Option<u64>) -> bool {
    match age_secs {
        Some(a) => a >= STALE_ACTIVE_TIMEOUT_SECS,
        None => false,
    }
}

/// An active agent that got no new lines while its transcript has gone stale is taken to
/// have stopped: its tools are forgotten and it turns idle, with an event saying so.
/// `age_secs` is the time since the transcript changed (`None` where unknown).
pub fn settle_if_stale(agent: &mut AgentState, had_new_data: bool, age_secs: Option<u64>) -> (event: Option<AgentEvent>)
    ensures
        if !had_new_data && old(agent).status == AgentStatus::Active && stale(age_secs) {
            &&& final(agent)@ == (AgentView {
                active_tools: Seq::empty(),
                had_tools_in_turn: false,
                status: AgentStatus::Idle,
                ..old(agent)@
            })
            &&& event matches Some(e) && e@ == (EventView::StatusChange { agent_id: old(agent).id, status: AgentStatus::Idle })
        } else {
            &&& final(agent)@ == old(agent)@
            &&& event is None
        },
{
    let is_stale = match age_secs {
        Some(a) => a >= STALE_ACTIVE_TIMEOUT_SECS,
        None => false,
    };
    if !had_new_data && agent.status == AgentStatus::Active && is_stale {
        agent.active_tools = Vec::new();
        agent.had_tools_in_turn = false;
        agent.status = AgentStatus::Idle;
        assert(agent@.active_tools =~= Seq::<ActiveTool>::empty());
        return Some(AgentEvent::StatusChange { agent_id: agent.id, status: AgentStatus::Idle });
    }
    None
}

// ── Project names ───────────────────────────────────────────────

/// The pieces joined with `-` between them.
pub open spec fn join_dash(parts: Seq<Seq<char>>) -> Seq<char>
    decreases parts.len(),
{
    if parts.len() == 0 {
        Seq::empty()
    } else if parts.len() == 1 {
        parts[0]
    } else {
        join_dash(parts.drop_last()) + "-"@ + parts.last()
    }
}

/// The path tried for the pieces `i..end` under `path`.
pub open spec fn candidate(parts: Seq<Seq<char>>, path: Seq<char>, i: int, end: int) -> Seq<char> {
    joined_path(path, join_dash(parts.subrange(i, end)))
}

/// The end of the pieces tried from `i` (at most six of them).
pub open spec fn max_end(n: int, i: int) -> int {
    if i + 6 < n { i + 6 } else { n }
}

/// `end` is the longest run of pieces from `i` that names an existing path under `path`.
pub open spec fn is_longest_step(
    parts: Seq<Seq<char>>,
    path: Seq<char>,
    i: int,
    on_disk: spec_fn(Seq<char>) -> bool,
    end: int,
) -> bool {
    &&& i < end <= max_end(parts.len() as int, i)
    &&& on_disk(candidate(parts, path, i, end))
    &&& forall|e: int| end < e <= max_end(parts.len() as int, i) ==> !on_disk(#[trigger] candidate(parts, path, i, e))
}

/// The longest run of pieces from `i` that names an existing path under `path`.
pub open spec fn longest_step(parts: Seq<Seq<char>>, path: Seq<char>, i: int, on_disk: spec_fn(Seq<char>) -> bool) -> Option<int> {
    if exists|end: int| is_longest_step(parts, path, i, on_disk, end) {
        Some(choose|end: int| is_longest_step(parts, path, i, on_disk, end))
    } else {
        None
    }
}

/// Walks down from `path` through existing directories, taking at each level the longest
/// run of pieces (up to six) that names one; gives the last directory's name, or, where
/// no run fits, the remaining pieces joined with `-`.
pub open spec fn decode_from(
    parts: Seq<Seq<char>>,
    path: Seq<char>,
    i: int,
    on_disk: spec_fn(Seq<char>) -> bool,
    fallback: Seq<char>,
) -> Seq<char>
    decreases parts.len() - i,
{
    if i >= parts.len() || i < 0 {
        match path_file_name(path) {
            Some(f) => f,
            None => fallback,
        }
    } else {
        match longest_step(parts, path, i, on_disk) {
            Some(end) => if i < end <= parts.len() {
                decode_from(parts, candidate(parts, path, i, end), end, on_disk, fallback)
            } else {
                fallback
            },
            None => join_dash(parts.subrange(i, parts.len() as int)),
        }
    }
}

/// A project directory's name decoded to the project's name, given which paths exist:
/// the name without a leading `-`, cut at each `-`, is walked down from `/`.
pub open spec fn decoded(sanitized: Seq<char>, on_disk: spec_fn(Seq<char>) -> bool) -> Seq<char> {
    let name = if sanitized.len() > 0 && sanitized[0] == '-' { sanitized.skip(1) } else { sanitized };
    decode_from(split_on(name, '-'), "/"@, 0, on_disk, sanitized)
}

/// The name without its leading `-`, cut at each `-`.
pub open spec fn name_parts(sanitized: Seq<char>) -> Seq<Seq<char>> {
    let name = if sanitized.len() > 0 && sanitized[0] == '-' { sanitized.skip(1) } else { sanitized };
    split_on(name, '-')
}

/// What a decoded name is, whatever the disk says: the pieces from some index on, joined
/// with `-`; the file name of a path; or, where the walk ends at a path without one, the
/// sanitized name as it was given.
pub open spec fn decode_outcome(sanitized: Seq<char>, r: Seq<char>) -> bool {
    let parts = name_parts(sanitized);
    ||| exists|i: int| 0 <= i < parts.len() && r == #[trigger] join_dash(parts.subrange(i, parts.len() as int))
    ||| exists|q: Seq<char>| #[trigger] path_file_name(q) == Some(r)
    ||| r == sanitized
}

/// `on_disk` says of every path what `path_exists` answers for it.
pub open spec fn answers_as<F: Fn(&str) -> bool>(path_exists: F, on_disk: spec_fn(Seq<char>) -> bool) -> bool {
    forall|p: &str, b: bool| #[trigger] path_exists.ensures((p,), b) ==> b == on_disk(p@)
}

proof fn lemma_longest_found(
    parts: Seq<Seq<char>>,
    path: Seq<char>,
    i: int,
    on_disk: spec_fn(Seq<char>) -> bool,
    end: int,
)
    requires
        is_longest_step(parts, path, i, on_disk, end),
    ensures
        longest_step(parts, path, i, on_disk) == Some(end),
{
    let e = choose|e: int| is_longest_step(parts, path, i, on_disk, e);
    if e < end {
        assert(!on_disk(candidate(parts, path, i, end)));
    } else if end < e {
        assert(!on_disk(candidate(parts, path, i, e)));
    }
}

/// The pieces `i..end` joined with `-`.
fn join_pieces(parts: &Vec<String>, i: usize, end: usize) -> (r: String)
    requires
        i < end <= parts@.len(),
    ensures
        r@ == join_dash(parts@.map_values(|p: String| p@).subrange(i as int, end as int)),
{
    let ghost ps = parts@.map_values(|p: String| p@);
    let mut r = parts[i].clone();
    let mut k: usize = i + 1;
    assert(ps.subrange(i as int, i + 1) =~= seq![ps[i as int]]);
    while k < end
        invariant
            ps == parts@.map_values(|p: String| p@),
            i < k <= end <= parts@.len(),
            r@ == join_dash(ps.subrange(i as int, k as int)),
        decreases end - k,
    {
        assert(ps.subrange(i as int, k + 1).drop_last() =~= ps.subrange(i as int, k as int));
        r = r.concat("-").concat(parts[k].as_str());
        k = k + 1;
    }
    r
}

/// Decodes a project directory's name back to the project's name: `path_exists` tells
/// which paths exist, so that a `-` inside a directory's name is told from one that
/// stands for a `/`.
pub fn decode_project_name<F: Fn(&str) -> bool>(sanitized: &str, path_exists: F) -> (r: String)
    requires
        forall|p: &str| #[trigger] path_exists.requires((p,)),
    ensures
        forall|on_disk: spec_fn(Seq<char>) -> bool| #[trigger] answers_as(path_exists, on_disk) ==> r@ == decoded(sanitized@, on_disk),
        decode_outcome(sanitized@, r@),
{
    proof {
        reveal_strlit("-");
        reveal_strlit("/");
    }
    let n = sanitized.unicode_len();
    let name: &str = if n > 0 && sanitized.get_char(0) == '-' {
        sanitized.substring_char(1, n)
    } else {
        sanitized
    };
    assert(name@ =~= (if sanitized@.len() > 0 && sanitized@[0] == '-' { sanitized@.skip(1) } else { sanitized@ }));
    let parts = split_chars(name, '-');
    let ghost ps = parts@.map_values(|p: String| p@);
    let ghost fb = sanitized@;
    let mut path = String::from_str("/");
    let mut i: usize = 0;
    while i < parts.len()
        invariant
            ps == parts@.map_values(|p: String| p@),
            ps == split_on(name@, '-'),
            fb == sanitized@,
            name@ == (if sanitized@.len() > 0 && sanitized@[0] == '-' { sanitized@.skip(1) } else { sanitized@ }),
            i <= parts@.len(),
            forall|p: &str| #[trigger] path_exists.requires((p,)),
            forall|o: spec_fn(Seq<char>) -> bool| #[trigger] answers_as(path_exists, o) ==> decode_from(ps, path@, i as int, o, fb)
                == decoded(sanitized@, o),
        decreases parts@.len() - i,
    {
        let top = if parts.len() - i > 6 { i + 6 } else { parts.len() };
        let mut end = top;
        let mut found = false;
        while end > i && !found
            invariant
                ps == parts@.map_values(|p: String| p@),
                i < parts@.len(),
                top == max_end(parts@.len() as int, i as int),
                i <= end <= top,
                forall|p: &str| #[trigger] path_exists.requires((p,)),
                found ==> end > i && forall|o: spec_fn(Seq<char>) -> bool| #[trigger] answers_as(path_exists, o)
                    ==> o(candidate(ps, path@, i as int, end as int)),
                !found ==> forall|o: spec_fn(Seq<char>) -> bool| #[trigger] answers_as(path_exists, o)
                    ==> forall|e: int| end < e <= top ==> !o(#[trigger] candidate(ps, path@, i as int, e)),
                found ==> forall|o: spec_fn(Seq<char>) -> bool| #[trigger] answers_as(path_exists, o)
                    ==> forall|e: int| end < e <= top ==> !o(#[trigger] candidate(ps, path@, i as int, e)),
            decreases end - i + (if found { 0int } else { 1int }),
        {
            let seg = join_pieces(&parts, i, end);
            let cand = join_path(path.as_str(), seg.as_str());
            let here = path_exists(cand.as_str());
            if here {
                found = true;
            } else {
                end = end - 1;
            }
        }
        if !found {
            let rest = join_pieces(&parts, i, parts.len());
            proof {
                assert forall|o: spec_fn(Seq<char>) -> bool| #[trigger] answers_as(path_exists, o) implies rest@
                    == decoded(sanitized@, o) by {
                    assert forall|e: int| !is_longest_step(ps, path@, i as int, o, e) by {
                        if i < e <= top {
                            assert(!o(candidate(ps, path@, i as int, e)));
                        }
                    }
                }
            }
            assert(ps == name_parts(sanitized@));
            assert(decode_outcome(sanitized@, rest@));
            return rest;
        }
        let ghost old_path = path@;
        let next = join_path(path.as_str(), join_pieces(&parts, i, end).as_str());
        proof {
            assert forall|o: spec_fn(Seq<char>) -> bool| #[trigger] answers_as(path_exists, o) implies decode_from(
                ps,
                next@,
                end as int,
                o,
                fb,
            ) == decoded(sanitized@, o) by {
                lemma_longest_found(ps, old_path, i as int, o, end as int);
                assert(next@ == candidate(ps, old_path, i as int, end as int));
            }
        }
        path = next;
        i = end;
    }
    match crate::transcript::file_name(path.as_str()) {
        Some(f) => {
            assert(path_file_name(path@) == Some(f@));
            f
        },
        None => String::from_str(sanitized),
    }
}

proof fn lemma_nonblank_concat(a: Seq<Seq<char>>, b: Seq<Seq<char>>)
    ensures
        nonblank_lines(a + b) == nonblank_lines(a) + nonblank_lines(b),
    decreases b.len(),
{
    if b.len() == 0 {
        assert(a + b =~= a);
        assert(nonblank_lines(a) + nonblank_lines(b) =~= nonblank_lines(a));
    } else {
        lemma_nonblank_concat(a, b.drop_last());
        assert((a + b).drop_last() =~= a + b.drop_last());
        assert((a + b).last() == b.last());
        let t = str_trimmed(b.last());
        if t.len() > 0 {
            assert(nonblank_lines(a) + nonblank_lines(b.drop_last()).push(t) =~= (nonblank_lines(a)
                + nonblank_lines(b.drop_last())).push(t));
        }
    }
}

/// Reading a transcript in two chunks gives the lines that reading both at once gives, and
/// leaves the same unfinished line: a line cut between two reads is put back together.
pub proof fn law_chunks_join(buffer: Seq<char>, a: Seq<char>, c: Seq<char>)
    ensures
        ({
            let first = split_on(buffer + a, '\n');
            let second = split_on(first.last() + c, '\n');
            let once = split_on(buffer + a + c, '\n');
            &&& second.last() == once.last()
            &&& nonblank_lines(first.drop_last()) + nonblank_lines(second.drop_last()) == nonblank_lines(
                once.drop_last(),
            )
        }),
{
    let first = split_on(buffer + a, '\n');
    let q = split_on(c, '\n');
    lemma_split_nonempty(buffer + a, '\n');
    lemma_split_nonempty(c, '\n');
    lemma_split_pieces(buffer + a, '\n');
    let l = first.last();
    assert forall|k: int| 0 <= k < l.len() implies #[trigger] l[k] != '\n' by {
        assert(first[first.len() - 1][k] != '\n');
    }
    lemma_split_single(l, '\n');
    lemma_split_concat(l, c, '\n');
    let second = split_on(l + c, '\n');
    assert(second =~= seq![l + q[0]] + q.drop_first());
    lemma_split_concat(buffer + a, c, '\n');
    assert(buffer + a + c =~= (buffer + a) + c);
    let once = split_on(buffer + a + c, '\n');
    assert(once =~= first.drop_last() + second);
    assert(once.drop_last() =~= first.drop_last() + second.drop_last());
    lemma_nonblank_concat(first.drop_last(), second.drop_last());
}

// ── What every scan keeps ───────────────────────────────────────

/// `s2` extends `s1`: no known path is forgotten, no agent is dropped, the next id only
/// grows, and every new agent's id lies between the two next ids.
pub open spec fn extends(s1: ScanView, s2: ScanView) -> bool {
    &&& s1.known.subset_of(s2.known)
    &&& forall|k: u32| s1.agents.contains_key(k) ==> #[trigger] s2.agents.contains_key(k)
    &&& s1.next_id <= s2.next_id
    &&& forall|k: u32| #[trigger] s2.agents.contains_key(k) && !s1.agents.contains_key(k) ==> s1.next_id <= k < s2.next_id
}

proof fn lemma_extends_trans(s1: ScanView, s2: ScanView, s3: ScanView)
    requires
        extends(s1, s2),
        extends(s2, s3),
    ensures
        extends(s1, s3),
{
    assert forall|k: u32| #[trigger] s3.agents.contains_key(k) && !s1.agents.contains_key(k) implies s1.next_id <= k < s3.next_id by {
        if s2.agents.contains_key(k) {
        } else {
        }
    }
}

proof fn lemma_with_agent(s: ScanView, a: AgentView)
    requires
        0 <= s.next_id < u32::MAX,
    ensures
        extends(s, with_agent(s, a)),
        with_agent(s, a).next_id == s.next_id + 1,
{
}

proof fn lemma_member_step(s: ScanView, t: TeamConfig, pd: ProjectDir, lid: u32, pf: Option<Seq<char>>, m: TeamMember)
    requires
        0 <= s.next_id < u32::MAX,
    ensures
        extends(s, member_step(s, t, pd, lid, pf, m)),
        member_step(s, t, pd, lid, pf, m).next_id <= s.next_id + 1,
{
    let best = member_transcript(session_subagents(pd, t.lead_session_id@), m.name@);
    if !m.is_lead {
        match least_answer(s.agents, AgentQuery::Member(t.name@, m.name@)) {
            Some(eid) => {
                if least_answer(s.agents, AgentQuery::Member(t.name@, m.name@)) == Some(eid) {
                    let k = choose|k: u32| is_least_answer(s.agents, AgentQuery::Member(t.name@, m.name@), k);
                    assert(s.agents.contains_key(eid));
                }
            },
            None => {
                let s1 = match best {
                    Some(bp) => ScanView { known: s.known.insert(bp), claimed: s.claimed.insert(bp), ..s },
                    None => s,
                };
                lemma_with_agent(
                    s1,
                    fresh_agent(
                        s.next_id as u32,
                        pd.path@,
                        match best {
                            Some(bp) => bp,
                            None => placeholder(pd.path@, m.name@),
                        },
                        pf,
                        Some(lid),
                        Some(t.name@),
                        Some(m.name@),
                        opt_chars(m.color),
                        false,
                    ),
                );
            },
        }
    }
}

proof fn lemma_members_step(
    s: ScanView,
    t: TeamConfig,
    pd: ProjectDir,
    lid: u32,
    pf: Option<Seq<char>>,
    ms: Seq<TeamMember>,
)
    requires
        0 <= s.next_id,
        s.next_id + ms.len() <= u32::MAX,
    ensures
        extends(s, members_step(s, t, pd, lid, pf, ms)),
        members_step(s, t, pd, lid, pf, ms).next_id <= s.next_id + ms.len(),
    decreases ms.len(),
{
    if ms.len() > 0 {
        lemma_members_step(s, t, pd, lid, pf, ms.drop_last());
        let s1 = members_step(s, t, pd, lid, pf, ms.drop_last());
        lemma_member_step(s1, t, pd, lid, pf, ms.last());
        lemma_extends_trans(s, s1, member_step(s1, t, pd, lid, pf, ms.last()));
    }
}

proof fn lemma_team_step(s: ScanView, input: ScanInput, t: TeamConfig)
    requires
        0 <= s.next_id,
        s.next_id + team_bound(t) <= u32::MAX,
    ensures
        extends(s, team_step(s, input, t)),
        team_step(s, input, t).next_id <= s.next_id + team_bound(t),
{
    match team_project(input, t) {
        None => {},
        Some(pd) => match entry_named(pd, t.lead_session_id@ + ".jsonl"@) {
            None => {},
            Some(e) => {
                let f = pd.entries@[e].file;
                let lead = f.path@;
                if !recent(f.modified, input.now) && !team_recent(t.created_at, input.now) {
                } else {
                    let s1 = ScanView { claimed: s.claimed.insert(lead), ..s };
                    match known_reader(s1, lead) {
                        Some(lid) => {
                            lemma_members_step(s1, t, pd, lid, s1.agents[lid].folder_name, t.members@);
                        },
                        None => {
                        let s1k = ScanView { known: s1.known.insert(lead), ..s1 };
                        let a = fresh_agent(
                            s1.next_id as u32,
                            pd.path@,
                            lead,
                            Some(pd.folder_name@),
                            None,
                            Some(t.name@),
                            Some(Seq::empty()),
                            lead_color(t.members@),
                            true,
                        );
                        lemma_with_agent(s1k, a);
                        let s2 = with_agent(s1k, a);
                        lemma_members_step(s2, t, pd, s1.next_id as u32, Some(pd.folder_name@), t.members@);
                        lemma_extends_trans(s, s2, members_step(s2, t, pd, s1.next_id as u32, Some(pd.folder_name@), t.members@));
                        },
                    }
                }
            },
        },
    }
}

proof fn lemma_teams_step(s: ScanView, input: ScanInput, order: Seq<int>)
    requires
        0 <= s.next_id,
        s.next_id + teams_bound(input.teams@, order) <= u32::MAX,
    ensures
        extends(s, teams_step(s, input, order)),
        teams_step(s, input, order).next_id <= s.next_id + teams_bound(input.teams@, order),
    decreases order.len(),
{
    if order.len() > 0 {
        lemma_teams_step(s, input, order.drop_last());
        let s1 = teams_step(s, input, order.drop_last());
        lemma_team_step(s1, input, input.teams@[order.last()]);
        lemma_extends_trans(s, s1, team_step(s1, input, input.teams@[order.last()]));
    }
}

proof fn lemma_subagents_step(
    s: ScanView,
    pd: ProjectDir,
    now: u128,
    pid: u32,
    pf: Option<Seq<char>>,
    list: Seq<SubagentEntry>,
)
    requires
        0 <= s.next_id,
        s.next_id + list.len() <= u32::MAX,
    ensures
        extends(s, subagents_step(s, pd, now, pid, pf, list)),
        subagents_step(s, pd, now, pid, pf, list).next_id <= s.next_id + list.len(),
    decreases list.len(),
{
    if list.len() > 0 {
        lemma_subagents_step(s, pd, now, pid, pf, list.drop_last());
        let s1 = subagents_step(s, pd, now, pid, pf, list.drop_last());
        let x = list.last();
        let p = x.file.path@;
        if !(!is_transcript_name(x.file.name@) || s1.known.contains(p) || s1.claimed.contains(p) || !recent(x.file.modified, now)) {
            let s1k = ScanView { known: s1.known.insert(p), ..s1 };
            lemma_with_agent(s1k, fresh_agent(s1.next_id as u32, pd.path@, p, pf, Some(pid), None, None, None, false));
        }
        lemma_extends_trans(s, s1, subagent_step(s1, pd, now, pid, pf, x));
    }
}

proof fn lemma_sessions_step(
    s: ScanView,
    pd: ProjectDir,
    now: u128,
    pid: u32,
    pf: Option<Seq<char>>,
    entries: Seq<ProjectEntry>,
)
    requires
        0 <= s.next_id,
        s.next_id + sessions_bound(entries) <= u32::MAX,
    ensures
        extends(s, sessions_step(s, pd, now, pid, pf, entries)),
        sessions_step(s, pd, now, pid, pf, entries).next_id <= s.next_id + sessions_bound(entries),
    decreases entries.len(),
{
    if entries.len() > 0 {
        lemma_sessions_step(s, pd, now, pid, pf, entries.drop_last());
        let s1 = sessions_step(s, pd, now, pid, pf, entries.drop_last());
        if entries.last().is_dir {
            lemma_subagents_step(s1, pd, now, pid, pf, entries.last().subagents@);
            lemma_extends_trans(s, s1, subagents_step(s1, pd, now, pid, pf, entries.last().subagents@));
        }
    }
}

proof fn lemma_project_step(s: ScanView, now: u128, pd: ProjectDir)
    requires
        0 <= s.next_id,
        s.next_id + 1 + sessions_bound(pd.entries@) <= u32::MAX,
    ensures
        extends(s, project_step(s, now, pd)),
        project_step(s, now, pd).next_id <= s.next_id + 1 + sessions_bound(pd.entries@),
{
    match newest_unclaimed(pd, s.claimed) {
        None => {},
        Some(e) => {
            let f = pd.entries@[e].file;
            let p = f.path@;
            match known_reader(s, p) {
                Some(pid) => {
                    lemma_sessions_step(s, pd, now, pid, s.agents[pid].folder_name, pd.entries@);
                },
                None => {
                    let s1 = ScanView { known: s.known.insert(p), ..s };
                    if recent(f.modified, now) {
                        let a = fresh_agent(s1.next_id as u32, pd.path@, p, Some(pd.folder_name@), None, None, None, None, false);
                        lemma_with_agent(s1, a);
                        let s2 = with_agent(s1, a);
                        lemma_sessions_step(s2, pd, now, s1.next_id as u32, Some(pd.folder_name@), pd.entries@);
                        lemma_extends_trans(s1, s2, sessions_step(s2, pd, now, s1.next_id as u32, Some(pd.folder_name@), pd.entries@));
                    }
                },
            }
        },
    }
}

proof fn lemma_projects_step(s: ScanView, now: u128, pds: Seq<ProjectDir>)
    requires
        0 <= s.next_id,
        s.next_id + projects_bound(pds) <= u32::MAX,
    ensures
        extends(s, projects_step(s, now, pds)),
        projects_step(s, now, pds).next_id <= s.next_id + projects_bound(pds),
    decreases pds.len(),
{
    if pds.len() > 0 {
        lemma_projects_step(s, now, pds.drop_last());
        let s1 = projects_step(s, now, pds.drop_last());
        lemma_project_step(s1, now, pds.last());
        lemma_extends_trans(s, s1, project_step(s1, now, pds.last()));
    }
}

/// A scan forgets no known transcript and drops no agent; the next id only grows, and
/// every agent it adds has an id from the old next id up to the new one.
pub proof fn law_scan_extends(input: ScanInput, known: Set<Seq<char>>, agents: Map<u32, AgentView>, next_id: u32)
    requires
        next_id + scan_bound(input) <= u32::MAX,
    ensures
        ({
            let s0 = ScanView { known, agents, next_id: next_id as int, events: Seq::empty(), claimed: Set::empty() };
            extends(s0, scan_effect(input, known, agents, next_id as int))
        }),
{
    let s0 = ScanView { known, agents, next_id: next_id as int, events: Seq::empty(), claimed: Set::empty() };
    let order = selected_teams(input.teams@);
    lemma_teams_step(s0, input, order);
    let s1 = teams_step(s0, input, order);
    lemma_projects_step(s1, input.now, input.projects@);
    lemma_extends_trans(s0, s1, projects_step(s1, input.now, input.projects@));
}

// ── Desks and departures ────────────────────────────────────────

/// An agent that gets a desk of its own: a top-level agent or a named team member.
pub open spec fn wants_desk(a: AgentView) -> bool {
    !a.is_subagent || a.member_name is Some
}

/// The agents that get desks of their own, each once.
pub fn agents_with_desks(agents: &HashMap<u32, AgentState>) -> (ids: Vec<u32>)
    ensures
        ids@.no_duplicates(),
        forall|k: u32| ids@.contains(k) <==> (agents@.contains_key(k) && wants_desk(agents_view(agents@)[k])),
{
    let ghost av = agents_view(agents@);
    let keys = agent_ids(agents);
    let mut ids: Vec<u32> = Vec::new();
    let mut i: usize = 0;
    while i < keys.len()
        invariant
            av == agents_view(agents@),
            keys@.no_duplicates(),
            forall|k: u32| keys@.contains(k) <==> agents@.contains_key(k),
            i <= keys@.len(),
            ids@.no_duplicates(),
            forall|k: u32| ids@.contains(k) <==> (keys@.take(i as int).contains(k) && wants_desk(av[k])),
        decreases keys@.len() - i,
    {
        let k = keys[i];
        assert(keys@.contains(k));
        let ghost t0 = keys@.take(i as int);
        let ghost t1 = keys@.take(i + 1);
        assert forall|q: u32| t1.contains(q) <==> (t0.contains(q) || q == k) by {
            if t1.contains(q) {
                let x = choose|x: int| 0 <= x < t1.len() && #[trigger] t1[x] == q;
                if x < i {
                    assert(t0[x] == q);
                }
            }
            if t0.contains(q) {
                let x = choose|x: int| 0 <= x < t0.len() && #[trigger] t0[x] == q;
                assert(t1[x] == q);
            }
            if q == k {
                assert(t1[i as int] == k);
            }
        }
        assert(!t0.contains(k)) by {
            if t0.contains(k) {
                let j = choose|j: int| 0 <= j < t0.len() && #[trigger] t0[j] == k;
                assert(keys@[j] == keys@[i as int]);
            }
        }
        let a = agents.get(&k).unwrap();
        assert(av[k] == a@);
        if !a.is_subagent || a.member_name.is_some() {
            let ghost before = ids@;
            ids.push(k);
            proof {
                assert forall|x: int, y: int| 0 <= x < ids@.len() && 0 <= y < ids@.len() && x != y implies ids@[x] != ids@[y] by {
                    if x < before.len() && y < before.len() {
                        assert(ids@[x] == before[x] && ids@[y] == before[y]);
                    } else if x < before.len() {
                        assert(before.contains(before[x]));
                    } else {
                        assert(before.contains(before[y]));
                    }
                }
                assert forall|q: u32| ids@.contains(q) <==> (t1.contains(q) && wants_desk(av[q])) by {
                    if ids@.contains(q) {
                        let x = choose|x: int| 0 <= x < ids@.len() && ids@[x] == q;
                        if x < before.len() {
                            assert(before[x] == q);
                            assert(before.contains(q));
                        }
                    }
                    if before.contains(q) {
                        let x = choose|x: int| 0 <= x < before.len() && before[x] == q;
                        assert(ids@[x] == q);
                    }
                    assert(ids@[before.len() as int] == k);
                }
            }
        }
        i = i + 1;
    }
    assert(keys@.take(keys@.len() as int) =~= keys@);
    ids
}

/// An agent leaves when its transcript is gone or has not changed for
/// `STALE_AGENT_REMOVE_SECS` seconds.
pub fn agent_expired(transcript_exists: bool, age_secs: Option<u64>) -> (r: bool)
    ensures
        r == (!transcript_exists || (age_secs matches Some(a) && a >= STALE_AGENT_REMOVE_SECS)),
{
    !transcript_exists || match age_secs {
        Some(a) => a >= STALE_AGENT_REMOVE_SECS,
        None => false,
    }
}

} // verus!
