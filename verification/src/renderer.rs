use std::collections::{HashMap, HashSet};

use vstd::prelude::*;
use vstd::string::*;
use vstd::std_specs::hash::{group_hash_axioms, spec_keys_iter};
use vstd::std_specs::iter::IteratorSpec;

use crate::text::{chars_le, chars_less, chars_of, lemma_chars_le_trans, lemma_chars_lt_asym, lowercase, str_lowercase};
use crate::scene::{Character, Scene};
use crate::types::{AgentState, AgentStatus, AgentView, status_line};
use crate::watcher::agents_view;

verus! {

broadcast use group_hash_axioms;

/// The keys of a map keyed by agent id, each once.
pub fn agent_ids<V>(agents: &HashMap<u32, V>) -> (ks: Vec<u32>)
    ensures
        ks@.no_duplicates(),
        forall|k: u32| ks@.contains(k) <==> agents@.contains_key(k),
{
    let ghost keys = spec_keys_iter(agents).remaining();
    let mut ks: Vec<u32> = Vec::new();
    for k in it: agents.keys()
        invariant
            it.seq() == keys,
            keys.unref().to_set() == agents@.dom(),
            keys.no_duplicates(),
            keys.len() == agents@.dom().len(),
            ks@ == keys.take(it.index()).map_values(|r: &u32| *r),
    {
        ks.push(*k);
        assert(ks@ =~= keys.take(it.index() + 1).map_values(|r: &u32| *r));
    }
    assert(keys.take(keys.len() as int) =~= keys);
    assert forall|k: u32| ks@.contains(k) <==> agents@.contains_key(k) by {
        if agents@.contains_key(k) {
            assert(keys.unref().to_set().contains(k));
            let i = choose|i: int| 0 <= i < keys.len() && keys.unref()[i] == k;
            assert(ks@[i] == k);
        }
        if ks@.contains(k) {
            let i = choose|i: int| 0 <= i < ks@.len() && ks@[i] == k;
            assert(keys.unref()[i] == k);
            assert(keys.unref().to_set().contains(k));
        }
    }
    assert forall|i: int, j: int| 0 <= i < ks@.len() && 0 <= j < ks@.len() && i != j implies ks@[i] != ks@[j] by {
        assert(keys[i] != keys[j]);
    }
    ks
}


/// The name a top-level agent is listed by: its folder name in lower case ("" lowered
/// when it has none).
pub open spec fn list_key(a: AgentState) -> Seq<char> {
    str_lowercase(
        match a.folder_name {
            Some(f) => f@,
            None => ""@,
        },
    )
}

/// Whether `k` is a top-level agent of `m`.
pub open spec fn is_top_level(m: Map<u32, AgentState>, k: u32) -> bool {
    m.contains_key(k) && !m[k].is_subagent
}

/// `parents` lists every top-level agent once, by name.
pub open spec fn is_parent_order(m: Map<u32, AgentState>, parents: Seq<u32>) -> bool {
    &&& parents.no_duplicates()
    &&& forall|k: u32| parents.contains(k) <==> is_top_level(m, k)
    &&& forall|i: int, j: int|
        0 <= i < j < parents.len() ==> chars_le(
            list_key(m[#[trigger] parents[i]]),
            list_key(m[#[trigger] parents[j]]),
        )
}

/// `s` lists the agents whose parent is `pid`, by increasing id.
pub open spec fn is_children_list(m: Map<u32, AgentState>, pid: u32, s: Seq<u32>) -> bool {
    &&& forall|i: int, j: int| 0 <= i < j < s.len() ==> #[trigger] s[i] < #[trigger] s[j]
    &&& forall|k: u32| s.contains(k) <==> (m.contains_key(k) && m[k].parent_id == Some(pid))
}

/// Each parent followed by its block of children.
pub open spec fn listed(parents: Seq<u32>, blocks: Seq<Seq<u32>>) -> Seq<u32>
    decreases parents.len(),
{
    if parents.len() == 0 {
        Seq::empty()
    } else {
        listed(parents.drop_last(), blocks.drop_last()) + seq![parents.last()] + blocks.last()
    }
}

/// `blocks[i]` are the children shown under `parents[i]`: none under a collapsed parent.
pub open spec fn are_child_blocks(
    m: Map<u32, AgentState>,
    collapsed: Set<u32>,
    parents: Seq<u32>,
    blocks: Seq<Seq<u32>>,
) -> bool {
    &&& blocks.len() == parents.len()
    &&& forall|i: int|
        0 <= i < parents.len() ==> if collapsed.contains(#[trigger] parents[i]) {
            blocks[i].len() == 0
        } else {
            is_children_list(m, parents[i], blocks[i])
        }
}

/// The ids of the agents whose parent is `pid`, in increasing order.
fn children_of(agents: &HashMap<u32, AgentState>, ids: &Vec<u32>, pid: u32) -> (cs: Vec<u32>)
    requires
        ids@.no_duplicates(),
        forall|k: u32| ids@.contains(k) <==> agents@.contains_key(k),
    ensures
        is_children_list(agents@, pid, cs@),
{
    let mut cs: Vec<u32> = Vec::new();
    let mut i: usize = 0;
    while i < ids.len()
        invariant
            i <= ids@.len(),
            ids@.no_duplicates(),
            forall|k: u32| ids@.contains(k) <==> agents@.contains_key(k),
            forall|a: int, b: int| 0 <= a < b < cs@.len() ==> #[trigger] cs@[a] < #[trigger] cs@[b],
            forall|k: u32|
                cs@.contains(k) <==> (ids@.take(i as int).contains(k) && agents@[k].parent_id
                    == Some(pid)),
        decreases ids@.len() - i,
    {
        let id = ids[i];
        assert(ids@.contains(id));
        let a = agents.get(&id).unwrap();
        assert(ids@.take(i + 1) =~= ids@.take(i as int).push(id));
        assert(!ids@.take(i as int).contains(id)) by {
            if ids@.take(i as int).contains(id) {
                let j = choose|j: int| 0 <= j < i && ids@.take(i as int)[j] == id;
                assert(ids@[j] == ids@[i as int]);
            }
        }
        if a.parent_id == Some(pid) {
            let mut pos: usize = 0;
            while pos < cs.len() && cs[pos] < id
                invariant
                    pos <= cs@.len(),
                    forall|j: int| 0 <= j < pos ==> cs@[j] < id,
                decreases cs@.len() - pos,
            {
                pos = pos + 1;
            }
            let ghost before = cs@;
            assert(!before.contains(id));
            cs.insert(pos, id);
            assert forall|a: int, b: int| 0 <= a < b < cs@.len() implies #[trigger] cs@[a] < #[trigger] cs@[b] by {
                if b < pos {
                } else if b == pos {
                    assert(cs@[a] == before[a]);
                } else if a < pos {
                    assert(cs@[b] == before[b - 1]);
                    assert(before[b - 1] >= before[pos as int] || b - 1 == pos);
                    if pos < before.len() {
                        assert(before[pos as int] >= id);
                        if b - 1 > pos {
                            assert(before[pos as int] < before[b - 1]);
                        }
                        assert(before[pos as int] != id);
                    }
                } else if a == pos {
                    assert(cs@[b] == before[b - 1]);
                    assert(before[pos as int] >= id);
                    assert(before[pos as int] != id);
                    if b - 1 > pos {
                        assert(before[pos as int] < before[b - 1]);
                    }
                } else {
                    assert(cs@[a] == before[a - 1]);
                    assert(cs@[b] == before[b - 1]);
                }
            }
            assert forall|k: u32| cs@.contains(k) <==> (ids@.take(i + 1).contains(k) && agents@[k].parent_id == Some(pid)) by {
                if ids@.take(i + 1).contains(k) && k != id {
                    let t1 = ids@.take(i + 1);
                    let j = choose|j: int| 0 <= j < t1.len() && t1[j] == k;
                    assert(ids@.take(i as int)[j] == k);
                }
                if ids@.take(i as int).contains(k) {
                    let j = choose|j: int| 0 <= j < i && ids@.take(i as int)[j] == k;
                    assert(ids@.take(i + 1)[j] == k);
                }
                if cs@.contains(k) {
                    let j = choose|j: int| 0 <= j < cs@.len() && cs@[j] == k;
                    if j < pos {
                        assert(before[j] == k);
                    } else if j > pos {
                        assert(before[j - 1] == k);
                    }
                }
                if k == id {
                    assert(cs@[pos as int] == id);
                    assert(ids@.take(i + 1)[i as int] == id);
                } else if before.contains(k) {
                    let j = choose|j: int| 0 <= j < before.len() && before[j] == k;
                    if j < pos {
                        assert(cs@[j] == k);
                    } else {
                        assert(cs@[j + 1] == k);
                    }
                }
            }
        }
        i = i + 1;
    }
    assert(ids@.take(ids@.len() as int) =~= ids@);
    cs
}

/// Build the ordered activity list, respecting collapsed state.
/// Parents sorted by folder name, then their children (unless collapsed).
pub fn build_activity_list(agents: &HashMap<u32, AgentState>, collapsed: &HashSet<u32>) -> (ordered: Vec<u32>)
    ensures
        exists|parents: Seq<u32>, blocks: Seq<Seq<u32>>|
            {
                &&& is_parent_order(agents@, parents)
                &&& are_child_blocks(agents@, collapsed@, parents, blocks)
                &&& ordered@ == listed(parents, blocks)
            },
{
    let ids = agent_ids(agents);

    // Top-level agents, kept sorted by name (stably, in the order the map gives them).
    let mut parent_ids: Vec<u32> = Vec::new();
    let mut keys: Vec<Vec<char>> = Vec::new();
    let mut i: usize = 0;
    while i < ids.len()
        invariant
            i <= ids@.len(),
            ids@.no_duplicates(),
            forall|k: u32| ids@.contains(k) <==> agents@.contains_key(k),
            keys@.len() == parent_ids@.len(),
            parent_ids@.no_duplicates(),
            forall|k: u32|
                parent_ids@.contains(k) <==> (ids@.take(i as int).contains(k) && is_top_level(agents@, k)),
            forall|j: int| 0 <= j < parent_ids@.len() ==> #[trigger] keys@[j]@ == list_key(agents@[parent_ids@[j]]),
            forall|a: int, b: int| 0 <= a < b < keys@.len() ==> chars_le(#[trigger] keys@[a]@, #[trigger] keys@[b]@),
        decreases ids@.len() - i,
    {
        let id = ids[i];
        assert(ids@.contains(id));
        let a = agents.get(&id).unwrap();
        assert(ids@.take(i + 1) =~= ids@.take(i as int).push(id));
        assert(!ids@.take(i as int).contains(id)) by {
            if ids@.take(i as int).contains(id) {
                let j = choose|j: int| 0 <= j < i && ids@.take(i as int)[j] == id;
                assert(ids@[j] == ids@[i as int]);
            }
        }
        if !a.is_subagent {
            proof {
                reveal_strlit("");
            }
            let name: &str = match &a.folder_name {
                Some(f) => f.as_str(),
                None => "",
            };
            let key = chars_of(lowercase(name).as_str());
            let mut pos: usize = 0;
            while pos < keys.len() && !chars_less(&key, &keys[pos])
                invariant
                    pos <= keys@.len(),
                    forall|j: int| 0 <= j < pos ==> chars_le(#[trigger] keys@[j]@, key@),
                decreases keys@.len() - pos,
            {
                pos = pos + 1;
            }
            let ghost kb = keys@;
            let ghost pb = parent_ids@;
            assert(!pb.contains(id));
            keys.insert(pos, key);
            parent_ids.insert(pos, id);
            proof {
                assert forall|x: int, y: int| 0 <= x < y < keys@.len() implies chars_le(#[trigger] keys@[x]@, #[trigger] keys@[y]@) by {
                    if y < pos {
                    } else if y == pos {
                        assert(keys@[x] == kb[x]);
                    } else if x < pos {
                        assert(keys@[x] == kb[x]);
                        assert(keys@[y] == kb[y - 1]);
                        // kb[x] <= key < kb[pos] <= kb[y-1]
                        lemma_chars_lt_asym(key@, kb[pos as int]@);
                        lemma_chars_le_trans(kb[x]@, key@, kb[pos as int]@);
                        if y - 1 > pos {
                            lemma_chars_le_trans(kb[x]@, kb[pos as int]@, kb[y - 1]@);
                        }
                    } else if x == pos {
                        assert(keys@[y] == kb[y - 1]);
                        lemma_chars_lt_asym(key@, kb[pos as int]@);
                        if y - 1 > pos {
                            lemma_chars_le_trans(key@, kb[pos as int]@, kb[y - 1]@);
                        }
                    } else {
                        assert(keys@[x] == kb[x - 1]);
                        assert(keys@[y] == kb[y - 1]);
                    }
                }
                assert forall|j: int| 0 <= j < parent_ids@.len() implies #[trigger] keys@[j]@ == list_key(agents@[parent_ids@[j]]) by {
                    if j < pos {
                        assert(keys@[j] == kb[j] && parent_ids@[j] == pb[j]);
                    } else if j > pos {
                        assert(keys@[j] == kb[j - 1] && parent_ids@[j] == pb[j - 1]);
                    }
                }
                assert forall|x: int, y: int| 0 <= x < parent_ids@.len() && 0 <= y < parent_ids@.len() && x != y implies parent_ids@[x] != parent_ids@[y] by {
                    let x0 = if x < pos { x } else if x == pos { -1 } else { x - 1 };
                    let y0 = if y < pos { y } else if y == pos { -1 } else { y - 1 };
                    if x0 >= 0 && y0 >= 0 {
                        assert(pb[x0] != pb[y0]);
                    } else if x0 >= 0 {
                        assert(pb.contains(pb[x0]));
                    } else if y0 >= 0 {
                        assert(pb.contains(pb[y0]));
                    }
                }
                assert forall|k: u32| parent_ids@.contains(k) <==> (ids@.take(i + 1).contains(k) && is_top_level(agents@, k)) by {
                    if ids@.take(i + 1).contains(k) && k != id {
                        let t1 = ids@.take(i + 1);
                        let j = choose|j: int| 0 <= j < t1.len() && t1[j] == k;
                        assert(ids@.take(i as int)[j] == k);
                    }
                    if ids@.take(i as int).contains(k) {
                        let j = choose|j: int| 0 <= j < i && ids@.take(i as int)[j] == k;
                        assert(ids@.take(i + 1)[j] == k);
                    }
                    if parent_ids@.contains(k) {
                        let j = choose|j: int| 0 <= j < parent_ids@.len() && parent_ids@[j] == k;
                        if j < pos {
                            assert(pb[j] == k);
                        } else if j > pos {
                            assert(pb[j - 1] == k);
                        }
                    }
                    if k == id {
                        assert(parent_ids@[pos as int] == id);
                        assert(ids@.take(i + 1)[i as int] == id);
                    } else if pb.contains(k) {
                        let j = choose|j: int| 0 <= j < pb.len() && pb[j] == k;
                        if j < pos {
                            assert(parent_ids@[j] == k);
                        } else {
                            assert(parent_ids@[j + 1] == k);
                        }
                    }
                }
            }
        }
        i = i + 1;
    }
    assert(ids@.take(ids@.len() as int) =~= ids@);

    let mut ordered: Vec<u32> = Vec::new();
    let ghost mut blocks: Seq<Seq<u32>> = Seq::empty();
    let mut p: usize = 0;
    while p < parent_ids.len()
        invariant
            p <= parent_ids@.len(),
            ids@.no_duplicates(),
            forall|k: u32| ids@.contains(k) <==> agents@.contains_key(k),
            blocks.len() == p,
            are_child_blocks(agents@, collapsed@, parent_ids@.take(p as int), blocks),
            ordered@ == listed(parent_ids@.take(p as int), blocks),
        decreases parent_ids@.len() - p,
    {
        let pid = parent_ids[p];
        ordered.push(pid);
        let ghost block: Seq<u32>;
        if collapsed.contains(&pid) {
            proof {
                block = Seq::empty();
            }
        } else {
            let sub_ids = children_of(agents, &ids, pid);
            let mut j: usize = 0;
            let ghost base = ordered@;
            while j < sub_ids.len()
                invariant
                    j <= sub_ids@.len(),
                    ordered@ == base + sub_ids@.take(j as int),
                decreases sub_ids@.len() - j,
            {
                ordered.push(sub_ids[j]);
                j = j + 1;
                assert(ordered@ =~= base + sub_ids@.take(j as int));
            }
            assert(sub_ids@.take(sub_ids@.len() as int) =~= sub_ids@);
            proof {
                block = sub_ids@;
            }
        }
        proof {
            let ps = parent_ids@.take(p + 1);
            let bs = blocks.push(block);
            assert(ps.drop_last() =~= parent_ids@.take(p as int));
            assert(bs.drop_last() =~= blocks);
            assert(ordered@ =~= listed(ps, bs));
            assert forall|x: int| 0 <= x < ps.len() implies if collapsed@.contains(#[trigger] ps[x]) {
                bs[x].len() == 0
            } else {
                is_children_list(agents@, ps[x], bs[x])
            } by {
                if x < p {
                    assert(ps[x] == parent_ids@.take(p as int)[x]);
                }
            }
            blocks = bs;
        }
        p = p + 1;
    }
    assert(parent_ids@.take(parent_ids@.len() as int) =~= parent_ids@);
    proof {
        assert forall|x: int, y: int| 0 <= x < y < parent_ids@.len() implies chars_le(
            list_key(agents@[#[trigger] parent_ids@[x]]),
            list_key(agents@[#[trigger] parent_ids@[y]]),
        ) by {
            assert(keys@[x]@ == list_key(agents@[parent_ids@[x]]));
            assert(keys@[y]@ == list_key(agents@[parent_ids@[y]]));
        }
        assert(is_parent_order(agents@, parent_ids@));
    }
    ordered
}

// ── The rows of the activity panel ──────────────────────────────

/// One row of the activity panel.
#[derive(Debug)]
pub struct ActivityRow {
    pub id: u32,
    /// The row under the cursor.
    pub selected: bool,
    pub is_subagent: bool,
    /// For a top-level agent with subagents: `▸` when folded, `▾` when not; else a space.
    pub fold_mark: char,
    pub status: AgentStatus,
    /// The name shown, cut to the panel's width.
    pub name: String,
    /// A subagent with a member name.
    pub named: bool,
    pub status_text: String,
    /// The palette of the agent's character, if it has one.
    pub palette: Option<u8>,
}

/// A row with its strings as characters.
pub struct RowView {
    pub id: u32,
    pub selected: bool,
    pub is_subagent: bool,
    pub fold_mark: char,
    pub status: AgentStatus,
    pub name: Seq<char>,
    pub named: bool,
    pub status_text: Seq<char>,
    pub palette: Option<u8>,
}

impl View for ActivityRow {
    type V = RowView;

    open spec fn view(&self) -> RowView {
        RowView {
            id: self.id,
            selected: self.selected,
            is_subagent: self.is_subagent,
            fold_mark: self.fold_mark,
            status: self.status,
            name: self.name@,
            named: self.named,
            status_text: self.status_text@,
            palette: self.palette,
        }
    }
}

/// The first `n` characters of `s`.
pub open spec fn cut(s: Seq<char>, n: int) -> Seq<char> {
    if s.len() <= n { s } else { s.take(n) }
}

/// The name an agent is listed by: a subagent's member name (or "subagent") after `└ `;
/// a top-level agent's non-empty member name, else its folder name, else "unknown".
pub open spec fn shown_name(a: AgentView) -> Seq<char> {
    if a.is_subagent {
        "\u{2514} "@ + match a.member_name {
            Some(m) => m,
            None => "subagent"@,
        }
    } else {
        match a.member_name {
            Some(m) if m.len() > 0 => m,
            _ => match a.folder_name {
                Some(f) => f,
                None => "unknown"@,
            },
        }
    }
}

/// Some agent has `id` as its parent.
pub open spec fn has_children(agents: Map<u32, AgentView>, id: u32) -> bool {
    exists|k: u32| #[trigger] agents.contains_key(k) && agents[k].parent_id == Some(id)
}

/// The fold mark of a row.
pub open spec fn fold_mark_of(agents: Map<u32, AgentView>, collapsed: Set<u32>, id: u32) -> char {
    if !agents[id].is_subagent && has_children(agents, id) {
        if collapsed.contains(id) { '\u{25B8}' } else { '\u{25BE}' }
    } else {
        ' '
    }
}

/// The row of agent `id`.
pub open spec fn row_of(
    agents: Map<u32, AgentView>,
    palettes: Map<u32, u8>,
    collapsed: Set<u32>,
    id: u32,
    selected: bool,
    width: u16,
) -> RowView {
    let a = agents[id];
    RowView {
        id,
        selected,
        is_subagent: a.is_subagent,
        fold_mark: fold_mark_of(agents, collapsed, id),
        status: a.status,
        name: cut(shown_name(a), if width >= 16 { width - 16 } else { 0 }),
        named: a.member_name is Some,
        status_text: status_line(a),
        palette: if palettes.contains_key(id) { Some(palettes[id]) } else { None },
    }
}

/// The first entry shown: none are scrolled away when all fit.
pub open spec fn first_shown(len: nat, scroll: u16, height: u16) -> int {
    if (len as u16) <= height { 0 } else { scroll as int }
}

/// The rows shown for the ordered list: from the first shown, at most `height` of them.
pub open spec fn rows_shown(
    agents: Map<u32, AgentView>,
    palettes: Map<u32, u8>,
    collapsed: Set<u32>,
    ordered: Seq<u32>,
    scroll: u16,
    cursor: u16,
    height: u16,
    width: u16,
) -> Seq<RowView> {
    let start = first_shown(ordered.len(), scroll, height);
    let end = if start + height < ordered.len() { start + height } else { ordered.len() as int };
    Seq::new(
        (if start < end { end - start } else { 0 }) as nat,
        |k: int| row_of(agents, palettes, collapsed, ordered[start + k], start + k == cursor, width),
    )
}

fn shown_name_of(a: &AgentState) -> (r: String)
    ensures
        r@ == shown_name(a@),
{
    proof {
        reveal_strlit("\u{2514} ");
        reveal_strlit("subagent");
        reveal_strlit("unknown");
    }
    if a.is_subagent {
        let m: &str = match &a.member_name {
            Some(m) => m.as_str(),
            None => "subagent",
        };
        String::from_str("\u{2514} ").concat(m)
    } else {
        match &a.member_name {
            Some(m) if !m.as_str().is_empty() => m.clone(),
            _ => match &a.folder_name {
                Some(f) => f.clone(),
                None => String::from_str("unknown"),
            },
        }
    }
}

fn has_children_of(agents: &HashMap<u32, AgentState>, ids: &Vec<u32>, id: u32) -> (r: bool)
    requires
        forall|k: u32| ids@.contains(k) <==> agents@.contains_key(k),
    ensures
        r == has_children(agents_view(agents@), id),
{
    let ghost av = agents_view(agents@);
    let mut i: usize = 0;
    while i < ids.len()
        invariant
            av == agents_view(agents@),
            forall|k: u32| ids@.contains(k) <==> agents@.contains_key(k),
            i <= ids@.len(),
            forall|j: int| 0 <= j < i ==> av[#[trigger] ids@[j]].parent_id != Some(id),
        decreases ids@.len() - i,
    {
        let k = ids[i];
        assert(ids@.contains(k));
        let a = agents.get(&k).unwrap();
        assert(av[k] == a@);
        if a.parent_id == Some(id) {
            assert(av.contains_key(k) && av[k].parent_id == Some(id));
            return true;
        }
        i = i + 1;
    }
    assert forall|k: u32| #[trigger] av.contains_key(k) implies av[k].parent_id != Some(id) by {
        assert(ids@.contains(k));
        let j = choose|j: int| 0 <= j < ids@.len() && ids@[j] == k;
        assert(av[ids@[j]].parent_id != Some(id));
    }
    false
}

/// The rows of the activity panel for the ordered list (as `build_activity_list` gives
/// it), scrolled by `scroll`, with the cursor at `cursor`, in a panel of `height` rows
/// and `width` columns.
pub fn activity_rows(
    agents: &HashMap<u32, AgentState>,
    scene: &Scene,
    collapsed: &HashSet<u32>,
    ordered: &Vec<u32>,
    scroll: u16,
    cursor: u16,
    height: u16,
    width: u16,
) -> (rows: Vec<ActivityRow>)
    requires
        forall|i: int| 0 <= i < ordered@.len() ==> agents@.contains_key(#[trigger] ordered@[i]),
    ensures
        rows@.map_values(|r: ActivityRow| r@) == rows_shown(
            agents_view(agents@),
            palettes(scene.characters@),
            collapsed@,
            ordered@,
            scroll,
            cursor,
            height,
            width,
        ),
{
    let ghost av = agents_view(agents@);
    let ghost pal = palettes(scene.characters@);
    let ids = agent_ids(agents);
    let n = ordered.len();
    let total = #[verifier::truncate] (n as u16);
    let start: usize = if total <= height { 0 } else { scroll as usize };
    let end: usize = if start + (height as usize) < n { start + height as usize } else { n };
    let max_name = (width as usize).saturating_sub(16);
    let ghost expected = rows_shown(av, pal, collapsed@, ordered@, scroll, cursor, height, width);
    assert(start == first_shown(ordered@.len(), scroll, height));
    let mut rows: Vec<ActivityRow> = Vec::new();
    if start >= end {
        assert(rows@.map_values(|r: ActivityRow| r@) =~= expected);
        return rows;
    }
    let mut i: usize = start;
    while i < end
        invariant
            av == agents_view(agents@),
            pal == palettes(scene.characters@),
            forall|k: u32| ids@.contains(k) <==> agents@.contains_key(k),
            forall|j: int| 0 <= j < ordered@.len() ==> agents@.contains_key(#[trigger] ordered@[j]),
            expected == rows_shown(av, pal, collapsed@, ordered@, scroll, cursor, height, width),
            start == first_shown(ordered@.len(), scroll, height),
            end == (if start + height < ordered@.len() { start + height } else { ordered@.len() as int }),
            max_name == (if width >= 16 { width - 16 } else { 0 }),
            start <= i <= end,
            rows@.len() == i - start,
            forall|k: int| 0 <= k < rows@.len() ==> (#[trigger] rows@[k])@ == expected[k],
        decreases end - i,
    {
        let id = ordered[i];
        assert(agents@.contains_key(id));
        let a = agents.get(&id).unwrap();
        assert(av[id] == a@);
        let full = shown_name_of(a);
        let len = full.as_str().unicode_len();
        let take = if len <= max_name { len } else { max_name };
        let name = String::from_str(full.as_str().substring_char(0, take));
        let top_with_children = !a.is_subagent && has_children_of(agents, &ids, id);
        let fold_mark = if top_with_children {
            if collapsed.contains(&id) { '\u{25B8}' } else { '\u{25BE}' }
        } else {
            ' '
        };
        let palette = match scene.characters.get(&id) {
            Some(ch) => Some(ch.palette),
            None => None,
        };
        let row = ActivityRow {
            id,
            selected: i == cursor as usize,
            is_subagent: a.is_subagent,
            fold_mark,
            status: a.status,
            name,
            named: a.member_name.is_some(),
            status_text: a.current_status_text(),
            palette,
        };
        proof {
            assert(name@ =~= cut(shown_name(a@), max_name as int));
        }
        assert(row@ == expected[i - start]);
        rows.push(row);
        i = i + 1;
    }
    assert(rows@.map_values(|r: ActivityRow| r@) =~= expected);
    rows
}

/// The palettes of the characters, by id.
pub open spec fn palettes(m: Map<u32, Character>) -> Map<u32, u8> {
    m.map_values(|c: Character| c.palette)
}

// ── Drawing order of the characters ─────────────────────────────

/// A character is drawn unless its agent's parent is folded in the list.
pub open spec fn character_shown(agents: Map<u32, AgentView>, collapsed: Set<u32>, agent_id: u32) -> bool {
    !(agents.contains_key(agent_id) && (agents[agent_id].parent_id matches Some(p) && collapsed.contains(p)))
}

/// The characters to draw, by their keys in the scene, from the top row down (the rows
/// below are drawn over the rows above).
pub fn characters_in_draw_order(scene: &Scene, agents: &HashMap<u32, AgentState>, collapsed: &HashSet<u32>) -> (ids: Vec<u32>)
    ensures
        ids@.no_duplicates(),
        forall|k: u32|
            ids@.contains(k) <==> (scene.characters@.contains_key(k) && character_shown(
                agents_view(agents@),
                collapsed@,
                scene.characters@[k].id,
            )),
        forall|i: int, j: int|
            0 <= i < j < ids@.len() ==> scene.characters@[#[trigger] ids@[i]].row <= scene.characters@[#[trigger] ids@[j]].row,
{
    let ghost av = agents_view(agents@);
    let ghost chars = scene.characters@;
    let keys = agent_ids(&scene.characters);
    let mut ids: Vec<u32> = Vec::new();
    let mut i: usize = 0;
    while i < keys.len()
        invariant
            av == agents_view(agents@),
            chars == scene.characters@,
            keys@.no_duplicates(),
            forall|k: u32| keys@.contains(k) <==> chars.contains_key(k),
            i <= keys@.len(),
            ids@.no_duplicates(),
            forall|x: int| 0 <= x < ids@.len() ==> chars.contains_key(#[trigger] ids@[x]),
            forall|k: u32|
                ids@.contains(k) <==> (keys@.take(i as int).contains(k) && character_shown(av, collapsed@, chars[k].id)),
            forall|a: int, b: int| 0 <= a < b < ids@.len() ==> chars[#[trigger] ids@[a]].row <= chars[#[trigger] ids@[b]].row,
        decreases keys@.len() - i,
    {
        let k = keys[i];
        assert(keys@.contains(k));
        assert(keys@.take(i + 1) =~= keys@.take(i as int).push(k));
        assert(!keys@.take(i as int).contains(k)) by {
            if keys@.take(i as int).contains(k) {
                let j = choose|j: int| 0 <= j < i && keys@.take(i as int)[j] == k;
                assert(keys@[j] == keys@[i as int]);
            }
        }
        let ghost t0 = keys@.take(i as int);
        let ghost t1 = keys@.take(i + 1);
        assert forall|q: u32| t1.contains(q) <==> (t0.contains(q) || q == k) by {
            if t1.contains(q) {
                let x = choose|x: int| 0 <= x < t1.len() && #[trigger] t1[x] == q;
                if x < i {
                    assert(t0[x] == q);
                }
            }
            if t0.contains(q) {
                let x = choose|x: int| 0 <= x < t0.len() && #[trigger] t0[x] == q;
                assert(t1[x] == q);
            }
            if q == k {
                assert(t1[i as int] == k);
            }
        }
        let ch = scene.characters.get(&k).unwrap();
        assert(chars[k] == *ch);
        let shown = match agents.get(&ch.id) {
            Some(a) => {
                assert(av[ch.id] == a@);
                match a.parent_id {
                    Some(p) => !collapsed.contains(&p),
                    None => true,
                }
            },
            None => true,
        };
        assert(shown == character_shown(av, collapsed@, chars[k].id));
        if shown {
            let row = ch.row;
            let mut pos: usize = ids.len();
            while pos > 0 && scene.characters.get(&ids[pos - 1]).unwrap().row > row
                invariant
                    chars == scene.characters@,
                    pos <= ids@.len(),
                    forall|x: int| 0 <= x < ids@.len() ==> chars.contains_key(#[trigger] ids@[x]),
                    forall|x: int| pos <= x < ids@.len() ==> chars[#[trigger] ids@[x]].row > row,
                decreases pos,
            {
                pos = pos - 1;
            }
            let ghost before = ids@;
            proof {
                assert(forall|x: int| 0 <= x < before.len() ==> chars.contains_key(#[trigger] before[x]));
            }
            ids.insert(pos, k);
            proof {
                assert(ids@ == before.insert(pos as int, k));
                assert forall|x: int| 0 <= x < ids@.len() implies chars.contains_key(#[trigger] ids@[x]) by {
                    if x < pos {
                        assert(ids@[x] == before[x]);
                    } else if x > pos {
                        assert(ids@[x] == before[x - 1]);
                    }
                }
                assert forall|a: int, b: int| 0 <= a < b < ids@.len() implies chars[#[trigger] ids@[a]].row
                    <= chars[#[trigger] ids@[b]].row by {
                    if b < pos {
                    } else if b == pos {
                        assert(ids@[a] == before[a]);
                        if pos > 0 {
                            assert(chars[before[pos - 1]].row <= row);
                            if a < pos - 1 {
                                assert(chars[before[a]].row <= chars[before[pos - 1]].row);
                            }
                        }
                    } else if a < pos {
                        assert(ids@[a] == before[a]);
                        assert(ids@[b] == before[b - 1]);
                        assert(chars[before[b - 1]].row > row || b - 1 < pos);
                        if a < b - 1 {
                            assert(chars[before[a]].row <= chars[before[b - 1]].row);
                        }
                    } else if a == pos {
                        assert(ids@[b] == before[b - 1]);
                    } else {
                        assert(ids@[a] == before[a - 1]);
                        assert(ids@[b] == before[b - 1]);
                    }
                }
                assert forall|x: int, y: int| 0 <= x < ids@.len() && 0 <= y < ids@.len() && x != y implies ids@[x] != ids@[y] by {
                    let x0 = if x < pos { x } else if x == pos { -1 } else { x - 1 };
                    let y0 = if y < pos { y } else if y == pos { -1 } else { y - 1 };
                    if x0 >= 0 && y0 >= 0 {
                        assert(ids@[x] == before[x0]);
                        assert(ids@[y] == before[y0]);
                    } else if x0 >= 0 {
                        assert(ids@[x] == before[x0]);
                        assert(before.contains(before[x0]));
                    } else if y0 >= 0 {
                        assert(ids@[y] == before[y0]);
                        assert(before.contains(before[y0]));
                    }
                }
                assert forall|q: u32| ids@.contains(q) <==> (keys@.take(i + 1).contains(q) && character_shown(
                    av,
                    collapsed@,
                    chars[q].id,
                )) by {
                    if ids@.contains(q) {
                        let x = choose|x: int| 0 <= x < ids@.len() && ids@[x] == q;
                        if x < pos {
                            assert(before[x] == q);
                            assert(before.contains(q));
                        } else if x > pos {
                            assert(before[x - 1] == q);
                            assert(before.contains(q));
                        }
                    }
                    if before.contains(q) {
                        let x = choose|x: int| 0 <= x < before.len() && before[x] == q;
                        if x < pos {
                            assert(ids@[x] == q);
                        } else {
                            assert(ids@[x + 1] == q);
                        }
                    }
                    assert(ids@[pos as int] == k);
                }
            }
        }
        i = i + 1;
    }
    assert(keys@.take(keys@.len() as int) =~= keys@);
    ids
}

/// A top-level agent that has subagents shows `▸` on its row while it is folded and `▾`
/// while it is not; other rows show a blank. Folding it changes nothing else on its row.
pub proof fn law_fold_mark_shows_folding(
    agents: Map<u32, AgentView>,
    palettes: Map<u32, u8>,
    collapsed: Set<u32>,
    ordered: Seq<u32>,
    scroll: u16,
    cursor: u16,
    height: u16,
    width: u16,
    k: int,
)
    requires
        0 <= k < rows_shown(agents, palettes, collapsed, ordered, scroll, cursor, height, width).len(),
    ensures
        ({
            let row = rows_shown(agents, palettes, collapsed, ordered, scroll, cursor, height, width)[k];
            let folded = rows_shown(agents, palettes, collapsed.insert(row.id), ordered, scroll, cursor, height, width)[k];
            let open = rows_shown(agents, palettes, collapsed.remove(row.id), ordered, scroll, cursor, height, width)[k];
            let parent = !agents[row.id].is_subagent && exists|c: u32|
                #[trigger] agents.contains_key(c) && agents[c].parent_id == Some(row.id);
            &&& parent && collapsed.contains(row.id) ==> row.fold_mark == '\u{25B8}'
            &&& parent && !collapsed.contains(row.id) ==> row.fold_mark == '\u{25BE}'
            &&& !parent ==> row.fold_mark == ' '
            &&& parent ==> folded.fold_mark != open.fold_mark
            &&& folded.id == row.id && open.id == row.id
            &&& folded.name == row.name && open.name == row.name
        }),
{
}

} // verus!
