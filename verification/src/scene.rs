use std::collections::HashMap;

use rand::Rng;

use vstd::prelude::*;
use vstd::string::*;

use crate::layout::{OfficeLayout, Seat};
use crate::pathfinding::{find_path, get_walkable_tiles, is_wander_spot, path_found};
use crate::transcript::{is_reading_tool, reading_tool};
use crate::types::{AgentEvent, AgentState, AgentStatus, AgentView, CharacterState, Direction, EventView, events_view, opt_chars};
use crate::renderer::agent_ids;
use crate::watcher::agents_view;

verus! {

broadcast use vstd::std_specs::hash::group_hash_axioms;

// ── Timing, in milliseconds ─────────────────────────────────────

/// A walking character crosses three tiles a second: three thousandths of a tile per
/// millisecond.
pub const WALK_SPEED_MILLITILES_PER_MS: u64 = 3;
/// A whole tile, in thousandths.
pub const TILE_MILLITILES: u64 = 1000;
pub const WALK_FRAME_DURATION_MS: u64 = 150;
pub const TYPE_FRAME_DURATION_MS: u64 = 300;
pub const WANDER_PAUSE_MIN_MS: u64 = 2000;
pub const WANDER_PAUSE_MAX_MS: u64 = 8000;
pub const WANDER_MOVES_BEFORE_REST_MIN: u32 = 3;
pub const WANDER_MOVES_BEFORE_REST_MAX: u32 = 6;
pub const SEAT_REST_MIN_MS: u64 = 10000;
pub const SEAT_REST_MAX_MS: u64 = 30000;
/// An idle character who is done wandering sits in the lounge with chance 2 in 5.
pub const LOUNGE_SIT_CHANCE_NUM: u32 = 2;
pub const LOUNGE_SIT_CHANCE_DEN: u32 = 5;
pub const LOUNGE_SIT_MIN_MS: u64 = 15000;
pub const LOUNGE_SIT_MAX_MS: u64 = 45000;
/// Wandering walks are shorter than this many steps.
pub const WANDER_PATH_LIMIT: usize = 30;
/// Number of shirt palettes.
pub const PALETTE_COUNT: u8 = 6;
/// Number of appearances (skin and hair).
pub const APPEARANCE_COUNT: u32 = 8;
/// The largest seat or position coordinate a character takes.
pub const MAX_COORD: u16 = 32766;

// ── Chance ──────────────────────────────────────────────────────

/// Calls `rand::Rng::gen_range(0..n)` on the thread's generator: an index below `n`.
#[verifier::external_body]
fn random_index(n: usize) -> (r: usize)
    requires
        n > 0,
    ensures
        r < n,
{
    rand::thread_rng().gen_range(0..n)
}

/// Calls `rand::Rng::gen_range(lo..=hi)` on the thread's generator.
#[verifier::external_body]
fn random_u32_inclusive(lo: u32, hi: u32) -> (r: u32)
    requires
        lo <= hi,
    ensures
        lo <= r <= hi,
{
    rand::thread_rng().gen_range(lo..=hi)
}

/// Calls `rand::Rng::gen_range(lo..hi)` on the thread's generator.
#[verifier::external_body]
fn random_u64(lo: u64, hi: u64) -> (r: u64)
    requires
        lo < hi,
    ensures
        lo <= r < hi,
{
    rand::thread_rng().gen_range(lo..hi)
}

/// Calls `rand::Rng::gen_range(lo..=hi)` on the thread's generator.
#[verifier::external_body]
fn random_i16_inclusive(lo: i16, hi: i16) -> (r: i16)
    requires
        lo <= hi,
    ensures
        lo <= r <= hi,
{
    rand::thread_rng().gen_range(lo..=hi)
}

/// Calls `rand::Rng::gen_ratio(num, den)` on the thread's generator: `true` with chance
/// `num` in `den` (always when they are equal, never when `num` is 0).
#[verifier::external_body]
fn random_ratio(num: u32, den: u32) -> (r: bool)
    requires
        0 < den,
        num <= den,
    ensures
        num == den ==> r,
        num == 0 ==> !r,
{
    rand::thread_rng().gen_ratio(num, den)
}

// ── Characters ──────────────────────────────────────────────────

/// A character in the office.
///
/// Times are whole milliseconds, and `move_progress` is in thousandths of a tile.
#[derive(Debug)]
pub struct Character {
    pub id: u32,
    pub state: CharacterState,
    pub dir: Direction,
    pub col: u16,
    pub row: u16,
    pub path: Vec<(u16, u16)>,
    pub move_progress: u64,
    pub frame: u8,
    pub frame_timer: u64,
    pub wander_timer: u64,
    pub wander_count: u32,
    pub wander_limit: u32,
    pub is_active: bool,
    pub seat_col: u16,
    pub seat_row: u16,
    pub desk_col: u16,
    pub desk_row: u16,
    pub seat_timer: u64,
    pub palette: u8,
    pub person: u8,
    pub current_tool: Option<String>,
    pub status_text: String,
    pub is_subagent: bool,
    pub lounge_seat: Option<usize>,
}

/// A character with its path and strings as sequences.
pub struct CharacterView {
    pub id: u32,
    pub state: CharacterState,
    pub dir: Direction,
    pub col: u16,
    pub row: u16,
    pub path: Seq<(u16, u16)>,
    pub move_progress: u64,
    pub frame: u8,
    pub frame_timer: u64,
    pub wander_timer: u64,
    pub wander_count: u32,
    pub wander_limit: u32,
    pub is_active: bool,
    pub seat_col: u16,
    pub seat_row: u16,
    pub desk_col: u16,
    pub desk_row: u16,
    pub seat_timer: u64,
    pub palette: u8,
    pub person: u8,
    pub current_tool: Option<Seq<char>>,
    pub status_text: Seq<char>,
    pub is_subagent: bool,
    pub lounge_seat: Option<usize>,
}

impl View for Character {
    type V = CharacterView;

    open spec fn view(&self) -> CharacterView {
        CharacterView {
            id: self.id,
            state: self.state,
            dir: self.dir,
            col: self.col,
            row: self.row,
            path: self.path@,
            move_progress: self.move_progress,
            frame: self.frame,
            frame_timer: self.frame_timer,
            wander_timer: self.wander_timer,
            wander_count: self.wander_count,
            wander_limit: self.wander_limit,
            is_active: self.is_active,
            seat_col: self.seat_col,
            seat_row: self.seat_row,
            desk_col: self.desk_col,
            desk_row: self.desk_row,
            seat_timer: self.seat_timer,
            palette: self.palette,
            person: self.person,
            current_tool: opt_chars(self.current_tool),
            status_text: self.status_text@,
            is_subagent: self.is_subagent,
            lounge_seat: self.lounge_seat,
        }
    }
}

/// A new character: idle at its seat, facing down, its desk three rows up.
pub open spec fn new_character(id: u32, seat_col: u16, seat_row: u16, palette: u8, person: u8) -> CharacterView {
    CharacterView {
        id,
        state: CharacterState::Idle,
        dir: Direction::Down,
        col: seat_col,
        row: seat_row,
        path: Seq::empty(),
        move_progress: 0,
        frame: 0,
        frame_timer: 0,
        wander_timer: 3000,
        wander_count: 0,
        wander_limit: 4,
        is_active: false,
        seat_col,
        seat_row,
        desk_col: seat_col,
        desk_row: if seat_row >= 3 { (seat_row - 3) as u16 } else { 0 },
        seat_timer: 0,
        palette,
        person,
        current_tool: None,
        status_text: "Idle"@,
        is_subagent: false,
        lounge_seat: None,
    }
}

impl Character {
    pub fn new(id: u32, seat_col: u16, seat_row: u16, palette: u8, person: u8) -> (c: Self)
        ensures
            c@ == new_character(id, seat_col, seat_row, palette, person),
    {
        Character {
            id,
            state: CharacterState::Idle,
            dir: Direction::Down,
            col: seat_col,
            row: seat_row,
            path: Vec::new(),
            move_progress: 0,
            frame: 0,
            frame_timer: 0,
            wander_timer: 3000,
            wander_count: 0,
            wander_limit: 4,
            is_active: false,
            seat_col,
            seat_row,
            desk_col: seat_col,
            desk_row: seat_row.saturating_sub(3),
            seat_timer: 0,
            palette,
            person,
            current_tool: None,
            status_text: String::from_str("Idle"),
            is_subagent: false,
            lounge_seat: None,
        }
    }
}

// ── The office scene ────────────────────────────────────────────

/// The characters in the office, and the seats they are given.
pub struct Scene {
    pub characters: HashMap<u32, Character>,
    pub layout: OfficeLayout,
    pub walkable_tiles: Vec<(u16, u16)>,
    pub lounge_seat_occupied: Vec<bool>,
    pub next_palette: u8,
    pub next_seat: usize,
}

/// The changing part of a scene.
pub struct SceneView {
    pub characters: Map<u32, CharacterView>,
    pub lounge: Seq<bool>,
    pub next_palette: u8,
    pub next_seat: usize,
}

/// The characters of a map, by their views.
pub open spec fn characters_view(m: Map<u32, Character>) -> Map<u32, CharacterView> {
    m.map_values(|c: Character| c@)
}

/// A cell inside the grid.
pub open spec fn in_grid(layout: &OfficeLayout, p: (u16, u16)) -> bool {
    p.0 < layout.cols && p.1 < layout.rows
}

/// A character stays where paths can be searched from: its seat and position within
/// `MAX_COORD`, its path inside the grid.
pub open spec fn character_ok(layout: &OfficeLayout, c: CharacterView) -> bool {
    &&& c.col <= MAX_COORD && c.row <= MAX_COORD
    &&& c.seat_col <= MAX_COORD && c.seat_row <= MAX_COORD
    &&& forall|i: int| 0 <= i < c.path.len() ==> in_grid(layout, #[trigger] c.path[i])
}

/// A layout a scene can be built on: grids that fit, seats within `MAX_COORD`.
pub open spec fn layout_ok(layout: &OfficeLayout) -> bool {
    &&& layout.wf()
    &&& layout.cols <= 32767
    &&& layout.rows <= 32767
    &&& forall|i: int| 0 <= i < layout.seats@.len() ==> (#[trigger] layout.seats@[i]).col <= MAX_COORD
        && layout.seats@[i].row <= MAX_COORD
}

impl Scene {
    pub open spec fn view(&self) -> SceneView {
        SceneView {
            characters: characters_view(self.characters@),
            lounge: self.lounge_seat_occupied@,
            next_palette: self.next_palette,
            next_seat: self.next_seat,
        }
    }

    /// The scene's invariant.
    pub open spec fn wf(&self) -> bool {
        &&& layout_ok(&self.layout)
        &&& forall|i: int| 0 <= i < self.walkable_tiles@.len() ==> is_wander_spot(
            &self.layout,
            (#[trigger] self.walkable_tiles@[i]).0 as int,
            self.walkable_tiles@[i].1 as int,
        )
        &&& self.lounge_seat_occupied@.len() == self.layout.lounge_seats@.len()
        &&& self.layout.seats@.len() > 0 ==> self.next_seat < self.layout.seats@.len()
        &&& self.next_palette < PALETTE_COUNT
        &&& forall|k: u32| #[trigger] self.characters@.contains_key(k) ==> character_ok(&self.layout, self.characters@[k]@)
    }

    /// The spots idle characters wander to.
    pub open spec fn wander_spots(&self) -> Seq<(u16, u16)> {
        self.walkable_tiles@
    }

    pub fn new(layout: OfficeLayout) -> (s: Self)
        requires
            layout_ok(&layout),
        ensures
            s.wf(),
            s.layout == layout,
            s@.characters == Map::<u32, CharacterView>::empty(),
            s@.lounge == Seq::new(layout.lounge_seats@.len(), |i: int| false),
            s@.next_palette == 0,
            s@.next_seat == 0,
            forall|i: int| 0 <= i < s.wander_spots().len() ==> is_wander_spot(
                &layout,
                (#[trigger] s.wander_spots()[i]).0 as int,
                s.wander_spots()[i].1 as int,
            ),
            forall|c: u16, r: u16| is_wander_spot(&layout, c as int, r as int) ==> s.wander_spots().contains((c, r)),
    {
        let walkable_tiles = get_walkable_tiles(&layout);
        let n = layout.lounge_seats.len();
        let mut occupied: Vec<bool> = Vec::new();
        let mut i: usize = 0;
        while i < n
            invariant
                i <= n,
                occupied@ == Seq::new(i as nat, |j: int| false),
            decreases n - i,
        {
            occupied.push(false);
            i = i + 1;
            assert(occupied@ =~= Seq::new(i as nat, |j: int| false));
        }
        let s = Scene {
            characters: HashMap::new(),
            layout,
            walkable_tiles,
            lounge_seat_occupied: occupied,
            next_palette: 0,
            next_seat: 0,
        };
        assert(characters_view(s.characters@) =~= Map::<u32, CharacterView>::empty());
        s
    }
}

/// The appearance a character gets: one of `APPEARANCE_COUNT`, by its id.
pub open spec fn person_of(id: u32) -> u8 {
    (id % APPEARANCE_COUNT) as u8
}

fn person_for(id: u32) -> (p: u8)
    ensures
        p == person_of(id),
{
    (id % APPEARANCE_COUNT) as u8
}

/// The seat a new character is given: the next seat in turn, or (5, 5) with its desk at
/// (5, 2) where the office has none.
pub open spec fn assigned_seat(s: SceneView, seats: Seq<Seat>) -> ((u16, u16, u16, u16), SceneView) {
    if seats.len() == 0 {
        ((5, 5, 5, 2), s)
    } else {
        let i = (s.next_seat as int) % (seats.len() as int);
        (
            (seats[i as int].col, seats[i as int].row, seats[i as int].desk_col, seats[i as int].desk_row),
            SceneView { next_seat: ((i + 1) % (seats.len() as int)) as usize, ..s },
        )
    }
}

/// A coordinate beside another: `c + off`, at least 1 and at most `MAX_COORD`.
pub open spec fn offset_coord(c: u16, off: i16) -> u16 {
    let v = c + off;
    if v < 1 {
        1
    } else if v > MAX_COORD {
        MAX_COORD
    } else {
        v as u16
    }
}

fn offset_coord_of(c: u16, off: i16) -> (r: u16)
    ensures
        r == offset_coord(c, off),
{
    let v: i32 = c as i32 + off as i32;
    if v < 1 {
        1
    } else if v > MAX_COORD as i32 {
        MAX_COORD
    } else {
        v as u16
    }
}

/// A new character placed with its desk and kind.
pub open spec fn placed(c: CharacterView, desk_col: u16, desk_row: u16, is_subagent: bool) -> CharacterView {
    CharacterView { desk_col, desk_row, is_subagent, ..c }
}

/// Gives agent `id` a character if it has none: a subagent sits beside its parent's
/// character (offset by `off`) with the parent's palette; any other agent takes the
/// next seat, and a top-level agent the next palette.
pub open spec fn ensured(
    s: SceneView,
    seats: Seq<Seat>,
    agents: Map<u32, AgentView>,
    id: u32,
    off: (i16, i16),
) -> SceneView {
    if s.characters.contains_key(id) {
        s
    } else if agents.contains_key(id) && agents[id].is_subagent {
        let pid = agents[id].parent_id;
        if pid is Some && s.characters.contains_key(pid->0) {
            let pc = s.characters[pid->0];
            let c = new_character(
                id,
                offset_coord(pc.seat_col, off.0),
                offset_coord(pc.seat_row, off.1),
                pc.palette,
                person_of(id),
            );
            SceneView { characters: s.characters.insert(id, placed(c, pc.desk_col, pc.desk_row, true)), ..s }
        } else {
            let (seat, s1) = assigned_seat(s, seats);
            let c = new_character(id, seat.0, seat.1, s.next_palette, person_of(id));
            SceneView { characters: s1.characters.insert(id, placed(c, seat.2, seat.3, true)), ..s1 }
        }
    } else {
        let s1 = SceneView { next_palette: ((s.next_palette + 1) % (PALETTE_COUNT as int)) as u8, ..s };
        let (seat, s2) = assigned_seat(s1, seats);
        let c = new_character(id, seat.0, seat.1, s.next_palette, person_of(id));
        SceneView { characters: s2.characters.insert(id, placed(c, seat.2, seat.3, false)), ..s2 }
    }
}

/// The offsets a subagent's seat may take from its parent's: -3..=3 columns, -2..=2 rows.
pub open spec fn offset_ok(off: (i16, i16)) -> bool {
    -3 <= off.0 <= 3 && -2 <= off.1 <= 2
}

proof fn lemma_characters_insert(m: Map<u32, Character>, k: u32, c: Character)
    ensures
        characters_view(m.insert(k, c)) == characters_view(m).insert(k, c@),
{
    assert(characters_view(m.insert(k, c)) =~= characters_view(m).insert(k, c@));
}

proof fn lemma_characters_reinsert(m: Map<u32, Character>, k: u32, c: Character)
    requires
        m.contains_key(k),
    ensures
        characters_view(m.remove(k).insert(k, c)) == characters_view(m).insert(k, c@),
{
    assert(characters_view(m.remove(k).insert(k, c)) =~= characters_view(m).insert(k, c@));
}

impl Scene {
    /// Takes the next seat in turn.
    fn assign_seat(&mut self) -> (r: Option<(u16, u16, u16, u16)>)
        requires
            old(self).wf(),
        ensures
            final(self).wf(),
            final(self).characters == old(self).characters,
            final(self).layout == old(self).layout,
            final(self).wander_spots() == old(self).wander_spots(),
            ({
                let (seat, s1) = assigned_seat(old(self)@, old(self).layout.seats@);
                &&& final(self)@ == s1
                &&& match r {
                    Some(x) => x == seat && old(self).layout.seats@.len() > 0,
                    None => old(self).layout.seats@.len() == 0,
                }
            }),
            r matches Some(x) ==> x.0 <= MAX_COORD && x.1 <= MAX_COORD,
    {
        if self.layout.seats.len() == 0 {
            return None;
        }
        let n = self.layout.seats.len();
        let idx = self.next_seat % n;
        self.next_seat = (idx + 1) % n;
        let seat = &self.layout.seats[idx];
        Some((seat.col, seat.row, seat.desk_col, seat.desk_row))
    }

    /// Gives agent `agent_id` a character if it has none yet.
    pub fn ensure_character(&mut self, agent_id: u32, agents: &HashMap<u32, AgentState>)
        requires
            old(self).wf(),
        ensures
            final(self).wf(),
            final(self).layout == old(self).layout,
            final(self).wander_spots() == old(self).wander_spots(),
            exists|off: (i16, i16)|
                offset_ok(off) && final(self)@ == ensured(
                    old(self)@,
                    old(self).layout.seats@,
                    agents_view(agents@),
                    agent_id,
                    off,
                ),
    {
        let ghost s0 = self@;
        let ghost av = agents_view(agents@);
        if self.characters.contains_key(&agent_id) {
            assert(offset_ok((0, 0)) && self@ == ensured(s0, self.layout.seats@, av, agent_id, (0, 0)));
            return;
        }
        let (is_subagent, parent_id) = match agents.get(&agent_id) {
            Some(a) => (a.is_subagent, a.parent_id),
            None => (false, None),
        };
        assert(is_subagent == (av.contains_key(agent_id) && av[agent_id].is_subagent));
        assert(is_subagent ==> parent_id == av[agent_id].parent_id);
        let person = person_for(agent_id);
        if is_subagent {
            let parent = match parent_id {
                Some(pid) => match self.characters.get(&pid) {
                    Some(pc) => Some((pc.seat_col, pc.seat_row, pc.palette, pc.desk_col, pc.desk_row)),
                    None => None,
                },
                None => None,
            };
            match parent {
                Some((psc, psr, palette, dc, dr)) => {
                    let oc = random_i16_inclusive(-3, 3);
                    let orow = random_i16_inclusive(-2, 2);
                    let mut ch = Character::new(
                        agent_id,
                        offset_coord_of(psc, oc),
                        offset_coord_of(psr, orow),
                        palette,
                        person,
                    );
                    ch.desk_col = dc;
                    ch.desk_row = dr;
                    ch.is_subagent = true;
                    let ghost m = self.characters@;
                    self.characters.insert(agent_id, ch);
                    proof {
                        lemma_characters_insert(m, agent_id, ch);
                        let pid = parent_id->0;
                        assert(s0.characters[pid] == m[pid]@);
                        assert(offset_ok((oc, orow)) && self@ == ensured(s0, self.layout.seats@, av, agent_id, (oc, orow)));
                    }
                },
                None => {
                    let (sc, sr, dc, dr) = match self.assign_seat() {
                        Some(x) => x,
                        None => (5, 5, 5, 2),
                    };
                    let mut ch = Character::new(agent_id, sc, sr, self.next_palette, person);
                    ch.desk_col = dc;
                    ch.desk_row = dr;
                    ch.is_subagent = true;
                    let ghost m = self.characters@;
                    self.characters.insert(agent_id, ch);
                    proof {
                        lemma_characters_insert(m, agent_id, ch);
                        assert(offset_ok((0, 0)) && self@ == ensured(s0, self.layout.seats@, av, agent_id, (0, 0)));
                    }
                },
            }
        } else {
            let palette = self.next_palette;
            self.next_palette = (self.next_palette + 1) % PALETTE_COUNT;
            let (sc, sr, dc, dr) = match self.assign_seat() {
                Some(x) => x,
                None => (5, 5, 5, 2),
            };
            let mut ch = Character::new(agent_id, sc, sr, palette, person);
            ch.desk_col = dc;
            ch.desk_row = dr;
            let ghost m = self.characters@;
            self.characters.insert(agent_id, ch);
            proof {
                lemma_characters_insert(m, agent_id, ch);
                assert(offset_ok((0, 0)) && self@ == ensured(s0, self.layout.seats@, av, agent_id, (0, 0)));
            }
        }
    }
}

// ── Events ──────────────────────────────────────────────────────

/// What an event's handling draws: a subagent's seat offset, and the path that
/// `find_path` gives.
pub struct EventDraw {
    pub off: (i16, i16),
    pub path: Seq<(u16, u16)>,
}

/// A character that leaves the lounge seat it holds; the seat is freed when it is one of
/// the lounge's.
pub open spec fn freed(c: CharacterView, lounge: Seq<bool>) -> (CharacterView, Seq<bool>) {
    match c.lounge_seat {
        Some(idx) => (
            CharacterView { lounge_seat: None, ..c },
            if idx < lounge.len() { lounge.update(idx as int, false) } else { lounge },
        ),
        None => (c, lounge),
    }
}

/// Leaves the lounge first when sitting there.
pub open spec fn stand_up(c: CharacterView, lounge: Seq<bool>) -> (CharacterView, Seq<bool>) {
    if c.state == CharacterState::Sitting {
        freed(c, lounge)
    } else {
        (c, lounge)
    }
}

/// `s` with character `id` set to `c` and the lounge to `lounge`.
pub open spec fn put(s: SceneView, id: u32, c: CharacterView, lounge: Seq<bool>) -> SceneView {
    SceneView { characters: s.characters.insert(id, c), lounge, ..s }
}

/// A character starting to walk along `path`.
pub open spec fn walking(c: CharacterView, path: Seq<(u16, u16)>) -> CharacterView {
    CharacterView { path, state: CharacterState::Walking, move_progress: 0, ..c }
}

/// Sends a character (already set to work) to its seat: it walks there along `path`
/// when it is elsewhere and `path` is not empty; otherwise it takes `state_at_seat`, or,
/// away from its seat with no path, `state_no_path`. `None` when `path` is not what
/// `find_path` gives.
pub open spec fn to_seat(
    layout: &OfficeLayout,
    c: CharacterView,
    path: Seq<(u16, u16)>,
    state_at_seat: CharacterState,
    state_no_path: CharacterState,
) -> Option<CharacterView> {
    let pos = (c.col, c.row);
    let seat = (c.seat_col, c.seat_row);
    if pos != seat {
        if !path_found(layout, pos, seat, path) {
            None
        } else if path.len() > 0 {
            Some(walking(c, path))
        } else {
            Some(CharacterView { state: state_no_path, ..c })
        }
    } else {
        Some(CharacterView { state: state_at_seat, ..c })
    }
}

/// The effect of one event on the scene; `None` when the draw is not one the handling
/// could make.
pub open spec fn event_step(
    s: SceneView,
    layout: &OfficeLayout,
    agents: Map<u32, AgentView>,
    e: EventView,
    d: EventDraw,
) -> Option<SceneView> {
    match e {
        EventView::ToolStart { agent_id, tool_id, tool_name, status } => {
            if !offset_ok(d.off) {
                None
            } else {
                let s1 = ensured(s, layout.seats@, agents, agent_id, d.off);
                let c = CharacterView {
                    is_active: true,
                    current_tool: Some(tool_name),
                    status_text: status,
                    ..s1.characters[agent_id]
                };
                let (c1, lounge) = stand_up(c, s1.lounge);
                let at_seat = if reading_tool(tool_name) { CharacterState::Reading } else { CharacterState::Typing };
                match to_seat(layout, c1, d.path, at_seat, c1.state) {
                    Some(c2) => Some(put(s1, agent_id, c2, lounge)),
                    None => None,
                }
            }
        },
        EventView::ToolDone { .. } => Some(s),
        EventView::StatusChange { agent_id, status } => {
            if !offset_ok(d.off) {
                None
            } else {
                let s1 = ensured(s, layout.seats@, agents, agent_id, d.off);
                let c = s1.characters[agent_id];
                match status {
                    AgentStatus::Active => {
                        let (c1, lounge) = stand_up(CharacterView { is_active: true, ..c }, s1.lounge);
                        match to_seat(layout, c1, d.path, CharacterState::Typing, CharacterState::Typing) {
                            Some(c2) => Some(put(s1, agent_id, c2, lounge)),
                            None => None,
                        }
                    },
                    AgentStatus::Idle => Some(
                        put(
                            s1,
                            agent_id,
                            CharacterView { is_active: false, current_tool: None, status_text: "Idle"@, ..c },
                            s1.lounge,
                        ),
                    ),
                    AgentStatus::WaitingPermission => Some(
                        put(s1, agent_id, CharacterView { status_text: "Waiting for permission"@, ..c }, s1.lounge),
                    ),
                }
            }
        },
        EventView::ClearActivity { agent_id } => {
            if s.characters.contains_key(agent_id) {
                let c = s.characters[agent_id];
                Some(
                    put(
                        s,
                        agent_id,
                        CharacterView { is_active: false, current_tool: None, status_text: "Idle"@, ..c },
                        s.lounge,
                    ),
                )
            } else {
                Some(s)
            }
        },
    }
}

/// The events in order, each with its draw.
pub open spec fn events_step(
    s: SceneView,
    layout: &OfficeLayout,
    agents: Map<u32, AgentView>,
    events: Seq<EventView>,
    draws: Seq<EventDraw>,
) -> Option<SceneView>
    decreases events.len(),
{
    if events.len() != draws.len() {
        None
    } else if events.len() == 0 {
        Some(s)
    } else {
        match events_step(s, layout, agents, events.drop_last(), draws.drop_last()) {
            Some(s1) => event_step(s1, layout, agents, events.last(), draws.last()),
            None => None,
        }
    }
}

proof fn lemma_route_in_grid(layout: &OfficeLayout, from: (u16, u16), to: (u16, u16), p: Seq<(u16, u16)>)
    requires
        path_found(layout, from, to, p),
    ensures
        forall|i: int| 0 <= i < p.len() ==> in_grid(layout, #[trigger] p[i]),
{
    assert forall|i: int| 0 <= i < p.len() implies in_grid(layout, #[trigger] p[i]) by {
        assert(crate::pathfinding::walkable_cell(layout, p[i]));
    }
}

impl Scene {
    /// Frees the lounge seat `ch` holds.
    fn free_lounge_seat(&mut self, ch: &mut Character)
        requires
            old(self).wf(),
        ensures
            final(self).wf(),
            final(self).characters == old(self).characters,
            final(self).layout == old(self).layout,
            final(self).wander_spots() == old(self).wander_spots(),
            final(self).next_palette == old(self).next_palette,
            final(self).next_seat == old(self).next_seat,
            (final(ch)@, final(self)@.lounge) == freed(old(ch)@, old(self)@.lounge),
    {
        if let Some(idx) = ch.lounge_seat {
            ch.lounge_seat = None;
            if idx < self.lounge_seat_occupied.len() {
                self.lounge_seat_occupied.set(idx, false);
            }
        }
    }

    /// Sends `ch` to its seat, as `to_seat` says.
    fn send_to_seat(&self, ch: &mut Character, state_at_seat: CharacterState, state_no_path: CharacterState) -> (
        path: Ghost<Seq<(u16, u16)>>)
        requires
            self.wf(),
            character_ok(&self.layout, old(ch)@),
        ensures
            to_seat(&self.layout, old(ch)@, path@, state_at_seat, state_no_path) == Some(final(ch)@),
            character_ok(&self.layout, final(ch)@),
    {
        if ch.col != ch.seat_col || ch.row != ch.seat_row {
            let path = find_path(ch.col, ch.row, ch.seat_col, ch.seat_row, &self.layout);
            let ghost p = path@;
            proof {
                lemma_route_in_grid(&self.layout, (ch.col, ch.row), (ch.seat_col, ch.seat_row), p);
            }
            if path.len() > 0 {
                ch.path = path;
                ch.state = CharacterState::Walking;
                ch.move_progress = 0;
            } else {
                ch.state = state_no_path;
            }
            Ghost(p)
        } else {
            ch.state = state_at_seat;
            Ghost(Seq::empty())
        }
    }
}

impl Scene {
    /// Handles one event.
    fn handle_event(&mut self, event: &AgentEvent, agents: &HashMap<u32, AgentState>) -> (d: Ghost<EventDraw>)
        requires
            old(self).wf(),
        ensures
            final(self).wf(),
            final(self).layout == old(self).layout,
            final(self).wander_spots() == old(self).wander_spots(),
            event_step(old(self)@, &old(self).layout, agents_view(agents@), event@, d@) == Some(final(self)@),
    {
        let ghost s0 = self@;
        let ghost av = agents_view(agents@);
        match event {
            AgentEvent::ToolStart { agent_id, tool_name, status, .. } => {
                self.ensure_character(*agent_id, agents);
                let ghost off = choose|off: (i16, i16)|
                    offset_ok(off) && self@ == ensured(s0, self.layout.seats@, av, *agent_id, off);
                let ghost s1 = self@;
                assert(s1.characters.contains_key(*agent_id));
                let ghost m = self.characters@;
                let mut ch = self.characters.remove(agent_id).unwrap();
                assert(ch@ == s1.characters[*agent_id]);
                assert(character_ok(&self.layout, ch@));
                ch.is_active = true;
                ch.current_tool = Some(tool_name.clone());
                ch.status_text = status.clone();
                let ghost c = ch@;
                if ch.state == CharacterState::Sitting {
                    self.free_lounge_seat(&mut ch);
                }
                let ghost lounge = self@.lounge;
                assert((ch@, lounge) == stand_up(c, s1.lounge));
                let at_seat = if is_reading_tool(tool_name.as_str()) {
                    CharacterState::Reading
                } else {
                    CharacterState::Typing
                };
                let no_path = ch.state;
                let path = self.send_to_seat(&mut ch, at_seat, no_path);
                proof {
                    lemma_characters_reinsert(m, *agent_id, ch);
                }
                self.characters.insert(*agent_id, ch);
                let ghost d = EventDraw { off, path: path@ };
                assert(event_step(s0, &self.layout, av, event@, d) == Some(self@));
                Ghost(d)
            },
            AgentEvent::ToolDone { .. } => {
                let ghost d = EventDraw { off: (0, 0), path: Seq::empty() };
                assert(event_step(s0, &self.layout, av, event@, d) == Some(self@));
                Ghost(d)
            },
            AgentEvent::StatusChange { agent_id, status } => {
                self.ensure_character(*agent_id, agents);
                let ghost off = choose|off: (i16, i16)|
                    offset_ok(off) && self@ == ensured(s0, self.layout.seats@, av, *agent_id, off);
                let ghost s1 = self@;
                assert(s1.characters.contains_key(*agent_id));
                let ghost m = self.characters@;
                let mut ch = self.characters.remove(agent_id).unwrap();
                assert(ch@ == s1.characters[*agent_id]);
                assert(character_ok(&self.layout, ch@));
                let ghost mut path: Seq<(u16, u16)> = Seq::empty();
                match status {
                    AgentStatus::Active => {
                        ch.is_active = true;
                        let ghost c = ch@;
                        if ch.state == CharacterState::Sitting {
                            self.free_lounge_seat(&mut ch);
                        }
                        assert((ch@, self@.lounge) == stand_up(c, s1.lounge));
                        let p = self.send_to_seat(&mut ch, CharacterState::Typing, CharacterState::Typing);
                        proof {
                            path = p@;
                        }
                    },
                    AgentStatus::Idle => {
                        ch.is_active = false;
                        ch.current_tool = None;
                        ch.status_text = String::from_str("Idle");
                    },
                    AgentStatus::WaitingPermission => {
                        ch.status_text = String::from_str("Waiting for permission");
                    },
                }
                proof {
                    lemma_characters_reinsert(m, *agent_id, ch);
                }
                self.characters.insert(*agent_id, ch);
                let ghost d = EventDraw { off, path };
                assert(event_step(s0, &self.layout, av, event@, d) == Some(self@));
                Ghost(d)
            },
            AgentEvent::ClearActivity { agent_id } => {
                if self.characters.contains_key(agent_id) {
                    let ghost m = self.characters@;
                    let mut ch = self.characters.remove(agent_id).unwrap();
                    ch.is_active = false;
                    ch.current_tool = None;
                    ch.status_text = String::from_str("Idle");
                    proof {
                        lemma_characters_reinsert(m, *agent_id, ch);
                    }
                    self.characters.insert(*agent_id, ch);
                }
                let ghost d = EventDraw { off: (0, 0), path: Seq::empty() };
                assert(event_step(s0, &self.layout, av, event@, d) == Some(self@));
                Ghost(d)
            },
        }
    }

    /// Moves the characters as the events say: an agent that starts a tool or becomes
    /// active heads to its seat (leaving the lounge) and works there, reading or typing;
    /// an idle or cleared agent stops working. Agents without a character get one.
    pub fn handle_events(&mut self, events: &[AgentEvent], agents: &HashMap<u32, AgentState>)
        requires
            old(self).wf(),
        ensures
            final(self).wf(),
            final(self).layout == old(self).layout,
            final(self).wander_spots() == old(self).wander_spots(),
            exists|ds: Seq<EventDraw>|
                events_step(old(self)@, &old(self).layout, agents_view(agents@), events_view(events@), ds)
                    == Some(final(self)@),
    {
        let ghost s0 = self@;
        let ghost av = agents_view(agents@);
        let ghost evs = events_view(events@);
        let ghost mut ds: Seq<EventDraw> = Seq::empty();
        let mut i: usize = 0;
        assert(evs.take(0) =~= Seq::<EventView>::empty());
        while i < events.len()
            invariant
                self.wf(),
                self.layout == old(self).layout,
                self.wander_spots() == old(self).wander_spots(),
                evs == events_view(events@),
                av == agents_view(agents@),
                i <= events@.len(),
                ds.len() == i,
                events_step(s0, &self.layout, av, evs.take(i as int), ds) == Some(self@),
            decreases events@.len() - i,
        {
            let ghost before = self@;
            let ghost lay = self.layout;
            let e = &events[i];
            let g = self.handle_event(e, agents);
            proof {
                let d = g@;
                assert(*e == events@[i as int]);
                assert(evs.take(i + 1).drop_last() =~= evs.take(i as int));
                assert(evs.take(i + 1).last() == events@[i as int]@);
                assert(ds.push(d).drop_last() =~= ds);
                assert(lay == self.layout);
                assert(events_step(s0, &lay, av, evs.take(i as int), ds) == Some(before));
                assert(event_step(before, &lay, av, e@, d) == Some(self@));
                assert(evs[i as int] == events@[i as int]@);
                assert(evs.take(i + 1).last() == e@);
                assert(events_step(s0, &lay, av, evs.take(i + 1), ds.push(d)) == Some(self@));
                ds = ds.push(d);
            }
            i = i + 1;
        }
        assert(evs.take(events@.len() as int) =~= evs);
    }
}

// ── Time passing ────────────────────────────────────────────────

/// What one character's update draws: random times and counts, the picks of a lounge
/// seat and a wander spot, whether to sit down, and the paths `find_path` gives.
pub struct CharDraw {
    pub pause: u64,
    pub limit: u32,
    pub sit: bool,
    pub lounge_idx: usize,
    pub wander_idx: usize,
    pub rest: u64,
    pub sit_time: u64,
    pub seat_path: Seq<(u16, u16)>,
    pub lounge_path: Seq<(u16, u16)>,
    pub wander_path: Seq<(u16, u16)>,
}

/// A countdown after `dt`: it runs out at 0.
pub open spec fn counted_down(t: u64, dt: u64) -> u64 {
    if t <= dt { 0 } else { (t - dt) as u64 }
}

/// A character that stops and waits before wandering: `None` when the drawn pause or
/// move count is out of range.
pub open spec fn go_idle(c: CharacterView, d: CharDraw) -> Option<CharacterView> {
    if WANDER_PAUSE_MIN_MS <= d.pause < WANDER_PAUSE_MAX_MS && WANDER_MOVES_BEFORE_REST_MIN <= d.limit
        <= WANDER_MOVES_BEFORE_REST_MAX {
        Some(
            CharacterView {
                state: CharacterState::Idle,
                frame: 0,
                frame_timer: 0,
                wander_timer: d.pause,
                wander_count: 0,
                wander_limit: d.limit,
                ..c
            },
        )
    } else {
        None
    }
}

/// A working character leaves the lounge and heads to its seat, or types there when no
/// path leads away from it.
pub open spec fn back_to_work(layout: &OfficeLayout, c: CharacterView, lounge: Seq<bool>, d: CharDraw) -> Option<
    (CharacterView, Seq<bool>),
> {
    let (c1, l1) = freed(c, lounge);
    let pos = (c1.col, c1.row);
    let seat = (c1.seat_col, c1.seat_row);
    if !path_found(layout, pos, seat, d.seat_path) {
        None
    } else if d.seat_path.len() > 0 {
        Some((walking(c1, d.seat_path), l1))
    } else {
        Some((CharacterView { state: CharacterState::Typing, dir: Direction::Up, ..c1 }, l1))
    }
}

/// Typing or reading: the frame turns every `TYPE_FRAME_DURATION_MS`; an inactive
/// character rests at its desk until its seat timer runs out, then goes idle.
pub open spec fn typing_step(c: CharacterView, dt: u64, d: CharDraw) -> Option<CharacterView> {
    let c1 = if c.frame_timer >= TYPE_FRAME_DURATION_MS {
        CharacterView {
            frame_timer: (c.frame_timer - TYPE_FRAME_DURATION_MS) as u64,
            frame: ((c.frame + 1) % 2) as u8,
            ..c
        }
    } else {
        c
    };
    if c1.is_active {
        Some(c1)
    } else {
        let c2 = CharacterView { seat_timer: counted_down(c1.seat_timer, dt), ..c1 };
        if c1.seat_timer <= dt {
            go_idle(c2, d)
        } else {
            Some(c2)
        }
    }
}

/// Sitting in the lounge: back to work when active; else up and idle when the seat timer
/// runs out.
pub open spec fn sitting_step(layout: &OfficeLayout, c: CharacterView, lounge: Seq<bool>, dt: u64, d: CharDraw) -> Option<
    (CharacterView, Seq<bool>),
> {
    let c0 = CharacterView { frame: 0, ..c };
    if c0.is_active {
        back_to_work(layout, c0, lounge, d)
    } else {
        let c1 = CharacterView { seat_timer: counted_down(c0.seat_timer, dt), ..c0 };
        if c0.seat_timer <= dt {
            let (c2, l2) = freed(c1, lounge);
            match go_idle(c2, d) {
                Some(c3) => Some((c3, l2)),
                None => None,
            }
        } else {
            Some((c1, lounge))
        }
    }
}

/// The lounge seats free to sit on.
pub open spec fn lounge_free(lounge: Seq<bool>) -> bool {
    exists|i: int| 0 <= i < lounge.len() && !lounge[i]
}

/// An idle character done wandering tries the lounge (with the drawn chance, on the drawn
/// free seat); `None` when it does not go there.
pub open spec fn to_lounge(layout: &OfficeLayout, c: CharacterView, lounge: Seq<bool>, d: CharDraw) -> Option<
    Option<(CharacterView, Seq<bool>)>,
> {
    if !d.sit || !lounge_free(lounge) {
        Some(None)
    } else if !(d.lounge_idx < lounge.len() && !lounge[d.lounge_idx as int]) {
        None
    } else {
        let seat = layout.lounge_seats@[d.lounge_idx as int];
        let pos = (c.col, c.row);
        if !path_found(layout, pos, (seat.col, seat.row), d.lounge_path) {
            None
        } else if d.lounge_path.len() > 0 && WANDER_MOVES_BEFORE_REST_MIN <= d.limit <= WANDER_MOVES_BEFORE_REST_MAX {
            Some(
                Some(
                    (
                        CharacterView {
                            lounge_seat: Some(d.lounge_idx),
                            wander_count: 0,
                            wander_limit: d.limit,
                            ..walking(c, d.lounge_path)
                        },
                        lounge.update(d.lounge_idx as int, true),
                    ),
                ),
            )
        } else if d.lounge_path.len() > 0 {
            None
        } else {
            Some(None)
        }
    }
}

/// An idle character whose wander timer ran out: when done wandering, the lounge or its
/// seat; else (or when neither can be reached) a walk of under `WANDER_PATH_LIMIT` steps
/// to a drawn wander spot, and a new pause.
pub open spec fn wander_step(
    layout: &OfficeLayout,
    spots: Seq<(u16, u16)>,
    c: CharacterView,
    lounge: Seq<bool>,
    d: CharDraw,
) -> Option<(CharacterView, Seq<bool>)> {
    let done = c.wander_count >= c.wander_limit;
    let lounge_try = if done { to_lounge(layout, c, lounge, d) } else { Some(None) };
    match lounge_try {
        None => None,
        Some(Some(r)) => Some(r),
        Some(None) => {
            let pos = (c.col, c.row);
            let seat = (c.seat_col, c.seat_row);
            if done && !path_found(layout, pos, seat, d.seat_path) {
                None
            } else if done && d.seat_path.len() > 0 {
                if WANDER_MOVES_BEFORE_REST_MIN <= d.limit <= WANDER_MOVES_BEFORE_REST_MAX {
                    Some((CharacterView { wander_count: 0, wander_limit: d.limit, ..walking(c, d.seat_path) }, lounge))
                } else {
                    None
                }
            } else {
                let c1 = if spots.len() == 0 {
                    Some(c)
                } else if !(d.wander_idx < spots.len()) {
                    None
                } else if !path_found(layout, pos, spots[d.wander_idx as int], d.wander_path) {
                    None
                } else if d.wander_path.len() > 0 && d.wander_path.len() < WANDER_PATH_LIMIT {
                    Some(
                        CharacterView {
                            wander_count: if c.wander_count < u32::MAX { (c.wander_count + 1) as u32 } else { c.wander_count },
                            ..walking(c, d.wander_path)
                        },
                    )
                } else {
                    Some(c)
                };
                match c1 {
                    Some(c2) => if WANDER_PAUSE_MIN_MS <= d.pause < WANDER_PAUSE_MAX_MS {
                        Some((CharacterView { wander_timer: d.pause, ..c2 }, lounge))
                    } else {
                        None
                    },
                    None => None,
                }
            }
        },
    }
}

/// Idle: back to work when active; else count down the wander timer and wander when it
/// runs out.
pub open spec fn idle_step(
    layout: &OfficeLayout,
    spots: Seq<(u16, u16)>,
    c: CharacterView,
    lounge: Seq<bool>,
    dt: u64,
    d: CharDraw,
) -> Option<(CharacterView, Seq<bool>)> {
    let c0 = CharacterView { frame: 0, ..c };
    if c0.is_active {
        back_to_work(layout, c0, lounge, d)
    } else {
        let c1 = CharacterView { wander_timer: counted_down(c0.wander_timer, dt), ..c0 };
        if c0.wander_timer <= dt {
            wander_step(layout, spots, c1, lounge, d)
        } else {
            Some((c1, lounge))
        }
    }
}

/// The direction of a step from `from` to `to`.
pub open spec fn step_dir(from: (u16, u16), to: (u16, u16), dir: Direction) -> Direction {
    if to.0 > from.0 {
        Direction::Right
    } else if to.0 < from.0 {
        Direction::Left
    } else if to.1 > from.1 {
        Direction::Down
    } else if to.1 < from.1 {
        Direction::Up
    } else {
        dir
    }
}

/// The end of a walk: sitting (at a lounge seat), typing (at its seat, resting when
/// inactive), or idle.
pub open spec fn walk_arrival(c: CharacterView, d: CharDraw) -> Option<CharacterView> {
    let pos = (c.col, c.row);
    let seat = (c.seat_col, c.seat_row);
    let arrived = if c.lounge_seat is Some {
        if LOUNGE_SIT_MIN_MS <= d.sit_time < LOUNGE_SIT_MAX_MS {
            Some(CharacterView { state: CharacterState::Sitting, dir: Direction::Down, seat_timer: d.sit_time, ..c })
        } else {
            None
        }
    } else if c.is_active && pos == seat {
        Some(CharacterView { state: CharacterState::Typing, dir: Direction::Up, ..c })
    } else if !c.is_active && pos == seat {
        if SEAT_REST_MIN_MS <= d.rest < SEAT_REST_MAX_MS {
            Some(CharacterView { state: CharacterState::Typing, dir: Direction::Up, seat_timer: d.rest, ..c })
        } else {
            None
        }
    } else {
        if WANDER_PAUSE_MIN_MS <= d.pause < WANDER_PAUSE_MAX_MS {
            Some(CharacterView { state: CharacterState::Idle, wander_timer: d.pause, ..c })
        } else {
            None
        }
    };
    match arrived {
        Some(c3) => Some(CharacterView { frame: 0, frame_timer: 0, ..c3 }),
        None => None,
    }
}

/// A step along the path once a whole tile's progress is made; a working character then
/// leaves the lounge and, unless its path ends at its seat, takes a path there.
pub open spec fn walk_advance(layout: &OfficeLayout, c: CharacterView, lounge: Seq<bool>, d: CharDraw) -> Option<
    (CharacterView, Seq<bool>),
> {
    let pos = (c.col, c.row);
    let seat = (c.seat_col, c.seat_row);
    let c3 = if c.move_progress >= TILE_MILLITILES {
        let next = c.path[0];
        CharacterView {
            move_progress: (c.move_progress - TILE_MILLITILES) as u64,
            dir: step_dir(pos, next, c.dir),
            col: next.0,
            row: next.1,
            path: c.path.drop_first(),
            ..c
        }
    } else {
        c
    };
    if c3.is_active {
        let (c4, l4) = freed(c3, lounge);
        let pos4 = (c4.col, c4.row);
        if c4.path.len() == 0 || c4.path.last() != seat {
            if !path_found(layout, pos4, seat, d.seat_path) {
                None
            } else if d.seat_path.len() > 0 {
                Some((CharacterView { path: d.seat_path, move_progress: 0, ..c4 }, l4))
            } else {
                Some((c4, l4))
            }
        } else {
            Some((c4, l4))
        }
    } else {
        Some((c3, lounge))
    }
}

/// The walking frame and progress after `dt`.
pub open spec fn walk_progress(c: CharacterView, dt: u64) -> CharacterView {
    let c1 = if c.frame_timer >= WALK_FRAME_DURATION_MS {
        CharacterView {
            frame_timer: (c.frame_timer - WALK_FRAME_DURATION_MS) as u64,
            frame: ((c.frame + 1) % 4) as u8,
            ..c
        }
    } else {
        c
    };
    let gain = if dt <= u64::MAX / WALK_SPEED_MILLITILES_PER_MS { dt * WALK_SPEED_MILLITILES_PER_MS } else { u64::MAX as int };
    let mp = if c1.move_progress + gain <= u64::MAX { (c1.move_progress + gain) as u64 } else { u64::MAX };
    CharacterView { move_progress: mp, ..c1 }
}

/// Walking: the frame turns every `WALK_FRAME_DURATION_MS` and the character advances
/// three tiles a second; at the end of its path it arrives.
pub open spec fn walking_step(layout: &OfficeLayout, c: CharacterView, lounge: Seq<bool>, dt: u64, d: CharDraw) -> Option<
    (CharacterView, Seq<bool>),
> {
    let c2 = walk_progress(c, dt);
    if c2.path.len() == 0 {
        match walk_arrival(c2, d) {
            Some(c3) => Some((c3, lounge)),
            None => None,
        }
    } else {
        walk_advance(layout, c2, lounge, d)
    }
}

/// One character's update after `dt` milliseconds, given the scene's wander spots and
/// lounge; `None` when the draw is not one the update could make.
pub open spec fn char_step(
    layout: &OfficeLayout,
    spots: Seq<(u16, u16)>,
    c: CharacterView,
    lounge: Seq<bool>,
    dt: u64,
    d: CharDraw,
) -> Option<(CharacterView, Seq<bool>)> {
    let ft = if c.frame_timer + dt <= u64::MAX { (c.frame_timer + dt) as u64 } else { u64::MAX };
    let c0 = CharacterView { frame_timer: ft, ..c };
    match c0.state {
        CharacterState::Typing | CharacterState::Reading => match typing_step(c0, dt, d) {
            Some(c1) => Some((c1, lounge)),
            None => None,
        },
        CharacterState::Sitting => sitting_step(layout, c0, lounge, dt, d),
        CharacterState::Idle => idle_step(layout, spots, c0, lounge, dt, d),
        CharacterState::Walking => walking_step(layout, c0, lounge, dt, d),
    }
}

/// A draw whose values are all in range and whose paths are empty.
pub open spec fn plain_draw() -> CharDraw {
    CharDraw {
        pause: WANDER_PAUSE_MIN_MS,
        limit: WANDER_MOVES_BEFORE_REST_MIN,
        sit: false,
        lounge_idx: 0,
        wander_idx: 0,
        rest: SEAT_REST_MIN_MS,
        sit_time: LOUNGE_SIT_MIN_MS,
        seat_path: Seq::empty(),
        lounge_path: Seq::empty(),
        wander_path: Seq::empty(),
    }
}

/// Draws a pause and a move count, and sets the character idle.
fn set_idle(ch: &mut Character) -> (g: Ghost<CharDraw>)
    ensures
        go_idle(old(ch)@, g@) == Some(final(ch)@),
        g@ == (CharDraw { pause: g@.pause, limit: g@.limit, ..plain_draw() }),
{
    ch.state = CharacterState::Idle;
    ch.frame = 0;
    ch.frame_timer = 0;
    let pause = random_u64(WANDER_PAUSE_MIN_MS, WANDER_PAUSE_MAX_MS);
    ch.wander_timer = pause;
    ch.wander_count = 0;
    let limit = random_u32_inclusive(WANDER_MOVES_BEFORE_REST_MIN, WANDER_MOVES_BEFORE_REST_MAX);
    ch.wander_limit = limit;
    Ghost(CharDraw { pause, limit, ..plain_draw() })
}

fn typing_update(ch: &mut Character, dt: u64) -> (g: Ghost<CharDraw>)
    ensures
        typing_step(old(ch)@, dt, g@) == Some(final(ch)@),
        final(ch).col == old(ch).col && final(ch).row == old(ch).row,
        final(ch).seat_col == old(ch).seat_col && final(ch).seat_row == old(ch).seat_row,
        final(ch)@.path == old(ch)@.path,
{
    if ch.frame_timer >= TYPE_FRAME_DURATION_MS {
        ch.frame_timer = ch.frame_timer - TYPE_FRAME_DURATION_MS;
        ch.frame = ((ch.frame as u16 + 1) % 2) as u8;
    }
    if !ch.is_active {
        let expired = ch.seat_timer <= dt;
        ch.seat_timer = ch.seat_timer.saturating_sub(dt);
        if expired {
            return set_idle(ch);
        }
    }
    Ghost(plain_draw())
}

impl Scene {
    /// Sends a working character back to its seat, leaving the lounge.
    fn return_to_work(&mut self, ch: &mut Character) -> (g: Ghost<CharDraw>)
        requires
            old(self).wf(),
            character_ok(&old(self).layout, old(ch)@),
        ensures
            final(self).wf(),
            final(self).characters == old(self).characters,
            final(self).layout == old(self).layout,
            final(self).wander_spots() == old(self).wander_spots(),
            final(self).next_palette == old(self).next_palette,
            final(self).next_seat == old(self).next_seat,
            back_to_work(&old(self).layout, old(ch)@, old(self)@.lounge, g@) == Some((final(ch)@, final(self)@.lounge)),
            character_ok(&old(self).layout, final(ch)@),
    {
        self.free_lounge_seat(ch);
        let path = find_path(ch.col, ch.row, ch.seat_col, ch.seat_row, &self.layout);
        let ghost p = path@;
        proof {
            lemma_route_in_grid(&self.layout, (ch.col, ch.row), (ch.seat_col, ch.seat_row), p);
        }
        if path.len() > 0 {
            ch.path = path;
            ch.state = CharacterState::Walking;
            ch.move_progress = 0;
        } else {
            ch.state = CharacterState::Typing;
            ch.dir = Direction::Up;
        }
        Ghost(CharDraw { seat_path: p, ..plain_draw() })
    }

    fn sitting_update(&mut self, ch: &mut Character, dt: u64) -> (g: Ghost<CharDraw>)
        requires
            old(self).wf(),
            character_ok(&old(self).layout, old(ch)@),
        ensures
            final(self).wf(),
            final(self).characters == old(self).characters,
            final(self).layout == old(self).layout,
            final(self).wander_spots() == old(self).wander_spots(),
            final(self).next_palette == old(self).next_palette,
            final(self).next_seat == old(self).next_seat,
            sitting_step(&old(self).layout, old(ch)@, old(self)@.lounge, dt, g@) == Some((final(ch)@, final(self)@.lounge)),
            character_ok(&old(self).layout, final(ch)@),
    {
        ch.frame = 0;
        if ch.is_active {
            return self.return_to_work(ch);
        }
        let expired = ch.seat_timer <= dt;
        ch.seat_timer = ch.seat_timer.saturating_sub(dt);
        if expired {
            self.free_lounge_seat(ch);
            return set_idle(ch);
        }
        Ghost(plain_draw())
    }
}

/// The end of a walk.
fn arrive(ch: &mut Character) -> (g: Ghost<CharDraw>)
    ensures
        walk_arrival(old(ch)@, g@) == Some(final(ch)@),
        final(ch).col == old(ch).col && final(ch).row == old(ch).row,
        final(ch).seat_col == old(ch).seat_col && final(ch).seat_row == old(ch).seat_row,
        final(ch)@.path == old(ch)@.path,
{
    let ghost mut d = plain_draw();
    if ch.lounge_seat.is_some() {
        ch.state = CharacterState::Sitting;
        ch.dir = Direction::Down;
        let t = random_u64(LOUNGE_SIT_MIN_MS, LOUNGE_SIT_MAX_MS);
        ch.seat_timer = t;
        proof {
            d = CharDraw { sit_time: t, ..d };
        }
    } else if ch.is_active && ch.col == ch.seat_col && ch.row == ch.seat_row {
        ch.state = CharacterState::Typing;
        ch.dir = Direction::Up;
    } else if !ch.is_active && ch.col == ch.seat_col && ch.row == ch.seat_row {
        ch.state = CharacterState::Typing;
        ch.dir = Direction::Up;
        let r = random_u64(SEAT_REST_MIN_MS, SEAT_REST_MAX_MS);
        ch.seat_timer = r;
        proof {
            d = CharDraw { rest: r, ..d };
        }
    } else {
        ch.state = CharacterState::Idle;
        let p = random_u64(WANDER_PAUSE_MIN_MS, WANDER_PAUSE_MAX_MS);
        ch.wander_timer = p;
        proof {
            d = CharDraw { pause: p, ..d };
        }
    }
    ch.frame = 0;
    ch.frame_timer = 0;
    Ghost(d)
}

impl Scene {
    /// Picks a free lounge seat at random: its index and cell.
    fn pick_lounge_seat(&self) -> (r: Option<(usize, u16, u16)>)
        requires
            self.wf(),
        ensures
            match r {
                None => !lounge_free(self@.lounge),
                Some((i, c, rw)) => {
                    &&& i < self@.lounge.len()
                    &&& !self@.lounge[i as int]
                    &&& c == self.layout.lounge_seats@[i as int].col
                    &&& rw == self.layout.lounge_seats@[i as int].row
                },
            },
    {
        let mut available: Vec<usize> = Vec::new();
        let mut i: usize = 0;
        while i < self.lounge_seat_occupied.len()
            invariant
                i <= self.lounge_seat_occupied@.len(),
                forall|k: int| 0 <= k < available@.len() ==> (#[trigger] available@[k]) < i && !self.lounge_seat_occupied@[available@[k] as int],
                available@.len() == 0 ==> forall|j: int| 0 <= j < i ==> self.lounge_seat_occupied@[j],
            decreases self.lounge_seat_occupied@.len() - i,
        {
            if !self.lounge_seat_occupied[i] {
                available.push(i);
            }
            i = i + 1;
        }
        if available.len() == 0 {
            return None;
        }
        let k = random_index(available.len());
        let idx = available[k];
        let seat = &self.layout.lounge_seats[idx];
        Some((idx, seat.col, seat.row))
    }

    /// An idle character whose wander timer ran out.
    #[verifier::rlimit(50)]
    fn wander_update(&mut self, ch: &mut Character) -> (g: Ghost<CharDraw>)
        requires
            old(self).wf(),
            character_ok(&old(self).layout, old(ch)@),
        ensures
            final(self).wf(),
            final(self).characters == old(self).characters,
            final(self).layout == old(self).layout,
            final(self).wander_spots() == old(self).wander_spots(),
            final(self).next_palette == old(self).next_palette,
            final(self).next_seat == old(self).next_seat,
            wander_step(&old(self).layout, old(self).wander_spots(), old(ch)@, old(self)@.lounge, g@) == Some(
                (final(ch)@, final(self)@.lounge),
            ),
            character_ok(&old(self).layout, final(ch)@),
    {
        let ghost mut d = plain_draw();
        let ghost c0 = ch@;
        if ch.wander_count >= ch.wander_limit {
            let sit = random_ratio(LOUNGE_SIT_CHANCE_NUM, LOUNGE_SIT_CHANCE_DEN);
            proof {
                d = CharDraw { sit, ..d };
            }
            if sit {
                match self.pick_lounge_seat() {
                    Some((idx, col, row)) => {
                        let path = find_path(ch.col, ch.row, col, row, &self.layout);
                        proof {
                            lemma_route_in_grid(&self.layout, (ch.col, ch.row), (col, row), path@);
                            d = CharDraw { lounge_idx: idx, lounge_path: path@, ..d };
                        }
                        if path.len() > 0 {
                            self.lounge_seat_occupied.set(idx, true);
                            ch.lounge_seat = Some(idx);
                            ch.path = path;
                            ch.state = CharacterState::Walking;
                            ch.move_progress = 0;
                            ch.wander_count = 0;
                            let limit = random_u32_inclusive(WANDER_MOVES_BEFORE_REST_MIN, WANDER_MOVES_BEFORE_REST_MAX);
                            ch.wander_limit = limit;
                            proof {
                                d = CharDraw { limit, ..d };
                            }
                            return Ghost(d);
                        }
                    },
                    None => {},
                }
            }
            let path = find_path(ch.col, ch.row, ch.seat_col, ch.seat_row, &self.layout);
            proof {
                lemma_route_in_grid(&self.layout, (ch.col, ch.row), (ch.seat_col, ch.seat_row), path@);
                d = CharDraw { seat_path: path@, ..d };
            }
            if path.len() > 0 {
                ch.path = path;
                ch.state = CharacterState::Walking;
                ch.move_progress = 0;
                ch.wander_count = 0;
                let limit = random_u32_inclusive(WANDER_MOVES_BEFORE_REST_MIN, WANDER_MOVES_BEFORE_REST_MAX);
                ch.wander_limit = limit;
                proof {
                    d = CharDraw { limit, ..d };
                }
                return Ghost(d);
            }
        }
        if self.walkable_tiles.len() > 0 {
            let k = random_index(self.walkable_tiles.len());
            let target = self.walkable_tiles[k];
            let path = find_path(ch.col, ch.row, target.0, target.1, &self.layout);
            proof {
                lemma_route_in_grid(&self.layout, (ch.col, ch.row), target, path@);
                d = CharDraw { wander_idx: k, wander_path: path@, ..d };
            }
            if path.len() > 0 && path.len() < WANDER_PATH_LIMIT {
                ch.path = path;
                ch.state = CharacterState::Walking;
                ch.move_progress = 0;
                ch.wander_count = ch.wander_count.saturating_add(1);
            }
        }
        let pause = random_u64(WANDER_PAUSE_MIN_MS, WANDER_PAUSE_MAX_MS);
        ch.wander_timer = pause;
        proof {
            d = CharDraw { pause, ..d };
        }
        Ghost(d)
    }

    fn idle_update(&mut self, ch: &mut Character, dt: u64) -> (g: Ghost<CharDraw>)
        requires
            old(self).wf(),
            character_ok(&old(self).layout, old(ch)@),
        ensures
            final(self).wf(),
            final(self).characters == old(self).characters,
            final(self).layout == old(self).layout,
            final(self).wander_spots() == old(self).wander_spots(),
            final(self).next_palette == old(self).next_palette,
            final(self).next_seat == old(self).next_seat,
            idle_step(&old(self).layout, old(self).wander_spots(), old(ch)@, old(self)@.lounge, dt, g@) == Some(
                (final(ch)@, final(self)@.lounge),
            ),
            character_ok(&old(self).layout, final(ch)@),
    {
        ch.frame = 0;
        if ch.is_active {
            return self.return_to_work(ch);
        }
        let expired = ch.wander_timer <= dt;
        ch.wander_timer = ch.wander_timer.saturating_sub(dt);
        if expired {
            return self.wander_update(ch);
        }
        Ghost(plain_draw())
    }

    fn walking_update(&mut self, ch: &mut Character, dt: u64) -> (g: Ghost<CharDraw>)
        requires
            old(self).wf(),
            character_ok(&old(self).layout, old(ch)@),
        ensures
            final(self).wf(),
            final(self).characters == old(self).characters,
            final(self).layout == old(self).layout,
            final(self).wander_spots() == old(self).wander_spots(),
            final(self).next_palette == old(self).next_palette,
            final(self).next_seat == old(self).next_seat,
            walking_step(&old(self).layout, old(ch)@, old(self)@.lounge, dt, g@) == Some((final(ch)@, final(self)@.lounge)),
            character_ok(&old(self).layout, final(ch)@),
    {
        if ch.frame_timer >= WALK_FRAME_DURATION_MS {
            ch.frame_timer = ch.frame_timer - WALK_FRAME_DURATION_MS;
            ch.frame = ((ch.frame as u16 + 1) % 4) as u8;
        }
        let gain: u64 = if dt <= u64::MAX / WALK_SPEED_MILLITILES_PER_MS {
            dt * WALK_SPEED_MILLITILES_PER_MS
        } else {
            u64::MAX
        };
        ch.move_progress = ch.move_progress.saturating_add(gain);
        if ch.path.len() == 0 {
            return arrive(ch);
        }
        self.advance(ch)
    }

    /// A step along the path, and a working character's way back to its seat.
    fn advance(&mut self, ch: &mut Character) -> (g: Ghost<CharDraw>)
        requires
            old(self).wf(),
            character_ok(&old(self).layout, old(ch)@),
            old(ch).path@.len() > 0,
        ensures
            final(self).wf(),
            final(self).characters == old(self).characters,
            final(self).layout == old(self).layout,
            final(self).wander_spots() == old(self).wander_spots(),
            final(self).next_palette == old(self).next_palette,
            final(self).next_seat == old(self).next_seat,
            walk_advance(&old(self).layout, old(ch)@, old(self)@.lounge, g@) == Some((final(ch)@, final(self)@.lounge)),
            character_ok(&old(self).layout, final(ch)@),
    {
        let ghost mut d = plain_draw();
        if ch.move_progress >= TILE_MILLITILES {
            ch.move_progress = ch.move_progress - TILE_MILLITILES;
            let next = ch.path[0];
            if next.0 > ch.col {
                ch.dir = Direction::Right;
            } else if next.0 < ch.col {
                ch.dir = Direction::Left;
            } else if next.1 > ch.row {
                ch.dir = Direction::Down;
            } else if next.1 < ch.row {
                ch.dir = Direction::Up;
            }
            assert(in_grid(&self.layout, ch.path@[0]));
            ch.col = next.0;
            ch.row = next.1;
            let ghost p0 = ch.path@;
            ch.path.remove(0);
            assert(ch.path@ =~= p0.drop_first());
        }
        if ch.is_active {
            self.free_lounge_seat(ch);
            let n = ch.path.len();
            let repath = n == 0 || ch.path[n - 1].0 != ch.seat_col || ch.path[n - 1].1 != ch.seat_row;
            if repath {
                let path = find_path(ch.col, ch.row, ch.seat_col, ch.seat_row, &self.layout);
                proof {
                    lemma_route_in_grid(&self.layout, (ch.col, ch.row), (ch.seat_col, ch.seat_row), path@);
                    d = CharDraw { seat_path: path@, ..d };
                }
                if path.len() > 0 {
                    ch.path = path;
                    ch.move_progress = 0;
                }
            }
        }
        Ghost(d)
    }
}

/// The characters in the given order, each updated with its draw.
pub open spec fn chars_step(
    s: SceneView,
    layout: &OfficeLayout,
    spots: Seq<(u16, u16)>,
    dt: u64,
    order: Seq<u32>,
    draws: Seq<CharDraw>,
) -> Option<SceneView>
    decreases order.len(),
{
    if order.len() != draws.len() {
        None
    } else if order.len() == 0 {
        Some(s)
    } else {
        match chars_step(s, layout, spots, dt, order.drop_last(), draws.drop_last()) {
            Some(s1) => {
                let id = order.last();
                if s1.characters.contains_key(id) {
                    match char_step(layout, spots, s1.characters[id], s1.lounge, dt, draws.last()) {
                        Some((c, l)) => Some(put(s1, id, c, l)),
                        None => None,
                    }
                } else {
                    Some(s1)
                }
            },
            None => None,
        }
    }
}

impl Scene {
    /// One character's update after `dt` milliseconds.
    fn update_character(&mut self, ch: &mut Character, dt: u64) -> (g: Ghost<CharDraw>)
        requires
            old(self).wf(),
            character_ok(&old(self).layout, old(ch)@),
        ensures
            final(self).wf(),
            final(self).characters == old(self).characters,
            final(self).layout == old(self).layout,
            final(self).wander_spots() == old(self).wander_spots(),
            final(self).next_palette == old(self).next_palette,
            final(self).next_seat == old(self).next_seat,
            char_step(&old(self).layout, old(self).wander_spots(), old(ch)@, old(self)@.lounge, dt, g@) == Some(
                (final(ch)@, final(self)@.lounge),
            ),
            character_ok(&old(self).layout, final(ch)@),
    {
        ch.frame_timer = ch.frame_timer.saturating_add(dt);
        match ch.state {
            CharacterState::Typing | CharacterState::Reading => typing_update(ch, dt),
            CharacterState::Sitting => self.sitting_update(ch, dt),
            CharacterState::Idle => self.idle_update(ch, dt),
            CharacterState::Walking => self.walking_update(ch, dt),
        }
    }

    /// Lets `dt` milliseconds pass for every character, in some order: the characters
    /// animate, walk, rest, wander and sit as `char_step` says.
    pub fn update(&mut self, dt: u64)
        requires
            old(self).wf(),
        ensures
            final(self).wf(),
            final(self).layout == old(self).layout,
            final(self).wander_spots() == old(self).wander_spots(),
            exists|order: Seq<u32>, draws: Seq<CharDraw>|
                order.no_duplicates() && order.to_set() == old(self)@.characters.dom() && chars_step(
                    old(self)@,
                    &old(self).layout,
                    old(self).wander_spots(),
                    dt,
                    order,
                    draws,
                ) == Some(final(self)@),
    {
        let ids = agent_ids(&self.characters);
        let ghost s0 = self@;
        let ghost spots = self.wander_spots();
        let ghost mut draws: Seq<CharDraw> = Seq::empty();
        let mut i: usize = 0;
        assert(ids@.take(0) =~= Seq::<u32>::empty());
        while i < ids.len()
            invariant
                self.wf(),
                self.layout == old(self).layout,
                self.wander_spots() == spots,
                spots == old(self).wander_spots(),
                i <= ids@.len(),
                draws.len() == i,
                chars_step(s0, &self.layout, spots, dt, ids@.take(i as int), draws) == Some(self@),
            decreases ids@.len() - i,
        {
            let id = ids[i];
            let ghost before = self@;
            let ghost d = plain_draw();
            if self.characters.contains_key(&id) {
                let ghost m = self.characters@;
                let mut ch = self.characters.remove(&id).unwrap();
                assert(character_ok(&self.layout, ch@));
                let g = self.update_character(&mut ch, dt);
                proof {
                    d = g@;
                    lemma_characters_reinsert(m, id, ch);
                }
                self.characters.insert(id, ch);
            }
            proof {
                assert(ids@.take(i + 1).drop_last() =~= ids@.take(i as int));
                assert(draws.push(d).drop_last() =~= draws);
                draws = draws.push(d);
            }
            i = i + 1;
        }
        proof {
            assert(ids@.take(ids@.len() as int) =~= ids@);
            assert(ids@.to_set() =~= s0.characters.dom()) by {
                assert forall|k: u32| ids@.to_set().contains(k) <==> s0.characters.dom().contains(k) by {
                    assert(ids@.to_set().contains(k) <==> ids@.contains(k));
                }
            }
        }
    }
}

// ── Laws ────────────────────────────────────────────────────────

proof fn lemma_ensured_has(s: SceneView, seats: Seq<Seat>, agents: Map<u32, AgentView>, id: u32, off: (i16, i16))
    ensures
        ensured(s, seats, agents, id, off).characters.contains_key(id),
        forall|k: u32| s.characters.contains_key(k) ==> #[trigger] ensured(s, seats, agents, id, off).characters.contains_key(k),
{
}

/// Handling events drops no character, and every agent that starts a tool or changes
/// status has a character afterwards.
pub proof fn law_events_give_characters(
    s: SceneView,
    layout: &OfficeLayout,
    agents: Map<u32, AgentView>,
    events: Seq<EventView>,
    draws: Seq<EventDraw>,
    s2: SceneView,
)
    requires
        events_step(s, layout, agents, events, draws) == Some(s2),
    ensures
        forall|k: u32| s.characters.contains_key(k) ==> #[trigger] s2.characters.contains_key(k),
        forall|i: int|
            0 <= i < events.len() ==> match #[trigger] events[i] {
                EventView::ToolStart { agent_id, .. } => s2.characters.contains_key(agent_id),
                EventView::StatusChange { agent_id, .. } => s2.characters.contains_key(agent_id),
                _ => true,
            },
    decreases events.len(),
{
    if events.len() > 0 {
        let s1 = events_step(s, layout, agents, events.drop_last(), draws.drop_last())->0;
        law_events_give_characters(s, layout, agents, events.drop_last(), draws.drop_last(), s1);
        let e = events.last();
        let d = draws.last();
        match e {
            EventView::ToolStart { agent_id, .. } => {
                lemma_ensured_has(s1, layout.seats@, agents, agent_id, d.off);
            },
            EventView::StatusChange { agent_id, .. } => {
                lemma_ensured_has(s1, layout.seats@, agents, agent_id, d.off);
            },
            _ => {},
        }
        assert forall|i: int| 0 <= i < events.len() implies match #[trigger] events[i] {
            EventView::ToolStart { agent_id, .. } => s2.characters.contains_key(agent_id),
            EventView::StatusChange { agent_id, .. } => s2.characters.contains_key(agent_id),
            _ => true,
        } by {
            if i < events.len() - 1 {
                assert(events[i] == events.drop_last()[i]);
                match events[i] {
                    EventView::ToolStart { agent_id, .. } => {
                        match e {
                            EventView::ToolStart { agent_id: a2, .. } => lemma_ensured_has(s1, layout.seats@, agents, a2, d.off),
                            EventView::StatusChange { agent_id: a2, .. } => lemma_ensured_has(s1, layout.seats@, agents, a2, d.off),
                            _ => {},
                        }
                    },
                    EventView::StatusChange { agent_id, .. } => {
                        match e {
                            EventView::ToolStart { agent_id: a2, .. } => lemma_ensured_has(s1, layout.seats@, agents, a2, d.off),
                            EventView::StatusChange { agent_id: a2, .. } => lemma_ensured_has(s1, layout.seats@, agents, a2, d.off),
                            _ => {},
                        }
                    },
                    _ => {},
                }
            }
        }
    }
}

/// A subagent's new character sits beside its parent's (at most three columns and two
/// rows away), wears the parent's palette and shares its desk.
pub proof fn law_subagent_beside_parent(
    s: SceneView,
    seats: Seq<Seat>,
    agents: Map<u32, AgentView>,
    id: u32,
    pid: u32,
    off: (i16, i16),
)
    requires
        !s.characters.contains_key(id),
        agents.contains_key(id),
        agents[id].is_subagent,
        agents[id].parent_id == Some(pid),
        s.characters.contains_key(pid),
        s.characters[pid].seat_col <= MAX_COORD,
        s.characters[pid].seat_row <= MAX_COORD,
        offset_ok(off),
    ensures
        ({
            let c = ensured(s, seats, agents, id, off).characters[id];
            let p = s.characters[pid];
            &&& c.palette == p.palette
            &&& c.is_subagent
            &&& c.desk_col == p.desk_col && c.desk_row == p.desk_row
            &&& -3 <= c.seat_col - p.seat_col <= 3
            &&& -2 <= c.seat_row - p.seat_row <= 2
        }),
{
}

/// A character that has work while idle or sitting leaves the lounge and heads for its
/// seat along a shortest route; with no route (or at its seat already) it types.
pub proof fn law_work_calls_to_seat(
    layout: &OfficeLayout,
    spots: Seq<(u16, u16)>,
    c: CharacterView,
    lounge: Seq<bool>,
    dt: u64,
    d: CharDraw,
    c2: CharacterView,
    l2: Seq<bool>,
)
    requires
        c.is_active,
        c.state == CharacterState::Idle || c.state == CharacterState::Sitting,
        char_step(layout, spots, c, lounge, dt, d) == Some((c2, l2)),
    ensures
        c2.lounge_seat is None,
        c2.state == CharacterState::Walking ==> crate::pathfinding::is_shortest_route(
            layout,
            (c.col, c.row),
            (c.seat_col, c.seat_row),
            c2.path,
        ),
        c2.state == CharacterState::Walking || (c2.state == CharacterState::Typing && c2.dir == Direction::Up),
{
}

/// A character takes only a free lounge seat, and marks it taken.
pub proof fn law_lounge_seat_taken_was_free(
    layout: &OfficeLayout,
    spots: Seq<(u16, u16)>,
    c: CharacterView,
    lounge: Seq<bool>,
    dt: u64,
    d: CharDraw,
    c2: CharacterView,
    l2: Seq<bool>,
    i: usize,
)
    requires
        c.lounge_seat is None,
        char_step(layout, spots, c, lounge, dt, d) == Some((c2, l2)),
        c2.lounge_seat == Some(i),
    ensures
        i < lounge.len(),
        !lounge[i as int],
        l2[i as int],
{
}

/// A character's lounge seat, where it holds one, is one of the lounge's, is marked taken,
/// and is held only while the character walks there or sits on it.
pub open spec fn lounge_seat_ok(c: CharacterView, lounge: Seq<bool>) -> bool {
    c.lounge_seat matches Some(i) ==> i < lounge.len() && lounge[i as int] && (c.state
        == CharacterState::Walking || c.state == CharacterState::Sitting)
}

/// The lounge's marks agree with the characters: each holder's seat is marked, no seat has
/// two holders, and every marked seat has a holder.
pub open spec fn lounge_agrees(chars: Map<u32, CharacterView>, lounge: Seq<bool>) -> bool {
    &&& forall|k: u32| #[trigger] chars.contains_key(k) ==> lounge_seat_ok(chars[k], lounge)
    &&& forall|k1: u32, k2: u32|
        #![trigger chars[k1], chars[k2]]
        chars.contains_key(k1) && chars.contains_key(k2) && k1 != k2 && chars[k1].lounge_seat is Some
            ==> chars[k2].lounge_seat != chars[k1].lounge_seat
    &&& forall|i: usize|
        i < lounge.len() && #[trigger] lounge[i as int] ==> exists|k: u32|
            chars.contains_key(k) && #[trigger] chars[k].lounge_seat == Some(i)
}

/// What one update does to a character's lounge seat: nothing; or it leaves its seat,
/// which is freed; or it takes a free seat and walks there.
proof fn lemma_step_lounge(
    layout: &OfficeLayout,
    spots: Seq<(u16, u16)>,
    c: CharacterView,
    lounge: Seq<bool>,
    dt: u64,
    d: CharDraw,
    c2: CharacterView,
    l2: Seq<bool>,
)
    requires
        lounge_seat_ok(c, lounge),
        char_step(layout, spots, c, lounge, dt, d) == Some((c2, l2)),
    ensures
        ({
            ||| l2 == lounge && c2.lounge_seat == c.lounge_seat && lounge_seat_ok(c2, l2)
            ||| c.lounge_seat is Some && c2.lounge_seat is None && l2 == lounge.update(c.lounge_seat->0 as int, false)
            ||| c.lounge_seat is None && c2.lounge_seat is Some && c2.lounge_seat->0 < lounge.len()
                && !lounge[c2.lounge_seat->0 as int] && l2 == lounge.update(c2.lounge_seat->0 as int, true)
                && c2.state == CharacterState::Walking
        }),
{
}

/// One character's update keeps the lounge's marks in agreement with the characters: no
/// lounge seat ends up held twice, or marked taken without a holder.
pub proof fn law_lounge_marks_follow_holders(
    layout: &OfficeLayout,
    spots: Seq<(u16, u16)>,
    chars: Map<u32, CharacterView>,
    id: u32,
    lounge: Seq<bool>,
    dt: u64,
    d: CharDraw,
    c2: CharacterView,
    l2: Seq<bool>,
)
    requires
        lounge_agrees(chars, lounge),
        chars.contains_key(id),
        char_step(layout, spots, chars[id], lounge, dt, d) == Some((c2, l2)),
    ensures
        lounge_agrees(chars.insert(id, c2), l2),
{
    let c = chars[id];
    assert(lounge_seat_ok(c, lounge));
    lemma_step_lounge(layout, spots, c, lounge, dt, d, c2, l2);
    let m = chars.insert(id, c2);
    assert forall|k: u32| #[trigger] m.contains_key(k) implies lounge_seat_ok(m[k], l2) by {
        if k != id {
            assert(lounge_seat_ok(chars[k], lounge));
            if let Some(i) = chars[k].lounge_seat {
                if c.lounge_seat == Some(i) {
                    assert(chars[id] == c);
                }
            }
        }
    }
    assert forall|k1: u32, k2: u32|
        #![trigger m[k1], m[k2]]
        m.contains_key(k1) && m.contains_key(k2) && k1 != k2 && m[k1].lounge_seat is Some
            implies m[k2].lounge_seat != m[k1].lounge_seat by {
        if k1 == id {
            assert(chars[k2] == m[k2]);
            if c2.lounge_seat != c.lounge_seat {
                let i = c2.lounge_seat->0;
                if chars[k2].lounge_seat == Some(i) {
                    assert(lounge_seat_ok(chars[k2], lounge));
                }
            }
        } else if k2 == id {
            assert(chars[k1] == m[k1]);
            if c2.lounge_seat != c.lounge_seat {
                assert(lounge_seat_ok(chars[k1], lounge));
            }
        } else {
            assert(chars[k1] == m[k1] && chars[k2] == m[k2]);
        }
    }
    assert forall|i: usize| i < l2.len() && #[trigger] l2[i as int] implies exists|k: u32|
        m.contains_key(k) && #[trigger] m[k].lounge_seat == Some(i) by {
        assert(l2.len() == lounge.len());
        if c2.lounge_seat == Some(i) {
            assert(m.contains_key(id) && m[id].lounge_seat == Some(i));
        } else {
            assert(lounge[i as int]);
            let k = choose|k: u32| chars.contains_key(k) && #[trigger] chars[k].lounge_seat == Some(i);
            if k == id {
                assert(c.lounge_seat == Some(i));
                assert(false);
            } else {
                assert(m[k] == chars[k]);
                assert(m.contains_key(k) && m[k].lounge_seat == Some(i));
            }
        }
    }
}

/// Clearing an agent's activity stops its character working: once the events are
/// handled, a character of the agent whose last event was `ClearActivity` is not active,
/// has no tool and shows "Idle", and it is where it was, with the lounge as it was.
pub proof fn law_clear_activity_stops_work(
    s: SceneView,
    layout: &OfficeLayout,
    agents: Map<u32, AgentView>,
    events: Seq<EventView>,
    draws: Seq<EventDraw>,
    s2: SceneView,
    id: u32,
)
    requires
        events.len() > 0,
        events.last() == (EventView::ClearActivity { agent_id: id }),
        events_step(s, layout, agents, events, draws) == Some(s2),
        s2.characters.contains_key(id),
    ensures
        !s2.characters[id].is_active,
        s2.characters[id].current_tool is None,
        s2.characters[id].status_text == "Idle"@,
        exists|s1: SceneView|
            events_step(s, layout, agents, events.drop_last(), draws.drop_last()) == Some(s1)
                && s1.characters.contains_key(id)
                && s2.lounge == s1.lounge
                && s2.characters[id].col == s1.characters[id].col
                && s2.characters[id].row == s1.characters[id].row
                && s2.characters[id].state == s1.characters[id].state
                && s2.characters[id].seat_col == s1.characters[id].seat_col
                && s2.characters[id].seat_row == s1.characters[id].seat_row,
{
    let s1 = events_step(s, layout, agents, events.drop_last(), draws.drop_last())->0;
    assert(events_step(s, layout, agents, events.drop_last(), draws.drop_last()) == Some(s1));
    assert(event_step(s1, layout, agents, events.last(), draws.last()) == Some(s2));
    assert(s1.characters.contains_key(id));
    assert(s2.lounge == s1.lounge);
    assert(s2.characters[id].col == s1.characters[id].col);
}

/// A walking character whose path has ended on its own seat (not headed for a lounge
/// chair) settles at its desk facing up: it types; and when it is not active it rests
/// there for a drawn time of at least `SEAT_REST_MIN_MS` and under `SEAT_REST_MAX_MS`.
/// The lounge and its place are unchanged.
pub proof fn law_arrival_at_seat_settles_at_desk(
    layout: &OfficeLayout,
    spots: Seq<(u16, u16)>,
    c: CharacterView,
    lounge: Seq<bool>,
    dt: u64,
    d: CharDraw,
    c2: CharacterView,
    l2: Seq<bool>,
)
    requires
        c.state == CharacterState::Walking,
        c.path.len() == 0,
        c.lounge_seat is None,
        c.col == c.seat_col,
        c.row == c.seat_row,
        char_step(layout, spots, c, lounge, dt, d) == Some((c2, l2)),
    ensures
        c2.state == CharacterState::Typing,
        c2.dir == Direction::Up,
        l2 == lounge,
        c2.col == c.col && c2.row == c.row,
        !c.is_active ==> SEAT_REST_MIN_MS <= c2.seat_timer < SEAT_REST_MAX_MS,
{
}

} // verus!
