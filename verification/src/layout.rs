use vstd::prelude::*;

verus! {

/// Tile types for the office grid.
#[derive(Debug, Clone, Copy, PartialEq, Eq, Structural)]
pub enum Tile {
    /// Outside the building.
    Void,
    /// Impassable wall.
    Wall,
    /// Standard walkable floor (work room).
    Floor,
    /// Walkable corridor.
    Corridor,
    /// Lounge floor.
    Carpet,
    /// Snack bar tiled floor.
    TileFloor,
}

/// Whether a tile kind can be walked on.
pub open spec fn tile_walkable(t: Tile) -> bool {
    match t {
        Tile::Floor | Tile::Corridor | Tile::Carpet | Tile::TileFloor => true,
        Tile::Void | Tile::Wall => false,
    }
}

impl Tile {
    pub fn is_walkable(self) -> (r: bool)
        ensures
            r == tile_walkable(self),
    {
        match self {
            Tile::Floor | Tile::Corridor | Tile::Carpet | Tile::TileFloor => true,
            Tile::Void | Tile::Wall => false,
        }
    }
}

/// Furniture placed in the office.
#[derive(Debug, Clone, Copy, PartialEq, Eq, Structural)]
pub struct Furniture {
    pub kind: FurnitureKind,
    pub col: u16,
    pub row: u16,
}

#[derive(Debug, Clone, Copy, PartialEq, Eq, Structural)]
pub enum FurnitureKind {
    Desk,
    Chair,
    Bookshelf,
    Plant,
    WaterCooler,
    Whiteboard,
    RoundTable,
    Couch,
    VendingMachine,
    Counter,
    Lamp,
    Monitor,
}

/// Width x height of a piece of furniture, in grid cells.
pub open spec fn footprint(k: FurnitureKind) -> (u16, u16) {
    match k {
        FurnitureKind::Desk => (8, 3),
        FurnitureKind::Chair => (3, 1),
        FurnitureKind::Bookshelf => (4, 3),
        FurnitureKind::Plant => (2, 2),
        FurnitureKind::WaterCooler => (3, 2),
        FurnitureKind::Whiteboard => (10, 2),
        FurnitureKind::RoundTable => (6, 2),
        FurnitureKind::Couch => (8, 2),
        FurnitureKind::VendingMachine => (4, 3),
        FurnitureKind::Counter => (8, 2),
        FurnitureKind::Lamp => (1, 2),
        FurnitureKind::Monitor => (2, 1),
    }
}

impl FurnitureKind {
    /// Width x Height in terminal cells.
    pub fn size(self) -> (r: (u16, u16))
        ensures
            r == footprint(self),
    {
        match self {
            FurnitureKind::Desk => (8, 3),
            FurnitureKind::Chair => (3, 1),
            FurnitureKind::Bookshelf => (4, 3),
            FurnitureKind::Plant => (2, 2),
            FurnitureKind::WaterCooler => (3, 2),
            FurnitureKind::Whiteboard => (10, 2),
            FurnitureKind::RoundTable => (6, 2),
            FurnitureKind::Couch => (8, 2),
            FurnitureKind::VendingMachine => (4, 3),
            FurnitureKind::Counter => (8, 2),
            FurnitureKind::Lamp => (1, 2),
            FurnitureKind::Monitor => (2, 1),
        }
    }

    pub fn is_desk(self) -> (r: bool)
        ensures
            r == (self == FurnitureKind::Desk),
    {
        match self {
            FurnitureKind::Desk => true,
            _ => false,
        }
    }
}

/// Whether the footprint of `f` covers the cell (col, row).
pub open spec fn covers(f: Furniture, col: int, row: int) -> bool {
    &&& f.col <= col < f.col + footprint(f.kind).0
    &&& f.row <= row < f.row + footprint(f.kind).1
}

/// Seat position where an agent can sit at a desk.
#[derive(Debug, Clone, Copy, PartialEq, Eq, Structural)]
pub struct Seat {
    pub col: u16,
    pub row: u16,
    pub desk_col: u16,
    pub desk_row: u16,
}

/// A chair in the lounge where idle agents can sit.
#[derive(Debug, Clone, Copy, PartialEq, Eq, Structural)]
pub struct LoungeSeat {
    pub col: u16,
    pub row: u16,
}

/// The complete office layout.
///
/// `tiles[row][col]` is the tile of a cell and `blocked[row][col]` says whether
/// furniture stands on it; both grids are `rows` x `cols`.
pub struct OfficeLayout {
    pub cols: u16,
    pub rows: u16,
    pub tiles: Vec<Vec<Tile>>,
    pub furniture: Vec<Furniture>,
    pub seats: Vec<Seat>,
    pub lounge_seats: Vec<LoungeSeat>,
    pub blocked: Vec<Vec<bool>>,
    pub room_labels: Vec<(u16, u16, &'static str)>,
}

/// A `rows` x `cols` grid.
pub open spec fn grid_dims<T>(g: Seq<Vec<T>>, cols: int, rows: int) -> bool {
    &&& g.len() == rows
    &&& forall|r: int| 0 <= r < rows ==> #[trigger] g[r]@.len() == cols
}

impl OfficeLayout {
    /// Both grids have the dimensions that `cols` and `rows` give.
    pub open spec fn wf(&self) -> bool {
        &&& grid_dims(self.tiles@, self.cols as int, self.rows as int)
        &&& grid_dims(self.blocked@, self.cols as int, self.rows as int)
    }

    /// The tile at (col, row); `Void` outside the grid.
    pub open spec fn tile_at(&self, col: int, row: int) -> Tile {
        if 0 <= row < self.rows && 0 <= col < self.cols {
            self.tiles@[row]@[col]
        } else {
            Tile::Void
        }
    }

    /// Whether (col, row) is a walkable tile that no furniture blocks.
    pub open spec fn walkable_at(&self, col: int, row: int) -> bool {
        &&& tile_walkable(self.tile_at(col, row))
        &&& 0 <= row < self.rows && 0 <= col < self.cols
        &&& !self.blocked@[row]@[col]
    }

    pub fn get_tile(&self, col: u16, row: u16) -> (t: Tile)
        requires
            self.wf(),
        ensures
            t == self.tile_at(col as int, row as int),
    {
        if row < self.rows && col < self.cols {
            self.tiles[row as usize][col as usize]
        } else {
            Tile::Void
        }
    }

    pub fn is_walkable(&self, col: u16, row: u16) -> (b: bool)
        requires
            self.wf(),
        ensures
            b == self.walkable_at(col as int, row as int),
    {
        self.get_tile(col, row).is_walkable() && !(row < self.rows && col < self.cols
            && self.blocked[row as usize][col as usize])
    }
}

// ── The office plan ──────────────────────────────────────────────

/// Number of columns of the office grid.
pub const OFFICE_COLS: u16 = 86;

/// Number of rows of the office grid.
pub const OFFICE_ROWS: u16 = 38;

/// The tile at (col, row) of the office plan, room by room: the outer wall;
/// the Lounge (rows 22-36, and cols 52-84 down from row 16); the Work Room
/// (cols 1-50, rows 1-20) with its bottom wall (row 21, door at cols 24-25)
/// and its right wall (col 51, door at rows 7-8); the Snack Bar (cols 52-84,
/// rows 1-14) with its bottom wall (row 15, door at cols 68-69).
pub open spec fn office_tile(col: int, row: int) -> Tile {
    if !(0 <= col < 86 && 0 <= row < 38) {
        Tile::Void
    } else if row == 0 || row == 37 || col == 0 || col == 85 {
        Tile::Wall
    } else if row >= 22 {
        Tile::Carpet
    } else if col <= 50 {
        if row <= 20 {
            Tile::Floor
        } else if col == 24 || col == 25 {
            Tile::Floor
        } else {
            Tile::Wall
        }
    } else if col == 51 {
        if row == 7 || row == 8 {
            Tile::Floor
        } else {
            Tile::Wall
        }
    } else if row <= 14 {
        Tile::TileFloor
    } else if row == 15 {
        if col == 68 || col == 69 {
            Tile::TileFloor
        } else {
            Tile::Wall
        }
    } else {
        Tile::Carpet
    }
}

/// The six desk positions of the work room, in the order they are used.
pub open spec fn desk_slots() -> Seq<(u16, u16)> {
    seq![(4u16, 2u16), (24, 2), (4, 8), (24, 8), (4, 14), (24, 14)]
}

/// How many desks an office for `agent_count` agents gets: at least 2, at most 6.
pub open spec fn desk_count(agent_count: int) -> int {
    if agent_count < 2 {
        2
    } else if agent_count > 6 {
        6
    } else {
        agent_count
    }
}

/// The furniture that every office has, after its desks.
pub open spec fn fixed_furniture() -> Seq<Furniture> {
    seq![
        Furniture { kind: FurnitureKind::Plant, col: 1, row: 1 },
        Furniture { kind: FurnitureKind::Plant, col: 49, row: 1 },
        Furniture { kind: FurnitureKind::Plant, col: 1, row: 19 },
        Furniture { kind: FurnitureKind::VendingMachine, col: 54, row: 1 },
        Furniture { kind: FurnitureKind::VendingMachine, col: 60, row: 1 },
        Furniture { kind: FurnitureKind::Counter, col: 70, row: 1 },
        Furniture { kind: FurnitureKind::RoundTable, col: 56, row: 7 },
        Furniture { kind: FurnitureKind::RoundTable, col: 70, row: 7 },
        Furniture { kind: FurnitureKind::Plant, col: 82, row: 1 },
        Furniture { kind: FurnitureKind::Plant, col: 54, row: 12 },
        Furniture { kind: FurnitureKind::Couch, col: 4, row: 23 },
        Furniture { kind: FurnitureKind::Couch, col: 4, row: 28 },
        Furniture { kind: FurnitureKind::Couch, col: 4, row: 33 },
        Furniture { kind: FurnitureKind::Couch, col: 30, row: 23 },
        Furniture { kind: FurnitureKind::Couch, col: 56, row: 23 },
        Furniture { kind: FurnitureKind::RoundTable, col: 16, row: 25 },
        Furniture { kind: FurnitureKind::RoundTable, col: 42, row: 25 },
        Furniture { kind: FurnitureKind::RoundTable, col: 68, row: 25 },
        Furniture { kind: FurnitureKind::Bookshelf, col: 78, row: 22 },
        Furniture { kind: FurnitureKind::WaterCooler, col: 50, row: 22 },
        Furniture { kind: FurnitureKind::Lamp, col: 14, row: 22 },
        Furniture { kind: FurnitureKind::Lamp, col: 40, row: 22 },
        Furniture { kind: FurnitureKind::Lamp, col: 66, row: 22 },
        Furniture { kind: FurnitureKind::Plant, col: 1, row: 35 },
        Furniture { kind: FurnitureKind::Plant, col: 82, row: 35 },
        Furniture { kind: FurnitureKind::Plant, col: 82, row: 22 },
    ]
}

/// A desk standing at `slot`.
pub open spec fn desk_at(slot: (u16, u16)) -> Furniture {
    Furniture { kind: FurnitureKind::Desk, col: slot.0, row: slot.1 }
}

/// The seat in front of the desk at `slot`: centred below it.
pub open spec fn seat_for(slot: (u16, u16)) -> Seat {
    Seat {
        col: (slot.0 + 4) as u16,
        row: (slot.1 + 4) as u16,
        desk_col: slot.0,
        desk_row: slot.1,
    }
}

/// The furniture of an office for `agent_count` agents: its desks, then the fixed pieces.
pub open spec fn office_furniture(agent_count: int) -> Seq<Furniture> {
    desk_slots().take(desk_count(agent_count)).map_values(|s: (u16, u16)| desk_at(s))
        + fixed_furniture()
}

/// The lounge chairs of every office.
pub open spec fn office_lounge_seats() -> Seq<LoungeSeat> {
    seq![
        LoungeSeat { col: 14, row: 24 },
        LoungeSeat { col: 16, row: 24 },
        LoungeSeat { col: 38, row: 24 },
        LoungeSeat { col: 40, row: 24 },
        LoungeSeat { col: 64, row: 24 },
        LoungeSeat { col: 66, row: 24 },
        LoungeSeat { col: 14, row: 29 },
        LoungeSeat { col: 16, row: 29 },
        LoungeSeat { col: 14, row: 34 },
        LoungeSeat { col: 16, row: 34 },
        LoungeSeat { col: 30, row: 30 },
        LoungeSeat { col: 50, row: 30 },
        LoungeSeat { col: 70, row: 30 },
        LoungeSeat { col: 30, row: 34 },
        LoungeSeat { col: 60, row: 34 },
    ]
}


/// A `rows` x `cols` grid holding `value` in every cell.
fn uniform_grid<T: Copy>(cols: u16, rows: u16, value: T) -> (g: Vec<Vec<T>>)
    ensures
        grid_dims(g@, cols as int, rows as int),
        forall|r: int, c: int| 0 <= r < rows && 0 <= c < cols ==> #[trigger] g@[r]@[c] == value,
{
    let mut g: Vec<Vec<T>> = Vec::new();
    let mut r: u16 = 0;
    while r < rows
        invariant
            r <= rows,
            grid_dims(g@, cols as int, r as int),
            forall|i: int, c: int| 0 <= i < r && 0 <= c < cols ==> #[trigger] g@[i]@[c] == value,
        decreases rows - r,
    {
        let mut line: Vec<T> = Vec::new();
        let mut c: u16 = 0;
        while c < cols
            invariant
                c <= cols,
                line@.len() == c,
                forall|j: int| 0 <= j < c ==> #[trigger] line@[j] == value,
            decreases cols - c,
        {
            line.push(value);
            c = c + 1;
        }
        g.push(line);
        r = r + 1;
    }
    g
}

/// Sets every cell of the rectangle [c1, c2] x [r1, r2] of `grid` to `value`.
fn fill<T: Copy>(grid: &mut Vec<Vec<T>>, cols: u16, rows: u16, c1: u16, r1: u16, c2: u16, r2: u16, value: T)
    requires
        grid_dims(old(grid)@, cols as int, rows as int),
        c1 <= c2 < cols,
        r1 <= r2 < rows,
    ensures
        grid_dims(final(grid)@, cols as int, rows as int),
        forall|r: int, c: int|
            0 <= r < rows && 0 <= c < cols ==> #[trigger] final(grid)@[r]@[c] == if r1 <= r <= r2
                && c1 <= c <= c2 {
                value
            } else {
                old(grid)@[r]@[c]
            },
{
    let ghost start = grid@;
    let mut r: u32 = r1 as u32;
    while r <= r2 as u32
        invariant
            r1 <= r <= r2 + 1,
            r2 < rows,
            c1 <= c2 < cols,
            grid_dims(grid@, cols as int, rows as int),
            grid_dims(start, cols as int, rows as int),
            forall|i: int, c: int|
                0 <= i < rows && 0 <= c < cols ==> #[trigger] grid@[i]@[c] == if r1 <= i < r
                    && c1 <= c <= c2 {
                    value
                } else {
                    start[i]@[c]
                },
        decreases r2 + 1 - r,
    {
        let mut line: Vec<T> = Vec::new();
        let mut c: u16 = 0;
        while c < cols
            invariant
                c <= cols,
                0 <= r < rows,
                grid_dims(grid@, cols as int, rows as int),
                line@.len() == c,
                forall|j: int|
                    0 <= j < c ==> #[trigger] line@[j] == if c1 <= j <= c2 {
                        value
                    } else {
                        grid@[r as int]@[j]
                    },
            decreases cols - c,
        {
            if c1 <= c && c <= c2 {
                line.push(value);
            } else {
                line.push(grid[r as usize][c as usize]);
            }
            c = c + 1;
        }
        grid.set(r as usize, line);
        r = r + 1;
    }
}

/// Calculate desk positions in the work room based on agent count.
/// Work room spans cols 1-50, rows 1-20.
/// Desks are 8x3, laid out in 2 columns x 3 rows.
fn place_desks(agent_count: usize) -> (r: Vec<(u16, u16)>)
    ensures
        r@ == desk_slots().take(desk_count(agent_count as int)),
{
    let positions: [(u16, u16); 6] = [(4, 2), (24, 2), (4, 8), (24, 8), (4, 14), (24, 14)];
    let count: usize = if agent_count < 2 {
        2
    } else if agent_count > 6 {
        6
    } else {
        agent_count
    };
    let mut out: Vec<(u16, u16)> = Vec::new();
    let mut i: usize = 0;
    while i < count
        invariant
            count == desk_count(agent_count as int),
            i <= count <= 6,
            positions@ == desk_slots(),
            out@ == desk_slots().take(i as int),
        decreases count - i,
    {
        out.push(positions[i]);
        i = i + 1;
        assert(out@ =~= desk_slots().take(i as int));
    }
    out
}


/// Every piece of furniture of an office fits inside the grid.
proof fn lemma_furniture_fits(agent_count: int)
    ensures
        forall|i: int|
            0 <= i < office_furniture(agent_count).len() ==> {
                let f = #[trigger] office_furniture(agent_count)[i];
                &&& 1 <= footprint(f.kind).0
                &&& 1 <= footprint(f.kind).1
                &&& f.col + footprint(f.kind).0 <= 86
                &&& f.row + footprint(f.kind).1 <= 38
            },
{
    let n = desk_count(agent_count);
    let desks = desk_slots().take(n).map_values(|s: (u16, u16)| desk_at(s));
    assert forall|i: int| 0 <= i < office_furniture(agent_count).len() implies {
        let f = #[trigger] office_furniture(agent_count)[i];
        &&& 1 <= footprint(f.kind).0
        &&& 1 <= footprint(f.kind).1
        &&& f.col + footprint(f.kind).0 <= 86
        &&& f.row + footprint(f.kind).1 <= 38
    } by {
        if i < n {
            assert(office_furniture(agent_count)[i] == desk_at(desk_slots()[i]));
        } else {
            assert(office_furniture(agent_count)[i] == fixed_furniture()[i - n]);
        }
    }
}

/// No piece of furniture stands on the seat of any desk.
proof fn lemma_seats_free(agent_count: int, k: int)
    requires
        0 <= k < desk_count(agent_count),
    ensures
        forall|i: int|
            0 <= i < office_furniture(agent_count).len() ==> !covers(
                #[trigger] office_furniture(agent_count)[i],
                seat_for(desk_slots()[k]).col as int,
                seat_for(desk_slots()[k]).row as int,
            ),
{
    let n = desk_count(agent_count);
    assert forall|i: int| 0 <= i < office_furniture(agent_count).len() implies !covers(
        #[trigger] office_furniture(agent_count)[i],
        seat_for(desk_slots()[k]).col as int,
        seat_for(desk_slots()[k]).row as int,
    ) by {
        if i < n {
            assert(office_furniture(agent_count)[i] == desk_at(desk_slots()[i]));
        } else {
            assert(office_furniture(agent_count)[i] == fixed_furniture()[i - n]);
        }
    }
}

/// Every desk's seat lies on the work room's floor and no furniture stands on it: a
/// character can always sit down at its desk.
pub proof fn law_seats_are_free(agent_count: int, k: int)
    requires
        0 <= k < desk_count(agent_count),
    ensures
        tile_walkable(office_tile(seat_for(desk_slots()[k]).col as int, seat_for(desk_slots()[k]).row as int)),
        forall|i: int|
            0 <= i < office_furniture(agent_count).len() ==> !covers(
                #[trigger] office_furniture(agent_count)[i],
                seat_for(desk_slots()[k]).col as int,
                seat_for(desk_slots()[k]).row as int,
            ),
{
    lemma_seats_free(agent_count, k);
}

/// `o` is the office laid out for `agent_count` agents: the plan's tiles, its furniture
/// (blocking the cells it covers), its desk seats and its lounge chairs.
pub open spec fn is_office(o: &OfficeLayout, agent_count: int) -> bool {
    &&& o.wf()
    &&& o.cols == OFFICE_COLS
    &&& o.rows == OFFICE_ROWS
    &&& forall|r: int, c: int|
        0 <= r < OFFICE_ROWS && 0 <= c < OFFICE_COLS ==> #[trigger] o.tiles@[r]@[c] == office_tile(c, r)
    &&& o.furniture@ == office_furniture(agent_count)
    &&& forall|r: int, c: int|
        0 <= r < OFFICE_ROWS && 0 <= c < OFFICE_COLS ==> (#[trigger] o.blocked@[r]@[c] <==> exists|i: int|
            0 <= i < o.furniture@.len() && covers(#[trigger] o.furniture@[i], c, r))
    &&& o.seats@ == desk_slots().take(desk_count(agent_count)).map_values(|s: (u16, u16)| seat_for(s))
    &&& o.lounge_seats@ == office_lounge_seats()
}

/// Build the office layout with dynamic desk count.
///
/// 3-room layout (86x38):
///   Work Room (left, Floor) — desks scale to agent count
///   Snack Bar (top-right, TileFloor)
///   Lounge (bottom, Carpet) — chairs for idle sitting
pub fn build_office(agent_count: usize) -> (o: OfficeLayout)
    ensures
        o.wf(),
        o.cols == OFFICE_COLS,
        o.rows == OFFICE_ROWS,
        forall|r: int, c: int|
            0 <= r < OFFICE_ROWS && 0 <= c < OFFICE_COLS ==> #[trigger] o.tiles@[r]@[c]
                == office_tile(c, r),
        o.furniture@ == office_furniture(agent_count as int),
        forall|r: int, c: int|
            0 <= r < OFFICE_ROWS && 0 <= c < OFFICE_COLS ==> (#[trigger] o.blocked@[r]@[c] <==> exists|i: int|
                0 <= i < o.furniture@.len() && covers(#[trigger] o.furniture@[i], c, r)),
        o.seats@ == desk_slots().take(desk_count(agent_count as int)).map_values(
            |s: (u16, u16)| seat_for(s),
        ),
        o.lounge_seats@ == office_lounge_seats(),
        is_office(&o, agent_count as int),
        o.room_labels@.len() == 3,
        o.room_labels@[0].0 == 18 && o.room_labels@[0].1 == 0 && o.room_labels@[0].2@
            == "WORK ROOM"@,
        o.room_labels@[1].0 == 63 && o.room_labels@[1].1 == 0 && o.room_labels@[1].2@
            == "SNACK BAR"@,
        o.room_labels@[2].0 == 38 && o.room_labels@[2].1 == 21 && o.room_labels@[2].2@
            == "LOUNGE"@,
{
    let cols: u16 = OFFICE_COLS;
    let rows: u16 = OFFICE_ROWS;

    let mut tiles = uniform_grid(cols, rows, Tile::Void);
    let ghost t0 = tiles@;

    // ── Outer walls ──
    fill(&mut tiles, cols, rows, 0, 0, cols - 1, 0, Tile::Wall);
    let ghost t1 = tiles@;
    fill(&mut tiles, cols, rows, 0, rows - 1, cols - 1, rows - 1, Tile::Wall);
    let ghost t2 = tiles@;
    fill(&mut tiles, cols, rows, 0, 0, 0, rows - 1, Tile::Wall);
    let ghost t3 = tiles@;
    fill(&mut tiles, cols, rows, cols - 1, 0, cols - 1, rows - 1, Tile::Wall);
    let ghost t4 = tiles@;

    // ── Work Room: cols 1-50, rows 1-20 ──
    fill(&mut tiles, cols, rows, 1, 1, 50, 20, Tile::Floor);
    let ghost t5 = tiles@;
    fill(&mut tiles, cols, rows, 51, 1, 51, 21, Tile::Wall);  // right wall
    let ghost t6 = tiles@;
    fill(&mut tiles, cols, rows, 1, 21, 50, 21, Tile::Wall);  // bottom wall
    let ghost t7 = tiles@;
    // door Work Room <-> Snack Bar (col 51, rows 7-8)
    fill(&mut tiles, cols, rows, 51, 7, 51, 8, Tile::Floor);
    let ghost t8 = tiles@;
    // door Work Room <-> Lounge (row 21, cols 24-25)
    fill(&mut tiles, cols, rows, 24, 21, 25, 21, Tile::Floor);
    let ghost t9 = tiles@;

    // ── Snack Bar: cols 52-84, rows 1-14 ──
    fill(&mut tiles, cols, rows, 52, 1, cols - 2, 14, Tile::TileFloor);
    let ghost t10 = tiles@;
    fill(&mut tiles, cols, rows, 52, 15, cols - 2, 15, Tile::Wall);  // bottom wall
    let ghost t11 = tiles@;
    // door Snack Bar <-> Lounge (row 15, cols 68-69)
    fill(&mut tiles, cols, rows, 68, 15, 69, 15, Tile::TileFloor);
    let ghost t12 = tiles@;

    // ── Lounge: cols 1-84, rows 22-36 (full width) ──
    fill(&mut tiles, cols, rows, 1, 22, cols - 2, rows - 2, Tile::Carpet);
    let ghost t13 = tiles@;
    // lounge needs access from snack bar side too
    fill(&mut tiles, cols, rows, 52, 16, cols - 2, 21, Tile::Carpet);

    assert forall|r: int, c: int| 0 <= r < OFFICE_ROWS && 0 <= c < OFFICE_COLS implies #[trigger] tiles@[r]@[c]
        == office_tile(c, r) by {
        assert(t0[r]@[c] == Tile::Void);
        assert(t1[r]@[c] == t0[r]@[c] || t1[r]@[c] == Tile::Wall);
        let _ = t2[r]@[c];
        let _ = t3[r]@[c];
        let _ = t4[r]@[c];
        let _ = t5[r]@[c];
        let _ = t6[r]@[c];
        let _ = t7[r]@[c];
        let _ = t8[r]@[c];
        let _ = t9[r]@[c];
        let _ = t10[r]@[c];
        let _ = t11[r]@[c];
        let _ = t12[r]@[c];
        let _ = t13[r]@[c];
    }

    // ── Furniture ──
    let mut furniture: Vec<Furniture> = Vec::new();

    // Work Room: dynamic desks
    let desk_positions = place_desks(agent_count);
    let mut k: usize = 0;
    while k < desk_positions.len()
        invariant
            k <= desk_positions@.len(),
            furniture@ == desk_positions@.take(k as int).map_values(|s: (u16, u16)| desk_at(s)),
        decreases desk_positions@.len() - k,
    {
        let (dc, dr) = desk_positions[k];
        furniture.push(Furniture { kind: FurnitureKind::Desk, col: dc, row: dr });
        k = k + 1;
        assert(furniture@ =~= desk_positions@.take(k as int).map_values(
            |s: (u16, u16)| desk_at(s),
        ));
    }
    assert(desk_positions@.take(k as int) =~= desk_positions@);
    let ghost desks = furniture@;

    // Work Room decorations
    furniture.push(Furniture { kind: FurnitureKind::Plant, col: 1, row: 1 });
    furniture.push(Furniture { kind: FurnitureKind::Plant, col: 49, row: 1 });
    furniture.push(Furniture { kind: FurnitureKind::Plant, col: 1, row: 19 });

    // Snack Bar furniture
    furniture.push(Furniture { kind: FurnitureKind::VendingMachine, col: 54, row: 1 });
    furniture.push(Furniture { kind: FurnitureKind::VendingMachine, col: 60, row: 1 });
    furniture.push(Furniture { kind: FurnitureKind::Counter, col: 70, row: 1 });
    furniture.push(Furniture { kind: FurnitureKind::RoundTable, col: 56, row: 7 });
    furniture.push(Furniture { kind: FurnitureKind::RoundTable, col: 70, row: 7 });
    furniture.push(Furniture { kind: FurnitureKind::Plant, col: 82, row: 1 });
    furniture.push(Furniture { kind: FurnitureKind::Plant, col: 54, row: 12 });

    // Lounge furniture — couches and chairs spread across the full width
    furniture.push(Furniture { kind: FurnitureKind::Couch, col: 4, row: 23 });
    furniture.push(Furniture { kind: FurnitureKind::Couch, col: 4, row: 28 });
    furniture.push(Furniture { kind: FurnitureKind::Couch, col: 4, row: 33 });
    furniture.push(Furniture { kind: FurnitureKind::Couch, col: 30, row: 23 });
    furniture.push(Furniture { kind: FurnitureKind::Couch, col: 56, row: 23 });
    furniture.push(Furniture { kind: FurnitureKind::RoundTable, col: 16, row: 25 });
    furniture.push(Furniture { kind: FurnitureKind::RoundTable, col: 42, row: 25 });
    furniture.push(Furniture { kind: FurnitureKind::RoundTable, col: 68, row: 25 });
    furniture.push(Furniture { kind: FurnitureKind::Bookshelf, col: 78, row: 22 });
    furniture.push(Furniture { kind: FurnitureKind::WaterCooler, col: 50, row: 22 });
    furniture.push(Furniture { kind: FurnitureKind::Lamp, col: 14, row: 22 });
    furniture.push(Furniture { kind: FurnitureKind::Lamp, col: 40, row: 22 });
    furniture.push(Furniture { kind: FurnitureKind::Lamp, col: 66, row: 22 });
    furniture.push(Furniture { kind: FurnitureKind::Plant, col: 1, row: 35 });
    furniture.push(Furniture { kind: FurnitureKind::Plant, col: 82, row: 35 });
    furniture.push(Furniture { kind: FurnitureKind::Plant, col: 82, row: 22 });

    assert(furniture@ =~= desks + fixed_furniture());
    assert(furniture@ == office_furniture(agent_count as int));
    proof {
        lemma_furniture_fits(agent_count as int);
    }

    // ── Build blocked cells from furniture ──
    let mut blocked = uniform_grid(cols, rows, false);
    let mut i: usize = 0;
    while i < furniture.len()
        invariant
            i <= furniture@.len(),
            furniture@ == office_furniture(agent_count as int),
            grid_dims(blocked@, cols as int, rows as int),
            cols == OFFICE_COLS,
            rows == OFFICE_ROWS,
            forall|j: int|
                0 <= j < office_furniture(agent_count as int).len() ==> {
                    let f = #[trigger] office_furniture(agent_count as int)[j];
                    &&& 1 <= footprint(f.kind).0
                    &&& 1 <= footprint(f.kind).1
                    &&& f.col + footprint(f.kind).0 <= 86
                    &&& f.row + footprint(f.kind).1 <= 38
                },
            forall|r: int, c: int|
                0 <= r < rows && 0 <= c < cols ==> (#[trigger] blocked@[r]@[c] <==> exists|j: int|
                    0 <= j < i && covers(#[trigger] furniture@[j], c, r)),
        decreases furniture@.len() - i,
    {
        let f = furniture[i];
        let (w, h) = f.kind.size();
        assert(office_furniture(agent_count as int)[i as int] == f);
        let ghost before = blocked@;
        fill(&mut blocked, cols, rows, f.col, f.row, f.col + w - 1, f.row + h - 1, true);
        assert forall|r: int, c: int| 0 <= r < rows && 0 <= c < cols implies (
        #[trigger] blocked@[r]@[c] <==> exists|j: int|
            0 <= j < i + 1 && covers(#[trigger] furniture@[j], c, r)) by {
            if covers(f, c, r) {
                assert(covers(furniture@[i as int], c, r));
            }
            if blocked@[r]@[c] && !covers(f, c, r) {
                assert(before[r]@[c]);
                let j = choose|j: int| 0 <= j < i && covers(#[trigger] furniture@[j], c, r);
                assert(0 <= j < i + 1 && covers(furniture@[j], c, r));
            }
            if exists|j: int| 0 <= j < i + 1 && covers(#[trigger] furniture@[j], c, r) {
                let j = choose|j: int| 0 <= j < i + 1 && covers(#[trigger] furniture@[j], c, r);
                if j < i {
                    assert(before[r]@[c]);
                }
            }
        }
        i = i + 1;
    }

    // ── Build desk seats ──
    let ghost n = desk_count(agent_count as int);
    let mut seats: Vec<Seat> = Vec::new();
    let mut i: usize = 0;
    while i < furniture.len()
        invariant
            i <= furniture@.len(),
            furniture@ == office_furniture(agent_count as int),
            n == desk_count(agent_count as int),
            grid_dims(blocked@, cols as int, rows as int),
            grid_dims(tiles@, cols as int, rows as int),
            cols == OFFICE_COLS,
            rows == OFFICE_ROWS,
            forall|r: int, c: int|
                0 <= r < OFFICE_ROWS && 0 <= c < OFFICE_COLS ==> #[trigger] tiles@[r]@[c]
                    == office_tile(c, r),
            forall|r: int, c: int|
                0 <= r < rows && 0 <= c < cols ==> (#[trigger] blocked@[r]@[c] <==> exists|j: int|
                    0 <= j < furniture@.len() && covers(#[trigger] furniture@[j], c, r)),
            seats@ == desk_slots().take(if i < n { i as int } else { n }).map_values(
                |s: (u16, u16)| seat_for(s),
            ),
        decreases furniture@.len() - i,
    {
        let f = furniture[i];
        proof {
            if i < n {
                assert(f == desk_at(desk_slots()[i as int]));
            } else {
                assert(f == fixed_furniture()[i - n]);
            }
        }
        if f.kind.is_desk() {
            let (w, _h) = f.kind.size();
            let seat_col = f.col + w / 2;
            let seat_row = f.row + 3 + 1;
            proof {
                lemma_seats_free(agent_count as int, i as int);
            }
            assert(!blocked@[seat_row as int]@[seat_col as int]);
            if seat_row < rows && tiles[seat_row as usize][seat_col as usize].is_walkable()
                && !blocked[seat_row as usize][seat_col as usize] {
                seats.push(Seat { col: seat_col, row: seat_row, desk_col: f.col, desk_row: f.row });
            }
            assert(seats@ =~= desk_slots().take(i + 1).map_values(|s: (u16, u16)| seat_for(s)));
        }
        i = i + 1;
    }
    assert(seats@ =~= desk_slots().take(n).map_values(|s: (u16, u16)| seat_for(s)));

    // ── Lounge seats (walkable spots near couches) ──
    let lounge_seats = vec![
        // Near couch row 1 (row 23)
        LoungeSeat { col: 14, row: 24 },
        LoungeSeat { col: 16, row: 24 },
        LoungeSeat { col: 38, row: 24 },
        LoungeSeat { col: 40, row: 24 },
        LoungeSeat { col: 64, row: 24 },
        LoungeSeat { col: 66, row: 24 },
        // Near couch row 2 (row 28)
        LoungeSeat { col: 14, row: 29 },
        LoungeSeat { col: 16, row: 29 },
        // Near couch row 3 (row 33)
        LoungeSeat { col: 14, row: 34 },
        LoungeSeat { col: 16, row: 34 },
        // Scattered seats in the lounge
        LoungeSeat { col: 30, row: 30 },
        LoungeSeat { col: 50, row: 30 },
        LoungeSeat { col: 70, row: 30 },
        LoungeSeat { col: 30, row: 34 },
        LoungeSeat { col: 60, row: 34 },
    ];
    assert(lounge_seats@ =~= office_lounge_seats());

    // ── Room labels ──
    let room_labels: Vec<(u16, u16, &'static str)> = vec![
        (18, 0, "WORK ROOM"),
        (63, 0, "SNACK BAR"),
        (38, 21, "LOUNGE"),
    ];

    OfficeLayout { cols, rows, tiles, furniture, seats, lounge_seats, blocked, room_labels }
}

} // verus!
