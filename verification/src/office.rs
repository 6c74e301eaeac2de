//! The office as one connected place: every desk seat and lounge chair can be walked to
//! from every other.

use vstd::prelude::*;

use crate::layout::{
    covers, desk_at, desk_count, desk_slots, fixed_furniture, is_office, office_furniture, office_lounge_seats,
    office_tile, seat_for, tile_walkable, LoungeSeat, OfficeLayout,
};
use crate::pathfinding::{path_found, reachable};
use crate::routes::{
    lemma_col_link, lemma_link_sym, lemma_link_trans, lemma_linked_reach, lemma_reach_trans, lemma_row_link, linked,
};

verus! {

/// (c, r) lies outside the `w` x `h` rectangle at (x, y).
pub open spec fn outside(c: int, r: int, x: int, y: int, w: int, h: int) -> bool {
    !(x <= c < x + w && y <= r < y + h)
}

/// No desk the office can have, and no fixed piece of furniture, stands on (c, r).
pub open spec fn clear_cell(c: int, r: int) -> bool {
    &&& outside(c, r, 4, 2, 8, 3)
    &&& outside(c, r, 24, 2, 8, 3)
    &&& outside(c, r, 4, 8, 8, 3)
    &&& outside(c, r, 24, 8, 8, 3)
    &&& outside(c, r, 4, 14, 8, 3)
    &&& outside(c, r, 24, 14, 8, 3)
    &&& outside(c, r, 1, 1, 2, 2)
    &&& outside(c, r, 49, 1, 2, 2)
    &&& outside(c, r, 1, 19, 2, 2)
    &&& outside(c, r, 54, 1, 4, 3)
    &&& outside(c, r, 60, 1, 4, 3)
    &&& outside(c, r, 70, 1, 8, 2)
    &&& outside(c, r, 56, 7, 6, 2)
    &&& outside(c, r, 70, 7, 6, 2)
    &&& outside(c, r, 82, 1, 2, 2)
    &&& outside(c, r, 54, 12, 2, 2)
    &&& outside(c, r, 4, 23, 8, 2)
    &&& outside(c, r, 4, 28, 8, 2)
    &&& outside(c, r, 4, 33, 8, 2)
    &&& outside(c, r, 30, 23, 8, 2)
    &&& outside(c, r, 56, 23, 8, 2)
    &&& outside(c, r, 16, 25, 6, 2)
    &&& outside(c, r, 42, 25, 6, 2)
    &&& outside(c, r, 68, 25, 6, 2)
    &&& outside(c, r, 78, 22, 4, 3)
    &&& outside(c, r, 50, 22, 3, 2)
    &&& outside(c, r, 14, 22, 1, 2)
    &&& outside(c, r, 40, 22, 1, 2)
    &&& outside(c, r, 66, 22, 1, 2)
    &&& outside(c, r, 1, 35, 2, 2)
    &&& outside(c, r, 82, 35, 2, 2)
    &&& outside(c, r, 82, 22, 2, 2)
}

proof fn lemma_clear_cell(agent_count: int, i: int, c: int, r: int)
    requires
        clear_cell(c, r),
        0 <= i < office_furniture(agent_count).len(),
    ensures
        !covers(office_furniture(agent_count)[i], c, r),
{
    let n = desk_count(agent_count);
    if i < n {
        assert(office_furniture(agent_count)[i] == desk_at(desk_slots()[i]));
    } else {
        assert(office_furniture(agent_count)[i] == fixed_furniture()[i - n]);
    }
}

/// A clear cell of the plan's walkable floor is walkable in the office.
proof fn lemma_cell_walkable(o: &OfficeLayout, agent_count: int, c: int, r: int)
    requires
        is_office(o, agent_count),
        clear_cell(c, r),
        0 <= c < 86,
        0 <= r < 38,
        tile_walkable(office_tile(c, r)),
    ensures
        o.walkable_at(c, r),
{
    assert(o.tiles@[r]@[c] == office_tile(c, r));
    if o.blocked@[r]@[c] {
        let i = choose|i: int| 0 <= i < o.furniture@.len() && covers(#[trigger] o.furniture@[i], c, r);
        lemma_clear_cell(agent_count, i, c, r);
    }
}

/// The office's row `r` links columns `c1` and `c2`, when the cells between are clear.
proof fn lemma_office_row(o: &OfficeLayout, agent_count: int, r: u16, c1: u16, c2: u16)
    requires
        is_office(o, agent_count),
        c1 < c2 < 86,
        r < 38,
        forall|c: int| c1 <= c <= c2 ==> #[trigger] clear_cell(c, r as int) && tile_walkable(office_tile(c, r as int)),
    ensures
        linked(o, (c1, r), (c2, r)),
{
    assert forall|c: int| c1 <= c <= c2 implies #[trigger] o.walkable_at(c, r as int) by {
        assert(clear_cell(c, r as int));
        lemma_cell_walkable(o, agent_count, c, r as int);
    }
    lemma_row_link(o, r, c1, c2);
}

/// The office's column `c` links rows `r1` and `r2`, when the cells between are clear.
proof fn lemma_office_col(o: &OfficeLayout, agent_count: int, c: u16, r1: u16, r2: u16)
    requires
        is_office(o, agent_count),
        r1 < r2 < 38,
        c < 86,
        forall|r: int| r1 <= r <= r2 ==> #[trigger] clear_cell(c as int, r) && tile_walkable(office_tile(c as int, r)),
    ensures
        linked(o, (c, r1), (c, r2)),
{
    assert forall|r: int| r1 <= r <= r2 implies #[trigger] o.walkable_at(c as int, r) by {
        assert(clear_cell(c as int, r));
        lemma_cell_walkable(o, agent_count, c as int, r);
    }
    lemma_col_link(o, c, r1, r2);
}

/// Runs of clear floor in the office, each linking its two ends.
#[verifier::spinoff_prover]
#[verifier::rlimit(60)]
proof fn lemma_office_runs_0(o: &OfficeLayout, agent_count: int)
    requires
        is_office(o, agent_count),
    ensures
        linked(o, (8, 6), (28, 6)),
        linked(o, (28, 6), (40, 6)),
        linked(o, (8, 12), (28, 12)),
        linked(o, (28, 12), (40, 12)),
{
    lemma_office_row(o, agent_count, 6, 8, 28);
    lemma_office_row(o, agent_count, 6, 28, 40);
    lemma_office_row(o, agent_count, 12, 8, 28);
    lemma_office_row(o, agent_count, 12, 28, 40);
}

#[verifier::spinoff_prover]
#[verifier::rlimit(60)]
proof fn lemma_office_runs_1(o: &OfficeLayout, agent_count: int)
    requires
        is_office(o, agent_count),
    ensures
        linked(o, (8, 18), (24, 18)),
        linked(o, (24, 18), (28, 18)),
        linked(o, (28, 18), (40, 18)),
        linked(o, (14, 30), (24, 30)),
{
    lemma_office_row(o, agent_count, 18, 8, 24);
    lemma_office_row(o, agent_count, 18, 24, 28);
    lemma_office_row(o, agent_count, 18, 28, 40);
    lemma_office_row(o, agent_count, 30, 14, 24);
}

#[verifier::spinoff_prover]
#[verifier::rlimit(60)]
proof fn lemma_office_runs_2(o: &OfficeLayout, agent_count: int)
    requires
        is_office(o, agent_count),
    ensures
        linked(o, (24, 30), (30, 30)),
        linked(o, (30, 30), (38, 30)),
        linked(o, (38, 30), (50, 30)),
        linked(o, (50, 30), (60, 30)),
{
    lemma_office_row(o, agent_count, 30, 24, 30);
    lemma_office_row(o, agent_count, 30, 30, 38);
    lemma_office_row(o, agent_count, 30, 38, 50);
    lemma_office_row(o, agent_count, 30, 50, 60);
}

#[verifier::spinoff_prover]
#[verifier::rlimit(60)]
proof fn lemma_office_runs_3(o: &OfficeLayout, agent_count: int)
    requires
        is_office(o, agent_count),
    ensures
        linked(o, (60, 30), (64, 30)),
        linked(o, (64, 30), (70, 30)),
        linked(o, (14, 24), (16, 24)),
        linked(o, (38, 24), (40, 24)),
{
    lemma_office_row(o, agent_count, 30, 60, 64);
    lemma_office_row(o, agent_count, 30, 64, 70);
    lemma_office_row(o, agent_count, 24, 14, 16);
    lemma_office_row(o, agent_count, 24, 38, 40);
}

#[verifier::spinoff_prover]
#[verifier::rlimit(60)]
proof fn lemma_office_runs_4(o: &OfficeLayout, agent_count: int)
    requires
        is_office(o, agent_count),
    ensures
        linked(o, (64, 24), (66, 24)),
        linked(o, (14, 29), (16, 29)),
        linked(o, (14, 34), (16, 34)),
        linked(o, (40, 6), (40, 12)),
{
    lemma_office_row(o, agent_count, 24, 64, 66);
    lemma_office_row(o, agent_count, 29, 14, 16);
    lemma_office_row(o, agent_count, 34, 14, 16);
    lemma_office_col(o, agent_count, 40, 6, 12);
}

#[verifier::spinoff_prover]
#[verifier::rlimit(60)]
proof fn lemma_office_runs_5(o: &OfficeLayout, agent_count: int)
    requires
        is_office(o, agent_count),
    ensures
        linked(o, (40, 12), (40, 18)),
        linked(o, (24, 18), (24, 30)),
        linked(o, (14, 24), (14, 29)),
        linked(o, (14, 29), (14, 30)),
{
    lemma_office_col(o, agent_count, 40, 12, 18);
    lemma_office_col(o, agent_count, 24, 18, 30);
    lemma_office_col(o, agent_count, 14, 24, 29);
    lemma_office_col(o, agent_count, 14, 29, 30);
}

#[verifier::spinoff_prover]
#[verifier::rlimit(60)]
proof fn lemma_office_runs_6(o: &OfficeLayout, agent_count: int)
    requires
        is_office(o, agent_count),
    ensures
        linked(o, (14, 30), (14, 34)),
        linked(o, (38, 24), (38, 30)),
        linked(o, (64, 24), (64, 30)),
        linked(o, (30, 30), (30, 34)),
{
    lemma_office_col(o, agent_count, 14, 30, 34);
    lemma_office_col(o, agent_count, 38, 24, 30);
    lemma_office_col(o, agent_count, 64, 24, 30);
    lemma_office_col(o, agent_count, 30, 30, 34);
}

#[verifier::spinoff_prover]
#[verifier::rlimit(60)]
proof fn lemma_office_runs_7(o: &OfficeLayout, agent_count: int)
    requires
        is_office(o, agent_count),
    ensures
        linked(o, (60, 30), (60, 34)),
{
    lemma_office_col(o, agent_count, 60, 30, 34);
}

/// Every desk seat and lounge chair is linked with the lounge's middle, (24, 30).
pub open spec fn hub_linked(o: &OfficeLayout) -> bool {
    &&& linked(o, (24, 30), (8, 6))
    &&& linked(o, (24, 30), (28, 6))
    &&& linked(o, (24, 30), (8, 12))
    &&& linked(o, (24, 30), (28, 12))
    &&& linked(o, (24, 30), (8, 18))
    &&& linked(o, (24, 30), (28, 18))
    &&& linked(o, (24, 30), (14, 24))
    &&& linked(o, (24, 30), (16, 24))
    &&& linked(o, (24, 30), (38, 24))
    &&& linked(o, (24, 30), (40, 24))
    &&& linked(o, (24, 30), (64, 24))
    &&& linked(o, (24, 30), (66, 24))
    &&& linked(o, (24, 30), (14, 29))
    &&& linked(o, (24, 30), (16, 29))
    &&& linked(o, (24, 30), (14, 34))
    &&& linked(o, (24, 30), (16, 34))
    &&& linked(o, (24, 30), (30, 30))
    &&& linked(o, (24, 30), (50, 30))
    &&& linked(o, (24, 30), (70, 30))
    &&& linked(o, (24, 30), (30, 34))
    &&& linked(o, (24, 30), (60, 34))
}

/// The runs of clear floor chain every seat and chair to the lounge's middle: the lounge
/// along row 30, the work room through its door at column 24 and along column 40.
#[verifier::spinoff_prover]
#[verifier::rlimit(100)]
proof fn lemma_hub_chain(o: &OfficeLayout)
    requires
        linked(o, (8, 6), (28, 6)),
        linked(o, (28, 6), (40, 6)),
        linked(o, (8, 12), (28, 12)),
        linked(o, (28, 12), (40, 12)),
        linked(o, (8, 18), (24, 18)),
        linked(o, (24, 18), (28, 18)),
        linked(o, (28, 18), (40, 18)),
        linked(o, (14, 30), (24, 30)),
        linked(o, (24, 30), (30, 30)),
        linked(o, (30, 30), (38, 30)),
        linked(o, (38, 30), (50, 30)),
        linked(o, (50, 30), (60, 30)),
        linked(o, (60, 30), (64, 30)),
        linked(o, (64, 30), (70, 30)),
        linked(o, (14, 24), (16, 24)),
        linked(o, (38, 24), (40, 24)),
        linked(o, (64, 24), (66, 24)),
        linked(o, (14, 29), (16, 29)),
        linked(o, (14, 34), (16, 34)),
        linked(o, (40, 6), (40, 12)),
        linked(o, (40, 12), (40, 18)),
        linked(o, (24, 18), (24, 30)),
        linked(o, (14, 24), (14, 29)),
        linked(o, (14, 29), (14, 30)),
        linked(o, (14, 30), (14, 34)),
        linked(o, (38, 24), (38, 30)),
        linked(o, (64, 24), (64, 30)),
        linked(o, (30, 30), (30, 34)),
        linked(o, (60, 30), (60, 34)),
    ensures
        hub_linked(o),
{
    lemma_link_trans(o, (24, 30), (30, 30), (38, 30));
    lemma_link_trans(o, (24, 30), (38, 30), (50, 30));
    lemma_link_trans(o, (24, 30), (50, 30), (60, 30));
    lemma_link_trans(o, (24, 30), (60, 30), (64, 30));
    lemma_link_trans(o, (24, 30), (64, 30), (70, 30));
    lemma_link_sym(o, (14, 30), (24, 30));
    lemma_link_sym(o, (14, 29), (14, 30));
    lemma_link_trans(o, (24, 30), (14, 30), (14, 29));
    lemma_link_sym(o, (14, 24), (14, 29));
    lemma_link_trans(o, (24, 30), (14, 29), (14, 24));
    lemma_link_trans(o, (24, 30), (14, 24), (16, 24));
    lemma_link_trans(o, (24, 30), (14, 29), (16, 29));
    lemma_link_trans(o, (24, 30), (14, 30), (14, 34));
    lemma_link_trans(o, (24, 30), (14, 34), (16, 34));
    lemma_link_sym(o, (38, 24), (38, 30));
    lemma_link_trans(o, (24, 30), (38, 30), (38, 24));
    lemma_link_trans(o, (24, 30), (38, 24), (40, 24));
    lemma_link_sym(o, (64, 24), (64, 30));
    lemma_link_trans(o, (24, 30), (64, 30), (64, 24));
    lemma_link_trans(o, (24, 30), (64, 24), (66, 24));
    lemma_link_trans(o, (24, 30), (30, 30), (30, 34));
    lemma_link_trans(o, (24, 30), (60, 30), (60, 34));
    lemma_link_sym(o, (24, 18), (24, 30));
    lemma_link_trans(o, (24, 30), (24, 18), (28, 18));
    lemma_link_sym(o, (8, 18), (24, 18));
    lemma_link_trans(o, (24, 30), (24, 18), (8, 18));
    lemma_link_trans(o, (24, 30), (28, 18), (40, 18));
    lemma_link_sym(o, (40, 12), (40, 18));
    lemma_link_trans(o, (24, 30), (40, 18), (40, 12));
    lemma_link_sym(o, (28, 12), (40, 12));
    lemma_link_trans(o, (24, 30), (40, 12), (28, 12));
    lemma_link_sym(o, (8, 12), (28, 12));
    lemma_link_trans(o, (24, 30), (28, 12), (8, 12));
    lemma_link_sym(o, (40, 6), (40, 12));
    lemma_link_trans(o, (24, 30), (40, 12), (40, 6));
    lemma_link_sym(o, (28, 6), (40, 6));
    lemma_link_trans(o, (24, 30), (40, 6), (28, 6));
    lemma_link_sym(o, (8, 6), (28, 6));
    lemma_link_trans(o, (24, 30), (28, 6), (8, 6));
}

proof fn lemma_office_hub(o: &OfficeLayout, agent_count: int)
    requires
        is_office(o, agent_count),
    ensures
        hub_linked(o),
{
    lemma_office_runs_0(o, agent_count);
    lemma_office_runs_1(o, agent_count);
    lemma_office_runs_2(o, agent_count);
    lemma_office_runs_3(o, agent_count);
    lemma_office_runs_4(o, agent_count);
    lemma_office_runs_5(o, agent_count);
    lemma_office_runs_6(o, agent_count);
    lemma_office_runs_7(o, agent_count);
    lemma_hub_chain(o);
}

/// A desk seat or a lounge chair of `o`.
pub open spec fn office_spot(o: &OfficeLayout, p: (u16, u16)) -> bool {
    ||| exists|i: int| 0 <= i < o.seats@.len() && p == (#[trigger] o.seats@[i].col, o.seats@[i].row)
    ||| exists|i: int| 0 <= i < o.lounge_seats@.len() && p == (#[trigger] o.lounge_seats@[i].col, o.lounge_seats@[i].row)
}

#[verifier::spinoff_prover]
#[verifier::rlimit(100)]
proof fn lemma_desk_seat_linked(o: &OfficeLayout, agent_count: int, i: int)
    requires
        hub_linked(o),
        o.seats@ == desk_slots().take(desk_count(agent_count)).map_values(|s: (u16, u16)| seat_for(s)),
        0 <= i < o.seats@.len(),
    ensures
        linked(o, (24, 30), (o.seats@[i].col, o.seats@[i].row)),
{
    lemma_desks();
    let n = desk_count(agent_count);
    assert(0 <= i < n <= 6);
    assert(o.seats@[i] == seat_for(desk_slots().take(n)[i]));
    assert(desk_slots().take(n)[i] == desk_slots()[i]);
    if i == 0 {
        assert(o.seats@[0] == seat_for((4u16, 2u16)));
    } else if i == 1 {
        assert(o.seats@[1] == seat_for((24u16, 2u16)));
    } else if i == 2 {
        assert(o.seats@[2] == seat_for((4u16, 8u16)));
    } else if i == 3 {
        assert(o.seats@[3] == seat_for((24u16, 8u16)));
    } else if i == 4 {
        assert(o.seats@[4] == seat_for((4u16, 14u16)));
    } else if i == 5 {
        assert(o.seats@[5] == seat_for((24u16, 14u16)));
    }
}

/// The desk slots, one by one, and the seats in front of them.
proof fn lemma_desks()
    ensures
        desk_slots().len() == 6,
        desk_slots()[0] == (4u16, 2u16),
        desk_slots()[1] == (24u16, 2u16),
        desk_slots()[2] == (4u16, 8u16),
        desk_slots()[3] == (24u16, 8u16),
        desk_slots()[4] == (4u16, 14u16),
        desk_slots()[5] == (24u16, 14u16),
        seat_for((4u16, 2u16)).col == 8 && seat_for((4u16, 2u16)).row == 6,
        seat_for((24u16, 2u16)).col == 28 && seat_for((24u16, 2u16)).row == 6,
        seat_for((4u16, 8u16)).col == 8 && seat_for((4u16, 8u16)).row == 12,
        seat_for((24u16, 8u16)).col == 28 && seat_for((24u16, 8u16)).row == 12,
        seat_for((4u16, 14u16)).col == 8 && seat_for((4u16, 14u16)).row == 18,
        seat_for((24u16, 14u16)).col == 28 && seat_for((24u16, 14u16)).row == 18,
{
}

/// The lounge chairs, one by one.
proof fn lemma_chairs()
    ensures
        office_lounge_seats().len() == 15,
        office_lounge_seats()[0] == (LoungeSeat { col: 14, row: 24 }),
        office_lounge_seats()[1] == (LoungeSeat { col: 16, row: 24 }),
        office_lounge_seats()[2] == (LoungeSeat { col: 38, row: 24 }),
        office_lounge_seats()[3] == (LoungeSeat { col: 40, row: 24 }),
        office_lounge_seats()[4] == (LoungeSeat { col: 64, row: 24 }),
        office_lounge_seats()[5] == (LoungeSeat { col: 66, row: 24 }),
        office_lounge_seats()[6] == (LoungeSeat { col: 14, row: 29 }),
        office_lounge_seats()[7] == (LoungeSeat { col: 16, row: 29 }),
        office_lounge_seats()[8] == (LoungeSeat { col: 14, row: 34 }),
        office_lounge_seats()[9] == (LoungeSeat { col: 16, row: 34 }),
        office_lounge_seats()[10] == (LoungeSeat { col: 30, row: 30 }),
        office_lounge_seats()[11] == (LoungeSeat { col: 50, row: 30 }),
        office_lounge_seats()[12] == (LoungeSeat { col: 70, row: 30 }),
        office_lounge_seats()[13] == (LoungeSeat { col: 30, row: 34 }),
        office_lounge_seats()[14] == (LoungeSeat { col: 60, row: 34 }),
{
}

#[verifier::spinoff_prover]
#[verifier::rlimit(100)]
proof fn lemma_chair_linked(o: &OfficeLayout, i: int)
    requires
        hub_linked(o),
        o.lounge_seats@ == office_lounge_seats(),
        0 <= i < o.lounge_seats@.len(),
    ensures
        linked(o, (24, 30), (o.lounge_seats@[i].col, o.lounge_seats@[i].row)),
{
    lemma_chairs();
    if i == 0 {
    } else if i == 1 {
    } else if i == 2 {
    } else if i == 3 {
    } else if i == 4 {
    } else if i == 5 {
    } else if i == 6 {
    } else if i == 7 {
    } else if i == 8 {
    } else if i == 9 {
    } else if i == 10 {
    } else if i == 11 {
    } else if i == 12 {
    } else if i == 13 {
    } else if i == 14 {
    }
}

#[verifier::spinoff_prover]
#[verifier::rlimit(100)]
proof fn lemma_spot_linked(o: &OfficeLayout, agent_count: int, p: (u16, u16))
    requires
        hub_linked(o),
        o.seats@ == desk_slots().take(desk_count(agent_count)).map_values(|s: (u16, u16)| seat_for(s)),
        o.lounge_seats@ == office_lounge_seats(),
        office_spot(o, p),
    ensures
        linked(o, (24, 30), p),
{
    if exists|i: int| 0 <= i < o.seats@.len() && p == (#[trigger] o.seats@[i].col, o.seats@[i].row) {
        let i = choose|i: int| 0 <= i < o.seats@.len() && p == (#[trigger] o.seats@[i].col, o.seats@[i].row);
        lemma_desk_seat_linked(o, agent_count, i);
    } else {
        let i = choose|i: int| 0 <= i < o.lounge_seats@.len() && p == (#[trigger] o.lounge_seats@[i].col, o.lounge_seats@[i].row);
        lemma_chair_linked(o, i);
    }
}

/// The three rooms of the office are joined by their doors: from any desk seat or lounge
/// chair a route leads to any other, so `find_path` finds a path between two of them.
pub proof fn law_office_seats_connected(o: &OfficeLayout, agent_count: int, p: (u16, u16), q: (u16, u16))
    requires
        is_office(o, agent_count),
        office_spot(o, p),
        office_spot(o, q),
    ensures
        reachable(o, p, q),
        forall|path: Seq<(u16, u16)>| p != q && path_found(o, p, q, path) ==> path.len() > 0,
{
    lemma_office_hub(o, agent_count);
    lemma_spot_linked(o, agent_count, p);
    lemma_spot_linked(o, agent_count, q);
    lemma_reach_trans(o, p, (24, 30), q);
}

/// The Snack Bar and the Lounge are joined by a two-cell door in the Snack Bar's bottom
/// wall: cells (68, 15) and (69, 15) can be walked on, and through each a route leads
/// straight down from the Snack Bar's floor (row 14) to the Lounge (row 16).
pub proof fn law_snack_bar_lounge_door(o: &OfficeLayout, agent_count: int)
    requires
        is_office(o, agent_count),
    ensures
        o.walkable_at(68, 15),
        o.walkable_at(69, 15),
        linked(o, (68, 14), (68, 16)),
        linked(o, (69, 14), (69, 16)),
{
    lemma_office_col(o, agent_count, 68, 14, 16);
    lemma_office_col(o, agent_count, 69, 14, 16);
    lemma_cell_walkable(o, agent_count, 68, 15);
    lemma_cell_walkable(o, agent_count, 69, 15);
}

} // verus!
