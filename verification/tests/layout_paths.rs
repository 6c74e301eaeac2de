use pixel_agents::layout::{build_office, FurnitureKind, Tile, OFFICE_COLS, OFFICE_ROWS};
use pixel_agents::pathfinding::{find_path, get_walkable_tiles};

#[test]
fn tiles_that_can_be_walked_on() {
    assert!(Tile::Floor.is_walkable());
    assert!(Tile::Corridor.is_walkable());
    assert!(Tile::Carpet.is_walkable());
    assert!(Tile::TileFloor.is_walkable());
    assert!(!Tile::Wall.is_walkable());
    assert!(!Tile::Void.is_walkable());
}

#[test]
fn furniture_sizes() {
    assert_eq!(FurnitureKind::Desk.size(), (8, 3));
    assert_eq!(FurnitureKind::Chair.size(), (3, 1));
    assert_eq!(FurnitureKind::Bookshelf.size(), (4, 3));
    assert_eq!(FurnitureKind::Plant.size(), (2, 2));
    assert_eq!(FurnitureKind::WaterCooler.size(), (3, 2));
    assert_eq!(FurnitureKind::Whiteboard.size(), (10, 2));
    assert_eq!(FurnitureKind::RoundTable.size(), (6, 2));
    assert_eq!(FurnitureKind::Couch.size(), (8, 2));
    assert_eq!(FurnitureKind::VendingMachine.size(), (4, 3));
    assert_eq!(FurnitureKind::Counter.size(), (8, 2));
    assert_eq!(FurnitureKind::Lamp.size(), (1, 2));
    assert_eq!(FurnitureKind::Monitor.size(), (2, 1));
    assert!(FurnitureKind::Desk.is_desk());
    assert!(!FurnitureKind::Couch.is_desk());
}

#[test]
fn office_has_three_rooms_of_the_right_size() {
    let o = build_office(3);
    assert_eq!(o.cols, OFFICE_COLS);
    assert_eq!(o.rows, OFFICE_ROWS);
    assert_eq!((o.cols, o.rows), (86, 38));
    assert_eq!(o.get_tile(0, 0), Tile::Wall);
    assert_eq!(o.get_tile(10, 10), Tile::Floor);
    assert_eq!(o.get_tile(60, 5), Tile::TileFloor);
    assert_eq!(o.get_tile(30, 30), Tile::Carpet);
    assert_eq!(o.get_tile(51, 7), Tile::Floor);
    assert_eq!(o.get_tile(51, 3), Tile::Wall);
    assert_eq!(o.get_tile(200, 3), Tile::Void);
    assert_eq!(o.room_labels.len(), 3);
    assert_eq!(o.room_labels[0], (18, 0, "WORK ROOM"));
    assert_eq!(o.room_labels[1], (63, 0, "SNACK BAR"));
    assert_eq!(o.room_labels[2], (38, 21, "LOUNGE"));
}

#[test]
fn desks_follow_the_agent_count_between_two_and_six() {
    assert_eq!(build_office(0).seats.len(), 2);
    assert_eq!(build_office(1).seats.len(), 2);
    assert_eq!(build_office(4).seats.len(), 4);
    assert_eq!(build_office(9).seats.len(), 6);
    let o = build_office(3);
    let desks: Vec<_> = o.furniture.iter().filter(|f| f.kind.is_desk()).collect();
    assert_eq!(desks.len(), 3);
    assert_eq!((desks[0].col, desks[0].row), (4, 2));
    assert_eq!((o.seats[0].col, o.seats[0].row), (8, 6));
    assert_eq!((o.seats[0].desk_col, o.seats[0].desk_row), (4, 2));
    assert_eq!((o.seats[1].col, o.seats[1].row), (28, 6));
    assert_eq!((o.seats[2].col, o.seats[2].row), (8, 12));
}

#[test]
fn every_seat_is_walkable() {
    for n in 0..8 {
        let o = build_office(n);
        for s in &o.seats {
            assert!(o.is_walkable(s.col, s.row));
        }
    }
}

#[test]
fn furniture_blocks_its_cells() {
    let o = build_office(2);
    // the first desk covers cols 4..12, rows 2..5
    assert!(!o.is_walkable(4, 2));
    assert!(!o.is_walkable(11, 4));
    assert!(o.is_walkable(12, 4));
    // a wall is never walkable
    assert!(!o.is_walkable(0, 5));
}

#[test]
fn no_path_to_the_same_cell() {
    let o = build_office(2);
    assert!(find_path(10, 10, 10, 10, &o).is_empty());
}

#[test]
fn path_to_a_wall_is_empty() {
    let o = build_office(2);
    assert!(find_path(10, 10, 0, 10, &o).is_empty());
}

#[test]
fn path_is_a_shortest_walk() {
    let o = build_office(2);
    let p = find_path(14, 10, 20, 12, &o);
    // open floor: the Manhattan distance
    assert_eq!(p.len(), 8);
    assert_eq!(*p.last().unwrap(), (20, 12));
    let mut prev = (14u16, 10u16);
    for &(c, r) in &p {
        let d = (c as i32 - prev.0 as i32).abs() + (r as i32 - prev.1 as i32).abs();
        assert_eq!(d, 1);
        assert!(o.is_walkable(c, r));
        prev = (c, r);
    }
}

#[test]
fn path_goes_through_the_doors() {
    let o = build_office(2);
    // from the work room to the lounge, through the door at row 21
    let p = find_path(24, 18, 24, 25, &o);
    assert!(!p.is_empty());
    assert_eq!(*p.last().unwrap(), (24, 25));
    assert!(p.contains(&(24, 21)) || p.contains(&(25, 21)));
}

#[test]
fn wander_spots_keep_a_margin() {
    let o = build_office(2);
    let tiles = get_walkable_tiles(&o);
    assert!(!tiles.is_empty());
    for &(c, r) in &tiles {
        assert!(o.is_walkable(c, r));
        assert!(c >= 3 && r >= 3);
        assert!(c + 3 < o.cols && r + 3 < o.rows);
    }
    assert!(tiles.contains(&(20, 10)));
    assert!(!tiles.contains(&(2, 10)));
    // row-major order
    for w in tiles.windows(2) {
        assert!(w[0].1 < w[1].1 || (w[0].1 == w[1].1 && w[0].0 < w[1].0));
    }
}

#[test]
fn every_seat_and_chair_can_be_walked_to_from_every_other() {
    for n in [1usize, 4, 6] {
        let o = build_office(n);
        let mut spots: Vec<(u16, u16)> = o.seats.iter().map(|s| (s.col, s.row)).collect();
        spots.extend(o.lounge_seats.iter().map(|s| (s.col, s.row)));
        for &p in &spots {
            for &q in &spots {
                if p != q {
                    assert!(!find_path(p.0, p.1, q.0, q.1, &o).is_empty(), "{p:?} -> {q:?} with {n} agents");
                }
            }
        }
    }
}
