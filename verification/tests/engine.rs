//! End-to-end checks of the move-decision engine on concrete boards.

use battlesnake_core::{get_move, remaining_space, value_of_move, Battlesnake, Board, Coord};

fn coords(cells: &[(i32, i32)]) -> Vec<Coord> {
    cells.iter().map(|&(x, y)| Coord { x, y }).collect()
}

fn snake(id: &str, head: (i32, i32), body: &[(i32, i32)], health: i32, length: i32) -> Battlesnake {
    Battlesnake {
        body: coords(body),
        head: Coord { x: head.0, y: head.1 },
        health,
        id: id.to_string(),
        latency: String::new(),
        length,
        name: id.to_string(),
        shout: None,
        squad: None,
    }
}

fn board(width: i32, height: i32, snakes: Vec<Battlesnake>) -> Board {
    Board {
        food: Vec::new(),
        hazards: Vec::new(),
        height,
        snakes,
        width,
    }
}

#[test]
fn corner_agent_moves_down() {
    let me = snake("me", (9, 9), &[(8, 9)], 100, 4);
    let b = board(10, 10, vec![me.clone()]);
    assert_eq!(get_move(&b, &me), "down");
}

#[test]
fn identical_input_identical_direction() {
    let me = snake("me", (9, 9), &[(8, 9)], 100, 4);
    let b = board(10, 10, vec![me.clone()]);
    let first = get_move(&b, &me);
    let second = get_move(&b, &me);
    assert_eq!(first, second);
}

#[test]
fn all_open_ties_break_to_up() {
    let me = snake("me", (5, 5), &[], 100, 4);
    let b = board(10, 10, Vec::new());
    assert_eq!(get_move(&b, &me), "up");
}

#[test]
fn open_interior_cell_scores_150() {
    let me = snake("me", (0, 0), &[], 100, 4);
    let b = board(10, 10, Vec::new());
    // base 100, no modifiers but the full-room bonus of 50
    assert_eq!(value_of_move(&Coord { x: 5, y: 5 }, &b, &me), 150);
}

#[test]
fn out_of_bounds_cell_scores_floor() {
    let me = snake("me", (0, 0), &[], 100, 4);
    let b = board(10, 10, Vec::new());
    // base -100, no room at all: -(80 - 0)
    assert_eq!(value_of_move(&Coord { x: -1, y: 5 }, &b, &me), -180);
    assert_eq!(value_of_move(&Coord { x: 5, y: -1 }, &b, &me), -180);
    assert_eq!(value_of_move(&Coord { x: 10, y: 5 }, &b, &me), -180);
    assert_eq!(value_of_move(&Coord { x: 5, y: 10 }, &b, &me), -180);
}

#[test]
fn occupied_cell_scores_below_open_cell() {
    let me = snake("me", (0, 0), &[], 100, 4);
    let rival = snake("rival", (5, 5), &[(5, 4)], 100, 2);
    let b = board(10, 10, vec![rival]);
    // base -10, no room: -(80 - 0)
    assert_eq!(value_of_move(&Coord { x: 5, y: 4 }, &b, &me), -90);
    let open = value_of_move(&Coord { x: 2, y: 2 }, &b, &me);
    assert!(value_of_move(&Coord { x: 5, y: 4 }, &b, &me) < open);
}

#[test]
fn food_cell_gains_75() {
    let me = snake("me", (0, 0), &[], 100, 4);
    let mut b = board(10, 10, Vec::new());
    b.food = coords(&[(5, 5)]);
    // base 100, food 75, room 50
    assert_eq!(value_of_move(&Coord { x: 5, y: 5 }, &b, &me), 225);
}

#[test]
fn hazard_cell_pays_for_lost_health() {
    let me = snake("me", (0, 0), &[], 100, 4);
    let mut b = board(10, 10, Vec::new());
    b.hazards = coords(&[(5, 5)]);
    // base 100, hazard -(100 - (100 - 14)) = -14, room 50
    assert_eq!(value_of_move(&Coord { x: 5, y: 5 }, &b, &me), 136);
    let weak = snake("me", (0, 0), &[], 20, 4);
    // hazard penalty grows as health shrinks: -(100 - (20 - 14)) = -94
    assert_eq!(value_of_move(&Coord { x: 5, y: 5 }, &b, &weak), 56);
}

#[test]
fn lowest_row_and_column_are_penalized() {
    let me = snake("me", (9, 9), &[], 100, 4);
    let b = board(10, 10, Vec::new());
    // base 60 instead of 100, room 50
    assert_eq!(value_of_move(&Coord { x: 5, y: 0 }, &b, &me), 110);
    assert_eq!(value_of_move(&Coord { x: 0, y: 5 }, &b, &me), 110);
}

#[test]
fn threatened_cell_loses_80() {
    let me = snake("me", (0, 0), &[], 100, 4);
    let rival = snake("rival", (5, 5), &[], 100, 4);
    let b = board(10, 10, vec![rival]);
    // base 100, threat -80, room 50
    assert_eq!(value_of_move(&Coord { x: 5, y: 6 }, &b, &me), 70);
}

#[test]
fn remaining_space_caps_at_my_length() {
    let me = snake("me", (0, 0), &[], 100, 4);
    let b = board(10, 10, Vec::new());
    assert_eq!(remaining_space(&Coord { x: 5, y: 5 }, &b, &me), 4);
}

#[test]
fn remaining_space_counts_a_small_pocket_exactly() {
    // Only (0,0) and (1,0) are connected: everything around them is covered.
    let me = snake("me", (9, 9), &[], 100, 4);
    let wall = snake("wall", (0, 1), &[(1, 1), (2, 1), (2, 0)], 100, 4);
    let b = board(10, 10, vec![wall]);
    assert_eq!(remaining_space(&Coord { x: 0, y: 0 }, &b, &me), 2);
}

#[test]
fn remaining_space_grows_when_a_wall_opens() {
    let me = snake("me", (9, 9), &[], 100, 3);
    let wall = snake("wall", (0, 1), &[(1, 1), (2, 1), (2, 0)], 100, 4);
    let open = snake("wall", (0, 1), &[(1, 1), (2, 1)], 100, 3);
    let walled = board(10, 10, vec![wall]);
    let opened = board(10, 10, vec![open]);
    let before = remaining_space(&Coord { x: 0, y: 0 }, &walled, &me);
    let after = remaining_space(&Coord { x: 0, y: 0 }, &opened, &me);
    assert_eq!(before, 2);
    assert_eq!(after, 3);
    assert!(before <= after);
}

#[test]
fn enclosed_occupied_cell_has_no_space() {
    let wall = snake("wall", (5, 5), &[(5, 6), (5, 4), (4, 5), (6, 5)], 100, 5);
    let me = snake("me", (0, 0), &[], 100, 4);
    let b = board(10, 10, vec![wall]);
    assert_eq!(remaining_space(&Coord { x: 5, y: 5 }, &b, &me), 0);
}

#[test]
fn enclosed_free_cell_counts_only_itself() {
    let wall = snake("wall", (5, 6), &[(5, 4), (4, 5), (6, 5)], 100, 4);
    let me = snake("me", (0, 0), &[], 100, 4);
    let b = board(10, 10, vec![wall]);
    assert_eq!(remaining_space(&Coord { x: 5, y: 5 }, &b, &me), 1);
}

#[test]
fn zero_length_agent_sees_no_space() {
    let me = snake("me", (0, 0), &[], 100, 0);
    let b = board(10, 10, Vec::new());
    assert_eq!(remaining_space(&Coord { x: 5, y: 5 }, &b, &me), 0);
}
