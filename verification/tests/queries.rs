//! Checks of the occupancy queries and the coordinate model.

use battlesnake_core::{
    spot_has_food, spot_has_hazards, spot_has_snake, spot_might_have_snake, valid_move,
    Battlesnake, Board, Coord,
};

fn coords(cells: &[(i32, i32)]) -> Vec<Coord> {
    cells.iter().map(|&(x, y)| Coord { x, y }).collect()
}

fn snake(id: &str, head: (i32, i32), body: &[(i32, i32)], health: i32, length: i32) -> Battlesnake {
    Battlesnake {
        body: coords(body),
        head: Coord { x: head.0, y: head.1 },
        health,
        id: id.to_string(),
        latency: String::new(),
        length,
        name: id.to_string(),
        shout: None,
        squad: None,
    }
}

#[test]
fn default_agent_starts_fresh() {
    let s = Battlesnake::default();
    assert_eq!(s.health, 100);
    assert_eq!(s.length, 4);
    assert_eq!(s.id, "CorneliusCodes");
    assert_eq!(s.name, "CorneliusCodes");
    assert!(s.body.is_empty());
    assert_eq!(s.head, Coord { x: 0, y: 0 });
}

#[test]
fn coord_translations() {
    let c = Coord { x: 3, y: 7 };
    assert_eq!(c.up(), Coord { x: 3, y: 8 });
    assert_eq!(c.down(), Coord { x: 3, y: 6 });
    assert_eq!(c.left(), Coord { x: 2, y: 7 });
    assert_eq!(c.right(), Coord { x: 4, y: 7 });
}

#[test]
fn hazard_column_classifies_exactly() {
    let hazards: Vec<(i32, i32)> = (0..10).map(|y| (0, y)).collect();
    let b = Board {
        food: Vec::new(),
        hazards: coords(&hazards),
        height: 10,
        snakes: Vec::new(),
        width: 10,
    };
    for y in 0..10 {
        assert!(spot_has_hazards(&Coord { x: 0, y }, &b));
    }
    for x in 1..10 {
        for y in 0..10 {
            assert!(!spot_has_hazards(&Coord { x, y }, &b));
        }
    }
}

#[test]
fn food_membership() {
    let b = Board {
        food: coords(&[(2, 3)]),
        hazards: Vec::new(),
        height: 10,
        snakes: Vec::new(),
        width: 10,
    };
    assert!(spot_has_food(&Coord { x: 2, y: 3 }, &b));
    assert!(!spot_has_food(&Coord { x: 3, y: 2 }, &b));
}

#[test]
fn snake_occupancy_covers_head_and_body() {
    let s = snake("a", (4, 4), &[(4, 3), (4, 2)], 100, 3);
    let snakes = vec![s];
    assert!(spot_has_snake(&Coord { x: 4, y: 4 }, &snakes));
    assert!(spot_has_snake(&Coord { x: 4, y: 3 }, &snakes));
    assert!(spot_has_snake(&Coord { x: 4, y: 2 }, &snakes));
    assert!(!spot_has_snake(&Coord { x: 4, y: 5 }, &snakes));
}

#[test]
fn rival_head_threatens_its_four_neighbors() {
    let me = snake("me", (0, 0), &[], 100, 3);
    let rival = snake("rival", (3, 5), &[], 100, 3);
    let snakes = vec![rival];
    assert!(spot_might_have_snake(&Coord { x: 4, y: 5 }, &snakes, &me));
    assert!(spot_might_have_snake(&Coord { x: 2, y: 5 }, &snakes, &me));
    assert!(spot_might_have_snake(&Coord { x: 3, y: 6 }, &snakes, &me));
    assert!(spot_might_have_snake(&Coord { x: 3, y: 4 }, &snakes, &me));
    assert!(!spot_might_have_snake(&Coord { x: 3, y: 5 }, &snakes, &me));
    assert!(!spot_might_have_snake(&Coord { x: 4, y: 6 }, &snakes, &me));
}

#[test]
fn a_snake_does_not_threaten_itself() {
    let rival = snake("rival", (3, 5), &[(3, 4)], 100, 3);
    let snakes = vec![rival.clone()];
    assert!(!spot_might_have_snake(&Coord { x: 4, y: 5 }, &snakes, &rival));
    assert!(!spot_might_have_snake(&Coord { x: 3, y: 6 }, &snakes, &rival));
}

#[test]
fn smaller_rivals_are_no_threat() {
    let me = snake("me", (0, 0), &[], 100, 4);
    let small = snake("small", (3, 5), &[], 100, 3);
    let snakes = vec![small];
    assert!(!spot_might_have_snake(&Coord { x: 4, y: 5 }, &snakes, &me));
}

#[test]
fn valid_move_rejects_walls_and_bodies() {
    let s = snake("a", (4, 4), &[(4, 3)], 100, 2);
    let b = Board {
        food: Vec::new(),
        hazards: Vec::new(),
        height: 10,
        snakes: vec![s],
        width: 10,
    };
    assert!(valid_move(&Coord { x: 0, y: 0 }, &b));
    assert!(valid_move(&Coord { x: 9, y: 9 }, &b));
    assert!(!valid_move(&Coord { x: -1, y: 0 }, &b));
    assert!(!valid_move(&Coord { x: 0, y: -1 }, &b));
    assert!(!valid_move(&Coord { x: 10, y: 0 }, &b));
    assert!(!valid_move(&Coord { x: 0, y: 10 }, &b));
    assert!(!valid_move(&Coord { x: 4, y: 4 }, &b));
    assert!(!valid_move(&Coord { x: 4, y: 3 }, &b));
}
