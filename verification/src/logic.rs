//! The decision logic: occupancy queries over the board model, the
//! additive per-direction valuation heuristic, and the move selector with
//! its fixed tie-break order.

use vstd::prelude::*;

use crate::model::Battlesnake;
use crate::model::Board;
use crate::model::Coord;
use crate::model::adjacent;
use crate::model::agent_wf;
use crate::model::board_cells_wf;
use crate::model::board_wf;
use crate::model::contains_coord;
use crate::model::down_of;
use crate::model::free_cell;
use crate::model::in_bounds;
use crate::model::left_of;
use crate::model::occupied;
use crate::model::right_of;
use crate::model::snake_occupies;
use crate::model::threat_from;
use crate::model::threatened;
use crate::model::up_of;
use crate::space::lemma_remaining_space_capped;
use crate::space::lemma_space_at_least_one;
use crate::space::lemma_space_of_blocked;
use crate::space::remaining_space;
use crate::space::spec_remaining_space;

verus! {

/// The cell holds food.
pub fn spot_has_food(spot: &Coord, board: &Board) -> (r: bool)
    ensures
        r == board.food@.contains(*spot),
{
    contains_coord(&board.food, *spot)
}

/// The cell is hazardous.
pub fn spot_has_hazards(spot: &Coord, board: &Board) -> (r: bool)
    ensures
        r == board.hazards@.contains(*spot),
{
    contains_coord(&board.hazards, *spot)
}

/// Some snake's head or body covers the cell.
pub fn spot_has_snake(spot: &Coord, snakes: &[Battlesnake]) -> (r: bool)
    ensures
        r == occupied(snakes@, *spot),
{
    let mut i: usize = 0;
    while i < snakes.len()
        invariant
            i <= snakes@.len(),
            forall|k: int| 0 <= k < i ==> !snake_occupies(#[trigger] snakes@[k], *spot),
        decreases snakes@.len() - i,
    {
        let snake = &snakes[i];
        if snake.head == *spot || contains_coord(&snake.body, *spot) {
            assert(snake_occupies(snakes@[i as int], *spot));
            return true;
        }
        i = i + 1;
    }
    false
}

/// Some rival snake, no shorter than the acting agent, has its head one
/// cardinal step from the cell, so it could claim the cell next turn.
pub fn spot_might_have_snake(spot: &Coord, snakes: &[Battlesnake], me: &Battlesnake) -> (r: bool)
    ensures
        r == threatened(snakes@, *me, *spot),
{
    let mut i: usize = 0;
    while i < snakes.len()
        invariant
            i <= snakes@.len(),
            forall|k: int| 0 <= k < i ==> !threat_from(#[trigger] snakes@[k], *me, *spot),
        decreases snakes@.len() - i,
    {
        let snake = &snakes[i];
        if !(snake.id == me.id) && snake.length >= me.length {
            let hx = snake.head.x as i64;
            let hy = snake.head.y as i64;
            let sx = spot.x as i64;
            let sy = spot.y as i64;
            let adj = (hx == sx && (hy + 1 == sy || sy + 1 == hy)) || (hy == sy && (hx + 1 == sx
                || sx + 1 == hx));
            assert(adj == adjacent(snake.head, *spot));
            if adj {
                assert(threat_from(snakes@[i as int], *me, *spot));
                return true;
            }
        }
        i = i + 1;
    }
    false
}

/// The cell can legally be entered: it lies on the grid and no snake covers
/// it.
pub fn valid_move(spot: &Coord, board: &Board) -> (r: bool)
    ensures
        r == free_cell(*board, *spot),
{
    if spot.x < 0 || spot.y < 0 || spot.x >= board.width || spot.y >= board.height {
        false
    } else {
        !spot_has_snake(spot, &board.snakes)
    }
}

/// The base worth of a destination cell, before modifiers: snake-occupied
/// cells are worth `-10`, cells off the grid `-100`, open cells on the
/// lowest row or column `60` (edge-hugging penalty), any other open cell
/// `100`.
pub open spec fn spec_base_value(board: Board, spot: Coord) -> int {
    if occupied(board.snakes@, spot) {
        -10
    } else if !free_cell(board, spot) {
        -100
    } else if spot.y == 0 {
        60
    } else if spot.x == 0 {
        60
    } else {
        100
    }
}

/// The cumulative modifiers on a destination cell: `-80` when a rival head
/// threatens it; `+75` for food, or, when it is hazardous instead, a
/// penalty growing as hazard damage would erode the agent's remaining
/// health; `+50` when the agent can reach at least its own length in free
/// cells from there, and otherwise a penalty harsher the less room remains.
pub open spec fn spec_spot_modifier(board: Board, me: Battlesnake, spot: Coord) -> int {
    let threat = if threatened(board.snakes@, me, spot) {
        -80
    } else {
        0
    };
    let sustenance = if board.food@.contains(spot) {
        75
    } else if board.hazards@.contains(spot) {
        -(100 - (me.health - 14))
    } else {
        0
    };
    let spaces = spec_remaining_space(board, spot, me.length as int);
    let room = if spaces >= me.length {
        50
    } else {
        -(80 - spaces)
    };
    threat + sustenance + room
}

/// The full score of a destination cell: base worth plus modifiers.
pub open spec fn spec_value_of_move(board: Board, me: Battlesnake, spot: Coord) -> int {
    spec_base_value(board, spot) + spec_spot_modifier(board, me, spot)
}

/// The cumulative modifiers on a destination cell; see `spec_spot_modifier`
/// for the policy.
pub fn spot_modifier(spot: &Coord, board: &Board, me: &Battlesnake) -> (r: i32)
    requires
        agent_wf(*me),
    ensures
        r as int == spec_spot_modifier(*board, *me, *spot),
{
    let mut modifier: i32 = 0;
    if spot_might_have_snake(spot, &board.snakes, me) {
        modifier = modifier - 80;
    }
    if spot_has_food(spot, board) {
        modifier = modifier + 75;
    } else if spot_has_hazards(spot, board) {
        let leftover_health = me.health - 14;
        modifier = modifier - (100 - leftover_health);
    }
    let spaces = remaining_space(spot, board, me);
    if spaces >= me.length {
        modifier = modifier + 50;
    } else {
        modifier = modifier - (80 - spaces);
    }
    modifier
}

/// The signed score of moving onto `spot`: base worth plus modifiers.
/// Off-grid and snake-occupied cells take the most severe base values, so a
/// colliding move never outranks a merely suboptimal legal one with the
/// same surroundings.
pub fn value_of_move(spot: &Coord, board: &Board, me: &Battlesnake) -> (r: i32)
    requires
        agent_wf(*me),
    ensures
        r as int == spec_value_of_move(*board, *me, *spot),
{
    let base_value: i32 = if spot_has_snake(spot, &board.snakes) {
        -10
    } else if !valid_move(spot, board) {
        -100
    } else if spot.y == 0 {
        60
    } else if spot.x == 0 {
        60
    } else {
        100
    };
    base_value + spot_modifier(spot, board, me)
}

/// An out-of-bounds candidate scores at the policy floor regardless of
/// food, hazard, and room modifiers: on a well-formed board nothing lies
/// off the grid, so such a cell takes the harshest base value and the
/// harshest room penalty, and only the rival-threat modifier — fixed by the
/// rivals' heads, not by the cell's contents — can push it lower still.
pub proof fn lemma_out_of_bounds_scores_floor(board: Board, me: Battlesnake, spot: Coord)
    requires
        board_cells_wf(board),
        1 <= me.length,
        !in_bounds(board, spot),
    ensures
        spec_value_of_move(board, me, spot) == -180 + (if threatened(board.snakes@, me, spot) {
            -80int
        } else {
            0int
        }),
        spec_value_of_move(board, me, spot) <= -180,
{
    assert(!occupied(board.snakes@, spot)) by {
        if occupied(board.snakes@, spot) {
            let i = choose|i: int|
                0 <= i < board.snakes@.len() && snake_occupies(board.snakes@[i], spot);
            assert(snake_occupies(board.snakes@[i], spot));
        }
    }
    assert(!board.food@.contains(spot)) by {
        if board.food@.contains(spot) {
            let i = choose|i: int| 0 <= i < board.food@.len() && board.food@[i] == spot;
            assert(in_bounds(board, board.food@[i]));
        }
    }
    assert(!board.hazards@.contains(spot)) by {
        if board.hazards@.contains(spot) {
            let i = choose|i: int| 0 <= i < board.hazards@.len() && board.hazards@[i] == spot;
            assert(in_bounds(board, board.hazards@[i]));
        }
    }
    lemma_space_of_blocked(board, spot, me.length as int);
}

/// A cell occupied by any snake's head or body scores strictly below an
/// otherwise comparable open cell: one with the same rival-threat, food,
/// and hazard status. A colliding move never outranks a legal one with the
/// same surroundings.
pub proof fn lemma_occupied_scores_below_open(
    board: Board,
    me: Battlesnake,
    blocked: Coord,
    open_cell: Coord,
)
    requires
        agent_wf(me),
        1 <= me.length,
        occupied(board.snakes@, blocked),
        free_cell(board, open_cell),
        threatened(board.snakes@, me, blocked) == threatened(board.snakes@, me, open_cell),
        board.food@.contains(blocked) == board.food@.contains(open_cell),
        board.hazards@.contains(blocked) == board.hazards@.contains(open_cell),
    ensures
        spec_value_of_move(board, me, blocked) < spec_value_of_move(board, me, open_cell),
{
    lemma_space_of_blocked(board, blocked, me.length as int);
    lemma_space_at_least_one(board, open_cell, me.length as int);
    lemma_remaining_space_capped(board, open_cell, me.length as int);
}

/// One of the four cardinal moves, in the fixed tie-break order the
/// selector walks them: up, down, left, right.
#[derive(Clone, Copy, Debug, PartialEq, Eq, Structural)]
pub enum Direction {
    Up,
    Down,
    Left,
    Right,
}

/// The direction the selector picks: the first of up, down, left, right
/// whose destination scores no lower than every later one — that is, the
/// first direction carrying the maximum score.
pub open spec fn spec_best_direction(board: Board, me: Battlesnake) -> Direction {
    let up_score = spec_value_of_move(board, me, up_of(me.head));
    let down_score = spec_value_of_move(board, me, down_of(me.head));
    let left_score = spec_value_of_move(board, me, left_of(me.head));
    let right_score = spec_value_of_move(board, me, right_of(me.head));
    if up_score >= down_score && up_score >= left_score && up_score >= right_score {
        Direction::Up
    } else if down_score >= left_score && down_score >= right_score {
        Direction::Down
    } else if left_score >= right_score {
        Direction::Left
    } else {
        Direction::Right
    }
}

/// Scores the four cells around the agent's head and returns the name of
/// the direction with the greatest score; ties go to the first of up, down,
/// left, right, so the choice is a pure function of the board and the
/// agent. Even when every score sits at the floor a direction is still
/// returned.
pub fn get_move(board: &Board, me: &Battlesnake) -> (r: &'static str)
    requires
        agent_wf(*me),
        board_wf(*board),
        in_bounds(*board, me.head),
    ensures
        spec_best_direction(*board, *me) == Direction::Up ==> r@ == "up"@,
        spec_best_direction(*board, *me) == Direction::Down ==> r@ == "down"@,
        spec_best_direction(*board, *me) == Direction::Left ==> r@ == "left"@,
        spec_best_direction(*board, *me) == Direction::Right ==> r@ == "right"@,
{
    let my_head = &me.head;
    let up_cell = my_head.up();
    let down_cell = my_head.down();
    let left_cell = my_head.left();
    let right_cell = my_head.right();
    proof {
        assert(up_cell == up_of(me.head));
        assert(down_cell == down_of(me.head));
        assert(left_cell == left_of(me.head));
        assert(right_cell == right_of(me.head));
    }
    let up_value = value_of_move(&up_cell, board, me);
    let down_value = value_of_move(&down_cell, board, me);
    let left_value = value_of_move(&left_cell, board, me);
    let right_value = value_of_move(&right_cell, board, me);
    if up_value >= down_value && up_value >= left_value && up_value >= right_value {
        "up"
    } else if down_value >= left_value && down_value >= right_value {
        "down"
    } else if left_value >= right_value {
        "left"
    } else {
        "right"
    }
}

} // verus!
