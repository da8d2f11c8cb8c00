//! The board data model: grid coordinates, snakes, and the board snapshot
//! that a move decision reads.

use vstd::prelude::*;

verus! {

/// One integer-coordinate grid position. Cells on a `width x height` grid
/// satisfy `0 <= x < width` and `0 <= y < height`; the four translation
/// methods may step one cell outside that range, which callers treat as
/// out of bounds.
#[derive(Clone, Copy, Debug, PartialEq, Eq, Structural)]
pub struct Coord {
    pub x: i32,
    pub y: i32,
}

impl Coord {
    /// The cell one step down (toward smaller `y`).
    pub fn down(&self) -> (r: Coord)
        requires
            self.y > i32::MIN,
        ensures
            r.x == self.x,
            r.y == self.y - 1,
    {
        Coord { x: self.x, y: self.y - 1 }
    }

    /// The cell one step left (toward smaller `x`).
    pub fn left(&self) -> (r: Coord)
        requires
            self.x > i32::MIN,
        ensures
            r.x == self.x - 1,
            r.y == self.y,
    {
        Coord { x: self.x - 1, y: self.y }
    }

    /// The cell one step right (toward larger `x`).
    pub fn right(&self) -> (r: Coord)
        requires
            self.x < i32::MAX,
        ensures
            r.x == self.x + 1,
            r.y == self.y,
    {
        Coord { x: self.x + 1, y: self.y }
    }

    /// The cell one step up (toward larger `y`).
    pub fn up(&self) -> (r: Coord)
        requires
            self.y < i32::MAX,
        ensures
            r.x == self.x,
            r.y == self.y + 1,
    {
        Coord { x: self.x, y: self.y + 1 }
    }
}

/// One agent on the board: its identity, where it stands, and the health
/// and length figures the valuation heuristic reads. `length` is the
/// authoritative size for threat comparisons; it need not equal
/// `body.len()`.
#[derive(Clone, Debug)]
pub struct Battlesnake {
    pub body: Vec<Coord>,
    pub head: Coord,
    pub health: i32,
    pub id: String,
    pub latency: String,
    pub length: i32,
    pub name: String,
    pub shout: Option<String>,
    pub squad: Option<String>,
}

impl Default for Battlesnake {
    /// A fresh agent: full health, the starting length of four, and the
    /// engine's own name, standing on the origin with no body yet.
    fn default() -> (result: Battlesnake)
        ensures
            result.body@ == Seq::<Coord>::empty(),
            result.head == (Coord { x: 0, y: 0 }),
            result.health == 100,
            result.id@ == "CorneliusCodes"@,
            result.latency@ == Seq::<char>::empty(),
            result.length == 4,
            result.name@ == "CorneliusCodes"@,
            result.shout is None,
            result.squad is None,
    {
        Battlesnake {
            body: Vec::new(),
            head: Coord { x: 0, y: 0 },
            health: 100,
            id: "CorneliusCodes".to_owned(),
            latency: String::new(),
            length: 4,
            name: "CorneliusCodes".to_owned(),
            shout: None,
            squad: None,
        }
    }
}

/// Immutable snapshot of one turn: grid dimensions, food and hazard cells,
/// and every snake currently alive (the acting agent included).
#[derive(Clone, Debug)]
pub struct Board {
    pub food: Vec<Coord>,
    pub hazards: Vec<Coord>,
    pub height: i32,
    pub snakes: Vec<Battlesnake>,
    pub width: i32,
}

/// A cell lies on the grid: `0 <= x < width` and `0 <= y < height`.
pub open spec fn in_bounds(board: Board, c: Coord) -> bool {
    0 <= c.x < board.width && 0 <= c.y < board.height
}

/// A well-formed board has positive dimensions. Inputs are produced by the
/// game protocol and arrive well-formed; this is the part the decision
/// logic relies on.
pub open spec fn board_wf(board: Board) -> bool {
    0 < board.width && 0 < board.height
}

/// Every food cell, hazard cell, and snake-occupied cell lies on the grid.
/// Well-formed game snapshots satisfy this; it is assumed only by the
/// stated laws, never by the executable functions.
pub open spec fn board_cells_wf(board: Board) -> bool {
    &&& forall|i: int| 0 <= i < board.food@.len() ==> in_bounds(board, #[trigger] board.food@[i])
    &&& forall|i: int|
        0 <= i < board.hazards@.len() ==> in_bounds(board, #[trigger] board.hazards@[i])
    &&& forall|i: int, c: Coord|
        0 <= i < board.snakes@.len() && #[trigger] snake_occupies(board.snakes@[i], c)
            ==> in_bounds(board, c)
}

/// The bounds the heuristic arithmetic needs of the acting agent: health
/// within the game's 0..=100 range and a length small enough that the
/// signed 32-bit scores cannot overflow.
pub open spec fn agent_wf(me: Battlesnake) -> bool {
    &&& 0 <= me.health <= 100
    &&& me.length <= i32::MAX - 400
}

/// A snake stands on a cell: the cell is its head or one of its body
/// segments.
pub open spec fn snake_occupies(s: Battlesnake, c: Coord) -> bool {
    c == s.head || s.body@.contains(c)
}

/// Some snake's head or body covers the cell.
pub open spec fn occupied(snakes: Seq<Battlesnake>, c: Coord) -> bool {
    exists|i: int| 0 <= i < snakes.len() && snake_occupies(#[trigger] snakes[i], c)
}

/// Two cells are one cardinal step apart.
pub open spec fn adjacent(a: Coord, b: Coord) -> bool {
    ||| a.x == b.x && (a.y + 1 == b.y || b.y + 1 == a.y)
    ||| a.y == b.y && (a.x + 1 == b.x || b.x + 1 == a.x)
}

/// The cell one step up from `c`, as a spec value. On cells whose
/// neighbors exist on some grid the cast never wraps.
pub open spec fn up_of(c: Coord) -> Coord {
    Coord { x: c.x, y: (c.y + 1) as i32 }
}

/// The cell one step down from `c`, as a spec value.
pub open spec fn down_of(c: Coord) -> Coord {
    Coord { x: c.x, y: (c.y - 1) as i32 }
}

/// The cell one step left from `c`, as a spec value.
pub open spec fn left_of(c: Coord) -> Coord {
    Coord { x: (c.x - 1) as i32, y: c.y }
}

/// The cell one step right from `c`, as a spec value.
pub open spec fn right_of(c: Coord) -> Coord {
    Coord { x: (c.x + 1) as i32, y: c.y }
}

/// A cell a snake may enter: on the grid and covered by no snake.
pub open spec fn free_cell(board: Board, c: Coord) -> bool {
    in_bounds(board, c) && !occupied(board.snakes@, c)
}

/// One rival threatens the cell: it is someone else, at least as long as the
/// acting agent, and its head stands one step away, so it could enter the
/// cell next turn and win (or tie) a head-to-head collision.
pub open spec fn threat_from(s: Battlesnake, me: Battlesnake, c: Coord) -> bool {
    s.id@ != me.id@ && s.length >= me.length && adjacent(s.head, c)
}

/// Some rival at least as long as the acting agent could move onto the cell
/// next turn.
pub open spec fn threatened(snakes: Seq<Battlesnake>, me: Battlesnake, c: Coord) -> bool {
    exists|i: int| 0 <= i < snakes.len() && threat_from(#[trigger] snakes[i], me, c)
}

/// Linear membership scan over a list of cells.
pub(crate) fn contains_coord(cells: &Vec<Coord>, c: Coord) -> (r: bool)
    ensures
        r == cells@.contains(c),
{
    let mut i: usize = 0;
    while i < cells.len()
        invariant
            i <= cells@.len(),
            forall|k: int| 0 <= k < i ==> cells@[k] != c,
        decreases cells@.len() - i,
    {
        if cells[i] == c {
            return true;
        }
        i = i + 1;
    }
    false
}

} // verus!
