//! A move-decision engine for a snake agent on a shared grid: a board
//! snapshot model, occupancy queries, a bounded flood-fill reachable-space
//! estimator, a per-direction valuation heuristic, and a deterministic
//! move selector. Every function's behaviour is stated in its contract and
//! verified.

pub mod logic;
pub mod model;
pub mod space;

pub use logic::Direction;
pub use logic::get_move;
pub use logic::spot_has_food;
pub use logic::spot_has_hazards;
pub use logic::spot_has_snake;
pub use logic::spot_might_have_snake;
pub use logic::spot_modifier;
pub use logic::valid_move;
pub use logic::value_of_move;
pub use model::Battlesnake;
pub use model::Board;
pub use model::Coord;
pub use space::check_spot_for_space;
pub use space::remaining_space;
