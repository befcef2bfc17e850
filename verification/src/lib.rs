//! Rules engine for a deterministic, simultaneous-turn board game on a small
//! rectangular grid. Players privately propose moves; the engine resolves
//! conflicting proposals, applies the surviving moves (chains included), then
//! advances a neutral automaton piece by a fixed physics-like rule and checks
//! for a win.

pub mod geom;
pub mod kinds;
pub mod grid;
pub mod board;
pub mod decision;
pub mod game;

pub use geom::Coord;
pub use geom::Delta;
pub use geom::Move;
pub use geom::Pid;
pub use kinds::Cell;
pub use kinds::CoordFeedback;
pub use kinds::CoordsFeedback;
pub use kinds::MoveFeedback;
pub use kinds::MoveResult;
pub use kinds::Particle;
pub use kinds::Raycast;
pub use kinds::RoundState;
pub use board::Board;
pub use decision::AutomatonDecision;
pub use decision::decision_eq;
pub use decision::decision_gt;
pub use decision::evaluate_axis;
pub use game::Game;
