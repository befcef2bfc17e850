use vstd::prelude::*;
use crate::geom::Coord;

verus! {

/// What a cell holds.
#[derive(Debug, Clone, Copy, PartialEq, Eq, Structural)]
pub enum Particle {
    Repulsor,
    Attractor,
    Automaton,
    Vacuum,
}

impl Particle {
    /// True for the empty particle.
    pub fn is_vacuum(self) -> (r: bool)
        ensures
            r == (self == Particle::Vacuum),
    {
        match self {
            Particle::Vacuum => true,
            _ => false,
        }
    }
}

/// One square of the board: its particle and the two transient round marks.
#[derive(Debug, Clone, Copy, PartialEq, Eq, Structural)]
pub struct Cell {
    pub what: Particle,
    pub conflict: bool,
    pub passable: bool,
}

impl Cell {
    /// True when a move path may not cross this cell: it holds a particle
    /// and is not marked passable.
    pub open spec fn spec_occludes(self) -> bool {
        !(self.what == Particle::Vacuum || self.passable)
    }

    /// True when a move path may not cross this cell.
    pub fn occludes(&self) -> (r: bool)
        ensures
            r == self.spec_occludes(),
    {
        !(self.what.is_vacuum() || self.passable)
    }
}

/// Verdict on one coordinate of a proposed move.
#[derive(Debug, Clone, Copy, PartialEq, Eq, Structural)]
pub enum CoordFeedback {
    /// The coordinate is usable.
    Fine,
    /// The coordinate is marked conflicted this round.
    Conflict,
    /// The coordinate is not on the board.
    Oob,
    /// The coordinate is the automaton's cell, which is off-limits.
    Automaton,
}

/// The verdicts on both coordinates of a proposed move, in the order
/// source then destination.
#[derive(Debug, Clone, PartialEq, Eq)]
pub struct CoordsFeedback {
    pub data: Vec<(Coord, CoordFeedback)>,
}

/// Reply to a proposed move.
#[derive(Debug, Clone, PartialEq, Eq)]
pub enum MoveFeedback {
    /// The move is pending, waiting for the other players.
    Committed,
    /// One or both coordinates were rejected; both verdicts are reported.
    SeeCoords(CoordsFeedback),
    /// Source and destination must differ.
    MustMove,
    /// The move must stay within one row or one column.
    AxisAlignedOnly,
    /// The player is locked out while others resolve conflicts.
    WaitYourTurn,
    /// The game is over; no further moves matter.
    GameOver,
}

/// Phase of the round state machine.
#[derive(Debug, Clone, Copy, PartialEq, Eq, Structural)]
pub enum RoundState {
    /// No proposals yet this round.
    Fresh,
    /// Some players are still to propose.
    PartiallySubmitted,
    /// A conflict was found; the involved players are re-proposing.
    ResolvingConflict,
    /// A goal was reached; the game has ended.
    GameOver,
}

/// Outcome of applying one accepted move.
#[derive(Debug, Clone, Copy, PartialEq, Eq, Structural)]
pub enum MoveResult {
    /// There was no piece at the source when the move was applied.
    NoSource,
    /// The path was occluded by a piece at the reported coordinate.
    OccupiedAt(Coord),
    /// The move was applied.
    Applied,
}

/// Result of walking a ray: the first particle found, where it was found
/// (nothing if the ray left the board), and the distance walked.
#[derive(Debug, Clone, Copy, PartialEq, Eq)]
pub struct Raycast {
    pub what: Particle,
    pub hit: Option<Coord>,
    pub dist: usize,
}

} // verus!
