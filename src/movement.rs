use vstd::prelude::*;

use crate::piece::Team;
use crate::square::{Pos, Square};

verus! {

/// A purely geometric pair of cells, with no claim about occupancy or legality.
#[derive(Clone, Copy, Debug, PartialEq, Eq, Structural)]
pub struct RawMove {
    pub from: Pos,
    pub to: Pos,
}

/// A candidate move, holding snapshots of its origin and destination cells as
/// they were when the move was generated.
#[derive(Clone, Copy, Debug, PartialEq, Eq, Structural)]
pub struct Move {
    pub from: Square,
    pub to: Square,
}

impl Move {
    pub fn new(from: Square, to: Square) -> (r: Move)
        ensures
            r == (Move { from, to }),
    {
        Move { from, to }
    }

    pub fn from(&self) -> (r: &Square)
        ensures
            *r == self.from,
    {
        &self.from
    }

    pub fn to(&self) -> (r: &Square)
        ensures
            *r == self.to,
    {
        &self.to
    }

    /// Whether the destination held a piece when the move was generated.
    pub fn is_capture(&self) -> (r: bool)
        ensures
            r == self.to.content is Some,
    {
        self.to.content.is_some()
    }
}

/// A move that survived the check-safety filter, tagged with the side allowed
/// to play it. Only the board's legal-move generation makes these.
#[derive(Clone, Copy, Debug, PartialEq, Eq)]
pub struct LegalMove {
    mv: Move,
    team: Team,
}

impl LegalMove {
    /// The underlying move.
    pub closed spec fn movement(self) -> Move {
        self.mv
    }

    /// The side permitted to play the move.
    pub closed spec fn side(self) -> Team {
        self.team
    }

    /// A legal move is determined by its move and its side.
    pub proof fn lemma_determined(self, other: LegalMove)
        ensures
            self.movement() == other.movement() && self.side() == other.side() ==> self == other,
    {
    }

    pub(crate) fn new(mv: Move, team: Team) -> (r: LegalMove)
        ensures
            r.movement() == mv,
            r.side() == team,
    {
        LegalMove { mv, team }
    }

    pub fn mv(&self) -> (r: &Move)
        ensures
            *r == self.movement(),
    {
        &self.mv
    }

    pub fn team(&self) -> (r: Team)
        ensures
            r == self.side(),
    {
        self.team
    }
}

} // verus!
