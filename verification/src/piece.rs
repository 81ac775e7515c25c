//! The two piece colors and the contents of one board cell.

use vstd::prelude::*;

verus! {

/// One of the two players' colors. Yellow moves first and carries positive
/// sign in evaluation arithmetic; Red is the second mover and carries
/// negative sign.
#[derive(Debug, PartialEq, Eq, Structural, Clone, Copy, Hash)]
pub enum Piece {
    Yellow,
    Red,
}

impl Piece {
    /// The sign this color contributes to a window accumulator.
    pub open spec fn sign(self) -> int {
        match self {
            Piece::Yellow => 1,
            Piece::Red => -1,
        }
    }
}

/// The contents of one cell of the grid.
#[derive(Debug, PartialEq, Eq, Structural, Clone, Copy, Hash)]
pub enum Square {
    Empty,
    NonEmpty(Piece),
}

impl Square {
    pub open spec fn spec_is_empty(&self) -> bool {
        self is Empty
    }

    /// The sign an occupant contributes: +1 Yellow, -1 Red, 0 empty.
    pub open spec fn sign(self) -> int {
        match self {
            Square::Empty => 0,
            Square::NonEmpty(p) => p.sign(),
        }
    }

    #[verifier::when_used_as_spec(spec_is_empty)]
    pub fn is_empty(&self) -> (r: bool)
        ensures
            r == self.spec_is_empty(),
    {
        matches!(self, Square::Empty)
    }
}

impl Default for Square {
    fn default() -> (r: Self)
        ensures
            r == Square::Empty,
    {
        Square::Empty
    }
}

} // verus!
