//! A move: a target column, optionally tagged with the color that plays it.

use vstd::prelude::*;

use crate::piece::Piece;

verus! {

/// A drop into `column`. `color` may be absent; when present it names the
/// color making the move, and a mismatch with whose turn it is makes the
/// move invalid.
#[derive(Debug, Copy, Clone)]
pub struct BoardMove {
    pub column: usize,
    pub color: Option<Piece>,
}

impl BoardMove {
    /// Tags the move with a color.
    pub fn add_color(&mut self, color: Piece)
        ensures
            final(self).column == old(self).column,
            final(self).color == Some(color),
    {
        self.color = Some(color);
    }
}

impl PartialEq for BoardMove {
    fn eq(&self, other: &BoardMove) -> (r: bool)
        ensures
            r == (*self == *other),
    {
        let colors_match = match (self.color, other.color) {
            (None, None) => true,
            (Some(a), Some(b)) => a == b,
            _ => false,
        };
        self.column == other.column && colors_match
    }
}

impl Eq for BoardMove {

}

impl vstd::std_specs::cmp::PartialEqSpecImpl for BoardMove {
    open spec fn obeys_eq_spec() -> bool {
        true
    }

    open spec fn eq_spec(&self, other: &BoardMove) -> bool {
        *self == *other
    }
}

impl From<usize> for BoardMove {
    /// A bare column move, with no color attached.
    fn from(value: usize) -> (r: BoardMove)
        ensures
            r == (BoardMove { column: value, color: None::<Piece> }),
    {
        BoardMove { column: value, color: None }
    }
}

impl vstd::std_specs::convert::FromSpecImpl<usize> for BoardMove {
    open spec fn obeys_from_spec() -> bool {
        true
    }

    open spec fn from_spec(value: usize) -> BoardMove {
        BoardMove { column: value, color: None }
    }
}

impl From<(usize, Piece)> for BoardMove {
    /// A column move tagged with the color that plays it.
    fn from(value: (usize, Piece)) -> (r: BoardMove)
        ensures
            r == (BoardMove { column: value.0, color: Some(value.1) }),
    {
        BoardMove { column: value.0, color: Some(value.1) }
    }
}

impl vstd::std_specs::convert::FromSpecImpl<(usize, Piece)> for BoardMove {
    open spec fn obeys_from_spec() -> bool {
        true
    }

    open spec fn from_spec(value: (usize, Piece)) -> BoardMove {
        BoardMove { column: value.0, color: Some(value.1) }
    }
}

} // verus!
