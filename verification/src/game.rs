//! The outcome type of a position evaluation and its total order.

use vstd::prelude::*;

verus! {

/// Whether the side to move maximizes or minimizes the evaluation.
#[derive(Debug, Clone, Copy, PartialEq, Eq, Structural)]
pub enum MoM {
    Min,
    Max,
}

/// The assessment of a position: a terminal verdict, or a heuristic score
/// for a game still in progress. `MinusInfinity` and `PlusInfinity` are
/// sentinel bounds for the search, strictly outside every reachable
/// verdict; evaluation itself never produces them.
#[derive(Debug, Clone, Copy, PartialEq, Eq, Structural)]
pub enum GameEvaluation {
    MinusInfinity,
    Lose,
    Draw,
    OnGoing(isize),
    Win,
    PlusInfinity,
}

/// Where an evaluation stands in the total order, coarsely: every `OnGoing`
/// sits strictly between `Draw` and `Win`, whatever its score.
pub open spec fn spec_rank(e: GameEvaluation) -> int {
    match e {
        GameEvaluation::MinusInfinity => 0,
        GameEvaluation::Lose => 1,
        GameEvaluation::Draw => 2,
        GameEvaluation::OnGoing(_) => 3,
        GameEvaluation::Win => 4,
        GameEvaluation::PlusInfinity => 5,
    }
}

/// The total order over evaluations: Lose < Draw < OnGoing(s) < Win, with
/// `OnGoing` values ordered by score and the sentinels below and above all.
/// A Draw compares below every OnGoing value, whatever the score's sign.
pub open spec fn spec_le(a: GameEvaluation, b: GameEvaluation) -> bool {
    if spec_rank(a) != spec_rank(b) {
        spec_rank(a) < spec_rank(b)
    } else {
        match (a, b) {
            (GameEvaluation::OnGoing(x), GameEvaluation::OnGoing(y)) => x <= y,
            _ => true,
        }
    }
}

pub open spec fn spec_lt(a: GameEvaluation, b: GameEvaluation) -> bool {
    spec_le(a, b) && a != b
}

impl GameEvaluation {
    /// True for every verdict that ends the game.
    pub fn is_terminal(&self) -> (r: bool)
        ensures
            r == !(*self is OnGoing),
    {
        !matches!(self, GameEvaluation::OnGoing(_))
    }

    /// Compares two evaluations under the total order.
    pub fn le(&self, other: &GameEvaluation) -> (r: bool)
        ensures
            r == spec_le(*self, *other),
    {
        let ra = self.rank();
        let rb = other.rank();
        if ra != rb {
            ra < rb
        } else {
            match (self, other) {
                (GameEvaluation::OnGoing(x), GameEvaluation::OnGoing(y)) => x <= y,
                _ => true,
            }
        }
    }

    /// Strict comparison under the total order.
    pub fn lt(&self, other: &GameEvaluation) -> (r: bool)
        ensures
            r == spec_lt(*self, *other),
    {
        self.le(other) && !(self == other)
    }

    fn rank(&self) -> (r: u8)
        ensures
            r as int == spec_rank(*self),
    {
        match self {
            GameEvaluation::MinusInfinity => 0,
            GameEvaluation::Lose => 1,
            GameEvaluation::Draw => 2,
            GameEvaluation::OnGoing(_) => 3,
            GameEvaluation::Win => 4,
            GameEvaluation::PlusInfinity => 5,
        }
    }
}

/// The order is total: any two evaluations compare one way or the other,
/// and both ways only when equal.
pub proof fn lemma_order_total(a: GameEvaluation, b: GameEvaluation)
    ensures
        spec_le(a, b) || spec_le(b, a),
        spec_le(a, b) && spec_le(b, a) ==> a == b,
        spec_le(a, b) <==> (spec_lt(a, b) || a == b),
{
}

} // verus!
