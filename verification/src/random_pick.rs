//! Uniform random move selection for the random player.

use rand::seq::IteratorRandom;

use vstd::prelude::*;

use crate::board::{legal_moves, Board};
use crate::board_move::BoardMove;

verus! {

/// Relies on rand's `IteratorRandom::choose` over `0..n`: it draws one of
/// the `n` indices; nothing more is promised of a random draw.
#[verifier::external_body]
fn pick_index(n: usize) -> (r: usize)
    requires
        n > 0,
    ensures
        r < n,
{
    (0..n).choose(&mut rand::thread_rng()).unwrap_or(0)
}

/// A uniformly random legal move of the board, `None` when the board has
/// no legal move left.
pub fn random_move(board: &Board) -> (r: Option<BoardMove>)
    requires
        board.wf(),
    ensures
        r is Some <==> legal_moves(board@).len() > 0,
        r matches Some(mv) ==> legal_moves(board@).contains(mv),
{
    let moves = board.list_moves();
    if moves.len() == 0 {
        return None;
    }
    let i = pick_index(moves.len());
    let mv = moves[i];
    proof {
        assert(legal_moves(board@)[i as int] == mv);
    }
    Some(mv)
}

} // verus!
