//! A 7x6 four-in-a-row drop game: board rules, a heuristic evaluator with
//! open-three threat detection, and a memoized minimax / alpha-beta search.

pub mod board;
pub mod board_move;
pub mod eval;
pub mod game;
pub mod piece;
pub mod random_pick;
pub mod tree;

pub use board::Board;
pub use board::BoardError;
pub use board::Threat;
pub use board_move::BoardMove;
pub use piece::Piece;
pub use piece::Square;
