use quatre_con::board::{Board, BoardError};
use quatre_con::board_move::BoardMove;
use quatre_con::piece::{Piece, Square};

const WIDTH: usize = 7;
const HEIGHT: usize = 6;

#[test]
fn test_new() {
    let test_board = Board::new(false);
    let expected_board = Board::default();
    assert_eq!(test_board, expected_board);
}

#[test]
fn test_is_empty() {
    assert!(Square::Empty.is_empty());
    assert!(!Square::NonEmpty(Piece::Red).is_empty());
}

#[test]
fn test_apply_move() {
    let mut board = Board::default();

    assert!(board.is_empty());

    let move_data = BoardMove {
        column: 0,
        color: Some(Piece::Yellow),
    };

    board.apply_move(&move_data).unwrap();

    assert_eq!(board.square_at(0, 0), Square::NonEmpty(Piece::Yellow));
    for j in 1..WIDTH {
        assert_eq!(board.square_at(0, j), Square::Empty);
    }
    assert_eq!(board.turn(), 1);

    let mut expected_board = Board::default();
    expected_board.apply_move(&move_data).unwrap();
    assert_eq!(board, expected_board);
}

#[test]
fn test_remove_move_error() {
    let mut init = Board::default();

    assert_eq!(
        init.remove_move(&0usize.into()),
        Err(BoardError::InvalidMove(0))
    );

    assert_eq!(
        init.remove_move(&WIDTH.into()),
        Err(BoardError::OutOfRange(WIDTH))
    );
}

#[test]
fn test_apply_move_out_of_range() {
    let mut board = Board::default();

    let move_data = BoardMove {
        column: WIDTH,
        color: Some(Piece::Yellow),
    };

    assert_eq!(
        board.apply_move(&move_data),
        Err(BoardError::OutOfRange(WIDTH))
    );
}

#[test]
fn test_fill_empty() {
    let mut board = Board::default();

    assert!(board.is_empty());

    for _ in 0..(HEIGHT * WIDTH) {
        let move_data = *board.list_moves().first().unwrap();

        assert_eq!(board.whos_to_play(), move_data.color.unwrap());

        board.apply_move(&move_data).unwrap();
    }

    let move_data = BoardMove {
        column: 0,
        color: Some(Piece::Yellow),
    };

    assert_eq!(
        board.apply_move(&move_data),
        Err(BoardError::InvalidMove(0))
    );

    assert!(board.is_full());

    for _ in 0..HEIGHT {
        for j in 0..WIDTH {
            let move_data = BoardMove {
                column: j,
                color: None,
            };

            board.remove_move(&move_data).unwrap();
        }
    }
    assert!(board.is_empty());
}

#[test]
fn test_apply_then_remove_round_trip() {
    let mut board = Board::default();
    for col in [3usize, 3, 2, 4, 1] {
        board.apply_move(&col.into()).unwrap();
    }
    let snapshot = board.clone();

    for mv in board.list_moves() {
        board.apply_move(&mv).unwrap();
        board.remove_move(&mv).unwrap();
        assert_eq!(board, snapshot);
    }
}

#[test]
fn test_list_moves_counts() {
    let mut board = Board::default();
    let moves = board.list_moves();
    assert_eq!(moves.len(), WIDTH);
    for (j, m) in moves.iter().enumerate() {
        assert_eq!(m.column, j);
        assert_eq!(m.color, Some(Piece::Yellow));
    }

    for _ in 0..HEIGHT {
        board.apply_move(&0usize.into()).unwrap();
    }
    let moves = board.list_moves();
    assert_eq!(moves.len(), WIDTH - 1);
    assert!(moves.iter().all(|m| m.column != 0));

    while !board.is_full() {
        let mv = *board.list_moves().first().unwrap();
        board.apply_move(&mv).unwrap();
    }
    assert!(board.list_moves().is_empty());
}

#[test]
fn test_is_move_valid() {
    let board = Board::default();
    assert!(board.is_move_valid(&BoardMove {
        column: 0,
        color: None
    }));
    assert!(board.is_move_valid(&BoardMove {
        column: 6,
        color: Some(Piece::Yellow)
    }));
    assert!(!board.is_move_valid(&BoardMove {
        column: 6,
        color: Some(Piece::Red)
    }));
    assert!(!board.is_move_valid(&BoardMove {
        column: 7,
        color: None
    }));
}

#[test]
fn test_column_overflow() {
    // Alternating drops stack a single column to its height of six; the
    // next drop into it must be rejected as an invalid move.
    let mut board = Board::default();
    for _ in 0..HEIGHT {
        board.apply_move(&0usize.into()).unwrap();
    }
    assert_eq!(
        board.apply_move(&0usize.into()),
        Err(BoardError::InvalidMove(0))
    );
}
