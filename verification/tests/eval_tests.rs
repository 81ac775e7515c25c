use quatre_con::board::{Board, Threat};
use quatre_con::game::GameEvaluation;
use quatre_con::game::MoM;
use quatre_con::piece::Piece;

const WIDTH: usize = 7;
const HEIGHT: usize = 6;

fn play(board: &mut Board, cols: &[usize]) {
    for &c in cols {
        board.apply_move(&c.into()).unwrap();
    }
}

#[test]
fn test_connect_four_wins() {
    // Yellow fills columns 0..=3 on the bottom row while Red stacks on
    // column 6.
    let mut board = Board::default();
    play(&mut board, &[0, 6, 1, 6, 2, 6, 3]);
    assert_eq!(board.evaluate(false), GameEvaluation::Win);
}

#[test]
fn test_connect_four_loses() {
    // Red fills columns 0..=3 on the bottom row while Yellow stacks on
    // columns 6 and 5.
    let mut board = Board::default();
    play(&mut board, &[6, 0, 6, 1, 6, 2, 5, 3]);
    assert_eq!(board.evaluate(false), GameEvaluation::Lose);
}

#[test]
fn test_full_board_draws() {
    // Fill the board so that columns 0, 1, 4, 5 read YRYRYR bottom-up and
    // columns 2, 3, 6 read RYRYRY: every line holds runs of at most two,
    // so the full board is a draw, with or without the threat heuristic.
    let mut board = Board::default();
    for pair in [[0, 2], [1, 3], [4, 6]] {
        let (a, b) = (pair[0], pair[1]);
        for _ in 0..3 {
            play(&mut board, &[a, b, b, a]);
        }
    }
    play(&mut board, &[5, 5, 5, 5, 5, 5]);
    assert!(board.is_full());
    assert_eq!(board.evaluate(false), GameEvaluation::Draw);
    assert_eq!(board.evaluate(true), GameEvaluation::Draw);
}

#[test]
fn test_empty_board_ongoing_zero() {
    let board = Board::default();
    assert_eq!(board.evaluate(false), GameEvaluation::OnGoing(0));
    assert_eq!(board.evaluate(true), GameEvaluation::OnGoing(0));
}

#[test]
fn test_single_piece_score() {
    // A lone piece anchors four windows of one piece each.
    let mut board = Board::default();
    play(&mut board, &[0]);
    assert_eq!(board.evaluate(false), GameEvaluation::OnGoing(4));
}

#[test]
fn test_open_three_threat_surfaces() {
    // Yellow at (0,0), (0,2) and (0,3) leaves one empty completion square
    // at (0,1); Red is parked on column 6.
    let mut board = Board::default();
    play(&mut board, &[0, 6, 2, 6, 3]);

    board.calculate_threats();
    let threats = board.threats();
    assert!(threats.contains(&Threat {
        row: 0,
        column: 1,
        color: Piece::Yellow
    }));

    board.clear_threats();
    assert!(board.threats().is_empty());
}

#[test]
fn test_threat_bonus_formula() {
    // The same single-threat position gains exactly the first-threat bonus
    // when the threat heuristic is on.
    let mut board = Board::default();
    play(&mut board, &[0, 6, 2, 6, 3]);

    let plain = match board.evaluate(false) {
        GameEvaluation::OnGoing(v) => v,
        other => panic!("expected an ongoing game, got {:?}", other),
    };
    let adjusted = match board.evaluate(true) {
        GameEvaluation::OnGoing(v) => v,
        other => panic!("expected an ongoing game, got {:?}", other),
    };
    assert_eq!(adjusted, plain + 10);
}

#[test]
fn test_evaluation_order() {
    // Draw sits below every ongoing value, whatever the score's sign.
    assert!(GameEvaluation::Draw.lt(&GameEvaluation::OnGoing(-100)));
    assert!(GameEvaluation::Lose.lt(&GameEvaluation::Draw));
    assert!(GameEvaluation::OnGoing(-1).lt(&GameEvaluation::OnGoing(2)));
    assert!(GameEvaluation::OnGoing(100).lt(&GameEvaluation::Win));
    assert!(GameEvaluation::MinusInfinity.lt(&GameEvaluation::Lose));
    assert!(GameEvaluation::Win.lt(&GameEvaluation::PlusInfinity));
    assert!(GameEvaluation::Draw.le(&GameEvaluation::Draw));
    assert!(!GameEvaluation::Win.lt(&GameEvaluation::Win));
}

#[test]
fn test_is_terminal() {
    assert!(GameEvaluation::Win.is_terminal());
    assert!(GameEvaluation::Lose.is_terminal());
    assert!(GameEvaluation::Draw.is_terminal());
    assert!(!GameEvaluation::OnGoing(3).is_terminal());
}

#[test]
fn test_min_or_maxing() {
    let mut board = Board::default();
    assert_eq!(board.min_or_maxing(), MoM::Max);
    board.apply_move(&0usize.into()).unwrap();
    assert_eq!(board.min_or_maxing(), MoM::Min);
}
