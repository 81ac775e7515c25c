use quatre_con::board::Board;
use quatre_con::random_pick::random_move;

const WIDTH: usize = 7;
const HEIGHT: usize = 6;

#[test]
fn test_random_move_is_legal() {
    let board = Board::default();
    for _ in 0..50 {
        let mv = random_move(&board).expect("an empty board has moves");
        assert!(mv.column < WIDTH);
        assert!(board.is_move_valid(&mv));
    }
}

#[test]
fn test_random_move_on_full_board() {
    let mut board = Board::default();
    for _ in 0..HEIGHT {
        for c in 0..WIDTH {
            board.apply_move(&c.into()).unwrap();
        }
    }
    assert_eq!(random_move(&board), None);
}
