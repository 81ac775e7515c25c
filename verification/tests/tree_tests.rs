use quatre_con::board::Board;
use quatre_con::tree::{Algorithm, Tree};

fn play(board: &mut Board, cols: &[usize]) {
    for &c in cols {
        board.apply_move(&c.into()).unwrap();
    }
}

#[test]
fn test_unwalked_root_gives_no_move() {
    // A fresh tree memoizes its root as a frontier node; a query before
    // any walk has nothing to search.
    let board = Board::default();
    let tree = Tree::new(board.clone(), 3, Algorithm::MiniMax, false);
    assert!(tree.knows(&board));
    let mut working = board;
    assert_eq!(tree.get_best_move(&mut working), None);
}

#[test]
fn test_minimax_takes_the_win() {
    // Yellow has three in a row on the bottom; the search must drop into
    // column 3 to complete four.
    let mut board = Board::default();
    play(&mut board, &[0, 6, 1, 6, 2, 6]);

    let mut tree = Tree::new(board.clone(), 2, Algorithm::MiniMax, false);
    tree.walk_start(board.clone());
    let mv = tree.get_best_move(&mut board).expect("walked root must answer");
    assert_eq!(mv.column, 3);
}

#[test]
fn test_alpha_beta_takes_the_win() {
    let mut board = Board::default();
    play(&mut board, &[0, 6, 1, 6, 2, 6]);

    let mut tree = Tree::new(board.clone(), 2, Algorithm::AlphaBeta, false);
    tree.walk_start(board.clone());
    let mv = tree.get_best_move(&mut board).expect("walked root must answer");
    assert_eq!(mv.column, 3);
}

#[test]
fn test_pruning_preserves_outcome() {
    // Plain minimax and alpha-beta, run from the same root to the same
    // depth with threats disabled, pick moves with identical outcomes.
    for depth in [2, 3] {
        for setup in [&[][..], &[3][..], &[2, 2, 3][..]] {
            let mut base = Board::default();
            play(&mut base, setup);

            let mut mm_tree = Tree::new(base.clone(), depth, Algorithm::MiniMax, false);
            mm_tree.walk_start(base.clone());
            let mut b1 = base.clone();
            let m1 = mm_tree.get_best_move(&mut b1).expect("minimax answers");

            let mut ab_tree = Tree::new(base.clone(), depth, Algorithm::AlphaBeta, false);
            ab_tree.walk_start(base.clone());
            let mut b2 = base.clone();
            let m2 = ab_tree.get_best_move(&mut b2).expect("alpha-beta answers");

            assert_eq!(m1.column, m2.column);
            assert_eq!(b1, base);
            assert_eq!(b2, base);
        }
    }
}

#[test]
fn test_walk_leaves_board_usable() {
    let mut board = Board::default();
    let mut tree = Tree::new(board.clone(), 4, Algorithm::AlphaBeta, true);
    tree.walk_start(board.clone());
    let mv = tree.get_best_move(&mut board).expect("walked root must answer");
    assert!(mv.column < 7);
    assert!(board.is_empty());
}

#[test]
fn test_lost_position_still_answers() {
    // Red holds an open-ended three, so at depth three every Yellow reply
    // loses. The sentinel root bounds keep the search exact even when the
    // true value is an extreme verdict, and both algorithms still hand
    // back a real legal move.
    let mut board = Board::default();
    play(&mut board, &[0, 2, 6, 3, 2, 4]);

    let mut mm_tree = Tree::new(board.clone(), 3, Algorithm::MiniMax, false);
    mm_tree.walk_start(board.clone());
    let mut b1 = board.clone();
    let m1 = mm_tree.get_best_move(&mut b1).expect("minimax answers");

    let mut ab_tree = Tree::new(board.clone(), 3, Algorithm::AlphaBeta, false);
    ab_tree.walk_start(board.clone());
    let mut b2 = board.clone();
    let m2 = ab_tree.get_best_move(&mut b2).expect("alpha-beta answers");

    assert!(board.is_move_valid(&m1));
    assert!(board.is_move_valid(&m2));
    assert_eq!(m1.column, m2.column);
}
