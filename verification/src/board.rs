//! The 7x6 gravity-drop board: grid model, move legality, move application
//! and undo, and whose-turn derivation.
//!
//! The grid is modelled as a flat sequence of [`Square`]s in row-major order,
//! row 0 at the bottom. A column fills from row 0 upward, so a well-formed
//! grid satisfies a gravity invariant: every occupied cell sits on an
//! occupied cell or the floor. The turn counter always equals the number of
//! occupied cells.

use vstd::prelude::*;

use crate::board_move::BoardMove;
use crate::piece::{Piece, Square};

verus! {

pub const HEIGHT: usize = 6;

pub const WIDTH: usize = 7;

pub const CELLS: usize = 42;

/// Why a move was rejected.
#[derive(Debug, PartialEq, Eq, Structural, Clone, Copy)]
pub enum BoardError {
    /// The column exists but cannot be played (full column, or empty on undo).
    InvalidMove(usize),
    /// The column index is at least the board width.
    OutOfRange(usize),
    /// A move without a color reached a context that required one.
    NoColor,
}

/// An empty square that, if filled by `color`, would complete a
/// four-in-a-row for that color.
#[derive(Debug, PartialEq, Eq, Structural, Clone, Copy, Hash)]
pub struct Threat {
    pub row: usize,
    pub column: usize,
    pub color: Piece,
}

/// The mathematical state of a [`Board`].
pub ghost struct BoardView {
    pub grid: Seq<Square>,
    pub turn: int,
    pub threats: Seq<Threat>,
    pub show: bool,
}

/// The flat index of the cell at row `i`, column `j`.
pub open spec fn cell_index(i: int, j: int) -> int {
    i * (WIDTH as int) + j
}

pub open spec fn in_bounds(i: int, j: int) -> bool {
    0 <= i < (HEIGHT as int) && 0 <= j < (WIDTH as int)
}

pub open spec fn cell(g: Seq<Square>, i: int, j: int) -> Square {
    g[cell_index(i, j)]
}

pub open spec fn is_occupied(g: Seq<Square>, i: int, j: int) -> bool {
    !(cell(g, i, j) is Empty)
}

pub open spec fn grid_dims_ok(g: Seq<Square>) -> bool {
    g.len() == CELLS
}

/// Gravity: every occupied cell above the floor rests on an occupied cell.
pub open spec fn gravity_ok(g: Seq<Square>) -> bool {
    forall|i: int, j: int|
        1 <= i < (HEIGHT as int) && 0 <= j < (WIDTH as int) && #[trigger] is_occupied(g, i, j)
            ==> is_occupied(g, i - 1, j)
}

/// The number of occupied cells among the first `k` flat indices.
pub open spec fn count_upto(g: Seq<Square>, k: int) -> int
    decreases k,
{
    if k <= 0 {
        0
    } else {
        count_upto(g, k - 1) + if g[k - 1] is Empty {
            0int
        } else {
            1int
        }
    }
}

/// The number of occupied cells of the whole grid.
pub open spec fn piece_count(g: Seq<Square>) -> int {
    count_upto(g, CELLS as int)
}

/// The number of occupied cells in column `j` among rows below `r`.
pub open spec fn col_count_upto(g: Seq<Square>, j: int, r: int) -> int
    decreases r,
{
    if r <= 0 {
        0
    } else {
        col_count_upto(g, j, r - 1) + if is_occupied(g, r - 1, j) {
            1int
        } else {
            0int
        }
    }
}

/// How many pieces are stacked in column `j`; under gravity, also the row
/// of the lowest empty cell.
pub open spec fn col_height(g: Seq<Square>, j: int) -> int {
    col_count_upto(g, j, HEIGHT as int)
}

/// The color whose turn it is after `turn` moves: even counts belong to the
/// first mover (Yellow).
pub open spec fn turn_color_of(turn: int) -> Piece {
    if turn % 2 == 0 {
        Piece::Yellow
    } else {
        Piece::Red
    }
}

/// A column is open to a drop exactly when its topmost cell is empty.
pub open spec fn col_open(g: Seq<Square>, j: int) -> bool {
    cell(g, (HEIGHT - 1) as int, j) is Empty
}

/// The legal moves among columns below `j`, in ascending column order,
/// tagged with color `c`.
pub open spec fn moves_upto(g: Seq<Square>, c: Piece, j: int) -> Seq<BoardMove>
    decreases j,
{
    if j <= 0 {
        Seq::empty()
    } else {
        moves_upto(g, c, j - 1) + if col_open(g, j - 1) {
            seq![BoardMove { column: (j - 1) as usize, color: Some(c) }]
        } else {
            Seq::empty()
        }
    }
}

/// Exactly what `Board::list_moves` returns.
pub open spec fn legal_moves(v: BoardView) -> Seq<BoardMove> {
    moves_upto(v.grid, turn_color_of(v.turn), WIDTH as int)
}

/// The number of columns below `j` whose top cell is empty.
pub open spec fn open_cols_upto(g: Seq<Square>, j: int) -> int
    decreases j,
{
    if j <= 0 {
        0
    } else {
        open_cols_upto(g, j - 1) + if col_open(g, j - 1) {
            1int
        } else {
            0int
        }
    }
}

/// Exactly what `Board::is_move_valid` decides.
pub open spec fn move_ok(v: BoardView, m: BoardMove) -> bool {
    &&& match m.color {
        Some(c) => c == turn_color_of(v.turn),
        None => true,
    }
    &&& m.column < WIDTH
    &&& col_open(v.grid, m.column as int)
}

/// The successful effect of `apply_move` into `column`: the mover's color
/// lands on top of the column and the turn counter steps forward.
pub open spec fn apply_rel(pre: BoardView, column: int, post: BoardView) -> bool {
    let h = col_height(pre.grid, column);
    &&& post.grid == pre.grid.update(
        cell_index(h, column),
        Square::NonEmpty(turn_color_of(pre.turn)),
    )
    &&& post.turn == pre.turn + 1
    &&& post.threats == pre.threats
    &&& post.show == pre.show
}

/// The successful effect of `remove_move` on `column`: the topmost piece of
/// the column is lifted off and the turn counter steps back.
pub open spec fn remove_rel(pre: BoardView, column: int, post: BoardView) -> bool {
    let h = col_height(pre.grid, column);
    &&& post.grid == pre.grid.update(cell_index(h - 1, column), Square::Empty)
    &&& post.turn == pre.turn - 1
    &&& post.threats == pre.threats
    &&& post.show == pre.show
}

/// The playing surface: a 7x6 grid with gravity-drop semantics, a turn
/// counter derived from occupancy, and a cache of the threats last computed
/// for display.
#[derive(Debug, Clone)]
pub struct Board {
    cells: Vec<Square>,
    threats: Vec<Threat>,
    turn_count: usize,
    show_threats: bool,
}

impl View for Board {
    type V = BoardView;

    closed spec fn view(&self) -> BoardView {
        BoardView {
            grid: self.cells@,
            turn: self.turn_count as int,
            threats: self.threats@,
            show: self.show_threats,
        }
    }
}

impl Board {
    /// The structural invariant every reachable board satisfies: full
    /// dimensions, gravity-packed columns, and a turn counter equal to the
    /// number of pieces on the grid.
    pub open spec fn wf(self) -> bool {
        &&& grid_dims_ok(self@.grid)
        &&& gravity_ok(self@.grid)
        &&& self@.turn == piece_count(self@.grid)
    }

    /// A fresh empty board.
    pub fn new(show_threats: bool) -> (r: Board)
        ensures
            r.wf(),
            r@.grid.len() == CELLS,
            forall|k: int| 0 <= k < (CELLS as int) ==> r@.grid[k] is Empty,
            r@.turn == 0,
            r@.threats.len() == 0,
            r@.show == show_threats,
    {
        let mut cells: Vec<Square> = Vec::new();
        let mut k: usize = 0;
        while k < CELLS
            invariant
                k <= CELLS,
                cells@.len() == k,
                forall|n: int| 0 <= n < k ==> cells@[n] is Empty,
            decreases CELLS - k,
        {
            cells.push(Square::Empty);
            k = k + 1;
        }
        proof {
            lemma_count_empty_prefix(cells@, CELLS as int);
        }
        Board { cells, threats: Vec::new(), turn_count: 0, show_threats }
    }

    /// The color that moves next: Yellow when the turn count is even.
    pub fn whos_to_play(&self) -> (r: Piece)
        ensures
            r == turn_color_of(self@.turn),
    {
        if self.turn_count % 2 == 0 {
            Piece::Yellow
        } else {
            Piece::Red
        }
    }

    /// The current turn counter.
    pub fn turn(&self) -> (r: usize)
        ensures
            r == self@.turn,
    {
        self.turn_count
    }

    /// Reads one cell of the grid.
    pub fn square_at(&self, i: usize, j: usize) -> (r: Square)
        requires
            self.wf(),
            i < HEIGHT,
            j < WIDTH,
        ensures
            r == cell(self@.grid, i as int, j as int),
    {
        self.cells[i * WIDTH + j]
    }

    /// The occupant of an in-bounds cell, `None` when empty or out of bounds.
    pub fn read_bounded(&self, i: usize, j: usize) -> (r: Option<Piece>)
        requires
            self.wf(),
        ensures
            r == (if in_bounds(i as int, j as int) && cell(
                self@.grid,
                i as int,
                j as int,
            ) is NonEmpty {
                Some(cell(self@.grid, i as int, j as int)->NonEmpty_0)
            } else {
                None::<Piece>
            }),
    {
        if i >= HEIGHT || j >= WIDTH {
            return None;
        }
        match self.cells[i * WIDTH + j] {
            Square::Empty => None,
            Square::NonEmpty(color) => Some(color),
        }
    }

    /// True when no cell is occupied.
    pub fn is_empty(&self) -> (r: bool)
        requires
            self.wf(),
        ensures
            r == forall|k: int| 0 <= k < (CELLS as int) ==> self@.grid[k] is Empty,
    {
        let mut k: usize = 0;
        while k < CELLS
            invariant
                self.wf(),
                k <= CELLS,
                forall|n: int| 0 <= n < k ==> self@.grid[n] is Empty,
            decreases CELLS - k,
        {
            if !self.cells[k].is_empty() {
                return false;
            }
            k = k + 1;
        }
        true
    }

    /// True when every cell is occupied.
    pub fn is_full(&self) -> (r: bool)
        requires
            self.wf(),
        ensures
            r == forall|k: int| 0 <= k < (CELLS as int) ==> !(self@.grid[k] is Empty),
    {
        let mut k: usize = 0;
        while k < CELLS
            invariant
                self.wf(),
                k <= CELLS,
                forall|n: int| 0 <= n < k ==> !(self@.grid[n] is Empty),
            decreases CELLS - k,
        {
            if self.cells[k].is_empty() {
                return false;
            }
            k = k + 1;
        }
        true
    }
}

impl Board {
    /// Drops the mover's color into the lowest empty cell of the move's
    /// column and steps the turn counter forward. Rejects columns off the
    /// board with `OutOfRange` and full columns with `InvalidMove`; the
    /// move's own color tag is ignored, the color is derived from the turn.
    pub fn apply_move(&mut self, move_data: &BoardMove) -> (r: Result<(), BoardError>)
        requires
            old(self).wf(),
        ensures
            final(self).wf(),
            move_data.column >= WIDTH ==> r == Err::<(), BoardError>(
                BoardError::OutOfRange(move_data.column),
            ) && final(self)@ == old(self)@,
            move_data.column < WIDTH && col_height(old(self)@.grid, move_data.column as int)
                == HEIGHT ==> r == Err::<(), BoardError>(BoardError::InvalidMove(move_data.column))
                && final(self)@ == old(self)@,
            move_data.column < WIDTH && col_height(old(self)@.grid, move_data.column as int)
                < HEIGHT ==> r == Ok::<(), BoardError>(()) && apply_rel(
                old(self)@,
                move_data.column as int,
                final(self)@,
            ),
    {
        let column = move_data.column;
        let color = self.whos_to_play();

        if column >= WIDTH {
            return Err(BoardError::OutOfRange(column));
        }
        proof {
            lemma_height_char(self@.grid, column as int);
        }

        let mut row: usize = 0;
        while row < HEIGHT && !self.cells[row * WIDTH + column].is_empty()
            invariant
                self.wf(),
                column < WIDTH,
                row <= HEIGHT,
                forall|r2: int| 0 <= r2 < row ==> is_occupied(self@.grid, r2, column as int),
            decreases HEIGHT - row,
        {
            row = row + 1;
        }

        if row == HEIGHT {
            proof {
                lemma_col_count_full(self@.grid, column as int, HEIGHT as int);
            }
            return Err(BoardError::InvalidMove(column));
        }

        let ghost pre = self@;
        let ghost h = col_height(pre.grid, column as int);
        proof {
            // The scan stopped at the lowest empty cell, which is the height.
            assert(!is_occupied(pre.grid, row as int, column as int));
            if (row as int) < h {
                assert(is_occupied(pre.grid, row as int, column as int));
            }
            if h < row as int {
                assert(is_occupied(pre.grid, h, column as int));
            }
            assert(row as int == h);
            lemma_count_range(pre.grid, 0, CELLS as int);
        }

        self.cells[row * WIDTH + column] = Square::NonEmpty(color);
        self.turn_count = self.turn_count + 1;

        proof {
            let g2 = self@.grid;
            let p = cell_index(h, column as int);
            assert(g2 == pre.grid.update(p, Square::NonEmpty(turn_color_of(pre.turn))));
            lemma_count_update(pre.grid, p, Square::NonEmpty(turn_color_of(pre.turn)), CELLS as int);
            assert(gravity_ok(g2)) by {
                assert forall|i: int, j: int|
                    1 <= i < (HEIGHT as int) && 0 <= j < (WIDTH as int) && #[trigger] is_occupied(
                        g2,
                        i,
                        j,
                    ) implies is_occupied(g2, i - 1, j) by {
                    if i == h && j == column as int {
                        assert(is_occupied(pre.grid, i - 1, j));
                        assert(cell_index(i - 1, j) != p);
                        assert(is_occupied(g2, i - 1, j));
                    } else {
                        assert(cell_index(i, j) != p);
                        assert(cell(g2, i, j) == cell(pre.grid, i, j));
                        assert(is_occupied(pre.grid, i, j));
                        assert(is_occupied(pre.grid, i - 1, j));
                        if i - 1 == h && j == column as int {
                            assert(is_occupied(g2, i - 1, j));
                        } else {
                            assert(cell_index(i - 1, j) != p);
                            assert(cell(g2, i - 1, j) == cell(pre.grid, i - 1, j));
                        }
                    }
                }
            }
            assert(apply_rel(pre, column as int, self@));
        }
        Ok(())
    }

    /// Lifts the topmost piece off the move's column and steps the turn
    /// counter back: the exact inverse of `apply_move`. Rejects columns off
    /// the board with `OutOfRange` and empty columns with `InvalidMove`.
    pub fn remove_move(&mut self, move_data: &BoardMove) -> (r: Result<(), BoardError>)
        requires
            old(self).wf(),
        ensures
            final(self).wf(),
            move_data.column >= WIDTH ==> r == Err::<(), BoardError>(
                BoardError::OutOfRange(move_data.column),
            ) && final(self)@ == old(self)@,
            move_data.column < WIDTH && col_height(old(self)@.grid, move_data.column as int) == 0
                ==> r == Err::<(), BoardError>(BoardError::InvalidMove(move_data.column))
                && final(self)@ == old(self)@,
            move_data.column < WIDTH && col_height(old(self)@.grid, move_data.column as int) > 0
                ==> r == Ok::<(), BoardError>(()) && remove_rel(
                old(self)@,
                move_data.column as int,
                final(self)@,
            ),
    {
        let column = move_data.column;

        if column >= WIDTH {
            return Err(BoardError::OutOfRange(column));
        }
        proof {
            lemma_height_char(self@.grid, column as int);
        }

        let mut row: usize = HEIGHT;
        while row > 0 && self.cells[(row - 1) * WIDTH + column].is_empty()
            invariant
                self.wf(),
                column < WIDTH,
                row <= HEIGHT,
                forall|r2: int| row <= r2 < HEIGHT ==> !is_occupied(self@.grid, r2, column as int),
            decreases row,
        {
            row = row - 1;
        }

        if row == 0 {
            proof {
                lemma_col_count_empty_tail(self@.grid, column as int, 0, HEIGHT as int);
            }
            return Err(BoardError::InvalidMove(column));
        }

        let ghost pre = self@;
        let ghost h = col_height(pre.grid, column as int);
        proof {
            // The scan stopped on the topmost occupied cell, one below the height.
            assert(is_occupied(pre.grid, row as int - 1, column as int));
            if (row as int) < h {
                assert(is_occupied(pre.grid, row as int, column as int));
            }
            if h < row as int {
                assert(is_occupied(pre.grid, h, column as int));
            }
            assert(row as int == h);
            lemma_count_ge_one(
                pre.grid,
                cell_index(h - 1, column as int),
                CELLS as int,
            );
        }

        self.cells[(row - 1) * WIDTH + column] = Square::Empty;
        self.turn_count = self.turn_count - 1;

        proof {
            let g2 = self@.grid;
            let p = cell_index(h - 1, column as int);
            assert(g2 == pre.grid.update(p, Square::Empty));
            lemma_count_update(pre.grid, p, Square::Empty, CELLS as int);
            assert(gravity_ok(g2)) by {
                assert forall|i: int, j: int|
                    1 <= i < (HEIGHT as int) && 0 <= j < (WIDTH as int) && #[trigger] is_occupied(
                        g2,
                        i,
                        j,
                    ) implies is_occupied(g2, i - 1, j) by {
                    if i == h - 1 && j == column as int {
                        // The cleared cell itself is empty now, so this case
                        // cannot arise.
                        assert(cell(g2, i, j) is Empty);
                    } else {
                        assert(cell_index(i, j) != p);
                        assert(cell(g2, i, j) == cell(pre.grid, i, j));
                        assert(is_occupied(pre.grid, i, j));
                        if i - 1 == h - 1 && j == column as int {
                            // Nothing occupied sits above the cleared topmost
                            // piece, so this case cannot arise either.
                            assert(!is_occupied(pre.grid, h, column as int));
                        } else {
                            assert(is_occupied(pre.grid, i - 1, j));
                            assert(cell_index(i - 1, j) != p);
                            assert(cell(g2, i - 1, j) == cell(pre.grid, i - 1, j));
                        }
                    }
                }
            }
            assert(remove_rel(pre, column as int, self@));
        }
        Ok(())
    }
}

impl Board {
    /// One move per column whose topmost cell is empty, in ascending column
    /// order, each tagged with the color whose turn it is.
    pub fn list_moves(&self) -> (r: Vec<BoardMove>)
        requires
            self.wf(),
        ensures
            r@ == legal_moves(self@),
    {
        let color = self.whos_to_play();
        let mut moves: Vec<BoardMove> = Vec::new();
        let mut j: usize = 0;
        while j < WIDTH
            invariant
                self.wf(),
                j <= WIDTH,
                color == turn_color_of(self@.turn),
                moves@ == moves_upto(self@.grid, color, j as int),
            decreases WIDTH - j,
        {
            let ghost prefix = moves@;
            if self.cells[(HEIGHT - 1) * WIDTH + j].is_empty() {
                moves.push(BoardMove { column: j, color: Some(color) });
                proof {
                    assert(moves@ =~= moves_upto(self@.grid, color, j as int + 1));
                }
            } else {
                proof {
                    assert(moves@ =~= moves_upto(self@.grid, color, j as int + 1));
                }
            }
            j = j + 1;
        }
        moves
    }

    /// True exactly when the move's column is open and its color tag, if
    /// any, matches whose turn it is.
    pub fn is_move_valid(&self, move_data: &BoardMove) -> (r: bool)
        requires
            self.wf(),
        ensures
            r == move_ok(self@, *move_data),
    {
        if let Some(color) = move_data.color {
            if self.whos_to_play() != color {
                return false;
            }
        }
        if move_data.column >= WIDTH {
            return false;
        }
        self.cells[(HEIGHT - 1) * WIDTH + move_data.column].is_empty()
    }

    /// The threats recorded by the last `calculate_threats` call.
    pub fn threats(&self) -> (r: &Vec<Threat>)
        ensures
            r@ == self@.threats,
    {
        &self.threats
    }

    /// Forgets all recorded threats.
    pub fn clear_threats(&mut self)
        requires
            old(self).wf(),
        ensures
            final(self).wf(),
            final(self)@.grid == old(self)@.grid,
            final(self)@.turn == old(self)@.turn,
            final(self)@.show == old(self)@.show,
            final(self)@.threats.len() == 0,
    {
        self.threats.clear();
    }

    /// Records one more threat for display, keeping the list free of
    /// duplicates as a set would.
    pub(crate) fn push_threat(&mut self, t: Threat)
        requires
            old(self).wf(),
        ensures
            final(self).wf(),
            final(self)@.grid == old(self)@.grid,
            final(self)@.turn == old(self)@.turn,
            final(self)@.show == old(self)@.show,
            forall|x: Threat| #![trigger final(self)@.threats.contains(x)]
                final(self)@.threats.contains(x) <==> (old(self)@.threats.contains(x) || x == t),
    {
        let mut i: usize = 0;
        let n = self.threats.len();
        while i < n
            invariant
                self == old(self),
                self.wf(),
                n == self.threats@.len(),
                i <= n,
                forall|k: int| 0 <= k < i ==> self.threats@[k] != t,
            decreases n - i,
        {
            if self.threats[i] == t {
                proof {
                    assert(self@.threats[i as int] == t);
                }
                return ;
            }
            i = i + 1;
        }
        self.threats.push(t);
        proof {
            let ts0 = old(self)@.threats;
            let ts1 = self@.threats;
            assert forall|x: Threat| ts1.contains(x) implies (ts0.contains(x) || x == t) by {
                let k = choose|k: int| 0 <= k < ts1.len() && ts1[k] == x;
                if k < ts0.len() {
                    assert(ts0[k] == x);
                }
            }
            assert(ts1.contains(t)) by {
                assert(ts1[ts0.len() as int] == t);
            }
            assert forall|x: Threat| ts0.contains(x) implies ts1.contains(x) by {
                let k = choose|k: int| 0 <= k < ts0.len() && ts0[k] == x;
                assert(ts1[k] == x);
            }
        }
    }
}

impl Default for Board {
    /// An empty board that does not display threats.
    fn default() -> (r: Board)
        ensures
            r.wf(),
            r@.grid.len() == CELLS,
            forall|k: int| 0 <= k < (CELLS as int) ==> r@.grid[k] is Empty,
            r@.turn == 0,
            r@.threats.len() == 0,
            r@.show == false,
    {
        Board::new(false)
    }
}

/// A prefix made of empty squares contains no pieces.
proof fn lemma_count_empty_prefix(g: Seq<Square>, k: int)
    requires
        0 <= k <= g.len(),
        forall|n: int| 0 <= n < k ==> g[n] is Empty,
    ensures
        count_upto(g, k) == 0,
    decreases k,
{
    if k > 0 {
        lemma_count_empty_prefix(g, k - 1);
    }
}

/// Counting over a longer prefix adds between 0 and one per extra cell.
proof fn lemma_count_range(g: Seq<Square>, k1: int, k2: int)
    requires
        0 <= k1 <= k2,
    ensures
        count_upto(g, k1) <= count_upto(g, k2) <= count_upto(g, k1) + (k2 - k1),
    decreases k2 - k1,
{
    if k1 < k2 {
        lemma_count_range(g, k1, k2 - 1);
    }
}

/// How a single-cell write moves the piece count.
proof fn lemma_count_update(g: Seq<Square>, p: int, v: Square, k: int)
    requires
        0 <= p < g.len(),
        0 <= k <= g.len(),
    ensures
        count_upto(g.update(p, v), k) == count_upto(g, k) + if p < k {
            sq_bit(v) - sq_bit(g[p])
        } else {
            0int
        },
    decreases k,
{
    if k > 0 {
        lemma_count_update(g, p, v, k - 1);
    }
}

pub open spec fn sq_bit(s: Square) -> int {
    if s is Empty {
        0
    } else {
        1
    }
}

/// Column counts are monotone in the row bound, by at most one per row.
proof fn lemma_col_count_range(g: Seq<Square>, j: int, r1: int, r2: int)
    requires
        0 <= r1 <= r2,
    ensures
        col_count_upto(g, j, r1) <= col_count_upto(g, j, r2) <= col_count_upto(g, j, r1) + (r2
            - r1),
    decreases r2 - r1,
{
    if r1 < r2 {
        lemma_col_count_range(g, j, r1, r2 - 1);
    }
}

/// Under gravity an occupied cell has occupied cells all the way down.
proof fn lemma_occupied_below(g: Seq<Square>, j: int, r: int)
    requires
        gravity_ok(g),
        0 <= j < (WIDTH as int),
        0 <= r < (HEIGHT as int),
        is_occupied(g, r, j),
    ensures
        forall|r2: int| 0 <= r2 <= r ==> is_occupied(g, r2, j),
    decreases r,
{
    if r > 0 {
        assert(is_occupied(g, r - 1, j));
        lemma_occupied_below(g, j, r - 1);
    }
}

/// A fully occupied row range counts one piece per row.
proof fn lemma_col_count_full(g: Seq<Square>, j: int, r: int)
    requires
        0 <= r,
        forall|r2: int| 0 <= r2 < r ==> is_occupied(g, r2, j),
    ensures
        col_count_upto(g, j, r) == r,
    decreases r,
{
    if r > 0 {
        lemma_col_count_full(g, j, r - 1);
    }
}

/// Under gravity an empty cell has empty cells all the way up.
proof fn lemma_empty_above(g: Seq<Square>, j: int, r: int)
    requires
        gravity_ok(g),
        0 <= j < (WIDTH as int),
        0 <= r < (HEIGHT as int),
        !is_occupied(g, r, j),
    ensures
        forall|r2: int| r <= r2 < (HEIGHT as int) ==> !is_occupied(g, r2, j),
{
    assert forall|r2: int| r <= r2 < (HEIGHT as int) implies !is_occupied(g, r2, j) by {
        lemma_empty_range_above(g, j, r, r2);
    }
}

proof fn lemma_empty_range_above(g: Seq<Square>, j: int, r: int, r2: int)
    requires
        gravity_ok(g),
        0 <= j < (WIDTH as int),
        0 <= r <= r2 < (HEIGHT as int),
        !is_occupied(g, r, j),
    ensures
        !is_occupied(g, r2, j),
    decreases r2 - r,
{
    if r2 > r {
        lemma_empty_range_above(g, j, r, r2 - 1);
        assert(!is_occupied(g, r2 - 1, j));
        if is_occupied(g, r2, j) {
            assert(is_occupied(g, r2 - 1, j));
        }
    }
}

/// Counting stops growing once the rows are empty.
proof fn lemma_col_count_empty_tail(g: Seq<Square>, j: int, r: int, r2: int)
    requires
        0 <= r <= r2,
        forall|r3: int| r <= r3 < r2 ==> !is_occupied(g, r3, j),
    ensures
        col_count_upto(g, j, r2) == col_count_upto(g, j, r),
    decreases r2 - r,
{
    if r2 > r {
        lemma_col_count_empty_tail(g, j, r, r2 - 1);
    }
}

/// Under gravity, a column's height names exactly its occupied rows: the
/// rows below the height are occupied and the rows at or above it are empty.
pub proof fn lemma_height_char(g: Seq<Square>, j: int)
    requires
        grid_dims_ok(g),
        gravity_ok(g),
        0 <= j < (WIDTH as int),
    ensures
        0 <= col_height(g, j) <= (HEIGHT as int),
        forall|r: int| 0 <= r < (HEIGHT as int) ==> (is_occupied(g, r, j) <==> r < col_height(g, j)),
{
    lemma_col_count_range(g, j, 0, HEIGHT as int);
    assert forall|r: int| 0 <= r < (HEIGHT as int) implies (is_occupied(g, r, j) <==> r
        < col_height(g, j)) by {
        if is_occupied(g, r, j) {
            lemma_occupied_below(g, j, r);
            lemma_col_count_full(g, j, r + 1);
            lemma_col_count_range(g, j, r + 1, HEIGHT as int);
        } else {
            lemma_empty_above(g, j, r);
            lemma_col_count_empty_tail(g, j, r, HEIGHT as int);
            lemma_col_count_range(g, j, 0, r);
        }
    }
}

/// How a single-cell write moves one column's count: only the written
/// column changes, and only when the written row lies below the bound.
proof fn lemma_col_count_update(g: Seq<Square>, i0: int, j0: int, v: Square, j: int, r: int)
    requires
        grid_dims_ok(g),
        in_bounds(i0, j0),
        0 <= j < (WIDTH as int),
        0 <= r <= (HEIGHT as int),
    ensures
        col_count_upto(g.update(cell_index(i0, j0), v), j, r) == col_count_upto(g, j, r) + if j
            == j0 && i0 < r {
            sq_bit(v) - sq_bit(cell(g, i0, j0))
        } else {
            0int
        },
    decreases r,
{
    if r > 0 {
        lemma_col_count_update(g, i0, j0, v, j, r - 1);
        let g2 = g.update(cell_index(i0, j0), v);
        if r - 1 == i0 && j == j0 {
            assert(cell(g2, r - 1, j) == v);
        } else {
            assert(cell_index(r - 1, j) != cell_index(i0, j0));
            assert(cell(g2, r - 1, j) == cell(g, r - 1, j));
        }
    }
}

/// Round-trip law: applying a legal move and then removing the same move
/// restores the board exactly.
pub proof fn lemma_apply_then_remove(pre: BoardView, m: BoardMove, mid: BoardView, post: BoardView)
    requires
        grid_dims_ok(pre.grid),
        gravity_ok(pre.grid),
        move_ok(pre, m),
        apply_rel(pre, m.column as int, mid),
        remove_rel(mid, m.column as int, post),
    ensures
        post == pre,
{
    let j = m.column as int;
    let h = col_height(pre.grid, j);
    lemma_height_char(pre.grid, j);
    // An open column is not full: its top cell is empty.
    assert(!is_occupied(pre.grid, (HEIGHT - 1) as int, j));
    assert(h < (HEIGHT as int));
    let p = cell_index(h, j);
    lemma_col_count_update(
        pre.grid,
        h,
        j,
        Square::NonEmpty(turn_color_of(pre.turn)),
        j,
        HEIGHT as int,
    );
    assert(!is_occupied(pre.grid, h, j));
    assert(col_height(mid.grid, j) == h + 1);
    assert(post.grid =~= pre.grid);
    assert(post.threats == pre.threats && post.show == pre.show && post.turn == pre.turn);
}

/// Each open column contributes exactly one legal move.
proof fn lemma_moves_len(g: Seq<Square>, c: Piece, j: int)
    requires
        0 <= j,
    ensures
        moves_upto(g, c, j).len() == open_cols_upto(g, j),
        open_cols_upto(g, j) >= 0,
    decreases j,
{
    if j > 0 {
        lemma_moves_len(g, c, j - 1);
    }
}

/// No open column below `j` means no legal move below `j`, and conversely.
proof fn lemma_open_cols_zero(g: Seq<Square>, j: int)
    requires
        0 <= j,
    ensures
        open_cols_upto(g, j) == 0 <==> forall|j2: int| 0 <= j2 < j ==> !col_open(g, j2),
    decreases j,
{
    if j > 0 {
        lemma_open_cols_zero(g, j - 1);
        lemma_open_cols_nonneg(g, j - 1);
    }
}

proof fn lemma_open_cols_nonneg(g: Seq<Square>, j: int)
    requires
        0 <= j,
    ensures
        open_cols_upto(g, j) >= 0,
    decreases j,
{
    if j > 0 {
        lemma_open_cols_nonneg(g, j - 1);
    }
}

/// A grid whose first `k` cells are all occupied counts one piece each.
proof fn lemma_count_full_prefix(g: Seq<Square>, k: int)
    requires
        0 <= k <= g.len(),
        forall|n: int| 0 <= n < k ==> !(g[n] is Empty),
    ensures
        count_upto(g, k) == k,
    decreases k,
{
    if k > 0 {
        lemma_count_full_prefix(g, k - 1);
    }
}

/// The whole grid is occupied exactly when the piece count is the cell count.
proof fn lemma_full_iff_count(g: Seq<Square>)
    requires
        grid_dims_ok(g),
    ensures
        (forall|n: int| 0 <= n < (CELLS as int) ==> !(g[n] is Empty)) <==> piece_count(g) == (
        CELLS as int),
{
    if forall|n: int| 0 <= n < (CELLS as int) ==> !(g[n] is Empty) {
        lemma_count_full_prefix(g, CELLS as int);
    } else {
        let n = choose|n: int| 0 <= n < (CELLS as int) && (g[n] is Empty);
        lemma_count_range(g, 0, n);
        lemma_count_range(g, n + 1, CELLS as int);
        assert(count_upto(g, n + 1) == count_upto(g, n));
    }
}

/// Counting law for move listing: the legal moves number exactly the open
/// columns, and there are none exactly when the board is full.
pub proof fn lemma_list_moves_count(v: BoardView)
    requires
        grid_dims_ok(v.grid),
        gravity_ok(v.grid),
    ensures
        legal_moves(v).len() == open_cols_upto(v.grid, WIDTH as int),
        legal_moves(v).len() == 0 <==> piece_count(v.grid) == (CELLS as int),
{
    let g = v.grid;
    lemma_moves_len(g, turn_color_of(v.turn), WIDTH as int);
    lemma_open_cols_zero(g, WIDTH as int);
    lemma_full_iff_count(g);
    if open_cols_upto(g, WIDTH as int) == 0 {
        // Every closed column is full to the top, so every cell is occupied.
        assert forall|n: int| 0 <= n < (CELLS as int) implies !(g[n] is Empty) by {
            let i = n / (WIDTH as int);
            let j = n % (WIDTH as int);
            assert(n == cell_index(i, j));
            lemma_height_char(g, j);
            assert(!col_open(g, j));
            assert(is_occupied(g, (HEIGHT - 1) as int, j));
            assert(is_occupied(g, i, j));
        }
    } else {
        if piece_count(g) == (CELLS as int) {
            let j = choose|j: int| 0 <= j < (WIDTH as int) && col_open(g, j);
            assert(cell(g, (HEIGHT - 1) as int, j) is Empty);
        }
    }
}

/// An occupied cell below the bound forces a positive count.
proof fn lemma_count_ge_one(g: Seq<Square>, p: int, k: int)
    requires
        0 <= p < k <= g.len(),
        !(g[p] is Empty),
    ensures
        count_upto(g, k) >= 1,
{
    lemma_count_range(g, 0, p);
    lemma_count_range(g, p + 1, k);
    assert(count_upto(g, p + 1) == count_upto(g, p) + 1);
}


/// Bounds on the number of pieces a grid can hold.
pub proof fn lemma_piece_count_bounds(g: Seq<Square>)
    requires
        grid_dims_ok(g),
    ensures
        0 <= piece_count(g) <= CELLS,
{
    lemma_count_range(g, 0, CELLS as int);
}

/// A column whose top cell is empty keeps the board short of full.
pub proof fn lemma_open_col_not_full(g: Seq<Square>, j: int)
    requires
        grid_dims_ok(g),
        0 <= j < (WIDTH as int),
        col_open(g, j),
    ensures
        piece_count(g) < CELLS,
{
    let p = cell_index((HEIGHT - 1) as int, j);
    lemma_count_range(g, 0, p);
    lemma_count_range(g, p + 1, CELLS as int);
    assert(count_upto(g, p + 1) == count_upto(g, p));
}

/// Dropping a piece on top of an open column preserves the dimensions and
/// the gravity packing, and raises the piece count and the column height by
/// one, whatever the piece's color.
pub proof fn lemma_place_piece(g: Seq<Square>, j: int, p: Piece)
    requires
        grid_dims_ok(g),
        gravity_ok(g),
        0 <= j < (WIDTH as int),
        col_open(g, j),
    ensures
        ({
            let h = col_height(g, j);
            let g2 = g.update(cell_index(h, j), Square::NonEmpty(p));
            &&& 0 <= h < (HEIGHT as int)
            &&& grid_dims_ok(g2)
            &&& gravity_ok(g2)
            &&& piece_count(g2) == piece_count(g) + 1
            &&& col_height(g2, j) == h + 1
        }),
{
    lemma_height_char(g, j);
    let h = col_height(g, j);
    assert(!is_occupied(g, (HEIGHT - 1) as int, j));
    assert(h < (HEIGHT as int));
    let pos = cell_index(h, j);
    let g2 = g.update(pos, Square::NonEmpty(p));
    assert(!is_occupied(g, h, j));
    lemma_count_update(g, pos, Square::NonEmpty(p), CELLS as int);
    lemma_col_count_update(g, h, j, Square::NonEmpty(p), j, HEIGHT as int);
    assert(gravity_ok(g2)) by {
        assert forall|i: int, j2: int|
            1 <= i < (HEIGHT as int) && 0 <= j2 < (WIDTH as int) && #[trigger] is_occupied(
                g2,
                i,
                j2,
            ) implies is_occupied(g2, i - 1, j2) by {
            if i == h && j2 == j {
                assert(is_occupied(g, i - 1, j2));
                assert(cell_index(i - 1, j2) != pos);
                assert(is_occupied(g2, i - 1, j2));
            } else {
                assert(cell_index(i, j2) != pos);
                assert(cell(g2, i, j2) == cell(g, i, j2));
                assert(is_occupied(g, i, j2));
                assert(is_occupied(g, i - 1, j2));
                if i - 1 == h && j2 == j {
                    assert(is_occupied(g2, i - 1, j2));
                } else {
                    assert(cell_index(i - 1, j2) != pos);
                    assert(cell(g2, i - 1, j2) == cell(g, i - 1, j2));
                }
            }
        }
    }
}

/// Every listed move names an open column below the bound, tagged with the
/// listing color.
pub proof fn lemma_moves_upto_members(g: Seq<Square>, c: Piece, j: int)
    requires
        0 <= j <= (WIDTH as int),
    ensures
        forall|k: int|
            0 <= k < moves_upto(g, c, j).len() ==> ((#[trigger] moves_upto(g, c, j)[k]).column
                < j && col_open(g, moves_upto(g, c, j)[k].column as int) && moves_upto(
                g,
                c,
                j,
            )[k].color == Some(c)),
    decreases j,
{
    if j > 0 {
        lemma_moves_upto_members(g, c, j - 1);
        let prev = moves_upto(g, c, j - 1);
        let cur = moves_upto(g, c, j);
        assert forall|k: int|
            0 <= k < cur.len() implies ((#[trigger] cur[k]).column < j && col_open(
            g,
            cur[k].column as int,
        ) && cur[k].color == Some(c)) by {
            if col_open(g, j - 1) {
                if k < prev.len() {
                    assert(cur[k] == prev[k]);
                } else {
                    assert(k == prev.len());
                    assert(cur[k] == (BoardMove { column: (j - 1) as usize, color: Some(c) }));
                }
            } else {
                assert(cur =~= prev);
                assert(cur[k] == prev[k]);
            }
        }
    }
}


impl PartialEq for Board {
    /// Structural equality over the whole state: grid, turn counter,
    /// recorded threats and display flag.
    fn eq(&self, other: &Board) -> (r: bool)
        ensures
            r == (self@ == other@),
    {
        if self.turn_count != other.turn_count || self.show_threats != other.show_threats {
            return false;
        }
        if self.cells.len() != other.cells.len() || self.threats.len() != other.threats.len() {
            return false;
        }
        let n = self.cells.len();
        let mut k: usize = 0;
        while k < n
            invariant
                n == self.cells@.len(),
                n == other.cells@.len(),
                k <= n,
                forall|i: int| 0 <= i < k ==> self.cells@[i] == other.cells@[i],
            decreases n - k,
        {
            if self.cells[k] != other.cells[k] {
                return false;
            }
            k = k + 1;
        }
        let t = self.threats.len();
        let mut k2: usize = 0;
        while k2 < t
            invariant
                t == self.threats@.len(),
                t == other.threats@.len(),
                k2 <= t,
                forall|i: int| 0 <= i < k2 ==> self.threats@[i] == other.threats@[i],
            decreases t - k2,
        {
            if self.threats[k2] != other.threats[k2] {
                return false;
            }
            k2 = k2 + 1;
        }
        proof {
            assert(self.cells@ =~= other.cells@);
            assert(self.threats@ =~= other.threats@);
        }
        true
    }
}

impl Eq for Board {

}

impl vstd::std_specs::cmp::PartialEqSpecImpl for Board {
    open spec fn obeys_eq_spec() -> bool {
        true
    }

    open spec fn eq_spec(&self, other: &Board) -> bool {
        self@ == other@
    }
}


/// A board short of full always offers a legal move: some cell is empty,
/// so under gravity that cell's column has an empty top.
pub proof fn lemma_not_full_has_move(g: Seq<Square>, c: Piece)
    requires
        grid_dims_ok(g),
        gravity_ok(g),
        piece_count(g) < CELLS,
    ensures
        moves_upto(g, c, WIDTH as int).len() > 0,
{
    assert(exists|n: int| 0 <= n < (CELLS as int) && (g[n] is Empty)) by {
        if forall|n2: int| 0 <= n2 < (CELLS as int) ==> !(g[n2] is Empty) {
            lemma_count_full_prefix(g, CELLS as int);
        }
    }
    let n2 = choose|n2: int| 0 <= n2 < (CELLS as int) && (g[n2] is Empty);
    let i = n2 / (WIDTH as int);
    let j = n2 % (WIDTH as int);
    assert(n2 == cell_index(i, j));
    assert(0 <= i < (HEIGHT as int) && 0 <= j < (WIDTH as int));
    lemma_height_char(g, j);
    assert(!is_occupied(g, i, j));
    assert(col_height(g, j) <= i);
    assert(!is_occupied(g, (HEIGHT - 1) as int, j));
    assert(col_open(g, j));
    lemma_moves_ge_one(g, c, j + 1);
    lemma_moves_mono(g, c, j + 1, WIDTH as int);
}

/// An open column contributes a move to every listing that reaches it.
proof fn lemma_moves_ge_one(g: Seq<Square>, c: Piece, j: int)
    requires
        0 < j,
        col_open(g, j - 1),
    ensures
        moves_upto(g, c, j).len() > 0,
{
}

/// Move listings only grow with the column bound.
proof fn lemma_moves_mono(g: Seq<Square>, c: Piece, j1: int, j2: int)
    requires
        0 <= j1 <= j2,
    ensures
        moves_upto(g, c, j1).len() <= moves_upto(g, c, j2).len(),
    decreases j2 - j1,
{
    if j1 < j2 {
        lemma_moves_mono(g, c, j1, j2 - 1);
    }
}

} // verus!
