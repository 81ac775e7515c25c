//! The heuristic evaluator: four-in-a-row detection, directional window
//! scoring, and two-tier open-three threat extraction with column-stacking
//! bonuses.
//!
//! Every cell anchors four windows (North-West, North, North-East, East) of
//! up to four cells. A window's accumulator adds +1 per first-mover piece
//! and -1 per second-mover piece; a window holding both colors is blocked
//! and contributes nothing to the score. An unblocked accumulator of +-4 is
//! an immediate win or loss; +-3 marks an open-three threat at the first
//! empty in-bounds cell of the window.

use vstd::prelude::*;

use crate::board::{
    cell, cell_index, grid_dims_ok, in_bounds, turn_color_of, Board, Threat, CELLS, HEIGHT, WIDTH,
};
use crate::game::{GameEvaluation, MoM};
use crate::piece::{Piece, Square};

verus! {

/// The row of the `k`-th cell of the window anchored at row `i` in
/// direction `d`: the three northward directions climb, East stays level.
pub open spec fn wrow(i: int, d: int, k: int) -> int {
    if d == 3 {
        i
    } else {
        i + k
    }
}

/// The column of the `k`-th cell of the window anchored at column `j` in
/// direction `d`: North-West leans left, North goes straight, North-East
/// and East lean right.
pub open spec fn wcol(j: int, d: int, k: int) -> int {
    if d == 0 {
        j - k
    } else if d == 1 {
        j
    } else {
        j + k
    }
}

/// The sign the `k`-th cell of a window contributes; cells off the board
/// contribute nothing.
pub open spec fn step_sign(g: Seq<Square>, i: int, j: int, d: int, k: int) -> int {
    if in_bounds(wrow(i, d, k), wcol(j, d, k)) {
        cell(g, wrow(i, d, k), wcol(j, d, k)).sign()
    } else {
        0
    }
}

/// Whether the `k`-th cell of a window holds a piece of color `c`.
pub open spec fn step_is(g: Seq<Square>, i: int, j: int, d: int, k: int, c: Piece) -> bool {
    in_bounds(wrow(i, d, k), wcol(j, d, k)) && cell(g, wrow(i, d, k), wcol(j, d, k))
        == Square::NonEmpty(c)
}

/// Whether the `k`-th cell of a window is an empty in-bounds cell.
pub open spec fn step_empty(g: Seq<Square>, i: int, j: int, d: int, k: int) -> bool {
    in_bounds(wrow(i, d, k), wcol(j, d, k)) && cell(g, wrow(i, d, k), wcol(j, d, k)) is Empty
}

/// The window accumulator: the anchor's sign plus three steps outward.
pub open spec fn window_sum(g: Seq<Square>, i: int, j: int, d: int) -> int {
    step_sign(g, i, j, d, 0) + step_sign(g, i, j, d, 1) + step_sign(g, i, j, d, 2) + step_sign(
        g,
        i,
        j,
        d,
        3,
    )
}

pub open spec fn window_has(g: Seq<Square>, i: int, j: int, d: int, c: Piece) -> bool {
    step_is(g, i, j, d, 0, c) || step_is(g, i, j, d, 1, c) || step_is(g, i, j, d, 2, c) || step_is(
        g,
        i,
        j,
        d,
        3,
        c,
    )
}

/// A window is blocked once it holds both colors: mixed colors can neither
/// connect four nor become an exploitable open three.
pub open spec fn window_blocked(g: Seq<Square>, i: int, j: int, d: int) -> bool {
    window_has(g, i, j, d, Piece::Yellow) && window_has(g, i, j, d, Piece::Red)
}

/// What a window adds to the position's raw score: its accumulator, or
/// nothing when blocked.
pub open spec fn window_score(g: Seq<Square>, i: int, j: int, d: int) -> int {
    if window_blocked(g, i, j, d) {
        0
    } else {
        window_sum(g, i, j, d)
    }
}

/// Where a threat in this window is recorded: the first empty in-bounds
/// step outward, or the anchor itself when every step is occupied or off
/// the board.
pub open spec fn threat_spot(g: Seq<Square>, i: int, j: int, d: int) -> (int, int) {
    if step_empty(g, i, j, d, 1) {
        (wrow(i, d, 1), wcol(j, d, 1))
    } else if step_empty(g, i, j, d, 2) {
        (wrow(i, d, 2), wcol(j, d, 2))
    } else if step_empty(g, i, j, d, 3) {
        (wrow(i, d, 3), wcol(j, d, 3))
    } else {
        (i, j)
    }
}

/// The open-three threat this window contributes, if any: an unblocked
/// accumulator of +-3 marks the window's threat spot for that color.
pub open spec fn window_threat(g: Seq<Square>, i: int, j: int, d: int) -> Option<Threat> {
    if !window_blocked(g, i, j, d) && (window_sum(g, i, j, d) == 3 || window_sum(g, i, j, d)
        == -3) {
        Some(
            Threat {
                row: threat_spot(g, i, j, d).0 as usize,
                column: threat_spot(g, i, j, d).1 as usize,
                color: if window_sum(g, i, j, d) == 3 {
                    Piece::Yellow
                } else {
                    Piece::Red
                },
            },
        )
    } else {
        None
    }
}

impl Board {
    /// Scans one window: its accumulator, whether it is blocked, and where
    /// a threat in it would be recorded.
    fn eval_dir(&self, i: usize, j: usize, d: usize) -> (r: (isize, bool, usize, usize))
        requires
            self.wf(),
            i < HEIGHT,
            j < WIDTH,
            d < 4,
        ensures
            r.0 as int == window_sum(self@.grid, i as int, j as int, d as int),
            r.1 == window_blocked(self@.grid, i as int, j as int, d as int),
            r.2 as int == threat_spot(self@.grid, i as int, j as int, d as int).0,
            r.3 as int == threat_spot(self@.grid, i as int, j as int, d as int).1,
    {
        let anchor = self.square_at(i, j);
        let mut sum: isize = match anchor {
            Square::Empty => 0,
            Square::NonEmpty(Piece::Yellow) => 1,
            Square::NonEmpty(Piece::Red) => -1,
        };
        let mut has_yellow: bool = matches!(anchor, Square::NonEmpty(Piece::Yellow));
        let mut has_red: bool = matches!(anchor, Square::NonEmpty(Piece::Red));
        let mut spot_row: usize = i;
        let mut spot_col: usize = j;
        let mut spot_found: bool = false;

        let mut k: usize = 1;
        proof {
            let g = self@.grid;
            let ii = i as int;
            let jj = j as int;
            let dd = d as int;
            assert(sum as int == sum_steps_upto(g, ii, jj, dd, 1)) by {
                reveal_with_fuel(sum_steps_upto, 2);
            }
            assert(has_yellow == has_steps_upto(g, ii, jj, dd, 1, Piece::Yellow)) by {
                reveal_with_fuel(has_steps_upto, 2);
            }
            assert(has_red == has_steps_upto(g, ii, jj, dd, 1, Piece::Red)) by {
                reveal_with_fuel(has_steps_upto, 2);
            }
            assert(!spot_in_steps_upto(g, ii, jj, dd, 1));
        }
        while k <= 3
            invariant
                self.wf(),
                i < HEIGHT,
                j < WIDTH,
                d < 4,
                1 <= k <= 4,
                -(k as int) <= sum as int <= k as int,
                sum as int == sum_steps_upto(self@.grid, i as int, j as int, d as int, k as int),
                has_yellow == has_steps_upto(
                    self@.grid,
                    i as int,
                    j as int,
                    d as int,
                    k as int,
                    Piece::Yellow,
                ),
                has_red == has_steps_upto(
                    self@.grid,
                    i as int,
                    j as int,
                    d as int,
                    k as int,
                    Piece::Red,
                ),
                spot_found == spot_in_steps_upto(self@.grid, i as int, j as int, d as int, k as int),
                spot_found ==> (spot_row as int, spot_col as int) == spot_upto(
                    self@.grid,
                    i as int,
                    j as int,
                    d as int,
                    k as int,
                ),
                !spot_found ==> spot_row == i && spot_col == j,
            decreases 4 - k,
        {
            let ri: isize = if d == 3 {
                i as isize
            } else {
                i as isize + k as isize
            };
            let cj: isize = if d == 0 {
                j as isize - k as isize
            } else if d == 1 {
                j as isize
            } else {
                j as isize + k as isize
            };
            proof {
                assert(ri as int == wrow(i as int, d as int, k as int));
                assert(cj as int == wcol(j as int, d as int, k as int));
            }
            if 0 <= ri && ri < HEIGHT as isize && 0 <= cj && cj < WIDTH as isize {
                let sq = self.square_at(ri as usize, cj as usize);
                match sq {
                    Square::Empty => {
                        if !spot_found {
                            spot_found = true;
                            spot_row = ri as usize;
                            spot_col = cj as usize;
                        }
                    },
                    Square::NonEmpty(Piece::Yellow) => {
                        sum = sum + 1;
                        has_yellow = true;
                    },
                    Square::NonEmpty(Piece::Red) => {
                        sum = sum - 1;
                        has_red = true;
                    },
                }
            }
            k = k + 1;
        }
        proof {
            let g = self@.grid;
            let ii = i as int;
            let jj = j as int;
            let dd = d as int;
            assert(sum as int == window_sum(g, ii, jj, dd)) by {
                reveal_with_fuel(sum_steps_upto, 5);
            }
            assert(has_yellow == window_has(g, ii, jj, dd, Piece::Yellow) && has_red == window_has(
                g,
                ii,
                jj,
                dd,
                Piece::Red,
            )) by {
                reveal_with_fuel(has_steps_upto, 5);
            }
            assert((spot_row as int, spot_col as int) == threat_spot(g, ii, jj, dd)) by {
                reveal_with_fuel(spot_upto, 5);
                reveal_with_fuel(spot_in_steps_upto, 5);
            }
        }
        (sum, has_yellow && has_red, spot_row, spot_col)
    }
}


/// What one direction contributes at a cell: an immediate connect, or a
/// score increment with an optional threat.
pub(crate) enum DirStep {
    Conn(Piece),
    Add(isize, Option<Threat>),
}

impl Board {
    /// Decides one direction at a cell: a connect verdict for an unblocked
    /// accumulator of +-4, otherwise the window's score and threat.
    fn eval_dir_step(&self, i: usize, j: usize, d: usize) -> (r: DirStep)
        requires
            self.wf(),
            i < HEIGHT,
            j < WIDTH,
            d < 4,
        ensures
            ({
                let g = self@.grid;
                let ii = i as int;
                let jj = j as int;
                let dd = d as int;
                if !window_blocked(g, ii, jj, dd) && window_sum(g, ii, jj, dd) == 4 {
                    r == DirStep::Conn(Piece::Yellow)
                } else if !window_blocked(g, ii, jj, dd) && window_sum(g, ii, jj, dd) == -4 {
                    r == DirStep::Conn(Piece::Red)
                } else {
                    r matches DirStep::Add(v, t) && v as int == window_score(g, ii, jj, dd) && t
                        == window_threat(g, ii, jj, dd)
                }
            }),
    {
        let (s, b, tr, tc) = self.eval_dir(i, j, d);
        if b {
            return DirStep::Add(0, None);
        }
        if s == 4 {
            return DirStep::Conn(Piece::Yellow);
        }
        if s == -4 {
            return DirStep::Conn(Piece::Red);
        }
        if s == 3 {
            return DirStep::Add(s, Some(Threat { row: tr, column: tc, color: Piece::Yellow }));
        }
        if s == -3 {
            return DirStep::Add(s, Some(Threat { row: tr, column: tc, color: Piece::Red }));
        }
        DirStep::Add(s, None)
    }
}

/// What evaluating one cell's four windows yields: an immediate
/// four-in-a-row for a color, or a score contribution with the open-three
/// threats found.
pub(crate) enum SquareResult {
    Connect(Piece),
    Disparate(isize, Vec<Threat>),
}

/// The first direction (in NW, N, NE, E order) whose unblocked window sums
/// to +-4, as the connecting color.
pub open spec fn connect_from(g: Seq<Square>, i: int, j: int, d: int) -> Option<Piece>
    decreases 4 - d,
{
    if d >= 4 {
        None
    } else if !window_blocked(g, i, j, d) && window_sum(g, i, j, d) == 4 {
        Some(Piece::Yellow)
    } else if !window_blocked(g, i, j, d) && window_sum(g, i, j, d) == -4 {
        Some(Piece::Red)
    } else {
        connect_from(g, i, j, d + 1)
    }
}

/// The four-in-a-row verdict one cell's windows give, if any.
pub open spec fn square_connect(g: Seq<Square>, i: int, j: int) -> Option<Piece> {
    connect_from(g, i, j, 0)
}

/// What one cell's four windows add to the raw positional score.
pub open spec fn square_score(g: Seq<Square>, i: int, j: int) -> int {
    window_score(g, i, j, 0) + window_score(g, i, j, 1) + window_score(g, i, j, 2) + window_score(
        g,
        i,
        j,
        3,
    )
}

/// A window's threat as a sequence: one entry, or none.
pub open spec fn threat_opt(g: Seq<Square>, i: int, j: int, d: int) -> Seq<Threat> {
    match window_threat(g, i, j, d) {
        Some(t) => seq![t],
        None => Seq::empty(),
    }
}

/// The open-three threats one cell's windows contribute, in direction order.
pub open spec fn threats_from(g: Seq<Square>, i: int, j: int, d: int) -> Seq<Threat>
    decreases 4 - d,
{
    if d >= 4 {
        Seq::empty()
    } else {
        threat_opt(g, i, j, d) + threats_from(g, i, j, d + 1)
    }
}

pub open spec fn square_threats(g: Seq<Square>, i: int, j: int) -> Seq<Threat> {
    threats_from(g, i, j, 0)
}

impl Board {
    /// Evaluates the four windows anchored at one cell: an immediate
    /// connect verdict, or the cell's score contribution and threats.
    pub(crate) fn eval_square(&self, i: usize, j: usize) -> (r: SquareResult)
        requires
            self.wf(),
            i < HEIGHT,
            j < WIDTH,
        ensures
            square_connect(self@.grid, i as int, j as int) matches Some(p) ==> r
                == SquareResult::Connect(p),
            square_connect(self@.grid, i as int, j as int) is None ==> (r
                matches SquareResult::Disparate(v, ts) && v as int == square_score(
                self@.grid,
                i as int,
                j as int,
            ) && ts@ == square_threats(self@.grid, i as int, j as int)),
    {
        let ghost g = self@.grid;
        let ghost ii = i as int;
        let ghost jj = j as int;
        let mut threats: Vec<Threat> = Vec::new();
        let mut score: isize = 0;
        proof {
            reveal_with_fuel(connect_from, 5);
        }

        let mut d: usize = 0;
        while d < 4
            invariant
                self.wf(),
                i < HEIGHT,
                j < WIDTH,
                d <= 4,
                g == self@.grid,
                ii == i as int,
                jj == j as int,
                square_connect(g, ii, jj) == connect_from(g, ii, jj, d as int),
                score as int == score_pre(g, ii, jj, d as int),
                threats@ == threats_pre(g, ii, jj, d as int),
                -4 * (d as int) <= score as int <= 4 * (d as int),
            decreases 4 - d,
        {
            match self.eval_dir_step(i, j, d) {
                DirStep::Conn(p) => {
                    proof {
                        reveal_with_fuel(connect_from, 5);
                    }
                    return SquareResult::Connect(p);
                },
                DirStep::Add(v, t) => {
                    proof {
                        reveal_with_fuel(connect_from, 5);
                        lemma_window_score_bounds(g, ii, jj, d as int);
                    }
                    score = score + v;
                    if let Some(t) = t {
                        threats.push(t);
                        proof {
                            assert(threats@ =~= threats_pre(g, ii, jj, d as int + 1));
                        }
                    } else {
                        proof {
                            assert(threats@ =~= threats_pre(g, ii, jj, d as int + 1));
                        }
                    }
                },
            }
            d = d + 1;
        }
        proof {
            lemma_square_pre_total(g, ii, jj);
        }
        SquareResult::Disparate(score, threats)
    }
}

/// The score contributions of directions below `d`.
pub open spec fn score_pre(g: Seq<Square>, i: int, j: int, d: int) -> int
    decreases d,
{
    if d <= 0 {
        0
    } else {
        score_pre(g, i, j, d - 1) + window_score(g, i, j, d - 1)
    }
}

/// The threats of directions below `d`, in direction order.
pub open spec fn threats_pre(g: Seq<Square>, i: int, j: int, d: int) -> Seq<Threat>
    decreases d,
{
    if d <= 0 {
        Seq::empty()
    } else {
        threats_pre(g, i, j, d - 1) + threat_opt(g, i, j, d - 1)
    }
}

/// An unblocked window holds at most four signed cells.
proof fn lemma_window_score_bounds(g: Seq<Square>, i: int, j: int, d: int)
    ensures
        -4 <= window_score(g, i, j, d) <= 4,
{
}

/// Accumulating the four directions forward or backward is the same.
proof fn lemma_square_pre_total(g: Seq<Square>, i: int, j: int)
    ensures
        score_pre(g, i, j, 4) == square_score(g, i, j),
        threats_pre(g, i, j, 4) =~= square_threats(g, i, j),
{
    reveal_with_fuel(score_pre, 5);
    reveal_with_fuel(threats_pre, 5);
    reveal_with_fuel(threats_from, 5);
}


/// The partial window accumulator over steps `0 .. k`.
pub open spec fn sum_steps_upto(g: Seq<Square>, i: int, j: int, d: int, k: int) -> int
    decreases k,
{
    if k <= 0 {
        0
    } else {
        sum_steps_upto(g, i, j, d, k - 1) + step_sign(g, i, j, d, k - 1)
    }
}

pub open spec fn has_steps_upto(g: Seq<Square>, i: int, j: int, d: int, k: int, c: Piece) -> bool
    decreases k,
{
    if k <= 0 {
        false
    } else {
        has_steps_upto(g, i, j, d, k - 1, c) || step_is(g, i, j, d, k - 1, c)
    }
}

/// Whether some step in `1 .. k` is an empty in-bounds cell.
pub open spec fn spot_in_steps_upto(g: Seq<Square>, i: int, j: int, d: int, k: int) -> bool
    decreases k,
{
    if k <= 1 {
        false
    } else {
        spot_in_steps_upto(g, i, j, d, k - 1) || step_empty(g, i, j, d, k - 1)
    }
}

/// The first empty in-bounds step in `1 .. k`.
pub open spec fn spot_upto(g: Seq<Square>, i: int, j: int, d: int, k: int) -> (int, int)
    decreases k,
{
    if k <= 1 {
        (i, j)
    } else if spot_in_steps_upto(g, i, j, d, k - 1) {
        spot_upto(g, i, j, d, k - 1)
    } else if step_empty(g, i, j, d, k - 1) {
        (wrow(i, d, k - 1), wcol(j, d, k - 1))
    } else {
        (i, j)
    }
}


/// The row the row-major scan visits at flat position `n`.
pub open spec fn scan_row(n: int) -> int {
    n / (WIDTH as int)
}

pub open spec fn scan_col(n: int) -> int {
    n % (WIDTH as int)
}

/// The first four-in-a-row the row-major scan meets, from cell `n` on.
pub open spec fn scan_connect_from(g: Seq<Square>, n: int) -> Option<Piece>
    decreases (CELLS as int) - n,
{
    if n < 0 || n >= (CELLS as int) {
        None
    } else if square_connect(g, scan_row(n), scan_col(n)) is Some {
        square_connect(g, scan_row(n), scan_col(n))
    } else {
        scan_connect_from(g, n + 1)
    }
}

/// The raw positional score of the first `n` scanned cells.
pub open spec fn total_score_upto(g: Seq<Square>, n: int) -> int
    decreases n,
{
    if n <= 0 {
        0
    } else {
        total_score_upto(g, n - 1) + square_score(g, scan_row(n - 1), scan_col(n - 1))
    }
}

pub open spec fn total_score(g: Seq<Square>) -> int {
    total_score_upto(g, CELLS as int)
}

/// The threat board is column-major: one slot per cell, holding the color
/// of the last threat recorded there during the scan.
pub open spec fn tmap_index(r: int, c: int) -> int {
    c * (HEIGHT as int) + r
}

pub open spec fn empty_tmap() -> Seq<Option<Piece>> {
    Seq::new(CELLS as nat, |n: int| None)
}

/// Records a square's threats onto the threat board, left to right, later
/// writes overwriting earlier ones.
pub open spec fn apply_sq_threats(tm: Seq<Option<Piece>>, ts: Seq<Threat>) -> Seq<Option<Piece>>
    decreases ts.len(),
{
    if ts.len() == 0 {
        tm
    } else {
        apply_sq_threats(
            tm.update(tmap_index(ts[0].row as int, ts[0].column as int), Some(ts[0].color)),
            ts.subrange(1, ts.len() as int),
        )
    }
}

/// The threat board after scanning the first `n` cells.
pub open spec fn tmap_upto(g: Seq<Square>, n: int) -> Seq<Option<Piece>>
    decreases n,
{
    if n <= 0 {
        empty_tmap()
    } else {
        apply_sq_threats(tmap_upto(g, n - 1), square_threats(g, scan_row(n - 1), scan_col(n - 1)))
    }
}

/// The lowest row at or above `r`, below the top row, holding a threat in
/// column `c`. A threat alone in the top row earns no bonus: the scan
/// works on adjacent row pairs and the top row only ever serves as the
/// upper half of a pair.
pub open spec fn low_row(tm: Seq<Option<Piece>>, c: int, r: int) -> Option<int>
    decreases (HEIGHT as int) - r,
{
    if r < 0 || r >= (HEIGHT as int) - 1 {
        None
    } else if tm[tmap_index(r, c)] is Some {
        Some(r)
    } else {
        low_row(tm, c, r + 1)
    }
}

pub open spec fn piece_bonus(p: Piece, amount: int) -> int {
    if p is Yellow {
        amount
    } else {
        -amount
    }
}

/// What one column's threats add to the score: the lowest threat earns 10
/// for its color, and 30 more when the threat directly above it has the
/// same color, the classic stacked double threat.
pub open spec fn col_adjust(tm: Seq<Option<Piece>>, c: int) -> int {
    match low_row(tm, c, 0) {
        None => 0,
        Some(f) => match tm[tmap_index(f, c)] {
            None => 0,
            Some(p) => piece_bonus(p, 10) + if tm[tmap_index(f + 1, c)] == Some(p) {
                piece_bonus(p, 30)
            } else {
                0int
            },
        },
    }
}

pub open spec fn adjust_upto(tm: Seq<Option<Piece>>, c: int) -> int
    decreases c,
{
    if c <= 0 {
        0
    } else {
        adjust_upto(tm, c - 1) + col_adjust(tm, c - 1)
    }
}

/// The threat post-processing bonus over the whole board.
pub open spec fn threat_adjust(tm: Seq<Option<Piece>>) -> int {
    adjust_upto(tm, WIDTH as int)
}

pub open spec fn grid_full(g: Seq<Square>) -> bool {
    forall|n: int| 0 <= n < (CELLS as int) ==> !(g[n] is Empty)
}

/// The complete evaluation of a grid: the first connect found wins or
/// loses outright; otherwise a full board draws, and a live board scores
/// the window sum, threat-adjusted on request.
pub open spec fn eval_result(g: Seq<Square>, use_threats: bool) -> GameEvaluation {
    match scan_connect_from(g, 0) {
        Some(Piece::Yellow) => GameEvaluation::Win,
        Some(Piece::Red) => GameEvaluation::Lose,
        None => if grid_full(g) {
            GameEvaluation::Draw
        } else {
            GameEvaluation::OnGoing(
                (total_score(g) + if use_threats {
                    threat_adjust(tmap_upto(g, CELLS as int))
                } else {
                    0int
                }) as isize,
            )
        },
    }
}

/// Whether any square of the scan surfaces this threat. The scan collects
/// threats only from squares that do not connect four outright.
pub open spec fn scan_threat(g: Seq<Square>, t: Threat) -> bool {
    exists|i: int, j: int|
        in_bounds(i, j) && square_connect(g, i, j) is None && #[trigger] square_threats(
            g,
            i,
            j,
        ).contains(t)
}

/// Every threat a square reports lies on the board.
proof fn lemma_threats_from_bounds(g: Seq<Square>, i: int, j: int, d: int)
    requires
        in_bounds(i, j),
        0 <= d,
    ensures
        forall|x: Threat| #[trigger]
            threats_from(g, i, j, d).contains(x) ==> x.row < HEIGHT && x.column < WIDTH,
    decreases 4 - d,
{
    if d < 4 {
        lemma_threats_from_bounds(g, i, j, d + 1);
        assert forall|x: Threat| #[trigger]
            threats_from(g, i, j, d).contains(x) implies x.row < HEIGHT && x.column < WIDTH by {
            let ts = threats_from(g, i, j, d);
            let rest = threats_from(g, i, j, d + 1);
            let k = choose|k: int| 0 <= k < ts.len() && ts[k] == x;
            if k < threat_opt(g, i, j, d).len() {
                assert(window_threat(g, i, j, d) == Some(x));
            } else {
                assert(rest[k - threat_opt(g, i, j, d).len()] == x);
                assert(rest.contains(x));
            }
        }
    }
}

/// One square's four windows stay within a fixed band.
proof fn lemma_square_score_bounds(g: Seq<Square>, i: int, j: int)
    ensures
        -16 <= square_score(g, i, j) <= 16,
{
    lemma_window_score_bounds(g, i, j, 0);
    lemma_window_score_bounds(g, i, j, 1);
    lemma_window_score_bounds(g, i, j, 2);
    lemma_window_score_bounds(g, i, j, 3);
}

/// The square scores stay within a fixed band, so the running total fits.
proof fn lemma_total_score_bounds(g: Seq<Square>, n: int)
    requires
        0 <= n,
    ensures
        -16 * n <= total_score_upto(g, n) <= 16 * n,
    decreases n,
{
    if n > 0 {
        lemma_total_score_bounds(g, n - 1);
        lemma_square_score_bounds(g, scan_row(n - 1), scan_col(n - 1));
    }
}

/// The per-column bonuses stay within a fixed band.
proof fn lemma_adjust_bounds(tm: Seq<Option<Piece>>, c: int)
    requires
        0 <= c,
    ensures
        -40 * c <= adjust_upto(tm, c) <= 40 * c,
    decreases c,
{
    if c > 0 {
        lemma_adjust_bounds(tm, c - 1);
    }
}

impl Board {
    /// Sums the per-column threat bonuses of a computed threat board.
    fn process_threats(&self, tmap: &Vec<Option<Piece>>) -> (r: isize)
        requires
            tmap@.len() == CELLS,
        ensures
            r as int == threat_adjust(tmap@),
            -280 <= r <= 280,
    {
        let tm = tmap;
        let mut adjustment: isize = 0;
        let mut c: usize = 0;
        while c < WIDTH
            invariant
                tm@.len() == CELLS,
                c <= WIDTH,
                adjustment as int == adjust_upto(tm@, c as int),
                -40 * (c as int) <= adjustment as int <= 40 * (c as int),
            decreases WIDTH - c,
        {
            let mut f: usize = 0;
            while f < HEIGHT - 1 && tm[c * HEIGHT + f].is_none()
                invariant
                    tm@.len() == CELLS,
                    c < WIDTH,
                    f <= HEIGHT - 1,
                    low_row(tm@, c as int, 0) == low_row(tm@, c as int, f as int),
                decreases HEIGHT - 1 - f,
            {
                f = f + 1;
            }
            if f < HEIGHT - 1 {
                match tm[c * HEIGHT + f] {
                    Some(p) => {
                        proof {
                            assert(low_row(tm@, c as int, 0) == Some(f as int));
                        }
                        let base: isize = match p {
                            Piece::Yellow => 10,
                            Piece::Red => -10,
                        };
                        adjustment = adjustment + base;
                        match tm[c * HEIGHT + f + 1] {
                            Some(q) => {
                                if q == p {
                                    let extra: isize = match p {
                                        Piece::Yellow => 30,
                                        Piece::Red => -30,
                                    };
                                    adjustment = adjustment + extra;
                                }
                            },
                            None => {},
                        }
                    },
                    None => {
                        proof {
                            assert(false);
                        }
                    },
                }
            }
            c = c + 1;
        }
        adjustment
    }
}


/// Threats surfaced by the scanned cells below `n`.
pub open spec fn scan_threat_upto(g: Seq<Square>, n: int, t: Threat) -> bool {
    exists|m: int|
        0 <= m < n && square_connect(g, scan_row(m), scan_col(m)) is None && #[trigger]
        square_threats(g, scan_row(m), scan_col(m)).contains(t)
}

/// The flat scan position of a cell, and back.
proof fn lemma_rowcol_of(i: int, j: int)
    requires
        0 <= i,
        0 <= j < (WIDTH as int),
    ensures
        scan_row(i * (WIDTH as int) + j) == i,
        scan_col(i * (WIDTH as int) + j) == j,
{
    let w = WIDTH as int;
    assert((i * w + j) / w == i && (i * w + j) % w == j) by (nonlinear_arith)
        requires
            0 <= i,
            0 <= j < w,
            w == 7,
    ;
}


/// One scan step surfaces exactly the threats of the newly scanned square,
/// when that square does not connect four.
proof fn lemma_scan_threat_upto_step(g: Seq<Square>, n: int, t: Threat)
    requires
        0 <= n < (CELLS as int),
    ensures
        scan_threat_upto(g, n + 1, t) <==> (scan_threat_upto(g, n, t) || (square_connect(
            g,
            scan_row(n),
            scan_col(n),
        ) is None && square_threats(g, scan_row(n), scan_col(n)).contains(t))),
{
    if scan_threat_upto(g, n + 1, t) {
        let m = choose|m: int|
            0 <= m < n + 1 && square_connect(g, scan_row(m), scan_col(m)) is None && #[trigger]
            square_threats(g, scan_row(m), scan_col(m)).contains(t);
        if m < n {
            assert(square_threats(g, scan_row(m), scan_col(m)).contains(t));
            assert(scan_threat_upto(g, n, t));
        }
    }
    if scan_threat_upto(g, n, t) {
        let m = choose|m: int|
            0 <= m < n && square_connect(g, scan_row(m), scan_col(m)) is None && #[trigger]
            square_threats(g, scan_row(m), scan_col(m)).contains(t);
        assert(square_threats(g, scan_row(m), scan_col(m)).contains(t));
        assert(scan_threat_upto(g, n + 1, t));
    }
    if square_connect(g, scan_row(n), scan_col(n)) is None && square_threats(
        g,
        scan_row(n),
        scan_col(n),
    ).contains(t) {
        assert(scan_threat_upto(g, n + 1, t));
    }
}

/// The whole-scan threat set equals the threats collected cell by cell.
proof fn lemma_scan_threat_complete(g: Seq<Square>, t: Threat)
    ensures
        scan_threat(g, t) <==> scan_threat_upto(g, CELLS as int, t),
{
    if scan_threat(g, t) {
        let (i, j) = choose|i: int, j: int|
            in_bounds(i, j) && square_connect(g, i, j) is None && #[trigger] square_threats(
                g,
                i,
                j,
            ).contains(t);
        lemma_rowcol_of(i, j);
        let m = i * (WIDTH as int) + j;
        assert(0 <= m < (CELLS as int));
        assert(square_threats(g, scan_row(m), scan_col(m)).contains(t));
    }
    if scan_threat_upto(g, CELLS as int, t) {
        let m = choose|m: int|
            0 <= m < (CELLS as int) && square_connect(g, scan_row(m), scan_col(m)) is None
                && #[trigger] square_threats(g, scan_row(m), scan_col(m)).contains(t);
        assert(in_bounds(scan_row(m), scan_col(m)));
    }
}

impl Board {
    /// Whether the side to move maximizes (Yellow, the first mover) or
    /// minimizes (Red) the evaluation.
    pub fn min_or_maxing(&self) -> (r: MoM)
        ensures
            r == (if turn_color_of(self@.turn) is Yellow {
                MoM::Max
            } else {
                MoM::Min
            }),
    {
        match self.whos_to_play() {
            Piece::Yellow => MoM::Max,
            Piece::Red => MoM::Min,
        }
    }

    /// Assesses the whole position: scans every cell's windows, returning
    /// the first four-in-a-row outright; otherwise a full board draws and a
    /// live board gets its window-sum score, threat-adjusted on request.
    pub fn evaluate(&self, use_threats: bool) -> (r: GameEvaluation)
        requires
            self.wf(),
        ensures
            r == eval_result(self@.grid, use_threats),
    {
        let ghost g = self@.grid;
        let mut eval: isize = 0;
        let mut tmap: Vec<Option<Piece>> = Vec::new();
        let mut k0: usize = 0;
        while k0 < CELLS
            invariant
                k0 <= CELLS,
                tmap@.len() == k0,
                forall|m: int| 0 <= m < k0 ==> tmap@[m] is None,
            decreases CELLS - k0,
        {
            tmap.push(None);
            k0 = k0 + 1;
        }
        proof {
            assert(tmap@ =~= empty_tmap());
        }

        let mut n: usize = 0;
        while n < CELLS
            invariant
                self.wf(),
                g == self@.grid,
                n <= CELLS,
                scan_connect_from(g, 0) == scan_connect_from(g, n as int),
                eval as int == total_score_upto(g, n as int),
                -16 * (n as int) <= eval as int <= 16 * (n as int),
                tmap@.len() == CELLS,
                tmap@ == tmap_upto(g, n as int),
            decreases CELLS - n,
        {
            let i = n / WIDTH;
            let j = n % WIDTH;
            proof {
                assert(i as int == scan_row(n as int) && j as int == scan_col(n as int));
                assert(in_bounds(i as int, j as int));
            }
            match self.eval_square(i, j) {
                SquareResult::Connect(p) => {
                    proof {
                        assert(scan_connect_from(g, n as int) == Some(p));
                    }
                    match p {
                        Piece::Yellow => {
                            return GameEvaluation::Win;
                        },
                        Piece::Red => {
                            return GameEvaluation::Lose;
                        },
                    }
                },
                SquareResult::Disparate(val, ts) => {
                    proof {
                        lemma_square_score_bounds(g, i as int, j as int);
                        lemma_total_score_bounds(g, n as int);
                        lemma_threats_from_bounds(g, i as int, j as int, 0);
                    }
                    eval = eval + val;
                    let ghost tm_pre = tmap@;
                    proof {
                        assert(ts@.subrange(0, ts@.len() as int) =~= ts@);
                    }
                    let mut idx: usize = 0;
                    while idx < ts.len()
                        invariant
                            tmap@.len() == CELLS,
                            idx <= ts@.len(),
                            forall|x: Threat| #[trigger]
                                ts@.contains(x) ==> x.row < HEIGHT && x.column < WIDTH,
                            apply_sq_threats(tm_pre, ts@) == apply_sq_threats(
                                tmap@,
                                ts@.subrange(idx as int, ts@.len() as int),
                            ),
                        decreases ts@.len() - idx,
                    {
                        let t = ts[idx];
                        proof {
                            assert(ts@[idx as int] == t);
                            assert(ts@.contains(t));
                            let tail = ts@.subrange(idx as int, ts@.len() as int);
                            assert(tail[0] == t);
                            assert(tail.subrange(1, tail.len() as int) =~= ts@.subrange(
                                idx as int + 1,
                                ts@.len() as int,
                            ));
                        }
                        tmap[t.column * HEIGHT + t.row] = Some(t.color);
                        idx = idx + 1;
                    }
                    proof {
                        assert(ts@.subrange(ts@.len() as int, ts@.len() as int)
                            =~= Seq::<Threat>::empty());
                        assert(tmap@ == apply_sq_threats(tm_pre, ts@));
                        assert(tmap@ == tmap_upto(g, n as int + 1));
                    }
                },
            }
            n = n + 1;
        }

        proof {
            assert(scan_connect_from(g, CELLS as int) is None);
        }
        if self.is_full() {
            return GameEvaluation::Draw;
        }
        if use_threats {
            let adj = self.process_threats(&tmap);
            proof {
                lemma_adjust_bounds(tmap@, WIDTH as int);
                lemma_total_score_bounds(g, CELLS as int);
            }
            eval = eval + adj;
        }
        GameEvaluation::OnGoing(eval)
    }

    /// Recomputes the threat cache for display: every threat any non-connect
    /// square surfaces is recorded, joining whatever was already cached.
    pub fn calculate_threats(&mut self)
        requires
            old(self).wf(),
        ensures
            final(self).wf(),
            final(self)@.grid == old(self)@.grid,
            final(self)@.turn == old(self)@.turn,
            final(self)@.show == old(self)@.show,
            forall|t: Threat| #![trigger final(self)@.threats.contains(t)]
                final(self)@.threats.contains(t) <==> (old(self)@.threats.contains(t)
                    || scan_threat(old(self)@.grid, t)),
    {
        let ghost g = old(self)@.grid;
        let ghost threats0 = old(self)@.threats;
        let ghost turn0 = old(self)@.turn;
        let ghost show0 = old(self)@.show;
        let mut n: usize = 0;
        while n < CELLS
            invariant
                self.wf(),
                self@.grid == g,
                self@.turn == turn0,
                self@.show == show0,
                n <= CELLS,
                forall|t: Threat| #![trigger self@.threats.contains(t)]
                    self@.threats.contains(t) <==> (threats0.contains(t)
                        || scan_threat_upto(g, n as int, t)),
            decreases CELLS - n,
        {
            let i = n / WIDTH;
            let j = n % WIDTH;
            proof {
                assert(i as int == scan_row(n as int) && j as int == scan_col(n as int));
                assert(in_bounds(i as int, j as int));
            }
            match self.eval_square(i, j) {
                SquareResult::Connect(_) => {
                    proof {
                        assert forall|t: Threat|
                            self@.threats.contains(t) <==> (threats0.contains(t)
                                || scan_threat_upto(g, n as int + 1, t)) by {
                            lemma_scan_threat_upto_step(g, n as int, t);
                            assert(self@.threats.contains(t) <==> (threats0.contains(t)
                                || scan_threat_upto(g, n as int, t)));
                            assert(!(square_connect(g, scan_row(n as int), scan_col(
                                n as int,
                            )) is None));
                            assert(scan_threat_upto(g, n as int + 1, t) <==> scan_threat_upto(
                                g,
                                n as int,
                                t,
                            ));
                        }
                    }
                },
                SquareResult::Disparate(_, ts) => {
                    let ghost pre_threats = self@.threats;
                    proof {
                        assert(ts@.subrange(0, 0) =~= Seq::<Threat>::empty());
                        assert forall|t: Threat| #![trigger pre_threats.contains(t)]
                            pre_threats.contains(t) <==> (threats0.contains(t)
                                || scan_threat_upto(g, n as int, t)) by {
                            assert(self@.threats.contains(t) <==> (threats0.contains(t)
                                || scan_threat_upto(g, n as int, t)));
                        }
                    }
                    let mut idx: usize = 0;
                    while idx < ts.len()
                        invariant
                            self.wf(),
                            self@.grid == g,
                            self@.turn == turn0,
                            self@.show == show0,
                            idx <= ts@.len(),
                            forall|t: Threat| #![trigger self@.threats.contains(t)]
                                self@.threats.contains(t) <==> (pre_threats.contains(t)
                                    || ts@.subrange(0, idx as int).contains(t)),
                        decreases ts@.len() - idx,
                    {
                        let t = ts[idx];
                        proof {
                            assert forall|x: Threat|
                                self@.threats.contains(x) <==> (pre_threats.contains(x)
                                    || ts@.subrange(0, idx as int).contains(x)) by {}
                        }
                        let ghost before = self@.threats;
                        self.push_threat(t);
                        proof {
                            let prefix = ts@.subrange(0, idx as int + 1);
                            assert(prefix[idx as int] == t);
                            assert forall|x: Threat| prefix.contains(x) implies (ts@.subrange(
                                0,
                                idx as int,
                            ).contains(x) || x == t) by {
                                let k = choose|k: int| 0 <= k < prefix.len() && prefix[k] == x;
                                if k < idx as int {
                                    assert(ts@.subrange(0, idx as int)[k] == x);
                                }
                            }
                            assert forall|x: Threat|
                                ts@.subrange(0, idx as int).contains(x) implies prefix.contains(
                                x,
                            ) by {
                                let k = choose|k: int|
                                    0 <= k < idx as int && ts@.subrange(0, idx as int)[k] == x;
                                assert(prefix[k] == x);
                            }
                            assert forall|x: Threat|
                                self@.threats.contains(x) <==> (pre_threats.contains(x)
                                    || prefix.contains(x)) by {
                                assert(self@.threats.contains(x) <==> (before.contains(x) || x
                                    == t));
                                assert(before.contains(x) <==> (pre_threats.contains(x)
                                    || ts@.subrange(0, idx as int).contains(x)));
                            }
                        }
                        idx = idx + 1;
                    }
                    proof {
                        assert(ts@.subrange(0, ts@.len() as int) =~= ts@);
                        assert forall|t: Threat|
                            self@.threats.contains(t) <==> (threats0.contains(t)
                                || scan_threat_upto(g, n as int + 1, t)) by {
                            lemma_scan_threat_upto_step(g, n as int, t);
                            assert(self@.threats.contains(t) <==> (pre_threats.contains(t)
                                || ts@.contains(t)));
                            assert(pre_threats.contains(t) <==> (threats0.contains(t)
                                || scan_threat_upto(g, n as int, t)));
                        }
                    }
                },
            }
            n = n + 1;
        }
        proof {
            assert forall|t: Threat|
                scan_threat(g, t) <==> scan_threat_upto(g, CELLS as int, t) by {
                lemma_scan_threat_complete(g, t);
            }
        }
    }
}

/// A full board with no four-in-a-row evaluates to Draw, whatever its raw
/// score and threats would have been.
pub proof fn lemma_full_no_connect_draws(g: Seq<Square>, use_threats: bool)
    requires
        grid_full(g),
        scan_connect_from(g, 0) is None,
    ensures
        eval_result(g, use_threats) == GameEvaluation::Draw,
{
}


/// On an all-empty grid every window is silent: no sum, no block, no threat.
proof fn lemma_empty_window(g: Seq<Square>, i: int, j: int, d: int)
    requires
        grid_dims_ok(g),
        forall|n: int| 0 <= n < (CELLS as int) ==> g[n] is Empty,
    ensures
        window_sum(g, i, j, d) == 0,
        !window_blocked(g, i, j, d),
        window_threat(g, i, j, d) is None,
        window_score(g, i, j, d) == 0,
{
    assert(step_sign(g, i, j, d, 0) == 0 && step_sign(g, i, j, d, 1) == 0 && step_sign(
        g,
        i,
        j,
        d,
        2,
    ) == 0 && step_sign(g, i, j, d, 3) == 0) by {
        if in_bounds(wrow(i, d, 0), wcol(j, d, 0)) {
            assert(0 <= cell_index(wrow(i, d, 0), wcol(j, d, 0)) < (CELLS as int));
        }
        if in_bounds(wrow(i, d, 1), wcol(j, d, 1)) {
            assert(0 <= cell_index(wrow(i, d, 1), wcol(j, d, 1)) < (CELLS as int));
        }
        if in_bounds(wrow(i, d, 2), wcol(j, d, 2)) {
            assert(0 <= cell_index(wrow(i, d, 2), wcol(j, d, 2)) < (CELLS as int));
        }
        if in_bounds(wrow(i, d, 3), wcol(j, d, 3)) {
            assert(0 <= cell_index(wrow(i, d, 3), wcol(j, d, 3)) < (CELLS as int));
        }
    }
}

/// On an all-empty grid every square is silent.
proof fn lemma_empty_square(g: Seq<Square>, i: int, j: int)
    requires
        grid_dims_ok(g),
        forall|n: int| 0 <= n < (CELLS as int) ==> g[n] is Empty,
    ensures
        square_connect(g, i, j) is None,
        square_score(g, i, j) == 0,
        square_threats(g, i, j) == Seq::<Threat>::empty(),
{
    lemma_empty_window(g, i, j, 0);
    lemma_empty_window(g, i, j, 1);
    lemma_empty_window(g, i, j, 2);
    lemma_empty_window(g, i, j, 3);
    reveal_with_fuel(connect_from, 5);
    reveal_with_fuel(threats_from, 5);
    assert(square_threats(g, i, j) =~= Seq::<Threat>::empty());
}

proof fn lemma_empty_scan_connect(g: Seq<Square>, n: int)
    requires
        grid_dims_ok(g),
        forall|m: int| 0 <= m < (CELLS as int) ==> g[m] is Empty,
        0 <= n,
    ensures
        scan_connect_from(g, n) is None,
    decreases (CELLS as int) - n,
{
    if n < (CELLS as int) {
        lemma_empty_square(g, scan_row(n), scan_col(n));
        lemma_empty_scan_connect(g, n + 1);
    }
}

proof fn lemma_empty_total(g: Seq<Square>, n: int)
    requires
        grid_dims_ok(g),
        forall|m: int| 0 <= m < (CELLS as int) ==> g[m] is Empty,
        0 <= n,
    ensures
        total_score_upto(g, n) == 0,
    decreases n,
{
    if n > 0 {
        lemma_empty_total(g, n - 1);
        lemma_empty_square(g, scan_row(n - 1), scan_col(n - 1));
    }
}

proof fn lemma_empty_tmap(g: Seq<Square>, n: int)
    requires
        grid_dims_ok(g),
        forall|m: int| 0 <= m < (CELLS as int) ==> g[m] is Empty,
        0 <= n,
    ensures
        tmap_upto(g, n) == empty_tmap(),
    decreases n,
{
    if n > 0 {
        lemma_empty_tmap(g, n - 1);
        lemma_empty_square(g, scan_row(n - 1), scan_col(n - 1));
    }
}

proof fn lemma_empty_low_row(c: int, r: int)
    requires
        0 <= r,
        0 <= c < (WIDTH as int),
    ensures
        low_row(empty_tmap(), c, r) is None,
    decreases (HEIGHT as int) - r,
{
    if r < (HEIGHT as int) - 1 {
        assert(empty_tmap()[tmap_index(r, c)] is None);
        lemma_empty_low_row(c, r + 1);
    }
}

proof fn lemma_empty_adjust(c: int)
    requires
        0 <= c <= (WIDTH as int),
    ensures
        adjust_upto(empty_tmap(), c) == 0,
    decreases c,
{
    if c > 0 {
        lemma_empty_adjust(c - 1);
        lemma_empty_low_row(c - 1, 0);
    }
}

/// An empty board evaluates to an ongoing game with score zero, with or
/// without the threat heuristic.
pub proof fn lemma_empty_board_ongoing_zero(g: Seq<Square>, use_threats: bool)
    requires
        grid_dims_ok(g),
        forall|n: int| 0 <= n < (CELLS as int) ==> g[n] is Empty,
    ensures
        eval_result(g, use_threats) == GameEvaluation::OnGoing(0),
{
    lemma_empty_scan_connect(g, 0);
    lemma_empty_total(g, CELLS as int);
    lemma_empty_tmap(g, CELLS as int);
    lemma_empty_adjust(WIDTH as int);
    assert(!grid_full(g)) by {
        assert(g[0] is Empty);
    }
}


/// A window summing to plus four holds four first-mover pieces, so it is
/// unblocked; mirrored for minus four.
proof fn lemma_full_window_unblocked(g: Seq<Square>, i: int, j: int, d: int)
    requires
        window_sum(g, i, j, d) == 4 || window_sum(g, i, j, d) == -4,
    ensures
        !window_blocked(g, i, j, d),
        window_sum(g, i, j, d) == 4 ==> !window_has(g, i, j, d, Piece::Red),
        window_sum(g, i, j, d) == -4 ==> !window_has(g, i, j, d, Piece::Yellow),
{
    assert(-1 <= step_sign(g, i, j, d, 0) <= 1);
    assert(-1 <= step_sign(g, i, j, d, 1) <= 1);
    assert(-1 <= step_sign(g, i, j, d, 2) <= 1);
    assert(-1 <= step_sign(g, i, j, d, 3) <= 1);
}

/// A square connects for a color only when one of its windows sums to four
/// with that color's sign.
proof fn lemma_connect_needs_window(g: Seq<Square>, i: int, j: int, d: int)
    requires
        0 <= d <= 4,
    ensures
        connect_from(g, i, j, d) == Some(Piece::Yellow) ==> exists|d2: int|
            d <= d2 < 4 && #[trigger] window_sum(g, i, j, d2) == 4,
        connect_from(g, i, j, d) == Some(Piece::Red) ==> exists|d2: int|
            d <= d2 < 4 && #[trigger] window_sum(g, i, j, d2) == -4,
    decreases 4 - d,
{
    if d < 4 {
        lemma_connect_needs_window(g, i, j, d + 1);
    }
}

/// Conversely, an unblocked window of four first-mover pieces makes its
/// square connect for the first mover, unless an earlier direction already
/// connects; either way the square connects for some color.
proof fn lemma_window_makes_connect(g: Seq<Square>, i: int, j: int, d: int)
    requires
        0 <= d < 4,
        window_sum(g, i, j, d) == 4 || window_sum(g, i, j, d) == -4,
    ensures
        square_connect(g, i, j) is Some,
{
    reveal_with_fuel(connect_from, 5);
    lemma_full_window_unblocked(g, i, j, d);
}

/// The scan returns a first-mover connect when some scanned square
/// connects and no square connects for the second mover.
proof fn lemma_scan_finds_yellow(g: Seq<Square>, n: int)
    requires
        0 <= n,
        exists|m: int|
            n <= m < (CELLS as int) && #[trigger] square_connect(g, scan_row(m), scan_col(m))
                is Some,
        forall|m: int|
            0 <= m < (CELLS as int) ==> #[trigger] square_connect(g, scan_row(m), scan_col(m))
                != Some(Piece::Red),
    ensures
        scan_connect_from(g, n) == Some(Piece::Yellow),
    decreases (CELLS as int) - n,
{
    let m0 = choose|m: int|
        n <= m < (CELLS as int) && #[trigger] square_connect(g, scan_row(m), scan_col(m)) is Some;
    if square_connect(g, scan_row(n), scan_col(n)) is Some {
        let p = square_connect(g, scan_row(n), scan_col(n))->Some_0;
        assert(square_connect(g, scan_row(n), scan_col(n)) != Some(Piece::Red));
        assert(p == Piece::Yellow);
    } else {
        assert(m0 > n);
        lemma_scan_finds_yellow(g, n + 1);
    }
}

/// Mirrored: the scan returns a second-mover connect when some scanned
/// square connects and no square connects for the first mover.
proof fn lemma_scan_finds_red(g: Seq<Square>, n: int)
    requires
        0 <= n,
        exists|m: int|
            n <= m < (CELLS as int) && #[trigger] square_connect(g, scan_row(m), scan_col(m))
                is Some,
        forall|m: int|
            0 <= m < (CELLS as int) ==> #[trigger] square_connect(g, scan_row(m), scan_col(m))
                != Some(Piece::Yellow),
    ensures
        scan_connect_from(g, n) == Some(Piece::Red),
    decreases (CELLS as int) - n,
{
    let m0 = choose|m: int|
        n <= m < (CELLS as int) && #[trigger] square_connect(g, scan_row(m), scan_col(m)) is Some;
    if square_connect(g, scan_row(n), scan_col(n)) is Some {
        let p = square_connect(g, scan_row(n), scan_col(n))->Some_0;
        assert(square_connect(g, scan_row(n), scan_col(n)) != Some(Piece::Yellow));
        assert(p == Piece::Red);
    } else {
        assert(m0 > n);
        lemma_scan_finds_red(g, n + 1);
    }
}

/// Four first-mover pieces in one window, with no second-mover
/// four-in-a-row anywhere, evaluate to an immediate Win.
pub proof fn lemma_connect_four_wins(g: Seq<Square>, i: int, j: int, d: int, use_threats: bool)
    requires
        grid_dims_ok(g),
        in_bounds(i, j),
        0 <= d < 4,
        window_sum(g, i, j, d) == 4,
        forall|i2: int, j2: int, d2: int|
            in_bounds(i2, j2) && 0 <= d2 < 4 ==> #[trigger] window_sum(g, i2, j2, d2) != -4,
    ensures
        eval_result(g, use_threats) == GameEvaluation::Win,
{
    lemma_window_makes_connect(g, i, j, d);
    lemma_rowcol_of(i, j);
    let m0 = i * (WIDTH as int) + j;
    assert(square_connect(g, scan_row(m0), scan_col(m0)) is Some);
    assert forall|m: int|
        0 <= m < (CELLS as int) implies #[trigger] square_connect(g, scan_row(m), scan_col(m))
        != Some(Piece::Red) by {
        if square_connect(g, scan_row(m), scan_col(m)) == Some(Piece::Red) {
            lemma_connect_needs_window(g, scan_row(m), scan_col(m), 0);
            let d2 = choose|d2: int|
                0 <= d2 < 4 && #[trigger] window_sum(g, scan_row(m), scan_col(m), d2) == -4;
            assert(in_bounds(scan_row(m), scan_col(m)));
            assert(window_sum(g, scan_row(m), scan_col(m), d2) != -4);
        }
    }
    lemma_scan_finds_yellow(g, 0);
}

/// Mirrored: four second-mover pieces in one window, with no first-mover
/// four-in-a-row anywhere, evaluate to an immediate Lose.
pub proof fn lemma_connect_four_loses(g: Seq<Square>, i: int, j: int, d: int, use_threats: bool)
    requires
        grid_dims_ok(g),
        in_bounds(i, j),
        0 <= d < 4,
        window_sum(g, i, j, d) == -4,
        forall|i2: int, j2: int, d2: int|
            in_bounds(i2, j2) && 0 <= d2 < 4 ==> #[trigger] window_sum(g, i2, j2, d2) != 4,
    ensures
        eval_result(g, use_threats) == GameEvaluation::Lose,
{
    lemma_window_makes_connect(g, i, j, d);
    lemma_rowcol_of(i, j);
    let m0 = i * (WIDTH as int) + j;
    assert(square_connect(g, scan_row(m0), scan_col(m0)) is Some);
    assert forall|m: int|
        0 <= m < (CELLS as int) implies #[trigger] square_connect(g, scan_row(m), scan_col(m))
        != Some(Piece::Yellow) by {
        if square_connect(g, scan_row(m), scan_col(m)) == Some(Piece::Yellow) {
            lemma_connect_needs_window(g, scan_row(m), scan_col(m), 0);
            let d2 = choose|d2: int|
                0 <= d2 < 4 && #[trigger] window_sum(g, scan_row(m), scan_col(m), d2) == 4;
            assert(in_bounds(scan_row(m), scan_col(m)));
            assert(window_sum(g, scan_row(m), scan_col(m), d2) != 4);
        }
    }
    lemma_scan_finds_red(g, 0);
}

} // verus!
