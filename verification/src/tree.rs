//! The search engine: a memoized map from positions to exploration
//! metadata, bounded depth-first expansion, and best-move queries answered
//! by plain minimax or alpha-beta pruning over the memoized structure.
//!
//! Positions are keyed by an injective numeric code of the grid, so two
//! boards share a node exactly when their grids are equal. The value a
//! query returns is pinned to a recursive specification over the map
//! ([`tval`]): frontier nodes take the evaluator's verdict, interior nodes
//! the best child value for the side to move.

use std::collections::HashMap;

use vstd::prelude::*;

use crate::board::{
    cell_index, col_height, col_open, grid_dims_ok, gravity_ok, lemma_apply_then_remove,
    lemma_height_char, lemma_moves_upto_members, lemma_not_full_has_move, lemma_open_col_not_full,
    lemma_piece_count_bounds, lemma_place_piece, moves_upto, piece_count, turn_color_of, Board,
    CELLS, WIDTH,
};
use crate::board_move::BoardMove;
use crate::eval::eval_result;
use crate::game::{spec_le, spec_lt, GameEvaluation};
use crate::piece::{Piece, Square};

verus! {

broadcast use vstd::std_specs::hash::group_hash_axioms;

/// The base-4 digit one square contributes to the position code.
pub open spec fn sq_digit(s: Square) -> int {
    match s {
        Square::Empty => 0,
        Square::NonEmpty(Piece::Yellow) => 1,
        Square::NonEmpty(Piece::Red) => 2,
    }
}

/// The position code of the grid from flat cell `k` on, least significant
/// digit first.
pub open spec fn code_from(g: Seq<Square>, k: int) -> int
    decreases g.len() - k,
{
    if k < 0 || k >= g.len() {
        0
    } else {
        sq_digit(g[k]) + 4 * code_from(g, k + 1)
    }
}

/// The injective numeric code of a grid: its cells as base-4 digits.
pub open spec fn grid_code(g: Seq<Square>) -> int {
    code_from(g, 0)
}

spec fn pow4(n: int) -> int
    decreases n,
{
    if n <= 0 {
        1
    } else {
        4 * pow4(n - 1)
    }
}

proof fn lemma_pow4_mono(n1: int, n2: int)
    requires
        0 <= n1 <= n2,
    ensures
        1 <= pow4(n1) <= pow4(n2),
    decreases n2,
{
    if n2 > 0 {
        if n1 == n2 {
            lemma_pow4_mono(0, n2 - 1);
        } else {
            lemma_pow4_mono(n1, n2 - 1);
        }
    }
}

proof fn lemma_code_bounds(g: Seq<Square>, k: int)
    requires
        0 <= k <= g.len(),
    ensures
        0 <= code_from(g, k) < pow4(g.len() - k),
    decreases g.len() - k,
{
    if k < g.len() {
        lemma_code_bounds(g, k + 1);
    }
}

/// Codes are injective: equal codes mean equal grids.
proof fn lemma_code_from_injective(g1: Seq<Square>, g2: Seq<Square>, k: int)
    requires
        g1.len() == g2.len(),
        0 <= k <= g1.len(),
        code_from(g1, k) == code_from(g2, k),
    ensures
        forall|m: int| k <= m < g1.len() ==> g1[m] == g2[m],
    decreases g1.len() - k,
{
    if k < g1.len() {
        let d1 = sq_digit(g1[k]);
        let d2 = sq_digit(g2[k]);
        let a = code_from(g1, k + 1);
        let b = code_from(g2, k + 1);
        lemma_code_bounds(g1, k + 1);
        lemma_code_bounds(g2, k + 1);
        assert(d1 == d2 && a == b) by (nonlinear_arith)
            requires
                d1 + 4 * a == d2 + 4 * b,
                0 <= d1 < 4,
                0 <= d2 < 4,
                0 <= a,
                0 <= b,
        ;
        assert(g1[k] == g2[k]);
        lemma_code_from_injective(g1, g2, k + 1);
    }
}

pub proof fn lemma_grid_code_injective(g1: Seq<Square>, g2: Seq<Square>)
    requires
        g1.len() == g2.len(),
        grid_code(g1) == grid_code(g2),
    ensures
        g1 == g2,
{
    lemma_code_from_injective(g1, g2, 0);
    assert(g1 =~= g2);
}

/// A grid shaped and packed as every reachable board's grid is.
pub open spec fn valid_grid(g: Seq<Square>) -> bool {
    grid_dims_ok(g) && gravity_ok(g)
}

/// The color to move on a grid, derived from its occupancy.
pub open spec fn grid_turn_color(g: Seq<Square>) -> Piece {
    turn_color_of(piece_count(g))
}

/// Whether the side to move on this grid maximizes the evaluation.
pub open spec fn grid_maxing(g: Seq<Square>) -> bool {
    grid_turn_color(g) is Yellow
}

/// The legal moves of a grid, as `Board::list_moves` lists them.
pub open spec fn grid_moves(g: Seq<Square>) -> Seq<BoardMove> {
    moves_upto(g, grid_turn_color(g), WIDTH as int)
}

/// The grid after dropping the mover's piece into column `j`.
pub open spec fn grid_place(g: Seq<Square>, j: int) -> Seq<Square> {
    g.update(cell_index(col_height(g, j), j), Square::NonEmpty(grid_turn_color(g)))
}

/// One memoized position: how deep the last walk met it, whether that walk
/// stopped there (frontier), and the legal moves recorded for it. Exposed
/// so that the search contracts can speak about the map.
pub struct TreeNode {
    pub depth: usize,
    pub is_edge: bool,
    pub children: Vec<BoardMove>,
}

/// Which search algorithm answers best-move queries.
#[derive(Debug, Clone, Copy, PartialEq, Eq, Structural)]
pub enum Algorithm {
    MiniMax,
    AlphaBeta,
}

/// A node is well formed for its key when some valid grid has that code
/// and the node records exactly that grid's legal moves.
pub open spec fn node_matches(node: TreeNode, k: u128, g: Seq<Square>) -> bool {
    valid_grid(g) && grid_code(g) == k as int && node.children@ == grid_moves(g)
}

pub open spec fn node_inv(node: TreeNode, k: u128) -> bool {
    exists|g: Seq<Square>| #[trigger] node_matches(node, k, g)
}

/// Every node of the map describes the position its key encodes.
pub open spec fn map_inv(m: Map<u128, TreeNode>) -> bool {
    forall|k: u128| #[trigger] m.dom().contains(k) ==> node_inv(m[k], k)
}

/// The larger of two evaluations under the total order.
pub open spec fn ge_max(a: GameEvaluation, b: GameEvaluation) -> GameEvaluation {
    if spec_le(a, b) {
        b
    } else {
        a
    }
}

pub open spec fn ge_min(a: GameEvaluation, b: GameEvaluation) -> GameEvaluation {
    if spec_le(a, b) {
        a
    } else {
        b
    }
}

/// The value the memoized tree assigns to a grid: frontier nodes take the
/// evaluator's verdict, interior nodes the best child value for the side
/// to move. Meaningful under [`walk_complete`]; boards the map cannot
/// answer for, and malformed grids, default to Draw.
pub open spec fn tval(m: Map<u128, TreeNode>, g: Seq<Square>, ut: bool) -> GameEvaluation
    decreases (CELLS as int) - piece_count(g), 1int, 0int,
{
    if !valid_grid(g) {
        GameEvaluation::Draw
    } else {
        proof {
            lemma_piece_count_bounds(g);
        }
        let key = grid_code(g) as u128;
        if !m.dom().contains(key) {
            GameEvaluation::Draw
        } else if m[key].is_edge {
            eval_result(g, ut)
        } else if grid_moves(g).len() == 0 {
            GameEvaluation::Draw
        } else {
            tbest(m, g, ut, 0)
        }
    }
}

/// The best value among the children of `g` from move index `i` on.
pub open spec fn tbest(m: Map<u128, TreeNode>, g: Seq<Square>, ut: bool, i: int) -> GameEvaluation
    decreases (CELLS as int) - piece_count(g), 0int, grid_moves(g).len() - i,
{
    if !(valid_grid(g) && 0 <= i < grid_moves(g).len()) {
        GameEvaluation::Draw
    } else {
        proof {
            lemma_moves_upto_members(g, grid_turn_color(g), WIDTH as int);
            lemma_place_piece(g, grid_moves(g)[i].column as int, grid_turn_color(g));
            lemma_piece_count_bounds(g);
            lemma_open_col_not_full(g, grid_moves(g)[i].column as int);
        }
        let child = grid_place(g, grid_moves(g)[i].column as int);
        let v = tval(m, child, ut);
        if i == grid_moves(g).len() - 1 {
            v
        } else {
            if grid_maxing(g) {
                ge_max(v, tbest(m, g, ut, i + 1))
            } else {
                ge_min(v, tbest(m, g, ut, i + 1))
            }
        }
    }
}

/// The map can answer for this grid: the grid has a node, and below every
/// interior node the children exist, are nonempty, and can be answered for
/// in turn.
pub open spec fn walk_complete(m: Map<u128, TreeNode>, g: Seq<Square>) -> bool
    decreases (CELLS as int) - piece_count(g), 1int, 0int,
{
    if !valid_grid(g) {
        false
    } else {
        proof {
            lemma_piece_count_bounds(g);
        }
        let key = grid_code(g) as u128;
        &&& m.dom().contains(key)
        &&& (!m[key].is_edge ==> grid_moves(g).len() > 0 && wc_children(m, g, 0))
    }
}

pub open spec fn wc_children(m: Map<u128, TreeNode>, g: Seq<Square>, i: int) -> bool
    decreases (CELLS as int) - piece_count(g), 0int, grid_moves(g).len() - i,
{
    if !(valid_grid(g) && 0 <= i < grid_moves(g).len()) {
        false
    } else {
        proof {
            lemma_moves_upto_members(g, grid_turn_color(g), WIDTH as int);
            lemma_place_piece(g, grid_moves(g)[i].column as int, grid_turn_color(g));
            lemma_piece_count_bounds(g);
            lemma_open_col_not_full(g, grid_moves(g)[i].column as int);
        }
        &&& walk_complete(m, grid_place(g, grid_moves(g)[i].column as int))
        &&& (i == grid_moves(g).len() - 1 || wc_children(m, g, i + 1))
    }
}

/// Computes the injective position code of a board's grid.
fn board_code(board: &Board) -> (r: u128)
    requires
        board.wf(),
    ensures
        r as int == grid_code(board@.grid),
{
    let ghost g = board@.grid;
    proof {
        assert(pow4(42) == 0x1000000000000000000000int) by {
            reveal_with_fuel(pow4, 43);
        }
    }
    let mut acc: u128 = 0;
    let mut k: usize = CELLS;
    while k > 0
        invariant
            board.wf(),
            g == board@.grid,
            k <= CELLS,
            acc as int == code_from(g, k as int),
            pow4(42) == 0x1000000000000000000000int,
        decreases k,
    {
        let i = (k - 1) / WIDTH;
        let j = (k - 1) % WIDTH;
        let sq = board.square_at(i, j);
        let d: u128 = match sq {
            Square::Empty => 0,
            Square::NonEmpty(Piece::Yellow) => 1,
            Square::NonEmpty(Piece::Red) => 2,
        };
        proof {
            assert(cell_index(i as int, j as int) == k - 1);
            lemma_code_bounds(g, k as int);
            lemma_pow4_mono((CELLS - k) as int, 42);
            assert((acc as int) < 0x1000000000000000000000int);
        }
        acc = acc * 4 + d;
        k = k - 1;
    }
    acc
}

/// The search tree: a memoized map from position codes to nodes, a fixed
/// exploration depth, the algorithm that answers queries, and whether the
/// evaluator's threat heuristic is applied at the frontier.
pub struct Tree {
    map: HashMap<u128, TreeNode>,
    walk_depth: usize,
    alg: Algorithm,
    use_threats: bool,
}

impl Tree {
    /// The memoized map, for specification purposes.
    pub closed spec fn map_view(self) -> Map<u128, TreeNode> {
        self.map@
    }

    pub closed spec fn spec_walk_depth(self) -> int {
        self.walk_depth as int
    }

    pub closed spec fn spec_alg(self) -> Algorithm {
        self.alg
    }

    pub closed spec fn spec_use_threats(self) -> bool {
        self.use_threats
    }

    /// The tree's invariant: every memoized node describes its key.
    pub open spec fn inv(self) -> bool {
        map_inv(self.map_view())
    }

    /// Starts a tree over the given root position: the root is memoized as
    /// a frontier node holding its legal moves.
    pub fn new(board: Board, walk_depth: usize, alg: Algorithm, use_threats: bool) -> (t: Tree)
        requires
            board.wf(),
        ensures
            t.inv(),
            t.spec_walk_depth() == walk_depth,
            t.spec_alg() == alg,
            t.spec_use_threats() == use_threats,
            t.map_view().dom().contains(grid_code(board@.grid) as u128),
            t.map_view()[grid_code(board@.grid) as u128].is_edge,
            t.map_view()[grid_code(board@.grid) as u128].children@ == grid_moves(board@.grid),
            t.map_view().dom().len() == 1,
    {
        let mut map: HashMap<u128, TreeNode> = HashMap::new();
        let moves = board.list_moves();
        let key = board_code(&board);
        let root = TreeNode { depth: 0, is_edge: true, children: moves };
        proof {
            assert(node_matches(root, key, board@.grid));
        }
        map.insert(key, root);
        Tree { map, walk_depth, alg, use_threats }
    }

    /// Whether a position is already memoized.
    pub fn knows(&self, board: &Board) -> (r: bool)
        requires
            board.wf(),
        ensures
            r == self.map_view().dom().contains(grid_code(board@.grid) as u128),
    {
        let key = board_code(board);
        self.map.contains_key(&key)
    }

    /// Re-expands the tree from the given position out to the walk depth,
    /// memoizing every node met on the way: interior nodes record their
    /// legal moves, and nodes at the depth limit are marked frontier.
    /// Afterwards, provided the depth limit keeps the walk on the board,
    /// the map can answer for the position; with a depth of at least two
    /// the position is itself expanded, so a best-move query succeeds.
    pub fn walk_start(&mut self, board: Board)
        requires
            board.wf(),
            old(self).inv(),
        ensures
            final(self).inv(),
            final(self).spec_walk_depth() == old(self).spec_walk_depth(),
            final(self).spec_alg() == old(self).spec_alg(),
            final(self).spec_use_threats() == old(self).spec_use_threats(),
            forall|k: u128|
                old(self).map_view().dom().contains(k)
                    ==> #[trigger] final(self).map_view().dom().contains(k),
            final(self).map_view().dom().contains(grid_code(board@.grid) as u128),
            piece_count(board@.grid) + old(self).spec_walk_depth() <= (CELLS as int) + 1
                ==> walk_complete(final(self).map_view(), board@.grid),
            piece_count(board@.grid) + old(self).spec_walk_depth() <= (CELLS as int) + 1 && old(
                self,
            ).spec_walk_depth() >= 2 ==> query_ok(final(self).map_view(), board@.grid),
    {
        let ghost c0 = piece_count(board@.grid);
        let ghost g0 = board@.grid;
        let mut working = board;
        self.walk_rec(&mut working, 1, Ghost(c0));
        proof {
            if c0 + old(self).spec_walk_depth() <= (CELLS as int) + 1 {
                lemma_fresh_answers(self.map_view(), g0, c0, old(self).spec_walk_depth());
            }
        }
    }

    /// One step of the walk: memoize the current position, then expand
    /// each child in column order by apply, recurse, undo. The ghost
    /// count `c0` names the walk root's piece count, which ties a
    /// position's piece count to its depth below the root.
    fn walk_rec(&mut self, board: &mut Board, depth: usize, Ghost(c0): Ghost<int>)
        requires
            old(board).wf(),
            old(self).inv(),
            1 <= depth,
            piece_count(old(board)@.grid) == c0 + depth - 1,
        ensures
            final(self).inv(),
            final(board)@ == old(board)@,
            final(self).spec_walk_depth() == old(self).spec_walk_depth(),
            final(self).spec_alg() == old(self).spec_alg(),
            final(self).spec_use_threats() == old(self).spec_use_threats(),
            forall|k: u128|
                old(self).map_view().dom().contains(k)
                    ==> #[trigger] final(self).map_view().dom().contains(k),
            map_evolved(
                old(self).map_view(),
                final(self).map_view(),
                c0,
                old(self).spec_walk_depth(),
                c0 + depth - 1,
            ),
            fresh(final(self).map_view(), old(board)@.grid, c0, old(self).spec_walk_depth()),
        decreases old(self).spec_walk_depth() - depth,
    {
        let ghost g = board@.grid;
        let ghost m0 = self.map_view();
        let ghost wd = old(self).spec_walk_depth();
        proof {
            lemma_code_fits(g);
        }
        let moves = board.list_moves();
        let key = board_code(board);
        let is_edge = depth >= self.walk_depth;
        let node_children = board.list_moves();
        let node = TreeNode { depth, is_edge, children: node_children };
        proof {
            assert(node_matches(node, key, g));
            assert(rel_depth(g, c0) == depth as int);
            assert(written_ok(node, key, c0, wd, c0 + depth - 1));
        }
        self.map.insert(key, node);
        proof {
            assert(map_evolved(m0, self.map_view(), c0, wd, c0 + depth - 1));
        }

        if is_edge {
            return ;
        }

        let ghost pre_view = board@;
        let mut idx: usize = 0;
        while idx < moves.len()
            invariant
                self.inv(),
                board.wf(),
                board@ == pre_view,
                pre_view == old(board)@,
                g == board@.grid,
                1 <= depth,
                piece_count(g) == c0 + depth - 1,
                idx <= moves@.len(),
                moves@ == grid_moves(g),
                depth < self.walk_depth,
                wd == old(self).spec_walk_depth(),
                self.spec_walk_depth() == old(self).spec_walk_depth(),
                self.spec_alg() == old(self).spec_alg(),
                self.spec_use_threats() == old(self).spec_use_threats(),
                self.map_view().dom().contains(grid_code(g) as u128),
                self.map_view()[grid_code(g) as u128] == node,
                node.is_edge == (rel_depth(g, c0) >= wd),
                forall|k: u128|
                    old(self).map_view().dom().contains(k)
                        ==> #[trigger] self.map_view().dom().contains(k),
                map_evolved(old(self).map_view(), self.map_view(), c0, wd, c0 + depth - 1),
                forall|k: int|
                    0 <= k < idx ==> #[trigger] fresh(
                        self.map_view(),
                        grid_place(g, grid_moves(g)[k].column as int),
                        c0,
                        wd,
                    ),
            decreases moves@.len() - idx,
        {
            let m = moves[idx];
            proof {
                lemma_moves_upto_members(g, grid_turn_color(g), WIDTH as int);
                assert(m == grid_moves(g)[idx as int]);
                lemma_height_char(g, m.column as int);
                lemma_place_piece(g, m.column as int, grid_turn_color(g));
                lemma_open_col_not_full(g, m.column as int);
                lemma_piece_count_bounds(g);
            }
            let _ = board.apply_move(&m);
            let ghost mid_view = board@;
            let ghost m_pre = self.map_view();
            proof {
                assert(mid_view.grid == grid_place(g, m.column as int));
            }
            self.walk_rec(board, depth + 1, Ghost(c0));
            let _ = board.remove_move(&m);
            proof {
                lemma_apply_then_remove(pre_view, m, mid_view, board@);
                let m_now = self.map_view();
                lemma_evolved_weaken(m_pre, m_now, c0, wd, c0 + depth, c0 + depth - 1);
                lemma_evolved_trans(
                    old(self).map_view(),
                    m_pre,
                    m_now,
                    c0,
                    wd,
                    c0 + depth - 1,
                );
                // The recursive walk only writes positions one level
                // deeper, so this position's own node is untouched.
                assert(m_now[grid_code(g) as u128] == node) by {
                    let kk = grid_code(g) as u128;
                    assert(m_now.dom().contains(kk));
                    if !(m_pre.dom().contains(kk) && m_now[kk] == m_pre[kk]) {
                        assert(written_ok(m_now[kk], kk, c0, wd, c0 + depth));
                        let g2 = choose|g2: Seq<Square>|
                            #[trigger] node_matches(m_now[kk], kk, g2) && m_now[kk].is_edge == (
                            rel_depth(g2, c0) >= wd) && piece_count(g2) >= c0 + depth;
                        lemma_code_fits(g);
                        lemma_code_fits(g2);
                        lemma_grid_code_injective(g2, g);
                    }
                }
                assert forall|k: int|
                    0 <= k < idx + 1 implies #[trigger] fresh(
                    self.map_view(),
                    grid_place(g, grid_moves(g)[k].column as int),
                    c0,
                    wd,
                ) by {
                    if k < idx {
                        lemma_fresh_stable(
                            m_pre,
                            self.map_view(),
                            grid_place(g, grid_moves(g)[k].column as int),
                            c0,
                            wd,
                            c0 + depth,
                        );
                    }
                }
            }
            idx = idx + 1;
        }
        proof {
            lemma_fresh_children_build(self.map_view(), g, c0, wd, 0);
            assert(fresh(self.map_view(), g, c0, wd));
        }
    }
}


/// The value of one child of `g` under the memoized tree.
pub open spec fn child_val(m: Map<u128, TreeNode>, g: Seq<Square>, ut: bool, k: int) -> GameEvaluation {
    tval(m, grid_place(g, grid_moves(g)[k].column as int), ut)
}

/// The code of a grid fits the key type.
proof fn lemma_code_fits(g: Seq<Square>)
    requires
        grid_dims_ok(g),
    ensures
        0 <= grid_code(g) < 0x1000000000000000000000int,
        (grid_code(g) as u128) as int == grid_code(g),
{
    lemma_code_bounds(g, 0);
    assert(pow4(42) == 0x1000000000000000000000int) by {
        reveal_with_fuel(pow4, 43);
    }
}

/// Under the map invariant, the node stored for a grid's code records
/// exactly that grid's legal moves.
proof fn lemma_map_node_children(m: Map<u128, TreeNode>, g: Seq<Square>)
    requires
        map_inv(m),
        valid_grid(g),
        m.dom().contains(grid_code(g) as u128),
    ensures
        m[grid_code(g) as u128].children@ == grid_moves(g),
{
    let key = grid_code(g) as u128;
    assert(node_inv(m[key], key));
    let g2 = choose|g2: Seq<Square>| #[trigger] node_matches(m[key], key, g2);
    lemma_code_fits(g);
    lemma_grid_code_injective(g2, g);
}

/// Walk completeness of the children from `i` on extends to each member.
proof fn lemma_wc_children_member(m: Map<u128, TreeNode>, g: Seq<Square>, i: int, k: int)
    requires
        valid_grid(g),
        0 <= i <= k < grid_moves(g).len(),
        wc_children(m, g, i),
    ensures
        walk_complete(m, grid_place(g, grid_moves(g)[k].column as int)),
    decreases k - i,
{
    reveal_with_fuel(wc_children, 2);
    if k > i {
        lemma_wc_children_member(m, g, i + 1, k);
    }
}

/// Walk completeness of every child from `i` on rebuilds the chained form.
proof fn lemma_wc_children_build(m: Map<u128, TreeNode>, g: Seq<Square>, i: int)
    requires
        valid_grid(g),
        0 <= i < grid_moves(g).len(),
        forall|k: int|
            i <= k < grid_moves(g).len() ==> #[trigger] walk_complete(
                m,
                grid_place(g, grid_moves(g)[k].column as int),
            ),
    ensures
        wc_children(m, g, i),
    decreases grid_moves(g).len() - i,
{
    assert(walk_complete(m, grid_place(g, grid_moves(g)[i].column as int)));
    if i < grid_moves(g).len() - 1 {
        lemma_wc_children_build(m, g, i + 1);
    }
}

/// The best-child value is an upper (maximizing) or lower (minimizing)
/// bound of every child value from `i` on, and is attained by one of them.
proof fn lemma_tbest_char(m: Map<u128, TreeNode>, g: Seq<Square>, ut: bool, i: int)
    requires
        valid_grid(g),
        0 <= i < grid_moves(g).len(),
    ensures
        forall|k: int|
            i <= k < grid_moves(g).len() ==> (if grid_maxing(g) {
                spec_le(#[trigger] child_val(m, g, ut, k), tbest(m, g, ut, i))
            } else {
                spec_le(tbest(m, g, ut, i), child_val(m, g, ut, k))
            }),
        exists|k: int|
            i <= k < grid_moves(g).len() && tbest(m, g, ut, i) == #[trigger] child_val(
                m,
                g,
                ut,
                k,
            ),
    decreases grid_moves(g).len() - i,
{
    reveal_with_fuel(tbest, 2);
    let len = grid_moves(g).len() as int;
    if i == len - 1 {
        assert(tbest(m, g, ut, i) == child_val(m, g, ut, i));
    } else {
        lemma_tbest_char(m, g, ut, i + 1);
        let v = child_val(m, g, ut, i);
        let rest = tbest(m, g, ut, i + 1);
        assert forall|k: int|
            i <= k < len implies (if grid_maxing(g) {
                spec_le(#[trigger] child_val(m, g, ut, k), tbest(m, g, ut, i))
            } else {
                spec_le(tbest(m, g, ut, i), child_val(m, g, ut, k))
            }) by {
            if k > i {
                assert(if grid_maxing(g) {
                    spec_le(child_val(m, g, ut, k), rest)
                } else {
                    spec_le(rest, child_val(m, g, ut, k))
                });
            }
        }
        if grid_maxing(g) {
            if spec_le(v, rest) {
                let k2 = choose|k2: int| i + 1 <= k2 < len && rest == #[trigger] child_val(m, g, ut, k2);
                assert(tbest(m, g, ut, i) == child_val(m, g, ut, k2));
            } else {
                assert(tbest(m, g, ut, i) == child_val(m, g, ut, i));
            }
        } else {
            if spec_le(v, rest) {
                assert(tbest(m, g, ut, i) == child_val(m, g, ut, i));
            } else {
                let k2 = choose|k2: int| i + 1 <= k2 < len && rest == #[trigger] child_val(m, g, ut, k2);
                assert(tbest(m, g, ut, i) == child_val(m, g, ut, k2));
            }
        }
    }
}

impl Tree {
    /// The minimax value of a position over the memoized tree. Returns
    /// `None` exactly when the map cannot answer: the position or one of
    /// its needed descendants was never walked, or an unexpanded interior
    /// node has no moves. The board is restored before returning.
    fn minimax_value(&self, board: &mut Board) -> (r: Option<GameEvaluation>)
        requires
            old(board).wf(),
            self.inv(),
        ensures
            final(board)@ == old(board)@,
            r is Some <==> walk_complete(self.map_view(), old(board)@.grid),
            r matches Some(v) ==> v == tval(
                self.map_view(),
                old(board)@.grid,
                self.spec_use_threats(),
            ) && spec_lt(GameEvaluation::MinusInfinity, v) && spec_lt(
                v,
                GameEvaluation::PlusInfinity,
            ),
        decreases (CELLS as int) - old(board)@.turn,
    {
        let ghost g = board@.grid;
        let ghost bview = board@;
        let ghost m = self.map_view();
        let ghost ut = self.spec_use_threats();
        proof {
            lemma_piece_count_bounds(g);
            lemma_code_fits(g);
        }

        let key = board_code(board);
        let node = match self.map.get(&key) {
            None => {
                return None;
            },
            Some(node) => node,
        };
        proof {
            lemma_map_node_children(m, g);
        }

        if node.is_edge {
            return Some(board.evaluate(self.use_threats));
        }
        let n = node.children.len();
        if n == 0 {
            return None;
        }

        let maxing = matches!(board.whos_to_play(), Piece::Yellow);
        let mut i: usize = n;
        let mut acc: GameEvaluation = GameEvaluation::Draw;
        while i > 0
            invariant
                self.inv(),
                board.wf(),
                board@ == bview,
                bview == old(board)@,
                g == bview.grid,
                m == self.map_view(),
                ut == self.spec_use_threats(),
                m.dom().contains(grid_code(g) as u128),
                !m[grid_code(g) as u128].is_edge,
                i <= n,
                n == grid_moves(g).len(),
                n > 0,
                node.children@ == grid_moves(g),
                maxing == grid_maxing(g),
                i < n ==> acc == tbest(m, g, ut, i as int),
                i < n ==> wc_children(m, g, i as int),
                i < n ==> spec_lt(GameEvaluation::MinusInfinity, acc) && spec_lt(
                    acc,
                    GameEvaluation::PlusInfinity,
                ),
            decreases i,
        {
            i = i - 1;
            let mv = node.children[i];
            proof {
                lemma_moves_upto_members(g, grid_turn_color(g), WIDTH as int);
                assert(mv == grid_moves(g)[i as int]);
                assert(mv.column < WIDTH && col_open(g, mv.column as int));
                lemma_height_char(g, mv.column as int);
                lemma_place_piece(g, mv.column as int, grid_turn_color(g));
                lemma_open_col_not_full(g, mv.column as int);
                lemma_piece_count_bounds(g);
            }
            let _ = board.apply_move(&mv);
            let ghost mid_view = board@;
            proof {
                assert(mid_view.grid == grid_place(g, mv.column as int));
            }
            let sub = self.minimax_value(board);
            let _ = board.remove_move(&mv);
            proof {
                lemma_apply_then_remove(bview, mv, mid_view, board@);
            }
            match sub {
                None => {
                    proof {
                        // The unanswerable child refutes completeness of
                        // the whole position.
                        if walk_complete(m, g) {
                            lemma_wc_children_member(m, g, 0, i as int);
                        }
                    }
                    return None;
                },
                Some(v) => {
                    if i == n - 1 {
                        acc = v;
                    } else if maxing {
                        acc = if v.le(&acc) {
                            acc
                        } else {
                            v
                        };
                    } else {
                        acc = if v.le(&acc) {
                            v
                        } else {
                            acc
                        };
                    }
                    proof {
                        assert(acc == tbest(m, g, ut, i as int));
                    }
                },
            }
        }
        proof {
            assert(acc == tbest(m, g, ut, 0));
            assert(walk_complete(m, g));
        }
        Some(acc)
    }
}


/// What an alpha-beta result certifies about the true value `v` relative
/// to its search window: a result at or below alpha bounds the value from
/// above, one at or above beta bounds it from below, and one strictly
/// inside the window is exact.
pub open spec fn ab_ok(
    r: GameEvaluation,
    v: GameEvaluation,
    alpha: GameEvaluation,
    beta: GameEvaluation,
) -> bool {
    &&& spec_le(r, alpha) ==> spec_le(v, alpha)
    &&& spec_le(beta, r) ==> spec_le(beta, v)
    &&& spec_lt(alpha, r) && spec_lt(r, beta) ==> r == v
}

impl Tree {
    /// The alpha-beta value of a position over the memoized tree: the same
    /// value minimax computes, up to the search window, with cutoffs that
    /// skip children that cannot change the result. Skipped children are
    /// never consulted, so `None` is only guaranteed absent when the walk
    /// reached everything. The board is restored before returning.
    #[verifier::rlimit(60)]
    fn alpha_beta_value(
        &self,
        board: &mut Board,
        alpha: GameEvaluation,
        beta: GameEvaluation,
    ) -> (r: Option<GameEvaluation>)
        requires
            old(board).wf(),
            self.inv(),
            spec_lt(alpha, beta),
        ensures
            final(board)@ == old(board)@,
            walk_complete(self.map_view(), old(board)@.grid) ==> (r matches Some(v) && ab_ok(
                v,
                tval(self.map_view(), old(board)@.grid, self.spec_use_threats()),
                alpha,
                beta,
            ) && spec_lt(GameEvaluation::MinusInfinity, v) && spec_lt(
                v,
                GameEvaluation::PlusInfinity,
            )),
        decreases (CELLS as int) - old(board)@.turn,
    {
        let ghost g = board@.grid;
        let ghost bview = board@;
        let ghost m = self.map_view();
        let ghost ut = self.spec_use_threats();
        proof {
            lemma_piece_count_bounds(g);
            lemma_code_fits(g);
        }

        let key = board_code(board);
        let node = match self.map.get(&key) {
            None => {
                return None;
            },
            Some(node) => node,
        };
        proof {
            lemma_map_node_children(m, g);
        }

        if node.is_edge {
            return Some(board.evaluate(self.use_threats));
        }
        let n = node.children.len();
        if n == 0 {
            return None;
        }
        proof {
            if walk_complete(m, g) {
                lemma_tbest_char(m, g, ut, 0);
            }
        }

        let maxing = matches!(board.whos_to_play(), Piece::Yellow);
        if maxing {
            let mut best: GameEvaluation = GameEvaluation::MinusInfinity;
            let mut a = alpha;
            let mut broke: bool = false;
            let mut idx: usize = 0;
            while idx < n && !broke
                invariant
                    self.inv(),
                    board.wf(),
                    board@ == bview,
                    bview == old(board)@,
                    g == bview.grid,
                    m == self.map_view(),
                    ut == self.spec_use_threats(),
                    m.dom().contains(grid_code(g) as u128),
                    !m[grid_code(g) as u128].is_edge,
                    node.children@ == grid_moves(g),
                    idx <= n,
                    n == grid_moves(g).len(),
                    n > 0,
                    maxing == grid_maxing(g),
                    spec_lt(alpha, beta),
                    a == ge_max(alpha, best),
                    !broke ==> spec_lt(a, beta),
                    broke ==> idx > 0,
                    walk_complete(m, g) ==> {
                        &&& spec_lt(best, GameEvaluation::PlusInfinity)
                        &&& (idx > 0 ==> spec_lt(GameEvaluation::MinusInfinity, best))
                        &&& (!broke ==> spec_lt(best, beta))
                        &&& (!broke ==> forall|k: int|
                            0 <= k < idx ==> spec_le(
                                #[trigger] child_val(m, g, ut, k),
                                ge_max(alpha, best),
                            ))
                        &&& (!broke && spec_lt(alpha, best) ==> exists|k: int|
                            0 <= k < idx && #[trigger] child_val(m, g, ut, k) == best)
                        &&& (broke ==> spec_le(beta, best) && exists|k: int|
                            0 <= k < idx && spec_le(beta, #[trigger] child_val(m, g, ut, k)))
                    },
                decreases n - idx,
            {
                let mv = node.children[idx];
                proof {
                    lemma_moves_upto_members(g, grid_turn_color(g), WIDTH as int);
                    assert(mv == grid_moves(g)[idx as int]);
                    assert(mv.column < WIDTH && col_open(g, mv.column as int));
                    lemma_height_char(g, mv.column as int);
                    lemma_place_piece(g, mv.column as int, grid_turn_color(g));
                    lemma_open_col_not_full(g, mv.column as int);
                    lemma_piece_count_bounds(g);
                }
                let _ = board.apply_move(&mv);
                let ghost mid_view = board@;
                proof {
                    assert(mid_view.grid == grid_place(g, mv.column as int));
                    if walk_complete(m, g) {
                        lemma_wc_children_member(m, g, 0, idx as int);
                    }
                }
                let sub = self.alpha_beta_value(board, a, beta);
                let _ = board.remove_move(&mv);
                proof {
                    lemma_apply_then_remove(bview, mv, mid_view, board@);
                }
                let v = match sub {
                    None => {
                        return None;
                    },
                    Some(v) => v,
                };
                let ghost best0 = best;
                let ghost a0 = a;
                if best.lt(&v) {
                    best = v;
                }
                if a.lt(&best) {
                    a = best;
                }
                if beta.le(&a) {
                    broke = true;
                }
                proof {
                    if walk_complete(m, g) {
                        let cv = child_val(m, g, ut, idx as int);
                        assert(ab_ok(v, cv, a0, beta));
                        if !broke {
                            assert forall|k: int| 0 <= k < idx + 1 implies spec_le(
                                #[trigger] child_val(m, g, ut, k),
                                ge_max(alpha, best),
                            ) by {
                                if k < idx {
                                    assert(spec_le(child_val(m, g, ut, k), ge_max(alpha, best0)));
                                } else {
                                    if spec_le(v, a0) {
                                        assert(spec_le(cv, a0));
                                    } else if spec_lt(v, beta) {
                                        assert(cv == v);
                                    } else {
                                        // A child at or above beta forces the
                                        // cutoff, against this case.
                                        assert(spec_le(beta, v) && spec_lt(best0, v));
                                        assert(best == v);
                                        assert(spec_le(beta, ge_max(alpha, best)));
                                        assert(false);
                                    }
                                }
                            }
                        }
                        if broke {
                            assert(spec_le(beta, best));
                            if spec_le(beta, v) {
                                assert(spec_le(beta, cv));
                                assert(spec_le(beta, child_val(m, g, ut, idx as int)));
                            } else {
                                // The cutoff came from an earlier child.
                                assert(best == best0);
                            }
                        }
                        if !broke && spec_lt(alpha, best) {
                            if best == v && spec_lt(best0, v) {
                                assert(spec_lt(a0, v) && spec_lt(v, beta));
                                assert(cv == v);
                                assert(child_val(m, g, ut, idx as int) == best);
                            }
                        }
                    }
                }
                idx = idx + 1;
            }
            proof {
                if walk_complete(m, g) {
                    let vstar = tval(m, g, ut);
                    assert(vstar == tbest(m, g, ut, 0));
                    if broke {
                        let k = choose|k: int|
                            0 <= k < idx && spec_le(beta, #[trigger] child_val(m, g, ut, k));
                        assert(spec_le(child_val(m, g, ut, k), vstar));
                        assert(ab_ok(best, vstar, alpha, beta));
                    } else {
                        let j = choose|j: int|
                            0 <= j < n && vstar == #[trigger] child_val(m, g, ut, j);
                        if spec_le(best, alpha) {
                            assert(spec_le(child_val(m, g, ut, j), ge_max(alpha, best)));
                            assert(ab_ok(best, vstar, alpha, beta));
                        } else {
                            let k = choose|k: int|
                                0 <= k < idx && #[trigger] child_val(m, g, ut, k) == best;
                            assert(spec_le(best, vstar));
                            assert(spec_le(child_val(m, g, ut, j), ge_max(alpha, best)));
                            assert(spec_le(vstar, best));
                            assert(ab_ok(best, vstar, alpha, beta));
                        }
                    }
                }
            }
            Some(best)
        } else {
            let mut best: GameEvaluation = GameEvaluation::PlusInfinity;
            let mut b = beta;
            let mut broke: bool = false;
            let mut idx: usize = 0;
            while idx < n && !broke
                invariant
                    self.inv(),
                    board.wf(),
                    board@ == bview,
                    bview == old(board)@,
                    g == bview.grid,
                    m == self.map_view(),
                    ut == self.spec_use_threats(),
                    m.dom().contains(grid_code(g) as u128),
                    !m[grid_code(g) as u128].is_edge,
                    node.children@ == grid_moves(g),
                    idx <= n,
                    n == grid_moves(g).len(),
                    n > 0,
                    maxing == grid_maxing(g),
                    spec_lt(alpha, beta),
                    b == ge_min(beta, best),
                    !broke ==> spec_lt(alpha, b),
                    broke ==> idx > 0,
                    walk_complete(m, g) ==> {
                        &&& spec_lt(GameEvaluation::MinusInfinity, best)
                        &&& (idx > 0 ==> spec_lt(best, GameEvaluation::PlusInfinity))
                        &&& (!broke ==> spec_lt(alpha, best))
                        &&& (!broke ==> forall|k: int|
                            0 <= k < idx ==> spec_le(
                                ge_min(beta, best),
                                #[trigger] child_val(m, g, ut, k),
                            ))
                        &&& (!broke && spec_lt(best, beta) ==> exists|k: int|
                            0 <= k < idx && #[trigger] child_val(m, g, ut, k) == best)
                        &&& (broke ==> spec_le(best, alpha) && exists|k: int|
                            0 <= k < idx && spec_le(#[trigger] child_val(m, g, ut, k), alpha))
                    },
                decreases n - idx,
            {
                let mv = node.children[idx];
                proof {
                    lemma_moves_upto_members(g, grid_turn_color(g), WIDTH as int);
                    assert(mv == grid_moves(g)[idx as int]);
                    assert(mv.column < WIDTH && col_open(g, mv.column as int));
                    lemma_height_char(g, mv.column as int);
                    lemma_place_piece(g, mv.column as int, grid_turn_color(g));
                    lemma_open_col_not_full(g, mv.column as int);
                    lemma_piece_count_bounds(g);
                }
                let _ = board.apply_move(&mv);
                let ghost mid_view = board@;
                proof {
                    assert(mid_view.grid == grid_place(g, mv.column as int));
                    if walk_complete(m, g) {
                        lemma_wc_children_member(m, g, 0, idx as int);
                    }
                }
                let sub = self.alpha_beta_value(board, alpha, b);
                let _ = board.remove_move(&mv);
                proof {
                    lemma_apply_then_remove(bview, mv, mid_view, board@);
                }
                let v = match sub {
                    None => {
                        return None;
                    },
                    Some(v) => v,
                };
                let ghost best0 = best;
                let ghost b0 = b;
                if v.lt(&best) {
                    best = v;
                }
                if best.lt(&b) {
                    b = best;
                }
                if b.le(&alpha) {
                    broke = true;
                }
                proof {
                    if walk_complete(m, g) {
                        let cv = child_val(m, g, ut, idx as int);
                        assert(ab_ok(v, cv, alpha, b0));
                        if !broke {
                            assert forall|k: int| 0 <= k < idx + 1 implies spec_le(
                                ge_min(beta, best),
                                #[trigger] child_val(m, g, ut, k),
                            ) by {
                                if k < idx {
                                    assert(spec_le(ge_min(beta, best0), child_val(m, g, ut, k)));
                                } else {
                                    if spec_le(b0, v) {
                                        assert(spec_le(b0, cv));
                                    } else if spec_lt(alpha, v) {
                                        assert(cv == v);
                                    } else {
                                        // A child at or below alpha forces the
                                        // cutoff, against this case.
                                        assert(spec_le(v, alpha) && spec_lt(v, best0));
                                        assert(best == v);
                                        assert(spec_le(ge_min(beta, best), alpha));
                                        assert(false);
                                    }
                                }
                            }
                        }
                        if broke {
                            assert(spec_le(best, alpha));
                            if spec_le(v, alpha) {
                                assert(spec_le(cv, alpha));
                                assert(spec_le(child_val(m, g, ut, idx as int), alpha));
                            } else {
                                assert(best == best0);
                            }
                        }
                        if !broke && spec_lt(best, beta) {
                            if best == v && spec_lt(v, best0) {
                                assert(spec_lt(alpha, v) && spec_lt(v, b0));
                                assert(cv == v);
                                assert(child_val(m, g, ut, idx as int) == best);
                            }
                        }
                    }
                }
                idx = idx + 1;
            }
            proof {
                if walk_complete(m, g) {
                    let vstar = tval(m, g, ut);
                    assert(vstar == tbest(m, g, ut, 0));
                    if broke {
                        let k = choose|k: int|
                            0 <= k < idx && spec_le(#[trigger] child_val(m, g, ut, k), alpha);
                        assert(spec_le(vstar, child_val(m, g, ut, k)));
                        assert(ab_ok(best, vstar, alpha, beta));
                    } else {
                        let j = choose|j: int|
                            0 <= j < n && vstar == #[trigger] child_val(m, g, ut, j);
                        if spec_le(beta, best) {
                            assert(spec_le(ge_min(beta, best), child_val(m, g, ut, j)));
                            assert(ab_ok(best, vstar, alpha, beta));
                        } else {
                            let k = choose|k: int|
                                0 <= k < idx && #[trigger] child_val(m, g, ut, k) == best;
                            assert(spec_le(vstar, best));
                            assert(spec_le(ge_min(beta, best), child_val(m, g, ut, j)));
                            assert(spec_le(best, vstar));
                            assert(ab_ok(best, vstar, alpha, beta));
                        }
                    }
                }
            }
            Some(best)
        }
    }
}


/// What a best-move query promises when the map can answer for the
/// position and the position is an expanded interior node: the returned
/// move is one of the position's legal moves, and the child it leads to
/// carries the position's own tree value.
pub open spec fn best_move_ok(
    m: Map<u128, TreeNode>,
    g: Seq<Square>,
    ut: bool,
    mv: BoardMove,
) -> bool {
    exists|k: int|
        0 <= k < grid_moves(g).len() && grid_moves(g)[k] == mv && #[trigger] child_val(m, g, ut, k)
            == tval(m, g, ut)
}

/// A position a best-move query is answerable for: fully walked, and not
/// itself a frontier node.
pub open spec fn query_ok(m: Map<u128, TreeNode>, g: Seq<Square>) -> bool {
    walk_complete(m, g) && !m[grid_code(g) as u128].is_edge
}

impl Tree {
    /// Answers a best-move query with plain minimax: every child is
    /// searched, and the first child attaining the best value is chosen.
    fn best_move_minimax(&self, board: &mut Board) -> (r: Option<BoardMove>)
        requires
            old(board).wf(),
            self.inv(),
        ensures
            final(board)@ == old(board)@,
            r is Some <==> query_ok(self.map_view(), old(board)@.grid),
            r matches Some(mv) ==> best_move_ok(
                self.map_view(),
                old(board)@.grid,
                self.spec_use_threats(),
                mv,
            ),
    {
        let ghost g = board@.grid;
        let ghost bview = board@;
        let ghost m = self.map_view();
        let ghost ut = self.spec_use_threats();
        proof {
            lemma_piece_count_bounds(g);
            lemma_code_fits(g);
        }

        let key = board_code(board);
        let node = match self.map.get(&key) {
            None => {
                return None;
            },
            Some(node) => node,
        };
        proof {
            lemma_map_node_children(m, g);
        }
        if node.is_edge {
            return None;
        }
        let n = node.children.len();
        if n == 0 {
            return None;
        }

        let maxing = matches!(board.whos_to_play(), Piece::Yellow);
        let mut best: Option<(GameEvaluation, BoardMove)> = None;
        let mut idx: usize = 0;
        while idx < n
            invariant
                self.inv(),
                board.wf(),
                board@ == bview,
                bview == old(board)@,
                g == bview.grid,
                m == self.map_view(),
                ut == self.spec_use_threats(),
                m.dom().contains(grid_code(g) as u128),
                !m[grid_code(g) as u128].is_edge,
                node.children@ == grid_moves(g),
                idx <= n,
                n == grid_moves(g).len(),
                n > 0,
                maxing == grid_maxing(g),
                best is Some <==> idx > 0,
                forall|k: int|
                    0 <= k < idx ==> #[trigger] walk_complete(
                        m,
                        grid_place(g, grid_moves(g)[k].column as int),
                    ),
                walk_complete(m, g) ==> (best matches Some((bv, bm)) ==> {
                    &&& exists|k: int|
                        0 <= k < idx && grid_moves(g)[k] == bm && #[trigger] child_val(
                            m,
                            g,
                            ut,
                            k,
                        ) == bv
                    &&& forall|k: int|
                        0 <= k < idx ==> (if maxing {
                            spec_le(#[trigger] child_val(m, g, ut, k), bv)
                        } else {
                            spec_le(bv, #[trigger] child_val(m, g, ut, k))
                        })
                }),
            decreases n - idx,
        {
            let mv = node.children[idx];
            proof {
                lemma_moves_upto_members(g, grid_turn_color(g), WIDTH as int);
                assert(mv == grid_moves(g)[idx as int]);
                assert(mv.column < WIDTH && col_open(g, mv.column as int));
                lemma_height_char(g, mv.column as int);
                lemma_place_piece(g, mv.column as int, grid_turn_color(g));
                lemma_open_col_not_full(g, mv.column as int);
                lemma_piece_count_bounds(g);
            }
            let _ = board.apply_move(&mv);
            let ghost mid_view = board@;
            proof {
                assert(mid_view.grid == grid_place(g, mv.column as int));
                if walk_complete(m, g) {
                    lemma_wc_children_member(m, g, 0, idx as int);
                }
            }
            let sub = self.minimax_value(board);
            let _ = board.remove_move(&mv);
            proof {
                lemma_apply_then_remove(bview, mv, mid_view, board@);
            }
            let v = match sub {
                None => {
                    return None;
                },
                Some(v) => v,
            };
            let ghost best0 = best;
            best = match best {
                None => Some((v, mv)),
                Some((bv, bm)) => {
                    let better = if maxing {
                        bv.lt(&v)
                    } else {
                        v.lt(&bv)
                    };
                    if better {
                        Some((v, mv))
                    } else {
                        Some((bv, bm))
                    }
                },
            };
            proof {
                if walk_complete(m, g) {
                    assert(v == child_val(m, g, ut, idx as int));
                    let (bv, bm) = best->Some_0;
                    if best0 is Some {
                        let (bv0, bm0) = best0->Some_0;
                        let w = choose|w: int|
                            0 <= w < idx && grid_moves(g)[w] == bm0 && #[trigger] child_val(
                                m,
                                g,
                                ut,
                                w,
                            ) == bv0;
                        if bv == v && bm == mv {
                            assert(child_val(m, g, ut, idx as int) == bv);
                        } else {
                            assert(child_val(m, g, ut, w) == bv);
                        }
                    } else {
                        assert(child_val(m, g, ut, idx as int) == bv);
                    }
                    assert forall|k: int| 0 <= k < idx + 1 implies (if maxing {
                        spec_le(#[trigger] child_val(m, g, ut, k), bv)
                    } else {
                        spec_le(bv, #[trigger] child_val(m, g, ut, k))
                    }) by {
                        if k < idx {
                            let (bv0, bm0) = best0->Some_0;
                            assert(if maxing {
                                spec_le(child_val(m, g, ut, k), bv0)
                            } else {
                                spec_le(bv0, child_val(m, g, ut, k))
                            });
                        }
                    }
                }
            }
            idx = idx + 1;
        }
        proof {
            lemma_wc_children_build(m, g, 0);
            assert(walk_complete(m, g));
            lemma_tbest_char(m, g, ut, 0);
            let (bv, bm) = best->Some_0;
            let j = choose|j: int| 0 <= j < n && tbest(m, g, ut, 0) == #[trigger] child_val(m, g, ut, j);
            let k = choose|k: int|
                0 <= k < n && grid_moves(g)[k] == bm && #[trigger] child_val(m, g, ut, k) == bv;
            assert(bv == tval(m, g, ut));
            assert(best_move_ok(m, g, ut, bm));
        }
        match best {
            None => None,
            Some((_, bm)) => Some(bm),
        }
    }

    /// Answers a best-move query with alpha-beta pruning from sentinel
    /// bounds strictly outside every reachable verdict, so that no
    /// legitimate value is mistaken for a bound even when the position is
    /// truly lost or won.
    fn best_move_alpha_beta(&self, board: &mut Board) -> (r: Option<BoardMove>)
        requires
            old(board).wf(),
            self.inv(),
        ensures
            final(board)@ == old(board)@,
            query_ok(self.map_view(), old(board)@.grid) ==> r is Some,
            r matches Some(mv) ==> (query_ok(self.map_view(), old(board)@.grid)
                ==> best_move_ok(
                self.map_view(),
                old(board)@.grid,
                self.spec_use_threats(),
                mv,
            )),
    {
        let ghost g = board@.grid;
        let ghost bview = board@;
        let ghost m = self.map_view();
        let ghost ut = self.spec_use_threats();
        proof {
            lemma_piece_count_bounds(g);
            lemma_code_fits(g);
        }

        let key = board_code(board);
        let node = match self.map.get(&key) {
            None => {
                return None;
            },
            Some(node) => node,
        };
        proof {
            lemma_map_node_children(m, g);
        }
        if node.is_edge {
            return None;
        }
        let n = node.children.len();
        if n == 0 {
            return None;
        }

        let maxing = matches!(board.whos_to_play(), Piece::Yellow);
        let mut best: Option<(GameEvaluation, BoardMove)> = None;
        let mut broke: bool = false;
        let mut idx: usize = 0;
        while idx < n && !broke
            invariant
                self.inv(),
                board.wf(),
                board@ == bview,
                bview == old(board)@,
                g == bview.grid,
                m == self.map_view(),
                ut == self.spec_use_threats(),
                m.dom().contains(grid_code(g) as u128),
                !m[grid_code(g) as u128].is_edge,
                node.children@ == grid_moves(g),
                idx <= n,
                n == grid_moves(g).len(),
                n > 0,
                maxing == grid_maxing(g),
                best is Some <==> idx > 0,
                !broke ==> (best matches Some((bv, bm)) ==> (if maxing {
                    spec_lt(bv, GameEvaluation::PlusInfinity)
                } else {
                    spec_lt(GameEvaluation::MinusInfinity, bv)
                })),
                walk_complete(m, g) ==> {
                    &&& !broke
                    &&& (best matches Some((bv, bm)) ==> {
                        &&& spec_lt(GameEvaluation::MinusInfinity, bv)
                        &&& spec_lt(bv, GameEvaluation::PlusInfinity)
                        &&& exists|k: int|
                            0 <= k < idx && grid_moves(g)[k] == bm && #[trigger] child_val(
                                m,
                                g,
                                ut,
                                k,
                            ) == bv
                        &&& forall|k: int|
                            0 <= k < idx ==> (if maxing {
                                spec_le(#[trigger] child_val(m, g, ut, k), bv)
                            } else {
                                spec_le(bv, #[trigger] child_val(m, g, ut, k))
                            })
                    })
                },
            decreases n - idx,
        {
            let mv = node.children[idx];
            proof {
                lemma_moves_upto_members(g, grid_turn_color(g), WIDTH as int);
                assert(mv == grid_moves(g)[idx as int]);
                assert(mv.column < WIDTH && col_open(g, mv.column as int));
                lemma_height_char(g, mv.column as int);
                lemma_place_piece(g, mv.column as int, grid_turn_color(g));
                lemma_open_col_not_full(g, mv.column as int);
                lemma_piece_count_bounds(g);
            }
            let window: GameEvaluation = match best {
                None => {
                    if maxing {
                        GameEvaluation::MinusInfinity
                    } else {
                        GameEvaluation::PlusInfinity
                    }
                },
                Some((bv, _)) => bv,
            };
            let _ = board.apply_move(&mv);
            let ghost mid_view = board@;
            proof {
                assert(mid_view.grid == grid_place(g, mv.column as int));
                if walk_complete(m, g) {
                    lemma_wc_children_member(m, g, 0, idx as int);
                }
            }
            let sub = if maxing {
                self.alpha_beta_value(board, window, GameEvaluation::PlusInfinity)
            } else {
                self.alpha_beta_value(board, GameEvaluation::MinusInfinity, window)
            };
            let _ = board.remove_move(&mv);
            proof {
                lemma_apply_then_remove(bview, mv, mid_view, board@);
            }
            let v = match sub {
                None => {
                    return None;
                },
                Some(v) => v,
            };
            let ghost best0 = best;
            best = match best {
                None => Some((v, mv)),
                Some((bv, bm)) => {
                    let better = if maxing {
                        bv.lt(&v)
                    } else {
                        v.lt(&bv)
                    };
                    if better {
                        Some((v, mv))
                    } else {
                        Some((bv, bm))
                    }
                },
            };
            // With sentinel root bounds a genuine cutoff cannot happen, but
            // a malformed map could hand back a sentinel value; stop rather
            // than searching on a degenerate window.
            let (cur, _) = match best {
                Some(p) => p,
                None => (GameEvaluation::Draw, BoardMove { column: 0, color: None }),
            };
            if maxing {
                if matches!(cur, GameEvaluation::PlusInfinity) {
                    broke = true;
                }
            } else {
                if matches!(cur, GameEvaluation::MinusInfinity) {
                    broke = true;
                }
            }
            proof {
                if walk_complete(m, g) {
                    let cv = child_val(m, g, ut, idx as int);
                    let (bv, bm) = best->Some_0;
                    if best0 is None {
                        assert(cv == v);
                        assert(child_val(m, g, ut, idx as int) == bv);
                    } else {
                        let (bv0, bm0) = best0->Some_0;
                        let w = choose|w: int|
                            0 <= w < idx && grid_moves(g)[w] == bm0 && #[trigger] child_val(
                                m,
                                g,
                                ut,
                                w,
                            ) == bv0;
                        if maxing {
                            if spec_le(v, bv0) {
                                assert(spec_le(cv, bv0));
                                assert(child_val(m, g, ut, w) == bv);
                            } else {
                                assert(cv == v);
                                assert(child_val(m, g, ut, idx as int) == bv);
                            }
                        } else {
                            if spec_le(bv0, v) {
                                assert(spec_le(bv0, cv));
                                assert(child_val(m, g, ut, w) == bv);
                            } else {
                                assert(cv == v);
                                assert(child_val(m, g, ut, idx as int) == bv);
                            }
                        }
                    }
                    assert forall|k: int| 0 <= k < idx + 1 implies (if maxing {
                        spec_le(#[trigger] child_val(m, g, ut, k), bv)
                    } else {
                        spec_le(bv, #[trigger] child_val(m, g, ut, k))
                    }) by {
                        if k < idx {
                            let (bv0, bm0) = best0->Some_0;
                            assert(if maxing {
                                spec_le(child_val(m, g, ut, k), bv0)
                            } else {
                                spec_le(bv0, child_val(m, g, ut, k))
                            });
                            if spec_le(v, cv) || spec_le(cv, v) {
                            }
                        }
                    }
                    assert(!broke);
                }
            }
            idx = idx + 1;
        }
        proof {
            if walk_complete(m, g) {
                lemma_tbest_char(m, g, ut, 0);
                let (bv, bm) = best->Some_0;
                let j = choose|j: int| 0 <= j < n && tbest(m, g, ut, 0) == #[trigger] child_val(m, g, ut, j);
                let k = choose|k: int|
                    0 <= k < n && grid_moves(g)[k] == bm && #[trigger] child_val(m, g, ut, k) == bv;
                assert(bv == tval(m, g, ut));
                assert(best_move_ok(m, g, ut, bm));
            }
        }
        match best {
            None => None,
            Some((_, bm)) => Some(bm),
        }
    }

    /// Selects the configured search algorithm and returns the best move
    /// for the position, or `None` when the position was never walked, is
    /// itself a frontier node, or (for minimax) some needed descendant is
    /// missing. Pruning never changes the chosen move's outcome: under a
    /// complete walk both algorithms return a move whose child carries the
    /// position's tree value.
    pub fn get_best_move(&self, board: &mut Board) -> (r: Option<BoardMove>)
        requires
            old(board).wf(),
            self.inv(),
        ensures
            final(board)@ == old(board)@,
            query_ok(self.map_view(), old(board)@.grid) ==> r is Some,
            r matches Some(mv) ==> (query_ok(self.map_view(), old(board)@.grid)
                ==> best_move_ok(
                self.map_view(),
                old(board)@.grid,
                self.spec_use_threats(),
                mv,
            )),
            self.spec_alg() is MiniMax ==> (r is Some <==> query_ok(
                self.map_view(),
                old(board)@.grid,
            )),
    {
        match self.alg {
            Algorithm::MiniMax => self.best_move_minimax(board),
            Algorithm::AlphaBeta => self.best_move_alpha_beta(board),
        }
    }
}

/// Pruning does not change the outcome: any two moves that satisfy a
/// best-move query's contract for the same memoized tree and position --
/// whether found by plain minimax or by alpha-beta -- lead to children of
/// one and the same value, the position's tree value.
pub proof fn lemma_pruning_preserves_outcome(
    m: Map<u128, TreeNode>,
    g: Seq<Square>,
    ut: bool,
    mv1: BoardMove,
    mv2: BoardMove,
    k1: int,
    k2: int,
)
    requires
        0 <= k1 < grid_moves(g).len(),
        0 <= k2 < grid_moves(g).len(),
        grid_moves(g)[k1] == mv1,
        grid_moves(g)[k2] == mv2,
        child_val(m, g, ut, k1) == tval(m, g, ut),
        child_val(m, g, ut, k2) == tval(m, g, ut),
    ensures
        child_val(m, g, ut, k1) == child_val(m, g, ut, k2),
{
}


/// The relative depth a grid sits at below a walk whose root held `c0`
/// pieces: the root itself is at depth one, each move one deeper.
pub open spec fn rel_depth(g: Seq<Square>, c0: int) -> int {
    piece_count(g) - c0 + 1
}

/// A node the walk just wrote: it describes its key's grid, its frontier
/// flag follows the walk's depth rule, and the grid lies at or below the
/// walk level `cmin` measures in pieces.
pub open spec fn written_ok(node: TreeNode, k: u128, c0: int, wd: int, cmin: int) -> bool {
    exists|g: Seq<Square>|
        #[trigger] node_matches(node, k, g) && node.is_edge == (rel_depth(g, c0) >= wd)
            && piece_count(g) >= cmin
}

/// How a walk evolves the map: keys are never removed, and every key is
/// either untouched or freshly written under the walk's depth rule.
pub open spec fn map_evolved(
    m1: Map<u128, TreeNode>,
    m2: Map<u128, TreeNode>,
    c0: int,
    wd: int,
    cmin: int,
) -> bool {
    &&& forall|k: u128| m1.dom().contains(k) ==> #[trigger] m2.dom().contains(k)
    &&& forall|k: u128|
        #[trigger] m2.dom().contains(k) ==> ((m1.dom().contains(k) && m2[k] == m1[k])
            || written_ok(m2[k], k, c0, wd, cmin))
}

/// The walk has freshly expanded the subtree below `g`: `g`'s node follows
/// the depth rule, and below the depth limit every child subtree is fresh.
pub open spec fn fresh(m: Map<u128, TreeNode>, g: Seq<Square>, c0: int, wd: int) -> bool
    decreases (CELLS as int) - piece_count(g), 1int, 0int,
{
    if !valid_grid(g) {
        false
    } else {
        proof {
            lemma_piece_count_bounds(g);
        }
        let key = grid_code(g) as u128;
        &&& m.dom().contains(key)
        &&& m[key].is_edge == (rel_depth(g, c0) >= wd)
        &&& (rel_depth(g, c0) < wd ==> fresh_children(m, g, c0, wd, 0))
    }
}

pub open spec fn fresh_children(
    m: Map<u128, TreeNode>,
    g: Seq<Square>,
    c0: int,
    wd: int,
    i: int,
) -> bool
    decreases (CELLS as int) - piece_count(g), 0int, grid_moves(g).len() - i,
{
    if !(valid_grid(g) && 0 <= i) {
        false
    } else if i >= grid_moves(g).len() {
        true
    } else {
        proof {
            lemma_moves_upto_members(g, grid_turn_color(g), WIDTH as int);
            lemma_place_piece(g, grid_moves(g)[i].column as int, grid_turn_color(g));
            lemma_piece_count_bounds(g);
            lemma_open_col_not_full(g, grid_moves(g)[i].column as int);
        }
        &&& fresh(m, grid_place(g, grid_moves(g)[i].column as int), c0, wd)
        &&& fresh_children(m, g, c0, wd, i + 1)
    }
}

/// Evolving further only relaxes the piece floor.
proof fn lemma_evolved_weaken(
    m1: Map<u128, TreeNode>,
    m2: Map<u128, TreeNode>,
    c0: int,
    wd: int,
    c1: int,
    c2: int,
)
    requires
        map_evolved(m1, m2, c0, wd, c1),
        c2 <= c1,
    ensures
        map_evolved(m1, m2, c0, wd, c2),
{
    assert forall|k: u128|
        #[trigger] m2.dom().contains(k) implies ((m1.dom().contains(k) && m2[k] == m1[k])
        || written_ok(m2[k], k, c0, wd, c2)) by {
        if !(m1.dom().contains(k) && m2[k] == m1[k]) {
            let g = choose|g: Seq<Square>|
                #[trigger] node_matches(m2[k], k, g) && m2[k].is_edge == (rel_depth(g, c0) >= wd)
                    && piece_count(g) >= c1;
            assert(node_matches(m2[k], k, g) && m2[k].is_edge == (rel_depth(g, c0) >= wd)
                && piece_count(g) >= c2);
        }
    }
}

/// Two walk evolutions compose.
proof fn lemma_evolved_trans(
    m1: Map<u128, TreeNode>,
    m2: Map<u128, TreeNode>,
    m3: Map<u128, TreeNode>,
    c0: int,
    wd: int,
    cmin: int,
)
    requires
        map_evolved(m1, m2, c0, wd, cmin),
        map_evolved(m2, m3, c0, wd, cmin),
    ensures
        map_evolved(m1, m3, c0, wd, cmin),
{
}

/// A fresh subtree stays fresh while the walk goes on elsewhere: later
/// writes follow the same depth rule, so they can only rewrite a node with
/// what it already says.
proof fn lemma_fresh_stable(
    m1: Map<u128, TreeNode>,
    m2: Map<u128, TreeNode>,
    g: Seq<Square>,
    c0: int,
    wd: int,
    cmin: int,
)
    requires
        fresh(m1, g, c0, wd),
        map_evolved(m1, m2, c0, wd, cmin),
    ensures
        fresh(m2, g, c0, wd),
    decreases (CELLS as int) - piece_count(g), 1int, 0int,
{
    let key = grid_code(g) as u128;
    assert(m2.dom().contains(key));
    if !(m1.dom().contains(key) && m2[key] == m1[key]) {
        let g2 = choose|g2: Seq<Square>|
            #[trigger] node_matches(m2[key], key, g2) && m2[key].is_edge == (rel_depth(g2, c0)
                >= wd) && piece_count(g2) >= cmin;
        lemma_code_fits(g);
        lemma_code_fits(g2);
        lemma_grid_code_injective(g2, g);
    }
    if rel_depth(g, c0) < wd {
        lemma_fresh_children_stable(m1, m2, g, c0, wd, cmin, 0);
    }
}

proof fn lemma_fresh_children_stable(
    m1: Map<u128, TreeNode>,
    m2: Map<u128, TreeNode>,
    g: Seq<Square>,
    c0: int,
    wd: int,
    cmin: int,
    i: int,
)
    requires
        fresh_children(m1, g, c0, wd, i),
        map_evolved(m1, m2, c0, wd, cmin),
    ensures
        fresh_children(m2, g, c0, wd, i),
    decreases (CELLS as int) - piece_count(g), 0int, grid_moves(g).len() - i,
{
    if i < grid_moves(g).len() {
        lemma_moves_upto_members(g, grid_turn_color(g), WIDTH as int);
        lemma_place_piece(g, grid_moves(g)[i].column as int, grid_turn_color(g));
        lemma_piece_count_bounds(g);
        lemma_open_col_not_full(g, grid_moves(g)[i].column as int);
        lemma_fresh_stable(m1, m2, grid_place(g, grid_moves(g)[i].column as int), c0, wd, cmin);
        lemma_fresh_children_stable(m1, m2, g, c0, wd, cmin, i + 1);
    }
}

/// Freshness of every child from `i` on rebuilds the chained form.
proof fn lemma_fresh_children_build(m: Map<u128, TreeNode>, g: Seq<Square>, c0: int, wd: int, i: int)
    requires
        valid_grid(g),
        0 <= i,
        forall|k: int|
            i <= k < grid_moves(g).len() ==> #[trigger] fresh(
                m,
                grid_place(g, grid_moves(g)[k].column as int),
                c0,
                wd,
            ),
    ensures
        fresh_children(m, g, c0, wd, i),
    decreases grid_moves(g).len() - i,
{
    if i < grid_moves(g).len() {
        assert(fresh(m, grid_place(g, grid_moves(g)[i].column as int), c0, wd));
        lemma_fresh_children_build(m, g, c0, wd, i + 1);
    }
}

proof fn lemma_fresh_children_member(
    m: Map<u128, TreeNode>,
    g: Seq<Square>,
    c0: int,
    wd: int,
    i: int,
    k: int,
)
    requires
        0 <= i <= k < grid_moves(g).len(),
        fresh_children(m, g, c0, wd, i),
    ensures
        fresh(m, grid_place(g, grid_moves(g)[k].column as int), c0, wd),
    decreases k - i,
{
    if k > i {
        lemma_fresh_children_member(m, g, c0, wd, i + 1, k);
    }
}

/// A freshly walked subtree can be answered for, as long as the walk's
/// depth kept it on the board: interior nodes then sit strictly below a
/// full board and always have children to search.
pub proof fn lemma_fresh_answers(m: Map<u128, TreeNode>, g: Seq<Square>, c0: int, wd: int)
    requires
        fresh(m, g, c0, wd),
        c0 + wd <= (CELLS as int) + 1,
    ensures
        walk_complete(m, g),
    decreases (CELLS as int) - piece_count(g), 1int, 0int,
{
    let key = grid_code(g) as u128;
    if !m[key].is_edge {
        assert(rel_depth(g, c0) < wd);
        lemma_piece_count_bounds(g);
        assert(piece_count(g) < (CELLS as int));
        lemma_not_full_has_move(g, grid_turn_color(g));
        assert forall|k: int|
            0 <= k < grid_moves(g).len() implies #[trigger] walk_complete(
            m,
            grid_place(g, grid_moves(g)[k].column as int),
        ) by {
            lemma_fresh_children_member(m, g, c0, wd, 0, k);
            lemma_moves_upto_members(g, grid_turn_color(g), WIDTH as int);
            lemma_place_piece(g, grid_moves(g)[k].column as int, grid_turn_color(g));
            lemma_open_col_not_full(g, grid_moves(g)[k].column as int);
            lemma_fresh_answers(m, grid_place(g, grid_moves(g)[k].column as int), c0, wd);
        }
        lemma_wc_children_build(m, g, 0);
    }
}

} // verus!
