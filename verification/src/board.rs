//! The board: locked cells, the active and ghost pieces, per-row fill
//! counters, movement legality, locking, line clearing, scoring, the bag
//! randomizer, and the per-tick state machine.

use vstd::prelude::*;
use vstd::pervasive::VecAdditionalExecFns;

use rand::seq::SliceRandom;

use crate::block::Shape;
use crate::block::Tetromino;
use crate::block::col_occ;
use crate::block::cols_contiguous;
use crate::block::is_spawn_for;
use crate::block::tetromino_for_shape;
use crate::block::lemma_col_extremes;
use crate::block::lemma_height_span;
use crate::block::lemma_row_extremes;
use crate::block::lemma_width_span;
use crate::block::mask_nonempty;
use crate::block::mask_wf;
use crate::block::max_col;
use crate::block::max_row;
use crate::block::min_col;
use crate::block::min_row;
use crate::block::occ;
use crate::block::row_occ;
use crate::block::rows_contiguous;
use crate::BOARD_HEIGHT;
use crate::BOARD_WIDTH;
use crate::block::rot_right;
use crate::block::width_of;
use crate::block::height_of;
use crate::block::lemma_rot_right_preserves;
use crate::block::lemma_rot_right_then_left;

verus! {

/// Lifecycle of one board.
#[derive(PartialEq, Eq, Structural, Debug, Clone, Copy)]
pub enum GameState {
    Playing,
    Paused,
    Over,
}

/// The input vocabulary the board consumes.
#[derive(PartialEq, Eq, Structural, Debug, Clone, Copy)]
pub enum Key {
    Up,
    Down,
    Left,
    Right,
    Space,
}

/// Flat row-major index of board cell (r, c).
pub open spec fn bidx(r: int, c: int) -> int {
    r * 10 + c
}

/// A well-formed grid: 22 rows of 10 cells, each 0 or 1.
pub open spec fn grid_wf(g: Seq<u8>) -> bool {
    &&& g.len() == 220
    &&& forall|i: int| 0 <= i < 220 ==> g[i] == 0 || g[i] == 1
}

/// Board cell (r, c) holds a locked block.
pub open spec fn filled(g: Seq<u8>, r: int, c: int) -> bool {
    g[bidx(r, c)] == 1
}

/// Number of filled cells among the first n cells of row r.
pub open spec fn row_fill_count(g: Seq<u8>, r: int, n: int) -> int
    decreases n,
{
    if n <= 0 {
        0
    } else {
        row_fill_count(g, r, n - 1) + if filled(g, r, n - 1) {
            1int
        } else {
            0int
        }
    }
}

/// Number of filled cells in row r.
pub open spec fn row_sum(g: Seq<u8>, r: int) -> int {
    row_fill_count(g, r, 10)
}

/// Row r is completely filled.
pub open spec fn row_full(g: Seq<u8>, r: int) -> bool {
    row_sum(g, r) == 10
}

/// The piece covers board cell (r, c).
pub open spec fn piece_occupies(p: Tetromino, r: int, c: int) -> bool {
    &&& 0 <= r - p.y_offset < 4
    &&& 0 <= c - p.x_offset < 4
    &&& occ(p.blocks@, r - p.y_offset, c - p.x_offset)
}

/// Every cell the piece covers lies on the board.
pub open spec fn piece_in_bounds(p: Tetromino) -> bool {
    forall|r: int, c: int| #[trigger] piece_occupies(p, r, c) ==> 0 <= r < 22 && 0 <= c < 10
}

/// The piece covers a cell that already holds a locked block.
pub open spec fn collides(g: Seq<u8>, p: Tetromino) -> bool {
    exists|r: int, c: int| #[trigger] piece_occupies(p, r, c) && filled(g, r, c)
}

/// The piece may fall one row: it is not resting on the floor and the row
/// below each of its cells is free.
pub open spec fn can_drop(g: Seq<u8>, p: Tetromino) -> bool {
    &&& p.bottommost_spec() + 1 <= 21
    &&& !collides(g, p.dropped_spec())
}

/// The piece may move one column left.
pub open spec fn can_left(g: Seq<u8>, p: Tetromino) -> bool {
    &&& p.leftmost_spec() - 1 >= 0
    &&& !collides(g, p.left_spec())
}

/// The piece may move one column right.
pub open spec fn can_right(g: Seq<u8>, p: Tetromino) -> bool {
    &&& p.rightmost_spec() + 1 <= 9
    &&& !collides(g, p.right_spec())
}

/// The piece sticks out past the left, right or bottom edge of the board.
pub open spec fn piece_oob(p: Tetromino) -> bool {
    p.leftmost_spec() < 0 || p.rightmost_spec() >= 10 || p.bottommost_spec() >= 22
}

/// Whether a piece with mask m at column x, row y would stick out past the
/// left, right or bottom edge of the board.
pub open spec fn oob_mask_at(m: Seq<u8>, x: int, y: int) -> bool {
    min_col(m) + x < 0 || min_col(m) + x + width_of(m) - 1 >= 10 || min_row(m) + y + height_of(m)
        - 1 >= 22
}

/// The piece rests: it cannot fall, and could fall from every row above its
/// own down to this one (so it is the drop target from the top).
pub open spec fn rests(g: Seq<u8>, p: Tetromino) -> bool {
    &&& !can_drop(g, p)
    &&& forall|k: int| 0 <= k < p.y_offset ==> can_drop(g, p.at_row_spec(k))
}

/// An occupied mask cell of a well-formed piece gives a covered board cell
/// between the piece's extents.
pub proof fn lemma_occupied_cell_extents(p: Tetromino, mr: int, mc: int)
    requires
        p.wf(),
        0 <= mr < 4,
        0 <= mc < 4,
        occ(p.blocks@, mr, mc),
    ensures
        piece_occupies(p, p.y_offset + mr, p.x_offset + mc),
        p.topmost_spec() <= p.y_offset + mr <= p.bottommost_spec(),
        p.leftmost_spec() <= p.x_offset + mc <= p.rightmost_spec(),
{
    let m = p.blocks@;
    lemma_row_extremes(m);
    lemma_col_extremes(m);
    lemma_height_span(m);
    lemma_width_span(m);
    assert(row_occ(m, mr));
    assert(col_occ(m, mc));
}

/// For a well-formed piece, staying inside the board is the same as keeping
/// all four extents inside it.
pub proof fn lemma_extents_in_bounds(p: Tetromino)
    requires
        p.wf(),
        p.y_offset >= 0,
    ensures
        piece_in_bounds(p) <==> (p.leftmost_spec() >= 0 && p.rightmost_spec() <= 9
            && p.bottommost_spec() <= 21),
        piece_in_bounds(p) ==> -3 <= p.x_offset <= 9 && 0 <= p.y_offset <= 21
            && p.topmost_spec() >= 0,
{
    let m = p.blocks@;
    lemma_row_extremes(m);
    lemma_col_extremes(m);
    lemma_height_span(m);
    lemma_width_span(m);
    let minr = min_row(m);
    let maxr = max_row(m);
    let minc = min_col(m);
    let maxc = max_col(m);
    if p.leftmost_spec() >= 0 && p.rightmost_spec() <= 9 && p.bottommost_spec() <= 21 {
        assert forall|r: int, c: int| #[trigger] piece_occupies(p, r, c) implies 0 <= r < 22 && 0
            <= c < 10 by {
            assert(row_occ(m, r - p.y_offset));
            assert(col_occ(m, c - p.x_offset));
        }
    }
    if piece_in_bounds(p) {
        if occ(m, maxr, 0) {
            assert(piece_occupies(p, p.y_offset + maxr, p.x_offset + 0));
        } else if occ(m, maxr, 1) {
            assert(piece_occupies(p, p.y_offset + maxr, p.x_offset + 1));
        } else if occ(m, maxr, 2) {
            assert(piece_occupies(p, p.y_offset + maxr, p.x_offset + 2));
        } else {
            assert(piece_occupies(p, p.y_offset + maxr, p.x_offset + 3));
        }
        if occ(m, 0, minc) {
            assert(piece_occupies(p, p.y_offset + 0, p.x_offset + minc));
        } else if occ(m, 1, minc) {
            assert(piece_occupies(p, p.y_offset + 1, p.x_offset + minc));
        } else if occ(m, 2, minc) {
            assert(piece_occupies(p, p.y_offset + 2, p.x_offset + minc));
        } else {
            assert(piece_occupies(p, p.y_offset + 3, p.x_offset + minc));
        }
        if occ(m, 0, maxc) {
            assert(piece_occupies(p, p.y_offset + 0, p.x_offset + maxc));
        } else if occ(m, 1, maxc) {
            assert(piece_occupies(p, p.y_offset + 1, p.x_offset + maxc));
        } else if occ(m, 2, maxc) {
            assert(piece_occupies(p, p.y_offset + 2, p.x_offset + maxc));
        } else {
            assert(piece_occupies(p, p.y_offset + 3, p.x_offset + maxc));
        }
    }
}

/// Pieces with the same mask view and offsets cover the same board cells.
pub proof fn lemma_same_piece_bounds(a: Tetromino, b: Tetromino)
    requires
        a.blocks@ == b.blocks@,
        a.x_offset == b.x_offset,
        a.y_offset == b.y_offset,
        piece_in_bounds(a),
    ensures
        piece_in_bounds(b),
{
    assert forall|r: int, c: int| #[trigger] piece_occupies(b, r, c) implies 0 <= r < 22 && 0 <= c
        < 10 by {
        assert(piece_occupies(a, r, c));
    }
}

/// Flat board indices decompose uniquely into (row, column).
pub proof fn lemma_bidx_decompose(r: int, c: int)
    requires
        0 <= r < 22,
        0 <= c < 10,
    ensures
        0 <= bidx(r, c) < 220,
        bidx(r, c) / 10 == r,
        bidx(r, c) % 10 == c,
{
    assert((r * 10 + c) / 10 == r && (r * 10 + c) % 10 == c) by (nonlinear_arith)
        requires
            0 <= r < 22,
            0 <= c < 10,
    ;
}

/// Two grids that agree on every (row, column) cell are equal.
pub proof fn lemma_grid_ext(a: Seq<u8>, b: Seq<u8>)
    requires
        a.len() == 220,
        b.len() == 220,
        forall|r: int, c: int|
            0 <= r < 22 && 0 <= c < 10 ==> a[#[trigger] bidx(r, c)] == b[bidx(r, c)],
    ensures
        a == b,
{
    assert forall|i: int| 0 <= i < 220 implies a[i] == b[i] by {
        let r = i / 10;
        let c = i % 10;
        assert(0 <= r < 22 && 0 <= c < 10 && bidx(r, c) == i) by (nonlinear_arith)
            requires
                0 <= i < 220,
                r == i / 10,
                c == i % 10,
        ;
        assert(a[bidx(r, c)] == b[bidx(r, c)]);
    }
    assert(a =~= b);
}

/// A row's fill count stays within the number of cells scanned.
pub proof fn lemma_row_fill_count_bounds(g: Seq<u8>, r: int, n: int)
    requires
        0 <= n <= 10,
    ensures
        0 <= row_fill_count(g, r, n) <= n,
    decreases n,
{
    if n > 0 {
        lemma_row_fill_count_bounds(g, r, n - 1);
    }
}

/// Two grids that agree cell-for-cell on a pair of rows have the same fill
/// counts there.
pub proof fn lemma_row_fill_count_congruent(g1: Seq<u8>, g2: Seq<u8>, r1: int, r2: int, n: int)
    requires
        0 <= n <= 10,
        forall|c: int| 0 <= c < n ==> g1[#[trigger] bidx(r1, c)] == g2[bidx(r2, c)],
    ensures
        row_fill_count(g1, r1, n) == row_fill_count(g2, r2, n),
    decreases n,
{
    if n > 0 {
        lemma_row_fill_count_congruent(g1, g2, r1, r2, n - 1);
    }
}

/// A row whose scanned cells are all unfilled counts zero.
pub proof fn lemma_row_fill_count_zero(g: Seq<u8>, r: int, n: int)
    requires
        0 <= n <= 10,
        forall|c: int| 0 <= c < n ==> !filled(g, r, c),
    ensures
        row_fill_count(g, r, n) == 0,
    decreases n,
{
    if n > 0 {
        lemma_row_fill_count_zero(g, r, n - 1);
    }
}

/// How writing one cell changes each row's fill count.
pub proof fn lemma_row_fill_count_update(g: Seq<u8>, r: int, c: int, v: u8, rr: int, n: int)
    requires
        g.len() == 220,
        0 <= r < 22,
        0 <= c < 10,
        0 <= rr < 22,
        0 <= n <= 10,
    ensures
        row_fill_count(g.update(bidx(r, c), v), rr, n) == if rr == r && c < n {
            row_fill_count(g, rr, n) - (if filled(g, r, c) {
                1int
            } else {
                0int
            }) + (if v == 1 {
                1int
            } else {
                0int
            })
        } else {
            row_fill_count(g, rr, n)
        },
    decreases n,
{
    lemma_bidx_decompose(r, c);
    if n > 0 {
        lemma_row_fill_count_update(g, r, c, v, rr, n - 1);
        lemma_bidx_decompose(rr, n - 1);
    }
}

/// The grid after removing one row: rows above it shift down one, the top
/// row becomes empty, rows below it keep their contents.
pub open spec fn clear_one(g: Seq<u8>, row: int) -> Seq<u8> {
    Seq::new(
        220,
        |i: int|
            if i / 10 == 0 {
                0u8
            } else if i / 10 <= row {
                g[i - 10]
            } else {
                g[i]
            },
    )
}

/// Cell-level reading of `clear_one`.
pub proof fn lemma_clear_one_cell(g: Seq<u8>, row: int, r: int, c: int)
    requires
        g.len() == 220,
        0 <= r < 22,
        0 <= c < 10,
    ensures
        clear_one(g, row)[bidx(r, c)] == if r == 0 {
            0u8
        } else if r <= row {
            g[bidx(r - 1, c)]
        } else {
            g[bidx(r, c)]
        },
{
    lemma_bidx_decompose(r, c);
    if 1 <= r {
        assert(bidx(r, c) - 10 == bidx(r - 1, c));
    }
}

/// The grid after sweeping rows lo..=hi in order, removing each row found
/// full at the time it is reached.
pub open spec fn clear_full_in(g: Seq<u8>, lo: int, hi: int) -> Seq<u8>
    decreases hi + 1 - lo,
{
    if lo > hi {
        g
    } else if row_full(g, lo) {
        clear_full_in(clear_one(g, lo), lo + 1, hi)
    } else {
        clear_full_in(g, lo + 1, hi)
    }
}

/// How many rows the same sweep removes.
pub open spec fn count_full_in(g: Seq<u8>, lo: int, hi: int) -> int
    decreases hi + 1 - lo,
{
    if lo > hi {
        0
    } else if row_full(g, lo) {
        1 + count_full_in(clear_one(g, lo), lo + 1, hi)
    } else {
        count_full_in(g, lo + 1, hi)
    }
}

/// Points for clearing n rows with one landing.
pub open spec fn line_score(n: int) -> int {
    if n <= 0 {
        0
    } else if n == 1 {
        80
    } else if n == 2 {
        200
    } else if n == 3 {
        600
    } else {
        2400
    }
}

/// Points for clearing `n` rows with one landing, n in 1..=4.
pub fn score_for_lines(n: usize) -> (pts: u64)
    requires
        1 <= n <= 4,
    ensures
        pts == line_score(n as int),
{
    if n == 1 {
        80
    } else if n == 2 {
        200
    } else if n == 3 {
        600
    } else {
        2400
    }
}

/// One of every shape, in catalog order: what a fresh bag holds before the
/// shuffle.
pub open spec fn all_shapes() -> Seq<Shape> {
    seq![Shape::I, Shape::J, Shape::L, Shape::O, Shape::S, Shape::Z, Shape::T]
}

/// A fresh bag holds exactly one of each shape.
pub proof fn lemma_all_shapes_count(x: Shape)
    ensures
        all_shapes().to_multiset().count(x) == 1,
{
    broadcast use vstd::seq_lib::group_to_multiset_ensures;
    broadcast use vstd::multiset::group_multiset_axioms;
    broadcast use vstd::multiset::group_multiset_properties;

    let s0 = Seq::<Shape>::empty();
    let s1 = s0.push(Shape::I);
    let s2 = s1.push(Shape::J);
    let s3 = s2.push(Shape::L);
    let s4 = s3.push(Shape::O);
    let s5 = s4.push(Shape::S);
    let s6 = s5.push(Shape::Z);
    let s7 = s6.push(Shape::T);
    assert(all_shapes() =~= s7);
    assert(!s0.contains(x));
    assert(s0.to_multiset().count(x) == 0);
    assert(s1.to_multiset() =~= s0.to_multiset().insert(Shape::I));
    assert(s2.to_multiset() =~= s1.to_multiset().insert(Shape::J));
    assert(s3.to_multiset() =~= s2.to_multiset().insert(Shape::L));
    assert(s4.to_multiset() =~= s3.to_multiset().insert(Shape::O));
    assert(s5.to_multiset() =~= s4.to_multiset().insert(Shape::S));
    assert(s6.to_multiset() =~= s5.to_multiset().insert(Shape::Z));
    assert(s7.to_multiset() =~= s6.to_multiset().insert(Shape::T));
}

/// A sequence whose multiset holds each value at most once has no repeated
/// entries.
pub proof fn lemma_bag_distinct(s: Seq<Shape>)
    requires
        forall|x: Shape| s.to_multiset().count(x) <= 1,
    ensures
        forall|i: int, j: int| 0 <= i < j < s.len() ==> s[i] != s[j],
{
    broadcast use vstd::seq_lib::group_to_multiset_ensures;
    broadcast use vstd::multiset::group_multiset_axioms;
    broadcast use vstd::multiset::group_multiset_properties;

    assert forall|i: int, j: int| 0 <= i < j < s.len() implies s[i] != s[j] by {
        if s[i] == s[j] {
            let x = s[i];
            let s2 = s.remove(i);
            assert(s2.to_multiset() == s.to_multiset().remove(x));
            assert(s2[j - 1] == x);
            assert(s2.contains(x));
            assert(s2.to_multiset().count(x) > 0);
            assert(false);
        }
    }
}

/// A bag with one of every shape, in catalog order, before the shuffle.
fn fresh_bag() -> (v: Vec<Shape>)
    ensures
        v@ == all_shapes(),
{
    let mut v: Vec<Shape> = Vec::new();
    v.push(Shape::I);
    v.push(Shape::J);
    v.push(Shape::L);
    v.push(Shape::O);
    v.push(Shape::S);
    v.push(Shape::Z);
    v.push(Shape::T);
    proof {
        assert(v@ =~= all_shapes());
    }
    v
}

/// Relies on rand's `SliceRandom::shuffle`: one pass of in-place swaps
/// (Fisher-Yates), so the result is a permutation of the input, in an order
/// the thread-local generator picks; the entries' multiset and the length
/// are unchanged.
#[verifier::external_body]
fn shuffle_shapes(v: &mut Vec<Shape>)
    ensures
        final(v)@.len() == old(v)@.len(),
        final(v)@.to_multiset() == old(v)@.to_multiset(),
{
    v.shuffle(&mut rand::thread_rng());
}

/// Whether any cell of the top row holds a locked block: the loss check.
pub open spec fn top_row_occupied(g: Seq<u8>) -> bool {
    exists|c: int| 0 <= c < 10 && filled(g, 0, c)
}

/// The grid with the piece's covered cells marked filled.
pub open spec fn merged_grid(g: Seq<u8>, p: Tetromino) -> Seq<u8> {
    Seq::new(
        220,
        |i: int|
            if piece_occupies(p, i / 10, i % 10) {
                1u8
            } else {
                g[i]
            },
    )
}

/// Cell-level reading of `merged_grid`.
pub proof fn lemma_merged_cell(g: Seq<u8>, p: Tetromino, r: int, c: int)
    requires
        g.len() == 220,
        0 <= r < 22,
        0 <= c < 10,
    ensures
        merged_grid(g, p)[bidx(r, c)] == if piece_occupies(p, r, c) {
            1u8
        } else {
            g[bidx(r, c)]
        },
{
    lemma_bidx_decompose(r, c);
}

/// What one key press does to a board: the grid, counters, score, state,
/// token, spawn flag and bag never change; the falling piece moves as the
/// key directs where legal, and the ghost is rebuilt after a rotation or a
/// sideways move.
pub open spec fn key_press_post(pre: Board, post: Board, key: Key) -> bool {
    &&& post.cells == pre.cells
    &&& post.line_counts == pre.line_counts
    &&& post.state == pre.state
    &&& post.score == pre.score
    &&& post.token == pre.token
    &&& post.new_block == pre.new_block
    &&& post.tetrominos_bag == pre.tetrominos_bag
    &&& post.current_piece.name == pre.current_piece.name
    &&& (key == Key::Up ==> ({
        let m1 = if pre.current_piece.name == Shape::O {
            pre.current_piece.blocks@
        } else {
            rot_right(pre.current_piece.blocks@)
        };
        &&& post.current_piece.x_offset == pre.current_piece.x_offset
        &&& post.current_piece.y_offset == pre.current_piece.y_offset
        &&& post.current_piece.blocks@ == if oob_mask_at(
            m1,
            pre.current_piece.x_offset as int,
            pre.current_piece.y_offset as int,
        ) {
            pre.current_piece.blocks@
        } else {
            m1
        }
        &&& post.ghost_piece.name == post.current_piece.name
        &&& post.ghost_piece.blocks@ == post.current_piece.blocks@
        &&& post.ghost_piece.x_offset == post.current_piece.x_offset
        &&& rests(post.cells@, post.ghost_piece)
    }))
    &&& (key == Key::Left ==> if can_left(pre.cells@, pre.current_piece) {
        &&& post.current_piece == pre.current_piece.left_spec()
        &&& post.ghost_piece.name == post.current_piece.name
        &&& post.ghost_piece.blocks@ == post.current_piece.blocks@
        &&& post.ghost_piece.x_offset == post.current_piece.x_offset
        &&& rests(post.cells@, post.ghost_piece)
    } else {
        &&& post.current_piece == pre.current_piece
        &&& post.ghost_piece == pre.ghost_piece
    })
    &&& (key == Key::Right ==> if can_right(pre.cells@, pre.current_piece) {
        &&& post.current_piece == pre.current_piece.right_spec()
        &&& post.ghost_piece.name == post.current_piece.name
        &&& post.ghost_piece.blocks@ == post.current_piece.blocks@
        &&& post.ghost_piece.x_offset == post.current_piece.x_offset
        &&& rests(post.cells@, post.ghost_piece)
    } else {
        &&& post.current_piece == pre.current_piece
        &&& post.ghost_piece == pre.ghost_piece
    })
    &&& (key == Key::Down ==> post.ghost_piece == pre.ghost_piece && post.current_piece == (
    if can_drop(pre.cells@, pre.current_piece) {
        pre.current_piece.dropped_spec()
    } else {
        pre.current_piece
    }))
    &&& (key == Key::Space ==> {
        &&& post.ghost_piece == pre.ghost_piece
        &&& post.current_piece.blocks == pre.current_piece.blocks
        &&& post.current_piece.x_offset == pre.current_piece.x_offset
        &&& post.current_piece.y_offset >= pre.current_piece.y_offset
        &&& !can_drop(pre.cells@, post.current_piece)
        &&& forall|k: int|
            pre.current_piece.y_offset <= k < post.current_piece.y_offset ==> can_drop(
                pre.cells@,
                pre.current_piece.at_row_spec(k),
            )
    })
}

/// What adopting a remotely announced piece does to a board: the named
/// shape's spawn piece becomes the falling piece, the ghost is rebuilt, and
/// everything else stays.
pub open spec fn new_piece_post(pre: Board, post: Board, s: Shape) -> bool {
    &&& post.cells == pre.cells
    &&& post.line_counts == pre.line_counts
    &&& post.state == pre.state
    &&& post.score == pre.score
    &&& post.token == pre.token
    &&& post.new_block == pre.new_block
    &&& post.tetrominos_bag == pre.tetrominos_bag
    &&& post.current_piece.name == s
    &&& is_spawn_for(post.current_piece)
    &&& post.ghost_piece.name == post.current_piece.name
    &&& post.ghost_piece.blocks@ == post.current_piece.blocks@
    &&& post.ghost_piece.x_offset == post.current_piece.x_offset
    &&& rests(post.cells@, post.ghost_piece)
}

/// A board.
pub struct Board {
    /// Locked cells, row-major, 22 rows of 10 columns.
    pub cells: Vec<u8>,
    /// The falling piece under player control.
    pub current_piece: Tetromino,
    /// Preview of where the falling piece would land.
    pub ghost_piece: Tetromino,
    /// Lifecycle state.
    pub state: GameState,
    /// Points awarded for cleared lines.
    pub score: u64,
    /// Identifier the relay assigned to this board's player.
    pub token: i32,
    /// True for the one tick after a new piece spawned.
    pub new_block: bool,
    /// Number of filled cells in each row, kept in step with `cells`.
    pub line_counts: Vec<i64>,
    /// Shapes still to be dealt before the next reshuffle.
    pub tetrominos_bag: Vec<Shape>,
}

impl Board {
    /// A piece that may take part in play on this board.
    pub open spec fn piece_ok(p: Tetromino) -> bool {
        &&& p.wf()
        &&& piece_in_bounds(p)
        &&& p.y_offset >= 0
    }

    /// Board invariant: the grid is well formed, every row counter equals its
    /// row's filled-cell count, both pieces are valid, and the bag holds at
    /// most one of each shape.
    pub open spec fn wf(self) -> bool {
        &&& grid_wf(self.cells@)
        &&& self.line_counts@.len() == 22
        &&& forall|r: int| 0 <= r < 22 ==> self.line_counts@[r] == row_sum(self.cells@, r)
        &&& Self::piece_ok(self.current_piece)
        &&& Self::piece_ok(self.ghost_piece)
        &&& self.tetrominos_bag@.len() <= 7
        &&& forall|i: int, j: int|
            0 <= i < j < self.tetrominos_bag@.len() ==> self.tetrominos_bag@[i]
                != self.tetrominos_bag@[j]
    }

    /// Whether the given piece can fall one row on this board.
    #[verifier::loop_isolation(false)]
    pub fn can_move_piece_down(&self, piece: &Tetromino) -> (b: bool)
        requires
            grid_wf(self.cells@),
            piece.wf(),
            piece_in_bounds(*piece),
            piece.y_offset >= 0,
        ensures
            b == can_drop(self.cells@, *piece),
    {
        proof {
            lemma_extents_in_bounds(*piece);
        }
        if piece.bottommost() + 1 >= BOARD_HEIGHT {
            return false;
        }
        let cx = piece.x_offset;
        let cy = piece.y_offset;
        let ghost m = piece.blocks@;
        let mut r: usize = 0;
        while r < 4
            invariant
                r <= 4,
                forall|mr: int, mc: int|
                    0 <= mr < r && 0 <= mc < 4 && occ(m, mr, mc) ==> !filled(
                        self.cells@,
                        cy + mr + 1,
                        cx + mc,
                    ),
            decreases 4 - r,
        {
            let mut c: usize = 0;
            while c < 4
                invariant
                    r < 4,
                    c <= 4,
                    forall|mr: int, mc: int|
                        0 <= mr < r && 0 <= mc < 4 && occ(m, mr, mc) ==> !filled(
                            self.cells@,
                            cy + mr + 1,
                            cx + mc,
                        ),
                    forall|mc: int|
                        0 <= mc < c && occ(m, r as int, mc) ==> !filled(
                            self.cells@,
                            cy + r + 1,
                            cx + mc,
                        ),
                decreases 4 - c,
            {
                if piece.blocks[r * 4 + c] == 1 {
                    proof {
                        lemma_occupied_cell_extents(*piece, r as int, c as int);
                    }
                    let by: i64 = cy + (r as i64) + 1;
                    let bx: i64 = cx + (c as i64);
                    if self.cells[(by * 10 + bx) as usize] == 1 {
                        proof {
                            assert(piece_occupies(piece.dropped_spec(), by as int, bx as int));
                        }
                        return false;
                    }
                }
                c += 1;
            }
            r += 1;
        }
        proof {
            if collides(self.cells@, piece.dropped_spec()) {
                let (rr, cc) = choose|rr: int, cc: int|
                    #[trigger] piece_occupies(piece.dropped_spec(), rr, cc) && filled(
                        self.cells@,
                        rr,
                        cc,
                    );
                assert(occ(m, rr - (cy + 1), cc - cx));
            }
        }
        true
    }

    /// Whether the falling piece can move one column left.
    #[verifier::loop_isolation(false)]
    pub fn can_move_current_piece_left(&self) -> (b: bool)
        requires
            grid_wf(self.cells@),
            self.current_piece.wf(),
            piece_in_bounds(self.current_piece),
            self.current_piece.y_offset >= 0,
        ensures
            b == can_left(self.cells@, self.current_piece),
    {
        let piece = &self.current_piece;
        proof {
            lemma_extents_in_bounds(*piece);
        }
        if piece.leftmost() - 1 < 0 {
            return false;
        }
        let cx = piece.x_offset;
        let cy = piece.y_offset;
        let ghost m = piece.blocks@;
        let mut r: usize = 0;
        while r < 4
            invariant
                r <= 4,
                forall|mr: int, mc: int|
                    0 <= mr < r && 0 <= mc < 4 && occ(m, mr, mc) ==> !filled(
                        self.cells@,
                        cy + mr,
                        cx + mc - 1,
                    ),
            decreases 4 - r,
        {
            let mut c: usize = 0;
            while c < 4
                invariant
                    r < 4,
                    c <= 4,
                    forall|mr: int, mc: int|
                        0 <= mr < r && 0 <= mc < 4 && occ(m, mr, mc) ==> !filled(
                            self.cells@,
                            cy + mr,
                            cx + mc - 1,
                        ),
                    forall|mc: int|
                        0 <= mc < c && occ(m, r as int, mc) ==> !filled(
                            self.cells@,
                            cy + r,
                            cx + mc - 1,
                        ),
                decreases 4 - c,
            {
                if piece.blocks[r * 4 + c] == 1 {
                    proof {
                        lemma_occupied_cell_extents(*piece, r as int, c as int);
                    }
                    let by: i64 = cy + (r as i64);
                    let bx: i64 = cx + (c as i64) - 1;
                    if self.cells[(by * 10 + bx) as usize] == 1 {
                        proof {
                            assert(piece_occupies(piece.left_spec(), by as int, bx as int));
                        }
                        return false;
                    }
                }
                c += 1;
            }
            r += 1;
        }
        proof {
            if collides(self.cells@, piece.left_spec()) {
                let (rr, cc) = choose|rr: int, cc: int|
                    #[trigger] piece_occupies(piece.left_spec(), rr, cc) && filled(
                        self.cells@,
                        rr,
                        cc,
                    );
                assert(occ(m, rr - cy, cc - (cx - 1)));
            }
        }
        true
    }

    /// Whether the falling piece can move one column right.
    #[verifier::loop_isolation(false)]
    pub fn can_move_current_piece_right(&self) -> (b: bool)
        requires
            grid_wf(self.cells@),
            self.current_piece.wf(),
            piece_in_bounds(self.current_piece),
            self.current_piece.y_offset >= 0,
        ensures
            b == can_right(self.cells@, self.current_piece),
    {
        let piece = &self.current_piece;
        proof {
            lemma_extents_in_bounds(*piece);
        }
        if piece.rightmost() + 1 >= BOARD_WIDTH {
            return false;
        }
        let cx = piece.x_offset;
        let cy = piece.y_offset;
        let ghost m = piece.blocks@;
        let mut r: usize = 0;
        while r < 4
            invariant
                r <= 4,
                forall|mr: int, mc: int|
                    0 <= mr < r && 0 <= mc < 4 && occ(m, mr, mc) ==> !filled(
                        self.cells@,
                        cy + mr,
                        cx + mc + 1,
                    ),
            decreases 4 - r,
        {
            let mut c: usize = 0;
            while c < 4
                invariant
                    r < 4,
                    c <= 4,
                    forall|mr: int, mc: int|
                        0 <= mr < r && 0 <= mc < 4 && occ(m, mr, mc) ==> !filled(
                            self.cells@,
                            cy + mr,
                            cx + mc + 1,
                        ),
                    forall|mc: int|
                        0 <= mc < c && occ(m, r as int, mc) ==> !filled(
                            self.cells@,
                            cy + r,
                            cx + mc + 1,
                        ),
                decreases 4 - c,
            {
                if piece.blocks[r * 4 + c] == 1 {
                    proof {
                        lemma_occupied_cell_extents(*piece, r as int, c as int);
                    }
                    let by: i64 = cy + (r as i64);
                    let bx: i64 = cx + (c as i64) + 1;
                    if self.cells[(by * 10 + bx) as usize] == 1 {
                        proof {
                            assert(piece_occupies(piece.right_spec(), by as int, bx as int));
                        }
                        return false;
                    }
                }
                c += 1;
            }
            r += 1;
        }
        proof {
            if collides(self.cells@, piece.right_spec()) {
                let (rr, cc) = choose|rr: int, cc: int|
                    #[trigger] piece_occupies(piece.right_spec(), rr, cc) && filled(
                        self.cells@,
                        rr,
                        cc,
                    );
                assert(occ(m, rr - cy, cc - (cx + 1)));
            }
        }
        true
    }

    /// Whether the falling piece sticks out past the board's left, right or
    /// bottom edge; used to validate a rotation.
    pub fn current_piece_out_of_bounds(&self) -> (b: bool)
        requires
            self.current_piece.wf(),
            -3 <= self.current_piece.x_offset <= 9,
            0 <= self.current_piece.y_offset <= 21,
        ensures
            b == piece_oob(self.current_piece),
    {
        self.current_piece.leftmost() < 0 || self.current_piece.rightmost() >= BOARD_WIDTH
            || self.current_piece.bottommost() >= BOARD_HEIGHT
    }

    /// Merge the falling piece into the locked cells, keeping each row's fill
    /// counter in step.
    #[verifier::loop_isolation(false)]
    pub fn set_piece_on_board(&mut self)
        requires
            old(self).wf(),
        ensures
            final(self).wf(),
            forall|r: int, c: int|
                0 <= r < 22 && 0 <= c < 10 ==> filled(final(self).cells@, r, c) == (filled(
                    old(self).cells@,
                    r,
                    c,
                ) || piece_occupies(old(self).current_piece, r, c)),
            final(self).current_piece == old(self).current_piece,
            final(self).ghost_piece == old(self).ghost_piece,
            final(self).state == old(self).state,
            final(self).score == old(self).score,
            final(self).token == old(self).token,
            final(self).new_block == old(self).new_block,
            final(self).tetrominos_bag == old(self).tetrominos_bag,
    {
        let ghost p = self.current_piece;
        let ghost g0 = old(self).cells@;
        proof {
            lemma_extents_in_bounds(p);
        }
        let cx = self.current_piece.x_offset;
        let cy = self.current_piece.y_offset;
        let mut r: usize = 0;
        while r < 4
            invariant
                r <= 4,
                grid_wf(self.cells@),
                self.line_counts@.len() == 22,
                forall|rr: int| 0 <= rr < 22 ==> self.line_counts@[rr] == row_sum(self.cells@, rr),
                self.current_piece == old(self).current_piece,
                self.ghost_piece == old(self).ghost_piece,
                self.state == old(self).state,
                self.score == old(self).score,
                self.token == old(self).token,
                self.new_block == old(self).new_block,
                self.tetrominos_bag == old(self).tetrominos_bag,
                forall|rb: int, cb: int|
                    0 <= rb < 22 && 0 <= cb < 10 ==> filled(self.cells@, rb, cb) == (filled(
                        g0,
                        rb,
                        cb,
                    ) || (piece_occupies(p, rb, cb) && rb - p.y_offset < r)),
            decreases 4 - r,
        {
            let mut c: usize = 0;
            while c < 4
                invariant
                    r < 4,
                    c <= 4,
                    grid_wf(self.cells@),
                    self.line_counts@.len() == 22,
                    forall|rr: int|
                        0 <= rr < 22 ==> self.line_counts@[rr] == row_sum(self.cells@, rr),
                    self.current_piece == old(self).current_piece,
                    self.ghost_piece == old(self).ghost_piece,
                    self.state == old(self).state,
                    self.score == old(self).score,
                    self.token == old(self).token,
                    self.new_block == old(self).new_block,
                    self.tetrominos_bag == old(self).tetrominos_bag,
                    forall|rb: int, cb: int|
                        0 <= rb < 22 && 0 <= cb < 10 ==> filled(self.cells@, rb, cb) == (filled(
                            g0,
                            rb,
                            cb,
                        ) || (piece_occupies(p, rb, cb) && (rb - p.y_offset < r || (rb - p.y_offset
                            == r && cb - p.x_offset < c)))),
                decreases 4 - c,
            {
                if self.current_piece.blocks[r * 4 + c] == 1 {
                    proof {
                        lemma_occupied_cell_extents(p, r as int, c as int);
                    }
                    let by: i64 = cy + (r as i64);
                    let bx: i64 = cx + (c as i64);
                    let idx: usize = (by * 10 + bx) as usize;
                    proof {
                        lemma_bidx_decompose(by as int, bx as int);
                        assert(piece_occupies(p, by as int, bx as int));
                    }
                    if self.cells[idx] == 0 {
                        proof {
                            assert forall|rr: int| 0 <= rr < 22 implies row_fill_count(
                                self.cells@.update(bidx(by as int, bx as int), 1u8),
                                rr,
                                10,
                            ) == row_fill_count(self.cells@, rr, 10) + (if rr == by as int {
                                1int
                            } else {
                                0int
                            }) by {
                                lemma_row_fill_count_update(
                                    self.cells@,
                                    by as int,
                                    bx as int,
                                    1u8,
                                    rr,
                                    10,
                                );
                            }
                            lemma_row_fill_count_bounds(self.cells@, by as int, 10);
                        }
                        self.cells.set(idx, 1);
                        let lc = self.line_counts[by as usize];
                        self.line_counts.set(by as usize, lc + 1);
                    }
                }
                c += 1;
            }
            r += 1;
        }
    }

    /// Remove one row: shift every row above it down by one and empty the top
    /// row, keeping the fill counters in step.
    #[verifier::loop_isolation(false)]
    fn clear_row(&mut self, row: usize)
        requires
            old(self).wf(),
            row < 22,
        ensures
            final(self).wf(),
            final(self).cells@ == clear_one(old(self).cells@, row as int),
            final(self).current_piece == old(self).current_piece,
            final(self).ghost_piece == old(self).ghost_piece,
            final(self).state == old(self).state,
            final(self).score == old(self).score,
            final(self).token == old(self).token,
            final(self).new_block == old(self).new_block,
            final(self).tetrominos_bag == old(self).tetrominos_bag,
    {
        let ghost g0 = old(self).cells@;
        let ghost k0 = old(self).line_counts@;
        let mut r: usize = row;
        while r >= 1
            invariant
                r <= row,
                grid_wf(self.cells@),
                self.line_counts@.len() == 22,
                self.current_piece == old(self).current_piece,
                self.ghost_piece == old(self).ghost_piece,
                self.state == old(self).state,
                self.score == old(self).score,
                self.token == old(self).token,
                self.new_block == old(self).new_block,
                self.tetrominos_bag == old(self).tetrominos_bag,
                forall|rr: int, cc: int|
                    0 <= rr <= r && 0 <= cc < 10 ==> self.cells@[#[trigger] bidx(rr, cc)]
                        == g0[bidx(rr, cc)],
                forall|rr: int, cc: int|
                    r < rr <= row && 0 <= cc < 10 ==> self.cells@[#[trigger] bidx(rr, cc)]
                        == g0[bidx(rr - 1, cc)],
                forall|rr: int, cc: int|
                    row < rr < 22 && 0 <= cc < 10 ==> self.cells@[#[trigger] bidx(rr, cc)]
                        == g0[bidx(rr, cc)],
                forall|rr: int| 0 <= rr <= r ==> self.line_counts@[rr] == k0[rr],
                forall|rr: int| r < rr <= row ==> self.line_counts@[rr] == k0[rr - 1],
                forall|rr: int| row < rr < 22 ==> self.line_counts@[rr] == k0[rr],
            decreases r,
        {
            let mut c: usize = 0;
            while c < 10
                invariant
                    1 <= r <= row,
                    c <= 10,
                    grid_wf(self.cells@),
                    self.line_counts@.len() == 22,
                        self.current_piece == old(self).current_piece,
                    self.ghost_piece == old(self).ghost_piece,
                    self.state == old(self).state,
                    self.score == old(self).score,
                    self.token == old(self).token,
                    self.new_block == old(self).new_block,
                    self.tetrominos_bag == old(self).tetrominos_bag,
                    forall|rr: int| 0 <= rr <= r ==> self.line_counts@[rr] == k0[rr],
                    forall|rr: int| r < rr <= row ==> self.line_counts@[rr] == k0[rr - 1],
                    forall|rr: int| row < rr < 22 ==> self.line_counts@[rr] == k0[rr],
                    forall|cc: int|
                        0 <= cc < c ==> self.cells@[#[trigger] bidx(r as int, cc)] == g0[bidx(
                            r as int - 1,
                            cc,
                        )],
                    forall|cc: int|
                        c <= cc < 10 ==> self.cells@[#[trigger] bidx(r as int, cc)] == g0[bidx(
                            r as int,
                            cc,
                        )],
                    forall|rr: int, cc: int|
                        0 <= rr < r && 0 <= cc < 10 ==> self.cells@[#[trigger] bidx(rr, cc)]
                            == g0[bidx(rr, cc)],
                    forall|rr: int, cc: int|
                        r < rr <= row && 0 <= cc < 10 ==> self.cells@[#[trigger] bidx(rr, cc)]
                            == g0[bidx(rr - 1, cc)],
                    forall|rr: int, cc: int|
                        row < rr < 22 && 0 <= cc < 10 ==> self.cells@[#[trigger] bidx(rr, cc)]
                            == g0[bidx(rr, cc)],
                decreases 10 - c,
            {
                proof {
                    lemma_bidx_decompose(r as int, c as int);
                    lemma_bidx_decompose(r as int - 1, c as int);
                }
                let v = self.cells[(r - 1) * 10 + c];
                self.cells.set(r * 10 + c, v);
                c += 1;
            }
            let lc = self.line_counts[r - 1];
            self.line_counts.set(r, lc);
            r -= 1;
        }
        let mut c: usize = 0;
        while c < 10
            invariant
                c <= 10,
                row < 22,
                grid_wf(self.cells@),
                self.line_counts@.len() == 22,
                self.current_piece == old(self).current_piece,
                self.ghost_piece == old(self).ghost_piece,
                self.state == old(self).state,
                self.score == old(self).score,
                self.token == old(self).token,
                self.new_block == old(self).new_block,
                self.tetrominos_bag == old(self).tetrominos_bag,
                forall|rr: int| 0 < rr <= row ==> self.line_counts@[rr] == k0[rr - 1],
                forall|rr: int| row < rr < 22 ==> self.line_counts@[rr] == k0[rr],
                self.line_counts@[0] == k0[0],
                forall|cc: int| 0 <= cc < c ==> self.cells@[#[trigger] bidx(0, cc)] == 0,
                forall|cc: int|
                    c <= cc < 10 ==> self.cells@[#[trigger] bidx(0, cc)] == g0[bidx(0, cc)],
                forall|rr: int, cc: int|
                    0 < rr <= row && 0 <= cc < 10 ==> self.cells@[#[trigger] bidx(rr, cc)]
                        == g0[bidx(rr - 1, cc)],
                forall|rr: int, cc: int|
                    row < rr < 22 && 0 <= cc < 10 ==> self.cells@[#[trigger] bidx(rr, cc)]
                        == g0[bidx(rr, cc)],
            decreases 10 - c,
        {
            proof {
                lemma_bidx_decompose(0, c as int);
            }
            self.cells.set(c, 0);
            c += 1;
        }
        self.line_counts.set(0, 0);
        proof {
            let gc = clear_one(g0, row as int);
            assert forall|rr: int, cc: int| 0 <= rr < 22 && 0 <= cc < 10 implies self.cells@[
                #[trigger] bidx(rr, cc)] == gc[bidx(rr, cc)] by {
                lemma_clear_one_cell(g0, row as int, rr, cc);
            }
            lemma_grid_ext(self.cells@, gc);
            assert forall|rr: int| 0 <= rr < 22 implies self.line_counts@[rr] == row_sum(
                self.cells@,
                rr,
            ) by {
                if rr == 0 {
                    assert forall|cc: int| 0 <= cc < 10 implies !filled(self.cells@, 0, cc) by {
                        lemma_clear_one_cell(g0, row as int, 0, cc);
                    }
                    lemma_row_fill_count_zero(self.cells@, 0, 10);
                    assert(self.line_counts@[0] == 0);
                    assert(row_sum(self.cells@, 0) == 0);
                    assert(self.line_counts@[rr] == row_sum(self.cells@, rr));
                } else if rr <= row {
                    assert(self.line_counts@[rr] == k0[rr - 1]);
                    assert(k0[rr - 1] == row_sum(g0, rr - 1));
                    assert forall|cc: int| 0 <= cc < 10 implies self.cells@[#[trigger] bidx(
                        rr,
                        cc,
                    )] == g0[bidx(rr - 1, cc)] by {
                        lemma_clear_one_cell(g0, row as int, rr, cc);
                    }
                    lemma_row_fill_count_congruent(self.cells@, g0, rr, rr - 1, 10);
                    assert(self.line_counts@[rr] == row_sum(self.cells@, rr));
                } else {
                    assert forall|cc: int| 0 <= cc < 10 implies self.cells@[#[trigger] bidx(
                        rr,
                        cc,
                    )] == g0[bidx(rr, cc)] by {
                        lemma_clear_one_cell(g0, row as int, rr, cc);
                    }
                    lemma_row_fill_count_congruent(self.cells@, g0, rr, rr, 10);
                    assert(self.line_counts@[rr] == k0[rr]);
                    assert(k0[rr] == row_sum(g0, rr));
                    assert(self.line_counts@[rr] == row_sum(self.cells@, rr));
                }
            }
        }
    }

    /// Sweep the rows the landed piece touches, clear each full one, and
    /// award the score for the number cleared.
    #[verifier::loop_isolation(false)]
    pub fn clear_line_if_needed(&mut self)
        requires
            old(self).wf(),
            old(self).score <= u64::MAX - 2400,
        ensures
            final(self).wf(),
            final(self).cells@ == clear_full_in(
                old(self).cells@,
                old(self).current_piece.topmost_spec(),
                old(self).current_piece.bottommost_spec(),
            ),
            final(self).score == old(self).score + line_score(
                count_full_in(
                    old(self).cells@,
                    old(self).current_piece.topmost_spec(),
                    old(self).current_piece.bottommost_spec(),
                ),
            ),
            0 <= count_full_in(
                old(self).cells@,
                old(self).current_piece.topmost_spec(),
                old(self).current_piece.bottommost_spec(),
            ) <= 4,
            final(self).current_piece == old(self).current_piece,
            final(self).ghost_piece == old(self).ghost_piece,
            final(self).state == old(self).state,
            final(self).token == old(self).token,
            final(self).new_block == old(self).new_block,
            final(self).tetrominos_bag == old(self).tetrominos_bag,
    {
        let ghost g0 = old(self).cells@;
        proof {
            lemma_extents_in_bounds(self.current_piece);
            lemma_height_span(self.current_piece.blocks@);
            lemma_row_extremes(self.current_piece.blocks@);
        }
        let lo: i64 = self.current_piece.topmost();
        let hi: i64 = self.current_piece.bottommost();
        let mut row: i64 = lo;
        let mut cleared: usize = 0;
        while row <= hi
            invariant
                lo <= row <= hi + 1,
                cleared <= row - lo,
                grid_wf(self.cells@),
                self.line_counts@.len() == 22,
                forall|rr: int| 0 <= rr < 22 ==> self.line_counts@[rr] == row_sum(self.cells@, rr),
                clear_full_in(g0, lo as int, hi as int) == clear_full_in(
                    self.cells@,
                    row as int,
                    hi as int,
                ),
                count_full_in(g0, lo as int, hi as int) == cleared + count_full_in(
                    self.cells@,
                    row as int,
                    hi as int,
                ),
                self.current_piece == old(self).current_piece,
                self.ghost_piece == old(self).ghost_piece,
                self.state == old(self).state,
                self.score == old(self).score,
                self.token == old(self).token,
                self.new_block == old(self).new_block,
                self.tetrominos_bag == old(self).tetrominos_bag,
            decreases hi + 1 - row,
        {
            if self.line_counts[row as usize] == 10 {
                self.clear_row(row as usize);
                cleared += 1;
            }
            row += 1;
        }
        if cleared > 0 {
            let pts = score_for_lines(cleared);
            self.score = self.score + pts;
        }
    }

    /// Deal the next piece: when the bag is empty, refill it with one of
    /// every shape and shuffle; then take the front shape's spawn piece.
    pub fn get_next_piece(&mut self) -> (t: Tetromino)
        requires
            old(self).wf(),
        ensures
            final(self).wf(),
            is_spawn_for(t),
            Self::piece_ok(t),
            old(self).tetrominos_bag@.len() > 0 ==> t.name == old(self).tetrominos_bag@[0]
                && final(self).tetrominos_bag@ == old(self).tetrominos_bag@.drop_first(),
            old(self).tetrominos_bag@.len() == 0 ==> final(self).tetrominos_bag@.len() == 6
                && final(self).tetrominos_bag@.insert(0, t.name).to_multiset()
                == all_shapes().to_multiset(),
            final(self).cells == old(self).cells,
            final(self).line_counts == old(self).line_counts,
            final(self).current_piece == old(self).current_piece,
            final(self).ghost_piece == old(self).ghost_piece,
            final(self).state == old(self).state,
            final(self).score == old(self).score,
            final(self).token == old(self).token,
            final(self).new_block == old(self).new_block,
    {
        if self.tetrominos_bag.len() == 0 {
            let mut bag = fresh_bag();
            shuffle_shapes(&mut bag);
            proof {
                assert forall|x: Shape| bag@.to_multiset().count(x) <= 1 by {
                    lemma_all_shapes_count(x);
                }
                lemma_bag_distinct(bag@);
            }
            self.tetrominos_bag = bag;
        }
        let ghost pre = self.tetrominos_bag@;
        let s = self.tetrominos_bag.remove(0);
        proof {
            assert(self.tetrominos_bag@ =~= pre.drop_first());
            assert(self.tetrominos_bag@.insert(0, s) =~= pre);
        }
        let t = tetromino_for_shape(s);
        proof {
            crate::block::lemma_spawn_piece_props(s);
            lemma_extents_in_bounds(t);
        }
        t
    }

    /// Rebuild the drop preview: the falling piece's shape and column,
    /// projected down to its resting row under the current grid.
    #[verifier::loop_isolation(false)]
    pub fn update_ghost_piece(&mut self)
        requires
            old(self).wf(),
        ensures
            final(self).wf(),
            final(self).ghost_piece.name == old(self).current_piece.name,
            final(self).ghost_piece.blocks@ == old(self).current_piece.blocks@,
            final(self).ghost_piece.x_offset == old(self).current_piece.x_offset,
            final(self).ghost_piece.y_offset >= 0,
            rests(final(self).cells@, final(self).ghost_piece),
            final(self).cells == old(self).cells,
            final(self).line_counts == old(self).line_counts,
            final(self).current_piece == old(self).current_piece,
            final(self).state == old(self).state,
            final(self).score == old(self).score,
            final(self).token == old(self).token,
            final(self).new_block == old(self).new_block,
            final(self).tetrominos_bag == old(self).tetrominos_bag,
    {
        let ghost cur = self.current_piece;
        let mut g = self.current_piece.duplicate();
        g.y_offset = 0;
        proof {
            lemma_extents_in_bounds(cur);
            lemma_extents_in_bounds(g);
            lemma_row_extremes(g.blocks@);
            lemma_height_span(g.blocks@);
        }
        while self.can_move_piece_down(&g)
            invariant
                g.name == cur.name,
                g.blocks@ == cur.blocks@,
                g.x_offset == cur.x_offset,
                g.wf(),
                piece_in_bounds(g),
                0 <= g.y_offset <= 21,
                forall|k: int| 0 <= k < g.y_offset ==> can_drop(self.cells@, g.at_row_spec(k)),
            decreases 22 - g.y_offset,
        {
            proof {
                lemma_extents_in_bounds(g);
                assert(can_drop(self.cells@, g.at_row_spec(g.y_offset as int)));
            }
            let ghost gpre = g;
            g.move_down();
            proof {
                lemma_extents_in_bounds(g);
                assert forall|k: int| 0 <= k < g.y_offset implies can_drop(
                    self.cells@,
                    g.at_row_spec(k),
                ) by {
                    assert(g.at_row_spec(k) == gpre.at_row_spec(k));
                }
            }
        }
        self.ghost_piece = g;
    }

    /// One tick of the state machine: do nothing unless playing; end the
    /// game when the top row holds a block; otherwise let the piece fall one
    /// row, or -- when it cannot fall -- lock it, clear its full rows, deal
    /// the next piece and rebuild the ghost.
    #[verifier::loop_isolation(false)]
    pub fn advance_board(&mut self)
        requires
            old(self).wf(),
            old(self).score <= u64::MAX - 2400,
        ensures
            final(self).wf(),
            old(self).state != GameState::Playing ==> *final(self) == *old(self),
            old(self).state == GameState::Playing && top_row_occupied(old(self).cells@) ==> {
                &&& final(self).state == GameState::Over
                &&& final(self).cells == old(self).cells
                &&& final(self).line_counts == old(self).line_counts
                &&& final(self).current_piece == old(self).current_piece
                &&& final(self).ghost_piece == old(self).ghost_piece
                &&& final(self).score == old(self).score
                &&& final(self).token == old(self).token
                &&& final(self).new_block == old(self).new_block
                &&& final(self).tetrominos_bag == old(self).tetrominos_bag
            },
            old(self).state == GameState::Playing && !top_row_occupied(old(self).cells@)
                && can_drop(old(self).cells@, old(self).current_piece) ==> {
                &&& final(self).current_piece.name == old(self).current_piece.name
                &&& final(self).current_piece.blocks@ == old(self).current_piece.blocks@
                &&& final(self).current_piece.x_offset == old(self).current_piece.x_offset
                &&& final(self).current_piece.y_offset == old(self).current_piece.y_offset + 1
                &&& final(self).new_block == false
                &&& final(self).cells == old(self).cells
                &&& final(self).line_counts == old(self).line_counts
                &&& final(self).ghost_piece == old(self).ghost_piece
                &&& final(self).state == old(self).state
                &&& final(self).score == old(self).score
                &&& final(self).token == old(self).token
                &&& final(self).tetrominos_bag == old(self).tetrominos_bag
            },
            old(self).state == GameState::Playing && !top_row_occupied(old(self).cells@)
                && !can_drop(old(self).cells@, old(self).current_piece) ==> ({
                let merged = merged_grid(old(self).cells@, old(self).current_piece);
                let lo = old(self).current_piece.topmost_spec();
                let hi = old(self).current_piece.bottommost_spec();
                &&& final(self).cells@ == clear_full_in(merged, lo, hi)
                &&& final(self).score == old(self).score + line_score(
                    count_full_in(merged, lo, hi),
                )
                &&& final(self).new_block == true
                &&& is_spawn_for(final(self).current_piece)
                &&& (old(self).tetrominos_bag@.len() > 0 ==> final(self).current_piece.name
                    == old(self).tetrominos_bag@[0] && final(self).tetrominos_bag@ == old(
                    self,
                ).tetrominos_bag@.drop_first())
                &&& (old(self).tetrominos_bag@.len() == 0 ==> final(self).tetrominos_bag@.len()
                    == 6 && final(self).tetrominos_bag@.insert(
                    0,
                    final(self).current_piece.name,
                ).to_multiset() == all_shapes().to_multiset())
                &&& final(self).ghost_piece.name == final(self).current_piece.name
                &&& final(self).ghost_piece.blocks@ == final(self).current_piece.blocks@
                &&& final(self).ghost_piece.x_offset == final(self).current_piece.x_offset
                &&& rests(final(self).cells@, final(self).ghost_piece)
                &&& final(self).state == old(self).state
                &&& final(self).token == old(self).token
            }),
    {
        if self.state != GameState::Playing {
            return ;
        }
        let mut c: usize = 0;
        while c < 10
            invariant
                c <= 10,
                *self == *old(self),
                forall|cc: int| 0 <= cc < c ==> !filled(self.cells@, 0, cc),
            decreases 10 - c,
        {
            proof {
                assert(bidx(0, c as int) == c as int);
            }
            if self.cells[c] == 1 {
                proof {
                    assert(filled(self.cells@, 0, c as int));
                }
                self.state = GameState::Over;
                return ;
            }
            c += 1;
        }
        proof {
            assert(!top_row_occupied(self.cells@));
        }
        if self.can_move_piece_down(&self.current_piece) {
            self.new_block = false;
            proof {
                lemma_extents_in_bounds(self.current_piece);
            }
            self.current_piece.move_down();
            proof {
                lemma_extents_in_bounds(self.current_piece);
            }
        } else {
            let ghost g0 = self.cells@;
            let ghost p = self.current_piece;
            self.set_piece_on_board();
            proof {
                assert forall|r: int, cc: int| 0 <= r < 22 && 0 <= cc < 10 implies self.cells@[
                    #[trigger] bidx(r, cc)] == merged_grid(g0, p)[bidx(r, cc)] by {
                    lemma_merged_cell(g0, p, r, cc);
                    lemma_bidx_decompose(r, cc);
                }
                lemma_grid_ext(self.cells@, merged_grid(g0, p));
            }
            self.clear_line_if_needed();
            let t = self.get_next_piece();
            self.current_piece = t;
            self.new_block = true;
            self.update_ghost_piece();
        }
    }

    /// Adopt the named shape's spawn piece as the falling piece and rebuild
    /// the ghost: how a board replica follows a remote piece announcement.
    pub fn set_current_shape(&mut self, s: Shape)
        requires
            old(self).wf(),
        ensures
            final(self).wf(),
            new_piece_post(*old(self), *final(self), s),
    {
        let t = tetromino_for_shape(s);
        proof {
            crate::block::lemma_spawn_piece_props(s);
            lemma_extents_in_bounds(t);
        }
        self.current_piece = t;
        self.update_ghost_piece();
    }

    /// Rotate the falling piece right, then revert the turn if it would
    /// leave the board.
    #[verifier::rlimit(100)]
    fn rotate_current_validated(&mut self)
        requires
            old(self).wf(),
        ensures
            final(self).wf(),
            final(self).cells == old(self).cells,
            final(self).line_counts == old(self).line_counts,
            final(self).state == old(self).state,
            final(self).score == old(self).score,
            final(self).token == old(self).token,
            final(self).new_block == old(self).new_block,
            final(self).tetrominos_bag == old(self).tetrominos_bag,
            final(self).current_piece.name == old(self).current_piece.name,
            final(self).ghost_piece == old(self).ghost_piece,
            final(self).current_piece.x_offset == old(self).current_piece.x_offset,
            final(self).current_piece.y_offset == old(self).current_piece.y_offset,
            ({
                let m1 = if old(self).current_piece.name == Shape::O {
                    old(self).current_piece.blocks@
                } else {
                    rot_right(old(self).current_piece.blocks@)
                };
                final(self).current_piece.blocks@ == if oob_mask_at(
                    m1,
                    old(self).current_piece.x_offset as int,
                    old(self).current_piece.y_offset as int,
                ) {
                    old(self).current_piece.blocks@
                } else {
                    m1
                }
            }),
    {
        let ghost p0 = self.current_piece;
        let ghost m0 = p0.blocks@;
        let ghost m1 = if p0.name == Shape::O {
            m0
        } else {
            rot_right(m0)
        };
        proof {
            lemma_extents_in_bounds(p0);
            if p0.name != Shape::O {
                lemma_rot_right_preserves(m0);
            }
        }
        self.current_piece.rotate_right();
        proof {
            assert(self.current_piece.blocks@ == m1);
            assert(self.current_piece.wf());
        }
        if self.current_piece_out_of_bounds() {
            self.current_piece.rotate_left();
            proof {
                if p0.name != Shape::O {
                    lemma_rot_right_then_left(m0);
                }
                assert(self.current_piece.blocks@ == m0);
                assert(self.current_piece.wf());
                lemma_same_piece_bounds(p0, self.current_piece);
                assert(Self::piece_ok(self.current_piece));
            }
        } else {
            proof {
                assert(!piece_oob(self.current_piece));
                lemma_extents_in_bounds(self.current_piece);
                assert(piece_in_bounds(self.current_piece));
                assert(Self::piece_ok(self.current_piece));
            }
        }
    }

    /// Rotate the falling piece right, reverting the turn when it would
    /// leave the board, then rebuild the ghost.
    fn press_up(&mut self)
        requires
            old(self).wf(),
        ensures
            final(self).wf(),
            final(self).cells == old(self).cells,
            final(self).line_counts == old(self).line_counts,
            final(self).state == old(self).state,
            final(self).score == old(self).score,
            final(self).token == old(self).token,
            final(self).new_block == old(self).new_block,
            final(self).tetrominos_bag == old(self).tetrominos_bag,
            final(self).current_piece.name == old(self).current_piece.name,
            ({
                let m1 = if old(self).current_piece.name == Shape::O {
                    old(self).current_piece.blocks@
                } else {
                    rot_right(old(self).current_piece.blocks@)
                };
                &&& final(self).current_piece.x_offset == old(self).current_piece.x_offset
                &&& final(self).current_piece.y_offset == old(self).current_piece.y_offset
                &&& final(self).current_piece.blocks@ == if oob_mask_at(
                    m1,
                    old(self).current_piece.x_offset as int,
                    old(self).current_piece.y_offset as int,
                ) {
                    old(self).current_piece.blocks@
                } else {
                    m1
                }
                &&& final(self).ghost_piece.name == final(self).current_piece.name
                &&& final(self).ghost_piece.blocks@ == final(self).current_piece.blocks@
                &&& final(self).ghost_piece.x_offset == final(self).current_piece.x_offset
                &&& rests(final(self).cells@, final(self).ghost_piece)
            }),
    {
        self.rotate_current_validated();
        self.update_ghost_piece();
    }

    /// Move the falling piece one column left when legal, then rebuild the
    /// ghost.
    fn press_left(&mut self)
        requires
            old(self).wf(),
        ensures
            final(self).wf(),
            final(self).cells == old(self).cells,
            final(self).line_counts == old(self).line_counts,
            final(self).state == old(self).state,
            final(self).score == old(self).score,
            final(self).token == old(self).token,
            final(self).new_block == old(self).new_block,
            final(self).tetrominos_bag == old(self).tetrominos_bag,
            final(self).current_piece.name == old(self).current_piece.name,
            if can_left(old(self).cells@, old(self).current_piece) {
                &&& final(self).current_piece == old(self).current_piece.left_spec()
                &&& final(self).ghost_piece.name == final(self).current_piece.name
                &&& final(self).ghost_piece.blocks@ == final(self).current_piece.blocks@
                &&& final(self).ghost_piece.x_offset == final(self).current_piece.x_offset
                &&& rests(final(self).cells@, final(self).ghost_piece)
            } else {
                &&& final(self).current_piece == old(self).current_piece
                &&& final(self).ghost_piece == old(self).ghost_piece
            },
    {
        if self.can_move_current_piece_left() {
            proof {
                lemma_extents_in_bounds(self.current_piece);
            }
            self.current_piece.move_left();
            proof {
                lemma_extents_in_bounds(self.current_piece);
            }
            self.update_ghost_piece();
        }
    }

    /// Move the falling piece one column right when legal, then rebuild the
    /// ghost.
    fn press_right(&mut self)
        requires
            old(self).wf(),
        ensures
            final(self).wf(),
            final(self).cells == old(self).cells,
            final(self).line_counts == old(self).line_counts,
            final(self).state == old(self).state,
            final(self).score == old(self).score,
            final(self).token == old(self).token,
            final(self).new_block == old(self).new_block,
            final(self).tetrominos_bag == old(self).tetrominos_bag,
            final(self).current_piece.name == old(self).current_piece.name,
            if can_right(old(self).cells@, old(self).current_piece) {
                &&& final(self).current_piece == old(self).current_piece.right_spec()
                &&& final(self).ghost_piece.name == final(self).current_piece.name
                &&& final(self).ghost_piece.blocks@ == final(self).current_piece.blocks@
                &&& final(self).ghost_piece.x_offset == final(self).current_piece.x_offset
                &&& rests(final(self).cells@, final(self).ghost_piece)
            } else {
                &&& final(self).current_piece == old(self).current_piece
                &&& final(self).ghost_piece == old(self).ghost_piece
            },
    {
        if self.can_move_current_piece_right() {
            proof {
                lemma_extents_in_bounds(self.current_piece);
            }
            self.current_piece.move_right();
            proof {
                lemma_extents_in_bounds(self.current_piece);
            }
            self.update_ghost_piece();
        }
    }

    /// Soft drop: move the falling piece one row down when legal.
    fn press_down(&mut self)
        requires
            old(self).wf(),
        ensures
            final(self).wf(),
            final(self).cells == old(self).cells,
            final(self).line_counts == old(self).line_counts,
            final(self).state == old(self).state,
            final(self).score == old(self).score,
            final(self).token == old(self).token,
            final(self).new_block == old(self).new_block,
            final(self).tetrominos_bag == old(self).tetrominos_bag,
            final(self).current_piece.name == old(self).current_piece.name,
            final(self).ghost_piece == old(self).ghost_piece,
            final(self).current_piece == (if can_drop(old(self).cells@, old(self).current_piece) {
                old(self).current_piece.dropped_spec()
            } else {
                old(self).current_piece
            }),
    {
        if self.can_move_piece_down(&self.current_piece) {
            proof {
                lemma_extents_in_bounds(self.current_piece);
            }
            self.current_piece.move_down();
            proof {
                lemma_extents_in_bounds(self.current_piece);
            }
        }
    }

    /// Hard drop: move the falling piece down to its resting row.
    #[verifier::loop_isolation(false)]
    fn press_space(&mut self)
        requires
            old(self).wf(),
        ensures
            final(self).wf(),
            final(self).cells == old(self).cells,
            final(self).line_counts == old(self).line_counts,
            final(self).state == old(self).state,
            final(self).score == old(self).score,
            final(self).token == old(self).token,
            final(self).new_block == old(self).new_block,
            final(self).tetrominos_bag == old(self).tetrominos_bag,
            final(self).current_piece.name == old(self).current_piece.name,
            final(self).ghost_piece == old(self).ghost_piece,
            final(self).current_piece.blocks == old(self).current_piece.blocks,
            final(self).current_piece.x_offset == old(self).current_piece.x_offset,
            final(self).current_piece.y_offset >= old(self).current_piece.y_offset,
            !can_drop(old(self).cells@, final(self).current_piece),
            forall|k: int|
                old(self).current_piece.y_offset <= k < final(self).current_piece.y_offset
                    ==> can_drop(old(self).cells@, old(self).current_piece.at_row_spec(k)),
    {
        let ghost start = self.current_piece;
        proof {
            lemma_extents_in_bounds(start);
        }
        while self.can_move_piece_down(&self.current_piece)
            invariant
                self.current_piece.name == start.name,
                self.current_piece.blocks == start.blocks,
                self.current_piece.x_offset == start.x_offset,
                self.current_piece.y_offset >= start.y_offset,
                Self::piece_ok(self.current_piece),
                0 <= self.current_piece.y_offset <= 21,
                self.cells == old(self).cells,
                self.line_counts == old(self).line_counts,
                self.ghost_piece == old(self).ghost_piece,
                self.state == old(self).state,
                self.score == old(self).score,
                self.token == old(self).token,
                self.new_block == old(self).new_block,
                self.tetrominos_bag == old(self).tetrominos_bag,
                forall|k: int|
                    start.y_offset <= k < self.current_piece.y_offset ==> can_drop(
                        self.cells@,
                        start.at_row_spec(k),
                    ),
            decreases 22 - self.current_piece.y_offset,
        {
            proof {
                lemma_extents_in_bounds(self.current_piece);
                assert(self.current_piece == start.at_row_spec(
                    self.current_piece.y_offset as int,
                ));
            }
            self.current_piece.move_down();
            proof {
                lemma_extents_in_bounds(self.current_piece);
            }
        }
    }

    /// Apply one key press to the falling piece: rotate right (validating
    /// the turn and reverting it when it leaves the board), move left or
    /// right when legal, soft-drop one row, or hard-drop to the resting row.
    pub fn handle_key_press(&mut self, key: Key)
        requires
            old(self).wf(),
        ensures
            final(self).wf(),
            key_press_post(*old(self), *final(self), key),
    {
        match key {
            Key::Up => self.press_up(),
            Key::Left => self.press_left(),
            Key::Right => self.press_right(),
            Key::Down => self.press_down(),
            Key::Space => self.press_space(),
        }
    }

    /// A fresh board: an empty grid, zeroed counters, a newly shuffled bag
    /// with the first piece dealt and its ghost projected, ready to play.
    #[verifier::loop_isolation(false)]
    pub fn init_board() -> (b: Board)
        ensures
            b.wf(),
            forall|r: int, c: int| 0 <= r < 22 && 0 <= c < 10 ==> !filled(b.cells@, r, c),
            b.state == GameState::Playing,
            b.score == 0,
            b.token == 0,
            b.new_block == true,
            is_spawn_for(b.current_piece),
            b.tetrominos_bag@.len() == 6,
            b.tetrominos_bag@.insert(0, b.current_piece.name).to_multiset()
                == all_shapes().to_multiset(),
            b.ghost_piece.name == b.current_piece.name,
            b.ghost_piece.blocks@ == b.current_piece.blocks@,
            b.ghost_piece.x_offset == b.current_piece.x_offset,
            rests(b.cells@, b.ghost_piece),
    {
        let mut cells: Vec<u8> = Vec::new();
        let mut i: usize = 0;
        while i < 220
            invariant
                i <= 220,
                cells@.len() == i,
                forall|j: int| 0 <= j < i ==> cells@[j] == 0,
            decreases 220 - i,
        {
            cells.push(0);
            i += 1;
        }
        let mut counts: Vec<i64> = Vec::new();
        let mut r: usize = 0;
        while r < 22
            invariant
                r <= 22,
                counts@.len() == r,
                forall|j: int| 0 <= j < r ==> counts@[j] == 0,
            decreases 22 - r,
        {
            counts.push(0);
            r += 1;
        }
        let mut bag = fresh_bag();
        shuffle_shapes(&mut bag);
        proof {
            assert forall|x: Shape| bag@.to_multiset().count(x) <= 1 by {
                lemma_all_shapes_count(x);
            }
            lemma_bag_distinct(bag@);
        }
        let ghost pre = bag@;
        let first = bag.remove(0);
        proof {
            assert(bag@ =~= pre.drop_first());
            assert(bag@.insert(0, first) =~= pre);
        }
        let current = tetromino_for_shape(first);
        let ghost_start = current.duplicate();
        let mut b = Board {
            cells,
            current_piece: current,
            ghost_piece: ghost_start,
            state: GameState::Playing,
            score: 0,
            token: 0,
            new_block: true,
            line_counts: counts,
            tetrominos_bag: bag,
        };
        proof {
            assert forall|rr: int| 0 <= rr < 22 implies b.line_counts@[rr] == row_sum(
                b.cells@,
                rr,
            ) by {
                assert forall|cc: int| 0 <= cc < 10 implies !filled(b.cells@, rr, cc) by {
                    lemma_bidx_decompose(rr, cc);
                }
                lemma_row_fill_count_zero(b.cells@, rr, 10);
            }
            assert forall|rr: int, cc: int| 0 <= rr < 22 && 0 <= cc < 10 implies !filled(
                b.cells@,
                rr,
                cc,
            ) by {
                lemma_bidx_decompose(rr, cc);
            }
            crate::block::lemma_spawn_piece_props(first);
            lemma_extents_in_bounds(b.current_piece);
            lemma_extents_in_bounds(b.ghost_piece);
        }
        b.update_ghost_piece();
        b
    }
}

/// Number of rows in lo..=hi that are full in the grid as it stands.
pub open spec fn full_rows_in(g: Seq<u8>, lo: int, hi: int) -> int
    decreases hi + 1 - lo,
{
    if lo > hi {
        0
    } else {
        (if row_full(g, lo) {
            1int
        } else {
            0int
        }) + full_rows_in(g, lo + 1, hi)
    }
}

/// Removing a row leaves every row below it (larger index) as it was.
pub proof fn lemma_clear_one_keeps_below(g: Seq<u8>, row: int, r: int)
    requires
        g.len() == 220,
        0 <= row,
        row < r < 22,
    ensures
        row_sum(clear_one(g, row), r) == row_sum(g, r),
{
    assert forall|c: int| 0 <= c < 10 implies clear_one(g, row)[#[trigger] bidx(r, c)] == g[bidx(
        r,
        c,
    )] by {
        lemma_clear_one_cell(g, row, r, c);
    }
    lemma_row_fill_count_congruent(clear_one(g, row), g, r, r, 10);
}

/// Grids whose rows lo..=hi are full in the same places agree on the count.
pub proof fn lemma_full_rows_congruent(g1: Seq<u8>, g2: Seq<u8>, lo: int, hi: int)
    requires
        forall|r: int| lo <= r <= hi ==> row_full(g1, r) == row_full(g2, r),
    ensures
        full_rows_in(g1, lo, hi) == full_rows_in(g2, lo, hi),
    decreases hi + 1 - lo,
{
    if lo <= hi {
        lemma_full_rows_congruent(g1, g2, lo + 1, hi);
    }
}

/// Law: the line-clear sweep removes exactly the rows that were full at the
/// moment the piece locked, even though it clears them one at a time.
pub proof fn lemma_count_full_initial(g: Seq<u8>, lo: int, hi: int)
    requires
        g.len() == 220,
        0 <= lo,
        hi < 22,
    ensures
        count_full_in(g, lo, hi) == full_rows_in(g, lo, hi),
    decreases hi + 1 - lo,
{
    if lo <= hi {
        if row_full(g, lo) {
            let g2 = clear_one(g, lo);
            assert(g2.len() == 220);
            lemma_count_full_initial(g2, lo + 1, hi);
            assert forall|r: int| lo + 1 <= r <= hi implies row_full(g2, r) == row_full(
                g,
                r,
            ) by {
                lemma_clear_one_keeps_below(g, lo, r);
            }
            lemma_full_rows_congruent(g2, g, lo + 1, hi);
        } else {
            lemma_count_full_initial(g, lo + 1, hi);
        }
    }
}

/// A sweep over rows none of which is full changes nothing.
pub proof fn lemma_no_full_rows(g: Seq<u8>, lo: int, hi: int)
    requires
        forall|r: int| lo <= r <= hi ==> !row_full(g, r),
    ensures
        clear_full_in(g, lo, hi) == g,
        count_full_in(g, lo, hi) == 0,
    decreases hi + 1 - lo,
{
    if lo <= hi {
        lemma_no_full_rows(g, lo + 1, hi);
    }
}

/// Law: a landing that completes exactly one row, at row rr, collapses the
/// board by removing that row -- each row above it shifts down one and the
/// top row becomes empty (the shape `clear_one` states cell by cell) -- and
/// scores as a single line.
pub proof fn lemma_single_line_clear(g: Seq<u8>, lo: int, hi: int, rr: int)
    requires
        g.len() == 220,
        0 <= lo <= rr <= hi < 22,
        row_full(g, rr),
        forall|r: int| lo <= r <= hi && r != rr ==> !row_full(g, r),
    ensures
        count_full_in(g, lo, hi) == 1,
        clear_full_in(g, lo, hi) == clear_one(g, rr),
        line_score(count_full_in(g, lo, hi)) == 80,
    decreases hi + 1 - lo,
{
    if lo < rr {
        lemma_single_line_clear(g, lo + 1, hi, rr);
    } else {
        let g2 = clear_one(g, rr);
        assert(g2.len() == 220);
        assert forall|r: int| rr + 1 <= r <= hi implies !row_full(g2, r) by {
            lemma_clear_one_keeps_below(g, rr, r);
            assert(!row_full(g, r));
        }
        lemma_no_full_rows(g2, rr + 1, hi);
    }
}

/// Law: a landing that completes four rows at once clears all four in the
/// one sweep and scores 2400.
pub proof fn lemma_quad_line_clear(g: Seq<u8>, lo: int)
    requires
        g.len() == 220,
        0 <= lo,
        lo + 3 < 22,
        row_full(g, lo),
        row_full(g, lo + 1),
        row_full(g, lo + 2),
        row_full(g, lo + 3),
    ensures
        count_full_in(g, lo, lo + 3) == 4,
        line_score(count_full_in(g, lo, lo + 3)) == 2400,
{
    lemma_count_full_initial(g, lo, lo + 3);
    assert(full_rows_in(g, lo + 4, lo + 3) == 0);
    assert(full_rows_in(g, lo + 3, lo + 3) == 1);
    assert(full_rows_in(g, lo + 2, lo + 3) == 2);
    assert(full_rows_in(g, lo + 1, lo + 3) == 3);
    assert(full_rows_in(g, lo, lo + 3) == 4);
}

/// Law: on a well-formed board, every row's counter equals the number of
/// filled cells in that row.
pub proof fn lemma_line_counts_law(b: Board)
    requires
        b.wf(),
    ensures
        forall|r: int| 0 <= r < 22 ==> b.line_counts@[r] == row_sum(b.cells@, r),
{
}

/// Law: a piece resting on the bottom row can never move down, whatever the
/// grid holds.
pub proof fn lemma_bottom_row_blocks_fall(g: Seq<u8>, p: Tetromino)
    requires
        p.bottommost_spec() == 21,
    ensures
        !can_drop(g, p),
{
}

/// Law: across two full bag cycles -- the fourteen consecutive draws that
/// two refills deal -- every shape appears exactly twice.
pub proof fn lemma_two_bags_deal_each_shape_twice(a: Seq<Shape>, b: Seq<Shape>, x: Shape)
    requires
        a.to_multiset() == all_shapes().to_multiset(),
        b.to_multiset() == all_shapes().to_multiset(),
    ensures
        (a + b).to_multiset().count(x) == 2,
{
    broadcast use vstd::multiset::group_multiset_axioms;

    vstd::seq_lib::lemma_multiset_commutative(a, b);
    lemma_all_shapes_count(x);
}

/// Law: a piece's resting row under a given grid is unique, so the drop
/// preview and a hard drop land on the same row.
pub proof fn lemma_rest_row_unique(g: Seq<u8>, p: Tetromino, y1: int, y2: int)
    requires
        0 <= y1 <= 21,
        0 <= y2 <= 21,
        rests(g, p.at_row_spec(y1)),
        rests(g, p.at_row_spec(y2)),
    ensures
        y1 == y2,
{
    if y1 < y2 {
        assert(p.at_row_spec(y2).at_row_spec(y1) == p.at_row_spec(y1));
        assert(can_drop(g, p.at_row_spec(y1)));
    }
    if y2 < y1 {
        assert(p.at_row_spec(y1).at_row_spec(y2) == p.at_row_spec(y2));
        assert(can_drop(g, p.at_row_spec(y2)));
    }
}

} // verus!
