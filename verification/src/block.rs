//! Pieces: the seven tetromino shapes, their 4x4 occupancy masks,
//! rotation, movement, and bounding-extent queries.

use vstd::prelude::*;

verus! {

/// The seven tetromino shapes.
#[derive(PartialEq, Eq, Structural, Debug, Clone, Copy)]
pub enum Shape {
    I,
    O,
    T,
    S,
    Z,
    J,
    L,
}

/// Flat row-major index of cell (r, c) in a 4x4 mask.
pub open spec fn midx(r: int, c: int) -> int {
    r * 4 + c
}

/// A well-formed mask: 16 entries, each 0 or 1.
pub open spec fn mask_wf(m: Seq<u8>) -> bool {
    &&& m.len() == 16
    &&& forall|i: int| 0 <= i < 16 ==> m[i] == 0 || m[i] == 1
}

/// Cell (r, c) of the mask is occupied.
pub open spec fn occ(m: Seq<u8>, r: int, c: int) -> bool {
    m[midx(r, c)] == 1
}

/// Row r of the mask has at least one occupied cell.
pub open spec fn row_occ(m: Seq<u8>, r: int) -> bool {
    occ(m, r, 0) || occ(m, r, 1) || occ(m, r, 2) || occ(m, r, 3)
}

/// Column c of the mask has at least one occupied cell.
pub open spec fn col_occ(m: Seq<u8>, c: int) -> bool {
    occ(m, 0, c) || occ(m, 1, c) || occ(m, 2, c) || occ(m, 3, c)
}

/// The mask has at least one occupied cell.
pub open spec fn mask_nonempty(m: Seq<u8>) -> bool {
    row_occ(m, 0) || row_occ(m, 1) || row_occ(m, 2) || row_occ(m, 3)
}

/// First occupied row at or after r; 3 if none before the last row.
pub open spec fn first_row_from(m: Seq<u8>, r: int) -> int
    decreases 3 - r,
{
    if r >= 3 {
        3
    } else if row_occ(m, r) {
        r
    } else {
        first_row_from(m, r + 1)
    }
}

/// Index of the first occupied row (3 when rows 0..3 are empty).
pub open spec fn min_row(m: Seq<u8>) -> int {
    first_row_from(m, 0)
}

/// Last occupied row at or before r; 0 if none after the first row.
pub open spec fn last_row_from(m: Seq<u8>, r: int) -> int
    decreases r,
{
    if r <= 0 {
        0
    } else if row_occ(m, r) {
        r
    } else {
        last_row_from(m, r - 1)
    }
}

/// Index of the last occupied row (0 when rows 1..4 are empty).
pub open spec fn max_row(m: Seq<u8>) -> int {
    last_row_from(m, 3)
}

/// First occupied column at or after c; 3 if none before the last column.
pub open spec fn first_col_from(m: Seq<u8>, c: int) -> int
    decreases 3 - c,
{
    if c >= 3 {
        3
    } else if col_occ(m, c) {
        c
    } else {
        first_col_from(m, c + 1)
    }
}

/// Index of the first occupied column (3 when columns 0..3 are empty).
pub open spec fn min_col(m: Seq<u8>) -> int {
    first_col_from(m, 0)
}

/// Last occupied column at or before c; 0 if none after the first column.
pub open spec fn last_col_from(m: Seq<u8>, c: int) -> int
    decreases c,
{
    if c <= 0 {
        0
    } else if col_occ(m, c) {
        c
    } else {
        last_col_from(m, c - 1)
    }
}

/// Index of the last occupied column (0 when columns 1..4 are empty).
pub open spec fn max_col(m: Seq<u8>) -> int {
    last_col_from(m, 3)
}

/// Number of occupied rows with index below n.
pub open spec fn occ_rows_upto(m: Seq<u8>, n: int) -> int
    decreases n,
{
    if n <= 0 {
        0
    } else {
        occ_rows_upto(m, n - 1) + if row_occ(m, n - 1) {
            1int
        } else {
            0int
        }
    }
}

/// Number of occupied columns with index below n.
pub open spec fn occ_cols_upto(m: Seq<u8>, n: int) -> int
    decreases n,
{
    if n <= 0 {
        0
    } else {
        occ_cols_upto(m, n - 1) + if col_occ(m, n - 1) {
            1int
        } else {
            0int
        }
    }
}

/// Height of the mask's bounding contents: the number of occupied rows.
pub open spec fn height_of(m: Seq<u8>) -> int {
    occ_rows_upto(m, 4)
}

/// Width of the mask's bounding contents: the number of occupied columns.
pub open spec fn width_of(m: Seq<u8>) -> int {
    occ_cols_upto(m, 4)
}

/// Occupied rows form one contiguous run.
pub open spec fn rows_contiguous(m: Seq<u8>) -> bool {
    forall|r: int| min_row(m) <= r <= max_row(m) ==> row_occ(m, r)
}

/// Occupied columns form one contiguous run.
pub open spec fn cols_contiguous(m: Seq<u8>) -> bool {
    forall|c: int| min_col(m) <= c <= max_col(m) ==> col_occ(m, c)
}

/// The mask rotated a quarter turn clockwise: cell (r, c) comes from (3 - c, r).
pub open spec fn rot_right(m: Seq<u8>) -> Seq<u8> {
    Seq::new(16, |i: int| m[midx(3 - i % 4, i / 4)])
}

/// The mask rotated a quarter turn counterclockwise: cell (r, c) comes from (c, 3 - r).
pub open spec fn rot_left(m: Seq<u8>) -> Seq<u8> {
    Seq::new(16, |i: int| m[midx(i % 4, 3 - i / 4)])
}

/// Flat indices in a 4x4 mask decompose uniquely into (row, column).
pub proof fn lemma_midx_decompose(r: int, c: int)
    requires
        0 <= r < 4,
        0 <= c < 4,
    ensures
        0 <= midx(r, c) < 16,
        midx(r, c) / 4 == r,
        midx(r, c) % 4 == c,
{
    assert((r * 4 + c) / 4 == r && (r * 4 + c) % 4 == c) by (nonlinear_arith)
        requires
            0 <= r < 4,
            0 <= c < 4,
    ;
}

/// Cell-level reading of the clockwise rotation.
pub proof fn lemma_rot_right_cell(m: Seq<u8>, r: int, c: int)
    requires
        m.len() == 16,
        0 <= r < 4,
        0 <= c < 4,
    ensures
        rot_right(m)[midx(r, c)] == m[midx(3 - c, r)],
        occ(rot_right(m), r, c) == occ(m, 3 - c, r),
{
    lemma_midx_decompose(r, c);
}

/// Cell-level reading of the counterclockwise rotation.
pub proof fn lemma_rot_left_cell(m: Seq<u8>, r: int, c: int)
    requires
        m.len() == 16,
        0 <= r < 4,
        0 <= c < 4,
    ensures
        rot_left(m)[midx(r, c)] == m[midx(c, 3 - r)],
        occ(rot_left(m), r, c) == occ(m, c, 3 - r),
{
    lemma_midx_decompose(r, c);
}

/// Two masks that agree on every (row, column) cell are equal.
pub proof fn lemma_mask_ext(a: Seq<u8>, b: Seq<u8>)
    requires
        a.len() == 16,
        b.len() == 16,
        forall|r: int, c: int| 0 <= r < 4 && 0 <= c < 4 ==> a[#[trigger] midx(r, c)] == b[midx(r, c)],
    ensures
        a == b,
{
    assert forall|i: int| 0 <= i < 16 implies a[i] == b[i] by {
        let r = i / 4;
        let c = i % 4;
        assert(0 <= r < 4 && 0 <= c < 4 && midx(r, c) == i) by (nonlinear_arith)
            requires
                0 <= i < 16,
                r == i / 4,
                c == i % 4,
        ;
        assert(a[midx(r, c)] == b[midx(r, c)]);
    }
    assert(a =~= b);
}

/// Rotating clockwise keeps the mask well formed.
pub proof fn lemma_rot_right_wf(m: Seq<u8>)
    requires
        mask_wf(m),
    ensures
        mask_wf(rot_right(m)),
{
    assert forall|i: int| 0 <= i < 16 implies rot_right(m)[i] == 0 || rot_right(m)[i] == 1 by {
        lemma_midx_decompose(3 - i % 4, i / 4);
    }
}

/// Rotating counterclockwise keeps the mask well formed.
pub proof fn lemma_rot_left_wf(m: Seq<u8>)
    requires
        mask_wf(m),
    ensures
        mask_wf(rot_left(m)),
{
    assert forall|i: int| 0 <= i < 16 implies rot_left(m)[i] == 0 || rot_left(m)[i] == 1 by {
        lemma_midx_decompose(i % 4, 3 - i / 4);
    }
}

/// A quarter turn counterclockwise undoes a quarter turn clockwise.
pub proof fn lemma_rot_right_then_left(m: Seq<u8>)
    requires
        mask_wf(m),
    ensures
        rot_left(rot_right(m)) == m,
{
    lemma_rot_right_wf(m);
    assert forall|r: int, c: int| 0 <= r < 4 && 0 <= c < 4 implies rot_left(rot_right(m))[#[trigger] midx(
        r,
        c,
    )] == m[midx(r, c)] by {
        lemma_rot_left_cell(rot_right(m), r, c);
        lemma_rot_right_cell(m, c, 3 - r);
    }
    lemma_mask_ext(rot_left(rot_right(m)), m);
}

/// A quarter turn clockwise undoes a quarter turn counterclockwise.
pub proof fn lemma_rot_left_then_right(m: Seq<u8>)
    requires
        mask_wf(m),
    ensures
        rot_right(rot_left(m)) == m,
{
    lemma_rot_left_wf(m);
    assert forall|r: int, c: int| 0 <= r < 4 && 0 <= c < 4 implies rot_right(rot_left(m))[#[trigger] midx(
        r,
        c,
    )] == m[midx(r, c)] by {
        lemma_rot_right_cell(rot_left(m), r, c);
        lemma_rot_left_cell(m, 3 - c, r);
    }
    lemma_mask_ext(rot_right(rot_left(m)), m);
}

/// Four quarter turns clockwise return a mask to its original state.
pub proof fn lemma_rot_right_four(m: Seq<u8>)
    requires
        mask_wf(m),
    ensures
        rot_right(rot_right(rot_right(rot_right(m)))) == m,
{
    let m1 = rot_right(m);
    let m2 = rot_right(m1);
    let m3 = rot_right(m2);
    let m4 = rot_right(m3);
    lemma_rot_right_wf(m);
    lemma_rot_right_wf(m1);
    lemma_rot_right_wf(m2);
    lemma_rot_right_wf(m3);
    assert forall|r: int, c: int| 0 <= r < 4 && 0 <= c < 4 implies m4[#[trigger] midx(r, c)]
        == m[midx(r, c)] by {
        lemma_rot_right_cell(m3, r, c);
        lemma_rot_right_cell(m2, 3 - c, r);
        lemma_rot_right_cell(m1, 3 - r, 3 - c);
        lemma_rot_right_cell(m, c, 3 - r);
    }
    lemma_mask_ext(m4, m);
}

/// Four quarter turns counterclockwise return a mask to its original state.
pub proof fn lemma_rot_left_four(m: Seq<u8>)
    requires
        mask_wf(m),
    ensures
        rot_left(rot_left(rot_left(rot_left(m)))) == m,
{
    let m1 = rot_left(m);
    let m2 = rot_left(m1);
    let m3 = rot_left(m2);
    let m4 = rot_left(m3);
    lemma_rot_left_wf(m);
    lemma_rot_left_wf(m1);
    lemma_rot_left_wf(m2);
    lemma_rot_left_wf(m3);
    assert forall|r: int, c: int| 0 <= r < 4 && 0 <= c < 4 implies m4[#[trigger] midx(r, c)]
        == m[midx(r, c)] by {
        lemma_rot_left_cell(m3, r, c);
        lemma_rot_left_cell(m2, c, 3 - r);
        lemma_rot_left_cell(m1, 3 - r, 3 - c);
        lemma_rot_left_cell(m, 3 - c, r);
    }
    lemma_mask_ext(m4, m);
}

/// What the first-occupied-row scan returns: everything before it is empty,
/// and it points at an occupied row unless it ran off the end.
pub proof fn lemma_first_row_from_char(m: Seq<u8>, r: int)
    requires
        0 <= r <= 3,
    ensures
        r <= first_row_from(m, r) <= 3,
        forall|k: int| r <= k < first_row_from(m, r) ==> !row_occ(m, k),
        first_row_from(m, r) < 3 ==> row_occ(m, first_row_from(m, r)),
    decreases 3 - r,
{
    if r < 3 && !row_occ(m, r) {
        lemma_first_row_from_char(m, r + 1);
    }
}

/// The first-occupied-row scan is determined by where the occupied rows are.
pub proof fn lemma_first_row_from_det(m: Seq<u8>, r: int, k: int)
    requires
        0 <= r <= k <= 3,
        forall|j: int| r <= j < k ==> !row_occ(m, j),
        k == 3 || row_occ(m, k),
    ensures
        first_row_from(m, r) == k,
    decreases 3 - r,
{
    if r < 3 && !row_occ(m, r) {
        lemma_first_row_from_det(m, r + 1, k);
    }
}

/// What the last-occupied-row scan returns.
pub proof fn lemma_last_row_from_char(m: Seq<u8>, r: int)
    requires
        0 <= r <= 3,
    ensures
        0 <= last_row_from(m, r) <= r,
        forall|k: int| last_row_from(m, r) < k <= r ==> !row_occ(m, k),
        last_row_from(m, r) > 0 ==> row_occ(m, last_row_from(m, r)),
    decreases r,
{
    if r > 0 && !row_occ(m, r) {
        lemma_last_row_from_char(m, r - 1);
    }
}

/// The last-occupied-row scan is determined by where the occupied rows are.
pub proof fn lemma_last_row_from_det(m: Seq<u8>, r: int, k: int)
    requires
        0 <= k <= r <= 3,
        forall|j: int| k < j <= r ==> !row_occ(m, j),
        k == 0 || row_occ(m, k),
    ensures
        last_row_from(m, r) == k,
    decreases r,
{
    if r > 0 && !row_occ(m, r) {
        lemma_last_row_from_det(m, r - 1, k);
    }
}

/// What the first-occupied-column scan returns.
pub proof fn lemma_first_col_from_char(m: Seq<u8>, c: int)
    requires
        0 <= c <= 3,
    ensures
        c <= first_col_from(m, c) <= 3,
        forall|k: int| c <= k < first_col_from(m, c) ==> !col_occ(m, k),
        first_col_from(m, c) < 3 ==> col_occ(m, first_col_from(m, c)),
    decreases 3 - c,
{
    if c < 3 && !col_occ(m, c) {
        lemma_first_col_from_char(m, c + 1);
    }
}

/// The first-occupied-column scan is determined by where the occupied columns are.
pub proof fn lemma_first_col_from_det(m: Seq<u8>, c: int, k: int)
    requires
        0 <= c <= k <= 3,
        forall|j: int| c <= j < k ==> !col_occ(m, j),
        k == 3 || col_occ(m, k),
    ensures
        first_col_from(m, c) == k,
    decreases 3 - c,
{
    if c < 3 && !col_occ(m, c) {
        lemma_first_col_from_det(m, c + 1, k);
    }
}

/// What the last-occupied-column scan returns.
pub proof fn lemma_last_col_from_char(m: Seq<u8>, c: int)
    requires
        0 <= c <= 3,
    ensures
        0 <= last_col_from(m, c) <= c,
        forall|k: int| last_col_from(m, c) < k <= c ==> !col_occ(m, k),
        last_col_from(m, c) > 0 ==> col_occ(m, last_col_from(m, c)),
    decreases c,
{
    if c > 0 && !col_occ(m, c) {
        lemma_last_col_from_char(m, c - 1);
    }
}

/// The last-occupied-column scan is determined by where the occupied columns are.
pub proof fn lemma_last_col_from_det(m: Seq<u8>, c: int, k: int)
    requires
        0 <= k <= c <= 3,
        forall|j: int| k < j <= c ==> !col_occ(m, j),
        k == 0 || col_occ(m, k),
    ensures
        last_col_from(m, c) == k,
    decreases c,
{
    if c > 0 && !col_occ(m, c) {
        lemma_last_col_from_det(m, c - 1, k);
    }
}

/// On a nonempty mask the row extremes point at occupied rows and bracket
/// every occupied row.
pub proof fn lemma_row_extremes(m: Seq<u8>)
    requires
        mask_nonempty(m),
    ensures
        0 <= min_row(m) <= max_row(m) <= 3,
        row_occ(m, min_row(m)),
        row_occ(m, max_row(m)),
        forall|k: int| 0 <= k < min_row(m) ==> !row_occ(m, k),
        forall|k: int| max_row(m) < k <= 3 ==> !row_occ(m, k),
{
    lemma_first_row_from_char(m, 0);
    lemma_last_row_from_char(m, 3);
}

/// On a nonempty mask the column extremes point at occupied columns and
/// bracket every occupied column.
pub proof fn lemma_col_extremes(m: Seq<u8>)
    requires
        mask_nonempty(m),
    ensures
        0 <= min_col(m) <= max_col(m) <= 3,
        col_occ(m, min_col(m)),
        col_occ(m, max_col(m)),
        forall|k: int| 0 <= k < min_col(m) ==> !col_occ(m, k),
        forall|k: int| max_col(m) < k <= 3 ==> !col_occ(m, k),
{
    lemma_first_col_from_char(m, 0);
    lemma_last_col_from_char(m, 3);
    if !col_occ(m, 0) && !col_occ(m, 1) && !col_occ(m, 2) && !col_occ(m, 3) {
        assert(!row_occ(m, 0) && !row_occ(m, 1) && !row_occ(m, 2) && !row_occ(m, 3));
    }
}

/// Counting rows below n when the occupied rows are exactly the interval
/// [lo, hi].
pub proof fn lemma_occ_rows_count_interval(m: Seq<u8>, lo: int, hi: int, n: int)
    requires
        0 <= lo <= hi <= 3,
        0 <= n <= 4,
        forall|r: int| 0 <= r < 4 ==> (row_occ(m, r) <==> lo <= r <= hi),
    ensures
        occ_rows_upto(m, n) == if n <= lo {
            0int
        } else if n <= hi + 1 {
            n - lo
        } else {
            hi + 1 - lo
        },
    decreases n,
{
    if n > 0 {
        lemma_occ_rows_count_interval(m, lo, hi, n - 1);
    }
}

/// Counting columns below n when the occupied columns are exactly the
/// interval [lo, hi].
pub proof fn lemma_occ_cols_count_interval(m: Seq<u8>, lo: int, hi: int, n: int)
    requires
        0 <= lo <= hi <= 3,
        0 <= n <= 4,
        forall|c: int| 0 <= c < 4 ==> (col_occ(m, c) <==> lo <= c <= hi),
    ensures
        occ_cols_upto(m, n) == if n <= lo {
            0int
        } else if n <= hi + 1 {
            n - lo
        } else {
            hi + 1 - lo
        },
    decreases n,
{
    if n > 0 {
        lemma_occ_cols_count_interval(m, lo, hi, n - 1);
    }
}

/// On a nonempty mask with one contiguous run of occupied rows, the height
/// equals the row span.
pub proof fn lemma_height_span(m: Seq<u8>)
    requires
        mask_nonempty(m),
        rows_contiguous(m),
    ensures
        height_of(m) == max_row(m) - min_row(m) + 1,
        1 <= height_of(m) <= 4,
{
    lemma_row_extremes(m);
    lemma_occ_rows_count_interval(m, min_row(m), max_row(m), 4);
}

/// On a nonempty mask with one contiguous run of occupied columns, the width
/// equals the column span.
pub proof fn lemma_width_span(m: Seq<u8>)
    requires
        mask_nonempty(m),
        cols_contiguous(m),
    ensures
        width_of(m) == max_col(m) - min_col(m) + 1,
        1 <= width_of(m) <= 4,
{
    lemma_col_extremes(m);
    lemma_occ_cols_count_interval(m, min_col(m), max_col(m), 4);
}

/// Counts of occupied rows or columns stay within the scanned range.
pub proof fn lemma_occ_counts_bounds(m: Seq<u8>, n: int)
    requires
        0 <= n <= 4,
    ensures
        0 <= occ_rows_upto(m, n) <= n,
        0 <= occ_cols_upto(m, n) <= n,
    decreases n,
{
    if n > 0 {
        lemma_occ_counts_bounds(m, n - 1);
    }
}

/// A quarter turn clockwise carries rows to columns: it keeps a mask
/// nonempty and contiguous, and maps its extremes and extents as stated.
pub proof fn lemma_rot_right_preserves(m: Seq<u8>)
    requires
        mask_wf(m),
        mask_nonempty(m),
        rows_contiguous(m),
        cols_contiguous(m),
    ensures
        mask_wf(rot_right(m)),
        mask_nonempty(rot_right(m)),
        rows_contiguous(rot_right(m)),
        cols_contiguous(rot_right(m)),
        min_row(rot_right(m)) == min_col(m),
        max_row(rot_right(m)) == max_col(m),
        min_col(rot_right(m)) == 3 - max_row(m),
        max_col(rot_right(m)) == 3 - min_row(m),
        height_of(rot_right(m)) == width_of(m),
        width_of(rot_right(m)) == height_of(m),
{
    let rm = rot_right(m);
    lemma_rot_right_wf(m);
    assert forall|r: int| 0 <= r < 4 implies (row_occ(rm, r) <==> col_occ(m, r)) by {
        lemma_rot_right_cell(m, r, 0);
        lemma_rot_right_cell(m, r, 1);
        lemma_rot_right_cell(m, r, 2);
        lemma_rot_right_cell(m, r, 3);
    }
    assert forall|c: int| 0 <= c < 4 implies (col_occ(rm, c) <==> row_occ(m, 3 - c)) by {
        lemma_rot_right_cell(m, 0, c);
        lemma_rot_right_cell(m, 1, c);
        lemma_rot_right_cell(m, 2, c);
        lemma_rot_right_cell(m, 3, c);
    }
    lemma_row_extremes(m);
    lemma_col_extremes(m);
    let minr = min_row(m);
    let maxr = max_row(m);
    let minc = min_col(m);
    let maxc = max_col(m);
    assert(mask_nonempty(rm));
    assert forall|r: int| 0 <= r < 4 implies (row_occ(rm, r) <==> minc <= r <= maxc) by {}
    assert forall|c: int| 0 <= c < 4 implies (col_occ(rm, c) <==> 3 - maxr <= c <= 3 - minr) by {}
    lemma_first_row_from_det(m, 0, minr);
    lemma_first_row_from_det(rm, 0, minc);
    lemma_last_row_from_det(rm, 3, maxc);
    lemma_first_col_from_det(rm, 0, 3 - maxr);
    lemma_last_col_from_det(rm, 3, 3 - minr);
    assert(rows_contiguous(rm));
    assert(cols_contiguous(rm));
    lemma_occ_rows_count_interval(rm, minc, maxc, 4);
    lemma_occ_cols_count_interval(rm, 3 - maxr, 3 - minr, 4);
    lemma_height_span(m);
    lemma_width_span(m);
}

/// A quarter turn counterclockwise carries columns to rows: it keeps a mask
/// nonempty and contiguous, and maps its extremes and extents as stated.
pub proof fn lemma_rot_left_preserves(m: Seq<u8>)
    requires
        mask_wf(m),
        mask_nonempty(m),
        rows_contiguous(m),
        cols_contiguous(m),
    ensures
        mask_wf(rot_left(m)),
        mask_nonempty(rot_left(m)),
        rows_contiguous(rot_left(m)),
        cols_contiguous(rot_left(m)),
        min_row(rot_left(m)) == 3 - max_col(m),
        max_row(rot_left(m)) == 3 - min_col(m),
        min_col(rot_left(m)) == min_row(m),
        max_col(rot_left(m)) == max_row(m),
        height_of(rot_left(m)) == width_of(m),
        width_of(rot_left(m)) == height_of(m),
{
    let rm = rot_left(m);
    lemma_rot_left_wf(m);
    assert forall|r: int| 0 <= r < 4 implies (row_occ(rm, r) <==> col_occ(m, 3 - r)) by {
        lemma_rot_left_cell(m, r, 0);
        lemma_rot_left_cell(m, r, 1);
        lemma_rot_left_cell(m, r, 2);
        lemma_rot_left_cell(m, r, 3);
    }
    assert forall|c: int| 0 <= c < 4 implies (col_occ(rm, c) <==> row_occ(m, c)) by {
        lemma_rot_left_cell(m, 0, c);
        lemma_rot_left_cell(m, 1, c);
        lemma_rot_left_cell(m, 2, c);
        lemma_rot_left_cell(m, 3, c);
    }
    lemma_row_extremes(m);
    lemma_col_extremes(m);
    let minr = min_row(m);
    let maxr = max_row(m);
    let minc = min_col(m);
    let maxc = max_col(m);
    assert(mask_nonempty(rm));
    assert forall|r: int| 0 <= r < 4 implies (row_occ(rm, r) <==> 3 - maxc <= r <= 3 - minc) by {}
    assert forall|c: int| 0 <= c < 4 implies (col_occ(rm, c) <==> minr <= c <= maxr) by {}
    lemma_first_row_from_det(rm, 0, 3 - maxc);
    lemma_last_row_from_det(rm, 3, 3 - minc);
    lemma_first_col_from_det(rm, 0, minr);
    lemma_last_col_from_det(rm, 3, maxr);
    assert(rows_contiguous(rm));
    assert(cols_contiguous(rm));
    lemma_occ_rows_count_interval(rm, 3 - maxc, 3 - minc, 4);
    lemma_occ_cols_count_interval(rm, minr, maxr, 4);
    lemma_height_span(m);
    lemma_width_span(m);
}

/// A piece: a shape instance with its current rotation's occupancy mask and a
/// board-relative offset of the mask's top-left corner (column, row).
#[derive(Debug)]
pub struct Tetromino {
    pub name: Shape,
    pub blocks: Vec<u8>,
    pub x_offset: i64,
    pub y_offset: i64,
}

impl Tetromino {
    /// A piece in play: its mask is well formed, occupies at least one cell,
    /// and its occupied rows and columns each form one contiguous run.
    pub open spec fn wf(self) -> bool {
        &&& mask_wf(self.blocks@)
        &&& mask_nonempty(self.blocks@)
        &&& rows_contiguous(self.blocks@)
        &&& cols_contiguous(self.blocks@)
    }

    /// Board column of the piece's leftmost occupied cell.
    pub open spec fn leftmost_spec(self) -> int {
        min_col(self.blocks@) + self.x_offset
    }

    /// Board column of the piece's rightmost occupied cell.
    pub open spec fn rightmost_spec(self) -> int {
        self.leftmost_spec() + width_of(self.blocks@) - 1
    }

    /// Board row of the piece's topmost occupied cell.
    pub open spec fn topmost_spec(self) -> int {
        min_row(self.blocks@) + self.y_offset
    }

    /// Board row of the piece's bottommost occupied cell.
    pub open spec fn bottommost_spec(self) -> int {
        self.topmost_spec() + height_of(self.blocks@) - 1
    }

    /// The same piece one cell lower.
    pub open spec fn dropped_spec(self) -> Tetromino {
        Tetromino { y_offset: (self.y_offset + 1) as i64, ..self }
    }

    /// The same piece one cell to the left.
    pub open spec fn left_spec(self) -> Tetromino {
        Tetromino { x_offset: (self.x_offset - 1) as i64, ..self }
    }

    /// The same piece one cell to the right.
    pub open spec fn right_spec(self) -> Tetromino {
        Tetromino { x_offset: (self.x_offset + 1) as i64, ..self }
    }

    /// The same piece at the given row.
    pub open spec fn at_row_spec(self, y: int) -> Tetromino {
        Tetromino { y_offset: y as i64, ..self }
    }

    /// Rotate the mask a quarter turn clockwise in place; the O shape is
    /// rotation-invariant and left untouched.
    pub fn rotate_right(&mut self)
        requires
            mask_wf(old(self).blocks@),
        ensures
            final(self).name == old(self).name,
            final(self).x_offset == old(self).x_offset,
            final(self).y_offset == old(self).y_offset,
            final(self).blocks@ == if old(self).name == Shape::O {
                old(self).blocks@
            } else {
                rot_right(old(self).blocks@)
            },
            mask_wf(final(self).blocks@),
    {
        if self.name == Shape::O {
            return ;
        }
        let ghost m = self.blocks@;
        let mut nb: Vec<u8> = Vec::new();
        let mut r: usize = 0;
        while r < 4
            invariant
                mask_wf(m),
                self.blocks@ == m,
                r <= 4,
                nb@.len() == r * 4,
                forall|i: int| 0 <= i < nb@.len() ==> nb@[i] == rot_right(m)[i],
            decreases 4 - r,
        {
            let mut c: usize = 0;
            while c < 4
                invariant
                    mask_wf(m),
                    self.blocks@ == m,
                    r < 4,
                    c <= 4,
                    nb@.len() == r * 4 + c,
                    forall|i: int| 0 <= i < nb@.len() ==> nb@[i] == rot_right(m)[i],
                decreases 4 - c,
            {
                nb.push(self.blocks[(3 - c) * 4 + r]);
                proof {
                    lemma_rot_right_cell(m, r as int, c as int);
                    lemma_midx_decompose(3 - c as int, r as int);
                }
                c += 1;
            }
            r += 1;
        }
        proof {
            lemma_rot_right_wf(m);
            assert(nb@ =~= rot_right(m));
        }
        self.blocks = nb;
    }

    /// Rotate the mask a quarter turn counterclockwise in place; the O shape
    /// is rotation-invariant and left untouched.
    pub fn rotate_left(&mut self)
        requires
            mask_wf(old(self).blocks@),
        ensures
            final(self).name == old(self).name,
            final(self).x_offset == old(self).x_offset,
            final(self).y_offset == old(self).y_offset,
            final(self).blocks@ == if old(self).name == Shape::O {
                old(self).blocks@
            } else {
                rot_left(old(self).blocks@)
            },
            mask_wf(final(self).blocks@),
    {
        if self.name == Shape::O {
            return ;
        }
        let ghost m = self.blocks@;
        let mut nb: Vec<u8> = Vec::new();
        let mut r: usize = 0;
        while r < 4
            invariant
                mask_wf(m),
                self.blocks@ == m,
                r <= 4,
                nb@.len() == r * 4,
                forall|i: int| 0 <= i < nb@.len() ==> nb@[i] == rot_left(m)[i],
            decreases 4 - r,
        {
            let mut c: usize = 0;
            while c < 4
                invariant
                    mask_wf(m),
                    self.blocks@ == m,
                    r < 4,
                    c <= 4,
                    nb@.len() == r * 4 + c,
                    forall|i: int| 0 <= i < nb@.len() ==> nb@[i] == rot_left(m)[i],
                decreases 4 - c,
            {
                nb.push(self.blocks[c * 4 + (3 - r)]);
                proof {
                    lemma_rot_left_cell(m, r as int, c as int);
                    lemma_midx_decompose(c as int, 3 - r as int);
                }
                c += 1;
            }
            r += 1;
        }
        proof {
            lemma_rot_left_wf(m);
            assert(nb@ =~= rot_left(m));
        }
        self.blocks = nb;
    }

    /// Number of mask rows that hold at least one occupied cell.
    pub fn block_height(&self) -> (h: i64)
        requires
            mask_wf(self.blocks@),
        ensures
            h == height_of(self.blocks@),
            0 <= h <= 4,
    {
        proof {
            lemma_occ_counts_bounds(self.blocks@, 4);
        }
        let mut height: i64 = 0;
        let mut r: usize = 0;
        while r < 4
            invariant
                mask_wf(self.blocks@),
                r <= 4,
                height == occ_rows_upto(self.blocks@, r as int),
                0 <= height <= r,
            decreases 4 - r,
        {
            if row_is_occupied(&self.blocks, r) {
                height += 1;
            }
            r += 1;
        }
        height
    }

    /// Number of mask columns that hold at least one occupied cell.
    pub fn block_width(&self) -> (w: i64)
        requires
            mask_wf(self.blocks@),
        ensures
            w == width_of(self.blocks@),
            0 <= w <= 4,
    {
        proof {
            lemma_occ_counts_bounds(self.blocks@, 4);
        }
        let mut width: i64 = 0;
        let mut c: usize = 0;
        while c < 4
            invariant
                mask_wf(self.blocks@),
                c <= 4,
                width == occ_cols_upto(self.blocks@, c as int),
                0 <= width <= c,
            decreases 4 - c,
        {
            if col_is_occupied(&self.blocks, c) {
                width += 1;
            }
            c += 1;
        }
        width
    }

    /// Board column of the leftmost occupied cell.
    pub fn leftmost(&self) -> (l: i64)
        requires
            mask_wf(self.blocks@),
            self.x_offset <= i64::MAX - 3,
        ensures
            l == self.leftmost_spec(),
    {
        let mut c: usize = 0;
        while c < 3
            invariant
                mask_wf(self.blocks@),
                c <= 3,
                self.x_offset <= i64::MAX - 3,
                min_col(self.blocks@) == first_col_from(self.blocks@, c as int),
            decreases 3 - c,
        {
            if col_is_occupied(&self.blocks, c) {
                return (c as i64) + self.x_offset;
            }
            c += 1;
        }
        3 + self.x_offset
    }

    /// Board row of the topmost occupied cell.
    pub fn topmost(&self) -> (t: i64)
        requires
            mask_wf(self.blocks@),
            self.y_offset <= i64::MAX - 3,
        ensures
            t == self.topmost_spec(),
    {
        let mut r: usize = 0;
        while r < 3
            invariant
                mask_wf(self.blocks@),
                r <= 3,
                self.y_offset <= i64::MAX - 3,
                min_row(self.blocks@) == first_row_from(self.blocks@, r as int),
            decreases 3 - r,
        {
            if row_is_occupied(&self.blocks, r) {
                return (r as i64) + self.y_offset;
            }
            r += 1;
        }
        3 + self.y_offset
    }

    /// Board column of the rightmost occupied cell.
    pub fn rightmost(&self) -> (rc: i64)
        requires
            mask_wf(self.blocks@),
            i64::MIN + 1 <= self.x_offset <= i64::MAX - 7,
        ensures
            rc == self.rightmost_spec(),
    {
        proof {
            lemma_first_col_from_char(self.blocks@, 0);
        }
        self.leftmost() + self.block_width() - 1
    }

    /// Board row of the bottommost occupied cell.
    pub fn bottommost(&self) -> (b: i64)
        requires
            mask_wf(self.blocks@),
            i64::MIN + 1 <= self.y_offset <= i64::MAX - 7,
        ensures
            b == self.bottommost_spec(),
    {
        proof {
            lemma_first_row_from_char(self.blocks@, 0);
        }
        self.topmost() + self.block_height() - 1
    }

    /// Move the piece one cell down.
    pub fn move_down(&mut self)
        requires
            old(self).y_offset < i64::MAX,
        ensures
            *final(self) == old(self).dropped_spec(),
    {
        self.y_offset += 1;
    }

    /// Move the piece one cell to the left.
    pub fn move_left(&mut self)
        requires
            old(self).x_offset > i64::MIN,
        ensures
            *final(self) == old(self).left_spec(),
    {
        self.x_offset -= 1;
    }

    /// Move the piece one cell to the right.
    pub fn move_right(&mut self)
        requires
            old(self).x_offset < i64::MAX,
        ensures
            *final(self) == old(self).right_spec(),
    {
        self.x_offset += 1;
    }

    /// An identical copy of the piece.
    pub fn duplicate(&self) -> (t: Tetromino)
        ensures
            t.name == self.name,
            t.blocks@ == self.blocks@,
            t.x_offset == self.x_offset,
            t.y_offset == self.y_offset,
    {
        let mut nb: Vec<u8> = Vec::new();
        let mut i: usize = 0;
        while i < self.blocks.len()
            invariant
                i <= self.blocks@.len(),
                nb@ == self.blocks@.subrange(0, i as int),
            decreases self.blocks@.len() - i,
        {
            nb.push(self.blocks[i]);
            i += 1;
        }
        proof {
            assert(nb@ =~= self.blocks@);
        }
        Tetromino { name: self.name, blocks: nb, x_offset: self.x_offset, y_offset: self.y_offset }
    }
}

/// The occupancy mask each shape spawns with.
pub open spec fn spawn_mask(s: Shape) -> Seq<u8> {
    match s {
        Shape::I => seq![0u8, 1, 0, 0, 0, 1, 0, 0, 0, 1, 0, 0, 0, 1, 0, 0],
        Shape::J => seq![0u8, 1, 0, 0, 0, 1, 0, 0, 1, 1, 0, 0, 0, 0, 0, 0],
        Shape::L => seq![0u8, 1, 0, 0, 0, 1, 0, 0, 0, 1, 1, 0, 0, 0, 0, 0],
        Shape::O => seq![1u8, 1, 0, 0, 1, 1, 0, 0, 0, 0, 0, 0, 0, 0, 0, 0],
        Shape::S => seq![0u8, 0, 0, 0, 0, 1, 1, 0, 1, 1, 0, 0, 0, 0, 0, 0],
        Shape::T => seq![0u8, 0, 0, 0, 1, 1, 1, 0, 0, 1, 0, 0, 0, 0, 0, 0],
        Shape::Z => seq![0u8, 0, 0, 0, 1, 1, 0, 0, 0, 1, 1, 0, 0, 0, 0, 0],
    }
}

/// The column each shape spawns at: centered on a ten-column board.
pub open spec fn spawn_x(s: Shape) -> int {
    if s == Shape::O {
        4
    } else {
        3
    }
}

/// The piece is in the state the bag hands out: its shape's spawn mask at the
/// spawn column of the top row.
pub open spec fn is_spawn_for(t: Tetromino) -> bool {
    &&& t.blocks@ == spawn_mask(t.name)
    &&& t.x_offset == spawn_x(t.name)
    &&& t.y_offset == 0
}

/// Every spawn mask is well formed, nonempty and contiguous, and sits inside
/// the top four rows and, at its spawn column, inside the board's columns.
pub proof fn lemma_spawn_piece_props(s: Shape)
    ensures
        mask_wf(spawn_mask(s)),
        mask_nonempty(spawn_mask(s)),
        rows_contiguous(spawn_mask(s)),
        cols_contiguous(spawn_mask(s)),
        min_row(spawn_mask(s)) == 0 || min_row(spawn_mask(s)) == 1,
        max_row(spawn_mask(s)) <= 3,
        min_col(spawn_mask(s)) + spawn_x(s) >= 3,
        max_col(spawn_mask(s)) + spawn_x(s) <= 5,
{
    let m = spawn_mask(s);
    match s {
        Shape::I => {
            assert(occ(m, 0, 1) && occ(m, 1, 1) && occ(m, 2, 1) && occ(m, 3, 1));
            assert(!col_occ(m, 0) && !col_occ(m, 2) && !col_occ(m, 3));
            lemma_first_row_from_det(m, 0, 0);
            lemma_last_row_from_det(m, 3, 3);
            lemma_first_col_from_det(m, 0, 1);
            lemma_last_col_from_det(m, 3, 1);
            assert(mask_wf(m));
            assert(rows_contiguous(m));
            assert(cols_contiguous(m));
        },
        Shape::J => {
            assert(occ(m, 0, 1) && occ(m, 1, 1) && occ(m, 2, 0) && occ(m, 2, 1));
            assert(!row_occ(m, 3));
            assert(!col_occ(m, 2) && !col_occ(m, 3));
            lemma_first_row_from_det(m, 0, 0);
            lemma_last_row_from_det(m, 3, 2);
            lemma_first_col_from_det(m, 0, 0);
            lemma_last_col_from_det(m, 3, 1);
            assert(mask_wf(m));
            assert(rows_contiguous(m));
            assert(cols_contiguous(m));
        },
        Shape::L => {
            assert(occ(m, 0, 1) && occ(m, 1, 1) && occ(m, 2, 1) && occ(m, 2, 2));
            assert(!row_occ(m, 3));
            assert(!col_occ(m, 0) && !col_occ(m, 3));
            lemma_first_row_from_det(m, 0, 0);
            lemma_last_row_from_det(m, 3, 2);
            lemma_first_col_from_det(m, 0, 1);
            lemma_last_col_from_det(m, 3, 2);
            assert(mask_wf(m));
            assert(rows_contiguous(m));
            assert(cols_contiguous(m));
        },
        Shape::O => {
            assert(occ(m, 0, 0) && occ(m, 0, 1) && occ(m, 1, 0) && occ(m, 1, 1));
            assert(!row_occ(m, 2) && !row_occ(m, 3));
            assert(!col_occ(m, 2) && !col_occ(m, 3));
            lemma_first_row_from_det(m, 0, 0);
            lemma_last_row_from_det(m, 3, 1);
            lemma_first_col_from_det(m, 0, 0);
            lemma_last_col_from_det(m, 3, 1);
            assert(mask_wf(m));
            assert(rows_contiguous(m));
            assert(cols_contiguous(m));
        },
        Shape::S => {
            assert(occ(m, 1, 1) && occ(m, 1, 2) && occ(m, 2, 0) && occ(m, 2, 1));
            assert(!row_occ(m, 0) && !row_occ(m, 3));
            assert(!col_occ(m, 3));
            lemma_first_row_from_det(m, 0, 1);
            lemma_last_row_from_det(m, 3, 2);
            lemma_first_col_from_det(m, 0, 0);
            lemma_last_col_from_det(m, 3, 2);
            assert(mask_wf(m));
            assert(rows_contiguous(m));
            assert(cols_contiguous(m));
        },
        Shape::T => {
            assert(occ(m, 1, 0) && occ(m, 1, 1) && occ(m, 1, 2) && occ(m, 2, 1));
            assert(!row_occ(m, 0) && !row_occ(m, 3));
            assert(!col_occ(m, 3));
            lemma_first_row_from_det(m, 0, 1);
            lemma_last_row_from_det(m, 3, 2);
            lemma_first_col_from_det(m, 0, 0);
            lemma_last_col_from_det(m, 3, 2);
            assert(mask_wf(m));
            assert(rows_contiguous(m));
            assert(cols_contiguous(m));
        },
        Shape::Z => {
            assert(occ(m, 1, 0) && occ(m, 1, 1) && occ(m, 2, 1) && occ(m, 2, 2));
            assert(!row_occ(m, 0) && !row_occ(m, 3));
            assert(!col_occ(m, 3));
            lemma_first_row_from_det(m, 0, 1);
            lemma_last_row_from_det(m, 3, 2);
            lemma_first_col_from_det(m, 0, 0);
            lemma_last_col_from_det(m, 3, 2);
            assert(mask_wf(m));
            assert(rows_contiguous(m));
            assert(cols_contiguous(m));
        },
    }
}

/// Build the spawn-state piece for a shape.
pub fn tetromino_for_shape(s: Shape) -> (t: Tetromino)
    ensures
        t.name == s,
        is_spawn_for(t),
        t.wf(),
{
    proof {
        lemma_spawn_piece_props(s);
    }
    let blocks: Vec<u8> = match s {
        Shape::I => vec![0u8, 1, 0, 0, 0, 1, 0, 0, 0, 1, 0, 0, 0, 1, 0, 0],
        Shape::J => vec![0u8, 1, 0, 0, 0, 1, 0, 0, 1, 1, 0, 0, 0, 0, 0, 0],
        Shape::L => vec![0u8, 1, 0, 0, 0, 1, 0, 0, 0, 1, 1, 0, 0, 0, 0, 0],
        Shape::O => vec![1u8, 1, 0, 0, 1, 1, 0, 0, 0, 0, 0, 0, 0, 0, 0, 0],
        Shape::S => vec![0u8, 0, 0, 0, 0, 1, 1, 0, 1, 1, 0, 0, 0, 0, 0, 0],
        Shape::T => vec![0u8, 0, 0, 0, 1, 1, 1, 0, 0, 1, 0, 0, 0, 0, 0, 0],
        Shape::Z => vec![0u8, 0, 0, 0, 1, 1, 0, 0, 0, 1, 1, 0, 0, 0, 0, 0],
    };
    proof {
        assert(blocks@ =~= spawn_mask(s));
    }
    let x: i64 = if s == Shape::O {
        4
    } else {
        3
    };
    Tetromino { name: s, blocks, x_offset: x, y_offset: 0 }
}

/// Whether mask row r holds at least one occupied cell.
fn row_is_occupied(blocks: &Vec<u8>, r: usize) -> (b: bool)
    requires
        mask_wf(blocks@),
        r < 4,
    ensures
        b == row_occ(blocks@, r as int),
{
    blocks[r * 4] == 1 || blocks[r * 4 + 1] == 1 || blocks[r * 4 + 2] == 1 || blocks[r * 4 + 3]
        == 1
}

/// Whether mask column c holds at least one occupied cell.
fn col_is_occupied(blocks: &Vec<u8>, c: usize) -> (b: bool)
    requires
        mask_wf(blocks@),
        c < 4,
    ensures
        b == col_occ(blocks@, c as int),
{
    blocks[c] == 1 || blocks[4 + c] == 1 || blocks[8 + c] == 1 || blocks[12 + c] == 1
}

} // verus!
