//! The grid validator: infers the rows and columns of an animation from the
//! cells that its frames name, and checks that no row and no column is
//! missing.
//!
//! Rows are visited from 1 upwards. A row is complete when it has frames, the
//! largest column among them equals their number, and that number is the one
//! of row 1. The first row that is not complete decides the outcome: if it has
//! no frames and the rows before it hold every frame, the grid ends there;
//! otherwise the set is rejected.
//!
//! A grid has at most `u32::MAX` rows and columns. A frame whose row is
//! beyond that lies beyond every row, so the grid cannot end before it; one
//! whose column is beyond that makes its row's largest column differ from
//! every number of frames.

use vstd::prelude::*;
use vstd::arithmetic::div_mod::lemma_fundamental_div_mod_converse;
use vstd::relations::injective_on;
use vstd::seq_lib::seq_to_set_is_finite;
use vstd::set_lib::{lemma_int_range, lemma_map_size, lemma_subset_equality, set_int_range};
use crate::filename::{accepted_frames, collect_frames, frame_name_of, names_view, FrameName};

verus! {

/// The rows and columns of a validated grid.
#[derive(Clone, Copy, Debug, PartialEq, Eq, Structural)]
pub struct GridShape {
    pub rows: u32,
    pub columns: u32,
}

/// Why a set of frames is not a grid.
#[derive(Clone, Copy, Debug, PartialEq, Eq, Structural)]
pub enum GridError {
    /// No frame is in row 1.
    MissingFirstRow,
    /// The largest column of a row differs from the number of its frames, or
    /// is beyond `u32::MAX`, in which case `largest` is `BEYOND`.
    ColumnSkip { row: u64, largest: u64, length: u64 },
    /// A row has no frames although frames remain beyond the rows before it.
    MissingRow { row: u64 },
    /// A row has another number of frames than row 1.
    ColumnCountMismatch { row: u64, expected: u64, found: u64 },
}

/// Whether every frame names a cell that a frame name can name.
pub open spec fn all_wf(frames: Seq<FrameName>) -> bool {
    forall|i: int| 0 <= i < frames.len() ==> (#[trigger] frames[i]).wf()
}

/// The number of frames in `row`.
pub open spec fn row_count(frames: Seq<FrameName>, row: int) -> nat
    decreases frames.len(),
{
    if frames.len() == 0 {
        0
    } else {
        row_count(frames.drop_last(), row) + if frames.last().row == row {
            1nat
        } else {
            0nat
        }
    }
}

/// The largest column among the frames in `row`; 0 if it has none.
pub open spec fn row_largest(frames: Seq<FrameName>, row: int) -> nat
    decreases frames.len(),
{
    if frames.len() == 0 {
        0
    } else {
        let rest = row_largest(frames.drop_last(), row);
        if frames.last().row == row && frames.last().column > rest {
            frames.last().column as nat
        } else {
            rest
        }
    }
}

/// The number of frames in the rows before `row`.
pub open spec fn count_before(frames: Seq<FrameName>, row: int) -> nat
    decreases frames.len(),
{
    if frames.len() == 0 {
        0
    } else {
        count_before(frames.drop_last(), row) + if frames.last().row < row {
            1nat
        } else {
            0nat
        }
    }
}

/// A row is complete when it is a row that a grid can have, it has frames,
/// their largest column equals their number and is a column that a grid can
/// have, and row 1 has as many.
pub open spec fn row_complete(frames: Seq<FrameName>, row: int) -> bool {
    &&& 1 <= row <= u32::MAX
    &&& row_count(frames, row) > 0
    &&& row_largest(frames, row) == row_count(frames, row)
    &&& row_largest(frames, row) <= u32::MAX
    &&& row_count(frames, row) == row_count(frames, 1)
}

/// The first row from `from` upwards that is not complete.
pub open spec fn first_incomplete_row(frames: Seq<FrameName>, from: int) -> int
    decreases u32::MAX + 1 - from,
{
    if from <= u32::MAX && row_complete(frames, from) {
        first_incomplete_row(frames, from + 1)
    } else {
        from
    }
}

/// What the validator finds at `row`, the first row that is not complete.
pub open spec fn outcome_at(frames: Seq<FrameName>, row: int) -> Result<GridShape, GridError> {
    let columns = row_count(frames, 1);
    let length = row_count(frames, row);
    let largest = row_largest(frames, row);
    if length == 0 {
        if row == 1 {
            Err(GridError::MissingFirstRow)
        } else if (row - 1) * columns == frames.len() {
            Ok(GridShape { rows: (row - 1) as u32, columns: columns as u32 })
        } else {
            Err(GridError::MissingRow { row: row as u64 })
        }
    } else if largest != length || largest > u32::MAX {
        Err(GridError::ColumnSkip { row: row as u64, largest: largest as u64, length: length as u64 })
    } else {
        Err(
            GridError::ColumnCountMismatch {
                row: row as u64,
                expected: columns as u64,
                found: length as u64,
            },
        )
    }
}

/// What the validator finds in a set of frames.
pub open spec fn grid_outcome(frames: Seq<FrameName>) -> Result<GridShape, GridError> {
    outcome_at(frames, first_incomplete_row(frames, 1))
}

/// Whether every frame lies in a grid of the given shape.
pub open spec fn all_within(frames: Seq<FrameName>, shape: GridShape) -> bool {
    forall|i: int|
        0 <= i < frames.len() ==> 1 <= (#[trigger] frames[i]).row <= shape.rows && 1
            <= frames[i].column <= shape.columns
}

/// The frames of a row and of the rows before it make up the frames before
/// the next row.
pub proof fn lemma_count_before_next(frames: Seq<FrameName>, row: int)
    ensures
        count_before(frames, row + 1) == count_before(frames, row) + row_count(frames, row),
    decreases frames.len(),
{
    if frames.len() > 0 {
        lemma_count_before_next(frames.drop_last(), row);
    }
}

/// No row holds more frames than there are, nor do the rows before a row.
pub proof fn lemma_counts_bounded(frames: Seq<FrameName>, row: int)
    ensures
        row_count(frames, row) <= frames.len(),
        count_before(frames, row) <= frames.len(),
        row_largest(frames, row) <= u64::MAX,
    decreases frames.len(),
{
    if frames.len() > 0 {
        lemma_counts_bounded(frames.drop_last(), row);
    }
}

/// A row that has frames has a number that a frame can hold. A row without
/// frames has no largest column. Where the frames are well formed, no frame
/// lies before row 1 and none in a row between `u32::MAX` and `BEYOND`.
pub proof fn lemma_row_with_frames(frames: Seq<FrameName>, row: int)
    ensures
        row_count(frames, row) > 0 ==> 0 <= row <= u64::MAX,
        row_count(frames, row) == 0 ==> row_largest(frames, row) == 0,
        all_wf(frames) ==> count_before(frames, 1) == 0,
        all_wf(frames) && u32::MAX < row < u64::MAX ==> row_count(frames, row) == 0,
    decreases frames.len(),
{
    if frames.len() > 0 {
        assert(all_wf(frames) ==> all_wf(frames.drop_last())) by {
            if all_wf(frames) {
                assert forall|i: int| 0 <= i < frames.drop_last().len() implies (
                #[trigger] frames.drop_last()[i]).wf() by {
                    assert(frames[i].wf());
                }
            }
        }
        if all_wf(frames) {
            assert(frames[frames.len() - 1].wf());
        }
        lemma_row_with_frames(frames.drop_last(), row);
    }
}

/// Where the rows before `row` hold every frame, every frame is in one of them.
pub proof fn lemma_all_before(frames: Seq<FrameName>, row: int)
    requires
        count_before(frames, row) == frames.len(),
    ensures
        forall|i: int| 0 <= i < frames.len() ==> (#[trigger] frames[i]).row < row,
    decreases frames.len(),
{
    if frames.len() > 0 {
        lemma_counts_bounded(frames.drop_last(), row);
        lemma_all_before(frames.drop_last(), row);
        assert forall|i: int| 0 <= i < frames.len() implies (#[trigger] frames[i]).row < row by {
            if i < frames.len() - 1 {
                assert(frames.drop_last()[i] == frames[i]);
            }
        }
    }
}

/// No frame of a row has a column beyond the row's largest.
pub proof fn lemma_largest_bounds(frames: Seq<FrameName>, row: int)
    ensures
        forall|i: int|
            0 <= i < frames.len() && (#[trigger] frames[i]).row == row ==> frames[i].column
                <= row_largest(frames, row),
    decreases frames.len(),
{
    if frames.len() > 0 {
        lemma_largest_bounds(frames.drop_last(), row);
        assert forall|i: int| 0 <= i < frames.len() && (#[trigger] frames[i]).row == row implies frames[i].column
            <= row_largest(frames, row) by {
            if i < frames.len() - 1 {
                assert(frames.drop_last()[i] == frames[i]);
            }
        }
    }
}

/// The row that decides the outcome is the least row that is not complete:
/// every row from `from` up to it is complete, and it is not.
pub proof fn lemma_first_incomplete_row(frames: Seq<FrameName>, from: int)
    requires
        1 <= from,
    ensures
        from <= first_incomplete_row(frames, from),
        from <= u32::MAX + 1 ==> first_incomplete_row(frames, from) <= u32::MAX + 1,
        !row_complete(frames, first_incomplete_row(frames, from)),
        forall|row: int|
            from <= row < first_incomplete_row(frames, from) ==> #[trigger] row_complete(
                frames,
                row,
            ),
    decreases u32::MAX + 1 - from,
{
    if from <= u32::MAX && row_complete(frames, from) {
        lemma_first_incomplete_row(frames, from + 1);
    }
}

/// The outcome is decided at the least row that is not complete: where every
/// row before `row` is complete and `row` is not, the validator finds what
/// `outcome_at` says of `row`.
pub proof fn lemma_outcome_decided_at(frames: Seq<FrameName>, row: int)
    requires
        1 <= row,
        forall|k: int| 1 <= k < row ==> #[trigger] row_complete(frames, k),
        !row_complete(frames, row),
    ensures
        first_incomplete_row(frames, 1) == row,
        grid_outcome(frames) == outcome_at(frames, row),
{
    lemma_first_incomplete_row(frames, 1);
    let first = first_incomplete_row(frames, 1);
    if first < row {
        assert(row_complete(frames, first));
    } else if row < first {
        assert(row_complete(frames, row));
    }
}

/// Without frames in row 1 the first row is missing.
pub proof fn lemma_missing_first_row(frames: Seq<FrameName>)
    requires
        row_count(frames, 1) == 0,
    ensures
        grid_outcome(frames) == Err::<GridShape, GridError>(GridError::MissingFirstRow),
{
    lemma_outcome_decided_at(frames, 1);
}

/// A row without frames, behind complete rows and with a frame beyond it, is
/// a missing row: the frames beyond it show that the grid does not end there.
pub proof fn lemma_missing_row(frames: Seq<FrameName>, row: int, beyond: int)
    requires
        all_wf(frames),
        2 <= row,
        forall|k: int| 1 <= k < row ==> #[trigger] row_complete(frames, k),
        row_count(frames, row) == 0,
        0 <= beyond < frames.len(),
        frames[beyond].row > row,
    ensures
        grid_outcome(frames) == Err::<GridShape, GridError>(
            GridError::MissingRow { row: row as u64 },
        ),
{
    lemma_outcome_decided_at(frames, row);
    lemma_complete_rows_count(frames, row);
    lemma_counts_bounded(frames, row);
    if count_before(frames, row) == frames.len() {
        lemma_all_before(frames, row);
    }
}

/// A row with frames whose largest column is not their number, or is
/// beyond `u32::MAX`, behind complete rows, is a column skip.
pub proof fn lemma_column_skip(frames: Seq<FrameName>, row: int)
    requires
        1 <= row,
        forall|k: int| 1 <= k < row ==> #[trigger] row_complete(frames, k),
        row_count(frames, row) > 0,
        row_largest(frames, row) != row_count(frames, row) || row_largest(frames, row) > u32::MAX,
    ensures
        grid_outcome(frames) == Err::<GridShape, GridError>(
            GridError::ColumnSkip {
                row: row as u64,
                largest: row_largest(frames, row) as u64,
                length: row_count(frames, row) as u64,
            },
        ),
{
    lemma_outcome_decided_at(frames, row);
}

/// A row with frames in columns 1 to their number, but another number than
/// row 1 has, behind complete rows, is a column count mismatch.
pub proof fn lemma_column_count_mismatch(frames: Seq<FrameName>, row: int)
    requires
        2 <= row,
        forall|k: int| 1 <= k < row ==> #[trigger] row_complete(frames, k),
        row_count(frames, row) > 0,
        row_largest(frames, row) == row_count(frames, row),
        row_largest(frames, row) <= u32::MAX,
        row_count(frames, row) != row_count(frames, 1),
    ensures
        grid_outcome(frames) == Err::<GridShape, GridError>(
            GridError::ColumnCountMismatch {
                row: row as u64,
                expected: row_count(frames, 1) as u64,
                found: row_count(frames, row) as u64,
            },
        ),
{
    lemma_outcome_decided_at(frames, row);
}

/// Complete rows hold as many frames as row 1 each: where every row before
/// `row` is complete, the frames before `row` are `row - 1` times those of
/// row 1.
pub proof fn lemma_complete_rows_count(frames: Seq<FrameName>, row: int)
    requires
        all_wf(frames),
        1 <= row,
        forall|k: int| 1 <= k < row ==> #[trigger] row_complete(frames, k),
    ensures
        count_before(frames, row) == (row - 1) * row_count(frames, 1),
    decreases row,
{
    if row == 1 {
        lemma_row_with_frames(frames, 1);
    } else {
        lemma_complete_rows_count(frames, row - 1);
        lemma_count_before_next(frames, row - 1);
        assert(row_complete(frames, row - 1));
        let columns = row_count(frames, 1) as int;
        assert((row - 2) * columns + columns == (row - 1) * columns) by (nonlinear_arith);
    }
}

/// A validated grid has as many cells as there are frames, and holds them
/// all: where the validator finds a shape, the shape's rows times its columns
/// are the number of frames, every frame lies inside the shape, and every row
/// of the shape has as many frames as the shape has columns, the largest
/// column among them being that number.
pub proof fn lemma_valid_grid(frames: Seq<FrameName>, shape: GridShape)
    requires
        all_wf(frames),
        grid_outcome(frames) == Ok::<GridShape, GridError>(shape),
    ensures
        shape.rows * shape.columns == frames.len(),
        shape.rows >= 1,
        shape.columns >= 1,
        all_within(frames, shape),
        forall|row: int|
            1 <= row <= shape.rows ==> #[trigger] row_count(frames, row) == shape.columns
                && row_largest(frames, row) == shape.columns,
        row_count(frames, shape.rows + 1) == 0,
{
    let end = first_incomplete_row(frames, 1);
    lemma_first_incomplete_row(frames, 1);
    lemma_counts_bounded(frames, 1);
    lemma_complete_rows_count(frames, end);
    lemma_all_before(frames, end);
    assert(row_complete(frames, 1));
    assert forall|i: int| 0 <= i < frames.len() implies 1 <= (#[trigger] frames[i]).row
        <= shape.rows && 1 <= frames[i].column <= shape.columns by {
        assert(frames[i].wf());
        lemma_largest_bounds(frames, frames[i].row as int);
        assert(row_complete(frames, frames[i].row as int));
    }
    assert forall|row: int| 1 <= row <= shape.rows implies #[trigger] row_count(frames, row)
        == shape.columns && row_largest(frames, row) == shape.columns by {
        assert(row_complete(frames, row));
    }
}

/// The number of a cell when the cells of a grid are counted row by row,
/// from 0.
pub open spec fn cell_number(cell: FrameName, columns: int) -> int {
    (cell.row - 1) * columns + (cell.column - 1)
}

/// The cells of a grid have numbers from 0 up to the number of cells, and
/// a cell's number tells its row and its column.
pub proof fn lemma_cell_number(cell: FrameName, shape: GridShape)
    requires
        1 <= cell.row <= shape.rows,
        1 <= cell.column <= shape.columns,
    ensures
        0 <= cell_number(cell, shape.columns as int) < shape.rows * shape.columns,
        cell_number(cell, shape.columns as int) / (shape.columns as int) == cell.row - 1,
        cell_number(cell, shape.columns as int) % (shape.columns as int) == cell.column - 1,
{
    let columns = shape.columns as int;
    let rows = shape.rows as int;
    let r = cell.row - 1;
    let c = cell.column - 1;
    assert(0 <= r * columns + c < rows * columns) by (nonlinear_arith)
        requires
            0 <= r < rows,
            0 <= c < columns,
    ;
    lemma_fundamental_div_mod_converse(cell_number(cell, columns), columns, r, c);
}

/// Whether every cell of a grid of the given shape is named by a frame.
pub open spec fn fills(frames: Seq<FrameName>, shape: GridShape) -> bool {
    forall|cell: FrameName|
        1 <= cell.row <= shape.rows && 1 <= cell.column <= shape.columns
            ==> #[trigger] frames.contains(cell)
}

/// A validated grid is rectangular and has no gaps: where no two frames name
/// the same cell and the validator finds a shape, every cell of that shape is
/// named by a frame.
pub proof fn lemma_grid_is_full(frames: Seq<FrameName>, shape: GridShape)
    requires
        all_wf(frames),
        frames.no_duplicates(),
        grid_outcome(frames) == Ok::<GridShape, GridError>(shape),
    ensures
        fills(frames, shape),
{
    broadcast use seq_to_set_is_finite;

    lemma_valid_grid(frames, shape);
    let columns = shape.columns as int;
    let cells = shape.rows * shape.columns;
    let named = frames.to_set();
    let number = |cell: FrameName| cell_number(cell, columns);
    let numbers = named.map(number);
    frames.unique_seq_to_set();
    assert forall|cell: FrameName| named.contains(cell) implies 1 <= cell.row <= shape.rows && 1
        <= cell.column <= shape.columns by {
        let i = choose|i: int| 0 <= i < frames.len() && frames[i] == cell;
        assert(1 <= frames[i].row <= shape.rows);
    }
    assert(injective_on(number, named)) by {
        assert forall|x: FrameName, y: FrameName|
            named.contains(x) && named.contains(y) && #[trigger] number(x) == #[trigger] number(
                y,
            ) implies x == y by {
            lemma_cell_number(x, shape);
            lemma_cell_number(y, shape);
        }
    }
    lemma_map_size(named, numbers, number);
    lemma_int_range(0, cells);
    assert(numbers.subset_of(set_int_range(0, cells))) by {
        assert forall|n: int| numbers.contains(n) implies set_int_range(0, cells).contains(n) by {
            let cell = choose|cell: FrameName| named.contains(cell) && n == number(cell);
            lemma_cell_number(cell, shape);
        }
    }
    lemma_subset_equality(numbers, set_int_range(0, cells));
    assert forall|cell: FrameName|
        1 <= cell.row <= shape.rows && 1 <= cell.column
            <= shape.columns implies #[trigger] frames.contains(cell) by {
        lemma_cell_number(cell, shape);
        assert(set_int_range(0, cells).contains(number(cell)));
        assert(numbers.contains(number(cell)));
        let other = choose|other: FrameName| named.contains(other) && number(cell) == number(other);
        lemma_cell_number(other, shape);
        assert(other == cell);
        assert(named.contains(cell));
    }
}

/// A single row is a grid: the frames of columns 1 to `n` of row 1, with no
/// other frame, are validated as a grid of one row and `n` columns.
pub proof fn lemma_single_row_is_grid(frames: Seq<FrameName>)
    requires
        1 <= frames.len() <= u32::MAX,
        forall|i: int|
            0 <= i < frames.len() ==> #[trigger] frames[i] == (FrameName {
                row: 1,
                column: (i + 1) as u64,
            }),
    ensures
        grid_outcome(frames) == Ok::<GridShape, GridError>(
            GridShape { rows: 1, columns: frames.len() as u32 },
        ),
{
    lemma_row_in_order(frames);
    assert(row_complete(frames, 1));
    lemma_outcome_decided_at(frames, 2);
}

/// The frames of columns 1 to `n` of row 1, in this order, are `n` frames of
/// row 1 with `n` as their largest column, and no frames of another row.
proof fn lemma_row_in_order(frames: Seq<FrameName>)
    requires
        frames.len() <= u32::MAX,
        forall|i: int|
            0 <= i < frames.len() ==> #[trigger] frames[i] == (FrameName {
                row: 1,
                column: (i + 1) as u64,
            }),
    ensures
        row_count(frames, 1) == frames.len(),
        row_largest(frames, 1) == frames.len(),
        row_count(frames, 2) == 0,
    decreases frames.len(),
{
    if frames.len() > 0 {
        let rest = frames.drop_last();
        assert forall|i: int| 0 <= i < rest.len() implies #[trigger] rest[i] == (FrameName {
            row: 1,
            column: (i + 1) as u64,
        }) by {
            assert(rest[i] == frames[i]);
        }
        lemma_row_in_order(rest);
        assert(frames.last() == frames[frames.len() - 1]);
    }
}

/// Counts the frames of one row and finds the largest column among them.
fn scan_row(frames: &Vec<FrameName>, row: u64) -> (r: (usize, u64))
    ensures
        r.0 == row_count(frames@, row as int),
        r.1 == row_largest(frames@, row as int),
{
    let mut length: usize = 0;
    let mut largest: u64 = 0;
    let mut i: usize = 0;
    while i < frames.len()
        invariant
            i <= frames.len(),
            length <= i,
            length == row_count(frames@.take(i as int), row as int),
            largest == row_largest(frames@.take(i as int), row as int),
        decreases frames.len() - i,
    {
        proof {
            assert(frames@.take(i + 1).drop_last() =~= frames@.take(i as int));
            assert(frames@.take(i + 1).last() == frames@[i as int]);
        }
        let frame = frames[i];
        if frame.row == row {
            length = length + 1;
            if frame.column > largest {
                largest = frame.column;
            }
        }
        i = i + 1;
    }
    assert(frames@.take(frames.len() as int) =~= frames@);
    (length, largest)
}

/// Validates a set of frames. Returns the shape of the grid that they fill,
/// or the first violation met when the rows are visited from 1 upwards.
///
/// On success the frames are as many as the grid has cells, and each lies
/// inside the grid. Where no two of them name the same cell, every cell of
/// the grid is named: the grid has no gaps.
pub fn check_grid(frames: &Vec<FrameName>) -> (r: Result<GridShape, GridError>)
    requires
        all_wf(frames@),
    ensures
        r == grid_outcome(frames@),
        r is Ok ==> r->Ok_0.rows * r->Ok_0.columns == frames@.len(),
        r is Ok ==> r->Ok_0.rows >= 1 && r->Ok_0.columns >= 1,
        r is Ok ==> all_within(frames@, r->Ok_0),
        r is Ok && frames@.no_duplicates() ==> fills(frames@, r->Ok_0),
{
    let total: usize = frames.len();
    let mut row_no: u64 = 1;
    let mut columns: u32 = 0;
    proof {
        lemma_row_with_frames(frames@, 1);
    }
    loop
        invariant
            total == frames@.len(),
            all_wf(frames@),
            1 <= row_no <= 0x1_0000_0000,
            first_incomplete_row(frames@, 1) == first_incomplete_row(frames@, row_no as int),
            row_no >= 2 ==> columns == row_count(frames@, 1) && columns >= 1,
            count_before(frames@, row_no as int) == (row_no - 1) * columns,
            forall|i: int|
                0 <= i < frames@.len() && (#[trigger] frames@[i]).row < row_no
                    ==> frames@[i].column <= columns,
        decreases 0x1_0000_0000 - row_no,
    {
        let (length, largest) = scan_row(frames, row_no);
        proof {
            lemma_row_with_frames(frames@, row_no as int);
            lemma_counts_bounded(frames@, row_no as int);
            lemma_count_before_next(frames@, row_no as int);
            lemma_largest_bounds(frames@, row_no as int);
        }
        if length == 0 {
            assert(first_incomplete_row(frames@, row_no as int) == row_no);
            if row_no == 1 {
                return Err(GridError::MissingFirstRow);
            }
            let accounted: u128 = (row_no - 1) as u128 * columns as u128;
            if accounted == total as u128 {
                let shape = GridShape { rows: (row_no - 1) as u32, columns };
                proof {
                    lemma_all_before(frames@, row_no as int);
                    assert forall|i: int| 0 <= i < frames@.len() implies 1 <= (
                    #[trigger] frames@[i]).row <= row_no - 1 && 1 <= frames@[i].column
                        <= columns by {
                        assert(frames@[i].wf());
                    }
                    if frames@.no_duplicates() {
                        lemma_grid_is_full(frames@, shape);
                    }
                }
                return Ok(shape);
            }
            return Err(GridError::MissingRow { row: row_no });
        }
        assert(row_no <= u32::MAX);
        if largest != length as u64 || largest > 0xffff_ffff {
            assert(first_incomplete_row(frames@, row_no as int) == row_no);
            return Err(GridError::ColumnSkip { row: row_no, largest, length: length as u64 });
        }
        if row_no == 1 {
            columns = largest as u32;
        } else if largest != columns as u64 {
            assert(first_incomplete_row(frames@, row_no as int) == row_no);
            return Err(
                GridError::ColumnCountMismatch {
                    row: row_no,
                    expected: columns as u64,
                    found: largest,
                },
            );
        }
        assert(row_complete(frames@, row_no as int));
        assert((row_no - 1) * columns + columns == row_no * columns) by (nonlinear_arith);
        row_no = row_no + 1;
    }
}

/// Validates a listing of filenames: the names that are not frame names are
/// passed over, and the cells that the others name are validated as a grid.
/// Where no two names name the same cell, a validated grid has no gaps.
pub fn check_paths(image_paths: &Vec<String>) -> (r: Result<GridShape, GridError>)
    ensures
        r == grid_outcome(accepted_frames(names_view(image_paths@))),
        r is Ok ==> r->Ok_0.rows * r->Ok_0.columns == accepted_frames(
            names_view(image_paths@),
        ).len(),
        r is Ok ==> r->Ok_0.rows >= 1 && r->Ok_0.columns >= 1,
        r is Ok ==> all_within(accepted_frames(names_view(image_paths@)), r->Ok_0),
        r is Ok && accepted_frames(names_view(image_paths@)).no_duplicates() ==> fills(
            accepted_frames(names_view(image_paths@)),
            r->Ok_0,
        ),
{
    let frames = collect_frames(image_paths);
    check_grid(&frames)
}

/// The cells of frame names are cells that a frame name can name.
pub proof fn lemma_accepted_wf(names: Seq<Seq<char>>)
    ensures
        all_wf(accepted_frames(names)),
    decreases names.len(),
{
    if names.len() > 0 {
        lemma_accepted_wf(names.drop_last());
        let before = accepted_frames(names.drop_last());
        match frame_name_of(names.last()) {
            Some(cell) => {
                assert forall|i: int| 0 <= i < before.push(cell).len() implies (
                #[trigger] before.push(cell)[i]).wf() by {
                    if i < before.len() {
                        assert(before[i].wf());
                    }
                }
            },
            None => {},
        }
    }
}

/// A validated listing has as many frames as the grid has cells, and each
/// lies inside the grid, which has at least one row and one column.
pub proof fn lemma_valid_paths(names: Seq<Seq<char>>, shape: GridShape)
    requires
        grid_outcome(accepted_frames(names)) == Ok::<GridShape, GridError>(shape),
    ensures
        shape.rows * shape.columns == accepted_frames(names).len(),
        shape.rows >= 1,
        shape.columns >= 1,
        all_within(accepted_frames(names), shape),
{
    lemma_accepted_wf(names);
    lemma_valid_grid(accepted_frames(names), shape);
}

} // verus!
