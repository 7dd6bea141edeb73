//! The geometry of a spritesheet: the padded cell of a frame, the size of the
//! canvas, and the place of each frame on it.
//!
//! Each cell is a frame with `margin` pixels of padding on every side, so
//! that neighbouring frames do not bleed into each other when the sheet is
//! sampled. The margin lies inside the cell: cells touch each other.

use vstd::prelude::*;
use crate::dimension::FrameDimension;
use crate::filename::FrameName;
use crate::grid::GridShape;

verus! {

/// The pixel offset of a frame's top-left corner on the canvas.
#[derive(Clone, Copy, Debug, PartialEq, Eq, Structural)]
pub struct InsertionPoint {
    pub x: i64,
    pub y: i64,
}

/// The measures of a spritesheet.
#[derive(Clone, Copy, Debug, PartialEq, Eq, Structural)]
pub struct SheetLayout {
    /// The grid that the frames fill.
    pub shape: GridShape,
    /// The size that every frame has.
    pub frame: FrameDimension,
    /// The padding around a frame inside its cell.
    pub margin: u32,
    /// The size of the whole canvas.
    pub canvas: FrameDimension,
}

/// The width of a cell: the frame's width and the margin on both sides.
pub open spec fn padded_width(frame: FrameDimension, margin: u32) -> int {
    frame.width + 2 * margin
}

/// The height of a cell: the frame's height and the margin on both sides.
pub open spec fn padded_height(frame: FrameDimension, margin: u32) -> int {
    frame.height + 2 * margin
}

/// Whether a canvas for this grid has a width and a height that fit in 32 bits.
pub open spec fn sheet_fits(shape: GridShape, frame: FrameDimension, margin: u32) -> bool {
    padded_width(frame, margin) * shape.columns <= u32::MAX && padded_height(frame, margin)
        * shape.rows <= u32::MAX
}

impl SheetLayout {
    pub open spec fn cell_width(self) -> int {
        padded_width(self.frame, self.margin)
    }

    pub open spec fn cell_height(self) -> int {
        padded_height(self.frame, self.margin)
    }

    /// The canvas is as wide as the cells of a row and as high as the cells of
    /// a column.
    pub open spec fn wf(self) -> bool {
        &&& self.canvas.width == self.cell_width() * self.shape.columns
        &&& self.canvas.height == self.cell_height() * self.shape.rows
    }

    /// Whether `cell` is a cell of this sheet's grid.
    pub open spec fn holds(self, cell: FrameName) -> bool {
        1 <= cell.row <= self.shape.rows && 1 <= cell.column <= self.shape.columns
    }

    /// Where the frame of `cell` goes, as a pair of integers.
    pub open spec fn spec_insertion_point(self, cell: FrameName) -> (int, int) {
        (
            (cell.column - 1) * self.cell_width() + self.margin,
            (cell.row - 1) * self.cell_height() + self.margin,
        )
    }

    /// Where the frame of `cell` goes: its cell's corner, moved inwards by the
    /// margin.
    pub fn insertion_point(&self, cell: FrameName) -> (point: InsertionPoint)
        requires
            self.wf(),
            self.holds(cell),
        ensures
            point.x == (cell.column - 1) * (self.frame.width + 2 * self.margin) + self.margin,
            point.y == (cell.row - 1) * (self.frame.height + 2 * self.margin) + self.margin,
            (point.x as int, point.y as int) == self.spec_insertion_point(cell),
            0 <= point.x && point.x + self.frame.width + self.margin <= self.canvas.width,
            0 <= point.y && point.y + self.frame.height + self.margin <= self.canvas.height,
    {
        proof {
            lemma_cell_inside(*self, cell);
        }
        let cell_width: u64 = self.frame.width as u64 + 2 * (self.margin as u64);
        let cell_height: u64 = self.frame.height as u64 + 2 * (self.margin as u64);
        assert((cell.column - 1) * cell_width <= u32::MAX && (cell.row - 1) * cell_height
            <= u32::MAX);
        let x: u64 = (cell.column - 1) as u64 * cell_width + self.margin as u64;
        let y: u64 = (cell.row - 1) as u64 * cell_height + self.margin as u64;
        InsertionPoint { x: x as i64, y: y as i64 }
    }
}

/// A frame of the grid lies, with its margin, inside the canvas.
pub proof fn lemma_cell_inside(layout: SheetLayout, cell: FrameName)
    requires
        layout.wf(),
        layout.holds(cell),
    ensures
        0 <= (cell.column - 1) * layout.cell_width(),
        cell.column * layout.cell_width() <= layout.canvas.width,
        0 <= (cell.row - 1) * layout.cell_height(),
        cell.row * layout.cell_height() <= layout.canvas.height,
        (cell.column - 1) * layout.cell_width() + layout.cell_width() == cell.column
            * layout.cell_width(),
        (cell.row - 1) * layout.cell_height() + layout.cell_height() == cell.row
            * layout.cell_height(),
{
    let cw = layout.cell_width();
    let ch = layout.cell_height();
    let c = cell.column as int;
    let r = cell.row as int;
    let columns = layout.shape.columns as int;
    let rows = layout.shape.rows as int;
    assert(0 <= (c - 1) * cw && c * cw <= columns * cw && (c - 1) * cw + cw == c * cw)
        by (nonlinear_arith)
        requires
            1 <= c <= columns,
            0 <= cw,
    ;
    assert(0 <= (r - 1) * ch && r * ch <= rows * ch && (r - 1) * ch + ch == r * ch)
        by (nonlinear_arith)
        requires
            1 <= r <= rows,
            0 <= ch,
    ;
    assert(columns * cw == cw * columns) by (nonlinear_arith);
    assert(rows * ch == ch * rows) by (nonlinear_arith);
}

/// Computes the measures of the sheet for a grid of frames of one size.
/// Returns `None` where the canvas would be wider or higher than 32 bits can
/// say.
pub fn plan_sheet(shape: GridShape, frame: FrameDimension, margin: u32) -> (r: Option<SheetLayout>)
    ensures
        r is Some <==> sheet_fits(shape, frame, margin),
        r is Some ==> r->0.wf() && r->0.shape == shape && r->0.frame == frame && r->0.margin
            == margin,
        r is Some ==> r->0.canvas.width == (frame.width + 2 * margin) * shape.columns
            && r->0.canvas.height == (frame.height + 2 * margin) * shape.rows,
{
    let cell_width: u64 = frame.width as u64 + 2 * (margin as u64);
    let cell_height: u64 = frame.height as u64 + 2 * (margin as u64);
    assert(cell_width * shape.columns <= 0x3_0000_0000 * 0x1_0000_0000 && cell_height
        * shape.rows <= 0x3_0000_0000 * 0x1_0000_0000) by (nonlinear_arith)
        requires
            cell_width <= 0x3_0000_0000,
            cell_height <= 0x3_0000_0000,
            shape.columns <= 0x1_0000_0000,
            shape.rows <= 0x1_0000_0000,
    ;
    let width: u128 = cell_width as u128 * shape.columns as u128;
    let height: u128 = cell_height as u128 * shape.rows as u128;
    if width <= u32::MAX as u128 && height <= u32::MAX as u128 {
        Some(
            SheetLayout {
                shape,
                frame,
                margin,
                canvas: FrameDimension { width: width as u32, height: height as u32 },
            },
        )
    } else {
        None
    }
}

} // verus!
