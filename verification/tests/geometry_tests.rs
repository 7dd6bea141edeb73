use pixanim::dimension::FrameDimension;
use pixanim::filename::FrameName;
use pixanim::geometry::{plan_sheet, InsertionPoint, SheetLayout};
use pixanim::grid::GridShape;

fn layout(rows: u32, columns: u32, width: u32, height: u32, margin: u32) -> SheetLayout {
    plan_sheet(GridShape { rows, columns }, FrameDimension { width, height }, margin).unwrap()
}

fn point(l: &SheetLayout, row: u32, column: u32) -> (i64, i64) {
    let InsertionPoint { x, y } = l.insertion_point(FrameName { row: row as u64, column: column as u64 });
    (x, y)
}

#[test]
fn two_by_two_of_ten_pixel_frames() {
    let l = layout(2, 2, 10, 10, 2);
    assert_eq!(l.canvas, FrameDimension { width: 28, height: 28 });
    assert_eq!(point(&l, 1, 1), (2, 2));
    assert_eq!(point(&l, 1, 2), (16, 2));
    assert_eq!(point(&l, 2, 1), (2, 16));
    assert_eq!(point(&l, 2, 2), (16, 16));
}

#[test]
fn two_by_two_of_eight_pixel_frames() {
    let l = layout(2, 2, 8, 8, 2);
    assert_eq!(l.canvas, FrameDimension { width: 24, height: 24 });
    assert_eq!(point(&l, 1, 1), (2, 2));
    assert_eq!(point(&l, 1, 2), (14, 2));
    assert_eq!(point(&l, 2, 1), (2, 14));
    assert_eq!(point(&l, 2, 2), (14, 14));
}

#[test]
fn layout_keeps_its_inputs() {
    let l = layout(3, 5, 7, 11, 4);
    assert_eq!(l.shape, GridShape { rows: 3, columns: 5 });
    assert_eq!(l.frame, FrameDimension { width: 7, height: 11 });
    assert_eq!(l.margin, 4);
    assert_eq!(l.canvas, FrameDimension { width: 75, height: 57 });
}

#[test]
fn zero_margin_packs_the_frames() {
    let l = layout(2, 3, 5, 4, 0);
    assert_eq!(l.canvas, FrameDimension { width: 15, height: 8 });
    assert_eq!(point(&l, 1, 1), (0, 0));
    assert_eq!(point(&l, 2, 3), (10, 4));
}

#[test]
fn rows_move_down_and_columns_move_right() {
    let l = layout(4, 3, 6, 2, 1);
    for row in 1..=4u32 {
        for column in 1..=3u32 {
            let expected = (((column - 1) * 8 + 1) as i64, ((row - 1) * 4 + 1) as i64);
            assert_eq!(point(&l, row, column), expected);
        }
    }
}

#[test]
fn planning_twice_gives_the_same_layout() {
    let a = layout(3, 4, 10, 12, 2);
    let b = layout(3, 4, 10, 12, 2);
    assert_eq!(a, b);
    assert_eq!(point(&a, 3, 4), point(&b, 3, 4));
}

#[test]
fn widest_canvas_that_fits() {
    let l = layout(1, 1, u32::MAX - 4, 1, 2);
    assert_eq!(l.canvas, FrameDimension { width: u32::MAX, height: 5 });
    assert_eq!(point(&l, 1, 1), (2, 2));
    let l = layout(65535, 65537, 1, 1, 0);
    assert_eq!(l.canvas, FrameDimension { width: 65537, height: 65535 });
    assert_eq!(point(&l, 65535, 65537), (65536, 65534));
}

#[test]
fn canvas_beyond_32_bits_is_refused() {
    let big = FrameDimension { width: u32::MAX - 3, height: 1 };
    assert_eq!(plan_sheet(GridShape { rows: 1, columns: 1 }, big, 2), None);
    let unit = FrameDimension { width: 1, height: 1 };
    assert_eq!(plan_sheet(GridShape { rows: 1, columns: u32::MAX }, unit, 1), None);
    assert_eq!(plan_sheet(GridShape { rows: u32::MAX, columns: 1 }, unit, 1), None);
    assert_eq!(plan_sheet(GridShape { rows: 1, columns: 1 }, unit, u32::MAX), None);
    let max = FrameDimension { width: u32::MAX, height: u32::MAX };
    assert_eq!(plan_sheet(GridShape { rows: u32::MAX, columns: u32::MAX }, max, u32::MAX), None);
}
