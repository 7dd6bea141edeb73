//! The order of a listing does not matter: a directory may be listed in any
//! order, and the grid, the frame size and the layout of the sheet come out
//! the same.
//!
//! Two listings of the same files are sequences with the same multiset of
//! entries.

use vstd::prelude::*;
use vstd::multiset::*;
use vstd::seq_lib::*;
use crate::assembler::{
    blend_pixel, composite, covers, distinct_cells, lemma_composite_len, lemma_composite_pixel,
    lemma_pixel_in_range, lemma_uncovered_pixel, source_pixel, transparent, SpriteView,
};
use crate::dimension::{
    dimension_outcome, is_compared, lemma_shared_size, source_paths, FrameDimension,
    ImageErrorView, SourceFrameView,
};
use crate::filename::{accepted_frames, frame_name_of, FrameName};
use crate::geometry::SheetLayout;
use crate::grid::{first_incomplete_row, grid_outcome, row_complete, row_count, row_largest};
use crate::raster::pixel_at;
use crate::sheet::{
    first_undecoded_index, is_undecoded, lemma_first_undecoded_index, planned_layout,
    sheet_outcome, sprites_of,
};

verus! {

/// One more frame in the tally of a row's frames.
pub open spec fn count_step(row: int) -> spec_fn(nat, FrameName) -> nat {
    |tally: nat, frame: FrameName|
        if frame.row == row {
            tally + 1
        } else {
            tally
        }
}

/// One more frame in the search for a row's largest column.
pub open spec fn largest_step(row: int) -> spec_fn(nat, FrameName) -> nat {
    |largest: nat, frame: FrameName|
        if frame.row == row && frame.column > largest {
            frame.column as nat
        } else {
            largest
        }
}

/// The number of a row's frames is a fold over the frames.
proof fn lemma_row_count_is_fold(frames: Seq<FrameName>, row: int)
    ensures
        row_count(frames, row) == frames.fold_left(0nat, count_step(row)),
    decreases frames.len(),
{
    if frames.len() > 0 {
        lemma_row_count_is_fold(frames.drop_last(), row);
    }
}

/// The largest column of a row is a fold over the frames.
proof fn lemma_row_largest_is_fold(frames: Seq<FrameName>, row: int)
    ensures
        row_largest(frames, row) == frames.fold_left(0nat, largest_step(row)),
    decreases frames.len(),
{
    if frames.len() > 0 {
        lemma_row_largest_is_fold(frames.drop_last(), row);
    }
}

/// A row has the same number of frames and the same largest column in any
/// order of the frames.
pub proof fn lemma_row_independent_of_order(a: Seq<FrameName>, b: Seq<FrameName>, row: int)
    requires
        a.to_multiset() == b.to_multiset(),
    ensures
        row_count(a, row) == row_count(b, row),
        row_largest(a, row) == row_largest(b, row),
        row_complete(a, row) == row_complete(b, row),
{
    lemma_row_count_is_fold(a, row);
    lemma_row_count_is_fold(b, row);
    lemma_row_largest_is_fold(a, row);
    lemma_row_largest_is_fold(b, row);
    assert(commutative_foldl(count_step(row)));
    assert(commutative_foldl(largest_step(row)));
    lemma_fold_left_permutation(a, b, count_step(row), 0nat);
    lemma_fold_left_permutation(a, b, largest_step(row), 0nat);
    lemma_row_count_is_fold(a, 1);
    lemma_row_count_is_fold(b, 1);
    assert(commutative_foldl(count_step(1)));
    lemma_fold_left_permutation(a, b, count_step(1), 0nat);
}

/// The first row that is not complete is the same in any order of the frames.
proof fn lemma_first_incomplete_independent_of_order(
    a: Seq<FrameName>,
    b: Seq<FrameName>,
    from: int,
)
    requires
        a.to_multiset() == b.to_multiset(),
    ensures
        first_incomplete_row(a, from) == first_incomplete_row(b, from),
    decreases u32::MAX + 1 - from,
{
    lemma_row_independent_of_order(a, b, from);
    if from <= u32::MAX && row_complete(a, from) {
        lemma_first_incomplete_independent_of_order(a, b, from + 1);
    }
}

/// The validator finds the same in any order of the frames: the same shape,
/// or the same violation.
pub proof fn lemma_grid_independent_of_order(a: Seq<FrameName>, b: Seq<FrameName>)
    requires
        a.to_multiset() == b.to_multiset(),
    ensures
        grid_outcome(a) == grid_outcome(b),
{
    broadcast use group_to_multiset_ensures;

    lemma_first_incomplete_independent_of_order(a, b, 1);
    let row = first_incomplete_row(a, 1);
    lemma_row_independent_of_order(a, b, row);
    lemma_row_independent_of_order(a, b, 1);
    assert(a.len() == b.len()) by {
        to_multiset_len(a);
        to_multiset_len(b);
    }
}

/// One more name in the gathering of the cells that a listing's names name.
pub open spec fn accept_step() -> spec_fn(Multiset<FrameName>, Seq<char>) -> Multiset<FrameName> {
    |cells: Multiset<FrameName>, name: Seq<char>|
        match frame_name_of(name) {
            Some(cell) => cells.insert(cell),
            None => cells,
        }
}

/// One more entry in the gathering of a listing's names.
pub open spec fn path_step() -> spec_fn(Multiset<Seq<char>>, SourceFrameView) -> Multiset<
    Seq<char>,
> {
    |names: Multiset<Seq<char>>, entry: SourceFrameView| names.insert(entry.path)
}

/// The accepted cells, without their order, are a fold over the names.
proof fn lemma_accepted_is_fold(names: Seq<Seq<char>>)
    ensures
        accepted_frames(names).to_multiset() == names.fold_left(
            Multiset::<FrameName>::empty(),
            accept_step(),
        ),
    decreases names.len(),
{
    broadcast use {group_to_multiset_ensures, group_multiset_axioms};

    if names.len() == 0 {
        assert(accepted_frames(names).to_multiset() =~= Multiset::<FrameName>::empty());
    } else {
        lemma_accepted_is_fold(names.drop_last());
        let before = accepted_frames(names.drop_last());
        match frame_name_of(names.last()) {
            Some(cell) => {
                to_multiset_build(before, cell);
            },
            None => {},
        }
    }
}

/// The names of a listing, without their order, are a fold over its entries.
proof fn lemma_paths_are_fold(frames: Seq<SourceFrameView>)
    ensures
        source_paths(frames).to_multiset() == frames.fold_left(
            Multiset::<Seq<char>>::empty(),
            path_step(),
        ),
    decreases frames.len(),
{
    broadcast use {group_to_multiset_ensures, group_multiset_axioms};

    if frames.len() == 0 {
        assert(source_paths(frames).to_multiset() =~= Multiset::<Seq<char>>::empty());
    } else {
        lemma_paths_are_fold(frames.drop_last());
        assert(source_paths(frames) =~= source_paths(frames.drop_last()).push(frames.last().path));
        to_multiset_build(source_paths(frames.drop_last()), frames.last().path);
    }
}

/// The same names in another order name the same cells, in another order.
pub proof fn lemma_accepted_independent_of_order(a: Seq<Seq<char>>, b: Seq<Seq<char>>)
    requires
        a.to_multiset() == b.to_multiset(),
    ensures
        accepted_frames(a).to_multiset() == accepted_frames(b).to_multiset(),
        grid_outcome(accepted_frames(a)) == grid_outcome(accepted_frames(b)),
{
    broadcast use group_multiset_axioms;

    lemma_accepted_is_fold(a);
    lemma_accepted_is_fold(b);
    assert(commutative_foldl(accept_step())) by {
        assert forall|x: Seq<char>, y: Seq<char>, v: Multiset<FrameName>| #[trigger]
            accept_step()(accept_step()(v, x), y) == accept_step()(accept_step()(v, y), x) by {
            assert(accept_step()(accept_step()(v, x), y) =~= accept_step()(
                accept_step()(v, y),
                x,
            ));
        }
    }
    lemma_fold_left_permutation(a, b, accept_step(), Multiset::<FrameName>::empty());
    lemma_grid_independent_of_order(accepted_frames(a), accepted_frames(b));
}

/// The same entries in another order have the same names, in another order.
pub proof fn lemma_paths_independent_of_order(a: Seq<SourceFrameView>, b: Seq<SourceFrameView>)
    requires
        a.to_multiset() == b.to_multiset(),
    ensures
        source_paths(a).to_multiset() == source_paths(b).to_multiset(),
{
    broadcast use group_multiset_axioms;

    lemma_paths_are_fold(a);
    lemma_paths_are_fold(b);
    assert(commutative_foldl(path_step())) by {
        assert forall|x: SourceFrameView, y: SourceFrameView, v: Multiset<Seq<char>>| #[trigger]
            path_step()(path_step()(v, x), y) == path_step()(path_step()(v, y), x) by {
            assert(path_step()(path_step()(v, x), y) =~= path_step()(path_step()(v, y), x));
        }
    }
    lemma_fold_left_permutation(a, b, path_step(), Multiset::<Seq<char>>::empty());
}

/// Frames that share a size share it in any order of the listing.
pub proof fn lemma_size_independent_of_order(
    a: Seq<SourceFrameView>,
    b: Seq<SourceFrameView>,
    first: Seq<char>,
    size: FrameDimension,
)
    requires
        a.to_multiset() == b.to_multiset(),
        dimension_outcome(a, first) == Ok::<FrameDimension, ImageErrorView>(size),
    ensures
        dimension_outcome(b, first) == Ok::<FrameDimension, ImageErrorView>(size),
{
    broadcast use group_to_multiset_ensures;

    lemma_shared_size(a, first, size);
    lemma_shared_size(b, first, size);
    let i = choose|i: int| 0 <= i < a.len() && (#[trigger] a[i]).path == first;
    assert(a.contains(a[i]));
    assert(b.to_multiset().count(a[i]) > 0);
    assert(b.contains(a[i]));
    let j = choose|j: int| 0 <= j < b.len() && b[j] == a[i];
    assert(b[j].path == first);
    assert forall|k: int|
        0 <= k < b.len() && is_compared(#[trigger] b[k], first) implies b[k].dimensions == Some(
        size,
    ) by {
        assert(b.contains(b[k]));
        assert(a.to_multiset().count(b[k]) > 0);
        assert(a.contains(b[k]));
        let l = choose|l: int| 0 <= l < a.len() && a[l] == b[k];
        assert(is_compared(a[l], first));
    }
}

/// Running the pipeline again on the same files gives the same sheet
/// measures, whatever the order in which the directory lists them: the same
/// grid, the same frame size, the same canvas size, and for every cell the
/// same insertion point.
pub proof fn lemma_layout_independent_of_order(
    a: Seq<SourceFrameView>,
    b: Seq<SourceFrameView>,
    first: Seq<char>,
    margin: u32,
)
    requires
        a.to_multiset() == b.to_multiset(),
    ensures
        planned_layout(a, first, margin) == planned_layout(b, first, margin),
        planned_layout(a, first, margin) is Some ==> forall|cell: FrameName|
            #[trigger] planned_layout(a, first, margin)->0.spec_insertion_point(cell)
                == planned_layout(b, first, margin)->0.spec_insertion_point(cell),
{
    lemma_paths_independent_of_order(a, b);
    lemma_accepted_independent_of_order(source_paths(a), source_paths(b));
    match dimension_outcome(a, first) {
        Ok(size) => {
            lemma_size_independent_of_order(a, b, first, size);
        },
        Err(_) => {
            match dimension_outcome(b, first) {
                Ok(size) => {
                    lemma_size_independent_of_order(b, a, first, size);
                },
                Err(_) => {},
            }
        },
    }
}

/// Compositing is commutative across frames: sprites of distinct cells give
/// the same canvas in any order.
pub proof fn lemma_canvas_independent_of_order(
    a: Seq<SpriteView>,
    b: Seq<SpriteView>,
    layout: SheetLayout,
)
    requires
        a.to_multiset() == b.to_multiset(),
        distinct_cells(a),
        distinct_cells(b),
    ensures
        composite(a, layout, a.len()) == composite(b, layout, b.len()),
{
    broadcast use group_to_multiset_ensures;

    let width = layout.canvas.width as int;
    let height = layout.canvas.height as int;
    let left = composite(a, layout, a.len());
    let right = composite(b, layout, b.len());
    lemma_composite_len(a, layout, a.len());
    lemma_composite_len(b, layout, b.len());
    assert(4 * width * height == 4 * (width * height)) by (nonlinear_arith);
    assert forall|at: int| 0 <= at < left.len() implies left[at] == right[at] by {
        let pixel = at / 4;
        let k = at % 4;
        let px = pixel % width;
        let py = pixel / width;
        assert(at == 4 * pixel + k);
        lemma_pixel_in_range(width, height, pixel);
        lemma_composite_pixel(a, layout, a.len(), pixel);
        lemma_composite_pixel(b, layout, b.len(), pixel);
        if exists|j: int| 0 <= j < a.len() && covers(layout, (#[trigger] a[j]).cell, px, py) {
            let j = choose|j: int| 0 <= j < a.len() && covers(layout, (#[trigger] a[j]).cell, px, py);
            assert(a.contains(a[j]));
            assert(b.to_multiset().count(a[j]) > 0);
            assert(b.contains(a[j]));
            let i = choose|i: int| 0 <= i < b.len() && b[i] == a[j];
            assert(covers(layout, b[i].cell, px, py));
            assert(left[4 * pixel + k] == blend_pixel(
                transparent(),
                source_pixel(layout, a[j], px, py),
            )[k]);
            assert(right[4 * pixel + k] == blend_pixel(
                transparent(),
                source_pixel(layout, b[i], px, py),
            )[k]);
        } else {
            assert forall|i: int| 0 <= i < b.len() implies !covers(
                layout,
                (#[trigger] b[i]).cell,
                px,
                py,
            ) by {
                assert(b.contains(b[i]));
                assert(a.to_multiset().count(b[i]) > 0);
                assert(a.contains(b[i]));
                let j = choose|j: int| 0 <= j < a.len() && a[j] == b[i];
                assert(!covers(layout, a[j].cell, px, py));
            }
            lemma_uncovered_pixel(a, layout, a.len(), pixel);
            lemma_uncovered_pixel(b, layout, b.len(), pixel);
            assert(left[at] == pixel_at(left, pixel)[k]);
            assert(right[at] == pixel_at(right, pixel)[k]);
        }
    }
    assert(left =~= right);
}

/// One more entry in the gathering of a listing's sprites.
pub open spec fn sprite_step() -> spec_fn(Multiset<SpriteView>, SourceFrameView) -> Multiset<
    SpriteView,
> {
    |sprites: Multiset<SpriteView>, entry: SourceFrameView|
        match (frame_name_of(entry.path), entry.pixels) {
            (Some(cell), Some(pixels)) => sprites.insert(SpriteView { cell, pixels }),
            _ => sprites,
        }
}

/// The sprites of a listing, without their order, are a fold over its entries.
proof fn lemma_sprites_are_fold(frames: Seq<SourceFrameView>)
    ensures
        sprites_of(frames).to_multiset() == frames.fold_left(
            Multiset::<SpriteView>::empty(),
            sprite_step(),
        ),
    decreases frames.len(),
{
    broadcast use {group_to_multiset_ensures, group_multiset_axioms};

    if frames.len() == 0 {
        assert(sprites_of(frames).to_multiset() =~= Multiset::<SpriteView>::empty());
    } else {
        lemma_sprites_are_fold(frames.drop_last());
        let before = sprites_of(frames.drop_last());
        match (frame_name_of(frames.last().path), frames.last().pixels) {
            (Some(cell), Some(pixels)) => {
                to_multiset_build(before, SpriteView { cell, pixels });
            },
            _ => {},
        }
    }
}

/// The same entries in another order have the same sprites, in another order.
pub proof fn lemma_sprites_independent_of_order(a: Seq<SourceFrameView>, b: Seq<SourceFrameView>)
    requires
        a.to_multiset() == b.to_multiset(),
    ensures
        sprites_of(a).to_multiset() == sprites_of(b).to_multiset(),
        sprites_of(a).len() == sprites_of(b).len(),
{
    broadcast use group_multiset_axioms;

    lemma_sprites_are_fold(a);
    lemma_sprites_are_fold(b);
    assert(commutative_foldl(sprite_step())) by {
        assert forall|x: SourceFrameView, y: SourceFrameView, v: Multiset<SpriteView>| #[trigger]
            sprite_step()(sprite_step()(v, x), y) == sprite_step()(sprite_step()(v, y), x) by {
            assert(sprite_step()(sprite_step()(v, x), y) =~= sprite_step()(
                sprite_step()(v, y),
                x,
            ));
        }
    }
    lemma_fold_left_permutation(a, b, sprite_step(), Multiset::<SpriteView>::empty());
    to_multiset_len(sprites_of(a));
    to_multiset_len(sprites_of(b));
}

/// Running the pipeline again on the same files gives the same sheet, byte
/// for byte, whatever the order in which the directory lists them, where no
/// two frames name the same cell.
pub proof fn lemma_sheet_independent_of_order(
    a: Seq<SourceFrameView>,
    b: Seq<SourceFrameView>,
    first: Seq<char>,
    margin: u32,
)
    requires
        a.to_multiset() == b.to_multiset(),
        distinct_cells(sprites_of(a)),
        distinct_cells(sprites_of(b)),
        sheet_outcome(a, first, margin) is Ok,
    ensures
        sheet_outcome(b, first, margin) == sheet_outcome(a, first, margin),
{
    broadcast use group_to_multiset_ensures;

    lemma_layout_independent_of_order(a, b, first, margin);
    let layout = planned_layout(a, first, margin)->0;
    let frame = layout.frame;
    lemma_first_undecoded_index(a, frame, 0);
    lemma_first_undecoded_index(b, frame, 0);
    let undecoded = first_undecoded_index(b, frame, 0);
    if undecoded < b.len() {
        assert(b.contains(b[undecoded]));
        assert(a.to_multiset().count(b[undecoded]) > 0);
        assert(a.contains(b[undecoded]));
        let i = choose|i: int| 0 <= i < a.len() && a[i] == b[undecoded];
        assert(!is_undecoded(a[i], frame));
    }
    lemma_sprites_independent_of_order(a, b);
    lemma_canvas_independent_of_order(sprites_of(a), sprites_of(b), layout);
}

} // verus!
