//! The whole pipeline on decoded input: validate the grid, check the frame
//! sizes, lay the sheet out and composite it. The first violation ends the
//! run; no partial sheet is produced.

use vstd::prelude::*;
use crate::assembler::{
    assemble, blend_pixel, canvas_allocatable, canvas_pixel, composite, distinct_cells,
    lemma_frame_on_canvas, sprites_fit, sprites_view, transparent, Canvas, Sprite, SpriteView,
};
use crate::dimension::{
    check_image_dimensions, dimension_outcome, source_paths, sources_view, FrameDimension,
    ImageError, ImageErrorView, SourceFrame, SourceFrameView,
};
use crate::filename::{
    accepted_frames, frame_name_of, lemma_accepted_contains, names_view, parse_frame_name,
};
use crate::geometry::{padded_height, padded_width, plan_sheet, sheet_fits, SheetLayout};
use crate::grid::{
    all_within, check_paths, grid_outcome, lemma_valid_paths, GridError, GridShape,
};
use crate::raster::pixel_at;

verus! {

/// Why no sheet was made.
#[derive(Clone, Debug, PartialEq, Eq)]
pub enum SheetError {
    /// The frames' names do not form a grid.
    Grid(GridError),
    /// The frames do not share one size.
    Image(ImageError),
    /// A frame's pixels are missing, or are not as many as its size says.
    Undecoded { path: String },
    /// The canvas is wider or higher than 32 bits can say, or too large to be
    /// held in memory.
    TooLarge,
}

pub enum SheetErrorView {
    Grid(GridError),
    Image(ImageErrorView),
    Undecoded { path: Seq<char> },
    TooLarge,
}

impl View for SheetError {
    type V = SheetErrorView;

    open spec fn view(&self) -> SheetErrorView {
        match *self {
            SheetError::Grid(e) => SheetErrorView::Grid(e),
            SheetError::Image(e) => SheetErrorView::Image(e@),
            SheetError::Undecoded { path } => SheetErrorView::Undecoded { path: path@ },
            SheetError::TooLarge => SheetErrorView::TooLarge,
        }
    }
}

pub struct CanvasView {
    pub width: u32,
    pub height: u32,
    pub pixels: Seq<u8>,
}

impl View for Canvas {
    type V = CanvasView;

    open spec fn view(&self) -> CanvasView {
        CanvasView { width: self.width, height: self.height, pixels: self.pixels@ }
    }
}

/// The measures of the sheet for a grid of frames of one size.
pub open spec fn layout_of(shape: GridShape, frame: FrameDimension, margin: u32) -> SheetLayout {
    SheetLayout {
        shape,
        frame,
        margin,
        canvas: FrameDimension {
            width: ((frame.width + 2 * margin) * shape.columns) as u32,
            height: ((frame.height + 2 * margin) * shape.rows) as u32,
        },
    }
}

/// Whether a file is a frame whose pixels are missing or are not as many as
/// a frame of size `frame` has.
pub open spec fn is_undecoded(source: SourceFrameView, frame: FrameDimension) -> bool {
    frame_name_of(source.path) is Some && match source.pixels {
        Some(pixels) => pixels.len() != 4 * frame.width * frame.height,
        None => true,
    }
}

/// The index of the first undecoded frame from `from` on; the list's length
/// if there is none.
pub open spec fn first_undecoded_index(
    frames: Seq<SourceFrameView>,
    frame: FrameDimension,
    from: int,
) -> int
    decreases frames.len() - from,
{
    if from < 0 || from >= frames.len() {
        frames.len() as int
    } else if is_undecoded(frames[from], frame) {
        from
    } else {
        first_undecoded_index(frames, frame, from + 1)
    }
}

/// The frames of a listing with their cells and pixels, in the listing's
/// order. Files that are no frames, or have no pixels, are passed over.
pub open spec fn sprites_of(frames: Seq<SourceFrameView>) -> Seq<SpriteView>
    decreases frames.len(),
{
    if frames.len() == 0 {
        Seq::empty()
    } else {
        let before = sprites_of(frames.drop_last());
        match (frame_name_of(frames.last().path), frames.last().pixels) {
            (Some(cell), Some(pixels)) => before.push(SpriteView { cell, pixels }),
            _ => before,
        }
    }
}

/// The measures of the sheet that a listing leads to, or the first violation
/// in the order grid, sizes, width and height.
pub open spec fn plan_outcome(
    frames: Seq<SourceFrameView>,
    first: Seq<char>,
    margin: u32,
) -> Result<
    SheetLayout,
    SheetErrorView,
> {
    match grid_outcome(accepted_frames(source_paths(frames))) {
        Err(e) => Err(SheetErrorView::Grid(e)),
        Ok(shape) => match dimension_outcome(frames, first) {
            Err(e) => Err(SheetErrorView::Image(e)),
            Ok(frame) => if sheet_fits(shape, frame, margin) {
                Ok(layout_of(shape, frame, margin))
            } else {
                Err(SheetErrorView::TooLarge)
            },
        },
    }
}

/// The measures of the sheet that a listing leads to, if it leads to any.
pub open spec fn planned_layout(
    frames: Seq<SourceFrameView>,
    first: Seq<char>,
    margin: u32,
) -> Option<SheetLayout> {
    match plan_outcome(frames, first, margin) {
        Ok(layout) => Some(layout),
        Err(_) => None,
    }
}

/// What the pipeline makes of a listing: the sheet, or the first violation
/// in the order grid, sizes, width and height, pixels, memory.
pub open spec fn sheet_outcome(
    frames: Seq<SourceFrameView>,
    first: Seq<char>,
    margin: u32,
) -> Result<
    CanvasView,
    SheetErrorView,
> {
    match plan_outcome(frames, first, margin) {
        Err(e) => Err(e),
        Ok(layout) => {
            let undecoded = first_undecoded_index(frames, layout.frame, 0);
            if undecoded < frames.len() {
                Err(SheetErrorView::Undecoded { path: frames[undecoded].path })
            } else if !canvas_allocatable(layout) {
                Err(SheetErrorView::TooLarge)
            } else {
                let sprites = sprites_of(frames);
                Ok(
                    CanvasView {
                        width: layout.canvas.width,
                        height: layout.canvas.height,
                        pixels: composite(sprites, layout, sprites.len()),
                    },
                )
            }
        },
    }
}

/// A finished sheet has the size that its planned layout gives it, and holds
/// the listing's sprites composited by that layout.
pub proof fn lemma_sheet_follows_layout(
    frames: Seq<SourceFrameView>,
    first: Seq<char>,
    margin: u32,
)
    requires
        sheet_outcome(frames, first, margin) is Ok,
    ensures
        planned_layout(frames, first, margin) is Some,
        sheet_outcome(frames, first, margin)->Ok_0.width == planned_layout(frames, first, margin)->0.canvas.width,
        sheet_outcome(frames, first, margin)->Ok_0.height == planned_layout(frames, first, margin)->0.canvas.height,
        sheet_outcome(frames, first, margin)->Ok_0.pixels == composite(
            sprites_of(frames),
            planned_layout(frames, first, margin)->0,
            sprites_of(frames).len(),
        ),
{
}

/// Every sprite of a listing comes from one of its entries: a frame with
/// the sprite's cell as its name's cell and the sprite's pixels as its own.
pub proof fn lemma_sprite_origin(frames: Seq<SourceFrameView>, k: int)
    requires
        0 <= k < sprites_of(frames).len(),
    ensures
        exists|i: int|
            0 <= i < frames.len() && frame_name_of((#[trigger] frames[i]).path) == Some(
                sprites_of(frames)[k].cell,
            ) && frames[i].pixels == Some(sprites_of(frames)[k].pixels),
    decreases frames.len(),
{
    let before = sprites_of(frames.drop_last());
    let last = frames.len() - 1;
    if k < before.len() {
        lemma_sprite_origin(frames.drop_last(), k);
        let i = choose|i: int|
            0 <= i < frames.drop_last().len() && frame_name_of(
                (#[trigger] frames.drop_last()[i]).path,
            ) == Some(before[k].cell) && frames.drop_last()[i].pixels == Some(before[k].pixels);
        assert(frames[i] == frames.drop_last()[i]);
        assert(sprites_of(frames)[k] == before[k]);
    } else {
        assert(frame_name_of(frames[last].path) == Some(sprites_of(frames)[k].cell));
    }
}

/// A finished sheet rests on a sound layout and on sprites that fit it: the
/// canvas has the size of its cells, and every sprite belongs to a cell of
/// the grid and has as many samples as a frame has. These are what the laws
/// on the composited canvas ask for.
pub proof fn lemma_sheet_sprites_fit(
    frames: Seq<SourceFrameView>,
    first: Seq<char>,
    margin: u32,
)
    requires
        sheet_outcome(frames, first, margin) is Ok,
    ensures
        planned_layout(frames, first, margin) is Some,
        planned_layout(frames, first, margin)->0.wf(),
        sprites_fit(sprites_of(frames), planned_layout(frames, first, margin)->0),
{
    let names = source_paths(frames);
    let shape = grid_outcome(accepted_frames(names))->Ok_0;
    let frame = dimension_outcome(frames, first)->Ok_0;
    let layout = layout_of(shape, frame, margin);
    let sprites = sprites_of(frames);
    assert(planned_layout(frames, first, margin) == Some(layout));
    assert(layout.wf()) by {
        let cw = padded_width(frame, margin);
        let ch = padded_height(frame, margin);
        let columns = shape.columns as int;
        let rows = shape.rows as int;
        assert(0 <= cw * columns && 0 <= ch * rows) by (nonlinear_arith)
            requires
                0 <= cw,
                0 <= ch,
                0 <= columns,
                0 <= rows,
        ;
    }
    lemma_valid_paths(names, shape);
    lemma_first_undecoded_index(frames, frame, 0);
    assert forall|k: int| 0 <= k < sprites.len() implies layout.holds((#[trigger] sprites[k]).cell)
        && sprites[k].pixels.len() == 4 * layout.frame.width * layout.frame.height by {
        lemma_sprite_origin(frames, k);
        let i = choose|i: int|
            0 <= i < frames.len() && frame_name_of((#[trigger] frames[i]).path) == Some(
                sprites[k].cell,
            ) && frames[i].pixels == Some(sprites[k].pixels);
        assert(names[i] == frames[i].path);
        lemma_accepted_contains(names, i);
        let cells = accepted_frames(names);
        let j = choose|j: int| 0 <= j < cells.len() && cells[j] == sprites[k].cell;
        assert(1 <= cells[j].row <= shape.rows);
        assert(!is_undecoded(frames[i], frame));
    }
}

/// Every frame is found again on the finished sheet. Where no two sprites
/// of the listing belong to one cell, the sheet's pixel `v` rows below and `u`
/// columns right of a sprite's insertion point holds the sprite's pixel
/// `(u, v)`, blended onto a transparent pixel: the very pixel if it is fully
/// opaque, a transparent pixel if it is fully transparent.
pub proof fn lemma_frame_on_sheet(
    frames: Seq<SourceFrameView>,
    first: Seq<char>,
    margin: u32,
    k: int,
    u: int,
    v: int,
)
    requires
        sheet_outcome(frames, first, margin) is Ok,
        distinct_cells(sprites_of(frames)),
        0 <= k < sprites_of(frames).len(),
        0 <= u < planned_layout(frames, first, margin)->0.frame.width,
        0 <= v < planned_layout(frames, first, margin)->0.frame.height,
    ensures
        ({
            let layout = planned_layout(frames, first, margin)->0;
            let sheet = sheet_outcome(frames, first, margin)->Ok_0;
            let sprite = sprites_of(frames)[k];
            let at = canvas_pixel(layout, sprite.cell, u, v);
            let source = pixel_at(sprite.pixels, v * layout.frame.width + u);
            &&& 0 <= at < sheet.width * sheet.height
            &&& sheet.pixels.len() == 4 * sheet.width * sheet.height
            &&& forall|c: int|
                0 <= c < 4 ==> #[trigger] sheet.pixels[4 * at + c] == blend_pixel(
                    transparent(),
                    source,
                )[c]
            &&& source[3] == 255 ==> pixel_at(sheet.pixels, at) == source
            &&& source[3] == 0 ==> pixel_at(sheet.pixels, at) == transparent()
        }),
{
    lemma_sheet_follows_layout(frames, first, margin);
    lemma_sheet_sprites_fit(frames, first, margin);
    lemma_frame_on_canvas(sprites_of(frames), planned_layout(frames, first, margin)->0, k, u, v);
}

/// The first undecoded frame found from `from` on is undecoded, and no entry
/// between `from` and it is.
pub proof fn lemma_first_undecoded_index(
    frames: Seq<SourceFrameView>,
    frame: FrameDimension,
    from: int,
)
    requires
        0 <= from <= frames.len(),
    ensures
        from <= first_undecoded_index(frames, frame, from) <= frames.len(),
        first_undecoded_index(frames, frame, from) < frames.len() ==> is_undecoded(
            frames[first_undecoded_index(frames, frame, from)],
            frame,
        ),
        forall|k: int|
            from <= k < first_undecoded_index(frames, frame, from) ==> !is_undecoded(
                #[trigger] frames[k],
                frame,
            ),
    decreases frames.len() - from,
{
    if from < frames.len() && !is_undecoded(frames[from], frame) {
        lemma_first_undecoded_index(frames, frame, from + 1);
    }
}

/// Whether a result of the pipeline is what `expected` says, paths compared
/// by their characters.
pub open spec fn same_sheet(
    r: Result<Canvas, SheetError>,
    expected: Result<CanvasView, SheetErrorView>,
) -> bool {
    match r {
        Ok(canvas) => expected == Ok::<CanvasView, SheetErrorView>(canvas@),
        Err(e) => expected == Err::<CanvasView, SheetErrorView>(e@),
    }
}

/// The names of the listing's files.
fn paths_of(frames: &Vec<SourceFrame>) -> (paths: Vec<String>)
    ensures
        names_view(paths@) == source_paths(sources_view(frames@)),
{
    let mut paths: Vec<String> = Vec::new();
    let mut i: usize = 0;
    while i < frames.len()
        invariant
            i <= frames.len(),
            paths@.len() == i,
            forall|k: int| 0 <= k < i ==> (#[trigger] paths@[k])@ == frames@[k].path@,
        decreases frames.len() - i,
    {
        paths.push(frames[i].path.clone());
        i = i + 1;
    }
    assert(names_view(paths@) =~= source_paths(sources_view(frames@)));
    paths
}

/// Gathers the frames with their cells and pixels, or returns the name of
/// the first frame whose pixels are missing or of the wrong number.
fn collect_sprites(frames: &Vec<SourceFrame>, layout: &SheetLayout) -> (r: Result<
    Vec<Sprite>,
    String,
>)
    requires
        all_within(accepted_frames(source_paths(sources_view(frames@))), layout.shape),
    ensures
        r is Ok <==> first_undecoded_index(sources_view(frames@), layout.frame, 0)
            >= frames@.len(),
        r is Ok ==> sprites_view(r->Ok_0@) == sprites_of(sources_view(frames@)) && sprites_fit(
            sprites_view(r->Ok_0@),
            *layout,
        ),
        r is Err ==> r->Err_0@ == sources_view(frames@)[first_undecoded_index(
            sources_view(frames@),
            layout.frame,
            0,
        )].path,
{
    let ghost all = sources_view(frames@);
    let mut sprites: Vec<Sprite> = Vec::new();
    let mut i: usize = 0;
    assert(all.take(0) =~= Seq::<SourceFrameView>::empty());
    assert(sprites_view(sprites@) =~= sprites_of(all.take(0)));
    assert(4 * layout.frame.width * layout.frame.height <= 0x4_0000_0000 * 0x1_0000_0000)
        by (nonlinear_arith);
    let samples: u128 = 4 * (layout.frame.width as u128) * (layout.frame.height as u128);
    while i < frames.len()
        invariant
            i <= frames.len(),
            all == sources_view(frames@),
            samples == 4 * layout.frame.width * layout.frame.height,
            all_within(accepted_frames(source_paths(all)), layout.shape),
            first_undecoded_index(all, layout.frame, 0) == first_undecoded_index(
                all,
                layout.frame,
                i as int,
            ),
            sprites_view(sprites@) == sprites_of(all.take(i as int)),
            sprites_fit(sprites_view(sprites@), *layout),
        decreases frames.len() - i,
    {
        let ghost before = sprites_view(sprites@);
        proof {
            assert(all[i as int] == frames@[i as int]@);
            assert(all.take(i + 1).drop_last() =~= all.take(i as int));
            assert(all.take(i + 1).last() == all[i as int]);
        }
        match parse_frame_name(frames[i].path.as_str()) {
            Some(cell) => {
                proof {
                    let names = source_paths(all);
                    assert(names[i as int] == frames@[i as int].path@);
                    lemma_accepted_contains(names, i as int);
                    let k = choose|k: int|
                        0 <= k < accepted_frames(names).len() && accepted_frames(names)[k] == cell;
                    assert(accepted_frames(names)[k] == cell);
                }
                match &frames[i].pixels {
                    Some(pixels) => {
                        if pixels.len() as u128 != samples {
                            return Err(frames[i].path.clone());
                        }
                        let pixels = pixels.clone();
                        assert(pixels@ =~= frames@[i as int].pixels->0@);
                        sprites.push(Sprite { cell, pixels });
                        assert(sprites_view(sprites@) =~= before.push(
                            SpriteView { cell, pixels: pixels@ },
                        ));
                    },
                    None => {
                        return Err(frames[i].path.clone());
                    },
                }
            },
            None => {},
        }
        i = i + 1;
    }
    assert(all.take(frames.len() as int) =~= all);
    Ok(sprites)
}

/// Plans the sheet of a listing whose files were looked at: validates the
/// grid that the names form, checks that every frame has the size of the
/// first frame, the file named `first_frame`, and computes the measures of
/// the sheet, with `margin` pixels of padding around each frame. Only the
/// names and the sizes are read.
pub fn plan_spritesheet(frames: &Vec<SourceFrame>, first_frame: &str, margin: u32) -> (r: Result<
    SheetLayout,
    SheetError,
>)
    ensures
        match r {
            Ok(layout) => plan_outcome(sources_view(frames@), first_frame@, margin) == Ok::<
                SheetLayout,
                SheetErrorView,
            >(layout),
            Err(e) => plan_outcome(sources_view(frames@), first_frame@, margin) == Err::<
                SheetLayout,
                SheetErrorView,
            >(e@),
        },
        r is Ok ==> r->Ok_0.wf() && r->Ok_0.margin == margin && all_within(
            accepted_frames(source_paths(sources_view(frames@))),
            r->Ok_0.shape,
        ),
{
    let paths = paths_of(frames);
    let shape = match check_paths(&paths) {
        Ok(shape) => shape,
        Err(e) => {
            return Err(SheetError::Grid(e));
        },
    };
    let frame = match check_image_dimensions(frames, first_frame) {
        Ok(frame) => frame,
        Err(e) => {
            return Err(SheetError::Image(e));
        },
    };
    match plan_sheet(shape, frame, margin) {
        Some(layout) => {
            assert(layout == layout_of(shape, frame, margin));
            Ok(layout)
        },
        None => Err(SheetError::TooLarge),
    }
}

/// Builds the spritesheet of a listing whose files were decoded: plans the
/// sheet as `plan_spritesheet` does, and composites the frames onto a
/// transparent canvas, each at the insertion point of its cell.
pub fn make_spritesheet(frames: &Vec<SourceFrame>, first_frame: &str, margin: u32) -> (r: Result<
    Canvas,
    SheetError,
>)
    ensures
        same_sheet(r, sheet_outcome(sources_view(frames@), first_frame@, margin)),
{
    let layout = match plan_spritesheet(frames, first_frame, margin) {
        Ok(layout) => layout,
        Err(e) => {
            return Err(e);
        },
    };
    let sprites = match collect_sprites(frames, &layout) {
        Ok(sprites) => sprites,
        Err(path) => {
            return Err(SheetError::Undecoded { path });
        },
    };
    match assemble(&sprites, &layout) {
        Some(canvas) => Ok(canvas),
        None => Err(SheetError::TooLarge),
    }
}

/// Plays the animation of a finished sheet. Playback is not provided yet:
/// the call does nothing.
pub fn visualize_animation() {
}

} // verus!
