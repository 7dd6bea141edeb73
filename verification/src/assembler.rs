//! The spritesheet assembler: composites every frame onto a transparent
//! canvas, each at the place that its cell gives it.

use vstd::prelude::*;
use vstd::arithmetic::div_mod::lemma_fundamental_div_mod_converse;
use crate::filename::FrameName;
use crate::geometry::{lemma_cell_inside, SheetLayout};
use crate::raster::{
    blank_raster, blend_translucent, overlay_raster, pixel_at, raster_bytes, raster_from_bytes,
    raster_height, raster_into_bytes, raster_wf, raster_width,
};

verus! {

/// A frame to composite: the cell it belongs to and its pixels, four bytes
/// each (red, green, blue, alpha), row by row.
#[derive(Clone, Debug, PartialEq, Eq)]
pub struct Sprite {
    pub cell: FrameName,
    pub pixels: Vec<u8>,
}

pub struct SpriteView {
    pub cell: FrameName,
    pub pixels: Seq<u8>,
}

impl View for Sprite {
    type V = SpriteView;

    open spec fn view(&self) -> SpriteView {
        SpriteView { cell: self.cell, pixels: self.pixels@ }
    }
}

/// The views of a list of sprites.
pub open spec fn sprites_view(sprites: Seq<Sprite>) -> Seq<SpriteView> {
    Seq::new(sprites.len(), |i: int| sprites[i]@)
}

/// The finished sheet: its size and its pixels, four bytes each (red, green,
/// blue, alpha), row by row.
#[derive(Clone, Debug, PartialEq, Eq)]
pub struct Canvas {
    pub width: u32,
    pub height: u32,
    pub pixels: Vec<u8>,
}

/// What alpha-over compositing leaves in a pixel `bottom` under a pixel
/// `top`: a fully transparent `top` leaves `bottom` as it was, a fully opaque
/// `top` replaces it, and anything between is mixed.
pub open spec fn blend_pixel(bottom: Seq<u8>, top: Seq<u8>) -> Seq<u8> {
    if top[3] == 0 {
        bottom
    } else if top[3] == 255 {
        top
    } else {
        blend_translucent(bottom, top)
    }
}

/// The samples of a `width` pixels wide image after an image of `top_width`
/// by `top_height` pixels was overlaid with its top-left corner at `(x, y)`:
/// every pixel under the overlaid image is blended with the pixel above it,
/// every other sample is unchanged.
pub open spec fn overlay_bytes(
    bottom: Seq<u8>,
    width: int,
    top: Seq<u8>,
    top_width: int,
    top_height: int,
    x: int,
    y: int,
) -> Seq<u8> {
    Seq::new(
        bottom.len(),
        |i: int|
            {
                let px = (i / 4) % width;
                let py = (i / 4) / width;
                if x <= px < x + top_width && y <= py < y + top_height {
                    blend_pixel(
                        pixel_at(bottom, i / 4),
                        pixel_at(top, (py - y) * top_width + (px - x)),
                    )[i % 4]
                } else {
                    bottom[i]
                }
            },
    )
}

/// The samples of a fully transparent canvas.
pub open spec fn blank_bytes(layout: SheetLayout) -> Seq<u8> {
    Seq::new((4 * layout.canvas.width * layout.canvas.height) as nat, |i: int| 0u8)
}

/// The samples of the canvas after the first `n` sprites were composited, in
/// their order, onto a transparent canvas.
pub open spec fn composite(sprites: Seq<SpriteView>, layout: SheetLayout, n: nat) -> Seq<u8>
    decreases n,
{
    if n == 0 {
        blank_bytes(layout)
    } else {
        let point = layout.spec_insertion_point(sprites[n - 1].cell);
        overlay_bytes(
            composite(sprites, layout, (n - 1) as nat),
            layout.canvas.width as int,
            sprites[n - 1].pixels,
            layout.frame.width as int,
            layout.frame.height as int,
            point.0,
            point.1,
        )
    }
}

/// Whether every sprite belongs to a cell of the sheet's grid and has as many
/// samples as a frame has.
pub open spec fn sprites_fit(sprites: Seq<SpriteView>, layout: SheetLayout) -> bool {
    forall|i: int|
        0 <= i < sprites.len() ==> layout.holds((#[trigger] sprites[i]).cell)
            && sprites[i].pixels.len() == 4 * layout.frame.width * layout.frame.height
}

/// Whether a canvas of the sheet's size can be held in memory: the samples
/// of one row must be at most `usize::MAX`, and those of all rows at most
/// `isize::MAX`.
pub open spec fn canvas_allocatable(layout: SheetLayout) -> bool {
    4 * layout.canvas.width <= usize::MAX && 4 * layout.canvas.width * layout.canvas.height
        <= isize::MAX
}

/// Composites the sprites onto a transparent canvas of the sheet's size, each
/// at the insertion point of its cell. Returns `None` where the canvas is too
/// large to be held in memory: where the samples of one row exceed
/// `usize::MAX`, or those of the whole canvas `isize::MAX`.
pub fn assemble(sprites: &Vec<Sprite>, layout: &SheetLayout) -> (r: Option<Canvas>)
    requires
        layout.wf(),
        sprites_fit(sprites_view(sprites@), *layout),
    ensures
        r is Some <==> canvas_allocatable(*layout),
        r is Some ==> r->0.width == layout.canvas.width && r->0.height == layout.canvas.height
            && r->0.pixels@ == composite(sprites_view(sprites@), *layout, sprites@.len()),
{
    let ghost all = sprites_view(sprites@);
    assert(4 * layout.canvas.width * layout.canvas.height <= 0x4_0000_0000 * 0x1_0000_0000)
        by (nonlinear_arith);
    let row: u128 = 4 * (layout.canvas.width as u128);
    let size: u128 = row * (layout.canvas.height as u128);
    if row > usize::MAX as u128 || size > isize::MAX as u128 {
        return None;
    }
    let mut canvas = blank_raster(layout.canvas.width, layout.canvas.height);
    assert(raster_bytes(canvas) =~= composite(all, *layout, 0));
    let mut i: usize = 0;
    while i < sprites.len()
        invariant
            i <= sprites.len(),
            all == sprites_view(sprites@),
            layout.wf(),
            sprites_fit(all, *layout),
            canvas_allocatable(*layout),
            raster_width(canvas) == layout.canvas.width,
            raster_height(canvas) == layout.canvas.height,
            raster_wf(canvas),
            raster_bytes(canvas) == composite(all, *layout, i as nat),
        decreases sprites.len() - i,
    {
        assert(all[i as int] == sprites@[i as int]@);
        let point = layout.insertion_point(sprites[i].cell);
        let pixels = sprites[i].pixels.clone();
        assert(pixels@ =~= sprites@[i as int].pixels@);
        match raster_from_bytes(layout.frame.width, layout.frame.height, pixels) {
            Some(top) => {
                let ghost before = raster_bytes(canvas);
                overlay_raster(&mut canvas, &top, point.x, point.y);
                assert(raster_bytes(canvas) =~= overlay_bytes(
                    before,
                    layout.canvas.width as int,
                    raster_bytes(top),
                    layout.frame.width as int,
                    layout.frame.height as int,
                    point.x as int,
                    point.y as int,
                ));
            },
            None => {
                assert(false);
            },
        }
        i = i + 1;
    }
    let pixels = raster_into_bytes(canvas);
    Some(Canvas { width: layout.canvas.width, height: layout.canvas.height, pixels })
}

/// A fully transparent pixel.
pub open spec fn transparent() -> Seq<u8> {
    seq![0u8, 0u8, 0u8, 0u8]
}

/// Whether no two sprites belong to one cell.
pub open spec fn distinct_cells(sprites: Seq<SpriteView>) -> bool {
    forall|a: int, b: int|
        0 <= a < b < sprites.len() ==> (#[trigger] sprites[a]).cell != (#[trigger] sprites[b]).cell
}

/// Whether the frame of `cell` covers the canvas pixel in column `px` and
/// row `py`.
pub open spec fn covers(layout: SheetLayout, cell: FrameName, px: int, py: int) -> bool {
    let point = layout.spec_insertion_point(cell);
    point.0 <= px < point.0 + layout.frame.width && point.1 <= py < point.1
        + layout.frame.height
}

/// The pixel of a sprite that lies over the canvas pixel in column `px` and
/// row `py`.
pub open spec fn source_pixel(layout: SheetLayout, sprite: SpriteView, px: int, py: int) -> Seq<
    u8,
> {
    let point = layout.spec_insertion_point(sprite.cell);
    pixel_at(sprite.pixels, (py - point.1) * layout.frame.width + (px - point.0))
}

/// The frames of two different cells cover no pixel in common.
pub proof fn lemma_cells_disjoint(layout: SheetLayout, a: FrameName, b: FrameName, px: int, py: int)
    requires
        a != b,
        covers(layout, a, px, py),
    ensures
        !covers(layout, b, px, py),
{
    let cw = layout.cell_width();
    let ch = layout.cell_height();
    let (ac, bc) = (a.column as int, b.column as int);
    let (ar, br) = (a.row as int, b.row as int);
    if ac < bc {
        assert((ac - 1) * cw + cw <= (bc - 1) * cw) by (nonlinear_arith)
            requires
                ac < bc,
                0 <= cw,
        ;
    } else if bc < ac {
        assert((bc - 1) * cw + cw <= (ac - 1) * cw) by (nonlinear_arith)
            requires
                bc < ac,
                0 <= cw,
        ;
    } else if ar < br {
        assert((ar - 1) * ch + ch <= (br - 1) * ch) by (nonlinear_arith)
            requires
                ar < br,
                0 <= ch,
        ;
    } else {
        assert(br < ar);
        assert((br - 1) * ch + ch <= (ar - 1) * ch) by (nonlinear_arith)
            requires
                br < ar,
                0 <= ch,
        ;
    }
}

/// Pixel `pixel` of an image of `width` by `height` pixels lies inside the
/// image's samples.
pub proof fn lemma_pixel_in_range(width: int, height: int, pixel: int)
    requires
        0 <= pixel < width * height,
    ensures
        0 <= 4 * pixel,
        4 * pixel + 4 <= 4 * width * height,
{
    assert(4 * width * height == 4 * (width * height)) by (nonlinear_arith);
}

/// The canvas keeps its length while sprites are composited.
pub proof fn lemma_composite_len(sprites: Seq<SpriteView>, layout: SheetLayout, n: nat)
    ensures
        composite(sprites, layout, n).len() == 4 * layout.canvas.width * layout.canvas.height,
    decreases n,
{
    if n > 0 {
        lemma_composite_len(sprites, layout, (n - 1) as nat);
    } else {
        assert(4 * layout.canvas.width * layout.canvas.height >= 0) by (nonlinear_arith);
    }
}

/// After the first `n` sprites were composited, a canvas pixel that none of
/// them covers is still transparent.
pub proof fn lemma_uncovered_pixel(
    sprites: Seq<SpriteView>,
    layout: SheetLayout,
    n: nat,
    pixel: int,
)
    requires
        n <= sprites.len(),
        0 <= pixel < layout.canvas.width * layout.canvas.height,
        forall|j: int|
            0 <= j < n ==> !covers(
                layout,
                (#[trigger] sprites[j]).cell,
                pixel % (layout.canvas.width as int),
                pixel / (layout.canvas.width as int),
            ),
    ensures
        pixel_at(composite(sprites, layout, n), pixel) == transparent(),
    decreases n,
{
    lemma_composite_len(sprites, layout, n);
    lemma_pixel_in_range(layout.canvas.width as int, layout.canvas.height as int, pixel);
    if n == 0 {
        assert(pixel_at(composite(sprites, layout, 0), pixel) =~= transparent());
    } else {
        let before = composite(sprites, layout, (n - 1) as nat);
        let after = composite(sprites, layout, n);
        lemma_composite_len(sprites, layout, (n - 1) as nat);
        lemma_uncovered_pixel(sprites, layout, (n - 1) as nat, pixel);
        assert(!covers(
            layout,
            sprites[n - 1].cell,
            pixel % (layout.canvas.width as int),
            pixel / (layout.canvas.width as int),
        ));
        assert forall|k: int| 0 <= k < 4 implies #[trigger] after[4 * pixel + k] == before[4
            * pixel + k] by {
            assert((4 * pixel + k) / 4 == pixel && (4 * pixel + k) % 4 == k);
        }
        assert(pixel_at(after, pixel) =~= pixel_at(before, pixel));
    }
}

/// After the first `n` sprites of distinct cells were composited, a canvas
/// pixel that one of them covers holds that sprite's pixel blended onto a
/// transparent one.
pub proof fn lemma_composite_pixel(
    sprites: Seq<SpriteView>,
    layout: SheetLayout,
    n: nat,
    pixel: int,
)
    requires
        distinct_cells(sprites),
        n <= sprites.len(),
        0 <= pixel < layout.canvas.width * layout.canvas.height,
    ensures
        forall|j: int, k: int|
            0 <= j < n && 0 <= k < 4 && covers(
                layout,
                (#[trigger] sprites[j]).cell,
                pixel % (layout.canvas.width as int),
                pixel / (layout.canvas.width as int),
            ) ==> #[trigger] composite(sprites, layout, n)[4 * pixel + k] == blend_pixel(
                transparent(),
                source_pixel(
                    layout,
                    sprites[j],
                    pixel % (layout.canvas.width as int),
                    pixel / (layout.canvas.width as int),
                ),
            )[k],
    decreases n,
{
    let px = pixel % (layout.canvas.width as int);
    let py = pixel / (layout.canvas.width as int);
    lemma_composite_len(sprites, layout, n);
    lemma_pixel_in_range(layout.canvas.width as int, layout.canvas.height as int, pixel);
    if n > 0 {
        let before = composite(sprites, layout, (n - 1) as nat);
        let after = composite(sprites, layout, n);
        let last = sprites[n - 1];
        lemma_composite_len(sprites, layout, (n - 1) as nat);
        lemma_composite_pixel(sprites, layout, (n - 1) as nat, pixel);
        if covers(layout, last.cell, px, py) {
            assert forall|j: int| 0 <= j < n - 1 implies !covers(
                layout,
                (#[trigger] sprites[j]).cell,
                px,
                py,
            ) by {
                lemma_cells_disjoint(layout, last.cell, sprites[j].cell, px, py);
            }
            lemma_uncovered_pixel(sprites, layout, (n - 1) as nat, pixel);
            assert forall|j: int, k: int|
                0 <= j < n && 0 <= k < 4 && covers(
                    layout,
                    (#[trigger] sprites[j]).cell,
                    px,
                    py,
                ) implies #[trigger] after[4 * pixel + k] == blend_pixel(
                transparent(),
                source_pixel(layout, sprites[j], px, py),
            )[k] by {
                assert(j == n - 1);
                assert((4 * pixel + k) / 4 == pixel && (4 * pixel + k) % 4 == k);
            }
        } else {
            assert forall|k: int| 0 <= k < 4 implies #[trigger] after[4 * pixel + k] == before[4
                * pixel + k] by {
                assert((4 * pixel + k) / 4 == pixel && (4 * pixel + k) % 4 == k);
            }
        }
    }
}

/// The number of the canvas pixel that holds pixel `(u, v)` of the frame of
/// `cell`: `v` rows below and `u` columns right of the insertion point.
pub open spec fn canvas_pixel(layout: SheetLayout, cell: FrameName, u: int, v: int) -> int {
    let point = layout.spec_insertion_point(cell);
    (point.1 + v) * layout.canvas.width + (point.0 + u)
}

/// Every frame is found again on the finished sheet. Where the sprites belong
/// to distinct cells of the grid, the canvas pixel `v` rows below and `u`
/// columns right of a sprite's insertion point holds the sprite's pixel
/// `(u, v)`, blended onto a transparent pixel: the very pixel if it is fully
/// opaque, a transparent pixel if it is fully transparent.
pub proof fn lemma_frame_on_canvas(
    sprites: Seq<SpriteView>,
    layout: SheetLayout,
    i: int,
    u: int,
    v: int,
)
    requires
        layout.wf(),
        sprites_fit(sprites, layout),
        distinct_cells(sprites),
        0 <= i < sprites.len(),
        0 <= u < layout.frame.width,
        0 <= v < layout.frame.height,
    ensures
        ({
            let canvas = composite(sprites, layout, sprites.len());
            let at = canvas_pixel(layout, sprites[i].cell, u, v);
            let source = pixel_at(sprites[i].pixels, v * layout.frame.width + u);
            &&& 0 <= at < layout.canvas.width * layout.canvas.height
            &&& canvas.len() == 4 * layout.canvas.width * layout.canvas.height
            &&& forall|k: int|
                0 <= k < 4 ==> #[trigger] canvas[4 * at + k] == blend_pixel(transparent(), source)[k]
            &&& source[3] == 255 ==> pixel_at(canvas, at) == source
            &&& source[3] == 0 ==> pixel_at(canvas, at) == transparent()
        }),
{
    let canvas = composite(sprites, layout, sprites.len());
    let cell = sprites[i].cell;
    let point = layout.spec_insertion_point(cell);
    let at = canvas_pixel(layout, cell, u, v);
    let source = pixel_at(sprites[i].pixels, v * layout.frame.width + u);
    let width = layout.canvas.width as int;
    let height = layout.canvas.height as int;
    let px = point.0 + u;
    let py = point.1 + v;
    lemma_cell_inside(layout, cell);
    assert(0 <= px < width && 0 <= py < height);
    assert(0 <= py * width + px < width * height) by (nonlinear_arith)
        requires
            0 <= px < width,
            0 <= py < height,
    ;
    assert(0 <= v * layout.frame.width + u < layout.frame.width * layout.frame.height)
        by (nonlinear_arith)
        requires
            0 <= u < layout.frame.width,
            0 <= v < layout.frame.height,
    ;
    lemma_fundamental_div_mod_converse(at, width, py, px);
    lemma_pixel_in_range(width, height, at);
    lemma_pixel_in_range(
        layout.frame.width as int,
        layout.frame.height as int,
        v * layout.frame.width + u,
    );
    lemma_composite_len(sprites, layout, sprites.len());
    lemma_composite_pixel(sprites, layout, sprites.len(), at);
    assert(covers(layout, sprites[i].cell, px, py));
    assert(source_pixel(layout, sprites[i], px, py) == source);
    assert forall|k: int| 0 <= k < 4 implies #[trigger] canvas[4 * at + k] == blend_pixel(
        transparent(),
        source,
    )[k] by {}
    assert(sprites[i].pixels.len() == 4 * layout.frame.width * layout.frame.height);
    assert(source.len() == 4 && pixel_at(canvas, at).len() == 4);
    assert(canvas[4 * at + 0] == blend_pixel(transparent(), source)[0]);
    assert(canvas[4 * at + 1] == blend_pixel(transparent(), source)[1]);
    assert(canvas[4 * at + 2] == blend_pixel(transparent(), source)[2]);
    assert(canvas[4 * at + 3] == blend_pixel(transparent(), source)[3]);
    if source[3] == 255 {
        assert(pixel_at(canvas, at) =~= source);
    }
    if source[3] == 0 {
        assert(pixel_at(canvas, at) =~= transparent());
    }
}

/// The margins stay transparent: a canvas pixel that no sprite covers is
/// fully transparent on the finished sheet.
pub proof fn lemma_margin_is_transparent(sprites: Seq<SpriteView>, layout: SheetLayout, pixel: int)
    requires
        0 <= pixel < layout.canvas.width * layout.canvas.height,
        forall|j: int|
            0 <= j < sprites.len() ==> !covers(
                layout,
                (#[trigger] sprites[j]).cell,
                pixel % (layout.canvas.width as int),
                pixel / (layout.canvas.width as int),
            ),
    ensures
        pixel_at(composite(sprites, layout, sprites.len()), pixel) == transparent(),
{
    lemma_uncovered_pixel(sprites, layout, sprites.len(), pixel);
}

} // verus!
