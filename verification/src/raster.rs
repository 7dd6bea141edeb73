//! RGBA pixel buffers of the `image` crate, and the operations on them that
//! the assembler relies on.
//!
//! Verus cannot look inside an `image::RgbaImage`, so this module gives its
//! width, height and bytes a name each and states, over those names, what the
//! crate's constructors, `overlay` and `into_raw` do. The contracts of the
//! functions in this module are not proved: each is a claim about the `image`
//! crate.

use vstd::prelude::*;

verus! {

/// An 8-bit RGBA image held by the `image` crate.
#[verifier::external_body]
pub struct Raster {
    inner: image::RgbaImage,
}

/// The width of the image in pixels (`ImageBuffer::width`).
pub uninterp spec fn raster_width(img: Raster) -> nat;

/// The height of the image in pixels (`ImageBuffer::height`).
pub uninterp spec fn raster_height(img: Raster) -> nat;

/// The image's samples as `ImageBuffer::as_raw` shows them: four bytes per
/// pixel (red, green, blue, alpha), pixels from left to right, rows from top
/// to bottom.
pub uninterp spec fn raster_bytes(img: Raster) -> Seq<u8>;

/// What `Rgba::<u8>::blend` leaves in a pixel `bottom` that is blended with a
/// pixel `top` whose alpha is neither 0 nor 255. Each pixel is its four
/// channel bytes. The crate computes this value in floating point.
pub uninterp spec fn blend_translucent(bottom: Seq<u8>, top: Seq<u8>) -> Seq<u8>;

/// The four bytes of pixel number `index`, counted row by row.
pub open spec fn pixel_at(bytes: Seq<u8>, index: int) -> Seq<u8> {
    bytes.subrange(4 * index, 4 * index + 4)
}

/// Whether an image's names describe a buffer of exactly its pixels.
pub open spec fn raster_wf(img: Raster) -> bool {
    raster_bytes(img).len() == 4 * raster_width(img) * raster_height(img)
}

/// `ImageBuffer::new`: an image of the given size with every sample zero.
/// The crate multiplies 4 by the width and then by the height in `usize` and
/// panics when either product overflows, and `vec!` panics when the byte
/// count exceeds `isize::MAX`, so all three are excluded.
#[verifier::external_body]
pub(crate) fn blank_raster(width: u32, height: u32) -> (img: Raster)
    requires
        4 * width <= usize::MAX,
        4 * width * height <= isize::MAX,
    ensures
        raster_width(img) == width,
        raster_height(img) == height,
        raster_bytes(img) == Seq::new((4 * width * height) as nat, |i: int| 0u8),
{
    Raster { inner: image::RgbaImage::new(width, height) }
}

/// `ImageBuffer::from_raw`: wraps `bytes` as an image of the given size, or
/// returns `None` when `bytes` holds fewer than four bytes per pixel. The
/// crate multiplies 4 by the width and then by the height in `usize`, and
/// returns `None` too when either product overflows.
#[verifier::external_body]
pub(crate) fn raster_from_bytes(width: u32, height: u32, bytes: Vec<u8>) -> (r: Option<Raster>)
    ensures
        r is Some <==> (4 * width <= usize::MAX && 4 * width * height <= bytes@.len()),
        r is Some ==> raster_width(r->0) == width && raster_height(r->0) == height
            && raster_bytes(r->0) == bytes@,
{
    match image::RgbaImage::from_raw(width, height, bytes) {
        Some(inner) => Some(Raster { inner }),
        None => None,
    }
}

/// `imageops::overlay` for an image `top` that lies wholly inside `bottom`
/// when its corner is put at `(x, y)`. The size of `bottom` stays. Every
/// pixel of `bottom` under `top` is blended with the pixel of `top` above it
/// as `Rgba::<u8>::blend` does: unchanged where that pixel's alpha is 0,
/// replaced where it is 255, mixed otherwise. Every other sample is unchanged.
#[verifier::external_body]
pub(crate) fn overlay_raster(bottom: &mut Raster, top: &Raster, x: i64, y: i64)
    requires
        raster_wf(*old(bottom)),
        raster_wf(*top),
        0 <= x,
        0 <= y,
        x + raster_width(*top) <= raster_width(*old(bottom)),
        y + raster_height(*top) <= raster_height(*old(bottom)),
    ensures
        raster_width(*final(bottom)) == raster_width(*old(bottom)),
        raster_height(*final(bottom)) == raster_height(*old(bottom)),
        raster_bytes(*final(bottom)).len() == raster_bytes(*old(bottom)).len(),
        forall|i: int|
            0 <= i < raster_bytes(*old(bottom)).len() ==> #[trigger] raster_bytes(
                *final(bottom),
            )[i] == {
                let px = (i / 4) % (raster_width(*old(bottom)) as int);
                let py = (i / 4) / (raster_width(*old(bottom)) as int);
                let under = pixel_at(raster_bytes(*old(bottom)), i / 4);
                let over = pixel_at(
                    raster_bytes(*top),
                    (py - y) * raster_width(*top) + (px - x),
                );
                if !(x <= px < x + raster_width(*top) && y <= py < y + raster_height(*top)) {
                    raster_bytes(*old(bottom))[i]
                } else if over[3] == 0 {
                    under[i % 4]
                } else if over[3] == 255 {
                    over[i % 4]
                } else {
                    blend_translucent(under, over)[i % 4]
                }
            },
{
    image::imageops::overlay(&mut bottom.inner, &top.inner, x, y)
}

/// `ImageBuffer::into_raw`: hands out the image's samples.
#[verifier::external_body]
pub(crate) fn raster_into_bytes(img: Raster) -> (bytes: Vec<u8>)
    ensures
        bytes@ == raster_bytes(img),
{
    img.inner.into_raw()
}

} // verus!
