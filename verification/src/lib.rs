//! Builds a spritesheet from pixel-art frames named by row and column.
//!
//! A directory holds one image per frame of an animation, named
//! `<row>_<column>.png`. The library checks that the names form a complete
//! grid, that every frame has the same size, and composites the frames onto
//! one canvas, each in its cell with a margin around it.
//!
//! - [`listing`] picks the candidate files out of a directory listing.
//! - [`filename`] is the grammar of frame names.
//! - [`grid`] validates the grid that the names form.
//! - [`dimension`] checks that the frames share one size.
//! - [`geometry`] measures the sheet and places the frames.
//! - [`raster`] holds the pixel buffers of the `image` crate.
//! - [`assembler`] composites the frames.
//! - [`sheet`] runs the stages one after the other.
//! - [`order`] shows that the order of a listing does not matter.
//!
//! Reading the directory, decoding the images and writing the sheet are left
//! to the caller.

pub mod assembler;
pub mod dimension;
pub mod filename;
pub mod geometry;
pub mod grid;
pub mod listing;
pub mod order;
pub mod raster;
pub mod sheet;
