//! Frame sizes: every frame must have the pixel size of the first frame, the
//! file with the name that the caller gives for it (`1_1.png` by custom).
//! Nothing is resized or cropped.

use vstd::prelude::*;
use crate::filename::{frame_name_of, parse_frame_name};

verus! {

/// A size in pixels.
#[derive(Clone, Copy, Debug, PartialEq, Eq, Structural)]
pub struct FrameDimension {
    pub width: u32,
    pub height: u32,
}

/// A file of the listing with what the image codec made of it.
#[derive(Clone, Debug, PartialEq, Eq)]
pub struct SourceFrame {
    /// The file's name.
    pub path: String,
    /// The size that the codec read from the file; `None` if it could not.
    pub dimensions: Option<FrameDimension>,
    /// The decoded pixels, four bytes each (red, green, blue, alpha), row by
    /// row; `None` if the file could not be decoded.
    pub pixels: Option<Vec<u8>>,
}

pub struct SourceFrameView {
    pub path: Seq<char>,
    pub dimensions: Option<FrameDimension>,
    pub pixels: Option<Seq<u8>>,
}

impl View for SourceFrame {
    type V = SourceFrameView;

    open spec fn view(&self) -> SourceFrameView {
        SourceFrameView {
            path: self.path@,
            dimensions: self.dimensions,
            pixels: match self.pixels {
                Some(bytes) => Some(bytes@),
                None => None,
            },
        }
    }
}

/// The views of a list of source frames.
pub open spec fn sources_view(frames: Seq<SourceFrame>) -> Seq<SourceFrameView> {
    Seq::new(frames.len(), |i: int| frames[i]@)
}

/// The names of a list of source frames.
pub open spec fn source_paths(frames: Seq<SourceFrameView>) -> Seq<Seq<char>> {
    Seq::new(frames.len(), |i: int| frames[i].path)
}

/// Why the frames do not share one size.
#[derive(Clone, Debug, PartialEq, Eq)]
pub enum ImageError {
    /// No file of the list has the first frame's name, so there is no size to
    /// compare with.
    MissingFirstFrame,
    /// The codec could not read a size from this file.
    NotAnImage { path: String },
    /// This file's size differs from that of the first frame.
    DimensionMismatch { path: String, expected: FrameDimension, found: FrameDimension },
}

pub enum ImageErrorView {
    MissingFirstFrame,
    NotAnImage { path: Seq<char> },
    DimensionMismatch { path: Seq<char>, expected: FrameDimension, found: FrameDimension },
}

impl View for ImageError {
    type V = ImageErrorView;

    open spec fn view(&self) -> ImageErrorView {
        match *self {
            ImageError::MissingFirstFrame => ImageErrorView::MissingFirstFrame,
            ImageError::NotAnImage { path } => ImageErrorView::NotAnImage { path: path@ },
            ImageError::DimensionMismatch { path, expected, found } => {
                ImageErrorView::DimensionMismatch { path: path@, expected, found }
            },
        }
    }
}

/// Whether an entry's size is compared: it is a frame, or it carries the
/// first frame's name.
pub open spec fn is_compared(entry: SourceFrameView, first: Seq<char>) -> bool {
    frame_name_of(entry.path) is Some || entry.path == first
}

/// The index of the first entry from `from` on whose name is `first`; the
/// list's length if there is none.
pub open spec fn first_frame_index(frames: Seq<SourceFrameView>, first: Seq<char>, from: int) -> int
    decreases frames.len() - from,
{
    if from < 0 || from >= frames.len() {
        frames.len() as int
    } else if frames[from].path == first {
        from
    } else {
        first_frame_index(frames, first, from + 1)
    }
}

/// Whether an entry is compared and its size is unknown or differs from
/// `reference`.
pub open spec fn is_unfit(
    entry: SourceFrameView,
    reference: FrameDimension,
    first: Seq<char>,
) -> bool {
    is_compared(entry, first) && entry.dimensions != Some(reference)
}

/// The index of the first unfit entry from `from` on; the list's length if
/// there is none.
pub open spec fn first_unfit_index(
    frames: Seq<SourceFrameView>,
    reference: FrameDimension,
    first: Seq<char>,
    from: int,
) -> int
    decreases frames.len() - from,
{
    if from < 0 || from >= frames.len() {
        frames.len() as int
    } else if is_unfit(frames[from], reference, first) {
        from
    } else {
        first_unfit_index(frames, reference, first, from + 1)
    }
}

/// The fault of an entry that is unfit for `reference`.
pub open spec fn unfit_fault(frame: SourceFrameView, reference: FrameDimension) -> ImageErrorView {
    match frame.dimensions {
        None => ImageErrorView::NotAnImage { path: frame.path },
        Some(found) => ImageErrorView::DimensionMismatch {
            path: frame.path,
            expected: reference,
            found,
        },
    }
}

/// What the size comparison finds. The reference is the size of the file
/// named `first`. Without such a file the first frame is missing; if its size
/// is unknown it is no image; else the result is its size if every frame has
/// it, and the fault of the first entry in the list that has not.
pub open spec fn dimension_outcome(frames: Seq<SourceFrameView>, first: Seq<char>) -> Result<
    FrameDimension,
    ImageErrorView,
> {
    let index = first_frame_index(frames, first, 0);
    if index >= frames.len() {
        Err(ImageErrorView::MissingFirstFrame)
    } else {
        match frames[index].dimensions {
            None => Err(ImageErrorView::NotAnImage { path: first }),
            Some(reference) => {
                let unfit = first_unfit_index(frames, reference, first, 0);
                if unfit >= frames.len() {
                    Ok(reference)
                } else {
                    Err(unfit_fault(frames[unfit], reference))
                }
            },
        }
    }
}

/// Whether a result of the comparison is what `expected` says, paths compared
/// by their characters.
pub open spec fn same_finding(
    r: Result<FrameDimension, ImageError>,
    expected: Result<FrameDimension, ImageErrorView>,
) -> bool {
    match r {
        Ok(dimension) => expected == Ok::<FrameDimension, ImageErrorView>(dimension),
        Err(e) => expected == Err::<FrameDimension, ImageErrorView>(e@),
    }
}

/// The first entry found from `from` on that is named `first` has that name,
/// and no entry between `from` and it has.
pub proof fn lemma_first_frame_index(frames: Seq<SourceFrameView>, first: Seq<char>, from: int)
    requires
        0 <= from <= frames.len(),
    ensures
        from <= first_frame_index(frames, first, from) <= frames.len(),
        first_frame_index(frames, first, from) < frames.len() ==> frames[first_frame_index(
            frames,
            first,
            from,
        )].path == first,
        forall|k: int|
            from <= k < first_frame_index(frames, first, from) ==> (#[trigger] frames[k]).path
                != first,
    decreases frames.len() - from,
{
    if from < frames.len() && frames[from].path != first {
        lemma_first_frame_index(frames, first, from + 1);
    }
}

/// The first unfit entry found from `from` on is unfit, and no entry between
/// `from` and it is.
pub proof fn lemma_first_unfit_index(
    frames: Seq<SourceFrameView>,
    reference: FrameDimension,
    first: Seq<char>,
    from: int,
)
    requires
        0 <= from <= frames.len(),
    ensures
        from <= first_unfit_index(frames, reference, first, from) <= frames.len(),
        first_unfit_index(frames, reference, first, from) < frames.len() ==> is_unfit(
            frames[first_unfit_index(frames, reference, first, from)],
            reference,
            first,
        ),
        forall|k: int|
            from <= k < first_unfit_index(frames, reference, first, from) ==> !is_unfit(
                #[trigger] frames[k],
                reference,
                first,
            ),
    decreases frames.len() - from,
{
    if from < frames.len() && !is_unfit(frames[from], reference, first) {
        lemma_first_unfit_index(frames, reference, first, from + 1);
    }
}

/// The frames share the size `size` exactly when some entry is named `first`
/// and every compared entry has that size.
pub proof fn lemma_shared_size(
    frames: Seq<SourceFrameView>,
    first: Seq<char>,
    size: FrameDimension,
)
    ensures
        dimension_outcome(frames, first) == Ok::<FrameDimension, ImageErrorView>(size) <==> (
        exists|i: int| 0 <= i < frames.len() && (#[trigger] frames[i]).path == first) && (forall|
            i: int,
        |
            0 <= i < frames.len() && is_compared(#[trigger] frames[i], first)
                ==> frames[i].dimensions == Some(size)),
{
    let index = first_frame_index(frames, first, 0);
    lemma_first_frame_index(frames, first, 0);
    lemma_first_unfit_index(frames, size, first, 0);
    if dimension_outcome(frames, first) == Ok::<FrameDimension, ImageErrorView>(size) {
        assert(frames[index].path == first);
        assert forall|i: int|
            0 <= i < frames.len() && is_compared(
                #[trigger] frames[i],
                first,
            ) implies frames[i].dimensions == Some(size) by {
            assert(!is_unfit(frames[i], size, first));
        }
    }
    if (exists|i: int| 0 <= i < frames.len() && (#[trigger] frames[i]).path == first) && (forall|
        i: int,
    |
        0 <= i < frames.len() && is_compared(#[trigger] frames[i], first)
            ==> frames[i].dimensions == Some(size)) {
        let i = choose|i: int| 0 <= i < frames.len() && (#[trigger] frames[i]).path == first;
        assert(index < frames.len()) by {
            if index >= frames.len() {
                assert(frames[i].path != first);
            }
        }
        assert(is_compared(frames[index], first));
        assert(frames[index].dimensions == Some(size));
        let unfit = first_unfit_index(frames, size, first, 0);
        if unfit < frames.len() {
            assert(is_unfit(frames[unfit], size, first));
            assert(frames[unfit].dimensions == Some(size));
        }
    }
}

/// Whether no two entries of a listing have the same name.
pub open spec fn distinct_paths(frames: Seq<SourceFrameView>) -> bool {
    forall|i: int, j: int|
        0 <= i < j < frames.len() ==> (#[trigger] frames[i]).path != (#[trigger] frames[j]).path
}

/// The first frame is read first: where a file is named `first` and no file
/// of that name has a known size, the result is `NotAnImage` for `first`,
/// whatever the other entries are.
pub proof fn lemma_unreadable_first_frame(frames: Seq<SourceFrameView>, first: Seq<char>)
    requires
        exists|i: int| 0 <= i < frames.len() && (#[trigger] frames[i]).path == first,
        forall|i: int|
            0 <= i < frames.len() && (#[trigger] frames[i]).path == first
                ==> frames[i].dimensions is None,
    ensures
        dimension_outcome(frames, first) == Err::<FrameDimension, ImageErrorView>(
            ImageErrorView::NotAnImage { path: first },
        ),
{
    lemma_first_frame_index(frames, first, 0);
    let index = first_frame_index(frames, first, 0);
    let i = choose|i: int| 0 <= i < frames.len() && (#[trigger] frames[i]).path == first;
    if index >= frames.len() {
        assert(frames[i].path != first);
    }
    assert(frames[index].dimensions is None);
}

/// A mismatch is reported against the size of the file named `first`: the
/// expected size is that file's, the found size is that of a listed file and
/// differs from it, and where no two entries have the same name the file
/// reported is not the first frame.
pub proof fn lemma_mismatch_is_against_first(frames: Seq<SourceFrameView>, first: Seq<char>)
    requires
        dimension_outcome(frames, first) matches Err(ImageErrorView::DimensionMismatch { .. }),
    ensures
        ({
            let index = first_frame_index(frames, first, 0);
            let fault = dimension_outcome(frames, first)->Err_0;
            &&& 0 <= index < frames.len()
            &&& frames[index].path == first
            &&& fault matches ImageErrorView::DimensionMismatch { path, expected, found }
                && frames[index].dimensions == Some(expected) && found != expected && (exists|
                k: int,
            |
                0 <= k < frames.len() && (#[trigger] frames[k]).path == path
                    && frames[k].dimensions == Some(found)) && (distinct_paths(frames) ==> path
                != first)
        }),
{
    let index = first_frame_index(frames, first, 0);
    lemma_first_frame_index(frames, first, 0);
    let reference = frames[index].dimensions->0;
    lemma_first_unfit_index(frames, reference, first, 0);
    let unfit = first_unfit_index(frames, reference, first, 0);
    assert(frames[unfit].path == frames[unfit].path);
    if distinct_paths(frames) && frames[unfit].path == first {
        if unfit < index {
            assert(frames[unfit].path != frames[index].path);
        } else if index < unfit {
            assert(frames[index].path != frames[unfit].path);
        }
    }
}

/// Finds the first entry named `first`.
fn find_first_frame(frames: &Vec<SourceFrame>, first: &String) -> (index: usize)
    ensures
        index == first_frame_index(sources_view(frames@), first@, 0),
        index <= frames@.len(),
{
    let mut i: usize = 0;
    while i < frames.len()
        invariant
            i <= frames.len(),
            first_frame_index(sources_view(frames@), first@, 0) == first_frame_index(
                sources_view(frames@),
                first@,
                i as int,
            ),
        decreases frames.len() - i,
    {
        if frames[i].path == *first {
            return i;
        }
        i = i + 1;
    }
    i
}

/// Checks that every frame of the list has the size of the first frame, the
/// file named `first_frame`. Files whose names are no frame names are not
/// looked at, but for the first frame itself.
///
/// Fails with `MissingFirstFrame` if no file has that name, and with
/// `NotAnImage` for the first frame if its size is unknown; otherwise with
/// the fault of the earliest entry in the list whose size is unknown
/// (`NotAnImage`) or different (`DimensionMismatch`).
pub fn check_image_dimensions(frames: &Vec<SourceFrame>, first_frame: &str) -> (r: Result<
    FrameDimension,
    ImageError,
>)
    ensures
        same_finding(r, dimension_outcome(sources_view(frames@), first_frame@)),
        r is Ok ==> forall|i: int|
            0 <= i < frames@.len() && frame_name_of(#[trigger] frames@[i].path@) is Some
                ==> frames@[i].dimensions == Some(r->Ok_0),
{
    let ghost all = sources_view(frames@);
    let first: String = first_frame.to_owned();
    let index = find_first_frame(frames, &first);
    if index >= frames.len() {
        return Err(ImageError::MissingFirstFrame);
    }
    assert(all[index as int] == frames@[index as int]@);
    let reference = match frames[index].dimensions {
        Some(reference) => reference,
        None => {
            return Err(ImageError::NotAnImage { path: first });
        },
    };
    let mut i: usize = 0;
    while i < frames.len()
        invariant
            i <= frames.len(),
            all == sources_view(frames@),
            first@ == first_frame@,
            index == first_frame_index(all, first@, 0),
            index < frames.len(),
            all[index as int].dimensions == Some(reference),
            first_unfit_index(all, reference, first@, 0) == first_unfit_index(
                all,
                reference,
                first@,
                i as int,
            ),
            forall|k: int|
                0 <= k < i && frame_name_of(#[trigger] frames@[k].path@) is Some
                    ==> frames@[k].dimensions == Some(reference),
        decreases frames.len() - i,
    {
        assert(all[i as int] == frames@[i as int]@);
        let compared = frames[i].path == first || parse_frame_name(frames[i].path.as_str()).is_some();
        if compared {
            match frames[i].dimensions {
                None => {
                    return Err(ImageError::NotAnImage { path: frames[i].path.clone() });
                },
                Some(found) => {
                    if found != reference {
                        return Err(
                            ImageError::DimensionMismatch {
                                path: frames[i].path.clone(),
                                expected: reference,
                                found,
                            },
                        );
                    }
                },
            }
        }
        i = i + 1;
    }
    Ok(reference)
}

} // verus!
