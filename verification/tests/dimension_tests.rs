use pixanim::dimension::{check_image_dimensions, FrameDimension, ImageError, SourceFrame};

fn size(width: u32, height: u32) -> Option<FrameDimension> {
    Some(FrameDimension { width, height })
}

fn source(path: &str, dimensions: Option<FrameDimension>) -> SourceFrame {
    SourceFrame { path: path.to_string(), dimensions, pixels: None }
}

#[test]
fn equal_sizes_pass() {
    let frames = vec![
        source("1_2.png", size(16, 8)),
        source("1_1.png", size(16, 8)),
        source("2_1.png", size(16, 8)),
        source("2_2.png", size(16, 8)),
    ];
    assert_eq!(check_image_dimensions(&frames, "1_1.png"), Ok(FrameDimension { width: 16, height: 8 }));
}

#[test]
fn files_that_are_no_frames_are_not_looked_at() {
    let frames = vec![
        source("notes.txt", None),
        source("1_1.png", size(3, 5)),
        source("spritesheet.png", size(100, 100)),
    ];
    assert_eq!(check_image_dimensions(&frames, "1_1.png"), Ok(FrameDimension { width: 3, height: 5 }));
}

#[test]
fn first_frame_that_is_no_image_is_reported() {
    let frames = vec![source("1_2.png", size(4, 4)), source("1_1.png", None)];
    assert_eq!(
        check_image_dimensions(&frames, "1_1.png"),
        Err(ImageError::NotAnImage { path: "1_1.png".to_string() })
    );
}

#[test]
fn other_frame_that_is_no_image_is_reported() {
    let frames = vec![
        source("1_1.png", size(4, 4)),
        source("1_2.png", size(4, 4)),
        source("1_3.png", None),
        source("1_4.png", size(9, 9)),
    ];
    assert_eq!(
        check_image_dimensions(&frames, "1_1.png"),
        Err(ImageError::NotAnImage { path: "1_3.png".to_string() })
    );
}

#[test]
fn different_size_is_reported_with_both_sizes() {
    let frames = vec![
        source("1_1.png", size(4, 4)),
        source("1_2.png", size(4, 5)),
        source("1_3.png", None),
    ];
    assert_eq!(
        check_image_dimensions(&frames, "1_1.png"),
        Err(ImageError::DimensionMismatch {
            path: "1_2.png".to_string(),
            expected: FrameDimension { width: 4, height: 4 },
            found: FrameDimension { width: 4, height: 5 },
        })
    );
}

#[test]
fn frame_before_the_first_frame_is_compared_with_it() {
    let frames = vec![source("2_1.png", size(7, 7)), source("1_1.png", size(8, 8))];
    assert_eq!(
        check_image_dimensions(&frames, "1_1.png"),
        Err(ImageError::DimensionMismatch {
            path: "2_1.png".to_string(),
            expected: FrameDimension { width: 8, height: 8 },
            found: FrameDimension { width: 7, height: 7 },
        })
    );
}

#[test]
fn width_and_height_are_not_interchangeable() {
    let frames = vec![source("1_1.png", size(4, 6)), source("1_2.png", size(6, 4))];
    assert_eq!(
        check_image_dimensions(&frames, "1_1.png"),
        Err(ImageError::DimensionMismatch {
            path: "1_2.png".to_string(),
            expected: FrameDimension { width: 4, height: 6 },
            found: FrameDimension { width: 6, height: 4 },
        })
    );
}

#[test]
fn missing_first_frame_is_reported() {
    assert_eq!(check_image_dimensions(&Vec::new(), "1_1.png"), Err(ImageError::MissingFirstFrame));
    let frames = vec![source("1_2.png", size(4, 4)), source("1_02.png", size(4, 4))];
    assert_eq!(check_image_dimensions(&frames, "1_1.png"), Err(ImageError::MissingFirstFrame));
}

#[test]
fn first_frame_is_the_file_of_that_name() {
    let frames = vec![
        source("1_01.png", size(10, 10)),
        source("1_2.png", size(20, 20)),
        source("1_1.png", None),
    ];
    assert_eq!(
        check_image_dimensions(&frames, "1_1.png"),
        Err(ImageError::NotAnImage { path: "1_1.png".to_string() })
    );
}

#[test]
fn mismatch_is_reported_against_the_first_frame() {
    let frames = vec![
        source("1_01.png", size(10, 10)),
        source("1_1.png", size(20, 20)),
        source("1_3.png", size(10, 10)),
    ];
    assert_eq!(
        check_image_dimensions(&frames, "1_1.png"),
        Err(ImageError::DimensionMismatch {
            path: "1_01.png".to_string(),
            expected: FrameDimension { width: 20, height: 20 },
            found: FrameDimension { width: 10, height: 10 },
        })
    );
}

#[test]
fn another_spelling_of_the_first_cell_is_not_the_first_frame() {
    let frames = vec![source("01_001.png", size(2, 2)), source("1_2.png", size(2, 2))];
    assert_eq!(check_image_dimensions(&frames, "1_1.png"), Err(ImageError::MissingFirstFrame));
    assert_eq!(
        check_image_dimensions(&frames, "01_001.png"),
        Ok(FrameDimension { width: 2, height: 2 })
    );
}

#[test]
fn first_frame_name_is_handed_in() {
    let frames = vec![
        source("1_1.png", size(4, 4)),
        source("2_1.png", size(8, 8)),
        source("cover.png", size(8, 8)),
    ];
    assert_eq!(
        check_image_dimensions(&frames, "2_1.png"),
        Err(ImageError::DimensionMismatch {
            path: "1_1.png".to_string(),
            expected: FrameDimension { width: 8, height: 8 },
            found: FrameDimension { width: 4, height: 4 },
        })
    );
    assert_eq!(
        check_image_dimensions(&frames, "cover.png"),
        Err(ImageError::DimensionMismatch {
            path: "1_1.png".to_string(),
            expected: FrameDimension { width: 8, height: 8 },
            found: FrameDimension { width: 4, height: 4 },
        })
    );
    assert_eq!(check_image_dimensions(&frames, "3_1.png"), Err(ImageError::MissingFirstFrame));
}

#[test]
fn frames_with_numbers_beyond_32_bits_are_compared_too() {
    let frames = vec![source("1_1.png", size(4, 4)), source("1_4294967296.png", size(5, 4))];
    assert_eq!(
        check_image_dimensions(&frames, "1_1.png"),
        Err(ImageError::DimensionMismatch {
            path: "1_4294967296.png".to_string(),
            expected: FrameDimension { width: 4, height: 4 },
            found: FrameDimension { width: 5, height: 4 },
        })
    );
}

#[test]
fn size_does_not_depend_on_the_listing_order() {
    let mut frames = vec![
        source("2_1.png", size(6, 7)),
        source("1_1.png", size(6, 7)),
        source("01_1.png", size(6, 7)),
        source("notes.txt", None),
    ];
    for _ in 0..4 {
        frames.rotate_left(1);
        assert_eq!(
            check_image_dimensions(&frames, "1_1.png"),
            Ok(FrameDimension { width: 6, height: 7 })
        );
    }
}
