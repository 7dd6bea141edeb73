use pixanim::filename::{FrameName, BEYOND};
use pixanim::grid::{check_grid, check_paths, GridError, GridShape};

fn strings(names: &[&str]) -> Vec<String> {
    names.iter().map(|s| s.to_string()).collect()
}

fn full_grid(rows: u32, columns: u32) -> Vec<String> {
    let mut names = Vec::new();
    for row in 1..=rows {
        for column in 1..=columns {
            names.push(format!("{}_{}.png", row, column));
        }
    }
    names
}

#[test]
fn single_row_is_a_grid() {
    for n in 1..=7u32 {
        assert_eq!(check_paths(&full_grid(1, n)), Ok(GridShape { rows: 1, columns: n }));
    }
}

#[test]
fn single_frame_is_a_grid() {
    assert_eq!(check_paths(&strings(&["1_1.png"])), Ok(GridShape { rows: 1, columns: 1 }));
}

#[test]
fn full_grids_validate_and_count_their_frames() {
    for rows in 1..=5u32 {
        for columns in 1..=5u32 {
            let names = full_grid(rows, columns);
            let shape = check_paths(&names).unwrap();
            assert_eq!(shape, GridShape { rows, columns });
            assert_eq!((shape.rows * shape.columns) as usize, names.len());
        }
    }
}

#[test]
fn order_of_the_listing_does_not_matter() {
    let mut names = full_grid(3, 4);
    names.reverse();
    assert_eq!(check_paths(&names), Ok(GridShape { rows: 3, columns: 4 }));
    names.swap(0, 7);
    names.swap(2, 11);
    names.rotate_left(5);
    assert_eq!(check_paths(&names), Ok(GridShape { rows: 3, columns: 4 }));
}

#[test]
fn other_files_are_passed_over() {
    let mut names = full_grid(2, 2);
    names.insert(1, "notes.txt".to_string());
    names.push("spritesheet.png".to_string());
    names.push("0_1.png".to_string());
    names.push("1_1.jpg".to_string());
    assert_eq!(check_paths(&names), Ok(GridShape { rows: 2, columns: 2 }));
}

#[test]
fn empty_listing_misses_the_first_row() {
    assert_eq!(check_paths(&Vec::new()), Err(GridError::MissingFirstRow));
    assert_eq!(check_paths(&strings(&["a.txt", "b.png"])), Err(GridError::MissingFirstRow));
}

#[test]
fn missing_first_row_is_reported() {
    assert_eq!(check_paths(&strings(&["2_1.png", "2_2.png"])), Err(GridError::MissingFirstRow));
    assert_eq!(check_paths(&strings(&["3_1.png"])), Err(GridError::MissingFirstRow));
}

#[test]
fn missing_first_frame_with_other_frames_in_its_row_is_a_column_skip() {
    assert_eq!(
        check_paths(&strings(&["1_2.png", "2_1.png", "2_2.png"])),
        Err(GridError::ColumnSkip { row: 1, largest: 2, length: 1 })
    );
}

#[test]
fn column_gap_in_first_row_is_a_column_skip() {
    assert_eq!(
        check_paths(&strings(&["1_1.png", "1_2.png", "1_4.png"])),
        Err(GridError::ColumnSkip { row: 1, largest: 4, length: 3 })
    );
}

#[test]
fn column_gap_in_later_row_is_a_column_skip() {
    assert_eq!(
        check_paths(&strings(&["1_1.png", "1_2.png", "1_3.png", "2_1.png", "2_2.png", "2_4.png"])),
        Err(GridError::ColumnSkip { row: 2, largest: 4, length: 3 })
    );
}

#[test]
fn removing_the_second_row_of_three_is_a_missing_row() {
    assert_eq!(
        check_paths(&strings(&["1_1.png", "3_1.png"])),
        Err(GridError::MissingRow { row: 2 })
    );
    let mut names = full_grid(3, 4);
    names.retain(|n| !n.starts_with("2_"));
    assert_eq!(check_paths(&names), Err(GridError::MissingRow { row: 2 }));
}

#[test]
fn removing_one_frame_of_a_wider_row_is_a_column_skip() {
    let mut names = full_grid(3, 2);
    names.retain(|n| n != "2_1.png");
    assert_eq!(check_paths(&names), Err(GridError::ColumnSkip { row: 2, largest: 2, length: 1 }));
}

#[test]
fn removing_the_last_frame_of_a_row_is_a_count_mismatch() {
    let mut names = full_grid(3, 3);
    names.retain(|n| n != "2_3.png");
    assert_eq!(
        check_paths(&names),
        Err(GridError::ColumnCountMismatch { row: 2, expected: 3, found: 2 })
    );
}

#[test]
fn longer_later_row_is_a_count_mismatch() {
    assert_eq!(
        check_paths(&strings(&["1_1.png", "2_1.png", "2_2.png"])),
        Err(GridError::ColumnCountMismatch { row: 2, expected: 1, found: 2 })
    );
}

#[test]
fn frames_far_beyond_the_last_row_are_a_missing_row() {
    assert_eq!(
        check_paths(&strings(&["1_1.png", "2_1.png", "4294967295_1.png"])),
        Err(GridError::MissingRow { row: 3 })
    );
}

#[test]
fn names_of_one_cell_count_as_frames_of_their_row() {
    assert_eq!(
        check_paths(&strings(&["1_1.png", "01_1.png"])),
        Err(GridError::ColumnSkip { row: 1, largest: 1, length: 2 })
    );
    assert_eq!(
        check_paths(&strings(&["1_2.png", "1_02.png"])),
        Ok(GridShape { rows: 1, columns: 2 })
    );
}

#[test]
fn check_grid_agrees_with_check_paths() {
    let cells = vec![
        FrameName { row: 2, column: 2 },
        FrameName { row: 1, column: 1 },
        FrameName { row: 2, column: 1 },
        FrameName { row: 1, column: 2 },
    ];
    assert_eq!(check_grid(&cells), Ok(GridShape { rows: 2, columns: 2 }));
    assert_eq!(
        check_grid(&cells[..3].to_vec()),
        Err(GridError::ColumnCountMismatch { row: 2, expected: 1, found: 2 })
    );
    assert_eq!(check_grid(&Vec::new()), Err(GridError::MissingFirstRow));
}

#[test]
fn validated_grid_of_distinct_names_has_every_cell() {
    let mut names = full_grid(4, 3);
    names.reverse();
    names.swap(1, 8);
    let shape = check_paths(&names).unwrap();
    for row in 1..=shape.rows {
        for column in 1..=shape.columns {
            assert!(names.contains(&format!("{}_{}.png", row, column)));
        }
    }
}

#[test]
fn later_rows_are_held_to_the_first() {
    let names = strings(&["1_1.png", "1_2.png", "2_1.png", "2_2.png", "3_1.png"]);
    assert_eq!(
        check_paths(&names),
        Err(GridError::ColumnCountMismatch { row: 3, expected: 2, found: 1 })
    );
}

#[test]
fn frame_in_a_row_beyond_32_bits_lies_beyond_every_row() {
    assert_eq!(
        check_paths(&strings(&["4294967296_1.png", "1_1.png"])),
        Err(GridError::MissingRow { row: 2 })
    );
    assert_eq!(
        check_paths(&strings(&["1_1.png", "4294967296_1.png"])),
        Err(GridError::MissingRow { row: 2 })
    );
    assert_eq!(
        check_paths(&strings(&["1_1.png", "1_2.png", "2_2.png", "99999999999999999999_7.png", "2_1.png"])),
        Err(GridError::MissingRow { row: 3 })
    );
}

#[test]
fn frame_in_a_row_beyond_32_bits_does_not_hide_an_earlier_fault() {
    assert_eq!(
        check_paths(&strings(&["2_1.png", "3_3.png", "18446744073709551616_1.png"])),
        Err(GridError::MissingFirstRow)
    );
    assert_eq!(
        check_paths(&strings(&["18446744073709551616_1.png"])),
        Err(GridError::MissingFirstRow)
    );
    assert_eq!(
        check_paths(&strings(&["1_1.png", "1_3.png", "4294967296_1.png"])),
        Err(GridError::ColumnSkip { row: 1, largest: 3, length: 2 })
    );
}

#[test]
fn frame_in_a_column_beyond_32_bits_is_a_column_skip() {
    assert_eq!(
        check_paths(&strings(&["1_1.png", "1_4294967296.png"])),
        Err(GridError::ColumnSkip { row: 1, largest: BEYOND, length: 2 })
    );
    assert_eq!(
        check_paths(&strings(&["1_4294967296.png", "1_1.png"])),
        Err(GridError::ColumnSkip { row: 1, largest: BEYOND, length: 2 })
    );
    assert_eq!(
        check_paths(&strings(&["1_1.png", "2_99999999999.png"])),
        Err(GridError::ColumnSkip { row: 2, largest: BEYOND, length: 1 })
    );
    assert_eq!(
        check_grid(&vec![FrameName { row: 1, column: BEYOND }]),
        Err(GridError::ColumnSkip { row: 1, largest: BEYOND, length: 1 })
    );
}

#[test]
fn same_names_in_another_order_give_the_same_result() {
    let listings: [&[&str]; 6] = [
        &["1_1.png", "1_2.png", "2_1.png", "2_2.png"],
        &["1_1.png", "3_1.png", "4294967296_1.png"],
        &["1_1.png", "1_2.png", "1_4.png", "2_1.png"],
        &["1_1.png", "1_2.png", "2_1.png", "notes.txt"],
        &["2_1.png", "2_2.png", "1_99999999999.png"],
        &["1_1.png", "01_1.png", "1_3.png"],
    ];
    for listing in listings {
        let mut names = strings(listing);
        let expected = check_paths(&names);
        for _ in 0..names.len() {
            names.rotate_left(1);
            assert_eq!(check_paths(&names), expected);
            let mut swapped = names.clone();
            swapped.reverse();
            assert_eq!(check_paths(&swapped), expected);
        }
    }
}

#[test]
fn large_digits_in_another_shape_are_passed_over() {
    assert_eq!(
        check_paths(&strings(&["1_1.png", "4294967296.png", "4294967296_1.jpg", "4294967296_1"])),
        Ok(GridShape { rows: 1, columns: 1 })
    );
}

#[test]
fn validated_grid_has_at_least_one_cell() {
    for names in [full_grid(1, 1), full_grid(2, 5), full_grid(7, 1)] {
        let shape = check_paths(&names).unwrap();
        assert!(shape.rows >= 1 && shape.columns >= 1);
    }
}
