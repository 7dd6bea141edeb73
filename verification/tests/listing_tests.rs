use pixanim::listing::{get_images_paths, is_image_path};

fn strings(names: &[&str]) -> Vec<String> {
    names.iter().map(|s| s.to_string()).collect()
}

#[test]
fn candidates_are_digits_underscore_digits_png() {
    assert!(is_image_path("1_1.png"));
    assert!(is_image_path("12_034.png"));
    assert!(is_image_path("0_0.png"));
    assert!(is_image_path("99999999999999999999_1.png"));
}

#[test]
fn other_names_are_no_candidates() {
    for name in [
        "", "1_1", "1_1.jpg", "1_1xpng", "a1_1.png", "1_1.png~", "1_1.png.bak", "_1.png",
        "1_.png", "1.png", "spritesheet.png", "1_1.PNG", "1 _1.png", "1_1.png\n",
    ] {
        assert!(!is_image_path(name), "{:?}", name);
    }
}

#[test]
fn listing_is_filtered_in_order() {
    let listing = strings(&[
        "2_10.png", "notes.txt", "1_1.png", "1_1xpng", "spritesheet.png", "01_2.png", ".hidden",
    ]);
    assert_eq!(get_images_paths(&listing), strings(&["2_10.png", "1_1.png", "01_2.png"]));
}

#[test]
fn listing_without_candidates_gives_nothing() {
    assert_eq!(get_images_paths(&strings(&["a.png", "b.txt"])), Vec::<String>::new());
    assert_eq!(get_images_paths(&Vec::new()), Vec::<String>::new());
}

#[test]
fn filtering_twice_changes_nothing() {
    let listing = strings(&["3_1.png", "x", "1_1.png", "2_1.png"]);
    let once = get_images_paths(&listing);
    assert_eq!(get_images_paths(&once), once);
}
