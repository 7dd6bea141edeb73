use pixanim::assembler::{assemble, Canvas, Sprite};
use pixanim::dimension::FrameDimension;
use pixanim::filename::FrameName;
use pixanim::geometry::{plan_sheet, SheetLayout};
use pixanim::grid::GridShape;

fn layout(rows: u32, columns: u32, width: u32, height: u32, margin: u32) -> SheetLayout {
    plan_sheet(GridShape { rows, columns }, FrameDimension { width, height }, margin).unwrap()
}

fn solid(row: u64, column: u64, pixels: usize, colour: [u8; 4]) -> Sprite {
    let mut bytes = Vec::new();
    for _ in 0..pixels {
        bytes.extend_from_slice(&colour);
    }
    Sprite { cell: FrameName { row, column }, pixels: bytes }
}

fn pixel(canvas: &Canvas, x: u32, y: u32) -> [u8; 4] {
    let at = 4 * (y as usize * canvas.width as usize + x as usize);
    [canvas.pixels[at], canvas.pixels[at + 1], canvas.pixels[at + 2], canvas.pixels[at + 3]]
}

#[test]
fn no_sprites_give_a_transparent_canvas() {
    let l = layout(2, 3, 2, 2, 1);
    let canvas = assemble(&Vec::new(), &l).unwrap();
    assert_eq!(canvas.width, 12);
    assert_eq!(canvas.height, 8);
    assert_eq!(canvas.pixels, vec![0u8; 4 * 12 * 8]);
}

#[test]
fn opaque_frames_land_in_their_cells() {
    let l = layout(2, 2, 2, 1, 1);
    let red = [255, 0, 0, 255];
    let green = [0, 255, 0, 255];
    let blue = [0, 0, 255, 255];
    let grey = [9, 9, 9, 255];
    let sprites =
        vec![solid(1, 1, 2, red), solid(1, 2, 2, green), solid(2, 1, 2, blue), solid(2, 2, 2, grey)];
    let canvas = assemble(&sprites, &l).unwrap();
    assert_eq!((canvas.width, canvas.height), (8, 6));
    assert_eq!(canvas.pixels.len(), 4 * 8 * 6);
    for y in 0..6u32 {
        for x in 0..8u32 {
            let expected = match (x, y) {
                (1, 1) | (2, 1) => red,
                (5, 1) | (6, 1) => green,
                (1, 4) | (2, 4) => blue,
                (5, 4) | (6, 4) => grey,
                _ => [0, 0, 0, 0],
            };
            assert_eq!(pixel(&canvas, x, y), expected, "at ({}, {})", x, y);
        }
    }
}

#[test]
fn pixels_keep_their_place_inside_a_frame() {
    let l = layout(1, 2, 3, 2, 2);
    let mut first = Vec::new();
    let mut second = Vec::new();
    for i in 0..6u8 {
        first.extend_from_slice(&[i, 10 + i, 20 + i, 255]);
        second.extend_from_slice(&[100 + i, 110 + i, 120 + i, 255]);
    }
    let sprites = vec![
        Sprite { cell: FrameName { row: 1, column: 2 }, pixels: second.clone() },
        Sprite { cell: FrameName { row: 1, column: 1 }, pixels: first.clone() },
    ];
    let canvas = assemble(&sprites, &l).unwrap();
    assert_eq!((canvas.width, canvas.height), (14, 6));
    for v in 0..2u32 {
        for u in 0..3u32 {
            let i = (v * 3 + u) as usize;
            assert_eq!(pixel(&canvas, 2 + u, 2 + v)[..], first[4 * i..4 * i + 4]);
            assert_eq!(pixel(&canvas, 9 + u, 2 + v)[..], second[4 * i..4 * i + 4]);
        }
    }
    let painted = canvas.pixels.chunks(4).filter(|p| p[3] != 0).count();
    assert_eq!(painted, 12);
}

#[test]
fn order_of_the_sprites_does_not_matter() {
    let l = layout(2, 2, 2, 2, 1);
    let mut sprites = vec![
        solid(1, 1, 4, [1, 2, 3, 255]),
        solid(1, 2, 4, [4, 5, 6, 255]),
        solid(2, 1, 4, [7, 8, 9, 255]),
        solid(2, 2, 4, [10, 11, 12, 255]),
    ];
    let forward = assemble(&sprites, &l).unwrap();
    sprites.reverse();
    let backward = assemble(&sprites, &l).unwrap();
    sprites.swap(0, 2);
    let mixed = assemble(&sprites, &l).unwrap();
    assert_eq!(forward, backward);
    assert_eq!(forward, mixed);
}

#[test]
fn assembling_twice_gives_the_same_canvas() {
    let l = layout(1, 2, 2, 2, 3);
    let sprites = vec![solid(1, 2, 4, [50, 60, 70, 255]), solid(1, 1, 4, [1, 1, 1, 128])];
    assert_eq!(assemble(&sprites, &l), assemble(&sprites, &l));
}

#[test]
fn transparent_pixels_leave_the_canvas_as_it_was() {
    let l = layout(1, 1, 2, 1, 1);
    let sprite = Sprite {
        cell: FrameName { row: 1, column: 1 },
        pixels: vec![200, 100, 50, 0, 1, 2, 3, 255],
    };
    let canvas = assemble(&vec![sprite], &l).unwrap();
    assert_eq!(pixel(&canvas, 1, 1), [0, 0, 0, 0]);
    assert_eq!(pixel(&canvas, 2, 1), [1, 2, 3, 255]);
}

#[test]
fn later_opaque_sprite_of_a_cell_covers_the_earlier() {
    let l = layout(1, 1, 1, 1, 0);
    let sprites = vec![solid(1, 1, 1, [1, 1, 1, 255]), solid(1, 1, 1, [2, 2, 2, 255])];
    assert_eq!(assemble(&sprites, &l).unwrap().pixels, vec![2, 2, 2, 255]);
    let sprites = vec![solid(1, 1, 1, [1, 1, 1, 255]), solid(1, 1, 1, [2, 2, 2, 0])];
    assert_eq!(assemble(&sprites, &l).unwrap().pixels, vec![1, 1, 1, 255]);
}

#[test]
fn translucent_pixels_are_mixed() {
    let l = layout(1, 1, 1, 1, 0);
    let sprites = vec![solid(1, 1, 1, [255, 0, 0, 255]), solid(1, 1, 1, [0, 0, 255, 128])];
    let mixed = assemble(&sprites, &l).unwrap().pixels;
    assert!(mixed[0] >= 126 && mixed[0] <= 128, "{:?}", mixed);
    assert_eq!(mixed[1], 0);
    assert!(mixed[2] >= 127 && mixed[2] <= 129, "{:?}", mixed);
    assert!(mixed[3] >= 254, "{:?}", mixed);
    let alone = assemble(&vec![solid(1, 1, 1, [200, 100, 50, 128])], &l).unwrap().pixels;
    assert!(alone[0] >= 199 && alone[0] <= 200, "{:?}", alone);
    assert!(alone[1] >= 99 && alone[1] <= 100, "{:?}", alone);
    assert!(alone[2] >= 49 && alone[2] <= 50, "{:?}", alone);
    assert!(alone[3] >= 127 && alone[3] <= 128, "{:?}", alone);
}

#[test]
fn empty_frames_give_a_canvas_of_margins() {
    let l = layout(2, 2, 0, 0, 1);
    let sprites = vec![solid(1, 1, 0, [0; 4]), solid(2, 2, 0, [0; 4])];
    let canvas = assemble(&sprites, &l).unwrap();
    assert_eq!((canvas.width, canvas.height), (4, 4));
    assert_eq!(canvas.pixels, vec![0u8; 64]);
}

#[test]
fn canvas_too_large_for_memory_is_refused() {
    let l = layout(1, 1, 1, 1, 1 << 30);
    assert_eq!(l.canvas, FrameDimension { width: (1 << 31) + 1, height: (1 << 31) + 1 });
    assert_eq!(assemble(&vec![solid(1, 1, 1, [1, 1, 1, 255])], &l), None);
}

#[test]
fn canvas_without_rows_is_empty() {
    let l = layout(1, 1, 3, 0, 0);
    let canvas = assemble(&vec![solid(1, 1, 0, [0; 4])], &l).unwrap();
    assert_eq!((canvas.width, canvas.height), (3, 0));
    assert_eq!(canvas.pixels, Vec::<u8>::new());
}
