use big_image_viewer::builder::{
    build_tile, built_manifest, children_of, compose_quad, deepest_level, fill_levels,
    missing_at_level, parse_tile_name, scan_tile_names,
};
use big_image_viewer::format::{FormattedBigImage, Manifest};

#[test]
fn tile_names_parse_back_to_their_address() {
    assert_eq!(parse_tile_name("4_2x1.webp", "webp"), Some((4, 2, 1)));
    assert_eq!(parse_tile_name("1_0x0.png", "png"), Some((1, 0, 0)));
    assert_eq!(parse_tile_name("16_15x3.webp", "webp"), Some((16, 15, 3)));
}

#[test]
fn foreign_names_are_rejected() {
    assert_eq!(parse_tile_name("notes.json", "webp"), None);
    assert_eq!(parse_tile_name("4_2x1.png", "webp"), None);
    assert_eq!(parse_tile_name("4-2x1.webp", "webp"), None);
    assert_eq!(parse_tile_name("notes.webp", "webp"), None);
    assert_eq!(parse_tile_name("4_2x1", "webp"), None);
    assert_eq!(parse_tile_name("", "webp"), None);
    assert_eq!(parse_tile_name("04_2x1.webp", "webp"), None);
}

#[test]
fn scanning_keeps_only_tile_files() {
    let names: Vec<String> = vec![
        String::from("8_0x0.webp"),
        String::from("notes.json"),
        String::from("8_1x0.webp"),
        String::from("4_0x0.png"),
        String::from("thumb.webp"),
    ];
    let tiles = scan_tile_names(&names, "webp");
    assert!(tiles.contains(&(8, 0, 0)));
    assert!(tiles.contains(&(8, 1, 0)));
    assert_eq!(tiles.len(), 2);
}

#[test]
fn deepest_level_is_the_largest_scanned() {
    assert_eq!(deepest_level(&vec![]), None);
    assert_eq!(deepest_level(&vec![(4, 0, 0), (8, 2, 2), (2, 1, 1)]), Some(8));
}

#[test]
fn fill_levels_halves_down_to_one() {
    assert_eq!(fill_levels(8), vec![4, 2, 1]);
    assert_eq!(fill_levels(16), vec![8, 4, 2, 1]);
    assert_eq!(fill_levels(6), vec![3, 1]);
    assert_eq!(fill_levels(2), vec![1]);
    assert_eq!(fill_levels(1), Vec::<u32>::new());
    assert_eq!(fill_levels(0), Vec::<u32>::new());
}

#[test]
fn missing_positions_are_the_level_grid_minus_the_present() {
    let present = vec![(2, 0, 0), (4, 1, 1)];
    let missing = missing_at_level(&present, 2);
    assert!(missing.contains(&(0, 1)));
    assert!(missing.contains(&(1, 0)));
    assert!(missing.contains(&(1, 1)));
    assert!(!missing.contains(&(0, 0)));
    assert_eq!(missing.len(), 3);
}

#[test]
fn children_double_the_level_and_positions() {
    let c = children_of(4, 1, 2);
    assert_eq!(c[0], (8, 2, 4));
    assert_eq!(c[1], (8, 3, 4));
    assert_eq!(c[2], (8, 2, 5));
    assert_eq!(c[3], (8, 3, 5));
}

#[test]
fn compose_places_each_child_in_its_quadrant() {
    // One-pixel tiles: the canvas is 2x2 pixels, row-major RGBA.
    let c00: Vec<u8> = vec![1, 2, 3, 4];
    let c10: Vec<u8> = vec![5, 6, 7, 8];
    let c01: Vec<u8> = vec![9, 10, 11, 12];
    let canvas = compose_quad(Some(&c00), Some(&c10), Some(&c01), None, 1);
    assert_eq!(canvas, vec![1, 2, 3, 4, 5, 6, 7, 8, 9, 10, 11, 12, 0, 0, 0, 0]);
}

fn solid(tile_px: u32, rgba: [u8; 4]) -> Vec<u8> {
    let mut v: Vec<u8> = Vec::new();
    for _ in 0..(tile_px * tile_px) {
        v.extend_from_slice(&rgba);
    }
    v
}

fn pixel_at(buf: &Vec<u8>, width: u32, x: u32, y: u32) -> [u8; 4] {
    let o = ((y * width + x) * 4) as usize;
    [buf[o], buf[o + 1], buf[o + 2], buf[o + 3]]
}

fn close(a: [u8; 4], b: [u8; 4]) -> bool {
    a.iter().zip(b.iter()).all(|(x, y)| (*x as i32 - *y as i32).abs() <= 2)
}

#[test]
fn built_tile_quadrants_average_their_sources() {
    // Four solid-color children at level 8, positions (2,2)..(3,3),
    // build the level-4 tile above them: each quadrant of the result
    // must keep its source's color (sampled away from the seams).
    let t: u32 = 16;
    let red = [255, 0, 0, 255];
    let green = [0, 255, 0, 255];
    let blue = [0, 0, 255, 255];
    let white = [255, 255, 255, 255];
    let c00 = solid(t, red);
    let c10 = solid(t, green);
    let c01 = solid(t, blue);
    let c11 = solid(t, white);
    let out = build_tile(Some(&c00), Some(&c10), Some(&c01), Some(&c11), t);
    assert_eq!(out.len(), (t * t * 4) as usize);
    assert!(close(pixel_at(&out, t, 3, 3), red));
    assert!(close(pixel_at(&out, t, 12, 3), green));
    assert!(close(pixel_at(&out, t, 3, 12), blue));
    assert!(close(pixel_at(&out, t, 12, 12), white));
}

#[test]
fn missing_children_leave_blank_regions() {
    let t: u32 = 16;
    let red = [255, 0, 0, 255];
    let c00 = solid(t, red);
    let out = build_tile(Some(&c00), None, None, None, t);
    assert!(close(pixel_at(&out, t, 3, 3), red));
    assert!(close(pixel_at(&out, t, 12, 12), [0, 0, 0, 0]));
}

#[test]
fn built_manifest_declares_all_levels_below_the_deepest() {
    let m = built_manifest(8, String::from("webp"));
    assert_eq!(m.available_levels, vec![1, 2, 3, 4, 5, 6, 7]);
    assert!(m.available_levels.contains(&4));
    assert!(!m.available_levels.contains(&8));
    assert_eq!(m.format, "webp");
    assert!(m.render_command.is_none());

    let small = built_manifest(1, String::from("webp"));
    assert!(small.available_levels.is_empty());
}

#[test]
fn written_names_always_parse_back() {
    let store = FormattedBigImage::new(Manifest {
        available_levels: vec![],
        format: String::from("webp"),
        render_command: None,
    });
    let cases: Vec<(u32, u32, u32)> =
        vec![(1, 0, 0), (2, 1, 1), (16, 9, 15), (4096, 4095, 0), (u32::MAX, 7, 70)];
    for (l, x, y) in cases {
        let name = store.tile_file_name(l, x, y);
        assert_eq!(parse_tile_name(name.as_str(), "webp"), Some((l, x, y)));
    }
}
