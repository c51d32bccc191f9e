use big_image_viewer::format::Manifest;
use big_image_viewer::geometry::{section_rect, viewport_of_camera, SectionInfo};
use big_image_viewer::lod::{required_sections, target_level};
use big_image_viewer::Ratio;

fn manifest(levels: Vec<u32>) -> Manifest {
    Manifest { available_levels: levels, format: String::from("webp"), render_command: None }
}

fn has(v: &Vec<SectionInfo>, s: u32, x: u32, y: u32) -> bool {
    v.iter().any(|si| si.subdivisions == s && si.subdiv_pos == (x, y))
}

#[test]
fn target_level_matches_the_density_heuristic() {
    // One tile of 64 px on a 256 px screen at zoom 1 is 1/4 density:
    // doubling twice reaches 1.0 >= 0.8.
    assert_eq!(target_level(64, 256, Ratio::new(1, 1)), 4);
    // At zoom 4 a 2048 px tile already covers a 1024 px screen.
    assert_eq!(target_level(2048, 1024, Ratio::new(1, 1)), 1);
    // 2048 / (1024 * 4) = 0.5, one doubling.
    assert_eq!(target_level(2048, 1024, Ratio::new(4, 1)), 2);
    // A fractional zoom: 2048 / (1024 * 5/2) = 0.8 exactly, no doubling.
    assert_eq!(target_level(2048, 1024, Ratio::new(5, 2)), 1);
}

#[test]
fn target_level_never_decreases_with_zoom() {
    let mut last: u32 = 0;
    let mut z: u32 = 1;
    while z <= 4096 {
        let t = target_level(256, 1024, Ratio::new(z as i64, 1));
        assert!(t >= last);
        last = t;
        z *= 2;
    }
}

#[test]
fn viewport_inside_one_tile_needs_exactly_the_root() {
    // Camera at the origin, zoom 2: the viewport spans [-1/2, 1/2] on
    // both axes, inside the single level-1 tile.
    let vp = viewport_of_camera(Ratio::new(0, 1), Ratio::new(0, 1), Ratio::new(2, 1), Ratio::new(1, 1));
    let req = required_sections(&manifest(vec![]), &vp, 1);
    assert_eq!(req.len(), 1);
    assert!(has(&req, 1, 0, 0));
}

#[test]
fn straddling_a_tile_boundary_needs_both_tiles_and_no_others() {
    // Level 2 splits the x axis at 0; a narrow viewport around x = 0 in
    // the top row touches tiles (0,0) and (1,0) only. Level 1 is not
    // declared, so only level-2 tiles are required.
    let vp = viewport_of_camera(Ratio::new(0, 1), Ratio::new(1, 2), Ratio::new(4, 1), Ratio::new(1, 1));
    let req = required_sections(&manifest(vec![2]), &vp, 2);
    assert!(has(&req, 2, 0, 0));
    assert!(has(&req, 2, 1, 0));
    assert_eq!(req.len(), 2);
}

#[test]
fn unavailable_levels_are_skipped_but_still_descended() {
    // Only level 4 is declared: the whole viewport at the origin needs
    // the four center tiles of level 4 and nothing from levels 1 or 2.
    let vp = viewport_of_camera(Ratio::new(0, 1), Ratio::new(0, 1), Ratio::new(8, 1), Ratio::new(1, 1));
    let req = required_sections(&manifest(vec![4]), &vp, 4);
    for si in req.iter() {
        assert_eq!(si.subdivisions, 4);
    }
    assert!(has(&req, 4, 1, 1));
    assert!(has(&req, 4, 2, 1));
    assert!(has(&req, 4, 1, 2));
    assert!(has(&req, 4, 2, 2));
    assert_eq!(req.len(), 4);
}

#[test]
fn coarse_levels_show_through_under_a_fine_target() {
    // All levels available, target 4: the required set spans levels 1,
    // 2 and 4 at once, for progressive reveal.
    let vp = viewport_of_camera(Ratio::new(0, 1), Ratio::new(0, 1), Ratio::new(1, 1), Ratio::new(1, 1));
    let req = required_sections(&manifest(vec![]), &vp, 4);
    assert_eq!(req.len(), 1 + 4 + 16);
    assert!(has(&req, 1, 0, 0));
    assert!(has(&req, 2, 1, 1));
    assert!(has(&req, 4, 0, 3));
}

#[test]
fn tiles_sharing_only_an_edge_are_not_required() {
    // The viewport is exactly the left half: tiles of the right half
    // touch it only along x = 0 and are not required.
    let vp = viewport_of_camera(Ratio::new(-1, 2), Ratio::new(0, 1), Ratio::new(2, 1), Ratio::new(1, 1));
    let req = required_sections(&manifest(vec![2]), &vp, 2);
    assert!(has(&req, 2, 0, 0));
    assert!(has(&req, 2, 0, 1));
    assert!(!has(&req, 2, 1, 0));
    assert!(!has(&req, 2, 1, 1));
    assert_eq!(req.len(), 2);
}

#[test]
fn tile_regions_match_their_address() {
    // Tile (1, 0) of level 2 covers the top-right quarter of the scene:
    // x in [0, 1], y in [0, 1]. Row index 0 is the top row.
    let r = section_rect(&SectionInfo { subdivisions: 2, subdiv_pos: (1, 0) });
    assert_eq!((r.left.num, r.left.den), (0, 2));
    assert_eq!((r.right.num, r.right.den), (2, 2));
    assert_eq!((r.bottom.num, r.bottom.den), (0, 2));
    assert_eq!((r.top.num, r.top.den), (2, 2));
}

#[test]
fn row_zero_sits_at_the_top_of_the_scene() {
    // A viewport in the upper strip of the scene needs only row 0 of
    // level 2: the row index runs downward from the top.
    let vp = viewport_of_camera(Ratio::new(0, 1), Ratio::new(3, 4), Ratio::new(8, 1), Ratio::new(1, 1));
    let req = required_sections(&manifest(vec![2]), &vp, 2);
    for si in req.iter() {
        assert_eq!(si.subdiv_pos.1, 0);
    }
    assert!(!req.is_empty());
}

#[test]
fn a_wide_window_widens_the_viewport_horizontally() {
    // Camera at the origin, zoom 4. A square window sees x in [-1/4, 1/4],
    // touching only the two middle columns of level 4; a 4:1 window sees
    // x in [-1, 1] and needs every column of the two middle rows.
    let square = viewport_of_camera(
        Ratio::new(0, 1),
        Ratio::new(0, 1),
        Ratio::new(4, 1),
        Ratio::new(1, 1),
    );
    let narrow = required_sections(&manifest(vec![4]), &square, 4);
    assert_eq!(narrow.len(), 4);
    assert!(!has(&narrow, 4, 0, 1));

    let wide = viewport_of_camera(
        Ratio::new(0, 1),
        Ratio::new(0, 1),
        Ratio::new(4, 1),
        Ratio::new(4, 1),
    );
    let req = required_sections(&manifest(vec![4]), &wide, 4);
    assert_eq!(req.len(), 8);
    assert!(has(&req, 4, 0, 1));
    assert!(has(&req, 4, 3, 1));
    assert!(has(&req, 4, 0, 2));
    assert!(has(&req, 4, 3, 2));
    assert!(!has(&req, 4, 0, 0));
}
