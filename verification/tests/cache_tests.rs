use big_image_viewer::cache::SectionCache;
use big_image_viewer::format::{FormattedBigImage, Manifest};
use big_image_viewer::geometry::SectionInfo;
use big_image_viewer::pixels::TilePixels;
use big_image_viewer::Ratio;

fn store_all_levels() -> FormattedBigImage {
    FormattedBigImage::new(Manifest {
        available_levels: vec![],
        format: String::from("webp"),
        render_command: None,
    })
}

fn origin() -> Ratio {
    Ratio::new(0, 1)
}

#[test]
fn update_creates_a_section_per_required_tile() {
    let img = store_all_levels();
    let mut cache = SectionCache::new(64);
    // 64 px tiles on a 256 px screen at zoom 1: target level 4, and the
    // whole scene is in view, so levels 1, 2 and 4 are all required.
    let to_load = cache.update(&img, origin(), origin(), Ratio::new(1, 1), Ratio::new(1, 1), 256);
    assert_eq!(cache.len(), 1 + 4 + 16);
    assert_eq!(to_load.len(), 1 + 4 + 16);
    for s in cache.sections.iter() {
        assert!(s.hidden);
        assert!(s.loading);
        assert_eq!(s.width, 64);
        assert_eq!(s.height, 64);
        assert_eq!(s.pixels.len(), 64 * 64 * 4);
        assert!(s.pixels.iter().all(|b| *b == 0));
    }
}

#[test]
fn update_does_not_recreate_existing_sections() {
    let img = store_all_levels();
    let mut cache = SectionCache::new(64);
    let first = cache.update(&img, origin(), origin(), Ratio::new(1, 1), Ratio::new(1, 1), 256);
    assert_eq!(first.len(), 21);
    let second = cache.update(&img, origin(), origin(), Ratio::new(1, 1), Ratio::new(1, 1), 256);
    assert_eq!(second.len(), 0);
    assert_eq!(cache.len(), 21);
}

#[test]
fn target_drop_evicts_every_finer_section() {
    let img = store_all_levels();
    let mut cache = SectionCache::new(64);
    cache.update(&img, origin(), origin(), Ratio::new(1, 1), Ratio::new(1, 1), 256);
    assert_eq!(cache.len(), 21);
    // Zooming out to 1/4 drops the target level to 1: every section of
    // level 2 or 4 must be gone after the next tick.
    cache.update(&img, origin(), origin(), Ratio::new(1, 4), Ratio::new(1, 1), 256);
    for s in cache.sections.iter() {
        assert!(s.position.subdivisions <= 1);
    }
    assert_eq!(cache.len(), 1);
}

#[test]
fn manifest_depth_clamps_the_target() {
    let img = FormattedBigImage::new(Manifest {
        available_levels: vec![1, 2],
        format: String::from("webp"),
        render_command: None,
    });
    let mut cache = SectionCache::new(64);
    // The zoom asks for level 4, but the store's deepest level is 2.
    cache.update(&img, origin(), origin(), Ratio::new(1, 1), Ratio::new(1, 1), 256);
    for s in cache.sections.iter() {
        assert!(s.position.subdivisions <= 2);
    }
    assert_eq!(cache.len(), 1 + 4);
}

#[test]
fn deposit_reveals_a_loaded_section() {
    let img = store_all_levels();
    let mut cache = SectionCache::new(2);
    cache.update(&img, origin(), origin(), Ratio::new(1, 1), Ratio::new(1, 1), 2);
    let si = cache.sections[0].position;
    let pixels = TilePixels { data: vec![7u8; 2 * 2 * 4], width: 2, height: 2 };
    cache.deposit(si, Some(pixels));
    let s = &cache.sections[0];
    assert!(!s.hidden);
    assert!(!s.loading);
    assert_eq!(s.pixels, vec![7u8; 16]);
}

#[test]
fn deposit_of_an_absent_tile_leaves_the_section_hidden_for_good() {
    let img = store_all_levels();
    let mut cache = SectionCache::new(2);
    cache.update(&img, origin(), origin(), Ratio::new(1, 1), Ratio::new(1, 1), 2);
    let si = cache.sections[0].position;
    cache.deposit(si, None);
    let s = &cache.sections[0];
    assert!(s.hidden);
    assert!(!s.loading);
    assert!(s.pixels.iter().all(|b| *b == 0));
}

#[test]
fn deposit_for_an_evicted_address_changes_nothing() {
    let img = store_all_levels();
    let mut cache = SectionCache::new(2);
    cache.update(&img, origin(), origin(), Ratio::new(1, 1), Ratio::new(1, 1), 2);
    let evicted = SectionInfo { subdivisions: 8, subdiv_pos: (3, 3) };
    let n = cache.len();
    cache.deposit(evicted, Some(TilePixels { data: vec![9u8; 16], width: 2, height: 2 }));
    assert_eq!(cache.len(), n);
    for s in cache.sections.iter() {
        assert!(s.hidden);
        assert!(s.loading);
    }
}

#[test]
fn draw_order_lists_visible_sections_coarsest_first() {
    let img = store_all_levels();
    let mut cache = SectionCache::new(2);
    // Target level 4: levels 1, 2 and 4 are all live.
    cache.update(&img, origin(), origin(), Ratio::new(1, 1), Ratio::new(1, 1), 8);
    assert_eq!(cache.len(), 21);
    assert!(cache.draw_order().is_empty());

    // Reveal one tile of each level, finest first.
    let one_of = |cache: &SectionCache, level: u32| {
        cache.sections.iter().map(|s| s.position).find(|p| p.subdivisions == level).unwrap()
    };
    for level in [4u32, 1, 2] {
        let si = one_of(&cache, level);
        cache.deposit(si, Some(TilePixels { data: vec![1u8; 16], width: 2, height: 2 }));
    }
    let order: Vec<u32> = cache.draw_order().iter().map(|si| si.subdivisions).collect();
    assert_eq!(order, vec![1, 2, 4]);
}
