use big_image_viewer::format::{FormattedBigImage, LoadStep, Manifest};

fn store(levels: Vec<u32>, format: &str, render_command: Option<&str>) -> FormattedBigImage {
    FormattedBigImage::new(Manifest {
        available_levels: levels,
        format: String::from(format),
        render_command: render_command.map(String::from),
    })
}

#[test]
fn empty_levels_make_every_level_available() {
    let s = store(vec![], "webp", None);
    assert!(s.is_level_available(1));
    assert!(s.is_level_available(2));
    assert!(s.is_level_available(3));
    assert!(s.is_level_available(4096));
    assert_eq!(s.max_level_available(), None);
}

#[test]
fn declared_levels_are_membership() {
    let s = store(vec![1, 2, 8], "webp", None);
    assert!(s.is_level_available(1));
    assert!(s.is_level_available(2));
    assert!(!s.is_level_available(4));
    assert!(s.is_level_available(8));
    assert!(!s.is_level_available(16));
    assert_eq!(s.max_level_available(), Some(8));
}

#[test]
fn max_level_ignores_order() {
    let s = store(vec![4, 16, 2, 1], "webp", None);
    assert_eq!(s.max_level_available(), Some(16));
}

#[test]
fn render_queue_is_last_in_first_out() {
    let mut s = store(vec![], "webp", Some("echo"));
    let t0 = s.enqueue_render(4, 0, 0);
    let t1 = s.enqueue_render(4, 1, 0);
    let t2 = s.enqueue_render(8, 3, 3);
    assert_eq!((t0, t1, t2), (0, 1, 2));
    assert_eq!(s.render_queue_length(), 3);
    let a = s.pop_render_task().unwrap();
    assert_eq!((a.level, a.x, a.y, a.ticket), (8, 3, 3, 2));
    let b = s.pop_render_task().unwrap();
    assert_eq!((b.level, b.x, b.y, b.ticket), (4, 1, 0, 1));
    let c = s.pop_render_task().unwrap();
    assert_eq!((c.level, c.x, c.y, c.ticket), (4, 0, 0, 0));
    assert!(s.pop_render_task().is_none());
    assert_eq!(s.render_queue_length(), 0);
}

#[test]
fn tile_file_names_follow_the_convention() {
    let s = store(vec![], "webp", None);
    assert_eq!(s.tile_file_name(4, 2, 1), "4_2x1.webp");
    assert_eq!(s.tile_file_name(1, 0, 0), "1_0x0.webp");
    let p = store(vec![], "png", None);
    assert_eq!(p.tile_file_name(16, 15, 3), "16_15x3.png");
}

#[test]
fn render_command_substitutes_every_placeholder() {
    let s = store(vec![], "png", Some("render --level %LEVEL% --pos %X%x%Y% --out %LEVEL%_%X%x%Y%.%FORMAT%"));
    let c = s.render_command_line(8, 2, 5).unwrap();
    assert_eq!(c, "render --level 8 --pos 2x5 --out 8_2x5.png");
}

#[test]
fn render_command_absent_when_not_configured() {
    let s = store(vec![], "png", None);
    assert!(s.render_command_line(8, 2, 5).is_none());
}

#[test]
fn missing_file_with_no_render_command_is_absent() {
    let s = store(vec![], "png", None);
    let r = s.load_outcome(true, None);
    assert!(matches!(r, LoadStep::Absent));
}

#[test]
fn missing_file_with_render_command_asks_for_production_once() {
    let s = store(vec![], "png", Some("produce %LEVEL%"));
    let first = s.load_outcome(true, None);
    assert!(matches!(first, LoadStep::Render));
    let second = s.load_outcome(false, None);
    assert!(matches!(second, LoadStep::Absent));
}

#[test]
fn unreadable_bytes_count_as_missing() {
    let s = store(vec![], "png", None);
    let garbage: Vec<u8> = vec![1, 2, 3, 4, 5];
    let r = s.load_outcome(true, Some(&garbage));
    assert!(matches!(r, LoadStep::Absent));
}
