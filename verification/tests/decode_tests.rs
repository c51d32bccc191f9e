use std::io::Cursor;

use big_image_viewer::format::{FormattedBigImage, LoadStep, Manifest};

fn png_store() -> FormattedBigImage {
    FormattedBigImage::new(Manifest {
        available_levels: vec![],
        format: String::from("png"),
        render_command: None,
    })
}

fn sample_image(w: u32, h: u32) -> image::RgbaImage {
    image::RgbaImage::from_fn(w, h, |x, y| {
        image::Rgba([(x * 40) as u8, (y * 40) as u8, ((x + y) * 20) as u8, 255])
    })
}

fn png_bytes(img: &image::RgbaImage) -> Vec<u8> {
    let mut buf: Vec<u8> = Vec::new();
    image::DynamicImage::ImageRgba8(img.clone())
        .write_to(&mut Cursor::new(&mut buf), image::ImageOutputFormat::Png)
        .unwrap();
    buf
}

#[test]
fn a_readable_file_loads_to_its_exact_decode() {
    let img = sample_image(5, 3);
    let bytes = png_bytes(&img);
    let store = png_store();
    match store.load_outcome(true, Some(&bytes)) {
        LoadStep::Loaded(p) => {
            // Byte-identical to decoding the file directly.
            let direct = image::load_from_memory(&bytes).unwrap().to_rgba8();
            assert_eq!(p.width, 5);
            assert_eq!(p.height, 3);
            assert_eq!(p.data, direct.into_raw());
            assert_eq!(p.data, img.into_raw());
        },
        _ => panic!("a readable image must load"),
    }
}

#[test]
fn a_readable_file_never_triggers_production() {
    let img = sample_image(2, 2);
    let bytes = png_bytes(&img);
    let store = FormattedBigImage::new(Manifest {
        available_levels: vec![],
        format: String::from("png"),
        render_command: Some(String::from("never run %LEVEL%")),
    });
    let r = store.load_outcome(true, Some(&bytes));
    assert!(matches!(r, LoadStep::Loaded(_)));
    assert_eq!(store.render_queue_length(), 0);
}
