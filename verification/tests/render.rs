//! Generate real images and decode them back.

use image::{GenericImageView, ImageFormat};
use placehold::{Canvas, Size, label_extent, parse_color, parse_size, render};

fn fit(size: Size, text: &str) -> u32 {
    let (max_len, lines) = label_extent(text);
    if max_len == 0 || lines == 0 {
        return 1;
    }
    let max_w = (size.width as f32 * 0.8) / (max_len as f32 * 8.0);
    let max_h = (size.height as f32 * 0.8) / (lines as f32 * 8.0);
    (max_w.min(max_h).floor() as i64).clamp(1, 64) as u32
}

fn into_image(c: Canvas) -> image::RgbaImage {
    let (w, h) = (c.width(), c.height());
    image::RgbaImage::from_raw(w, h, c.into_raw()).unwrap()
}

#[test]
fn renders_and_encodes_a_png() {
    let size = parse_size("120x80").unwrap();
    let bg = parse_color("959595").unwrap();
    let fg = parse_color("ffffff").unwrap();
    let img = into_image(render(size, bg, fg, Some("120x80"), None, fit(size, "120x80")));

    let mut png = std::io::Cursor::new(Vec::new());
    img.write_to(&mut png, ImageFormat::Png).unwrap();

    let decoded = image::load_from_memory_with_format(png.get_ref(), ImageFormat::Png).unwrap();
    assert_eq!(decoded.dimensions(), (120, 80));
    // Top-left corner keeps the background color.
    assert_eq!(decoded.get_pixel(0, 0), image::Rgba([0x95, 0x95, 0x95, 255]));
}

#[test]
fn no_text_is_a_solid_fill() {
    let size = parse_size("16").unwrap();
    let bg = parse_color("#000").unwrap();
    let fg = parse_color("#fff").unwrap();
    let img = into_image(render(size, bg, fg, None, None, 1));
    // Every pixel is the background color.
    assert!(img.pixels().all(|p| *p == image::Rgba([0, 0, 0, 255])));
}
