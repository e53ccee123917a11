use placehold::{
    Canvas, Rgba, Size, alt_color, apply_border, apply_radius, default_filename,
    draw_shadowed_label, ext_for_output, is_inside_rounded, label_extent, parse_color, parse_size,
    render, render_checker, render_diag, split_label,
};

/// The label scale that the automatic fit picks for `text` on an image of
/// `size` (largest scale that keeps the label within ~80% of the image).
fn fit(size: Size, text: &str) -> u32 {
    let (max_len, lines) = label_extent(text);
    if max_len == 0 || lines == 0 {
        return 1;
    }
    let max_w = (size.width as f32 * 0.8) / (max_len as f32 * 8.0);
    let max_h = (size.height as f32 * 0.8) / (lines as f32 * 8.0);
    (max_w.min(max_h).floor() as i64).clamp(1, 64) as u32
}

fn to_image(c: Canvas) -> image::RgbaImage {
    let (w, h) = (c.width(), c.height());
    image::RgbaImage::from_raw(w, h, c.into_raw()).unwrap()
}

fn px(c: Rgba) -> image::Rgba<u8> {
    image::Rgba(c.0)
}

#[test]
fn parse_size_forms() {
    assert_eq!(
        parse_size("640x480").unwrap(),
        Size {
            width: 640,
            height: 480
        }
    );
    assert_eq!(
        parse_size("100").unwrap(),
        Size {
            width: 100,
            height: 100
        }
    );
    assert_eq!(
        parse_size("12X34").unwrap(),
        Size {
            width: 12,
            height: 34
        }
    );
    assert!(parse_size("0x10").is_err());
    assert!(parse_size("axb").is_err());
    assert!(parse_size("99999x1").is_err());
    // Total-pixel cap: 20000x20000 is within the per-side cap but rejected.
    assert!(parse_size("20000x20000").is_err());
    assert!(parse_size("10000x10000").is_ok());
}

#[test]
fn ext_for_output_validates() {
    assert_eq!(ext_for_output("a/b.PNG").unwrap(), "png");
    assert_eq!(ext_for_output("x.jpg").unwrap(), "jpg");
    assert_eq!(ext_for_output("x.jpeg").unwrap(), "jpeg");
    assert!(ext_for_output("x.gif").is_err());
    assert!(ext_for_output("noext").is_err());
}

#[test]
fn parse_color_forms() {
    assert_eq!(
        parse_color("#aabbcc").unwrap(),
        Rgba([0xaa, 0xbb, 0xcc, 255])
    );
    assert_eq!(parse_color("abc").unwrap(), Rgba([0xaa, 0xbb, 0xcc, 255]));
    assert_eq!(
        parse_color("959595").unwrap(),
        Rgba([0x95, 0x95, 0x95, 255])
    );
    assert!(parse_color("xyz").is_err());
    assert!(parse_color("12345").is_err());
}

#[test]
fn parse_color_alpha_forms() {
    // 4-digit RGBA: each digit doubles, including alpha.
    assert_eq!(parse_color("0000").unwrap(), Rgba([0, 0, 0, 0]));
    assert_eq!(
        parse_color("#f00a").unwrap(),
        Rgba([0xff, 0x00, 0x00, 0xaa])
    );
    // 8-digit RRGGBBAA.
    assert_eq!(
        parse_color("aabbccdd").unwrap(),
        Rgba([0xaa, 0xbb, 0xcc, 0xdd])
    );
    assert_eq!(
        parse_color("#00000080").unwrap(),
        Rgba([0x00, 0x00, 0x00, 0x80])
    );
    // 3- and 6-digit forms stay fully opaque.
    assert_eq!(parse_color("abc").unwrap().0[3], 255);
    assert_eq!(parse_color("aabbcc").unwrap().0[3], 255);
    // Unsupported lengths are rejected.
    assert!(parse_color("12").is_err());
    assert!(parse_color("1234567").is_err());
    assert!(parse_color("123456789").is_err());
    // Non-hex digits are rejected even when the length matches, including
    // a sign prefix.
    assert!(parse_color("+abc12").is_err());
    assert!(parse_color("ggggggga").is_err());
}

#[test]
fn filename_default() {
    let s = Size {
        width: 515,
        height: 230,
    };
    assert_eq!(default_filename(s, None, "png"), "515x230.png");
    assert_eq!(
        default_filename(s, Some("#ABC"), "jpg"),
        "515x230_aabbcc.jpg"
    );
    assert_eq!(
        default_filename(s, Some("959595"), "png"),
        "515x230_959595.png"
    );
    // A short RGBA background expands the same way as RGB.
    assert_eq!(
        default_filename(s, Some("#f00a"), "png"),
        "515x230_ff0000aa.png"
    );
}

#[test]
fn split_label_breaks_on_backslash_n_and_newlines() {
    assert_eq!(split_label("one"), vec!["one"]);
    assert_eq!(split_label("a\\nb"), vec!["a", "b"]); // literal backslash-n
    assert_eq!(split_label("a\nb"), vec!["a", "b"]); // real newline
    assert_eq!(split_label("a\\nb\nc"), vec!["a", "b", "c"]);
}

#[test]
fn shadowed_label_draws_shadow_and_text() {
    let s = Size {
        width: 120,
        height: 60,
    };
    let mut img = Canvas::from_pixel(s.width, s.height, Rgba([0, 0, 0, 255]));
    let fg = Rgba([255, 255, 255, 255]);
    let shadow = Rgba([255, 0, 0, 255]);
    draw_shadowed_label(&mut img, fg, Some(shadow), Some("X"), Some(4), fit(s, "X"));
    let img = to_image(img);
    // Both the foreground (white) and the shadow (red) appear somewhere.
    assert!(img.pixels().any(|p| *p == px(fg)));
    assert!(img.pixels().any(|p| *p == px(shadow)));
}

#[test]
fn render_multiline_label_draws_both_lines() {
    // A tall image with a two-line label: foreground pixels appear in both
    // the top and bottom halves.
    let s = Size {
        width: 120,
        height: 120,
    };
    let img = to_image(render(
        s,
        Rgba([0, 0, 0, 255]),
        Rgba([255, 255, 255, 255]),
        Some("HELLO\\nWORLD"),
        None,
        fit(s, "HELLO\\nWORLD"),
    ));
    let fg = image::Rgba([255, 255, 255, 255]);
    let top = (0..60).any(|y| (0..120).any(|x| *img.get_pixel(x, y) == fg));
    let bottom = (60..120).any(|y| (0..120).any(|x| *img.get_pixel(x, y) == fg));
    assert!(top && bottom);
}

#[test]
fn alt_color_contrasts_with_background() {
    // Light background -> darker alt; dark background -> lighter alt.
    let light = alt_color(Rgba([200, 200, 200, 255]));
    assert!(light.0[0] < 200);
    let dark = alt_color(Rgba([20, 20, 20, 255]));
    assert!(dark.0[0] > 20);
}

#[test]
fn render_diag_uses_two_colors() {
    let s = Size {
        width: 40,
        height: 40,
    };
    let bg = Rgba([200, 200, 200, 255]);
    let img = to_image(render_diag(s, bg, Rgba([0, 0, 0, 255]), None, None, Some(4), 1));
    // Stripe index (x+y)/cell alternates: (0,0) is bg, (4,0) is alt.
    assert_eq!(*img.get_pixel(0, 0), px(bg));
    assert_eq!(*img.get_pixel(4, 0), px(alt_color(bg)));
}

#[test]
fn rounded_corners_excluded() {
    // 20x20, radius 6: the very corner (0,0) is outside; the center is inside.
    assert!(!is_inside_rounded(0, 0, 20, 20, 6));
    assert!(is_inside_rounded(10, 10, 20, 20, 6));
    // A straight edge midpoint is inside.
    assert!(is_inside_rounded(10, 0, 20, 20, 6));
    // radius 0 -> everything inside.
    assert!(is_inside_rounded(0, 0, 20, 20, 0));
}

#[test]
fn apply_radius_makes_corner_transparent() {
    let mut img = Canvas::from_pixel(20, 20, Rgba([10, 20, 30, 255]));
    apply_radius(&mut img, 6);
    let img = to_image(img);
    assert_eq!(img.get_pixel(0, 0).0[3], 0); // corner cleared
    assert_eq!(*img.get_pixel(10, 10), image::Rgba([10, 20, 30, 255])); // center kept
}

#[test]
fn apply_border_paints_the_edge() {
    let mut img = Canvas::from_pixel(20, 20, Rgba([0, 0, 0, 255]));
    let red = Rgba([255, 0, 0, 255]);
    apply_border(&mut img, 2, red);
    let img = to_image(img);
    assert_eq!(*img.get_pixel(0, 0), px(red));
    assert_eq!(*img.get_pixel(1, 10), px(red));
    assert_eq!(*img.get_pixel(10, 10), image::Rgba([0, 0, 0, 255])); // interior untouched
}

#[test]
fn render_checker_uses_two_colors() {
    let s = Size {
        width: 32,
        height: 32,
    };
    let bg = Rgba([200, 200, 200, 255]);
    let img = to_image(render_checker(s, bg, Rgba([0, 0, 0, 255]), None, None, Some(8), 1));
    let alt = alt_color(bg);
    // (0,0) is the bg color; the neighboring cell at (8,0) is the alt color.
    assert_eq!(*img.get_pixel(0, 0), px(bg));
    assert_eq!(*img.get_pixel(8, 0), px(alt));
}

#[test]
fn render_fills_background_and_dims() {
    let s = Size {
        width: 60,
        height: 40,
    };
    let img = to_image(render(
        s,
        Rgba([10, 20, 30, 255]),
        Rgba([255, 255, 255, 255]),
        Some("60x40"),
        None,
        fit(s, "60x40"),
    ));
    assert_eq!(img.width(), 60);
    assert_eq!(img.height(), 40);
    // Corner stays the background color (text is centered).
    assert_eq!(*img.get_pixel(0, 0), image::Rgba([10, 20, 30, 255]));
    // At least one foreground pixel exists somewhere (text was drawn).
    let has_fg = img.pixels().any(|p| *p == image::Rgba([255, 255, 255, 255]));
    assert!(has_fg);
}
