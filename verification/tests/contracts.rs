use placehold::{
    Canvas, ErrorKind, Rgba, Size, alt_color, apply_border, apply_radius, can_draw_label,
    default_filename, draw_label, draw_shadowed_label, ext_for_output, is_inside_rounded,
    label_extent, output_extension, parse_color, parse_size, render, render_checker, render_diag,
    split_label,
};

fn to_image(c: Canvas) -> image::RgbaImage {
    let (w, h) = (c.width(), c.height());
    image::RgbaImage::from_raw(w, h, c.into_raw()).unwrap()
}

#[test]
fn parse_size_reports_each_error_with_its_input() {
    let e = parse_size("axb").unwrap_err();
    assert_eq!(e.kind, ErrorKind::InvalidSize);
    assert_eq!(e.input, "axb");
    assert_eq!(parse_size("0x10").unwrap_err().kind, ErrorKind::NonPositiveSize);
    assert_eq!(parse_size("20001x1").unwrap_err().kind, ErrorKind::SideTooLarge);
    assert_eq!(parse_size("20000x20000").unwrap_err().kind, ErrorKind::TooManyPixels);
    assert_eq!(parse_size("4294967296x1").unwrap_err().kind, ErrorKind::InvalidSize);
    assert_eq!(parse_size("x5").unwrap_err().kind, ErrorKind::InvalidSize);
    assert_eq!(parse_size("-5").unwrap_err().kind, ErrorKind::InvalidSize);
    assert_eq!(parse_size("5x").unwrap_err().kind, ErrorKind::InvalidSize);
    assert_eq!(parse_size("").unwrap_err().kind, ErrorKind::InvalidSize);
    assert_eq!(parse_size("+").unwrap_err().kind, ErrorKind::InvalidSize);
}

#[test]
fn parse_size_trims_signs_and_case() {
    assert_eq!(parse_size(" \t12X34\n").unwrap(), Size { width: 12, height: 34 });
    assert_eq!(parse_size("+7").unwrap(), Size { width: 7, height: 7 });
    assert_eq!(parse_size("007x+08").unwrap(), Size { width: 7, height: 8 });
    // Only the first separator splits; the rest must be digits.
    assert!(parse_size("1x2x3").is_err());
    // Non-breaking space is Unicode white space and is trimmed too.
    assert_eq!(parse_size("\u{a0}9x9").unwrap(), Size { width: 9, height: 9 });
}

#[test]
fn file_name_size_parses_back() {
    let s = Size { width: 640, height: 480 };
    let name = default_filename(s, None, "png");
    let dims = name.strip_suffix(".png").unwrap();
    assert_eq!(parse_size(dims).unwrap(), s);
}

#[test]
fn parse_color_trims_and_reports_its_input() {
    assert_eq!(parse_color("  #ABC ").unwrap(), Rgba([0xaa, 0xbb, 0xcc, 255]));
    assert_eq!(parse_color("1a2B3c4D").unwrap(), Rgba([0x1a, 0x2b, 0x3c, 0x4d]));
    let e = parse_color("#12").unwrap_err();
    assert_eq!(e.kind, ErrorKind::InvalidColor);
    assert_eq!(e.input, "#12");
    // Only one leading '#' is dropped.
    assert!(parse_color("##abc").is_err());
    assert!(parse_color("").is_err());
}

#[test]
fn hash_is_optional_and_short_forms_double() {
    assert_eq!(parse_color("#f00a").unwrap(), parse_color("ff0000aa").unwrap());
    assert_eq!(parse_color("f00").unwrap(), parse_color("#ff0000").unwrap());
}

#[test]
fn output_extension_normalizes_and_reports() {
    assert_eq!(ext_for_output("photo.WebP").unwrap(), "webp");
    let e = ext_for_output("x.GIF").unwrap_err();
    assert_eq!(e.kind, ErrorKind::UnsupportedExtension);
    assert_eq!(e.input, "gif");
    let e = ext_for_output("dir.d/noext").unwrap_err();
    assert_eq!(e.kind, ErrorKind::MissingExtension);
    assert_eq!(e.input, "dir.d/noext");
    let e = output_extension("out", None).unwrap_err();
    assert_eq!(e.kind, ErrorKind::MissingExtension);
    assert_eq!(e.input, "out");
    assert_eq!(output_extension("x.JPEG", Some("JPEG")).unwrap(), "jpeg");
    assert_eq!(output_extension("x.jpeg", Some("jpeg")).unwrap(), "jpeg");
    assert_eq!(ext_for_output("a.b/c.tar.GZ").unwrap_err().input, "gz");
}

#[test]
fn output_extension_of_slash_paths() {
    assert_eq!(ext_for_output("/tmp/x.png").unwrap(), "png");
    assert_eq!(ext_for_output("out/..x.JPG").unwrap(), "jpg");
    let e = ext_for_output("dir.png/file").unwrap_err();
    assert_eq!(e.kind, ErrorKind::MissingExtension);
    assert_eq!(e.input, "dir.png/file");
    let e = ext_for_output("/tmp/.png").unwrap_err();
    assert_eq!(e.kind, ErrorKind::MissingExtension);
    let e = ext_for_output("x.png/..").unwrap_err();
    assert_eq!(e.kind, ErrorKind::MissingExtension);
}

#[test]
fn default_filename_counts_utf8_bytes_for_short_forms() {
    let s = Size { width: 1, height: 2 };
    // Two bytes: not a short form, so kept as it is.
    assert_eq!(default_filename(s, Some("é"), "png"), "1x2_é.png");
    // Three bytes: a short form, each character doubled.
    assert_eq!(default_filename(s, Some(" #éA "), "png"), "1x2_ééaa.png");
    assert_eq!(default_filename(s, Some("ABCDE"), "jpg"), "1x2_abcde.jpg");
}

#[test]
fn split_label_keeps_empty_pieces() {
    assert_eq!(split_label(""), vec![""]);
    assert_eq!(split_label("a\\nb\n"), vec!["a", "b", ""]);
    assert_eq!(split_label("\\\\nx"), vec!["\\", "x"]);
    let lines = split_label("p\\nq\nr");
    assert_eq!(lines.join("\n"), "p\nq\nr");
}

#[test]
fn label_extent_measures_lines() {
    assert_eq!(label_extent("ab\\nc"), (2, 2));
    assert_eq!(label_extent("hello"), (5, 1));
    assert_eq!(label_extent(""), (0, 1));
}

#[test]
fn can_draw_label_bounds_the_scale() {
    assert!(can_draw_label(None, Some(u32::MAX), 1));
    assert!(can_draw_label(Some(""), Some(u32::MAX), 1));
    assert!(can_draw_label(Some("640x480"), Some(64), 1));
    assert!(!can_draw_label(Some("640x480"), Some(u32::MAX), 1));
    assert!(can_draw_label(Some("X"), None, 0x2000_0000));
    assert!(!can_draw_label(Some("X"), None, 0x2000_0001));
    assert!(can_draw_label(Some("\u{e9}"), Some(u32::MAX), 1));
    assert!(can_draw_label(Some("   "), Some(u32::MAX), 1));
    assert!(!can_draw_label(Some(" ~ "), Some(0x2000_0001), 1));
    // Lines without glyphs draw nothing, at any scale.
    assert!(can_draw_label(Some("\\n"), Some(u32::MAX), 1));
    // Long labels at ordinary scales are accepted.
    assert!(can_draw_label(Some(&"W".repeat(4_194_305)), Some(64), 1));
}

#[test]
fn alt_color_blends_eighteen_percent() {
    assert_eq!(alt_color(Rgba([200, 200, 200, 255])), Rgba([164, 164, 164, 255]));
    assert_eq!(alt_color(Rgba([20, 20, 20, 7])), Rgba([62, 62, 62, 7]));
    // Pure blue is dark, so it moves toward white; the alt always differs.
    assert_eq!(alt_color(Rgba([0, 0, 255, 255])), Rgba([45, 45, 255, 255]));
}

#[test]
fn rounded_test_is_symmetric() {
    for (w, h, r) in [(20u32, 20u32, 6u32), (7, 13, 3), (9, 4, 10)] {
        for y in 0..h {
            for x in 0..w {
                let inside = is_inside_rounded(x, y, w, h, r);
                assert_eq!(inside, is_inside_rounded(w - 1 - x, y, w, h, r));
                assert_eq!(inside, is_inside_rounded(x, h - 1 - y, w, h, r));
            }
        }
    }
    assert!(!is_inside_rounded(0, 0, 0, 5, 0));
    // Pixels outside the rectangle are outside, whatever the radius.
    assert!(!is_inside_rounded(100, 100, 20, 20, 0));
    assert!(!is_inside_rounded(20, 10, 20, 20, 6));
    assert!(!is_inside_rounded(10, 25, 20, 20, 0));
    assert!(!is_inside_rounded(0, 0, 9, 4, 10));
}

#[test]
fn canvas_reads_back_what_is_written() {
    let mut c = Canvas::from_pixel(3, 2, Rgba([1, 2, 3, 4]));
    c.put_pixel(2, 1, Rgba([9, 8, 7, 6]));
    assert_eq!(c.get_pixel(2, 1), Rgba([9, 8, 7, 6]));
    assert_eq!(c.get_pixel(0, 0), Rgba([1, 2, 3, 4]));
    assert_eq!((c.width(), c.height()), (3, 2));
    let raw = c.into_raw();
    assert_eq!(raw.len(), 24);
    assert_eq!(&raw[20..24], &[9, 8, 7, 6]);
    assert_eq!(&raw[0..4], &[1, 2, 3, 4]);
    assert_eq!(Canvas::new(1, 1).get_pixel(0, 0), Rgba([0, 0, 0, 0]));
}

#[test]
fn glyph_pixels_follow_the_font() {
    // An 8x8 canvas holds exactly one glyph at scale 1, with no offset.
    let mut c = Canvas::from_pixel(8, 8, Rgba([0, 0, 0, 255]));
    let fg = Rgba([255, 255, 255, 255]);
    draw_label(&mut c, fg, Some("A"), Some(1), 1);
    let glyph = font8x8::legacy::BASIC_LEGACY['A' as usize];
    for y in 0..8u32 {
        for x in 0..8u32 {
            let lit = (glyph[y as usize] >> x) & 1 == 1;
            let want = if lit { fg } else { Rgba([0, 0, 0, 255]) };
            assert_eq!(c.get_pixel(x, y), want);
        }
    }
}

#[test]
fn non_ascii_glyphs_are_blank() {
    let mut c = Canvas::from_pixel(16, 8, Rgba([0, 0, 0, 255]));
    draw_label(&mut c, Rgba([255, 255, 255, 255]), Some("é"), Some(2), 1);
    let img = to_image(c);
    assert!(img.pixels().all(|p| *p == image::Rgba([0, 0, 0, 255])));
}

#[test]
fn shadow_sits_one_quarter_scale_down_right() {
    // Scale 4: the shadow of each lit pixel is shifted by 1 (4 / 4).
    let mut c = Canvas::from_pixel(64, 64, Rgba([0, 0, 0, 255]));
    let fg = Rgba([255, 255, 255, 255]);
    let red = Rgba([255, 0, 0, 255]);
    draw_shadowed_label(&mut c, fg, Some(red), Some("I"), Some(4), 1);
    let img = to_image(c);
    let is = |x: u32, y: u32, col: Rgba| *img.get_pixel(x, y) == image::Rgba(col.0);
    // Every pixel is the background, the label or its shadow.
    assert!(img.pixels().all(|p| p.0 == [0, 0, 0, 255] || p.0 == fg.0 || p.0 == red.0));
    // Each red pixel has a white or red neighbour up-left (its source).
    for y in 1..64 {
        for x in 1..64 {
            if is(x, y, red) {
                assert!(!is(x - 1, y - 1, Rgba([0, 0, 0, 255])));
            }
        }
    }
    assert!(img.pixels().any(|p| p.0 == red.0));
}

#[test]
fn empty_label_is_a_solid_fill() {
    let s = Size { width: 12, height: 9 };
    let img = to_image(render(s, Rgba([5, 6, 7, 8]), Rgba([255, 255, 255, 255]), Some(""), None, 3));
    assert!(img.pixels().all(|p| p.0 == [5, 6, 7, 8]));
}

#[test]
fn patterns_alternate() {
    let s = Size { width: 24, height: 24 };
    let bg = Rgba([10, 10, 10, 255]);
    let alt = alt_color(bg);
    let checker = to_image(render_checker(s, bg, bg, None, None, Some(3), 1));
    let diag = to_image(render_diag(s, bg, bg, None, None, Some(3), 1));
    for y in 0..24u32 {
        for x in 0..24u32 {
            let c = if (x / 3 + y / 3) % 2 == 0 { bg } else { alt };
            assert_eq!(checker.get_pixel(x, y).0, c.0);
            let d = if ((x + y) / 3) % 2 == 0 { bg } else { alt };
            assert_eq!(diag.get_pixel(x, y).0, d.0);
        }
    }
    // Automatic cells: an eighth (at least 8) and a twelfth (at least 6) of
    // the shorter side.
    let checker = to_image(render_checker(s, bg, bg, None, None, Some(0), 1));
    assert_eq!(checker.get_pixel(7, 0).0, bg.0);
    assert_eq!(checker.get_pixel(8, 0).0, alt.0);
    let diag = to_image(render_diag(s, bg, bg, None, None, None, 1));
    assert_eq!(diag.get_pixel(5, 0).0, bg.0);
    assert_eq!(diag.get_pixel(6, 0).0, alt.0);
}

#[test]
fn border_and_radius_edge_cases() {
    let red = Rgba([255, 0, 0, 255]);
    let mut c = Canvas::from_pixel(5, 3, Rgba([1, 1, 1, 1]));
    apply_border(&mut c, 0, red);
    assert!(to_image(c).pixels().all(|p| p.0 == [1, 1, 1, 1]));
    let mut c = Canvas::from_pixel(5, 3, Rgba([1, 1, 1, 1]));
    apply_border(&mut c, 100, red);
    assert!(to_image(c).pixels().all(|p| p.0 == red.0));
    let mut c = Canvas::from_pixel(5, 3, Rgba([1, 1, 1, 1]));
    apply_radius(&mut c, 0);
    assert!(to_image(c).pixels().all(|p| p.0 == [1, 1, 1, 1]));
    let mut c = Canvas::from_pixel(7, 7, Rgba([1, 1, 1, 1]));
    apply_radius(&mut c, 3);
    let img = to_image(c);
    assert_eq!(img.get_pixel(0, 0).0, [0, 0, 0, 0]);
    assert_eq!(img.get_pixel(6, 6).0, [0, 0, 0, 0]);
    assert_eq!(img.get_pixel(3, 0).0, [1, 1, 1, 1]);
}

#[test]
fn trimming_follows_char_is_whitespace() {
    for code in (0u32..0x3100).chain([0xfeff, 0x1_0000, 0x10_ffff]) {
        let Some(c) = char::from_u32(code) else { continue };
        if c.is_ascii_digit() {
            continue;
        }
        let text = format!("{c}5{c}");
        assert_eq!(parse_size(&text).is_ok(), c.is_whitespace(), "{code:#x}");
    }
}

#[test]
fn numbers_read_as_u32_from_str_does() {
    for text in ["0", "1", "9", "10", "99", "20000", "4294967295", "4294967296", "+12", "-1", "1_0",
        " 7", "٣", "00000000000000000000000012"]
    {
        let std_value = text.parse::<u32>().ok();
        let side = parse_size(&format!("{text}x1"));
        match std_value {
            Some(v) if (1..=20_000).contains(&v) => assert_eq!(side.unwrap().width, v),
            Some(_) => assert_ne!(side.unwrap_err().kind, ErrorKind::InvalidSize),
            None if text.trim() != text => {}
            None => assert_eq!(side.unwrap_err().kind, ErrorKind::InvalidSize),
        }
    }
}

#[test]
fn label_is_centred_with_the_odd_pixel_on_the_right() {
    // 11 x 9 canvas, one glyph at scale 1: margins of 1 left, 2 right, 0
    // above and 1 below.
    let mut c = Canvas::from_pixel(11, 9, Rgba([0, 0, 0, 255]));
    let fg = Rgba([255, 255, 255, 255]);
    draw_label(&mut c, fg, Some("W"), Some(1), 1);
    let glyph = font8x8::legacy::BASIC_LEGACY['W' as usize];
    for y in 0..9u32 {
        for x in 0..11u32 {
            let lit = (1..9).contains(&x)
                && (0..8).contains(&y)
                && (glyph[y as usize] >> (x - 1)) & 1 == 1;
            assert_eq!(c.get_pixel(x, y) == fg, lit, "({x}, {y})");
        }
    }
}

#[test]
fn wide_labels_are_clipped_to_the_canvas() {
    let s = Size { width: 16, height: 16 };
    let text = "W".repeat(300);
    let img = to_image(render(s, Rgba([0, 0, 0, 255]), Rgba([255, 255, 255, 255]), Some(&text), Some(64), 1));
    assert_eq!(img.dimensions(), (16, 16));
    assert!(img.pixels().all(|p| p.0 == [0, 0, 0, 255] || p.0 == [255, 255, 255, 255]));
}

#[test]
fn text_is_drawn_over_its_shadow() {
    let bg = Rgba([0, 0, 0, 255]);
    let fg = Rgba([255, 255, 255, 255]);
    let red = Rgba([255, 0, 0, 255]);
    let mut plain = Canvas::from_pixel(80, 60, bg);
    draw_shadowed_label(&mut plain, fg, None, Some("Ag\\nj_"), Some(3), 1);
    let mut shadowed = Canvas::from_pixel(80, 60, bg);
    draw_shadowed_label(&mut shadowed, fg, Some(red), Some("Ag\\nj_"), Some(3), 1);
    let a = to_image(plain);
    let b = to_image(shadowed);
    for (pa, pb) in a.pixels().zip(b.pixels()) {
        assert!(pb == pa || pb.0 == red.0);
        if pa.0 != bg.0 {
            assert_eq!(pb.0, fg.0);
        }
    }
    assert!(b.pixels().any(|p| p.0 == red.0));
}

#[test]
fn render_is_a_fill_then_the_label() {
    let s = Size { width: 50, height: 30 };
    let bg = Rgba([10, 20, 30, 255]);
    let fg = Rgba([200, 100, 0, 255]);
    let r = to_image(render(s, bg, fg, Some("Hi\\n5"), None, 2));
    let mut c = Canvas::from_pixel(50, 30, bg);
    draw_shadowed_label(&mut c, fg, None, Some("Hi\\n5"), None, 2);
    assert!(r == to_image(c));
}

#[test]
fn label_has_one_line_per_newline_and_one_more() {
    assert_eq!(split_label("a\\nb\nc\\n").len(), 4);
    assert_eq!(split_label("abc").len(), 1);
}
