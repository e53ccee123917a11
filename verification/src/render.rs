use vstd::prelude::*;

use crate::canvas::{Canvas, buffer_fits, image_of, in_bounds, positions};
use crate::color::{Rgba, alt_color, alt_of};
use crate::draw::{draw_label, label_allowed, with_label};
use crate::shape::{inside_rounded, is_inside_rounded};
use crate::size::Size;

verus! {

/// The checkerboard color at `(x, y)`: `a` on squares of side `cell` whose
/// indices sum to an even number, `b` on the others.
pub open spec fn checker_color(cell: u32, a: [u8; 4], b: [u8; 4], x: u32, y: u32) -> [u8; 4] {
    if (x / cell + y / cell) % 2 == 0 {
        a
    } else {
        b
    }
}

/// The diagonal-stripe color at `(x, y)`: stripes `cell` pixels wide along
/// the anti-diagonals, alternating `a` and `b`, starting with `a`.
pub open spec fn diagonal_color(cell: u32, a: [u8; 4], b: [u8; 4], x: u32, y: u32) -> [u8; 4] {
    if ((x + y) / (cell as int)) % 2 == 0 {
        a
    } else {
        b
    }
}

/// The border width actually drawn: `t`, but at most half of each side
/// (rounded up).
pub open spec fn border_width(w: u32, h: u32, t: u32) -> int {
    let a = if t <= (w + 1) / 2 {
        t as int
    } else {
        (w + 1) / 2
    };
    if a <= (h + 1) / 2 {
        a
    } else {
        (h + 1) / 2
    }
}

/// Whether `(x, y)` lies within `t` pixels of an edge of a `w` x `h` image.
pub open spec fn on_border(x: u32, y: u32, w: u32, h: u32, t: int) -> bool {
    x < t || y < t || x >= w - t || y >= h - t
}

/// A per-pixel rewrite.
enum PixelOp {
    Checker { cell: u32, a: Rgba, b: Rgba },
    Diagonal { cell: u32, a: Rgba, b: Rgba },
    Round { r: u32 },
    Border { t: u32, color: Rgba },
}

/// What `op` writes at `(x, y)` of a `w` x `h` image, if anything.
spec fn op_result(op: PixelOp, w: u32, h: u32, x: u32, y: u32) -> Option<[u8; 4]> {
    match op {
        PixelOp::Checker { cell, a, b } => Some(checker_color(cell, a.0, b.0, x, y)),
        PixelOp::Diagonal { cell, a, b } => Some(diagonal_color(cell, a.0, b.0, x, y)),
        PixelOp::Round { r } => if inside_rounded(x, y, w, h, r) {
            None
        } else {
            Some([0u8, 0, 0, 0])
        },
        PixelOp::Border { t, color } => if on_border(x, y, w, h, t as int) {
            Some(color.0)
        } else {
            None
        },
    }
}

/// The arithmetic of `op` fits its integer types on a `w` x `h` image.
spec fn op_fits(op: PixelOp, w: u32, h: u32) -> bool {
    match op {
        PixelOp::Checker { cell, .. } => cell > 0 && (w > 0 && h > 0 ==> (w - 1) / (cell as int) + (h
            - 1) / (cell as int) <= u32::MAX),
        PixelOp::Diagonal { cell, .. } => cell > 0 && (w > 0 && h > 0 ==> (w - 1) + (h - 1)
            <= u32::MAX),
        PixelOp::Round { .. } => true,
        PixelOp::Border { t, .. } => t <= (w + 1) / 2 && t <= (h + 1) / 2,
    }
}

/// `m` after `op` has been applied to the pixels visited so far (every row
/// above `y`, and row `y` left of `x`).
spec fn rewritten(
    m: Map<(u32, u32), [u8; 4]>,
    op: PixelOp,
    w: u32,
    h: u32,
    y: int,
    x: int,
) -> Map<(u32, u32), [u8; 4]> {
    Map::new(
        |p: (u32, u32)| m.dom().contains(p),
        |p: (u32, u32)|
            if (p.1 < y || (p.1 == y && p.0 < x)) && op_result(op, w, h, p.0, p.1) is Some {
                op_result(op, w, h, p.0, p.1)->0
            } else {
                m[p]
            },
    )
}

fn op_at(op: &PixelOp, w: u32, h: u32, x: u32, y: u32) -> (r: Option<Rgba>)
    requires
        op_fits(*op, w, h),
        x < w,
        y < h,
    ensures
        match r {
            Some(c) => op_result(*op, w, h, x, y) == Some(c.0),
            None => op_result(*op, w, h, x, y) is None,
        },
{
    match op {
        PixelOp::Checker { cell, a, b } => {
            proof {
                vstd::arithmetic::div_mod::lemma_div_is_ordered(x as int, (w - 1) as int, *cell as int);
                vstd::arithmetic::div_mod::lemma_div_is_ordered(y as int, (h - 1) as int, *cell as int);
            }
            if (x / *cell + y / *cell) % 2 == 0 {
                Some(*a)
            } else {
                Some(*b)
            }
        },
        PixelOp::Diagonal { cell, a, b } => {
            if ((x + y) / *cell) % 2 == 0 {
                Some(*a)
            } else {
                Some(*b)
            }
        },
        PixelOp::Round { r } => {
            if is_inside_rounded(x, y, w, h, *r) {
                None
            } else {
                Some(Rgba([0, 0, 0, 0]))
            }
        },
        PixelOp::Border { t, color } => {
            if x < *t || y < *t || x >= w - *t || y >= h - *t {
                Some(*color)
            } else {
                None
            }
        },
    }
}

/// Apply `op` to every pixel of `img`.
fn rewrite_pixels(img: &mut Canvas, op: &PixelOp)
    requires
        old(img).wf(),
        op_fits(*op, old(img).spec_width(), old(img).spec_height()),
    ensures
        final(img).wf(),
        final(img).spec_width() == old(img).spec_width(),
        final(img).spec_height() == old(img).spec_height(),
        final(img).pixels() == Map::new(
            |p: (u32, u32)| in_bounds(old(img).spec_width(), old(img).spec_height(), p),
            |p: (u32, u32)|
                match op_result(*op, old(img).spec_width(), old(img).spec_height(), p.0, p.1) {
                    Some(c) => c,
                    None => old(img).pixels()[p],
                },
        ),
{
    let ghost m0 = img.pixels();
    let w = img.width();
    let h = img.height();
    let mut y: u32 = 0;
    assert(img.pixels() =~= rewritten(m0, *op, w, h, 0, 0));
    while y < h
        invariant
            img.wf(),
            img.spec_width() == w,
            img.spec_height() == h,
            m0.dom() == positions(w, h),
            op_fits(*op, w, h),
            y <= h,
            img.pixels() == rewritten(m0, *op, w, h, y as int, 0),
        decreases h - y,
    {
        let mut x: u32 = 0;
        while x < w
            invariant
                img.wf(),
                img.spec_width() == w,
                img.spec_height() == h,
                m0.dom() == positions(w, h),
                op_fits(*op, w, h),
                y < h,
                x <= w,
                img.pixels() == rewritten(m0, *op, w, h, y as int, x as int),
            decreases w - x,
        {
            match op_at(op, w, h, x, y) {
                Some(c) => {
                    img.put_pixel(x, y, c);
                },
                None => {},
            }
            assert(img.pixels() =~= rewritten(m0, *op, w, h, y as int, x + 1));
            x += 1;
        }
        assert(img.pixels() =~= rewritten(m0, *op, w, h, y + 1, 0));
        y += 1;
    }
    assert(img.pixels() =~= Map::new(
        |p: (u32, u32)| in_bounds(w, h, p),
        |p: (u32, u32)|
            match op_result(*op, w, h, p.0, p.1) {
                Some(c) => c,
                None => m0[p],
            },
    ));
}

/// The checkerboard square size used: `cell` when given and positive, else
/// an eighth of the shorter side, but at least 8.
pub open spec fn checker_cell(size: Size, cell: Option<u32>) -> u32 {
    let short = if size.width <= size.height {
        size.width
    } else {
        size.height
    };
    let auto: u32 = if short / 8 >= 8 {
        (short / 8) as u32
    } else {
        8
    };
    match cell {
        Some(c) => if c > 0 {
            c
        } else {
            auto
        },
        None => auto,
    }
}

/// The stripe width used: `cell` when given and positive, else a twelfth of
/// the shorter side, but at least 6.
pub open spec fn diagonal_cell(size: Size, cell: Option<u32>) -> u32 {
    let short = if size.width <= size.height {
        size.width
    } else {
        size.height
    };
    let auto: u32 = if short / 12 >= 6 {
        (short / 12) as u32
    } else {
        6
    };
    match cell {
        Some(c) => if c > 0 {
            c
        } else {
            auto
        },
        None => auto,
    }
}

fn pick_cell(size: Size, cell: Option<u32>, div: u32, min: u32) -> (c: u32)
    requires
        div > 0,
    ensures
        c > 0 || min == 0,
        div == 8 && min == 8 ==> c == checker_cell(size, cell),
        div == 12 && min == 6 ==> c == diagonal_cell(size, cell),
{
    match cell {
        Some(c) if c > 0 => c,
        _ => {
            let short = if size.width <= size.height {
                size.width
            } else {
                size.height
            };
            if short / div >= min {
                short / div
            } else {
                min
            }
        },
    }
}

/// Render a placeholder image: a solid `bg` fill, with `text` (if any) drawn
/// centered in `fg`. The label scale is `scale`, or the fitted scale `fit`
/// when none is given.
pub fn render(
    size: Size,
    bg: Rgba,
    fg: Rgba,
    text: Option<&str>,
    scale: Option<u32>,
    fit: u32,
) -> (img: Canvas)
    requires
        buffer_fits(size.width, size.height),
        label_allowed(text, scale, fit),
    ensures
        img.wf(),
        img.spec_width() == size.width,
        img.spec_height() == size.height,
        img.pixels() == with_label(
            image_of(size.width, size.height, |p: (u32, u32)| bg.0),
            size.width,
            size.height,
            fg.0,
            None,
            text,
            scale,
            fit,
        ),
{
    let mut img = Canvas::from_pixel(size.width, size.height, bg);
    draw_label(&mut img, fg, text, scale, fit);
    img
}

/// Render a placeholder with a checkerboard background (`bg` and its derived
/// shade) and the centered label. `cell` is the square size in pixels (auto
/// when None or 0).
pub fn render_checker(
    size: Size,
    bg: Rgba,
    fg: Rgba,
    text: Option<&str>,
    scale: Option<u32>,
    cell: Option<u32>,
    fit: u32,
) -> (img: Canvas)
    requires
        buffer_fits(size.width, size.height),
        label_allowed(text, scale, fit),
        size.width > 0 && size.height > 0 ==> (size.width - 1) / (checker_cell(size, cell) as int)
            + (size.height - 1) / (checker_cell(size, cell) as int) <= u32::MAX,
    ensures
        img.wf(),
        img.spec_width() == size.width,
        img.spec_height() == size.height,
        img.pixels() == with_label(
            image_of(
                size.width,
                size.height,
                |p: (u32, u32)| checker_color(checker_cell(size, cell), bg.0, alt_of(bg.0), p.0, p.1),
            ),
            size.width,
            size.height,
            fg.0,
            None,
            text,
            scale,
            fit,
        ),
{
    let alt = alt_color(bg);
    let cell = pick_cell(size, cell, 8, 8);
    let mut img = Canvas::new(size.width, size.height);
    rewrite_pixels(&mut img, &PixelOp::Checker { cell, a: bg, b: alt });
    let ghost m = img.pixels();
    assert(m =~= image_of(
        size.width,
        size.height,
        |p: (u32, u32)| checker_color(cell, bg.0, alt.0, p.0, p.1),
    ));
    draw_label(&mut img, fg, text, scale, fit);
    img
}

/// Render a placeholder with diagonal stripes (`bg` and its derived shade)
/// and the centered label. `cell` is the stripe width in pixels (auto when
/// None or 0).
pub fn render_diag(
    size: Size,
    bg: Rgba,
    fg: Rgba,
    text: Option<&str>,
    scale: Option<u32>,
    cell: Option<u32>,
    fit: u32,
) -> (img: Canvas)
    requires
        buffer_fits(size.width, size.height),
        label_allowed(text, scale, fit),
        size.width > 0 && size.height > 0 ==> (size.width - 1) + (size.height - 1) <= u32::MAX,
    ensures
        img.wf(),
        img.spec_width() == size.width,
        img.spec_height() == size.height,
        img.pixels() == with_label(
            image_of(
                size.width,
                size.height,
                |p: (u32, u32)| diagonal_color(diagonal_cell(size, cell), bg.0, alt_of(bg.0), p.0, p.1),
            ),
            size.width,
            size.height,
            fg.0,
            None,
            text,
            scale,
            fit,
        ),
{
    let alt = alt_color(bg);
    let cell = pick_cell(size, cell, 12, 6);
    let mut img = Canvas::new(size.width, size.height);
    rewrite_pixels(&mut img, &PixelOp::Diagonal { cell, a: bg, b: alt });
    let ghost m = img.pixels();
    assert(m =~= image_of(
        size.width,
        size.height,
        |p: (u32, u32)| diagonal_color(cell, bg.0, alt.0, p.0, p.1),
    ));
    draw_label(&mut img, fg, text, scale, fit);
    img
}

/// Clear (make transparent) the pixels outside a rounded rectangle of radius
/// `r`. A no-op when `r` is 0.
pub fn apply_radius(img: &mut Canvas, r: u32)
    requires
        old(img).wf(),
    ensures
        final(img).wf(),
        final(img).spec_width() == old(img).spec_width(),
        final(img).spec_height() == old(img).spec_height(),
        final(img).pixels() == image_of(
            old(img).spec_width(),
            old(img).spec_height(),
            |p: (u32, u32)|
                if inside_rounded(p.0, p.1, old(img).spec_width(), old(img).spec_height(), r) {
                    old(img).pixels()[p]
                } else {
                    [0u8, 0, 0, 0]
                },
        ),
{
    let ghost m0 = img.pixels();
    let ghost w = img.spec_width();
    let ghost h = img.spec_height();
    if r == 0 {
        assert(img.pixels() =~= image_of(
            w,
            h,
            |p: (u32, u32)|
                if inside_rounded(p.0, p.1, w, h, r) {
                    m0[p]
                } else {
                    [0u8, 0, 0, 0]
                },
        ));
        return ;
    }
    rewrite_pixels(img, &PixelOp::Round { r });
    assert(img.pixels() =~= image_of(
        w,
        h,
        |p: (u32, u32)|
            if inside_rounded(p.0, p.1, w, h, r) {
                m0[p]
            } else {
                [0u8, 0, 0, 0]
            },
    ));
}

/// Draw a `thickness`-pixel border of `color` around the image edges.
pub fn apply_border(img: &mut Canvas, thickness: u32, color: Rgba)
    requires
        old(img).wf(),
    ensures
        final(img).wf(),
        final(img).spec_width() == old(img).spec_width(),
        final(img).spec_height() == old(img).spec_height(),
        final(img).pixels() == image_of(
            old(img).spec_width(),
            old(img).spec_height(),
            |p: (u32, u32)|
                if on_border(
                    p.0,
                    p.1,
                    old(img).spec_width(),
                    old(img).spec_height(),
                    border_width(old(img).spec_width(), old(img).spec_height(), thickness),
                ) {
                    color.0
                } else {
                    old(img).pixels()[p]
                },
        ),
{
    let ghost m0 = img.pixels();
    let w = img.width();
    let h = img.height();
    let ghost bw = border_width(w, h, thickness);
    if thickness == 0 {
        assert(img.pixels() =~= image_of(
            w,
            h,
            |p: (u32, u32)|
                if on_border(p.0, p.1, w, h, bw) {
                    color.0
                } else {
                    m0[p]
                },
        ));
        return ;
    }
    let half_w = w / 2 + w % 2;
    let half_h = h / 2 + h % 2;
    let t1 = if thickness <= half_w {
        thickness
    } else {
        half_w
    };
    let t = if t1 <= half_h {
        t1
    } else {
        half_h
    };
    assert(t == bw);
    rewrite_pixels(img, &PixelOp::Border { t, color });
    assert(img.pixels() =~= image_of(
        w,
        h,
        |p: (u32, u32)|
            if on_border(p.0, p.1, w, h, bw) {
                color.0
            } else {
                m0[p]
            },
    ));
}

} // verus!
