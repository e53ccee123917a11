use vstd::prelude::*;

use crate::canvas::{Canvas, positions};
use crate::color::Rgba;
use crate::glyph::{glyph_for, glyph_lit};
use crate::label::{label_lines, split_label, string_views};
use crate::text::chars_of;

verus! {

/// Rust's signed `d / 2`, which rounds toward zero.
pub open spec fn half_toward_zero(d: int) -> int {
    if d >= 0 {
        d / 2
    } else {
        -((-d) / 2)
    }
}

/// The width in pixels of `n` glyphs drawn at scale `s`.
pub open spec fn text_width(n: nat, s: u32) -> int {
    n * 8 * s
}

/// The left edge of a line of `n` glyphs at scale `s`, centred on a canvas
/// `w` pixels wide and then shifted right by `dx`.
pub open spec fn line_left(w: u32, n: nat, s: u32, dx: int) -> int {
    half_toward_zero(w - text_width(n, s)) + dx
}

/// Whether the line `chars`, drawn at scale `s` with its top-left corner at
/// `(ox, oy)`, lights the pixel `(x, y)`: each glyph is an 8x8 bitmap whose
/// lit bits become `s` x `s` blocks, glyphs side by side from the left.
pub open spec fn line_lights(chars: Seq<char>, s: u32, ox: int, oy: int, x: int, y: int) -> bool {
    let rx = x - ox;
    let ry = y - oy;
    let cw = 8 * s;
    &&& s > 0
    &&& 0 <= rx < text_width(chars.len(), s)
    &&& 0 <= ry < cw
    &&& glyph_lit(chars[rx / cw], ry / (s as int), (rx % cw) / (s as int))
}

/// Whether the coordinate `c` lands on the pixel coordinate `x`: `c` is not
/// negative and its lowest 32 bits are `x` (what converting it to `u32`
/// keeps).
pub open spec fn lands(c: int, x: u32) -> bool {
    c >= 0 && c % 0x1_0000_0000 == x
}

/// Whether the line `chars`, at scale `s` with its top-left corner at
/// `(ox, oy)`, lights a point that lands on the canvas pixel `(x, y)`.
pub open spec fn line_hits(chars: Seq<char>, s: u32, ox: int, oy: int, x: u32, y: u32) -> bool {
    exists|px: int, py: int|
        #[trigger] line_lights(chars, s, ox, oy, px, py) && lands(px, x) && lands(py, y)
}

/// `m` with every pixel that the line hits set to `color`: the line is
/// `chars` at scale `s`, centred on a canvas `w` wide, shifted right by `dx`,
/// with its top at `oy`.
pub open spec fn paint_line(
    m: Map<(u32, u32), [u8; 4]>,
    w: u32,
    chars: Seq<char>,
    s: u32,
    dx: int,
    oy: int,
    color: [u8; 4],
) -> Map<(u32, u32), [u8; 4]> {
    let ox = line_left(w, chars.len(), s, dx);
    Map::new(
        |p: (u32, u32)| m.dom().contains(p),
        |p: (u32, u32)|
            if line_hits(chars, s, ox, oy, p.0, p.1) {
                color
            } else {
                m[p]
            },
    )
}

/// Whether the point `(px, py)` comes before `(cx, cy)`, row by row.
spec fn before(px: int, py: int, cx: int, cy: int) -> bool {
    py < cy || (py == cy && px < cx)
}

/// Whether a point of the line before `(cx, cy)` lands on `(x, y)`.
spec fn hit_before(
    chars: Seq<char>,
    s: u32,
    ox: int,
    oy: int,
    cx: int,
    cy: int,
    x: u32,
    y: u32,
) -> bool {
    exists|px: int, py: int|
        #[trigger] line_lights(chars, s, ox, oy, px, py) && lands(px, x) && lands(py, y) && before(
            px,
            py,
            cx,
            cy,
        )
}

/// The part of `paint_line` done once the points of the line before
/// `(cx, cy)` have been visited.
spec fn painted_before(
    m: Map<(u32, u32), [u8; 4]>,
    chars: Seq<char>,
    s: u32,
    ox: int,
    oy: int,
    color: [u8; 4],
    cx: int,
    cy: int,
) -> Map<(u32, u32), [u8; 4]> {
    Map::new(
        |p: (u32, u32)| m.dom().contains(p),
        |p: (u32, u32)|
            if hit_before(chars, s, ox, oy, cx, cy, p.0, p.1) {
                color
            } else {
                m[p]
            },
    )
}

/// Whether `c` is a visible ASCII character: the font draws control
/// characters, space and DEL blank, and has no glyph beyond ASCII.
pub open spec fn is_visible_ascii(c: char) -> bool {
    0x21 <= c as u32 && c as u32 <= 0x7e
}

/// Whether `chars` holds a visible ASCII character.
pub open spec fn has_visible(chars: Seq<char>) -> bool {
    exists|j: int| 0 <= j < chars.len() && is_visible_ascii(#[trigger] chars[j])
}

/// Limits within which drawing the line `chars` on a canvas `w` wide does
/// not overflow: a scale of at least 1 and, for a line with a visible glyph,
/// at most 2^29 (beyond which `col * scale` overflows `u32` for glyphs lit in
/// their last column); and offsets that keep every column and row of the line
/// within `i64`.
pub open spec fn line_fits(w: u32, chars: Seq<char>, s: u32, dx: int, oy: int) -> bool {
    let n = chars.len();
    &&& 1 <= s
    &&& (has_visible(chars) ==> s <= 0x2000_0000)
    &&& text_width(n, s) <= i64::MAX
    &&& i64::MIN <= line_left(w, n, s, dx)
    &&& line_left(w, n, s, dx) + text_width(n, s) <= i64::MAX
    &&& (n > 0 ==> oy + 8 * s <= i64::MAX)
}

/// Visiting a point that is not lit, or that lands off the canvas, leaves
/// what has been painted as it was.
proof fn lemma_skip_point(
    m: Map<(u32, u32), [u8; 4]>,
    w: u32,
    h: u32,
    chars: Seq<char>,
    s: u32,
    ox: int,
    oy: int,
    color: [u8; 4],
    px: int,
    py: int,
)
    requires
        m.dom() == positions(w, h),
        px >= 0,
        py >= 0,
        !line_lights(chars, s, ox, oy, px, py) || px % 0x1_0000_0000 >= w || py % 0x1_0000_0000
            >= h,
    ensures
        painted_before(m, chars, s, ox, oy, color, px + 1, py) == painted_before(
            m,
            chars,
            s,
            ox,
            oy,
            color,
            px,
            py,
        ),
{
    assert forall|x: u32, y: u32| m.dom().contains((x, y)) implies hit_before(
        chars,
        s,
        ox,
        oy,
        px + 1,
        py,
        x,
        y,
    ) == hit_before(chars, s, ox, oy, px, py, x, y) by {
        if hit_before(chars, s, ox, oy, px + 1, py, x, y) {
            let (qx, qy) = choose|qx: int, qy: int|
                #[trigger] line_lights(chars, s, ox, oy, qx, qy) && lands(qx, x) && lands(qy, y)
                    && before(qx, qy, px + 1, py);
            assert(before(qx, qy, px, py));
        }
        if hit_before(chars, s, ox, oy, px, py, x, y) {
            let (qx, qy) = choose|qx: int, qy: int|
                #[trigger] line_lights(chars, s, ox, oy, qx, qy) && lands(qx, x) && lands(qy, y)
                    && before(qx, qy, px, py);
            assert(before(qx, qy, px + 1, py));
        }
    }
    assert(painted_before(m, chars, s, ox, oy, color, px + 1, py) =~= painted_before(
        m,
        chars,
        s,
        ox,
        oy,
        color,
        px,
        py,
    ));
}

/// Visiting a lit point that lands on the canvas paints it.
proof fn lemma_paint_point(
    m: Map<(u32, u32), [u8; 4]>,
    w: u32,
    h: u32,
    chars: Seq<char>,
    s: u32,
    ox: int,
    oy: int,
    color: [u8; 4],
    px: int,
    py: int,
)
    requires
        m.dom() == positions(w, h),
        px >= 0,
        py >= 0,
        line_lights(chars, s, ox, oy, px, py),
        px % 0x1_0000_0000 < w,
        py % 0x1_0000_0000 < h,
    ensures
        painted_before(m, chars, s, ox, oy, color, px + 1, py) == painted_before(
            m,
            chars,
            s,
            ox,
            oy,
            color,
            px,
            py,
        ).insert(((px % 0x1_0000_0000) as u32, (py % 0x1_0000_0000) as u32), color),
{
    let t = ((px % 0x1_0000_0000) as u32, (py % 0x1_0000_0000) as u32);
    assert forall|x: u32, y: u32| m.dom().contains((x, y)) && (x, y) != t implies hit_before(
        chars,
        s,
        ox,
        oy,
        px + 1,
        py,
        x,
        y,
    ) == hit_before(chars, s, ox, oy, px, py, x, y) by {
        if hit_before(chars, s, ox, oy, px + 1, py, x, y) {
            let (qx, qy) = choose|qx: int, qy: int|
                #[trigger] line_lights(chars, s, ox, oy, qx, qy) && lands(qx, x) && lands(qy, y)
                    && before(qx, qy, px + 1, py);
            assert(before(qx, qy, px, py));
        }
        if hit_before(chars, s, ox, oy, px, py, x, y) {
            let (qx, qy) = choose|qx: int, qy: int|
                #[trigger] line_lights(chars, s, ox, oy, qx, qy) && lands(qx, x) && lands(qy, y)
                    && before(qx, qy, px, py);
            assert(before(qx, qy, px + 1, py));
        }
    }
    assert(hit_before(chars, s, ox, oy, px + 1, py, t.0, t.1));
    assert(painted_before(m, chars, s, ox, oy, color, px + 1, py) =~= painted_before(
        m,
        chars,
        s,
        ox,
        oy,
        color,
        px,
        py,
    ).insert(t, color));
}

/// Two visiting positions between which no lit point lands on the canvas
/// paint the same.
proof fn lemma_same_painted(
    m: Map<(u32, u32), [u8; 4]>,
    w: u32,
    h: u32,
    chars: Seq<char>,
    s: u32,
    ox: int,
    oy: int,
    color: [u8; 4],
    ax: int,
    ay: int,
    bx: int,
    by: int,
)
    requires
        m.dom() == positions(w, h),
        before(ax, ay, bx, by) || (ax == bx && ay == by),
        forall|px: int, py: int|
            #![trigger line_lights(chars, s, ox, oy, px, py)]
            px >= 0 && py >= 0 && line_lights(chars, s, ox, oy, px, py) && before(px, py, bx, by)
                && !before(px, py, ax, ay) ==> px % 0x1_0000_0000 >= w || py % 0x1_0000_0000 >= h,
    ensures
        painted_before(m, chars, s, ox, oy, color, ax, ay) == painted_before(
            m,
            chars,
            s,
            ox,
            oy,
            color,
            bx,
            by,
        ),
{
    assert forall|x: u32, y: u32| m.dom().contains((x, y)) implies hit_before(
        chars,
        s,
        ox,
        oy,
        ax,
        ay,
        x,
        y,
    ) == hit_before(chars, s, ox, oy, bx, by, x, y) by {
        if hit_before(chars, s, ox, oy, bx, by, x, y) {
            let (qx, qy) = choose|qx: int, qy: int|
                #[trigger] line_lights(chars, s, ox, oy, qx, qy) && lands(qx, x) && lands(qy, y)
                    && before(qx, qy, bx, by);
            assert(before(qx, qy, ax, ay));
        }
        if hit_before(chars, s, ox, oy, ax, ay, x, y) {
            let (qx, qy) = choose|qx: int, qy: int|
                #[trigger] line_lights(chars, s, ox, oy, qx, qy) && lands(qx, x) && lands(qy, y)
                    && before(qx, qy, ax, ay);
            assert(before(qx, qy, bx, by));
        }
    }
    assert(painted_before(m, chars, s, ox, oy, color, ax, ay) =~= painted_before(
        m,
        chars,
        s,
        ox,
        oy,
        color,
        bx,
        by,
    ));
}

/// Draw one line of text in `fg`, horizontally centred and then shifted right
/// by `dx`, with its top at row `oy`. Points off the canvas are skipped; as
/// the conversion to `u32` does, points far to the right or below wrap
/// around (see `lands`).
fn draw_line(img: &mut Canvas, chars: &Vec<char>, fg: Rgba, scale: u32, dx: i64, oy: i64)
    requires
        old(img).wf(),
        line_fits(old(img).spec_width(), chars@, scale, dx as int, oy as int),
    ensures
        final(img).wf(),
        final(img).spec_width() == old(img).spec_width(),
        final(img).spec_height() == old(img).spec_height(),
        final(img).pixels() == paint_line(
            old(img).pixels(),
            old(img).spec_width(),
            chars@,
            scale,
            dx as int,
            oy as int,
            fg.0,
        ),
{
    let ghost m0 = img.pixels();
    let w = img.width();
    let h = img.height();
    let n = chars.len();
    if n == 0 {
        proof {
            assert(text_width(0, scale) == 0) by (nonlinear_arith);
            assert forall|x: u32, y: u32| !line_hits(
                chars@,
                scale,
                line_left(w, 0, scale, dx as int),
                oy as int,
                x,
                y,
            ) by {}
            assert(img.pixels() =~= paint_line(m0, w, chars@, scale, dx as int, oy as int, fg.0));
        }
        return ;
    }
    let s = scale as i64;
    let cw: i64 = 8 * s;
    assert((n as int) * (cw as int) == text_width(chars@.len(), scale)) by (nonlinear_arith)
        requires
            cw == 8 * scale,
            n == chars@.len(),
    ;
    assert(n as int <= i64::MAX) by (nonlinear_arith)
        requires
            (n as int) * (cw as int) <= i64::MAX,
            cw >= 8,
    ;
    let text_w: i64 = (n as i64) * cw;
    let d: i64 = w as i64 - text_w;
    let half: i64 = if d >= 0 {
        d / 2
    } else {
        -((-d) / 2)
    };
    let ox: i64 = half + dx;
    let ghost oxi = ox as int;
    assert(oxi == line_left(w, chars@.len(), scale, dx as int));
    let wrap: i64 = 0x1_0000_0000;
    let x_start: i64 = if ox > 0 {
        ox
    } else {
        0
    };
    let x_end: i64 = if ox + text_w <= wrap {
        if ox + text_w < w as i64 {
            ox + text_w
        } else {
            w as i64
        }
    } else {
        ox + text_w
    };
    let y_start: i64 = if oy > 0 {
        oy
    } else {
        0
    };
    let y_end: i64 = if oy + cw <= wrap {
        if oy + cw < h as i64 {
            oy + cw
        } else {
            h as i64
        }
    } else {
        oy + cw
    };
    let ghost c = chars@;
    let ghost fgc = fg.0;
    proof {
        // No point of the line lies before the first visited one.
        assert(painted_before(m0, c, scale, oxi, oy as int, fgc, 0, 0) =~= m0);
        assert forall|qx: int, qy: int|
            #![trigger line_lights(c, scale, oxi, oy as int, qx, qy)]
            qx >= 0 && qy >= 0 && line_lights(c, scale, oxi, oy as int, qx, qy) && before(
                qx,
                qy,
                x_start as int,
                y_start as int,
            ) && !before(qx, qy, 0, 0) implies qx % 0x1_0000_0000 >= w || qy % 0x1_0000_0000
            >= h by {}
        lemma_same_painted(
            m0,
            w,
            h,
            c,
            scale,
            oxi,
            oy as int,
            fgc,
            0,
            0,
            x_start as int,
            y_start as int,
        );
    }
    let mut py: i64 = y_start;
    while py < y_end
        invariant
            img.wf(),
            img.spec_width() == w,
            img.spec_height() == h,
            m0.dom() == positions(w, h),
            c == chars@,
            fgc == fg.0,
            n == chars@.len(),
            s == scale,
            1 <= s,
            cw == 8 * s,
            text_w == text_width(n as nat, scale),
            text_w == n * cw,
            oxi == ox,
            wrap == 0x1_0000_0000,
            x_start == (if ox > 0 {
                ox
            } else {
                0
            }),
            x_end == (if ox + text_w <= wrap {
                if ox + text_w < w {
                    ox + text_w
                } else {
                    w as int
                }
            } else {
                ox + text_w
            }),
            y_start == (if oy > 0 {
                oy
            } else {
                0
            }),
            y_end == (if oy + cw <= wrap {
                if oy + cw < h {
                    oy + cw
                } else {
                    h as int
                }
            } else {
                oy + cw
            }),
            i64::MIN <= ox,
            ox + text_w <= i64::MAX,
            oy + cw <= i64::MAX,
            cw <= 0x8_0000_0000,
            y_start <= py,
            y_start <= y_end ==> py <= y_end,
            img.pixels() == painted_before(m0, c, scale, oxi, oy as int, fgc, x_start as int, py as int),
        decreases y_end - py,
    {
        let ry: i64 = py - oy;
        let row: i64 = ry / s;
        let ty: i64 = py % wrap;
        proof {
            vstd::arithmetic::div_mod::lemma_multiply_divide_lt(ry as int, s as int, 8);
            vstd::arithmetic::div_mod::lemma_div_pos_is_pos(ry as int, s as int);
        }
        let mut px: i64 = x_start;
        while px < x_end
            invariant
                img.wf(),
                img.spec_width() == w,
                img.spec_height() == h,
                m0.dom() == positions(w, h),
                c == chars@,
                fgc == fg.0,
                n == chars@.len(),
                s == scale,
                1 <= s,
                cw == 8 * s,
                text_w == text_width(n as nat, scale),
                text_w == n * cw,
                oxi == ox,
                wrap == 0x1_0000_0000,
                x_start == (if ox > 0 {
                    ox
                } else {
                    0
                }),
                x_end == (if ox + text_w <= wrap {
                    if ox + text_w < w {
                        ox + text_w
                    } else {
                        w as int
                    }
                } else {
                    ox + text_w
                }),
                i64::MIN <= ox,
                ox + text_w <= i64::MAX,
                x_start <= px,
                x_start <= x_end ==> px <= x_end,
                0 <= py,
                oy <= py < oy + cw,
                ry == py - oy,
                row == ry / s,
                0 <= row < 8,
                ty == py % wrap,
                img.pixels() == painted_before(m0, c, scale, oxi, oy as int, fgc, px as int, py as int),
            decreases x_end - px,
        {
            let tx: i64 = px % wrap;
            let rx: i64 = px - ox;
            proof {
                assert(0 <= rx < text_w);
                assert(cw * n == text_w) by (nonlinear_arith)
                    requires
                        text_w == n * cw,
                ;
                vstd::arithmetic::div_mod::lemma_multiply_divide_lt(rx as int, cw as int, n as int);
                vstd::arithmetic::div_mod::lemma_div_pos_is_pos(rx as int, cw as int);
                vstd::arithmetic::div_mod::lemma_mod_pos_bound(rx as int, cw as int);
                vstd::arithmetic::div_mod::lemma_multiply_divide_lt(
                    (rx % cw) as int,
                    s as int,
                    8,
                );
                vstd::arithmetic::div_mod::lemma_div_pos_is_pos((rx % cw) as int, s as int);
            }
            if tx < w as i64 && ty < h as i64 {
                let ci: i64 = rx / cw;
                let col: i64 = (rx % cw) / s;
                let rows = glyph_for(chars[ci as usize]);
                let bits: u8 = rows[row as usize];
                let lit = (bits >> (col as u8)) & 1 != 0;
                assert(lit == line_lights(c, scale, oxi, oy as int, px as int, py as int));
                if lit {
                    proof {
                        lemma_paint_point(m0, w, h, c, scale, oxi, oy as int, fgc, px as int, py as int);
                    }
                    img.put_pixel(tx as u32, ty as u32, fg);
                    assert(tx == px % 0x1_0000_0000 && ty == py % 0x1_0000_0000);
                    assert((tx as u32) == ((px % 0x1_0000_0000) as u32));
                    assert((ty as u32) == ((py % 0x1_0000_0000) as u32));
                    assert(img.pixels() =~= painted_before(
                        m0,
                        c,
                        scale,
                        oxi,
                        oy as int,
                        fgc,
                        px + 1,
                        py as int,
                    ));
                } else {
                    proof {
                        lemma_skip_point(m0, w, h, c, scale, oxi, oy as int, fgc, px as int, py as int);
                    }
                }
            } else {
                proof {
                    lemma_skip_point(m0, w, h, c, scale, oxi, oy as int, fgc, px as int, py as int);
                }
            }
            px += 1;
        }
        proof {
            // The rest of the row lands off the canvas, and the next row
            // starts with points that are not lit.
            assert(px >= x_end);
            assert forall|qx: int, qy: int|
                #![trigger line_lights(c, scale, oxi, oy as int, qx, qy)]
                qx >= 0 && qy >= 0 && line_lights(c, scale, oxi, oy as int, qx, qy) && before(
                    qx,
                    qy,
                    x_start as int,
                    py + 1,
                ) && !before(qx, qy, px as int, py as int) implies qx % 0x1_0000_0000 >= w
                || qy % 0x1_0000_0000 >= h by {
                if qy == py && ox + text_w <= wrap {
                    assert(qx % 0x1_0000_0000 == qx);
                }
            }
            lemma_same_painted(m0, w, h, c, scale, oxi, oy as int, fgc, px as int, py as int, x_start as int, py + 1);
        }
        py += 1;
    }
    proof {
        // Every remaining point lands below the canvas or is not lit.
        let fin: int = if py >= oy + cw {
            py + 1
        } else {
            oy + cw + 1
        };
        assert(py >= y_end);
        assert forall|qx: int, qy: int|
            #![trigger line_lights(c, scale, oxi, oy as int, qx, qy)]
            qx >= 0 && qy >= 0 && line_lights(c, scale, oxi, oy as int, qx, qy) && before(
                qx,
                qy,
                0,
                fin,
            ) && !before(qx, qy, x_start as int, py as int) implies qx % 0x1_0000_0000 >= w
            || qy % 0x1_0000_0000 >= h by {
            if oy + cw <= wrap {
                assert(qy % 0x1_0000_0000 == qy);
            }
        }
        lemma_same_painted(
            m0,
            w,
            h,
            c,
            scale,
            oxi,
            oy as int,
            fgc,
            x_start as int,
            py as int,
            0,
            fin,
        );
        assert forall|x: u32, y: u32| m0.dom().contains((x, y)) implies hit_before(
            c,
            scale,
            oxi,
            oy as int,
            0,
            fin,
            x,
            y,
        ) == line_hits(c, scale, oxi, oy as int, x, y) by {
            if line_hits(c, scale, oxi, oy as int, x, y) {
                let (qx, qy) = choose|qx: int, qy: int|
                    #[trigger] line_lights(c, scale, oxi, oy as int, qx, qy) && lands(qx, x)
                        && lands(qy, y);
                assert(before(qx, qy, 0, fin));
            }
        }
        assert(img.pixels() =~= paint_line(m0, w, chars@, scale, dx as int, oy as int, fg.0));
    }
}

/// The label scale used: `scale` when given, else the fitted scale `fit`, and
/// never below 1.
pub open spec fn label_scale(scale: Option<u32>, fit: u32) -> u32 {
    let s = match scale {
        Some(v) => v,
        None => fit,
    };
    if s >= 1 {
        s
    } else {
        1
    }
}

/// The number of characters of the longest of `lines` (0 when there are
/// none).
pub open spec fn max_line_len(lines: Seq<Seq<char>>) -> nat
    decreases lines.len(),
{
    if lines.len() == 0 {
        0
    } else {
        let rest = max_line_len(lines.drop_last());
        if lines.last().len() > rest {
            lines.last().len()
        } else {
            rest
        }
    }
}

/// The row of the top of a block of `n` lines at scale `s`, centred on a
/// canvas `h` pixels high.
pub open spec fn block_top(h: u32, n: nat, s: u32) -> int {
    half_toward_zero(h - n * 8 * s)
}

/// How far a drop shadow is offset, right and down, at scale `s`.
pub open spec fn shadow_offset(s: u32) -> int {
    if s / 4 >= 1 {
        (s / 4) as int
    } else {
        1
    }
}

/// `m` after drawing the first `k` of `lines` at scale `s`, stacked 8 * `s`
/// pixels apart from row `top`, each centred; before each line its shadow is
/// drawn, offset by `off`, when a shadow color is given.
pub open spec fn paint_lines(
    m: Map<(u32, u32), [u8; 4]>,
    w: u32,
    lines: Seq<Seq<char>>,
    k: nat,
    s: u32,
    top: int,
    fg: [u8; 4],
    shadow: Option<[u8; 4]>,
    off: int,
) -> Map<(u32, u32), [u8; 4]>
    decreases k,
{
    if k == 0 {
        m
    } else {
        let before = paint_lines(m, w, lines, (k - 1) as nat, s, top, fg, shadow, off);
        let y = top + (k - 1) * 8 * s;
        let shadowed = match shadow {
            Some(c) => paint_line(before, w, lines[k - 1], s, off, y + off, c),
            None => before,
        };
        paint_line(shadowed, w, lines[k - 1], s, 0, y, fg)
    }
}

/// Whether one of `lines` holds a visible ASCII character.
pub open spec fn label_has_visible(lines: Seq<Seq<char>>) -> bool {
    exists|i: int| 0 <= i < lines.len() && has_visible(#[trigger] lines[i])
}

/// Whether a label of `lines` at scale `s` can be drawn without overflow:
/// its widest line and its height, in pixels, fit in `i64`, and a label with
/// a visible glyph in it has a scale of at most 2^29 (beyond which
/// `col * scale` overflows `u32` for glyphs lit in their last column).
pub open spec fn label_fits(lines: Seq<Seq<char>>, s: u32) -> bool {
    &&& max_line_len(lines) * 8 * s <= i64::MAX
    &&& lines.len() * 8 * s <= i64::MAX
    &&& (label_has_visible(lines) ==> s <= 0x2000_0000)
}

/// Whether the label `text` may be drawn at `scale` (or `fit`): nothing is
/// drawn for no text or an empty one, and otherwise it must fit.
pub open spec fn label_allowed(text: Option<&str>, scale: Option<u32>, fit: u32) -> bool {
    match text {
        Some(t) => t@.len() > 0 ==> label_fits(label_lines(t@), label_scale(scale, fit)),
        None => true,
    }
}

/// The pixels `m` of a canvas `w` x `h` once the label `text` has been drawn
/// in `fg`, each line with a shadow in `shadow` when one is given.
pub open spec fn with_label(
    m: Map<(u32, u32), [u8; 4]>,
    w: u32,
    h: u32,
    fg: [u8; 4],
    shadow: Option<[u8; 4]>,
    text: Option<&str>,
    scale: Option<u32>,
    fit: u32,
) -> Map<(u32, u32), [u8; 4]> {
    match text {
        Some(t) => if t@.len() == 0 {
            m
        } else {
            let lines = label_lines(t@);
            let s = label_scale(scale, fit);
            paint_lines(
                m,
                w,
                lines,
                lines.len(),
                s,
                block_top(h, lines.len(), s),
                fg,
                shadow,
                shadow_offset(s),
            )
        },
        None => m,
    }
}

proof fn lemma_max_line_len(lines: Seq<Seq<char>>, i: int)
    requires
        0 <= i < lines.len(),
    ensures
        lines[i].len() <= max_line_len(lines),
    decreases lines.len(),
{
    if i < lines.len() - 1 {
        lemma_max_line_len(lines.drop_last(), i);
    }
}

/// Line `i` of a fitting label, drawn at row `y` of its block (possibly
/// offset by a shadow), keeps its arithmetic exact.
proof fn lemma_line_fits(lines: Seq<Seq<char>>, i: int, s: u32, w: u32, h: u32, dx: int)
    requires
        0 <= i < lines.len(),
        1 <= s,
        label_fits(lines, s),
        0 <= dx <= shadow_offset(s),
    ensures
        line_fits(w, lines[i], s, dx, block_top(h, lines.len(), s) + i * 8 * s + dx),
        line_fits(w, lines[i], s, 0, block_top(h, lines.len(), s) + i * 8 * s),
{
    lemma_max_line_len(lines, i);
    let n = lines.len();
    let l = lines[i].len();
    let b = n * 8 * s;
    if has_visible(lines[i]) {
        assert(label_has_visible(lines));
    }
    assert(l * 8 * s <= max_line_len(lines) * 8 * s) by (nonlinear_arith)
        requires
            l <= max_line_len(lines),
    ;
    assert(0 <= i * 8 * s <= b - 8 * s) by (nonlinear_arith)
        requires
            0 <= i < n,
            b == n * 8 * s,
    ;
    assert(0 <= b) by (nonlinear_arith)
        requires
            b == n * 8 * s,
    ;
    assert(0 <= l * 8 * s) by (nonlinear_arith);
    assert(text_width(l, s) == l * 8 * s);
}

/// The size of a label in glyphs: the length of its longest line and the
/// number of its lines (what an automatic fit is computed from).
pub fn label_extent(text: &str) -> (r: (usize, usize))
    ensures
        r.0 == max_line_len(label_lines(text@)),
        r.1 == label_lines(text@).len(),
{
    let lines = split_label(text);
    let ghost ls = label_lines(text@);
    let mut longest: usize = 0;
    let mut i: usize = 0;
    while i < lines.len()
        invariant
            string_views(lines@) == ls,
            i <= lines@.len(),
            longest == max_line_len(ls.take(i as int)),
        decreases lines@.len() - i,
    {
        let n = chars_of(lines[i].as_str()).len();
        assert(ls.take(i + 1).drop_last() =~= ls.take(i as int));
        assert(ls.take(i + 1).last() == lines@[i as int]@);
        if n > longest {
            longest = n;
        }
        i += 1;
    }
    assert(ls.take(lines@.len() as int) =~= ls);
    (longest, lines.len())
}

/// Whether one of `lines` holds a visible ASCII character.
fn any_visible(lines: &Vec<String>) -> (b: bool)
    ensures
        b == label_has_visible(string_views(lines@)),
{
    let ghost ls = string_views(lines@);
    let mut i: usize = 0;
    while i < lines.len()
        invariant
            ls == string_views(lines@),
            i <= lines@.len(),
            forall|k: int| 0 <= k < i ==> !has_visible(#[trigger] ls[k]),
        decreases lines@.len() - i,
    {
        let cs = chars_of(lines[i].as_str());
        assert(cs@ == ls[i as int]);
        let mut j: usize = 0;
        while j < cs.len()
            invariant
                ls == string_views(lines@),
                i < lines@.len(),
                cs@ == ls[i as int],
                j <= cs@.len(),
                forall|k: int| 0 <= k < j ==> !is_visible_ascii(#[trigger] cs@[k]),
            decreases cs@.len() - j,
        {
            let code = cs[j] as u32;
            if 0x21 <= code && code <= 0x7e {
                assert(is_visible_ascii(cs@[j as int]));
                assert(has_visible(ls[i as int]));
                assert(label_has_visible(ls));
                return true;
            }
            j += 1;
        }
        i += 1;
    }
    false
}

/// Whether the label `text` may be drawn at `scale` (or, without one, at the
/// fitted scale `fit`): whether the drawing functions accept it.
pub fn can_draw_label(text: Option<&str>, scale: Option<u32>, fit: u32) -> (ok: bool)
    ensures
        ok == label_allowed(text, scale, fit),
{
    let t = match text {
        Some(t) => t,
        None => {
            return true;
        },
    };
    if t.is_empty() {
        return true;
    }
    let (longest, count) = label_extent(t);
    let picked = match scale {
        Some(v) => v,
        None => fit,
    };
    let s: u32 = if picked >= 1 {
        picked
    } else {
        1
    };
    let limit: u128 = 0x7fff_ffff_ffff_ffff;
    assert((longest as int) * 8 * (s as int) <= 0xffff_ffff_ffff_ffff * 8 * 0xffff_ffff)
        by (nonlinear_arith)
        requires
            longest <= 0xffff_ffff_ffff_ffff,
            s <= 0xffff_ffff,
    ;
    assert((count as int) * 8 * (s as int) <= 0xffff_ffff_ffff_ffff * 8 * 0xffff_ffff)
        by (nonlinear_arith)
        requires
            count <= 0xffff_ffff_ffff_ffff,
            s <= 0xffff_ffff,
    ;
    let visible = any_visible(&split_label(t));
    longest as u128 * 8 * s as u128 <= limit && count as u128 * 8 * s as u128 <= limit && (!visible
        || s <= 0x2000_0000)
}

/// Draw the label `text` centred on `img` in `fg`, line under line; before
/// each line its shadow, when a shadow color is given.
fn draw_lines(
    img: &mut Canvas,
    fg: Rgba,
    shadow: Option<Rgba>,
    text: Option<&str>,
    scale: Option<u32>,
    fit: u32,
)
    requires
        old(img).wf(),
        label_allowed(text, scale, fit),
    ensures
        final(img).wf(),
        final(img).spec_width() == old(img).spec_width(),
        final(img).spec_height() == old(img).spec_height(),
        final(img).pixels() == with_label(
            old(img).pixels(),
            old(img).spec_width(),
            old(img).spec_height(),
            fg.0,
            match shadow {
                Some(c) => Some(c.0),
                None => None,
            },
            text,
            scale,
            fit,
        ),
{
    let t = match text {
        Some(t) => t,
        None => {
            return ;
        },
    };
    if t.is_empty() {
        return ;
    }
    let ghost m0 = img.pixels();
    let ghost sh = match shadow {
        Some(c) => Some(c.0),
        None => None,
    };
    let lines = split_label(t);
    let ghost ls = label_lines(t@);
    let picked = match scale {
        Some(v) => v,
        None => fit,
    };
    let s: u32 = if picked >= 1 {
        picked
    } else {
        1
    };
    let n = lines.len();
    proof {
        assert(ls.len() == n);
        assert(label_fits(ls, s));
        assert(0 <= (n as int) * 8 * (s as int) <= i64::MAX) by (nonlinear_arith)
            requires
                (n as int) * 8 * (s as int) <= i64::MAX,
        ;
        assert(n * 8 <= i64::MAX) by (nonlinear_arith)
            requires
                (n as int) * 8 * (s as int) <= i64::MAX,
                s >= 1,
        ;
    }
    let block_h: i64 = n as i64 * 8 * s as i64;
    let h = img.height();
    let w = img.width();
    let d: i64 = h as i64 - block_h;
    let top: i64 = if d >= 0 {
        d / 2
    } else {
        -((-d) / 2)
    };
    let q: u32 = s / 4;
    let off: i64 = if q >= 1 {
        q as i64
    } else {
        1
    };
    let mut i: usize = 0;
    while i < n
        invariant
            img.wf(),
            img.spec_width() == w,
            img.spec_height() == h,
            n == lines@.len(),
            string_views(lines@) == ls,
            ls == label_lines(t@),
            s == label_scale(scale, fit),
            label_fits(ls, s),
            top == block_top(h, n as nat, s),
            off == shadow_offset(s),
            i <= n,
            n * 8 * s <= i64::MAX,
            n * 8 <= i64::MAX,
            1 <= s,
            shadow matches Some(c) ==> sh == Some(c.0),
            shadow is None ==> sh is None,
            img.pixels() == paint_lines(m0, w, ls, i as nat, s, top as int, fg.0, sh, off as int),
        decreases n - i,
    {
        assert(ls[i as int] == lines@[i as int]@);
        let chars = chars_of(lines[i].as_str());
        proof {
            lemma_line_fits(ls, i as int, s, w, h, off as int);
            assert(0 <= (i as int) * 8 * (s as int) <= (n as int) * 8 * (s as int))
                by (nonlinear_arith)
                requires
                    i < n,
            ;
        }
        let ghost before = img.pixels();
        let y: i64 = top + i as i64 * 8 * s as i64;
        match shadow {
            Some(c) => {
                draw_line(img, &chars, c, s, off, y + off);
            },
            None => {},
        }
        draw_line(img, &chars, fg, s, 0, y);
        proof {
            let k = (i + 1) as nat;
            assert((k - 1) as nat == i as nat);
            assert(img.pixels() == paint_lines(m0, w, ls, k, s, top as int, fg.0, sh, off as int));
        }
        i += 1;
    }
}

/// Draw the centered label (if any) onto an existing image. The label may span
/// multiple lines (split on `\n`); lines are stacked and each is centered.
/// The scale is `scale` when given, else `fit` (the automatic fit), and at
/// least 1.
pub fn draw_label(img: &mut Canvas, fg: Rgba, text: Option<&str>, scale: Option<u32>, fit: u32)
    requires
        old(img).wf(),
        label_allowed(text, scale, fit),
    ensures
        final(img).wf(),
        final(img).spec_width() == old(img).spec_width(),
        final(img).spec_height() == old(img).spec_height(),
        final(img).pixels() == with_label(
            old(img).pixels(),
            old(img).spec_width(),
            old(img).spec_height(),
            fg.0,
            None,
            text,
            scale,
            fit,
        ),
{
    draw_lines(img, fg, None, text, scale, fit)
}

/// Draw the centered label with an optional drop shadow: each line is drawn
/// first in `shadow`, offset right and down by a quarter of the scale (at
/// least one pixel), then in `fg`.
pub fn draw_shadowed_label(
    img: &mut Canvas,
    fg: Rgba,
    shadow: Option<Rgba>,
    text: Option<&str>,
    scale: Option<u32>,
    fit: u32,
)
    requires
        old(img).wf(),
        label_allowed(text, scale, fit),
    ensures
        final(img).wf(),
        final(img).spec_width() == old(img).spec_width(),
        final(img).spec_height() == old(img).spec_height(),
        final(img).pixels() == with_label(
            old(img).pixels(),
            old(img).spec_width(),
            old(img).spec_height(),
            fg.0,
            match shadow {
                Some(c) => Some(c.0),
                None => None,
            },
            text,
            scale,
            fit,
        ),
{
    draw_lines(img, fg, shadow, text, scale, fit)
}

} // verus!
