//! Properties of the library as a whole, stated over the specifications that
//! the functions' contracts use.

use vstd::prelude::*;

use crate::canvas::{buffer_fits, image_of};
use crate::color::{alt_of, color_digits, hex_color, hex_value, is_hex_digit, luminance};
use crate::draw::{
    block_top, label_scale, line_hits, line_left, line_lights, lands, paint_line, paint_lines,
    shadow_offset, text_width, with_label,
};
use crate::error::ErrorKind;
use crate::label::{join_lines, label_lines, split_newlines, unescape_newlines};
use crate::naming::{decimal, default_name, doubled, ext_outcome, normalized_hex, utf8_len};
use crate::render::{border_width, checker_color, diagonal_color, on_border};
use crate::shape::{corner_center, corner_dist2, effective_radius, inside_rounded};
use crate::size::{
    MAX_DIM, MAX_PIXELS, Size, all_digits, decimal_value, find_char, lemma_find_char, parse_u32,
    size_fields, size_outcome,
};
use crate::text::{
    ascii_lower, ascii_lowercase, is_white_space, leading_white, lemma_leading_white,
    lemma_trailing_white, trailing_white, trim,
};

verus! {

/// Every size that parsing accepts has sides from 1 to `MAX_DIM`, at most
/// `MAX_PIXELS` pixels, and fits in an image buffer.
pub proof fn law_parsed_size_is_bounded(input: Seq<char>)
    requires
        size_outcome(input) is Ok,
    ensures
        ({
            let size = size_outcome(input)->Ok_0;
            &&& 1 <= size.width <= MAX_DIM
            &&& 1 <= size.height <= MAX_DIM
            &&& size.width * size.height <= MAX_PIXELS
            &&& buffer_fits(size.width, size.height)
        }),
{
    let size = size_outcome(input)->Ok_0;
    assert(size.width * size.height <= MAX_PIXELS);
    assert(4 * size.width * size.height <= 4 * 100_000_000) by (nonlinear_arith)
        requires
            size.width * size.height <= 100_000_000,
    ;
}

/// A size written as a single number `N` (no `x` or `X`) means `N` x `N`.
pub proof fn law_single_number_is_square(input: Seq<char>)
    requires
        find_char(ascii_lowercase(trim(input)), 'x') is None,
        size_outcome(input) is Ok,
    ensures
        size_outcome(input)->Ok_0.width == size_outcome(input)->Ok_0.height,
{
}

/// A short color (3 or 4 hex digits) means the same as the long form with
/// every digit doubled ("f00a" is "ff0000aa").
pub proof fn law_short_color_doubles(d: Seq<char>)
    requires
        d.len() == 3 || d.len() == 4,
    ensures
        hex_color(d) == hex_color(doubled(d)),
{
    let e = doubled(d);
    assert forall|i: int| 0 <= i < e.len() implies e[i] == d[i / 2] by {}
    if forall|i: int| 0 <= i < d.len() ==> is_hex_digit(#[trigger] d[i]) {
        assert forall|i: int| 0 <= i < e.len() implies is_hex_digit(#[trigger] e[i]) by {
            assert(e[i] == d[i / 2]);
        }
        assert(e[0] == d[0] && e[1] == d[0] && e[2] == d[1] && e[3] == d[1] && e[4] == d[2] && e[5]
            == d[2]);
        if d.len() == 4 {
            assert(e[6] == d[3] && e[7] == d[3]);
        }
    } else {
        let i = choose|i: int| 0 <= i < d.len() && !is_hex_digit(#[trigger] d[i]);
        assert(e[2 * i] == d[i]);
    }
}

/// A color given without alpha digits (3 or 6 of them) is fully opaque.
pub proof fn law_color_without_alpha_is_opaque(d: Seq<char>)
    requires
        d.len() == 3 || d.len() == 6,
        hex_color(d) is Some,
    ensures
        hex_color(d)->Some_0[3] == 255,
{
}

/// The derived checkerboard shade is never lighter than a light background,
/// never darker than a dark one, channel by channel, and keeps its alpha.
pub proof fn law_alt_color_contrasts(c: [u8; 4])
    ensures
        luminance(c) >= 128 ==> alt_of(c)[0] <= c[0] && alt_of(c)[1] <= c[1] && alt_of(c)[2]
            <= c[2],
        luminance(c) < 128 ==> alt_of(c)[0] >= c[0] && alt_of(c)[1] >= c[1] && alt_of(c)[2]
            >= c[2],
        alt_of(c)[3] == c[3],
{
}

/// Whether a pixel is inside a rounded rectangle does not change when the
/// rectangle is mirrored left to right.
pub proof fn law_rounded_mirror_x(x: u32, y: u32, w: u32, h: u32, r: u32)
    requires
        x < w,
    ensures
        inside_rounded(x, y, w, h, r) == inside_rounded((w - 1 - x) as u32, y, w, h, r),
{
    let e = effective_radius(w, h, r);
    let xm = (w - 1 - x) as u32;
    if e > 0 {
        let dx = x - corner_center(x, w, e);
        let dxm = xm - corner_center(xm, w, e);
        assert(dx == -dxm);
        assert(dx * dx == dxm * dxm) by (nonlinear_arith)
            requires
                dx == -dxm,
        ;
    }
}

/// Whether a pixel is inside a rounded rectangle does not change when the
/// rectangle is mirrored top to bottom.
pub proof fn law_rounded_mirror_y(x: u32, y: u32, w: u32, h: u32, r: u32)
    requires
        y < h,
    ensures
        inside_rounded(x, y, w, h, r) == inside_rounded(x, (h - 1 - y) as u32, w, h, r),
{
    let e = effective_radius(w, h, r);
    let ym = (h - 1 - y) as u32;
    if e > 0 {
        let dy = y - corner_center(y, h, e);
        let dym = ym - corner_center(ym, h, e);
        assert(dy == -dym);
        assert(dy * dy == dym * dym) by (nonlinear_arith)
            requires
                dy == -dym,
        ;
    }
}

/// With radius 0 every pixel of a non-empty rectangle is inside; with an
/// effective radius of at least 1 the corner pixel is outside.
pub proof fn law_rounded_corners(w: u32, h: u32, r: u32)
    requires
        w > 0,
        h > 0,
    ensures
        r == 0 ==> forall|x: u32, y: u32| x < w && y < h ==> #[trigger] inside_rounded(x, y, w, h, r),
        effective_radius(w, h, r) >= 1 ==> !inside_rounded(0, 0, w, h, r),
{
    let e = effective_radius(w, h, r);
    if e >= 1 {
        assert(corner_dist2(0, 0, w, h, r) == 2 * (e * e)) by (nonlinear_arith)
            requires
                corner_dist2(0, 0, w, h, r) == (0 - e) * (0 - e) + (0 - e) * (0 - e),
        ;
        assert(e * e > 0) by (nonlinear_arith)
            requires
                e >= 1,
        ;
    }
}

/// Moving one square right on the checkerboard swaps the two colors.
pub proof fn law_checker_alternates(cell: u32, a: [u8; 4], b: [u8; 4], x: u32, y: u32)
    requires
        cell > 0,
        x + cell <= u32::MAX,
    ensures
        checker_color(cell, a, b, (x + cell) as u32, y) == checker_color(cell, b, a, x, y),
{
    vstd::arithmetic::div_mod::lemma_div_plus_one(x as int, cell as int);
    assert(((x + cell) as u32) / cell == x / cell + 1);
}

/// Moving one stripe width right on the diagonal stripes swaps the two
/// colors.
pub proof fn law_diagonal_alternates(cell: u32, a: [u8; 4], b: [u8; 4], x: u32, y: u32)
    requires
        cell > 0,
        x + cell <= u32::MAX,
    ensures
        diagonal_color(cell, a, b, (x + cell) as u32, y) == diagonal_color(cell, b, a, x, y),
{
    vstd::arithmetic::div_mod::lemma_div_plus_one(x + y, cell as int);
    assert((((x + cell) as u32) + y) / (cell as int) == (x + y) / (cell as int) + 1);
}

/// An accepted output extension is accepted again, unchanged.
pub proof fn law_output_extension_idempotent(path: Seq<char>, ext: Option<Seq<char>>)
    requires
        ext_outcome(path, ext) is Ok,
    ensures
        ext_outcome(path, Some(ext_outcome(path, ext)->Ok_0)) == ext_outcome(path, ext),
{
    let l = ext_outcome(path, ext)->Ok_0;
    assert(ascii_lowercase(l) =~= l);
}

/// Splitting at newlines loses nothing: joining the pieces with newlines
/// gives the text back, there is always at least one piece, and no piece
/// holds a newline.
pub proof fn law_split_then_join(s: Seq<char>)
    ensures
        split_newlines(s).len() >= 1,
        join_lines(split_newlines(s)) == s,
        forall|i: int, j: int|
            0 <= i < split_newlines(s).len() && 0 <= j < split_newlines(s)[i].len() ==> #[trigger] split_newlines(s)[i][j] != '\n',
    decreases s.len(),
{
    if s.len() > 0 {
        let p = s.drop_last();
        let c = s.last();
        law_split_then_join(p);
        let prev = split_newlines(p);
        let cur = split_newlines(s);
        if c == '\n' {
            assert(cur.drop_last() =~= prev);
            assert(join_lines(cur) =~= s);
            assert forall|i: int, j: int|
                0 <= i < cur.len() && 0 <= j < cur[i].len() implies #[trigger] cur[i][j] != '\n' by {
                if i < cur.len() - 1 {
                    assert(cur[i] == prev[i]);
                }
            }
        } else {
            let last = prev.last().push(c);
            if prev.len() == 1 {
                assert(join_lines(prev) == prev[0]);
                assert(cur =~= seq![last]);
                assert(join_lines(cur) == last);
                assert(join_lines(cur) =~= s);
            } else {
                assert(cur.drop_last() =~= prev.drop_last());
                assert(join_lines(prev) == join_lines(prev.drop_last()) + seq!['\n'] + prev.last());
                assert(cur.last() == last);
                assert(join_lines(cur) == join_lines(cur.drop_last()) + seq!['\n'] + cur.last());
                assert(s =~= p.push(c));
                assert(join_lines(cur) =~= s);
            }
            assert forall|i: int, j: int|
                0 <= i < cur.len() && 0 <= j < cur[i].len() implies #[trigger] cur[i][j] != '\n' by {
                if i < cur.len() - 1 {
                    assert(cur[i] == prev[i]);
                } else if j < prev.last().len() {
                    assert(cur[i][j] == prev[prev.len() - 1][j]);
                }
            }
        }
    }
}

/// The lines of a label joined with newlines are its text with every
/// backslash-n escape turned into a newline.
pub proof fn law_label_lines_rejoin(text: Seq<char>)
    ensures
        label_lines(text).len() >= 1,
        join_lines(label_lines(text)) == unescape_newlines(text),
{
    law_split_then_join(unescape_newlines(text));
}

/// The number of newlines in `s`.
pub open spec fn newline_count(s: Seq<char>) -> nat
    decreases s.len(),
{
    if s.len() == 0 {
        0
    } else if s.last() == '\n' {
        newline_count(s.drop_last()) + 1
    } else {
        newline_count(s.drop_last())
    }
}

/// A label has one line more than there are newlines in its text once its
/// backslash-n escapes are turned into newlines.
pub proof fn law_label_line_count(text: Seq<char>)
    ensures
        label_lines(text).len() == newline_count(unescape_newlines(text)) + 1,
{
    lemma_split_count(unescape_newlines(text));
}

proof fn lemma_split_count(s: Seq<char>)
    ensures
        split_newlines(s).len() == newline_count(s) + 1,
    decreases s.len(),
{
    if s.len() > 0 {
        lemma_split_count(s.drop_last());
    }
}

/// Drawing one line of text paints only in its color and only inside its
/// box: a pixel it changes is where a point of the box lands, the box being
/// the line's width from its left edge and 8 times the scale from its top;
/// and a line of characters beyond ASCII, which have blank glyphs, paints
/// nothing.
pub proof fn law_line_paints_inside_its_box(
    m: Map<(u32, u32), [u8; 4]>,
    w: u32,
    chars: Seq<char>,
    s: u32,
    dx: int,
    oy: int,
    color: [u8; 4],
)
    ensures
        paint_line(m, w, chars, s, dx, oy, color).dom() == m.dom(),
        forall|p: (u32, u32)|
            m.dom().contains(p) ==> {
                let c = #[trigger] paint_line(m, w, chars, s, dx, oy, color)[p];
                let ox = line_left(w, chars.len(), s, dx);
                &&& c == m[p] || c == color
                &&& c != m[p] ==> exists|px: int, py: int|
                    ox <= px < ox + text_width(chars.len(), s) && oy <= py < oy + 8 * s
                        && #[trigger] lands(px, p.0) && #[trigger] lands(py, p.1)
            },
        (forall|i: int| 0 <= i < chars.len() ==> #[trigger] chars[i] as u32 >= 128) ==> paint_line(
            m,
            w,
            chars,
            s,
            dx,
            oy,
            color,
        ) == m,
{
    let ox = line_left(w, chars.len(), s, dx);
    let r = paint_line(m, w, chars, s, dx, oy, color);
    assert(r.dom() =~= m.dom());
    assert forall|p: (u32, u32)| m.dom().contains(p) implies {
        let c = #[trigger] r[p];
        &&& c == m[p] || c == color
        &&& c != m[p] ==> exists|px: int, py: int|
            ox <= px < ox + text_width(chars.len(), s) && oy <= py < oy + 8 * s
                && #[trigger] lands(px, p.0) && #[trigger] lands(py, p.1)
    } by {
        if line_hits(chars, s, ox, oy, p.0, p.1) {
            let (px, py) = choose|px: int, py: int|
                #[trigger] line_lights(chars, s, ox, oy, px, py) && lands(px, p.0) && lands(py, p.1);
            assert(lands(py, p.1));
        }
    }
    if forall|i: int| 0 <= i < chars.len() ==> #[trigger] chars[i] as u32 >= 128 {
        assert forall|p: (u32, u32)| m.dom().contains(p) implies !line_hits(
            chars,
            s,
            ox,
            oy,
            p.0,
            p.1,
        ) by {
            if line_hits(chars, s, ox, oy, p.0, p.1) {
                let (px, py) = choose|px: int, py: int|
                    #[trigger] line_lights(chars, s, ox, oy, px, py) && lands(px, p.0) && lands(
                        py,
                        p.1,
                    );
                let cw = 8 * s;
                let rx = px - ox;
                let k = rx / (cw as int);
                assert(0 <= k < chars.len()) by {
                    vstd::arithmetic::div_mod::lemma_div_pos_is_pos(rx, cw as int);
                    assert(rx < chars.len() * cw) by (nonlinear_arith)
                        requires
                            rx < text_width(chars.len(), s),
                            cw == 8 * s,
                    ;
                    vstd::arithmetic::div_mod::lemma_div_by_multiple_is_strongly_ordered(
                        rx,
                        chars.len() * cw,
                        chars.len() as int,
                        cw as int,
                    );
                    vstd::arithmetic::div_mod::lemma_div_multiples_vanish(chars.len() as int, cw as int);
                }
                assert(chars[k] as u32 >= 128);
                let row = (py - oy) / (s as int);
                vstd::arithmetic::div_mod::lemma_div_pos_is_pos(py - oy, s as int);
                vstd::arithmetic::div_mod::lemma_multiply_divide_lt(py - oy, s as int, 8);
                assert(0 <= row < 8);
                let col = ((rx % (cw as int)) / (s as int)) as u8;
                assert(crate::glyph::glyph(chars[k])[row] == 0u8);
                assert((0u8 >> col) & 1 == 0u8) by (bit_vector);
            }
        }
        assert(r =~= m);
    }
}

/// Drawing a label leaves the canvas's set of pixels as it was, and paints
/// each pixel either not at all, or in the label color, or in the shadow
/// color.
pub proof fn law_label_paints_only_its_colors(
    m: Map<(u32, u32), [u8; 4]>,
    w: u32,
    h: u32,
    fg: [u8; 4],
    shadow: Option<[u8; 4]>,
    text: Option<&str>,
    scale: Option<u32>,
    fit: u32,
)
    ensures
        with_label(m, w, h, fg, shadow, text, scale, fit).dom() == m.dom(),
        forall|p: (u32, u32)|
            #![trigger with_label(m, w, h, fg, shadow, text, scale, fit)[p]]
            m.dom().contains(p) ==> {
                let c = with_label(m, w, h, fg, shadow, text, scale, fit)[p];
                c == m[p] || c == fg || shadow == Some(c)
            },
{
    match text {
        Some(t) => {
            if t@.len() > 0 {
                let lines = label_lines(t@);
                let s = crate::draw::label_scale(scale, fit);
                lemma_paint_lines_colors(
                    m,
                    w,
                    lines,
                    lines.len(),
                    s,
                    crate::draw::block_top(h, lines.len(), s),
                    fg,
                    shadow,
                    crate::draw::shadow_offset(s),
                );
            }
        },
        None => {},
    }
}

proof fn lemma_paint_lines_colors(
    m: Map<(u32, u32), [u8; 4]>,
    w: u32,
    lines: Seq<Seq<char>>,
    k: nat,
    s: u32,
    top: int,
    fg: [u8; 4],
    shadow: Option<[u8; 4]>,
    off: int,
)
    ensures
        paint_lines(m, w, lines, k, s, top, fg, shadow, off).dom() == m.dom(),
        forall|p: (u32, u32)|
            #![trigger paint_lines(m, w, lines, k, s, top, fg, shadow, off)[p]]
            m.dom().contains(p) ==> {
                let c = paint_lines(m, w, lines, k, s, top, fg, shadow, off)[p];
                c == m[p] || c == fg || shadow == Some(c)
            },
    decreases k,
{
    if k > 0 {
        lemma_paint_lines_colors(m, w, lines, (k - 1) as nat, s, top, fg, shadow, off);
        let before = paint_lines(m, w, lines, (k - 1) as nat, s, top, fg, shadow, off);
        let y = top + (k - 1) * 8 * s;
        let shadowed = match shadow {
            Some(c) => paint_line(before, w, lines[k - 1], s, off, y + off, c),
            None => before,
        };
        let after = paint_line(shadowed, w, lines[k - 1], s, 0, y, fg);
        assert(after == paint_lines(m, w, lines, k, s, top, fg, shadow, off));
        assert(shadowed.dom() =~= m.dom());
        assert(after.dom() =~= m.dom());
        assert forall|p: (u32, u32)| m.dom().contains(p) implies {
            let c = after[p];
            c == m[p] || c == fg || shadow == Some(c)
        } by {
            assert(before[p] == m[p] || before[p] == fg || shadow == Some(before[p]));
        }
    }
}

/// Whether one of the first `k` lines of a label block lands a lit point on
/// the pixel `(x, y)`.
spec fn block_hits(w: u32, lines: Seq<Seq<char>>, k: nat, s: u32, top: int, x: u32, y: u32) -> bool {
    exists|j: int|
        0 <= j < k && #[trigger] line_hits(
            lines[j],
            s,
            line_left(w, lines[j].len(), s, 0),
            top + j * 8 * s,
            x,
            y,
        )
}

/// Drawing the first `k` lines with and without their shadows: a pixel that
/// some line hits is in the label color either way; any other pixel is left
/// as it was without shadows, and as it was or in the shadow color with them.
proof fn lemma_shadow_under_text(
    m: Map<(u32, u32), [u8; 4]>,
    w: u32,
    lines: Seq<Seq<char>>,
    k: nat,
    s: u32,
    top: int,
    fg: [u8; 4],
    sh: [u8; 4],
    off: int,
    p: (u32, u32),
)
    requires
        1 <= s,
        k <= lines.len(),
        0 <= off,
        top + lines.len() * 8 * s + off <= 0x1_0000_0000,
        m.dom().contains(p),
    ensures
        ({
            let a = paint_lines(m, w, lines, k, s, top, fg, None, off)[p];
            let b = paint_lines(m, w, lines, k, s, top, fg, Some(sh), off)[p];
            if block_hits(w, lines, k, s, top, p.0, p.1) {
                a == fg && b == fg
            } else {
                a == m[p] && (b == m[p] || b == sh)
            }
        }),
    decreases k,
{
    if k > 0 {
        let j: int = k - 1;
        lemma_shadow_under_text(m, w, lines, j as nat, s, top, fg, sh, off, p);
        lemma_paint_lines_colors(m, w, lines, j as nat, s, top, fg, None, off);
        lemma_paint_lines_colors(m, w, lines, j as nat, s, top, fg, Some(sh), off);
        let a0 = paint_lines(m, w, lines, j as nat, s, top, fg, None, off);
        let b0 = paint_lines(m, w, lines, j as nat, s, top, fg, Some(sh), off);
        let y = top + j * 8 * s;
        let l = lines[j];
        let ox = line_left(w, l.len(), s, 0);
        let shadowed = paint_line(b0, w, l, s, off, y + off, sh);
        let a1 = paint_line(a0, w, l, s, 0, y, fg);
        let b1 = paint_line(shadowed, w, l, s, 0, y, fg);
        assert(a1 == paint_lines(m, w, lines, k, s, top, fg, None, off));
        assert(b1 == paint_lines(m, w, lines, k, s, top, fg, Some(sh), off));
        if line_hits(l, s, ox, y, p.0, p.1) {
            assert(block_hits(w, lines, k, s, top, p.0, p.1));
        } else {
            if block_hits(w, lines, k, s, top, p.0, p.1) {
                let i = choose|i: int|
                    0 <= i < k && #[trigger] line_hits(
                        lines[i],
                        s,
                        line_left(w, lines[i].len(), s, 0),
                        top + i * 8 * s,
                        p.0,
                        p.1,
                    );
                assert(i < j);
                assert(block_hits(w, lines, j as nat, s, top, p.0, p.1));
            }
            if block_hits(w, lines, j as nat, s, top, p.0, p.1) {
                let i = choose|i: int|
                    0 <= i < j && #[trigger] line_hits(
                        lines[i],
                        s,
                        line_left(w, lines[i].len(), s, 0),
                        top + i * 8 * s,
                        p.0,
                        p.1,
                    );
                assert(block_hits(w, lines, k, s, top, p.0, p.1));
                let oxi = line_left(w, lines[i].len(), s, 0);
                let yi = top + i * 8 * s;
                let (qx, qy) = choose|qx: int, qy: int|
                    #[trigger] line_lights(lines[i], s, oxi, yi, qx, qy) && lands(qx, p.0) && lands(
                        qy,
                        p.1,
                    );
                assert(yi + 8 * s <= y) by (nonlinear_arith)
                    requires
                        yi == top + i * 8 * s,
                        y == top + j * 8 * s,
                        i + 1 <= j,
                        1 <= s,
                ;
                assert((j + 1) * 8 * s <= lines.len() * 8 * s) by (nonlinear_arith)
                    requires
                        j + 1 <= lines.len(),
                        1 <= s,
                ;
                assert(y + 8 * s == top + (j + 1) * 8 * s) by (nonlinear_arith)
                    requires
                        y == top + j * 8 * s,
                ;
                let oxs = line_left(w, l.len(), s, off);
                if line_hits(l, s, oxs, y + off, p.0, p.1) {
                    let (rx, ry) = choose|rx: int, ry: int|
                        #[trigger] line_lights(l, s, oxs, y + off, rx, ry) && lands(rx, p.0)
                            && lands(ry, p.1);
                    assert(qy % 0x1_0000_0000 == qy);
                    assert(ry % 0x1_0000_0000 == ry);
                    assert(false);
                }
                assert(shadowed[p] == b0[p]);
            }
        }
    }
}

/// Drawing the first `k` lines of a block with and without their shadows,
/// for every pixel (see `lemma_shadow_under_text`).
proof fn lemma_shadow_under_text_all(
    m: Map<(u32, u32), [u8; 4]>,
    w: u32,
    lines: Seq<Seq<char>>,
    s: u32,
    top: int,
    fg: [u8; 4],
    sh: [u8; 4],
    off: int,
)
    requires
        1 <= s,
        0 <= off,
        top + lines.len() * 8 * s + off <= 0x1_0000_0000,
    ensures
        forall|p: (u32, u32)|
            m.dom().contains(p) ==> {
                let a = #[trigger] paint_lines(m, w, lines, lines.len(), s, top, fg, None, off)[p];
                let b = paint_lines(m, w, lines, lines.len(), s, top, fg, Some(sh), off)[p];
                (b == a || b == sh) && (a != m[p] ==> b == fg)
            },
{
    assert forall|p: (u32, u32)| m.dom().contains(p) implies {
        let a = #[trigger] paint_lines(m, w, lines, lines.len(), s, top, fg, None, off)[p];
        let b = paint_lines(m, w, lines, lines.len(), s, top, fg, Some(sh), off)[p];
        (b == a || b == sh) && (a != m[p] ==> b == fg)
    } by {
        lemma_shadow_under_text(m, w, lines, lines.len(), s, top, fg, sh, off, p);
    }
}

/// Drawing a label with a drop shadow draws the same label over the shadow:
/// each pixel ends as it would without the shadow, or in the shadow color,
/// and each pixel that the label changes ends in the label color. (Rows of
/// a block that reach past row 2^32 would wrap around onto earlier lines; such
/// blocks are left out.)
pub proof fn law_text_drawn_over_shadow(
    m: Map<(u32, u32), [u8; 4]>,
    w: u32,
    h: u32,
    fg: [u8; 4],
    sh: [u8; 4],
    text: Option<&str>,
    scale: Option<u32>,
    fit: u32,
)
    requires
        text matches Some(t) ==> {
            let n = label_lines(t@).len();
            let s = label_scale(scale, fit);
            block_top(h, n, s) + n * 8 * s + shadow_offset(s) <= 0x1_0000_0000
        },
    ensures
        forall|p: (u32, u32)|
            m.dom().contains(p) ==> {
                let a = #[trigger] with_label(m, w, h, fg, None, text, scale, fit)[p];
                let b = with_label(m, w, h, fg, Some(sh), text, scale, fit)[p];
                (b == a || b == sh) && (a != m[p] ==> b == fg)
            },
{
    match text {
        Some(t) => {
            if t@.len() > 0 {
                let lines = label_lines(t@);
                let s = label_scale(scale, fit);
                let top = block_top(h, lines.len(), s);
                let off = shadow_offset(s);
                lemma_shadow_under_text_all(m, w, lines, s, top, fg, sh, off);
                assert forall|p: (u32, u32)| m.dom().contains(p) implies {
                    let a = #[trigger] with_label(m, w, h, fg, None, text, scale, fit)[p];
                    let b = with_label(m, w, h, fg, Some(sh), text, scale, fit)[p];
                    (b == a || b == sh) && (a != m[p] ==> b == fg)
                } by {
                    assert(paint_lines(m, w, lines, lines.len(), s, top, fg, None, off)[p]
                        == with_label(m, w, h, fg, None, text, scale, fit)[p]);
                }
            }
        },
        None => {},
    }
}

proof fn lemma_decimal_digits(n: nat)
    ensures
        all_digits(decimal(n)),
        decimal_value(decimal(n)) == n,
    decreases n,
{
    let d = ((n % 10) + ('0' as u32)) as char;
    assert(d as u32 == n % 10 + 48);
    if n >= 10 {
        lemma_decimal_digits(n / 10);
        let s = decimal(n);
        assert(s.drop_last() =~= decimal(n / 10));
        assert(s.last() == d);
        assert(decimal_value(s) == decimal_value(s.drop_last()) * 10 + ((d as u32) - 48) as nat);
        assert(n == (n / 10) * 10 + n % 10);
        assert forall|i: int| 0 <= i < s.len() implies '0' <= #[trigger] s[i] <= '9' by {
            if i < s.len() - 1 {
                assert(s[i] == decimal(n / 10)[i]);
            }
        }
    } else {
        let s = decimal(n);
        assert(s.drop_last() =~= Seq::<char>::empty());
        assert(s.last() == d);
        assert(decimal_value(s) == decimal_value(s.drop_last()) * 10 + ((d as u32) - 48) as nat);
    }
}

/// The decimal digits of a `u32`, as a file name writes them, read back as
/// the same number.
pub proof fn law_decimal_reads_back(n: u32)
    ensures
        parse_u32(decimal(n as nat)) == Some(n),
{
    lemma_decimal_digits(n as nat);
    let s = decimal(n as nat);
    assert('0' <= s[0] <= '9');
}

proof fn lemma_trim_plain(s: Seq<char>)
    requires
        s.len() > 0,
        !is_white_space(s[0]),
        !is_white_space(s.last()),
    ensures
        trim(s) == s,
{
    assert(leading_white(s) == 0);
    assert(s.skip(0) =~= s);
    assert(trailing_white(s) == 0);
    assert(s.take(s.len() as int) =~= s);
}

proof fn lemma_lower_plain(s: Seq<char>)
    requires
        forall|i: int| 0 <= i < s.len() ==> ascii_lower(#[trigger] s[i]) == s[i],
    ensures
        ascii_lowercase(s) == s,
{
    assert(ascii_lowercase(s) =~= s);
}

/// The size at the start of a default file name ("640x480" in
/// "640x480_959595.png") parses back to the size it was made from, for every
/// size that parsing accepts at all.
#[verifier::rlimit(30)]
pub proof fn law_file_name_size_parses_back(size: Size)
    requires
        1 <= size.width <= MAX_DIM,
        1 <= size.height <= MAX_DIM,
        size.width * size.height <= MAX_PIXELS,
    ensures
        size_outcome(decimal(size.width as nat) + seq!['x'] + decimal(size.height as nat)) == Ok::<
            Size,
            ErrorKind,
        >(size),
{
    let a = decimal(size.width as nat);
    let b = decimal(size.height as nat);
    let s = a + seq!['x'] + b;
    lemma_decimal_digits(size.width as nat);
    lemma_decimal_digits(size.height as nat);
    law_decimal_reads_back(size.width);
    law_decimal_reads_back(size.height);
    assert forall|i: int| 0 <= i < s.len() implies ascii_lower(#[trigger] s[i]) == s[i] by {
        if i < a.len() {
            assert(s[i] == a[i]);
        } else if i > a.len() {
            assert(s[i] == b[i - a.len() - 1]);
        }
    }
    assert(s[0] == a[0]);
    assert(s.last() == b.last());
    lemma_trim_plain(s);
    lemma_lower_plain(s);
    assert forall|j: int| 0 <= j < a.len() implies #[trigger] s[j] != 'x' by {
        assert(s[j] == a[j]);
    }
    lemma_find_char(s, 'x', a.len() as int);
    assert(s.take(a.len() as int) =~= a);
    assert(s.skip(a.len() as int + 1) =~= b);
    assert(size_fields(s) == (a, b));
}

/// The derived shade always differs from the background in some color
/// channel, so the two colors of a pattern can be told apart.
pub proof fn law_alt_color_differs(c: [u8; 4])
    ensures
        alt_of(c)[0] != c[0] || alt_of(c)[1] != c[1] || alt_of(c)[2] != c[2],
{
}

/// A color may be written with or without a leading `#`.
pub proof fn law_hash_is_optional(d: Seq<char>)
    requires
        d.len() > 0,
        d[0] != '#',
        !is_white_space(d[0]),
        !is_white_space(d.last()),
    ensures
        color_digits(seq!['#'] + d) == color_digits(d),
{
    let h = seq!['#'] + d;
    assert(h[0] == '#');
    assert(h.last() == d.last());
    lemma_trim_plain(h);
    lemma_trim_plain(d);
    assert(h.skip(1) =~= d);
}

/// Both patterns start with the background color in the top-left corner.
pub proof fn law_patterns_start_with_background(cell: u32, a: [u8; 4], b: [u8; 4])
    requires
        cell > 0,
    ensures
        checker_color(cell, a, b, 0, 0) == a,
        diagonal_color(cell, a, b, 0, 0) == a,
{
}

/// A border of thickness 0 changes nothing.
pub proof fn law_zero_border_is_noop(m: Map<(u32, u32), [u8; 4]>, w: u32, h: u32, c: [u8; 4])
    requires
        m.dom() == crate::canvas::positions(w, h),
    ensures
        image_of(
            w,
            h,
            |p: (u32, u32)|
                if on_border(p.0, p.1, w, h, border_width(w, h, 0)) {
                    c
                } else {
                    m[p]
                },
        ) == m,
{
    assert(image_of(
        w,
        h,
        |p: (u32, u32)|
            if on_border(p.0, p.1, w, h, border_width(w, h, 0)) {
                c
            } else {
                m[p]
            },
    ) =~= m);
}

/// Rounding the corners with radius 0 changes nothing.
pub proof fn law_zero_radius_is_noop(m: Map<(u32, u32), [u8; 4]>, w: u32, h: u32)
    requires
        m.dom() == crate::canvas::positions(w, h),
    ensures
        image_of(
            w,
            h,
            |p: (u32, u32)|
                if inside_rounded(p.0, p.1, w, h, 0) {
                    m[p]
                } else {
                    [0u8, 0, 0, 0]
                },
        ) == m,
{
    assert(image_of(
        w,
        h,
        |p: (u32, u32)|
            if inside_rounded(p.0, p.1, w, h, 0) {
                m[p]
            } else {
                [0u8, 0, 0, 0]
            },
    ) =~= m);
}

/// Without a label, or with an empty one, the image is left as it is (a
/// placeholder without text is a solid fill).
pub proof fn law_no_label_draws_nothing(
    m: Map<(u32, u32), [u8; 4]>,
    w: u32,
    h: u32,
    fg: [u8; 4],
    shadow: Option<[u8; 4]>,
    text: Option<&str>,
    scale: Option<u32>,
    fit: u32,
)
    requires
        text matches Some(t) ==> t@.len() == 0,
    ensures
        with_label(m, w, h, fg, shadow, text, scale, fit) == m,
{
}

proof fn lemma_leading_white_props(s: Seq<char>)
    ensures
        leading_white(s) <= s.len(),
        forall|j: int| 0 <= j < leading_white(s) ==> is_white_space(#[trigger] s[j]),
        leading_white(s) < s.len() ==> !is_white_space(s[leading_white(s) as int]),
    decreases s.len(),
{
    if s.len() > 0 && is_white_space(s[0]) {
        lemma_leading_white_props(s.skip(1));
        assert forall|j: int| 0 <= j < leading_white(s) implies is_white_space(#[trigger] s[j]) by {
            if j > 0 {
                assert(s[j] == s.skip(1)[j - 1]);
            }
        }
        if leading_white(s) < s.len() {
            assert(s[leading_white(s) as int] == s.skip(1)[leading_white(s.skip(1)) as int]);
        }
    }
}

proof fn lemma_trailing_white_props(s: Seq<char>)
    ensures
        trailing_white(s) <= s.len(),
        forall|j: int| s.len() - trailing_white(s) <= j < s.len() ==> is_white_space(#[trigger] s[j]),
        trailing_white(s) < s.len() ==> !is_white_space(s[s.len() - trailing_white(s) - 1]),
    decreases s.len(),
{
    if s.len() > 0 && is_white_space(s.last()) {
        lemma_trailing_white_props(s.drop_last());
        assert forall|j: int| s.len() - trailing_white(s) <= j < s.len() implies is_white_space(
            #[trigger] s[j],
        ) by {
            if j < s.len() - 1 {
                assert(s[j] == s.drop_last()[j]);
            }
        }
        if trailing_white(s) < s.len() {
            assert(s[s.len() - trailing_white(s) - 1] == s.drop_last()[s.len() - trailing_white(s)
                - 1]);
        }
    }
}

proof fn lemma_trim_lowercase(s: Seq<char>)
    ensures
        trim(ascii_lowercase(s)) == ascii_lowercase(trim(s)),
{
    let l = ascii_lowercase(s);
    assert forall|j: int| 0 <= j < s.len() implies is_white_space(#[trigger] l[j]) == is_white_space(
        s[j],
    ) by {}
    lemma_leading_white_props(s);
    let a = leading_white(s) as int;
    lemma_leading_white(l, a);
    let rs = s.skip(a);
    let rl = l.skip(a);
    assert(rl =~= ascii_lowercase(rs));
    lemma_trailing_white_props(rs);
    let b = rs.len() - trailing_white(rs);
    assert forall|j: int| 0 <= j < rs.len() implies is_white_space(#[trigger] rl[j])
        == is_white_space(rs[j]) by {
        assert(rl[j] == l[j + a]);
        assert(rs[j] == s[j + a]);
    }
    lemma_trailing_white(rl, b);
    assert(trim(l) =~= ascii_lowercase(trim(s)));
}

/// Upper-case letters in a size string read as lower-case ones: "12X34" is
/// "12x34".
pub proof fn law_size_ignores_case(input: Seq<char>)
    ensures
        size_outcome(ascii_lowercase(input)) == size_outcome(input),
{
    lemma_trim_lowercase(input);
    let t = trim(input);
    assert(ascii_lowercase(ascii_lowercase(t)) =~= ascii_lowercase(t));
    assert(size_fields(ascii_lowercase(input)) == size_fields(input));
}

/// White space around a size string is ignored.
pub proof fn law_size_ignores_surrounding_space(before: Seq<char>, input: Seq<char>, after: Seq<char>)
    requires
        forall|i: int| 0 <= i < before.len() ==> is_white_space(#[trigger] before[i]),
        forall|i: int| 0 <= i < after.len() ==> is_white_space(#[trigger] after[i]),
    ensures
        size_outcome(before + input + after) == size_outcome(input),
{
    lemma_trim_surrounded(before, input, after);
}

proof fn lemma_trim_surrounded(before: Seq<char>, s: Seq<char>, after: Seq<char>)
    requires
        forall|i: int| 0 <= i < before.len() ==> is_white_space(#[trigger] before[i]),
        forall|i: int| 0 <= i < after.len() ==> is_white_space(#[trigger] after[i]),
    ensures
        trim(before + s + after) == trim(s),
{
    let t = before + s + after;
    let n = before.len() as int;
    lemma_leading_white_props(s);
    let a = leading_white(s) as int;
    assert forall|j: int| 0 <= j < n + a implies is_white_space(#[trigger] t[j]) by {
        if j < n {
            assert(t[j] == before[j]);
        } else {
            assert(t[j] == s[j - n]);
        }
    }
    if a < s.len() {
        assert(t[n + a] == s[a]);
        lemma_leading_white(t, n + a);
        let rs = s.skip(a);
        let rt = t.skip(n + a);
        assert(rt =~= rs + after);
        lemma_trailing_white_props(rs);
        let b = rs.len() - trailing_white(rs);
        assert forall|j: int| b <= j < rt.len() implies is_white_space(#[trigger] rt[j]) by {
            if j < rs.len() {
                assert(rt[j] == rs[j]);
            } else {
                assert(rt[j] == after[j - rs.len()]);
            }
        }
        assert(b > 0) by {
            assert(!is_white_space(rs[0]));
        }
        assert(rt[b - 1] == rs[b - 1]);
        lemma_trailing_white(rt, b);
        assert(trim(t) =~= trim(s));
    } else {
        assert forall|j: int| 0 <= j < t.len() implies is_white_space(#[trigger] t[j]) by {
            if j < n {
                assert(t[j] == before[j]);
            } else if j < n + s.len() {
                assert(t[j] == s[j - n]);
            } else {
                assert(t[j] == after[j - n - s.len()]);
            }
        }
        lemma_leading_white(t, t.len() as int);
        assert(trim(t) =~= Seq::<char>::empty());
        assert(trim(s) =~= Seq::<char>::empty());
    }
}

/// A line narrower than the canvas is centred: the margins left and right
/// of it differ by at most one pixel (the extra pixel on the right).
pub proof fn law_line_is_centred(w: u32, n: nat, s: u32)
    requires
        text_width(n, s) <= w,
    ensures
        ({
            let left = line_left(w, n, s, 0);
            let right = w - (left + text_width(n, s));
            0 <= left && left <= right <= left + 1
        }),
{
}

/// A label block shorter than the canvas is centred: the margins above and
/// below it differ by at most one pixel (the extra pixel at the bottom).
pub proof fn law_block_is_centred(h: u32, n: nat, s: u32)
    requires
        n * 8 * s <= h,
    ensures
        ({
            let top = block_top(h, n, s);
            let bottom = h - (top + n * 8 * s);
            0 <= top && top <= bottom <= top + 1
        }),
{
}

/// A pixel outside the `w` x `h` rectangle is never inside it.
pub proof fn law_outside_is_outside(x: u32, y: u32, w: u32, h: u32, r: u32)
    requires
        x >= w || y >= h,
    ensures
        !inside_rounded(x, y, w, h, r),
{
}

proof fn lemma_ascii_utf8_len(s: Seq<char>)
    requires
        forall|i: int| 0 <= i < s.len() ==> (#[trigger] s[i] as u32) < 0x80,
    ensures
        utf8_len(s) == s.len(),
    decreases s.len(),
{
    if s.len() > 0 {
        assert(s.last() == s[s.len() - 1]);
        lemma_ascii_utf8_len(s.drop_last());
    }
}

/// Whether `c` is a lower-case hex digit.
pub open spec fn is_lower_hex_digit(c: char) -> bool {
    ('0' <= c <= '9') || ('a' <= c <= 'f')
}

proof fn lemma_lower_hex(d: Seq<char>)
    requires
        forall|i: int| 0 <= i < d.len() ==> is_hex_digit(#[trigger] d[i]),
    ensures
        hex_color(ascii_lowercase(d)) == hex_color(d),
        forall|i: int|
            0 <= i < d.len() ==> is_lower_hex_digit(#[trigger] ascii_lowercase(d)[i]),
{
    let l = ascii_lowercase(d);
    assert forall|i: int| 0 <= i < d.len() implies is_hex_digit(#[trigger] l[i]) && crate::color::hex_value(
        l[i],
    ) == crate::color::hex_value(d[i]) && is_lower_hex_digit(l[i]) by {}
}

/// The color in a default file name is the background color, spelled
/// canonically: 6 or 8 lower-case hex digits that parse to the same color
/// and are left as they are when normalized again.
pub proof fn law_file_name_color_is_canonical(hex: Seq<char>)
    requires
        hex_color(color_digits(hex)) is Some,
    ensures
        ({
            let n = normalized_hex(hex);
            &&& hex_color(color_digits(n)) == hex_color(color_digits(hex))
            &&& n.len() == 6 || n.len() == 8
            &&& forall|i: int| 0 <= i < n.len() ==> is_lower_hex_digit(#[trigger] n[i])
            &&& normalized_hex(n) == n
        }),
{
    let d = color_digits(hex);
    assert(forall|i: int| 0 <= i < d.len() ==> is_hex_digit(#[trigger] d[i]));
    assert forall|i: int| 0 <= i < d.len() implies (#[trigger] d[i] as u32) < 0x80 by {
        assert(is_hex_digit(d[i]));
    }
    lemma_ascii_utf8_len(d);
    let n = normalized_hex(hex);
    if d.len() == 3 || d.len() == 4 {
        let e = doubled(d);
        law_short_color_doubles(d);
        assert forall|i: int| 0 <= i < e.len() implies is_hex_digit(#[trigger] e[i]) by {
            assert(e[i] == d[i / 2]);
        }
        lemma_lower_hex(e);
        assert(n == ascii_lowercase(e));
    } else {
        lemma_lower_hex(d);
        assert(n == ascii_lowercase(d));
    }
    assert forall|i: int| 0 <= i < n.len() implies (#[trigger] n[i] as u32) < 0x80
        && !is_white_space(n[i]) && ascii_lower(n[i]) == n[i] by {
        assert(is_lower_hex_digit(n[i]));
    }
    assert(n[0] == n[0]);
    lemma_trim_plain(n);
    assert(n[0] != '#') by {
        assert(is_lower_hex_digit(n[0]));
    }
    assert(color_digits(n) == n);
    lemma_ascii_utf8_len(n);
    lemma_lower_plain(n);
}

/// A label scale of 0 draws as scale 1 does.
pub proof fn law_scale_zero_draws_as_one(
    m: Map<(u32, u32), [u8; 4]>,
    w: u32,
    h: u32,
    fg: [u8; 4],
    shadow: Option<[u8; 4]>,
    text: Option<&str>,
    fit: u32,
)
    ensures
        with_label(m, w, h, fg, shadow, text, Some(0u32), fit) == with_label(
            m,
            w,
            h,
            fg,
            shadow,
            text,
            Some(1u32),
            fit,
        ),
{
}

/// The hex digits in order of value, lower case.
pub open spec fn lower_hex_digits() -> Seq<char> {
    seq!['0', '1', '2', '3', '4', '5', '6', '7', '8', '9', 'a', 'b', 'c', 'd', 'e', 'f']
}

/// The hex digits in order of value, upper case.
pub open spec fn upper_hex_digits() -> Seq<char> {
    seq!['0', '1', '2', '3', '4', '5', '6', '7', '8', '9', 'A', 'B', 'C', 'D', 'E', 'F']
}

/// Each hex digit is worth its place in "0123456789abcdef", in either case.
pub proof fn law_hex_digit_values(i: int)
    requires
        0 <= i < 16,
    ensures
        is_hex_digit(lower_hex_digits()[i]),
        is_hex_digit(upper_hex_digits()[i]),
        hex_value(lower_hex_digits()[i]) == i,
        hex_value(upper_hex_digits()[i]) == i,
{
    if i == 0 {
        assert(lower_hex_digits()[i] == '0');
        assert(upper_hex_digits()[i] == '0');
    } else if i == 1 {
        assert(lower_hex_digits()[i] == '1');
        assert(upper_hex_digits()[i] == '1');
    } else if i == 2 {
        assert(lower_hex_digits()[i] == '2');
        assert(upper_hex_digits()[i] == '2');
    } else if i == 3 {
        assert(lower_hex_digits()[i] == '3');
        assert(upper_hex_digits()[i] == '3');
    } else if i == 4 {
        assert(lower_hex_digits()[i] == '4');
        assert(upper_hex_digits()[i] == '4');
    } else if i == 5 {
        assert(lower_hex_digits()[i] == '5');
        assert(upper_hex_digits()[i] == '5');
    } else if i == 6 {
        assert(lower_hex_digits()[i] == '6');
        assert(upper_hex_digits()[i] == '6');
    } else if i == 7 {
        assert(lower_hex_digits()[i] == '7');
        assert(upper_hex_digits()[i] == '7');
    } else if i == 8 {
        assert(lower_hex_digits()[i] == '8');
        assert(upper_hex_digits()[i] == '8');
    } else if i == 9 {
        assert(lower_hex_digits()[i] == '9');
        assert(upper_hex_digits()[i] == '9');
    } else if i == 10 {
        assert(lower_hex_digits()[i] == 'a');
        assert(upper_hex_digits()[i] == 'A');
    } else if i == 11 {
        assert(lower_hex_digits()[i] == 'b');
        assert(upper_hex_digits()[i] == 'B');
    } else if i == 12 {
        assert(lower_hex_digits()[i] == 'c');
        assert(upper_hex_digits()[i] == 'C');
    } else if i == 13 {
        assert(lower_hex_digits()[i] == 'd');
        assert(upper_hex_digits()[i] == 'D');
    } else if i == 14 {
        assert(lower_hex_digits()[i] == 'e');
        assert(upper_hex_digits()[i] == 'E');
    } else if i == 15 {
        assert(lower_hex_digits()[i] == 'f');
        assert(upper_hex_digits()[i] == 'F');
    }
}

/// Six hex digits spell an opaque color whose channels are the values of the
/// digit pairs, high digit first ("777777" is 0x77, 0x77, 0x77, opaque).
pub proof fn law_six_digit_color(v: Seq<int>, upper: Seq<bool>)
    requires
        v.len() == 6,
        upper.len() == 6,
        forall|j: int| 0 <= j < 6 ==> 0 <= #[trigger] v[j] < 16,
    ensures
        hex_color(
            Seq::new(
                6,
                |j: int|
                    if upper[j] {
                        upper_hex_digits()[v[j]]
                    } else {
                        lower_hex_digits()[v[j]]
                    },
            ),
        ) == Some(
            [(16 * v[0] + v[1]) as u8, (16 * v[2] + v[3]) as u8, (16 * v[4] + v[5]) as u8, 255u8],
        ),
{
    let d = Seq::new(
        6,
        |j: int|
            if upper[j] {
                upper_hex_digits()[v[j]]
            } else {
                lower_hex_digits()[v[j]]
            },
    );
    assert forall|j: int| 0 <= j < 6 implies is_hex_digit(#[trigger] d[j]) && hex_value(d[j])
        == v[j] by {
        law_hex_digit_values(v[j]);
    }
    assert(hex_value(d[0]) == v[0] && hex_value(d[1]) == v[1] && hex_value(d[2]) == v[2]);
    assert(hex_value(d[3]) == v[3] && hex_value(d[4]) == v[4] && hex_value(d[5]) == v[5]);
}

/// The border is the same on every side: whether a pixel is painted does not
/// change when the image is mirrored left to right or top to bottom.
pub proof fn law_border_is_symmetric(x: u32, y: u32, w: u32, h: u32, t: u32)
    requires
        x < w,
        y < h,
    ensures
        on_border(x, y, w, h, border_width(w, h, t)) == on_border(
            (w - 1 - x) as u32,
            y,
            w,
            h,
            border_width(w, h, t),
        ),
        on_border(x, y, w, h, border_width(w, h, t)) == on_border(
            x,
            (h - 1 - y) as u32,
            w,
            h,
            border_width(w, h, t),
        ),
{
}

/// A border of thickness at least 1 paints every pixel of the outermost
/// rows and columns, on all four sides.
pub proof fn law_border_covers_the_edges(x: u32, y: u32, w: u32, h: u32, t: u32)
    requires
        t >= 1,
        x < w,
        y < h,
        x == 0 || y == 0 || x == w - 1 || y == h - 1,
    ensures
        on_border(x, y, w, h, border_width(w, h, t)),
{
}

/// In the top-left corner square of a rounded rectangle with effective
/// radius `e > 0`, a pixel is inside exactly when its Euclidean distance from
/// the corner circle's centre `(e, e)` is at most `e`.
pub proof fn law_rounded_corner_is_a_circle(x: u32, y: u32, w: u32, h: u32, r: u32)
    requires
        effective_radius(w, h, r) > 0,
        x < effective_radius(w, h, r),
        y < effective_radius(w, h, r),
    ensures
        ({
            let e = effective_radius(w, h, r);
            inside_rounded(x, y, w, h, r) == ((e - x) * (e - x) + (e - y) * (e - y) <= e * e)
        }),
{
    let e = effective_radius(w, h, r);
    assert(corner_center(x, w, e) == e);
    assert(corner_center(y, h, e) == e);
    assert((x - e) * (x - e) == (e - x) * (e - x)) by (nonlinear_arith);
    assert((y - e) * (y - e) == (e - y) * (e - y)) by (nonlinear_arith);
}

/// A pixel of the rectangle outside the corner squares (at least the radius
/// away from the left and right sides, or from the top and bottom) is always
/// inside.
pub proof fn law_rounded_keeps_the_middle(x: u32, y: u32, w: u32, h: u32, r: u32)
    requires
        x < w,
        y < h,
        (effective_radius(w, h, r) <= x < w - effective_radius(w, h, r)) || (effective_radius(
            w,
            h,
            r,
        ) <= y < h - effective_radius(w, h, r)),
    ensures
        inside_rounded(x, y, w, h, r),
{
    let e = effective_radius(w, h, r);
    if e > 0 {
        let dx = x - corner_center(x, w, e);
        let dy = y - corner_center(y, h, e);
        assert(-e <= dx <= e);
        assert(-e <= dy <= e);
        assert(dx == 0 || dy == 0);
        assert(dx * dx + dy * dy <= e * e) by (nonlinear_arith)
            requires
                -e <= dx <= e,
                -e <= dy <= e,
                dx == 0 || dy == 0,
        ;
    }
}

/// The default file name starts with the size: the width's digits, `x`, the
/// height's digits, then `_` before a background color or `.` before the
/// extension; squares included ("100x100_959595.png").
pub proof fn law_default_name_starts_with_size(
    size: Size,
    bg_hex: Option<Seq<char>>,
    ext: Seq<char>,
)
    ensures
        ({
            let n = default_name(size, bg_hex, ext);
            let dims = decimal(size.width as nat) + seq!['x'] + decimal(size.height as nat);
            &&& dims.len() < n.len()
            &&& n.take(dims.len() as int) == dims
            &&& n[dims.len() as int] == (if bg_hex is Some {
                '_'
            } else {
                '.'
            })
        }),
{
    let n = default_name(size, bg_hex, ext);
    let dims = decimal(size.width as nat) + seq!['x'] + decimal(size.height as nat);
    assert(n.take(dims.len() as int) =~= dims);
}

/// For every size that parsing accepts, the size part of its default file
/// name (up to the `_` or `.`) parses back to it.
pub proof fn law_default_name_size_parses_back(
    size: Size,
    bg_hex: Option<Seq<char>>,
    ext: Seq<char>,
)
    requires
        1 <= size.width <= MAX_DIM,
        1 <= size.height <= MAX_DIM,
        size.width * size.height <= MAX_PIXELS,
    ensures
        ({
            let n = default_name(size, bg_hex, ext);
            let k = (decimal(size.width as nat).len() + 1 + decimal(size.height as nat).len()) as int;
            &&& k < n.len()
            &&& (n[k] == '_' || n[k] == '.')
            &&& size_outcome(n.take(k)) == Ok::<Size, ErrorKind>(size)
        }),
{
    law_default_name_starts_with_size(size, bg_hex, ext);
    law_file_name_size_parses_back(size);
}

/// Character `i` of a line is drawn in the `i`-th cell, `8 * s` pixels wide,
/// from the line's left edge `ox`: the point `u` pixels into that cell and
/// `v` below the top is lit exactly when the glyph of character `i` has the
/// bit of column `u / s` set in row `v / s`.
pub proof fn law_line_cells(chars: Seq<char>, s: u32, ox: int, oy: int, i: int, u: int, v: int)
    requires
        1 <= s,
        0 <= i < chars.len(),
        0 <= u < 8 * s,
        0 <= v < 8 * s,
    ensures
        line_lights(chars, s, ox, oy, ox + i * 8 * s + u, oy + v) == crate::glyph::glyph_lit(
            chars[i],
            v / (s as int),
            u / (s as int),
        ),
{
    let cw: int = 8 * s;
    let rx = i * 8 * s + u;
    assert(rx == i * cw + u) by (nonlinear_arith)
        requires
            rx == i * 8 * s + u,
            cw == 8 * s,
    ;
    vstd::arithmetic::div_mod::lemma_fundamental_div_mod_converse(rx, cw, i, u);
    assert(0 <= rx < chars.len() * 8 * s) by (nonlinear_arith)
        requires
            rx == i * cw + u,
            0 <= u < cw,
            0 <= i < chars.len(),
            cw == 8 * s,
    ;
    assert(text_width(chars.len(), s) == chars.len() * 8 * s);
    assert(rx / cw == i);
    assert(rx % cw == u);
    assert((ox + i * 8 * s + u) - ox == rx);
}

/// On a canvas, a line that lies wholly between column 0 and column 2^32 and
/// between row 0 and row 2^32 sets the pixel `u` pixels into the cell of
/// character `i` and `v` below its top to the line's color exactly when
/// that character's glyph lights it, and otherwise leaves it as it was.
pub proof fn law_line_pixel(
    m: Map<(u32, u32), [u8; 4]>,
    w: u32,
    chars: Seq<char>,
    s: u32,
    dx: int,
    oy: int,
    color: [u8; 4],
    i: int,
    u: int,
    v: int,
    x: u32,
    y: u32,
)
    requires
        1 <= s,
        0 <= i < chars.len(),
        0 <= u < 8 * s,
        0 <= v < 8 * s,
        0 <= line_left(w, chars.len(), s, dx),
        line_left(w, chars.len(), s, dx) + text_width(chars.len(), s) <= 0x1_0000_0000,
        0 <= oy,
        oy + 8 * s <= 0x1_0000_0000,
        x == line_left(w, chars.len(), s, dx) + i * 8 * s + u,
        y == oy + v,
        m.dom().contains((x, y)),
    ensures
        paint_line(m, w, chars, s, dx, oy, color)[(x, y)] == if crate::glyph::glyph_lit(
            chars[i],
            v / (s as int),
            u / (s as int),
        ) {
            color
        } else {
            m[(x, y)]
        },
{
    let ox = line_left(w, chars.len(), s, dx);
    law_line_cells(chars, s, ox, oy, i, u, v);
    if line_hits(chars, s, ox, oy, x, y) {
        let (px, py) = choose|px: int, py: int|
            #[trigger] line_lights(chars, s, ox, oy, px, py) && lands(px, x) && lands(py, y);
        assert(px < 0x1_0000_0000);
        assert(py < 0x1_0000_0000);
        assert(px % 0x1_0000_0000 == px);
        assert(py % 0x1_0000_0000 == py);
    }
    if line_lights(chars, s, ox, oy, x as int, y as int) {
        assert(lands(x as int, x));
        assert(lands(y as int, y));
    }
}

/// A border paints exactly the pixels closer to the nearest edge than its
/// effective thickness: `t` capped at half of each side, rounded up.
pub proof fn law_border_is_distance_from_edge(x: u32, y: u32, w: u32, h: u32, t: u32)
    requires
        x < w,
        y < h,
    ensures
        ({
            let dx = if x <= w - 1 - x {
                x as int
            } else {
                w - 1 - x
            };
            let dy = if y <= h - 1 - y {
                y as int
            } else {
                h - 1 - y
            };
            let d = if dx <= dy {
                dx
            } else {
                dy
            };
            let tw = border_width(w, h, t);
            &&& tw <= t
            &&& tw <= (w + 1) / 2
            &&& tw <= (h + 1) / 2
            &&& (tw == t || tw == (w + 1) / 2 || tw == (h + 1) / 2)
            &&& on_border(x, y, w, h, tw) == (d < tw)
        }),
{
}

/// The radius of the corners is `r` capped at half of each side: the largest
/// value that is at most `r`, `w / 2` and `h / 2`.
pub proof fn law_effective_radius_caps(w: u32, h: u32, r: u32)
    ensures
        ({
            let e = effective_radius(w, h, r);
            &&& 0 <= e
            &&& e <= r
            &&& e <= w / 2
            &&& e <= h / 2
            &&& (e == r || e == w / 2 || e == h / 2)
        }),
{
}

/// Eight hex digits spell a color whose four channels, alpha last, are the
/// values of the digit pairs, high digit first.
pub proof fn law_eight_digit_color(v: Seq<int>, upper: Seq<bool>)
    requires
        v.len() == 8,
        upper.len() == 8,
        forall|j: int| 0 <= j < 8 ==> 0 <= #[trigger] v[j] < 16,
    ensures
        hex_color(
            Seq::new(
                8,
                |j: int|
                    if upper[j] {
                        upper_hex_digits()[v[j]]
                    } else {
                        lower_hex_digits()[v[j]]
                    },
            ),
        ) == Some(
            [
                (16 * v[0] + v[1]) as u8,
                (16 * v[2] + v[3]) as u8,
                (16 * v[4] + v[5]) as u8,
                (16 * v[6] + v[7]) as u8,
            ],
        ),
{
    let d = Seq::new(
        8,
        |j: int|
            if upper[j] {
                upper_hex_digits()[v[j]]
            } else {
                lower_hex_digits()[v[j]]
            },
    );
    assert forall|j: int| 0 <= j < 8 implies is_hex_digit(#[trigger] d[j]) && hex_value(d[j])
        == v[j] by {
        law_hex_digit_values(v[j]);
    }
    assert(hex_value(d[0]) == v[0] && hex_value(d[1]) == v[1] && hex_value(d[2]) == v[2]);
    assert(hex_value(d[3]) == v[3] && hex_value(d[4]) == v[4] && hex_value(d[5]) == v[5]);
    assert(hex_value(d[6]) == v[6] && hex_value(d[7]) == v[7]);
}

/// The default file name ends with `.` and the extension.
pub proof fn law_default_name_ends_with_extension(
    size: Size,
    bg_hex: Option<Seq<char>>,
    ext: Seq<char>,
)
    ensures
        ({
            let n = default_name(size, bg_hex, ext);
            &&& ext.len() < n.len()
            &&& n.skip(n.len() - ext.len() - 1) == seq!['.'] + ext
        }),
{
    let n = default_name(size, bg_hex, ext);
    assert(n.skip(n.len() - ext.len() - 1) =~= seq!['.'] + ext);
}

/// A line whose rows (from `oy`, `8 * s` of them) lie between row 0 and row
/// 2^32 lands nothing on a row outside them.
proof fn lemma_line_misses_row(chars: Seq<char>, s: u32, ox: int, oy: int, x: u32, y: u32)
    requires
        0 <= oy,
        oy + 8 * s <= 0x1_0000_0000,
        y < oy || y >= oy + 8 * s,
    ensures
        !line_hits(chars, s, ox, oy, x, y),
{
    if line_hits(chars, s, ox, oy, x, y) {
        let (px, py) = choose|px: int, py: int|
            #[trigger] line_lights(chars, s, ox, oy, px, py) && lands(px, x) && lands(py, y);
        assert(py % 0x1_0000_0000 == py);
    }
}

proof fn lemma_block_pixel(
    m: Map<(u32, u32), [u8; 4]>,
    w: u32,
    lines: Seq<Seq<char>>,
    kk: nat,
    s: u32,
    top: int,
    fg: [u8; 4],
    off: int,
    k: int,
    i: int,
    u: int,
    v: int,
    x: u32,
    y: u32,
)
    requires
        1 <= s,
        kk <= lines.len(),
        0 <= k < lines.len(),
        0 <= i < lines[k].len(),
        0 <= u < 8 * s,
        0 <= v < 8 * s,
        0 <= top,
        top + lines.len() * 8 * s <= 0x1_0000_0000,
        0 <= line_left(w, lines[k].len(), s, 0),
        line_left(w, lines[k].len(), s, 0) + text_width(lines[k].len(), s) <= 0x1_0000_0000,
        x == line_left(w, lines[k].len(), s, 0) + i * 8 * s + u,
        y == top + k * 8 * s + v,
        m.dom().contains((x, y)),
    ensures
        paint_lines(m, w, lines, kk, s, top, fg, None, off)[(x, y)] == if kk <= k {
            m[(x, y)]
        } else if crate::glyph::glyph_lit(lines[k][i], v / (s as int), u / (s as int)) {
            fg
        } else {
            m[(x, y)]
        },
    decreases kk,
{
    if kk > 0 {
        let j: int = kk - 1;
        lemma_block_pixel(m, w, lines, j as nat, s, top, fg, off, k, i, u, v, x, y);
        lemma_paint_lines_colors(m, w, lines, j as nat, s, top, fg, None, off);
        let prev = paint_lines(m, w, lines, j as nat, s, top, fg, None, off);
        let oy = top + j * 8 * s;
        assert(paint_lines(m, w, lines, kk, s, top, fg, None, off) == paint_line(
            prev,
            w,
            lines[j],
            s,
            0,
            oy,
            fg,
        ));
        assert(0 <= j * 8 * s && (j + 1) * 8 * s <= lines.len() * 8 * s) by (nonlinear_arith)
            requires
                0 <= j < lines.len(),
                1 <= s,
        ;
        assert(oy + 8 * s == top + (j + 1) * 8 * s) by (nonlinear_arith)
            requires
                oy == top + j * 8 * s,
        ;
        if j < k {
            assert((j + 1) * 8 * s <= k * 8 * s) by (nonlinear_arith)
                requires
                    j + 1 <= k,
                    1 <= s,
            ;
            lemma_line_misses_row(lines[j], s, line_left(w, lines[j].len(), s, 0), oy, x, y);
        } else if j > k {
            assert((k + 1) * 8 * s <= j * 8 * s) by (nonlinear_arith)
                requires
                    k + 1 <= j,
                    1 <= s,
            ;
            assert(k * 8 * s + 8 * s == (k + 1) * 8 * s) by (nonlinear_arith);
            lemma_line_misses_row(lines[j], s, line_left(w, lines[j].len(), s, 0), oy, x, y);
        } else {
            law_line_pixel(prev, w, lines[k], s, 0, oy, fg, i, u, v, x, y);
        }
    }
}

/// The lines of a label are stacked top to bottom in order, each in its own
/// band `8 * s` rows high from the block's top: where the block lies between
/// row 0 and row 2^32 and line `k` between column 0 and column 2^32, the pixel
/// `u` pixels into the cell of character `i` of line `k` and `v` below the
/// line's top is in the label color exactly when that character's glyph
/// lights it, and is otherwise left as it was.
pub proof fn law_label_pixel(
    m: Map<(u32, u32), [u8; 4]>,
    w: u32,
    h: u32,
    fg: [u8; 4],
    text: &str,
    scale: Option<u32>,
    fit: u32,
    k: int,
    i: int,
    u: int,
    v: int,
    x: u32,
    y: u32,
)
    requires
        text@.len() > 0,
        ({
            let lines = label_lines(text@);
            let s = label_scale(scale, fit);
            let top = block_top(h, lines.len(), s);
            &&& 0 <= k < lines.len()
            &&& 0 <= i < lines[k].len()
            &&& 0 <= u < 8 * s
            &&& 0 <= v < 8 * s
            &&& 0 <= top
            &&& top + lines.len() * 8 * s <= 0x1_0000_0000
            &&& 0 <= line_left(w, lines[k].len(), s, 0)
            &&& line_left(w, lines[k].len(), s, 0) + text_width(lines[k].len(), s)
                <= 0x1_0000_0000
            &&& x == line_left(w, lines[k].len(), s, 0) + i * 8 * s + u
            &&& y == top + k * 8 * s + v
        }),
        m.dom().contains((x, y)),
    ensures
        with_label(m, w, h, fg, None, Some(text), scale, fit)[(x, y)] == if crate::glyph::glyph_lit(
            label_lines(text@)[k][i],
            v / (label_scale(scale, fit) as int),
            u / (label_scale(scale, fit) as int),
        ) {
            fg
        } else {
            m[(x, y)]
        },
{
    let lines = label_lines(text@);
    let s = label_scale(scale, fit);
    let top = block_top(h, lines.len(), s);
    lemma_block_pixel(m, w, lines, lines.len(), s, top, fg, shadow_offset(s), k, i, u, v, x, y);
}

} // verus!
