use vstd::prelude::*;

use crate::error::{Error, ErrorKind};
use crate::text::{chars_of, trim, trim_bounds};

verus! {

/// An RGBA color with 8 bits per channel, in the order red, green, blue,
/// alpha.
#[derive(Clone, Copy, Debug, PartialEq, Eq)]
pub struct Rgba(pub [u8; 4]);

/// Perceptual-ish luminance of an RGB triple, from 0 to 255.
pub open spec fn luminance(c: [u8; 4]) -> int {
    (c[0] * 299 + c[1] * 587 + c[2] * 114) / 1000
}

/// Channel value `c` blended 18% toward `toward`.
pub open spec fn blend18(c: u8, toward: u8) -> u8 {
    ((c * 82 + toward * 18) / 100) as u8
}

/// The shade that `alt_color` derives from `c`: each color channel blended
/// 18% toward black when `c` is light (luminance at least 128), toward white
/// otherwise; alpha unchanged.
pub open spec fn alt_of(c: [u8; 4]) -> [u8; 4] {
    let toward: u8 = if luminance(c) >= 128 {
        0
    } else {
        255
    };
    [blend18(c[0], toward), blend18(c[1], toward), blend18(c[2], toward), c[3]]
}

fn blend_channel(c: u8, toward: u8) -> (m: u8)
    ensures
        m == blend18(c, toward),
{
    ((c as u32 * 82 + toward as u32 * 18) / 100) as u8
}

/// Derive a second, visibly different checkerboard color from `bg`: blend
/// toward black for light backgrounds, toward white for dark ones.
pub fn alt_color(bg: Rgba) -> (alt: Rgba)
    ensures
        alt.0 == alt_of(bg.0),
{
    let r = bg.0[0];
    let g = bg.0[1];
    let b = bg.0[2];
    let a = bg.0[3];
    let lum = (r as u32 * 299 + g as u32 * 587 + b as u32 * 114) / 1000;
    let toward: u8 = if lum >= 128 {
        0
    } else {
        255
    };
    Rgba([blend_channel(r, toward), blend_channel(g, toward), blend_channel(b, toward), a])
}

/// Whether `c` is an ASCII hex digit.
pub open spec fn is_hex_digit(c: char) -> bool {
    ('0' <= c <= '9') || ('a' <= c <= 'f') || ('A' <= c <= 'F')
}

/// The value of the hex digit `c`.
pub open spec fn hex_value(c: char) -> int {
    if '0' <= c <= '9' {
        c as u32 - '0' as u32
    } else if 'a' <= c <= 'f' {
        c as u32 - 'a' as u32 + 10
    } else {
        c as u32 - 'A' as u32 + 10
    }
}

/// `s` without one leading `#`, if it has one.
pub open spec fn strip_hash(s: Seq<char>) -> Seq<char> {
    if s.len() > 0 && s[0] == '#' {
        s.skip(1)
    } else {
        s
    }
}

/// The hex digits of a color string: trimmed, without a leading `#`.
pub open spec fn color_digits(input: Seq<char>) -> Seq<char> {
    strip_hash(trim(input))
}

/// The color that the hex digits `d` spell, if they are 3, 4, 6 or 8 hex
/// digits: short forms repeat each digit, and without alpha digits the color
/// is opaque.
pub open spec fn hex_color(d: Seq<char>) -> Option<[u8; 4]> {
    if !(forall|i: int| 0 <= i < d.len() ==> is_hex_digit(#[trigger] d[i])) {
        None
    } else if d.len() == 3 || d.len() == 4 {
        let a = if d.len() == 4 {
            17 * hex_value(d[3])
        } else {
            255
        };
        Some(
            [
                (17 * hex_value(d[0])) as u8,
                (17 * hex_value(d[1])) as u8,
                (17 * hex_value(d[2])) as u8,
                a as u8,
            ],
        )
    } else if d.len() == 6 || d.len() == 8 {
        let a = if d.len() == 8 {
            16 * hex_value(d[6]) + hex_value(d[7])
        } else {
            255
        };
        Some(
            [
                (16 * hex_value(d[0]) + hex_value(d[1])) as u8,
                (16 * hex_value(d[2]) + hex_value(d[3])) as u8,
                (16 * hex_value(d[4]) + hex_value(d[5])) as u8,
                a as u8,
            ],
        )
    } else {
        None
    }
}

fn hex_digit(c: char) -> (r: Option<u8>)
    ensures
        match r {
            Some(v) => is_hex_digit(c) && v == hex_value(c) && v < 16,
            None => !is_hex_digit(c),
        },
{
    if '0' <= c && c <= '9' {
        Some((c as u32 - '0' as u32) as u8)
    } else if 'a' <= c && c <= 'f' {
        Some((c as u32 - 'a' as u32 + 10) as u8)
    } else if 'A' <= c && c <= 'F' {
        Some((c as u32 - 'A' as u32 + 10) as u8)
    } else {
        None
    }
}

/// Parse a hex color into RGBA, with or without a leading `#`.
///
/// Accepted digit counts:
/// - 3 ("abc") and 6 ("aabbcc"): opaque RGB
/// - 4 ("abcd") and 8 ("aabbccdd"): RGBA with an explicit alpha channel
///
/// Short forms expand each digit ("f00a" -> "ff0000aa").
pub fn parse_color(input: &str) -> (r: Result<Rgba, Error>)
    ensures
        match r {
            Ok(c) => hex_color(color_digits(input@)) == Some(c.0),
            Err(e) => hex_color(color_digits(input@)) is None && e.kind == ErrorKind::InvalidColor
                && e.input@ == input@,
        },
{
    let raw = chars_of(input);
    let (a, b) = trim_bounds(&raw);
    let start = if a < b && raw[a] == '#' {
        a + 1
    } else {
        a
    };
    let ghost d = color_digits(input@);
    assert(raw@.subrange(start as int, b as int) =~= d);
    let n = b - start;
    let mut vals: Vec<u8> = Vec::new();
    let mut i = start;
    while i < b
        invariant
            start <= i <= b <= raw@.len(),
            n == b - start,
            d == raw@.subrange(start as int, b as int),
            d == color_digits(input@),
            vals@.len() == i - start,
            forall|j: int| 0 <= j < i - start ==> is_hex_digit(#[trigger] d[j]) && vals@[j]
                == hex_value(d[j]) && vals@[j] < 16,
        decreases b - i,
    {
        match hex_digit(raw[i]) {
            Some(v) => vals.push(v),
            None => {
                assert(d[i - start] == raw@[i as int]);
                return Err(Error { kind: ErrorKind::InvalidColor, input: input.to_owned() });
            },
        }
        assert(d[i - start] == raw@[i as int]);
        i += 1;
    }
    if n == 3 || n == 4 {
        let alpha = if n == 4 {
            17 * vals[3]
        } else {
            255
        };
        Ok(Rgba([17 * vals[0], 17 * vals[1], 17 * vals[2], alpha]))
    } else if n == 6 || n == 8 {
        let alpha = if n == 8 {
            16 * vals[6] + vals[7]
        } else {
            255
        };
        Ok(Rgba([16 * vals[0] + vals[1], 16 * vals[2] + vals[3], 16 * vals[4] + vals[5], alpha]))
    } else {
        Err(Error { kind: ErrorKind::InvalidColor, input: input.to_owned() })
    }
}

} // verus!
