use vstd::prelude::*;

verus! {

/// The 8x8 bitmap that `font8x8`'s `BASIC_LEGACY` table holds for code point
/// `code` (below 128): eight rows, top first; bit `col` of a row is the pixel
/// in column `col`, counted from the left.
pub uninterp spec fn basic_legacy_glyph(code: usize) -> Seq<u8>;

/// `font8x8::legacy::BASIC_LEGACY[code]`, the glyph of an ASCII code point.
#[verifier::external_body]
fn basic_legacy(code: usize) -> (rows: [u8; 8])
    requires
        code < 128,
    ensures
        rows@ == basic_legacy_glyph(code),
{
    font8x8::legacy::BASIC_LEGACY[code]
}

/// The glyph drawn for `ch`: the font's bitmap for ASCII, a blank cell for
/// anything else.
pub open spec fn glyph(ch: char) -> Seq<u8> {
    if (ch as u32) < 128 {
        basic_legacy_glyph(ch as usize)
    } else {
        seq![0u8, 0, 0, 0, 0, 0, 0, 0]
    }
}

/// Whether the glyph of `ch` lights the pixel in row `row`, column `col`.
pub open spec fn glyph_lit(ch: char, row: int, col: int) -> bool {
    (glyph(ch)[row] >> (col as u8)) & 1 != 0
}

/// Look up an ASCII glyph, falling back to a blank cell for anything outside
/// the basic font's range.
pub fn glyph_for(ch: char) -> (rows: [u8; 8])
    ensures
        rows@ == glyph(ch),
{
    let code = ch as u32;
    if code < 128 {
        basic_legacy(code as usize)
    } else {
        let blank = [0u8; 8];
        assert(blank@ =~= seq![0u8, 0, 0, 0, 0, 0, 0, 0]);
        blank
    }
}

} // verus!
