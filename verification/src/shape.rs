use vstd::prelude::*;

verus! {

/// The radius actually used for a `w` x `h` rectangle: `r` capped at half of
/// each side.
pub open spec fn effective_radius(w: u32, h: u32, r: u32) -> int {
    let a = if r <= w / 2 { r as int } else { (w / 2) as int };
    if a <= h / 2 { a } else { (h / 2) as int }
}

/// Column (or row) of the corner circle's centre that pixel coordinate `x`
/// is measured against, on a side of length `len` with radius `r`.
pub open spec fn corner_center(x: u32, len: u32, r: int) -> int {
    if x < r {
        r
    } else if x >= len - r {
        len - 1 - r
    } else {
        x as int
    }
}

/// Squared distance from `(x, y)` to the centre of the corner circle it is
/// checked against.
pub open spec fn corner_dist2(x: u32, y: u32, w: u32, h: u32, r: u32) -> int {
    let e = effective_radius(w, h, r);
    let dx = x - corner_center(x, w, e);
    let dy = y - corner_center(y, h, e);
    dx * dx + dy * dy
}

/// Whether `(x, y)` lies inside the `w` x `h` rectangle with corners rounded
/// to radius `r`.
pub open spec fn inside_rounded(x: u32, y: u32, w: u32, h: u32, r: u32) -> bool {
    if x >= w || y >= h {
        false
    } else if effective_radius(w, h, r) == 0 {
        true
    } else {
        let e = effective_radius(w, h, r);
        corner_dist2(x, y, w, h, r) <= e * e
    }
}

/// Whether pixel `(x, y)` lies inside a `w` x `h` rounded rectangle with corner
/// radius `r`. Pixels in a corner region beyond the corner circle are outside,
/// and so is every pixel outside the `w` x `h` rectangle.
pub fn is_inside_rounded(x: u32, y: u32, w: u32, h: u32, r: u32) -> (inside: bool)
    ensures
        inside == inside_rounded(x, y, w, h, r),
{
    if x >= w || y >= h {
        return false;
    }
    proof {
        lemma_pixel_test_fits(x, y, w, h, r);
    }
    let r = r.min(w / 2).min(h / 2);
    if r == 0 {
        return true;
    }
    let cx = if x < r {
        r
    } else if x >= w - r {
        w - 1 - r
    } else {
        x
    };
    let cy = if y < r {
        r
    } else if y >= h - r {
        h - 1 - r
    } else {
        y
    };
    let dx = x as i64 - cx as i64;
    let dy = y as i64 - cy as i64;
    assert(0 <= dx * dx && 0 <= dy * dy) by (nonlinear_arith);
    let rr = r as i64;
    assert(rr * rr <= 0x8000_0000 * 0x8000_0000) by (nonlinear_arith)
        requires
            0 <= rr <= 0x8000_0000,
    ;
    dx * dx + dy * dy <= rr * rr
}

/// For a pixel of the rectangle itself the test's arithmetic fits in `i64`.
proof fn lemma_pixel_test_fits(x: u32, y: u32, w: u32, h: u32, r: u32)
    requires
        x < w,
        y < h,
    ensures
        effective_radius(w, h, r) > 0 ==> corner_dist2(x, y, w, h, r) <= i64::MAX,
{
    let e = effective_radius(w, h, r);
    if e > 0 {
        let dx = x - corner_center(x, w, e);
        let dy = y - corner_center(y, h, e);
        assert(-e <= dx <= e);
        assert(-e <= dy <= e);
        assert(e < 0x8000_0000);
        assert(dx * dx + dy * dy <= 2 * (0x7fff_ffff * 0x7fff_ffff)) by (nonlinear_arith)
            requires
                -e <= dx <= e,
                -e <= dy <= e,
                e <= 0x7fff_ffff,
        ;
    }
}

} // verus!
