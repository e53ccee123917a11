use vstd::prelude::*;

use crate::error::{Error, ErrorKind};
use crate::text::{ascii_lowercase, chars_of, lowercase_range, trim, trim_bounds};

verus! {

/// A parsed image size in pixels.
#[derive(Debug, Clone, Copy, PartialEq, Eq, Structural)]
pub struct Size {
    pub width: u32,
    pub height: u32,
}

/// Upper bound on a dimension, to reject absurd inputs early.
pub const MAX_DIM: u32 = 20_000;

/// Upper bound on total pixels, to avoid huge single allocations (an RGBA
/// buffer is 4 bytes per pixel, so 100 MP is ~400 MB).
pub const MAX_PIXELS: u64 = 100_000_000;

/// The position of the first `c` in `s`, if any.
pub open spec fn find_char(s: Seq<char>, c: char) -> Option<int>
    decreases s.len(),
{
    if s.len() == 0 {
        None
    } else if s[0] == c {
        Some(0)
    } else {
        match find_char(s.skip(1), c) {
            Some(i) => Some(i + 1),
            None => None,
        }
    }
}

/// Whether `s` is one or more ASCII decimal digits.
pub open spec fn all_digits(s: Seq<char>) -> bool {
    s.len() > 0 && forall|i: int| 0 <= i < s.len() ==> '0' <= #[trigger] s[i] <= '9'
}

/// The number that the decimal digits `s` spell.
pub open spec fn decimal_value(s: Seq<char>) -> nat
    decreases s.len(),
{
    if s.len() == 0 {
        0
    } else {
        decimal_value(s.drop_last()) * 10 + ((s.last() as u32) - ('0' as u32)) as nat
    }
}

/// What `u32::from_str` gives for `s`: an optional `+` followed by one or
/// more ASCII digits, whose value fits in a `u32`.
pub open spec fn parse_u32(s: Seq<char>) -> Option<u32> {
    let body = if s.len() > 0 && s[0] == '+' {
        s.skip(1)
    } else {
        s
    };
    if all_digits(body) && decimal_value(body) <= u32::MAX {
        Some(decimal_value(body) as u32)
    } else {
        None
    }
}

/// How a size string is read: trimmed and lower-cased, then split at the
/// first `x` into width and height, or taken whole for both.
pub open spec fn size_fields(input: Seq<char>) -> (Seq<char>, Seq<char>) {
    let s = ascii_lowercase(trim(input));
    match find_char(s, 'x') {
        Some(i) => (s.take(i), s.skip(i + 1)),
        None => (s, s),
    }
}

/// The outcome of parsing the size string `input`.
pub open spec fn size_outcome(input: Seq<char>) -> Result<Size, ErrorKind> {
    let (a, b) = size_fields(input);
    match (parse_u32(a), parse_u32(b)) {
        (Some(w), Some(h)) => if w == 0 || h == 0 {
            Err(ErrorKind::NonPositiveSize)
        } else if w > MAX_DIM || h > MAX_DIM {
            Err(ErrorKind::SideTooLarge)
        } else if w * h > MAX_PIXELS {
            Err(ErrorKind::TooManyPixels)
        } else {
            Ok(Size { width: w, height: h })
        },
        _ => Err(ErrorKind::InvalidSize),
    }
}

pub(crate) proof fn lemma_find_char(s: Seq<char>, c: char, i: int)
    requires
        0 <= i <= s.len(),
        forall|j: int| 0 <= j < i ==> #[trigger] s[j] != c,
    ensures
        i < s.len() && s[i] == c ==> find_char(s, c) == Some(i),
        i == s.len() ==> find_char(s, c) is None,
    decreases i,
{
    if i > 0 {
        assert forall|j: int| 0 <= j < i - 1 implies #[trigger] s.skip(1)[j] != c by {
            assert(s.skip(1)[j] == s[j + 1]);
        }
        lemma_find_char(s.skip(1), c, i - 1);
    }
}

/// The position of the first `c` in `v`, if any.
fn find(v: &Vec<char>, c: char) -> (r: Option<usize>)
    ensures
        match r {
            Some(i) => i < v@.len() && find_char(v@, c) == Some(i as int),
            None => find_char(v@, c) is None,
        },
{
    let mut i: usize = 0;
    while i < v.len()
        invariant
            i <= v@.len(),
            forall|j: int| 0 <= j < i ==> #[trigger] v@[j] != c,
        decreases v@.len() - i,
    {
        if v[i] == c {
            proof {
                lemma_find_char(v@, c, i as int);
            }
            return Some(i);
        }
        i += 1;
    }
    proof {
        lemma_find_char(v@, c, i as int);
    }
    None
}

proof fn lemma_decimal_value_grows(s: Seq<char>, k: int)
    requires
        0 <= k <= s.len(),
        all_digits(s),
    ensures
        decimal_value(s.take(k)) <= decimal_value(s),
    decreases s.len() - k,
{
    if k < s.len() {
        lemma_decimal_value_grows(s, k + 1);
        assert(s.take(k + 1).drop_last() =~= s.take(k));
    } else {
        assert(s.take(k) =~= s);
    }
}

/// `u32::from_str` on `v[from..to]`.
fn parse_u32_range(v: &Vec<char>, from: usize, to: usize) -> (r: Option<u32>)
    requires
        from <= to <= v@.len(),
    ensures
        r == parse_u32(v@.subrange(from as int, to as int)),
{
    let ghost s = v@.subrange(from as int, to as int);
    let start = if from < to && v[from] == '+' {
        from + 1
    } else {
        from
    };
    let ghost body = v@.subrange(start as int, to as int);
    assert(body =~= (if s.len() > 0 && s[0] == '+' {
        s.skip(1)
    } else {
        s
    }));
    if start == to {
        return None;
    }
    let mut acc: u64 = 0;
    let mut i = start;
    assert(body.take(0) =~= Seq::<char>::empty());
    while i < to
        invariant
            start <= i <= to <= v@.len(),
            body == v@.subrange(start as int, to as int),
            s == v@.subrange(from as int, to as int),
            body == (if s.len() > 0 && s[0] == '+' {
                s.skip(1)
            } else {
                s
            }),
            forall|j: int| start <= j < i ==> '0' <= #[trigger] v@[j] <= '9',
            acc == decimal_value(body.take(i - start)),
            acc <= u32::MAX,
        decreases to - i,
    {
        let c = v[i];
        if c < '0' || c > '9' {
            assert(body[i - start] == c);
            return None;
        }
        let d = (c as u32 - '0' as u32) as u64;
        assert(body.take(i - start + 1).drop_last() =~= body.take(i - start));
        assert(body.take(i - start + 1).last() == c);
        acc = acc * 10 + d;
        if acc > u32::MAX as u64 {
            proof {
                if all_digits(body) {
                    lemma_decimal_value_grows(body, i - start + 1);
                }
            }
            return None;
        }
        i += 1;
    }
    assert(body.take(to - start) =~= body);
    assert(all_digits(body)) by {
        assert forall|j: int| 0 <= j < body.len() implies '0' <= #[trigger] body[j] <= '9' by {
            assert(body[j] == v@[j + start]);
        }
    }
    Some(acc as u32)
}

/// Parse a size string: "WxH" (e.g. "640x480") or a single "N" meaning NxN.
pub fn parse_size(input: &str) -> (r: Result<Size, Error>)
    ensures
        match r {
            Ok(size) => size_outcome(input@) == Ok::<Size, ErrorKind>(size),
            Err(e) => size_outcome(input@) == Err::<Size, ErrorKind>(e.kind) && e.input@ == input@,
        },
{
    let raw = chars_of(input);
    let (a, b) = trim_bounds(&raw);
    let s = lowercase_range(&raw, a, b);
    let n = s.len();
    let ((wf, wt), (hf, ht)) = match find(&s, 'x') {
        Some(i) => ((0, i), (i + 1, n)),
        None => ((0, n), (0, n)),
    };
    assert(s@.subrange(wf as int, wt as int) =~= size_fields(input@).0);
    assert(s@.subrange(hf as int, ht as int) =~= size_fields(input@).1);
    let width = match parse_u32_range(&s, wf, wt) {
        Some(v) => v,
        None => {
            return Err(Error { kind: ErrorKind::InvalidSize, input: input.to_owned() });
        },
    };
    let height = match parse_u32_range(&s, hf, ht) {
        Some(v) => v,
        None => {
            return Err(Error { kind: ErrorKind::InvalidSize, input: input.to_owned() });
        },
    };
    if width == 0 || height == 0 {
        return Err(Error { kind: ErrorKind::NonPositiveSize, input: input.to_owned() });
    }
    if width > MAX_DIM || height > MAX_DIM {
        return Err(Error { kind: ErrorKind::SideTooLarge, input: input.to_owned() });
    }
    assert((width as int) * (height as int) <= 20_000 * 20_000) by (nonlinear_arith)
        requires
            width <= 20_000,
            height <= 20_000,
    ;
    if width as u64 * height as u64 > MAX_PIXELS {
        return Err(Error { kind: ErrorKind::TooManyPixels, input: input.to_owned() });
    }
    Ok(Size { width, height })
}

} // verus!
