use vstd::prelude::*;

use crate::color::strip_hash;
use crate::error::{Error, ErrorKind};
use crate::size::Size;
use crate::text::{
    append_chars, ascii_lowercase, chars_of, lowercase_range, push_char, string_of,
    to_ascii_lower, trim, trim_bounds,
};

verus! {

/// Whether `c` separates the components of a path (on some platform).
pub open spec fn is_separator(c: char) -> bool {
    c == '/' || c == '\\'
}

/// The part of `p` after its last separator.
pub open spec fn path_tail(p: Seq<char>) -> Seq<char>
    decreases p.len(),
{
    if p.len() == 0 || is_separator(p.last()) {
        Seq::<char>::empty()
    } else {
        path_tail(p.drop_last()).push(p.last())
    }
}

/// The part of `p` after its last `.`.
pub open spec fn after_last_dot(p: Seq<char>) -> Seq<char>
    decreases p.len(),
{
    if p.len() == 0 || p.last() == '.' {
        Seq::<char>::empty()
    } else {
        after_last_dot(p.drop_last()).push(p.last())
    }
}

/// A path whose file name every platform reads the same way: it starts with
/// no separator, holds no `:` (so it has no drive or network prefix), and its
/// last part is a plain name that holds a `.` but does not start with one.
pub open spec fn plain_file_path(p: Seq<char>) -> bool {
    let tail = path_tail(p);
    &&& p.len() > 0
    &&& !is_separator(p[0])
    &&& !p.contains(':')
    &&& tail.len() > 0
    &&& tail[0] != '.'
    &&& tail.contains('.')
}

/// The part of `p` after its last `/`.
pub open spec fn last_slash_part(p: Seq<char>) -> Seq<char>
    decreases p.len(),
{
    if p.len() == 0 || p.last() == '/' {
        Seq::<char>::empty()
    } else {
        last_slash_part(p.drop_last()).push(p.last())
    }
}

/// A path that every platform splits the same way: only `/` separates its
/// parts, and it has no drive, verbatim or network prefix (no `:`, no backslash,
/// and it does not start with two separators).
pub open spec fn slash_path(p: Seq<char>) -> bool {
    &&& !p.contains(':')
    &&& !p.contains('\\')
    &&& !(p.len() >= 2 && p[0] == '/' && p[1] == '/')
}

/// The extension of the file name `t`: what follows its last `.`, unless it
/// has none, its only `.` starts it, or it is `..`.
pub open spec fn name_extension(t: Seq<char>) -> Option<Seq<char>> {
    let a = after_last_dot(t);
    if !t.contains('.') || a.len() + 1 == t.len() || t == seq!['.', '.'] {
        None
    } else {
        Some(a)
    }
}

/// What holds of the extension `e` that `Path::extension` finds in `p`, on
/// every platform: there is none without a `.`; for a plain file path it is
/// what follows the last `.`; for a path split on `/` alone whose last part
/// is a name other than `.`, it is that name's extension; and any extension
/// comes right after a `.`, holds no `.`, and runs to the end of the path or
/// to a separator.
pub open spec fn extension_facts(p: Seq<char>, e: Option<Seq<char>>) -> bool {
    &&& !p.contains('.') ==> e is None
    &&& plain_file_path(p) ==> e == Some(after_last_dot(p))
    &&& slash_path(p) && last_slash_part(p).len() > 0 && last_slash_part(p) != seq!['.']
        ==> e == name_extension(last_slash_part(p))
    &&& e matches Some(x) ==> {
        &&& !x.contains('.')
        &&& exists|i: int|
            0 <= i && i + 1 + x.len() <= p.len() && #[trigger] p[i] == '.' && p.subrange(
                i + 1,
                i + 1 + x.len(),
            ) == x && (i + 1 + x.len() == p.len() || is_separator(p[i + 1 + x.len()]))
    }
}

/// The view of an optional string.
pub open spec fn opt_view(e: Option<&str>) -> Option<Seq<char>> {
    match e {
        Some(x) => Some(x@),
        None => None,
    }
}

/// `Path::extension` of the path `path`: the extension of its file name, if
/// it has one (as text). Which part of the path that is depends on the
/// platform's path syntax; what is claimed is only what holds on every
/// platform (`extension_facts`).
#[verifier::external_body]
fn path_extension(path: &str) -> (ext: Option<&str>)
    ensures
        extension_facts(path@, opt_view(ext)),
{
    std::path::Path::new(path).extension().and_then(|e| e.to_str())
}

/// The extensions that an output file may have.
pub open spec fn is_supported_ext(e: Seq<char>) -> bool {
    e == seq!['p', 'n', 'g'] || e == seq!['j', 'p', 'g'] || e == seq!['j', 'p', 'e', 'g'] || e
        == seq!['w', 'e', 'b', 'p']
}

/// What the extension `ext` of the output path `path` gives: the extension
/// lower-cased when it is supported, else an error about it (or about the
/// path, when it has no extension).
pub open spec fn ext_outcome(path: Seq<char>, ext: Option<Seq<char>>) -> Result<
    Seq<char>,
    (ErrorKind, Seq<char>),
> {
    match ext {
        None => Err((ErrorKind::MissingExtension, path)),
        Some(e) => {
            let l = ascii_lowercase(e);
            if is_supported_ext(l) {
                Ok(l)
            } else {
                Err((ErrorKind::UnsupportedExtension, l))
            }
        },
    }
}

/// The view of a result of `output_extension`.
pub open spec fn ext_result_view(r: Result<String, Error>) -> Result<
    Seq<char>,
    (ErrorKind, Seq<char>),
> {
    match r {
        Ok(s) => Ok(s@),
        Err(e) => Err((e.kind, e.input@)),
    }
}

fn is_ext(l: &Vec<char>, e: &str) -> (b: bool)
    ensures
        b == (l@ == e@),
{
    let ev = chars_of(e);
    if l.len() != ev.len() {
        return false;
    }
    let mut i: usize = 0;
    while i < l.len()
        invariant
            l@.len() == ev@.len(),
            ev@ == e@,
            i <= l@.len(),
            forall|j: int| 0 <= j < i ==> l@[j] == ev@[j],
        decreases l@.len() - i,
    {
        if l[i] != ev[i] {
            return false;
        }
        i += 1;
    }
    assert(l@ =~= ev@);
    true
}

/// Validate and normalize the extension `ext` of the output path `path` to a
/// supported format: "png", "jpg", "jpeg" or "webp", lower-cased.
pub fn output_extension(path: &str, ext: Option<&str>) -> (r: Result<String, Error>)
    ensures
        ext_result_view(r) == ext_outcome(path@, opt_view(ext)),
{
    match ext {
        None => Err(Error { kind: ErrorKind::MissingExtension, input: path.to_owned() }),
        Some(e) => {
            let raw = chars_of(e);
            let l = lowercase_range(&raw, 0, raw.len());
            assert(raw@.subrange(0, raw@.len() as int) =~= e@);
            let png = is_ext(&l, "png");
            let jpg = is_ext(&l, "jpg");
            let jpeg = is_ext(&l, "jpeg");
            let webp = is_ext(&l, "webp");
            proof {
                reveal_strlit("png");
                reveal_strlit("jpg");
                reveal_strlit("jpeg");
                reveal_strlit("webp");
                assert("png"@ =~= seq!['p', 'n', 'g']);
                assert("jpg"@ =~= seq!['j', 'p', 'g']);
                assert("jpeg"@ =~= seq!['j', 'p', 'e', 'g']);
                assert("webp"@ =~= seq!['w', 'e', 'b', 'p']);
            }
            let s = string_of(&l, 0, l.len());
            assert(l@.subrange(0, l@.len() as int) =~= l@);
            if png || jpg || jpeg || webp {
                Ok(s)
            } else {
                Err(Error { kind: ErrorKind::UnsupportedExtension, input: s })
            }
        },
    }
}

/// Validate and normalize an output file's extension to a supported format.
/// Returns "png", "jpg", "jpeg" or "webp" (lowercased); errors otherwise.
pub fn ext_for_output(path: &str) -> (r: Result<String, Error>)
    ensures
        exists|ext: Option<Seq<char>>|
            extension_facts(path@, ext) && ext_result_view(r) == ext_outcome(path@, ext),
        !path@.contains('.') ==> ext_result_view(r) == Err::<Seq<char>, (ErrorKind, Seq<char>)>(
            (ErrorKind::MissingExtension, path@),
        ),
        plain_file_path(path@) ==> ext_result_view(r) == ext_outcome(
            path@,
            Some(after_last_dot(path@)),
        ),
        slash_path(path@) && last_slash_part(path@).len() > 0 && last_slash_part(path@) != seq![
            '.',
        ] ==> ext_result_view(r) == ext_outcome(path@, name_extension(last_slash_part(path@))),
{
    let ext = path_extension(path);
    let r = output_extension(path, ext);
    assert(extension_facts(path@, opt_view(ext)) && ext_result_view(r) == ext_outcome(
        path@,
        opt_view(ext),
    ));
    r
}

/// The decimal digits of `n`, as `u32`'s `Display` writes them.
pub open spec fn decimal(n: nat) -> Seq<char>
    decreases n,
{
    let d = ((n % 10) + ('0' as u32)) as char;
    if n < 10 {
        seq![d]
    } else {
        decimal(n / 10).push(d)
    }
}

/// Appends the decimal digits of `n` to `s`.
fn push_decimal(s: &mut String, n: u32)
    ensures
        final(s)@ == old(s)@ + decimal(n as nat),
    decreases n,
{
    if n >= 10 {
        push_decimal(s, n / 10);
    }
    let d = ((n % 10) as u8 + 48u8) as char;
    push_char(s, d);
    assert(final(s)@ =~= old(s)@ + decimal(n as nat));
}

/// Each character of `s` twice in a row ("abc" -> "aabbcc").
pub open spec fn doubled(s: Seq<char>) -> Seq<char> {
    Seq::new(2 * s.len(), |i: int| s[i / 2])
}

/// The number of bytes of the UTF-8 encoding of `c` (`char::len_utf8`).
pub open spec fn char_utf8_len(c: char) -> nat {
    let u = c as u32;
    if u < 0x80 {
        1
    } else if u < 0x800 {
        2
    } else if u < 0x10000 {
        3
    } else {
        4
    }
}

/// The number of bytes of the UTF-8 encoding of `s` (`str::len`).
pub open spec fn utf8_len(s: Seq<char>) -> nat
    decreases s.len(),
{
    if s.len() == 0 {
        0
    } else {
        utf8_len(s.drop_last()) + char_utf8_len(s.last())
    }
}

fn char_len_utf8(c: char) -> (n: usize)
    ensures
        n == char_utf8_len(c),
{
    let u = c as u32;
    if u < 0x80 {
        1
    } else if u < 0x800 {
        2
    } else if u < 0x10000 {
        3
    } else {
        4
    }
}

/// Whether `v[from..to]` takes 3 or 4 bytes of UTF-8.
fn is_short_form(v: &Vec<char>, from: usize, to: usize) -> (b: bool)
    requires
        from <= to <= v@.len(),
    ensures
        b == (utf8_len(v@.subrange(from as int, to as int)) == 3 || utf8_len(
            v@.subrange(from as int, to as int),
        ) == 4),
{
    let ghost h = v@.subrange(from as int, to as int);
    let mut total: usize = 0;
    let mut i = from;
    assert(h.take(0) =~= Seq::<char>::empty());
    while i < to
        invariant
            from <= i <= to <= v@.len(),
            h == v@.subrange(from as int, to as int),
            total == utf8_len(h.take(i - from)),
            total <= 4,
        decreases to - i,
    {
        assert(h.take(i - from + 1).drop_last() =~= h.take(i - from));
        assert(h.take(i - from + 1).last() == v@[i as int]);
        total = total + char_len_utf8(v[i]);
        if total > 4 {
            proof {
                lemma_utf8_len_grows(h, i - from + 1);
            }
            return false;
        }
        i += 1;
    }
    assert(h.take(to - from) =~= h);
    total == 3 || total == 4
}

proof fn lemma_utf8_len_grows(s: Seq<char>, k: int)
    requires
        0 <= k <= s.len(),
    ensures
        utf8_len(s.take(k)) <= utf8_len(s),
    decreases s.len() - k,
{
    if k < s.len() {
        lemma_utf8_len_grows(s, k + 1);
        assert(s.take(k + 1).drop_last() =~= s.take(k));
    } else {
        assert(s.take(k) =~= s);
    }
}

/// The background color as it appears in a file name: trimmed, without a
/// leading `#`, short forms (3 or 4 bytes of UTF-8) with each character
/// doubled, and lower-cased.
pub open spec fn normalized_hex(hex: Seq<char>) -> Seq<char> {
    let h = strip_hash(trim(hex));
    let n = utf8_len(h);
    if n == 3 || n == 4 {
        ascii_lowercase(doubled(h))
    } else {
        ascii_lowercase(h)
    }
}

/// Appends the background color `hex` to `s` as a file name shows it.
fn push_normalized_hex(s: &mut String, hex: &str)
    ensures
        final(s)@ == old(s)@ + normalized_hex(hex@),
{
    let raw = chars_of(hex);
    let (a, b) = trim_bounds(&raw);
    let start = if a < b && raw[a] == '#' {
        a + 1
    } else {
        a
    };
    let ghost h = strip_hash(trim(hex@));
    assert(raw@.subrange(start as int, b as int) =~= h);
    let twice = is_short_form(&raw, start, b);
    let ghost out = if twice {
        ascii_lowercase(doubled(h))
    } else {
        ascii_lowercase(h)
    };
    let ghost s0 = s@;
    let mut i = start;
    while i < b
        invariant
            start <= i <= b <= raw@.len(),
            h == raw@.subrange(start as int, b as int),
            s@ == s0 + (if twice {
                ascii_lowercase(doubled(h.take(i - start)))
            } else {
                ascii_lowercase(h.take(i - start))
            }),
        decreases b - i,
    {
        let c = to_ascii_lower(raw[i]);
        push_char(s, c);
        if twice {
            push_char(s, c);
            assert(doubled(h.take(i - start + 1)) =~= doubled(h.take(i - start)).push(
                raw@[i as int],
            ).push(raw@[i as int]));
        } else {
            assert(h.take(i - start + 1) =~= h.take(i - start).push(raw@[i as int]));
        }
        assert(s@ =~= s0 + (if twice {
            ascii_lowercase(doubled(h.take(i - start + 1)))
        } else {
            ascii_lowercase(h.take(i - start + 1))
        }));
        i += 1;
    }
    assert(h.take(b - start) =~= h);
    assert(s@ =~= s0 + normalized_hex(hex@));
}

/// The default output file name: "<W>x<H>[_<bg>].<ext>".
pub open spec fn default_name(size: Size, bg_hex: Option<Seq<char>>, ext: Seq<char>) -> Seq<
    char,
> {
    let dims = decimal(size.width as nat) + seq!['x'] + decimal(size.height as nat);
    match bg_hex {
        Some(hex) => dims + seq!['_'] + normalized_hex(hex) + seq!['.'] + ext,
        None => dims + seq!['.'] + ext,
    }
}

/// Build the default output file name: "<W>x<H>[_<bghex>].<ext>".
pub fn default_filename(size: Size, bg_hex: Option<&str>, ext: &str) -> (name: String)
    ensures
        name@ == default_name(
            size,
            match bg_hex {
                Some(h) => Some(h@),
                None => None,
            },
            ext@,
        ),
{
    let mut name = String::new();
    push_decimal(&mut name, size.width);
    push_char(&mut name, 'x');
    push_decimal(&mut name, size.height);
    match bg_hex {
        Some(hex) => {
            push_char(&mut name, '_');
            push_normalized_hex(&mut name, hex);
        },
        None => {},
    }
    push_char(&mut name, '.');
    let e = chars_of(ext);
    append_chars(&mut name, &e);
    name
}

} // verus!
