use vstd::prelude::*;

use crate::text::{chars_of, string_of};

verus! {

/// `s` with every literal backslash-n (the two characters `\` and `n`) turned
/// into a newline, scanning left to right as `str::replace` does.
pub open spec fn unescape_newlines(s: Seq<char>) -> Seq<char>
    decreases s.len(),
{
    if s.len() == 0 {
        s
    } else if s.len() >= 2 && s[0] == '\\' && s[1] == 'n' {
        seq!['\n'] + unescape_newlines(s.skip(2))
    } else {
        seq![s[0]] + unescape_newlines(s.skip(1))
    }
}

/// The pieces of `s` between newlines, as `str::split('\n')` yields them:
/// always at least one, and an empty one after a trailing newline.
pub open spec fn split_newlines(s: Seq<char>) -> Seq<Seq<char>>
    decreases s.len(),
{
    if s.len() == 0 {
        seq![Seq::<char>::empty()]
    } else {
        let prev = split_newlines(s.drop_last());
        if s.last() == '\n' {
            prev.push(Seq::<char>::empty())
        } else {
            prev.update(prev.len() - 1, prev.last().push(s.last()))
        }
    }
}

/// The lines of a label.
pub open spec fn label_lines(text: Seq<char>) -> Seq<Seq<char>> {
    split_newlines(unescape_newlines(text))
}

/// The lines `ls` joined with newlines between them.
pub open spec fn join_lines(ls: Seq<Seq<char>>) -> Seq<char>
    decreases ls.len(),
{
    if ls.len() <= 1 {
        if ls.len() == 0 {
            Seq::<char>::empty()
        } else {
            ls[0]
        }
    } else {
        join_lines(ls.drop_last()) + seq!['\n'] + ls.last()
    }
}

/// The views of a vector of strings.
pub open spec fn string_views(v: Seq<String>) -> Seq<Seq<char>> {
    v.map_values(|s: String| s@)
}

/// `v` with every backslash-n turned into a newline.
fn unescape(v: &Vec<char>) -> (u: Vec<char>)
    ensures
        u@ == unescape_newlines(v@),
{
    let n = v.len();
    let mut u: Vec<char> = Vec::new();
    let mut i: usize = 0;
    assert(v@.skip(0) =~= v@);
    assert(u@ + unescape_newlines(v@.skip(0)) =~= unescape_newlines(v@));
    while i < n
        invariant
            n == v@.len(),
            i <= n,
            u@ + unescape_newlines(v@.skip(i as int)) == unescape_newlines(v@),
        decreases n - i,
    {
        let ghost rest = v@.skip(i as int);
        let ghost before = u@;
        assert(rest[0] == v@[i as int]);
        if i + 1 < n && v[i] == '\\' && v[i + 1] == 'n' {
            assert(rest[1] == v@[i + 1]);
            u.push('\n');
            assert(rest.skip(2) =~= v@.skip(i + 2));
            assert(unescape_newlines(rest) == seq!['\n'] + unescape_newlines(rest.skip(2)));
            assert(u@ + unescape_newlines(v@.skip(i + 2)) =~= before + unescape_newlines(rest));
            i += 2;
        } else {
            u.push(v[i]);
            assert(rest.skip(1) =~= v@.skip(i + 1));
            assert(unescape_newlines(rest) == seq![rest[0]] + unescape_newlines(rest.skip(1)));
            assert(u@ + unescape_newlines(v@.skip(i + 1)) =~= before + unescape_newlines(rest));
            i += 1;
        }
    }
    assert(v@.skip(n as int) =~= Seq::<char>::empty());
    assert(u@ + unescape_newlines(v@.skip(n as int)) =~= u@);
    u
}

/// Split a label into lines, treating a literal `\n` (backslash-n) or a real
/// newline as a line break.
pub fn split_label(text: &str) -> (lines: Vec<String>)
    ensures
        string_views(lines@) == label_lines(text@),
{
    let u = unescape(&chars_of(text));
    let n = u.len();
    let mut lines: Vec<String> = Vec::new();
    let mut start: usize = 0;
    let mut i: usize = 0;
    assert(u@.take(0) =~= Seq::<char>::empty());
    assert(string_views(lines@).push(u@.subrange(0, 0)) =~= seq![Seq::<char>::empty()]);
    while i < n
        invariant
            n == u@.len(),
            start <= i <= n,
            split_newlines(u@.take(i as int)) == string_views(lines@).push(
                u@.subrange(start as int, i as int),
            ),
        decreases n - i,
    {
        let ghost prev = split_newlines(u@.take(i as int));
        assert(u@.take(i + 1).drop_last() =~= u@.take(i as int));
        assert(u@.take(i + 1).last() == u@[i as int]);
        if u[i] == '\n' {
            let line = string_of(&u, start, i);
            lines.push(line);
            start = i + 1;
            assert(string_views(lines@) =~= prev);
            assert(u@.subrange(start as int, i + 1) =~= Seq::<char>::empty());
        } else {
            assert(u@.subrange(start as int, i + 1) =~= u@.subrange(start as int, i as int).push(
                u@[i as int],
            ));
            assert(string_views(lines@).push(u@.subrange(start as int, i + 1)) =~= prev.update(
                prev.len() - 1,
                prev.last().push(u@[i as int]),
            ));
        }
        i += 1;
    }
    let last = string_of(&u, start, n);
    lines.push(last);
    assert(u@.take(n as int) =~= u@);
    assert(string_views(lines@) =~= split_newlines(u@));
    lines
}

} // verus!
