//! Reading the library arguments of `install add`: `name:version$var`.
use vstd::prelude::*;

use crate::text::{chars_of, owned, slice_chars, string_of};

verus! {

/// The length of the part of `s` before the first `c`.
pub open spec fn segment_len(s: Seq<char>, c: char) -> nat
    decreases s.len(),
{
    if s.len() > 0 && s[0] != c {
        1 + segment_len(s.drop_first(), c)
    } else {
        0
    }
}

/// The part of `s` before the first `c`.
pub open spec fn first_segment(s: Seq<char>, c: char) -> Seq<char> {
    s.take(segment_len(s, c) as int)
}

/// The part of `s` between the first and the second `c`, where `s` holds a `c`.
pub open spec fn second_segment(s: Seq<char>, c: char) -> Option<Seq<char>> {
    if segment_len(s, c) < s.len() {
        Some(first_segment(s.skip(segment_len(s, c) + 1int), c))
    } else {
        None
    }
}

/// A library to install: its name, the version asked for (`latest` where
/// none is given), and the variable it is bound to, if any.
pub struct InstallSpec {
    pub name: String,
    pub version: String,
    pub var: Option<String>,
}

fn segment_len_at(s: &Vec<char>, at: usize, c: char) -> (r: usize)
    requires
        at <= s.len(),
    ensures
        r == segment_len(s@.skip(at as int), c),
        at + r <= s.len(),
{
    let mut j: usize = at;
    while j < s.len() && s[j] != c
        invariant
            at <= j <= s.len(),
            segment_len(s@.skip(at as int), c) == (j - at) + segment_len(s@.skip(j as int), c),
        decreases s.len() - j,
    {
        assert(s@.skip(j as int).drop_first() =~= s@.skip(j as int + 1));
        j = j + 1;
    }
    if j < s.len() {
        assert(s@.skip(j as int)[0] == s@[j as int]);
    }
    j - at
}

/// The first segment of `s` before `c`, and the second one where there is a `c`.
fn split_two(s: &Vec<char>, c: char) -> (r: (Vec<char>, Option<Vec<char>>))
    ensures
        r.0@ == first_segment(s@, c),
        match r.1 {
            Some(t) => second_segment(s@, c) == Some(t@),
            None => second_segment(s@, c) is None,
        },
{
    let n = segment_len_at(s, 0, c);
    assert(s@.skip(0) =~= s@);
    let first = slice_chars(s, 0, n);
    assert(first@ =~= first_segment(s@, c));
    if n < s.len() {
        let m = segment_len_at(s, n + 1, c);
        let second = slice_chars(s, n + 1, n + 1 + m);
        assert(second@ =~= first_segment(s@.skip(n + 1), c));
        (first, Some(second))
    } else {
        (first, None)
    }
}

/// Reads `name:version$var`: the variable is what follows the first `$` (up to
/// a second one), the version what follows the first `:` before it (up to a
/// second one), and the name what comes before both.
pub fn parse_install_spec(lib: &str) -> (r: InstallSpec)
    ensures
        r.name@ == first_segment(first_segment(lib@, '$'), ':'),
        r.version@ == match second_segment(first_segment(lib@, '$'), ':') {
            Some(v) => v,
            None => "latest"@,
        },
        match r.var {
            Some(v) => second_segment(lib@, '$') == Some(v@),
            None => second_segment(lib@, '$') is None,
        },
{
    let s = chars_of(lib);
    let (head, var) = split_two(&s, '$');
    let (name, version) = split_two(&head, ':');
    let version = match version {
        Some(v) => string_of(&v),
        None => owned("latest"),
    };
    let var = match var {
        Some(v) => Some(string_of(&v)),
        None => None,
    };
    InstallSpec { name: string_of(&name), version, var }
}

} // verus!
