//! The passes over the output buffer: injection of the header, module bodies and
//! base block, removal of comments and blank lines, and the rewrite of the two
//! reference grammars into module-load expressions.
use vstd::prelude::*;

use crate::table::{get_value, lookup, table_view};
use crate::preload::PreloadMapping;
use crate::text::{append_chars, append_str, chars_of, slice_chars, string_of};

verus! {

/// Name of the tool, as written into the header of every output.
pub const TOOL_NAME: &'static str = "lmake";

/// Version of the tool, as written into the header of every output.
pub const TOOL_VERSION: &'static str = "0.1.0";

/// Where the tool's source is published, as written into the header of every output.
pub const TOOL_URL: &'static str = "https://github.com/snsvrno/lmake-rs";

/// The provenance comment block put in front of every output.
pub open spec fn header_text() -> Seq<char> {
    seq!['\n'] + header_line_1() + seq!['\n'] + header_line_2() + seq!['\n', '\n']
}

/// The first line of the header: the tool, its version and where it is published.
pub open spec fn header_line_1() -> Seq<char> {
    "-- built with "@ + TOOL_NAME@ + " ("@ + TOOL_VERSION@ + ") <"@ + TOOL_URL@ + ">"@
}

/// The second line of the header: what the tool is.
pub open spec fn header_line_2() -> Seq<char> {
    "-- a tool for compiling lua libraries from multiple source files and dependencies"@
}

/// The chunks, each put on a line of its own after the text before them.
pub open spec fn preload_text(chunks: Seq<Seq<char>>) -> Seq<char>
    decreases chunks.len(),
{
    if chunks.len() == 0 {
        Seq::empty()
    } else {
        preload_text(chunks.drop_last()) + seq!['\n'] + chunks.last()
    }
}

/// The length of the first line of `s`, without its line break.
pub open spec fn line_len(s: Seq<char>) -> nat
    decreases s.len(),
{
    if s.len() > 0 && s[0] != '\n' {
        1 + line_len(s.drop_first())
    } else {
        0
    }
}

/// A line never runs past the end of the text.
pub proof fn lemma_line_len_bound(s: Seq<char>)
    ensures
        line_len(s) <= s.len(),
        line_len(s) < s.len() ==> s[line_len(s) as int] == '\n',
        forall|k: int| 0 <= k < line_len(s) ==> s[k] != '\n',
    decreases s.len(),
{
    if s.len() > 0 && s[0] != '\n' {
        lemma_line_len_bound(s.drop_first());
        assert forall|k: int| 0 <= k < line_len(s) implies s[k] != '\n' by {
            if k > 0 {
                assert(s[k] == s.drop_first()[k - 1]);
            }
        }
    }
}

/// The text with everything from a `--` comment marker to the end of its line removed.
pub open spec fn strip_comments(s: Seq<char>) -> Seq<char>
    decreases s.len(),
    via strip_comments_decreases
{
    if s.len() == 0 {
        s
    } else if s.len() >= 2 && s[0] == '-' && s[1] == '-' {
        strip_comments(s.skip(line_len(s) as int))
    } else {
        seq![s[0]] + strip_comments(s.drop_first())
    }
}

#[via_fn]
proof fn strip_comments_decreases(s: Seq<char>) {
    if s.len() > 0 {
        lemma_line_len_bound(s.drop_first());
        lemma_line_len_bound(s);
    }
}

/// A whitespace character: the characters that `char::is_whitespace` accepts.
pub open spec fn is_space(c: char) -> bool {
    ('\u{9}' <= c && c <= '\u{d}') || c == ' ' || c == '\u{85}' || c == '\u{a0}' || c == '\u{1680}' || ('\u{2000}'
        <= c && c <= '\u{200a}') || c == '\u{2028}' || c == '\u{2029}' || c == '\u{202f}' || c == '\u{205f}' || c
        == '\u{3000}'
}

/// A line that is empty or holds only whitespace.
pub open spec fn is_blank(line: Seq<char>) -> bool {
    forall|k: int| 0 <= k < line.len() ==> is_space(line[k])
}

/// The lines of the text that are not blank, in order.
pub open spec fn kept_lines(s: Seq<char>) -> Seq<Seq<char>>
    decreases s.len(),
    via kept_lines_decreases
{
    let n = line_len(s) as int;
    let first = if is_blank(s.take(n)) {
        Seq::empty()
    } else {
        seq![s.take(n)]
    };
    if n < s.len() {
        first + kept_lines(s.skip(n + 1))
    } else {
        first
    }
}

#[via_fn]
proof fn kept_lines_decreases(s: Seq<char>) {
    lemma_line_len_bound(s);
}

/// A text without line breaks.
pub open spec fn no_break(s: Seq<char>) -> bool {
    forall|k: int| 0 <= k < s.len() ==> s[k] != '\n'
}

/// The first line runs over a text without line breaks.
pub proof fn lemma_line_len_no_break(a: Seq<char>, b: Seq<char>)
    requires
        no_break(a),
    ensures
        line_len(a + b) == a.len() + line_len(b),
    decreases a.len(),
{
    if a.len() > 0 {
        assert((a + b)[0] == a[0]);
        assert((a + b).drop_first() =~= a.drop_first() + b);
        assert(no_break(a.drop_first())) by {
            assert forall|k: int| 0 <= k < a.drop_first().len() implies a.drop_first()[k] != '\n' by {
                assert(a.drop_first()[k] == a[k + 1]);
            }
        }
        lemma_line_len_no_break(a.drop_first(), b);
    } else {
        assert(a + b =~= b);
    }
}

/// A line break splits the kept lines: those of a text without line breaks,
/// then those of the rest.
pub proof fn lemma_kept_lines_split(a: Seq<char>, b: Seq<char>)
    requires
        no_break(a),
    ensures
        kept_lines(a + seq!['\n'] + b) == kept_lines(a) + kept_lines(b),
{
    let s = a + seq!['\n'] + b;
    lemma_line_len_no_break(a, seq!['\n'] + b);
    assert((seq!['\n'] + b)[0] == '\n');
    assert(a + (seq!['\n'] + b) =~= s);
    lemma_line_len_no_break(a, Seq::empty());
    assert(a + Seq::<char>::empty() =~= a);
    assert(s.take(a.len() as int) =~= a);
    assert(s.skip(a.len() + 1int) =~= b);
    assert(a.take(a.len() as int) =~= a);
    if is_blank(a) {
        assert(kept_lines(a) =~= Seq::<Seq<char>>::empty());
        assert(Seq::<Seq<char>>::empty() + kept_lines(b) =~= kept_lines(b));
    }
}

/// The lines joined by line breaks, with none before the first or after the last.
pub open spec fn join_lines(ls: Seq<Seq<char>>) -> Seq<char>
    decreases ls.len(),
{
    if ls.len() == 0 {
        Seq::empty()
    } else if ls.len() == 1 {
        ls[0]
    } else {
        join_lines(ls.drop_last()) + seq!['\n'] + ls.last()
    }
}

/// The text without its blank lines: the other lines, in order, joined by line breaks.
pub open spec fn drop_blank_lines(s: Seq<char>) -> Seq<char> {
    join_lines(kept_lines(s))
}

/// A character that can continue a dependency reference: a flat name.
pub open spec fn is_name_char(c: char) -> bool {
    ('a' <= c && c <= 'z') || ('A' <= c && c <= 'Z') || ('0' <= c && c <= '9') || c == '_' || c == '-'
}

/// A character that can continue an internal reference: a dotted identifier path.
pub open spec fn is_path_char(c: char) -> bool {
    ('a' <= c && c <= 'z') || ('A' <= c && c <= 'Z') || ('0' <= c && c <= '9') || c == '_' || c == '.'
}

/// A character of a reference of the given grammar.
pub open spec fn is_ref_char(c: char, dotted: bool) -> bool {
    if dotted {
        is_path_char(c)
    } else {
        is_name_char(c)
    }
}

/// The length of the reference token that starts `s`.
pub open spec fn token_len(s: Seq<char>, dotted: bool) -> nat
    decreases s.len(),
{
    if s.len() > 0 && is_ref_char(s[0], dotted) {
        1 + token_len(s.drop_first(), dotted)
    } else {
        0
    }
}

/// A token never runs past the end of the text.
pub proof fn lemma_token_len_bound(s: Seq<char>, dotted: bool)
    ensures
        token_len(s, dotted) <= s.len(),
    decreases s.len(),
{
    if s.len() > 0 && is_ref_char(s[0], dotted) {
        lemma_token_len_bound(s.drop_first(), dotted);
    }
}

/// The load expression that a dependency reference becomes.
pub open spec fn dependency_load(id: Seq<char>) -> Seq<char> {
    " require(\""@ + id + "\")"@
}

/// The load expression that an internal reference becomes.
pub open spec fn module_load(id: Seq<char>) -> Seq<char> {
    "require(\""@ + id + "\")"@
}

/// Every `@` followed by a flat name that the mapping holds becomes the load
/// expression of the name's identifier; the rest of the text is kept.
pub open spec fn rewrite_dependency_refs(s: Seq<char>, m: Seq<(Seq<char>, Seq<char>)>) -> Seq<char>
    decreases s.len(),
    via rewrite_dependency_refs_decreases
{
    if s.len() == 0 {
        s
    } else if s[0] == '@' {
        let n = token_len(s.drop_first(), false) as int;
        match lookup(m, s.subrange(1, 1 + n)) {
            Some(id) => dependency_load(id) + rewrite_dependency_refs(s.skip(1 + n), m),
            None => seq!['@'] + rewrite_dependency_refs(s.drop_first(), m),
        }
    } else {
        seq![s[0]] + rewrite_dependency_refs(s.drop_first(), m)
    }
}

#[via_fn]
proof fn rewrite_dependency_refs_decreases(s: Seq<char>, m: Seq<(Seq<char>, Seq<char>)>) {
    if s.len() > 0 {
        lemma_token_len_bound(s.drop_first(), false);
    }
}

/// Whether a prefix of length `j` of the path `p` ends at a segment boundary.
pub open spec fn is_cut(p: Seq<char>, j: int) -> bool {
    0 <= j <= p.len() && (j == p.len() || p[j] == '.')
}

/// The identifier of the module that a key of `modules` names: the mapping's
/// identifier for the file that `modules` gives for the key.
pub open spec fn module_id(
    modules: Seq<(Seq<char>, Seq<char>)>,
    ids: Seq<(Seq<char>, Seq<char>)>,
    key: Seq<char>,
) -> Option<Seq<char>> {
    match lookup(modules, key) {
        Some(file) => lookup(ids, file),
        None => None,
    }
}

/// The length of the longest prefix of `p`, no longer than `j`, that ends at a
/// segment boundary and names a module; -1 where there is none.
pub open spec fn longest_match(
    p: Seq<char>,
    j: int,
    modules: Seq<(Seq<char>, Seq<char>)>,
    ids: Seq<(Seq<char>, Seq<char>)>,
) -> int
    decreases j + 1,
{
    if j < 0 {
        -1
    } else if is_cut(p, j) && module_id(modules, ids, p.take(j)) is Some {
        j
    } else {
        longest_match(p, j - 1, modules, ids)
    }
}

/// The longest match is a matching cut, below the bound, and no longer one matches.
pub proof fn lemma_longest_match(
    p: Seq<char>,
    j: int,
    modules: Seq<(Seq<char>, Seq<char>)>,
    ids: Seq<(Seq<char>, Seq<char>)>,
)
    ensures
        -1 <= longest_match(p, j, modules, ids) <= j || j < -1,
        longest_match(p, j, modules, ids) >= 0 ==> is_cut(p, longest_match(p, j, modules, ids))
            && module_id(modules, ids, p.take(longest_match(p, j, modules, ids))) is Some,
        forall|k: int|
            longest_match(p, j, modules, ids) < k <= j && is_cut(p, k) ==> module_id(modules, ids, p.take(k)) is None,
    decreases j + 1,
{
    if j >= 0 {
        lemma_longest_match(p, j - 1, modules, ids);
    }
}

/// Every `@` followed by a dotted path whose longest matching prefix names a
/// module becomes, over that prefix, the load expression of the module; what
/// follows the prefix, and every other part of the text, is kept.
pub open spec fn rewrite_internal_refs(
    s: Seq<char>,
    modules: Seq<(Seq<char>, Seq<char>)>,
    ids: Seq<(Seq<char>, Seq<char>)>,
) -> Seq<char>
    decreases s.len(),
    via rewrite_internal_refs_decreases
{
    if s.len() == 0 {
        s
    } else if s[0] == '@' {
        let n = token_len(s.drop_first(), true) as int;
        let path = s.subrange(1, 1 + n);
        let j = longest_match(path, n, modules, ids);
        if j >= 0 {
            module_load(module_id(modules, ids, path.take(j))->0) + rewrite_internal_refs(s.skip(1 + j), modules, ids)
        } else {
            seq!['@'] + rewrite_internal_refs(s.drop_first(), modules, ids)
        }
    } else {
        seq![s[0]] + rewrite_internal_refs(s.drop_first(), modules, ids)
    }
}

#[via_fn]
proof fn rewrite_internal_refs_decreases(
    s: Seq<char>,
    modules: Seq<(Seq<char>, Seq<char>)>,
    ids: Seq<(Seq<char>, Seq<char>)>,
) {
    if s.len() > 0 {
        lemma_token_len_bound(s.drop_first(), true);
        let n = token_len(s.drop_first(), true) as int;
        lemma_longest_match(s.subrange(1, 1 + n), n, modules, ids);
    }
}

/// Puts the provenance comment block in front of the buffer.
pub fn inject_comment_header(buffer: &mut String)
    ensures
        final(buffer)@ == header_text() + old(buffer)@,
{
    let mut out: Vec<char> = Vec::new();
    out.push('\n');
    append_str(&mut out, "-- built with ");
    append_str(&mut out, TOOL_NAME);
    append_str(&mut out, " (");
    append_str(&mut out, TOOL_VERSION);
    append_str(&mut out, ") <");
    append_str(&mut out, TOOL_URL);
    append_str(&mut out, ">");
    out.push('\n');
    append_str(&mut out, "-- a tool for compiling lua libraries from multiple source files and dependencies");
    out.push('\n');
    out.push('\n');
    append_str(&mut out, buffer.as_str());
    assert(out@ =~= header_text() + old(buffer)@);
    *buffer = string_of(&out);
}

/// The views of a list of strings.
pub open spec fn views(v: Seq<String>) -> Seq<Seq<char>> {
    v.map_values(|c: String| c@)
}

/// Appends each module body to the buffer, each on a line of its own, in order.
pub fn inject_preloads(buffer: &mut String, array_of_preloads: &Vec<String>)
    ensures
        final(buffer)@ == old(buffer)@ + preload_text(views(array_of_preloads@)),
{
    let mut out = chars_of(buffer.as_str());
    let ghost all = views(array_of_preloads@);
    let mut i: usize = 0;
    assert(all.take(0) =~= Seq::<Seq<char>>::empty());
    while i < array_of_preloads.len()
        invariant
            0 <= i <= array_of_preloads.len(),
            all == views(array_of_preloads@),
            out@ == old(buffer)@ + preload_text(all.take(i as int)),
        decreases array_of_preloads.len() - i,
    {
        let ghost before = out@;
        out.push('\n');
        append_str(&mut out, array_of_preloads[i].as_str());
        assert(all.take(i as int + 1).drop_last() =~= all.take(i as int));
        assert(all.take(i as int + 1).last() == array_of_preloads@[i as int]@);
        assert(out@ =~= before + seq!['\n'] + array_of_preloads@[i as int]@);
        i = i + 1;
    }
    assert(all.take(array_of_preloads.len() as int) =~= all);
    *buffer = string_of(&out);
}

/// Appends the base block to the buffer, on a line of its own.
pub fn inject_basefill(buffer: &mut String, base: &str)
    ensures
        final(buffer)@ == old(buffer)@ + seq!['\n'] + base@,
{
    let mut out = chars_of(buffer.as_str());
    out.push('\n');
    append_str(&mut out, base);
    *buffer = string_of(&out);
}

/// The length of the line that starts at position `at` of `s`.
fn line_len_at(s: &Vec<char>, at: usize) -> (r: usize)
    requires
        at <= s.len(),
    ensures
        r == line_len(s@.skip(at as int)),
        at + r <= s.len(),
{
    let mut j: usize = at;
    while j < s.len() && s[j] != '\n'
        invariant
            at <= j <= s.len(),
            line_len(s@.skip(at as int)) == (j - at) + line_len(s@.skip(j as int)),
        decreases s.len() - j,
    {
        assert(s@.skip(j as int).drop_first() =~= s@.skip(j as int + 1));
        j = j + 1;
    }
    if j < s.len() {
        assert(s@.skip(j as int)[0] == s@[j as int]);
    }
    j - at
}

/// Removes everything from a `--` comment marker to the end of its line.
pub fn remove_comments(buffer: &mut String)
    ensures
        final(buffer)@ == strip_comments(old(buffer)@),
{
    let s = chars_of(buffer.as_str());
    let mut out: Vec<char> = Vec::new();
    let mut i: usize = 0;
    assert(s@.skip(0) =~= s@);
    while i < s.len()
        invariant
            0 <= i <= s.len(),
            s@ == old(buffer)@,
            out@ + strip_comments(s@.skip(i as int)) == strip_comments(s@),
        decreases s.len() - i,
    {
        let ghost rest = s@.skip(i as int);
        assert(rest[0] == s@[i as int]);
        assert(rest.drop_first() =~= s@.skip(i as int + 1));
        if s[i] == '-' && i + 1 < s.len() && s[i + 1] == '-' {
            assert(rest[1] == s@[i + 1]);
            let n = line_len_at(&s, i);
            proof {
                lemma_line_len_bound(rest);
            }
            assert(rest.skip(n as int) =~= s@.skip(i + n));
            i = i + n;
        } else {
            out.push(s[i]);
            i = i + 1;
        }
    }
    assert(s@.skip(s.len() as int) =~= Seq::<char>::empty());
    assert(out@ =~= strip_comments(s@));
    *buffer = string_of(&out);
}

fn space_char(c: char) -> (r: bool)
    ensures
        r == is_space(c),
{
    ('\u{9}' <= c && c <= '\u{d}') || c == ' ' || c == '\u{85}' || c == '\u{a0}' || c == '\u{1680}' || ('\u{2000}'
        <= c && c <= '\u{200a}') || c == '\u{2028}' || c == '\u{2029}' || c == '\u{202f}' || c == '\u{205f}' || c
        == '\u{3000}'
}

/// Whether the characters of `s` from `from` up to `to` are all whitespace.
fn blank_between(s: &Vec<char>, from: usize, to: usize) -> (r: bool)
    requires
        from <= to <= s.len(),
    ensures
        r == is_blank(s@.subrange(from as int, to as int)),
{
    let mut j: usize = from;
    while j < to
        invariant
            from <= j <= to <= s.len(),
            forall|k: int| from <= k < j ==> is_space(s@[k]),
        decreases to - j,
    {
        if !space_char(s[j]) {
            assert(s@.subrange(from as int, to as int)[j - from] == s@[j as int]);
            return false;
        }
        j = j + 1;
    }
    assert forall|k: int| 0 <= k < to - from implies is_space(s@.subrange(from as int, to as int)[k]) by {
        assert(s@.subrange(from as int, to as int)[k] == s@[from + k]);
    }
    true
}

/// Removes every line that is empty or holds only whitespace; the kept lines
/// stay in order, joined by line breaks.
pub fn remove_blank_lines(buffer: &mut String)
    ensures
        final(buffer)@ == drop_blank_lines(old(buffer)@),
{
    let s = chars_of(buffer.as_str());
    let mut out: Vec<char> = Vec::new();
    let ghost mut kept: Seq<Seq<char>> = Seq::empty();
    let mut i: usize = 0;
    let mut done = false;
    assert(s@.skip(0) =~= s@);
    while !done
        invariant
            0 <= i <= s.len(),
            s@ == old(buffer)@,
            out@ == join_lines(kept),
            (out@.len() == 0) == (kept.len() == 0),
            done ==> kept == kept_lines(s@),
            !done ==> kept + kept_lines(s@.skip(i as int)) == kept_lines(s@),
        decreases s.len() - i + if done { 0int } else { 1int },
    {
        let ghost rest = s@.skip(i as int);
        let n = line_len_at(&s, i);
        assert(rest.take(n as int) =~= s@.subrange(i as int, i + n));
        let ghost before = kept;
        if !blank_between(&s, i, i + n) {
            if out.len() > 0 {
                out.push('\n');
            }
            let line = slice_chars(&s, i, i + n);
            append_chars(&mut out, &line);
            proof {
                kept = kept.push(line@);
                if before.len() == 0 {
                    assert(out@ =~= join_lines(kept));
                } else {
                    assert(kept.drop_last() =~= before);
                    assert(out@ =~= join_lines(kept));
                }
            }
        }
        assert(kept == before + if is_blank(rest.take(n as int)) {
            Seq::<Seq<char>>::empty()
        } else {
            seq![rest.take(n as int)]
        });
        if i + n < s.len() {
            assert(rest.skip(n + 1) =~= s@.skip(i + n + 1));
            assert(kept + kept_lines(s@.skip(i + n + 1)) =~= before + kept_lines(rest));
            i = i + n + 1;
        } else {
            assert(kept =~= before + kept_lines(rest));
            assert(kept + Seq::<Seq<char>>::empty() =~= kept);
            done = true;
        }
    }
    *buffer = string_of(&out);
}

fn ref_char(c: char, dotted: bool) -> (r: bool)
    ensures
        r == is_ref_char(c, dotted),
{
    let alnum = ('a' <= c && c <= 'z') || ('A' <= c && c <= 'Z') || ('0' <= c && c <= '9') || c == '_';
    if dotted {
        alnum || c == '.'
    } else {
        alnum || c == '-'
    }
}

/// The length of the reference token that starts at position `at` of `s`.
fn token_len_at(s: &Vec<char>, at: usize, dotted: bool) -> (r: usize)
    requires
        at <= s.len(),
    ensures
        r == token_len(s@.skip(at as int), dotted),
        at + r <= s.len(),
{
    let mut j: usize = at;
    while j < s.len() && ref_char(s[j], dotted)
        invariant
            at <= j <= s.len(),
            token_len(s@.skip(at as int), dotted) == (j - at) + token_len(s@.skip(j as int), dotted),
        decreases s.len() - j,
    {
        assert(s@.skip(j as int).drop_first() =~= s@.skip(j as int + 1));
        j = j + 1;
    }
    if j < s.len() {
        assert(s@.skip(j as int)[0] == s@[j as int]);
    }
    j - at
}

/// Rewrites every dependency reference whose name the mapping holds into the
/// load expression of its identifier. Only the name after `@` is replaced: a
/// dotted or `:` suffix stays, as an access on the loaded value. A name the
/// mapping does not hold is left as it is.
pub fn process_depends_references(buffer: &mut String, preload: &PreloadMapping)
    ensures
        final(buffer)@ == rewrite_dependency_refs(old(buffer)@, preload@),
{
    let s = chars_of(buffer.as_str());
    let table = preload.as_table();
    let ghost m = preload@;
    let mut out: Vec<char> = Vec::new();
    let mut i: usize = 0;
    assert(s@.skip(0) =~= s@);
    while i < s.len()
        invariant
            0 <= i <= s.len(),
            s@ == old(buffer)@,
            m == preload@,
            crate::table::table_view(table@) == m,
            out@ + rewrite_dependency_refs(s@.skip(i as int), m) == rewrite_dependency_refs(s@, m),
        decreases s.len() - i,
    {
        let ghost rest = s@.skip(i as int);
        assert(rest[0] == s@[i as int]);
        assert(rest.drop_first() =~= s@.skip(i as int + 1));
        if s[i] == '@' {
            let n = token_len_at(&s, i + 1, false);
            let name = slice_chars(&s, i + 1, i + 1 + n);
            assert(rest.subrange(1, 1 + n as int) =~= name@);
            match get_value(table, &name) {
                Some(id) => {
                    let ghost before = out@;
                    append_str(&mut out, " require(\"");
                    append_str(&mut out, id.as_str());
                    append_str(&mut out, "\")");
                    assert(out@ =~= before + dependency_load(id@));
                    assert(rest.skip(1 + n as int) =~= s@.skip(i + 1 + n));
                    i = i + 1 + n;
                },
                None => {
                    out.push('@');
                    i = i + 1;
                },
            }
        } else {
            out.push(s[i]);
            i = i + 1;
        }
    }
    assert(s@.skip(s.len() as int) =~= Seq::<char>::empty());
    assert(out@ =~= rewrite_dependency_refs(s@, m));
    *buffer = string_of(&out);
}

/// The length of the longest prefix of `path` that ends at a segment boundary
/// and names a module, with that module's identifier.
fn longest_module(path: &Vec<char>, modules: &Vec<(String, String)>, preload: &PreloadMapping) -> (r: Option<(usize, String)>)
    ensures
        match r {
            Some((j, id)) => j as int == longest_match(path@, path.len() as int, table_view(modules@), preload@)
                && module_id(table_view(modules@), preload@, path@.take(j as int)) == Some(id@),
            None => longest_match(path@, path.len() as int, table_view(modules@), preload@) < 0,
        },
{
    let ghost req = table_view(modules@);
    let table = preload.as_table();
    let mut j: usize = path.len();
    loop
        invariant
            0 <= j <= path.len(),
            req == table_view(modules@),
            table_view(table@) == preload@,
            longest_match(path@, path.len() as int, req, preload@) == longest_match(path@, j as int, req, preload@),
        decreases j,
    {
        if j == path.len() || path[j] == '.' {
            let prefix = slice_chars(path, 0, j);
            assert(prefix@ =~= path@.take(j as int));
            match get_value(modules, &prefix) {
                Some(file) => {
                    let f = chars_of(file.as_str());
                    match get_value(table, &f) {
                        Some(id) => {
                            return Some((j, id));
                        },
                        None => {},
                    }
                },
                None => {},
            }
        }
        if j == 0 {
            assert(longest_match(path@, -1, req, preload@) == -1);
            return None;
        }
        j = j - 1;
    }
}

/// Rewrites every internal reference into the load expression of the module
/// that the longest matching prefix of its dotted path names. Only `@` and that
/// prefix are replaced: the rest of the path stays, as an access on the loaded
/// value. A path no prefix of which names a module is left as it is.
pub fn process_internal_references(buffer: &mut String, modules: &Vec<(String, String)>, preload: &PreloadMapping)
    ensures
        final(buffer)@ == rewrite_internal_refs(old(buffer)@, table_view(modules@), preload@),
{
    let s = chars_of(buffer.as_str());
    let ghost req = table_view(modules@);
    let ghost m = preload@;
    let mut out: Vec<char> = Vec::new();
    let mut i: usize = 0;
    assert(s@.skip(0) =~= s@);
    while i < s.len()
        invariant
            0 <= i <= s.len(),
            s@ == old(buffer)@,
            m == preload@,
            req == table_view(modules@),
            out@ + rewrite_internal_refs(s@.skip(i as int), req, m) == rewrite_internal_refs(s@, req, m),
        decreases s.len() - i,
    {
        let ghost rest = s@.skip(i as int);
        assert(rest[0] == s@[i as int]);
        assert(rest.drop_first() =~= s@.skip(i as int + 1));
        if s[i] == '@' {
            let n = token_len_at(&s, i + 1, true);
            let path = slice_chars(&s, i + 1, i + 1 + n);
            assert(rest.subrange(1, 1 + n as int) =~= path@);
            match longest_module(&path, modules, preload) {
                Some((j, id)) => {
                    proof {
                        lemma_longest_match(path@, n as int, req, m);
                    }
                    let ghost before = out@;
                    append_str(&mut out, "require(\"");
                    append_str(&mut out, id.as_str());
                    append_str(&mut out, "\")");
                    assert(out@ =~= before + module_load(id@));
                    assert(rest.skip(1 + j as int) =~= s@.skip(i + 1 + j));
                    i = i + 1 + j;
                },
                None => {
                    out.push('@');
                    i = i + 1;
                },
            }
        } else {
            out.push(s[i]);
            i = i + 1;
        }
    }
    assert(s@.skip(s.len() as int) =~= Seq::<char>::empty());
    assert(out@ =~= rewrite_internal_refs(s@, req, m));
    *buffer = string_of(&out);
}

/// The references still in the text: for each `@` followed by a non-empty
/// dotted path, that path, in order.
pub open spec fn leftover_refs(s: Seq<char>) -> Seq<Seq<char>>
    decreases s.len(),
    via leftover_refs_decreases
{
    if s.len() == 0 {
        Seq::empty()
    } else if s[0] == '@' && token_len(s.drop_first(), true) > 0 {
        let n = token_len(s.drop_first(), true) as int;
        seq![s.subrange(1, 1 + n)] + leftover_refs(s.skip(1 + n))
    } else {
        leftover_refs(s.drop_first())
    }
}

#[via_fn]
proof fn leftover_refs_decreases(s: Seq<char>) {
    if s.len() > 0 {
        lemma_token_len_bound(s.drop_first(), true);
    }
}

/// The references that the rewrites left in the buffer: paths after `@` that
/// neither a dependency nor a module matched. The build ships them as they are;
/// this lets a caller report them.
pub fn unresolved_references(buffer: &str) -> (r: Vec<String>)
    ensures
        views(r@) == leftover_refs(buffer@),
{
    let s = chars_of(buffer);
    let mut out: Vec<String> = Vec::new();
    let mut i: usize = 0;
    assert(s@.skip(0) =~= s@);
    while i < s.len()
        invariant
            0 <= i <= s.len(),
            s@ == buffer@,
            views(out@) + leftover_refs(s@.skip(i as int)) == leftover_refs(s@),
        decreases s.len() - i,
    {
        let ghost rest = s@.skip(i as int);
        let ghost before = views(out@);
        assert(rest[0] == s@[i as int]);
        assert(rest.drop_first() =~= s@.skip(i as int + 1));
        if s[i] == '@' {
            let n = token_len_at(&s, i + 1, true);
            if n > 0 {
                let path = slice_chars(&s, i + 1, i + 1 + n);
                assert(rest.subrange(1, 1 + n as int) =~= path@);
                assert(rest.skip(1 + n as int) =~= s@.skip(i + 1 + n));
                out.push(string_of(&path));
                assert(views(out@) =~= before.push(path@));
                assert(before.push(path@) + leftover_refs(s@.skip(i + 1 + n)) =~= before + (seq![path@] + leftover_refs(
                    s@.skip(i + 1 + n),
                )));
                i = i + 1 + n;
            } else {
                i = i + 1;
            }
        } else {
            i = i + 1;
        }
    }
    assert(s@.skip(s.len() as int) =~= Seq::<char>::empty());
    assert(views(out@) + Seq::<Seq<char>>::empty() =~= views(out@));
    out
}

/// With an empty mapping, the dependency reference rewrite leaves the text as it is.
pub proof fn lemma_dependency_refs_unmapped(s: Seq<char>)
    ensures
        rewrite_dependency_refs(s, Seq::empty()) == s,
    decreases s.len(),
{
    if s.len() > 0 {
        lemma_dependency_refs_unmapped(s.drop_first());
        assert(seq![s[0]] + s.drop_first() =~= s);
    }
}

/// With no identifiers, no prefix of a path names a module.
pub proof fn lemma_no_match_without_ids(p: Seq<char>, j: int, modules: Seq<(Seq<char>, Seq<char>)>)
    ensures
        longest_match(p, j, modules, Seq::empty()) == -1,
    decreases j + 1,
{
    if j >= 0 {
        lemma_no_match_without_ids(p, j - 1, modules);
    }
}

/// With no identifiers, the internal reference rewrite leaves the text as it is.
pub proof fn lemma_internal_refs_unmapped(s: Seq<char>, modules: Seq<(Seq<char>, Seq<char>)>)
    ensures
        rewrite_internal_refs(s, modules, Seq::empty()) == s,
    decreases s.len(),
{
    if s.len() > 0 {
        lemma_internal_refs_unmapped(s.drop_first(), modules);
        if s[0] == '@' {
            let n = token_len(s.drop_first(), true) as int;
            lemma_no_match_without_ids(s.subrange(1, 1 + n), n, modules);
        }
        assert(seq![s[0]] + s.drop_first() =~= s);
    }
}

/// A dependency reference is replaced over its name alone: what follows the
/// name (a dotted field, a `:` method call) stays after the load expression.
pub proof fn law_dependency_reference_keeps_suffix(
    name: Seq<char>,
    rest: Seq<char>,
    m: Seq<(Seq<char>, Seq<char>)>,
)
    requires
        forall|k: int| 0 <= k < name.len() ==> is_name_char(#[trigger] name[k]),
        rest.len() == 0 || !is_name_char(rest[0]),
        lookup(m, name) is Some,
    ensures
        rewrite_dependency_refs(seq!['@'] + name + rest, m) == dependency_load(lookup(m, name)->0)
            + rewrite_dependency_refs(rest, m),
{
    let s = seq!['@'] + name + rest;
    lemma_token_len_of(name, rest);
    assert(s.drop_first() =~= name + rest);
    assert(s.subrange(1, 1 + name.len() as int) =~= name);
    assert(s.skip(1 + name.len() as int) =~= rest);
}

/// A run of name characters followed by something else is one token.
proof fn lemma_token_len_of(name: Seq<char>, rest: Seq<char>)
    requires
        forall|k: int| 0 <= k < name.len() ==> is_name_char(#[trigger] name[k]),
        rest.len() == 0 || !is_name_char(rest[0]),
    ensures
        token_len(name + rest, false) == name.len(),
    decreases name.len(),
{
    if name.len() > 0 {
        let tail = name.drop_first();
        assert forall|k: int| 0 <= k < tail.len() implies is_name_char(#[trigger] tail[k]) by {
            assert(tail[k] == name[k + 1]);
        }
        lemma_token_len_of(tail, rest);
        assert((name + rest).drop_first() =~= tail + rest);
        assert((name + rest)[0] == name[0]);
    } else {
        assert(name + rest =~= rest);
    }
}

} // verus!
