//! The library definition: identity, internal modules, dependencies and options,
//! and the base block that binds the modules into the library's table.
use vstd::prelude::*;

use crate::preload::PreloadMapping;
use crate::table::{find_key, get_value, lookup, table_view};
use crate::text::{append_chars, append_str, chars_eq, chars_of, slice_chars, string_of};

verus! {

/// An option value, written as a switch, a single text or a list of values.
pub enum Multivalue {
    Array(Vec<Multivalue>),
    Text(String),
    Switch(bool),
}

/// A dependency entry: the library it names (the reference name where absent)
/// and the version it asks for (any version where absent).
pub struct DependencySpec {
    pub name: Option<String>,
    pub version: Option<String>,
}

/// The declaration of a library.
///
/// `modules` maps a dotted logical path, or the sentinel `_`, to a dotted module
/// file path inside the library's source tree; `dependencies` maps a reference
/// name to the library it stands for; `options` maps an option name to its value.
pub struct LibraryDefinition {
    pub name: String,
    pub user: String,
    pub author: String,
    pub email: Option<String>,
    pub version: String,
    pub love: Option<String>,
    pub upstream: Option<String>,
    pub modules: Vec<(String, String)>,
    pub dependencies: Vec<(String, DependencySpec)>,
    pub options: Vec<(String, Multivalue)>,
}

/// The key of the `modules` entry whose module becomes the library itself.
pub open spec fn is_sentinel(k: Seq<char>) -> bool {
    k == "_"@
}

/// The name under which a module file is loaded: its identifier where the
/// mapping holds one, else the file path itself.
pub open spec fn load_name(ids: Seq<(Seq<char>, Seq<char>)>, file: Seq<char>) -> Seq<char> {
    match lookup(ids, file) {
        Some(id) => id,
        None => file,
    }
}

/// The first line of the base block: the library's table is the sentinel
/// module's result where there is one, else an empty table.
pub open spec fn base_binding(modules: Seq<(Seq<char>, Seq<char>)>, ids: Seq<(Seq<char>, Seq<char>)>) -> Seq<char> {
    match lookup(modules, "_"@) {
        Some(file) => "local library = require (\""@ + load_name(ids, file) + "\")"@,
        None => "local library = {}"@,
    }
}

/// The identity fields of the base block.
pub open spec fn identity_text(name: Seq<char>, user: Seq<char>, author: Seq<char>, version: Seq<char>) -> Seq<char> {
    "library.name = '"@ + name + "'\nlibrary.user = '"@ + user + "'\nlibrary.author = '"@ + author
        + "'\nlibrary.version = '"@ + version + "'"@
}

/// The prefixes of `key` that end before a dot at a position below `n`, shortest first.
pub open spec fn cut_prefixes(key: Seq<char>, n: int) -> Seq<Seq<char>>
    decreases n,
{
    if n <= 0 {
        Seq::empty()
    } else if key[n - 1] == '.' {
        cut_prefixes(key, n - 1).push(key.take(n - 1))
    } else {
        cut_prefixes(key, n - 1)
    }
}

/// The parent paths of every non-sentinel key, entry by entry, shortest first.
pub open spec fn table_candidates(entries: Seq<(Seq<char>, Seq<char>)>) -> Seq<Seq<char>>
    decreases entries.len(),
{
    if entries.len() == 0 {
        Seq::empty()
    } else {
        let key = entries.last().0;
        table_candidates(entries.drop_last()) + if is_sentinel(key) {
            Seq::empty()
        } else {
            cut_prefixes(key, key.len() as int)
        }
    }
}

/// A path that a non-sentinel entry binds itself.
pub open spec fn is_bound(entries: Seq<(Seq<char>, Seq<char>)>, p: Seq<char>) -> bool {
    !is_sentinel(p) && lookup(entries, p) is Some
}

/// The candidates that become empty tables: each one that no entry binds, once,
/// at its first occurrence.
pub open spec fn fresh_tables(c: Seq<Seq<char>>, entries: Seq<(Seq<char>, Seq<char>)>) -> Seq<Seq<char>>
    decreases c.len(),
{
    if c.len() == 0 {
        Seq::empty()
    } else {
        let prev = fresh_tables(c.drop_last(), entries);
        if is_bound(entries, c.last()) || prev.contains(c.last()) {
            prev
        } else {
            prev.push(c.last())
        }
    }
}

/// The number of dots in a path: one less than its number of segments.
pub open spec fn dots(p: Seq<char>) -> nat
    decreases p.len(),
{
    if p.len() == 0 {
        0
    } else {
        dots(p.drop_last()) + if p.last() == '.' {
            1nat
        } else {
            0nat
        }
    }
}

/// The most dots in any key.
pub open spec fn max_dots(entries: Seq<(Seq<char>, Seq<char>)>) -> nat
    decreases entries.len(),
{
    if entries.len() == 0 {
        0
    } else {
        let m = max_dots(entries.drop_last());
        let d = dots(entries.last().0);
        if d > m {
            d
        } else {
            m
        }
    }
}

/// One line creating an empty table for each path with `d` dots.
pub open spec fn table_lines(ts: Seq<Seq<char>>, d: nat) -> Seq<char>
    decreases ts.len(),
{
    if ts.len() == 0 {
        Seq::empty()
    } else {
        table_lines(ts.drop_last(), d) + if dots(ts.last()) == d {
            "\nlibrary."@ + ts.last() + " = {}"@
        } else {
            Seq::empty()
        }
    }
}

/// One line binding each non-sentinel key with `d` dots to the load of its module.
pub open spec fn require_lines(entries: Seq<(Seq<char>, Seq<char>)>, ids: Seq<(Seq<char>, Seq<char>)>, d: nat) -> Seq<char>
    decreases entries.len(),
{
    if entries.len() == 0 {
        Seq::empty()
    } else {
        let e = entries.last();
        require_lines(entries.drop_last(), ids, d) + if is_sentinel(e.0) || dots(e.0) != d {
            Seq::empty()
        } else {
            "\nlibrary."@ + e.0 + " = require (\""@ + load_name(ids, e.1) + "\")"@
        }
    }
}

/// The lines that bind paths with fewer than `n` dots, level by level: at each
/// level the empty tables, then the module loads. A path's parents have fewer
/// dots, so their lines come first.
pub open spec fn binding_lines(
    ts: Seq<Seq<char>>,
    entries: Seq<(Seq<char>, Seq<char>)>,
    ids: Seq<(Seq<char>, Seq<char>)>,
    n: nat,
) -> Seq<char>
    decreases n,
{
    if n == 0 {
        Seq::empty()
    } else {
        binding_lines(ts, entries, ids, (n - 1) as nat) + table_lines(ts, (n - 1) as nat) + require_lines(
            entries,
            ids,
            (n - 1) as nat,
        )
    }
}

/// Dots add up over concatenation.
pub proof fn lemma_dots_add(a: Seq<char>, b: Seq<char>)
    ensures
        dots(a + b) == dots(a) + dots(b),
    decreases b.len(),
{
    if b.len() == 0 {
        assert(a + b =~= a);
    } else {
        lemma_dots_add(a, b.drop_last());
        assert((a + b).drop_last() =~= a + b.drop_last());
        assert((a + b).last() == b.last());
    }
}

/// A parent path, cut before a dot, has fewer dots than the path: its line
/// stands at an earlier level of the base block.
pub proof fn lemma_parent_has_fewer_dots(p: Seq<char>, j: int)
    requires
        0 <= j < p.len(),
        p[j] == '.',
    ensures
        dots(p.take(j)) < dots(p),
{
    lemma_dots_add(p.take(j + 1), p.skip(j + 1));
    assert(p.take(j + 1) + p.skip(j + 1) =~= p);
    assert(p.take(j + 1).drop_last() =~= p.take(j));
}

/// The base block: the library's table, its identity fields, then level by
/// level an empty table for every parent path that no entry binds and one load
/// per module, and the return.
pub open spec fn base_file(
    name: Seq<char>,
    user: Seq<char>,
    author: Seq<char>,
    version: Seq<char>,
    modules: Seq<(Seq<char>, Seq<char>)>,
    ids: Seq<(Seq<char>, Seq<char>)>,
) -> Seq<char> {
    base_binding(modules, ids) + seq!['\n'] + identity_text(name, user, author, version) + binding_lines(
        fresh_tables(table_candidates(modules), modules),
        modules,
        ids,
        max_dots(modules) + 1,
    ) + "\nreturn library\n"@
}

/// The views of a list of character vectors.
pub open spec fn char_lists(v: Seq<Vec<char>>) -> Seq<Seq<char>> {
    v.map_values(|c: Vec<char>| c@)
}

fn contains_chars(list: &Vec<Vec<char>>, p: &Vec<char>) -> (r: bool)
    ensures
        r == char_lists(list@).contains(p@),
{
    let mut i: usize = 0;
    while i < list.len()
        invariant
            0 <= i <= list.len(),
            forall|k: int| 0 <= k < i ==> char_lists(list@)[k] != p@,
        decreases list.len() - i,
    {
        assert(char_lists(list@)[i as int] == list@[i as int]@);
        if chars_eq(&list[i], p) {
            return true;
        }
        i = i + 1;
    }
    false
}

fn is_sentinel_key(k: &Vec<char>) -> (r: bool)
    ensures
        r == is_sentinel(k@),
{
    let u = chars_of("_");
    chars_eq(k, &u)
}

/// The paths that get an empty table in the base block.
fn empty_tables(modules: &Vec<(String, String)>) -> (r: Vec<Vec<char>>)
    ensures
        char_lists(r@) == fresh_tables(table_candidates(table_view(modules@)), table_view(modules@)),
{
    let ghost m = table_view(modules@);
    let mut tables: Vec<Vec<char>> = Vec::new();
    let mut i: usize = 0;
    assert(m.take(0) =~= Seq::<(Seq<char>, Seq<char>)>::empty());
    assert(char_lists(tables@) =~= Seq::<Seq<char>>::empty());
    while i < modules.len()
        invariant
            0 <= i <= modules.len(),
            m == table_view(modules@),
            char_lists(tables@) == fresh_tables(table_candidates(m.take(i as int)), m),
        decreases modules.len() - i,
    {
        let key = chars_of(modules[i].0.as_str());
        assert(m.take(i as int + 1).drop_last() =~= m.take(i as int));
        assert(m.take(i as int + 1).last() == m[i as int]);
        assert(m[i as int].0 == key@);
        if !is_sentinel_key(&key) {
            let ghost base = table_candidates(m.take(i as int));
            let mut j: usize = 0;
            assert(base + cut_prefixes(key@, 0) =~= base);
            while j < key.len()
                invariant
                    0 <= j <= key.len(),
                    m == table_view(modules@),
                    char_lists(tables@) == fresh_tables(base + cut_prefixes(key@, j as int), m),
                decreases key.len() - j,
            {
                if key[j] == '.' {
                    let p = slice_chars(&key, 0, j);
                    assert(p@ =~= key@.take(j as int));
                    let ghost c = base + cut_prefixes(key@, j as int);
                    assert(base + cut_prefixes(key@, j + 1) =~= c.push(p@));
                    assert(c.push(p@).drop_last() =~= c);
                    let bound = !is_sentinel_key(&p) && find_key(modules, &p).is_some();
                    if !bound && !contains_chars(&tables, &p) {
                        let ghost before = char_lists(tables@);
                        tables.push(p);
                        assert(char_lists(tables@) =~= before.push(key@.take(j as int)));
                    }
                } else {
                    assert(base + cut_prefixes(key@, j + 1) =~= base + cut_prefixes(key@, j as int));
                }
                j = j + 1;
            }
        } else {
            assert(table_candidates(m.take(i as int + 1)) =~= table_candidates(m.take(i as int)));
        }
        i = i + 1;
    }
    assert(m.take(modules.len() as int) =~= m);
    tables
}

fn dots_of(p: &Vec<char>) -> (r: usize)
    ensures
        r == dots(p@),
{
    let mut count: usize = 0;
    let mut i: usize = 0;
    assert(p@.take(0) =~= Seq::<char>::empty());
    while i < p.len()
        invariant
            0 <= i <= p.len(),
            count <= i,
            count == dots(p@.take(i as int)),
        decreases p.len() - i,
    {
        assert(p@.take(i as int + 1).drop_last() =~= p@.take(i as int));
        assert(p@.take(i as int + 1).last() == p@[i as int]);
        if p[i] == '.' {
            count = count + 1;
        }
        i = i + 1;
    }
    assert(p@.take(p.len() as int) =~= p@);
    count
}

fn max_dots_of(modules: &Vec<(String, String)>) -> (r: usize)
    ensures
        r == max_dots(table_view(modules@)),
{
    let ghost m = table_view(modules@);
    let mut best: usize = 0;
    let mut k: usize = 0;
    assert(m.take(0) =~= Seq::<(Seq<char>, Seq<char>)>::empty());
    while k < modules.len()
        invariant
            0 <= k <= modules.len(),
            m == table_view(modules@),
            best == max_dots(m.take(k as int)),
        decreases modules.len() - k,
    {
        let key = chars_of(modules[k].0.as_str());
        assert(m.take(k as int + 1).drop_last() =~= m.take(k as int));
        assert(m.take(k as int + 1).last() == m[k as int]);
        let d = dots_of(&key);
        if d > best {
            best = d;
        }
        k = k + 1;
    }
    assert(m.take(modules.len() as int) =~= m);
    best
}

fn load_name_of(file: &String, preload: &PreloadMapping) -> (r: String)
    ensures
        r@ == load_name(preload@, file@),
{
    match preload.get(file.as_str()) {
        Some(id) => id,
        None => file.clone(),
    }
}

impl LibraryDefinition {
    /// `user/name (version)`.
    pub fn to_string(&self) -> (r: String)
        ensures
            r@ == self.user@ + "/"@ + self.name@ + " ("@ + self.version@ + ")"@,
    {
        let mut out = chars_of(self.user.as_str());
        append_str(&mut out, "/");
        append_str(&mut out, self.name.as_str());
        append_str(&mut out, " (");
        append_str(&mut out, self.version.as_str());
        append_str(&mut out, ")");
        string_of(&out)
    }

    /// The base block of the compiled library, with each module file loaded
    /// under the identifier that `preload_hash` gives it.
    pub fn to_compiled_base_file(&self, preload_hash: &PreloadMapping) -> (r: String)
        ensures
            r@ == base_file(
                self.name@,
                self.user@,
                self.author@,
                self.version@,
                table_view(self.modules@),
                preload_hash@,
            ),
    {
        let ghost m = table_view(self.modules@);
        let ghost ids = preload_hash@;
        let mut out: Vec<char> = Vec::new();
        let sentinel = chars_of("_");
        match get_value(&self.modules, &sentinel) {
            Some(file) => {
                append_str(&mut out, "local library = require (\"");
                let n = load_name_of(&file, preload_hash);
                append_str(&mut out, n.as_str());
                append_str(&mut out, "\")");
            },
            None => {
                append_str(&mut out, "local library = {}");
            },
        }
        out.push('\n');
        append_str(&mut out, "library.name = '");
        append_str(&mut out, self.name.as_str());
        append_str(&mut out, "'\nlibrary.user = '");
        append_str(&mut out, self.user.as_str());
        append_str(&mut out, "'\nlibrary.author = '");
        append_str(&mut out, self.author.as_str());
        append_str(&mut out, "'\nlibrary.version = '");
        append_str(&mut out, self.version.as_str());
        append_str(&mut out, "'");
        let ghost head = out@;
        assert(head =~= base_binding(m, ids) + seq!['\n'] + identity_text(
            self.name@,
            self.user@,
            self.author@,
            self.version@,
        ));
        let tables = empty_tables(&self.modules);
        let ghost ts = char_lists(tables@);
        let maxd = max_dots_of(&self.modules);
        let mut d: usize = 0;
        loop
            invariant_except_break
                out@ == head + binding_lines(ts, m, ids, d as nat),
            invariant
                0 <= d <= maxd,
                maxd == max_dots(m),
                ts == char_lists(tables@),
                m == table_view(self.modules@),
                ids == preload_hash@,
            ensures
                out@ == head + binding_lines(ts, m, ids, maxd as nat + 1),
            decreases maxd - d,
        {
            let ghost level_start = out@;
            let mut i: usize = 0;
            assert(ts.take(0) =~= Seq::<Seq<char>>::empty());
            while i < tables.len()
                invariant
                    0 <= i <= tables.len(),
                    ts == char_lists(tables@),
                    out@ == level_start + table_lines(ts.take(i as int), d as nat),
                decreases tables.len() - i,
            {
                let ghost before = out@;
                assert(ts.take(i as int + 1).drop_last() =~= ts.take(i as int));
                assert(ts.take(i as int + 1).last() == tables@[i as int]@);
                if dots_of(&tables[i]) == d {
                    append_str(&mut out, "\nlibrary.");
                    append_chars(&mut out, &tables[i]);
                    append_str(&mut out, " = {}");
                    assert(out@ =~= before + ("\nlibrary."@ + tables@[i as int]@ + " = {}"@));
                } else {
                    assert(out@ =~= before + Seq::<char>::empty());
                }
                i = i + 1;
            }
            assert(ts.take(tables.len() as int) =~= ts);
            let ghost mid = out@;
            let mut k: usize = 0;
            assert(m.take(0) =~= Seq::<(Seq<char>, Seq<char>)>::empty());
            while k < self.modules.len()
                invariant
                    0 <= k <= self.modules.len(),
                    m == table_view(self.modules@),
                    ids == preload_hash@,
                    out@ == mid + require_lines(m.take(k as int), ids, d as nat),
                decreases self.modules.len() - k,
            {
                let key = chars_of(self.modules[k].0.as_str());
                assert(m.take(k as int + 1).drop_last() =~= m.take(k as int));
                assert(m.take(k as int + 1).last() == m[k as int]);
                let ghost before = out@;
                if !is_sentinel_key(&key) && dots_of(&key) == d {
                    append_str(&mut out, "\nlibrary.");
                    append_chars(&mut out, &key);
                    append_str(&mut out, " = require (\"");
                    let n = load_name_of(&self.modules[k].1, preload_hash);
                    append_str(&mut out, n.as_str());
                    append_str(&mut out, "\")");
                    assert(out@ =~= before + ("\nlibrary."@ + m[k as int].0 + " = require (\""@ + load_name(
                        ids,
                        m[k as int].1,
                    ) + "\")"@));
                } else {
                    assert(out@ =~= before + Seq::<char>::empty());
                }
                k = k + 1;
            }
            assert(m.take(self.modules.len() as int) =~= m);
            assert(out@ =~= head + binding_lines(ts, m, ids, d as nat + 1));
            if d == maxd {
                break;
            }
            d = d + 1;
        }
        append_str(&mut out, "\nreturn library\n");
        string_of(&out)
    }
}

} // verus!
