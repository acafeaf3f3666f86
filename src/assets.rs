//! Asset embedding: quoted paths to asset files become expressions that carry
//! the file's bytes, base64-encoded.
use vstd::prelude::*;

use crate::definition::Multivalue;
use crate::table::{get_value, lookup, table_view};
use crate::text::{append_str, chars_of, owned, slice_chars, string_of};

verus! {

/// What `base64` encodes the bytes to, with the standard alphabet and padding.
pub uninterp spec fn base64_of(bytes: Seq<u8>) -> Seq<char>;

/// A character of the standard base64 alphabet, padding included.
pub open spec fn is_base64_char(c: char) -> bool {
    ('A' <= c && c <= 'Z') || ('a' <= c && c <= 'z') || ('0' <= c && c <= '9') || c == '+' || c == '/' || c == '='
}

/// Relies on `base64::encode`: the standard base64 encoding of the bytes, with
/// padding: four characters of the standard alphabet for every three bytes
/// begun.
#[verifier::external_body]
fn encode_base64(bytes: &Vec<u8>) -> (r: String)
    ensures
        r@ == base64_of(bytes@),
        r@.len() == 4 * ((bytes@.len() + 2) / 3),
        forall|k: int| 0 <= k < r@.len() ==> is_base64_char(#[trigger] r@[k]),
{
    base64::encode(bytes)
}

/// The extension that the `embed` option activates: its text, where the option
/// holds one. A switch, a list, or no `embed` option activates none.
pub open spec fn embed_extension_of(options: Seq<(Seq<char>, Multivalue)>) -> Option<Seq<char>>
    decreases options.len(),
{
    if options.len() == 0 {
        None
    } else if options[0].0 == "embed"@ {
        match options[0].1 {
            Multivalue::Text(ext) => Some(ext@),
            _ => None,
        }
    } else {
        embed_extension_of(options.drop_first())
    }
}

/// The option names with their values.
pub open spec fn option_view(options: Seq<(String, Multivalue)>) -> Seq<(Seq<char>, Multivalue)> {
    options.map_values(|o: (String, Multivalue)| (o.0@, o.1))
}

/// The extension whose assets are embedded, if any.
pub fn embed_extension(options: &Vec<(String, Multivalue)>) -> (r: Option<String>)
    ensures
        match r {
            Some(e) => embed_extension_of(option_view(options@)) == Some(e@),
            None => embed_extension_of(option_view(options@)) is None,
        },
{
    let ghost v = option_view(options@);
    let embed = chars_of("embed");
    let mut i: usize = 0;
    assert(v.skip(0) =~= v);
    while i < options.len()
        invariant
            0 <= i <= options.len(),
            v == option_view(options@),
            embed@ == "embed"@,
            embed_extension_of(v) == embed_extension_of(v.skip(i as int)),
        decreases options.len() - i,
    {
        let name = chars_of(options[i].0.as_str());
        assert(v.skip(i as int)[0] == v[i as int]);
        if crate::text::chars_eq(&name, &embed) {
            return match &options[i].1 {
                Multivalue::Text(ext) => Some(ext.clone()),
                _ => None,
            };
        }
        assert(v.skip(i as int).drop_first() =~= v.skip(i as int + 1));
        i = i + 1;
    }
    None
}

/// A character that opens and closes a string literal.
pub open spec fn is_quote(c: char) -> bool {
    c == '"' || c == '\''
}

/// The length of the body of a literal opened by `q`: the run of characters
/// that are neither `q` nor a line break.
pub open spec fn literal_body_len(s: Seq<char>, q: char) -> nat
    decreases s.len(),
{
    if s.len() > 0 && s[0] != q && s[0] != '\n' {
        1 + literal_body_len(s.drop_first(), q)
    } else {
        0
    }
}

/// A literal body never runs past the end of the text.
pub proof fn lemma_literal_body_len_bound(s: Seq<char>, q: char)
    ensures
        literal_body_len(s, q) <= s.len(),
    decreases s.len(),
{
    if s.len() > 0 && s[0] != q && s[0] != '\n' {
        lemma_literal_body_len_bound(s.drop_first(), q);
    }
}

/// Whether `s` starts with a complete literal: an opening quote, a body on one
/// line, and the same quote closing it.
pub open spec fn starts_literal(s: Seq<char>) -> bool {
    s.len() > 0 && is_quote(s[0]) && {
        let n = literal_body_len(s.drop_first(), s[0]) as int;
        1 + n < s.len() && s[1 + n] == s[0]
    }
}

/// Whether a path ends in `.` followed by the extension.
pub open spec fn has_extension(path: Seq<char>, ext: Seq<char>) -> bool {
    path.len() >= ext.len() + 1 && path[path.len() - ext.len() - 1] == '.' && path.skip(
        path.len() - ext.len(),
    ) == ext
}

/// The expression that an embedded asset becomes: for `png`, image file data
/// built from the encoded bytes and named by the quoted path; for any other
/// extension, the encoded bytes alone.
pub open spec fn asset_expression(ext: Seq<char>, path: Seq<char>, encoded: Seq<char>) -> Seq<char> {
    if ext == "png"@ {
        "love.filesystem.newFileData('"@ + encoded + "','"@ + path + "','base64')"@
    } else {
        encoded
    }
}

/// The text with each complete literal whose path has the extension and is in
/// `encoded` replaced, quotes included, by the asset's expression. Other
/// literals, and the rest of the text, are kept.
pub open spec fn embed_text(s: Seq<char>, ext: Seq<char>, encoded: Seq<(Seq<char>, Seq<char>)>) -> Seq<char>
    decreases s.len(),
    via embed_text_decreases
{
    if s.len() == 0 {
        s
    } else if starts_literal(s) {
        let n = literal_body_len(s.drop_first(), s[0]) as int;
        let path = s.subrange(1, 1 + n);
        if has_extension(path, ext) && lookup(encoded, path) is Some {
            asset_expression(ext, path, lookup(encoded, path)->0) + embed_text(s.skip(2 + n), ext, encoded)
        } else {
            s.take(2 + n) + embed_text(s.skip(2 + n), ext, encoded)
        }
    } else {
        seq![s[0]] + embed_text(s.drop_first(), ext, encoded)
    }
}

#[via_fn]
proof fn embed_text_decreases(s: Seq<char>, ext: Seq<char>, encoded: Seq<(Seq<char>, Seq<char>)>) {
    if s.len() > 0 {
        lemma_literal_body_len_bound(s.drop_first(), s[0]);
    }
}

/// The paths of the complete literals that have the extension, in order.
pub open spec fn asset_literals(s: Seq<char>, ext: Seq<char>) -> Seq<Seq<char>>
    decreases s.len(),
    via asset_literals_decreases
{
    if s.len() == 0 {
        Seq::empty()
    } else if starts_literal(s) {
        let n = literal_body_len(s.drop_first(), s[0]) as int;
        let path = s.subrange(1, 1 + n);
        if has_extension(path, ext) {
            seq![path] + asset_literals(s.skip(2 + n), ext)
        } else {
            asset_literals(s.skip(2 + n), ext)
        }
    } else {
        asset_literals(s.drop_first(), ext)
    }
}

#[via_fn]
proof fn asset_literals_decreases(s: Seq<char>, ext: Seq<char>) {
    if s.len() > 0 {
        lemma_literal_body_len_bound(s.drop_first(), s[0]);
    }
}

/// The path and encoded bytes of each asset.
pub open spec fn encoded_assets(assets: Seq<(String, Vec<u8>)>) -> Seq<(Seq<char>, Seq<char>)> {
    assets.map_values(|a: (String, Vec<u8>)| (a.0@, base64_of(a.1@)))
}

/// The length of the literal body that starts at `at`, for the quote `q`.
fn literal_body_len_at(s: &Vec<char>, at: usize, q: char) -> (r: usize)
    requires
        at <= s.len(),
    ensures
        r == literal_body_len(s@.skip(at as int), q),
        at + r <= s.len(),
{
    let mut j: usize = at;
    while j < s.len() && s[j] != q && s[j] != '\n'
        invariant
            at <= j <= s.len(),
            literal_body_len(s@.skip(at as int), q) == (j - at) + literal_body_len(s@.skip(j as int), q),
        decreases s.len() - j,
    {
        assert(s@.skip(j as int).drop_first() =~= s@.skip(j as int + 1));
        j = j + 1;
    }
    if j < s.len() {
        assert(s@.skip(j as int)[0] == s@[j as int]);
    }
    j - at
}

/// The body length of the complete literal at `i`, if one starts there.
fn literal_at(s: &Vec<char>, i: usize) -> (r: Option<usize>)
    requires
        i < s.len(),
    ensures
        match r {
            Some(n) => starts_literal(s@.skip(i as int)) && n == literal_body_len(s@.skip(i as int).drop_first(), s@[i as int])
                && i + n + 2 <= s.len(),
            None => !starts_literal(s@.skip(i as int)),
        },
{
    let ghost rest = s@.skip(i as int);
    assert(rest[0] == s@[i as int]);
    assert(rest.drop_first() =~= s@.skip(i as int + 1));
    let q = s[i];
    if q != '"' && q != '\'' {
        return None;
    }
    let n = literal_body_len_at(s, i + 1, q);
    if i + 1 + n < s.len() && s[i + 1 + n] == q {
        assert(rest[1 + n as int] == s@[i + 1 + n]);
        Some(n)
    } else {
        assert(1 + n < rest.len() ==> rest[1 + n as int] == s@[i + 1 + n]);
        None
    }
}

/// Whether `path` ends in `.` and the extension.
fn ends_with_extension(path: &Vec<char>, ext: &Vec<char>) -> (r: bool)
    ensures
        r == has_extension(path@, ext@),
{
    if path.len() <= ext.len() {
        return false;
    }
    let at = path.len() - ext.len();
    if path[at - 1] != '.' {
        return false;
    }
    let r = crate::text::starts_at(path, at, ext);
    assert(path@.subrange(at as int, at + ext.len()) =~= path@.skip(at as int));
    r
}

/// The paths of the quoted literals in the buffer that end in `.` and the
/// extension: the assets that embedding would look for.
pub fn asset_paths(buffer: &str, extension: &str) -> (r: Vec<String>)
    ensures
        crate::buffer::views(r@) == asset_literals(buffer@, extension@),
{
    let s = chars_of(buffer);
    let ext = chars_of(extension);
    let mut out: Vec<String> = Vec::new();
    let mut i: usize = 0;
    assert(s@.skip(0) =~= s@);
    while i < s.len()
        invariant
            0 <= i <= s.len(),
            s@ == buffer@,
            ext@ == extension@,
            crate::buffer::views(out@) + asset_literals(s@.skip(i as int), ext@) == asset_literals(s@, ext@),
        decreases s.len() - i,
    {
        let ghost rest = s@.skip(i as int);
        let ghost before = crate::buffer::views(out@);
        assert(rest.drop_first() =~= s@.skip(i as int + 1));
        match literal_at(&s, i) {
            Some(n) => {
                let path = slice_chars(&s, i + 1, i + 1 + n);
                assert(rest.subrange(1, 1 + n as int) =~= path@);
                assert(rest.skip(2 + n as int) =~= s@.skip(i + 2 + n));
                if ends_with_extension(&path, &ext) {
                    out.push(string_of(&path));
                    assert(crate::buffer::views(out@) =~= before.push(path@));
                    assert(seq![path@] + asset_literals(s@.skip(i + 2 + n), ext@) =~= seq![path@].add(
                        asset_literals(s@.skip(i + 2 + n), ext@),
                    ));
                    assert(before.push(path@) + asset_literals(s@.skip(i + 2 + n), ext@) =~= before + (seq![path@]
                        + asset_literals(s@.skip(i + 2 + n), ext@)));
                }
                i = i + 2 + n;
            },
            None => {
                i = i + 1;
            },
        }
    }
    assert(s@.skip(s.len() as int) =~= Seq::<char>::empty());
    assert(crate::buffer::views(out@) + Seq::<Seq<char>>::empty() =~= crate::buffer::views(out@));
    out
}

/// The expression that replaces the literal of an asset.
pub fn get_asset_helper(extension: &str, path: &str, converted_asset: &str) -> (r: String)
    ensures
        r@ == asset_expression(extension@, path@, converted_asset@),
{
    let e = chars_of(extension);
    let png = chars_of("png");
    if crate::text::chars_eq(&e, &png) {
        let mut out = chars_of("love.filesystem.newFileData('");
        append_str(&mut out, converted_asset);
        append_str(&mut out, "','");
        append_str(&mut out, path);
        append_str(&mut out, "','base64')");
        string_of(&out)
    } else {
        owned(converted_asset)
    }
}

/// Replaces each quoted literal whose path ends in `.` and the extension, and is
/// among `assets`, by the asset's expression carrying its base64-encoded bytes.
/// A literal whose file is not among `assets` is left as it is.
pub fn embed_assets(buffer: &mut String, extension: &str, assets: &Vec<(String, Vec<u8>)>)
    ensures
        final(buffer)@ == embed_text(old(buffer)@, extension@, encoded_assets(assets@)),
{
    let ghost enc = encoded_assets(assets@);
    let mut table: Vec<(String, String)> = Vec::new();
    let mut k: usize = 0;
    while k < assets.len()
        invariant
            0 <= k <= assets.len(),
            enc == encoded_assets(assets@),
            table_view(table@) == enc.take(k as int),
        decreases assets.len() - k,
    {
        let encoded = encode_base64(&assets[k].1);
        let name = assets[k].0.clone();
        let ghost before = table_view(table@);
        assert(enc[k as int] == (assets@[k as int].0@, base64_of(assets@[k as int].1@)));
        table.push((name, encoded));
        assert(table_view(table@) =~= before.push(enc[k as int]));
        assert(table_view(table@) =~= enc.take(k as int + 1));
        k = k + 1;
    }
    assert(enc.take(assets.len() as int) =~= enc);
    let s = chars_of(buffer.as_str());
    let ext = chars_of(extension);
    let mut out: Vec<char> = Vec::new();
    let mut i: usize = 0;
    assert(s@.skip(0) =~= s@);
    while i < s.len()
        invariant
            0 <= i <= s.len(),
            s@ == old(buffer)@,
            ext@ == extension@,
            table_view(table@) == enc,
            out@ + embed_text(s@.skip(i as int), ext@, enc) == embed_text(s@, ext@, enc),
        decreases s.len() - i,
    {
        let ghost rest = s@.skip(i as int);
        let ghost before = out@;
        assert(rest[0] == s@[i as int]);
        assert(rest.drop_first() =~= s@.skip(i as int + 1));
        match literal_at(&s, i) {
            Some(n) => {
                let path = slice_chars(&s, i + 1, i + 1 + n);
                assert(rest.subrange(1, 1 + n as int) =~= path@);
                assert(rest.skip(2 + n as int) =~= s@.skip(i + 2 + n));
                let mut replaced = false;
                if ends_with_extension(&path, &ext) {
                    match get_value(&table, &path) {
                        Some(encoded) => {
                            let p = string_of(&path);
                            let h = get_asset_helper(extension, p.as_str(), encoded.as_str());
                            append_str(&mut out, h.as_str());
                            replaced = true;
                        },
                        None => {},
                    }
                }
                if !replaced {
                    let lit = slice_chars(&s, i, i + 2 + n);
                    assert(lit@ =~= rest.take(2 + n as int));
                    crate::text::append_chars(&mut out, &lit);
                }
                i = i + 2 + n;
            },
            None => {
                out.push(s[i]);
                i = i + 1;
            },
        }
    }
    assert(s@.skip(s.len() as int) =~= Seq::<char>::empty());
    assert(out@ =~= embed_text(s@, ext@, enc));
    *buffer = string_of(&out);
}

/// Embeds the assets as the `embed` option asks: with a text extension, as
/// `embed_assets` does; with a switch, a list or no `embed` option, the buffer
/// is left as it is.
pub fn embed_configured_assets(
    buffer: &mut String,
    options: &Vec<(String, Multivalue)>,
    assets: &Vec<(String, Vec<u8>)>,
)
    ensures
        final(buffer)@ == match embed_extension_of(option_view(options@)) {
            Some(ext) => embed_text(old(buffer)@, ext, encoded_assets(assets@)),
            None => old(buffer)@,
        },
{
    match embed_extension(options) {
        Some(ext) => embed_assets(buffer, ext.as_str(), assets),
        None => {},
    }
}

} // verus!
