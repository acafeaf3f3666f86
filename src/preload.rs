//! The preload mapping: which generated module identifier stands for each
//! reference key (a dependency's reference name or a module file path).
use vstd::prelude::*;

use crate::table::{find_key, keys_unique, lemma_lookup_push, lemma_lookup_some, lookup, table_view};
use crate::text::{append_str, chars_eq, chars_of, string_of};

verus! {

/// No value occurs twice.
pub open spec fn values_unique(t: Seq<(Seq<char>, Seq<char>)>) -> bool {
    forall|i: int, j: int| 0 <= i < j < t.len() ==> t[i].1 != t[j].1
}

/// Whether some entry has the value `v`.
pub open spec fn has_value(t: Seq<(Seq<char>, Seq<char>)>, v: Seq<char>) -> bool {
    exists|i: int| 0 <= i < t.len() && t[i].1 == v
}

/// Reference keys and their module identifiers, in the order they were registered.
pub struct PreloadMapping {
    entries: Vec<(String, String)>,
}

impl View for PreloadMapping {
    type V = Seq<(Seq<char>, Seq<char>)>;

    closed spec fn view(&self) -> Seq<(Seq<char>, Seq<char>)> {
        table_view(self.entries@)
    }
}

impl PreloadMapping {
    /// Each key maps to one identifier, and no identifier serves two keys.
    pub open spec fn wf(&self) -> bool {
        keys_unique(self@) && values_unique(self@)
    }

    /// An empty mapping.
    pub fn new() -> (r: PreloadMapping)
        ensures
            r@ == Seq::<(Seq<char>, Seq<char>)>::empty(),
            r.wf(),
    {
        PreloadMapping { entries: Vec::new() }
    }

    /// The number of registered keys.
    pub fn len(&self) -> (r: usize)
        ensures
            r == self@.len(),
    {
        self.entries.len()
    }

    /// The entries, as a table.
    pub(crate) fn as_table(&self) -> (r: &Vec<(String, String)>)
        ensures
            table_view(r@) == self@,
    {
        &self.entries
    }

    /// The identifier registered for `key`, if any.
    pub fn get(&self, key: &str) -> (r: Option<String>)
        ensures
            match r {
                Some(id) => lookup(self@, key@) == Some(id@),
                None => lookup(self@, key@) is None,
            },
    {
        let k = chars_of(key);
        match find_key(&self.entries, &k) {
            Some(i) => Some(self.entries[i].1.clone()),
            None => None,
        }
    }

    /// Whether some key has the identifier `id`.
    pub fn has_id(&self, id: &str) -> (r: bool)
        ensures
            r == has_value(self@, id@),
    {
        let v = chars_of(id);
        let mut i: usize = 0;
        while i < self.entries.len()
            invariant
                0 <= i <= self.entries.len(),
                v@ == id@,
                forall|k: int| 0 <= k < i ==> self@[k].1 != id@,
            decreases self.entries.len() - i,
        {
            let e = chars_of(self.entries[i].1.as_str());
            assert(self@[i as int] == (self.entries@[i as int].0@, self.entries@[i as int].1@));
            if chars_eq(&e, &v) {
                return true;
            }
            i = i + 1;
        }
        false
    }

    /// Registers `id` for `key`. A key that is already registered keeps its
    /// identifier, and an identifier that is already in use is refused: in
    /// both cases nothing changes and the result is false.
    pub fn insert(&mut self, key: String, id: String) -> (r: bool)
        requires
            old(self).wf(),
        ensures
            final(self).wf(),
            r == (lookup(old(self)@, key@) is None && !has_value(old(self)@, id@)),
            r ==> final(self)@ == old(self)@.push((key@, id@)),
            !r ==> final(self)@ == old(self)@,
            r ==> lookup(final(self)@, key@) == Some(id@),
            forall|k: Seq<char>| k != key@ ==> #[trigger] lookup(final(self)@, k) == lookup(old(self)@, k),
    {
        let k = chars_of(key.as_str());
        if find_key(&self.entries, &k).is_some() {
            return false;
        }
        if self.has_id(id.as_str()) {
            return false;
        }
        let ghost before = self@;
        proof {
            lemma_lookup_some(before, key@);
        }
        self.entries.push((key, id));
        assert(self@ =~= before.push((key@, id@)));
        proof {
            lemma_lookup_push(before, (key@, id@), key@);
            assert forall|k: Seq<char>| k != key@ implies lookup(self@, k) == lookup(before, k) by {
                lemma_lookup_push(before, (key@, id@), k);
            }
        }
        true
    }
}

/// The number of digits of the serial in a module identifier.
pub const PRELOAD_DIGITS: usize = 24;

/// The character of the decimal digit `d`.
pub open spec fn digit_char(d: nat) -> char {
    ((48 + d) as u8) as char
}

/// The last `k` decimal digits of `n`, most significant first.
pub open spec fn serial_digits(n: nat, k: nat) -> Seq<char>
    decreases k,
{
    if k == 0 {
        Seq::empty()
    } else {
        serial_digits(n / 10, (k - 1) as nat).push(digit_char(n % 10))
    }
}

/// Ten to the power `k`.
pub open spec fn pow10(k: nat) -> nat
    decreases k,
{
    if k == 0 {
        1
    } else {
        10 * pow10((k - 1) as nat)
    }
}

/// The module identifier with serial number `serial` for a module of the
/// library `library_name`: the name, a dash, and the serial in 24 digits.
pub open spec fn preload_name(library_name: Seq<char>, serial: nat) -> Seq<char> {
    library_name + "-"@ + serial_digits(serial, PRELOAD_DIGITS as nat)
}

proof fn lemma_serial_digits_len(n: nat, k: nat)
    ensures
        serial_digits(n, k).len() == k,
    decreases k,
{
    if k > 0 {
        lemma_serial_digits_len(n / 10, (k - 1) as nat);
    }
}

proof fn lemma_serial_digits_injective(n: nat, m: nat, k: nat)
    requires
        n < pow10(k),
        m < pow10(k),
        serial_digits(n, k) == serial_digits(m, k),
    ensures
        n == m,
    decreases k,
{
    if k > 0 {
        let a = serial_digits(n, k);
        let b = serial_digits(m, k);
        assert(a.last() == digit_char(n % 10));
        assert(b.last() == digit_char(m % 10));
        assert(a.drop_last() =~= serial_digits(n / 10, (k - 1) as nat));
        assert(b.drop_last() =~= serial_digits(m / 10, (k - 1) as nat));
        assert(n % 10 == m % 10);
        assert(n / 10 < pow10((k - 1) as nat));
        assert(m / 10 < pow10((k - 1) as nat));
        lemma_serial_digits_injective(n / 10, m / 10, (k - 1) as nat);
    }
}

proof fn lemma_u64_below_pow10()
    ensures
        u64::MAX < pow10(PRELOAD_DIGITS as nat),
{
    reveal_with_fuel(pow10, 25);
}

/// Identifiers with different serial numbers differ, whatever the library
/// names: within a build that draws every serial once from one `PreloadNames`,
/// no two modules share an identifier.
pub proof fn law_preload_names_distinct(a: Seq<char>, n: nat, b: Seq<char>, m: nat)
    requires
        n <= u64::MAX,
        m <= u64::MAX,
        n != m,
    ensures
        preload_name(a, n) != preload_name(b, m),
{
    reveal_strlit("-");
    lemma_u64_below_pow10();
    lemma_serial_digits_len(n, PRELOAD_DIGITS as nat);
    lemma_serial_digits_len(m, PRELOAD_DIGITS as nat);
    assert("-"@.len() == 1);
    assert(preload_name(a, n).len() == a.len() + 1 + PRELOAD_DIGITS);
    assert(preload_name(b, m).len() == b.len() + 1 + PRELOAD_DIGITS);
    if preload_name(a, n) == preload_name(b, m) {
        let x = preload_name(a, n);
        assert(a.len() == b.len());
        assert(x.skip(a.len() + 1int) =~= serial_digits(n, PRELOAD_DIGITS as nat));
        assert(preload_name(b, m).skip(b.len() + 1int) =~= serial_digits(m, PRELOAD_DIGITS as nat));
        lemma_serial_digits_injective(n, m, PRELOAD_DIGITS as nat);
    }
}

fn serial_digits_of(n: u64, k: usize) -> (r: Vec<char>)
    ensures
        r@ == serial_digits(n as nat, k as nat),
    decreases k,
{
    if k == 0 {
        Vec::new()
    } else {
        let mut r = serial_digits_of(n / 10, k - 1);
        let d = (n % 10) as u8;
        r.push((48u8 + d) as char);
        r
    }
}

/// The module identifier with serial number `serial` for the library `library_name`.
pub fn create_preload_name(library_name: &str, serial: u64) -> (r: String)
    ensures
        r@ == preload_name(library_name@, serial as nat),
{
    let mut out = chars_of(library_name);
    append_str(&mut out, "-");
    let digits = serial_digits_of(serial, PRELOAD_DIGITS);
    crate::text::append_chars(&mut out, &digits);
    string_of(&out)
}

/// The source of module serial numbers for one whole build, dependencies
/// included: each serial is handed out once, in increasing order.
pub struct PreloadNames {
    next: u64,
}

impl View for PreloadNames {
    type V = nat;

    closed spec fn view(&self) -> nat {
        self.next as nat
    }
}

impl PreloadNames {
    /// A source that has handed out no serial yet.
    pub fn new() -> (r: PreloadNames)
        ensures
            r@ == 0,
    {
        PreloadNames { next: 0 }
    }

    /// The serial that the next identifier gets.
    pub fn next_serial(&self) -> (r: u64)
        ensures
            r == self@,
    {
        self.next
    }

    /// Every serial that a `u64` holds has been handed out.
    pub open spec fn exhausted(&self) -> bool {
        self@ >= u64::MAX
    }

    /// A fresh identifier for a module of the library `library_name`; none,
    /// and no change, once the serials are exhausted.
    pub fn issue(&mut self, library_name: &str) -> (r: Option<String>)
        ensures
            old(self)@ <= u64::MAX,
            final(self)@ <= u64::MAX,
            !old(self).exhausted() ==> (r matches Some(id) && id@ == preload_name(library_name@, old(self)@)
                && final(self)@ == old(self)@ + 1),
            old(self).exhausted() ==> r is None && final(self)@ == old(self)@,
    {
        if self.next == u64::MAX {
            return None;
        }
        let id = create_preload_name(library_name, self.next);
        self.next = self.next + 1;
        Some(id)
    }
}

/// The module body that loads `contents` under the identifier `prename`.
pub open spec fn preload_chunk(contents: Seq<char>, prename: Seq<char>) -> Seq<char> {
    "package.preload['"@ + prename + "'] = (function(...)\n"@ + contents + "\nend)\n"@
}

/// Wraps a module's source so that it loads, deferred, under `prename`.
pub fn create_preload_string(contents: &str, prename: &str) -> (r: String)
    ensures
        r@ == preload_chunk(contents@, prename@),
{
    let mut out = chars_of("package.preload['");
    append_str(&mut out, prename);
    append_str(&mut out, "'] = (function(...)\n");
    append_str(&mut out, contents);
    append_str(&mut out, "\nend)\n");
    string_of(&out)
}

/// The path of a module file, relative to the library root: each dot of the
/// dotted module path becomes a folder separator, and the last segment a `.lua` file.
pub open spec fn module_file(file: Seq<char>) -> Seq<char> {
    file.map_values(|c: char| if c == '.' { '/' } else { c }) + ".lua"@
}

/// The relative path of the file of the dotted module path `file`.
pub fn module_file_path(file: &str) -> (r: String)
    ensures
        r@ == module_file(file@),
{
    let s = chars_of(file);
    let mut out: Vec<char> = Vec::new();
    let mut i: usize = 0;
    while i < s.len()
        invariant
            0 <= i <= s.len(),
            s@ == file@,
            out@ == s@.take(i as int).map_values(|c: char| if c == '.' { '/' } else { c }),
        decreases s.len() - i,
    {
        if s[i] == '.' {
            out.push('/');
        } else {
            out.push(s[i]);
        }
        assert(s@.take(i as int + 1) =~= s@.take(i as int).push(s@[i as int]));
        assert(out@ =~= s@.take(i as int + 1).map_values(|c: char| if c == '.' { '/' } else { c }));
        i = i + 1;
    }
    assert(s@.take(s.len() as int) =~= s@);
    append_str(&mut out, ".lua");
    string_of(&out)
}

} // verus!
