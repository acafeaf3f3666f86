//! Tables from text keys to text values, kept in the order they were declared.
use vstd::prelude::*;

use crate::text::{chars_eq, chars_of};

verus! {

/// The entries of a table, as pairs of character sequences.
pub open spec fn table_view(t: Seq<(String, String)>) -> Seq<(Seq<char>, Seq<char>)> {
    t.map_values(|e: (String, String)| (e.0@, e.1@))
}

/// The value of the first entry whose key is `k`.
pub open spec fn lookup(t: Seq<(Seq<char>, Seq<char>)>, k: Seq<char>) -> Option<Seq<char>>
    decreases t.len(),
{
    if t.len() == 0 {
        None
    } else if t[0].0 == k {
        Some(t[0].1)
    } else {
        lookup(t.drop_first(), k)
    }
}

/// No key occurs twice.
pub open spec fn keys_unique(t: Seq<(Seq<char>, Seq<char>)>) -> bool {
    forall|i: int, j: int| 0 <= i < j < t.len() ==> t[i].0 != t[j].0
}

/// A key is found exactly when some entry holds it.
pub proof fn lemma_lookup_some(t: Seq<(Seq<char>, Seq<char>)>, k: Seq<char>)
    ensures
        lookup(t, k) is Some <==> exists|i: int| 0 <= i < t.len() && t[i].0 == k,
        lookup(t, k) is Some ==> exists|i: int| 0 <= i < t.len() && t[i].0 == k && t[i].1 == lookup(t, k)->0,
    decreases t.len(),
{
    if t.len() > 0 {
        let r = t.drop_first();
        lemma_lookup_some(r, k);
        if t[0].0 != k {
            if exists|i: int| 0 <= i < t.len() && t[i].0 == k {
                let i = choose|i: int| 0 <= i < t.len() && t[i].0 == k;
                assert(r[i - 1] == t[i]);
            }
            if lookup(r, k) is Some {
                let i = choose|i: int| 0 <= i < r.len() && r[i].0 == k && r[i].1 == lookup(r, k)->0;
                assert(t[i + 1] == r[i]);
            }
        }
    }
}

/// Appending an entry with a new key leaves every other lookup as it was.
pub proof fn lemma_lookup_push(t: Seq<(Seq<char>, Seq<char>)>, e: (Seq<char>, Seq<char>), k: Seq<char>)
    ensures
        lookup(t.push(e), k) == if lookup(t, k) is Some {
            lookup(t, k)
        } else if e.0 == k {
            Some(e.1)
        } else {
            None
        },
    decreases t.len(),
{
    if t.len() > 0 {
        assert(t.push(e)[0] == t[0]);
        assert(t.push(e).drop_first() =~= t.drop_first().push(e));
        lemma_lookup_push(t.drop_first(), e, k);
    } else {
        assert(t.push(e)[0] == e);
        assert(t.push(e).drop_first() =~= t);
    }
}

/// The position of the entry that `lookup` reads for key `k`.
pub fn find_key(t: &Vec<(String, String)>, k: &Vec<char>) -> (r: Option<usize>)
    ensures
        match r {
            Some(i) => i < t.len() && lookup(table_view(t@), k@) == Some(t@[i as int].1@) && t@[i as int].0@ == k@,
            None => lookup(table_view(t@), k@) is None,
        },
{
    let ghost v = table_view(t@);
    let mut i: usize = 0;
    assert(v.skip(0) =~= v);
    while i < t.len()
        invariant
            0 <= i <= t.len(),
            v == table_view(t@),
            lookup(v, k@) == lookup(v.skip(i as int), k@),
        decreases t.len() - i,
    {
        let key = chars_of(t[i].0.as_str());
        assert(v.skip(i as int)[0] == v[i as int]);
        if chars_eq(&key, k) {
            return Some(i);
        }
        assert(v.skip(i as int).drop_first() =~= v.skip(i as int + 1));
        i = i + 1;
    }
    None
}

/// The value that the table gives for `k`, if any.
pub fn get_value(t: &Vec<(String, String)>, k: &Vec<char>) -> (r: Option<String>)
    ensures
        match r {
            Some(s) => lookup(table_view(t@), k@) == Some(s@),
            None => lookup(table_view(t@), k@) is None,
        },
{
    match find_key(t, k) {
        Some(i) => Some(t[i].1.clone()),
        None => None,
    }
}

} // verus!
