//! Versions and version requirements, read and compared by the `version-lp`
//! crate, and the choice of the best tag for a requirement.
use vstd::prelude::*;

verus! {

/// Whether `version_lp` reads the text as a version or a requirement: it takes
/// each run of ASCII digits and `*` as a part, and needs at least one.
pub open spec fn parses_as_version(s: Seq<char>) -> bool {
    exists|k: int| 0 <= k < s.len() && (('0' <= #[trigger] s[k] && s[k] <= '9') || s[k] == '*')
}

/// Whether `version_lp` finds the version `candidate` compatible with the requirement `requirement`.
pub uninterp spec fn is_compatible(candidate: Seq<char>, requirement: Seq<char>) -> bool;

/// Whether `version_lp` orders the version `a` before the version `b`.
pub uninterp spec fn is_older(a: Seq<char>, b: Seq<char>) -> bool;

/// Relies on `version_lp::Version::from_str`: whether the text reads as a
/// version, which it does exactly when it holds an ASCII digit or `*`.
#[verifier::external_body]
fn version_parses(s: &str) -> (r: bool)
    ensures
        r == parses_as_version(s@),
{
    version_lp::Version::from_str(s).is_some()
}

/// Relies on `version_lp::Version::is_compatible_with`: whether the version
/// `candidate` meets the requirement `requirement`.
#[verifier::external_body]
fn version_compatible(candidate: &str, requirement: &str) -> (r: bool)
    requires
        parses_as_version(candidate@),
        parses_as_version(requirement@),
    ensures
        r == is_compatible(candidate@, requirement@),
{
    let c = version_lp::Version::from_str(candidate).unwrap();
    let q = version_lp::Version::from_str(requirement).unwrap();
    c.is_compatible_with(&q)
}

/// Relies on `version_lp::Version`'s `PartialOrd`: whether `a` comes before `b`.
#[verifier::external_body]
fn version_older(a: &str, b: &str) -> (r: bool)
    requires
        parses_as_version(a@),
        parses_as_version(b@),
    ensures
        r == is_older(a@, b@),
{
    let x = version_lp::Version::from_str(a).unwrap();
    let y = version_lp::Version::from_str(b).unwrap();
    x < y
}

/// A tag that reads as a version and meets the requirement.
pub open spec fn qualifies(tag: Seq<char>, requirement: Seq<char>) -> bool {
    parses_as_version(tag) && is_compatible(tag, requirement)
}

/// The best qualifying tag among `tags`: going through them in order, a
/// qualifying tag replaces the one held so far when that one is older.
pub open spec fn best_tag(tags: Seq<Seq<char>>, requirement: Seq<char>) -> Option<Seq<char>>
    decreases tags.len(),
{
    if tags.len() == 0 {
        None
    } else {
        let prev = best_tag(tags.drop_last(), requirement);
        let t = tags.last();
        if qualifies(t, requirement) && (prev is None || is_older(prev->0, t)) {
            Some(t)
        } else {
            prev
        }
    }
}

/// The views of a list of strings.
pub open spec fn tag_views(tags: Seq<String>) -> Seq<Seq<char>> {
    tags.map_values(|t: String| t@)
}

/// The newest of `candidate_tags` that reads as a version and meets
/// `requirement`; none where the requirement does not read as one, or where no
/// tag qualifies.
pub fn latest_compatible(candidate_tags: &Vec<String>, requirement: &str) -> (r: Option<String>)
    ensures
        r matches Some(t) ==> parses_as_version(requirement@) && best_tag(tag_views(candidate_tags@), requirement@)
            == Some(t@),
        r is None ==> !parses_as_version(requirement@) || best_tag(tag_views(candidate_tags@), requirement@) is None,
{
    if !version_parses(requirement) {
        return None;
    }
    let ghost tags = tag_views(candidate_tags@);
    let mut best: Option<String> = None;
    let mut i: usize = 0;
    assert(tags.take(0) =~= Seq::<Seq<char>>::empty());
    while i < candidate_tags.len()
        invariant
            0 <= i <= candidate_tags.len(),
            tags == tag_views(candidate_tags@),
            parses_as_version(requirement@),
            match best {
                Some(b) => best_tag(tags.take(i as int), requirement@) == Some(b@),
                None => best_tag(tags.take(i as int), requirement@) is None,
            },
            best matches Some(b) ==> parses_as_version(b@),
        decreases candidate_tags.len() - i,
    {
        let t = &candidate_tags[i];
        assert(tags.take(i as int + 1).drop_last() =~= tags.take(i as int));
        assert(tags.take(i as int + 1).last() == t@);
        if version_parses(t.as_str()) && version_compatible(t.as_str(), requirement) {
            let newer = match &best {
                Some(b) => version_older(b.as_str(), t.as_str()),
                None => true,
            };
            if newer {
                best = Some(t.clone());
            }
        }
        i = i + 1;
    }
    assert(tags.take(candidate_tags.len() as int) =~= tags);
    best
}

/// Over no tags there is no compatible version, whatever the requirement.
pub proof fn law_no_tags_no_version(requirement: Seq<char>)
    ensures
        best_tag(Seq::<Seq<char>>::empty(), requirement) is None,
{
}

/// The chosen tag is one of the candidates, reads as a version and meets the requirement.
pub proof fn law_best_tag_qualifies(tags: Seq<Seq<char>>, requirement: Seq<char>)
    ensures
        best_tag(tags, requirement) matches Some(t) ==> tags.contains(t) && qualifies(t, requirement),
        best_tag(tags, requirement) is None <==> forall|i: int| 0 <= i < tags.len() ==> !qualifies(tags[i], requirement),
    decreases tags.len(),
{
    if tags.len() > 0 {
        let prev = tags.drop_last();
        law_best_tag_qualifies(prev, requirement);
        if let Some(t) = best_tag(prev, requirement) {
            let k = choose|k: int| 0 <= k < prev.len() && prev[k] == t;
            assert(tags[k] == t);
        }
        if best_tag(tags, requirement) is None {
            assert forall|i: int| 0 <= i < tags.len() implies !qualifies(tags[i], requirement) by {
                if i < tags.len() - 1 {
                    assert(tags[i] == prev[i]);
                }
            }
        }
        assert(tags[tags.len() - 1] == tags.last());
        if forall|i: int| 0 <= i < tags.len() ==> !qualifies(tags[i], requirement) {
            assert forall|i: int| 0 <= i < prev.len() implies !qualifies(prev[i], requirement) by {
                assert(prev[i] == tags[i]);
            }
        }
    }
}

/// Where `is_older` is irreflexive and transitive, no qualifying tag is newer
/// than the chosen one: it is the newest that meets the requirement.
pub proof fn law_best_tag_is_newest(tags: Seq<Seq<char>>, requirement: Seq<char>)
    requires
        forall|a: Seq<char>| !is_older(a, a),
        forall|a: Seq<char>, b: Seq<char>, c: Seq<char>|
            #[trigger] is_older(a, b) && #[trigger] is_older(b, c) ==> is_older(a, c),
    ensures
        best_tag(tags, requirement) matches Some(t) ==> forall|i: int|
            0 <= i < tags.len() && qualifies(tags[i], requirement) ==> !is_older(t, tags[i]),
    decreases tags.len(),
{
    if tags.len() > 0 {
        let prev = tags.drop_last();
        law_best_tag_is_newest(prev, requirement);
        law_best_tag_qualifies(prev, requirement);
        if let Some(t) = best_tag(tags, requirement) {
            assert forall|i: int| 0 <= i < tags.len() && qualifies(tags[i], requirement) implies !is_older(
                t,
                tags[i],
            ) by {
                if i < tags.len() - 1 {
                    assert(tags[i] == prev[i]);
                    if let Some(p) = best_tag(prev, requirement) {
                        if t != p && is_older(t, tags[i]) {
                            assert(is_older(p, t));
                            assert(is_older(p, tags[i]));
                        }
                    }
                }
            }
        }
    }
}

/// The requirement to resolve a dependency with: its declared version where
/// that reads as one, else the wildcard `*`. The flag tells that a declared
/// requirement was unreadable and replaced.
pub fn requirement_or_wildcard(declared: &Option<String>) -> (r: (String, bool))
    ensures
        match declared {
            Some(v) => if parses_as_version(v@) {
                r.0@ == v@ && !r.1
            } else {
                r.0@ == "*"@ && r.1
            },
            None => r.0@ == "*"@ && !r.1,
        },
{
    match declared {
        Some(v) => {
            if version_parses(v.as_str()) {
                (v.clone(), false)
            } else {
                (crate::text::owned("*"), true)
            }
        },
        None => (crate::text::owned("*"), false),
    }
}

} // verus!
