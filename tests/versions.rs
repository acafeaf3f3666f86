use lmake::assemble::{cache_key, choose_version, dependency_request, BuildError, DependencyRequest};
use lmake::definition::DependencySpec;
use lmake::version::{latest_compatible, requirement_or_wildcard};

fn tags(v: &[&str]) -> Vec<String> {
    v.iter().map(|s| s.to_string()).collect()
}

#[test]
fn latest_compatible_wildcard_takes_newest() {
    let t = tags(&["1.0.0", "1.2.0", "2.0.0"]);
    assert_eq!(latest_compatible(&t, "*"), Some("2.0.0".to_string()));
}

#[test]
fn latest_compatible_major_one() {
    let t = tags(&["1.0.0", "1.2.0", "2.0.0"]);
    assert_eq!(latest_compatible(&t, "1.*"), Some("1.2.0".to_string()));
}

#[test]
fn latest_compatible_empty_tags() {
    let t: Vec<String> = Vec::new();
    assert_eq!(latest_compatible(&t, "*"), None);
    assert_eq!(latest_compatible(&t, "1.*"), None);
}

#[test]
fn latest_compatible_skips_unreadable_and_incompatible_first_tag() {
    let t = tags(&["2.0.0", "nonsense", "1.1.0", "1.0.5"]);
    assert_eq!(latest_compatible(&t, "1.*"), Some("1.1.0".to_string()));
}

#[test]
fn latest_compatible_none_match() {
    let t = tags(&["2.0.0", "3.1.0"]);
    assert_eq!(latest_compatible(&t, "1.*"), None);
}

#[test]
fn requirement_fallback() {
    assert_eq!(requirement_or_wildcard(&Some("1.2.*".to_string())), ("1.2.*".to_string(), false));
    assert_eq!(requirement_or_wildcard(&Some("abc".to_string())), ("*".to_string(), true));
    assert_eq!(requirement_or_wildcard(&None), ("*".to_string(), false));
}

#[test]
fn dependency_request_defaults() {
    let spec = DependencySpec { name: None, version: None };
    let r: DependencyRequest = dependency_request(&"otherlib".to_string(), &spec);
    assert_eq!(r.reference, "otherlib");
    assert_eq!(r.library, "otherlib");
    assert_eq!(r.requirement, "*");
    assert!(!r.requirement_replaced);
}

#[test]
fn dependency_request_named_with_bad_version() {
    let spec = DependencySpec { name: Some("real-name".to_string()), version: Some("x.y".to_string()) };
    let r = dependency_request(&"alias".to_string(), &spec);
    assert_eq!(r.reference, "alias");
    assert_eq!(r.library, "real-name");
    assert_eq!(r.requirement, "*");
    assert!(r.requirement_replaced);
}

#[test]
fn cache_key_joins_name_and_version() {
    assert_eq!(cache_key("lib", "1.2.0"), "lib-1.2.0");
}

#[test]
fn choose_version_gives_cache_key() {
    let t = tags(&["0.1.0", "0.2.0"]);
    assert_eq!(choose_version("lib", &t, "0.*"), Ok(("0.2.0".to_string(), "lib-0.2.0".to_string())));
    assert_eq!(choose_version("lib", &t, "1.*"), Err(BuildError::NoMatchingVersion));
}
