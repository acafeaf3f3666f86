use lmake::assemble::ModuleSet;
use lmake::buffer::{process_depends_references, process_internal_references};
use lmake::preload::{PreloadMapping, PreloadNames};

fn mapping(entries: &[(&str, &str)]) -> PreloadMapping {
    let mut m = PreloadMapping::new();
    for (k, v) in entries {
        assert!(m.insert(k.to_string(), v.to_string()));
    }
    m
}

fn table(entries: &[(&str, &str)]) -> Vec<(String, String)> {
    entries.iter().map(|(k, v)| (k.to_string(), v.to_string())).collect()
}

#[test]
fn dependency_reference_replaces_first_segment_only() {
    let m = mapping(&[("otherlib", "otherlib-83920000000000000000000001")]);
    let mut buffer = String::from("@otherlib.foo()");
    process_depends_references(&mut buffer, &m);
    assert_eq!(buffer, " require(\"otherlib-83920000000000000000000001\").foo()");
}

#[test]
fn dependency_reference_with_method_call() {
    let m = mapping(&[("dep", "id7")]);
    let mut buffer = String::from("local x = @dep:new(1)\n");
    process_depends_references(&mut buffer, &m);
    assert_eq!(buffer, "local x =  require(\"id7\"):new(1)\n");
}

#[test]
fn dependency_reference_unknown_left_alone() {
    let m = mapping(&[("dep", "id7")]);
    let mut buffer = String::from("x = @other.y @dep");
    process_depends_references(&mut buffer, &m);
    assert_eq!(buffer, "x = @other.y  require(\"id7\")");
}

#[test]
fn internal_reference_longest_prefix() {
    let requires = table(&[("a.b", "src.mod")]);
    let m = mapping(&[("src.mod", "id123")]);
    let mut buffer = String::from("@a.b.c");
    process_internal_references(&mut buffer, &requires, &m);
    assert_eq!(buffer, "require(\"id123\").c");
}

#[test]
fn internal_reference_whole_token() {
    let requires = table(&[("a.b", "src.mod")]);
    let m = mapping(&[("src.mod", "id123")]);
    let mut buffer = String::from("@a.b");
    process_internal_references(&mut buffer, &requires, &m);
    assert_eq!(buffer, "require(\"id123\")");
}

#[test]
fn internal_reference_no_match_unchanged() {
    let requires = table(&[("a.b", "src.mod")]);
    let m = mapping(&[("src.mod", "id123")]);
    let mut buffer = String::from("@a.x");
    process_internal_references(&mut buffer, &requires, &m);
    assert_eq!(buffer, "@a.x");
}

#[test]
fn internal_reference_prefers_longer_key() {
    let requires = table(&[("a", "src.a"), ("a.b", "src.b")]);
    let m = mapping(&[("src.a", "ida"), ("src.b", "idb")]);
    let mut buffer = String::from("@a.b:run() @a.c");
    process_internal_references(&mut buffer, &requires, &m);
    assert_eq!(buffer, "require(\"idb\"):run() require(\"ida\").c");
}

#[test]
fn mapping_refuses_duplicate_key_and_identifier() {
    let mut m = PreloadMapping::new();
    assert!(m.insert("k".to_string(), "id1".to_string()));
    assert!(!m.insert("k".to_string(), "id2".to_string()));
    assert!(!m.insert("j".to_string(), "id1".to_string()));
    assert_eq!(m.len(), 1);
    assert_eq!(m.get("k"), Some("id1".to_string()));
    assert_eq!(m.get("j"), None);
    assert!(m.has_id("id1"));
}

#[test]
fn module_set_refuses_second_registration_of_key() {
    let mut set = ModuleSet::new();
    let mut names = PreloadNames::new();
    assert!(set.register(&mut names, "src.main".to_string(), "return 1", "lib"));
    assert!(!set.register(&mut names, "src.main".to_string(), "return 2", "lib"));
    assert_eq!(set.chunks.len(), 1);
    assert_eq!(names.next_serial(), 1);
    assert_eq!(set.mapping.get("src.main"), Some("lib-000000000000000000000000".to_string()));
}

#[test]
fn unresolved_references_listed() {
    let refs = lmake::buffer::unresolved_references("a = @x.y\nb = require(\"id\") c = @ d = @z");
    assert_eq!(refs, vec!["x.y".to_string(), "z".to_string()]);
}
