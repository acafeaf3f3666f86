use lmake::assemble::{BuildError, BuildTrail};
use lmake::install::parse_install_spec;

#[test]
fn install_spec_full() {
    let s = parse_install_spec("gui:1.2.0$ui");
    assert_eq!(s.name, "gui");
    assert_eq!(s.version, "1.2.0");
    assert_eq!(s.var, Some("ui".to_string()));
}

#[test]
fn install_spec_name_only() {
    let s = parse_install_spec("gui");
    assert_eq!(s.name, "gui");
    assert_eq!(s.version, "latest");
    assert_eq!(s.var, None);
}

#[test]
fn install_spec_var_without_version() {
    let s = parse_install_spec("gui$g");
    assert_eq!(s.name, "gui");
    assert_eq!(s.version, "latest");
    assert_eq!(s.var, Some("g".to_string()));
}

#[test]
fn trail_detects_cycle() {
    let mut t = BuildTrail::new();
    assert_eq!(t.enter("a-1.0.0".to_string()), Ok(()));
    assert_eq!(t.enter("b-2.0.0".to_string()), Ok(()));
    assert_eq!(t.enter("a-1.0.0".to_string()), Err(BuildError::CyclicDependency));
    assert_eq!(t.depth(), 2);
    t.leave();
    t.leave();
    assert_eq!(t.depth(), 0);
    assert_eq!(t.enter("a-1.0.0".to_string()), Ok(()));
}
