use opencli::package::version::{Version, VersionConstraint};

#[test]
fn parse_plain_version() {
    let v = Version::parse("1.2.3").unwrap();
    assert_eq!(v.canonical(), "1.2.3");
}

#[test]
fn parse_v_prefixed_version() {
    let v = Version::parse("v1.2.0").unwrap();
    assert_eq!(v.canonical(), "1.2.0");
}

#[test]
fn parse_capital_v_prefix() {
    let v = Version::parse("V3.0").unwrap();
    assert_eq!(v.canonical(), "3.0");
}

#[test]
fn parse_ignores_prerelease_suffix() {
    let v = Version::parse("1.2.3-rc1").unwrap();
    assert_eq!(v.canonical(), "1.2.3");
}

#[test]
fn parse_without_numeric_component_fails() {
    assert!(Version::parse("release").is_err());
    assert!(Version::parse("").is_err());
    assert!(Version::parse("v").is_err());
}

#[test]
fn parse_oversized_component_fails() {
    assert!(Version::parse("99999999999999999999").is_err());
}

#[test]
fn round_trip_consistency_of_equal_parses() {
    let a = Version::parse("v1.2.0").unwrap();
    let b = Version::parse("1.2.0").unwrap();
    assert!(a.eq_version(&b));
    assert_eq!(a.canonical(), b.canonical());
}

#[test]
fn version_order_is_componentwise() {
    let a = Version::parse("1.2.0").unwrap();
    let b = Version::parse("1.10.0").unwrap();
    assert!(a.lt(&b));
    assert!(!b.lt(&a));
}

#[test]
fn shorter_version_is_smaller_prefix() {
    let a = Version::parse("1.2").unwrap();
    let b = Version::parse("1.2.0").unwrap();
    assert!(a.lt(&b));
}

#[test]
fn any_constraint_selects_maximum() {
    let c = VersionConstraint::parse("*").unwrap();
    let vs = vec![
        Version::parse("v1.0.0").unwrap(),
        Version::parse("v1.2.0").unwrap(),
        Version::parse("v0.9.9").unwrap(),
    ];
    let m = c.latest_matching(&vs).unwrap();
    assert_eq!(m.canonical(), "1.2.0");
}

#[test]
fn any_constraint_on_empty_list_gives_none() {
    let c = VersionConstraint::parse("*").unwrap();
    let vs: Vec<Version> = Vec::new();
    assert!(c.latest_matching(&vs).is_none());
}

#[test]
fn exact_constraint_matches_only_its_version() {
    let c = VersionConstraint::parse("1.0.0").unwrap();
    let vs = vec![
        Version::parse("1.0.0").unwrap(),
        Version::parse("1.2.0").unwrap(),
    ];
    let m = c.latest_matching(&vs).unwrap();
    assert_eq!(m.canonical(), "1.0.0");
}

#[test]
fn exact_constraint_without_candidate_gives_none() {
    let c = VersionConstraint::parse("=2.0.0").unwrap();
    let vs = vec![Version::parse("1.0.0").unwrap()];
    assert!(c.latest_matching(&vs).is_none());
}

#[test]
fn caret_constraint_keeps_leading_component() {
    let c = VersionConstraint::parse("^1.1.0").unwrap();
    let vs = vec![
        Version::parse("1.0.0").unwrap(),
        Version::parse("1.4.2").unwrap(),
        Version::parse("2.0.0").unwrap(),
    ];
    let m = c.latest_matching(&vs).unwrap();
    assert_eq!(m.canonical(), "1.4.2");
}

#[test]
fn largest_component_still_parses() {
    let v = Version::parse("18446744073709551615").unwrap();
    assert_eq!(v.canonical(), "18446744073709551615");
}

#[test]
fn empty_constraint_text_fails() {
    assert!(VersionConstraint::parse("").is_err());
}

#[test]
fn constraint_parse_failure_reports_process_error() {
    match VersionConstraint::parse("nonsense") {
        Err(e) => assert!(matches!(e, opencli::result::OpenCliError::Process(_))),
        Ok(_) => panic!("expected a parse failure"),
    }
}
