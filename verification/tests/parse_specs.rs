use feature_lint::builder::{parse_implication_spec, ImplicationSpec};

fn parse(s: &str) -> Option<ImplicationSpec> {
    parse_implication_spec(&s.to_owned())
}

#[test]
fn parses_dep_prefix_form() {
    match parse("dep:serde") {
        Some(ImplicationSpec::DepDefault { name }) => assert_eq!(name, "serde"),
        _ => panic!("expected the dep: form"),
    }
}

#[test]
fn parses_forwarded_form() {
    match parse("serde/std") {
        Some(ImplicationSpec::DepFeature { name, feature }) => {
            assert_eq!(name, "serde");
            assert_eq!(feature, "std");
        },
        _ => panic!("expected the forwarded form"),
    }
}

#[test]
fn parses_weak_forwarded_form() {
    match parse("serde?/std") {
        Some(ImplicationSpec::DepFeature { name, feature }) => {
            assert_eq!(name, "serde");
            assert_eq!(feature, "std");
        },
        _ => panic!("expected the weak forwarded form"),
    }
}

#[test]
fn parses_bare_token() {
    match parse("alloc") {
        Some(ImplicationSpec::OwnFeature { feature }) => assert_eq!(feature, "alloc"),
        _ => panic!("expected a bare token"),
    }
}

#[test]
fn rejects_stray_colon() {
    assert!(parse("odd:form").is_none());
}

#[test]
fn rejects_second_slash() {
    assert!(parse("a/b/c").is_none());
}

#[test]
fn rejects_misplaced_weak_marker() {
    assert!(parse("se?rde/std").is_none());
    assert!(parse("what?").is_none());
}
