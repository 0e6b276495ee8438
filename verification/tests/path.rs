use everdiff::path::{IgnorePath, IgnorePathError, MatchElement, Path, Segment};

fn field(s: &str) -> MatchElement {
    MatchElement::Field(s.to_string())
}

#[test]
fn can_be_read_from_string() {
    struct Case {
        input: &'static str,
        expected: Vec<MatchElement>,
    }
    let cases = vec![
        Case { input: r#".spec"#, expected: vec![MatchElement::Root, field("spec")] },
        Case { input: r#"spec.annotations"#, expected: vec![field("spec"), field("annotations")] },
        Case {
            input: r#"spec.annotations["app.kubernetes.io/name"]"#,
            expected: vec![field("spec"), field("annotations"), field("app.kubernetes.io/name")],
        },
        Case { input: r#"spec.env[1]"#, expected: vec![field("spec"), field("env"), MatchElement::Index(1)] },
        Case {
            input: r#"spec.env[*].name"#,
            expected: vec![field("spec"), field("env"), MatchElement::AnyArrayElement, field("name")],
        },
    ];

    for case in &cases {
        let matcher = IgnorePath::from_str(case.input).unwrap();
        assert_eq!(matcher.elements(), case.expected.as_slice())
    }
}

fn path(segments: &[&str]) -> Path {
    let mut p = Path::new();
    for s in segments {
        p = p.push(Segment::field(s));
    }
    p
}

#[test]
fn matching_paths_with_ignore_paths_structs() {
    struct Case {
        path_match: &'static str,
        path: Path,
        matches: bool,
    }

    let cases = vec![
        Case {
            path_match: ".spec.annotations",
            path: path(&["spec", "annotations", "foo.bar.com"]),
            matches: true,
        },
        Case { path_match: "annotations", path: path(&["spec", "annotations", "foo.bar.com"]), matches: true },
        Case {
            path_match: "spec.env[3].name",
            path: path(&["spec", "env"]).push(Segment::index(3)).push(Segment::field("name")),
            matches: true,
        },
        Case {
            path_match: "spec.env[*].name",
            path: path(&["spec", "env"]).push(Segment::index(3)).push(Segment::field("name")),
            matches: true,
        },
        Case {
            path_match: r#"annotations["app.kubernetes.io/name"]"#,
            path: path(&["spec", "template", "metadata", "annotations", "app.kubernetes.io/name"]),
            matches: true,
        },
    ];

    for case in cases.iter().skip(4) {
        let path_match = IgnorePath::from_str(case.path_match).unwrap();

        assert_eq!(case.matches, path_match.matches(&case.path));
    }
}

#[test]
fn every_listed_pattern_selects_its_path() {
    let cases = vec![
        (".spec.annotations", path(&["spec", "annotations", "foo.bar.com"])),
        ("annotations", path(&["spec", "annotations", "foo.bar.com"])),
        ("spec.env[3].name", path(&["spec", "env"]).push(Segment::index(3)).push(Segment::field("name"))),
        ("spec.env[*].name", path(&["spec", "env"]).push(Segment::index(3)).push(Segment::field("name"))),
    ];
    for (pattern, p) in &cases {
        assert!(IgnorePath::from_str(pattern).unwrap().matches(p), "{pattern}");
    }
}

#[test]
fn anchored_pattern_needs_the_path_from_the_root() {
    let pattern = IgnorePath::from_str(".annotations").unwrap();
    assert!(!pattern.matches(&path(&["spec", "annotations"])));
    assert!(pattern.matches(&path(&["annotations", "x"])));
    // a path shorter than the pattern is not selected
    let long = IgnorePath::from_str(".spec.annotations").unwrap();
    assert!(!long.matches(&path(&["spec"])));
}

#[test]
fn relative_pattern_compares_as_far_as_the_path_reaches() {
    let pattern = IgnorePath::from_str("annotations.foo").unwrap();
    assert!(pattern.matches(&path(&["spec", "annotations"])));
    assert!(!pattern.matches(&path(&["spec", "annotations", "bar"])));
    assert!(!pattern.matches(&path(&["spec", "labels"])));
}

#[test]
fn index_and_wildcard_only_select_indices() {
    let index = IgnorePath::from_str("env[2]").unwrap();
    assert!(index.matches(&path(&["env"]).push(Segment::index(2))));
    assert!(!index.matches(&path(&["env"]).push(Segment::index(1))));
    let any = IgnorePath::from_str("env[*]").unwrap();
    assert!(any.matches(&path(&["env"]).push(Segment::index(7))));
    assert!(!any.matches(&path(&["env", "x"])));
}

#[test]
fn invalid_patterns_are_refused() {
    assert_eq!(IgnorePath::from_str("").unwrap_err(), IgnorePathError::Invalid);
    assert_eq!(IgnorePath::from_str("[x]").unwrap_err(), IgnorePathError::Invalid);
    assert_eq!(IgnorePath::from_str("[\"a\"").unwrap_err(), IgnorePathError::Invalid);
    assert_eq!(IgnorePath::from_str(".").unwrap_err(), IgnorePathError::Invalid);
}

#[test]
fn text_left_after_the_pattern_is_refused() {
    assert_eq!(IgnorePath::from_str("spec.env[1]xyz").unwrap_err(), IgnorePathError::Invalid);
    assert_eq!(IgnorePath::from_str("spec.").unwrap_err(), IgnorePathError::Invalid);
    assert_eq!(IgnorePath::from_str("spec[\"a_b\"]").unwrap_err(), IgnorePathError::Invalid);
}

#[test]
fn a_key_runs_to_the_next_dot_or_bracket() {
    let p = IgnorePath::from_str(".data.config_yaml").unwrap();
    assert_eq!(p.elements(), &[MatchElement::Root, field("data"), field("config_yaml")]);
    let q = IgnorePath::from_str("ports.8080-tcp[0]").unwrap();
    assert_eq!(q.elements(), &[field("ports"), field("8080-tcp"), MatchElement::Index(0)]);
    assert!(p.matches(&path(&["data", "config_yaml"])));
    assert!(!p.matches(&path(&["data", "config"])));
}

#[test]
fn a_star_key_selects_every_key() {
    let p = IgnorePath::from_str(".metadata.labels.*").unwrap();
    assert_eq!(p.elements(), &[MatchElement::Root, field("metadata"), field("labels"), MatchElement::AnyField]);
    assert!(p.matches(&path(&["metadata", "labels", "app"])));
    assert!(!p.matches(&path(&["metadata", "annotations", "app"])));
    assert!(!p.matches(&path(&["metadata", "labels"]).push(Segment::index(0))));
}

#[test]
fn an_index_too_large_is_reported() {
    assert_eq!(
        IgnorePath::parse("spec[99999999999999999999999999]").unwrap_err(),
        IgnorePathError::IndexTooLarge
    );
    // even without the closing bracket
    assert_eq!(IgnorePath::parse("[99999999999999999999999999").unwrap_err(), IgnorePathError::IndexTooLarge);
}

#[test]
fn jq_like_renders_keys_and_indices() {
    let p = path(&["spec", "containers"]).push(Segment::index(0)).push(Segment::field("image"));
    assert_eq!(p.jq_like(), ".spec.containers[0].image");
    assert_eq!(Path::new().jq_like(), "");
    assert_eq!(Path::new().push(Segment::index(12)).jq_like(), "[12]");
}

#[test]
fn parent_undoes_push() {
    let p = path(&["a", "b"]);
    let q = p.push(Segment::index(3));
    assert!(q.parent().unwrap().same(&p));
    assert!(Path::new().parent().is_none());
    assert_eq!(q.len(), 3);
}
