use everdiff::diff::{diff as diff_nodes, ArrayOrdering, Context as DiffContext, Difference};
use everdiff::multidoc::{by_index, diff, sort_doc_differences, Context, DocDifference, DocKey, Fields};
use everdiff::path::{IgnorePath, Path, Segment};
use everdiff::report::{changed_header, filter_differences, is_ignored, render_multidoc_diff, report_renders};
use everdiff::snippet::Theme;
use everdiff::source::{read_doc, YamlSource};

fn docs(raw: &str) -> Vec<YamlSource> {
    read_doc(raw, "files/a.yaml").expect("valid yaml")
}

fn path_of(fields: &[&str]) -> Path {
    let mut p = Path::new();
    for f in fields {
        p = p.push(Segment::field(f));
    }
    p
}

#[test]
fn nothing_differs_between_a_file_and_itself() {
    let left = docs("---\na: 1\n---\nb: 2\n");
    let right = docs("---\na: 1\n---\nb: 2\n");
    let ctx = Context::new_with_doc_identifier(by_index());
    let differences = diff(&ctx, &left, &right);
    assert!(differences.is_empty());
    assert!(report_renders(&left, &right, &differences, false, &[], 80));
    let report = render_multidoc_diff(&left, &right, differences, false, &[], 80);
    assert_eq!(report, "No differences found\n");
}

#[test]
fn a_key_is_shown_as_a_table() {
    let mut fields = Fields::new();
    fields.insert("idx", Some("0".to_string()));
    fields.insert("kind", None);
    let key = DocKey::new("a.yaml".to_string(), fields);
    assert_eq!(
        key.pretty_print(),
        "╭──────┬───╮\n│ idx  ┆ 0 │\n├╌╌╌╌╌╌┼╌╌╌┤\n│ kind ┆ ∅ │\n╰──────┴───╯"
    );
}

#[test]
fn a_missing_document_is_reported_with_its_key() {
    let left = docs("---\na: 1\n---\nb: 2\n");
    let right = docs("---\na: 1\n");
    let ctx = Context::new_with_doc_identifier(by_index());
    let differences = diff(&ctx, &left, &right);
    assert_eq!(differences.len(), 1);
    assert!(matches!(differences[0], DocDifference::Missing(_)));
    let report = render_multidoc_diff(&left, &right, differences, false, &[], 80);
    assert_eq!(
        report,
        "\u{1b}[31mMissing document:\u{1b}[39m\n    ╭─────┬───╮\n    │ idx ┆ 1 │\n    ╰─────┴───╯\n"
    );
}

#[test]
fn a_changed_document_is_reported_with_its_differences() {
    let left = docs("a: 1\n");
    let right = docs("a: 2\n");
    let ctx = Context::new_with_doc_identifier(by_index());
    let differences = diff(&ctx, &left, &right);
    assert!(report_renders(&left, &right, &differences, false, &[], 40));
    let report = render_multidoc_diff(&left, &right, differences, false, &[], 40);
    assert!(report.starts_with("Changed document:\n    ╭─────┬───╮\n    │ idx ┆ 0 │\n    ╰─────┴───╯\nChanged: "));
    assert!(report.ends_with("\n\n"));
}

#[test]
fn ignored_paths_and_moves_are_left_out() {
    let left = docs("metadata:\n  annotations:\n    x: 1\nspec:\n  - a\n  - b\n");
    let right = docs("metadata:\n  annotations:\n    x: 2\nspec:\n  - b\n  - a\n");
    let ctx = Context::new_with_doc_identifier(by_index());
    let differences = diff(&ctx, &left, &right);
    let DocDifference::Changed { differences: inner, .. } = &differences[0] else {
        panic!("expected a changed document");
    };
    assert!(inner.iter().any(|d| matches!(d, Difference::Moved { .. })));
    let ignore = vec![IgnorePath::parse(".metadata").unwrap()];
    let shown = filter_differences(inner, true, &ignore);
    assert!(shown.is_empty());
    let shown = filter_differences(inner, false, &ignore);
    assert!(shown.iter().all(|d| matches!(d, Difference::Moved { .. })));
    assert!(is_ignored(&ignore, &path_of(&["metadata", "annotations", "x"])));
    assert!(!is_ignored(&ignore, &path_of(&["spec"])));
}

#[test]
fn an_anchored_pattern_selects_everything_below_it() {
    let pattern = IgnorePath::parse(".metadata.annotations").unwrap();
    assert!(pattern.matches(&path_of(&["metadata", "annotations"])));
    assert!(pattern.matches(&path_of(&["metadata", "annotations", "a", "b"])));
    assert!(!pattern.matches(&path_of(&["metadata"])));
    // a relative pattern compares only as far as the path reaches
    let relative = IgnorePath::parse("a.b").unwrap();
    assert!(relative.matches(&path_of(&["a"])));
    assert!(!relative.matches(&path_of(&["a", "c"])));
}

#[test]
fn differences_are_sorted_additions_first() {
    let left = docs("---\na: 1\n---\nb: 2\n");
    let right = docs("---\na: 3\n");
    let ctx = Context::new_with_doc_identifier(by_index());
    let differences = diff(&ctx, &left, &right);
    let sorted = sort_doc_differences(differences);
    assert!(matches!(sorted[0], DocDifference::Missing(_)));
    assert!(matches!(sorted[1], DocDifference::Changed { .. }));
}

#[test]
fn fixed_ordering_never_reports_a_move() {
    let left = read_doc("- a\n- b\n- c\n", "").unwrap().remove(0).yaml;
    let right = read_doc("- c\n- a\n- b\n", "").unwrap().remove(0).yaml;
    let fixed = diff_nodes(DiffContext::new(), &left, &right);
    assert!(!fixed.iter().any(|d| matches!(d, Difference::Moved { .. })));
    assert_eq!(fixed.len(), 3);
    let dynamic = diff_nodes(DiffContext::with_ordering(ArrayOrdering::Dynamic), &left, &right);
    assert!(dynamic.iter().all(|d| matches!(d, Difference::Moved { .. })));
    assert_eq!(dynamic.len(), 3);
}

#[test]
fn render_changed_header() {
    let l = ("left/examples/deployment.flux-engine-steam.yaml".to_string(), 0usize);
    let r = ("right/examples/deployment.flux-engine-steam.yaml".to_string(), 0usize);
    let theme = Theme::plain();
    let fields = Fields::new();
    let width = 160;
    let lines = changed_header(&l, &r, fields, width, &theme);

    let actual = lines.join("\n");
    assert_eq!(
        actual,
        "━━━━━━━━━━━━━━━━━━━━━━━━━━━━━━━━━━━━━━━━━━━━━━━━━━━━━━━━━━━━━━━━━━━━━━━━━━━━━━━━━━━━━━━━━━━━━━━━━━━━━━━━━━━━━━━━━━━━━━━━━━━━━━━━━━━━━━━━━━━━━━━━━━━━━━━━━━━━━━━┓\nChanged document                                                                                                                                               ┃\nleft/examples/deployment.flux-engine-steam.yaml:0                              right/examples/deployment.flux-engine-steam.yaml:0                              ┃\n━━━━━━━━━━━━━━━━━━━━━━━━━━━━━━━━━━━━━━━━━━━━━━━━━━━━━━━━━━━━━━━━━━━━━━━━━━━━━━━━━━━━━━━━━━━━━━━━━━━━━━━━━━━━━━━━━━━━━━━━━━━━━━━━━━━━━━━━━━━━━━━━━━━━━━━━━━━━━━━┛"
    );
}

#[test]
fn the_header_lists_each_field() {
    let l = ("a.yaml".to_string(), 1usize);
    let r = ("b.yaml".to_string(), 2usize);
    let fields = Fields::new().with("kind", Some("Pod".to_string())).with("name", Some("web".to_string()));
    let lines = changed_header(&l, &r, fields, 41, &Theme::markers());
    assert_eq!(lines.len(), 6);
    assert_eq!(lines[0], format!("[yellow]{}┓[/]", "━".repeat(40)));
    assert_eq!(lines[1], format!("[yellow][bold]Changed document[/]{} ┃[/]", " ".repeat(20)));
    assert_eq!(lines[2], format!("[yellow]a.yaml:1{}b.yaml:2{} ┃[/]", " ".repeat(12), " ".repeat(12)));
    assert_eq!(lines[3], format!("[yellow][dim]kind -> Pod{}[/]{} ┃[/]", " ".repeat(9), " ".repeat(20)));
    assert_eq!(lines[4], format!("[yellow][dim]name -> web{}[/]{} ┃[/]", " ".repeat(9), " ".repeat(20)));
    assert_eq!(lines[5], format!("[yellow]{}┛[/]", "━".repeat(40)));
}
