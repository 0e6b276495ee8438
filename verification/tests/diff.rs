use everdiff::diff::{diff, ArrayOrdering, Context, Difference, Item};
use everdiff::path::Segment;
use everdiff::source::read_doc;
use everdiff::yaml::{Node, YamlData};

fn doc(text: &str) -> Node {
    read_doc(text, "").unwrap().remove(0).yaml
}

#[test]
fn simple_values_changes() {
    let left = doc("foo:\n  bar: 1\n");
    let right = doc("foo:\n  bar: 2\n");
    let differences = diff(Context::new(), &left, &right);
    assert_eq!(differences.len(), 1);
    match &differences[0] {
        Difference::Changed { path, left, right } => {
            assert_eq!(path.jq_like(), ".foo.bar");
            assert!(matches!(left.data, YamlData::Integer(1)));
            assert!(matches!(right.data, YamlData::Integer(2)));
        }
        other => panic!("unexpected {other:?}"),
    }
}

#[test]
fn added_or_changed_element_in_array() {
    let left = doc("foo:\n  - a\n  - b\n  - c\n");
    let right = doc("foo:\n  - x\n  - b\n  - c\n  - d\n");
    let differences = diff(Context::new(), &left, &right);
    assert_eq!(differences.len(), 2);
    match &differences[0] {
        Difference::Changed { path, left, right } => {
            assert_eq!(path.jq_like(), ".foo[0]");
            assert!(matches!(&left.data, YamlData::String(s) if s == "a"));
            assert!(matches!(&right.data, YamlData::String(s) if s == "x"));
        }
        other => panic!("unexpected {other:?}"),
    }
    match &differences[1] {
        Difference::Added { path, value } => {
            assert_eq!(path.jq_like(), ".foo[3]");
            assert!(matches!(&value.value().data, YamlData::String(s) if s == "d"));
        }
        other => panic!("unexpected {other:?}"),
    }
}

#[test]
fn removed_element_in_vector() {
    let left = doc("foo:\n  - a\n  - b\n  - c\n");
    let right = doc("foo:\n  - a\n  - b\n");
    let differences = diff(Context::new(), &left, &right);
    assert_eq!(differences.len(), 1);
    match &differences[0] {
        Difference::Removed { path, value } => {
            assert_eq!(path.jq_like(), ".foo[2]");
            assert!(matches!(&value.value().data, YamlData::String(s) if s == "c"));
        }
        other => panic!("unexpected {other:?}"),
    }
}

#[test]
fn type_change() {
    let left = doc("foo:\n  bar: \"12\"\n");
    let right = doc("foo:\n  bar: false\n");
    let differences = diff(Context::new(), &left, &right);
    assert_eq!(differences.len(), 1);
    match &differences[0] {
        Difference::Changed { path, left, right } => {
            assert_eq!(path.jq_like(), ".foo.bar");
            assert!(matches!(&left.data, YamlData::String(s) if s == "12"));
            assert!(matches!(right.data, YamlData::Boolean(false)));
        }
        other => panic!("unexpected {other:?}"),
    }
}

#[test]
fn netpol_example() {
    let left = doc(&[
        "egress:\n",
        "  - ports:\n",
        "    - port: 80\n",
        "      protocol: TCP\n",
        "    to:\n",
        "    - ipBlock:\n",
        "        cidr: 169.254.169.254/32\n",
    ].concat());
    let right = doc(&[
        "egress:\n",
        "  - to:\n",
        "    - ipBlock:\n",
        "        cidr: 169.254.169.254/32\n",
        "    ports:\n",
        "    - port: 80\n",
    ].concat());
    let differences = diff(Context::new(), &left, &right);
    assert_eq!(differences.len(), 1);
    match &differences[0] {
        Difference::Removed { path, value } => {
            assert_eq!(path.jq_like(), ".egress[0].ports[0].protocol");
            assert!(matches!(&value.value().data, YamlData::String(s) if s == "TCP"));
        }
        other => panic!("unexpected {other:?}"),
    }
}

#[test]
fn detect_when_some_elements_have_been_moved_and_others_have_been_added() {
    let left = doc(&[
        "some_list:\n",
        "  - name: alpha\n",
        "    value:\n",
        "      wheels: 1\n",
        "      doors: 1\n",
        "  - name: bravo\n",
        "    value:\n",
        "      wheels: 2\n",
        "      doors: 2\n",
        "  - name: charlie\n",
        "    value:\n",
        "      wheels: 3\n",
        "      doors: 3\n",
    ].concat());
    let right = doc(&[
        "some_list:\n",
        "  - name: bravo\n",
        "    value:\n",
        "      wheels: 2\n",
        "      doors: 2\n",
        "  - name: lambda\n",
        "    value:\n",
        "      wheels: 9\n",
        "      doors: 9\n",
        "  - name: charlie\n",
        "    value:\n",
        "      wheels: 3\n",
        "      doors: 3\n",
        "  - name: alpha\n",
        "    value:\n",
        "      wheels: 1\n",
        "      doors: 2 # <--- slightly changed!\n",
    ].concat());
    let mut ctx = Context::new();
    ctx.array_ordering = ArrayOrdering::Dynamic;
    let differences = diff(ctx, &left, &right);
    assert_eq!(differences.len(), 3);
    match &differences[0] {
        Difference::Added { path, value } => {
            assert_eq!(path.jq_like(), ".some_list[1]");
            match value {
                Item::ArrayElement { index, value } => {
                    assert_eq!(*index, 1);
                    assert_eq!(value.span.start.line, 6);
                    assert_eq!(value.span.start.col, 4);
                    assert_eq!(value.span.end.line, 10);
                }
                other => panic!("unexpected {other:?}"),
            }
        }
        other => panic!("unexpected {other:?}"),
    }
    match &differences[1] {
        Difference::Moved { original_path, new_path } => {
            assert_eq!(original_path.jq_like(), ".some_list[1]");
            assert_eq!(new_path.jq_like(), ".some_list[0]");
        }
        other => panic!("unexpected {other:?}"),
    }
    match &differences[2] {
        Difference::Changed { path, left, right } => {
            assert_eq!(path.jq_like(), ".some_list[0].value.doors");
            assert!(matches!(left.data, YamlData::Integer(1)));
            assert_eq!(left.span.start.line, 5);
            assert_eq!(left.span.start.col, 13);
            assert!(matches!(right.data, YamlData::Integer(2)));
            assert_eq!(right.span.start.line, 17);
            assert_eq!(right.span.start.col, 13);
        }
        other => panic!("unexpected {other:?}"),
    }
}

#[test]
fn a_document_does_not_differ_from_itself() {
    let text = "a:\n  - 1\n  - x: [1, 2]\n  - 1\nb: !tag value\nc: 1.5\n";
    let d = doc(text);
    assert!(diff(Context::new(), &d, &d).is_empty());
    assert!(diff(Context::with_ordering(ArrayOrdering::Dynamic), &d, &d).is_empty());
}

#[test]
fn keys_of_the_left_come_first_then_added_keys() {
    let left = doc("a: 1\nb: 2\nc: 3\n");
    let right = doc("d: 4\nc: 30\na: 1\n");
    let paths: Vec<String> = diff(Context::new(), &left, &right)
        .iter()
        .map(|d| format!("{}:{}", kind(d), d.path().jq_like()))
        .collect();
    assert_eq!(paths, vec!["removed:.b", "changed:.c", "added:.d"]);
}

fn kind(d: &Difference) -> &'static str {
    match d {
        Difference::Added { .. } => "added",
        Difference::Removed { .. } => "removed",
        Difference::Changed { .. } => "changed",
        Difference::Moved { .. } => "moved",
    }
}

#[test]
fn dynamic_ordering_with_an_empty_left_sequence_reports_each_element_added() {
    let left = doc("a: []\n");
    let right = doc("a: [1, 2]\n");
    let mut ctx = Context::new();
    ctx.array_ordering = ArrayOrdering::Dynamic;
    let dynamic = diff(ctx, &left, &right);
    assert_eq!(dynamic.len(), 2);
    assert_eq!(kind(&dynamic[0]), "added");
    assert_eq!(dynamic[0].path().jq_like(), ".a[0]");
    assert_eq!(dynamic[1].path().jq_like(), ".a[1]");
    let fixed = diff(Context::new(), &left, &right);
    assert_eq!(fixed.len(), 2);
    assert_eq!(kind(&fixed[0]), "added");
}

#[test]
fn dynamic_ordering_reports_removed_before_added() {
    let left = doc("a: [1, 2, 3]\n");
    let right = doc("a: [3, 1]\n");
    let ds = diff(Context::with_ordering(ArrayOrdering::Dynamic), &left, &right);
    let got: Vec<String> = ds.iter().map(|d| format!("{}:{}", kind(d), d.path().jq_like())).collect();
    assert_eq!(got, vec!["removed:.a[2]", "moved:.a[0]", "changed:.a[1]"]);
}

#[test]
fn item_height_counts_from_key_to_end() {
    let d = doc("element:\n  thing: 3\n  goo:\n    dfjsdklf: 1\n    item: glasses\n");
    let ds = diff(Context::new(), &d, &doc("other: 1\n"));
    match &ds[0] {
        Difference::Removed { value, .. } => assert_eq!(value.height(), 5),
        other => panic!("unexpected {other:?}"),
    }
}

#[test]
fn the_default_context_pairs_sequences_by_index() {
    let ctx = Context::default();
    assert_eq!(ctx.path().len(), 0);
    assert_eq!(ctx.array_ordering, ArrayOrdering::Fixed);
}

#[test]
fn differences_below_a_starting_key_keep_that_key_in_their_paths() {
    let left = doc("a: 1\nlist:\n  - x\n  - y\nmap:\n  k: v\n");
    let right = doc("a: 2\nlist:\n  - y\n  - x\n  - z\nnew: true\n");
    let ctx = Context::with_ordering(ArrayOrdering::Dynamic).for_key(Segment::field("spec"));
    let differences = diff(ctx, &left, &right);
    assert!(!differences.is_empty());
    for d in &differences {
        let p = d.path();
        assert!(p.jq_like().starts_with(".spec"), "{}", p.jq_like());
    }
    let fixed = Context::new().for_key(Segment::field("spec"));
    for d in diff(fixed, &left, &right) {
        assert!(!matches!(d, Difference::Moved { .. }));
        assert!(d.path().jq_like().starts_with(".spec"));
    }
}

#[test]
fn floats_are_compared_as_numbers_with_every_nan_alike() {
    let left = doc("a: .nan\nb: -0.0\nc: 1.5\n");
    let right = doc("a: .NaN\nb: 0.0\nc: 2.5\n");
    let differences = diff(Context::new(), &left, &right);
    assert_eq!(differences.len(), 1);
    assert_eq!(differences[0].path().jq_like(), ".c");
}

#[test]
fn swapping_the_sides_swaps_added_and_removed() {
    let left = doc("a: 1\nb: x\nlist:\n  - 1\n  - 2\n");
    let right = doc("c: y\na: 2\nlist:\n  - 1\n");
    let mut forward: Vec<(String, &'static str)> =
        diff(Context::new(), &left, &right).iter().map(|d| (d.path().jq_like(), kind(d))).collect();
    let mut backward: Vec<(String, &'static str)> = diff(Context::new(), &right, &left)
        .iter()
        .map(|d| {
            let k = match kind(d) {
                "added" => "removed",
                "removed" => "added",
                other => other,
            };
            (d.path().jq_like(), k)
        })
        .collect();
    forward.sort();
    backward.sort();
    assert_eq!(forward.len(), 4);
    assert_eq!(forward, backward);
    for d in diff(Context::new(), &right, &left) {
        if let Difference::Changed { left, right, .. } = d {
            assert!(matches!(left.data, YamlData::Integer(2)));
            assert!(matches!(right.data, YamlData::Integer(1)));
        }
    }
}
