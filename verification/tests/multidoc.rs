use everdiff::diff::Difference;
use everdiff::multidoc::{
    by_index, diff, documents, gvk, matching_docs, names, sort_doc_differences, Context, DocDifference, DocKey,
    Fields,
};
use everdiff::source::{read_doc, YamlSource};
use everdiff::yaml::YamlData;

fn docs(raw: &str) -> Vec<YamlSource> {
    read_doc(raw, "/foo/bar/baz.yaml").expect("valid yaml")
}

fn fields(pairs: &[(&str, Option<&str>)]) -> Fields {
    let mut f = Fields::new();
    for (k, v) in pairs {
        f.insert(k, v.map(|s| s.to_string()));
    }
    f
}

#[test]
fn multidoc_two_documents_changed_out_of_order() {
    let left = docs(
        "---\nmetadata:\n  name: bravo\nspec:\n  color: yellow\n...\n---\nmetadata:\n  name: alpha\n  namespace: ns\nspec:\n  thing: 12\n...\n---\nmetadata:\n  name: charlie\nspec:\n  wheels: 6\n...\n",
    );
    let right = docs(
        "---\nmetadata:\n  name: alpha\n  namespace: ns\nspec:\n  thing: 24\n...\n---\nmetadata:\n  name: bravo\nspec:\n  color: blue\n...\n---\nmetadata:\n  name: delta\nspec:\n  size: xl\n...\n",
    );

    let ctx = Context::new_with_doc_identifier(names());
    let differences = diff(&ctx, &left, &right);
    assert_eq!(differences.len(), 4);

    match &differences[0] {
        DocDifference::Changed { key, left_doc_idx, right_doc_idx, differences } => {
            assert!(key.fields.same(&fields(&[("metadata.name", Some("bravo")), ("metadata.namespace", None)])));
            assert_eq!(key.src_file, "/foo/bar/baz.yaml");
            assert_eq!((*left_doc_idx, *right_doc_idx), (0, 1));
            assert_eq!(differences.len(), 1);
            match &differences[0] {
                Difference::Changed { path, left, right } => {
                    assert_eq!(path.jq_like(), ".spec.color");
                    assert!(matches!(&left.data, YamlData::String(s) if s == "yellow"));
                    assert_eq!((left.span.start.index, left.span.start.line, left.span.start.col), (43, 5, 9));
                    assert!(matches!(&right.data, YamlData::String(s) if s == "blue"));
                    assert_eq!((right.span.start.index, right.span.start.line, right.span.start.col), (109, 12, 9));
                }
                other => panic!("unexpected {other:?}"),
            }
        }
        other => panic!("unexpected {other:?}"),
    }
    match &differences[1] {
        DocDifference::Changed { key, left_doc_idx, right_doc_idx, differences } => {
            assert!(key.fields.same(&fields(&[("metadata.name", Some("alpha")), ("metadata.namespace", Some("ns"))])));
            assert_eq!((*left_doc_idx, *right_doc_idx), (1, 0));
            match &differences[0] {
                Difference::Changed { path, left, right } => {
                    assert_eq!(path.jq_like(), ".spec.thing");
                    assert!(matches!(left.data, YamlData::Integer(12)));
                    assert_eq!((left.span.start.index, left.span.start.line), (113, 12));
                    assert!(matches!(right.data, YamlData::Integer(24)));
                    assert_eq!((right.span.start.index, right.span.start.line), (59, 6));
                }
                other => panic!("unexpected {other:?}"),
            }
        }
        other => panic!("unexpected {other:?}"),
    }
    match &differences[2] {
        DocDifference::Missing(m) => {
            assert!(m.key.fields.same(&fields(&[("metadata.name", Some("charlie")), ("metadata.namespace", None)])));
            assert_eq!(m.left, 2);
        }
        other => panic!("unexpected {other:?}"),
    }
    match &differences[3] {
        DocDifference::Addition(a) => {
            assert!(a.key.fields.same(&fields(&[("metadata.name", Some("delta")), ("metadata.namespace", None)])));
            assert_eq!(a.right, 2);
        }
        other => panic!("unexpected {other:?}"),
    }
}

#[test]
fn display_dockey() {
    let key = DocKey::new(
        "/foo/bar/baz.yaml".to_string(),
        fields(&[("api_version", Some("bar")), ("metadata.name", Some("foo"))]),
    );
    assert_eq!(key.text(), "file: /foo/bar/baz.yaml\napi_version → bar\nmetadata.name → foo\n");
}

#[test]
fn display_fields() {
    let f = fields(&[("api_version", Some("bar")), ("metadata.name", Some("foo"))]);
    assert_eq!(f.text(), "api_version -> bar\nmetadata.name -> foo\n");
}

#[test]
fn fields_are_kept_in_key_order_and_replaced() {
    let f = fields(&[("b", Some("1")), ("a", None), ("c", Some("3")), ("a", Some("2"))]);
    assert_eq!(f.text(), "a -> 2\nb -> 1\nc -> 3\n");
    assert!(f.compare(&fields(&[("a", Some("2")), ("b", Some("1"))])) > 0);
    assert!(fields(&[("a", None)]).compare(&fields(&[("a", Some(""))])) < 0);
}

#[test]
fn by_index_pairs_documents_by_position() {
    let left = docs("---\na: 1\n---\nb: 1\n");
    let right = docs("---\na: 2\n---\nb: 1\n---\nc: 1\n");
    let ctx = Context::new_with_doc_identifier(by_index());
    let ds = diff(&ctx, &left, &right);
    assert_eq!(ds.len(), 2);
    assert!(matches!(&ds[0], DocDifference::Changed { left_doc_idx: 0, right_doc_idx: 0, .. }));
    match &ds[1] {
        DocDifference::Addition(a) => {
            assert_eq!(a.right, 2);
            assert_eq!(a.key.fields.text(), "idx -> 2\n");
        }
        other => panic!("unexpected {other:?}"),
    }
    let (_, _, added) = matching_docs(&right, &left, by_index());
    assert!(added.is_empty());
    let (_, missing, _) = matching_docs(&right, &left, by_index());
    assert_eq!(missing.len(), 1);
    assert_eq!(missing[0].key.fields.text(), "idx -> 2\n");
}

#[test]
fn gvk_needs_metadata() {
    let left = docs("---\napiVersion: v1\nkind: Service\nmetadata:\n  name: web\n---\nkind: Thing\n");
    let ctx = Context::new_with_doc_identifier(gvk());
    let (matches, missing, added) = matching_docs(&left, &left, gvk());
    assert_eq!(matches.len(), 1);
    assert!(missing.is_empty() && added.is_empty());
    assert_eq!(
        matches[0].key.fields.text(),
        "api_version -> v1\nkind -> Service\nmetadata.name -> web\n"
    );
    assert!(diff(&ctx, &left, &left).is_empty());
}

#[test]
fn talos_documents_record_what_is_present() {
    let left = docs("---\nversion: v1alpha1\nmachine:\n  type: worker\ncluster:\n  name: c\n");
    let (matches, _, _) = matching_docs(&left, &left, documents());
    assert_eq!(matches[0].key.fields.text(), "cluster -> present\nkind -> ∅\nmachine -> present\nversion -> v1alpha1\n");
}

#[test]
fn differences_are_shown_additions_first() {
    let left = docs("---\nmetadata:\n  name: b\nx: 1\n---\nmetadata:\n  name: a\n");
    let right = docs("---\nmetadata:\n  name: b\nx: 2\n---\nmetadata:\n  name: z\n");
    let ctx = Context::new_with_doc_identifier(names());
    let ds = sort_doc_differences(diff(&ctx, &left, &right));
    let kinds: Vec<&str> = ds
        .iter()
        .map(|d| match d {
            DocDifference::Addition(_) => "addition",
            DocDifference::Missing(_) => "missing",
            DocDifference::Changed { .. } => "changed",
        })
        .collect();
    assert_eq!(kinds, vec!["addition", "missing", "changed"]);
}

#[test]
fn a_key_seen_earlier_on_the_right_pairs_with_its_own_document() {
    let left = docs("---\nmetadata:\n  name: c\nv: 1\n---\nmetadata:\n  name: b\nv: 1\n");
    let right = docs(
        "---\nmetadata:\n  name: a\nv: 1\n---\nmetadata:\n  name: b\nv: 1\n---\nmetadata:\n  name: c\nv: 2\n",
    );
    let (matches, missing, added) = matching_docs(&left, &right, names());
    assert_eq!(matches.len(), 2);
    assert_eq!((matches[0].left, matches[0].right), (0, 2));
    assert_eq!((matches[1].left, matches[1].right), (1, 1));
    assert!(missing.is_empty());
    assert_eq!(added.len(), 1);
    assert_eq!(added[0].right, 0);
}

#[test]
fn keys_compare_by_their_fields_alone() {
    let a = DocKey::new("left.yaml".to_string(), fields(&[("kind", Some("Pod"))]));
    let b = DocKey::new("right.yaml".to_string(), fields(&[("kind", Some("Pod"))]));
    let c = DocKey::new("left.yaml".to_string(), fields(&[("kind", Some("Service"))]));
    assert!(a.same(&b));
    assert_eq!(a.compare(&b), 0);
    assert!(!a.same(&c));
    assert!(a.compare(&c) < 0);
    assert!(c.compare(&a) > 0);
}
