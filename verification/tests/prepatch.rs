use everdiff::prepatch::{document_matches, patch_value, Error, JsonNumber, JsonValue, PatchOp, PrePatch};
use everdiff::source::{read_doc, YamlSource};
use everdiff::yaml::{Node, YamlData};

fn docs(raw: &str) -> Vec<YamlSource> {
    read_doc(raw, "").unwrap()
}

fn text(s: &str) -> JsonValue {
    JsonValue::String(s.to_string())
}

fn object(entries: Vec<(&str, JsonValue)>) -> JsonValue {
    JsonValue::Object(entries.into_iter().map(|(k, v)| (k.to_string(), v)).collect())
}

fn path(tokens: &[&str]) -> Vec<String> {
    tokens.iter().map(|t| t.to_string()).collect()
}

/// The value under `key` of a mapping.
fn get<'a>(n: &'a Node, key: &str) -> Option<&'a Node> {
    match &n.data {
        YamlData::Mapping(es) => es.iter().find(|e| e.key == key).map(|e| &e.value),
        _ => None,
    }
}

fn string_at(n: &Node, keys: &[&str]) -> Option<String> {
    let mut cur = n;
    for k in keys {
        cur = get(cur, k)?;
    }
    match &cur.data {
        YamlData::String(s) => Some(s.clone()),
        _ => None,
    }
}

fn keys_of(n: &Node) -> Vec<String> {
    match &n.data {
        YamlData::Mapping(es) => es.iter().map(|e| e.key.clone()).collect(),
        _ => vec![],
    }
}

#[test]
fn replaces_the_name_of_the_networkpolicy_to_match() {
    let raw_docs = "---\nkind: NetworkPolicy\nmetadata:\n  name:  flux-engine-steam\n---\nkind: NetworkPolicy\nmetadata:\n  name:  the-other-one\n";
    let mut documents = docs(raw_docs);
    let pp = PrePatch {
        name: Some("rename network policy to match chart convention".to_string()),
        document_like: Some(object(vec![
            ("kind", text("NetworkPolicy")),
            ("metadata", object(vec![("name", text("flux-engine-steam"))])),
        ])),
        patches: vec![PatchOp::Replace {
            path: path(&["metadata", "name"]),
            value: patch_value("\"flux\"").unwrap(),
        }],
    };
    assert!(pp.can_apply(&documents));
    let _ = pp.apply_to(&mut documents);
    assert_eq!(documents.len(), 2);
    assert_eq!(string_at(&documents[0].yaml, &["metadata", "name"]).as_deref(), Some("flux"));
    assert_eq!(string_at(&documents[0].yaml, &["kind"]).as_deref(), Some("NetworkPolicy"));
    assert_eq!(string_at(&documents[1].yaml, &["metadata", "name"]).as_deref(), Some("the-other-one"));
}

#[test]
fn adds_the_namespace_to_all_documents() {
    let raw_docs = "---\nkind: NetworkPolicy\nmetadata:\n  name: flux-engine-steam\n---\nkind: Deployment\nmetadata:\n  name: the-other-one\n";
    let mut documents = docs(raw_docs);
    let pp = PrePatch {
        name: Some("Add the namespace everywhere".to_string()),
        document_like: None,
        patches: vec![PatchOp::Add {
            path: path(&["metadata", "namespace"]),
            value: patch_value("\"core\"").unwrap(),
        }],
    };
    assert!(pp.can_apply(&documents));
    pp.apply_to(&mut documents).unwrap();
    for (doc, name) in documents.iter().zip(["flux-engine-steam", "the-other-one"]) {
        let metadata = get(&doc.yaml, "metadata").unwrap();
        assert_eq!(keys_of(metadata), vec!["name".to_string(), "namespace".to_string()]);
        assert_eq!(string_at(&doc.yaml, &["metadata", "name"]).as_deref(), Some(name));
        assert_eq!(string_at(&doc.yaml, &["metadata", "namespace"]).as_deref(), Some("core"));
    }
}

#[test]
fn a_path_that_leads_nowhere_is_an_error_and_stops_the_patch() {
    let mut documents = docs("---\nitems:\n  - a\n---\nitems:\n  - b\n  - c\n");
    let pp = PrePatch {
        name: None,
        document_like: None,
        patches: vec![PatchOp::Replace { path: path(&["items", "1"]), value: patch_value("\"x\"").unwrap() }],
    };
    assert!(pp.can_apply(&documents));
    assert_eq!(pp.apply_to(&mut documents), Err(Error::ValueNotFoundAtPath));
    // the second document is left as it was
    match &get(&documents[1].yaml, "items").unwrap().data {
        YamlData::Sequence(items) => assert!(matches!(&items[1].data, YamlData::String(s) if s == "c")),
        _ => panic!("expected a sequence"),
    }
}

#[test]
fn a_missing_key_would_panic() {
    let documents = docs("---\nkind: Service\n");
    let pp = PrePatch {
        name: None,
        document_like: None,
        patches: vec![PatchOp::Replace { path: path(&["metadata", "name"]), value: patch_value("1").unwrap() }],
    };
    assert!(!pp.can_apply(&documents));
    let other = PrePatch { name: None, document_like: None, patches: vec![PatchOp::Other] };
    assert!(!other.can_apply(&documents));
}

#[test]
fn replacing_an_existing_key_moves_it_last_when_added() {
    let mut documents = docs("---\na: 1\nb: 2\n");
    let pp = PrePatch {
        name: None,
        document_like: None,
        patches: vec![PatchOp::Add { path: path(&["a"]), value: patch_value("3").unwrap() }],
    };
    pp.apply_to(&mut documents).unwrap();
    assert_eq!(keys_of(&documents[0].yaml), vec!["b".to_string(), "a".to_string()]);
    assert!(matches!(get(&documents[0].yaml, "a").unwrap().data, YamlData::Integer(3)));
}

#[test]
fn documents_are_matched_by_their_shape() {
    let doc = read_doc("kind: Pod\nreplicas: 3\nports: [80, 443]\n", "").unwrap().remove(0).yaml;
    let like = object(vec![("kind", text("Pod")), ("replicas", JsonValue::Number(JsonNumber::PosInt(3)))]);
    assert!(document_matches(&like, &doc));
    let unlike = object(vec![("kind", text("Pod")), ("replicas", JsonValue::Number(JsonNumber::PosInt(4)))]);
    assert!(!document_matches(&unlike, &doc));
    let missing = object(vec![("name", text("x"))]);
    assert!(!document_matches(&missing, &doc));
    // arrays compare as far as both reach
    let ports = object(vec![("ports", JsonValue::Array(vec![JsonValue::Number(JsonNumber::PosInt(80))]))]);
    assert!(document_matches(&ports, &doc));
    let too_big = object(vec![("replicas", JsonValue::Number(JsonNumber::PosInt(u64::MAX)))]);
    assert!(!document_matches(&too_big, &doc));
}

#[test]
fn floats_match_as_numbers_and_nan_matches_nothing() {
    let doc = read_doc("zero: -0.0\nhalf: 0.5\nodd: .nan\n", "").unwrap().remove(0).yaml;
    let zero = object(vec![("zero", JsonValue::Number(JsonNumber::Float(0.0f64.to_bits())))]);
    assert!(document_matches(&zero, &doc));
    let half = object(vec![("half", JsonValue::Number(JsonNumber::Float(0.5f64.to_bits())))]);
    assert!(document_matches(&half, &doc));
    let other = object(vec![("half", JsonValue::Number(JsonNumber::Float(0.25f64.to_bits())))]);
    assert!(!document_matches(&other, &doc));
    let nan = object(vec![("odd", JsonValue::Number(JsonNumber::Float(f64::NAN.to_bits())))]);
    assert!(!document_matches(&nan, &doc));
}

#[test]
fn a_token_names_the_key_it_reads_as() {
    // `1` is an integer key: the token "1" finds it
    let mut documents = docs("---\nports:\n  1: a\n");
    let pp = PrePatch {
        name: None,
        document_like: None,
        patches: vec![PatchOp::Replace { path: path(&["ports", "1"]), value: patch_value("\"b\"").unwrap() }],
    };
    assert!(pp.can_apply(&documents));
    pp.apply_to(&mut documents).unwrap();
    let ports = get(&documents[0].yaml, "ports").unwrap();
    match &ports.data {
        YamlData::Mapping(es) => {
            assert_eq!(es.len(), 1);
            assert!(matches!(&es[0].value.data, YamlData::String(s) if s == "b"));
        }
        _ => panic!("expected a mapping"),
    }
    // a quoted key "1" is text: the token "1" does not find it, and the
    // lookup panics in the original, so the patch is refused
    let quoted = docs("---\nports:\n  \"1\": a\n");
    assert!(!pp.can_apply(&quoted));
}

#[test]
fn a_pattern_key_is_read_as_a_scalar_too() {
    let doc = read_doc("1: one\ntrue: yes\n", "").unwrap().remove(0).yaml;
    let like = object(vec![("1", text("one")), ("true", text("yes"))]);
    assert!(document_matches(&like, &doc));
    let quoted = read_doc("\"1\": one\n", "").unwrap().remove(0).yaml;
    assert!(!document_matches(&object(vec![("1", text("one"))]), &quoted));
}
