use everdiff::diff::Item;
use everdiff::node::{node_in_2, sub_mapping};
use everdiff::path::{Path, Segment};
use everdiff::source::read_doc;
use everdiff::yaml::{Node, YamlData};
use saphyr::{Mapping, Scalar, Yaml, YamlEmitter};

fn to_yaml(node: &Node) -> Yaml<'_> {
    match &node.data {
        YamlData::Null => Yaml::Value(Scalar::Null),
        YamlData::Boolean(b) => Yaml::Value(Scalar::Boolean(*b)),
        YamlData::Integer(i) => Yaml::Value(Scalar::Integer(*i)),
        YamlData::Float(bits) => Yaml::Value(Scalar::FloatingPoint(f64::from_bits(*bits).into())),
        YamlData::String(s) => Yaml::Value(Scalar::String(s.as_str().into())),
        YamlData::Sequence(items) => Yaml::Sequence(items.iter().map(to_yaml).collect()),
        YamlData::Mapping(entries) => {
            let map: Mapping = entries
                .iter()
                .map(|e| (Yaml::Value(Scalar::String(e.key.as_str().into())), to_yaml(&e.value)))
                .collect();
            Yaml::Mapping(map)
        }
        other => panic!("no plain YAML value for {other:?}"),
    }
}

#[test]
fn extract_mapping_from_another_mapping() {
    let yaml = read_doc("top:\n  first: thing\n  target:\n    name: Foo\n    value: bar\n  last: true\n", "").unwrap().remove(0).yaml;

    let path = Path::from_unchecked(vec![Segment::field("top"), Segment::field("target")]);
    let outcome = sub_mapping(&yaml, &path).unwrap();

    let mut buf = String::new();
    YamlEmitter::new(&mut buf).dump(&to_yaml(&outcome)).unwrap();

    assert_eq!(buf, "---\ntarget:\n  name: Foo\n  value: bar");
}

#[test]
fn a_path_to_a_sequence_element_gives_no_mapping() {
    let yaml = read_doc("items:\n  - a\n  - b\n", "").unwrap().remove(0).yaml;
    let path = Path::from_unchecked(vec![Segment::field("items"), Segment::index(1)]);
    assert!(sub_mapping(&yaml, &path).is_none());
    let missing = Path::from_unchecked(vec![Segment::field("nothing")]);
    assert!(sub_mapping(&yaml, &missing).is_none());
}

#[test]
fn the_last_key_of_a_path_is_found_with_its_value() {
    let yaml = read_doc("a: 1\nb: x\n", "").unwrap().remove(0).yaml;
    let path = Path::from_unchecked(vec![Segment::field("b")]);
    match node_in_2(&yaml, &path) {
        Some(Item::KV { key, key_span, value }) => {
            assert_eq!(key, "b");
            assert_eq!(key_span.start.line, 2);
            assert!(matches!(value.data, YamlData::String(ref s) if s == "x"));
        }
        _ => panic!("expected a key"),
    }
}

#[test]
fn a_nested_key_takes_its_value_from_the_top_of_the_document() {
    let yaml = read_doc("a:\n  b: 1\nb: 2\n", "").unwrap().remove(0).yaml;
    let path = Path::from_unchecked(vec![Segment::field("a"), Segment::field("b")]);
    match node_in_2(&yaml, &path) {
        Some(Item::KV { key, key_span, value }) => {
            assert_eq!(key, "b");
            assert_eq!(key_span.start.line, 2);
            assert!(matches!(value.data, YamlData::Integer(2)));
        }
        _ => panic!("expected a key"),
    }
}

#[test]
fn the_last_index_of_a_path_is_found_with_its_element() {
    let yaml = read_doc("items:\n  - x\n  - y\n", "").unwrap().remove(0).yaml;
    let path = Path::from_unchecked(vec![Segment::field("items"), Segment::index(1)]);
    match node_in_2(&yaml, &path) {
        Some(Item::ArrayElement { index, value }) => {
            assert_eq!(index, 1);
            assert!(matches!(value.data, YamlData::String(ref s) if s == "y"));
        }
        _ => panic!("expected an element"),
    }
    let past_end = Path::from_unchecked(vec![Segment::field("items"), Segment::index(2)]);
    assert!(node_in_2(&yaml, &past_end).is_none());
    assert!(node_in_2(&yaml, &Path::from_unchecked(vec![])).is_none());
}
