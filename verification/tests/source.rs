use everdiff::line::Line;
use everdiff::source::{document_texts, read_doc, ReadError};

#[test]
fn strange_case() {
    let secondary = "---\nperson:\n  name: Steve E. Anderson\n  age: 12\n";
    let secondary = read_doc(secondary, "").unwrap().remove(0);

    assert_eq!(secondary.start, 2);
    assert_eq!(secondary.first_line.get(), Line::unchecked(1).get());

    // the line after `age: 12` counts as there is a newline after the 2!
    assert_eq!(secondary.end, 5);
    assert_eq!(secondary.last_line.get(), Line::unchecked(3).get());
}

#[test]
fn relave_line_numbers() {
    let content: String = [
        "---\n",
        "person:\n",
        "  name: Steve E. Anderson\n",
        "  age: 12\n",
        "---\n",
        "pet:\n",
        "  kind: cat\n",
        "  age: 7\n",
        "  breed: American Shorthair\n",
    ].concat();

    let mut yaml = read_doc(&content, "").unwrap();

    let first = yaml.remove(0);
    let second = yaml.remove(0);

    assert_eq!(first.start, 2);
    assert_eq!(first.first_line.get(), 1);
    assert_eq!(second.first_line.get(), 1);

    assert_eq!(first.last_line.get(), 3);
    assert_eq!(second.last_line.get(), 4);

    assert_eq!(first.relative_line(2).get(), 1);
    assert_eq!(second.relative_line(6).get(), 1);
}

#[test]
fn real_life_relative_numbers() {
    let with_line_numbers: String = [
        "( 0) ---\n",
        "( 1) apiVersion: v1\n",
        "( 2) kind: Service\n",
        "( 3) metadata:\n",
        "( 4)   name: flux-engine-steam\n",
        "( 5)   namespace: classification\n",
        "( 6)   labels:\n",
        "( 7)     helm.sh/chart: flux-engine-steam-2.28.12\n",
        "( 8)     app.kubernetes.io/name: flux-engine-steam\n",
        "( 9)     app: flux-engine-steam\n",
        "(10)     app.kubernetes.io/version: 0.0.27-pre1\n",
        "(11)     app.kubernetes.io/managed-by: batman\n",
        "(12)   annotations:\n",
        "(13)     github.com/repository_url: git@github.com:flux-engine-steam\n",
        "(14)     this_is: new\n",
        "(15) spec:\n",
        "(16)   ports:\n",
        "(17)     - targetPort: 8502\n",
        "(18)       port: 3000\n",
        "(19)       name: https\n",
        "(20)   selector:\n",
        "(21)     app: flux-engine-steam\n",
        "(22) ---\n",
        "(23) foo: bar\n",
        "(24) name: Bob",
    ].concat();
    let content = with_line_numbers
        .lines()
        .map(|line| line.chars().skip("( 0) ".len()).collect::<String>())
        .collect::<Vec<_>>()
        .join("\n");

    let mut sources = read_doc(&content, "").unwrap();

    let first = sources.remove(0);
    let spec = everdiff::node::node_in(
        &first.yaml,
        &everdiff::path::Path::new().push(everdiff::path::Segment::field("spec")),
    )
    .unwrap();
    assert_eq!(spec.span.start.line, 17);

    assert_eq!(first.start, 2);
    assert_eq!(first.end, 23);
    assert_eq!(first.first_line.get(), 1);
    assert_eq!(first.last_line.get(), 21);

    assert_eq!(first.relative_line(14).get(), 13);

    let second = sources.remove(0);

    assert_eq!(second.start, 24);
    assert_eq!(second.end, 26);
    assert_eq!(second.first_line.get(), 1);
    assert_eq!(second.last_line.get(), 2);
}

#[test]
fn document_texts_split_at_separators() {
    assert_eq!(document_texts("---\na: 1\n---\n  b: 2\n"), vec!["a: 1\n", "b: 2\n"]);
    assert_eq!(document_texts(""), Vec::<String>::new());
    assert_eq!(document_texts("a---b"), vec!["a", "b"]);
    assert_eq!(document_texts("------"), Vec::<String>::new());
}

#[test]
fn lines_skip_leading_separators() {
    let docs = read_doc("---\n\nname: x\n\nage: 1\n", "f.yaml").unwrap();
    let doc = &docs[0];
    assert_eq!(doc.lines(), vec!["name: x", "", "age: 1"]);
    assert_eq!(doc.file, "f.yaml");
    assert_eq!(doc.index, 0);
}

#[test]
fn relative_line_before_the_start_is_line_one() {
    let docs = read_doc("a: 1\n---\nb: 2\n", "").unwrap();
    assert_eq!(docs[1].relative_line(1).get(), 1);
    assert_eq!(docs[1].relative_line(docs[1].start + 4).get(), 5);
}

#[test]
fn invalid_yaml_is_refused() {
    match read_doc("a: [1, 2\n", "") {
        Err(ReadError::Yaml(e)) => assert!(e.line >= 1),
        other => panic!("unexpected {other:?}"),
    }
}
