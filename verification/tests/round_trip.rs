use okf::document::Document;
use okf::yaml::Value;

fn text_of(doc: &Document, key: &str) -> String {
    match doc.frontmatter.get(key) {
        Some(Value::Text(s)) => s.clone(),
        other => panic!("expected a string for {key}, got {other:?}"),
    }
}

#[test]
fn strings_that_read_as_other_things_are_quoted_and_read_back() {
    let text = "---\na: \".inf\"\nb: '+.5'\nc: 'x[y]'\nd: \"say \\\"hi\\\"\"\ne: \"a: b\"\nf: \"true\"\n---\nbody\n";
    let doc = Document::parse(text).unwrap();
    let out = doc.serialize();
    let again = Document::parse(&out).unwrap();
    assert_eq!(text_of(&again, "a"), ".inf");
    assert_eq!(text_of(&again, "b"), "+.5");
    assert_eq!(text_of(&again, "c"), "x[y]");
    assert_eq!(text_of(&again, "d"), "say \"hi\"");
    assert_eq!(text_of(&again, "e"), "a: b");
    assert_eq!(text_of(&again, "f"), "true");
    assert_eq!(again.body, "body\n");
    assert_eq!(again.serialize(), out);
}

#[test]
fn a_string_that_reads_as_a_float_is_written_in_quotes() {
    let doc = Document::parse("---\nb: '+.5'\nc: x[y]\n---\n").unwrap();
    assert_eq!(doc.frontmatter.to_yaml(), "b: \"+.5\"\nc: \"x[y]\"\n");
}

#[test]
fn nested_frontmatter_reads_back_unchanged() {
    let text = "---\nid: 7\nratio: 1.5\nflag: false\nnothing: null\nempty: []\nnone: {}\n\"quoted key\": v\nsources:\n  - id: s1\n    tags:\n      - x\n      - y\n  - plain\n  -\n    - deep\n    - 2\ngenerated:\n  by: agent:x\n  at: 2024-01-02\n---\n# Title\n";
    let doc = Document::parse(text).unwrap();
    let out = doc.serialize();
    let again = Document::parse(&out).unwrap();
    assert_eq!(again.serialize(), out);
    assert_eq!(again.body, doc.body);
    assert_eq!(again.frontmatter.to_yaml(), doc.frontmatter.to_yaml());
    match again.frontmatter.get("ratio") {
        Some(Value::Float(s)) => assert_eq!(s, "1.5"),
        other => panic!("expected a float, got {other:?}"),
    }
    match again.frontmatter.get("id") {
        Some(Value::Int(7)) => {}
        other => panic!("expected 7, got {other:?}"),
    }
}

#[test]
fn a_body_with_fence_lines_survives_writing() {
    let doc = Document::parse("---\ntitle: T\n---\n---\nmore\n---\n").unwrap();
    assert_eq!(doc.body, "---\nmore\n---\n");
    let again = Document::parse(&doc.serialize()).unwrap();
    assert_eq!(again.body, doc.body);
    assert_eq!(text_of(&again, "title"), "T");
}
