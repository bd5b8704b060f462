use jjpwrgem::ast::{Document, ObjectEntries, Value};
use jjpwrgem::tokens::Span;

fn range_of(source: &str, needle: &str) -> Span {
    let start = source.find(needle).expect("needle in source");
    Span::new(start, start + needle.len())
}

#[test]
fn empty_object() {
    let doc = Document::parse("{}").unwrap();
    assert_eq!(doc.root(), &Value::Object(Span::new(0, 2), ObjectEntries::new()));
}

#[test]
fn one_key_value_pair() {
    let json = r#"{"hi":"bye"}"#;
    let doc = Document::parse(json).unwrap();
    let mut entries = ObjectEntries::new();
    entries.push(range_of(json, "hi"), Value::String(range_of(json, "bye")));
    assert_eq!(doc.root(), &Value::Object(Span::new(0, json.len()), entries));
}
