use core::ops::Range;

use jjpwrgem::ast::Document;
use jjpwrgem::tokens::{Span, TokenStream};
use jjpwrgem::traverse::{Visitor, parse_tokens, visit_document};

#[derive(Debug, PartialEq, Eq)]
enum Event {
    ObjectOpen(Range<usize>),
    ObjectKey(Range<usize>),
    ObjectKeyValDelim,
    ObjectClose(Range<usize>),
    ArrayOpen(Range<usize>),
    ArrayClose(Range<usize>),
    Null(Range<usize>),
    String(Range<usize>),
    Mantissa(Range<usize>),
    Exponent(Range<usize>),
    Boolean(Range<usize>, bool),
    ItemDelim,
}

fn r(s: Span) -> Range<usize> {
    s.start..s.end
}

#[derive(Default)]
struct RecordingVisitor {
    events: Vec<Event>,
}

impl Visitor for RecordingVisitor {
    fn on_object_open(&mut self, range: Span) {
        self.events.push(Event::ObjectOpen(r(range)));
    }
    fn on_object_key(&mut self, range: Span, _key: &str) {
        self.events.push(Event::ObjectKey(r(range)));
    }
    fn on_object_key_val_delim(&mut self) {
        self.events.push(Event::ObjectKeyValDelim);
    }
    fn on_object_close(&mut self, range: Span) {
        self.events.push(Event::ObjectClose(r(range)));
    }
    fn on_array_open(&mut self, range: Span) {
        self.events.push(Event::ArrayOpen(r(range)));
    }
    fn on_array_close(&mut self, range: Span) {
        self.events.push(Event::ArrayClose(r(range)));
    }
    fn on_null(&mut self, range: Span) {
        self.events.push(Event::Null(r(range)));
    }
    fn on_string(&mut self, range: Span, _value: &str) {
        self.events.push(Event::String(r(range)));
    }
    fn on_mantissa(&mut self, range: Span, _mantissa: &str) {
        self.events.push(Event::Mantissa(r(range)));
    }
    fn on_exponent(&mut self, range: Span, _exponent: &str) {
        self.events.push(Event::Exponent(r(range)));
    }
    fn on_boolean(&mut self, range: Span, value: bool) {
        self.events.push(Event::Boolean(r(range), value));
    }
    fn on_item_delim(&mut self) {
        self.events.push(Event::ItemDelim);
    }
}

#[test]
fn visit_document_matches_token_traversal_events() {
    let json = r#"{"a":["b",{"c":1e5}],"d":true}"#;
    let expected = vec![
        Event::ObjectOpen(0..1),
        Event::ObjectKey(2..3),
        Event::ObjectKeyValDelim,
        Event::ArrayOpen(5..6),
        Event::String(7..8),
        Event::ItemDelim,
        Event::ObjectOpen(10..11),
        Event::ObjectKey(12..13),
        Event::ObjectKeyValDelim,
        Event::Mantissa(15..16),
        Event::Exponent(17..18),
        Event::ObjectClose(18..19),
        Event::ArrayClose(19..20),
        Event::ItemDelim,
        Event::ObjectKey(22..23),
        Event::ObjectKeyValDelim,
        Event::Boolean(25..29, true),
        Event::ObjectClose(29..30),
    ];

    let mut from_tokens = RecordingVisitor::default();
    parse_tokens(&mut TokenStream::new(json), json, true, &mut from_tokens).unwrap();

    let doc = Document::parse(json).unwrap();
    let mut from_ast = RecordingVisitor::default();
    visit_document(&doc, &mut from_ast);

    assert_eq!(from_tokens.events, expected);
    assert_eq!(from_ast.events, expected);
    assert_eq!(from_tokens.events, from_ast.events);
}
