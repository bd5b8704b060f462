use jjpwrgem::ast::Document;
use jjpwrgem::diagnostics::{Diagnostic, Source};
use jjpwrgem::tokens::Span;
use jjpwrgem::tokens::lexical::trim_end_whitespace;
use jjpwrgem::{Error, validate_str};

fn error_of(json: &str) -> Error {
    validate_str(json).unwrap_err()
}

#[test]
fn messages_name_what_was_found() {
    assert_eq!(error_of(r#"{"a": }"#).message(), "expected json value, found `}`");
    assert_eq!(error_of(r#"{"a": 1,}"#).message(), "expected key, found `}`");
    assert_eq!(error_of("").message(), "expected json value, found no significant characters");
    assert_eq!(error_of("[1] 2").message(), "unexpected token `2` after json finished");
}

#[test]
fn error_ranges() {
    assert_eq!(error_of(r#"{"a": }"#).range(), Span::new(6, 7));
    assert_eq!(error_of("[1] 2").range(), Span::new(4, 5));
}

#[test]
fn trailing_comma_gets_a_patch() {
    let err = error_of(r#"{"a": 1,}"#);
    assert!(err.can_diagnose());
    let diag = Diagnostic::new(&err);
    assert_eq!(diag.message, "expected key, found `}`");
    assert_eq!(diag.range, Some(Span::new(8, 9)));
    assert_eq!(diag.patches.len(), 1);
    assert_eq!(diag.patches[0].message, "consider removing the trailing comma");
    assert_eq!(diag.patches[0].span, Span::new(7, 8));
    assert_eq!(diag.patches[0].replacement, "");
    assert_eq!(diag.context[0].message, "expected due to `,`");
    assert!(matches!(diag.source, Source::Stdin(_)));
}

#[test]
fn trailing_comma_in_array_gets_a_patch() {
    let err = error_of("[1,]");
    let diag = Diagnostic::new(&err);
    assert_eq!(diag.patches[0].message, "consider removing the trailing comma");
    assert_eq!(diag.patches[0].span, Span::new(2, 3));
}

#[test]
fn byte_order_mark_is_refused() {
    assert!(validate_str("\u{feff}{}").is_err());
    assert!(Document::parse("\u{feff}[]").is_err());
}

#[test]
fn nesting_is_not_limited() {
    let arrays = "[".repeat(300) + &"]".repeat(300);
    assert!(validate_str(&arrays).is_ok());
    let objects = "{\"a\":".repeat(200) + "1" + &"}".repeat(200);
    assert!(validate_str(&objects).is_ok());
    assert!(Document::parse(&objects).is_ok());
}

#[test]
fn duplicate_keys_keep_the_last() {
    let json = r#"{"a":1,"b":2,"a":3}"#;
    let doc = Document::parse(json).unwrap();
    let jjpwrgem::ast::Value::Object(_, entries) = doc.root() else { panic!("object expected") };
    let v = doc.get_object_value(entries, "a").unwrap();
    assert_eq!(doc.slice(v.range()), "3");
    assert!(doc.get_object_value(entries, "c").is_none());
}

#[test]
fn whitespace_is_trimmed_at_the_end() {
    assert_eq!(trim_end_whitespace("{} \n\t\r "), "{}");
    assert_eq!(trim_end_whitespace("é  "), "é");
    assert_eq!(trim_end_whitespace("   "), "");
}

#[test]
fn invalid_encoding_errors() {
    let bytes = b"{\"a\": \"\xff\"}";
    let err = Error::from_utf8_error_slice(7, bytes);
    assert_eq!(err.range(), Span::new(7, 10));
    assert_eq!(err.source_name(), "stdin");
    assert!(err.message().contains("0xFF") || err.message().contains("0xff"));
}

#[test]
fn each_parse_error_kind_has_its_message() {
    assert_eq!(error_of(r#"{"a" 1}"#).message(), "expected colon after key, found `1`");
    assert_eq!(error_of(r#"{"a": 1 "b": 2}"#).message(), "expected comma or closed curly brace, found `\"b\"`");
    assert_eq!(error_of("{1}").message(), "expected entry or closed delimiter `}`, found `1`");
    assert_eq!(error_of("[1 2]").message(), "expected entry or closed delimiter `]`, found `2`");
    assert_eq!(error_of("]").message(), "expected json value, found `]`");
    assert_eq!(error_of("[1,").message(), "expected json value, found no significant characters");
    assert_eq!(error_of("[true] false").message(), "unexpected token `false` after json finished");
    assert_eq!(error_of("\u{feff}{}").range(), Span::new(0, 3));
}

#[test]
fn each_parse_error_kind_has_its_range() {
    assert_eq!(error_of(r#"{"a" 1}"#).range(), Span::new(5, 6));
    assert_eq!(error_of(r#"{"a": 1 "b": 2}"#).range(), Span::new(8, 11));
    assert_eq!(error_of("{1}").range(), Span::new(1, 2));
    assert_eq!(error_of("]").range(), Span::new(0, 1));
    assert_eq!(error_of("[1,  ").range(), Span::new(2, 3));
}

#[test]
fn every_parse_error_can_be_diagnosed() {
    let inputs = [
        r#"{"é": 1 2}"#,
        r#"["ü", ]"#,
        r#"{"ñ" 1}"#,
        r#"{"a": 1,}"#,
        "[1",
        "}",
        "\"\\x\"",
        "01",
        "[1] ü",
        "{\"a\": ü}",
    ];
    for json in inputs {
        let err = error_of(json);
        assert!(err.can_diagnose(), "{json}");
        let doc_err = Document::parse(json).err().unwrap();
        assert!(doc_err.can_diagnose(), "{json}");
        let diag = Diagnostic::new(&err);
        assert_eq!(diag.range, Some(err.range()));
    }
}

#[test]
fn missing_colon_is_explained() {
    let err = error_of("{\"coolKey\"}");
    assert_eq!(err.message(), "expected colon after key, found `}`");
    assert_eq!(err.range(), Span::new(10, 11));
    let diag = Diagnostic::new(&err);
    assert_eq!(diag.context.len(), 1);
    assert_eq!(diag.context[0].message, "expected due to `\"coolKey\"`");
    assert_eq!(diag.context[0].span, Span::new(1, 10));
    assert_eq!(diag.patches.len(), 1);
    assert_eq!(diag.patches[0].message, "insert colon and placeholder value");
    assert_eq!(diag.patches[0].span, Span::new(10, 10));
    assert_eq!(diag.patches[0].replacement, ": \"🐟🛹\"");
}

#[test]
fn an_exponent_must_follow_its_number() {
    for json in ["1 e5", "{}e0", "[e0]", "1e0e5", "1e5e0", "e1", "[1, e2]"] {
        assert!(validate_str(json).is_err(), "{json}");
    }
    for json in ["1e0", "1E+5", "-0.5e-0", "[1e2,3]"] {
        assert!(validate_str(json).is_ok(), "{json}");
    }
}

#[test]
fn a_failed_peek_leaves_the_stream_in_place() {
    let mut tokens = jjpwrgem::tokens::TokenStream::new("  x");
    let first = tokens.peek_token().unwrap_err();
    let second = tokens.peek_token().unwrap_err();
    assert_eq!(first.range(), second.range());
    assert_eq!(first.message(), second.message());
}

#[test]
fn invalid_bytes_are_shown_with_replacement_chars() {
    let bytes = b"a\xC3\xC3b";
    let err = Error::from_utf8_error_slice(1, bytes);
    assert_eq!(err.range(), Span::new(1, 4));
    assert_eq!(err.source_text(), "a\u{FFFD}\u{FFFD}b");
    assert_eq!(&err.source_text()[1..4], "\u{FFFD}");
}
