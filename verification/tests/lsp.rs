use jjpwrgem::lsp::{
    Position, PositionEncoding, Range, byte_offset_to_position, checked_position, checked_range, error_report,
    negotiate_encoding, quick_fixes, span_to_range,
};
use jjpwrgem::tokens::Span;

fn pos(line: u32, character: u32) -> Position {
    Position { line, character }
}

#[test]
fn byte_offset_to_position_utf8() {
    for (text, offset, line, character) in [
        ("hello", 0, 0, 0),
        ("hello", 3, 0, 3),
        ("hello\nworld", 6, 1, 0),
        ("hello\nworld", 8, 1, 2),
        ("hi", 100, 0, 2),
        ("hé", 1, 0, 1),
        ("hé", 3, 0, 3),
        ("a😀b", 1, 0, 1),
        ("a😀b", 5, 0, 5),
        ("a😀b", 6, 0, 6),
    ] {
        assert_eq!(byte_offset_to_position(text, offset, PositionEncoding::Utf8), pos(line, character));
    }
}

#[test]
fn byte_offset_to_position_utf16() {
    for (text, offset, line, character) in [
        ("hello", 0, 0, 0),
        ("hello", 3, 0, 3),
        ("hello\nworld", 6, 1, 0),
        ("hello\nworld", 8, 1, 2),
        ("hi", 100, 0, 2),
        ("hé", 1, 0, 1),
        ("hé", 3, 0, 2),
        ("a😀b", 1, 0, 1),
        ("a😀b", 5, 0, 3),
        ("a😀b", 6, 0, 4),
    ] {
        assert_eq!(byte_offset_to_position(text, offset, PositionEncoding::Utf16), pos(line, character));
    }
}

#[test]
fn spans_become_ranges() {
    let text = "{\n  \"é\": x\n}";
    assert_eq!(
        span_to_range(text, Span::new(10, 11), PositionEncoding::Utf16),
        Range { start: pos(1, 7), end: pos(1, 8) }
    );
    assert_eq!(
        span_to_range(text, Span::new(10, 11), PositionEncoding::Utf8),
        Range { start: pos(1, 8), end: pos(1, 9) }
    );
    assert_eq!(PositionEncoding::default(), PositionEncoding::Utf16);
}

#[test]
fn checked_position_counts_like_the_unchecked_one() {
    assert_eq!(checked_position("a😀b\nxé", 8, PositionEncoding::Utf16), Some(pos(1, 1)));
    assert_eq!(checked_position("a😀b", 5, PositionEncoding::Utf16), Some(pos(0, 3)));
    assert_eq!(checked_position("a😀b", 5, PositionEncoding::Utf8), Some(pos(0, 5)));
}

#[test]
fn utf8_is_used_when_the_client_offers_it() {
    let both = vec!["utf-16".to_string(), "utf-8".to_string()];
    let only16 = vec!["utf-16".to_string()];
    assert_eq!(negotiate_encoding(Some(&both)), PositionEncoding::Utf8);
    assert_eq!(negotiate_encoding(Some(&only16)), PositionEncoding::Utf16);
    assert_eq!(negotiate_encoding(Some(&[])), PositionEncoding::Utf16);
    assert_eq!(negotiate_encoding(None), PositionEncoding::Utf16);
}

#[test]
fn invalid_json_produces_an_error_report() {
    let err = jjpwrgem::validate_str(r#"{"a": }"#).unwrap_err();
    let report = error_report(&err, PositionEncoding::Utf16).unwrap();
    assert_eq!(report.error.message, "expected json value, found `}`");
    assert_eq!(report.error.range, Range { start: pos(0, 6), end: pos(0, 7) });
    let related = report.related.unwrap();
    assert_eq!(related.len(), 1);
    assert_eq!(related[0].message, "expected due to `:`");
    assert_eq!(related[0].range, Range { start: pos(0, 4), end: pos(0, 5) });
}

#[test]
fn an_error_with_no_context_has_no_related_places() {
    let err = jjpwrgem::validate_str("[1] 2").unwrap_err();
    let report = error_report(&err, PositionEncoding::Utf16).unwrap();
    assert_eq!(report.related, None);
}

#[test]
fn trailing_comma_produces_a_quick_fix() {
    let err = jjpwrgem::validate_str("{\"é\": 1,}").unwrap_err();
    let fixes = quick_fixes(&err, PositionEncoding::Utf16).unwrap();
    assert_eq!(fixes.len(), 1);
    assert_eq!(fixes[0].title, "consider removing the trailing comma");
    assert_eq!(fixes[0].new_text, "");
    assert_eq!(fixes[0].range, Range { start: pos(0, 7), end: pos(0, 8) });
    let utf8 = quick_fixes(&err, PositionEncoding::Utf8).unwrap();
    assert_eq!(utf8[0].range, Range { start: pos(0, 8), end: pos(0, 9) });
}

#[test]
fn checked_range_refuses_a_place_inside_a_char() {
    assert_eq!(checked_range("é", Span::new(1, 2), PositionEncoding::Utf8), None);
    assert_eq!(
        checked_range("é", Span::new(0, 2), PositionEncoding::Utf8),
        Some(Range { start: pos(0, 0), end: pos(0, 2) })
    );
}
