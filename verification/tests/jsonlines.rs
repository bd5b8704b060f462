use jjpwrgem::format::LineEnding;
use jjpwrgem::jsonlines;
use jjpwrgem::jsonlines::parse;
use jjpwrgem::tokens::Span;

fn line_of_error(input: &str) -> usize {
    let err = parse(input).unwrap_err();
    input[..err.range().start].chars().filter(|&c| c == '\n').count() + 1
}

#[test]
fn lines_split_on_newline() {
    assert_eq!(parse(r#"{"a":1}"#).unwrap().len(), 1);
    assert_eq!(parse("{\"a\":1}\n{\"b\":2}").unwrap().len(), 2);
}

#[test]
fn trailing_newline_is_allowed() {
    assert_eq!(parse("{\"a\":1}\n").unwrap().len(), 1);
    assert_eq!(parse("{\"a\":1}\n{\"b\":2}\n").unwrap().len(), 2);
}

#[test]
fn invalid_lines_fail() {
    assert_eq!(line_of_error("\n{\"a\":1}"), 1);
    assert_eq!(line_of_error("{\"a\":1}\n\n{\"b\":2}"), 2);
    assert_eq!(line_of_error("{\"a\":1}\n{bad}"), 2);
}

#[test]
fn format_writes_each_line_compactly() {
    assert_eq!(jsonlines::format("{ \"a\" : 1 }\n[ 1, 2 ]\n", LineEnding::Lf).unwrap(), "{\"a\":1}\n[1,2]");
    assert_eq!(jsonlines::format("1\n2", LineEnding::CrLf).unwrap(), "1\r\n2");
}

#[test]
fn format_reports_the_first_bad_line_in_its_own_text() {
    let err = jsonlines::format("{\"a\":1}\n[1,]\n{", LineEnding::Lf).unwrap_err();
    assert_eq!(err.message(), "expected json value, found `]`");
    assert_eq!(err.range(), Span::new(3, 4));
    assert_eq!(err.source_text(), "[1,]");
}

#[test]
fn parse_reports_errors_in_the_whole_text() {
    let err = parse("{\"a\":1}\n[1,]").unwrap_err();
    assert_eq!(err.range(), Span::new(11, 12));
}
