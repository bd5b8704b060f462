use jjpwrgem::cli::{Conflict, LineEndingArg, ParserArg, format_request, indent, strip_front_matter};
use jjpwrgem::format::{FormatRequest, JsonMode, JsonlinesOptions, LineEnding, PrettifyOptions};
use jjpwrgem::ui::{BasicErrorMessage, Color, Style};

#[test]
fn jsonlines_refuses_uglify_and_width() {
    assert_eq!(
        format_request(true, None, LineEndingArg::Lf, ParserArg::Jsonlines),
        Err(Conflict::JsonlinesWithUglify)
    );
    assert_eq!(
        format_request(false, Some(100), LineEndingArg::Lf, ParserArg::Jsonlines),
        Err(Conflict::JsonlinesWithPreferredWidth)
    );
    assert!(Conflict::JsonlinesWithUglify.message().starts_with(
        "error: the argument '--parser jsonlines' cannot be used with '--uglify'"
    ));
}

#[test]
fn format_arguments_make_requests() {
    assert_eq!(
        format_request(false, None, LineEndingArg::CrLf, ParserArg::Jsonlines),
        Ok(FormatRequest::Jsonlines(JsonlinesOptions { line_ending: LineEnding::CrLf }))
    );
    assert_eq!(
        format_request(true, None, LineEndingArg::Lf, ParserArg::Json),
        Ok(FormatRequest::Json(JsonMode::Uglify))
    );
    assert_eq!(
        format_request(false, None, LineEndingArg::default(), ParserArg::default()),
        Ok(FormatRequest::Json(JsonMode::Prettify(PrettifyOptions {
            preferred_width: 80,
            line_ending: LineEnding::Lf
        })))
    );
    assert_eq!(
        format_request(false, Some(7), LineEndingArg::Lf, ParserArg::Json),
        Ok(FormatRequest::Json(JsonMode::Prettify(PrettifyOptions {
            preferred_width: 7,
            line_ending: LineEnding::Lf
        })))
    );
    assert_eq!(LineEndingArg::CrLf.into_parse(), LineEnding::CrLf);
}

#[test]
fn front_matter_is_stripped() {
    assert_eq!(strip_front_matter("---\nsource: x\n---\n$ echo\nout"), "$ echo\nout");
    assert_eq!(strip_front_matter("a\n---\nb\n---\nc"), "b\n---\nc");
}

#[test]
fn lines_are_indented() {
    assert_eq!(indent("a\nb"), "\ta\n\tb");
    assert_eq!(indent("a\r\nb\n"), "\ta\n\tb");
    assert_eq!(indent(""), "");
    assert_eq!(indent("\n"), "\t");
    assert_eq!(indent("a\n\n"), "\ta\n\t");
    assert_eq!(indent("a\rb"), "\ta\rb");
    assert_eq!(indent("a\r"), "\ta\r");
    assert_eq!(indent("x\r\r\n"), "\tx\r");
}

#[test]
fn messages_are_rendered() {
    let m = BasicErrorMessage {
        error: "expected non empty input from stdin".to_owned(),
        help: Some("pipe data to stdin".to_owned()),
    };
    let out = Style::Pretty(Color::Plain).render_message(m.clone());
    assert!(out.contains("error"));
    assert!(out.contains("expected non empty input from stdin"));
    assert!(out.contains("help"));
    assert!(out.contains("pipe data to stdin"));
    assert_ne!(out, m.error);
    let styled = Style::Pretty(Color::Ansi).render_message(m);
    assert!(styled.contains("expected non empty input from stdin"));
}

#[test]
fn render_diagnostic_shows_the_text_marked_and_patched() {
    let err = jjpwrgem::validate_str("{\"coolKey\"}").unwrap_err();
    let diag = jjpwrgem::diagnostics::Diagnostic::new(&err);
    assert!(jjpwrgem::ui::can_render(&diag));
    let shown = Style::Pretty(Color::Plain).render_diagnostic(diag);
    let expected = "error: expected colon after key, found `}`
 --> stdin:1:11
  |
1 | {\"coolKey\"}
  |  ---------^
  |  |
  |  expected due to `\"coolKey\"`
  |
help: insert colon and placeholder value
  |
1 | {\"coolKey\": \"🐟🛹\"}
  |           ++++++++";
    assert_eq!(shown, expected);
}

#[test]
fn render_error_shows_a_parse_error_with_its_text() {
    let err = jjpwrgem::validate_str("{\"coolKey\"}").unwrap_err();
    let diag = jjpwrgem::diagnostics::Diagnostic::new(&err);
    let style = Style::Pretty(Color::Plain);
    assert_eq!(style.render_error(&err), style.render_diagnostic(diag));
    assert!(style.render_error(&err).starts_with("error: expected colon after key, found `}`\n --> stdin:1:11"));
}

#[test]
fn preferred_line_endings() {
    assert_eq!(LineEndingArg::Cr.into_parse(), LineEnding::Cr);
    let request = format_request(false, Some(0), LineEndingArg::Cr, ParserArg::Json).unwrap();
    assert_eq!(jjpwrgem::format_str("[null]", &request).unwrap(), "[\r  null\r]");
}
