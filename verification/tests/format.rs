use jjpwrgem::ast::Document;
use jjpwrgem::format::prettify::{
    FormatOptions, format_str, format_value, prettify_str, prettify_value, prettify_value_into,
    should_expand, try_get_value_len,
};
use jjpwrgem::format::uglify::{uglify_document, uglify_str};
use jjpwrgem::format::{FormatRequest, JsonMode, JsonlinesOptions, LineEnding, PrettifyOptions};

fn pretty(json: &str, width: usize) -> String {
    prettify_str(json, width, LineEnding::Lf).unwrap()
}

#[test]
fn small_object_fits_on_one_line() {
    assert_eq!(pretty(r#"{"a":1}"#, 80), r#"{ "a": 1 }"#);
}

#[test]
fn small_array_fits_on_one_line() {
    assert_eq!(pretty("[1,2,3]", 80), "[1, 2, 3]");
    assert_eq!(pretty("[1,2,3]", 9), "[1, 2, 3]");
}

#[test]
fn numbers_fill_lines() {
    assert_eq!(pretty("[1,2,3]", 8), "[\n  1, 2,\n  3\n]");
    assert_eq!(pretty("[1,2,3]", 5), "[\n  1,\n  2,\n  3\n]");
}

#[test]
fn nested_values_expand_one_per_line() {
    assert_eq!(
        pretty(r#"{"a":[true,false]}"#, 10),
        "{\n  \"a\": [\n    true,\n    false\n  ]\n}"
    );
}

#[test]
fn empty_containers_stay_closed() {
    assert_eq!(pretty("{}", 0), "{}");
    assert_eq!(pretty("[]", 0), "[]");
    assert_eq!(pretty(r#"{"a":{},"b":[]}"#, 80), r#"{ "a": {}, "b": [] }"#);
}

#[test]
fn scalars_keep_their_text() {
    assert_eq!(pretty("-0", 80), "-0");
    assert_eq!(pretty("1.50E-07", 80), "1.50e-07");
    assert_eq!(pretty(r#""a\nb\u00e9""#, 80), r#""a\nb\u00e9""#);
    assert_eq!(pretty("null", 80), "null");
    assert_eq!(pretty(" true ", 80), "true");
}

#[test]
fn exponent_is_normalized() {
    assert_eq!(pretty("12e+12", 80), "12e12");
    assert_eq!(pretty("12e-12", 80), "12e-12");
    assert_eq!(pretty("1e-0000", 80), "1");
    assert_eq!(pretty("1e+0015", 80), "1e0015");
    assert_eq!(pretty("[1E00015, 1e-000015]", 80), "[1e00015, 1e-000015]");
    assert_eq!(uglify_str("1.50E+07").unwrap(), "1.50e07");
}

#[test]
fn crlf_line_endings() {
    assert_eq!(
        prettify_str("[true,false]", 5, LineEnding::CrLf).unwrap(),
        "[\r\n  true,\r\n  false\r\n]"
    );
    assert_eq!(
        prettify_str("[true,false]", 5, LineEnding::Cr).unwrap(),
        "[\r  true,\r  false\r]"
    );
}

#[test]
fn non_ascii_key_counts_chars_inline() {
    assert_eq!(pretty(r#"{"é":1}"#, 80), r#"{ "é": 1 }"#);
}

#[test]
fn prettify_reports_parse_errors() {
    let err = prettify_str("{", 80, LineEnding::Lf).unwrap_err();
    assert_eq!(err.range().start, 0);
    assert!(prettify_str("[1,]", 80, LineEnding::Lf).is_err());
}

#[test]
fn custom_options_without_delimiter_and_tab_indent() {
    let opts = FormatOptions::new(None, Some(('\t', 1)), LineEnding::Lf);
    assert_eq!(
        format_str(r#"{"a":[1,2]}"#, opts, 3).unwrap(),
        "{\n\t\"a\":[\n\t\t1,\n\t\t2\n\t]\n}"
    );
    let compact = FormatOptions::new(None, None, LineEnding::Lf);
    assert_eq!(format_str(r#"{ "a" : [ 1 , 2 ] }"#, compact, 80).unwrap(), r#"{"a":[1,2]}"#);
}

#[test]
fn value_formatting_and_appending() {
    let json = r#"{"k":[null,"v"]}"#;
    let doc = Document::parse(json).unwrap();
    assert_eq!(prettify_value(json, doc.root(), 80, LineEnding::Lf), r#"{ "k": [null, "v"] }"#);
    let opts = FormatOptions::prettify(LineEnding::Lf);
    assert_eq!(format_value(json, doc.root(), &opts, 80), r#"{ "k": [null, "v"] }"#);
    let mut buf = String::from("x = ");
    prettify_value_into(&mut buf, json, doc.root(), 80, LineEnding::Lf);
    assert_eq!(buf, r#"x = { "k": [null, "v"] }"#);
    // the text already in the buffer takes up width on the first line
    let mut narrow = String::from("0123456789012345");
    prettify_value_into(&mut narrow, json, doc.root(), 20, LineEnding::Lf);
    assert_eq!(narrow, "0123456789012345{\n  \"k\": [null, \"v\"]\n}");
}

#[test]
fn inline_lengths() {
    let json = r#"{"ab":[1,"é"]}"#;
    let doc = Document::parse(json).unwrap();
    // braces and two delimiters, "ab", colon and delimiter, [1, "é"]: 4 + 4 + 2 + 8
    assert_eq!(try_get_value_len(json, doc.root(), 100, 1), Some(18));
    assert_eq!(try_get_value_len(json, doc.root(), 18, 1), Some(18));
    assert_eq!(try_get_value_len(json, doc.root(), 17, 1), None);
    assert_eq!(try_get_value_len(json, doc.root(), 100, 0), Some(14));
    assert!(should_expand(json, doc.root(), 17, 1));
    assert!(!should_expand(json, doc.root(), 18, 1));
}

#[test]
fn uglify_removes_insignificant_whitespace() {
    assert_eq!(uglify_str(r#"{ "a" : [ 1 , 2e5 ] , "b" : null }"#).unwrap(), r#"{"a":[1,2e5],"b":null}"#);
    assert!(uglify_str("[1 2]").is_err());
    let doc = Document::parse(" [ true , { } ] ").unwrap();
    assert_eq!(uglify_document(&doc), "[true,{}]");
}

#[test]
fn uglify_of_prettified_is_uglify() {
    for json in [r#"{"a":[1,2,{"b":null}],"c":"d"}"#, "[1e5, -2.5, [], {}]", r#""s""#] {
        for width in [0, 5, 20, 80] {
            let pretty = pretty(json, width);
            assert_eq!(uglify_str(&pretty).unwrap(), uglify_str(json).unwrap());
        }
    }
}

#[test]
fn format_requests() {
    let pretty_request = FormatRequest::Json(JsonMode::Prettify(PrettifyOptions::new(None, LineEnding::Lf)));
    assert_eq!(jjpwrgem::format_str(r#"{"a":1}"#, &pretty_request).unwrap(), r#"{ "a": 1 }"#);
    let narrow = FormatRequest::Json(JsonMode::Prettify(PrettifyOptions::new(Some(5), LineEnding::Lf)));
    assert_eq!(jjpwrgem::format_str("[1,2,3]", &narrow).unwrap(), "[\n  1,\n  2,\n  3\n]");
    let ugly = FormatRequest::Json(JsonMode::Uglify);
    assert_eq!(jjpwrgem::format_str("[ 1 ]", &ugly).unwrap(), "[1]");
    let lines = FormatRequest::Jsonlines(JsonlinesOptions { line_ending: LineEnding::CrLf });
    assert_eq!(jjpwrgem::format_str("{\"a\": 1}\n[ 1 ]\n", &lines).unwrap(), "{\"a\":1}\r\n[1]");
    assert!(jjpwrgem::format_str("{\"a\": 1}\n[ 1 \n", &lines).is_err());
    assert_eq!(PrettifyOptions::new(None, LineEnding::Lf).preferred_width, 80);
}

#[test]
fn fitting_ascii_values_stay_on_one_line() {
    let json = r#"{"a":[1,{"b":null}],"c":"d"}"#;
    let one_line = r#"{ "a": [1, { "b": null }], "c": "d" }"#;
    assert_eq!(pretty(json, one_line.len()), one_line);
    assert_ne!(pretty(json, one_line.len() - 1), one_line);
}

#[test]
fn columns_count_bytes_while_lengths_count_chars() {
    // the value measures 24 chars, but its string takes 3 more bytes on the line
    assert_eq!(
        pretty(r#"{"a":"ééé","b":[1]}"#, 24),
        "{ \"a\": \"ééé\", \"b\": [\n    1\n  ] }"
    );
    assert_eq!(pretty(r#"{"a":"eee","b":[1]}"#, 24), r#"{ "a": "eee", "b": [1] }"#);
}
