//! JSON parsing, validation and formatting with precise error reporting,
//! together with a push based UTF-8 decoder that reports where and why
//! decoding failed.
pub mod bytes2chars;
pub mod text;
pub mod error;
pub mod tokens;
pub mod ast;
pub mod traverse;
pub mod check;
pub mod format;
pub mod jsonlines;
pub mod message;
pub mod diagnostics;
pub mod schema;
pub mod lsp;
pub mod cli;
pub mod ui;

pub use check::validate_str;
pub use error::{Error, ErrorKind};

use vstd::prelude::*;
use vstd::string::StringSliceAdditionalSpecFns;

use crate::ast::SpecValue;
use crate::check::parse_whole;
use crate::diagnostics::diagnosable;
use crate::format::{FormatRequest, JsonMode};
use crate::tokens::Span;
use crate::traverse::{Event, PVal, fails, slice_chars, value_events};
use crate::format::prettify::{
    FormatOptions, formatted, fresh, number_text, pretty_options, prettify_str, scalar_chars,
};
use crate::format::uglify::{lemma_render_push, render, uglified, uglify_str};
use crate::jsonlines::{format_lines, line_failure, lines, strip_newline};

verus! {

/// the text `request` asks for of the input with bytes `t`, when `t` can be read
/// as it asks
pub open spec fn formatted_as(t: Seq<u8>, request: FormatRequest) -> Option<Seq<char>> {
    match request {
        FormatRequest::Json(JsonMode::Prettify(o)) => formatted(
            t,
            pretty_options(o.line_ending),
            o.preferred_width as int,
        ),
        FormatRequest::Json(JsonMode::Uglify) => uglified(t),
        FormatRequest::Jsonlines(o) => format_lines(strip_newline(t), lines(strip_newline(t)), o.line_ending),
    }
}

/// `json` written as `request` asks: one JSON value pretty or compact, or
/// JSON lines each compact
pub fn format_str(json: &str, request: &FormatRequest) -> (res: Result<String, Error>)
    ensures
        match formatted_as(json.spec_bytes(), *request) {
            Some(out) => res matches Ok(s) && s@ == out,
            None => res is Err,
        },
        res matches Err(e) ==> diagnosable(e),
        request is Json ==> (parse_whole(json.spec_bytes()) matches PVal::Failed(f, site) ==> res matches Err(
            e,
        ) && fails(e, f, site, json.spec_bytes())),
        request is Jsonlines ==> (line_failure(
            strip_newline(json.spec_bytes()),
            lines(strip_newline(json.spec_bytes())),
        ) matches Some((r, f, site)) ==> res matches Err(e) && fails(
            e,
            f,
            site,
            strip_newline(json.spec_bytes()).subrange(r.start as int, r.end as int),
        )),
{
    match request {
        FormatRequest::Json(mode) => match mode {
            JsonMode::Prettify(opts) => prettify_str(json, opts.preferred_width, opts.line_ending),
            JsonMode::Uglify => uglify_str(json),
        },
        FormatRequest::Jsonlines(opts) => jsonlines::format(json, opts.line_ending),
    }
}

/// Reading a text succeeds or fails alike whatever is asked of it: checking
/// it, writing it compactly and writing it with any layout all succeed exactly
/// when it is one JSON value.
pub proof fn lemma_success_agrees(t: Seq<u8>, o: FormatOptions, w: int)
    ensures
        (parse_whole(t) is Done) == (uglified(t) is Some),
        (parse_whole(t) is Done) == (formatted(t, o, w) is Some),
{
}

/// A text that is one number is written as it was read, compactly or with any
/// layout: its mantissa as it stands, so that its precision and the sign of a
/// zero are kept, then `e` and the exponent where the number has one.
pub proof fn lemma_number_kept(t: Seq<u8>, o: FormatOptions, w: int, m: Span, e: Option<Span>, c: int)
    requires
        parse_whole(t) == PVal::Done(SpecValue::Number(m, e), c),
    ensures
        uglified(t) == Some(number_text(t, m, e)),
        formatted(t, o, w) == Some(number_text(t, m, e)),
{
    let v = SpecValue::Number(m, e);
    let evs = value_events(v, t);
    match e {
        Some(x) => {
            lemma_render_push(seq![Event::Mantissa(m, slice_chars(t, m))], Event::Exponent(x, slice_chars(t, x)));
            assert(evs == seq![Event::Mantissa(m, slice_chars(t, m))].push(Event::Exponent(x, slice_chars(t, x))));
            lemma_render_push(Seq::empty(), Event::Mantissa(m, slice_chars(t, m)));
            assert(seq![Event::Mantissa(m, slice_chars(t, m))] == Seq::<Event>::empty().push(Event::Mantissa(m, slice_chars(t, m))));
            assert(render(evs) =~= number_text(t, m, e));
        },
        None => {
            lemma_render_push(Seq::empty(), Event::Mantissa(m, slice_chars(t, m)));
            assert(evs == Seq::<Event>::empty().push(Event::Mantissa(m, slice_chars(t, m))));
            assert(render(evs) =~= number_text(t, m, e));
        },
    }
    assert(fresh().out + scalar_chars(v, t) =~= number_text(t, m, e));
}

} // verus!
