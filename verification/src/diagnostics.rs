//! what is shown of an error: where it is, the places that explain it, and
//! the edits that may mend the text
use vstd::prelude::*;
use vstd::string::StringSliceAdditionalSpecFns;
use vstd::utf8::*;

use crate::error::{Error, ErrorKind, ErrorToken, JsonCharOption, TokenOption};
use crate::message::{char_display, error_token_display, kind_message};
use crate::text::{lemma_str_bytes, placed, push_char, push_str, str_eq, substr};
use crate::tokens::lexical::{JsonChar, spec_escape, is_control_char};
use crate::tokens::{Span, Token, TokenWithContext, sp};
use crate::traverse::slice_chars;

verus! {

/// the text an error was found in
#[derive(Debug, PartialEq, Eq, Clone, Copy)]
pub enum Source<'a> {
    Stdin(&'a str),
    File { source: &'a str, path: &'a str },
}

/// a place that explains an error
#[derive(Debug, PartialEq, Eq, Clone)]
pub struct Context<'a> {
    pub message: String,
    pub span: Span,
    pub source: Source<'a>,
}

/// an edit that may mend the text: `span` replaced by `replacement`
#[derive(Debug, PartialEq, Eq, Clone)]
pub struct Patch<'a> {
    pub message: String,
    pub span: Span,
    pub source: Source<'a>,
    pub replacement: String,
}

/// all that is shown of an error
#[derive(Debug)]
pub struct Diagnostic<'a> {
    pub message: String,
    pub range: Option<Span>,
    pub context: Vec<Context<'a>>,
    pub patches: Vec<Patch<'a>>,
    pub source: Source<'a>,
}

/// `src` is the text of `e`: from stdin, or from the file `e` names
pub open spec fn source_of(src: Source, e: Error) -> bool {
    match src {
        Source::Stdin(s) => s@ == e.spec_source_text() && e.spec_source_name() == "stdin"@,
        Source::File { source, path } => source@ == e.spec_source_text() && path@
            == e.spec_source_name() && e.spec_source_name() != "stdin"@,
    }
}

/// an edit: what it says, what it replaces, and with what
pub type PatchSpec = (Seq<char>, Span, Seq<char>);

/// a place: what it says and where
pub type ContextSpec = (Seq<char>, Span);

pub open spec fn patch_view(p: Patch) -> PatchSpec {
    (p.message@, p.span, p.replacement@)
}

pub open spec fn context_view(c: Context) -> ContextSpec {
    (c.message@, c.span)
}

pub open spec fn at(p: usize) -> Span {
    Span { start: p, end: p }
}

/// the two edits for an exponent with no digits: drop it, or add a digit
pub open spec fn exponent_patches(r: Span) -> Seq<PatchSpec> {
    seq![("remove the exponent"@, r, ""@), ("insert a placeholder digit"@, at(r.end), "5"@)]
}

/// the char found is none, or a structural char
pub open spec fn none_or_structural(c: JsonCharOption) -> bool {
    match c.0 {
        None => true,
        Some(c) => c.0 == '{' || c.0 == '}' || c.0 == '[' || c.0 == ']' || c.0 == ':' || c.0 == ',',
    }
}

/// the edits suggested for an error of kind `k` at `range` of a text of `len` bytes
pub open spec fn patch_specs(k: ErrorKind, range: Span, len: int) -> Seq<PatchSpec> {
    match k {
        ErrorKind::ExpectedKey(ctx, found) => if ctx.token is Comma {
            match found.0 {
                Some(_) => seq![("consider removing the trailing comma"@, ctx.range, ""@)],
                None => seq![
                    (
                        "consider replacing the trailing comma with a closed curly brace"@,
                        ctx.range,
                        "}"@,
                    ),
                ],
            }
        } else {
            Seq::empty()
        },
        ErrorKind::ExpectedValue(ctx, found) => {
            if (ctx matches Some(c) && c.token is Comma) && (found.0 matches Some(t)
                && t.spec_tag() is ClosedSquareBracket) {
                seq![("consider removing the trailing comma"@, ctx.unwrap().range, ""@)]
            } else {
                match found.0 {
                    None => seq![
                        ("insert a placeholder value"@, at(range.end), " \"rust is a must\""@),
                    ],
                    Some(t) => if t.spec_tag() is ClosedCurlyBrace {
                        seq![
                            (
                                "consider adding the missing open curly brace"@,
                                sp(range.end - 1, range.end as int),
                                "{}"@,
                            ),
                        ]
                    } else {
                        Seq::empty()
                    },
                }
            }
        },
        ErrorKind::ExpectedColon(ctx, found) => match found.0 {
            None => seq![
                (
                    "insert colon, placeholder value, and closing curly brace"@,
                    at(ctx.range.end),
                    ": \"garlic bread\" }"@,
                ),
            ],
            Some(t) => if t.spec_tag() is Comma || t.spec_tag() is ClosedCurlyBrace {
                seq![("insert colon and placeholder value"@, at(ctx.range.end), ": \"🐟🛹\""@)]
            } else {
                seq![("insert the missing colon"@, at(ctx.range.end), ": "@)]
            },
        },
        ErrorKind::ExpectedEntryOrClosedDelimiter { expected, found, .. } => match found.0 {
            None => seq![
                (
                    "insert the missing closed delimiter `"@ + char_display(expected) + "`"@,
                    at(range.end),
                    char_display(expected),
                ),
            ],
            Some(_) => Seq::empty(),
        },
        ErrorKind::ExpectedCommaOrClosedCurlyBrace { range: pair, found, .. } => match found.0 {
            Some(t) => if t.spec_tag() is String {
                seq![
                    (
                        "is "@ + t.spec_content() + " a key? consider adding a comma"@,
                        at(pair.end),
                        ","@,
                    ),
                ]
            } else {
                Seq::empty()
            },
            None => seq![("insert the missing closed brace"@, at(pair.end), "}"@)],
        },
        ErrorKind::UnexpectedControlCharacterInString(c) => seq![
            ("replace the control character with its escaped form"@, range, char_display(c)),
        ],
        ErrorKind::TokenAfterEnd(t) => seq![
            (
                "consider removing the trailing content (starting with "@ + error_token_display(t)
                    + ")"@,
                sp(range.start as int, len),
                ""@,
            ),
        ],
        ErrorKind::ExpectedDigitFollowingMinus(r, found) => match found.0 {
            None => seq![("insert placeholder digits after the minus sign"@, at(r.end), "194"@)],
            Some(c) => if c.0 == '.' {
                seq![
                    (
                        "did you mean to add a fraction? consider adding a 0 before the period"@,
                        at(r.end),
                        "0"@,
                    ),
                ]
            } else {
                Seq::empty()
            },
        },
        ErrorKind::UnexpectedLeadingZero { extra, .. } => seq![
            ("remove the leading zeros"@, extra, ""@),
        ],
        ErrorKind::ExpectedDigitAfterDot { maybe_c, number_range, .. } => if maybe_c.0 is None {
            seq![("insert placeholder digit after the decimal point"@, at(number_range.end), "0"@)]
        } else {
            Seq::empty()
        },
        ErrorKind::ExpectedPlusOrMinusOrDigitAfterE { e_range, maybe_c } => if none_or_structural(
            maybe_c,
        ) {
            exponent_patches(e_range)
        } else {
            Seq::empty()
        },
        ErrorKind::ExpectedDigitAfterE { exponent_range, maybe_c } => if none_or_structural(
            maybe_c,
        ) {
            exponent_patches(exponent_range)
        } else {
            Seq::empty()
        },
        ErrorKind::ExpectedQuote { string_range, .. } => seq![
            ("insert the missing closing quote"@, at(string_range.end), "\""@),
        ],
        ErrorKind::ExpectedEscape { maybe_c, slash_range, .. } => match maybe_c.0 {
            Some(c) => if is_control_char(c.0) {
                seq![
                    (
                        "escape the control character"@,
                        sp(slash_range.start as int, range.end as int),
                        spec_escape(c.0),
                    ),
                ]
            } else {
                seq![("remove unnecessary escape slash"@, slash_range, ""@)]
            },
            None => seq![("remove unnecessary escape slash"@, slash_range, ""@)],
        },
        _ => Seq::empty(),
    }
}

/// the ranges that a context cuts out of the text, for an error of kind `k`
pub open spec fn context_cuts(k: ErrorKind) -> Seq<Span> {
    match k {
        ErrorKind::ExpectedKey(ctx, _) => seq![ctx.range],
        ErrorKind::ExpectedColon(ctx, _) => seq![ctx.range],
        ErrorKind::ExpectedEntryOrClosedDelimiter { open_ctx, .. } => seq![open_ctx.range],
        ErrorKind::ExpectedValue(ctx, _) => match ctx {
            Some(c) => seq![c.range],
            None => Seq::empty(),
        },
        ErrorKind::ExpectedOpenBrace { context, .. } => match context {
            Some(c) => seq![c.range],
            None => Seq::empty(),
        },
        ErrorKind::ExpectedCommaOrClosedCurlyBrace { open_ctx, .. } => seq![open_ctx.range],
        _ => Seq::empty(),
    }
}

/// the places that explain an error of kind `k`, in the text with bytes `t`
pub open spec fn context_specs(k: ErrorKind, t: Seq<u8>) -> Seq<ContextSpec> {
    match k {
        ErrorKind::ExpectedKey(ctx, _) => seq![
            ("expected due to `"@ + slice_chars(t, ctx.range) + "`"@, ctx.range),
        ],
        ErrorKind::ExpectedColon(ctx, _) => seq![
            ("expected due to `"@ + slice_chars(t, ctx.range) + "`"@, ctx.range),
        ],
        ErrorKind::ExpectedEntryOrClosedDelimiter { open_ctx, .. } => seq![
            ("expected due to `"@ + slice_chars(t, open_ctx.range) + "`"@, open_ctx.range),
        ],
        ErrorKind::ExpectedValue(ctx, _) => match ctx {
            Some(c) => seq![("expected due to `"@ + slice_chars(t, c.range) + "`"@, c.range)],
            None => Seq::empty(),
        },
        ErrorKind::ExpectedOpenBrace { context, .. } => match context {
            Some(c) => seq![("expected due to `"@ + slice_chars(t, c.range) + "`"@, c.range)],
            None => Seq::empty(),
        },
        ErrorKind::ExpectedCommaOrClosedCurlyBrace { range, open_ctx, .. } => seq![
            ("expected due to the preceding key/value pair"@, range),
            ("object opened here by `"@ + slice_chars(t, open_ctx.range) + "`"@, open_ctx.range),
        ],
        ErrorKind::ExpectedDigitFollowingMinus(range, _) => seq![("minus sign found here"@, range)],
        ErrorKind::UnexpectedLeadingZero { initial, .. } => seq![
            ("first zero found here"@, initial),
        ],
        ErrorKind::ExpectedDigitAfterDot { dot_range, number_range, .. } => seq![
            ("decimal point found here"@, dot_range),
            ("number found here"@, number_range),
        ],
        ErrorKind::ExpectedDigitAfterE { exponent_range, .. } => seq![
            ("exponent found here"@, exponent_range),
        ],
        ErrorKind::ExpectedPlusOrMinusOrDigitAfterE { e_range, .. } => seq![
            ("exponent found here"@, e_range),
        ],
        ErrorKind::ExpectedQuote { open_range, .. } => seq![
            ("opening quote found here"@, open_range),
        ],
        ErrorKind::ExpectedEscape { slash_range, quote_range, .. } => seq![
            ("escape slash found here"@, slash_range),
            ("opening quote found here"@, quote_range),
        ],
        ErrorKind::ExpectedHexDigit { quote_range, slash_range, u_range, .. } => seq![
            ("opening quote found here"@, quote_range),
            ("\\u escape started here"@, sp(slash_range.start as int, u_range.end as int)),
        ],
        _ => Seq::empty(),
    }
}

/// the ranges the contexts of `e` cut out are char boundaries of its text
pub open spec fn cuts_ok(e: Error) -> bool {
    let t = encode_utf8(e.spec_source_text());
    forall|i: int|
        0 <= i < context_cuts(e.spec_kind()).len() ==> {
            let r = #[trigger] context_cuts(e.spec_kind())[i];
            &&& r.start <= r.end <= t.len()
            &&& is_char_boundary(t, r.start as int)
            &&& is_char_boundary(t, r.end as int)
        }
}

/// the places that explain an error of kind `k` in the text with bytes `t`
/// are places of the text
pub open spec fn contexts_placed_at(t: Seq<u8>, k: ErrorKind) -> bool {
    forall|i: int|
        0 <= i < context_specs(k, t).len() ==> placed(t, #[trigger] context_specs(k, t)[i].1)
}

/// `e` is reported at a place of its text, from one char boundary to another
pub open spec fn range_placed(e: Error) -> bool {
    placed(encode_utf8(e.spec_source_text()), e.spec_range())
}

/// the edits suggested for an error of kind `k` at `range` of the text with
/// bytes `t` replace places of the text
pub open spec fn patches_placed_at(t: Seq<u8>, k: ErrorKind, range: Span) -> bool {
    forall|i: int|
        0 <= i < patch_specs(k, range, t.len() as int).len() ==> placed(
            t,
            #[trigger] patch_specs(k, range, t.len() as int)[i].1,
        )
}

/// the edits suggested for `e` replace places of its text
pub open spec fn patches_placed(e: Error) -> bool {
    patches_placed_at(encode_utf8(e.spec_source_text()), e.spec_kind(), e.spec_range())
}

/// `e` can be shown with its text: it is reported at a place of its text,
/// and every place that a [`Diagnostic`] of it marks, cuts out or edits is a
/// place of the text
pub open spec fn diagnosable(e: Error) -> bool {
    &&& range_placed(e)
    &&& cuts_ok(e)
    &&& patches_ok(e)
    &&& patches_placed(e)
    &&& contexts_placed_at(encode_utf8(e.spec_source_text()), e.spec_kind())
}

/// `d` is all that is shown of `e`
pub open spec fn shows(d: Diagnostic, e: Error) -> bool {
    &&& d.message@ == kind_message(e.spec_kind())
    &&& d.range == Some(e.spec_range())
    &&& d.context@.map_values(|c: Context| context_view(c)) == context_specs(
        e.spec_kind(),
        encode_utf8(e.spec_source_text()),
    )
    &&& d.patches@.map_values(|p: Patch| patch_view(p)) == patch_specs(
        e.spec_kind(),
        e.spec_range(),
        encode_utf8(e.spec_source_text()).len() as int,
    )
    &&& source_of(d.source, e)
    &&& forall|i: int| 0 <= i < d.context@.len() ==> source_of((#[trigger] d.context@[i]).source, e)
    &&& forall|i: int| 0 <= i < d.patches@.len() ==> source_of((#[trigger] d.patches@[i]).source, e)
}

/// the edits need no range before the text: an open brace expected before a
/// closing one ends after byte 0
pub open spec fn patches_ok(e: Error) -> bool {
    (e.spec_kind() matches ErrorKind::ExpectedValue(_, found) && (found.0 matches Some(t)
        && t.spec_tag() is ClosedCurlyBrace)) ==> e.spec_range().end >= 1
}

/// the text an error was found in
pub fn error_source(error: &Error) -> (res: Source<'_>)
    ensures
        source_of(res, *error),
{
    if str_eq(error.source_name(), "stdin") {
        Source::Stdin(error.source_text())
    } else {
        Source::File { source: error.source_text(), path: error.source_name() }
    }
}

fn patch<'a>(message: String, span: Span, source: Source<'a>, replacement: &str) -> (res: Patch<'a>)
    ensures
        patch_view(res) == (message@, span, replacement@),
        res.source == source,
{
    Patch { message, span, source, replacement: replacement.to_owned() }
}

fn string_of(s: &str) -> (res: String)
    ensures
        res@ == s@,
{
    s.to_owned()
}

fn exponent_patch_suggestions<'a>(exponent_range: Span, source: Source<'a>) -> (res: Vec<Patch<'a>>)
    ensures
        res@.map_values(|p: Patch| patch_view(p)) == exponent_patches(exponent_range),
        forall|i: int| 0 <= i < res@.len() ==> (#[trigger] res@[i]).source == source,
{
    let mut out = Vec::new();
    out.push(patch(string_of("remove the exponent"), exponent_range, source, ""));
    out.push(
        patch(
            string_of("insert a placeholder digit"),
            Span { start: exponent_range.end, end: exponent_range.end },
            source,
            "5",
        ),
    );
    assert(out@.map_values(|p: Patch| patch_view(p)) =~= exponent_patches(exponent_range));
    out
}

fn one<'a>(p: Patch<'a>) -> (res: Vec<Patch<'a>>)
    ensures
        res@ == seq![p],
{
    let mut out = Vec::new();
    out.push(p);
    assert(out@ =~= seq![p]);
    out
}

/// the edits suggested for `error`
pub fn patches(error: &Error) -> (res: Vec<Patch<'_>>)
    requires
        patches_ok(*error),
    ensures
        res@.map_values(|p: Patch| patch_view(p)) == patch_specs(
            error.spec_kind(),
            error.spec_range(),
            encode_utf8(error.spec_source_text()).len() as int,
        ),
        forall|i: int| 0 <= i < res@.len() ==> source_of((#[trigger] res@[i]).source, *error),
{
    let source = error_source(error);
    let range = error.range();
    let ghost k = error.spec_kind();
    let res: Vec<Patch> = match error.kind() {
        ErrorKind::ExpectedKey(ctx, found) => {
            if ctx.token == Token::Comma {
                match &found.0 {
                    Some(_) => one(
                        patch(string_of("consider removing the trailing comma"), ctx.range, source, ""),
                    ),
                    None => one(
                        patch(
                            string_of(
                                "consider replacing the trailing comma with a closed curly brace",
                            ),
                            ctx.range,
                            source,
                            "}",
                        ),
                    ),
                }
            } else {
                Vec::new()
            }
        },
        ErrorKind::ExpectedValue(ctx, found) => {
            let trailing = match (ctx, &found.0) {
                (Some(c), Some(t)) => c.token == Token::Comma && t.tag() == Token::ClosedSquareBracket,
                _ => false,
            };
            if trailing {
                let c = ctx.unwrap();
                one(patch(string_of("consider removing the trailing comma"), c.range, source, ""))
            } else {
                match &found.0 {
                    None => one(
                        patch(
                            string_of("insert a placeholder value"),
                            Span { start: range.end, end: range.end },
                            source,
                            " \"rust is a must\"",
                        ),
                    ),
                    Some(t) => {
                        if t.tag() == Token::ClosedCurlyBrace {
                            one(
                                patch(
                                    string_of("consider adding the missing open curly brace"),
                                    Span { start: range.end - 1, end: range.end },
                                    source,
                                    "{}",
                                ),
                            )
                        } else {
                            Vec::new()
                        }
                    },
                }
            }
        },
        ErrorKind::ExpectedColon(ctx, found) => {
            let end = Span { start: ctx.range.end, end: ctx.range.end };
            match &found.0 {
                None => one(
                    patch(
                        string_of("insert colon, placeholder value, and closing curly brace"),
                        end,
                        source,
                        ": \"garlic bread\" }",
                    ),
                ),
                Some(t) => {
                    if t.tag() == Token::Comma || t.tag() == Token::ClosedCurlyBrace {
                        one(patch(string_of("insert colon and placeholder value"), end, source, ": \"🐟🛹\""))
                    } else {
                        one(patch(string_of("insert the missing colon"), end, source, ": "))
                    }
                },
            }
        },
        ErrorKind::ExpectedEntryOrClosedDelimiter { expected, found, .. } => {
            match &found.0 {
                None => {
                    let shown = expected.display();
                    let mut message = string_of("insert the missing closed delimiter `");
                    push_str(&mut message, shown.as_str());
                    push_char(&mut message, '`');
                    proof {
                        assert(message@ =~= "insert the missing closed delimiter `"@ + char_display(
                            *expected,
                        ) + "`"@) by {
                            reveal_strlit("`");
                        }
                    }
                    one(patch(message, Span { start: range.end, end: range.end }, source, shown.as_str()))
                },
                Some(_) => Vec::new(),
            }
        },
        ErrorKind::ExpectedCommaOrClosedCurlyBrace { range: pair, found, .. } => {
            match &found.0 {
                Some(t) => {
                    if t.tag() == Token::String {
                        let mut message = string_of("is ");
                        push_str(&mut message, t.content());
                        push_str(&mut message, " a key? consider adding a comma");
                        one(patch(message, Span { start: pair.end, end: pair.end }, source, ","))
                    } else {
                        Vec::new()
                    }
                },
                None => one(
                    patch(
                        string_of("insert the missing closed brace"),
                        Span { start: pair.end, end: pair.end },
                        source,
                        "}",
                    ),
                ),
            }
        },
        ErrorKind::UnexpectedControlCharacterInString(c) => {
            let shown = c.display();
            one(
                patch(
                    string_of("replace the control character with its escaped form"),
                    range,
                    source,
                    shown.as_str(),
                ),
            )
        },
        ErrorKind::TokenAfterEnd(t) => {
            let mut message = string_of("consider removing the trailing content (starting with ");
            let shown = t.display();
            push_str(&mut message, shown.as_str());
            push_str(&mut message, ")");
            let n = error.source_text().len();
            one(patch(message, Span { start: range.start, end: n }, source, ""))
        },
        ErrorKind::ExpectedDigitFollowingMinus(r, found) => {
            match found.0 {
                None => one(
                    patch(
                        string_of("insert placeholder digits after the minus sign"),
                        Span { start: r.end, end: r.end },
                        source,
                        "194",
                    ),
                ),
                Some(c) => {
                    if c.0 == '.' {
                        one(
                            patch(
                                string_of(
                                    "did you mean to add a fraction? consider adding a 0 before the period",
                                ),
                                Span { start: r.end, end: r.end },
                                source,
                                "0",
                            ),
                        )
                    } else {
                        Vec::new()
                    }
                },
            }
        },
        ErrorKind::UnexpectedLeadingZero { extra, .. } => one(
            patch(string_of("remove the leading zeros"), *extra, source, ""),
        ),
        ErrorKind::ExpectedDigitAfterDot { maybe_c, number_range, .. } => {
            if maybe_c.0.is_none() {
                one(
                    patch(
                        string_of("insert placeholder digit after the decimal point"),
                        Span { start: number_range.end, end: number_range.end },
                        source,
                        "0",
                    ),
                )
            } else {
                Vec::new()
            }
        },
        ErrorKind::ExpectedPlusOrMinusOrDigitAfterE { e_range, maybe_c } => {
            let ok = match maybe_c.0 {
                None => true,
                Some(c) => c.is_structural(),
            };
            if ok {
                exponent_patch_suggestions(*e_range, source)
            } else {
                Vec::new()
            }
        },
        ErrorKind::ExpectedDigitAfterE { exponent_range, maybe_c } => {
            let ok = match maybe_c.0 {
                None => true,
                Some(c) => c.is_structural(),
            };
            if ok {
                exponent_patch_suggestions(*exponent_range, source)
            } else {
                Vec::new()
            }
        },
        ErrorKind::ExpectedQuote { string_range, .. } => one(
            patch(
                string_of("insert the missing closing quote"),
                Span { start: string_range.end, end: string_range.end },
                source,
                "\"",
            ),
        ),
        ErrorKind::ExpectedEscape { maybe_c, slash_range, .. } => {
            match maybe_c.0 {
                Some(c) => {
                    if c.is_control() {
                        let escaped = c.escape();
                        one(
                            patch(
                                string_of("escape the control character"),
                                Span { start: slash_range.start, end: range.end },
                                source,
                                escaped.as_str(),
                            ),
                        )
                    } else {
                        one(patch(string_of("remove unnecessary escape slash"), *slash_range, source, ""))
                    }
                },
                None => one(patch(string_of("remove unnecessary escape slash"), *slash_range, source, "")),
            }
        },
        _ => Vec::new(),
    };
    proof {
        assert(res@.map_values(|p: Patch| patch_view(p)) =~= patch_specs(
            error.spec_kind(),
            error.spec_range(),
            encode_utf8(error.spec_source_text()).len() as int,
        ));
    }
    res
}

fn context<'a>(message: String, span: Span, source: Source<'a>) -> (res: Context<'a>)
    ensures
        context_view(res) == (message@, span),
        res.source == source,
{
    Context { message, span, source }
}

fn one_context<'a>(c: Context<'a>) -> (res: Vec<Context<'a>>)
    ensures
        res@ == seq![c],
{
    let mut out = Vec::new();
    out.push(c);
    assert(out@ =~= seq![c]);
    out
}

fn two_contexts<'a>(a: Context<'a>, b: Context<'a>) -> (res: Vec<Context<'a>>)
    ensures
        res@ == seq![a, b],
{
    let mut out = Vec::new();
    out.push(a);
    out.push(b);
    assert(out@ =~= seq![a, b]);
    out
}

/// `"expected due to `...`"` for the token `ctx` of `error`'s text
fn expected_due_to(error: &Error, ctx: TokenWithContext) -> (res: String)
    requires
        ctx.range.start <= ctx.range.end <= encode_utf8(error.spec_source_text()).len(),
        is_char_boundary(encode_utf8(error.spec_source_text()), ctx.range.start as int),
        is_char_boundary(encode_utf8(error.spec_source_text()), ctx.range.end as int),
    ensures
        res@ == "expected due to `"@ + slice_chars(encode_utf8(error.spec_source_text()), ctx.range)
            + "`"@,
{
    let text = error.source_text();
    let mut out = string_of("expected due to `");
    push_str(&mut out, substr(text, ctx.range.start, ctx.range.end));
    push_str(&mut out, "`");
    out
}

/// the places that explain `error`
pub fn contexts(error: &Error) -> (res: Vec<Context<'_>>)
    requires
        cuts_ok(*error),
    ensures
        res@.map_values(|c: Context| context_view(c)) == context_specs(
            error.spec_kind(),
            encode_utf8(error.spec_source_text()),
        ),
        forall|i: int| 0 <= i < res@.len() ==> source_of((#[trigger] res@[i]).source, *error),
{
    let source = error_source(error);
    let ghost t = encode_utf8(error.spec_source_text());
    proof {
        assert(context_cuts(error.spec_kind()).len() > 0 ==> {
            let r = context_cuts(error.spec_kind())[0];
            &&& r.start <= r.end <= t.len()
            &&& is_char_boundary(t, r.start as int)
            &&& is_char_boundary(t, r.end as int)
        });
    }
    let res: Vec<Context> = match error.kind() {
        ErrorKind::ExpectedKey(ctx, _) => one_context(context(expected_due_to(error, *ctx), ctx.range, source)),
        ErrorKind::ExpectedColon(ctx, _) => one_context(context(expected_due_to(error, *ctx), ctx.range, source)),
        ErrorKind::ExpectedEntryOrClosedDelimiter { open_ctx, .. } => one_context(
            context(expected_due_to(error, *open_ctx), open_ctx.range, source),
        ),
        ErrorKind::ExpectedValue(ctx, _) => match ctx {
            Some(c) => one_context(context(expected_due_to(error, *c), c.range, source)),
            None => Vec::new(),
        },
        ErrorKind::ExpectedOpenBrace { context: ctx, .. } => match ctx {
            Some(c) => one_context(context(expected_due_to(error, *c), c.range, source)),
            None => Vec::new(),
        },
        ErrorKind::ExpectedCommaOrClosedCurlyBrace { range, open_ctx, .. } => {
            let first = context(
                string_of("expected due to the preceding key/value pair"),
                *range,
                source,
            );
            let mut opened = string_of("object opened here by `");
            push_str(
                &mut opened,
                substr(error.source_text(), open_ctx.range.start, open_ctx.range.end),
            );
            push_str(&mut opened, "`");
            two_contexts(first, context(opened, open_ctx.range, source))
        },
        ErrorKind::ExpectedDigitFollowingMinus(range, _) => one_context(
            context(string_of("minus sign found here"), *range, source),
        ),
        ErrorKind::UnexpectedLeadingZero { initial, .. } => one_context(
            context(string_of("first zero found here"), *initial, source),
        ),
        ErrorKind::ExpectedDigitAfterDot { dot_range, number_range, .. } => two_contexts(
            context(string_of("decimal point found here"), *dot_range, source),
            context(string_of("number found here"), *number_range, source),
        ),
        ErrorKind::ExpectedDigitAfterE { exponent_range, .. } => one_context(
            context(string_of("exponent found here"), *exponent_range, source),
        ),
        ErrorKind::ExpectedPlusOrMinusOrDigitAfterE { e_range, .. } => one_context(
            context(string_of("exponent found here"), *e_range, source),
        ),
        ErrorKind::ExpectedQuote { open_range, .. } => one_context(
            context(string_of("opening quote found here"), *open_range, source),
        ),
        ErrorKind::ExpectedEscape { slash_range, quote_range, .. } => two_contexts(
            context(string_of("escape slash found here"), *slash_range, source),
            context(string_of("opening quote found here"), *quote_range, source),
        ),
        ErrorKind::ExpectedHexDigit { quote_range, slash_range, u_range, .. } => two_contexts(
            context(string_of("opening quote found here"), *quote_range, source),
            context(
                string_of("\\u escape started here"),
                Span { start: slash_range.start, end: u_range.end },
                source,
            ),
        ),
        _ => Vec::new(),
    };
    proof {
        assert(res@.map_values(|c: Context| context_view(c)) =~= context_specs(
            error.spec_kind(),
            encode_utf8(error.spec_source_text()),
        ));
    }
    res
}

impl<'a> Diagnostic<'a> {
    /// all that is shown of `error`
    pub fn new(error: &'a Error) -> (res: Self)
        requires
            cuts_ok(*error),
            patches_ok(*error),
        ensures
            shows(res, *error),
    {
        Diagnostic {
            message: error.message(),
            range: Some(error.range()),
            context: contexts(error),
            patches: patches(error),
            source: error_source(error),
        }
    }
}

/// `r` lies in `text` and starts and ends at char boundaries of it
pub(crate) fn cut_fits(text: &str, r: Span) -> (res: bool)
    ensures
        res == (r.start <= r.end <= text.spec_bytes().len() && is_char_boundary(
            text.spec_bytes(),
            r.start as int,
        ) && is_char_boundary(text.spec_bytes(), r.end as int)),
{
    let len = text.as_bytes().len();
    r.start <= r.end && r.end <= len && text.is_char_boundary(r.start) && text.is_char_boundary(
        r.end,
    )
}

impl Error {
    /// the ranges that the contexts of the error cut out of its text are char
    /// boundaries of it, so that a [`Diagnostic`] can be made of it
    pub fn can_diagnose(&self) -> (res: bool)
        ensures
            res == (cuts_ok(*self) && patches_ok(*self)),
    {
        let text = self.source_text();
        let ghost t = encode_utf8(self.spec_source_text());
        let cut: Option<Span> = match self.kind() {
            ErrorKind::ExpectedKey(ctx, _) => Some(ctx.range),
            ErrorKind::ExpectedColon(ctx, _) => Some(ctx.range),
            ErrorKind::ExpectedEntryOrClosedDelimiter { open_ctx, .. } => Some(open_ctx.range),
            ErrorKind::ExpectedValue(ctx, _) => match ctx {
                Some(c) => Some(c.range),
                None => None,
            },
            ErrorKind::ExpectedOpenBrace { context, .. } => match context {
                Some(c) => Some(c.range),
                None => None,
            },
            ErrorKind::ExpectedCommaOrClosedCurlyBrace { open_ctx, .. } => Some(open_ctx.range),
            _ => None,
        };
        proof {
            assert(match cut {
                Some(r) => context_cuts(self.spec_kind()) =~= seq![r],
                None => context_cuts(self.spec_kind()).len() == 0,
            });
        }
        let cut_ok = match cut {
            Some(r) => cut_fits(text, r),
            None => true,
        };
        let patch_ok = match self.kind() {
            ErrorKind::ExpectedValue(_, found) => match &found.0 {
                Some(tok) => tok.tag() != Token::ClosedCurlyBrace || self.range().end >= 1,
                None => true,
            },
            _ => true,
        };
        proof {
            assert(text.spec_bytes() == t);
            if let Some(r) = cut {
                assert(context_cuts(self.spec_kind())[0] == r);
            }
        }
        cut_ok && patch_ok
    }
}


/// the bytes of `t` once the edit that replaces the bytes of `r` by `repl` is made
pub open spec fn applied(t: Seq<u8>, r: Span, repl: Seq<char>) -> Seq<u8> {
    t.subrange(0, r.start as int) + encode_utf8(repl) + t.subrange(r.end as int, t.len() as int)
}

/// the encoding of chars that begin with an ASCII char begins with its byte
proof fn lemma_encode_ascii_first(cs: Seq<char>, b: u8)
    requires
        cs.len() > 0,
        cs[0] as u32 == b as u32,
        b < 0x80,
    ensures
        encode_utf8(cs).len() > 0,
        encode_utf8(cs)[0] == b,
{
    let v = cs[0] as u32;
    assert(encode_utf8(cs) == encode_scalar(v) + encode_utf8(cs.drop_first()));
    assert(leading_byte_width_1(v) == b) by (bit_vector)
        requires
            v == b as u32,
            b < 0x80,
    ;
    assert(encode_scalar(v) =~= seq![b]);
}

/// the text, edited by inserting `repl` at `e`, keeps the bytes of `r`, which
/// end at `e`, and has the first byte of `repl` right after them
proof fn lemma_insert_after(t: Seq<u8>, r: Span, e: int, repl: Seq<char>, b: u8)
    requires
        r.start <= r.end <= t.len(),
        e == r.end,
        repl.len() > 0,
        repl[0] as u32 == b as u32,
        b < 0x80,
    ensures
        applied(t, at(r.end), repl).len() > e,
        applied(t, at(r.end), repl).subrange(r.start as int, e) == t.subrange(r.start as int, e),
        applied(t, at(r.end), repl)[e] == b,
{
    lemma_encode_ascii_first(repl, b);
    let u = applied(t, at(r.end), repl);
    assert(u =~= t.subrange(0, e) + encode_utf8(repl) + t.subrange(e, t.len() as int));
    assert(u[e] == encode_utf8(repl)[0]);
    assert(u.subrange(r.start as int, e) =~= t.subrange(r.start as int, e));
}

/// Each edit offered for a key that no colon follows inserts text that starts
/// with a colon right after the key: the text, so edited, keeps the key where
/// it was and has a colon next to it.
pub proof fn lemma_colon_fix_follows_key(k: ErrorKind, range: Span, len: int, t: Seq<u8>, i: int)
    requires
        k is ExpectedColon,
        0 <= i < patch_specs(k, range, len).len(),
    ensures
        match k {
            ErrorKind::ExpectedColon(ctx, _) => ctx.range.start <= ctx.range.end <= t.len() ==> {
                let p = patch_specs(k, range, len)[i];
                let u = applied(t, p.1, p.2);
                &&& p.1.start == p.1.end
                &&& u.len() > ctx.range.end
                &&& u.subrange(ctx.range.start as int, ctx.range.end as int) == t.subrange(
                    ctx.range.start as int,
                    ctx.range.end as int,
                )
                &&& u[ctx.range.end as int] == 0x3A
            },
            _ => true,
        },
{
    reveal_strlit(": \"garlic bread\" }");
    reveal_strlit(": \"🐟🛹\"");
    reveal_strlit(": ");
    if let ErrorKind::ExpectedColon(ctx, _) = k {
        if ctx.range.start <= ctx.range.end <= t.len() {
            let p = patch_specs(k, range, len)[i];
            assert(p.1 == at(ctx.range.end));
            lemma_insert_after(t, ctx.range, ctx.range.end as int, p.2, 0x3A);
        }
    }
}

/// The edit offered for a string with no closing quote inserts a quote right
/// after the string's last byte, and the one offered for an object whose last
/// pair no comma or closing brace follows inserts a closing brace, or, before
/// what looks like a key, a comma, right after that pair.
pub proof fn lemma_closing_fix_follows(k: ErrorKind, range: Span, len: int, t: Seq<u8>, i: int)
    requires
        k is ExpectedQuote || k is ExpectedCommaOrClosedCurlyBrace,
        0 <= i < patch_specs(k, range, len).len(),
    ensures
        match k {
            ErrorKind::ExpectedQuote { string_range, .. } => string_range.start <= string_range.end
                <= t.len() ==> {
                let p = patch_specs(k, range, len)[i];
                let u = applied(t, p.1, p.2);
                &&& p.1 == at(string_range.end)
                &&& u.subrange(string_range.start as int, string_range.end as int) == t.subrange(
                    string_range.start as int,
                    string_range.end as int,
                )
                &&& u[string_range.end as int] == 0x22
            },
            ErrorKind::ExpectedCommaOrClosedCurlyBrace { range: pair, found, .. } => pair.start
                <= pair.end <= t.len() ==> {
                let p = patch_specs(k, range, len)[i];
                let u = applied(t, p.1, p.2);
                &&& p.1 == at(pair.end)
                &&& u.subrange(pair.start as int, pair.end as int) == t.subrange(
                    pair.start as int,
                    pair.end as int,
                )
                &&& u[pair.end as int] == if found.0 is None {
                    0x7Du8
                } else {
                    0x2Cu8
                }
            },
            _ => true,
        },
{
    reveal_strlit("\"");
    reveal_strlit("}");
    reveal_strlit(",");
    match k {
        ErrorKind::ExpectedQuote { string_range, .. } => {
            if string_range.start <= string_range.end <= t.len() {
                let p = patch_specs(k, range, len)[i];
                lemma_insert_after(t, string_range, string_range.end as int, p.2, 0x22);
            }
        },
        ErrorKind::ExpectedCommaOrClosedCurlyBrace { range: pair, found, .. } => {
            if pair.start <= pair.end <= t.len() {
                let p = patch_specs(k, range, len)[i];
                if found.0 is None {
                    lemma_insert_after(t, pair, pair.end as int, p.2, 0x7D);
                } else {
                    lemma_insert_after(t, pair, pair.end as int, p.2, 0x2C);
                }
            }
        },
        _ => {},
    }
}

} // verus!
