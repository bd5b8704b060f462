//! the parser: it reads the tokens of one JSON value and reports what it
//! reads to a [`Visitor`]
pub mod array;
pub mod object;

use vstd::prelude::*;
use vstd::string::StringSliceAdditionalSpecFns;
use vstd::utf8::*;

use crate::ast::{Document, ObjectEntries, SpecValue, Value, nests_within, view_entries, view_items};
use crate::diagnostics::{contexts_placed_at, patches_placed_at};
use crate::error::{Error, ErrorKind, ErrorToken, TokenOption, lexical, site_range, window_of};
use crate::tokens::lexical::JsonChar;
use crate::text::{ascii_boundary, lemma_ascii_boundary, lemma_str_bytes, placed, substr};
use crate::tokens::stream::{
    LexStep, next_tok, token_shape, lemma_next_tok_lexical, lemma_next_tok_range, lemma_next_tok_site,
};
use crate::tokens::{
    ErrorSite, Span, Token, TokenStream, TokenWithContext, scalar_token, site_placed, sp, starts_value,
};

verus! {

/// the deepest nesting a value may have: as deep as a `usize` counts, so
/// that in effect nesting is not limited
pub const MAX_DEPTH: usize = usize::MAX;

/// `r` is a range of the text with bytes `t` whose ends sit next to ASCII bytes
pub open spec fn span_ok(t: Seq<u8>, r: Span) -> bool {
    &&& r.start <= r.end <= t.len()
    &&& ascii_boundary(t, r.start as int)
    &&& ascii_boundary(t, r.end as int)
}

/// the text ranges within `v` are ranges of the text with bytes `t` whose ends sit
/// next to ASCII bytes, so they can be cut out of it
pub open spec fn spans_ok(v: SpecValue, t: Seq<u8>) -> bool
    decreases v, 1int,
{
    match v {
        SpecValue::Str(r) => span_ok(t, r),
        SpecValue::Number(m, e) => span_ok(t, m) && (e matches Some(e) ==> span_ok(t, e)),
        SpecValue::Object(r, entries) => r.start < r.end && entries_ok(entries, t),
        SpecValue::Array(r, items) => r.start < r.end && items_ok(items, t),
        _ => true,
    }
}

/// the keys and values of `entries` are ranges that can be cut out of the text
pub open spec fn entries_ok(entries: Seq<(Span, SpecValue)>, t: Seq<u8>) -> bool
    decreases entries, 0int,
{
    forall|i: int|
        0 <= i < entries.len() ==> span_ok(t, (#[trigger] entries[i]).0) && spans_ok(
            entries[i].1,
            t,
        )
}

/// the items are values whose ranges can be cut out of the text
pub open spec fn items_ok(items: Seq<SpecValue>, t: Seq<u8>) -> bool
    decreases items, 0int,
{
    forall|i: int| 0 <= i < items.len() ==> spans_ok(#[trigger] items[i], t)
}

/// what a [`Visitor`] is told, in order; text comes as the chars it holds
pub enum Event {
    ObjectOpen(Span),
    /// the range between the key's quotes, and the chars there
    ObjectKey(Span, Seq<char>),
    ObjectKeyValDelim,
    ObjectClose(Span),
    ArrayOpen(Span),
    ArrayClose(Span),
    Null(Span),
    /// the range between the quotes, and the chars there
    String(Span, Seq<char>),
    Mantissa(Span, Seq<char>),
    Exponent(Span, Seq<char>),
    Boolean(Span, bool),
    ItemDelim,
}

/// the chars that bytes `r` of the text with bytes `t` hold
pub open spec fn slice_chars(t: Seq<u8>, r: Span) -> Seq<char> {
    decode_utf8(t.subrange(r.start as int, r.end as int))
}

/// the first byte of `r`
pub open spec fn open_span(r: Span) -> Span {
    sp(r.start as int, r.start + 1)
}

/// the last byte of `r`
pub open spec fn close_span(r: Span) -> Span {
    sp(r.end - 1, r.end as int)
}

/// the events that tell of value `v` of the text with bytes `t`
pub open spec fn value_events(v: SpecValue, t: Seq<u8>) -> Seq<Event>
    decreases v,
{
    match v {
        SpecValue::Null(r) => seq![Event::Null(r)],
        SpecValue::Str(r) => seq![Event::String(r, slice_chars(t, r))],
        SpecValue::Number(m, e) => match e {
            Some(e) => seq![
                Event::Mantissa(m, slice_chars(t, m)),
                Event::Exponent(e, slice_chars(t, e)),
            ],
            None => seq![Event::Mantissa(m, slice_chars(t, m))],
        },
        SpecValue::Bool(r, b) => seq![Event::Boolean(r, b)],
        SpecValue::Object(r, entries) => seq![Event::ObjectOpen(open_span(r))] + entries_events(
            entries,
            t,
        ) + seq![Event::ObjectClose(close_span(r))],
        SpecValue::Array(r, items) => seq![Event::ArrayOpen(open_span(r))] + items_events(items, t)
            + seq![Event::ArrayClose(close_span(r))],
    }
}

/// the events that tell of the entries of an object, with delimiters between them
pub open spec fn entries_events(entries: Seq<(Span, SpecValue)>, t: Seq<u8>) -> Seq<Event>
    decreases entries,
{
    if entries.len() == 0 {
        Seq::empty()
    } else {
        let (k, v) = entries.last();
        entries_events(entries.drop_last(), t) + (if entries.len() > 1 {
            seq![Event::ItemDelim]
        } else {
            Seq::empty()
        }) + seq![Event::ObjectKey(k, slice_chars(t, k)), Event::ObjectKeyValDelim] + value_events(
            v,
            t,
        )
    }
}

/// the events that tell of the items of an array, with delimiters between them
pub open spec fn items_events(items: Seq<SpecValue>, t: Seq<u8>) -> Seq<Event>
    decreases items,
{
    if items.len() == 0 {
        Seq::empty()
    } else {
        items_events(items.drop_last(), t) + (if items.len() > 1 {
            seq![Event::ItemDelim]
        } else {
            Seq::empty()
        }) + value_events(items.last(), t)
    }
}

/// what reads JSON: the parser calls it for each part of a value, in order
pub trait Visitor {
    /// what it was told so far
    open spec fn events(&self) -> Seq<Event> {
        Seq::empty()
    }

    /// what it keeps true of itself
    open spec fn inv(&self) -> bool {
        true
    }

    fn on_object_open(&mut self, range: Span)
        ensures
            old(self).inv() ==> final(self).inv(),
            final(self).events() == old(self).events().push(Event::ObjectOpen(range)),
    ;

    fn on_object_key(&mut self, range: Span, key: &str)
        ensures
            old(self).inv() ==> final(self).inv(),
            final(self).events() == old(self).events().push(Event::ObjectKey(range, key@)),
    ;

    fn on_object_key_val_delim(&mut self)
        ensures
            old(self).inv() ==> final(self).inv(),
            final(self).events() == old(self).events().push(Event::ObjectKeyValDelim),
    ;

    fn on_object_close(&mut self, range: Span)
        ensures
            old(self).inv() ==> final(self).inv(),
            final(self).events() == old(self).events().push(Event::ObjectClose(range)),
    ;

    fn on_array_open(&mut self, range: Span)
        ensures
            old(self).inv() ==> final(self).inv(),
            final(self).events() == old(self).events().push(Event::ArrayOpen(range)),
    ;

    fn on_array_close(&mut self, range: Span)
        ensures
            old(self).inv() ==> final(self).inv(),
            final(self).events() == old(self).events().push(Event::ArrayClose(range)),
    ;

    fn on_null(&mut self, range: Span)
        ensures
            old(self).inv() ==> final(self).inv(),
            final(self).events() == old(self).events().push(Event::Null(range)),
    ;

    fn on_string(&mut self, range: Span, value: &str)
        ensures
            old(self).inv() ==> final(self).inv(),
            final(self).events() == old(self).events().push(Event::String(range, value@)),
    ;

    fn on_mantissa(&mut self, range: Span, mantissa: &str)
        ensures
            old(self).inv() ==> final(self).inv(),
            final(self).events() == old(self).events().push(Event::Mantissa(range, mantissa@)),
    ;

    fn on_exponent(&mut self, range: Span, exponent: &str)
        ensures
            old(self).inv() ==> final(self).inv(),
            final(self).events() == old(self).events().push(Event::Exponent(range, exponent@)),
    ;

    fn on_boolean(&mut self, range: Span, value: bool)
        ensures
            old(self).inv() ==> final(self).inv(),
            final(self).events() == old(self).events().push(Event::Boolean(range, value)),
    ;

    fn on_item_delim(&mut self)
        ensures
            old(self).inv() ==> final(self).inv(),
            final(self).events() == old(self).events().push(Event::ItemDelim),
    ;
}

/// what went wrong in a parse, as plain values: the kind of error, with the
/// tokens it names by where they are
pub enum Fault {
    /// what the lexer refused
    Lex(ErrorKind),
    /// a key expected after the comma, the token found instead
    ExpectedKey(TokenWithContext, Option<TokenWithContext>),
    /// a colon expected after the key, the token found instead
    ExpectedColon(TokenWithContext, Option<TokenWithContext>),
    /// a value expected, after the token named, if any; the token found instead
    ExpectedValue(Option<TokenWithContext>, Option<TokenWithContext>),
    /// a value expected at the start of the input, a token of this kind found
    NoValue(Token),
    /// an entry or the closing delimiter expected after the opening one
    ExpectedEntryOrClosedDelimiter(TokenWithContext, char, Option<TokenWithContext>),
    /// a comma or `}` expected after the key/value pair at the range
    ExpectedCommaOrClosedCurlyBrace(Span, TokenWithContext, Option<TokenWithContext>),
    /// the opening delimiter expected
    ExpectedOpenBrace(char, Option<TokenWithContext>),
    /// a token after the value, where the input should end
    TokenAfterEnd(TokenWithContext),
    /// values nested deeper than [`MAX_DEPTH`]
    NestingTooDeep,
}

/// `e` names token `tok` of the text with bytes `t`: its kind, and the text it
/// covers where that text is UTF-8
pub open spec fn token_named(e: ErrorToken, tok: TokenWithContext, t: Seq<u8>) -> bool {
    &&& e.spec_tag() == tok.token
    &&& valid_utf8(t.subrange(tok.range.start as int, tok.range.end as int)) ==> e.spec_content()
        == decode_utf8(t.subrange(tok.range.start as int, tok.range.end as int))
}

/// `fo` names the token found, or nothing
pub open spec fn found_matches(fo: TokenOption, found: Option<TokenWithContext>, t: Seq<u8>) -> bool {
    match found {
        None => fo.0 is None,
        Some(tok) => fo.0 matches Some(e) && token_named(e, tok, t),
    }
}

/// error kind `k` is what fault `f` says, in the text with bytes `t`
pub open spec fn describes(k: ErrorKind, f: Fault, t: Seq<u8>) -> bool {
    match f {
        Fault::Lex(k2) => k == k2,
        Fault::ExpectedKey(ctx, found) => k matches ErrorKind::ExpectedKey(c, fo) && c == ctx
            && found_matches(fo, found, t),
        Fault::ExpectedColon(ctx, found) => k matches ErrorKind::ExpectedColon(c, fo) && c == ctx
            && found_matches(fo, found, t),
        Fault::ExpectedValue(ctx, found) => k matches ErrorKind::ExpectedValue(c, fo) && c == ctx
            && found_matches(fo, found, t),
        Fault::NoValue(tok) => k matches ErrorKind::ExpectedValue(c, fo) && c is None && (fo.0 matches Some(
            e,
        ) && e.spec_tag() == tok && e.spec_content().len() == 0),
        Fault::ExpectedEntryOrClosedDelimiter(open, ch, found) => k matches ErrorKind::ExpectedEntryOrClosedDelimiter {
            open_ctx,
            expected,
            found: fo,
        } && open_ctx == open && expected == JsonChar(ch) && found_matches(fo, found, t),
        Fault::ExpectedCommaOrClosedCurlyBrace(r, open, found) => k matches ErrorKind::ExpectedCommaOrClosedCurlyBrace {
            range,
            open_ctx,
            found: fo,
        } && range == r && open_ctx == open && found_matches(fo, found, t),
        Fault::ExpectedOpenBrace(ch, found) => k matches ErrorKind::ExpectedOpenBrace {
            expected,
            context,
            found: fo,
        } && expected == JsonChar(ch) && context is None && found_matches(fo, found, t),
        Fault::TokenAfterEnd(tok) => k matches ErrorKind::TokenAfterEnd(e) && token_named(e, tok, t),
        Fault::NestingTooDeep => k == ErrorKind::NestingTooDeep(MAX_DEPTH),
    }
}

/// `e` is the error for fault `f` at `site` of the text with bytes `t`
pub open spec fn fails(e: Error, f: Fault, site: ErrorSite, t: Seq<u8>) -> bool {
    &&& describes(e.spec_kind(), f, t)
    &&& e.spec_range() == site_range(site, t)
    &&& e.spec_source_text() == decode_utf8(t)
    &&& e.spec_source_name() == "stdin"@
}

/// the outcome of parsing: the value and where the tokens after it start, or
/// what went wrong and where
pub enum PVal {
    Done(SpecValue, int),
    Failed(Fault, ErrorSite),
}

/// the failure when the lexer step `step` is not what was expected: the fault
/// `f` names the token found, or nothing at the end; a lexer error stands
pub open spec fn unexpected(step: LexStep, f: spec_fn(Option<TokenWithContext>) -> Fault) -> PVal {
    match step {
        LexStep::Tok(t) => PVal::Failed(f(Some(t)), ErrorSite::At(t.range)),
        LexStep::Fail(k, site) => PVal::Failed(Fault::Lex(k), site),
        _ => PVal::Failed(f(None), ErrorSite::AtEnd),
    }
}

/// the opening token of an object or array whose opening delimiter covers `open`
pub open spec fn opener(tok: Token, open: Span) -> TokenWithContext {
    TokenWithContext { token: tok, range: open }
}

/// the string token whose content is `key`
pub open spec fn key_token(key: Span) -> TokenWithContext {
    TokenWithContext { token: Token::String, range: sp(key.start - 1, key.end + 1) }
}

/// the range of a key/value pair: from the colon to the end of the value
pub open spec fn pair_span(colon: TokenWithContext, v: SpecValue) -> Span {
    sp(colon.range.start as int, reported_range(v).end as int)
}

/// the bytes between the quotes of a string token
pub open spec fn content_span(r: Span) -> Span {
    sp(r.start + 1, r.end - 1)
}

/// `t`, read after cursor `c`, moves the cursor on
pub open spec fn advances(s: Seq<u8>, c: int, t: TokenWithContext) -> bool {
    c < t.range.end <= s.len()
}

/// the value that `t` is on its own, for scalar tokens; a mantissa takes the
/// exponent whose `e` or `E` comes straight after it, and an exponent whose
/// digits are all zero leaves the number as its mantissa alone
pub open spec fn scalar_at(s: Seq<u8>, t: TokenWithContext) -> PVal {
    let end = t.range.end as int;
    match t.token {
        Token::String => PVal::Done(SpecValue::Str(content_span(t.range)), end),
        Token::Null => PVal::Done(SpecValue::Null(t.range), end),
        Token::True => PVal::Done(SpecValue::Bool(t.range, true), end),
        Token::False => PVal::Done(SpecValue::Bool(t.range, false), end),
        _ => match next_tok(s, end) {
            LexStep::Tok(e) => if e.token is Exponent && end < s.len() && (s[end] == 0x65 || s[end]
                == 0x45) {
                if e.range.start == end {
                    PVal::Done(SpecValue::Number(t.range, None), e.range.end as int)
                } else {
                    PVal::Done(SpecValue::Number(t.range, Some(e.range)), e.range.end as int)
                }
            } else {
                PVal::Done(SpecValue::Number(t.range, None), end)
            },
            LexStep::Fail(k, site) => PVal::Failed(Fault::Lex(k), site),
            _ => PVal::Done(SpecValue::Number(t.range, None), end),
        },
    }
}

/// the value whose tokens start at cursor `c` of `s`, at nesting depth `d`, in a
/// text of `tl` bytes
pub open spec fn value_at(s: Seq<u8>, c: int, d: int, tl: int) -> PVal
    decreases s.len() - c, 1int,
{
    if c < 0 || c > s.len() {
        PVal::Failed(Fault::NestingTooDeep, ErrorSite::AtEnd)
    } else if d >= MAX_DEPTH {
        PVal::Failed(Fault::NestingTooDeep, ErrorSite::At(sp(0, tl)))
    } else {
        match next_tok(s, c) {
            LexStep::Tok(t) => {
                if t.token is OpenCurlyBrace {
                    object_at(s, c, d, tl)
                } else if t.token is OpenSquareBracket {
                    array_at(s, c, d, tl)
                } else if scalar_token(t.token) {
                    scalar_at(s, t)
                } else {
                    PVal::Failed(Fault::NoValue(t.token), ErrorSite::At(t.range))
                }
            },
            LexStep::End => PVal::Failed(
                Fault::ExpectedValue(None, None),
                ErrorSite::At(sp(s.len() as int, s.len() as int)),
            ),
            step => unexpected(step, |found: Option<TokenWithContext>| Fault::ExpectedValue(None, found)),
        }
    }
}

/// the object whose `{` is the next token after cursor `c`
pub open spec fn object_at(s: Seq<u8>, c: int, d: int, tl: int) -> PVal
    decreases s.len() - c, 0int,
{
    if c < 0 || c > s.len() {
        PVal::Failed(Fault::NestingTooDeep, ErrorSite::AtEnd)
    } else {
        match next_tok(s, c) {
            LexStep::Tok(t) => if t.token is OpenCurlyBrace && advances(s, c, t) {
                obj_members(s, t.range.end as int, d, tl, t.range, Seq::empty(), None)
            } else {
                PVal::Failed(Fault::ExpectedOpenBrace('{', Some(t)), ErrorSite::At(t.range))
            },
            step => unexpected(step, |found: Option<TokenWithContext>| Fault::ExpectedOpenBrace('{', found)),
        }
    }
}

/// the rest of an object opened at `open`, after `entries`: a key when there is
/// no pair yet, else a comma after the last pair, or the closing brace
pub open spec fn obj_members(
    s: Seq<u8>,
    c: int,
    d: int,
    tl: int,
    open: Span,
    entries: Seq<(Span, SpecValue)>,
    last_pair: Option<Span>,
) -> PVal
    decreases s.len() - c, 3int,
{
    let open_ctx = opener(Token::OpenCurlyBrace, open);
    let f = |found: Option<TokenWithContext>|
        match last_pair {
            Some(p) => Fault::ExpectedCommaOrClosedCurlyBrace(p, open_ctx, found),
            None => Fault::ExpectedEntryOrClosedDelimiter(open_ctx, '}', found),
        };
    if c < 0 || c > s.len() {
        PVal::Failed(Fault::NestingTooDeep, ErrorSite::AtEnd)
    } else {
        match next_tok(s, c) {
            LexStep::Tok(t) => if t.token is ClosedCurlyBrace {
                PVal::Done(
                    SpecValue::Object(sp(open.start as int, t.range.end as int), entries),
                    t.range.end as int,
                )
            } else if last_pair is Some && t.token is Comma && advances(s, c, t) {
                obj_key(s, t.range.end as int, d, tl, open, entries, t)
            } else if last_pair is None && t.token is String && advances(s, c, t) {
                obj_colon(s, t.range.end as int, d, tl, open, entries, content_span(t.range))
            } else {
                PVal::Failed(f(Some(t)), ErrorSite::At(t.range))
            },
            step => unexpected(step, f),
        }
    }
}

/// a key after the comma `comma`
pub open spec fn obj_key(
    s: Seq<u8>,
    c: int,
    d: int,
    tl: int,
    open: Span,
    entries: Seq<(Span, SpecValue)>,
    comma: TokenWithContext,
) -> PVal
    decreases s.len() - c, 3int,
{
    if c < 0 || c > s.len() {
        PVal::Failed(Fault::NestingTooDeep, ErrorSite::AtEnd)
    } else {
        match next_tok(s, c) {
            LexStep::Tok(t) => if t.token is String && advances(s, c, t) {
                obj_colon(s, t.range.end as int, d, tl, open, entries, content_span(t.range))
            } else {
                PVal::Failed(Fault::ExpectedKey(comma, Some(t)), ErrorSite::At(t.range))
            },
            step => unexpected(step, |found: Option<TokenWithContext>| Fault::ExpectedKey(comma, found)),
        }
    }
}

/// the colon after key `key`
pub open spec fn obj_colon(
    s: Seq<u8>,
    c: int,
    d: int,
    tl: int,
    open: Span,
    entries: Seq<(Span, SpecValue)>,
    key: Span,
) -> PVal
    decreases s.len() - c, 3int,
{
    if c < 0 || c > s.len() {
        PVal::Failed(Fault::NestingTooDeep, ErrorSite::AtEnd)
    } else {
        match next_tok(s, c) {
            LexStep::Tok(t) => if t.token is Colon && advances(s, c, t) {
                obj_value(s, t.range.end as int, d, tl, open, entries, key, t)
            } else {
                PVal::Failed(Fault::ExpectedColon(key_token(key), Some(t)), ErrorSite::At(t.range))
            },
            step => unexpected(
                step,
                |found: Option<TokenWithContext>| Fault::ExpectedColon(key_token(key), found),
            ),
        }
    }
}

/// the value of key `key` after the colon `colon`, one level deeper
pub open spec fn obj_value(
    s: Seq<u8>,
    c: int,
    d: int,
    tl: int,
    open: Span,
    entries: Seq<(Span, SpecValue)>,
    key: Span,
    colon: TokenWithContext,
) -> PVal
    decreases s.len() - c, 2int,
{
    if c < 0 || c > s.len() {
        PVal::Failed(Fault::NestingTooDeep, ErrorSite::AtEnd)
    } else {
        let step = next_tok(s, c);
        if step matches LexStep::Tok(t) && starts_value(t.token) {
            match value_at(s, c, d + 1, tl) {
                PVal::Done(v, c2) => if c < c2 <= s.len() {
                    obj_members(s, c2, d, tl, open, entries.push((key, v)), Some(pair_span(colon, v)))
                } else {
                    PVal::Failed(Fault::NestingTooDeep, ErrorSite::AtEnd)
                },
                failed => failed,
            }
        } else {
            unexpected(step, |found: Option<TokenWithContext>| Fault::ExpectedValue(Some(colon), found))
        }
    }
}

/// the array whose `[` is the next token after cursor `c`
pub open spec fn array_at(s: Seq<u8>, c: int, d: int, tl: int) -> PVal
    decreases s.len() - c, 0int,
{
    if c < 0 || c > s.len() {
        PVal::Failed(Fault::NestingTooDeep, ErrorSite::AtEnd)
    } else {
        match next_tok(s, c) {
            LexStep::Tok(t) => if t.token is OpenSquareBracket && advances(s, c, t) {
                arr_items(s, t.range.end as int, d, tl, t.range, Seq::empty(), true)
            } else {
                PVal::Failed(Fault::ExpectedOpenBrace('[', Some(t)), ErrorSite::At(t.range))
            },
            step => unexpected(step, |found: Option<TokenWithContext>| Fault::ExpectedOpenBrace('[', found)),
        }
    }
}

/// the rest of an array opened at `open`, after `items`: a value when `first`,
/// else a comma, or the closing bracket
pub open spec fn arr_items(
    s: Seq<u8>,
    c: int,
    d: int,
    tl: int,
    open: Span,
    items: Seq<SpecValue>,
    first: bool,
) -> PVal
    decreases s.len() - c, 3int,
{
    let open_ctx = opener(Token::OpenSquareBracket, open);
    let f = |found: Option<TokenWithContext>| Fault::ExpectedEntryOrClosedDelimiter(open_ctx, ']', found);
    if c < 0 || c > s.len() {
        PVal::Failed(Fault::NestingTooDeep, ErrorSite::AtEnd)
    } else {
        match next_tok(s, c) {
            LexStep::Tok(t) => if t.token is ClosedSquareBracket {
                PVal::Done(
                    SpecValue::Array(sp(open.start as int, t.range.end as int), items),
                    t.range.end as int,
                )
            } else if first && starts_value(t.token) {
                arr_value(s, c, d, tl, open, items, open_ctx)
            } else if !first && t.token is Comma && advances(s, c, t) {
                arr_value(s, t.range.end as int, d, tl, open, items, t)
            } else {
                PVal::Failed(f(Some(t)), ErrorSite::At(t.range))
            },
            step => unexpected(step, f),
        }
    }
}

/// an item of an array, one level deeper, expected after the token `expect`
pub open spec fn arr_value(
    s: Seq<u8>,
    c: int,
    d: int,
    tl: int,
    open: Span,
    items: Seq<SpecValue>,
    expect: TokenWithContext,
) -> PVal
    decreases s.len() - c, 2int,
{
    if c < 0 || c > s.len() {
        PVal::Failed(Fault::NestingTooDeep, ErrorSite::AtEnd)
    } else {
        let step = next_tok(s, c);
        if step matches LexStep::Tok(t) && starts_value(t.token) {
            match value_at(s, c, d + 1, tl) {
                PVal::Done(v, c2) => if c < c2 <= s.len() {
                    arr_items(s, c2, d, tl, open, items.push(v), false)
                } else {
                    PVal::Failed(Fault::NestingTooDeep, ErrorSite::AtEnd)
                },
                failed => failed,
            }
        } else {
            unexpected(step, |found: Option<TokenWithContext>| Fault::ExpectedValue(Some(expect), found))
        }
    }
}

/// what the parser reads at depth `d` nests within the levels left below
/// [`MAX_DEPTH`]
pub proof fn lemma_value_at_nests(s: Seq<u8>, c: int, d: int, tl: int)
    ensures
        value_at(s, c, d, tl) matches PVal::Done(v, _) ==> nests_within(v, MAX_DEPTH - d),
    decreases s.len() - c, 1int,
{
    if 0 <= c <= s.len() && d < MAX_DEPTH {
        match next_tok(s, c) {
            LexStep::Tok(t) => {
                if t.token is OpenCurlyBrace {
                    lemma_object_at_nests(s, c, d, tl);
                } else if t.token is OpenSquareBracket {
                    lemma_array_at_nests(s, c, d, tl);
                }
            },
            _ => {},
        }
    }
}

proof fn lemma_object_at_nests(s: Seq<u8>, c: int, d: int, tl: int)
    requires
        d < MAX_DEPTH,
    ensures
        object_at(s, c, d, tl) matches PVal::Done(v, _) ==> nests_within(v, MAX_DEPTH - d),
    decreases s.len() - c, 0int,
{
    if 0 <= c <= s.len() {
        match next_tok(s, c) {
            LexStep::Tok(t) => if t.token is OpenCurlyBrace && advances(s, c, t) {
                lemma_obj_members_nests(s, t.range.end as int, d, tl, t.range, Seq::empty(), None);
            },
            _ => {},
        }
    }
}

/// the entries read so far nest one level deeper than the object
pub open spec fn entries_nest(entries: Seq<(Span, SpecValue)>, k: int) -> bool {
    forall|i: int| 0 <= i < entries.len() ==> nests_within(#[trigger] entries[i].1, k)
}

proof fn lemma_obj_members_nests(
    s: Seq<u8>,
    c: int,
    d: int,
    tl: int,
    open: Span,
    entries: Seq<(Span, SpecValue)>,
    last_pair: Option<Span>,
)
    requires
        d < MAX_DEPTH,
        entries_nest(entries, MAX_DEPTH - d - 1),
    ensures
        obj_members(s, c, d, tl, open, entries, last_pair) matches PVal::Done(v, _) ==> nests_within(
            v,
            MAX_DEPTH - d,
        ),
    decreases s.len() - c, 3int,
{
    if 0 <= c <= s.len() {
        match next_tok(s, c) {
            LexStep::Tok(t) => if t.token is ClosedCurlyBrace {
            } else if last_pair is Some && t.token is Comma && advances(s, c, t) {
                lemma_obj_key_nests(s, t.range.end as int, d, tl, open, entries, t);
            } else if last_pair is None && t.token is String && advances(s, c, t) {
                lemma_obj_colon_nests(s, t.range.end as int, d, tl, open, entries, content_span(t.range));
            },
            _ => {},
        }
    }
}

proof fn lemma_obj_key_nests(
    s: Seq<u8>,
    c: int,
    d: int,
    tl: int,
    open: Span,
    entries: Seq<(Span, SpecValue)>,
    comma: TokenWithContext,
)
    requires
        d < MAX_DEPTH,
        entries_nest(entries, MAX_DEPTH - d - 1),
    ensures
        obj_key(s, c, d, tl, open, entries, comma) matches PVal::Done(v, _) ==> nests_within(
            v,
            MAX_DEPTH - d,
        ),
    decreases s.len() - c, 3int,
{
    if 0 <= c <= s.len() {
        match next_tok(s, c) {
            LexStep::Tok(t) => if t.token is String && advances(s, c, t) {
                lemma_obj_colon_nests(s, t.range.end as int, d, tl, open, entries, content_span(t.range));
            },
            _ => {},
        }
    }
}

proof fn lemma_obj_colon_nests(
    s: Seq<u8>,
    c: int,
    d: int,
    tl: int,
    open: Span,
    entries: Seq<(Span, SpecValue)>,
    key: Span,
)
    requires
        d < MAX_DEPTH,
        entries_nest(entries, MAX_DEPTH - d - 1),
    ensures
        obj_colon(s, c, d, tl, open, entries, key) matches PVal::Done(v, _) ==> nests_within(
            v,
            MAX_DEPTH - d,
        ),
    decreases s.len() - c, 3int,
{
    if 0 <= c <= s.len() {
        match next_tok(s, c) {
            LexStep::Tok(t) => if t.token is Colon && advances(s, c, t) {
                lemma_obj_value_nests(s, t.range.end as int, d, tl, open, entries, key, t);
            },
            _ => {},
        }
    }
}

proof fn lemma_obj_value_nests(
    s: Seq<u8>,
    c: int,
    d: int,
    tl: int,
    open: Span,
    entries: Seq<(Span, SpecValue)>,
    key: Span,
    colon: TokenWithContext,
)
    requires
        d < MAX_DEPTH,
        entries_nest(entries, MAX_DEPTH - d - 1),
    ensures
        obj_value(s, c, d, tl, open, entries, key, colon) matches PVal::Done(v, _) ==> nests_within(
            v,
            MAX_DEPTH - d,
        ),
    decreases s.len() - c, 2int,
{
    if 0 <= c <= s.len() {
        let step = next_tok(s, c);
        if step matches LexStep::Tok(t) && starts_value(t.token) {
            lemma_value_at_nests(s, c, d + 1, tl);
            match value_at(s, c, d + 1, tl) {
                PVal::Done(v, c2) => if c < c2 <= s.len() {
                    let e2 = entries.push((key, v));
                    assert forall|i: int| 0 <= i < e2.len() implies nests_within(
                        #[trigger] e2[i].1,
                        MAX_DEPTH - d - 1,
                    ) by {
                        if i < entries.len() {
                            assert(e2[i] == entries[i]);
                        }
                    }
                    lemma_obj_members_nests(s, c2, d, tl, open, e2, Some(pair_span(colon, v)));
                },
                _ => {},
            }
        }
    }
}

proof fn lemma_array_at_nests(s: Seq<u8>, c: int, d: int, tl: int)
    requires
        d < MAX_DEPTH,
    ensures
        array_at(s, c, d, tl) matches PVal::Done(v, _) ==> nests_within(v, MAX_DEPTH - d),
    decreases s.len() - c, 0int,
{
    if 0 <= c <= s.len() {
        match next_tok(s, c) {
            LexStep::Tok(t) => if t.token is OpenSquareBracket && advances(s, c, t) {
                lemma_arr_items_nests(s, t.range.end as int, d, tl, t.range, Seq::empty(), true);
            },
            _ => {},
        }
    }
}

proof fn lemma_arr_items_nests(
    s: Seq<u8>,
    c: int,
    d: int,
    tl: int,
    open: Span,
    items: Seq<SpecValue>,
    first: bool,
)
    requires
        d < MAX_DEPTH,
        forall|i: int| 0 <= i < items.len() ==> nests_within(#[trigger] items[i], MAX_DEPTH - d - 1),
    ensures
        arr_items(s, c, d, tl, open, items, first) matches PVal::Done(v, _) ==> nests_within(
            v,
            MAX_DEPTH - d,
        ),
    decreases s.len() - c, 3int,
{
    if 0 <= c <= s.len() {
        match next_tok(s, c) {
            LexStep::Tok(t) => if t.token is ClosedSquareBracket {
            } else if first && starts_value(t.token) {
                lemma_arr_value_nests(s, c, d, tl, open, items, opener(Token::OpenSquareBracket, open));
            } else if !first && t.token is Comma && advances(s, c, t) {
                lemma_arr_value_nests(s, t.range.end as int, d, tl, open, items, t);
            },
            _ => {},
        }
    }
}

proof fn lemma_arr_value_nests(
    s: Seq<u8>,
    c: int,
    d: int,
    tl: int,
    open: Span,
    items: Seq<SpecValue>,
    expect: TokenWithContext,
)
    requires
        d < MAX_DEPTH,
        forall|i: int| 0 <= i < items.len() ==> nests_within(#[trigger] items[i], MAX_DEPTH - d - 1),
    ensures
        arr_value(s, c, d, tl, open, items, expect) matches PVal::Done(v, _) ==> nests_within(
            v,
            MAX_DEPTH - d,
        ),
    decreases s.len() - c, 2int,
{
    if 0 <= c <= s.len() {
        let step = next_tok(s, c);
        if step matches LexStep::Tok(t) && starts_value(t.token) {
            lemma_value_at_nests(s, c, d + 1, tl);
            match value_at(s, c, d + 1, tl) {
                PVal::Done(v, c2) => if c < c2 <= s.len() {
                    let i2 = items.push(v);
                    assert forall|i: int| 0 <= i < i2.len() implies nests_within(
                        #[trigger] i2[i],
                        MAX_DEPTH - d - 1,
                    ) by {
                        if i < items.len() {
                            assert(i2[i] == items[i]);
                        }
                    }
                    lemma_arr_items_nests(s, c2, d, tl, open, i2, false);
                },
                _ => {},
            }
        }
    }
}

/// a token read from `s`: it covers bytes of `s`, and starts and ends with
/// ASCII bytes
pub open spec fn tok_ok(s: Seq<u8>, tok: TokenWithContext) -> bool {
    &&& tok.range.start < tok.range.end <= s.len()
    &&& s[tok.range.start as int] < 0x80
    &&& s[tok.range.end - 1] < 0x80
}

/// the tokens that fault `f` names as context, and the token it names as
/// found after an expected value, were read from `s`; a token found where a
/// value was expected is reported at its own range; a lexer error is about
/// the characters of one token
pub open spec fn failure_ok(f: Fault, site: ErrorSite, s: Seq<u8>) -> bool {
    &&& site_placed(s, site)
    &&& match f {
        Fault::ExpectedKey(ctx, _) => tok_ok(s, ctx),
        Fault::ExpectedColon(ctx, _) => tok_ok(s, ctx),
        Fault::ExpectedValue(ctx, found) => (ctx matches Some(c) ==> tok_ok(s, c)) && (found matches Some(
            t,
        ) ==> tok_ok(s, t) && site == ErrorSite::At(t.range)),
        Fault::NoValue(_) => site matches ErrorSite::At(r) && 1 <= r.end <= s.len() && s[r.end - 1] < 0x80,
        Fault::ExpectedEntryOrClosedDelimiter(open, _, _) => tok_ok(s, open),
        Fault::ExpectedCommaOrClosedCurlyBrace(pair, open, _) => tok_ok(s, open) && ascii_boundary(
            s,
            pair.start as int,
        ) && ascii_boundary(s, pair.end as int) && pair.start <= pair.end,
        Fault::Lex(k) => lexical(k) && patches_placed_at(s, k, site_range(site, s)) && contexts_placed_at(
            s,
            k,
        ),
        _ => true,
    }
}

/// what the lexer reads at an ASCII boundary of UTF-8 text: a token that lies
/// in the text and ends with an ASCII byte, or an error of the lexer at a place
/// of the text
pub proof fn lemma_tok_ok(s: Seq<u8>, c: int)
    requires
        0 <= c <= s.len(),
        s.len() <= usize::MAX,
        valid_utf8(s),
        ascii_boundary(s, c),
    ensures
        next_tok(s, c) matches LexStep::Tok(t) ==> tok_ok(s, t) && c < t.range.end && placed(s, t.range)
            && ascii_boundary(s, t.range.end as int),
        next_tok(s, c) matches LexStep::Fail(k, site) ==> lexical(k) && site_placed(s, site)
            && patches_placed_at(s, k, site_range(site, s)) && contexts_placed_at(s, k),
{
    lemma_next_tok_range(s, c);
    lemma_next_tok_lexical(s, c);
    lemma_ascii_boundary(s, c);
    lemma_next_tok_site(s, c);
    if let LexStep::Tok(t) = next_tok(s, c) {
        lemma_ascii_boundary(s, t.range.start as int);
        lemma_ascii_boundary(s, t.range.end as int);
    }
}

/// Every failure of the parser names, as context, only tokens it read from the
/// text, and reports a token found where a value was expected at that token.
pub proof fn lemma_value_at_failure_ok(s: Seq<u8>, c: int, d: int, tl: int)
    requires
        valid_utf8(s),
        tl == s.len(),
        ascii_boundary(s, c),
        s.len() <= usize::MAX,
    ensures
        value_at(s, c, d, tl) matches PVal::Failed(f, site) ==> failure_ok(f, site, s),
        value_at(s, c, d, tl) matches PVal::Done(v, c2) ==> ascii_boundary(s, c2) && ascii_boundary(s, reported_range(v).end as int)
            && c <= reported_range(v).end,
    decreases s.len() - c, 1int,
{
    is_char_boundary_start_end_of_seq(s);
    if 0 <= c <= s.len() && d < MAX_DEPTH {
        lemma_tok_ok(s, c);
        match next_tok(s, c) {
            LexStep::Tok(t) => {
                if t.token is OpenCurlyBrace {
                    lemma_object_at_failure_ok(s, c, d, tl);
                } else if t.token is OpenSquareBracket {
                    lemma_array_at_failure_ok(s, c, d, tl);
                } else {
                    lemma_tok_ok(s, t.range.end as int);
                }
            },
            _ => {},
        }
    }
}

proof fn lemma_object_at_failure_ok(s: Seq<u8>, c: int, d: int, tl: int)
    requires
        valid_utf8(s),
        tl == s.len(),
        ascii_boundary(s, c),
        s.len() <= usize::MAX,
        d < MAX_DEPTH,
    ensures
        object_at(s, c, d, tl) matches PVal::Failed(f, site) ==> failure_ok(f, site, s),
        object_at(s, c, d, tl) matches PVal::Done(v, c2) ==> ascii_boundary(s, c2) && ascii_boundary(s, reported_range(v).end as int)
            && c <= reported_range(v).end,
    decreases s.len() - c, 0int,
{
    if 0 <= c <= s.len() {
        lemma_tok_ok(s, c);
        match next_tok(s, c) {
            LexStep::Tok(t) => if t.token is OpenCurlyBrace && advances(s, c, t) {
                assert(opener(Token::OpenCurlyBrace, t.range) == t);
                lemma_obj_members_failure_ok(s, t.range.end as int, d, tl, t.range, Seq::empty(), None);
            },
            _ => {},
        }
    }
}

proof fn lemma_obj_members_failure_ok(
    s: Seq<u8>,
    c: int,
    d: int,
    tl: int,
    open: Span,
    entries: Seq<(Span, SpecValue)>,
    last_pair: Option<Span>,
)
    requires
        valid_utf8(s),
        tl == s.len(),
        ascii_boundary(s, c),
        s.len() <= usize::MAX,
        d < MAX_DEPTH,
        tok_ok(s, opener(Token::OpenCurlyBrace, open)),
        last_pair matches Some(p) ==> ascii_boundary(s, p.start as int) && ascii_boundary(s, p.end as int)
            && p.start <= p.end,
    ensures
        obj_members(s, c, d, tl, open, entries, last_pair) matches PVal::Failed(f, site) ==> failure_ok(
            f,
            site,
            s,
        ),
        obj_members(s, c, d, tl, open, entries, last_pair) matches PVal::Done(v, c2) ==> ascii_boundary(s, c2) && ascii_boundary(s, reported_range(v).end as int)
            && c <= reported_range(v).end,
    decreases s.len() - c, 3int,
{
    if 0 <= c <= s.len() {
        lemma_tok_ok(s, c);
        match next_tok(s, c) {
            LexStep::Tok(t) => if t.token is ClosedCurlyBrace {
            } else if last_pair is Some && t.token is Comma && advances(s, c, t) {
                lemma_obj_key_failure_ok(s, t.range.end as int, d, tl, open, entries, t);
            } else if last_pair is None && t.token is String && advances(s, c, t) {
                lemma_next_tok_range(s, c);
                assert(key_token(content_span(t.range)) == t);
                lemma_obj_colon_failure_ok(s, t.range.end as int, d, tl, open, entries, content_span(t.range));
            },
            _ => {},
        }
    }
}

proof fn lemma_obj_key_failure_ok(
    s: Seq<u8>,
    c: int,
    d: int,
    tl: int,
    open: Span,
    entries: Seq<(Span, SpecValue)>,
    comma: TokenWithContext,
)
    requires
        valid_utf8(s),
        tl == s.len(),
        ascii_boundary(s, c),
        s.len() <= usize::MAX,
        d < MAX_DEPTH,
        tok_ok(s, opener(Token::OpenCurlyBrace, open)),
        tok_ok(s, comma),
    ensures
        obj_key(s, c, d, tl, open, entries, comma) matches PVal::Failed(f, site) ==> failure_ok(f, site, s),
        obj_key(s, c, d, tl, open, entries, comma) matches PVal::Done(v, c2) ==> ascii_boundary(s, c2) && ascii_boundary(s, reported_range(v).end as int)
            && c <= reported_range(v).end,
    decreases s.len() - c, 3int,
{
    if 0 <= c <= s.len() {
        lemma_tok_ok(s, c);
        match next_tok(s, c) {
            LexStep::Tok(t) => if t.token is String && advances(s, c, t) {
                lemma_next_tok_range(s, c);
                assert(key_token(content_span(t.range)) == t);
                lemma_obj_colon_failure_ok(s, t.range.end as int, d, tl, open, entries, content_span(t.range));
            },
            _ => {},
        }
    }
}

proof fn lemma_obj_colon_failure_ok(
    s: Seq<u8>,
    c: int,
    d: int,
    tl: int,
    open: Span,
    entries: Seq<(Span, SpecValue)>,
    key: Span,
)
    requires
        valid_utf8(s),
        tl == s.len(),
        ascii_boundary(s, c),
        s.len() <= usize::MAX,
        d < MAX_DEPTH,
        tok_ok(s, opener(Token::OpenCurlyBrace, open)),
        tok_ok(s, key_token(key)),
    ensures
        obj_colon(s, c, d, tl, open, entries, key) matches PVal::Failed(f, site) ==> failure_ok(f, site, s),
        obj_colon(s, c, d, tl, open, entries, key) matches PVal::Done(v, c2) ==> ascii_boundary(s, c2) && ascii_boundary(s, reported_range(v).end as int)
            && c <= reported_range(v).end,
    decreases s.len() - c, 3int,
{
    if 0 <= c <= s.len() {
        lemma_tok_ok(s, c);
        match next_tok(s, c) {
            LexStep::Tok(t) => if t.token is Colon && advances(s, c, t) {
                lemma_obj_value_failure_ok(s, t.range.end as int, d, tl, open, entries, key, t);
            },
            _ => {},
        }
    }
}

proof fn lemma_obj_value_failure_ok(
    s: Seq<u8>,
    c: int,
    d: int,
    tl: int,
    open: Span,
    entries: Seq<(Span, SpecValue)>,
    key: Span,
    colon: TokenWithContext,
)
    requires
        valid_utf8(s),
        tl == s.len(),
        ascii_boundary(s, c),
        s.len() <= usize::MAX,
        d < MAX_DEPTH,
        tok_ok(s, opener(Token::OpenCurlyBrace, open)),
        tok_ok(s, colon),
        colon.range.start <= c,
    ensures
        obj_value(s, c, d, tl, open, entries, key, colon) matches PVal::Failed(f, site) ==> failure_ok(
            f,
            site,
            s,
        ),
        obj_value(s, c, d, tl, open, entries, key, colon) matches PVal::Done(v, c2) ==> ascii_boundary(s, c2) && ascii_boundary(s, reported_range(v).end as int)
            && c <= reported_range(v).end,
    decreases s.len() - c, 2int,
{
    if 0 <= c <= s.len() {
        lemma_tok_ok(s, c);
        let step = next_tok(s, c);
        if step matches LexStep::Tok(t) && starts_value(t.token) {
            lemma_value_at_failure_ok(s, c, d + 1, tl);
            match value_at(s, c, d + 1, tl) {
                PVal::Done(v, c2) => if c < c2 <= s.len() {
                    lemma_obj_members_failure_ok(
                        s,
                        c2,
                        d,
                        tl,
                        open,
                        entries.push((key, v)),
                        Some(pair_span(colon, v)),
                    );
                },
                _ => {},
            }
        }
    }
}

proof fn lemma_array_at_failure_ok(s: Seq<u8>, c: int, d: int, tl: int)
    requires
        valid_utf8(s),
        tl == s.len(),
        ascii_boundary(s, c),
        s.len() <= usize::MAX,
        d < MAX_DEPTH,
    ensures
        array_at(s, c, d, tl) matches PVal::Failed(f, site) ==> failure_ok(f, site, s),
        array_at(s, c, d, tl) matches PVal::Done(v, c2) ==> ascii_boundary(s, c2) && ascii_boundary(s, reported_range(v).end as int)
            && c <= reported_range(v).end,
    decreases s.len() - c, 0int,
{
    if 0 <= c <= s.len() {
        lemma_tok_ok(s, c);
        match next_tok(s, c) {
            LexStep::Tok(t) => if t.token is OpenSquareBracket && advances(s, c, t) {
                assert(opener(Token::OpenSquareBracket, t.range) == t);
                lemma_arr_items_failure_ok(s, t.range.end as int, d, tl, t.range, Seq::empty(), true);
            },
            _ => {},
        }
    }
}

proof fn lemma_arr_items_failure_ok(
    s: Seq<u8>,
    c: int,
    d: int,
    tl: int,
    open: Span,
    items: Seq<SpecValue>,
    first: bool,
)
    requires
        valid_utf8(s),
        tl == s.len(),
        ascii_boundary(s, c),
        s.len() <= usize::MAX,
        d < MAX_DEPTH,
        tok_ok(s, opener(Token::OpenSquareBracket, open)),
    ensures
        arr_items(s, c, d, tl, open, items, first) matches PVal::Failed(f, site) ==> failure_ok(f, site, s),
        arr_items(s, c, d, tl, open, items, first) matches PVal::Done(v, c2) ==> ascii_boundary(s, c2) && ascii_boundary(s, reported_range(v).end as int)
            && c <= reported_range(v).end,
    decreases s.len() - c, 3int,
{
    if 0 <= c <= s.len() {
        lemma_tok_ok(s, c);
        match next_tok(s, c) {
            LexStep::Tok(t) => if t.token is ClosedSquareBracket {
            } else if first && starts_value(t.token) {
                lemma_arr_value_failure_ok(s, c, d, tl, open, items, opener(Token::OpenSquareBracket, open));
            } else if !first && t.token is Comma && advances(s, c, t) {
                lemma_arr_value_failure_ok(s, t.range.end as int, d, tl, open, items, t);
            },
            _ => {},
        }
    }
}

proof fn lemma_arr_value_failure_ok(
    s: Seq<u8>,
    c: int,
    d: int,
    tl: int,
    open: Span,
    items: Seq<SpecValue>,
    expect: TokenWithContext,
)
    requires
        valid_utf8(s),
        tl == s.len(),
        ascii_boundary(s, c),
        s.len() <= usize::MAX,
        d < MAX_DEPTH,
        tok_ok(s, opener(Token::OpenSquareBracket, open)),
        tok_ok(s, expect),
    ensures
        arr_value(s, c, d, tl, open, items, expect) matches PVal::Failed(f, site) ==> failure_ok(f, site, s),
        arr_value(s, c, d, tl, open, items, expect) matches PVal::Done(v, c2) ==> ascii_boundary(s, c2) && ascii_boundary(s, reported_range(v).end as int)
            && c <= reported_range(v).end,
    decreases s.len() - c, 2int,
{
    if 0 <= c <= s.len() {
        lemma_tok_ok(s, c);
        let step = next_tok(s, c);
        if step matches LexStep::Tok(t) && starts_value(t.token) {
            lemma_value_at_failure_ok(s, c, d + 1, tl);
            match value_at(s, c, d + 1, tl) {
                PVal::Done(v, c2) => if c < c2 <= s.len() {
                    lemma_arr_items_failure_ok(s, c2, d, tl, open, items.push(v), false);
                },
                _ => {},
            }
        }
    }
}

/// with `fail_on_more`, a value must be followed by no token
pub open spec fn finish_check(s: Seq<u8>, r: PVal, fail_on_more: bool) -> PVal {
    match r {
        PVal::Done(v, c2) => if fail_on_more {
            match next_tok(s, c2) {
                LexStep::End => r,
                LexStep::Tok(t) => PVal::Failed(Fault::TokenAfterEnd(t), ErrorSite::At(t.range)),
                LexStep::Fail(k, site) => PVal::Failed(Fault::Lex(k), site),
                _ => PVal::Failed(Fault::NestingTooDeep, ErrorSite::AtEnd),
            }
        } else {
            r
        },
        failed => failed,
    }
}

/// the range a parse reports for value `v`: for a string, its token with the
/// quotes; for a number, its mantissa
pub open spec fn reported_range(v: SpecValue) -> Span {
    match v {
        SpecValue::Str(r) => sp(r.start - 1, r.end + 1),
        SpecValue::Number(m, _) => m,
        SpecValue::Null(r) => r,
        SpecValue::Bool(r, _) => r,
        SpecValue::Object(r, _) => r,
        SpecValue::Array(r, _) => r,
    }
}

/// what a token read at cursor `c` of the window `s` of the text with bytes
/// `t` looks like there
pub proof fn lemma_token_text(s: Seq<u8>, t: Seq<u8>, c: int, tok: TokenWithContext)
    requires
        s.len() <= t.len(),
        s == t.subrange(0, s.len() as int),
        s.len() <= usize::MAX,
        0 <= c <= s.len(),
        next_tok(s, c) == LexStep::Tok(tok),
    ensures
        token_shape(s, c, tok),
        tok.range.end <= t.len(),
        ascii_boundary(t, tok.range.start as int),
        ascii_boundary(t, tok.range.end as int),
        tok.token is String ==> ascii_boundary(t, tok.range.start + 1) && ascii_boundary(
            t,
            tok.range.end - 1,
        ),
{
    lemma_next_tok_range(s, c);
    assert(s[tok.range.start as int] == t[tok.range.start as int]);
    assert(s[tok.range.end - 1] == t[tok.range.end - 1]);
}

/// the chars of `text` from byte `a` to byte `b`, both next to ASCII bytes
pub fn text_slice(text: &str, a: usize, b: usize) -> (res: &str)
    requires
        a <= b <= text.spec_bytes().len(),
        ascii_boundary(text.spec_bytes(), a as int),
        ascii_boundary(text.spec_bytes(), b as int),
    ensures
        res@ == slice_chars(text.spec_bytes(), Span { start: a, end: b }),
{
    proof {
        lemma_str_bytes(text);
        lemma_ascii_boundary(text.spec_bytes(), a as int);
        lemma_ascii_boundary(text.spec_bytes(), b as int);
    }
    substr(text, a, b)
}

/// the next token must start a value; the error names `expect_ctx`, the token
/// after which the value was expected
pub fn validate_start_of_value(
    text: &str,
    expect_ctx: TokenWithContext,
    maybe_token: Option<TokenWithContext>,
) -> (res: Result<(), Error>)
    requires
        maybe_token matches Some(t) ==> t.range.start <= t.range.end <= text.spec_bytes().len(),
    ensures
        res is Ok <==> (maybe_token matches Some(t) && starts_value(t.token)),
        res matches Err(e) ==> fails(
            e,
            Fault::ExpectedValue(Some(expect_ctx), maybe_token),
            match maybe_token {
                Some(t) => ErrorSite::At(t.range),
                None => ErrorSite::AtEnd,
            },
            text.spec_bytes(),
        ),
{
    let ok = match maybe_token {
        Some(t) => t.token.is_start_of_value(),
        None => false,
    };
    proof {
        lemma_str_bytes(text);
    }
    if ok {
        Ok(())
    } else {
        let found = TokenOption::found(maybe_token, text);
        Err(
            Error::from_maybe_token_with_context(
                ErrorKind::ExpectedValue(Some(expect_ctx), found),
                maybe_token,
                text,
            ),
        )
    }
}

/// reads the scalar token `t`, which is next, and for a mantissa the exponent
/// that follows it, and tells `visitor` of them
fn visit_scalar<V: Visitor>(
    tokens: &mut TokenStream,
    text: &str,
    visitor: &mut V,
    t: TokenWithContext,
) -> (res: Result<Span, Error>)
    requires
        old(tokens).wf(),
        old(tokens).text() == text,
        old(visitor).inv(),
        next_tok(old(tokens).bytes(), old(tokens).cursor()) == LexStep::Tok(t),
        scalar_token(t.token),
    ensures
        final(tokens).wf(),
        final(tokens).text() == text,
        final(tokens).bytes() == old(tokens).bytes(),
        final(visitor).inv(),
        match scalar_at(old(tokens).bytes(), t) {
            PVal::Done(v, c2) => res == Ok::<Span, Error>(reported_range(v)) && final(tokens).cursor()
                == c2 && final(visitor).events() == old(visitor).events() + value_events(
                v,
                text.spec_bytes(),
            ) && spans_ok(v, text.spec_bytes()),
            PVal::Failed(f, site) => res matches Err(e) && fails(e, f, site, text.spec_bytes()),
        },
        res is Ok ==> old(tokens).cursor() < final(tokens).cursor() <= final(tokens).bytes().len(),
{
    let ghost s = tokens.bytes();
    let ghost tb = text.spec_bytes();
    let ghost ev0 = visitor.events();
    proof {
        tokens.lemma_wf();
        lemma_str_bytes(text);
        lemma_token_text(s, tb, tokens.cursor(), t);
    }
    let first = tokens.next_token();
    match first {
        Ok(_) => {},
        Err(e) => {
            return Err(e);
        },
    }
    let range = t.range;
    match t.token {
        Token::String => {
            let body = t.content_range();
            let value = text_slice(text, body.start, body.end);
            visitor.on_string(body, value);
            proof {
                assert(visitor.events() =~= ev0 + value_events(SpecValue::Str(body), tb));
            }
            Ok(range)
        },
        Token::Null => {
            visitor.on_null(range);
            proof {
                assert(visitor.events() =~= ev0 + value_events(SpecValue::Null(range), tb));
            }
            Ok(range)
        },
        Token::True => {
            visitor.on_boolean(range, true);
            proof {
                assert(visitor.events() =~= ev0 + value_events(SpecValue::Bool(range, true), tb));
            }
            Ok(range)
        },
        Token::False => {
            visitor.on_boolean(range, false);
            proof {
                assert(visitor.events() =~= ev0 + value_events(SpecValue::Bool(range, false), tb));
            }
            Ok(range)
        },
        _ => {
            let mantissa = text_slice(text, range.start, range.end);
            visitor.on_mantissa(range, mantissa);
            let ghost ev1 = visitor.events();
            let ghost c1 = tokens.cursor();
            proof {
                tokens.lemma_wf();
            }
            match tokens.peek_token() {
                Ok(Some(e)) => {
                    let bytes = text.as_bytes();
                    let marked = range.end < bytes.len() && (bytes[range.end] == 0x65 || bytes[range.end]
                        == 0x45);
                    if e.token == Token::Exponent && marked {
                        proof {
                            tokens.lemma_wf();
                            lemma_token_text(s, tb, c1, e);
                        }
                        let second = tokens.next_token();
                        match second {
                            Ok(_) => {},
                            Err(err) => {
                                return Err(err);
                            },
                        }
                        if e.range.start != range.end {
                            let exponent = text_slice(text, e.range.start, e.range.end);
                            visitor.on_exponent(e.range, exponent);
                            proof {
                                assert(visitor.events() =~= ev0 + value_events(
                                    SpecValue::Number(range, Some(e.range)),
                                    tb,
                                ));
                            }
                        } else {
                            proof {
                                assert(visitor.events() =~= ev0 + value_events(
                                    SpecValue::Number(range, None),
                                    tb,
                                ));
                            }
                        }
                    } else {
                        proof {
                            assert(visitor.events() =~= ev0 + value_events(
                                SpecValue::Number(range, None),
                                tb,
                            ));
                        }
                    }
                    Ok(range)
                },
                Ok(None) => {
                    proof {
                        assert(visitor.events() =~= ev0 + value_events(
                            SpecValue::Number(range, None),
                            tb,
                        ));
                    }
                    Ok(range)
                },
                Err(err) => Err(err),
            }
        },
    }
}

/// parses the value whose tokens come next, at nesting depth `depth`, and tells
/// `visitor` of it; with `fail_on_multiple_value`, no token may follow it
pub fn parse_tokens_at_depth<V: Visitor>(
    tokens: &mut TokenStream,
    text: &str,
    fail_on_multiple_value: bool,
    visitor: &mut V,
    depth: usize,
) -> (res: Result<Span, Error>)
    requires
        old(tokens).wf(),
        old(tokens).text() == text,
        old(visitor).inv(),
    ensures
        final(tokens).wf(),
        final(tokens).text() == text,
        final(tokens).bytes() == old(tokens).bytes(),
        final(visitor).inv(),
        match finish_check(
            old(tokens).bytes(),
            value_at(
                old(tokens).bytes(),
                old(tokens).cursor(),
                depth as int,
                text.spec_bytes().len() as int,
            ),
            fail_on_multiple_value,
        ) {
            PVal::Done(v, c2) => res == Ok::<Span, Error>(reported_range(v)) && final(tokens).cursor()
                == c2 && final(visitor).events() == old(visitor).events() + value_events(
                v,
                text.spec_bytes(),
            ) && spans_ok(v, text.spec_bytes()),
            PVal::Failed(f, site) => res matches Err(e) && fails(e, f, site, text.spec_bytes()),
        },
        res is Ok ==> old(tokens).cursor() < final(tokens).cursor() <= final(tokens).bytes().len(),
    decreases MAX_DEPTH - depth, 2int,
{
    let ghost s = tokens.bytes();
    let ghost tb = text.spec_bytes();
    let ghost c0 = tokens.cursor();
    proof {
        tokens.lemma_wf();
        lemma_str_bytes(text);
    }
    if depth >= MAX_DEPTH {
        return Err(Error::new(ErrorKind::NestingTooDeep(MAX_DEPTH), Span { start: 0, end: text.len() }, text));
    }
    let peeked = match tokens.peek_token() {
        Ok(p) => p,
        Err(e) => {
            return Err(e);
        },
    };
    let peeked = match peeked {
        Some(p) => p,
        None => {
            let pos = tokens.pos();
            return Err(
                Error::new(ErrorKind::ExpectedValue(None, TokenOption(None)), Span { start: pos, end: pos }, text),
            );
        },
    };
    proof {
        lemma_token_text(s, tb, c0, peeked);
    }
    let range = match peeked.token {
        Token::OpenCurlyBrace => {
            match object::parse_object(tokens, text, depth, visitor) {
                Ok(r) => r,
                Err(e) => {
                    return Err(e);
                },
            }
        },
        Token::OpenSquareBracket => {
            match array::parse_array(tokens, text, depth, visitor) {
                Ok(r) => r,
                Err(e) => {
                    return Err(e);
                },
            }
        },
        Token::String | Token::Null | Token::True | Token::False | Token::Mantissa => {
            match visit_scalar(tokens, text, visitor, peeked) {
                Ok(r) => r,
                Err(e) => {
                    return Err(e);
                },
            }
        },
        t => {
            return Err(
                Error::new(ErrorKind::ExpectedValue(None, TokenOption::from_token(Some(t))), peeked.range, text),
            );
        },
    };
    if fail_on_multiple_value {
        let ghost c2 = tokens.cursor();
        proof {
            tokens.lemma_wf();
        }
        match tokens.peek_token() {
            Ok(Some(twc)) => {
                proof {
                    tokens.lemma_wf();
                    lemma_token_text(s, tb, c2, twc);
                }
                return Err(
                    Error::new(
                        ErrorKind::TokenAfterEnd(ErrorToken::new(twc.token, twc.range, text)),
                        twc.range,
                        text,
                    ),
                );
            },
            Ok(None) => {},
            Err(e) => {
                return Err(e);
            },
        }
    }
    Ok(range)
}

/// parses the value whose tokens come next and tells `visitor` of it; with
/// `fail_on_multiple_value`, no token may follow it
pub fn parse_tokens<V: Visitor>(
    tokens: &mut TokenStream,
    text: &str,
    fail_on_multiple_value: bool,
    visitor: &mut V,
) -> (res: Result<Span, Error>)
    requires
        old(tokens).wf(),
        old(tokens).text() == text,
        old(visitor).inv(),
    ensures
        final(tokens).wf(),
        final(tokens).text() == text,
        final(tokens).bytes() == old(tokens).bytes(),
        final(visitor).inv(),
        match finish_check(
            old(tokens).bytes(),
            value_at(old(tokens).bytes(), old(tokens).cursor(), 0, text.spec_bytes().len() as int),
            fail_on_multiple_value,
        ) {
            PVal::Done(v, c2) => res == Ok::<Span, Error>(reported_range(v)) && final(tokens).cursor()
                == c2 && final(visitor).events() == old(visitor).events() + value_events(
                v,
                text.spec_bytes(),
            ) && spans_ok(v, text.spec_bytes()),
            PVal::Failed(f, site) => res matches Err(e) && fails(e, f, site, text.spec_bytes()),
        },
{
    parse_tokens_at_depth(tokens, text, fail_on_multiple_value, visitor, 0)
}

pub proof fn lemma_spans_ok_entry(r: Span, entries: Seq<(Span, SpecValue)>, t: Seq<u8>, i: int)
    requires
        spans_ok(SpecValue::Object(r, entries), t),
        0 <= i < entries.len(),
    ensures
        span_ok(t, entries[i].0),
        spans_ok(entries[i].1, t),
{
    assert(entries_ok(entries, t));
}

pub proof fn lemma_spans_ok_item(r: Span, items: Seq<SpecValue>, t: Seq<u8>, i: int)
    requires
        spans_ok(SpecValue::Array(r, items), t),
        0 <= i < items.len(),
    ensures
        spans_ok(items[i], t),
{
    assert(items_ok(items, t));
}

pub proof fn lemma_view_entries_prefix(entries: Seq<(Span, Value)>, i: int)
    requires
        0 <= i < entries.len(),
    ensures
        view_entries(entries.subrange(0, i + 1)) == view_entries(entries.subrange(0, i)).push(
            (entries[i].0, entries[i].1@),
        ),
        view_entries(entries).len() == entries.len(),
{
    assert(entries.subrange(0, i + 1).drop_last() =~= entries.subrange(0, i));
    lemma_view_entries_len(entries);
}

pub proof fn lemma_view_entries_len(entries: Seq<(Span, Value)>)
    ensures
        view_entries(entries).len() == entries.len(),
        forall|i: int|
            0 <= i < entries.len() ==> #[trigger] view_entries(entries)[i] == (
                entries[i].0,
                entries[i].1@,
            ),
    decreases entries.len(),
{
    if entries.len() > 0 {
        lemma_view_entries_len(entries.drop_last());
    }
}

pub proof fn lemma_view_items_len(items: Seq<Value>)
    ensures
        view_items(items).len() == items.len(),
        forall|i: int| 0 <= i < items.len() ==> #[trigger] view_items(items)[i] == items[i]@,
    decreases items.len(),
{
    if items.len() > 0 {
        lemma_view_items_len(items.drop_last());
    }
}

pub proof fn lemma_view_items_prefix(items: Seq<Value>, i: int)
    requires
        0 <= i < items.len(),
    ensures
        view_items(items.subrange(0, i + 1)) == view_items(items.subrange(0, i)).push(items[i]@),
{
    assert(items.subrange(0, i + 1).drop_last() =~= items.subrange(0, i));
}

/// tells `visitor` of `val`, a value of `source`, as the parser would
pub fn visit_value<V: Visitor>(source: &str, val: &Value, visitor: &mut V)
    requires
        old(visitor).inv(),
        spans_ok(val@, source.spec_bytes()),
    ensures
        final(visitor).inv(),
        final(visitor).events() == old(visitor).events() + value_events(val@, source.spec_bytes()),
    decreases val,
{
    let ghost tb = source.spec_bytes();
    let ghost ev0 = visitor.events();
    match val {
        Value::Null(r) => {
            visitor.on_null(*r);
            proof {
                assert(visitor.events() =~= ev0 + value_events(val@, tb));
            }
        },
        Value::String(r) => {
            let s = text_slice(source, r.start, r.end);
            visitor.on_string(*r, s);
            proof {
                assert(visitor.events() =~= ev0 + value_events(val@, tb));
            }
        },
        Value::Number { mantissa, exponent } => {
            let m = text_slice(source, mantissa.start, mantissa.end);
            visitor.on_mantissa(*mantissa, m);
            match exponent {
                Some(e) => {
                    let es = text_slice(source, e.start, e.end);
                    visitor.on_exponent(*e, es);
                },
                None => {},
            }
            proof {
                assert(visitor.events() =~= ev0 + value_events(val@, tb));
            }
        },
        Value::Boolean(r, b) => {
            visitor.on_boolean(*r, *b);
            proof {
                assert(visitor.events() =~= ev0 + value_events(val@, tb));
            }
        },
        Value::Object(r, entries) => {
            let ghost es = entries.0@;
            proof {
                lemma_view_entries_len(es);
            }
            visitor.on_object_open(Span { start: r.start, end: r.start + 1 });
            let mut i: usize = 0;
            while i < entries.0.len()
                invariant
                    visitor.inv(),
                    tb == source.spec_bytes(),
                    *val == Value::Object(*r, *entries),
                    es == entries.0@,
                    i <= es.len(),
                    val@ == SpecValue::Object(*r, view_entries(es)),
                    spans_ok(val@, tb),
                    view_entries(es).len() == es.len(),
                    forall|j: int| 0 <= j < es.len() ==> #[trigger] view_entries(es)[j] == (es[j].0, es[j].1@),
                    visitor.events() == ev0 + seq![Event::ObjectOpen(open_span(*r))] + entries_events(
                        view_entries(es.subrange(0, i as int)),
                        tb,
                    ),
                decreases es.len() - i,
            {
                let ghost before = visitor.events();
                let (k, v) = &entries.0[i];
                proof {
                    assert(view_entries(es)[i as int] == (es[i as int].0, es[i as int].1@));
                    lemma_spans_ok_entry(*r, view_entries(es), tb, i as int);
                    assert(*val == Value::Object(*r, *entries));
                    assert(decreases_to!(Value::Object(*r, *entries) => *entries));
                    assert(decreases_to!(*entries => entries.0));
                    assert(decreases_to!(entries.0 => entries.0@));
                    assert(decreases_to!(entries.0@ => entries.0@[i as int]));
                    assert(decreases_to!(entries.0@[i as int] => entries.0@[i as int].1));
                    assert(spans_ok(view_entries(es)[i as int].1, tb));
                    lemma_view_entries_prefix(es, i as int);
                    assert(view_entries(es.subrange(0, i as int)).len() == i) by {
                        lemma_view_entries_len(es.subrange(0, i as int));
                    }
                }
                if i > 0 {
                    visitor.on_item_delim();
                }
                let key = text_slice(source, k.start, k.end);
                visitor.on_object_key(*k, key);
                visitor.on_object_key_val_delim();
                let ghost mid = visitor.events();
                visit_value(source, v, visitor);
                proof {
                    let pre = view_entries(es.subrange(0, i as int));
                    let post = view_entries(es.subrange(0, i + 1));
                    assert(post.drop_last() =~= pre);
                    assert(post.last() == (*k, v@));
                    assert(visitor.events() =~= ev0 + seq![Event::ObjectOpen(open_span(*r))] + entries_events(post, tb));
                }
                i = i + 1;
            }
            visitor.on_object_close(Span { start: r.end - 1, end: r.end });
            proof {
                assert(es.subrange(0, es.len() as int) =~= es);
                assert(visitor.events() =~= ev0 + value_events(val@, tb));
            }
        },
        Value::Array(r, items) => {
            let ghost xs = items@;
            proof {
                lemma_view_items_len(xs);
            }
            visitor.on_array_open(Span { start: r.start, end: r.start + 1 });
            let mut i: usize = 0;
            while i < items.len()
                invariant
                    visitor.inv(),
                    tb == source.spec_bytes(),
                    *val == Value::Array(*r, *items),
                    xs == items@,
                    i <= xs.len(),
                    val@ == SpecValue::Array(*r, view_items(xs)),
                    spans_ok(val@, tb),
                    view_items(xs).len() == xs.len(),
                    forall|j: int| 0 <= j < xs.len() ==> #[trigger] view_items(xs)[j] == xs[j]@,
                    visitor.events() == ev0 + seq![Event::ArrayOpen(open_span(*r))] + items_events(
                        view_items(xs.subrange(0, i as int)),
                        tb,
                    ),
                decreases xs.len() - i,
            {
                let v = &items[i];
                proof {
                    assert(view_items(xs)[i as int] == xs[i as int]@);
                    lemma_spans_ok_item(*r, view_items(xs), tb, i as int);
                    assert(*val == Value::Array(*r, *items));
                    assert(decreases_to!(Value::Array(*r, *items) => *items));
                    assert(decreases_to!(*items => items@));
                    assert(decreases_to!(items@ => items@[i as int]));
                    lemma_view_items_prefix(xs, i as int);
                    assert(view_items(xs.subrange(0, i as int)).len() == i) by {
                        lemma_view_items_len(xs.subrange(0, i as int));
                    }
                }
                if i > 0 {
                    visitor.on_item_delim();
                }
                visit_value(source, v, visitor);
                proof {
                    let pre = view_items(xs.subrange(0, i as int));
                    let post = view_items(xs.subrange(0, i + 1));
                    assert(post.drop_last() =~= pre);
                    assert(post.last() == v@);
                    assert(visitor.events() =~= ev0 + seq![Event::ArrayOpen(open_span(*r))] + items_events(post, tb));
                }
                i = i + 1;
            }
            visitor.on_array_close(Span { start: r.end - 1, end: r.end });
            proof {
                assert(xs.subrange(0, xs.len() as int) =~= xs);
                assert(visitor.events() =~= ev0 + value_events(val@, tb));
            }
        },
    }
}

/// tells `visitor` of the value that `doc` holds, as the parser did
pub fn visit_document<V: Visitor>(doc: &Document, visitor: &mut V)
    requires
        old(visitor).inv(),
        doc.wf(),
    ensures
        final(visitor).inv(),
        final(visitor).events() == old(visitor).events() + value_events(
            doc.spec_root(),
            doc.spec_source().spec_bytes(),
        ),
{
    proof {
        doc.lemma_wf();
    }
    visit_value(doc.source(), doc.root(), visitor);
}

} // verus!
