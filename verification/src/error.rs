//! what went wrong while parsing JSON, and where
use vstd::prelude::*;
use vstd::utf8::*;
use vstd::string::StringSliceAdditionalSpecFns;

use vstd::slice::{slice_subrange, slice_to_vec};

use crate::bytes2chars::{Utf8CharIndices, decode_all};
use crate::text::{lemma_ascii_boundary, lossy_utf8, placed, string_from_utf8_lossy};
use crate::tokens::lexical::{JsonChar, is_ws, trimmed_end, trimmed_len};
use crate::tokens::{ErrorSite, Span, Token, TokenWithContext};
use crate::traverse::found_matches;

verus! {

/// a token named in an error, with the text it covers
#[derive(Debug, PartialEq, Eq, Clone)]
pub struct ErrorToken {
    pub(crate) tag: Token,
    content: String,
}

impl ErrorToken {
    /// the token `tag` that covers `range` of `source`
    pub fn new(tag: Token, range: Span, source: &str) -> (res: Self)
        requires
            range.start <= range.end <= source.spec_bytes().len(),
        ensures
            res.spec_tag() == tag,
            valid_utf8(source.spec_bytes().subrange(range.start as int, range.end as int))
                ==> res.spec_content() == decode_utf8(
                source.spec_bytes().subrange(range.start as int, range.end as int),
            ),
    {
        let bytes = source.as_bytes();
        let slice = &bytes[range.start..range.end];
        ErrorToken { tag, content: string_from_utf8_lossy(slice) }
    }

    pub closed spec fn spec_content(&self) -> Seq<char> {
        self.content@
    }

    pub closed spec fn spec_tag(&self) -> Token {
        self.tag
    }

    /// the text that the token covers
    pub fn content(&self) -> (res: &str)
        ensures
            res@ == self.spec_content(),
    {
        self.content.as_str()
    }

    /// the tag of the token
    pub fn tag(&self) -> (res: Token)
        ensures
            res == self.spec_tag(),
    {
        self.tag
    }
}

/// the token found where something else was expected; `None` at the end of input
#[derive(Debug, PartialEq, Eq, Clone)]
pub struct TokenOption(pub Option<ErrorToken>);

impl TokenOption {
    /// the token found, with the text it covers; `None` at the end of the input
    pub fn found(maybe_token: Option<TokenWithContext>, text: &str) -> (res: Self)
        requires
            maybe_token matches Some(t) ==> t.range.start <= t.range.end <= text.spec_bytes().len(),
        ensures
            found_matches(res, maybe_token, text.spec_bytes()),
    {
        match maybe_token {
            Some(t) => TokenOption(Some(ErrorToken::new(t.token, t.range, text))),
            None => TokenOption(None),
        }
    }

    /// a token found, named by its kind alone
    pub fn from_token(value: Option<Token>) -> (res: Self)
        ensures
            res.0 is Some <==> value is Some,
            res.0 matches Some(e) ==> e.spec_tag() == value.unwrap() && e.spec_content().len() == 0,
    {
        match value {
            Some(t) => TokenOption(Some(ErrorToken { tag: t, content: String::new() })),
            None => TokenOption(None),
        }
    }
}

/// the char found where something else was expected; `None` at the end of input
#[derive(Debug, PartialEq, Eq, Clone, Copy)]
pub struct JsonCharOption(pub Option<JsonChar>);

/// the kinds of JSON syntax errors
#[derive(Debug, PartialEq, Eq, Clone)]
pub enum ErrorKind {
    /// expected key after a comma
    ExpectedKey(TokenWithContext, TokenOption),
    /// expected colon after key
    ExpectedColon(TokenWithContext, TokenOption),
    /// expected json value
    ExpectedValue(Option<TokenWithContext>, TokenOption),
    /// expected entry or closed delimiter
    ExpectedEntryOrClosedDelimiter { open_ctx: TokenWithContext, expected: JsonChar, found: TokenOption },
    /// expected comma or closed curly brace
    ExpectedCommaOrClosedCurlyBrace { range: Span, open_ctx: TokenWithContext, found: TokenOption },
    /// expected open brace
    ExpectedOpenBrace { expected: JsonChar, context: Option<TokenWithContext>, found: TokenOption },
    /// expected digit following minus sign
    ExpectedDigitFollowingMinus(Span, JsonCharOption),
    /// expected '-' or digit to start number
    ExpectedMinusOrDigit(JsonCharOption),
    /// unexpected leading zero
    UnexpectedLeadingZero { initial: Span, extra: Span },
    /// expected fraction digit following dot
    ExpectedDigitAfterDot { number_range: Span, dot_range: Span, maybe_c: JsonCharOption },
    /// expected +/- or digit after exponent indicator
    ExpectedPlusOrMinusOrDigitAfterE { e_range: Span, maybe_c: JsonCharOption },
    /// expected digit after exponent indicator
    ExpectedDigitAfterE { exponent_range: Span, maybe_c: JsonCharOption },
    /// unexpected unescaped control character in string literal
    UnexpectedControlCharacterInString(JsonChar),
    /// expected closing quote
    ExpectedQuote { open_range: Span, string_range: Span },
    /// expected hex digit of an escape
    ExpectedHexDigit {
        quote_range: Span,
        slash_range: Span,
        u_range: Span,
        maybe_c: JsonCharOption,
        digit_idx: usize,
    },
    /// expected escapable sequence
    ExpectedEscape { maybe_c: JsonCharOption, slash_range: Span, string_range: Span, quote_range: Span },
    /// invalid utf-8 encoding
    InvalidEncoding(crate::bytes2chars::ErrorKind),
    /// unexpected character, expected start of a json value
    UnexpectedCharacter(JsonChar),
    /// unexpected token after json finished
    TokenAfterEnd(ErrorToken),
    /// json is nested too deeply
    NestingTooDeep(usize),
}

/// the closing delimiter for an opening one
pub open spec fn spec_closing_delimiter(t: Token) -> Option<char> {
    if t is OpenCurlyBrace {
        Some('}')
    } else if t is OpenSquareBracket {
        Some(']')
    } else {
        None
    }
}

pub fn closing_delimiter_for_open(token: Token) -> (res: Option<JsonChar>)
    ensures
        res == (match spec_closing_delimiter(token) {
            Some(c) => Some(JsonChar(c)),
            None => None::<JsonChar>,
        }),
{
    match token {
        Token::OpenCurlyBrace => Some(JsonChar('}')),
        Token::OpenSquareBracket => Some(JsonChar(']')),
        _ => None,
    }
}

impl ErrorKind {
    /// the error for a missing entry or closed delimiter after `open_ctx`, which must open a container
    pub fn expected_entry_or_closed_delimiter(open_ctx: TokenWithContext, found: TokenOption) -> (res:
        Option<Self>)
        ensures
            spec_closing_delimiter(open_ctx.token) is None ==> res is None,
            spec_closing_delimiter(open_ctx.token) matches Some(c) ==> res == Some(
                ErrorKind::ExpectedEntryOrClosedDelimiter { open_ctx, expected: JsonChar(c), found },
            ),
    {
        match closing_delimiter_for_open(open_ctx.token) {
            Some(expected) => Some(ErrorKind::ExpectedEntryOrClosedDelimiter { open_ctx, expected, found }),
            None => None,
        }
    }
}

/// the inner data of an error, boxed to keep results small
#[derive(Debug, PartialEq, Eq, Clone)]
pub struct ErrorInner {
    pub(crate) kind: ErrorKind,
    pub(crate) range: Span,
    pub(crate) source_text: String,
    pub(crate) source_name: String,
}

/// a JSON syntax error with the text it was found in
#[derive(Debug, PartialEq, Eq, Clone)]
pub struct Error(pub(crate) Box<ErrorInner>);

/// bytes taken by the last char of `s`
pub open spec fn last_char_len(s: Seq<u8>) -> int {
    let n = s.len() as int;
    if n >= 1 && !is_continuation_byte(s[n - 1]) {
        1
    } else if n >= 2 && !is_continuation_byte(s[n - 2]) {
        2
    } else if n >= 3 && !is_continuation_byte(s[n - 3]) {
        3
    } else if n >= 4 {
        4
    } else {
        n
    }
}

/// the range reported when input ends too early: the last char that is not whitespace
pub open spec fn unterminated_span(s: Seq<u8>) -> Span {
    let t = trimmed_end(s);
    Span { start: (t - last_char_len(s.subrange(0, t))) as usize, end: t as usize }
}

proof fn lemma_trimmed_end(s: Seq<u8>)
    ensures
        0 <= trimmed_end(s) <= s.len(),
        forall|i: int| trimmed_end(s) <= i < s.len() ==> is_ws(#[trigger] s[i]),
    decreases s.len(),
{
    if s.len() > 0 && is_ws(s.last()) {
        lemma_trimmed_end(s.drop_last());
        assert forall|i: int| trimmed_end(s) <= i < s.len() implies is_ws(#[trigger] s[i]) by {
            if i < s.len() - 1 {
                assert(s[i] == s.drop_last()[i]);
            }
        }
    }
}

/// in UTF-8 text no four bytes in a row are continuation bytes
proof fn lemma_no_four_continuations(b: Seq<u8>, i: int)
    requires
        valid_utf8(b),
        3 <= i < b.len(),
        is_continuation_byte(b[i]),
        is_continuation_byte(b[i - 1]),
        is_continuation_byte(b[i - 2]),
    ensures
        !is_continuation_byte(b[i - 3]),
    decreases b.len(),
{
    let k = length_of_first_scalar(b);
    let pop = pop_first_scalar(b);
    is_char_boundary_iff_not_is_continuation_byte(b, 0);
    if i - 3 >= k {
        assert(pop[i - k] == b[i]);
        assert(pop[i - k - 1] == b[i - 1]);
        assert(pop[i - k - 2] == b[i - 2]);
        assert(pop[i - k - 3] == b[i - 3]);
        lemma_no_four_continuations(pop, i - k);
    } else if i - 3 > 0 {
        assert(pop[0] == b[k]);
        is_char_boundary_start_end_of_seq(pop);
        is_char_boundary_iff_not_is_continuation_byte(pop, 0);
    }
}

/// the last char before trailing whitespace of UTF-8 text lies between char
/// boundaries of it
pub proof fn lemma_unterminated_placed(s: Seq<u8>)
    requires
        valid_utf8(s),
        s.len() <= usize::MAX,
    ensures
        placed(s, unterminated_span(s)),
{
    let te = trimmed_end(s);
    lemma_trimmed_end(s);
    is_char_boundary_start_end_of_seq(s);
    if te < s.len() {
        assert(is_ws(s[te]));
        lemma_ascii_boundary(s, te);
    }
    let b = s.subrange(0, te);
    let n = te;
    let k = last_char_len(b);
    if n >= 4 && is_continuation_byte(b[n - 1]) && is_continuation_byte(b[n - 2]) && is_continuation_byte(
        b[n - 3],
    ) {
        valid_utf8_split(s, te);
        lemma_no_four_continuations(b, n - 1);
    }
    if te - k > 0 {
        assert(s[te - k] == b[te - k]);
        is_char_boundary_iff_not_is_continuation_byte(s, te - k);
    }
}

fn last_char_len_exec(s: &[u8], t: usize) -> (res: usize)
    requires
        t <= s@.len(),
    ensures
        res == last_char_len(s@.subrange(0, t as int)),
{
    let ghost p = s@.subrange(0, t as int);
    if t >= 1 && !(0x80 <= s[t - 1] && s[t - 1] <= 0xBF) {
        assert(p[t - 1] == s@[t - 1]);
        1
    } else if t >= 2 && !(0x80 <= s[t - 2] && s[t - 2] <= 0xBF) {
        assert(p[t - 1] == s@[t - 1]);
        assert(p[t - 2] == s@[t - 2]);
        2
    } else if t >= 3 && !(0x80 <= s[t - 3] && s[t - 3] <= 0xBF) {
        assert(p[t - 1] == s@[t - 1]);
        assert(p[t - 2] == s@[t - 2]);
        assert(p[t - 3] == s@[t - 3]);
        3
    } else if t >= 4 {
        assert(p[t - 1] == s@[t - 1]);
        assert(p[t - 2] == s@[t - 2]);
        assert(p[t - 3] == s@[t - 3]);
        4
    } else {
        t
    }
}

/// `k` is an error of the lexer: one about the characters of a single token
pub open spec fn lexical(k: ErrorKind) -> bool {
    !(k is ExpectedKey || k is ExpectedColon || k is ExpectedValue
        || k is ExpectedEntryOrClosedDelimiter || k is ExpectedCommaOrClosedCurlyBrace
        || k is ExpectedOpenBrace || k is TokenAfterEnd || k is NestingTooDeep)
}

/// the range reported for an error at `site` of the text with bytes `t`
pub open spec fn site_range(site: ErrorSite, t: Seq<u8>) -> Span {
    match site {
        ErrorSite::At(r) => r,
        ErrorSite::AtEnd => unterminated_span(t),
    }
}

/// `e` is the error `kind` at `site` of `text`
pub open spec fn reports(e: Error, kind: ErrorKind, site: ErrorSite, text: &str) -> bool {
    &&& e.spec_kind() == kind
    &&& e.spec_range() == site_range(site, text.spec_bytes())
    &&& e.spec_source_text() == text@
    &&& e.spec_source_name() == "stdin"@
}

/// the site of an optional span: the end of the input when there is none
pub open spec fn opt_site(r: Option<Span>) -> ErrorSite {
    match r {
        Some(r) => ErrorSite::At(r),
        None => ErrorSite::AtEnd,
    }
}

/// the bytes of `s` are the first bytes of `text`, and are valid UTF-8 on their own
pub open spec fn window_of(s: Seq<u8>, text: &str) -> bool {
    &&& s.len() <= text.spec_bytes().len()
    &&& s == text.spec_bytes().subrange(0, s.len() as int)
    &&& valid_utf8(s)
}

impl Error {
    pub closed spec fn spec_kind(&self) -> ErrorKind {
        self.0.kind
    }

    pub closed spec fn spec_range(&self) -> Span {
        self.0.range
    }

    pub closed spec fn spec_source_name(&self) -> Seq<char> {
        self.0.source_name@
    }

    pub closed spec fn spec_source_text(&self) -> Seq<char> {
        self.0.source_text@
    }

    /// the error `kind` at `range` of `text`
    pub fn new(kind: ErrorKind, range: Span, text: &str) -> (res: Self)
        ensures
            res.spec_kind() == kind,
            res.spec_range() == range,
            res.spec_source_text() == text@,
            res.spec_source_name() == "stdin"@,
    {
        Error(
            Box::new(
                ErrorInner {
                    kind,
                    range,
                    source_text: text.to_owned(),
                    source_name: "stdin".to_owned(),
                },
            ),
        )
    }

    /// the error `kind` for input that ended too early, reported at the last
    /// char of `text` that is not whitespace
    pub fn from_unterminated(kind: ErrorKind, text: &str) -> (res: Self)
        ensures
            res.spec_kind() == kind,
            res.spec_range() == unterminated_span(text.spec_bytes()),
            res.spec_source_text() == text@,
            res.spec_source_name() == "stdin"@,
    {
        let bytes = text.as_bytes();
        let t = trimmed_len(bytes);
        let n = last_char_len_exec(bytes, t);
        Self::new(kind, Span { start: t - n, end: t }, text)
    }

    /// the error `kind` at the token `maybe_token`; at the end of the input when there is none
    pub fn from_maybe_token_with_context(
        kind: ErrorKind,
        maybe_token: Option<TokenWithContext>,
        text: &str,
    ) -> (res: Self)
        ensures
            res.spec_kind() == kind,
            res.spec_range() == (match maybe_token {
                Some(t) => t.range,
                None => unterminated_span(text.spec_bytes()),
            }),
            res.spec_source_text() == text@,
            res.spec_source_name() == "stdin"@,
    {
        match maybe_token {
            Some(twc) => Error::new(kind, twc.range, text),
            None => Error::from_unterminated(kind, text),
        }
    }

    /// the error `kind` at the char found at `maybe_c`; at the end of the input when there is none
    pub fn from_maybe_json_char_with_context(
        kind: ErrorKind,
        maybe_c: Option<Span>,
        text: &str,
    ) -> (res: Self)
        ensures
            reports(res, kind, opt_site(maybe_c), text),
            res.spec_kind() == kind,
            res.spec_range() == (match maybe_c {
                Some(r) => r,
                None => unterminated_span(text.spec_bytes()),
            }),
            res.spec_source_text() == text@,
            res.spec_source_name() == "stdin"@,
    {
        match maybe_c {
            Some(r) => Error::new(kind, r, text),
            None => Error::from_unterminated(kind, text),
        }
    }

    /// the kind of error
    pub fn kind(&self) -> (res: &ErrorKind)
        ensures
            *res == self.spec_kind(),
    {
        &self.0.kind
    }

    /// the byte range of the error
    pub fn range(&self) -> (res: Span)
        ensures
            res == self.spec_range(),
    {
        self.0.range
    }

    /// the text the error was found in
    pub fn source_text(&self) -> (res: &str)
        ensures
            res@ == self.spec_source_text(),
    {
        self.0.source_text.as_str()
    }

    /// the name of the text the error was found in
    pub fn source_name(&self) -> (res: &str)
        ensures
            res@ == self.spec_source_name(),
    {
        self.0.source_name.as_str()
    }
}

/// the first thing decoding `bytes` from `valid_up_to` reports
pub open spec fn first_decoded(bytes: Seq<u8>, valid_up_to: int) -> Result<(usize, char), crate::bytes2chars::Error> {
    decode_all(bytes.subrange(valid_up_to, bytes.len() as int), valid_up_to)[0]
}

impl Error {
    /// the error for `bytes`, which are not UTF-8 from byte `valid_up_to` on:
    /// it says why, and is reported at `valid_up_to`, three bytes long as the
    /// replacement char that takes the place of the bad bytes in the text
    pub fn from_utf8_error_slice(valid_up_to: usize, bytes: &[u8]) -> (res: Error)
        requires
            valid_up_to <= bytes@.len(),
            bytes@.len() + 3 <= usize::MAX,
            decode_all(bytes@.subrange(valid_up_to as int, bytes@.len() as int), valid_up_to as int).len() > 0,
            first_decoded(bytes@, valid_up_to as int) is Err,
        ensures
            res.spec_kind() == ErrorKind::InvalidEncoding(
                first_decoded(bytes@, valid_up_to as int)->Err_0.kind,
            ),
            res.spec_range() == (Span { start: valid_up_to, end: (valid_up_to + 3) as usize }),
            res.spec_source_name() == "stdin"@,
            res.spec_source_text() == lossy_utf8(bytes@),
            valid_utf8(bytes@) ==> res.spec_source_text() == decode_utf8(bytes@),
    {
        let rest = slice_to_vec(slice_subrange(bytes, valid_up_to, bytes.len()));
        let mut decoder = Utf8CharIndices::new(rest, valid_up_to);
        let kind = match decoder.next() {
            Some(Err(e)) => e.kind,
            _ => {
                proof {
                    assert(false);
                }
                crate::bytes2chars::ErrorKind::UnfinishedSequence
            },
        };
        Error(
            Box::new(
                ErrorInner {
                    kind: ErrorKind::InvalidEncoding(kind),
                    range: Span { start: valid_up_to, end: valid_up_to + 3 },
                    source_text: string_from_utf8_lossy(bytes),
                    source_name: "stdin".to_owned(),
                },
            ),
        )
    }
}

} // verus!
