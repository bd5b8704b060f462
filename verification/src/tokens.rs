//! tokens of JSON text and the lexer that produces them
pub mod lexical;
pub mod number;
pub mod stream;
pub mod string;

use vstd::prelude::*;

pub use stream::TokenStream;

use vstd::utf8::*;

use crate::text::{ascii_boundary, char_at, first_char, lemma_ascii_boundary, placed};
use crate::tokens::lexical::{JsonByte, JsonChar};

verus! {

/// where an error is reported: a span of the text, or the end of the input
#[derive(Debug, PartialEq, Eq, Clone, Copy, Structural)]
pub enum ErrorSite {
    At(Span),
    AtEnd,
}

/// the char that starts at byte `p` of `s`; `None` at the end
pub open spec fn char_opt_at(s: Seq<u8>, p: int) -> Option<JsonChar> {
    if 0 <= p < s.len() {
        Some(JsonChar(first_char(s.subrange(p, s.len() as int)).0))
    } else {
        None
    }
}

/// where an error about the char at byte `p` of `s` is reported
pub open spec fn char_site(s: Seq<u8>, p: int) -> ErrorSite {
    if 0 <= p < s.len() {
        ErrorSite::At(
            Span { start: p as usize, end: (p + first_char(s.subrange(p, s.len() as int)).1) as usize },
        )
    } else {
        ErrorSite::AtEnd
    }
}

/// an error at `site` is reported at a place of the text with bytes `t`
pub open spec fn site_placed(t: Seq<u8>, site: ErrorSite) -> bool {
    match site {
        ErrorSite::At(r) => placed(t, r),
        ErrorSite::AtEnd => true,
    }
}

/// an error about the char at a char boundary of UTF-8 text is reported from
/// that boundary to the next
pub proof fn lemma_char_site_placed(s: Seq<u8>, q: int)
    requires
        valid_utf8(s),
        s.len() <= usize::MAX,
        0 <= q,
        is_char_boundary(s, q),
    ensures
        site_placed(s, char_site(s, q)),
{
    if q < s.len() {
        valid_utf8_split(s, q);
        let rest = s.subrange(q, s.len() as int);
        let k = length_of_first_scalar(rest);
        assert(is_char_boundary(rest, k)) by {
            reveal_with_fuel(is_char_boundary, 2);
        }
        if q + k < s.len() {
            is_char_boundary_iff_not_is_continuation_byte(rest, k);
            is_char_boundary_iff_not_is_continuation_byte(s, q + k);
            assert(rest[k] == s[q + k]);
        } else {
            is_char_boundary_start_end_of_seq(s);
        }
    }
}

/// the span of a byte range
pub open spec fn sp(a: int, b: int) -> Span {
    Span { start: a as usize, end: b as usize }
}

/// the char that starts at byte `pos`, with the bytes it takes; `None` at the end
pub fn current_char_with_context(s: &[u8], pos: usize) -> (res: Option<CharWithContext>)
    requires
        pos <= s@.len(),
        valid_utf8(s@),
        ascii_boundary(s@, pos as int) || is_char_boundary(s@, pos as int),
    ensures
        res is None <==> pos == s@.len(),
        res matches Some(c) ==> c.1 == char_opt_at(s@, pos as int).unwrap() && char_site(s@, pos as int)
            == ErrorSite::At(c.0),
        res matches Some(c) ==> pos < c.0.end <= s@.len(),
{
    if pos == s.len() {
        None
    } else {
        proof {
            if ascii_boundary(s@, pos as int) {
                lemma_ascii_boundary(s@, pos as int);
            }
            valid_utf8_split(s@, pos as int);
        }
        let (c, n) = char_at(s, pos);
        Some(CharWithContext(Span { start: pos, end: pos + n }, JsonChar(c)))
    }
}

/// a half-open range of byte offsets
#[derive(Debug, PartialEq, Eq, Clone, Copy, Hash, Structural)]
pub struct Span {
    pub start: usize,
    pub end: usize,
}

impl Span {
    pub fn new(start: usize, end: usize) -> (res: Self)
        ensures
            res.start == start,
            res.end == end,
    {
        Span { start, end }
    }
}

/// the kinds of JSON tokens
#[derive(Debug, PartialEq, Eq, Clone, Copy, Structural)]
pub enum Token {
    OpenCurlyBrace,
    ClosedCurlyBrace,
    Colon,
    Comma,
    OpenSquareBracket,
    ClosedSquareBracket,
    String,
    Mantissa,
    Exponent,
    Null,
    True,
    False,
}

/// tokens that can begin a JSON value
pub open spec fn starts_value(t: Token) -> bool {
    t is OpenCurlyBrace || t is OpenSquareBracket || t is String || t is Null || t is True
        || t is False || t is Mantissa
}

/// tokens that are complete JSON values on their own
pub open spec fn scalar_token(t: Token) -> bool {
    t is String || t is Null || t is True || t is False || t is Mantissa
}

impl Token {
    pub fn is_start_of_value(&self) -> (res: bool)
        ensures
            res == starts_value(*self),
    {
        match self {
            Token::OpenCurlyBrace | Token::OpenSquareBracket | Token::String | Token::Null
            | Token::True | Token::False | Token::Mantissa => true,
            _ => false,
        }
    }

    pub fn is_scalar(&self) -> (res: bool)
        ensures
            res == scalar_token(*self),
    {
        match self {
            Token::String | Token::Null | Token::True | Token::False | Token::Mantissa => true,
            _ => false,
        }
    }

    /// the literal token for a boolean
    pub fn from_bool(value: bool) -> (res: Token)
        ensures
            res == (if value {
                Token::True
            } else {
                Token::False
            }),
    {
        if value {
            Token::True
        } else {
            Token::False
        }
    }
}

/// a token and the bytes it covers
#[derive(Debug, Clone, Copy, PartialEq, Eq, Structural)]
pub struct TokenWithContext {
    pub token: Token,
    pub range: Span,
}

/// the bytes of a string token between its quotes; the token's own range otherwise
pub open spec fn spec_content_range(t: TokenWithContext) -> Span {
    if t.token is String {
        Span { start: (t.range.start + 1) as usize, end: (t.range.end - 1) as usize }
    } else {
        t.range
    }
}

impl TokenWithContext {
    pub fn new(token: Token, range: core::ops::Range<usize>) -> (res: Self)
        ensures
            res.token == token,
            res.range == (Span { start: range.start, end: range.end }),
    {
        Self { token, range: Span { start: range.start, end: range.end } }
    }

    /// the bytes a token stands for: the body of a string token, without its
    /// quotes; the whole range of any other token
    pub fn content_range(&self) -> (res: Span)
        requires
            self.token is String ==> 1 <= self.range.end && self.range.start < usize::MAX,
        ensures
            res == spec_content_range(*self),
    {
        match self.token {
            Token::String => Span { start: self.range.start + 1, end: self.range.end - 1 },
            _ => self.range,
        }
    }
}

pub const NULL: &'static str = "null";

pub const FALSE: &'static str = "false";

pub const TRUE: &'static str = "true";

/// the char of an optional char with its bytes, and the bytes
pub(crate) fn split_char(c: Option<CharWithContext>) -> (res: (Option<JsonChar>, Option<Span>))
    ensures
        res.0 == (match c {
            Some(c) => Some(c.1),
            None => None::<JsonChar>,
        }),
        res.1 == (match c {
            Some(c) => Some(c.0),
            None => None::<Span>,
        }),
{
    match c {
        Some(CharWithContext(r, ch)) => (Some(ch), Some(r)),
        None => (None, None),
    }
}

/// a char and the bytes it takes
#[derive(Debug, Clone, Copy, PartialEq, Eq, Structural)]
pub struct CharWithContext(pub Span, pub JsonChar);

impl CharWithContext {
    /// the char `c` found at byte `i`
    pub fn from_index(i: usize, c: char) -> (res: Self)
        requires
            i + 4 <= usize::MAX,
        ensures
            res.0.start == i,
            res.0.end == i + spec_len_utf8(c),
            (res.1).0 == c,
    {
        CharWithContext(Span { start: i, end: i + len_utf8(c) }, JsonChar(c))
    }
}

/// number of bytes in the UTF-8 encoding of `c`
pub open spec fn spec_len_utf8(c: char) -> nat {
    if (c as u32) < 0x80 {
        1
    } else if (c as u32) < 0x800 {
        2
    } else if (c as u32) < 0x10000 {
        3
    } else {
        4
    }
}

/// number of bytes in the UTF-8 encoding of `c`
pub fn len_utf8(c: char) -> (res: usize)
    ensures
        res == spec_len_utf8(c),
{
    let v = c as u32;
    if v < 0x80 {
        1
    } else if v < 0x800 {
        2
    } else if v < 0x10000 {
        3
    } else {
        4
    }
}

/// a byte and its offset
#[derive(Debug, Clone, Copy, PartialEq, Eq, Structural)]
pub struct ByteWithContext(pub usize, pub JsonByte);

impl ByteWithContext {
    pub fn range(&self) -> (res: Span)
        requires
            self.0 < usize::MAX,
        ensures
            res == (Span { start: self.0, end: (self.0 + 1) as usize }),
    {
        Span { start: self.0, end: self.0 + 1 }
    }

    /// the structural token this byte is, if it is one
    pub fn as_token_with_context(&self) -> (res: Option<TokenWithContext>)
        requires
            self.0 < usize::MAX,
        ensures
            res == (match lexical::spec_byte_token((self.1).0) {
                Some(t) => Some(
                    TokenWithContext { token: t, range: Span { start: self.0, end: (self.0 + 1) as usize } },
                ),
                None => None::<TokenWithContext>,
            }),
    {
        match self.1.as_token() {
            Some(t) => Some(TokenWithContext { token: t, range: self.range() }),
            None => None,
        }
    }

    pub fn as_byte(&self) -> (res: u8)
        ensures
            res == (self.1).0,
    {
        self.1.0
    }
}

} // verus!
