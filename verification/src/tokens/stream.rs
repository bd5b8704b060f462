//! the lexer: JSON text to tokens, read one at a time
use vstd::prelude::*;
use vstd::string::StringSliceAdditionalSpecFns;
use vstd::utf8::*;

use crate::diagnostics::{at, contexts_placed_at, patches_placed_at};
use crate::error::{Error, ErrorKind, lemma_unterminated_placed, lexical, reports, site_range, window_of};
use crate::text::{ascii_boundary, lemma_ascii_boundary, lemma_str_bytes, placed};
use crate::tokens::lexical::{JsonChar, is_ws, spec_byte_token};
use crate::tokens::number::{
    exponent_scan, is_digit, mantissa_scan, scan_exponent, scan_mantissa, Scan,
};
use crate::tokens::string::{scan_string, string_scan};
use crate::tokens::{
    ErrorSite, Span, Token, TokenWithContext, char_opt_at, char_site, current_char_with_context,
    lemma_char_site_placed, site_placed, sp,
};

verus! {

/// one step of the lexer at a byte that is not whitespace
pub enum LexStep {
    /// no token is left
    End,
    /// a token; reading goes on where it ends
    Tok(TokenWithContext),
    /// the input is no JSON text here
    Fail(ErrorKind, ErrorSite),
}

/// the first offset at or after `p` that holds no whitespace
pub open spec fn ws_end(s: Seq<u8>, p: int) -> int
    decreases s.len() - p,
{
    if 0 <= p < s.len() && is_ws(s[p]) {
        ws_end(s, p + 1)
    } else {
        p
    }
}

/// the bytes of the literal that starts with byte `b`, if one does
pub open spec fn literal_of(b: u8) -> Option<(Token, Seq<u8>)> {
    if b == 0x6E {
        Some((Token::Null, seq![0x6Eu8, 0x75u8, 0x6Cu8, 0x6Cu8]))
    } else if b == 0x74 {
        Some((Token::True, seq![0x74u8, 0x72u8, 0x75u8, 0x65u8]))
    } else if b == 0x66 {
        Some((Token::False, seq![0x66u8, 0x61u8, 0x6Cu8, 0x73u8, 0x65u8]))
    } else {
        None
    }
}

/// the error for a byte that starts no token
pub open spec fn unexpected_at(s: Seq<u8>, q: int) -> LexStep {
    LexStep::Fail(ErrorKind::UnexpectedCharacter(char_opt_at(s, q).unwrap()), char_site(s, q))
}

/// a token read by one of the scanners, as a lexer step
pub open spec fn scanned(t: Token, q: int, r: Scan<int>) -> LexStep {
    match r {
        Ok(e) => LexStep::Tok(TokenWithContext { token: t, range: sp(q, e) }),
        Err((k, site)) => LexStep::Fail(k, site),
    }
}

/// the token that starts at byte `q` of `s`, which is no whitespace
#[verifier::opaque]
pub open spec fn lex_token(s: Seq<u8>, q: int) -> LexStep {
    let b = s[q];
    if spec_byte_token(b) is Some {
        LexStep::Tok(TokenWithContext { token: spec_byte_token(b).unwrap(), range: sp(q, q + 1) })
    } else if b == 0x22 {
        scanned(Token::String, q, string_scan(s, q))
    } else if is_digit(b) || b == 0x2D {
        scanned(Token::Mantissa, q, mantissa_scan(s, q))
    } else if b == 0x65 || b == 0x45 {
        match exponent_scan(s, q) {
            Ok((Some(r), _)) => LexStep::Tok(TokenWithContext { token: Token::Exponent, range: r }),
            Ok((None, e)) => LexStep::Tok(TokenWithContext { token: Token::Exponent, range: sp(q, e) }),
            Err((k, site)) => LexStep::Fail(k, site),
        }
    } else if literal_of(b) is Some {
        let (t, lit) = literal_of(b).unwrap();
        if q + lit.len() <= s.len() && s.subrange(q, q + lit.len()) == lit {
            LexStep::Tok(TokenWithContext { token: t, range: sp(q, q + lit.len()) })
        } else {
            unexpected_at(s, q)
        }
    } else {
        unexpected_at(s, q)
    }
}

/// the next token of `s` at or after byte `p`, past whitespace
pub open spec fn next_tok(s: Seq<u8>, p: int) -> LexStep {
    let q = ws_end(s, p);
    if q < p || q >= s.len() {
        LexStep::End
    } else {
        lex_token(s, q)
    }
}

pub proof fn lemma_ws_end(s: Seq<u8>, p: int)
    requires
        0 <= p <= s.len(),
    ensures
        p <= ws_end(s, p) <= s.len(),
        forall|i: int| p <= i < ws_end(s, p) ==> is_ws(#[trigger] s[i]),
        ws_end(s, p) < s.len() ==> !is_ws(s[ws_end(s, p)]),
    decreases s.len() - p,
{
    if p < s.len() && is_ws(s[p]) {
        lemma_ws_end(s, p + 1);
    }
}

/// what a token that the lexer gives looks like
pub open spec fn token_shape(s: Seq<u8>, p: int, t: TokenWithContext) -> bool {
    &&& p <= t.range.start < t.range.end <= s.len()
    &&& s[t.range.start as int] < 0x80
    &&& s[t.range.end - 1] < 0x80
    &&& ((t.token is OpenCurlyBrace || t.token is ClosedCurlyBrace || t.token is OpenSquareBracket
        || t.token is ClosedSquareBracket || t.token is Colon || t.token is Comma) ==> t.range.end
        == t.range.start + 1)
    &&& (t.token is String ==> s[t.range.start as int] == 0x22 && s[t.range.end - 1] == 0x22
        && t.range.start + 2 <= t.range.end)
}

/// a token that the lexer gives covers bytes after `p`, and starts and ends with ASCII bytes
pub proof fn lemma_next_tok_range(s: Seq<u8>, p: int)
    requires
        0 <= p <= s.len(),
        s.len() <= usize::MAX,
    ensures
        next_tok(s, p) matches LexStep::Tok(t) ==> token_shape(s, p, t),
{
    let q = ws_end(s, p);
    lemma_ws_end(s, p);
    reveal(lex_token);
    if q < s.len() {
        let b = s[q];
        if b == 0x22 {
            lemma_string_end(s, q);
        } else if is_digit(b) || b == 0x2D {
            lemma_mantissa_end(s, q);
        } else if b == 0x65 || b == 0x45 {
            lemma_exponent_end(s, q);
        } else if literal_of(b) is Some {
            let (t, lit) = literal_of(b).unwrap();
            if q + lit.len() <= s.len() && s.subrange(q, q + lit.len()) == lit {
                assert(s[q + lit.len() - 1] == s.subrange(q, q + lit.len())[lit.len() - 1]);
            }
        }
    }
}

/// what the lexer refuses is always an error about the characters of a token
pub proof fn lemma_next_tok_lexical(s: Seq<u8>, p: int)
    ensures
        next_tok(s, p) matches LexStep::Fail(k, _) ==> lexical(k),
{
    let q = ws_end(s, p);
    if 0 <= p <= s.len() {
        lemma_ws_end(s, p);
    }
    reveal(lex_token);
    if p <= q < s.len() {
        lemma_string_body_lexical(s, q, q + 1);
    }
}

proof fn lemma_string_body_lexical(s: Seq<u8>, q: int, p: int)
    ensures
        crate::tokens::string::string_body(s, q, p) matches Err((k, _)) ==> lexical(k),
    decreases s.len() - p,
{
    if 0 <= p < s.len() {
        if s[p] == 0x5C {
            if p + 1 < s.len() && crate::tokens::string::is_direct_escape_byte(s[p + 1]) {
                lemma_string_body_lexical(s, q, p + 2);
            } else if p + 1 < s.len() && s[p + 1] == 0x75 {
                if p + 6 <= s.len() {
                    lemma_string_body_lexical(s, q, p + 6);
                }
            }
        } else if s[p] != 0x22 && s[p] >= 0x20 {
            lemma_string_body_lexical(s, q, p + 1);
        }
    }
}

/// what the lexer refuses at a char boundary of UTF-8 text is reported at a
/// place of the text
pub proof fn lemma_next_tok_site(s: Seq<u8>, p: int)
    requires
        valid_utf8(s),
        s.len() <= usize::MAX,
        0 <= p <= s.len(),
        is_char_boundary(s, p),
    ensures
        next_tok(s, p) matches LexStep::Fail(k, site) ==> site_placed(s, site) && patches_placed_at(
            s,
            k,
            site_range(site, s),
        ) && contexts_placed_at(s, k),
{
    let q = ws_end(s, p);
    lemma_ws_end(s, p);
    lemma_unterminated_placed(s);
    reveal(lex_token);
    if q < s.len() {
        if q > p {
            assert(is_ws(s[q - 1]));
            lemma_ascii_boundary(s, q);
        }
        lemma_char_site_placed(s, q);
        let b = s[q];
        if b == 0x22 {
            lemma_string_body_site(s, q, q + 1);
        } else if is_digit(b) || b == 0x2D {
            lemma_mantissa_site(s, q);
        } else if b == 0x65 || b == 0x45 {
            lemma_exponent_site(s, q);
        }
    }
}

/// the site of the char after an ASCII byte of UTF-8 text is a place of it
proof fn lemma_site_after_ascii(s: Seq<u8>, q: int)
    requires
        valid_utf8(s),
        s.len() <= usize::MAX,
        1 <= q <= s.len(),
        s[q - 1] < 0x80,
    ensures
        site_placed(s, char_site(s, q)),
{
    lemma_ascii_boundary(s, q);
    lemma_char_site_placed(s, q);
}

/// the place of an ASCII byte of UTF-8 text is a place of it
proof fn lemma_ascii_placed(s: Seq<u8>, q: int)
    requires
        valid_utf8(s),
        s.len() <= usize::MAX,
        0 <= q < s.len(),
        s[q] < 0x80,
    ensures
        placed(s, sp(q, q + 1)),
{
    lemma_ascii_boundary(s, q);
    lemma_ascii_boundary(s, q + 1);
}

proof fn lemma_hex_prefix_last(s: Seq<u8>, a: int, n: nat)
    requires
        0 <= a,
    ensures
        a + crate::tokens::string::hex_prefix(s, a, n) <= s.len() || crate::tokens::string::hex_prefix(
            s,
            a,
            n,
        ) == 0,
        crate::tokens::string::hex_prefix(s, a, n) > 0 ==> crate::tokens::string::is_hex_byte(
            s[a + crate::tokens::string::hex_prefix(s, a, n) - 1],
        ),
    decreases n,
{
    if n > 0 && 0 <= a < s.len() && crate::tokens::string::is_hex_byte(s[a]) {
        lemma_hex_prefix_last(s, a + 1, (n - 1) as nat);
    }
}

#[verifier::rlimit(40)]
proof fn lemma_string_body_site(s: Seq<u8>, q: int, p: int)
    requires
        valid_utf8(s),
        s.len() <= usize::MAX,
        0 <= q < p,
        p <= s.len(),
        s[q] == 0x22,
    ensures
        crate::tokens::string::string_body(s, q, p) matches Err((k, site)) ==> site_placed(s, site)
            && patches_placed_at(s, k, site_range(site, s)) && contexts_placed_at(s, k),
    decreases s.len() - p,
{
    lemma_unterminated_placed(s);
    is_char_boundary_start_end_of_seq(s);
    lemma_ascii_placed(s, q);
    let len = s.len() as int;
    if p == len {
        assert(placed(s, at(p as usize)));
    } else if s[p] == 0x5C {
        lemma_site_after_ascii(s, p + 1);
        lemma_ascii_placed(s, p);
        if p + 1 < len && crate::tokens::string::is_direct_escape_byte(s[p + 1]) {
            lemma_string_body_site(s, q, p + 2);
        } else if p + 1 < len && s[p + 1] == 0x75 {
            let k = crate::tokens::string::hex_prefix(s, p + 2, 4);
            lemma_hex_prefix_last(s, p + 2, 4);
            lemma_site_after_ascii(s, p + 2 + k);
            lemma_ascii_boundary(s, p + 2);
            lemma_ascii_boundary(s, p);
            assert(placed(s, sp(p, p + 2)));
            if p + 6 <= len {
                lemma_string_body_site(s, q, p + 6);
            }
        } else {
            let r = site_range(char_site(s, p + 1), s);
            lemma_ascii_boundary(s, p);
            assert(placed(s, sp(p, r.end as int)));
        }
    } else if s[p] < 0x20 {
        lemma_ascii_placed(s, p);
    } else if s[p] != 0x22 {
        lemma_string_body_site(s, q, p + 1);
    }
}

proof fn lemma_zeros_last(s: Seq<u8>, p: int)
    requires
        0 <= p <= s.len(),
    ensures
        p <= crate::tokens::number::zeros_end(s, p) <= s.len(),
        crate::tokens::number::zeros_end(s, p) > p ==> s[crate::tokens::number::zeros_end(s, p) - 1]
            == 0x30,
    decreases s.len() - p,
{
    if p < s.len() && s[p] == 0x30 {
        lemma_zeros_last(s, p + 1);
    }
}

proof fn lemma_mantissa_site(s: Seq<u8>, q: int)
    requires
        valid_utf8(s),
        s.len() <= usize::MAX,
        0 <= q < s.len(),
        is_char_boundary(s, q),
    ensures
        mantissa_scan(s, q) matches Err((k, site)) ==> site_placed(s, site) && patches_placed_at(
            s,
            k,
            site_range(site, s),
        ) && contexts_placed_at(s, k),
{
    lemma_unterminated_placed(s);
    let len = s.len() as int;
    let neg = s[q] == 0x2D;
    let i = if neg {
        q + 1
    } else {
        q
    };
    lemma_char_site_placed(s, q);
    if neg {
        lemma_ascii_placed(s, q);
        lemma_ascii_boundary(s, q + 1);
        assert(placed(s, at((q + 1) as usize)));
    }
    if i < len && is_digit(s[i]) {
        if s[i] == 0x30 && i + 1 < len && is_digit(s[i + 1]) {
            lemma_zeros_last(s, i + 1);
            let z = crate::tokens::number::zeros_end(s, i + 1);
            lemma_ascii_boundary(s, q);
            lemma_ascii_boundary(s, i);
            lemma_ascii_boundary(s, i + 1);
            assert(placed(s, sp(i, i + 1)));
            if z > i + 1 {
                lemma_ascii_boundary(s, z);
                lemma_ascii_boundary(s, z - 1);
            }
            if z < len && 0x31 <= s[z] <= 0x39 {
                if z > i + 1 {
                    assert(placed(s, sp(i, z)));
                } else {
                    assert(placed(s, sp(i, i + 1)));
                }
            } else {
                if z > i + 1 {
                    assert(placed(s, sp(i, z - 1)));
                } else {
                    assert(placed(s, sp(i, i)));
                }
            }
        } else {
            lemma_digits_last(s, i + 1);
            let int_end = if s[i] == 0x30 {
                i + 1
            } else {
                crate::tokens::number::digits_end(s, i + 1)
            };
            if int_end < len && s[int_end] == 0x2E {
                lemma_site_after_ascii(s, int_end + 1);
                lemma_ascii_boundary(s, int_end + 1);
                lemma_ascii_boundary(s, int_end);
                assert(placed(s, at((int_end + 1) as usize)));
                assert(placed(s, sp(int_end, int_end + 1)));
                assert(placed(s, sp(q, int_end + 1)));
            }
        }
    }
}

proof fn lemma_exponent_site(s: Seq<u8>, q: int)
    requires
        valid_utf8(s),
        s.len() <= usize::MAX,
        0 <= q < s.len(),
        s[q] == 0x65 || s[q] == 0x45,
    ensures
        exponent_scan(s, q) matches Err((k, site)) ==> site_placed(s, site) && patches_placed_at(
            s,
            k,
            site_range(site, s),
        ) && contexts_placed_at(s, k),
{
    lemma_unterminated_placed(s);
    lemma_ascii_placed(s, q);
    lemma_site_after_ascii(s, q + 1);
    if q + 1 < s.len() && (s[q + 1] == 0x2B || s[q + 1] == 0x2D) {
        lemma_site_after_ascii(s, q + 2);
    }
}

proof fn lemma_string_end(s: Seq<u8>, q: int)
    requires
        0 <= q < s.len(),
        s.len() <= usize::MAX,
    ensures
        string_scan(s, q) matches Ok(e) ==> q + 2 <= e <= s.len() && s[e - 1] == 0x22,
{
    lemma_string_body_end(s, q, q + 1);
}

proof fn lemma_string_body_end(s: Seq<u8>, q: int, p: int)
    requires
        0 <= q < p,
    ensures
        crate::tokens::string::string_body(s, q, p) matches Ok(e) ==> p < e <= s.len() && s[e
            - 1] == 0x22,
    decreases s.len() - p,
{
    if 0 <= p < s.len() {
        if s[p] == 0x5C {
            if p + 1 < s.len() && crate::tokens::string::is_direct_escape_byte(s[p + 1]) {
                lemma_string_body_end(s, q, p + 2);
            } else if p + 1 < s.len() && s[p + 1] == 0x75 {
                if p + 6 <= s.len() {
                    lemma_string_body_end(s, q, p + 6);
                }
            }
        } else if s[p] != 0x22 && s[p] >= 0x20 {
            lemma_string_body_end(s, q, p + 1);
        }
    }
}

proof fn lemma_digits_last(s: Seq<u8>, p: int)
    requires
        0 <= p <= s.len(),
    ensures
        p <= crate::tokens::number::digits_end(s, p) <= s.len(),
        crate::tokens::number::digits_end(s, p) > p ==> is_digit(
            s[crate::tokens::number::digits_end(s, p) - 1],
        ),
        p < s.len() && is_digit(s[p]) ==> crate::tokens::number::digits_end(s, p) > p,
    decreases s.len() - p,
{
    if p < s.len() && is_digit(s[p]) {
        lemma_digits_last(s, p + 1);
    }
}

proof fn lemma_mantissa_end(s: Seq<u8>, q: int)
    requires
        0 <= q < s.len(),
        s.len() <= usize::MAX,
    ensures
        mantissa_scan(s, q) matches Ok(e) ==> q < e <= s.len() && is_digit(s[e - 1]),
{
    let len = s.len() as int;
    let neg = q < len && s[q] == 0x2D;
    let i = if neg {
        q + 1
    } else {
        q
    };
    if i < len && is_digit(s[i]) && !(s[i] == 0x30 && i + 1 < len && is_digit(s[i + 1])) {
        lemma_digits_last(s, i + 1);
        let int_end = if s[i] == 0x30 {
            i + 1
        } else {
            crate::tokens::number::digits_end(s, i + 1)
        };
        assert(is_digit(s[int_end - 1]));
        if int_end < len && s[int_end] == 0x2E && int_end + 1 < len && is_digit(s[int_end + 1]) {
            lemma_digits_last(s, int_end + 1);
        }
    }
}

proof fn lemma_exponent_end(s: Seq<u8>, q: int)
    requires
        0 <= q < s.len(),
        s.len() <= usize::MAX,
    ensures
        exponent_scan(s, q) matches Ok((r, e)) ==> q < e <= s.len() && is_digit(s[e - 1]) && (r
            matches Some(r) ==> q < r.start < r.end == e && s[r.start as int] < 0x80),
{
    let len = s.len() as int;
    if q + 1 < len {
        lemma_digits_last(s, q + 1);
    }
    if q + 2 < len {
        lemma_digits_last(s, q + 2);
    }
}

/// JSON tokens of a text, read one at a time
pub struct TokenStream<'a> {
    input: &'a str,
    window: &'a [u8],
    pos: usize,
    cached: Option<TokenWithContext>,
    cursor: Ghost<int>,
}

impl<'a> TokenStream<'a> {
    /// the bytes the tokens are read from
    pub closed spec fn bytes(&self) -> Seq<u8> {
        self.window@
    }

    /// the text errors are reported in
    pub closed spec fn text(&self) -> &'a str {
        self.input
    }

    /// where the next token is read
    pub closed spec fn cursor(&self) -> int {
        self.cursor@
    }

    /// a token was read ahead and is kept
    pub closed spec fn peeked(&self) -> bool {
        self.cached is Some
    }

    pub closed spec fn wf(&self) -> bool {
        &&& window_of(self.window@, self.input)
        &&& self.window@.len() <= usize::MAX
        &&& is_char_boundary(self.window@, self.pos as int)
        &&& self.pos <= self.window@.len()
        &&& 0 <= self.cursor@ <= self.window@.len()
        &&& match self.cached {
            None => self.cursor@ == self.pos || (next_tok(self.window@, self.cursor@) == LexStep::End
                && self.pos == self.window@.len()),
            Some(t) => next_tok(self.window@, self.cursor@) == LexStep::Tok(t) && self.pos
                == t.range.end,
        }
    }

    /// the tokens of `s`
    pub fn new(s: &'a str) -> (res: Self)
        ensures
            res.wf(),
            res.bytes() == s.spec_bytes(),
            res.text() == s,
            res.cursor() == 0,
    {
        let bytes = s.as_bytes();
        let _n = bytes.len();
        proof {
            lemma_str_bytes(s);
            is_char_boundary_start_end_of_seq(bytes@);
            assert(bytes@.subrange(0, bytes@.len() as int) =~= bytes@);
        }
        TokenStream { input: s, window: bytes, pos: 0, cached: None, cursor: Ghost(0) }
    }

    /// the tokens of the part `range` of `s`; errors are reported in all of `s`
    pub fn new_at_range(s: &'a str, range: Span) -> (res: Self)
        requires
            range.start <= range.end <= s.spec_bytes().len(),
            is_char_boundary(s.spec_bytes(), range.start as int),
            is_char_boundary(s.spec_bytes(), range.end as int),
        ensures
            res.wf(),
            res.bytes() == s.spec_bytes().subrange(0, range.end as int),
            res.text() == s,
            res.cursor() == range.start,
    {
        let bytes = s.as_bytes();
        let window = slice_prefix(bytes, range.end);
        let _n = window.len();
        proof {
            lemma_str_bytes(s);
            valid_utf8_split(bytes@, range.end as int);
            assert(window@.subrange(0, window@.len() as int) =~= window@);
            if 0 < range.start < range.end {
                is_char_boundary_iff_not_is_continuation_byte(bytes@, range.start as int);
                is_char_boundary_iff_not_is_continuation_byte(window@, range.start as int);
                assert(window@[range.start as int] == bytes@[range.start as int]);
            }
            is_char_boundary_start_end_of_seq(window@);
        }
        TokenStream {
            input: s,
            window,
            pos: range.start,
            cached: None,
            cursor: Ghost(range.start as int),
        }
    }

    /// where the lexer stands; once no token is left, the end of the bytes
    pub fn pos(&self) -> (res: usize)
        ensures
            res == self.lexer_pos(),
    {
        self.pos
    }

    /// where the lexer stands
    pub closed spec fn lexer_pos(&self) -> int {
        self.pos as int
    }

    pub proof fn lemma_wf(&self)
        requires
            self.wf(),
        ensures
            window_of(self.bytes(), self.text()),
            0 <= self.cursor() <= self.bytes().len(),
            self.bytes().len() <= usize::MAX,
    {
    }

    /// reads the next token at `self.pos`, past whitespace
    fn read(&mut self) -> (res: Result<Option<TokenWithContext>, Error>)
        requires
            window_of(old(self).window@, old(self).input),
            is_char_boundary(old(self).window@, old(self).pos as int),
            old(self).pos <= old(self).window@.len(),
        ensures
            final(self).window == old(self).window,
            final(self).input == old(self).input,
            final(self).cached == old(self).cached,
            final(self).cursor == old(self).cursor,
            final(self).pos <= final(self).window@.len(),
            is_char_boundary(final(self).window@, final(self).pos as int),
            match next_tok(old(self).window@, old(self).pos as int) {
                LexStep::End => res == Ok::<Option<TokenWithContext>, Error>(None) && final(self).pos
                    == final(self).window@.len(),
                LexStep::Tok(t) => res == Ok::<Option<TokenWithContext>, Error>(Some(t))
                    && final(self).pos == t.range.end,
                LexStep::Fail(k, site) => res matches Err(e) && reports(e, k, site, old(self).input),
            },
    {
        let ghost s = self.window@;
        let len = self.window.len();
        let q = skip_whitespace(self.window, self.pos);
        proof {
            lemma_ws_end(s, self.pos as int);
        }
        if q >= len {
            self.pos = q;
            return Ok(None);
        }
        match lex_one(self.window, self.input, q) {
            Ok(t) => {
                self.pos = t.range.end;
                Ok(Some(t))
            },
            Err(e) => Err(e),
        }
    }

    /// the next token, left to be read again
    pub fn peek_token(&mut self) -> (res: Result<Option<TokenWithContext>, Error>)
        requires
            old(self).wf(),
        ensures
            final(self).wf(),
            final(self).bytes() == old(self).bytes(),
            final(self).text() == old(self).text(),
            match next_tok(old(self).bytes(), old(self).cursor()) {
                LexStep::End => res == Ok::<Option<TokenWithContext>, Error>(None)
                    && final(self).cursor() == old(self).cursor() && final(self).lexer_pos()
                    == final(self).bytes().len(),
                LexStep::Tok(t) => res == Ok::<Option<TokenWithContext>, Error>(Some(t))
                    && final(self).cursor() == old(self).cursor(),
                LexStep::Fail(k, site) => res matches Err(e) && reports(e, k, site, old(self).text())
                    && final(self).cursor() == old(self).cursor(),
            },
    {
        match self.cached {
            Some(t) => Ok(Some(t)),
            None => {
                let p = self.pos;
                let r = self.read();
                match r {
                    Ok(Some(t)) => {
                        self.cached = Some(t);
                        Ok(Some(t))
                    },
                    Ok(None) => Ok(None),
                    Err(e) => {
                        self.pos = p;
                        Err(e)
                    },
                }
            },
        }
    }

    /// the next token, read
    pub fn next_token(&mut self) -> (res: Result<Option<TokenWithContext>, Error>)
        requires
            old(self).wf(),
        ensures
            final(self).wf(),
            final(self).bytes() == old(self).bytes(),
            final(self).text() == old(self).text(),
            match next_tok(old(self).bytes(), old(self).cursor()) {
                LexStep::End => res == Ok::<Option<TokenWithContext>, Error>(None)
                    && final(self).cursor() == old(self).cursor(),
                LexStep::Tok(t) => res == Ok::<Option<TokenWithContext>, Error>(Some(t))
                    && final(self).cursor() == t.range.end,
                LexStep::Fail(k, site) => res matches Err(e) && reports(e, k, site, old(self).text())
                    && final(self).cursor() == old(self).cursor(),
            },
    {
        match self.cached {
            Some(t) => {
                self.cached = None;
                self.cursor = Ghost(t.range.end as int);
                Ok(Some(t))
            },
            None => {
                let p = self.pos;
                let r = self.read();
                match r {
                    Ok(Some(t)) => {
                        self.cursor = Ghost(t.range.end as int);
                        Ok(Some(t))
                    },
                    Ok(None) => Ok(None),
                    Err(e) => {
                        self.pos = p;
                        Err(e)
                    },
                }
            },
        }
    }
}


/// the first offset at or after `p` that holds no whitespace
fn skip_whitespace(s: &[u8], p: usize) -> (res: usize)
    requires
        p <= s@.len(),
        valid_utf8(s@),
        is_char_boundary(s@, p as int),
    ensures
        res == ws_end(s@, p as int),
        res <= s@.len(),
        is_char_boundary(s@, res as int),
        res < s@.len() ==> !is_ws(s@[res as int]),
{
    let len = s.len();
    let mut i = p;
    proof {
        lemma_ws_end(s@, p as int);
    }
    while i < len && (s[i] == 0x20 || s[i] == 0x09 || s[i] == 0x0A || s[i] == 0x0D)
        invariant
            len == s@.len(),
            p <= i <= len,
            ws_end(s@, p as int) == ws_end(s@, i as int),
            ascii_boundary(s@, i as int) || i == p,
        decreases len - i,
    {
        i = i + 1;
    }
    proof {
        if i != p {
            lemma_ascii_boundary(s@, i as int);
        }
        lemma_ws_end(s@, i as int);
    }
    i
}

/// the error for the char at byte `q`, which starts no token
fn unexpected_character(s: &[u8], text: &str, q: usize) -> (res: Error)
    requires
        window_of(s@, text),
        q < s@.len(),
        is_char_boundary(s@, q as int),
    ensures
        unexpected_at(s@, q as int) matches LexStep::Fail(k, site) && reports(res, k, site, text),
{
    let c = current_char_with_context(s, q);
    match c {
        Some(c) => Error::new(ErrorKind::UnexpectedCharacter(c.1), c.0, text),
        None => {
            proof {
                assert(false);
            }
            Error::from_unterminated(ErrorKind::NestingTooDeep(0), text)
        },
    }
}

/// reads the token at byte `q` of the bytes `s` of `text`, which is no whitespace
fn lex_one(s: &[u8], text: &str, q: usize) -> (res: Result<TokenWithContext, Error>)
    requires
        window_of(s@, text),
        q < s@.len(),
        !is_ws(s@[q as int]),
        is_char_boundary(s@, q as int),
    ensures
        match lex_token(s@, q as int) {
            LexStep::Tok(t) => res == Ok::<TokenWithContext, Error>(t) && q < t.range.end <= s@.len()
                && is_char_boundary(s@, t.range.end as int),
            LexStep::Fail(k, site) => res matches Err(e) && reports(e, k, site, text),
            LexStep::End => false,
        },
{
    let ghost ss = s@;
    let len = s.len();
    let b = s[q];
    proof {
        reveal(lex_token);
        if b < 0x80 {
            assert(ascii_boundary(ss, q + 1));
            lemma_ascii_boundary(ss, q + 1);
            assert(ascii_boundary(ss, q as int));
        }
    }
    if b == 0x7B || b == 0x7D || b == 0x3A || b == 0x2C || b == 0x5B || b == 0x5D {
        match crate::tokens::lexical::JsonByte(b).as_token() {
            Some(t) => Ok(TokenWithContext { token: t, range: Span { start: q, end: q + 1 } }),
            None => Err(unexpected_character(s, text, q)),
        }
    } else if b == 0x22 {
        match scan_string(s, text, q) {
            Ok(t) => {
                proof {
                    lemma_string_end(ss, q as int);
                    assert(ascii_boundary(ss, t.range.end as int));
                    lemma_ascii_boundary(ss, t.range.end as int);
                }
                Ok(t)
            },
            Err(e) => Err(e),
        }
    } else if (0x30 <= b && b <= 0x39) || b == 0x2D {
        match scan_mantissa(s, text, q) {
            Ok(t) => {
                proof {
                    lemma_mantissa_end(ss, q as int);
                    assert(ascii_boundary(ss, t.range.end as int));
                    lemma_ascii_boundary(ss, t.range.end as int);
                }
                Ok(t)
            },
            Err(e) => Err(e),
        }
    } else if b == 0x65 || b == 0x45 {
        match scan_exponent(s, text, q) {
            Ok((t, n)) => {
                proof {
                    lemma_exponent_end(ss, q as int);
                    lemma_ascii_boundary(ss, n as int);
                }
                match t {
                    Some(t) => Ok(t),
                    None => Ok(TokenWithContext { token: Token::Exponent, range: Span { start: q, end: n } }),
                }
            },
            Err(e) => Err(e),
        }
    } else if b == 0x6E || b == 0x74 || b == 0x66 {
        let n: usize = if b == 0x66 {
            5
        } else {
            4
        };
        proof {
            assert(literal_of(b).unwrap().1.len() == n);
        }
        if n <= len - q && literal_matches(s, q, b) {
            let t = if b == 0x6E {
                Token::Null
            } else if b == 0x74 {
                Token::True
            } else {
                Token::False
            };
            proof {
                let lit = literal_of(b).unwrap().1;
                assert(ss[q + n - 1] == ss.subrange(q as int, q + n)[n - 1]);
                assert(ascii_boundary(ss, q + n));
                lemma_ascii_boundary(ss, q + n);
            }
            Ok(TokenWithContext { token: t, range: Span { start: q, end: q + n } })
        } else {
            Err(unexpected_character(s, text, q))
        }
    } else {
        Err(unexpected_character(s, text, q))
    }
}

/// the first `end` bytes of `bytes`
fn slice_prefix(bytes: &[u8], end: usize) -> (res: &[u8])
    requires
        end <= bytes@.len(),
    ensures
        res@ == bytes@.subrange(0, end as int),
{
    &bytes[0..end]
}

/// the literal that starts with byte `b` is spelled out at byte `q` of `s`
fn literal_matches(s: &[u8], q: usize, b: u8) -> (res: bool)
    requires
        literal_of(b) is Some,
        q + literal_of(b).unwrap().1.len() <= s@.len(),
        s@[q as int] == b,
    ensures
        res == (s@.subrange(q as int, q + literal_of(b).unwrap().1.len()) == literal_of(b).unwrap().1),
{
    let _n = s.len();
    let ghost lit = literal_of(b).unwrap().1;
    let ghost sub = s@.subrange(q as int, q + lit.len());
    let res = if b == 0x6E {
        s[q + 1] == 0x75 && s[q + 2] == 0x6C && s[q + 3] == 0x6C
    } else if b == 0x74 {
        s[q + 1] == 0x72 && s[q + 2] == 0x75 && s[q + 3] == 0x65
    } else {
        s[q + 1] == 0x61 && s[q + 2] == 0x6C && s[q + 3] == 0x73 && s[q + 4] == 0x65
    };
    proof {
        if res {
            assert(sub =~= lit);
        } else {
            if b == 0x6E || b == 0x74 {
                assert(!(sub[1] == lit[1] && sub[2] == lit[2] && sub[3] == lit[3]));
            } else {
                assert(!(sub[1] == lit[1] && sub[2] == lit[2] && sub[3] == lit[3] && sub[4]
                    == lit[4]));
            }
        }
    }
    res
}

} // verus!
