//! JSON strings, RFC 8259 section 7:
//!
//! ```abnf
//! string = quotation-mark *char quotation-mark
//! char = unescaped /
//!     escape ( %x22 / %x5C / %x2F / %x62 / %x66 / %x6E / %x72 / %x74 / %x75 4HEXDIG )
//! unescaped = %x20-21 / %x23-5B / %x5D-10FFFF
//! ```
//!
//! Bytes from `0x80` up are parts of chars that need no escape, so the
//! reader goes through the text byte by byte.
use vstd::prelude::*;
use vstd::string::StringSliceAdditionalSpecFns;

use crate::error::{Error, ErrorKind, JsonCharOption, reports, window_of};
use crate::text::ascii_boundary;
use crate::tokens::lexical::JsonChar;
use crate::tokens::number::Scan;
use crate::tokens::{
    CharWithContext, ErrorSite, Span, Token, TokenWithContext, char_opt_at, char_site,
    current_char_with_context, sp, split_char,
};

verus! {

/// bytes that may follow a backslash on their own: `"` `\` `/` `b` `f` `n` `r` `t`
pub open spec fn is_direct_escape_byte(b: u8) -> bool {
    b == 0x22 || b == 0x5C || b == 0x2F || b == 0x62 || b == 0x66 || b == 0x6E || b == 0x72 || b
        == 0x74
}

pub open spec fn is_hex_byte(b: u8) -> bool {
    (0x30 <= b <= 0x39) || (0x41 <= b <= 0x46) || (0x61 <= b <= 0x66)
}

/// how many of the bytes from `p` on, up to `n` of them, are hexadecimal digits in a row
pub open spec fn hex_prefix(s: Seq<u8>, p: int, n: nat) -> nat
    decreases n,
{
    if n == 0 || !(0 <= p < s.len() && is_hex_byte(s[p])) {
        0
    } else {
        1 + hex_prefix(s, p + 1, (n - 1) as nat)
    }
}

/// the rest of the string whose opening quote is byte `q0`, read from byte `p`:
/// the offset just past the closing quote, or the error
pub open spec fn string_body(s: Seq<u8>, q0: int, p: int) -> Scan<int>
    decreases s.len() - p,
{
    let len = s.len() as int;
    let quote_range = sp(q0, q0 + 1);
    if p < 0 || p >= len {
        Err(
            (
                ErrorKind::ExpectedQuote { open_range: quote_range, string_range: sp(q0, p) },
                ErrorSite::AtEnd,
            ),
        )
    } else if s[p] == 0x22 {
        Ok(p + 1)
    } else if s[p] == 0x5C {
        let slash_range = sp(p, p + 1);
        if p + 1 < len && is_direct_escape_byte(s[p + 1]) {
            string_body(s, q0, p + 2)
        } else if p + 1 < len && s[p + 1] == 0x75 {
            let k = hex_prefix(s, p + 2, 4);
            if k == 4 && p + 6 <= len {
                string_body(s, q0, p + 6)
            } else {
                Err(
                    (
                        ErrorKind::ExpectedHexDigit {
                            quote_range,
                            slash_range,
                            u_range: sp(p + 1, p + 2),
                            maybe_c: JsonCharOption(char_opt_at(s, p + 2 + k)),
                            digit_idx: (k + 1) as usize,
                        },
                        char_site(s, p + 2 + k),
                    ),
                )
            }
        } else {
            Err(
                (
                    ErrorKind::ExpectedEscape {
                        maybe_c: JsonCharOption(char_opt_at(s, p + 1)),
                        slash_range,
                        string_range: sp(q0, p + 1),
                        quote_range,
                    },
                    char_site(s, p + 1),
                ),
            )
        }
    } else if s[p] < 0x20 {
        Err(
            (
                ErrorKind::UnexpectedControlCharacterInString(JsonChar(s[p] as char)),
                ErrorSite::At(sp(p, p + 1)),
            ),
        )
    } else {
        string_body(s, q0, p + 1)
    }
}

/// the string whose opening quote is byte `q0` of `s`
pub open spec fn string_scan(s: Seq<u8>, q0: int) -> Scan<int> {
    string_body(s, q0, q0 + 1)
}

/// where reading a string stands
#[derive(Debug, PartialEq, Eq, Clone, Copy, Structural)]
pub enum StringState {
    Open,
    CharOrEscapeOrEnd { string_range: Span, quote_range: Span },
    Escape { string_range: Span, quote_range: Span, slash_range: Span },
    UEscape {
        string_range: Span,
        quote_range: Span,
        u_range: Span,
        slash_range: Span,
        digits_seen: usize,
    },
    End(TokenWithContext),
}

/// what a state of the string reader knows, for the string opened at byte `q0`
pub open spec fn string_state_inv(s: Seq<u8>, st: StringState, q0: int, pos: int) -> bool {
    let quote = sp(q0, q0 + 1);
    &&& 0 <= q0 < s.len()
    &&& s[q0] == 0x22
    &&& q0 < pos <= s.len() || (st is Open && pos == q0)
    &&& match st {
        StringState::Open => pos == q0,
        StringState::CharOrEscapeOrEnd { string_range, quote_range } => {
            &&& quote_range == quote
            &&& string_range == sp(q0, pos)
            &&& string_body(s, q0, pos) == string_scan(s, q0)
        },
        StringState::Escape { string_range, quote_range, slash_range } => {
            &&& quote_range == quote
            &&& string_range == sp(q0, pos)
            &&& slash_range == sp(pos - 1, pos)
            &&& s[pos - 1] == 0x5C
            &&& q0 < pos - 1
            &&& string_body(s, q0, pos - 1) == string_scan(s, q0)
        },
        StringState::UEscape { string_range, quote_range, u_range, slash_range, digits_seen } => {
            let slash = pos - digits_seen - 2;
            &&& digits_seen < 4
            &&& string_range == sp(
                q0,
                if digits_seen == 0 {
                    pos - 1
                } else {
                    pos
                },
            )
            &&& quote_range == quote
            &&& q0 < slash
            &&& slash_range == sp(slash, slash + 1)
            &&& u_range == sp(slash + 1, slash + 2)
            &&& s[slash] == 0x5C
            &&& s[slash + 1] == 0x75
            &&& hex_prefix(s, slash + 2, digits_seen as nat) == digits_seen
            &&& string_body(s, q0, slash) == string_scan(s, q0)
        },
        StringState::End(t) => {
            &&& t.token == Token::String
            &&& t.range == sp(q0, pos)
            &&& string_scan(s, q0) == Ok::<int, (ErrorKind, ErrorSite)>(pos)
        },
    }
}

proof fn lemma_hex_prefix_all(s: Seq<u8>, p: int, k: nat)
    requires
        0 <= p,
        hex_prefix(s, p, k) == k,
    ensures
        k > 0 ==> p + k <= s.len(),
        forall|i: int| p <= i < p + k ==> is_hex_byte(#[trigger] s[i]),
    decreases k,
{
    if k > 0 {
        lemma_hex_prefix_all(s, p + 1, (k - 1) as nat);
    }
}

proof fn lemma_hex_prefix_more(s: Seq<u8>, p: int, k: nat)
    requires
        0 <= p,
        k < 4,
        hex_prefix(s, p, k) == k,
        p + k < s.len(),
        is_hex_byte(s[p + k]),
    ensures
        hex_prefix(s, p, k + 1) == k + 1,
    decreases k,
{
    if k > 0 {
        assert(is_hex_byte(s[p]));
        lemma_hex_prefix_more(s, p + 1, (k - 1) as nat);
        assert(hex_prefix(s, p + 1, k) == k);
    }
    assert(hex_prefix(s, p, k + 1) == 1 + hex_prefix(s, p + 1, k));
}

proof fn lemma_hex_prefix_stop(s: Seq<u8>, p: int, k: nat, n: nat)
    requires
        0 <= p,
        k < n,
        hex_prefix(s, p, k) == k,
        !(p + k < s.len() && is_hex_byte(s[p + k])),
    ensures
        hex_prefix(s, p, n) == k,
    decreases k,
{
    if k > 0 {
        lemma_hex_prefix_stop(s, p + 1, (k - 1) as nat, (n - 1) as nat);
    }
}

/// an ASCII hexadecimal digit, of either case
pub open spec fn ascii_hexdigit(c: char) -> bool {
    ('0' <= c && c <= '9') || ('a' <= c && c <= 'f') || ('A' <= c && c <= 'F')
}

/// A `\u` escape with four hexadecimal digits, lower or upper case, is read
/// as one char of the string, which goes on right after it.
pub proof fn lemma_unicode_escape_read(s: Seq<u8>, q0: int, p: int)
    requires
        0 <= p,
        p + 6 <= s.len(),
        s[p] == 0x5C,
        s[p + 1] == 0x75,
        forall|i: int| p + 2 <= i < p + 6 ==> ascii_hexdigit(#[trigger] s[i] as char),
    ensures
        string_body(s, q0, p) == string_body(s, q0, p + 6),
{
    let h = p + 2;
    assert forall|i: int| h <= i < h + 4 implies is_hex_byte(#[trigger] s[i]) by {
        assert(ascii_hexdigit(s[i] as char));
    }
    assert(hex_prefix(s, h, 0) == 0);
    lemma_hex_prefix_more(s, h, 0);
    lemma_hex_prefix_more(s, h, 1);
    lemma_hex_prefix_more(s, h, 2);
    lemma_hex_prefix_more(s, h, 3);
    assert(!is_direct_escape_byte(s[p + 1]));
}

/// A backslash followed by one of `"` `\` `/` `b` `f` `n` `r` `t` is read as
/// one escaped char, and the string goes on right after it.
pub proof fn lemma_short_escape_read(s: Seq<u8>, q0: int, p: int)
    requires
        0 <= p,
        p + 2 <= s.len(),
        s[p] == 0x5C,
        s[p + 1] as char == '"' || s[p + 1] as char == '\\' || s[p + 1] as char == '/' || s[p + 1] as char
            == 'b' || s[p + 1] as char == 'f' || s[p + 1] as char == 'n' || s[p + 1] as char == 'r' || s[p
            + 1] as char == 't',
    ensures
        string_body(s, q0, p) == string_body(s, q0, p + 2),
{
}

/// A backslash followed by anything else is no escape: the string fails there.
pub proof fn lemma_other_escape_fails(s: Seq<u8>, q0: int, p: int)
    requires
        0 <= p,
        p + 1 < s.len(),
        s[p] == 0x5C,
        !(s[p + 1] as char == '"' || s[p + 1] as char == '\\' || s[p + 1] as char == '/' || s[p + 1] as char
            == 'b' || s[p + 1] as char == 'f' || s[p + 1] as char == 'n' || s[p + 1] as char == 'r' || s[p
            + 1] as char == 't' || s[p + 1] as char == 'u'),
    ensures
        string_body(s, q0, p) is Err,
{
}

/// Every byte from the space up, but the quote and the backslash, stands for
/// itself in a string, which goes on after it; a byte below the space, a
/// control char, makes the string fail there; a quote ends it.
pub proof fn lemma_plain_bytes_read(s: Seq<u8>, q0: int, p: int)
    requires
        0 <= p < s.len(),
    ensures
        s[p] >= 0x20 && s[p] as char != '"' && s[p] as char != '\\' ==> string_body(s, q0, p)
            == string_body(s, q0, p + 1),
        s[p] < 0x20 ==> string_body(s, q0, p) is Err,
        s[p] as char == '"' ==> string_body(s, q0, p) == Ok::<int, (ErrorKind, ErrorSite)>(p + 1),
{
}

/// A `\u` escape with fewer than four hexadecimal digits makes the string
/// fail, and so does the end of the text before the closing quote.
pub proof fn lemma_short_unicode_escape_fails(s: Seq<u8>, q0: int, p: int, j: nat)
    requires
        0 <= p,
        p + 2 <= s.len(),
        s[p] == 0x5C,
        s[p + 1] == 0x75,
        j < 4,
        forall|i: int| p + 2 <= i < p + 2 + j ==> i < s.len() && ascii_hexdigit(#[trigger] s[i] as char),
        !(p + 2 + j < s.len() && ascii_hexdigit(s[p + 2 + j] as char)),
    ensures
        string_body(s, q0, p) is Err,
        string_body(s, q0, s.len() as int) is Err,
{
    let h = p + 2;
    assert forall|i: int| h <= i < h + j implies is_hex_byte(#[trigger] s[i]) by {
        assert(ascii_hexdigit(s[i] as char));
    }
    assert(hex_prefix(s, h, 0) == 0);
    if j > 0 {
        assert(ascii_hexdigit(s[h + 0] as char));
        lemma_hex_prefix_more(s, h, 0);
    }
    if j > 1 {
        assert(ascii_hexdigit(s[h + 1] as char));
        lemma_hex_prefix_more(s, h, 1);
    }
    if j > 2 {
        assert(ascii_hexdigit(s[h + 2] as char));
        lemma_hex_prefix_more(s, h, 2);
    }
    assert(!(h + j < s.len() && is_hex_byte(s[h + j]))) by {
        if h + j < s.len() && is_hex_byte(s[h + j]) {
            assert(ascii_hexdigit(s[h + j] as char));
        }
    }
    lemma_hex_prefix_stop(s, h, j, 4);
    assert(!is_direct_escape_byte(s[p + 1]));
}

impl StringState {
    /// one step: reads at most one byte of `s` at `*pos`
    #[verifier::rlimit(40)]
    pub fn process(self, s: &[u8], pos: &mut usize, text: &str, Ghost(q0): Ghost<int>) -> (res:
        Result<Self, Error>)
        requires
            window_of(s@, text),
            !(self is End),
            string_state_inv(s@, self, q0, *old(pos) as int),
        ensures
            match res {
                Ok(st) => {
                    &&& string_state_inv(s@, st, q0, *final(pos) as int)
                    &&& *final(pos) > *old(pos)
                },
                Err(err) => string_scan(s@, q0) matches Err((k, site)) && reports(err, k, site, text),
            },
    {
        let p = *pos;
        let ghost ss = s@;
        if p >= s.len() {
            match self {
                StringState::CharOrEscapeOrEnd { string_range, quote_range } => {
                    return Err(
                        Error::from_unterminated(
                            ErrorKind::ExpectedQuote { open_range: quote_range, string_range },
                            text,
                        ),
                    );
                },
                StringState::Escape { string_range, quote_range, slash_range } => {
                    return Err(
                        Error::from_maybe_json_char_with_context(
                            ErrorKind::ExpectedEscape {
                                maybe_c: JsonCharOption(None),
                                slash_range,
                                string_range,
                                quote_range,
                            },
                            None,
                            text,
                        ),
                    );
                },
                StringState::UEscape { quote_range, u_range, slash_range, digits_seen, .. } => {
                    proof {
                        lemma_hex_prefix_stop(ss, p - digits_seen, digits_seen as nat, 4);
                    }
                    return Err(
                        Error::from_maybe_json_char_with_context(
                            ErrorKind::ExpectedHexDigit {
                                quote_range,
                                slash_range,
                                u_range,
                                maybe_c: JsonCharOption(None),
                                digit_idx: digits_seen + 1,
                            },
                            None,
                            text,
                        ),
                    );
                },
                _ => {
                    proof {
                        assert(false);
                    }
                    return Err(Error::from_unterminated(ErrorKind::NestingTooDeep(0), text));
                },
            }
        }
        let b = s[p];
        *pos = p + 1;
        match self {
            StringState::Open => {
                Ok(
                    StringState::CharOrEscapeOrEnd {
                        string_range: Span { start: p, end: p + 1 },
                        quote_range: Span { start: p, end: p + 1 },
                    },
                )
            },
            StringState::CharOrEscapeOrEnd { string_range, quote_range } => {
                if b == 0x5C {
                    Ok(
                        StringState::Escape {
                            string_range: Span { start: string_range.start, end: p + 1 },
                            quote_range,
                            slash_range: Span { start: p, end: p + 1 },
                        },
                    )
                } else if b == 0x22 {
                    Ok(
                        StringState::End(
                            TokenWithContext {
                                token: Token::String,
                                range: Span { start: string_range.start, end: p + 1 },
                            },
                        ),
                    )
                } else if b < 0x20 {
                    Err(
                        Error::new(
                            ErrorKind::UnexpectedControlCharacterInString(JsonChar(b as char)),
                            Span { start: p, end: p + 1 },
                            text,
                        ),
                    )
                } else {
                    Ok(
                        StringState::CharOrEscapeOrEnd {
                            string_range: Span { start: string_range.start, end: p + 1 },
                            quote_range,
                        },
                    )
                }
            },
            StringState::Escape { string_range, quote_range, slash_range } => {
                if b == 0x22 || b == 0x5C || b == 0x2F || b == 0x62 || b == 0x66 || b == 0x6E || b
                    == 0x72 || b == 0x74 {
                    Ok(
                        StringState::CharOrEscapeOrEnd {
                            string_range: Span { start: string_range.start, end: p + 1 },
                            quote_range,
                        },
                    )
                } else if b == 0x75 {
                    Ok(
                        StringState::UEscape {
                            string_range,
                            quote_range,
                            u_range: Span { start: p, end: p + 1 },
                            slash_range,
                            digits_seen: 0,
                        },
                    )
                } else {
                    proof {
                        assert(ascii_boundary(ss, p as int));
                    }
                    let c = current_char_with_context(s, p);
                    let (found, at) = split_char(c);
                    Err(
                        Error::from_maybe_json_char_with_context(
                            ErrorKind::ExpectedEscape {
                                maybe_c: JsonCharOption(found),
                                slash_range,
                                string_range,
                                quote_range,
                            },
                            at,
                            text,
                        ),
                    )
                }
            },
            StringState::UEscape { string_range, quote_range, u_range, slash_range, digits_seen } => {
                let ghost slash = p - digits_seen - 2;
                if (0x30 <= b && b <= 0x39) || (0x41 <= b && b <= 0x46) || (0x61 <= b && b <= 0x66) {
                    proof {
                        lemma_hex_prefix_more(ss, slash + 2, digits_seen as nat);
                    }
                    if digits_seen + 1 == 4 {
                        Ok(
                            StringState::CharOrEscapeOrEnd {
                                string_range: Span { start: string_range.start, end: p + 1 },
                                quote_range,
                            },
                        )
                    } else {
                        Ok(
                            StringState::UEscape {
                                string_range: Span { start: string_range.start, end: p + 1 },
                                quote_range,
                                u_range,
                                slash_range,
                                digits_seen: digits_seen + 1,
                            },
                        )
                    }
                } else {
                    proof {
                        lemma_hex_prefix_stop(ss, slash + 2, digits_seen as nat, 4);
                        lemma_hex_prefix_all(ss, slash + 2, digits_seen as nat);
                        if digits_seen > 0 {
                            assert(is_hex_byte(ss[p - 1]));
                        }
                        assert(ascii_boundary(ss, p as int));
                    }
                    let c = current_char_with_context(s, p);
                    let (found, at) = split_char(c);
                    Err(
                        Error::from_maybe_json_char_with_context(
                            ErrorKind::ExpectedHexDigit {
                                quote_range,
                                slash_range,
                                u_range,
                                maybe_c: JsonCharOption(found),
                                digit_idx: digits_seen + 1,
                            },
                            at,
                            text,
                        ),
                    )
                }
            },
            StringState::End(_) => Ok(self),
        }
    }
}

/// reads the string whose opening quote is byte `q0` of the bytes `s` of `text`
pub fn scan_string(s: &[u8], text: &str, q0: usize) -> (res: Result<TokenWithContext, Error>)
    requires
        window_of(s@, text),
        q0 < s@.len(),
        s@[q0 as int] == 0x22,
    ensures
        match string_scan(s@, q0 as int) {
            Ok(e) => res == Ok::<TokenWithContext, Error>(
                TokenWithContext { token: Token::String, range: sp(q0 as int, e) },
            ),
            Err((k, site)) => res matches Err(err) && reports(err, k, site, text),
        },
{
    let mut state = StringState::Open;
    let mut p = q0;
    loop
        invariant
            window_of(s@, text),
            !(state is End),
            string_state_inv(s@, state, q0 as int, p as int),
        decreases s@.len() - p,
    {
        match state.process(s, &mut p, text, Ghost(q0 as int)) {
            Ok(StringState::End(tok)) => {
                return Ok(tok);
            },
            Ok(next) => {
                state = next;
            },
            Err(err) => {
                return Err(err);
            },
        }
    }
}

/// the string token whose opening quote is byte `pos` of `input`
pub fn parse_string(input: &str, pos: usize) -> (res: Result<TokenWithContext, Error>)
    requires
        pos < input.spec_bytes().len(),
        input.spec_bytes()[pos as int] == 0x22,
    ensures
        match string_scan(input.spec_bytes(), pos as int) {
            Ok(e) => res == Ok::<TokenWithContext, Error>(
                TokenWithContext { token: Token::String, range: sp(pos as int, e) },
            ),
            Err((k, site)) => res matches Err(err) && reports(err, k, site, input),
        },
{
    let s = input.as_bytes();
    proof {
        crate::text::lemma_str_bytes(input);
        assert(s@.subrange(0, s@.len() as int) =~= s@);
    }
    scan_string(s, input, pos)
}

} // verus!
