//! the texts that tokens and errors are shown with
use vstd::prelude::*;

use crate::bytes2chars;
use crate::error::{Error, ErrorKind, ErrorToken, JsonCharOption, TokenOption};
use crate::text::{push_char, push_str};
use crate::tokens::Token;
use crate::tokens::lexical::{JsonChar, hex_seq, is_control_char, push_hex, spec_escape};

verus! {

/// what is shown when nothing was found
pub open spec fn nothing_found() -> Seq<char> {
    "no significant characters"@
}

/// the text of a token kind
pub open spec fn token_text(t: Token) -> Seq<char> {
    match t {
        Token::OpenCurlyBrace => "{"@,
        Token::ClosedCurlyBrace => "}"@,
        Token::Colon => ":"@,
        Token::Comma => ","@,
        Token::OpenSquareBracket => "["@,
        Token::ClosedSquareBracket => "]"@,
        Token::String => "string"@,
        Token::Mantissa => "mantissa"@,
        Token::Exponent => "exponent"@,
        Token::Null => "null"@,
        Token::True => "true"@,
        Token::False => "false"@,
    }
}

/// `s` in backticks
pub open spec fn ticked(s: Seq<char>) -> Seq<char> {
    seq!['`'] + s + seq!['`']
}

/// how a token kind is shown
pub open spec fn token_display(t: Token) -> Seq<char> {
    ticked(token_text(t))
}

/// how a char is shown: control chars escaped, others as they are
pub open spec fn char_display(c: JsonChar) -> Seq<char> {
    if is_control_char(c.0) {
        spec_escape(c.0)
    } else {
        seq![c.0]
    }
}

/// how a char found is shown
pub open spec fn char_option_display(o: JsonCharOption) -> Seq<char> {
    match o.0 {
        Some(c) => ticked(char_display(c)),
        None => nothing_found(),
    }
}

/// how a token found is shown: strings and numbers with their text
pub open spec fn error_token_display(e: ErrorToken) -> Seq<char> {
    match e.spec_tag() {
        Token::String => ticked(e.spec_content()),
        Token::Mantissa => ticked(e.spec_content()),
        Token::Exponent => ticked(seq!['e'] + e.spec_content()),
        t => token_display(t),
    }
}

/// how a token found, or nothing, is shown
pub open spec fn token_option_display(o: TokenOption) -> Seq<char> {
    match o.0 {
        Some(e) => error_token_display(e),
        None => nothing_found(),
    }
}

/// the decimal digits of `n`
pub open spec fn decimal(n: nat) -> Seq<char>
    decreases n,
{
    if n < 10 {
        seq![((n + 0x30) as u8) as char]
    } else {
        decimal(n / 10) + seq![((n % 10 + 0x30) as u8) as char]
    }
}

/// what a UTF-8 decoding error says
pub open spec fn utf8_message(k: bytes2chars::ErrorKind) -> Seq<char> {
    match k {
        bytes2chars::ErrorKind::InvalidLead(b) => "byte 0x"@ + hex_seq(b as nat, 2)
            + " cannot start a UTF-8 sequence"@,
        bytes2chars::ErrorKind::InvalidSequenceLength(b) => "byte 0x"@ + hex_seq(b as nat, 2)
            + " would start a sequence of 5 or more bytes"@,
        bytes2chars::ErrorKind::ExpectedContinuation(b) => "expected a continuation byte, found 0x"@
            + hex_seq(b as nat, 2),
        bytes2chars::ErrorKind::InvalidSurrogate(c) => "invalid surrogate code point U+"@ + hex_seq(
            c as nat,
            4,
        ),
        bytes2chars::ErrorKind::Overlong(c) => "overlong encoding of U+"@ + hex_seq(c as nat, 4),
        bytes2chars::ErrorKind::OutOfRange(c) => "code point U+"@ + hex_seq(c as nat, 4)
            + " exceeds maximum U+10FFFF"@,
        bytes2chars::ErrorKind::UnfinishedSequence => "unfinished multi-byte sequence"@,
    }
}

/// what a JSON syntax error says
pub open spec fn kind_message(k: ErrorKind) -> Seq<char> {
    match k {
        ErrorKind::ExpectedKey(_, found) => "expected key, found "@ + token_option_display(found),
        ErrorKind::ExpectedColon(_, found) => "expected colon after key, found "@
            + token_option_display(found),
        ErrorKind::ExpectedValue(_, found) => "expected json value, found "@ + token_option_display(
            found,
        ),
        ErrorKind::ExpectedEntryOrClosedDelimiter { expected, found, .. } =>
            "expected entry or closed delimiter `"@ + char_display(expected) + "`, found "@
            + token_option_display(found),
        ErrorKind::ExpectedCommaOrClosedCurlyBrace { found, .. } =>
            "expected comma or closed curly brace, found "@ + token_option_display(found),
        ErrorKind::ExpectedOpenBrace { expected, found, .. } => "expected open brace `"@
            + char_display(expected) + "`, found "@ + token_option_display(found),
        ErrorKind::ExpectedDigitFollowingMinus(_, found) =>
            "expected digit following minus sign, found "@ + char_option_display(found),
        ErrorKind::ExpectedMinusOrDigit(found) => "expected '-' or digit to start number, found "@
            + char_option_display(found),
        ErrorKind::UnexpectedLeadingZero { .. } => "unexpected leading zero"@,
        ErrorKind::ExpectedDigitAfterDot { maybe_c, .. } =>
            "expected fraction digit following dot, found "@ + char_option_display(maybe_c),
        ErrorKind::ExpectedPlusOrMinusOrDigitAfterE { maybe_c, .. } =>
            "expected +/- or digit after exponent indicator, found "@ + char_option_display(
                maybe_c,
            ),
        ErrorKind::ExpectedDigitAfterE { maybe_c, .. } =>
            "expected digit after exponent indicator, found "@ + char_option_display(maybe_c),
        ErrorKind::UnexpectedControlCharacterInString(c) =>
            "unexpected unescaped control character `"@ + char_display(c)
            + "` in string literal"@,
        ErrorKind::ExpectedQuote { .. } => "expected closing quote"@,
        ErrorKind::ExpectedHexDigit { maybe_c, digit_idx, .. } => "expected hex digit "@ + decimal(
            digit_idx as nat,
        ) + " of 4 in escape, found "@ + char_option_display(maybe_c),
        ErrorKind::ExpectedEscape { maybe_c, .. } => "expected escapable sequence, found "@
            + char_option_display(maybe_c) + escape_help(),
        ErrorKind::InvalidEncoding(k) => utf8_message(k),
        ErrorKind::UnexpectedCharacter(c) => "unexpected character `"@ + char_display(c)
            + "`. expected start of a json value"@,
        ErrorKind::TokenAfterEnd(t) => "unexpected token "@ + error_token_display(t)
            + " after json finished"@,
        ErrorKind::NestingTooDeep(n) => "json is nested too deeply (max depth: "@ + decimal(
            n as nat,
        ) + ")"@,
    }
}

/// the list of escapes shown after an escape error
pub open spec fn escape_help() -> Seq<char> {
    ".\nvalid escapes are `\\\"`, `\\\\`, `\\/`, `\\b`, `\\f`, `\\n`, `\\r`, `\\t` or `\\uXXXX` (4 hex digits)"@
}

/// appends the decimal digits of `n`
pub fn push_decimal(buf: &mut String, n: usize)
    ensures
        final(buf)@ == old(buf)@ + decimal(n as nat),
    decreases n,
{
    if n < 10 {
        push_char(buf, ((n as u8) + 0x30) as char);
    } else {
        push_decimal(buf, n / 10);
        push_char(buf, (((n % 10) as u8) + 0x30) as char);
        assert(final(buf)@ =~= old(buf)@ + decimal(n as nat));
    }
}

impl Token {
    /// the token kind as it is shown
    pub fn display(&self) -> (res: String)
        ensures
            res@ == token_display(*self),
    {
        let mut out = String::new();
        push_char(&mut out, '`');
        push_str(&mut out, self.text());
        push_char(&mut out, '`');
        assert(out@ =~= token_display(*self));
        out
    }

    /// the text of the token kind
    pub fn text(&self) -> (res: &'static str)
        ensures
            res@ == token_text(*self),
    {
        match self {
            Token::OpenCurlyBrace => "{",
            Token::ClosedCurlyBrace => "}",
            Token::Colon => ":",
            Token::Comma => ",",
            Token::OpenSquareBracket => "[",
            Token::ClosedSquareBracket => "]",
            Token::String => "string",
            Token::Mantissa => "mantissa",
            Token::Exponent => "exponent",
            Token::Null => "null",
            Token::True => "true",
            Token::False => "false",
        }
    }
}

fn push_char_display(buf: &mut String, c: JsonChar)
    ensures
        final(buf)@ == old(buf)@ + char_display(c),
{
    let shown = c.display();
    push_str(buf, shown.as_str());
}

fn push_char_option(buf: &mut String, o: &JsonCharOption)
    ensures
        final(buf)@ == old(buf)@ + char_option_display(*o),
{
    match o.0 {
        Some(c) => {
            push_char(buf, '`');
            push_char_display(buf, c);
            push_char(buf, '`');
            assert(final(buf)@ =~= old(buf)@ + char_option_display(*o));
        },
        None => {
            push_str(buf, "no significant characters");
        },
    }
}

fn push_error_token(buf: &mut String, e: &ErrorToken)
    ensures
        final(buf)@ == old(buf)@ + error_token_display(*e),
{
    match e.tag() {
        Token::String | Token::Mantissa => {
            push_char(buf, '`');
            push_str(buf, e.content());
            push_char(buf, '`');
        },
        Token::Exponent => {
            push_char(buf, '`');
            push_char(buf, 'e');
            push_str(buf, e.content());
            push_char(buf, '`');
        },
        t => {
            let shown = t.display();
            push_str(buf, shown.as_str());
        },
    }
    assert(final(buf)@ =~= old(buf)@ + error_token_display(*e));
}

fn push_token_option(buf: &mut String, o: &TokenOption)
    ensures
        final(buf)@ == old(buf)@ + token_option_display(*o),
{
    match &o.0 {
        Some(e) => push_error_token(buf, e),
        None => push_str(buf, "no significant characters"),
    }
}

impl ErrorToken {
    /// the token as it is shown
    pub fn display(&self) -> (res: String)
        ensures
            res@ == error_token_display(*self),
    {
        let mut out = String::new();
        push_error_token(&mut out, self);
        assert(out@ =~= error_token_display(*self));
        out
    }
}

impl TokenOption {
    /// the token found, or nothing, as it is shown
    pub fn display(&self) -> (res: String)
        ensures
            res@ == token_option_display(*self),
    {
        let mut out = String::new();
        push_token_option(&mut out, self);
        assert(out@ =~= token_option_display(*self));
        out
    }
}

impl JsonCharOption {
    /// the char found, or nothing, as it is shown
    pub fn display(&self) -> (res: String)
        ensures
            res@ == char_option_display(*self),
    {
        let mut out = String::new();
        push_char_option(&mut out, self);
        assert(out@ =~= char_option_display(*self));
        out
    }
}

/// what a UTF-8 decoding error says
pub fn utf8_error_message(k: bytes2chars::ErrorKind) -> (res: String)
    ensures
        res@ == utf8_message(k),
{
    let mut out = String::new();
    match k {
        bytes2chars::ErrorKind::InvalidLead(b) => {
            push_str(&mut out, "byte 0x");
            push_hex(&mut out, b as u32, 2);
            push_str(&mut out, " cannot start a UTF-8 sequence");
        },
        bytes2chars::ErrorKind::InvalidSequenceLength(b) => {
            push_str(&mut out, "byte 0x");
            push_hex(&mut out, b as u32, 2);
            push_str(&mut out, " would start a sequence of 5 or more bytes");
        },
        bytes2chars::ErrorKind::ExpectedContinuation(b) => {
            push_str(&mut out, "expected a continuation byte, found 0x");
            push_hex(&mut out, b as u32, 2);
        },
        bytes2chars::ErrorKind::InvalidSurrogate(c) => {
            push_str(&mut out, "invalid surrogate code point U+");
            push_hex(&mut out, c, 4);
        },
        bytes2chars::ErrorKind::Overlong(c) => {
            push_str(&mut out, "overlong encoding of U+");
            push_hex(&mut out, c, 4);
        },
        bytes2chars::ErrorKind::OutOfRange(c) => {
            push_str(&mut out, "code point U+");
            push_hex(&mut out, c, 4);
            push_str(&mut out, " exceeds maximum U+10FFFF");
        },
        bytes2chars::ErrorKind::UnfinishedSequence => {
            push_str(&mut out, "unfinished multi-byte sequence");
        },
    }
    assert(out@ =~= utf8_message(k));
    out
}

impl ErrorKind {
    /// what the error says
    pub fn message(&self) -> (res: String)
        ensures
            res@ == kind_message(*self),
    {
        let mut out = String::new();
        match self {
            ErrorKind::ExpectedKey(_, found) => {
                push_str(&mut out, "expected key, found ");
                push_token_option(&mut out, found);
            },
            ErrorKind::ExpectedColon(_, found) => {
                push_str(&mut out, "expected colon after key, found ");
                push_token_option(&mut out, found);
            },
            ErrorKind::ExpectedValue(_, found) => {
                push_str(&mut out, "expected json value, found ");
                push_token_option(&mut out, found);
            },
            ErrorKind::ExpectedEntryOrClosedDelimiter { expected, found, .. } => {
                push_str(&mut out, "expected entry or closed delimiter `");
                push_char_display(&mut out, *expected);
                push_str(&mut out, "`, found ");
                push_token_option(&mut out, found);
            },
            ErrorKind::ExpectedCommaOrClosedCurlyBrace { found, .. } => {
                push_str(&mut out, "expected comma or closed curly brace, found ");
                push_token_option(&mut out, found);
            },
            ErrorKind::ExpectedOpenBrace { expected, found, .. } => {
                push_str(&mut out, "expected open brace `");
                push_char_display(&mut out, *expected);
                push_str(&mut out, "`, found ");
                push_token_option(&mut out, found);
            },
            ErrorKind::ExpectedDigitFollowingMinus(_, found) => {
                push_str(&mut out, "expected digit following minus sign, found ");
                push_char_option(&mut out, found);
            },
            ErrorKind::ExpectedMinusOrDigit(found) => {
                push_str(&mut out, "expected '-' or digit to start number, found ");
                push_char_option(&mut out, found);
            },
            ErrorKind::UnexpectedLeadingZero { .. } => {
                push_str(&mut out, "unexpected leading zero");
            },
            ErrorKind::ExpectedDigitAfterDot { maybe_c, .. } => {
                push_str(&mut out, "expected fraction digit following dot, found ");
                push_char_option(&mut out, maybe_c);
            },
            ErrorKind::ExpectedPlusOrMinusOrDigitAfterE { maybe_c, .. } => {
                push_str(&mut out, "expected +/- or digit after exponent indicator, found ");
                push_char_option(&mut out, maybe_c);
            },
            ErrorKind::ExpectedDigitAfterE { maybe_c, .. } => {
                push_str(&mut out, "expected digit after exponent indicator, found ");
                push_char_option(&mut out, maybe_c);
            },
            ErrorKind::UnexpectedControlCharacterInString(c) => {
                push_str(&mut out, "unexpected unescaped control character `");
                push_char_display(&mut out, *c);
                push_str(&mut out, "` in string literal");
            },
            ErrorKind::ExpectedQuote { .. } => {
                push_str(&mut out, "expected closing quote");
            },
            ErrorKind::ExpectedHexDigit { maybe_c, digit_idx, .. } => {
                push_str(&mut out, "expected hex digit ");
                push_decimal(&mut out, *digit_idx);
                push_str(&mut out, " of 4 in escape, found ");
                push_char_option(&mut out, maybe_c);
            },
            ErrorKind::ExpectedEscape { maybe_c, .. } => {
                push_str(&mut out, "expected escapable sequence, found ");
                push_char_option(&mut out, maybe_c);
                push_str(
                    &mut out,
                    ".\nvalid escapes are `\\\"`, `\\\\`, `\\/`, `\\b`, `\\f`, `\\n`, `\\r`, `\\t` or `\\uXXXX` (4 hex digits)",
                );
            },
            ErrorKind::InvalidEncoding(k) => {
                let m = utf8_error_message(*k);
                push_str(&mut out, m.as_str());
            },
            ErrorKind::UnexpectedCharacter(c) => {
                push_str(&mut out, "unexpected character `");
                push_char_display(&mut out, *c);
                push_str(&mut out, "`. expected start of a json value");
            },
            ErrorKind::TokenAfterEnd(t) => {
                push_str(&mut out, "unexpected token ");
                push_error_token(&mut out, t);
                push_str(&mut out, " after json finished");
            },
            ErrorKind::NestingTooDeep(n) => {
                push_str(&mut out, "json is nested too deeply (max depth: ");
                push_decimal(&mut out, *n);
                push_str(&mut out, ")");
            },
        }
        assert(out@ =~= kind_message(*self));
        out
    }
}

impl Error {
    /// what the error says
    pub fn message(&self) -> (res: String)
        ensures
            res@ == kind_message(self.spec_kind()),
    {
        self.kind().message()
    }
}

} // verus!
