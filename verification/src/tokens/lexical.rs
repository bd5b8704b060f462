//! lexical classes of JSON bytes and chars, RFC 8259 sections 2 and 7
use vstd::prelude::*;
use vstd::utf8::*;

use vstd::string::StringSliceAdditionalSpecFns;

use crate::text::{lemma_ascii_boundary, lemma_str_bytes, push_char, push_str, substr};
use crate::tokens::Token;

verus! {

/// a char of JSON text
#[derive(Debug, PartialEq, Eq, Clone, Copy, PartialOrd, Ord, Structural)]
pub struct JsonChar(pub char);

/// a byte of JSON text
#[derive(Debug, PartialEq, Eq, Clone, Copy, PartialOrd, Ord, Structural)]
pub struct JsonByte(pub u8);

/// insignificant whitespace: space, horizontal tab, line feed, carriage return
pub open spec fn is_ws(b: u8) -> bool {
    b == 0x20 || b == 0x09 || b == 0x0A || b == 0x0D
}

/// the structural token that a single byte is
pub open spec fn spec_byte_token(b: u8) -> Option<Token> {
    if b == 0x7B {
        Some(Token::OpenCurlyBrace)
    } else if b == 0x7D {
        Some(Token::ClosedCurlyBrace)
    } else if b == 0x3A {
        Some(Token::Colon)
    } else if b == 0x2C {
        Some(Token::Comma)
    } else if b == 0x5B {
        Some(Token::OpenSquareBracket)
    } else if b == 0x5D {
        Some(Token::ClosedSquareBracket)
    } else {
        None
    }
}

impl JsonByte {
    pub fn is_whitespace(&self) -> (res: bool)
        ensures
            res == is_ws(self.0),
    {
        self.0 == 0x20u8 || self.0 == 0x09u8 || self.0 == 0x0Au8 || self.0 == 0x0Du8
    }

    pub fn as_token(&self) -> (res: Option<Token>)
        ensures
            res == spec_byte_token(self.0),
    {
        match self.0 {
            0x7Bu8 => Some(Token::OpenCurlyBrace),
            0x7Du8 => Some(Token::ClosedCurlyBrace),
            0x3Au8 => Some(Token::Colon),
            0x2Cu8 => Some(Token::Comma),
            0x5Bu8 => Some(Token::OpenSquareBracket),
            0x5Du8 => Some(Token::ClosedSquareBracket),
            _ => None,
        }
    }
}

/// the two-char escape of a char that has one, RFC 8259 section 7
pub open spec fn spec_direct_escape(c: char) -> Option<char> {
    if c == '"' {
        Some('"')
    } else if c == '\\' {
        Some('\\')
    } else if c == '/' {
        Some('/')
    } else if c == '\u{0008}' {
        Some('b')
    } else if c == '\u{000C}' {
        Some('f')
    } else if c == '\n' {
        Some('n')
    } else if c == '\r' {
        Some('r')
    } else if c == '\t' {
        Some('t')
    } else {
        None
    }
}

/// the uppercase hexadecimal digit of a value below 16
pub open spec fn hex_digit(v: nat) -> char {
    if v < 10 {
        ((v + 0x30) as u8) as char
    } else {
        ((v - 10 + 0x41) as u8) as char
    }
}

/// uppercase hexadecimal digits of `v`, left padded with zeros to at least `w` digits
pub open spec fn hex_seq(v: nat, w: nat) -> Seq<char>
    decreases v + w,
{
    if v < 16 && w <= 1 {
        seq![hex_digit(v)]
    } else {
        hex_seq(
            v / 16,
            if w > 0 {
                (w - 1) as nat
            } else {
                0
            },
        ) + seq![hex_digit(v % 16)]
    }
}

/// appends the uppercase hexadecimal digits of `v`, left padded to `w` digits
pub fn push_hex(buf: &mut String, v: u32, w: u32)
    requires
        w <= 8,
    ensures
        final(buf)@ == old(buf)@ + hex_seq(v as nat, w as nat),
    decreases v + w,
{
    if v < 16 && w <= 1 {
        push_char(buf, hex_char(v));
    } else {
        assert(v / 16 + (if w > 0 { w - 1 } else { 0 }) < v + w) by (nonlinear_arith)
            requires
                !(v < 16 && w <= 1),
        ;
        push_hex(buf, v / 16, if w > 0 { w - 1 } else { 0 });
        push_char(buf, hex_char(v % 16));
        assert(final(buf)@ =~= old(buf)@ + hex_seq(v as nat, w as nat));
    }
}

fn hex_char(v: u32) -> (res: char)
    requires
        v < 16,
    ensures
        res == hex_digit(v as nat),
{
    if v < 10 {
        ((v + 0x30) as u8) as char
    } else {
        ((v - 10 + 0x41) as u8) as char
    }
}

/// the escape of a char: its two-char escape, else `\u` and four uppercase hex digits
pub open spec fn spec_escape(c: char) -> Seq<char> {
    match spec_direct_escape(c) {
        Some(e) => seq!['\\', e],
        None => seq!['\\', 'u'] + hex_seq(c as nat, 4),
    }
}

/// control chars, `U+0000` to `U+001F`, must be escaped in JSON strings
pub open spec fn is_control_char(c: char) -> bool {
    (c as u32) <= 0x1F
}

impl JsonChar {
    /// the two-char escape of the char, if it has one
    pub fn direct_escape(self) -> (res: Option<&'static str>)
        ensures
            res is Some <==> spec_direct_escape(self.0) is Some,
            res matches Some(s) ==> s@ == seq!['\\', spec_direct_escape(self.0).unwrap()],
    {
        proof {
            reveal_strlit("\\\"");
            reveal_strlit("\\\\");
            reveal_strlit("\\/");
            reveal_strlit("\\b");
            reveal_strlit("\\f");
            reveal_strlit("\\n");
            reveal_strlit("\\r");
            reveal_strlit("\\t");
        }
        match self.0 {
            '"' => Some("\\\""),
            '\\' => Some("\\\\"),
            '/' => Some("\\/"),
            '\u{0008}' => Some("\\b"),
            '\u{000C}' => Some("\\f"),
            '\n' => Some("\\n"),
            '\r' => Some("\\r"),
            '\t' => Some("\\t"),
            _ => None,
        }
    }

    /// the two-char escape that must be used, which leaves `/` alone
    pub fn minimal_escape(self) -> (res: Option<&'static str>)
        ensures
            res is Some <==> (spec_direct_escape(self.0) is Some && self.0 != '/'),
            res matches Some(s) ==> s@ == seq!['\\', spec_direct_escape(self.0).unwrap()],
    {
        if self.0 == '/' {
            None
        } else {
            self.direct_escape()
        }
    }

    /// the escaped form of the char
    pub fn escape(self) -> (res: String)
        ensures
            res@ == spec_escape(self.0),
    {
        let mut out = String::new();
        match self.direct_escape() {
            Some(escaped) => {
                push_str(&mut out, escaped);
            },
            None => {
                push_char(&mut out, '\\');
                push_char(&mut out, 'u');
                push_hex(&mut out, self.0 as u32, 4);
            },
        }
        assert(out@ =~= spec_escape(self.0));
        out
    }

    pub fn is_hexdigit(&self) -> (res: bool)
        ensures
            res == (('0' <= self.0 <= '9') || ('a' <= self.0 <= 'f') || ('A' <= self.0 <= 'F')),
    {
        ('0' <= self.0 && self.0 <= '9') || ('a' <= self.0 && self.0 <= 'f') || ('A' <= self.0
            && self.0 <= 'F')
    }

    /// chars that may follow a backslash in a JSON string
    pub fn can_be_escaped_directly(&self) -> (res: bool)
        ensures
            res == (self.0 == '"' || self.0 == '\\' || self.0 == '/' || self.0 == 'b' || self.0
                == 'f' || self.0 == 'n' || self.0 == 'r' || self.0 == 't'),
    {
        self.0 == '"' || self.0 == '\\' || self.0 == '/' || self.0 == 'b' || self.0 == 'f'
            || self.0 == 'n' || self.0 == 'r' || self.0 == 't'
    }

    /// `U+0000` to `U+001F`, RFC 8259 section 7
    pub fn is_control(&self) -> (res: bool)
        ensures
            res == is_control_char(self.0),
    {
        (self.0 as u32) <= 0x1F
    }

    /// space, horizontal tab, line feed or carriage return, RFC 8259 section 2
    pub fn is_whitespace(&self) -> (res: bool)
        ensures
            res == (self.0 == ' ' || self.0 == '\t' || self.0 == '\n' || self.0 == '\r'),
    {
        self.0 == ' ' || self.0 == '\t' || self.0 == '\n' || self.0 == '\r'
    }

    /// `{`, `}`, `[`, `]`, `:` or `,`, RFC 8259 section 2
    pub fn is_structural(&self) -> (res: bool)
        ensures
            res == (self.0 == '{' || self.0 == '}' || self.0 == '[' || self.0 == ']' || self.0
                == ':' || self.0 == ','),
    {
        self.0 == '{' || self.0 == '}' || self.0 == '[' || self.0 == ']' || self.0 == ':'
            || self.0 == ','
    }

    /// how the char is shown in messages: control chars escaped, others as they are
    pub fn display(&self) -> (res: String)
        ensures
            res@ == (if is_control_char(self.0) {
                spec_escape(self.0)
            } else {
                seq![self.0]
            }),
    {
        if self.is_control() {
            self.escape()
        } else {
            let mut out = String::new();
            push_char(&mut out, self.0);
            out
        }
    }
}

/// the offset just past the last byte that is not whitespace
pub open spec fn trimmed_end(s: Seq<u8>) -> int
    decreases s.len(),
{
    if s.len() > 0 && is_ws(s.last()) {
        trimmed_end(s.drop_last())
    } else {
        s.len() as int
    }
}

/// the length of the bytes of `s` once trailing JSON whitespace is removed
pub fn trimmed_len(s: &[u8]) -> (res: usize)
    ensures
        res == trimmed_end(s@),
        res <= s@.len(),
        forall|i: int| res <= i < s@.len() ==> is_ws(#[trigger] s@[i]),
        res > 0 ==> !is_ws(s@[res - 1]),
{
    let mut end = s.len();
    assert(s@.subrange(0, end as int) =~= s@);
    while end > 0 && (s[end - 1] == 0x20u8 || s[end - 1] == 0x09u8 || s[end - 1] == 0x0Au8 || s[end
        - 1] == 0x0Du8)
        invariant
            end <= s@.len(),
            trimmed_end(s@) == trimmed_end(s@.subrange(0, end as int)),
            forall|i: int| end <= i < s@.len() ==> is_ws(#[trigger] s@[i]),
        decreases end,
    {
        assert(s@.subrange(0, end as int).drop_last() =~= s@.subrange(0, end - 1));
        end = end - 1;
    }
    assert(s@.subrange(0, end as int).len() == end);
    if end > 0 {
        assert(s@.subrange(0, end as int).last() == s@[end - 1]);
    }
    end
}

/// `s` without its trailing JSON whitespace
pub fn trim_end_whitespace(s: &str) -> (res: &str)
    ensures
        res.spec_bytes() == s.spec_bytes().subrange(0, trimmed_end(s.spec_bytes())),
{
    let bytes = s.as_bytes();
    let end = trimmed_len(bytes);
    proof {
        lemma_str_bytes(s);
        if end < bytes@.len() {
            assert(is_ws(bytes@[end as int]));
        }
        lemma_ascii_boundary(s.spec_bytes(), 0);
        lemma_ascii_boundary(s.spec_bytes(), end as int);
    }
    substr(s, 0, end)
}

} // verus!
