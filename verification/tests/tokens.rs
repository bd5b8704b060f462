use core::ops::Range;

use jjpwrgem::error::Error;
use jjpwrgem::tokens::number::parse_mantissa;
use jjpwrgem::tokens::{Span, Token, TokenStream, TokenWithContext};

fn str_to_tokens(s: &str) -> Result<Vec<TokenWithContext>, Error> {
    let mut stream = TokenStream::new(s);
    let mut out = Vec::new();
    while let Some(t) = stream.next_token()? {
        out.push(t);
    }
    Ok(out)
}

fn ctx(token: Token, range: Range<usize>) -> TokenWithContext {
    TokenWithContext::new(token, range)
}

fn parse_mantissa_from_start(input: &str) -> (Result<TokenWithContext, Error>, usize) {
    let result = parse_mantissa(input, 0);
    let pos = match &result {
        Ok(t) => t.range.end,
        Err(_) => 0,
    };
    (result, pos)
}

#[test]
fn should_parse_single_key_object() {
    assert_eq!(
        str_to_tokens(r#"{"rust": "is a must"}"#).unwrap(),
        [
            ctx(Token::OpenCurlyBrace, 0..1),
            ctx(Token::String, 1..7),
            ctx(Token::Colon, 7..8),
            ctx(Token::String, 9..20),
            ctx(Token::ClosedCurlyBrace, 20..21),
        ]
    )
}

#[test]
fn multiple_keys() {
    assert_eq!(
        str_to_tokens(
            r#"{
                "rust": "is a must",
                "name": "ferris"
            }"#
        )
        .unwrap(),
        [
            ctx(Token::OpenCurlyBrace, 0..1),
            ctx(Token::String, 18..24),
            ctx(Token::Colon, 24..25),
            ctx(Token::String, 26..37),
            ctx(Token::Comma, 37..38),
            ctx(Token::String, 55..61),
            ctx(Token::Colon, 61..62),
            ctx(Token::String, 63..71),
            ctx(Token::ClosedCurlyBrace, 84..85),
        ]
    );
}

#[test]
fn array_brackets() {
    assert_eq!(
        str_to_tokens("[]").unwrap(),
        [ctx(Token::OpenSquareBracket, 0..1), ctx(Token::ClosedSquareBracket, 1..2)]
    )
}

#[test]
fn token_with_context_size() {
    assert_eq!(core::mem::size_of::<Token>(), 1);
    assert_eq!(core::mem::size_of::<TokenWithContext>(), 24);
}

#[test]
fn mantissa_updates_position_on_success() {
    let (token, pos) = parse_mantissa_from_start("-12.34x");
    let token = token.unwrap();
    assert_eq!(token.range, Span::new(0, 6));
    assert_eq!(pos, 6);
}

#[test]
fn mantissa_keeps_utf8_boundary() {
    let (token, pos) = parse_mantissa_from_start("1é");
    let token = token.unwrap();
    assert_eq!(token.range, Span::new(0, 1));
    assert_eq!(pos, 1);
}

#[test]
fn mantissa_does_not_advance_position_on_error() {
    let (result, pos) = parse_mantissa_from_start("-é");
    assert!(result.is_err());
    assert_eq!(pos, 0);
}
