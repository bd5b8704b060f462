//! checking that a text is one JSON value
use vstd::prelude::*;
use vstd::string::StringSliceAdditionalSpecFns;

use crate::error::{Error, lemma_unterminated_placed, site_range};
use crate::tokens::stream::{lex_token, next_tok, unexpected_at, ws_end};
use crate::tokens::{Span, TokenStream, char_site};
use crate::error::ErrorKind;
use crate::tokens::lexical::JsonChar;
use crate::tokens::{ErrorSite, char_opt_at};
use vstd::utf8::*;
use crate::traverse::{
    Event, Fault, PVal, Visitor, failure_ok, fails, finish_check, lemma_tok_ok, lemma_value_at_failure_ok,
    parse_tokens, value_at,
};
use crate::diagnostics::{context_cuts, diagnosable};
use crate::text::{lemma_ascii_boundary, lemma_str_bytes};
use crate::tokens::TokenWithContext;
use crate::tokens::{Token, sp};
use crate::tokens::stream::LexStep;
use crate::tokens::string::{ascii_hexdigit, lemma_unicode_escape_read, string_body, string_scan};

verus! {

/// a visitor that keeps nothing of what it is told
pub struct NoopVisitor {
    pub events: Ghost<Seq<Event>>,
}

impl NoopVisitor {
    pub fn new() -> (res: Self)
        ensures
            res.events() == Seq::<Event>::empty(),
    {
        NoopVisitor { events: Ghost(Seq::empty()) }
    }
}

impl Visitor for NoopVisitor {
    open spec fn events(&self) -> Seq<Event> {
        self.events@
    }

    open spec fn inv(&self) -> bool {
        true
    }

    fn on_object_open(&mut self, range: Span) {
        proof {
            self.events@ = self.events@.push(Event::ObjectOpen(range));
        }
    }

    fn on_object_key(&mut self, range: Span, key: &str) {
        proof {
            self.events@ = self.events@.push(Event::ObjectKey(range, key@));
        }
    }

    fn on_object_key_val_delim(&mut self) {
        proof {
            self.events@ = self.events@.push(Event::ObjectKeyValDelim);
        }
    }

    fn on_object_close(&mut self, range: Span) {
        proof {
            self.events@ = self.events@.push(Event::ObjectClose(range));
        }
    }

    fn on_array_open(&mut self, range: Span) {
        proof {
            self.events@ = self.events@.push(Event::ArrayOpen(range));
        }
    }

    fn on_array_close(&mut self, range: Span) {
        proof {
            self.events@ = self.events@.push(Event::ArrayClose(range));
        }
    }

    fn on_null(&mut self, range: Span) {
        proof {
            self.events@ = self.events@.push(Event::Null(range));
        }
    }

    fn on_string(&mut self, range: Span, value: &str) {
        proof {
            self.events@ = self.events@.push(Event::String(range, value@));
        }
    }

    fn on_mantissa(&mut self, range: Span, mantissa: &str) {
        proof {
            self.events@ = self.events@.push(Event::Mantissa(range, mantissa@));
        }
    }

    fn on_exponent(&mut self, range: Span, exponent: &str) {
        proof {
            self.events@ = self.events@.push(Event::Exponent(range, exponent@));
        }
    }

    fn on_boolean(&mut self, range: Span, value: bool) {
        proof {
            self.events@ = self.events@.push(Event::Boolean(range, value));
        }
    }

    fn on_item_delim(&mut self) {
        proof {
            self.events@ = self.events@.push(Event::ItemDelim);
        }
    }
}

/// the outcome of reading `t` as one JSON value with nothing after it
pub open spec fn parse_whole(t: Seq<u8>) -> PVal {
    finish_check(t, value_at(t, 0, 0, t.len() as int), true)
}

/// `Ok` exactly when `json` is one JSON value, RFC 8259; else the error, at
/// the range the parse reports
pub fn validate_str(json: &str) -> (res: Result<(), Error>)
    ensures
        res is Ok <==> parse_whole(json.spec_bytes()) is Done,
        parse_whole(json.spec_bytes()) matches PVal::Failed(f, site) ==> res matches Err(e) && fails(
            e,
            f,
            site,
            json.spec_bytes(),
        ),
        res matches Err(e) ==> diagnosable(e),
{
    let mut visitor = NoopVisitor::new();
    let mut tokens = TokenStream::new(json);
    proof {
        tokens.lemma_wf();
    }
    match parse_tokens(&mut tokens, json, true, &mut visitor) {
        Ok(_) => Ok(()),
        Err(e) => {
            proof {
                lemma_str_bytes(json);
                lemma_parse_errors_diagnosable(json.spec_bytes(), e);
            }
            Err(e)
        },
    }
}

/// Every error that reading a UTF-8 text as one JSON value reports can be
/// shown with the text: it is reported at a place of the text, from one char
/// boundary to another, and so is every place that its diagnostic marks, cuts
/// out or edits.
pub proof fn lemma_parse_errors_diagnosable(t: Seq<u8>, e: Error)
    requires
        valid_utf8(t),
        t.len() <= usize::MAX,
        parse_whole(t) matches PVal::Failed(f, site) && fails(e, f, site, t),
    ensures
        diagnosable(e),
{
    lemma_unterminated_placed(t);
    is_char_boundary_start_end_of_seq(t);
    lemma_value_at_failure_ok(t, 0, 0, t.len() as int);
    if let PVal::Done(_, c2) = value_at(t, 0, 0, t.len() as int) {
        lemma_tok_ok(t, c2);
    }
    decode_utf8_encode_utf8(t);
    if let PVal::Failed(f, site) = parse_whole(t) {
        assert(failure_ok(f, site, t));
        let ctx: Option<TokenWithContext> = match f {
            Fault::ExpectedKey(c, _) => Some(c),
            Fault::ExpectedColon(c, _) => Some(c),
            Fault::ExpectedValue(c, _) => c,
            Fault::ExpectedEntryOrClosedDelimiter(c, _, _) => Some(c),
            Fault::ExpectedCommaOrClosedCurlyBrace(_, c, _) => Some(c),
            _ => None,
        };
        match ctx {
            Some(c) => {
                lemma_ascii_boundary(t, c.range.start as int);
                lemma_ascii_boundary(t, c.range.end as int);
                assert(context_cuts(e.spec_kind()) =~= seq![c.range]);
            },
            None => {
                assert(context_cuts(e.spec_kind()).len() == 0);
            },
        }
        let r = e.spec_range();
        if r.end >= 1 && t[r.end - 1] < 0x80 {
            lemma_ascii_boundary(t, r.end - 1);
        }
        match f {
            Fault::ExpectedValue(_, Some(found)) => {
                lemma_ascii_boundary(t, found.range.end - 1);
            },
            Fault::ExpectedCommaOrClosedCurlyBrace(pair, _, _) => {
                lemma_ascii_boundary(t, pair.start as int);
                lemma_ascii_boundary(t, pair.end as int);
            },
            _ => {},
        }
    }
}

/// A text that starts with a byte order mark is no JSON value: the mark is
/// refused as an unexpected character at the start.
pub proof fn lemma_byte_order_mark_refused(t: Seq<u8>)
    requires
        t.len() >= 3,
        t[0] == 0xEF,
        t[1] == 0xBB,
        t[2] == 0xBF,
    ensures
        parse_whole(t) == PVal::Failed(
            Fault::Lex(ErrorKind::UnexpectedCharacter(JsonChar('\u{feff}'))),
            ErrorSite::At(Span { start: 0, end: 3 }),
        ),
{
    let b = t.subrange(0, t.len() as int);
    assert(b[0] == 0xEF && b[1] == 0xBB && b[2] == 0xBF);
    let b0 = b[0];
    let b1 = b[1];
    let b2 = b[2];
    assert(codepoint_width_3(b0, b1, b2) == 0xFEFF) by (bit_vector)
        requires
            b0 == 0xEF && b1 == 0xBB && b2 == 0xBF,
    ;
    assert(is_leading_byte_width_3(b0)) by (bit_vector)
        requires
            b0 == 0xEF,
    ;
    assert(!is_leading_byte_width_1(b0) && !is_leading_byte_width_2(b0)) by (bit_vector)
        requires
            b0 == 0xEF,
    ;
    assert(length_of_first_codepoint(b) == 3);
    assert(decode_first_codepoint(b) == 0xFEFF);
    assert(decode_first_scalar(b) == 0xFEFF);
    assert(length_of_first_scalar(b) == 3);
    assert((0xFEFFu32 as char) == '\u{feff}');
    assert(char_opt_at(t, 0) == Some(JsonChar('\u{feff}')));
    assert(char_site(t, 0) == ErrorSite::At(Span { start: 0, end: 3 }));
    assert(ws_end(t, 0) == 0);
    reveal(lex_token);
    assert(lex_token(t, 0) == unexpected_at(t, 0));
    assert(next_tok(t, 0) == unexpected_at(t, 0));
}


/// A text that is one string holding one `\u` escape with four hexadecimal
/// digits, lower or upper case, is one JSON value.
pub proof fn lemma_unicode_escape_string_is_value(s: Seq<u8>)
    requires
        s.len() == 8,
        s[0] == 0x22,
        s[1] == 0x5C,
        s[2] == 0x75,
        forall|i: int| 3 <= i < 7 ==> ascii_hexdigit(#[trigger] s[i] as char),
        s[7] == 0x22,
    ensures
        parse_whole(s) is Done,
{
    lemma_unicode_escape_read(s, 0, 1);
    assert(string_body(s, 0, 7) == Ok::<int, (ErrorKind, ErrorSite)>(8));
    assert(string_scan(s, 0) == Ok::<int, (ErrorKind, ErrorSite)>(8));
    assert(ws_end(s, 0) == 0);
    reveal(lex_token);
    assert(lex_token(s, 0) == LexStep::Tok(TokenWithContext { token: Token::String, range: sp(0, 8) }));
    assert(next_tok(s, 0) == LexStep::Tok(TokenWithContext { token: Token::String, range: sp(0, 8) }));
    assert(value_at(s, 0, 0, 8) is Done);
    assert(ws_end(s, 8) == 8);
    assert(next_tok(s, 8) is End);
}

} // verus!
