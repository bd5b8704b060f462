//! JSON arrays, RFC 8259 section 5
use vstd::prelude::*;
use vstd::string::StringSliceAdditionalSpecFns;

use crate::ast::SpecValue;
use crate::error::{Error, ErrorKind, TokenOption, site_range};
use crate::text::lemma_str_bytes;
use crate::tokens::lexical::JsonChar;
use crate::tokens::stream::{LexStep, next_tok};
use crate::tokens::{ErrorSite, Span, Token, TokenStream, TokenWithContext, sp};
use crate::traverse::{
    Event, MAX_DEPTH, PVal, Visitor, arr_items, arr_value, array_at, fails, items_events, lemma_token_text,
    parse_tokens_at_depth, reported_range, span_ok, spans_ok, validate_start_of_value, value_at, value_events,
};

verus! {

/// where reading an array stands
#[derive(Debug, PartialEq, Eq, Clone)]
pub enum ArrayState {
    Open,
    ValueOrEnd { open_ctx: TokenWithContext },
    Value { open_ctx: TokenWithContext, expect_ctx: TokenWithContext },
    CommaOrEnd { open_ctx: TokenWithContext, last_value_range: Span },
    End(Span),
}

/// the events of an array so far: its opening bracket and its items
pub open spec fn array_prefix(open: Span, items: Seq<SpecValue>, tb: Seq<u8>) -> Seq<Event> {
    seq![Event::ArrayOpen(open)] + items_events(items, tb)
}

/// what a state of the array reader knows: at cursor `c` of `s`, the outcome of
/// the whole array is `goal`, and the events so far follow `ev0`
pub open spec fn array_state_inv(
    st: ArrayState,
    s: Seq<u8>,
    tb: Seq<u8>,
    c: int,
    d: int,
    items: Seq<SpecValue>,
    ev0: Seq<Event>,
    evs: Seq<Event>,
    goal: PVal,
) -> bool {
    let tl = tb.len() as int;
    &&& forall|i: int| 0 <= i < items.len() ==> spans_ok(#[trigger] items[i], tb)
    &&& match st {
        ArrayState::Open => goal == array_at(s, c, d, tl) && evs == ev0 && items.len() == 0,
        ArrayState::ValueOrEnd { open_ctx } => {
            &&& open_ctx.token is OpenSquareBracket
            &&& open_ctx.range.end == open_ctx.range.start + 1
            &&& open_ctx.range.end <= c
            &&& goal == arr_items(s, c, d, tl, open_ctx.range, items, true)
            &&& items.len() == 0
            &&& evs == ev0 + array_prefix(open_ctx.range, items, tb)
        },
        ArrayState::Value { open_ctx, expect_ctx } => {
            &&& open_ctx.token is OpenSquareBracket
            &&& open_ctx.range.end == open_ctx.range.start + 1
            &&& open_ctx.range.end <= c
            &&& goal == arr_value(s, c, d, tl, open_ctx.range, items, expect_ctx)
            &&& evs == ev0 + array_prefix(open_ctx.range, items, tb) + (if items.len() > 0 {
                seq![Event::ItemDelim]
            } else {
                Seq::empty()
            })
        },
        ArrayState::CommaOrEnd { open_ctx, .. } => {
            &&& open_ctx.token is OpenSquareBracket
            &&& open_ctx.range.end == open_ctx.range.start + 1
            &&& open_ctx.range.end <= c
            &&& goal == arr_items(s, c, d, tl, open_ctx.range, items, false)
            &&& items.len() > 0
            &&& evs == ev0 + array_prefix(open_ctx.range, items, tb)
        },
        ArrayState::End(range) => {
            &&& goal == PVal::Done(SpecValue::Array(range, items), c)
            &&& range.start < range.end
            &&& evs == ev0 + value_events(SpecValue::Array(range, items), tb)
        },
    }
}

impl ArrayState {
    /// one step: reads what the state expects next
    pub fn process<V: Visitor>(
        self,
        tokens: &mut TokenStream,
        text: &str,
        visitor: &mut V,
        depth: usize,
        items: &mut Ghost<Seq<SpecValue>>,
        Ghost(ev0): Ghost<Seq<Event>>,
        Ghost(goal): Ghost<PVal>,
    ) -> (res: Result<Self, Error>)
        requires
            old(tokens).wf(),
            old(tokens).text() == text,
            old(visitor).inv(),
            depth < MAX_DEPTH,
            !(self is End),
            array_state_inv(
                self,
                old(tokens).bytes(),
                text.spec_bytes(),
                old(tokens).cursor(),
                depth as int,
                old(items)@,
                ev0,
                old(visitor).events(),
                goal,
            ),
        ensures
            final(tokens).wf(),
            final(tokens).text() == text,
            final(tokens).bytes() == old(tokens).bytes(),
            final(visitor).inv(),
            match res {
                Ok(st) => {
                    &&& !(st is Open)
                    &&& array_state_inv(
                        st,
                        old(tokens).bytes(),
                        text.spec_bytes(),
                        final(tokens).cursor(),
                        depth as int,
                        final(items)@,
                        ev0,
                        final(visitor).events(),
                        goal,
                    )
                    &&& old(tokens).cursor() <= final(tokens).cursor() <= old(tokens).bytes().len()
                    &&& (old(tokens).cursor() == final(tokens).cursor() ==> self is ValueOrEnd
                        && !(st is ValueOrEnd))
                },
                Err(e) => goal matches PVal::Failed(f, site) && fails(e, f, site, text.spec_bytes()),
            },
        decreases MAX_DEPTH - depth, 0int,
    {
        let ghost s = tokens.bytes();
        let ghost tb = text.spec_bytes();
        let ghost c0 = tokens.cursor();
        let ghost tl = tb.len() as int;
        proof {
            tokens.lemma_wf();
            lemma_str_bytes(text);
        }
        match self {
            ArrayState::Open => {
                let next = match tokens.next_token() {
                    Ok(n) => n,
                    Err(e) => {
                        return Err(e);
                    },
                };
                if let Some(open_ctx) = next {
                    proof {
                        lemma_token_text(s, tb, c0, open_ctx);
                    }
                    if open_ctx.token == Token::OpenSquareBracket {
                        visitor.on_array_open(open_ctx.range);
                        proof {
                            assert(items@ =~= Seq::<SpecValue>::empty());
                            assert(items_events(items@, tb) =~= Seq::<Event>::empty());
                            assert(visitor.events() =~= ev0 + array_prefix(open_ctx.range, items@, tb));
                        }
                        return Ok(ArrayState::ValueOrEnd { open_ctx });
                    }
                }
                let found = TokenOption::found(next, text);
                Err(
                    Error::from_maybe_token_with_context(
                        ErrorKind::ExpectedOpenBrace { expected: JsonChar('['), context: None, found },
                        next,
                        text,
                    ),
                )
            },
            ArrayState::ValueOrEnd { open_ctx } => {
                let peeked = match tokens.peek_token() {
                    Ok(p) => p,
                    Err(e) => {
                        return Err(e);
                    },
                };
                match peeked {
                    Some(ctx) => {
                        proof {
                            lemma_token_text(s, tb, c0, ctx);
                        }
                        if ctx.token == Token::ClosedSquareBracket {
                            let _closed = tokens.next_token();
                            visitor.on_array_close(ctx.range);
                            let range = Span { start: open_ctx.range.start, end: ctx.range.end };
                            proof {
                                assert(visitor.events() =~= ev0 + value_events(
                                    SpecValue::Array(range, items@),
                                    tb,
                                ));
                            }
                            Ok(ArrayState::End(range))
                        } else if ctx.token.is_start_of_value() {
                            proof {
                                assert(visitor.events() =~= ev0 + array_prefix(open_ctx.range, items@, tb)
                                    + Seq::empty());
                            }
                            Ok(ArrayState::Value { open_ctx, expect_ctx: open_ctx })
                        } else {
                            let next = match tokens.next_token() {
                                Ok(n) => n,
                                Err(e) => {
                                    return Err(e);
                                },
                            };
                            let found = TokenOption::found(next, text);
                            let kind = ErrorKind::ExpectedEntryOrClosedDelimiter {
                                open_ctx,
                                expected: JsonChar(']'),
                                found,
                            };
                            Err(Error::from_maybe_token_with_context(kind, next, text))
                        }
                    },
                    None => {
                        let kind = ErrorKind::ExpectedEntryOrClosedDelimiter {
                            open_ctx,
                            expected: JsonChar(']'),
                            found: TokenOption(None),
                        };
                        Err(Error::from_maybe_token_with_context(kind, None, text))
                    },
                }
            },
            ArrayState::Value { open_ctx, expect_ctx } => {
                let peeked = match tokens.peek_token() {
                    Ok(p) => p,
                    Err(e) => {
                        return Err(e);
                    },
                };
                proof {
                    if let Some(p) = peeked {
                        lemma_token_text(s, tb, c0, p);
                    }
                }
                match validate_start_of_value(text, expect_ctx, peeked) {
                    Ok(()) => {},
                    Err(e) => {
                        return Err(e);
                    },
                }
                let value_range = match parse_tokens_at_depth(tokens, text, false, visitor, depth + 1) {
                    Ok(r) => r,
                    Err(e) => {
                        return Err(e);
                    },
                };
                proof {
                    let (v, c2) = match value_at(s, c0, depth + 1, tl) {
                        PVal::Done(v, c2) => (v, c2),
                        _ => arbitrary(),
                    };
                    let old_items = items@;
                    items@ = old_items.push(v);
                    assert(items@.drop_last() =~= old_items);
                    assert forall|i: int| 0 <= i < items@.len() implies spans_ok(
                        #[trigger] items@[i],
                        tb,
                    ) by {
                        if i < old_items.len() {
                            assert(items@[i] == old_items[i]);
                        }
                    }
                    assert(visitor.events() =~= ev0 + array_prefix(open_ctx.range, items@, tb));
                }
                Ok(ArrayState::CommaOrEnd { open_ctx, last_value_range: value_range })
            },
            ArrayState::CommaOrEnd { open_ctx, .. } => {
                let peeked = match tokens.peek_token() {
                    Ok(p) => p,
                    Err(e) => {
                        return Err(e);
                    },
                };
                if let Some(ctx) = peeked {
                    proof {
                        lemma_token_text(s, tb, c0, ctx);
                    }
                    if ctx.token == Token::ClosedSquareBracket {
                        let _closed = tokens.next_token();
                        visitor.on_array_close(ctx.range);
                        let range = Span { start: open_ctx.range.start, end: ctx.range.end };
                        proof {
                            assert(visitor.events() =~= ev0 + value_events(
                                SpecValue::Array(range, items@),
                                tb,
                            ));
                        }
                        return Ok(ArrayState::End(range));
                    }
                    if ctx.token == Token::Comma {
                        let _comma = tokens.next_token();
                        visitor.on_item_delim();
                        proof {
                            assert(visitor.events() =~= ev0 + array_prefix(open_ctx.range, items@, tb)
                                + seq![Event::ItemDelim]);
                        }
                        return Ok(ArrayState::Value { open_ctx, expect_ctx: ctx });
                    }
                }
                let next = match tokens.next_token() {
                    Ok(n) => n,
                    Err(e) => {
                        return Err(e);
                    },
                };
                proof {
                    if let Some(n) = next {
                        lemma_token_text(s, tb, c0, n);
                    }
                }
                let found = TokenOption::found(next, text);
                let kind = ErrorKind::ExpectedEntryOrClosedDelimiter {
                    open_ctx,
                    expected: JsonChar(']'),
                    found,
                };
                Err(Error::from_maybe_token_with_context(kind, next, text))
            },
            ArrayState::End(range) => Ok(ArrayState::End(range)),
        }
    }
}

/// parses the array whose `[` comes next and tells `visitor` of it
pub fn parse_array<V: Visitor>(
    tokens: &mut TokenStream,
    text: &str,
    depth: usize,
    visitor: &mut V,
) -> (res: Result<Span, Error>)
    requires
        old(tokens).wf(),
        old(tokens).text() == text,
        old(visitor).inv(),
        depth < MAX_DEPTH,
    ensures
        final(tokens).wf(),
        final(tokens).text() == text,
        final(tokens).bytes() == old(tokens).bytes(),
        final(visitor).inv(),
        match array_at(
            old(tokens).bytes(),
            old(tokens).cursor(),
            depth as int,
            text.spec_bytes().len() as int,
        ) {
            PVal::Done(v, c2) => res == Ok::<Span, Error>(reported_range(v)) && final(tokens).cursor()
                == c2 && final(visitor).events() == old(visitor).events() + value_events(
                v,
                text.spec_bytes(),
            ) && spans_ok(v, text.spec_bytes()),
            PVal::Failed(f, site) => res matches Err(e) && fails(e, f, site, text.spec_bytes()),
        },
        res is Ok ==> old(tokens).cursor() < final(tokens).cursor() <= final(tokens).bytes().len(),
    decreases MAX_DEPTH - depth, 1int,
{
    let ghost s = tokens.bytes();
    let ghost c0 = tokens.cursor();
    let ghost ev0 = visitor.events();
    let ghost goal = array_at(s, c0, depth as int, text.spec_bytes().len() as int);
    let mut items: Ghost<Seq<SpecValue>> = Ghost(Seq::empty());
    let mut state = ArrayState::Open;
    proof {
        tokens.lemma_wf();
    }
    loop
        invariant
            tokens.wf(),
            tokens.text() == text,
            tokens.bytes() == s,
            visitor.inv(),
            depth < MAX_DEPTH,
            !(state is End),
            c0 <= tokens.cursor() <= s.len(),
            s == old(tokens).bytes(),
            c0 == old(tokens).cursor(),
            ev0 == old(visitor).events(),
            goal == array_at(s, c0, depth as int, text.spec_bytes().len() as int),
            state is Open ==> tokens.cursor() == c0,
            !(state is Open) ==> c0 < tokens.cursor(),
            array_state_inv(
                state,
                s,
                text.spec_bytes(),
                tokens.cursor(),
                depth as int,
                items@,
                ev0,
                visitor.events(),
                goal,
            ),
        decreases s.len() - tokens.cursor(), if state is ValueOrEnd {
            1int
        } else {
            0int
        },
    {
        let ghost before = state;
        match state.process(tokens, text, visitor, depth, &mut items, Ghost(ev0), Ghost(goal)) {
            Ok(ArrayState::End(range)) => {
                return Ok(range);
            },
            Ok(next) => {
                state = next;
            },
            Err(e) => {
                return Err(e);
            },
        }
    }
}

} // verus!
