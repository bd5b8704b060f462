//! JSON objects, RFC 8259 section 4
use vstd::prelude::*;
use vstd::string::StringSliceAdditionalSpecFns;

use crate::ast::SpecValue;
use crate::error::{Error, ErrorKind, TokenOption, site_range};
use crate::text::lemma_str_bytes;
use crate::tokens::stream::{LexStep, next_tok};
use crate::tokens::lexical::JsonChar;
use crate::tokens::{ErrorSite, Span, Token, TokenStream, TokenWithContext, sp};
use crate::traverse::{
    Event, MAX_DEPTH, PVal, Visitor, content_span, entries_events, fails, key_token, lemma_token_text,
    obj_colon, obj_key, obj_members, obj_value, object_at, parse_tokens_at_depth, reported_range, span_ok, spans_ok,
    slice_chars, text_slice, validate_start_of_value, value_at, value_events,
};

verus! {

/// where reading an object stands
pub enum ObjectState {
    Open,
    KeyOrEnd { open_ctx: TokenWithContext, last_pair: Option<Span> },
    Key { comma_ctx: TokenWithContext, open_ctx: TokenWithContext },
    Colon { key_ctx: TokenWithContext, open_ctx: TokenWithContext },
    Value { colon_ctx: TokenWithContext, open_ctx: TokenWithContext },
    End(Span),
}

/// the events of an object so far: its opening brace and its entries
pub open spec fn object_prefix(open: Span, entries: Seq<(Span, SpecValue)>, tb: Seq<u8>) -> Seq<
    Event,
> {
    seq![Event::ObjectOpen(open)] + entries_events(entries, tb)
}

/// the events of an object so far, once the key `key` of a further entry was read
pub open spec fn key_prefix(
    open: Span,
    entries: Seq<(Span, SpecValue)>,
    key: Span,
    tb: Seq<u8>,
) -> Seq<Event> {
    object_prefix(open, entries, tb) + (if entries.len() > 0 {
        seq![Event::ItemDelim]
    } else {
        Seq::empty()
    }) + seq![Event::ObjectKey(key, slice_chars(tb, key))]
}

/// what a state of the object reader knows: at cursor `c` of `s`, the outcome of
/// the whole object is `goal`, and the events so far follow `ev0`
pub open spec fn object_state_inv(
    st: ObjectState,
    s: Seq<u8>,
    tb: Seq<u8>,
    c: int,
    d: int,
    entries: Seq<(Span, SpecValue)>,
    key: Span,
    ev0: Seq<Event>,
    evs: Seq<Event>,
    goal: PVal,
) -> bool {
    let tl = tb.len() as int;
    &&& forall|i: int|
        0 <= i < entries.len() ==> span_ok(tb, (#[trigger] entries[i]).0) && spans_ok(
            entries[i].1,
            tb,
        )
    &&& (st is Colon || st is Value ==> span_ok(tb, key))
    &&& match st {
        ObjectState::Open => goal == object_at(s, c, d, tl) && evs == ev0 && entries.len() == 0,
        ObjectState::KeyOrEnd { open_ctx, last_pair } => {
            &&& open_ctx.token is OpenCurlyBrace
            &&& open_ctx.range.end == open_ctx.range.start + 1
            &&& open_ctx.range.end <= c
            &&& goal == obj_members(s, c, d, tl, open_ctx.range, entries, last_pair)
            &&& (last_pair is None <==> entries.len() == 0)
            &&& evs == ev0 + object_prefix(open_ctx.range, entries, tb)
        },
        ObjectState::Key { comma_ctx, open_ctx } => {
            &&& open_ctx.token is OpenCurlyBrace
            &&& open_ctx.range.end == open_ctx.range.start + 1
            &&& open_ctx.range.end <= c
            &&& goal == obj_key(s, c, d, tl, open_ctx.range, entries, comma_ctx)
            &&& entries.len() > 0
            &&& evs == ev0 + object_prefix(open_ctx.range, entries, tb) + seq![Event::ItemDelim]
        },
        ObjectState::Colon { key_ctx, open_ctx } => {
            &&& open_ctx.token is OpenCurlyBrace
            &&& open_ctx.range.end == open_ctx.range.start + 1
            &&& open_ctx.range.end <= c
            &&& key == content_span(key_ctx.range)
            &&& key_ctx == key_token(key)
            &&& goal == obj_colon(s, c, d, tl, open_ctx.range, entries, key)
            &&& evs == ev0 + key_prefix(open_ctx.range, entries, key, tb)
        },
        ObjectState::Value { colon_ctx, open_ctx } => {
            &&& open_ctx.token is OpenCurlyBrace
            &&& open_ctx.range.end == open_ctx.range.start + 1
            &&& open_ctx.range.end <= c
            &&& goal == obj_value(s, c, d, tl, open_ctx.range, entries, key, colon_ctx)
            &&& evs == ev0 + key_prefix(open_ctx.range, entries, key, tb) + seq![
                Event::ObjectKeyValDelim,
            ]
        },
        ObjectState::End(range) => {
            &&& goal == PVal::Done(SpecValue::Object(range, entries), c)
            &&& range.start < range.end
            &&& evs == ev0 + value_events(SpecValue::Object(range, entries), tb)
        },
    }
}

impl ObjectState {
    /// one step: reads what the state expects next
    #[verifier::rlimit(60)]
    pub fn process<V: Visitor>(
        self,
        tokens: &mut TokenStream,
        text: &str,
        visitor: &mut V,
        depth: usize,
        entries: &mut Ghost<Seq<(Span, SpecValue)>>,
        key: &mut Ghost<Span>,
        Ghost(ev0): Ghost<Seq<Event>>,
        Ghost(goal): Ghost<PVal>,
    ) -> (res: Result<Self, Error>)
        requires
            old(tokens).wf(),
            old(tokens).text() == text,
            old(visitor).inv(),
            depth < MAX_DEPTH,
            !(self is End),
            object_state_inv(
                self,
                old(tokens).bytes(),
                text.spec_bytes(),
                old(tokens).cursor(),
                depth as int,
                old(entries)@,
                old(key)@,
                ev0,
                old(visitor).events(),
                goal,
            ),
        ensures
            final(tokens).wf(),
            final(tokens).text() == text,
            final(tokens).bytes() == old(tokens).bytes(),
            final(visitor).inv(),
            match res {
                Ok(st) => {
                    &&& !(st is Open)
                    &&& object_state_inv(
                        st,
                        old(tokens).bytes(),
                        text.spec_bytes(),
                        final(tokens).cursor(),
                        depth as int,
                        final(entries)@,
                        final(key)@,
                        ev0,
                        final(visitor).events(),
                        goal,
                    )
                    &&& old(tokens).cursor() < final(tokens).cursor() <= old(tokens).bytes().len()
                },
                Err(e) => goal matches PVal::Failed(f, site) && fails(e, f, site, text.spec_bytes()),
            },
        decreases MAX_DEPTH - depth, 0int,
    {
        let ghost s = tokens.bytes();
        let ghost tb = text.spec_bytes();
        let ghost c0 = tokens.cursor();
        let ghost tl = tb.len() as int;
        proof {
            tokens.lemma_wf();
            lemma_str_bytes(text);
        }
        match self {
            ObjectState::Open => {
                let next = match tokens.next_token() {
                    Ok(n) => n,
                    Err(e) => {
                        return Err(e);
                    },
                };
                match next {
                    Some(ctx) => {
                        proof {
                            lemma_token_text(s, tb, c0, ctx);
                        }
                        if ctx.token == Token::OpenCurlyBrace {
                            visitor.on_object_open(ctx.range);
                            proof {
                                assert(entries@ =~= Seq::<(Span, SpecValue)>::empty());
                                assert(entries_events(entries@, tb) =~= Seq::<Event>::empty());
                                assert(visitor.events() =~= ev0 + object_prefix(
                                    ctx.range,
                                    entries@,
                                    tb,
                                ));
                            }
                            Ok(ObjectState::KeyOrEnd { open_ctx: ctx, last_pair: None })
                        } else {
                            let found = TokenOption::found(next, text);
                            Err(
                                Error::from_maybe_token_with_context(
                                    ErrorKind::ExpectedOpenBrace {
                                        expected: JsonChar('{'),
                                        context: None,
                                        found,
                                    },
                                    next,
                                    text,
                                ),
                            )
                        }
                    },
                    None => Err(
                        Error::from_maybe_token_with_context(
                            ErrorKind::ExpectedOpenBrace {
                                expected: JsonChar('{'),
                                context: None,
                                found: TokenOption(None),
                            },
                            None,
                            text,
                        ),
                    ),
                }
            },
            ObjectState::KeyOrEnd { open_ctx, last_pair } => {
                let next = match tokens.next_token() {
                    Ok(n) => n,
                    Err(e) => {
                        return Err(e);
                    },
                };
                if let Some(ctx) = next {
                    proof {
                        lemma_token_text(s, tb, c0, ctx);
                    }
                    if ctx.token == Token::ClosedCurlyBrace {
                        visitor.on_object_close(ctx.range);
                        let range = Span { start: open_ctx.range.start, end: ctx.range.end };
                        proof {
                            assert(visitor.events() =~= ev0 + value_events(
                                SpecValue::Object(range, entries@),
                                tb,
                            ));
                        }
                        return Ok(ObjectState::End(range));
                    }
                    if last_pair.is_some() && ctx.token == Token::Comma {
                        visitor.on_item_delim();
                        proof {
                            assert(visitor.events() =~= ev0 + object_prefix(open_ctx.range, entries@, tb)
                                + seq![Event::ItemDelim]);
                        }
                        return Ok(ObjectState::Key { comma_ctx: ctx, open_ctx });
                    }
                    if last_pair.is_none() && ctx.token == Token::String {
                        let body = ctx.content_range();
                        let key_text = text_slice(text, body.start, body.end);
                        visitor.on_object_key(body, key_text);
                        proof {
                            key@ = body;
                            assert(visitor.events() =~= ev0 + key_prefix(
                                open_ctx.range,
                                entries@,
                                body,
                                tb,
                            ));
                        }
                        return Ok(ObjectState::Colon { key_ctx: ctx, open_ctx });
                    }
                }
                match last_pair {
                    Some(pair_span) => {
                        proof {
                            if let Some(ctx) = next {
                                lemma_token_text(s, tb, c0, ctx);
                            }
                        }
                        let found = TokenOption::found(next, text);
                        Err(
                            Error::from_maybe_token_with_context(
                                ErrorKind::ExpectedCommaOrClosedCurlyBrace {
                                    range: pair_span,
                                    open_ctx,
                                    found,
                                },
                                next,
                                text,
                            ),
                        )
                    },
                    None => {
                        proof {
                            if let Some(ctx) = next {
                                lemma_token_text(s, tb, c0, ctx);
                            }
                        }
                        let found = TokenOption::found(next, text);
                        let kind = ErrorKind::ExpectedEntryOrClosedDelimiter {
                            open_ctx,
                            expected: JsonChar('}'),
                            found,
                        };
                        Err(Error::from_maybe_token_with_context(kind, next, text))
                    },
                }
            },
            ObjectState::Key { comma_ctx, open_ctx } => {
                let next = match tokens.next_token() {
                    Ok(n) => n,
                    Err(e) => {
                        return Err(e);
                    },
                };
                if let Some(key_ctx) = next {
                    proof {
                        lemma_token_text(s, tb, c0, key_ctx);
                    }
                    if key_ctx.token == Token::String {
                        let body = key_ctx.content_range();
                        let key_text = text_slice(text, body.start, body.end);
                        visitor.on_object_key(body, key_text);
                        proof {
                            key@ = body;
                            assert(visitor.events() =~= ev0 + key_prefix(
                                open_ctx.range,
                                entries@,
                                body,
                                tb,
                            ));
                        }
                        return Ok(ObjectState::Colon { key_ctx, open_ctx });
                    }
                }
                let found = TokenOption::found(next, text);
                Err(
                    Error::from_maybe_token_with_context(
                        ErrorKind::ExpectedKey(comma_ctx, found),
                        next,
                        text,
                    ),
                )
            },
            ObjectState::Colon { key_ctx, open_ctx } => {
                let next = match tokens.next_token() {
                    Ok(n) => n,
                    Err(e) => {
                        return Err(e);
                    },
                };
                if let Some(colon_ctx) = next {
                    proof {
                        lemma_token_text(s, tb, c0, colon_ctx);
                    }
                    if colon_ctx.token == Token::Colon {
                        visitor.on_object_key_val_delim();
                        proof {
                            assert(visitor.events() =~= ev0 + key_prefix(
                                open_ctx.range,
                                entries@,
                                key@,
                                tb,
                            ) + seq![Event::ObjectKeyValDelim]);
                        }
                        return Ok(ObjectState::Value { colon_ctx, open_ctx });
                    }
                }
                let found = TokenOption::found(next, text);
                Err(
                    Error::from_maybe_token_with_context(
                        ErrorKind::ExpectedColon(key_ctx, found),
                        next,
                        text,
                    ),
                )
            },
            ObjectState::Value { colon_ctx, open_ctx } => {
                let peeked = match tokens.peek_token() {
                    Ok(p) => p,
                    Err(e) => {
                        return Err(e);
                    },
                };
                proof {
                    if let Some(p) = peeked {
                        lemma_token_text(s, tb, c0, p);
                    }
                }
                match validate_start_of_value(text, colon_ctx, peeked) {
                    Ok(()) => {},
                    Err(e) => {
                        return Err(e);
                    },
                }
                let ghost ev1 = visitor.events();
                let value_range = match parse_tokens_at_depth(tokens, text, false, visitor, depth + 1) {
                    Ok(r) => r,
                    Err(e) => {
                        return Err(e);
                    },
                };
                proof {
                    let (v, c2) = match value_at(s, c0, depth + 1, tl) {
                        PVal::Done(v, c2) => (v, c2),
                        _ => arbitrary(),
                    };
                    let old_entries = entries@;
                    entries@ = old_entries.push((key@, v));
                    assert(entries@.drop_last() =~= old_entries);
                    assert forall|i: int| 0 <= i < entries@.len() implies span_ok(
                        tb,
                        (#[trigger] entries@[i]).0,
                    ) && spans_ok(entries@[i].1, tb) by {
                        if i < old_entries.len() {
                            assert(entries@[i] == old_entries[i]);
                        }
                    }
                    assert(visitor.events() =~= ev0 + object_prefix(open_ctx.range, entries@, tb));
                }
                Ok(
                    ObjectState::KeyOrEnd {
                        open_ctx,
                        last_pair: Some(Span { start: colon_ctx.range.start, end: value_range.end }),
                    },
                )
            },
            ObjectState::End(range) => Ok(ObjectState::End(range)),
        }
    }
}

/// parses the object whose `{` comes next and tells `visitor` of it
pub fn parse_object<V: Visitor>(
    tokens: &mut TokenStream,
    text: &str,
    depth: usize,
    visitor: &mut V,
) -> (res: Result<Span, Error>)
    requires
        old(tokens).wf(),
        old(tokens).text() == text,
        old(visitor).inv(),
        depth < MAX_DEPTH,
    ensures
        final(tokens).wf(),
        final(tokens).text() == text,
        final(tokens).bytes() == old(tokens).bytes(),
        final(visitor).inv(),
        match object_at(
            old(tokens).bytes(),
            old(tokens).cursor(),
            depth as int,
            text.spec_bytes().len() as int,
        ) {
            PVal::Done(v, c2) => res == Ok::<Span, Error>(reported_range(v)) && final(tokens).cursor()
                == c2 && final(visitor).events() == old(visitor).events() + value_events(
                v,
                text.spec_bytes(),
            ) && spans_ok(v, text.spec_bytes()),
            PVal::Failed(f, site) => res matches Err(e) && fails(e, f, site, text.spec_bytes()),
        },
        res is Ok ==> old(tokens).cursor() < final(tokens).cursor() <= final(tokens).bytes().len(),
    decreases MAX_DEPTH - depth, 1int,
{
    let ghost s = tokens.bytes();
    let ghost c0 = tokens.cursor();
    let ghost ev0 = visitor.events();
    let ghost goal = object_at(s, c0, depth as int, text.spec_bytes().len() as int);
    let mut entries: Ghost<Seq<(Span, SpecValue)>> = Ghost(Seq::empty());
    let mut key: Ghost<Span> = Ghost(Span { start: 0, end: 0 });
    let mut state = ObjectState::Open;
    proof {
        tokens.lemma_wf();
    }
    loop
        invariant
            tokens.wf(),
            tokens.text() == text,
            tokens.bytes() == s,
            visitor.inv(),
            depth < MAX_DEPTH,
            !(state is End),
            c0 <= tokens.cursor() <= s.len(),
            s == old(tokens).bytes(),
            c0 == old(tokens).cursor(),
            ev0 == old(visitor).events(),
            goal == object_at(s, c0, depth as int, text.spec_bytes().len() as int),
            state is Open ==> tokens.cursor() == c0,
            object_state_inv(
                state,
                s,
                text.spec_bytes(),
                tokens.cursor(),
                depth as int,
                entries@,
                key@,
                ev0,
                visitor.events(),
                goal,
            ),
        decreases s.len() - tokens.cursor(),
    {
        match state.process(
            tokens,
            text,
            visitor,
            depth,
            &mut entries,
            &mut key,
            Ghost(ev0),
            Ghost(goal),
        ) {
            Ok(ObjectState::End(range)) => {
                return Ok(range);
            },
            Ok(next) => {
                state = next;
            },
            Err(e) => {
                return Err(e);
            },
        }
    }
}

} // verus!
