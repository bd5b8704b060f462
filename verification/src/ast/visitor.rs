//! the visitor that builds [`Value`]s from what the parser reads
use vstd::prelude::*;

use crate::ast::{ObjectEntries, SpecValue, Value, view_entries, view_items, view_value};
use crate::tokens::{Span, sp};
use crate::traverse::{
    Event, Visitor, close_span, entries_events, items_events, open_span, value_events,
};

verus! {

/// a container being built: what was read of it so far
pub enum SpecFrame {
    Object { open: Span, entries: Seq<(Span, SpecValue)>, key: Option<Span> },
    Array { open: Span, items: Seq<SpecValue> },
}

/// the state of building values: the open containers, innermost last, and the
/// value built at the top
pub struct AstModel {
    pub stack: Seq<SpecFrame>,
    pub result: Option<SpecValue>,
}

/// nothing built yet
pub open spec fn empty_model() -> AstModel {
    AstModel { stack: Seq::empty(), result: None }
}

/// a finished value goes into the innermost container, or is the result
pub open spec fn emit(m: AstModel, v: SpecValue) -> AstModel {
    if m.stack.len() == 0 {
        AstModel { stack: m.stack, result: Some(v) }
    } else {
        let i = m.stack.len() - 1;
        match m.stack[i] {
            SpecFrame::Array { open, items } => AstModel {
                stack: m.stack.update(i, SpecFrame::Array { open, items: items.push(v) }),
                result: m.result,
            },
            SpecFrame::Object { open, entries, key } => match key {
                Some(k) => AstModel {
                    stack: m.stack.update(
                        i,
                        SpecFrame::Object { open, entries: entries.push((k, v)), key: None },
                    ),
                    result: m.result,
                },
                None => m,
            },
        }
    }
}

/// a number with the exponent `e`
pub open spec fn with_exponent(v: SpecValue, e: Span) -> SpecValue {
    match v {
        SpecValue::Number(m, _) => SpecValue::Number(m, Some(e)),
        other => other,
    }
}

/// the exponent `e` goes to the value built last
pub open spec fn set_last_exponent(m: AstModel, e: Span) -> AstModel {
    if m.stack.len() == 0 {
        match m.result {
            Some(v) => AstModel { stack: m.stack, result: Some(with_exponent(v, e)) },
            None => m,
        }
    } else {
        let i = m.stack.len() - 1;
        match m.stack[i] {
            SpecFrame::Array { open, items } => if items.len() > 0 {
                AstModel {
                    stack: m.stack.update(
                        i,
                        SpecFrame::Array {
                            open,
                            items: items.drop_last().push(with_exponent(items.last(), e)),
                        },
                    ),
                    result: m.result,
                }
            } else {
                m
            },
            SpecFrame::Object { open, entries, key } => if entries.len() > 0 {
                AstModel {
                    stack: m.stack.update(
                        i,
                        SpecFrame::Object {
                            open,
                            entries: entries.drop_last().push(
                                (entries.last().0, with_exponent(entries.last().1, e)),
                            ),
                            key,
                        },
                    ),
                    result: m.result,
                }
            } else {
                m
            },
        }
    }
}

/// what one event does to the values being built
pub open spec fn apply(m: AstModel, ev: Event) -> AstModel {
    let n = m.stack.len();
    match ev {
        Event::ObjectOpen(r) => AstModel {
            stack: m.stack.push(SpecFrame::Object { open: r, entries: Seq::empty(), key: None }),
            result: m.result,
        },
        Event::ObjectKey(r, _) => if n > 0 && m.stack[n - 1] is Object {
            AstModel {
                stack: m.stack.update(
                    n - 1,
                    SpecFrame::Object {
                        open: m.stack[n - 1]->Object_open,
                        entries: m.stack[n - 1]->Object_entries,
                        key: Some(r),
                    },
                ),
                result: m.result,
            }
        } else {
            m
        },
        Event::ObjectClose(r) => if n > 0 && m.stack[n - 1] is Object {
            emit(
                AstModel { stack: m.stack.drop_last(), result: m.result },
                SpecValue::Object(
                    sp(m.stack[n - 1]->Object_open.start as int, r.end as int),
                    m.stack[n - 1]->Object_entries,
                ),
            )
        } else {
            m
        },
        Event::ArrayOpen(r) => AstModel {
            stack: m.stack.push(SpecFrame::Array { open: r, items: Seq::empty() }),
            result: m.result,
        },
        Event::ArrayClose(r) => if n > 0 && m.stack[n - 1] is Array {
            emit(
                AstModel { stack: m.stack.drop_last(), result: m.result },
                SpecValue::Array(
                    sp(m.stack[n - 1]->Array_open.start as int, r.end as int),
                    m.stack[n - 1]->items,
                ),
            )
        } else {
            m
        },
        Event::Null(r) => emit(m, SpecValue::Null(r)),
        Event::String(r, _) => emit(m, SpecValue::Str(r)),
        Event::Mantissa(r, _) => emit(m, SpecValue::Number(r, None)),
        Event::Exponent(r, _) => set_last_exponent(m, r),
        Event::Boolean(r, b) => emit(m, SpecValue::Bool(r, b)),
        Event::ObjectKeyValDelim => m,
        Event::ItemDelim => m,
    }
}

/// what events do to the values being built, in order
pub open spec fn apply_all(m: AstModel, evs: Seq<Event>) -> AstModel
    decreases evs.len(),
{
    if evs.len() == 0 {
        m
    } else {
        apply(apply_all(m, evs.drop_last()), evs.last())
    }
}

/// a finished value can go into the innermost container: there is none, it is
/// an array, or an object whose key was read
pub open spec fn accepts(m: AstModel) -> bool {
    m.stack.len() == 0 || m.stack.last() is Array || m.stack.last()->Object_key is Some
}

pub proof fn lemma_apply_all_concat(m: AstModel, a: Seq<Event>, b: Seq<Event>)
    ensures
        apply_all(m, a + b) == apply_all(apply_all(m, a), b),
    decreases b.len(),
{
    if b.len() == 0 {
        assert(a + b =~= a);
    } else {
        lemma_apply_all_concat(m, a, b.drop_last());
        assert((a + b).drop_last() =~= a + b.drop_last());
        assert((a + b).last() == b.last());
    }
}

/// a value given right after its mantissa takes the exponent
proof fn lemma_exponent_after_emit(m: AstModel, r: Span, e: Span)
    requires
        accepts(m),
    ensures
        set_last_exponent(emit(m, SpecValue::Number(r, None)), e) == emit(
            m,
            SpecValue::Number(r, Some(e)),
        ),
{
    if m.stack.len() > 0 {
        let i = m.stack.len() - 1;
        match m.stack[i] {
            SpecFrame::Array { open, items } => {
                assert(items.push(SpecValue::Number(r, None)).drop_last() =~= items);
                assert(m.stack.update(i, SpecFrame::Array { open, items: items.push(SpecValue::Number(r, None)) }).update(
                    i,
                    SpecFrame::Array {
                        open,
                        items: items.push(SpecValue::Number(r, Some(e))),
                    },
                ) =~= m.stack.update(
                    i,
                    SpecFrame::Array { open, items: items.push(SpecValue::Number(r, Some(e))) },
                ));
            },
            SpecFrame::Object { open, entries, key } => {
                let k = key.unwrap();
                assert(entries.push((k, SpecValue::Number(r, None))).drop_last() =~= entries);
                assert(m.stack.update(
                    i,
                    SpecFrame::Object {
                        open,
                        entries: entries.push((k, SpecValue::Number(r, None))),
                        key: None,
                    },
                ).update(
                    i,
                    SpecFrame::Object {
                        open,
                        entries: entries.push((k, SpecValue::Number(r, Some(e)))),
                        key: None,
                    },
                ) =~= m.stack.update(
                    i,
                    SpecFrame::Object {
                        open,
                        entries: entries.push((k, SpecValue::Number(r, Some(e)))),
                        key: None,
                    },
                ));
            },
        }
    }
}

/// one event at a time
proof fn lemma_apply_one(m: AstModel, e: Event)
    ensures
        apply_all(m, seq![e]) == apply(m, e),
{
    assert(seq![e].drop_last() =~= Seq::<Event>::empty());
    assert(apply_all(m, Seq::<Event>::empty()) == m);
    assert(seq![e].last() == e);
}

/// two events at a time
proof fn lemma_apply_two(m: AstModel, e1: Event, e2: Event)
    ensures
        apply_all(m, seq![e1, e2]) == apply(apply(m, e1), e2),
{
    assert(seq![e1, e2].drop_last() =~= seq![e1]);
    lemma_apply_one(m, e1);
}

/// building from the events of a value gives that value
pub proof fn lemma_build_value(m: AstModel, v: SpecValue, t: Seq<u8>)
    requires
        accepts(m),
    ensures
        apply_all(m, value_events(v, t)) == emit(m, v),
    decreases v, 2int,
{
    match v {
        SpecValue::Number(r, e) => {
            let mant = Event::Mantissa(r, crate::traverse::slice_chars(t, r));
            if let Some(e) = e {
                lemma_apply_two(m, mant, Event::Exponent(e, crate::traverse::slice_chars(t, e)));
                lemma_exponent_after_emit(m, r, e);
            } else {
                lemma_apply_one(m, mant);
            }
        },
        SpecValue::Object(r, entries) => {
            lemma_build_object(m, r, entries, t);
        },
        SpecValue::Array(r, items) => {
            lemma_build_array(m, r, items, t);
        },
        SpecValue::Null(r) => {
            lemma_apply_one(m, Event::Null(r));
        },
        SpecValue::Str(r) => {
            lemma_apply_one(m, Event::String(r, crate::traverse::slice_chars(t, r)));
        },
        SpecValue::Bool(r, b) => {
            lemma_apply_one(m, Event::Boolean(r, b));
        },
    }
}

proof fn lemma_build_object(m: AstModel, r: Span, entries: Seq<(Span, SpecValue)>, t: Seq<u8>)
    requires
        accepts(m),
    ensures
        apply_all(m, value_events(SpecValue::Object(r, entries), t)) == emit(
            m,
            SpecValue::Object(r, entries),
        ),
    decreases SpecValue::Object(r, entries), 1int,
{
    let open = open_span(r);
    let open_ev = seq![Event::ObjectOpen(open)];
    let body = entries_events(entries, t);
    let close_ev = seq![Event::ObjectClose(close_span(r))];
    let m1 = object_model(m.stack, m.result, open, Seq::empty());
    lemma_apply_one(m, Event::ObjectOpen(open));
    assert(apply_all(m, open_ev) == m1);
    lemma_build_entries(m.stack, m.result, open, entries, t);
    let m2 = object_model(m.stack, m.result, open, entries);
    lemma_apply_all_concat(m, open_ev, body);
    lemma_apply_all_concat(m, open_ev + body, close_ev);
    lemma_apply_one(m2, Event::ObjectClose(close_span(r)));
    assert(m2.stack.drop_last() =~= m.stack);
    assert(open_ev + body + close_ev =~= value_events(SpecValue::Object(r, entries), t));
}

proof fn lemma_build_array(m: AstModel, r: Span, items: Seq<SpecValue>, t: Seq<u8>)
    requires
        accepts(m),
    ensures
        apply_all(m, value_events(SpecValue::Array(r, items), t)) == emit(
            m,
            SpecValue::Array(r, items),
        ),
    decreases SpecValue::Array(r, items), 1int,
{
    let open = open_span(r);
    let open_ev = seq![Event::ArrayOpen(open)];
    let body = items_events(items, t);
    let close_ev = seq![Event::ArrayClose(close_span(r))];
    let m1 = array_model(m.stack, m.result, open, Seq::empty());
    lemma_apply_one(m, Event::ArrayOpen(open));
    assert(apply_all(m, open_ev) == m1);
    lemma_build_items(m.stack, m.result, open, items, t);
    let m2 = array_model(m.stack, m.result, open, items);
    lemma_apply_all_concat(m, open_ev, body);
    lemma_apply_all_concat(m, open_ev + body, close_ev);
    lemma_apply_one(m2, Event::ArrayClose(close_span(r)));
    assert(m2.stack.drop_last() =~= m.stack);
    assert(open_ev + body + close_ev =~= value_events(SpecValue::Array(r, items), t));
}

/// the state inside an object with `entries`, whose key is still to come
pub open spec fn object_model(
    base: Seq<SpecFrame>,
    result: Option<SpecValue>,
    open: Span,
    entries: Seq<(Span, SpecValue)>,
) -> AstModel {
    AstModel { stack: base.push(SpecFrame::Object { open, entries, key: None }), result }
}

/// the state inside an array with `items`
pub open spec fn array_model(
    base: Seq<SpecFrame>,
    result: Option<SpecValue>,
    open: Span,
    items: Seq<SpecValue>,
) -> AstModel {
    AstModel { stack: base.push(SpecFrame::Array { open, items }), result }
}

/// building from the events of an object's entries adds those entries
pub proof fn lemma_build_entries(
    base: Seq<SpecFrame>,
    result: Option<SpecValue>,
    open: Span,
    entries: Seq<(Span, SpecValue)>,
    t: Seq<u8>,
)
    ensures
        apply_all(object_model(base, result, open, Seq::empty()), entries_events(entries, t))
            == object_model(base, result, open, entries),
    decreases entries, 0int,
{
    let m0 = object_model(base, result, open, Seq::empty());
    if entries.len() == 0 {
        assert(entries =~= Seq::<(Span, SpecValue)>::empty());
    } else {
        let prev = entries.drop_last();
        let (k, v) = entries.last();
        lemma_build_entries(base, result, open, prev, t);
        let delim = if entries.len() > 1 {
            seq![Event::ItemDelim]
        } else {
            Seq::<Event>::empty()
        };
        let key_evs = seq![
            Event::ObjectKey(k, crate::traverse::slice_chars(t, k)),
            Event::ObjectKeyValDelim,
        ];
        let m1 = object_model(base, result, open, prev);
        lemma_apply_all_concat(m0, entries_events(prev, t), delim);
        if entries.len() > 1 {
            lemma_apply_one(m1, Event::ItemDelim);
        } else {
            assert(apply_all(m1, delim) == m1);
        }
        lemma_apply_all_concat(m0, entries_events(prev, t) + delim, key_evs);
        let m2 = AstModel {
            stack: base.push(SpecFrame::Object { open, entries: prev, key: Some(k) }),
            result,
        };
        lemma_apply_two(m1, Event::ObjectKey(k, crate::traverse::slice_chars(t, k)), Event::ObjectKeyValDelim);
        assert(m1.stack.update(
            m1.stack.len() - 1,
            SpecFrame::Object { open, entries: prev, key: Some(k) },
        ) =~= m2.stack);
        assert(apply_all(m1, key_evs) == m2);
        lemma_build_value(m2, v, t);
        lemma_apply_all_concat(m0, entries_events(prev, t) + delim + key_evs, value_events(v, t));
        assert(entries_events(prev, t) + delim + key_evs + value_events(v, t) =~= entries_events(
            entries,
            t,
        ));
        assert(m2.stack.update(
            m2.stack.len() - 1,
            SpecFrame::Object { open, entries: prev.push((k, v)), key: None },
        ) =~= base.push(SpecFrame::Object { open, entries, key: None })) by {
            assert(prev.push((k, v)) =~= entries);
        }
    }
}

/// building from the events of an array's items adds those items
pub proof fn lemma_build_items(
    base: Seq<SpecFrame>,
    result: Option<SpecValue>,
    open: Span,
    items: Seq<SpecValue>,
    t: Seq<u8>,
)
    ensures
        apply_all(array_model(base, result, open, Seq::empty()), items_events(items, t))
            == array_model(base, result, open, items),
    decreases items, 0int,
{
    let m0 = array_model(base, result, open, Seq::empty());
    if items.len() == 0 {
        assert(items =~= Seq::<SpecValue>::empty());
    } else {
        let prev = items.drop_last();
        let v = items.last();
        lemma_build_items(base, result, open, prev, t);
        let delim = if items.len() > 1 {
            seq![Event::ItemDelim]
        } else {
            Seq::<Event>::empty()
        };
        let m1 = array_model(base, result, open, prev);
        lemma_apply_all_concat(m0, items_events(prev, t), delim);
        if items.len() > 1 {
            lemma_apply_one(m1, Event::ItemDelim);
        } else {
            assert(apply_all(m1, delim) == m1);
        }
        lemma_build_value(m1, v, t);
        lemma_apply_all_concat(m0, items_events(prev, t) + delim, value_events(v, t));
        assert(items_events(prev, t) + delim + value_events(v, t) =~= items_events(items, t));
        assert(m1.stack.update(
            m1.stack.len() - 1,
            SpecFrame::Array { open, items: prev.push(v) },
        ) =~= base.push(SpecFrame::Array { open, items })) by {
            assert(prev.push(v) =~= items);
        }
    }
}

/// a container being built
pub enum AstFrame {
    Object { open: Span, entries: ObjectEntries, current_key: Option<Span> },
    Array { open: Span, items: Vec<Value> },
}

pub open spec fn view_frame(f: AstFrame) -> SpecFrame {
    match f {
        AstFrame::Object { open, entries, current_key } => SpecFrame::Object {
            open,
            entries: view_entries(entries.0@),
            key: current_key,
        },
        AstFrame::Array { open, items } => SpecFrame::Array { open, items: view_items(items@) },
    }
}

pub open spec fn view_stack(frames: Seq<AstFrame>) -> Seq<SpecFrame> {
    frames.map_values(|f: AstFrame| view_frame(f))
}

pub open spec fn view_opt(v: Option<Value>) -> Option<SpecValue> {
    match v {
        Some(v) => Some(v@),
        None => None,
    }
}

proof fn lemma_apply_push(m: AstModel, evs: Seq<Event>, e: Event)
    ensures
        apply_all(m, evs.push(e)) == apply(apply_all(m, evs), e),
{
    assert(evs.push(e).drop_last() =~= evs);
}

proof fn lemma_view_items_push(items: Seq<Value>, v: Value)
    ensures
        view_items(items.push(v)) == view_items(items).push(v@),
{
    assert(items.push(v).drop_last() =~= items);
}

proof fn lemma_view_entries_push(entries: Seq<(Span, Value)>, k: Span, v: Value)
    ensures
        view_entries(entries.push((k, v))) == view_entries(entries).push((k, v@)),
{
    assert(entries.push((k, v)).drop_last() =~= entries);
}

proof fn lemma_view_stack_push(frames: Seq<AstFrame>, f: AstFrame)
    ensures
        view_stack(frames.push(f)) == view_stack(frames).push(view_frame(f)),
{
    assert(view_stack(frames.push(f)) =~= view_stack(frames).push(view_frame(f)));
}

proof fn lemma_view_stack_pop(frames: Seq<AstFrame>)
    requires
        frames.len() > 0,
    ensures
        view_stack(frames.drop_last()) == view_stack(frames).drop_last(),
        view_stack(frames).last() == view_frame(frames.last()),
        view_stack(frames).len() == frames.len(),
{
    assert(view_stack(frames.drop_last()) =~= view_stack(frames).drop_last());
}

impl Value {
    /// a number with the exponent `e`; other values as they are
    pub fn with_exponent(self, e: Span) -> (res: Value)
        ensures
            res@ == with_exponent(self@, e),
    {
        match self {
            Value::Number { mantissa, .. } => Value::Number { mantissa, exponent: Some(e) },
            other => other,
        }
    }
}

/// the visitor that builds the value the parser reads
pub struct AstVisitor {
    stack: Vec<AstFrame>,
    result: Option<Value>,
    log: Ghost<Seq<Event>>,
}

impl AstVisitor {
    /// what was built so far
    pub closed spec fn model(&self) -> AstModel {
        AstModel { stack: view_stack(self.stack@), result: view_opt(self.result) }
    }

    pub fn new() -> (res: Self)
        ensures
            res.inv(),
            res.events() == Seq::<Event>::empty(),
            res.model() == empty_model(),
    {
        let res = AstVisitor { stack: Vec::new(), result: None, log: Ghost(Seq::empty()) };
        proof {
            assert(res.model().stack =~= Seq::<SpecFrame>::empty());
        }
        res
    }

    /// the value built, once the parser has read one
    pub fn finish(self) -> (res: Option<Value>)
        ensures
            view_opt(res) == self.model().result,
    {
        self.result
    }

    fn emit_value(&mut self, value: Value)
        ensures
            final(self).model() == emit(old(self).model(), value@),
            final(self).log == old(self).log,
    {
        let ghost frames = self.stack@;
        match self.stack.pop() {
            None => {
                self.result = Some(value);
            },
            Some(AstFrame::Array { open, mut items }) => {
                proof {
                    lemma_view_stack_pop(frames);
                    lemma_view_items_push(items@, value);
                }
                items.push(value);
                let f = AstFrame::Array { open, items };
                proof {
                    lemma_view_stack_push(frames.drop_last(), f);
                    assert(view_stack(frames.drop_last()).push(view_frame(f)) =~= view_stack(
                        frames,
                    ).update(frames.len() - 1, view_frame(f)));
                }
                self.stack.push(f);
            },
            Some(AstFrame::Object { open, mut entries, current_key }) => {
                proof {
                    lemma_view_stack_pop(frames);
                }
                match current_key {
                    Some(k) => {
                        proof {
                            lemma_view_entries_push(entries.0@, k, value);
                        }
                        entries.0.push((k, value));
                        let f = AstFrame::Object { open, entries, current_key: None };
                        proof {
                            lemma_view_stack_push(frames.drop_last(), f);
                            assert(view_stack(frames.drop_last()).push(view_frame(f)) =~= view_stack(
                                frames,
                            ).update(frames.len() - 1, view_frame(f)));
                        }
                        self.stack.push(f);
                    },
                    None => {
                        let f = AstFrame::Object { open, entries, current_key: None };
                        proof {
                            lemma_view_stack_push(frames.drop_last(), f);
                            assert(view_stack(frames.drop_last()).push(view_frame(f)) =~= view_stack(
                                frames,
                            ));
                        }
                        self.stack.push(f);
                    },
                }
            },
        }
    }

    fn set_exponent(&mut self, e: Span)
        ensures
            final(self).model() == set_last_exponent(old(self).model(), e),
            final(self).log == old(self).log,
    {
        let ghost frames = self.stack@;
        match self.stack.pop() {
            None => {
                match self.result.take() {
                    Some(v) => {
                        self.result = Some(v.with_exponent(e));
                    },
                    None => {},
                }
            },
            Some(AstFrame::Array { open, mut items }) => {
                proof {
                    lemma_view_stack_pop(frames);
                }
                let ghost old_items = items@;
                match items.pop() {
                    Some(v) => {
                        let w = v.with_exponent(e);
                        proof {
                            lemma_view_items_push(items@, w);
                            assert(old_items.drop_last() =~= items@);
                            let vi = view_items(old_items);
                            assert(vi == view_items(old_items.drop_last()).push(view_value(old_items.last())));
                            assert(vi.drop_last() =~= view_items(old_items.drop_last()));
                            assert(vi.last() == v@);
                        }
                        items.push(w);
                    },
                    None => {
                        proof {
                            assert(old_items =~= Seq::<Value>::empty());
                            assert(view_items(old_items) =~= Seq::<SpecValue>::empty());
                        }
                    },
                }
                let f = AstFrame::Array { open, items };
                proof {
                    lemma_view_stack_push(frames.drop_last(), f);
                    assert(view_stack(frames.drop_last()).push(view_frame(f)) =~= view_stack(
                        frames,
                    ).update(frames.len() - 1, view_frame(f)));
                    if view_frame(f) == view_stack(frames)[frames.len() - 1] {
                        assert(view_stack(frames).update(frames.len() - 1, view_frame(f)) =~= view_stack(
                            frames,
                        ));
                    }
                }
                self.stack.push(f);
            },
            Some(AstFrame::Object { open, mut entries, current_key }) => {
                proof {
                    lemma_view_stack_pop(frames);
                }
                let ghost old_entries = entries.0@;
                match entries.0.pop() {
                    Some((k, v)) => {
                        let w = v.with_exponent(e);
                        proof {
                            lemma_view_entries_push(entries.0@, k, w);
                            assert(old_entries.drop_last() =~= entries.0@);
                            let ve = view_entries(old_entries);
                            assert(ve == view_entries(old_entries.drop_last()).push(
                                (old_entries.last().0, view_value(old_entries.last().1)),
                            ));
                            assert(ve.drop_last() =~= view_entries(old_entries.drop_last()));
                            assert(ve.last() == (k, v@));
                        }
                        entries.0.push((k, w));
                    },
                    None => {
                        proof {
                            assert(old_entries =~= Seq::<(Span, Value)>::empty());
                            assert(view_entries(old_entries) =~= Seq::<(Span, SpecValue)>::empty());
                        }
                    },
                }
                let f = AstFrame::Object { open, entries, current_key };
                proof {
                    lemma_view_stack_push(frames.drop_last(), f);
                    assert(view_stack(frames.drop_last()).push(view_frame(f)) =~= view_stack(
                        frames,
                    ).update(frames.len() - 1, view_frame(f)));
                    if view_frame(f) == view_stack(frames)[frames.len() - 1] {
                        assert(view_stack(frames).update(frames.len() - 1, view_frame(f)) =~= view_stack(
                            frames,
                        ));
                    }
                }
                self.stack.push(f);
            },
        }
    }
}

/// once told of exactly one value, the visitor holds that value
pub proof fn lemma_built(ast: &AstVisitor, v: SpecValue, t: Seq<u8>)
    requires
        ast.inv(),
        ast.events() == value_events(v, t),
    ensures
        ast.model().result == Some(v),
{
    lemma_build_value(empty_model(), v, t);
}

impl Visitor for AstVisitor {
    closed spec fn events(&self) -> Seq<Event> {
        self.log@
    }

    closed spec fn inv(&self) -> bool {
        self.model() == apply_all(empty_model(), self.log@)
    }

    fn on_object_open(&mut self, range: Span) {
        let ghost frames = self.stack@;
        let f = AstFrame::Object { open: range, entries: ObjectEntries(Vec::new()), current_key: None };
        proof {
            lemma_view_stack_push(frames, f);
            assert(view_entries(Seq::<(Span, Value)>::empty()) =~= Seq::<(Span, SpecValue)>::empty());
        }
        self.stack.push(f);
        proof {
            lemma_apply_push(empty_model(), self.log@, Event::ObjectOpen(range));
            self.log@ = self.log@.push(Event::ObjectOpen(range));
        }
    }

    fn on_object_key(&mut self, range: Span, key: &str) {
        let ghost frames = self.stack@;
        match self.stack.pop() {
            Some(AstFrame::Object { open, entries, .. }) => {
                let f = AstFrame::Object { open, entries, current_key: Some(range) };
                proof {
                    lemma_view_stack_pop(frames);
                    lemma_view_stack_push(frames.drop_last(), f);
                    assert(view_stack(frames.drop_last()).push(view_frame(f)) =~= view_stack(
                        frames,
                    ).update(frames.len() - 1, view_frame(f)));
                }
                self.stack.push(f);
            },
            Some(f) => {
                proof {
                    lemma_view_stack_pop(frames);
                    lemma_view_stack_push(frames.drop_last(), f);
                    assert(frames.drop_last().push(f) =~= frames);
                }
                self.stack.push(f);
            },
            None => {},
        }
        proof {
            lemma_apply_push(empty_model(), self.log@, Event::ObjectKey(range, key@));
            self.log@ = self.log@.push(Event::ObjectKey(range, key@));
        }
    }

    fn on_object_key_val_delim(&mut self) {
        proof {
            lemma_apply_push(empty_model(), self.log@, Event::ObjectKeyValDelim);
            self.log@ = self.log@.push(Event::ObjectKeyValDelim);
        }
    }

    fn on_object_close(&mut self, range: Span) {
        let ghost frames = self.stack@;
        match self.stack.pop() {
            Some(AstFrame::Object { open, entries, .. }) => {
                proof {
                    lemma_view_stack_pop(frames);
                }
                self.emit_value(Value::Object(Span { start: open.start, end: range.end }, entries));
            },
            Some(f) => {
                proof {
                    lemma_view_stack_pop(frames);
                    lemma_view_stack_push(frames.drop_last(), f);
                    assert(frames.drop_last().push(f) =~= frames);
                }
                self.stack.push(f);
            },
            None => {},
        }
        proof {
            lemma_apply_push(empty_model(), self.log@, Event::ObjectClose(range));
            self.log@ = self.log@.push(Event::ObjectClose(range));
        }
    }

    fn on_array_open(&mut self, range: Span) {
        let ghost frames = self.stack@;
        let f = AstFrame::Array { open: range, items: Vec::new() };
        proof {
            lemma_view_stack_push(frames, f);
            assert(view_items(Seq::<Value>::empty()) =~= Seq::<SpecValue>::empty());
        }
        self.stack.push(f);
        proof {
            lemma_apply_push(empty_model(), self.log@, Event::ArrayOpen(range));
            self.log@ = self.log@.push(Event::ArrayOpen(range));
        }
    }

    fn on_array_close(&mut self, range: Span) {
        let ghost frames = self.stack@;
        match self.stack.pop() {
            Some(AstFrame::Array { open, items }) => {
                proof {
                    lemma_view_stack_pop(frames);
                }
                self.emit_value(Value::Array(Span { start: open.start, end: range.end }, items));
            },
            Some(f) => {
                proof {
                    lemma_view_stack_pop(frames);
                    lemma_view_stack_push(frames.drop_last(), f);
                    assert(frames.drop_last().push(f) =~= frames);
                }
                self.stack.push(f);
            },
            None => {},
        }
        proof {
            lemma_apply_push(empty_model(), self.log@, Event::ArrayClose(range));
            self.log@ = self.log@.push(Event::ArrayClose(range));
        }
    }

    fn on_null(&mut self, range: Span) {
        self.emit_value(Value::Null(range));
        proof {
            lemma_apply_push(empty_model(), self.log@, Event::Null(range));
            self.log@ = self.log@.push(Event::Null(range));
        }
    }

    fn on_string(&mut self, range: Span, value: &str) {
        self.emit_value(Value::String(range));
        proof {
            lemma_apply_push(empty_model(), self.log@, Event::String(range, value@));
            self.log@ = self.log@.push(Event::String(range, value@));
        }
    }

    fn on_mantissa(&mut self, range: Span, mantissa: &str) {
        self.emit_value(Value::Number { mantissa: range, exponent: None });
        proof {
            lemma_apply_push(empty_model(), self.log@, Event::Mantissa(range, mantissa@));
            self.log@ = self.log@.push(Event::Mantissa(range, mantissa@));
        }
    }

    fn on_exponent(&mut self, range: Span, exponent: &str) {
        self.set_exponent(range);
        proof {
            lemma_apply_push(empty_model(), self.log@, Event::Exponent(range, exponent@));
            self.log@ = self.log@.push(Event::Exponent(range, exponent@));
        }
    }

    fn on_boolean(&mut self, range: Span, value: bool) {
        self.emit_value(Value::Boolean(range, value));
        proof {
            lemma_apply_push(empty_model(), self.log@, Event::Boolean(range, value));
            self.log@ = self.log@.push(Event::Boolean(range, value));
        }
    }

    fn on_item_delim(&mut self) {
        proof {
            lemma_apply_push(empty_model(), self.log@, Event::ItemDelim);
            self.log@ = self.log@.push(Event::ItemDelim);
        }
    }
}

} // verus!
