//! compact JSON: the values of a text with no insignificant whitespace
use vstd::prelude::*;
use vstd::string::StringSliceAdditionalSpecFns;

use crate::ast::{Document, SpecValue};
use crate::check::{lemma_parse_errors_diagnosable, parse_whole};
use crate::diagnostics::diagnosable;
use crate::error::{Error, site_range};
use crate::format::{Emitter, bool_chars, null_chars, quoted};
use crate::text::{lemma_str_bytes, push_char, push_str};
use crate::tokens::{Span, TokenStream};
use crate::traverse::{Event, PVal, Visitor, fails, parse_tokens, value_events, visit_document};

verus! {

/// the compact text of one event
pub open spec fn event_text(e: Event) -> Seq<char> {
    match e {
        Event::ObjectOpen(_) => seq!['{'],
        Event::ObjectKey(_, k) => quoted(k),
        Event::ObjectKeyValDelim => seq![':'],
        Event::ObjectClose(_) => seq!['}'],
        Event::ArrayOpen(_) => seq!['['],
        Event::ArrayClose(_) => seq![']'],
        Event::Null(_) => null_chars(),
        Event::String(_, s) => quoted(s),
        Event::Mantissa(_, m) => m,
        Event::Exponent(_, x) => seq!['e'] + x,
        Event::Boolean(_, b) => bool_chars(b),
        Event::ItemDelim => seq![','],
    }
}

/// the compact text of events, in order
pub open spec fn render(evs: Seq<Event>) -> Seq<char>
    decreases evs.len(),
{
    if evs.len() == 0 {
        Seq::empty()
    } else {
        render(evs.drop_last()) + event_text(evs.last())
    }
}

/// the compact text of the JSON value of `t`, if `t` is one
pub open spec fn uglified(t: Seq<u8>) -> Option<Seq<char>> {
    match parse_whole(t) {
        PVal::Done(v, _) => Some(render(value_events(v, t))),
        PVal::Failed(_, _) => None,
    }
}

pub proof fn lemma_render_push(evs: Seq<Event>, e: Event)
    ensures
        render(evs.push(e)) == render(evs) + event_text(e),
{
    assert(evs.push(e).drop_last() =~= evs);
}

pub proof fn lemma_render_concat(a: Seq<Event>, b: Seq<Event>)
    ensures
        render(a + b) == render(a) + render(b),
    decreases b.len(),
{
    if b.len() == 0 {
        assert(a + b =~= a);
    } else {
        lemma_render_concat(a, b.drop_last());
        assert((a + b).drop_last() =~= a + b.drop_last());
    }
}

/// a `String` that JSON text is written to
pub struct StringEmitter(pub String);

/// the visitor that writes compact JSON
pub struct UglifyEmitVisitor {
    pub(crate) buf: StringEmitter,
    log: Ghost<Seq<Event>>,
}

impl UglifyEmitVisitor {
    pub fn new() -> (res: Self)
        ensures
            res.inv(),
            res.events() == Seq::<Event>::empty(),
    {
        UglifyEmitVisitor { buf: StringEmitter(String::new()), log: Ghost(Seq::empty()) }
    }

    /// what was written
    pub fn into_buf(self) -> (res: String)
        requires
            self.inv(),
        ensures
            res@ == render(self.events()),
    {
        self.buf.0
    }
}

impl Emitter for StringEmitter {
    open spec fn emitted(&self) -> Seq<char> {
        self.0@
    }

    fn push(&mut self, c: char) {
        push_char(&mut self.0, c);
    }

    fn push_str(&mut self, s: &str) {
        push_str(&mut self.0, s);
    }
}

impl Visitor for UglifyEmitVisitor {
    closed spec fn events(&self) -> Seq<Event> {
        self.log@
    }

    closed spec fn inv(&self) -> bool {
        self.buf.0@ == render(self.log@)
    }

    fn on_object_open(&mut self, range: Span) {
        let ghost e = Event::ObjectOpen(range);
        let ghost ok = self.inv();
        self.buf.emit_object_open();
        proof {
            lemma_render_push(self.log@, e);
            self.log@ = self.log@.push(e);
            if ok {
                assert(self.buf.0@ =~= render(self.log@));
            }
        }
    }

    fn on_object_key(&mut self, range: Span, key: &str) {
        let ghost e = Event::ObjectKey(range, key@);
        let ghost ok = self.inv();
        self.buf.emit_string(key);
        proof {
            lemma_render_push(self.log@, e);
            self.log@ = self.log@.push(e);
            if ok {
                assert(self.buf.0@ =~= render(self.log@));
            }
        }
    }

    fn on_object_key_val_delim(&mut self) {
        let ghost e = Event::ObjectKeyValDelim;
        let ghost ok = self.inv();
        self.buf.emit_key_val_delim();
        proof {
            lemma_render_push(self.log@, e);
            self.log@ = self.log@.push(e);
            if ok {
                assert(self.buf.0@ =~= render(self.log@));
            }
        }
    }

    fn on_object_close(&mut self, range: Span) {
        let ghost e = Event::ObjectClose(range);
        let ghost ok = self.inv();
        self.buf.emit_object_close();
        proof {
            lemma_render_push(self.log@, e);
            self.log@ = self.log@.push(e);
            if ok {
                assert(self.buf.0@ =~= render(self.log@));
            }
        }
    }

    fn on_array_open(&mut self, range: Span) {
        let ghost e = Event::ArrayOpen(range);
        let ghost ok = self.inv();
        self.buf.emit_array_open();
        proof {
            lemma_render_push(self.log@, e);
            self.log@ = self.log@.push(e);
            if ok {
                assert(self.buf.0@ =~= render(self.log@));
            }
        }
    }

    fn on_array_close(&mut self, range: Span) {
        let ghost e = Event::ArrayClose(range);
        let ghost ok = self.inv();
        self.buf.emit_array_close();
        proof {
            lemma_render_push(self.log@, e);
            self.log@ = self.log@.push(e);
            if ok {
                assert(self.buf.0@ =~= render(self.log@));
            }
        }
    }

    fn on_null(&mut self, range: Span) {
        let ghost e = Event::Null(range);
        let ghost ok = self.inv();
        self.buf.emit_null();
        proof {
            lemma_render_push(self.log@, e);
            self.log@ = self.log@.push(e);
            if ok {
                assert(self.buf.0@ =~= render(self.log@));
            }
        }
    }

    fn on_string(&mut self, range: Span, value: &str) {
        let ghost e = Event::String(range, value@);
        let ghost ok = self.inv();
        self.buf.emit_string(value);
        proof {
            lemma_render_push(self.log@, e);
            self.log@ = self.log@.push(e);
            if ok {
                assert(self.buf.0@ =~= render(self.log@));
            }
        }
    }

    fn on_mantissa(&mut self, range: Span, mantissa: &str) {
        let ghost e = Event::Mantissa(range, mantissa@);
        let ghost ok = self.inv();
        self.buf.emit_mantissa(mantissa);
        proof {
            lemma_render_push(self.log@, e);
            self.log@ = self.log@.push(e);
            if ok {
                assert(self.buf.0@ =~= render(self.log@));
            }
        }
    }

    fn on_exponent(&mut self, range: Span, exponent: &str) {
        let ghost e = Event::Exponent(range, exponent@);
        let ghost ok = self.inv();
        self.buf.emit_exponent(exponent);
        proof {
            lemma_render_push(self.log@, e);
            self.log@ = self.log@.push(e);
            if ok {
                assert(self.buf.0@ =~= render(self.log@));
            }
        }
    }

    fn on_boolean(&mut self, range: Span, value: bool) {
        let ghost e = Event::Boolean(range, value);
        let ghost ok = self.inv();
        self.buf.emit_boolean(value);
        proof {
            lemma_render_push(self.log@, e);
            self.log@ = self.log@.push(e);
            if ok {
                assert(self.buf.0@ =~= render(self.log@));
            }
        }
    }

    fn on_item_delim(&mut self) {
        let ghost e = Event::ItemDelim;
        let ghost ok = self.inv();
        self.buf.emit_item_delim();
        proof {
            lemma_render_push(self.log@, e);
            self.log@ = self.log@.push(e);
            if ok {
                assert(self.buf.0@ =~= render(self.log@));
            }
        }
    }
}

/// `json` written compactly, when it is one JSON value
pub fn uglify_str(json: &str) -> (res: Result<String, Error>)
    ensures
        match uglified(json.spec_bytes()) {
            Some(out) => res matches Ok(s) && s@ == out,
            None => res is Err,
        },
        parse_whole(json.spec_bytes()) matches PVal::Failed(f, site) ==> res matches Err(e) && fails(
            e,
            f,
            site,
            json.spec_bytes(),
        ),
        res matches Err(e) ==> diagnosable(e),
{
    let mut buf = String::new();
    match uglify_str_into(&mut buf, json) {
        Ok(()) => Ok(buf),
        Err(e) => Err(e),
    }
}

/// writes `json` compactly after what `buf` holds, when it is one JSON value;
/// else `buf` is left empty
pub fn uglify_str_into(buf: &mut String, json: &str) -> (res: Result<(), Error>)
    ensures
        match uglified(json.spec_bytes()) {
            Some(out) => res is Ok && final(buf)@ == old(buf)@ + out,
            None => res is Err && final(buf)@ == Seq::<char>::empty(),
        },
        parse_whole(json.spec_bytes()) matches PVal::Failed(f, site) ==> res matches Err(e) && fails(
            e,
            f,
            site,
            json.spec_bytes(),
        ),
        res matches Err(e) ==> diagnosable(e),
{
    let mut visitor = UglifyEmitVisitor::new();
    let mut tokens = TokenStream::new(json);
    proof {
        tokens.lemma_wf();
        lemma_str_bytes(json);
    }
    match parse_tokens(&mut tokens, json, true, &mut visitor) {
        Ok(_) => {
            proof {
                assert(Seq::<Event>::empty() + visitor.events() =~= visitor.events());
            }
            let out = visitor.into_buf();
            push_str(buf, out.as_str());
            Ok(())
        },
        Err(e) => {
            proof {
                lemma_parse_errors_diagnosable(json.spec_bytes(), e);
            }
            *buf = String::new();
            Err(e)
        },
    }
}

/// the value of `doc` written compactly
pub fn uglify_document(doc: &Document) -> (res: String)
    requires
        doc.wf(),
    ensures
        res@ == render(value_events(doc.spec_root(), doc.spec_source().spec_bytes())),
{
    let mut buf = String::new();
    uglify_document_into(&mut buf, doc);
    proof {
        assert(Seq::<char>::empty() + render(value_events(doc.spec_root(), doc.spec_source().spec_bytes()))
            =~= render(value_events(doc.spec_root(), doc.spec_source().spec_bytes())));
    }
    buf
}

/// writes the value of `doc` compactly after what `buf` holds
pub fn uglify_document_into(buf: &mut String, doc: &Document)
    requires
        doc.wf(),
    ensures
        final(buf)@ == old(buf)@ + render(value_events(doc.spec_root(), doc.spec_source().spec_bytes())),
{
    let mut visitor = UglifyEmitVisitor::new();
    visit_document(doc, &mut visitor);
    proof {
        assert(Seq::<Event>::empty() + value_events(doc.spec_root(), doc.spec_source().spec_bytes())
            =~= value_events(doc.spec_root(), doc.spec_source().spec_bytes()));
    }
    let out = visitor.into_buf();
    push_str(buf, out.as_str());
}

} // verus!
