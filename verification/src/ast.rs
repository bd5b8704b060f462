//! JSON values as byte ranges of the text they were read from
pub mod visitor;

use vstd::prelude::*;
use vstd::string::StringSliceAdditionalSpecFns;
use vstd::utf8::*;

use crate::ast::visitor::{AstVisitor, lemma_built};
use crate::check::{lemma_parse_errors_diagnosable, parse_whole};
use crate::diagnostics::diagnosable;
use crate::error::{Error, site_range};
use crate::text::{lemma_str_bytes, substr};
use crate::tokens::{Span, TokenStream};
use crate::traverse::{
    MAX_DEPTH, PVal, Visitor, fails, finish_check, lemma_value_at_nests, parse_tokens, slice_chars, spans_ok,
    value_at,
};

verus! {

/// a JSON value read from a text, as the ranges of the text it covers
pub enum SpecValue {
    Null(Span),
    /// the range between the quotes
    Str(Span),
    /// the mantissa, and the exponent digits after `e` where there are any
    Number(Span, Option<Span>),
    Bool(Span, bool),
    /// from `{` to `}`, and each key (between its quotes) with its value
    Object(Span, Seq<(Span, SpecValue)>),
    /// from `[` to `]`, and the items
    Array(Span, Seq<SpecValue>),
}

/// the bytes a value covers; for a string, those between its quotes
pub open spec fn span_of(v: SpecValue) -> Span {
    match v {
        SpecValue::Null(r) => r,
        SpecValue::Str(r) => r,
        SpecValue::Number(m, e) => match e {
            Some(e) => Span { start: m.start, end: e.end },
            None => m,
        },
        SpecValue::Bool(r, _) => r,
        SpecValue::Object(r, _) => r,
        SpecValue::Array(r, _) => r,
    }
}

/// `v` and what it holds lie within `k` levels of nesting: a value takes one
/// level, and each object or array puts what it holds one level deeper
pub open spec fn nests_within(v: SpecValue, k: int) -> bool
    decreases v,
{
    &&& k >= 1
    &&& match v {
        SpecValue::Object(_, entries) => forall|i: int|
            0 <= i < entries.len() ==> nests_within(#[trigger] entries[i].1, k - 1),
        SpecValue::Array(_, items) => forall|i: int|
            0 <= i < items.len() ==> nests_within(#[trigger] items[i], k - 1),
        _ => true,
    }
}

/// a value within `k` levels of nesting is within any more
pub proof fn lemma_nests_within_more(v: SpecValue, k: int, m: int)
    requires
        nests_within(v, k),
        k <= m,
    ensures
        nests_within(v, m),
    decreases v,
{
    match v {
        SpecValue::Object(_, entries) => {
            assert forall|i: int| 0 <= i < entries.len() implies nests_within(
                #[trigger] entries[i].1,
                m - 1,
            ) by {
                lemma_nests_within_more(entries[i].1, k - 1, m - 1);
            }
        },
        SpecValue::Array(_, items) => {
            assert forall|i: int| 0 <= i < items.len() implies nests_within(
                #[trigger] items[i],
                m - 1,
            ) by {
                lemma_nests_within_more(items[i], k - 1, m - 1);
            }
        },
        _ => {},
    }
}

/// the entries of an object, in the order of the text
#[derive(Debug, PartialEq, Eq)]
pub struct ObjectEntries(pub Vec<(Span, Value)>);

/// a JSON value, as ranges of the text it was read from
#[derive(Debug, PartialEq, Eq)]
pub enum Value {
    Null(Span),
    /// excludes the surrounding quotes
    String(Span),
    Number { mantissa: Span, exponent: Option<Span> },
    Object(Span, ObjectEntries),
    Array(Span, Vec<Value>),
    Boolean(Span, bool),
}

pub open spec fn view_value(v: Value) -> SpecValue
    decreases v,
{
    match v {
        Value::Null(r) => SpecValue::Null(r),
        Value::String(r) => SpecValue::Str(r),
        Value::Number { mantissa, exponent } => SpecValue::Number(mantissa, exponent),
        Value::Boolean(r, b) => SpecValue::Bool(r, b),
        Value::Object(r, entries) => SpecValue::Object(r, view_entries(entries.0@)),
        Value::Array(r, items) => SpecValue::Array(r, view_items(items@)),
    }
}

pub open spec fn view_items(items: Seq<Value>) -> Seq<SpecValue>
    decreases items,
{
    if items.len() == 0 {
        Seq::empty()
    } else {
        view_items(items.drop_last()).push(view_value(items.last()))
    }
}

pub open spec fn view_entries(entries: Seq<(Span, Value)>) -> Seq<(Span, SpecValue)>
    decreases entries,
{
    if entries.len() == 0 {
        Seq::empty()
    } else {
        view_entries(entries.drop_last()).push((entries.last().0, view_value(entries.last().1)))
    }
}

impl ObjectEntries {
    pub fn new() -> (res: Self)
        ensures
            res.0@.len() == 0,
    {
        ObjectEntries(Vec::new())
    }

    pub fn push(&mut self, key_range: Span, v: Value)
        ensures
            final(self).0@ == old(self).0@.push((key_range, v)),
    {
        self.0.push((key_range, v));
    }

    pub fn is_empty(&self) -> (res: bool)
        ensures
            res == (self.0@.len() == 0),
    {
        self.0.len() == 0
    }

    pub fn len(&self) -> (res: usize)
        ensures
            res == self.0@.len(),
    {
        self.0.len()
    }
}

impl View for Value {
    type V = SpecValue;

    open spec fn view(&self) -> SpecValue {
        view_value(*self)
    }
}

impl Value {
    /// the bytes of the text the value stands for; for a string, those between
    /// its quotes, for a number, its mantissa and exponent
    pub fn range(&self) -> (res: Span)
        ensures
            res == span_of(self@),
    {
        match self {
            Value::Null(r) => *r,
            Value::String(r) => *r,
            Value::Number { mantissa, exponent } => match exponent {
                Some(e) => Span { start: mantissa.start, end: e.end },
                None => *mantissa,
            },
            Value::Object(r, _) => *r,
            Value::Array(r, _) => *r,
            Value::Boolean(r, _) => *r,
        }
    }
}

/// what `parse_at` reads in the window `0..end` of `t`, from `start`
pub open spec fn parse_window(t: Seq<u8>, start: int, end: int) -> PVal {
    let s = t.subrange(0, end);
    finish_check(s, value_at(s, start, 0, t.len() as int), true)
}

/// a JSON text and the value it holds
pub struct Document<'a> {
    source: &'a str,
    root: Value,
}

/// reads the bytes `range` of `full_source` as one JSON value, with nothing
/// after it; errors are reported in all of `full_source`
pub fn parse_at<'a>(full_source: &'a str, range: Span) -> (res: Result<Document<'a>, Error>)
    requires
        range.start <= range.end <= full_source.spec_bytes().len(),
        is_char_boundary(full_source.spec_bytes(), range.start as int),
        is_char_boundary(full_source.spec_bytes(), range.end as int),
    ensures
        match parse_window(full_source.spec_bytes(), range.start as int, range.end as int) {
            PVal::Done(v, _) => res matches Ok(d) && d.spec_root() == v && d.spec_source()
                == full_source && d.wf(),
            PVal::Failed(f, site) => res matches Err(e) && fails(e, f, site, full_source.spec_bytes()),
        },
{
    let mut ast = AstVisitor::new();
    let mut tokens = TokenStream::new_at_range(full_source, range);
    match parse_tokens(&mut tokens, full_source, true, &mut ast) {
        Ok(_) => {
            let ghost v = match parse_window(
                full_source.spec_bytes(),
                range.start as int,
                range.end as int,
            ) {
                PVal::Done(v, _) => v,
                _ => arbitrary(),
            };
            proof {
                assert(Seq::<crate::traverse::Event>::empty() + crate::traverse::value_events(
                    v,
                    full_source.spec_bytes(),
                ) =~= crate::traverse::value_events(v, full_source.spec_bytes()));
                lemma_built(&ast, v, full_source.spec_bytes());
                lemma_value_at_nests(
                    full_source.spec_bytes().subrange(0, range.end as int),
                    range.start as int,
                    0,
                    full_source.spec_bytes().len() as int,
                );
            }
            match ast.finish() {
                Some(root) => Ok(Document { source: full_source, root }),
                None => {
                    proof {
                        assert(false);
                    }
                    Err(Error::new(crate::error::ErrorKind::NestingTooDeep(0), range, full_source))
                },
            }
        },
        Err(e) => Err(e),
    }
}

impl<'a> Document<'a> {
    pub closed spec fn spec_root(&self) -> SpecValue {
        self.root@
    }

    pub closed spec fn spec_source(&self) -> &'a str {
        self.source
    }

    /// the text ranges of the value can be cut out of the text, and the value
    /// nests no deeper than the parser allows
    pub closed spec fn wf(&self) -> bool {
        &&& spans_ok(self.root@, self.source.spec_bytes())
        &&& nests_within(self.root@, MAX_DEPTH as int)
    }

    pub proof fn lemma_wf(&self)
        requires
            self.wf(),
        ensures
            spans_ok(self.spec_root(), self.spec_source().spec_bytes()),
            nests_within(self.spec_root(), MAX_DEPTH as int),
    {
    }

    /// reads `source` as one JSON value, with nothing after it
    pub fn parse(source: &'a str) -> (res: Result<Document<'a>, Error>)
        ensures
            match parse_whole(source.spec_bytes()) {
                PVal::Done(v, _) => res matches Ok(d) && d.spec_root() == v && d.spec_source()
                    == source && d.wf(),
                PVal::Failed(f, site) => res matches Err(e) && fails(e, f, site, source.spec_bytes()),
            },
            res matches Err(e) ==> diagnosable(e),
    {
        let _n = source.as_bytes().len();
        proof {
            lemma_str_bytes(source);
            is_char_boundary_start_end_of_seq(source.spec_bytes());
            assert(source.spec_bytes().subrange(0, source.spec_bytes().len() as int)
                =~= source.spec_bytes());
        }
        let res = parse_at(source, Span { start: 0, end: source.len() });
        proof {
            if res is Err {
                lemma_parse_errors_diagnosable(source.spec_bytes(), res->Err_0);
            }
        }
        res
    }

    /// the value the text holds
    pub fn root(&self) -> (res: &Value)
        ensures
            res@ == self.spec_root(),
    {
        &self.root
    }

    /// the value the text holds, taken out
    pub fn into_root(self) -> (res: Value)
        ensures
            res@ == self.spec_root(),
    {
        self.root
    }

    /// the text
    pub fn source(&self) -> (res: &'a str)
        ensures
            res == self.spec_source(),
    {
        self.source
    }

    /// the part `range` of the text
    pub fn slice(&self, range: Span) -> (res: &'a str)
        requires
            range.start <= range.end <= self.spec_source().spec_bytes().len(),
            is_char_boundary(self.spec_source().spec_bytes(), range.start as int),
            is_char_boundary(self.spec_source().spec_bytes(), range.end as int),
        ensures
            res@ == slice_chars(self.spec_source().spec_bytes(), range),
    {
        substr(self.source, range.start, range.end)
    }

    /// the text of a string value, between its quotes; `None` for other values
    pub fn as_str(&self, value: &Value) -> (res: Option<&'a str>)
        requires
            value matches Value::String(r) ==> r.start <= r.end <= self.spec_source().spec_bytes().len()
                && is_char_boundary(self.spec_source().spec_bytes(), r.start as int)
                && is_char_boundary(self.spec_source().spec_bytes(), r.end as int),
        ensures
            match value {
                Value::String(r) => res matches Some(s) && s@ == slice_chars(
                    self.spec_source().spec_bytes(),
                    *r,
                ),
                _ => res is None,
            },
    {
        match value {
            Value::String(r) => Some(self.slice(*r)),
            _ => None,
        }
    }

    /// the value of the last entry of `entries` whose key is `key`: of
    /// duplicate keys, the last one counts
    pub fn get_object_value<'b>(&self, entries: &'b ObjectEntries, key: &str) -> (res: Option<&'b Value>)
        requires
            forall|i: int|
                0 <= i < entries.0@.len() ==> {
                    let r = (#[trigger] entries.0@[i]).0;
                    &&& r.start <= r.end <= self.spec_source().spec_bytes().len()
                    &&& is_char_boundary(self.spec_source().spec_bytes(), r.start as int)
                    &&& is_char_boundary(self.spec_source().spec_bytes(), r.end as int)
                },
        ensures
            match res {
                Some(v) => exists|i: int|
                    0 <= i < entries.0@.len() && slice_chars(
                        self.spec_source().spec_bytes(),
                        #[trigger] entries.0@[i].0,
                    ) == key@ && entries.0@[i].1 == *v && forall|j: int|
                        i < j < entries.0@.len() ==> slice_chars(
                            self.spec_source().spec_bytes(),
                            #[trigger] entries.0@[j].0,
                        ) != key@,
                None => forall|i: int|
                    0 <= i < entries.0@.len() ==> slice_chars(
                        self.spec_source().spec_bytes(),
                        #[trigger] entries.0@[i].0,
                    ) != key@,
            },
    {
        let mut i: usize = entries.0.len();
        while i > 0
            invariant
                i <= entries.0@.len(),
                forall|j: int|
                    0 <= j < entries.0@.len() ==> {
                        let r = (#[trigger] entries.0@[j]).0;
                        &&& r.start <= r.end <= self.spec_source().spec_bytes().len()
                        &&& is_char_boundary(self.spec_source().spec_bytes(), r.start as int)
                        &&& is_char_boundary(self.spec_source().spec_bytes(), r.end as int)
                    },
                forall|j: int|
                    i <= j < entries.0@.len() ==> slice_chars(
                        self.spec_source().spec_bytes(),
                        #[trigger] entries.0@[j].0,
                    ) != key@,
            decreases i,
        {
            let r = entries.0[i - 1].0;
            let k = self.slice(r);
            if crate::text::str_eq(k, key) {
                return Some(&entries.0[i - 1].1);
            }
            i = i - 1;
        }
        None
    }
}

} // verus!
