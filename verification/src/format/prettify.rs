//! pretty JSON: a value fits on the rest of its line if it can, else it is
//! spread over lines, one item per line, or, for arrays of numbers, as many
//! numbers per line as fit
use vstd::prelude::*;
use vstd::string::StringSliceAdditionalSpecFns;
use vstd::utf8::*;

use crate::ast::{Document, SpecValue, Value, lemma_nests_within_more, nests_within, view_entries, view_items};
use crate::check::parse_whole;
use crate::diagnostics::diagnosable;
use crate::error::{Error, site_range};
use crate::format::{LineEnding, bool_chars, line_ending_chars, null_chars, quoted};
use crate::tokens::Span;
use crate::format::uglify::{event_text, lemma_render_concat, lemma_render_push, render, uglified};
use crate::traverse::{
    fails,
    Event, close_span, entries_events, items_events, open_span, value_events, lemma_spans_ok_entry, lemma_spans_ok_item, lemma_view_entries_len, lemma_view_entries_prefix,
    MAX_DEPTH, PVal, entries_ok, items_ok, lemma_view_items_len, lemma_view_items_prefix, slice_chars, span_ok, spans_ok,
    text_slice,
};
use vstd::string::StrSliceExecFns;
use crate::text::{lemma_ascii_valid, push_char, push_str};

verus! {

/// how pretty text is laid out: what follows a key's colon and separates the
/// items of a line, what one level of indentation is, and how lines end
#[derive(Debug, PartialEq, Eq, Clone, Copy)]
pub struct FormatOptions {
    pub key_val_delimiter: Option<(char, usize)>,
    pub indent: Option<(char, usize)>,
    pub line_ending: LineEnding,
}

impl FormatOptions {
    pub fn new(
        key_val_delimiter: Option<(char, usize)>,
        indent: Option<(char, usize)>,
        line_ending: LineEnding,
    ) -> (res: Self)
        ensures
            res.key_val_delimiter == key_val_delimiter,
            res.indent == indent,
            res.line_ending == line_ending,
    {
        FormatOptions { key_val_delimiter, indent, line_ending }
    }

    /// one space after a colon and between the items of a line, two spaces
    /// per level of indentation
    pub fn prettify(line_ending: LineEnding) -> (res: Self)
        ensures
            res.key_val_delimiter == Some((' ', 1usize)),
            res.indent == Some((' ', 2usize)),
            res.line_ending == line_ending,
    {
        FormatOptions { key_val_delimiter: Some((' ', 1)), indent: Some((' ', 2)), line_ending }
    }
}

/// text written so far, the column its last line has reached, in bytes, and
/// its significant text: all of it but the layout (delimiters, indentation and
/// line endings)
pub struct FmtState {
    pub out: Seq<char>,
    pub col: int,
    pub sig: Seq<char>,
}

/// the number of bytes of the UTF-8 encoding of `s`
pub open spec fn blen(s: Seq<char>) -> int {
    encode_utf8(s).len() as int
}

/// significant text `s` written on the current line
pub open spec fn put(st: FmtState, s: Seq<char>) -> FmtState {
    FmtState { out: st.out + s, col: st.col + blen(s), sig: st.sig + s }
}

/// layout `s` written on the current line
pub open spec fn layout(st: FmtState, s: Seq<char>) -> FmtState {
    FmtState { out: st.out + s, col: st.col + blen(s), sig: st.sig }
}

/// a line ended
pub open spec fn eol(st: FmtState, o: FormatOptions) -> FmtState {
    FmtState { out: st.out + line_ending_chars(o.line_ending), col: 0, sig: st.sig }
}

/// `c`, `n` times
pub open spec fn repeat_char(c: char, n: int) -> Seq<char> {
    Seq::new(n as nat, |_i: int| c)
}

/// `times` runs of the char of `spec`, each as long as `spec` says
pub open spec fn spec_chars(spec: Option<(char, usize)>, times: int) -> Seq<char> {
    match spec {
        Some((c, n)) => repeat_char(c, n * times),
        None => Seq::empty(),
    }
}

pub open spec fn delim_chars(o: FormatOptions) -> Seq<char> {
    spec_chars(o.key_val_delimiter, 1)
}

pub open spec fn indent_chars(o: FormatOptions, level: int) -> Seq<char> {
    spec_chars(o.indent, level)
}

pub open spec fn delim_len(o: FormatOptions) -> nat {
    match o.key_val_delimiter {
        Some((_, n)) => n as nat,
        None => 0,
    }
}

/// the bytes left on the line before the preferred width is reached
pub open spec fn available(st: FmtState, w: int) -> int {
    if w > st.col {
        w - st.col
    } else {
        0
    }
}

/// the number of bytes `r` covers
pub open spec fn span_len(r: Span) -> nat {
    if r.start <= r.end {
        (r.end - r.start) as nat
    } else {
        0
    }
}

/// the length of a number: its mantissa, and `e` and the exponent digits
pub open spec fn number_len(m: Span, e: Option<Span>) -> nat {
    span_len(m) + match e {
        Some(e) => 1 + span_len(e),
        None => 0,
    }
}

/// the length of `v` written on one line, with delimiters of `d` bytes; a
/// string or key counts its chars and its quotes
pub open spec fn inline_len(v: SpecValue, t: Seq<u8>, d: nat) -> nat
    decreases v,
{
    match v {
        SpecValue::Null(_) => 4,
        SpecValue::Str(r) => slice_chars(t, r).len() + 2,
        SpecValue::Number(m, e) => number_len(m, e),
        SpecValue::Bool(_, b) => if b {
            4
        } else {
            5
        },
        SpecValue::Object(_, entries) => if entries.len() == 0 {
            2
        } else {
            2 + 2 * d + entries_inline_len(entries, t, d)
        },
        SpecValue::Array(_, items) => 2 + items_inline_len(items, t, d),
    }
}

/// the entries of an object on one line, with a comma and a delimiter before
/// each but the first
pub open spec fn entries_inline_len(entries: Seq<(Span, SpecValue)>, t: Seq<u8>, d: nat) -> nat
    decreases entries,
{
    if entries.len() == 0 {
        0
    } else {
        let (k, v) = entries.last();
        entries_inline_len(entries.drop_last(), t, d) + (if entries.len() > 1 {
            1 + d
        } else {
            0
        }) + slice_chars(t, k).len() + 2 + 1 + d + inline_len(v, t, d)
    }
}

/// the items of an array on one line, with a comma and a delimiter before
/// each but the first
pub open spec fn items_inline_len(items: Seq<SpecValue>, t: Seq<u8>, d: nat) -> nat
    decreases items,
{
    if items.len() == 0 {
        0
    } else {
        items_inline_len(items.drop_last(), t, d) + (if items.len() > 1 {
            1 + d
        } else {
            0
        }) + inline_len(items.last(), t, d)
    }
}

/// every item is a number
pub open spec fn all_numbers(items: Seq<SpecValue>) -> bool {
    forall|i: int| 0 <= i < items.len() ==> #[trigger] items[i] is Number
}

/// the text of a number: its mantissa, then `e` and the exponent digits
pub open spec fn number_text(t: Seq<u8>, m: Span, e: Option<Span>) -> Seq<char> {
    slice_chars(t, m) + match e {
        Some(e) => seq!['e'] + slice_chars(t, e),
        None => Seq::empty(),
    }
}

/// the text of a scalar value
pub open spec fn scalar_chars(v: SpecValue, t: Seq<u8>) -> Seq<char> {
    match v {
        SpecValue::Null(_) => null_chars(),
        SpecValue::Str(r) => quoted(slice_chars(t, r)),
        SpecValue::Number(m, e) => number_text(t, m, e),
        SpecValue::Bool(_, b) => bool_chars(b),
        _ => Seq::empty(),
    }
}

/// `v` of the text with bytes `t`, written at nesting level `depth` after what
/// `st` holds, laid out by `o` for preferred width `w`
pub open spec fn fmt_value(
    st: FmtState,
    v: SpecValue,
    depth: int,
    o: FormatOptions,
    w: int,
    t: Seq<u8>,
) -> FmtState
    decreases v, 0int,
{
    match v {
        SpecValue::Object(_, entries) => if entries.len() == 0 {
            put(st, seq!['{', '}'])
        } else if inline_len(v, t, delim_len(o)) <= available(st, w) {
            put(
                layout(
                    compact_entries(layout(put(st, seq!['{']), delim_chars(o)), entries, depth, o, w, t),
                    delim_chars(o),
                ),
                seq!['}'],
            )
        } else {
            put(
                layout(
                    eol(expanded_entries(eol(put(st, seq!['{']), o), entries, depth, o, w, t), o),
                    indent_chars(o, depth),
                ),
                seq!['}'],
            )
        },
        SpecValue::Array(_, items) => if items.len() == 0 {
            put(st, seq!['[', ']'])
        } else if inline_len(v, t, delim_len(o)) <= available(st, w) {
            put(compact_items(put(st, seq!['[']), items, depth, o, w, t), seq![']'])
        } else if all_numbers(items) {
            put(
                layout(
                    eol(
                        fill_items(
                            layout(eol(put(st, seq!['[']), o), indent_chars(o, depth + 1)),
                            items,
                            items.len() as int,
                            depth,
                            o,
                            w,
                            t,
                        ),
                        o,
                    ),
                    indent_chars(o, depth),
                ),
                seq![']'],
            )
        } else {
            put(
                layout(
                    eol(expanded_items(eol(put(st, seq!['[']), o), items, depth, o, w, t), o),
                    indent_chars(o, depth),
                ),
                seq![']'],
            )
        },
        _ => put(st, scalar_chars(v, t)),
    }
}

/// a key, its colon and the delimiter, then its value
pub open spec fn fmt_entry(
    st: FmtState,
    k: Span,
    v: SpecValue,
    depth: int,
    o: FormatOptions,
    w: int,
    t: Seq<u8>,
) -> FmtState
    decreases v, 1int,
{
    fmt_value(layout(put(st, quoted(slice_chars(t, k)) + seq![':']), delim_chars(o)), v, depth, o, w, t)
}

/// the entries of an object on the current line
pub open spec fn compact_entries(
    st: FmtState,
    entries: Seq<(Span, SpecValue)>,
    depth: int,
    o: FormatOptions,
    w: int,
    t: Seq<u8>,
) -> FmtState
    decreases entries, 0int,
{
    if entries.len() == 0 {
        st
    } else {
        let s1 = compact_entries(st, entries.drop_last(), depth, o, w, t);
        let s2 = if entries.len() > 1 {
            layout(put(s1, seq![',']), delim_chars(o))
        } else {
            s1
        };
        fmt_entry(s2, entries.last().0, entries.last().1, depth + 1, o, w, t)
    }
}

/// the entries of an object, one per line
pub open spec fn expanded_entries(
    st: FmtState,
    entries: Seq<(Span, SpecValue)>,
    depth: int,
    o: FormatOptions,
    w: int,
    t: Seq<u8>,
) -> FmtState
    decreases entries, 0int,
{
    if entries.len() == 0 {
        st
    } else {
        let s1 = expanded_entries(st, entries.drop_last(), depth, o, w, t);
        let s2 = if entries.len() > 1 {
            eol(put(s1, seq![',']), o)
        } else {
            s1
        };
        fmt_entry(
            layout(s2, indent_chars(o, depth + 1)),
            entries.last().0,
            entries.last().1,
            depth + 1,
            o,
            w,
            t,
        )
    }
}

/// the items of an array on the current line
pub open spec fn compact_items(
    st: FmtState,
    items: Seq<SpecValue>,
    depth: int,
    o: FormatOptions,
    w: int,
    t: Seq<u8>,
) -> FmtState
    decreases items, 0int,
{
    if items.len() == 0 {
        st
    } else {
        let s1 = compact_items(st, items.drop_last(), depth, o, w, t);
        let s2 = if items.len() > 1 {
            layout(put(s1, seq![',']), delim_chars(o))
        } else {
            s1
        };
        fmt_value(s2, items.last(), depth + 1, o, w, t)
    }
}

/// the items of an array, one per line
pub open spec fn expanded_items(
    st: FmtState,
    items: Seq<SpecValue>,
    depth: int,
    o: FormatOptions,
    w: int,
    t: Seq<u8>,
) -> FmtState
    decreases items, 0int,
{
    if items.len() == 0 {
        st
    } else {
        let s1 = expanded_items(st, items.drop_last(), depth, o, w, t);
        let s2 = if items.len() > 1 {
            eol(put(s1, seq![',']), o)
        } else {
            s1
        };
        fmt_value(layout(s2, indent_chars(o, depth + 1)), items.last(), depth + 1, o, w, t)
    }
}

/// the numbers of an array of `n`, as many per line as fit: a number goes on a
/// new line when it, its comma and the comma after it, if any, would pass the
/// preferred width
pub open spec fn fill_items(
    st: FmtState,
    items: Seq<SpecValue>,
    n: int,
    depth: int,
    o: FormatOptions,
    w: int,
    t: Seq<u8>,
) -> FmtState
    decreases items, 0int,
{
    if items.len() == 0 {
        st
    } else {
        let i = items.len() - 1;
        let s1 = fill_items(st, items.drop_last(), n, depth, o, w, t);
        let s2 = if i > 0 {
            let s = put(s1, seq![',']);
            let trailing: int = if i + 1 < n {
                1
            } else {
                0
            };
            if inline_len(items[i], t, delim_len(o)) + 1 + trailing > available(s, w) {
                layout(eol(s, o), indent_chars(o, depth + 1))
            } else {
                layout(s, delim_chars(o))
            }
        } else {
            s1
        };
        fmt_value(s2, items[i], depth + 1, o, w, t)
    }
}

/// the encoding of two char sequences one after the other is the encoding of
/// the first, then that of the second
pub proof fn lemma_encode_concat(a: Seq<char>, b: Seq<char>)
    ensures
        encode_utf8(a + b) == encode_utf8(a) + encode_utf8(b),
    decreases a.len(),
{
    if a.len() == 0 {
        assert(a + b =~= b);
        assert(encode_utf8(a) =~= Seq::<u8>::empty());
        assert(encode_utf8(a) + encode_utf8(b) =~= encode_utf8(b));
    } else {
        lemma_encode_concat(a.drop_first(), b);
        assert((a + b).drop_first() =~= a.drop_first() + b);
        assert((a + b)[0] == a[0]);
        assert(encode_utf8(a + b) =~= encode_scalar(a[0] as u32) + encode_utf8(a.drop_first() + b));
    }
}

proof fn lemma_put_put(st: FmtState, a: Seq<char>, b: Seq<char>)
    ensures
        put(put(st, a), b) == put(st, a + b),
{
    lemma_encode_concat(a, b);
    assert(st.out + a + b =~= st.out + (a + b));
    assert(st.sig + a + b =~= st.sig + (a + b));
}

proof fn lemma_layout_layout(st: FmtState, a: Seq<char>, b: Seq<char>)
    ensures
        layout(layout(st, a), b) == layout(st, a + b),
{
    lemma_encode_concat(a, b);
    assert(st.out + a + b =~= st.out + (a + b));
}

proof fn lemma_repeat_more(c: char, n: int)
    requires
        n >= 0,
    ensures
        repeat_char(c, n) + seq![c] == repeat_char(c, n + 1),
{
    assert(repeat_char(c, n) + seq![c] =~= repeat_char(c, n + 1));
}

/// text being laid out: what was written, where the current line starts, and
/// the layout and width asked for
pub struct FormatBuf {
    opts: FormatOptions,
    buf: String,
    line_start: usize,
    preferred_width: usize,
    sig: Ghost<Seq<char>>,
}

impl FormatBuf {
    /// what was written, and the column reached
    pub closed spec fn state(&self) -> FmtState {
        FmtState { out: self.buf@, col: blen(self.buf@) - self.line_start, sig: self.sig@ }
    }

    pub closed spec fn options(&self) -> FormatOptions {
        self.opts
    }

    pub closed spec fn width(&self) -> int {
        self.preferred_width as int
    }

    /// the current line starts within the text
    pub closed spec fn wf(&self) -> bool {
        self.line_start <= blen(self.buf@)
    }

    /// writing after what `buf` holds, all of which counts as the current line
    pub fn new(buf: String, opts: FormatOptions, preferred_width: usize) -> (res: Self)
        ensures
            res.wf(),
            res.state() == (FmtState { out: buf@, col: blen(buf@), sig: Seq::empty() }),
            res.options() == opts,
            res.width() == preferred_width,
    {
        FormatBuf { opts, buf, line_start: 0, preferred_width, sig: Ghost(Seq::empty()) }
    }

    fn byte_len(&self) -> (res: usize)
        ensures
            res == blen(self.buf@),
    {
        self.buf.as_str().as_bytes().len()
    }

    fn push(&mut self, c: char)
        requires
            old(self).wf(),
        ensures
            final(self).wf(),
            final(self).state() == put(old(self).state(), seq![c]),
            final(self).options() == old(self).options(),
            final(self).width() == old(self).width(),
    {
        proof {
            lemma_encode_concat(self.buf@, seq![c]);
        }
        push_char(&mut self.buf, c);
        proof {
            assert(self.buf@ =~= old(self).buf@ + seq![c]);
            self.sig@ = self.sig@ + seq![c];
        }
    }

    /// `c` as layout
    fn push_layout(&mut self, c: char)
        requires
            old(self).wf(),
        ensures
            final(self).wf(),
            final(self).state() == layout(old(self).state(), seq![c]),
            final(self).options() == old(self).options(),
            final(self).width() == old(self).width(),
    {
        proof {
            lemma_encode_concat(self.buf@, seq![c]);
        }
        push_char(&mut self.buf, c);
        proof {
            assert(self.buf@ =~= old(self).buf@ + seq![c]);
        }
    }

    /// `value` as layout
    fn push_layout_str(&mut self, value: &str)
        requires
            old(self).wf(),
        ensures
            final(self).wf(),
            final(self).state() == layout(old(self).state(), value@),
            final(self).options() == old(self).options(),
            final(self).width() == old(self).width(),
    {
        proof {
            lemma_encode_concat(self.buf@, value@);
        }
        push_str(&mut self.buf, value);
    }

    fn push_str(&mut self, value: &str)
        requires
            old(self).wf(),
        ensures
            final(self).wf(),
            final(self).state() == put(old(self).state(), value@),
            final(self).options() == old(self).options(),
            final(self).width() == old(self).width(),
    {
        proof {
            lemma_encode_concat(self.buf@, value@);
        }
        push_str(&mut self.buf, value);
        proof {
            self.sig@ = self.sig@ + value@;
        }
    }

    fn push_quoted(&mut self, value: &str)
        requires
            old(self).wf(),
        ensures
            final(self).wf(),
            final(self).state() == put(old(self).state(), quoted(value@)),
            final(self).options() == old(self).options(),
            final(self).width() == old(self).width(),
    {
        let ghost st = self.state();
        self.push('"');
        self.push_str(value);
        self.push('"');
        proof {
            lemma_put_put(st, seq!['"'], value@);
            lemma_put_put(st, seq!['"'] + value@, seq!['"']);
        }
    }

    fn push_repeat(&mut self, c: char, count: usize)
        requires
            old(self).wf(),
        ensures
            final(self).wf(),
            final(self).state() == layout(old(self).state(), repeat_char(c, count as int)),
            final(self).options() == old(self).options(),
            final(self).width() == old(self).width(),
    {
        let ghost st = self.state();
        let mut i: usize = 0;
        proof {
            assert(st.out + repeat_char(c, 0) =~= st.out);
            assert(encode_utf8(repeat_char(c, 0)) =~= Seq::<u8>::empty());
        }
        while i < count
            invariant
                i <= count,
                self.wf(),
                self.state() == layout(st, repeat_char(c, i as int)),
                self.options() == old(self).options(),
                self.width() == old(self).width(),
            decreases count - i,
        {
            self.push_layout(c);
            proof {
                lemma_layout_layout(st, repeat_char(c, i as int), seq![c]);
                lemma_repeat_more(c, i as int);
            }
            i = i + 1;
        }
    }

    /// `times` runs of the char of `spec`
    fn write_spec(&mut self, spec: Option<(char, usize)>, times: usize)
        requires
            old(self).wf(),
        ensures
            final(self).wf(),
            final(self).state() == layout(old(self).state(), spec_chars(spec, times as int)),
            final(self).options() == old(self).options(),
            final(self).width() == old(self).width(),
    {
        let ghost st = self.state();
        match spec {
            Some((c, size)) => {
                let mut i: usize = 0;
                proof {
                    assert(st.out + repeat_char(c, 0) =~= st.out);
                    assert(encode_utf8(repeat_char(c, 0)) =~= Seq::<u8>::empty());
                }
                while i < times
                    invariant
                        i <= times,
                        self.wf(),
                        self.state() == layout(st, repeat_char(c, size * i)),
                        self.options() == old(self).options(),
                        self.width() == old(self).width(),
                    decreases times - i,
                {
                    self.push_repeat(c, size);
                    proof {
                        lemma_layout_layout(st, repeat_char(c, size * i), repeat_char(c, size as int));
                        assert(size * (i + 1) == size * i + size) by (nonlinear_arith);
                        assert(size * i >= 0) by (nonlinear_arith);
                        assert(repeat_char(c, size * i) + repeat_char(c, size as int) =~= repeat_char(
                            c,
                            size * (i + 1),
                        ));
                    }
                    i = i + 1;
                }
            },
            None => {
                proof {
                    assert(st.out + Seq::<char>::empty() =~= st.out);
                    assert(encode_utf8(Seq::<char>::empty()) =~= Seq::<u8>::empty());
                }
            },
        }
    }

    /// what follows a key's colon and separates the items of a line
    pub fn write_key_val_delimiter(&mut self)
        requires
            old(self).wf(),
        ensures
            final(self).wf(),
            final(self).state() == layout(old(self).state(), delim_chars(old(self).options())),
            final(self).options() == old(self).options(),
            final(self).width() == old(self).width(),
    {
        self.write_spec(self.opts.key_val_delimiter, 1);
    }

    fn delimiter_len(&self) -> (res: usize)
        ensures
            res == delim_len(self.options()),
    {
        match self.opts.key_val_delimiter {
            Some((_, size)) => size,
            None => 0,
        }
    }

    /// ends the line
    pub fn write_eol(&mut self)
        requires
            old(self).wf(),
        ensures
            final(self).wf(),
            final(self).state() == eol(old(self).state(), old(self).options()),
            final(self).options() == old(self).options(),
            final(self).width() == old(self).width(),
    {
        self.push_layout_str(self.opts.line_ending.as_str());
        self.line_start = self.byte_len();
    }

    /// the indentation of nesting level `level`
    pub fn write_indent(&mut self, level: usize)
        requires
            old(self).wf(),
        ensures
            final(self).wf(),
            final(self).state() == layout(old(self).state(), indent_chars(old(self).options(), level as int)),
            final(self).options() == old(self).options(),
            final(self).width() == old(self).width(),
    {
        self.write_spec(self.opts.indent, level);
    }

    fn into_inner(self) -> (res: String)
        ensures
            res@ == self.state().out,
    {
        self.buf
    }

    /// the bytes written on the current line
    pub fn column(&self) -> (res: usize)
        requires
            self.wf(),
        ensures
            res == self.state().col,
    {
        self.byte_len() - self.line_start
    }

    /// the bytes left on the line before the preferred width
    fn available_bytes(&self) -> (res: usize)
        requires
            self.wf(),
        ensures
            res == available(self.state(), self.width()),
    {
        self.preferred_width.saturating_sub(self.column())
    }
}

proof fn lemma_entries_inline_len_prefix(es: Seq<(Span, SpecValue)>, i: int, t: Seq<u8>, d: nat)
    requires
        0 <= i <= es.len(),
    ensures
        entries_inline_len(es.subrange(0, i), t, d) <= entries_inline_len(es, t, d),
    decreases es.len(),
{
    if i == es.len() {
        assert(es.subrange(0, i) =~= es);
    } else {
        lemma_entries_inline_len_prefix(es.drop_last(), i, t, d);
        assert(es.drop_last().subrange(0, i) =~= es.subrange(0, i));
    }
}

proof fn lemma_items_inline_len_prefix(xs: Seq<SpecValue>, i: int, t: Seq<u8>, d: nat)
    requires
        0 <= i <= xs.len(),
    ensures
        items_inline_len(xs.subrange(0, i), t, d) <= items_inline_len(xs, t, d),
    decreases xs.len(),
{
    if i == xs.len() {
        assert(xs.subrange(0, i) =~= xs);
    } else {
        lemma_items_inline_len_prefix(xs.drop_last(), i, t, d);
        assert(xs.drop_last().subrange(0, i) =~= xs.subrange(0, i));
    }
}

/// `len` when it is at most `limit`
fn within_limit(len: usize, limit: usize) -> (res: Option<usize>)
    ensures
        res == (if len <= limit {
            Some(len)
        } else {
            None
        }),
{
    if len <= limit {
        Some(len)
    } else {
        None
    }
}

/// `a + b + c`, or `None` when that passes `usize::MAX`
fn sum3(a: usize, b: usize, c: usize) -> (res: Option<usize>)
    ensures
        res == (if a + b + c <= usize::MAX {
            Some((a + b + c) as usize)
        } else {
            None
        }),
{
    match a.checked_add(b) {
        Some(ab) => ab.checked_add(c),
        None => None,
    }
}

/// the length of `val`, a value of `source`, written on one line with
/// delimiters of `delimiter_len` bytes, when it is at most `limit`
pub fn try_get_value_len(source: &str, val: &Value, limit: usize, delimiter_len: usize) -> (res:
    Option<usize>)
    requires
        spans_ok(val@, source.spec_bytes()),
    ensures
        res == (if inline_len(val@, source.spec_bytes(), delimiter_len as nat) <= limit {
            Some(inline_len(val@, source.spec_bytes(), delimiter_len as nat) as usize)
        } else {
            None
        }),
    decreases val,
{
    let ghost t = source.spec_bytes();
    let ghost d = delimiter_len as nat;
    match val {
        Value::Null(_) => within_limit(4, limit),
        Value::Boolean(_, b) => within_limit(
            if *b {
                4
            } else {
                5
            },
            limit,
        ),
        Value::String(r) => {
            let s = text_slice(source, r.start, r.end);
            match s.unicode_len().checked_add(2) {
                Some(n) => within_limit(n, limit),
                None => None,
            }
        },
        Value::Number { mantissa, exponent } => {
            let m = mantissa.end - mantissa.start;
            match exponent {
                Some(e) => match sum3(m, 1, e.end - e.start) {
                    Some(n) => within_limit(n, limit),
                    None => None,
                },
                None => within_limit(m, limit),
            }
        },
        Value::Object(r, entries) => {
            if entries.0.len() == 0 {
                return within_limit(2, limit);
            }
            let ghost es = entries.0@;
            let ghost ves = view_entries(es);
            proof {
                lemma_view_entries_len(es);
                lemma_entries_inline_len_prefix(ves, 0, t, d);
                assert(ves.subrange(0, 0) =~= Seq::<(Span, SpecValue)>::empty());
                assert(view_entries(es.subrange(0, 0)) =~= Seq::<(Span, SpecValue)>::empty());
            }
            let mut sum = match sum3(2, delimiter_len, delimiter_len) {
                Some(n) => n,
                None => {
                    return None;
                },
            };
            let mut i: usize = 0;
            while i < entries.0.len()
                invariant
                    t == source.spec_bytes(),
                    d == delimiter_len as nat,
                    *val == Value::Object(*r, *entries),
                    es == entries.0@,
                    ves == view_entries(es),
                    es.len() > 0,
                    i <= es.len(),
                    val@ == SpecValue::Object(*r, ves),
                    spans_ok(val@, t),
                    ves.len() == es.len(),
                    forall|j: int| 0 <= j < es.len() ==> #[trigger] ves[j] == (es[j].0, es[j].1@),
                    sum == 2 + 2 * d + entries_inline_len(view_entries(es.subrange(0, i as int)), t, d),
                decreases es.len() - i,
            {
                let ghost pre = view_entries(es.subrange(0, i as int));
                proof {
                    lemma_view_entries_prefix(es, i as int);
                    lemma_view_entries_len(es.subrange(0, i as int));
                    assert(es.subrange(0, es.len() as int) =~= es);
                    assert(pre =~= ves.subrange(0, i as int)) by {
                        lemma_view_entries_len(es.subrange(0, i as int));
                    }
                    lemma_entries_inline_len_prefix(ves, i as int, t, d);
                }
                if sum > limit {
                    return None;
                }
                let (k, v) = &entries.0[i];
                proof {
                    assert(ves[i as int] == (es[i as int].0, es[i as int].1@));
                    lemma_spans_ok_entry(*r, ves, t, i as int);
                    assert(decreases_to!(Value::Object(*r, *entries) => *entries));
                    assert(decreases_to!(*entries => entries.0));
                    assert(decreases_to!(entries.0 => entries.0@));
                    assert(decreases_to!(entries.0@ => entries.0@[i as int]));
                    assert(decreases_to!(entries.0@[i as int] => entries.0@[i as int].1));
                }
                let ghost post = view_entries(es.subrange(0, i + 1));
                proof {
                    assert(post.drop_last() =~= pre);
                    assert(post.last() == (*k, v@));
                    lemma_view_entries_len(es.subrange(0, i + 1));
                    assert(post =~= ves.subrange(0, i + 1));
                    lemma_entries_inline_len_prefix(ves, i + 1, t, d);
                }
                let sep: usize = if i > 0 {
                    match delimiter_len.checked_add(1) {
                        Some(n) => n,
                        None => {
                            return None;
                        },
                    }
                } else {
                    0
                };
                let key = text_slice(source, k.start, k.end);
                let key_len = match key.unicode_len().checked_add(2) {
                    Some(n) => n,
                    None => {
                        return None;
                    },
                };
                let colon = match delimiter_len.checked_add(1) {
                    Some(n) => n,
                    None => {
                        return None;
                    },
                };
                let head = match sum3(sum, sep, key_len) {
                    Some(n) => n,
                    None => {
                        return None;
                    },
                };
                let head = match head.checked_add(colon) {
                    Some(n) => n,
                    None => {
                        return None;
                    },
                };
                let remaining = limit.saturating_sub(head);
                let len = match try_get_value_len(source, v, remaining, delimiter_len) {
                    Some(n) => n,
                    None => {
                        return None;
                    },
                };
                sum = head + len;
                i = i + 1;
            }
            proof {
                assert(es.subrange(0, es.len() as int) =~= es);
            }
            within_limit(sum, limit)
        },
        Value::Array(r, items) => {
            let ghost xs = items@;
            let ghost vxs = view_items(xs);
            proof {
                lemma_view_items_len(xs);
                assert(view_items(xs.subrange(0, 0)) =~= Seq::<SpecValue>::empty());
            }
            let mut sum: usize = 2;
            let mut i: usize = 0;
            while i < items.len()
                invariant
                    t == source.spec_bytes(),
                    d == delimiter_len as nat,
                    *val == Value::Array(*r, *items),
                    xs == items@,
                    vxs == view_items(xs),
                    i <= xs.len(),
                    val@ == SpecValue::Array(*r, vxs),
                    spans_ok(val@, t),
                    vxs.len() == xs.len(),
                    forall|j: int| 0 <= j < xs.len() ==> #[trigger] vxs[j] == xs[j]@,
                    sum == 2 + items_inline_len(view_items(xs.subrange(0, i as int)), t, d),
                decreases xs.len() - i,
            {
                let ghost pre = view_items(xs.subrange(0, i as int));
                proof {
                    lemma_view_items_prefix(xs, i as int);
                    lemma_view_items_len(xs.subrange(0, i as int));
                    assert(pre =~= vxs.subrange(0, i as int));
                    lemma_items_inline_len_prefix(vxs, i as int, t, d);
                }
                if sum > limit {
                    return None;
                }
                let v = &items[i];
                proof {
                    assert(vxs[i as int] == xs[i as int]@);
                    lemma_spans_ok_item(*r, vxs, t, i as int);
                    assert(decreases_to!(Value::Array(*r, *items) => *items));
                    assert(decreases_to!(*items => items@));
                    assert(decreases_to!(items@ => items@[i as int]));
                }
                let ghost post = view_items(xs.subrange(0, i + 1));
                proof {
                    assert(post.drop_last() =~= pre);
                    assert(post.last() == v@);
                    lemma_view_items_len(xs.subrange(0, i + 1));
                    assert(post =~= vxs.subrange(0, i + 1));
                    lemma_items_inline_len_prefix(vxs, i + 1, t, d);
                }
                let sep: usize = if i > 0 {
                    match delimiter_len.checked_add(1) {
                        Some(n) => n,
                        None => {
                            return None;
                        },
                    }
                } else {
                    0
                };
                let head = match sum.checked_add(sep) {
                    Some(n) => n,
                    None => {
                        return None;
                    },
                };
                let remaining = limit.saturating_sub(head);
                let len = match try_get_value_len(source, v, remaining, delimiter_len) {
                    Some(n) => n,
                    None => {
                        return None;
                    },
                };
                sum = head + len;
                i = i + 1;
            }
            proof {
                assert(xs.subrange(0, xs.len() as int) =~= xs);
            }
            within_limit(sum, limit)
        },
    }
}

/// whether `val` is longer than `limit` on one line, so that it is spread over
/// lines
pub fn should_expand(source: &str, val: &Value, limit: usize, delimiter_len: usize) -> (res: bool)
    requires
        spans_ok(val@, source.spec_bytes()),
    ensures
        res == (inline_len(val@, source.spec_bytes(), delimiter_len as nat) > limit),
{
    try_get_value_len(source, val, limit, delimiter_len).is_none()
}

/// no text yet, at the start of a line
pub open spec fn fresh() -> FmtState {
    FmtState { out: Seq::empty(), col: 0, sig: Seq::empty() }
}

/// the layout of pretty text: one space after a colon and between the items
/// of a line, two spaces per level
pub open spec fn pretty_options(line_ending: LineEnding) -> FormatOptions {
    FormatOptions {
        key_val_delimiter: Some((' ', 1usize)),
        indent: Some((' ', 2usize)),
        line_ending,
    }
}

fn write_null(buf: &mut FormatBuf)
    requires
        old(buf).wf(),
    ensures
        final(buf).wf(),
        final(buf).state() == put(old(buf).state(), null_chars()),
        final(buf).options() == old(buf).options(),
        final(buf).width() == old(buf).width(),
{
    proof {
        reveal_strlit("null");
        assert("null"@ =~= null_chars());
    }
    buf.push_str("null");
}

fn write_boolean(buf: &mut FormatBuf, b: bool)
    requires
        old(buf).wf(),
    ensures
        final(buf).wf(),
        final(buf).state() == put(old(buf).state(), bool_chars(b)),
        final(buf).options() == old(buf).options(),
        final(buf).width() == old(buf).width(),
{
    proof {
        reveal_strlit("true");
        reveal_strlit("false");
        assert("true"@ =~= bool_chars(true));
        assert("false"@ =~= bool_chars(false));
    }
    if b {
        buf.push_str("true");
    } else {
        buf.push_str("false");
    }
}

/// two chars, one after the other
fn push_pair(buf: &mut FormatBuf, a: char, b: char)
    requires
        old(buf).wf(),
    ensures
        final(buf).wf(),
        final(buf).state() == put(old(buf).state(), seq![a, b]),
        final(buf).options() == old(buf).options(),
        final(buf).width() == old(buf).width(),
{
    let ghost st = buf.state();
    buf.push(a);
    buf.push(b);
    proof {
        lemma_put_put(st, seq![a], seq![b]);
        assert(seq![a] + seq![b] =~= seq![a, b]);
    }
}

/// writes `val`, a value of `source`, at nesting level `depth`
fn format_value_into(buf: &mut FormatBuf, source: &str, val: &Value, depth: usize)
    requires
        old(buf).wf(),
        spans_ok(val@, source.spec_bytes()),
        nests_within(val@, usize::MAX - depth),
    ensures
        final(buf).wf(),
        final(buf).state() == fmt_value(
            old(buf).state(),
            val@,
            depth as int,
            old(buf).options(),
            old(buf).width(),
            source.spec_bytes(),
        ),
        final(buf).options() == old(buf).options(),
        final(buf).width() == old(buf).width(),
    decreases val, 0int,
{
    let ghost t = source.spec_bytes();
    let ghost st = buf.state();
    match val {
        Value::Null(_) => write_null(buf),
        Value::Boolean(_, b) => write_boolean(buf, *b),
        Value::String(r) => {
            let s = text_slice(source, r.start, r.end);
            buf.push_quoted(s);
        },
        Value::Number { mantissa, exponent } => {
            let m = text_slice(source, mantissa.start, mantissa.end);
            buf.push_str(m);
            match exponent {
                Some(e) => {
                    let x = text_slice(source, e.start, e.end);
                    buf.push('e');
                    buf.push_str(x);
                    proof {
                        lemma_put_put(st, m@, seq!['e']);
                        lemma_put_put(st, m@ + seq!['e'], x@);
                        assert(m@ + seq!['e'] + x@ =~= m@ + (seq!['e'] + x@));
                    }
                },
                None => {
                    proof {
                        assert(m@ + Seq::<char>::empty() =~= m@);
                    }
                },
            }
        },
        Value::Object(r, entries) => {
            if entries.0.len() == 0 {
                push_pair(buf, '{', '}');
                proof {
                    lemma_view_entries_len(entries.0@);
                }
            } else {
                proof {
                    lemma_view_entries_len(entries.0@);
                    assert(decreases_to!(Value::Object(*r, *entries) => *entries));
                    assert(decreases_to!(*entries => entries.0));
                }
                let available = buf.available_bytes();
                let delimiter_len = buf.delimiter_len();
                if !should_expand(source, val, available, delimiter_len) {
                    compact_format_obj_into(buf, source, *r, &entries.0, depth);
                } else {
                    expanded_format_obj_into(buf, source, *r, &entries.0, depth);
                }
            }
        },
        Value::Array(r, items) => {
            proof {
                lemma_view_items_len(items@);
            }
            if items.len() == 0 {
                push_pair(buf, '[', ']');
            } else {
                proof {
                    assert(decreases_to!(Value::Array(*r, *items) => *items));
                }
                let available = buf.available_bytes();
                let delimiter_len = buf.delimiter_len();
                if !should_expand(source, val, available, delimiter_len) {
                    compact_format_arr_into(buf, source, *r, items, depth);
                } else if all_number_items(items) {
                    fill_format_arr_into(buf, source, *r, items, depth);
                } else {
                    expanded_format_arr_into(buf, source, *r, items, depth);
                }
            }
        },
    }
}

/// every item is a number
fn all_number_items(items: &Vec<Value>) -> (res: bool)
    ensures
        res == all_numbers(view_items(items@)),
{
    proof {
        lemma_view_items_len(items@);
    }
    let mut i: usize = 0;
    while i < items.len()
        invariant
            i <= items@.len(),
            view_items(items@).len() == items@.len(),
            forall|j: int| 0 <= j < items@.len() ==> #[trigger] view_items(items@)[j] == items@[j]@,
            forall|j: int| 0 <= j < i ==> #[trigger] view_items(items@)[j] is Number,
        decreases items@.len() - i,
    {
        match &items[i] {
            Value::Number { .. } => {},
            _ => {
                proof {
                    assert(!(view_items(items@)[i as int] is Number));
                }
                return false;
            },
        }
        i = i + 1;
    }
    true
}

/// a key, its colon and the delimiter, then its value
fn write_object_entry_into(buf: &mut FormatBuf, source: &str, key: Span, val: &Value, depth: usize)
    requires
        old(buf).wf(),
        span_ok(source.spec_bytes(), key),
        spans_ok(val@, source.spec_bytes()),
        nests_within(val@, usize::MAX - depth),
    ensures
        final(buf).wf(),
        final(buf).state() == fmt_entry(
            old(buf).state(),
            key,
            val@,
            depth as int,
            old(buf).options(),
            old(buf).width(),
            source.spec_bytes(),
        ),
        final(buf).options() == old(buf).options(),
        final(buf).width() == old(buf).width(),
    decreases val, 1int,
{
    let ghost st = buf.state();
    let k = text_slice(source, key.start, key.end);
    buf.push_quoted(k);
    buf.push(':');
    proof {
        lemma_put_put(st, quoted(k@), seq![':']);
    }
    buf.write_key_val_delimiter();
    format_value_into(buf, source, val, depth);
}

/// a comma, then the delimiter
fn write_separator(buf: &mut FormatBuf)
    requires
        old(buf).wf(),
    ensures
        final(buf).wf(),
        final(buf).state() == layout(put(old(buf).state(), seq![',']), delim_chars(old(buf).options())),
        final(buf).options() == old(buf).options(),
        final(buf).width() == old(buf).width(),
{
    buf.push(',');
    buf.write_key_val_delimiter();
}

/// the indentation of `level`, then `c`
fn write_indented_close(buf: &mut FormatBuf, level: usize, c: char)
    requires
        old(buf).wf(),
    ensures
        final(buf).wf(),
        final(buf).state() == put(layout(old(buf).state(), indent_chars(old(buf).options(), level as int)), seq![c]),
        final(buf).options() == old(buf).options(),
        final(buf).width() == old(buf).width(),
{
    buf.write_indent(level);
    buf.push(c);
}

fn compact_format_obj_into(
    buf: &mut FormatBuf,
    source: &str,
    r: Span,
    entries: &Vec<(Span, Value)>,
    depth: usize,
)
    requires
        old(buf).wf(),
        spans_ok(SpecValue::Object(r, view_entries(entries@)), source.spec_bytes()),
        nests_within(SpecValue::Object(r, view_entries(entries@)), usize::MAX - depth),
    ensures
        final(buf).wf(),
        final(buf).state() == put(
            layout(
                compact_entries(
                    layout(put(old(buf).state(), seq!['{']), delim_chars(old(buf).options())),
                    view_entries(entries@),
                    depth as int,
                    old(buf).options(),
                    old(buf).width(),
                    source.spec_bytes(),
                ),
                delim_chars(old(buf).options()),
            ),
            seq!['}'],
        ),
        final(buf).options() == old(buf).options(),
        final(buf).width() == old(buf).width(),
    decreases entries, 1int,
{
    let ghost t = source.spec_bytes();
    let ghost o = buf.options();
    let ghost w = buf.width();
    let ghost es = entries@;
    let ghost ves = view_entries(es);
    proof {
        lemma_view_entries_len(es);
        assert(view_entries(es.subrange(0, 0)) =~= Seq::<(Span, SpecValue)>::empty());
    }
    buf.push('{');
    buf.write_key_val_delimiter();
    let ghost st1 = buf.state();
    let mut i: usize = 0;
    while i < entries.len()
        invariant
            buf.wf(),
            buf.options() == o,
            buf.width() == w,
            t == source.spec_bytes(),
            es == entries@,
            ves == view_entries(es),
            i <= es.len(),
            spans_ok(SpecValue::Object(r, ves), t),
            nests_within(SpecValue::Object(r, ves), usize::MAX - depth),
            ves.len() == es.len(),
            forall|j: int| 0 <= j < es.len() ==> #[trigger] ves[j] == (es[j].0, es[j].1@),
            buf.state() == compact_entries(st1, view_entries(es.subrange(0, i as int)), depth as int, o, w, t),
        decreases es.len() - i,
    {
        let (k, v) = &entries[i];
        proof {
            assert(ves[i as int] == (es[i as int].0, es[i as int].1@));
            lemma_spans_ok_entry(r, ves, t, i as int);
            assert(nests_within(ves[i as int].1, usize::MAX - depth - 1));
            assert(decreases_to!(entries@ => entries@[i as int]));
            assert(decreases_to!(entries@[i as int] => entries@[i as int].1));
            lemma_view_entries_prefix(es, i as int);
        }
        if i > 0 {
            write_separator(buf);
        }
        write_object_entry_into(buf, source, *k, v, depth + 1);
        proof {
            let pre = view_entries(es.subrange(0, i as int));
            let post = view_entries(es.subrange(0, i + 1));
            assert(post.drop_last() =~= pre);
            assert(post.last() == (*k, v@));
            lemma_view_entries_len(es.subrange(0, i + 1));
        }
        i = i + 1;
    }
    proof {
        assert(es.subrange(0, es.len() as int) =~= es);
    }
    buf.write_key_val_delimiter();
    buf.push('}');
}

fn expanded_format_obj_into(
    buf: &mut FormatBuf,
    source: &str,
    r: Span,
    entries: &Vec<(Span, Value)>,
    depth: usize,
)
    requires
        old(buf).wf(),
        spans_ok(SpecValue::Object(r, view_entries(entries@)), source.spec_bytes()),
        nests_within(SpecValue::Object(r, view_entries(entries@)), usize::MAX - depth),
    ensures
        final(buf).wf(),
        final(buf).state() == put(
            layout(
                eol(
                    expanded_entries(
                        eol(put(old(buf).state(), seq!['{']), old(buf).options()),
                        view_entries(entries@),
                        depth as int,
                        old(buf).options(),
                        old(buf).width(),
                        source.spec_bytes(),
                    ),
                    old(buf).options(),
                ),
                indent_chars(old(buf).options(), depth as int),
            ),
            seq!['}'],
        ),
        final(buf).options() == old(buf).options(),
        final(buf).width() == old(buf).width(),
    decreases entries, 1int,
{
    let ghost t = source.spec_bytes();
    let ghost o = buf.options();
    let ghost w = buf.width();
    let ghost es = entries@;
    let ghost ves = view_entries(es);
    proof {
        lemma_view_entries_len(es);
        assert(view_entries(es.subrange(0, 0)) =~= Seq::<(Span, SpecValue)>::empty());
    }
    buf.push('{');
    buf.write_eol();
    let ghost st1 = buf.state();
    let mut i: usize = 0;
    while i < entries.len()
        invariant
            buf.wf(),
            buf.options() == o,
            buf.width() == w,
            t == source.spec_bytes(),
            es == entries@,
            ves == view_entries(es),
            i <= es.len(),
            spans_ok(SpecValue::Object(r, ves), t),
            nests_within(SpecValue::Object(r, ves), usize::MAX - depth),
            ves.len() == es.len(),
            forall|j: int| 0 <= j < es.len() ==> #[trigger] ves[j] == (es[j].0, es[j].1@),
            buf.state() == expanded_entries(st1, view_entries(es.subrange(0, i as int)), depth as int, o, w, t),
        decreases es.len() - i,
    {
        let (k, v) = &entries[i];
        proof {
            assert(ves[i as int] == (es[i as int].0, es[i as int].1@));
            lemma_spans_ok_entry(r, ves, t, i as int);
            assert(nests_within(ves[i as int].1, usize::MAX - depth - 1));
            assert(decreases_to!(entries@ => entries@[i as int]));
            assert(decreases_to!(entries@[i as int] => entries@[i as int].1));
            lemma_view_entries_prefix(es, i as int);
        }
        if i > 0 {
            buf.push(',');
            buf.write_eol();
        }
        buf.write_indent(depth + 1);
        write_object_entry_into(buf, source, *k, v, depth + 1);
        proof {
            let pre = view_entries(es.subrange(0, i as int));
            let post = view_entries(es.subrange(0, i + 1));
            assert(post.drop_last() =~= pre);
            assert(post.last() == (*k, v@));
            lemma_view_entries_len(es.subrange(0, i + 1));
        }
        i = i + 1;
    }
    proof {
        assert(es.subrange(0, es.len() as int) =~= es);
    }
    buf.write_eol();
    write_indented_close(buf, depth, '}');
}

fn compact_format_arr_into(buf: &mut FormatBuf, source: &str, r: Span, items: &Vec<Value>, depth: usize)
    requires
        old(buf).wf(),
        spans_ok(SpecValue::Array(r, view_items(items@)), source.spec_bytes()),
        nests_within(SpecValue::Array(r, view_items(items@)), usize::MAX - depth),
    ensures
        final(buf).wf(),
        final(buf).state() == put(
            compact_items(
                put(old(buf).state(), seq!['[']),
                view_items(items@),
                depth as int,
                old(buf).options(),
                old(buf).width(),
                source.spec_bytes(),
            ),
            seq![']'],
        ),
        final(buf).options() == old(buf).options(),
        final(buf).width() == old(buf).width(),
    decreases items, 1int,
{
    let ghost t = source.spec_bytes();
    let ghost o = buf.options();
    let ghost w = buf.width();
    let ghost xs = items@;
    let ghost vxs = view_items(xs);
    proof {
        lemma_view_items_len(xs);
        assert(view_items(xs.subrange(0, 0)) =~= Seq::<SpecValue>::empty());
    }
    buf.push('[');
    let ghost st1 = buf.state();
    let mut i: usize = 0;
    while i < items.len()
        invariant
            buf.wf(),
            buf.options() == o,
            buf.width() == w,
            t == source.spec_bytes(),
            xs == items@,
            vxs == view_items(xs),
            i <= xs.len(),
            spans_ok(SpecValue::Array(r, vxs), t),
            nests_within(SpecValue::Array(r, vxs), usize::MAX - depth),
            vxs.len() == xs.len(),
            forall|j: int| 0 <= j < xs.len() ==> #[trigger] vxs[j] == xs[j]@,
            buf.state() == compact_items(st1, view_items(xs.subrange(0, i as int)), depth as int, o, w, t),
        decreases xs.len() - i,
    {
        let v = &items[i];
        proof {
            assert(vxs[i as int] == xs[i as int]@);
            lemma_spans_ok_item(r, vxs, t, i as int);
            assert(nests_within(vxs[i as int], usize::MAX - depth - 1));
            assert(decreases_to!(items@ => items@[i as int]));
            lemma_view_items_prefix(xs, i as int);
        }
        if i > 0 {
            write_separator(buf);
        }
        format_value_into(buf, source, v, depth + 1);
        proof {
            let pre = view_items(xs.subrange(0, i as int));
            let post = view_items(xs.subrange(0, i + 1));
            assert(post.drop_last() =~= pre);
            assert(post.last() == v@);
            lemma_view_items_len(xs.subrange(0, i + 1));
        }
        i = i + 1;
    }
    proof {
        assert(xs.subrange(0, xs.len() as int) =~= xs);
    }
    buf.push(']');
}

fn expanded_format_arr_into(buf: &mut FormatBuf, source: &str, r: Span, items: &Vec<Value>, depth: usize)
    requires
        old(buf).wf(),
        spans_ok(SpecValue::Array(r, view_items(items@)), source.spec_bytes()),
        nests_within(SpecValue::Array(r, view_items(items@)), usize::MAX - depth),
    ensures
        final(buf).wf(),
        final(buf).state() == put(
            layout(
                eol(
                    expanded_items(
                        eol(put(old(buf).state(), seq!['[']), old(buf).options()),
                        view_items(items@),
                        depth as int,
                        old(buf).options(),
                        old(buf).width(),
                        source.spec_bytes(),
                    ),
                    old(buf).options(),
                ),
                indent_chars(old(buf).options(), depth as int),
            ),
            seq![']'],
        ),
        final(buf).options() == old(buf).options(),
        final(buf).width() == old(buf).width(),
    decreases items, 1int,
{
    let ghost t = source.spec_bytes();
    let ghost o = buf.options();
    let ghost w = buf.width();
    let ghost xs = items@;
    let ghost vxs = view_items(xs);
    proof {
        lemma_view_items_len(xs);
        assert(view_items(xs.subrange(0, 0)) =~= Seq::<SpecValue>::empty());
    }
    buf.push('[');
    buf.write_eol();
    let ghost st1 = buf.state();
    let mut i: usize = 0;
    while i < items.len()
        invariant
            buf.wf(),
            buf.options() == o,
            buf.width() == w,
            t == source.spec_bytes(),
            xs == items@,
            vxs == view_items(xs),
            i <= xs.len(),
            spans_ok(SpecValue::Array(r, vxs), t),
            nests_within(SpecValue::Array(r, vxs), usize::MAX - depth),
            vxs.len() == xs.len(),
            forall|j: int| 0 <= j < xs.len() ==> #[trigger] vxs[j] == xs[j]@,
            buf.state() == expanded_items(st1, view_items(xs.subrange(0, i as int)), depth as int, o, w, t),
        decreases xs.len() - i,
    {
        let v = &items[i];
        proof {
            assert(vxs[i as int] == xs[i as int]@);
            lemma_spans_ok_item(r, vxs, t, i as int);
            assert(nests_within(vxs[i as int], usize::MAX - depth - 1));
            assert(decreases_to!(items@ => items@[i as int]));
            lemma_view_items_prefix(xs, i as int);
        }
        if i > 0 {
            buf.push(',');
            buf.write_eol();
        }
        buf.write_indent(depth + 1);
        format_value_into(buf, source, v, depth + 1);
        proof {
            let pre = view_items(xs.subrange(0, i as int));
            let post = view_items(xs.subrange(0, i + 1));
            assert(post.drop_last() =~= pre);
            assert(post.last() == v@);
            lemma_view_items_len(xs.subrange(0, i + 1));
        }
        i = i + 1;
    }
    proof {
        assert(xs.subrange(0, xs.len() as int) =~= xs);
    }
    buf.write_eol();
    write_indented_close(buf, depth, ']');
}

/// whether number `val`, its comma and `trailing` more bytes would pass
/// `available`
fn number_overflows(val: &Value, trailing: usize, available: usize, t: Ghost<Seq<u8>>, d: Ghost<nat>) -> (res: bool)
    requires
        val is Number,
        trailing <= 1,
        spans_ok(val@, t@),
    ensures
        res == (inline_len(val@, t@, d@) + 1 + trailing > available),
{
    match val {
        Value::Number { mantissa, exponent } => {
            let m = mantissa.end - mantissa.start;
            let len = match exponent {
                Some(e) => sum3(m, 1, e.end - e.start),
                None => Some(m),
            };
            match len {
                Some(n) => match sum3(n, 1, trailing) {
                    Some(total) => total > available,
                    None => true,
                },
                None => true,
            }
        },
        _ => true,
    }
}

fn fill_format_arr_into(buf: &mut FormatBuf, source: &str, r: Span, items: &Vec<Value>, depth: usize)
    requires
        old(buf).wf(),
        spans_ok(SpecValue::Array(r, view_items(items@)), source.spec_bytes()),
        nests_within(SpecValue::Array(r, view_items(items@)), usize::MAX - depth),
        all_numbers(view_items(items@)),
    ensures
        final(buf).wf(),
        final(buf).state() == put(
            layout(
                eol(
                    fill_items(
                        layout(
                            eol(put(old(buf).state(), seq!['[']), old(buf).options()),
                            indent_chars(old(buf).options(), depth + 1),
                        ),
                        view_items(items@),
                        items@.len() as int,
                        depth as int,
                        old(buf).options(),
                        old(buf).width(),
                        source.spec_bytes(),
                    ),
                    old(buf).options(),
                ),
                indent_chars(old(buf).options(), depth as int),
            ),
            seq![']'],
        ),
        final(buf).options() == old(buf).options(),
        final(buf).width() == old(buf).width(),
    decreases items, 1int,
{
    let ghost t = source.spec_bytes();
    let ghost o = buf.options();
    let ghost w = buf.width();
    let ghost xs = items@;
    let ghost vxs = view_items(xs);
    let ghost n = xs.len() as int;
    proof {
        lemma_view_items_len(xs);
        assert(view_items(xs.subrange(0, 0)) =~= Seq::<SpecValue>::empty());
    }
    buf.push('[');
    buf.write_eol();
    buf.write_indent(depth + 1);
    let ghost st1 = buf.state();
    let delimiter_len = buf.delimiter_len();
    let mut i: usize = 0;
    while i < items.len()
        invariant
            buf.wf(),
            buf.options() == o,
            buf.width() == w,
            delimiter_len == delim_len(o),
            t == source.spec_bytes(),
            xs == items@,
            vxs == view_items(xs),
            n == xs.len(),
            i <= xs.len(),
            spans_ok(SpecValue::Array(r, vxs), t),
            nests_within(SpecValue::Array(r, vxs), usize::MAX - depth),
            all_numbers(vxs),
            vxs.len() == xs.len(),
            forall|j: int| 0 <= j < xs.len() ==> #[trigger] vxs[j] == xs[j]@,
            buf.state() == fill_items(st1, view_items(xs.subrange(0, i as int)), n, depth as int, o, w, t),
        decreases xs.len() - i,
    {
        let v = &items[i];
        proof {
            assert(vxs[i as int] == xs[i as int]@);
            assert(vxs[i as int] is Number);
            lemma_spans_ok_item(r, vxs, t, i as int);
            assert(nests_within(vxs[i as int], usize::MAX - depth - 1));
            assert(decreases_to!(items@ => items@[i as int]));
            lemma_view_items_prefix(xs, i as int);
        }
        if i > 0 {
            buf.push(',');
            let trailing: usize = if i + 1 < items.len() {
                1
            } else {
                0
            };
            let available = buf.available_bytes();
            if number_overflows(v, trailing, available, Ghost(t), Ghost(delimiter_len as nat)) {
                buf.write_eol();
                buf.write_indent(depth + 1);
            } else {
                buf.write_key_val_delimiter();
            }
        }
        format_value_into(buf, source, v, depth + 1);
        proof {
            let pre = view_items(xs.subrange(0, i as int));
            let post = view_items(xs.subrange(0, i + 1));
            assert(post.drop_last() =~= pre);
            assert(post.last() == v@);
            lemma_view_items_len(xs.subrange(0, i + 1));
            assert(post[i as int] == v@);
        }
        i = i + 1;
    }
    proof {
        assert(xs.subrange(0, xs.len() as int) =~= xs);
    }
    buf.write_eol();
    write_indented_close(buf, depth, ']');
}

/// the value of the JSON text with bytes `t` laid out by `o` for preferred
/// width `w`, when `t` is one JSON value
pub open spec fn formatted(t: Seq<u8>, o: FormatOptions, w: int) -> Option<Seq<char>> {
    match parse_whole(t) {
        PVal::Done(v, _) => Some(fmt_value(fresh(), v, 0, o, w, t).out),
        PVal::Failed(_, _) => None,
    }
}

/// `json` laid out by `options` for `preferred_width`, when it is one JSON
/// value
pub fn format_str(json: &str, options: FormatOptions, preferred_width: usize) -> (res: Result<
    String,
    Error,
>)
    ensures
        match formatted(json.spec_bytes(), options, preferred_width as int) {
            Some(out) => res matches Ok(s) && s@ == out,
            None => res is Err,
        },
        parse_whole(json.spec_bytes()) matches PVal::Failed(f, site) ==> res matches Err(e) && fails(
            e,
            f,
            site,
            json.spec_bytes(),
        ),
        res matches Err(e) ==> diagnosable(e),
{
    match Document::parse(json) {
        Ok(doc) => {
            proof {
                doc.lemma_wf();
                lemma_nests_within_more(doc.spec_root(), MAX_DEPTH as int, usize::MAX as int);
            }
            Ok(format_value(json, doc.root(), &options, preferred_width))
        },
        Err(e) => Err(e),
    }
}

/// `val`, a value of `source`, laid out by `options` for `preferred_width`
pub fn format_value(source: &str, val: &Value, options: &FormatOptions, preferred_width: usize) -> (res:
    String)
    requires
        spans_ok(val@, source.spec_bytes()),
        nests_within(val@, usize::MAX as int),
    ensures
        res@ == fmt_value(fresh(), val@, 0, *options, preferred_width as int, source.spec_bytes()).out,
{
    let mut buf = FormatBuf::new(String::new(), *options, preferred_width);
    proof {
        assert(encode_utf8(Seq::<char>::empty()) =~= Seq::<u8>::empty());
        assert(buf.state() == fresh());
    }
    format_value_into(&mut buf, source, val, 0);
    buf.into_inner()
}

/// `json` laid out prettily for `preferred_width`, when it is one JSON value
pub fn prettify_str(json: &str, preferred_width: usize, line_ending: LineEnding) -> (res: Result<
    String,
    Error,
>)
    ensures
        match formatted(json.spec_bytes(), pretty_options(line_ending), preferred_width as int) {
            Some(out) => res matches Ok(s) && s@ == out,
            None => res is Err,
        },
        parse_whole(json.spec_bytes()) matches PVal::Failed(f, site) ==> res matches Err(e) && fails(
            e,
            f,
            site,
            json.spec_bytes(),
        ),
        res matches Err(e) ==> diagnosable(e),
{
    format_str(json, FormatOptions::prettify(line_ending), preferred_width)
}

/// `val`, a value of `source`, laid out prettily for `preferred_width`
pub fn prettify_value(source: &str, val: &Value, preferred_width: usize, line_ending: LineEnding) -> (res:
    String)
    requires
        spans_ok(val@, source.spec_bytes()),
        nests_within(val@, usize::MAX as int),
    ensures
        res@ == fmt_value(
            fresh(),
            val@,
            0,
            pretty_options(line_ending),
            preferred_width as int,
            source.spec_bytes(),
        ).out,
{
    format_value(source, val, &FormatOptions::prettify(line_ending), preferred_width)
}

/// writes `val`, a value of `source`, prettily after what `buf` holds, all of
/// which counts towards the width of the first line
pub fn prettify_value_into(
    buf: &mut String,
    source: &str,
    val: &Value,
    preferred_width: usize,
    line_ending: LineEnding,
)
    requires
        spans_ok(val@, source.spec_bytes()),
        nests_within(val@, usize::MAX as int),
    ensures
        final(buf)@ == fmt_value(
            FmtState { out: old(buf)@, col: blen(old(buf)@), sig: Seq::empty() },
            val@,
            0,
            pretty_options(line_ending),
            preferred_width as int,
            source.spec_bytes(),
        ).out,
        old(buf)@.is_prefix_of(final(buf)@),
{
    proof {
        lemma_layout_keeps_prefix(
            FmtState { out: buf@, col: blen(buf@), sig: Seq::empty() },
            val@,
            0,
            pretty_options(line_ending),
            preferred_width as int,
            source.spec_bytes(),
        );
    }
    let mut taken = String::new();
    std::mem::swap(&mut taken, buf);
    let mut fmt_buf = FormatBuf::new(taken, FormatOptions::prettify(line_ending), preferred_width);
    format_value_into(&mut fmt_buf, source, val, 0);
    *buf = fmt_buf.into_inner();
}

proof fn lemma_render_one(e: Event)
    ensures
        render(seq![e]) == event_text(e),
{
    lemma_render_push(Seq::empty(), e);
    assert(Seq::<Event>::empty().push(e) =~= seq![e]);
    assert(render(Seq::<Event>::empty()) =~= Seq::<char>::empty());
    assert(Seq::<char>::empty() + event_text(e) =~= event_text(e));
}

proof fn lemma_render_three(a: Seq<Event>, b: Seq<Event>, c: Seq<Event>)
    ensures
        render(a + b + c) == render(a) + render(b) + render(c),
{
    lemma_render_concat(a + b, c);
    lemma_render_concat(a, b);
}

/// Laying out value `v` of the text with bytes `t`, in any layout, at any
/// width, depth and column, writes besides layout exactly the compact text of
/// `v`: pretty text differs from compact text only by the delimiters,
/// indentation and line endings put between tokens.
pub proof fn lemma_layout_keeps_text(
    st: FmtState,
    v: SpecValue,
    depth: int,
    o: FormatOptions,
    w: int,
    t: Seq<u8>,
)
    ensures
        fmt_value(st, v, depth, o, w, t).sig == st.sig + render(value_events(v, t)),
    decreases v, 0int,
{
    match v {
        SpecValue::Object(r, entries) => {
            let open = seq![Event::ObjectOpen(open_span(r))];
            let close = seq![Event::ObjectClose(close_span(r))];
            let body = entries_events(entries, t);
            lemma_render_three(open, body, close);
            lemma_render_one(Event::ObjectOpen(open_span(r)));
            lemma_render_one(Event::ObjectClose(close_span(r)));
            if entries.len() == 0 {
                assert(body =~= Seq::<Event>::empty());
                assert(render(body) =~= Seq::<char>::empty());
                assert(st.sig + seq!['{', '}'] =~= st.sig + (seq!['{'] + render(body) + seq!['}']));
            } else if inline_len(v, t, delim_len(o)) <= available(st, w) {
                let s1 = layout(put(st, seq!['{']), delim_chars(o));
                lemma_compact_entries_text(s1, entries, depth, o, w, t);
                assert(fmt_value(st, v, depth, o, w, t).sig =~= st.sig + (seq!['{'] + render(body)
                    + seq!['}']));
            } else {
                let s1 = eol(put(st, seq!['{']), o);
                lemma_expanded_entries_text(s1, entries, depth, o, w, t);
                assert(fmt_value(st, v, depth, o, w, t).sig =~= st.sig + (seq!['{'] + render(body)
                    + seq!['}']));
            }
        },
        SpecValue::Array(r, items) => {
            let open = seq![Event::ArrayOpen(open_span(r))];
            let close = seq![Event::ArrayClose(close_span(r))];
            let body = items_events(items, t);
            lemma_render_three(open, body, close);
            lemma_render_one(Event::ArrayOpen(open_span(r)));
            lemma_render_one(Event::ArrayClose(close_span(r)));
            if items.len() == 0 {
                assert(body =~= Seq::<Event>::empty());
                assert(render(body) =~= Seq::<char>::empty());
                assert(st.sig + seq!['[', ']'] =~= st.sig + (seq!['['] + render(body) + seq![']']));
            } else if inline_len(v, t, delim_len(o)) <= available(st, w) {
                lemma_compact_items_text(put(st, seq!['[']), items, depth, o, w, t);
                assert(fmt_value(st, v, depth, o, w, t).sig =~= st.sig + (seq!['['] + render(body)
                    + seq![']']));
            } else if all_numbers(items) {
                let s1 = layout(eol(put(st, seq!['[']), o), indent_chars(o, depth + 1));
                lemma_fill_items_text(s1, items, items.len() as int, depth, o, w, t);
                assert(fmt_value(st, v, depth, o, w, t).sig =~= st.sig + (seq!['['] + render(body)
                    + seq![']']));
            } else {
                lemma_expanded_items_text(eol(put(st, seq!['[']), o), items, depth, o, w, t);
                assert(fmt_value(st, v, depth, o, w, t).sig =~= st.sig + (seq!['['] + render(body)
                    + seq![']']));
            }
        },
        SpecValue::Number(m, e) => {
            let me = Event::Mantissa(m, slice_chars(t, m));
            match e {
                Some(x) => {
                    let xe = Event::Exponent(x, slice_chars(t, x));
                    lemma_render_push(seq![me], xe);
                    lemma_render_one(me);
                    assert(value_events(v, t) =~= seq![me].push(xe));
                    assert(render(value_events(v, t)) =~= scalar_chars(v, t));
                },
                None => {
                    lemma_render_one(me);
                    assert(render(value_events(v, t)) =~= scalar_chars(v, t));
                },
            }
        },
        SpecValue::Null(r) => {
            lemma_render_one(Event::Null(r));
        },
        SpecValue::Str(r) => {
            lemma_render_one(Event::String(r, slice_chars(t, r)));
        },
        SpecValue::Bool(r, b) => {
            lemma_render_one(Event::Boolean(r, b));
        },
    }
}

proof fn lemma_entry_text(
    st: FmtState,
    k: Span,
    v: SpecValue,
    depth: int,
    o: FormatOptions,
    w: int,
    t: Seq<u8>,
)
    ensures
        fmt_entry(st, k, v, depth, o, w, t).sig == st.sig + render(
            seq![Event::ObjectKey(k, slice_chars(t, k)), Event::ObjectKeyValDelim],
        ) + render(value_events(v, t)),
    decreases v, 1int,
{
    let s1 = layout(put(st, quoted(slice_chars(t, k)) + seq![':']), delim_chars(o));
    lemma_layout_keeps_text(s1, v, depth, o, w, t);
    lemma_render_push(seq![Event::ObjectKey(k, slice_chars(t, k))], Event::ObjectKeyValDelim);
    lemma_render_one(Event::ObjectKey(k, slice_chars(t, k)));
    assert(seq![Event::ObjectKey(k, slice_chars(t, k))].push(Event::ObjectKeyValDelim) =~= seq![
        Event::ObjectKey(k, slice_chars(t, k)),
        Event::ObjectKeyValDelim,
    ]);
    assert(s1.sig =~= st.sig + render(
        seq![Event::ObjectKey(k, slice_chars(t, k)), Event::ObjectKeyValDelim],
    ));
}

/// the text between two entries or items: a comma after the first
proof fn lemma_delim_text(n: int)
    ensures
        render(
            if n > 1 {
                seq![Event::ItemDelim]
            } else {
                Seq::<Event>::empty()
            },
        ) == if n > 1 {
            seq![',']
        } else {
            Seq::<char>::empty()
        },
{
    lemma_render_one(Event::ItemDelim);
    assert(render(Seq::<Event>::empty()) =~= Seq::<char>::empty());
}

proof fn lemma_compact_entries_text(
    st: FmtState,
    entries: Seq<(Span, SpecValue)>,
    depth: int,
    o: FormatOptions,
    w: int,
    t: Seq<u8>,
)
    ensures
        compact_entries(st, entries, depth, o, w, t).sig == st.sig + render(entries_events(entries, t)),
    decreases entries, 0int,
{
    if entries.len() == 0 {
        assert(render(Seq::<Event>::empty()) =~= Seq::<char>::empty());
        assert(st.sig + Seq::<char>::empty() =~= st.sig);
    } else {
        let (k, v) = entries.last();
        let prev = entries_events(entries.drop_last(), t);
        let sep = if entries.len() > 1 {
            seq![Event::ItemDelim]
        } else {
            Seq::<Event>::empty()
        };
        let kv = seq![Event::ObjectKey(k, slice_chars(t, k)), Event::ObjectKeyValDelim];
        let s1 = compact_entries(st, entries.drop_last(), depth, o, w, t);
        lemma_compact_entries_text(st, entries.drop_last(), depth, o, w, t);
        let s2 = if entries.len() > 1 {
            layout(put(s1, seq![',']), delim_chars(o))
        } else {
            s1
        };
        lemma_entry_text(s2, k, v, depth + 1, o, w, t);
        lemma_delim_text(entries.len() as int);
        lemma_render_three(prev, sep, kv);
        lemma_render_concat(prev + sep + kv, value_events(v, t));
        assert(compact_entries(st, entries, depth, o, w, t).sig =~= st.sig + render(
            entries_events(entries, t),
        ));
    }
}

proof fn lemma_expanded_entries_text(
    st: FmtState,
    entries: Seq<(Span, SpecValue)>,
    depth: int,
    o: FormatOptions,
    w: int,
    t: Seq<u8>,
)
    ensures
        expanded_entries(st, entries, depth, o, w, t).sig == st.sig + render(entries_events(entries, t)),
    decreases entries, 0int,
{
    if entries.len() == 0 {
        assert(render(Seq::<Event>::empty()) =~= Seq::<char>::empty());
        assert(st.sig + Seq::<char>::empty() =~= st.sig);
    } else {
        let (k, v) = entries.last();
        let prev = entries_events(entries.drop_last(), t);
        let sep = if entries.len() > 1 {
            seq![Event::ItemDelim]
        } else {
            Seq::<Event>::empty()
        };
        let kv = seq![Event::ObjectKey(k, slice_chars(t, k)), Event::ObjectKeyValDelim];
        let s1 = expanded_entries(st, entries.drop_last(), depth, o, w, t);
        lemma_expanded_entries_text(st, entries.drop_last(), depth, o, w, t);
        let s2 = if entries.len() > 1 {
            eol(put(s1, seq![',']), o)
        } else {
            s1
        };
        lemma_entry_text(layout(s2, indent_chars(o, depth + 1)), k, v, depth + 1, o, w, t);
        lemma_delim_text(entries.len() as int);
        lemma_render_three(prev, sep, kv);
        lemma_render_concat(prev + sep + kv, value_events(v, t));
        assert(expanded_entries(st, entries, depth, o, w, t).sig =~= st.sig + render(
            entries_events(entries, t),
        ));
    }
}

proof fn lemma_compact_items_text(
    st: FmtState,
    items: Seq<SpecValue>,
    depth: int,
    o: FormatOptions,
    w: int,
    t: Seq<u8>,
)
    ensures
        compact_items(st, items, depth, o, w, t).sig == st.sig + render(items_events(items, t)),
    decreases items, 0int,
{
    if items.len() == 0 {
        assert(render(Seq::<Event>::empty()) =~= Seq::<char>::empty());
        assert(st.sig + Seq::<char>::empty() =~= st.sig);
    } else {
        let v = items.last();
        let prev = items_events(items.drop_last(), t);
        let sep = if items.len() > 1 {
            seq![Event::ItemDelim]
        } else {
            Seq::<Event>::empty()
        };
        let s1 = compact_items(st, items.drop_last(), depth, o, w, t);
        lemma_compact_items_text(st, items.drop_last(), depth, o, w, t);
        let s2 = if items.len() > 1 {
            layout(put(s1, seq![',']), delim_chars(o))
        } else {
            s1
        };
        lemma_layout_keeps_text(s2, v, depth + 1, o, w, t);
        lemma_delim_text(items.len() as int);
        lemma_render_three(prev, sep, value_events(v, t));
        assert(compact_items(st, items, depth, o, w, t).sig =~= st.sig + render(
            items_events(items, t),
        ));
    }
}

proof fn lemma_expanded_items_text(
    st: FmtState,
    items: Seq<SpecValue>,
    depth: int,
    o: FormatOptions,
    w: int,
    t: Seq<u8>,
)
    ensures
        expanded_items(st, items, depth, o, w, t).sig == st.sig + render(items_events(items, t)),
    decreases items, 0int,
{
    if items.len() == 0 {
        assert(render(Seq::<Event>::empty()) =~= Seq::<char>::empty());
        assert(st.sig + Seq::<char>::empty() =~= st.sig);
    } else {
        let v = items.last();
        let prev = items_events(items.drop_last(), t);
        let sep = if items.len() > 1 {
            seq![Event::ItemDelim]
        } else {
            Seq::<Event>::empty()
        };
        let s1 = expanded_items(st, items.drop_last(), depth, o, w, t);
        lemma_expanded_items_text(st, items.drop_last(), depth, o, w, t);
        let s2 = if items.len() > 1 {
            eol(put(s1, seq![',']), o)
        } else {
            s1
        };
        lemma_layout_keeps_text(layout(s2, indent_chars(o, depth + 1)), v, depth + 1, o, w, t);
        lemma_delim_text(items.len() as int);
        lemma_render_three(prev, sep, value_events(v, t));
        assert(expanded_items(st, items, depth, o, w, t).sig =~= st.sig + render(
            items_events(items, t),
        ));
    }
}

proof fn lemma_fill_items_text(
    st: FmtState,
    items: Seq<SpecValue>,
    n: int,
    depth: int,
    o: FormatOptions,
    w: int,
    t: Seq<u8>,
)
    ensures
        fill_items(st, items, n, depth, o, w, t).sig == st.sig + render(items_events(items, t)),
    decreases items, 0int,
{
    if items.len() == 0 {
        assert(render(Seq::<Event>::empty()) =~= Seq::<char>::empty());
        assert(st.sig + Seq::<char>::empty() =~= st.sig);
    } else {
        let i = items.len() - 1;
        let v = items[i];
        let prev = items_events(items.drop_last(), t);
        let sep = if items.len() > 1 {
            seq![Event::ItemDelim]
        } else {
            Seq::<Event>::empty()
        };
        let s1 = fill_items(st, items.drop_last(), n, depth, o, w, t);
        lemma_fill_items_text(st, items.drop_last(), n, depth, o, w, t);
        let s2 = if i > 0 {
            let s = put(s1, seq![',']);
            let trailing: int = if i + 1 < n {
                1
            } else {
                0
            };
            if inline_len(items[i], t, delim_len(o)) + 1 + trailing > available(s, w) {
                layout(eol(s, o), indent_chars(o, depth + 1))
            } else {
                layout(s, delim_chars(o))
            }
        } else {
            s1
        };
        lemma_layout_keeps_text(s2, v, depth + 1, o, w, t);
        lemma_delim_text(items.len() as int);
        lemma_render_three(prev, sep, value_events(v, t));
        assert(items.last() == v);
        assert(fill_items(st, items, n, depth, o, w, t).sig =~= st.sig + render(
            items_events(items, t),
        ));
    }
}

/// The significant text of the pretty layout of a JSON text is its compact
/// text: prettifying adds only delimiters, indentation and line endings between
/// the tokens that compact writing keeps.
pub proof fn lemma_pretty_text_is_compact_text(t: Seq<u8>, o: FormatOptions, w: int, v: SpecValue, c: int)
    requires
        parse_whole(t) == PVal::Done(v, c),
    ensures
        fmt_value(fresh(), v, 0, o, w, t).sig == uglified(t).unwrap(),
{
    lemma_layout_keeps_text(fresh(), v, 0, o, w, t);
    assert(Seq::<char>::empty() + render(value_events(v, t)) =~= render(value_events(v, t)));
}

/// every byte is ASCII
pub open spec fn ascii_text(t: Seq<u8>) -> bool {
    forall|i: int| 0 <= i < t.len() ==> t[i] < 0x80
}

/// the delimiter, if there is one, is an ASCII char, one byte wide
pub open spec fn ascii_delimiter(o: FormatOptions) -> bool {
    match o.key_val_delimiter {
        Some((c, _)) => (c as u32) < 0x80,
        None => true,
    }
}

/// `v` written on one line: the text laid out when it fits on the current line
pub open spec fn inline_text(v: SpecValue, t: Seq<u8>, o: FormatOptions) -> Seq<char>
    decreases v, 0int,
{
    match v {
        SpecValue::Object(_, entries) => if entries.len() == 0 {
            seq!['{', '}']
        } else {
            seq!['{'] + delim_chars(o) + entries_inline_text(entries, t, o) + delim_chars(o) + seq!['}']
        },
        SpecValue::Array(_, items) => if items.len() == 0 {
            seq!['[', ']']
        } else {
            seq!['['] + items_inline_text(items, t, o) + seq![']']
        },
        _ => scalar_chars(v, t),
    }
}

/// entries written on one line, a comma and the delimiter before each but the first
pub open spec fn entries_inline_text(entries: Seq<(Span, SpecValue)>, t: Seq<u8>, o: FormatOptions) -> Seq<
    char,
>
    decreases entries, 0int,
{
    if entries.len() == 0 {
        Seq::empty()
    } else {
        let (k, v) = entries.last();
        entries_inline_text(entries.drop_last(), t, o) + (if entries.len() > 1 {
            seq![','] + delim_chars(o)
        } else {
            Seq::empty()
        }) + quoted(slice_chars(t, k)) + seq![':'] + delim_chars(o) + inline_text(v, t, o)
    }
}

/// items written on one line, a comma and the delimiter before each but the first
pub open spec fn items_inline_text(items: Seq<SpecValue>, t: Seq<u8>, o: FormatOptions) -> Seq<char>
    decreases items, 0int,
{
    if items.len() == 0 {
        Seq::empty()
    } else {
        items_inline_text(items.drop_last(), t, o) + (if items.len() > 1 {
            seq![','] + delim_chars(o)
        } else {
            Seq::empty()
        }) + inline_text(items.last(), t, o)
    }
}

proof fn lemma_blen_ascii(cs: Seq<char>)
    requires
        is_ascii_chars(cs),
    ensures
        blen(cs) == cs.len(),
{
    is_ascii_chars_encode_utf8(cs);
}

/// chars whose encoding is ASCII are one byte each
proof fn lemma_ascii_encoding(cs: Seq<char>)
    requires
        forall|i: int| 0 <= i < encode_utf8(cs).len() ==> encode_utf8(cs)[i] < 0x80,
    ensures
        blen(cs) == cs.len(),
    decreases cs.len(),
{
    if cs.len() > 0 {
        let v = cs[0] as u32;
        char_is_scalar(cs[0]);
        let e = encode_scalar(v);
        assert(encode_utf8(cs) == e + encode_utf8(cs.drop_first()));
        assert(encode_utf8(cs)[0] == e[0]);
        if has_width_2_encoding(v) {
            assert(leading_byte_width_2(v) >= 0xC0) by (bit_vector);
        } else if has_width_3_encoding(v) {
            assert(leading_byte_width_3(v) >= 0xE0) by (bit_vector);
        } else if has_width_4_encoding(v) {
            assert(leading_byte_width_4(v) >= 0xF0) by (bit_vector);
        }
        assert(has_width_1_encoding(v));
        assert(e.len() == 1);
        assert forall|i: int| 0 <= i < encode_utf8(cs.drop_first()).len() implies encode_utf8(
            cs.drop_first(),
        )[i] < 0x80 by {
            assert(encode_utf8(cs)[i + 1] == encode_utf8(cs.drop_first())[i]);
        }
        lemma_ascii_encoding(cs.drop_first());
    }
}

/// `n` copies of an ASCII char take `n` bytes
proof fn lemma_blen_repeat(c: char, n: int)
    requires
        (c as u32) < 0x80,
        n >= 0,
    ensures
        blen(repeat_char(c, n)) == n,
    decreases n,
{
    if n == 0 {
        assert(repeat_char(c, 0) =~= Seq::<char>::empty());
    } else {
        lemma_blen_repeat(c, n - 1);
        assert(repeat_char(c, n - 1) + seq![c] =~= repeat_char(c, n));
        lemma_encode_concat(repeat_char(c, n - 1), seq![c]);
        char_is_scalar(c);
        assert(encode_utf8(seq![c]) == encode_scalar(c as u32) + encode_utf8(seq![c].drop_first()));
        assert(seq![c].drop_first() =~= Seq::<char>::empty());
    }
}

/// the chars of an ASCII range of an ASCII text: one per byte, each one byte wide
proof fn lemma_ascii_slice(t: Seq<u8>, r: Span)
    requires
        ascii_text(t),
        r.start <= r.end <= t.len(),
    ensures
        slice_chars(t, r).len() == span_len(r),
        blen(slice_chars(t, r)) == span_len(r),
{
    let b = t.subrange(r.start as int, r.end as int);
    lemma_ascii_valid(b);
    decode_utf8_encode_utf8(b);
    let cs = decode_utf8(b);
    assert(encode_utf8(cs) == b);
    lemma_ascii_encoding(cs);
}

proof fn lemma_delim_ascii(o: FormatOptions)
    requires
        ascii_delimiter(o),
    ensures
        blen(delim_chars(o)) == delim_len(o),
        delim_chars(o).len() == delim_len(o),
{
    match o.key_val_delimiter {
        Some((c, n)) => {
            assert(n * 1 == n);
            lemma_blen_repeat(c, n as int);
        },
        None => {
            assert(encode_utf8(Seq::<char>::empty()) =~= Seq::<u8>::empty());
        },
    }
}

proof fn lemma_literal_widths()
    ensures
        blen(seq!['{']) == 1,
        blen(seq!['}']) == 1,
        blen(seq!['[']) == 1,
        blen(seq![']']) == 1,
        blen(seq![',']) == 1,
        blen(seq![':']) == 1,
        blen(seq!['"']) == 1,
        blen(seq!['e']) == 1,
        blen(null_chars()) == 4,
        blen(bool_chars(true)) == 4,
        blen(bool_chars(false)) == 5,
{
    lemma_blen_ascii(seq!['{']);
    lemma_blen_ascii(seq!['}']);
    lemma_blen_ascii(seq!['[']);
    lemma_blen_ascii(seq![']']);
    lemma_blen_ascii(seq![',']);
    lemma_blen_ascii(seq![':']);
    lemma_blen_ascii(seq!['"']);
    lemma_blen_ascii(seq!['e']);
    lemma_blen_ascii(null_chars());
    lemma_blen_ascii(bool_chars(true));
    lemma_blen_ascii(bool_chars(false));
}

/// A value that fits in what is left of the preferred width is written on the
/// current line, as its one-line text, when the text and the delimiter are
/// ASCII: then a column counts chars, as the length a value is measured by
/// does.
pub proof fn lemma_fitting_value_on_one_line(
    st: FmtState,
    v: SpecValue,
    depth: int,
    o: FormatOptions,
    w: int,
    t: Seq<u8>,
)
    requires
        ascii_text(t),
        ascii_delimiter(o),
        spans_ok(v, t),
        st.col + inline_len(v, t, delim_len(o)) <= w,
    ensures
        fmt_value(st, v, depth, o, w, t).out == st.out + inline_text(v, t, o),
        fmt_value(st, v, depth, o, w, t).col == st.col + inline_len(v, t, delim_len(o)),
    decreases v, 0int,
{
    lemma_literal_widths();
    lemma_delim_ascii(o);
    let d = delim_len(o);
    match v {
        SpecValue::Object(_, entries) => {
            if entries.len() == 0 {
                lemma_blen_ascii(seq!['{', '}']);
            } else {
                let s1 = layout(put(st, seq!['{']), delim_chars(o));
                lemma_entries_on_one_line(s1, entries, depth, o, w, t);
                let s2 = compact_entries(s1, entries, depth, o, w, t);
                assert(put(layout(s2, delim_chars(o)), seq!['}']).out =~= st.out + inline_text(v, t, o));
            }
        },
        SpecValue::Array(_, items) => {
            if items.len() == 0 {
                lemma_blen_ascii(seq!['[', ']']);
            } else {
                let s1 = put(st, seq!['[']);
                lemma_items_on_one_line(s1, items, depth, o, w, t);
                let s2 = compact_items(s1, items, depth, o, w, t);
                assert(put(s2, seq![']']).out =~= st.out + inline_text(v, t, o));
            }
        },
        SpecValue::Str(r) => {
            lemma_ascii_slice(t, r);
            lemma_encode_concat(seq!['"'], slice_chars(t, r));
            lemma_encode_concat(seq!['"'] + slice_chars(t, r), seq!['"']);
        },
        SpecValue::Number(m, e) => {
            lemma_ascii_slice(t, m);
            match e {
                Some(x) => {
                    lemma_ascii_slice(t, x);
                    lemma_encode_concat(seq!['e'], slice_chars(t, x));
                    lemma_encode_concat(slice_chars(t, m), seq!['e'] + slice_chars(t, x));
                },
                None => {
                    assert(slice_chars(t, m) + Seq::<char>::empty() =~= slice_chars(t, m));
                },
            }
        },
        _ => {},
    }
}

proof fn lemma_entries_on_one_line(
    st: FmtState,
    entries: Seq<(Span, SpecValue)>,
    depth: int,
    o: FormatOptions,
    w: int,
    t: Seq<u8>,
)
    requires
        ascii_text(t),
        ascii_delimiter(o),
        entries_ok(entries, t),
        st.col + entries_inline_len(entries, t, delim_len(o)) <= w,
    ensures
        compact_entries(st, entries, depth, o, w, t).out == st.out + entries_inline_text(entries, t, o),
        compact_entries(st, entries, depth, o, w, t).col == st.col + entries_inline_len(
            entries,
            t,
            delim_len(o),
        ),
    decreases entries, 0int,
{
    lemma_literal_widths();
    lemma_delim_ascii(o);
    if entries.len() == 0 {
        assert(st.out + Seq::<char>::empty() =~= st.out);
    } else {
        let d = delim_len(o);
        let (k, v) = entries.last();
        let pre = entries.drop_last();
        assert forall|i: int| 0 <= i < pre.len() implies span_ok(t, (#[trigger] pre[i]).0) && spans_ok(
            pre[i].1,
            t,
        ) by {
            assert(pre[i] == entries[i]);
        }
        assert(entries_ok(pre, t));
        lemma_entries_on_one_line(st, pre, depth, o, w, t);
        let s1 = compact_entries(st, pre, depth, o, w, t);
        let s2 = if entries.len() > 1 {
            layout(put(s1, seq![',']), delim_chars(o))
        } else {
            s1
        };
        assert(entries[entries.len() - 1] == (k, v));
        assert(span_ok(t, k) && spans_ok(v, t));
        lemma_ascii_slice(t, k);
        let key = quoted(slice_chars(t, k)) + seq![':'];
        lemma_encode_concat(seq!['"'], slice_chars(t, k));
        lemma_encode_concat(seq!['"'] + slice_chars(t, k), seq!['"']);
        lemma_encode_concat(quoted(slice_chars(t, k)), seq![':']);
        let s3 = layout(put(s2, key), delim_chars(o));
        lemma_fitting_value_on_one_line(s3, v, depth + 1, o, w, t);
        assert(compact_entries(st, entries, depth, o, w, t) == fmt_entry(s2, k, v, depth + 1, o, w, t));
        assert(fmt_entry(s2, k, v, depth + 1, o, w, t) == fmt_value(s3, v, depth + 1, o, w, t));
        assert(s3.col == st.col + entries_inline_len(pre, t, delim_len(o)) + (if entries.len() > 1 {
            1 + d
        } else {
            0
        }) + span_len(k) + 3 + d);
        assert(compact_entries(st, entries, depth, o, w, t).out =~= st.out + entries_inline_text(
            entries,
            t,
            o,
        ));
    }
}

proof fn lemma_items_on_one_line(
    st: FmtState,
    items: Seq<SpecValue>,
    depth: int,
    o: FormatOptions,
    w: int,
    t: Seq<u8>,
)
    requires
        ascii_text(t),
        ascii_delimiter(o),
        items_ok(items, t),
        st.col + items_inline_len(items, t, delim_len(o)) <= w,
    ensures
        compact_items(st, items, depth, o, w, t).out == st.out + items_inline_text(items, t, o),
        compact_items(st, items, depth, o, w, t).col == st.col + items_inline_len(items, t, delim_len(o)),
    decreases items, 0int,
{
    lemma_literal_widths();
    lemma_delim_ascii(o);
    if items.len() == 0 {
        assert(st.out + Seq::<char>::empty() =~= st.out);
    } else {
        let v = items.last();
        let pre = items.drop_last();
        assert forall|i: int| 0 <= i < pre.len() implies spans_ok(#[trigger] pre[i], t) by {
            assert(pre[i] == items[i]);
        }
        assert(items_ok(pre, t));
        lemma_items_on_one_line(st, pre, depth, o, w, t);
        let s1 = compact_items(st, pre, depth, o, w, t);
        let s2 = if items.len() > 1 {
            layout(put(s1, seq![',']), delim_chars(o))
        } else {
            s1
        };
        assert(items[items.len() - 1] == v);
        assert(spans_ok(v, t));
        lemma_fitting_value_on_one_line(s2, v, depth + 1, o, w, t);
        assert(compact_items(st, items, depth, o, w, t).out =~= st.out + items_inline_text(items, t, o));
    }
}

/// When a JSON text and the delimiter are ASCII and its value fits within the
/// preferred width, its pretty layout is that value on one line.
pub proof fn lemma_fitting_text_on_one_line(t: Seq<u8>, o: FormatOptions, w: int, v: SpecValue, c: int)
    requires
        parse_whole(t) == PVal::Done(v, c),
        spans_ok(v, t),
        ascii_text(t),
        ascii_delimiter(o),
        inline_len(v, t, delim_len(o)) <= w,
    ensures
        formatted(t, o, w) == Some(inline_text(v, t, o)),
{
    lemma_fitting_value_on_one_line(fresh(), v, 0, o, w, t);
    assert(fresh().out + inline_text(v, t, o) =~= inline_text(v, t, o));
}

proof fn lemma_prefix_trans(a: Seq<char>, b: Seq<char>, c: Seq<char>)
    requires
        a.is_prefix_of(b),
        b.is_prefix_of(c),
    ensures
        a.is_prefix_of(c),
{
    assert(a =~= c.subrange(0, a.len() as int)) by {
        assert forall|k: int| 0 <= k < a.len() implies a[k] == c[k] by {
            assert(a[k] == b[k]);
            assert(b[k] == c[k]);
        }
    }
}

proof fn lemma_append_prefix(a: Seq<char>, x: Seq<char>)
    ensures
        a.is_prefix_of(a + x),
{
    assert(a =~= (a + x).subrange(0, a.len() as int));
}

/// writing on, whatever is written, keeps what was written before
proof fn lemma_steps_keep(st: FmtState, s: Seq<char>, o: FormatOptions)
    ensures
        st.out.is_prefix_of(put(st, s).out),
        st.out.is_prefix_of(layout(st, s).out),
        st.out.is_prefix_of(eol(st, o).out),
{
    lemma_append_prefix(st.out, s);
    lemma_append_prefix(st.out, line_ending_chars(o.line_ending));
}

/// Laying out a value only adds text after what was written before it.
pub proof fn lemma_layout_keeps_prefix(
    st: FmtState,
    v: SpecValue,
    depth: int,
    o: FormatOptions,
    w: int,
    t: Seq<u8>,
)
    ensures
        st.out.is_prefix_of(fmt_value(st, v, depth, o, w, t).out),
    decreases v, 0int,
{
    lemma_append_prefix(st.out, Seq::empty());
    match v {
        SpecValue::Object(_, entries) => {
            let s0 = put(st, seq!['{']);
            lemma_steps_keep(st, seq!['{'], o);
            if entries.len() == 0 {
                lemma_steps_keep(st, seq!['{', '}'], o);
            } else if inline_len(v, t, delim_len(o)) <= available(st, w) {
                let s1 = layout(s0, delim_chars(o));
                lemma_steps_keep(s0, delim_chars(o), o);
                let s2 = compact_entries(s1, entries, depth, o, w, t);
                lemma_compact_entries_keep(s1, entries, depth, o, w, t);
                let s3 = layout(s2, delim_chars(o));
                lemma_steps_keep(s2, delim_chars(o), o);
                lemma_steps_keep(s3, seq!['}'], o);
                lemma_prefix_trans(st.out, s0.out, s1.out);
                lemma_prefix_trans(st.out, s1.out, s2.out);
                lemma_prefix_trans(st.out, s2.out, s3.out);
                lemma_prefix_trans(st.out, s3.out, put(s3, seq!['}']).out);
            } else {
                let s1 = eol(s0, o);
                lemma_steps_keep(s0, seq![], o);
                let s2 = expanded_entries(s1, entries, depth, o, w, t);
                lemma_expanded_entries_keep(s1, entries, depth, o, w, t);
                let s3 = eol(s2, o);
                lemma_steps_keep(s2, seq![], o);
                let s4 = layout(s3, indent_chars(o, depth));
                lemma_steps_keep(s3, indent_chars(o, depth), o);
                lemma_steps_keep(s4, seq!['}'], o);
                lemma_prefix_trans(st.out, s0.out, s1.out);
                lemma_prefix_trans(st.out, s1.out, s2.out);
                lemma_prefix_trans(st.out, s2.out, s3.out);
                lemma_prefix_trans(st.out, s3.out, s4.out);
                lemma_prefix_trans(st.out, s4.out, put(s4, seq!['}']).out);
            }
        },
        SpecValue::Array(_, items) => {
            let s0 = put(st, seq!['[']);
            lemma_steps_keep(st, seq!['['], o);
            if items.len() == 0 {
                lemma_steps_keep(st, seq!['[', ']'], o);
            } else if inline_len(v, t, delim_len(o)) <= available(st, w) {
                let s2 = compact_items(s0, items, depth, o, w, t);
                lemma_compact_items_keep(s0, items, depth, o, w, t);
                lemma_steps_keep(s2, seq![']'], o);
                lemma_prefix_trans(st.out, s0.out, s2.out);
                lemma_prefix_trans(st.out, s2.out, put(s2, seq![']']).out);
            } else {
                let s1 = eol(s0, o);
                lemma_steps_keep(s0, seq![], o);
                let s2 = if all_numbers(items) {
                    let f = layout(s1, indent_chars(o, depth + 1));
                    lemma_steps_keep(s1, indent_chars(o, depth + 1), o);
                    lemma_fill_items_keep(f, items, items.len() as int, depth, o, w, t);
                    lemma_prefix_trans(s1.out, f.out, fill_items(f, items, items.len() as int, depth, o, w, t).out);
                    fill_items(f, items, items.len() as int, depth, o, w, t)
                } else {
                    lemma_expanded_items_keep(s1, items, depth, o, w, t);
                    expanded_items(s1, items, depth, o, w, t)
                };
                let s3 = eol(s2, o);
                lemma_steps_keep(s2, seq![], o);
                let s4 = layout(s3, indent_chars(o, depth));
                lemma_steps_keep(s3, indent_chars(o, depth), o);
                lemma_steps_keep(s4, seq![']'], o);
                lemma_prefix_trans(st.out, s0.out, s1.out);
                lemma_prefix_trans(st.out, s1.out, s2.out);
                lemma_prefix_trans(st.out, s2.out, s3.out);
                lemma_prefix_trans(st.out, s3.out, s4.out);
                lemma_prefix_trans(st.out, s4.out, put(s4, seq![']']).out);
            }
        },
        _ => {
            lemma_steps_keep(st, scalar_chars(v, t), o);
        },
    }
}

proof fn lemma_entry_keep(st: FmtState, k: Span, v: SpecValue, depth: int, o: FormatOptions, w: int, t: Seq<u8>)
    ensures
        st.out.is_prefix_of(fmt_entry(st, k, v, depth, o, w, t).out),
    decreases v, 1int,
{
    let s0 = put(st, quoted(slice_chars(t, k)) + seq![':']);
    let s1 = layout(s0, delim_chars(o));
    lemma_steps_keep(st, quoted(slice_chars(t, k)) + seq![':'], o);
    lemma_steps_keep(s0, delim_chars(o), o);
    lemma_layout_keeps_prefix(s1, v, depth, o, w, t);
    lemma_prefix_trans(st.out, s0.out, s1.out);
    lemma_prefix_trans(st.out, s1.out, fmt_entry(st, k, v, depth, o, w, t).out);
}

proof fn lemma_compact_entries_keep(st: FmtState, entries: Seq<(Span, SpecValue)>, depth: int, o: FormatOptions, w: int, t: Seq<u8>)
    ensures
        st.out.is_prefix_of(compact_entries(st, entries, depth, o, w, t).out),
    decreases entries, 0int,
{
    lemma_append_prefix(st.out, Seq::empty());
    if entries.len() > 0 {
        let s1 = compact_entries(st, entries.drop_last(), depth, o, w, t);
        lemma_compact_entries_keep(st, entries.drop_last(), depth, o, w, t);
        let s2 = if entries.len() > 1 {
            layout(put(s1, seq![',']), delim_chars(o))
        } else {
            s1
        };
        lemma_steps_keep(s1, seq![','], o);
        lemma_steps_keep(put(s1, seq![',']), delim_chars(o), o);
        lemma_prefix_trans(s1.out, put(s1, seq![',']).out, layout(put(s1, seq![',']), delim_chars(o)).out);
        lemma_entry_keep(s2, entries.last().0, entries.last().1, depth + 1, o, w, t);
        lemma_prefix_trans(st.out, s1.out, s2.out);
        lemma_prefix_trans(st.out, s2.out, compact_entries(st, entries, depth, o, w, t).out);
    }
}

proof fn lemma_expanded_entries_keep(st: FmtState, entries: Seq<(Span, SpecValue)>, depth: int, o: FormatOptions, w: int, t: Seq<u8>)
    ensures
        st.out.is_prefix_of(expanded_entries(st, entries, depth, o, w, t).out),
    decreases entries, 0int,
{
    lemma_append_prefix(st.out, Seq::empty());
    if entries.len() > 0 {
        let s1 = expanded_entries(st, entries.drop_last(), depth, o, w, t);
        lemma_expanded_entries_keep(st, entries.drop_last(), depth, o, w, t);
        let s2 = if entries.len() > 1 {
            eol(put(s1, seq![',']), o)
        } else {
            s1
        };
        lemma_steps_keep(s1, seq![','], o);
        lemma_steps_keep(put(s1, seq![',']), seq![], o);
        lemma_prefix_trans(s1.out, put(s1, seq![',']).out, eol(put(s1, seq![',']), o).out);
        let s3 = layout(s2, indent_chars(o, depth + 1));
        lemma_steps_keep(s2, indent_chars(o, depth + 1), o);
        lemma_entry_keep(s3, entries.last().0, entries.last().1, depth + 1, o, w, t);
        lemma_prefix_trans(st.out, s1.out, s2.out);
        lemma_prefix_trans(st.out, s2.out, s3.out);
        lemma_prefix_trans(st.out, s3.out, expanded_entries(st, entries, depth, o, w, t).out);
    }
}

proof fn lemma_compact_items_keep(st: FmtState, items: Seq<SpecValue>, depth: int, o: FormatOptions, w: int, t: Seq<u8>)
    ensures
        st.out.is_prefix_of(compact_items(st, items, depth, o, w, t).out),
    decreases items, 0int,
{
    lemma_append_prefix(st.out, Seq::empty());
    if items.len() > 0 {
        let s1 = compact_items(st, items.drop_last(), depth, o, w, t);
        lemma_compact_items_keep(st, items.drop_last(), depth, o, w, t);
        let s2 = if items.len() > 1 {
            layout(put(s1, seq![',']), delim_chars(o))
        } else {
            s1
        };
        lemma_steps_keep(s1, seq![','], o);
        lemma_steps_keep(put(s1, seq![',']), delim_chars(o), o);
        lemma_prefix_trans(s1.out, put(s1, seq![',']).out, layout(put(s1, seq![',']), delim_chars(o)).out);
        lemma_layout_keeps_prefix(s2, items.last(), depth + 1, o, w, t);
        lemma_prefix_trans(st.out, s1.out, s2.out);
        lemma_prefix_trans(st.out, s2.out, compact_items(st, items, depth, o, w, t).out);
    }
}

proof fn lemma_expanded_items_keep(st: FmtState, items: Seq<SpecValue>, depth: int, o: FormatOptions, w: int, t: Seq<u8>)
    ensures
        st.out.is_prefix_of(expanded_items(st, items, depth, o, w, t).out),
    decreases items, 0int,
{
    lemma_append_prefix(st.out, Seq::empty());
    if items.len() > 0 {
        let s1 = expanded_items(st, items.drop_last(), depth, o, w, t);
        lemma_expanded_items_keep(st, items.drop_last(), depth, o, w, t);
        let s2 = if items.len() > 1 {
            eol(put(s1, seq![',']), o)
        } else {
            s1
        };
        lemma_steps_keep(s1, seq![','], o);
        lemma_steps_keep(put(s1, seq![',']), seq![], o);
        lemma_prefix_trans(s1.out, put(s1, seq![',']).out, eol(put(s1, seq![',']), o).out);
        let s3 = layout(s2, indent_chars(o, depth + 1));
        lemma_steps_keep(s2, indent_chars(o, depth + 1), o);
        lemma_layout_keeps_prefix(s3, items.last(), depth + 1, o, w, t);
        lemma_prefix_trans(st.out, s1.out, s2.out);
        lemma_prefix_trans(st.out, s2.out, s3.out);
        lemma_prefix_trans(st.out, s3.out, expanded_items(st, items, depth, o, w, t).out);
    }
}

proof fn lemma_fill_items_keep(st: FmtState, items: Seq<SpecValue>, n: int, depth: int, o: FormatOptions, w: int, t: Seq<u8>)
    ensures
        st.out.is_prefix_of(fill_items(st, items, n, depth, o, w, t).out),
    decreases items, 0int,
{
    lemma_append_prefix(st.out, Seq::empty());
    if items.len() > 0 {
        let i = items.len() - 1;
        let s1 = fill_items(st, items.drop_last(), n, depth, o, w, t);
        lemma_fill_items_keep(st, items.drop_last(), n, depth, o, w, t);
        let s = put(s1, seq![',']);
        lemma_steps_keep(s1, seq![','], o);
        lemma_steps_keep(s, seq![], o);
        lemma_steps_keep(s, delim_chars(o), o);
        lemma_steps_keep(eol(s, o), indent_chars(o, depth + 1), o);
        lemma_prefix_trans(s.out, eol(s, o).out, layout(eol(s, o), indent_chars(o, depth + 1)).out);
        lemma_prefix_trans(s1.out, s.out, layout(eol(s, o), indent_chars(o, depth + 1)).out);
        lemma_prefix_trans(s1.out, s.out, layout(s, delim_chars(o)).out);
        let s2 = if i > 0 {
            let trailing: int = if i + 1 < n {
                1
            } else {
                0
            };
            if inline_len(items[i], t, delim_len(o)) + 1 + trailing > available(s, w) {
                layout(eol(s, o), indent_chars(o, depth + 1))
            } else {
                layout(s, delim_chars(o))
            }
        } else {
            s1
        };
        lemma_layout_keeps_prefix(s2, items[i], depth + 1, o, w, t);
        lemma_prefix_trans(st.out, s1.out, s2.out);
        lemma_prefix_trans(st.out, s2.out, fill_items(st, items, n, depth, o, w, t).out);
    }
}


/// in `out`, the text `x` stands at offset `p`, right after a line ending `le`
/// and the indentation `ind`
pub open spec fn begins_line(out: Seq<char>, p: int, le: Seq<char>, ind: Seq<char>, x: Seq<char>) -> bool {
    &&& le.len() + ind.len() <= p
    &&& p + x.len() <= out.len()
    &&& out.subrange(p - ind.len() - le.len(), p) == le + ind
    &&& out.subrange(p, p + x.len()) == x
}

/// what stands in the first part of a text stays when the text goes on
proof fn lemma_begins_line_kept(a: Seq<char>, b: Seq<char>, p: int, le: Seq<char>, ind: Seq<char>, x: Seq<char>)
    requires
        a.is_prefix_of(b),
        begins_line(a, p, le, ind, x),
    ensures
        begins_line(b, p, le, ind, x),
{
    assert(a.subrange(p - ind.len() - le.len(), p) =~= b.subrange(p - ind.len() - le.len(), p));
    assert(a.subrange(p, p + x.len()) =~= b.subrange(p, p + x.len()));
}

/// an entry laid out after a line ending and the indentation: its key begins
/// that line
proof fn lemma_entry_begins_line(
    s2: FmtState,
    k: Span,
    v: SpecValue,
    depth: int,
    o: FormatOptions,
    w: int,
    t: Seq<u8>,
)
    requires
        s2.out.len() >= line_ending_chars(o.line_ending).len(),
        s2.out.subrange(s2.out.len() - line_ending_chars(o.line_ending).len(), s2.out.len() as int)
            == line_ending_chars(o.line_ending),
    ensures
        s2.out.is_prefix_of(fmt_entry(layout(s2, indent_chars(o, depth)), k, v, depth, o, w, t).out),
        begins_line(
            fmt_entry(layout(s2, indent_chars(o, depth)), k, v, depth, o, w, t).out,
            (s2.out.len() + indent_chars(o, depth).len()) as int,
            line_ending_chars(o.line_ending),
            indent_chars(o, depth),
            quoted(slice_chars(t, k)),
        ),
{
    let le = line_ending_chars(o.line_ending);
    let ind = indent_chars(o, depth);
    let s3 = layout(s2, ind);
    lemma_steps_keep(s2, ind, o);
    let q = quoted(slice_chars(t, k));
    let s4 = put(s3, q + seq![':']);
    lemma_steps_keep(s3, q + seq![':'], o);
    let s5 = layout(s4, delim_chars(o));
    lemma_steps_keep(s4, delim_chars(o), o);
    let r = fmt_entry(s3, k, v, depth, o, w, t);
    lemma_layout_keeps_prefix(s5, v, depth, o, w, t);
    lemma_prefix_trans(s4.out, s5.out, r.out);
    lemma_prefix_trans(s3.out, s4.out, r.out);
    lemma_prefix_trans(s2.out, s3.out, r.out);
    let p = s3.out.len() as int;
    assert(begins_line(s4.out, p, le, ind, q)) by {
        assert(s4.out.subrange(p - ind.len() - le.len(), p) =~= le + ind) by {
            assert forall|i: int| 0 <= i < le.len() + ind.len() implies s4.out[p - ind.len() - le.len() + i]
                == (le + ind)[i] by {
                if i < le.len() {
                    assert(s2.out.subrange(s2.out.len() - le.len(), s2.out.len() as int)[i] == le[i]);
                }
            }
        }
        assert(s4.out.subrange(p, p + q.len()) =~= q);
    }
    lemma_begins_line_kept(s4.out, r.out, p, le, ind, q);
}

/// the entries laid out one per line after a line ending: each key begins a
/// line of its own, at the indentation of one level deeper
#[verifier::rlimit(40)]
proof fn lemma_expanded_entries_lines(
    st: FmtState,
    entries: Seq<(Span, SpecValue)>,
    depth: int,
    o: FormatOptions,
    w: int,
    t: Seq<u8>,
) -> (ps: Seq<int>)
    requires
        st.out.len() >= line_ending_chars(o.line_ending).len(),
        st.out.subrange(st.out.len() - line_ending_chars(o.line_ending).len(), st.out.len() as int)
            == line_ending_chars(o.line_ending),
    ensures
        ps.len() == entries.len(),
        forall|i: int|
            0 <= i < entries.len() ==> st.out.len() + indent_chars(o, depth + 1).len() <= #[trigger] ps[i]
                && begins_line(
                expanded_entries(st, entries, depth, o, w, t).out,
                ps[i],
                line_ending_chars(o.line_ending),
                indent_chars(o, depth + 1),
                quoted(slice_chars(t, entries[i].0)),
            ),
        forall|i: int, j: int| 0 <= i < j < entries.len() ==> ps[i] < ps[j],
    decreases entries,
{
    let le = line_ending_chars(o.line_ending);
    let ind = indent_chars(o, depth + 1);
    if entries.len() == 0 {
        Seq::empty()
    } else {
        let pre = entries.drop_last();
        let s1 = expanded_entries(st, pre, depth, o, w, t);
        let ps1 = lemma_expanded_entries_lines(st, pre, depth, o, w, t);
        lemma_expanded_entries_keep(st, pre, depth, o, w, t);
        let s2 = if entries.len() > 1 {
            eol(put(s1, seq![',']), o)
        } else {
            s1
        };
        if entries.len() > 1 {
            lemma_steps_keep(s1, seq![','], o);
            lemma_steps_keep(put(s1, seq![',']), seq![], o);
            lemma_prefix_trans(s1.out, put(s1, seq![',']).out, s2.out);
            assert(s2.out.subrange(s2.out.len() - le.len(), s2.out.len() as int) =~= le);
        } else {
            assert(s1 == st);
            lemma_append_prefix(s1.out, Seq::empty());
            assert(s1.out + Seq::<char>::empty() =~= s1.out);
        }
        let r = expanded_entries(st, entries, depth, o, w, t);
        assert(r == fmt_entry(layout(s2, ind), entries.last().0, entries.last().1, depth + 1, o, w, t));
        lemma_entry_begins_line(s2, entries.last().0, entries.last().1, depth + 1, o, w, t);
        lemma_prefix_trans(s1.out, s2.out, r.out);
        let p = (s2.out.len() + ind.len()) as int;
        let ps = ps1.push(p);
        assert forall|i: int| 0 <= i < entries.len() implies st.out.len() + ind.len() <= #[trigger] ps[i]
            && begins_line(r.out, ps[i], le, ind, quoted(slice_chars(t, entries[i].0))) by {
            if i < pre.len() {
                assert(ps[i] == ps1[i]);
                assert(entries[i] == pre[i]);
                lemma_begins_line_kept(s1.out, r.out, ps1[i], le, ind, quoted(slice_chars(t, pre[i].0)));
            } else {
                assert(entries[i] == entries.last());
            }
        }
        assert forall|i: int, j: int| 0 <= i < j < entries.len() implies ps[i] < ps[j] by {
            assert(ps[i] == ps1[i]);
            if j == entries.len() - 1 {
                assert(ps1[i] + quoted(slice_chars(t, pre[i].0)).len() <= s1.out.len());
            } else {
                assert(ps[j] == ps1[j]);
            }
        }
        ps
    }
}

/// When an object does not fit on the rest of its line, each of its keys
/// begins a line of its own, indented one level deeper than the object, in
/// the order of its entries, and its closing brace begins the last line at
/// the object's own indentation.
pub proof fn lemma_expanded_object_lines(
    st: FmtState,
    v: SpecValue,
    depth: int,
    o: FormatOptions,
    w: int,
    t: Seq<u8>,
) -> (ps: Seq<int>)
    requires
        v matches SpecValue::Object(_, entries) && entries.len() > 0,
        inline_len(v, t, delim_len(o)) > available(st, w),
    ensures
        match v {
            SpecValue::Object(_, entries) => {
                let out = fmt_value(st, v, depth, o, w, t).out;
                let le = line_ending_chars(o.line_ending);
                &&& ps.len() == entries.len()
                &&& forall|i: int|
                    0 <= i < entries.len() ==> st.out.len() < #[trigger] ps[i] && begins_line(
                        out,
                        ps[i],
                        le,
                        indent_chars(o, depth + 1),
                        quoted(slice_chars(t, entries[i].0)),
                    )
                &&& forall|i: int, j: int| 0 <= i < j < entries.len() ==> ps[i] < ps[j]
                &&& begins_line(out, out.len() - 1, le, indent_chars(o, depth), seq!['}'])
            },
            _ => true,
        },
{
    let entries = v->Object_1;
    let le = line_ending_chars(o.line_ending);
    let ind = indent_chars(o, depth + 1);
    let s0 = put(st, seq!['{']);
    let s1 = eol(s0, o);
    assert(s1.out.subrange(s1.out.len() - le.len(), s1.out.len() as int) =~= le);
    let ps = lemma_expanded_entries_lines(s1, entries, depth, o, w, t);
    let s2 = expanded_entries(s1, entries, depth, o, w, t);
    let s3 = eol(s2, o);
    let s4 = layout(s3, indent_chars(o, depth));
    let r = put(s4, seq!['}']);
    assert(r == fmt_value(st, v, depth, o, w, t));
    lemma_steps_keep(s2, seq![], o);
    lemma_steps_keep(s3, indent_chars(o, depth), o);
    lemma_steps_keep(s4, seq!['}'], o);
    lemma_prefix_trans(s2.out, s3.out, s4.out);
    lemma_prefix_trans(s2.out, s4.out, r.out);
    assert forall|i: int| 0 <= i < entries.len() implies st.out.len() < #[trigger] ps[i] && begins_line(
        r.out,
        ps[i],
        le,
        ind,
        quoted(slice_chars(t, entries[i].0)),
    ) by {
        lemma_begins_line_kept(s2.out, r.out, ps[i], le, ind, quoted(slice_chars(t, entries[i].0)));
    }
    let p = r.out.len() - 1;
    let ind0 = indent_chars(o, depth);
    assert(r.out =~= s2.out + le + ind0 + seq!['}']);
    assert(r.out.subrange(p - ind0.len() - le.len(), p) =~= le + ind0);
    assert(r.out.subrange(p, p + 1) =~= seq!['}']);
    ps
}


/// the items laid out one per line after a line ending: each begins a line of
/// its own, at the indentation of one level deeper
#[verifier::rlimit(40)]
proof fn lemma_expanded_items_lines(
    st: FmtState,
    items: Seq<SpecValue>,
    depth: int,
    o: FormatOptions,
    w: int,
    t: Seq<u8>,
) -> (ps: Seq<int>)
    requires
        st.out.len() >= line_ending_chars(o.line_ending).len(),
        st.out.subrange(st.out.len() - line_ending_chars(o.line_ending).len(), st.out.len() as int)
            == line_ending_chars(o.line_ending),
    ensures
        ps.len() == items.len(),
        forall|i: int|
            0 <= i < items.len() ==> st.out.len() + indent_chars(o, depth + 1).len() <= #[trigger] ps[i]
                && begins_line(
                expanded_items(st, items, depth, o, w, t).out,
                ps[i],
                line_ending_chars(o.line_ending),
                indent_chars(o, depth + 1),
                Seq::empty(),
            ),
        forall|i: int, j: int| 0 <= i < j < items.len() ==> ps[i] < ps[j],
    decreases items,
{
    let le = line_ending_chars(o.line_ending);
    let ind = indent_chars(o, depth + 1);
    if items.len() == 0 {
        Seq::empty()
    } else {
        let pre = items.drop_last();
        let s1 = expanded_items(st, pre, depth, o, w, t);
        let ps1 = lemma_expanded_items_lines(st, pre, depth, o, w, t);
        lemma_expanded_items_keep(st, pre, depth, o, w, t);
        let s2 = if items.len() > 1 {
            eol(put(s1, seq![',']), o)
        } else {
            s1
        };
        if items.len() > 1 {
            lemma_steps_keep(s1, seq![','], o);
            lemma_steps_keep(put(s1, seq![',']), seq![], o);
            lemma_prefix_trans(s1.out, put(s1, seq![',']).out, s2.out);
            assert(s2.out.subrange(s2.out.len() - le.len(), s2.out.len() as int) =~= le);
        } else {
            assert(s1 == st);
            lemma_append_prefix(s1.out, Seq::empty());
            assert(s1.out + Seq::<char>::empty() =~= s1.out);
        }
        let s3 = layout(s2, ind);
        lemma_steps_keep(s2, ind, o);
        let r = expanded_items(st, items, depth, o, w, t);
        assert(r == fmt_value(s3, items.last(), depth + 1, o, w, t));
        lemma_layout_keeps_prefix(s3, items.last(), depth + 1, o, w, t);
        lemma_prefix_trans(s2.out, s3.out, r.out);
        lemma_prefix_trans(s1.out, s2.out, r.out);
        let p = s3.out.len() as int;
        assert(begins_line(s3.out, p, le, ind, Seq::empty())) by {
            assert(s3.out.subrange(p - ind.len() - le.len(), p) =~= le + ind) by {
                assert forall|i: int| 0 <= i < le.len() + ind.len() implies s3.out[p - ind.len() - le.len() + i]
                    == (le + ind)[i] by {
                    if i < le.len() {
                        assert(s2.out.subrange(s2.out.len() - le.len(), s2.out.len() as int)[i] == le[i]);
                    }
                }
            }
            assert(s3.out.subrange(p, p) =~= Seq::<char>::empty());
        }
        lemma_begins_line_kept(s3.out, r.out, p, le, ind, Seq::empty());
        let ps = ps1.push(p);
        assert forall|i: int| 0 <= i < items.len() implies st.out.len() + ind.len() <= #[trigger] ps[i]
            && begins_line(r.out, ps[i], le, ind, Seq::empty()) by {
            if i < pre.len() {
                assert(ps[i] == ps1[i]);
                lemma_begins_line_kept(s1.out, r.out, ps1[i], le, ind, Seq::empty());
            }
        }
        assert forall|i: int, j: int| 0 <= i < j < items.len() implies ps[i] < ps[j] by {
            assert(ps[i] == ps1[i]);
            if j == items.len() - 1 {
                assert(ps1[i] <= s1.out.len());
            } else {
                assert(ps[j] == ps1[j]);
            }
        }
        ps
    }
}

/// When an array that holds anything but numbers alone does not fit on the
/// rest of its line, each of its items begins a line of its own, indented one
/// level deeper than the array, in order, and its closing bracket begins the
/// last line at the array's own indentation.
pub proof fn lemma_expanded_array_lines(
    st: FmtState,
    v: SpecValue,
    depth: int,
    o: FormatOptions,
    w: int,
    t: Seq<u8>,
) -> (ps: Seq<int>)
    requires
        v matches SpecValue::Array(_, items) && items.len() > 0 && !all_numbers(items),
        inline_len(v, t, delim_len(o)) > available(st, w),
    ensures
        match v {
            SpecValue::Array(_, items) => {
                let out = fmt_value(st, v, depth, o, w, t).out;
                let le = line_ending_chars(o.line_ending);
                &&& ps.len() == items.len()
                &&& forall|i: int|
                    0 <= i < items.len() ==> st.out.len() < #[trigger] ps[i] && begins_line(
                        out,
                        ps[i],
                        le,
                        indent_chars(o, depth + 1),
                        Seq::empty(),
                    )
                &&& forall|i: int, j: int| 0 <= i < j < items.len() ==> ps[i] < ps[j]
                &&& begins_line(out, out.len() - 1, le, indent_chars(o, depth), seq![']'])
            },
            _ => true,
        },
{
    let items = v->Array_1;
    let le = line_ending_chars(o.line_ending);
    let ind = indent_chars(o, depth + 1);
    let s0 = put(st, seq!['[']);
    let s1 = eol(s0, o);
    assert(s1.out.subrange(s1.out.len() - le.len(), s1.out.len() as int) =~= le);
    let ps = lemma_expanded_items_lines(s1, items, depth, o, w, t);
    let s2 = expanded_items(s1, items, depth, o, w, t);
    let s3 = eol(s2, o);
    let s4 = layout(s3, indent_chars(o, depth));
    let r = put(s4, seq![']']);
    assert(r == fmt_value(st, v, depth, o, w, t));
    lemma_steps_keep(s2, seq![], o);
    lemma_steps_keep(s3, indent_chars(o, depth), o);
    lemma_steps_keep(s4, seq![']'], o);
    lemma_prefix_trans(s2.out, s3.out, s4.out);
    lemma_prefix_trans(s2.out, s4.out, r.out);
    assert forall|i: int| 0 <= i < items.len() implies st.out.len() < #[trigger] ps[i] && begins_line(
        r.out,
        ps[i],
        le,
        ind,
        Seq::empty(),
    ) by {
        lemma_begins_line_kept(s2.out, r.out, ps[i], le, ind, Seq::empty());
    }
    let p = r.out.len() - 1;
    let ind0 = indent_chars(o, depth);
    assert(r.out =~= s2.out + le + ind0 + seq![']']);
    assert(r.out.subrange(p - ind0.len() - le.len(), p) =~= le + ind0);
    assert(r.out.subrange(p, p + 1) =~= seq![']']);
    ps
}

} // verus!
