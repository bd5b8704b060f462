//! positions in a text as a language client counts them: lines, and columns
//! in UTF-8 bytes or UTF-16 code units
use vstd::prelude::*;
use vstd::string::StringSliceAdditionalSpecFns;
use vstd::utf8::*;

use crate::text::{lemma_ascii_boundary, lemma_ascii_suffix_valid, lemma_str_bytes, str_eq, substr};
use crate::diagnostics::{
    Context, ContextSpec, Patch, PatchSpec, context_specs, context_view, contexts, cuts_ok, patch_specs,
    patch_view, patches, patches_ok,
};
use crate::error::Error;
use crate::message::kind_message;
use crate::tokens::Span;

verus! {

/// how a client counts the columns of a line
#[derive(Debug, Clone, Copy, PartialEq, Eq, Structural)]
pub enum PositionEncoding {
    Utf16,
    Utf8,
}

/// a client that names no encoding counts in UTF-16
impl Default for PositionEncoding {
    fn default() -> (res: Self)
        ensures
            res == PositionEncoding::Utf16,
    {
        PositionEncoding::Utf16
    }
}

/// the name by which clients offer to count columns in UTF-8
pub open spec fn utf8_kind() -> Seq<char> {
    seq!['u', 't', 'f', '-', '8']
}

/// some encoding among `offered` is UTF-8
pub open spec fn offers_utf8(offered: Seq<String>) -> bool {
    exists|i: int| 0 <= i < offered.len() && #[trigger] offered[i]@ == utf8_kind()
}

/// whether the client offers to count columns in UTF-8
fn lists_utf8(offered: &[String]) -> (res: bool)
    ensures
        res == offers_utf8(offered@),
{
    let utf8 = "utf-8";
    proof {
        reveal_strlit("utf-8");
        assert(utf8@ =~= utf8_kind());
    }
    let mut i: usize = 0;
    while i < offered.len()
        invariant
            i <= offered@.len(),
            utf8@ == utf8_kind(),
            forall|j: int| 0 <= j < i ==> #[trigger] offered@[j]@ != utf8_kind(),
        decreases offered@.len() - i,
    {
        if str_eq(offered[i].as_str(), utf8) {
            assert(offered@[i as int]@ == utf8_kind());
            return true;
        }
        i = i + 1;
    }
    false
}

/// the encoding the server counts columns in: UTF-8 when the client offers it
/// among its position encodings, else UTF-16, which every client knows
pub fn negotiate_encoding(offered: Option<&[String]>) -> (res: PositionEncoding)
    ensures
        res == match offered {
            Some(o) => if offers_utf8(o@) {
                PositionEncoding::Utf8
            } else {
                PositionEncoding::Utf16
            },
            None => PositionEncoding::Utf16,
        },
{
    match offered {
        Some(o) => if lists_utf8(o) {
            PositionEncoding::Utf8
        } else {
            PositionEncoding::Utf16
        },
        None => PositionEncoding::Utf16,
    }
}

/// a line, and a column in it, both from 0
#[derive(Debug, Clone, Copy, PartialEq, Eq, Structural)]
pub struct Position {
    pub line: u32,
    pub character: u32,
}

/// from one position to another
#[derive(Debug, Clone, Copy, PartialEq, Eq, Structural)]
pub struct Range {
    pub start: Position,
    pub end: Position,
}

/// the UTF-16 code units of a char: two beyond the basic plane, else one
pub open spec fn char_utf16_len(c: char) -> nat {
    if (c as u32) >= 0x10000 {
        2
    } else {
        1
    }
}

/// the UTF-16 code units of chars
pub open spec fn utf16_len(cs: Seq<char>) -> nat
    decreases cs.len(),
{
    if cs.len() == 0 {
        0
    } else {
        char_utf16_len(cs[0]) + utf16_len(cs.drop_first())
    }
}

/// the UTF-16 code units a byte of UTF-8 stands for: a continuation byte none,
/// the lead byte of a four byte sequence two, any other one
pub open spec fn byte_utf16_units(b: u8) -> nat {
    if 0x80 <= b < 0xC0 {
        0
    } else if b >= 0xF0 {
        2
    } else {
        1
    }
}

pub open spec fn utf16_units(bytes: Seq<u8>) -> nat
    decreases bytes.len(),
{
    if bytes.len() == 0 {
        0
    } else {
        byte_utf16_units(bytes[0]) + utf16_units(bytes.drop_first())
    }
}

proof fn lemma_utf16_units_concat(a: Seq<u8>, b: Seq<u8>)
    ensures
        utf16_units(a + b) == utf16_units(a) + utf16_units(b),
    decreases a.len(),
{
    if a.len() == 0 {
        assert(a + b =~= b);
    } else {
        lemma_utf16_units_concat(a.drop_first(), b);
        assert((a + b).drop_first() =~= a.drop_first() + b);
    }
}

proof fn lemma_utf16_units_scalar(c: char)
    ensures
        utf16_units(encode_scalar(c as u32)) == char_utf16_len(c),
{
    let v = c as u32;
    assert(is_scalar(v));
    let e = encode_scalar(v);
    reveal_with_fuel(utf16_units, 5);
    if has_width_1_encoding(v) {
        assert(leading_byte_width_1(v) < 0x80) by (bit_vector)
            requires
                v <= 0x7F,
        ;
    } else if has_width_2_encoding(v) {
        assert(0xC0 <= leading_byte_width_2(v) < 0xE0) by (bit_vector)
            requires
                0x80 <= v <= 0x7FF,
        ;
        assert(0x80 <= last_continuation_byte(v) < 0xC0) by (bit_vector);
        assert(e.drop_first().drop_first() =~= Seq::<u8>::empty());
    } else if has_width_3_encoding(v) {
        assert(0xE0 <= leading_byte_width_3(v) < 0xF0) by (bit_vector)
            requires
                0x800 <= v <= 0xFFFF,
        ;
        assert(0x80 <= last_continuation_byte(v) < 0xC0) by (bit_vector);
        assert(0x80 <= second_last_continuation_byte(v) < 0xC0) by (bit_vector);
        assert(e.drop_first().drop_first().drop_first() =~= Seq::<u8>::empty());
    } else {
        assert(0xF0 <= leading_byte_width_4(v)) by (bit_vector);
        assert(0x80 <= last_continuation_byte(v) < 0xC0) by (bit_vector);
        assert(0x80 <= second_last_continuation_byte(v) < 0xC0) by (bit_vector);
        assert(0x80 <= third_last_continuation_byte(v) < 0xC0) by (bit_vector);
        assert(e.drop_first().drop_first().drop_first().drop_first() =~= Seq::<u8>::empty());
    }
}

/// counting UTF-16 code units on the bytes of UTF-8 text counts them on its chars
pub proof fn lemma_utf16_units_encode(cs: Seq<char>)
    ensures
        utf16_units(encode_utf8(cs)) == utf16_len(cs),
    decreases cs.len(),
{
    if cs.len() > 0 {
        lemma_utf16_units_encode(cs.drop_first());
        lemma_utf16_units_scalar(cs[0]);
        lemma_utf16_units_concat(encode_scalar(cs[0] as u32), encode_utf8(cs.drop_first()));
    }
}

/// the line feeds among bytes
pub open spec fn newline_count(b: Seq<u8>) -> nat
    decreases b.len(),
{
    if b.len() == 0 {
        0
    } else {
        newline_count(b.drop_last()) + if b.last() == 10 {
            1nat
        } else {
            0nat
        }
    }
}

/// where the last line starts: after the last line feed, or at 0
pub open spec fn line_start(b: Seq<u8>) -> int
    decreases b.len(),
{
    if b.len() == 0 {
        0
    } else if b.last() == 10 {
        b.len() as int
    } else {
        line_start(b.drop_last())
    }
}

/// the column `before` ends at: the length of its last line
pub open spec fn column_of(before: Seq<u8>, encoding: PositionEncoding) -> nat {
    let last = before.subrange(line_start(before), before.len() as int);
    match encoding {
        PositionEncoding::Utf8 => last.len(),
        PositionEncoding::Utf16 => utf16_len(decode_utf8(last)),
    }
}

/// the position of byte `offset` of the text with bytes `t`; an offset past the
/// end is the end
pub open spec fn position_at(t: Seq<u8>, offset: int, encoding: PositionEncoding) -> (nat, nat) {
    let end = if offset < t.len() {
        offset
    } else {
        t.len() as int
    };
    let before = t.subrange(0, end);
    (newline_count(before), column_of(before, encoding))
}

/// `offset`, or the length of `t` when it is past the end
pub open spec fn clamp(t: Seq<u8>, offset: int) -> int {
    if offset < t.len() {
        offset
    } else {
        t.len() as int
    }
}

proof fn lemma_line_start_bounds(b: Seq<u8>)
    ensures
        0 <= line_start(b) <= b.len(),
        line_start(b) > 0 ==> b[line_start(b) - 1] == 10,
    decreases b.len(),
{
    if b.len() > 0 {
        lemma_line_start_bounds(b.drop_last());
    }
}

/// the line feeds before the end of a prefix are no more than in the whole
proof fn lemma_newline_count_prefix(b: Seq<u8>, i: int)
    requires
        0 <= i <= b.len(),
    ensures
        newline_count(b.subrange(0, i)) <= newline_count(b),
    decreases b.len(),
{
    if i < b.len() {
        assert(b.drop_last().subrange(0, i) =~= b.subrange(0, i));
        lemma_newline_count_prefix(b.drop_last(), i);
    } else {
        assert(b.subrange(0, i) =~= b);
    }
}

/// the line and column of byte `offset` of `text`, the column counted in
/// `encoding`
fn position_counts(text: &str, offset: usize, encoding: PositionEncoding) -> (res: (usize, usize))
    requires
        is_char_boundary(text.spec_bytes(), clamp(text.spec_bytes(), offset as int)),
    ensures
        (res.0 as nat, res.1 as nat) == position_at(text.spec_bytes(), offset as int, encoding),
{
    let bytes = text.as_bytes();
    let ghost t = text.spec_bytes();
    let end = if offset < bytes.len() {
        offset
    } else {
        bytes.len()
    };
    let ghost before = t.subrange(0, end as int);
    let mut lines: usize = 0;
    let mut start: usize = 0;
    let mut i: usize = 0;
    proof {
        assert(t.subrange(0, 0) =~= Seq::<u8>::empty());
    }
    while i < end
        invariant
            bytes@ == t,
            end <= t.len(),
            i <= end,
            lines == newline_count(t.subrange(0, i as int)),
            lines <= i,
            start == line_start(t.subrange(0, i as int)),
        decreases end - i,
    {
        proof {
            assert(t.subrange(0, i + 1).drop_last() =~= t.subrange(0, i as int));
        }
        if bytes[i] == 10 {
            lines = lines + 1;
            start = i + 1;
        }
        i = i + 1;
    }
    proof {
        lemma_line_start_bounds(before);
        lemma_str_bytes(text);
        if start > 0 {
            lemma_ascii_boundary(t, start as int);
        }
    }
    let character: usize = match encoding {
        PositionEncoding::Utf8 => end - start,
        PositionEncoding::Utf16 => {
            let last = substr(text, start, end);
            let lb = last.as_bytes();
            let mut units: usize = 0;
            let mut j: usize = 0;
            proof {
                assert(lb@.subrange(0, 0) =~= Seq::<u8>::empty());
                lemma_str_bytes(last);
                lemma_utf16_at_most_bytes(lb@);
            }
            while j < lb.len()
                invariant
                    utf16_units(lb@) <= lb@.len(),
                    j <= lb@.len(),
                    units == utf16_units(lb@.subrange(0, j as int)),
                decreases lb@.len() - j,
            {
                proof {
                    lemma_utf16_units_concat(lb@.subrange(0, j as int), seq![lb@[j as int]]);
                    assert(lb@.subrange(0, j + 1) =~= lb@.subrange(0, j as int) + seq![lb@[j as int]]);
                    lemma_utf16_units_concat(lb@.subrange(0, j + 1), lb@.subrange(j + 1, lb@.len() as int));
                    assert(lb@ =~= lb@.subrange(0, j + 1) + lb@.subrange(j + 1, lb@.len() as int));
                    reveal_with_fuel(utf16_units, 2);
                }
                let b = lb[j];
                if b >= 0xF0 {
                    units = units + 2;
                } else if b < 0x80 || b >= 0xC0 {
                    units = units + 1;
                }
                j = j + 1;
            }
            proof {
                assert(lb@.subrange(0, lb@.len() as int) =~= lb@);
                assert(last.spec_bytes() == before.subrange(start as int, end as int));
                lemma_utf16_units_encode(last@);
            }
            units
        },
    };
    (lines, character)
}

/// the line and the column of byte `offset` of `text` fit in a [`Position`]
pub open spec fn fits_position(text: &str, offset: int, encoding: PositionEncoding) -> bool {
    &&& position_at(text.spec_bytes(), offset, encoding).0 <= u32::MAX
    &&& position_at(text.spec_bytes(), offset, encoding).1 <= u32::MAX
}

/// the position of byte `offset` of `text`, its column counted in `encoding`
pub fn byte_offset_to_position(text: &str, offset: usize, encoding: PositionEncoding) -> (res:
    Position)
    requires
        is_char_boundary(text.spec_bytes(), clamp(text.spec_bytes(), offset as int)),
        fits_position(text, offset as int, encoding),
    ensures
        (res.line as nat, res.character as nat) == position_at(
            text.spec_bytes(),
            offset as int,
            encoding,
        ),
{
    let (line, character) = position_counts(text, offset, encoding);
    Position { line: line as u32, character: character as u32 }
}

/// the position of byte `offset` of `text`, or nothing when its line or its
/// column does not fit in a [`Position`]
pub fn checked_position(text: &str, offset: usize, encoding: PositionEncoding) -> (res: Option<
    Position,
>)
    requires
        is_char_boundary(text.spec_bytes(), clamp(text.spec_bytes(), offset as int)),
    ensures
        res is Some <==> fits_position(text, offset as int, encoding),
        res matches Some(p) ==> (p.line as nat, p.character as nat) == position_at(
            text.spec_bytes(),
            offset as int,
            encoding,
        ),
{
    let (line, character) = position_counts(text, offset, encoding);
    if line <= 0xFFFF_FFFF && character <= 0xFFFF_FFFF {
        Some(Position { line: line as u32, character: character as u32 })
    } else {
        None
    }
}

proof fn lemma_utf16_at_most_bytes(b: Seq<u8>)
    requires
        valid_utf8(b),
    ensures
        utf16_units(b) <= b.len(),
{
    let cs = decode_utf8(b);
    decode_utf8_encode_utf8(b);
    lemma_utf16_units_encode(cs);
    lemma_utf16_len_at_most(cs);
}

proof fn lemma_utf16_len_at_most(cs: Seq<char>)
    ensures
        utf16_len(cs) <= encode_utf8(cs).len(),
    decreases cs.len(),
{
    if cs.len() > 0 {
        lemma_utf16_len_at_most(cs.drop_first());
        char_is_scalar(cs[0]);
    }
}

/// the positions of the ends of `span` of `text`
pub fn span_to_range(text: &str, span: Span, encoding: PositionEncoding) -> (res: Range)
    requires
        fits_position(text, span.start as int, encoding),
        fits_position(text, span.end as int, encoding),
        is_char_boundary(text.spec_bytes(), clamp(text.spec_bytes(), span.start as int)),
        is_char_boundary(text.spec_bytes(), clamp(text.spec_bytes(), span.end as int)),
    ensures
        (res.start.line as nat, res.start.character as nat) == position_at(
            text.spec_bytes(),
            span.start as int,
            encoding,
        ),
        (res.end.line as nat, res.end.character as nat) == position_at(
            text.spec_bytes(),
            span.end as int,
            encoding,
        ),
{
    Range {
        start: byte_offset_to_position(text, span.start, encoding),
        end: byte_offset_to_position(text, span.end, encoding),
    }
}

/// both ends of `s` are char boundaries of the text with bytes `t`, or lie
/// past its end, and their lines and columns fit in a [`Position`]
pub open spec fn span_fits(t: Seq<u8>, s: Span, encoding: PositionEncoding) -> bool {
    &&& is_char_boundary(t, clamp(t, s.start as int))
    &&& is_char_boundary(t, clamp(t, s.end as int))
    &&& position_at(t, s.start as int, encoding).0 <= u32::MAX
    &&& position_at(t, s.start as int, encoding).1 <= u32::MAX
    &&& position_at(t, s.end as int, encoding).0 <= u32::MAX
    &&& position_at(t, s.end as int, encoding).1 <= u32::MAX
}

/// `r` holds the positions of the ends of `s` in the text with bytes `t`
pub open spec fn range_is(r: Range, t: Seq<u8>, s: Span, encoding: PositionEncoding) -> bool {
    &&& (r.start.line as nat, r.start.character as nat) == position_at(t, s.start as int, encoding)
    &&& (r.end.line as nat, r.end.character as nat) == position_at(t, s.end as int, encoding)
}

/// the positions of the ends of `span` of `text`, or nothing when an end lies
/// inside a char or its line or column does not fit in a [`Position`]
pub fn checked_range(text: &str, span: Span, encoding: PositionEncoding) -> (res: Option<Range>)
    ensures
        res is Some <==> span_fits(text.spec_bytes(), span, encoding),
        res matches Some(r) ==> range_is(r, text.spec_bytes(), span, encoding),
{
    let len = text.as_bytes().len();
    let a = if span.start < len {
        span.start
    } else {
        len
    };
    let b = if span.end < len {
        span.end
    } else {
        len
    };
    if !text.is_char_boundary(a) || !text.is_char_boundary(b) {
        return None;
    }
    match (checked_position(text, span.start, encoding), checked_position(text, span.end, encoding)) {
        (Some(start), Some(end)) => Some(Range { start, end }),
        _ => None,
    }
}

/// a range of a text and what is said of it
#[derive(Debug, Clone, PartialEq, Eq)]
pub struct Located {
    pub range: Range,
    pub message: String,
}

/// an error as a client is told of it: where it is and what it says, and the
/// places that explain it, or nothing when there are none
#[derive(Debug, Clone, PartialEq, Eq)]
pub struct ErrorReport {
    pub error: Located,
    pub related: Option<Vec<Located>>,
}

/// an edit a client is offered to mend a text: what it says, and the range it
/// replaces with `new_text`
#[derive(Debug, Clone, PartialEq, Eq)]
pub struct QuickFix {
    pub title: String,
    pub range: Range,
    pub new_text: String,
}

/// the bytes of the text of `e`
pub open spec fn error_bytes(e: Error) -> Seq<u8> {
    encode_utf8(e.spec_source_text())
}

/// every place of `places` fits, in the text with bytes `t`
pub open spec fn contexts_fit(t: Seq<u8>, places: Seq<ContextSpec>, encoding: PositionEncoding) -> bool {
    forall|i: int| 0 <= i < places.len() ==> span_fits(t, #[trigger] places[i].1, encoding)
}

/// `v` tells of each of `places`, in the text with bytes `t`
pub open spec fn located_as(v: Seq<Located>, t: Seq<u8>, places: Seq<ContextSpec>, encoding: PositionEncoding) -> bool {
    &&& v.len() == places.len()
    &&& forall|i: int| 0 <= i < v.len() ==> {
        &&& (#[trigger] v[i]).message@ == places[i].0
        &&& range_is(v[i].range, t, places[i].1, encoding)
    }
}

/// what a client is told of `e`, with columns counted in `encoding`; nothing
/// when a place of it lies inside a char or past what a [`Position`] holds
pub fn error_report(e: &Error, encoding: PositionEncoding) -> (res: Option<ErrorReport>)
    requires
        cuts_ok(*e),
    ensures
        ({
            let t = error_bytes(*e);
            let places = context_specs(e.spec_kind(), t);
            &&& res is Some <==> span_fits(t, e.spec_range(), encoding) && contexts_fit(t, places, encoding)
            &&& res matches Some(r) ==> {
                &&& r.error.message@ == kind_message(e.spec_kind())
                &&& range_is(r.error.range, t, e.spec_range(), encoding)
                &&& match r.related {
                    None => places.len() == 0,
                    Some(v) => places.len() > 0 && located_as(v@, t, places, encoding),
                }
            }
        }),
{
    let text = e.source_text();
    let ghost t = error_bytes(*e);
    proof {
        assert(text.spec_bytes() == t);
    }
    let range = match checked_range(text, e.range(), encoding) {
        Some(r) => r,
        None => return None,
    };
    let cs = contexts(e);
    let ghost places = context_specs(e.spec_kind(), t);
    let mut related: Vec<Located> = Vec::new();
    let mut i: usize = 0;
    while i < cs.len()
        invariant
            text.spec_bytes() == t,
            t == error_bytes(*e),
            places == context_specs(e.spec_kind(), t),
            cs@.map_values(|c: Context| context_view(c)) == places,
            i <= cs@.len(),
            contexts_fit(t, places.subrange(0, i as int), encoding),
            located_as(related@, t, places.subrange(0, i as int), encoding),
        decreases cs@.len() - i,
    {
        proof {
            assert(places[i as int] == context_view(cs@[i as int]));
        }
        match checked_range(text, cs[i].span, encoding) {
            Some(r) => {
                related.push(Located { range: r, message: cs[i].message.clone() });
            },
            None => {
                proof {
                    assert(!span_fits(t, places[i as int].1, encoding));
                }
                return None;
            },
        }
        proof {
            assert(places.subrange(0, i + 1).drop_last() =~= places.subrange(0, i as int));
            assert(related@.last().message@ == places[i as int].0);
        }
        i = i + 1;
    }
    proof {
        assert(places.subrange(0, cs@.len() as int) =~= places);
    }
    let related = if related.len() == 0 {
        None
    } else {
        Some(related)
    };
    Some(ErrorReport { error: Located { range, message: e.message() }, related })
}

/// the edits a client is offered for `e`, with columns counted in `encoding`;
/// nothing when a range of one lies inside a char or past what a [`Position`]
/// holds
pub fn quick_fixes(e: &Error, encoding: PositionEncoding) -> (res: Option<Vec<QuickFix>>)
    requires
        patches_ok(*e),
    ensures
        ({
            let t = error_bytes(*e);
            let edits = patch_specs(e.spec_kind(), e.spec_range(), t.len() as int);
            &&& res is Some <==> forall|i: int| 0 <= i < edits.len() ==> span_fits(t, #[trigger] edits[i].1, encoding)
            &&& res matches Some(v) ==> v@.len() == edits.len() && forall|i: int| 0 <= i < v@.len() ==> {
                &&& (#[trigger] v@[i]).title@ == edits[i].0
                &&& v@[i].new_text@ == edits[i].2
                &&& range_is(v@[i].range, t, edits[i].1, encoding)
            }
        }),
{
    let text = e.source_text();
    let ghost t = error_bytes(*e);
    proof {
        assert(text.spec_bytes() == t);
    }
    let ps = patches(e);
    let ghost edits = patch_specs(e.spec_kind(), e.spec_range(), t.len() as int);
    let mut fixes: Vec<QuickFix> = Vec::new();
    let mut i: usize = 0;
    while i < ps.len()
        invariant
            text.spec_bytes() == t,
            t == error_bytes(*e),
            edits == patch_specs(e.spec_kind(), e.spec_range(), t.len() as int),
            ps@.map_values(|p: Patch| patch_view(p)) == edits,
            i <= ps@.len(),
            fixes@.len() == i,
            forall|j: int| 0 <= j < i ==> span_fits(t, #[trigger] edits[j].1, encoding),
            forall|j: int| 0 <= j < i ==> {
                &&& (#[trigger] fixes@[j]).title@ == edits[j].0
                &&& fixes@[j].new_text@ == edits[j].2
                &&& range_is(fixes@[j].range, t, edits[j].1, encoding)
            },
        decreases ps@.len() - i,
    {
        proof {
            assert(edits[i as int] == patch_view(ps@[i as int]));
        }
        match checked_range(text, ps[i].span, encoding) {
            Some(r) => {
                fixes.push(
                    QuickFix { title: ps[i].message.clone(), range: r, new_text: ps[i].replacement.clone() },
                );
            },
            None => {
                proof {
                    assert(!span_fits(t, edits[i as int].1, encoding));
                }
                return None;
            },
        }
        i = i + 1;
    }
    Some(fixes)
}

/// In the UTF-8 text `t`, a position counted in UTF-16 code units is on the
/// same line as in bytes, and no further along it.
pub proof fn lemma_utf16_column_at_most_utf8(t: Seq<u8>, offset: int)
    requires
        valid_utf8(t),
        is_char_boundary(t, clamp(t, offset)),
    ensures
        position_at(t, offset, PositionEncoding::Utf16).0 == position_at(t, offset, PositionEncoding::Utf8).0,
        position_at(t, offset, PositionEncoding::Utf16).1 <= position_at(t, offset, PositionEncoding::Utf8).1,
{
    let end = clamp(t, offset);
    let before = t.subrange(0, end);
    valid_utf8_split(t, end);
    lemma_line_start_bounds(before);
    let ls = line_start(before);
    if ls > 0 {
        assert(before[ls - 1] == 10);
    }
    lemma_ascii_suffix_valid(before, ls);
    let last = before.subrange(ls, before.len() as int);
    lemma_utf16_at_most_bytes(last);
    decode_utf8_encode_utf8(last);
    lemma_utf16_units_encode(decode_utf8(last));
}

} // verus!
