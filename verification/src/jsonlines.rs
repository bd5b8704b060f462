//! JSON Lines: one JSON value on each line, lines split at `\n`, and one
//! `\n` allowed at the end of the text
use vstd::prelude::*;
use vstd::string::StringSliceAdditionalSpecFns;
use vstd::utf8::*;

use crate::ast::{SpecValue, Value, parse_at, parse_window};
use crate::check::parse_whole;
use crate::diagnostics::diagnosable;
use crate::error::{Error, site_range};
use crate::format::LineEnding;
use crate::format::line_ending_chars;
use crate::format::uglify::{uglified, uglify_str_into};
use crate::text::{ascii_boundary, lemma_ascii_boundary, lemma_str_bytes, push_str, substr};
use crate::tokens::{ErrorSite, Span, sp};
use crate::traverse::{Fault, PVal, fails, slice_chars};
use crate::tokens::stream::{next_tok, ws_end};

verus! {

/// the text without the one `\n` it may end with
pub open spec fn strip_newline(t: Seq<u8>) -> Seq<u8> {
    if t.len() > 0 && t.last() == 0x0A {
        t.drop_last()
    } else {
        t
    }
}

/// the first offset at or after `p` that holds `\n`, or the end
pub open spec fn newline_at(t: Seq<u8>, p: int) -> int
    decreases t.len() - p,
{
    if p >= t.len() || p < 0 {
        t.len() as int
    } else if t[p] == 0x0A {
        p
    } else {
        newline_at(t, p + 1)
    }
}

/// the lines of `t` from offset `p`, split at each `\n`
pub open spec fn lines_from(t: Seq<u8>, p: int) -> Seq<Span>
    decreases t.len() - p,
{
    let e = newline_at(t, p);
    if p < 0 || e >= t.len() || e < p {
        seq![sp(p, t.len() as int)]
    } else {
        seq![sp(p, e)] + lines_from(t, e + 1)
    }
}

/// the lines of `t`: there is always at least one, maybe empty
pub open spec fn lines(t: Seq<u8>) -> Seq<Span> {
    lines_from(t, 0)
}

/// the values of the lines `ls` of `t`, or where the first line that is no JSON
/// value fails
pub open spec fn parse_lines(t: Seq<u8>, ls: Seq<Span>) -> Result<Seq<SpecValue>, (Fault, ErrorSite)>
    decreases ls.len(),
{
    if ls.len() == 0 {
        Ok(Seq::empty())
    } else {
        match parse_lines(t, ls.drop_last()) {
            Ok(vs) => match parse_window(t, ls.last().start as int, ls.last().end as int) {
                PVal::Done(v, _) => Ok(vs.push(v)),
                PVal::Failed(f, site) => Err((f, site)),
            },
            Err(fs) => Err(fs),
        }
    }
}

/// the compact text of the lines `ls` of `t`, joined by `le`, or nothing when a
/// line is no JSON value
pub open spec fn format_lines(t: Seq<u8>, ls: Seq<Span>, le: LineEnding) -> Option<Seq<char>>
    decreases ls.len(),
{
    if ls.len() == 0 {
        Some(Seq::empty())
    } else {
        match format_lines(t, ls.drop_last(), le) {
            Some(out) => match uglified(t.subrange(ls.last().start as int, ls.last().end as int)) {
                Some(line) => Some(
                    if ls.len() > 1 {
                        out + line_ending_chars(le) + line
                    } else {
                        line
                    },
                ),
                None => None,
            },
            None => None,
        }
    }
}

/// the first of the lines `ls` of `t` that is no JSON value, with what went
/// wrong in it and where, in the line's own bytes
pub open spec fn line_failure(t: Seq<u8>, ls: Seq<Span>) -> Option<(Span, Fault, ErrorSite)>
    decreases ls.len(),
{
    if ls.len() == 0 {
        None
    } else {
        match line_failure(t, ls.drop_last()) {
            Some(x) => Some(x),
            None => match parse_whole(t.subrange(ls.last().start as int, ls.last().end as int)) {
                PVal::Failed(f, site) => Some((ls.last(), f, site)),
                _ => None,
            },
        }
    }
}

proof fn lemma_newline_at(t: Seq<u8>, p: int)
    requires
        0 <= p <= t.len(),
    ensures
        p <= newline_at(t, p) <= t.len(),
        newline_at(t, p) < t.len() ==> t[newline_at(t, p)] == 0x0A,
        forall|i: int| p <= i < newline_at(t, p) ==> #[trigger] t[i] != 0x0A,
    decreases t.len() - p,
{
    if p < t.len() && t[p] != 0x0A {
        lemma_newline_at(t, p + 1);
    }
}

/// the lines from `p` lie in `t`, and their ends sit next to ASCII bytes
proof fn lemma_lines_from(t: Seq<u8>, p: int)
    requires
        0 <= p <= t.len(),
        t.len() <= usize::MAX,
        p == 0 || t[p - 1] == 0x0A,
    ensures
        forall|i: int|
            0 <= i < lines_from(t, p).len() ==> {
                let l = #[trigger] lines_from(t, p)[i];
                &&& p <= l.start <= l.end <= t.len()
                &&& ascii_boundary(t, l.start as int)
                &&& ascii_boundary(t, l.end as int)
            },
        lines_from(t, p).len() >= 1,
    decreases t.len() - p,
{
    lemma_newline_at(t, p);
    let e = newline_at(t, p);
    if e < t.len() {
        lemma_lines_from(t, e + 1);
        let rest = lines_from(t, e + 1);
        assert forall|i: int| 0 <= i < lines_from(t, p).len() implies {
            let l = #[trigger] lines_from(t, p)[i];
            &&& p <= l.start <= l.end <= t.len()
            &&& ascii_boundary(t, l.start as int)
            &&& ascii_boundary(t, l.end as int)
        } by {
            if i > 0 {
                assert(lines_from(t, p)[i] == rest[i - 1]);
            }
        }
    }
}

/// a text of JSON Lines and the values of its lines
#[derive(Debug)]
pub struct JsonlinesDocument<'a> {
    source: &'a str,
    values: Vec<Value>,
}

impl<'a> JsonlinesDocument<'a> {
    pub closed spec fn spec_source(&self) -> &'a str {
        self.source
    }

    pub closed spec fn spec_values(&self) -> Seq<SpecValue> {
        self.values@.map_values(|v: Value| v@)
    }

    /// reads each line of `source` as one JSON value; errors are reported in
    /// `source` without its last `\n`
    pub fn parse(source: &'a str) -> (res: Result<Self, Error>)
        ensures
            match parse_lines(
                strip_newline(source.spec_bytes()),
                lines(strip_newline(source.spec_bytes())),
            ) {
                Ok(vs) => res matches Ok(d) && d.spec_values() == vs && d.spec_source() == source,
                Err((f, site)) => res matches Err(e) && fails(e, f, site, strip_newline(source.spec_bytes())),
            },
    {
        let text = strip_trailing_newline(source);
        let ghost t = text.spec_bytes();
        let bytes = text.as_bytes();
        let len = bytes.len();
        proof {
            lemma_str_bytes(text);
            lemma_lines_from(t, 0);
        }
        let mut values: Vec<Value> = Vec::new();
        let mut offset: usize = 0;
        let ghost mut done: Seq<Span> = Seq::empty();
        proof {
            assert(values@.map_values(|v: Value| v@) =~= Seq::<SpecValue>::empty());
            assert(done + lines_from(t, 0) =~= lines(t));
        }
        loop
            invariant
                t == text.spec_bytes(),
                bytes@ == t,
                len == t.len(),
                valid_utf8(t),
                offset <= len,
                offset == 0 || t[offset - 1] == 0x0A,
                done + lines_from(t, offset as int) == lines(t),
                parse_lines(t, done) == Ok::<Seq<SpecValue>, (Fault, ErrorSite)>(
                    values@.map_values(|v: Value| v@),
                ),
                t == strip_newline(source.spec_bytes()),
            decreases len - offset,
        {
            let end = find_newline(bytes, offset);
            proof {
                lemma_newline_at(t, offset as int);
                lemma_lines_from(t, offset as int);
                assert(lines_from(t, offset as int)[0] == sp(offset as int, end as int));
                lemma_ascii_boundary(t, offset as int);
                lemma_ascii_boundary(t, end as int);
            }
            let r = Span { start: offset, end };
            let ghost line_done = done.push(r);
            proof {
                assert(line_done.drop_last() =~= done);
            }
            match parse_at(text, r) {
                Ok(doc) => {
                    let v = doc.into_root();
                    proof {
                        let old_vals = values@;
                        assert(old_vals.push(v).map_values(|x: Value| x@) =~= old_vals.map_values(
                            |x: Value| x@,
                        ).push(v@));
                    }
                    values.push(v);
                    proof {
                        done = line_done;
                    }
                },
                Err(e) => {
                    proof {
                        let lf = lines_from(t, offset as int);
                        assert(lines(t).subrange(0, line_done.len() as int) =~= line_done) by {
                            assert forall|i: int| 0 <= i < line_done.len() implies lines(t)[i]
                                == line_done[i] by {
                                assert(lines(t)[i] == (done + lf)[i]);
                            }
                        }
                        lemma_parse_lines_prefix_err(t, line_done, lines(t));
                    }
                    return Err(e);
                },
            }
            if end >= len {
                proof {
                    assert(lines_from(t, offset as int) =~= seq![r]);
                    assert(done =~= lines(t));
                }
                return Ok(JsonlinesDocument { source, values });
            }
            proof {
                assert(lines_from(t, offset as int) =~= seq![r] + lines_from(t, end + 1));
                assert(done + lines_from(t, end + 1) =~= lines(t));
            }
            offset = end + 1;
        }
    }

    pub fn source(&self) -> (res: &'a str)
        ensures
            res == self.spec_source(),
    {
        self.source
    }

    pub fn len(&self) -> (res: usize)
        ensures
            res == self.spec_values().len(),
    {
        self.values.len()
    }

    pub fn is_empty(&self) -> (res: bool)
        ensures
            res == (self.spec_values().len() == 0),
    {
        self.values.len() == 0
    }
}

/// once a line fails, reading more lines fails the same way
proof fn lemma_parse_lines_prefix_err(t: Seq<u8>, pre: Seq<Span>, all: Seq<Span>)
    requires
        parse_lines(t, pre) is Err,
        pre.len() <= all.len(),
        pre == all.subrange(0, pre.len() as int),
    ensures
        parse_lines(t, all) == parse_lines(t, pre),
    decreases all.len() - pre.len(),
{
    if pre.len() < all.len() {
        let next = all.subrange(0, pre.len() + 1int);
        assert(next.drop_last() =~= pre);
        lemma_parse_lines_prefix_err(t, next, all);
    } else {
        assert(pre =~= all);
    }
}

/// `source` without the one `\n` it may end with
fn strip_trailing_newline(source: &str) -> (res: &str)
    ensures
        res.spec_bytes() == strip_newline(source.spec_bytes()),
{
    let bytes = source.as_bytes();
    let n = bytes.len();
    proof {
        lemma_str_bytes(source);
        is_char_boundary_start_end_of_seq(bytes@);
    }
    if n > 0 && bytes[n - 1] == 0x0A {
        proof {
            assert(ascii_boundary(bytes@, n - 1));
            lemma_ascii_boundary(bytes@, n - 1);
        }
        substr(source, 0, n - 1)
    } else {
        proof {
            assert(bytes@.subrange(0, n as int) =~= bytes@);
        }
        substr(source, 0, n)
    }
}

/// the first offset at or after `p` that holds `\n`, or the end
fn find_newline(bytes: &[u8], p: usize) -> (res: usize)
    requires
        p <= bytes@.len(),
    ensures
        res == newline_at(bytes@, p as int),
{
    let mut i = p;
    while i < bytes.len() && bytes[i] != 0x0A
        invariant
            p <= i <= bytes@.len(),
            newline_at(bytes@, p as int) == newline_at(bytes@, i as int),
        decreases bytes@.len() - i,
    {
        i = i + 1;
    }
    i
}

/// reads each line of `source` as one JSON value
pub fn parse(source: &str) -> (res: Result<JsonlinesDocument, Error>)
    ensures
        match parse_lines(strip_newline(source.spec_bytes()), lines(strip_newline(source.spec_bytes()))) {
            Ok(vs) => res matches Ok(d) && d.spec_values() == vs && d.spec_source() == source,
            Err((f, site)) => res matches Err(e) && fails(e, f, site, strip_newline(source.spec_bytes())),
        },
{
    JsonlinesDocument::parse(source)
}

/// each line of `source` written compactly, the lines joined by `line_ending`
pub fn format(source: &str, line_ending: LineEnding) -> (res: Result<String, Error>)
    ensures
        match format_lines(
            strip_newline(source.spec_bytes()),
            lines(strip_newline(source.spec_bytes())),
            line_ending,
        ) {
            Some(out) => res matches Ok(s) && s@ == out,
            None => res is Err,
        },
        line_failure(strip_newline(source.spec_bytes()), lines(strip_newline(source.spec_bytes())))
            matches Some((r, f, site)) ==> res matches Err(e) && fails(
            e,
            f,
            site,
            strip_newline(source.spec_bytes()).subrange(r.start as int, r.end as int),
        ),
        res matches Err(e) ==> diagnosable(e),
{
    let text = strip_trailing_newline(source);
    let ghost t = text.spec_bytes();
    let bytes = text.as_bytes();
    let len = bytes.len();
    proof {
        lemma_str_bytes(text);
        lemma_lines_from(t, 0);
    }
    let mut result = String::new();
    let mut offset: usize = 0;
    let ghost mut done: Seq<Span> = Seq::empty();
    proof {
        assert(done + lines_from(t, 0) =~= lines(t));
    }
    loop
        invariant
            t == text.spec_bytes(),
            bytes@ == t,
            len == t.len(),
            valid_utf8(t),
            offset <= len,
            offset == 0 || t[offset - 1] == 0x0A,
            done + lines_from(t, offset as int) == lines(t),
            format_lines(t, done, line_ending) == Some(result@),
            line_failure(t, done) is None,
            (offset == 0) == (done.len() == 0),
            t == strip_newline(source.spec_bytes()),
        decreases len - offset,
    {
        let end = find_newline(bytes, offset);
        proof {
            lemma_newline_at(t, offset as int);
            lemma_lines_from(t, offset as int);
            assert(lines_from(t, offset as int)[0] == sp(offset as int, end as int));
            lemma_ascii_boundary(t, offset as int);
            lemma_ascii_boundary(t, end as int);
        }
        let r = Span { start: offset, end };
        let ghost line_done = done.push(r);
        proof {
            assert(line_done.drop_last() =~= done);
        }
        let line = substr(text, offset, end);
        if offset > 0 {
            push_str(&mut result, line_ending.as_str());
        }
        match uglify_str_into(&mut result, line) {
            Ok(()) => {
                proof {
                    done = line_done;
                    assert(format_lines(t, done, line_ending) =~~= Some(result@));
                }
            },
            Err(e) => {
                proof {
                    let lf = lines_from(t, offset as int);
                    assert(lines(t).subrange(0, line_done.len() as int) =~= line_done) by {
                        assert forall|i: int| 0 <= i < line_done.len() implies lines(t)[i]
                            == line_done[i] by {
                            assert(lines(t)[i] == (done + lf)[i]);
                        }
                    }
                    lemma_format_lines_prefix_none(t, line_done, lines(t), line_ending);
                    lemma_line_failure_prefix(t, line_done, lines(t));
                }
                return Err(e);
            },
        }
        if end >= len {
            proof {
                assert(lines_from(t, offset as int) =~= seq![r]);
                assert(done =~= lines(t));
            }
            return Ok(result);
        }
        proof {
            assert(lines_from(t, offset as int) =~= seq![r] + lines_from(t, end + 1));
            assert(done + lines_from(t, end + 1) =~= lines(t));
        }
        offset = end + 1;
    }
}

/// Formatting JSON Lines succeeds exactly when every line is one JSON value:
/// no line is skipped, whatever it holds.
pub proof fn lemma_formatted_iff_every_line_parses(t: Seq<u8>, ls: Seq<Span>, le: LineEnding)
    ensures
        format_lines(t, ls, le) is Some <==> forall|i: int|
            0 <= i < ls.len() ==> parse_whole(
                t.subrange(#[trigger] ls[i].start as int, ls[i].end as int),
            ) is Done,
    decreases ls.len(),
{
    if ls.len() > 0 {
        let pre = ls.drop_last();
        lemma_formatted_iff_every_line_parses(t, pre, le);
        let last = ls.last();
        assert(ls[ls.len() - 1] == last);
        if format_lines(t, ls, le) is Some {
            assert forall|i: int| 0 <= i < ls.len() implies parse_whole(
                t.subrange(#[trigger] ls[i].start as int, ls[i].end as int),
            ) is Done by {
                if i < pre.len() {
                    assert(ls[i] == pre[i]);
                }
            }
        } else if forall|i: int|
            0 <= i < ls.len() ==> parse_whole(
                t.subrange(#[trigger] ls[i].start as int, ls[i].end as int),
            ) is Done {
            assert forall|i: int| 0 <= i < pre.len() implies parse_whole(
                t.subrange(#[trigger] pre[i].start as int, pre[i].end as int),
            ) is Done by {
                assert(ls[i] == pre[i]);
            }
            assert(parse_whole(t.subrange(ls[ls.len() - 1].start as int, ls[ls.len() - 1].end as int)) is Done);
        }
    }
}

/// An empty text is no JSON value.
pub proof fn lemma_empty_text_is_no_value()
    ensures
        parse_whole(Seq::<u8>::empty()) is Failed,
{
    let e = Seq::<u8>::empty();
    assert(ws_end(e, 0) == 0);
    assert(next_tok(e, 0) is End);
}

/// A text of JSON Lines with an empty line, other than the one `\n` it may
/// end with, cannot be formatted: each line must be a JSON value.
pub proof fn lemma_empty_line_fails_format(t: Seq<u8>, ls: Seq<Span>, le: LineEnding, i: int)
    requires
        0 <= i < ls.len(),
        ls[i].start == ls[i].end,
        ls[i].end <= t.len(),
    ensures
        format_lines(t, ls, le) is None,
{
    lemma_formatted_iff_every_line_parses(t, ls, le);
    lemma_empty_text_is_no_value();
    assert(t.subrange(ls[i].start as int, ls[i].end as int) =~= Seq::<u8>::empty());
}

/// the compact text of the line `r` of `t`, when it is a JSON value
pub open spec fn line_text(t: Seq<u8>, r: Span) -> Seq<char> {
    uglified(t.subrange(r.start as int, r.end as int)).unwrap()
}

/// Formatted JSON Lines are the compact texts of the lines, each once and in
/// order, with one line ending between two of them and none before the first
/// or after the last: the returned offsets are where each line's text stands.
pub proof fn lemma_formatted_lines_joined(t: Seq<u8>, ls: Seq<Span>, le: LineEnding) -> (ps: Seq<int>)
    requires
        format_lines(t, ls, le) is Some,
    ensures
        ({
            let out = format_lines(t, ls, le).unwrap();
            let sep = line_ending_chars(le);
            &&& ps.len() == ls.len()
            &&& ls.len() == 0 ==> out.len() == 0
            &&& ls.len() > 0 ==> ps[0] == 0 && ps.last() + line_text(t, ls.last()).len() == out.len()
            &&& forall|i: int|
                0 <= i < ls.len() ==> 0 <= #[trigger] ps[i] && ps[i] + line_text(t, ls[i]).len() <= out.len()
                    && out.subrange(ps[i], ps[i] + line_text(t, ls[i]).len()) == line_text(t, ls[i])
            &&& forall|i: int|
                0 <= i < ls.len() - 1 ==> ps[i] + line_text(t, ls[i]).len() + sep.len() == ps[i + 1]
                    && out.subrange(ps[i] + line_text(t, ls[i]).len(), #[trigger] ps[i + 1]) == sep
        }),
    decreases ls.len(),
{
    let sep = line_ending_chars(le);
    if ls.len() == 0 {
        Seq::empty()
    } else {
        let pre = ls.drop_last();
        let out = format_lines(t, ls, le).unwrap();
        let last = line_text(t, ls.last());
        assert(format_lines(t, pre, le) is Some);
        let out1 = format_lines(t, pre, le).unwrap();
        let ps1 = lemma_formatted_lines_joined(t, pre, le);
        let p: int = if ls.len() > 1 {
            (out1.len() + sep.len()) as int
        } else {
            0
        };
        if ls.len() > 1 {
            assert(out =~= out1 + sep + last);
        } else {
            assert(out =~= last);
        }
        let ps = ps1.push(p);
        assert(out.subrange(p, p + last.len()) =~= last);
        assert forall|i: int|
            0 <= i < ls.len() implies 0 <= #[trigger] ps[i] && ps[i] + line_text(t, ls[i]).len() <= out.len()
                && out.subrange(ps[i], ps[i] + line_text(t, ls[i]).len()) == line_text(t, ls[i]) by {
            if i < pre.len() {
                assert(ps[i] == ps1[i]);
                assert(ls[i] == pre[i]);
                let x = line_text(t, ls[i]);
                assert(out.subrange(ps[i], ps[i] + x.len()) =~= out1.subrange(ps[i], ps[i] + x.len()));
            }
        }
        assert forall|i: int|
            0 <= i < ls.len() - 1 implies ps[i] + line_text(t, ls[i]).len() + sep.len() == ps[i + 1]
                && out.subrange(ps[i] + line_text(t, ls[i]).len(), #[trigger] ps[i + 1]) == sep by {
            assert(ps[i] == ps1[i]);
            assert(ls[i] == pre[i]);
            let x = line_text(t, ls[i]);
            if i < pre.len() - 1 {
                assert(ps[i + 1] == ps1[i + 1]);
                assert(out.subrange(ps[i] + x.len(), ps[i + 1]) =~= out1.subrange(ps[i] + x.len(), ps[i + 1]));
            } else {
                assert(pre.last() == ls[i]);
                assert(out.subrange(ps[i] + x.len(), ps[i + 1]) =~= sep);
            }
        }
        ps
    }
}

/// the first line that is no JSON value stays the first when more lines follow
proof fn lemma_line_failure_prefix(t: Seq<u8>, pre: Seq<Span>, all: Seq<Span>)
    requires
        line_failure(t, pre) is Some,
        pre.len() <= all.len(),
        pre == all.subrange(0, pre.len() as int),
    ensures
        line_failure(t, all) == line_failure(t, pre),
    decreases all.len() - pre.len(),
{
    if pre.len() < all.len() {
        let next = all.subrange(0, pre.len() + 1int);
        assert(next.drop_last() =~= pre);
        lemma_line_failure_prefix(t, next, all);
    } else {
        assert(pre =~= all);
    }
}

/// once a line is no JSON value, formatting more lines gives nothing
proof fn lemma_format_lines_prefix_none(t: Seq<u8>, pre: Seq<Span>, all: Seq<Span>, le: LineEnding)
    requires
        format_lines(t, pre, le) is None,
        pre.len() <= all.len(),
        pre == all.subrange(0, pre.len() as int),
    ensures
        format_lines(t, all, le) is None,
    decreases all.len() - pre.len(),
{
    if pre.len() < all.len() {
        let next = all.subrange(0, pre.len() + 1int);
        assert(next.drop_last() =~= pre);
        lemma_format_lines_prefix_none(t, next, all, le);
    } else {
        assert(pre =~= all);
    }
}

} // verus!
