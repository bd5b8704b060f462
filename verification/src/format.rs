//! writing JSON back out: compact, or pretty with a preferred width
pub mod prettify;
pub mod uglify;

use vstd::prelude::*;

use crate::text::{push_char, push_str};
use crate::tokens::lexical::{JsonChar, is_control_char, spec_direct_escape, spec_escape};
use crate::tokens::{FALSE, NULL, TRUE};

verus! {

/// how lines end
#[derive(Debug, Clone, Copy, PartialEq, Eq, Structural)]
pub enum LineEnding {
    Lf,
    CrLf,
    Cr,
}

pub open spec fn line_ending_chars(le: LineEnding) -> Seq<char> {
    match le {
        LineEnding::Lf => seq!['\n'],
        LineEnding::CrLf => seq!['\r', '\n'],
        LineEnding::Cr => seq!['\r'],
    }
}

impl LineEnding {
    pub fn as_str(self) -> (res: &'static str)
        ensures
            res@ == line_ending_chars(self),
    {
        proof {
            reveal_strlit("\n");
            reveal_strlit("\r\n");
            reveal_strlit("\r");
        }
        match self {
            LineEnding::Lf => "\n",
            LineEnding::CrLf => "\r\n",
            LineEnding::Cr => "\r",
        }
    }
}

/// `s` between double quotes
pub open spec fn quoted(s: Seq<char>) -> Seq<char> {
    seq!['"'] + s + seq!['"']
}

pub open spec fn null_chars() -> Seq<char> {
    seq!['n', 'u', 'l', 'l']
}

pub open spec fn bool_chars(b: bool) -> Seq<char> {
    if b {
        seq!['t', 'r', 'u', 'e']
    } else {
        seq!['f', 'a', 'l', 's', 'e']
    }
}

/// what writes JSON text: chars and strings are added at its end
pub trait Emitter {
    /// what was written so far
    spec fn emitted(&self) -> Seq<char>;

    fn push(&mut self, c: char)
        ensures
            final(self).emitted() == old(self).emitted().push(c),
    ;

    fn push_str(&mut self, s: &str)
        ensures
            final(self).emitted() == old(self).emitted() + s@,
    ;

    fn push_quoted(&mut self, s: &str)
        ensures
            final(self).emitted() == old(self).emitted() + quoted(s@),
    {
        self.push('"');
        self.push_str(s);
        self.push('"');
        assert(self.emitted() =~= old(self).emitted() + quoted(s@));
    }

    fn emit_null(&mut self)
        ensures
            final(self).emitted() == old(self).emitted() + null_chars(),
    {
        proof {
            reveal_strlit("null");
        }
        self.push_str(NULL);
    }

    fn emit_string(&mut self, s: &str)
        ensures
            final(self).emitted() == old(self).emitted() + quoted(s@),
    {
        self.push_quoted(s);
    }

    fn emit_mantissa(&mut self, n: &str)
        ensures
            final(self).emitted() == old(self).emitted() + n@,
    {
        self.push_str(n);
    }

    fn emit_exponent(&mut self, e: &str)
        ensures
            final(self).emitted() == old(self).emitted() + seq!['e'] + e@,
    {
        self.push('e');
        self.push_str(e);
        assert(self.emitted() =~= old(self).emitted() + seq!['e'] + e@);
    }

    fn emit_boolean(&mut self, b: bool)
        ensures
            final(self).emitted() == old(self).emitted() + bool_chars(b),
    {
        proof {
            reveal_strlit("true");
            reveal_strlit("false");
        }
        if b {
            self.push_str(TRUE);
        } else {
            self.push_str(FALSE);
        }
    }

    fn emit_item_delim(&mut self)
        ensures
            final(self).emitted() == old(self).emitted().push(','),
    {
        self.push(',');
    }

    fn emit_array_open(&mut self)
        ensures
            final(self).emitted() == old(self).emitted().push('['),
    {
        self.push('[');
    }

    fn emit_array_close(&mut self)
        ensures
            final(self).emitted() == old(self).emitted().push(']'),
    {
        self.push(']');
    }

    fn emit_object_open(&mut self)
        ensures
            final(self).emitted() == old(self).emitted().push('{'),
    {
        self.push('{');
    }

    fn emit_object_close(&mut self)
        ensures
            final(self).emitted() == old(self).emitted().push('}'),
    {
        self.push('}');
    }

    fn emit_key_val_delim(&mut self)
        ensures
            final(self).emitted() == old(self).emitted().push(':'),
    {
        self.push(':');
    }
}

/// the width pretty text aims for when none is asked for
pub const DEFAULT_PREFERRED_WIDTH: usize = 80;

/// how to prettify: the width to aim for, and how lines end
#[derive(Debug, Clone, Copy, PartialEq, Eq, Structural)]
pub struct PrettifyOptions {
    pub preferred_width: usize,
    pub line_ending: LineEnding,
}

impl PrettifyOptions {
    /// aiming for `preferred_width`, or for [`DEFAULT_PREFERRED_WIDTH`] when
    /// none is given
    pub fn new(preferred_width: Option<usize>, line_ending: LineEnding) -> (res: Self)
        ensures
            res.preferred_width == match preferred_width {
                Some(w) => w,
                None => DEFAULT_PREFERRED_WIDTH,
            },
            res.line_ending == line_ending,
    {
        let preferred_width = match preferred_width {
            Some(w) => w,
            None => DEFAULT_PREFERRED_WIDTH,
        };
        PrettifyOptions { preferred_width, line_ending }
    }
}

/// how to write JSON lines: how lines end
#[derive(Debug, Clone, Copy, PartialEq, Eq, Structural)]
pub struct JsonlinesOptions {
    pub line_ending: LineEnding,
}

/// how to write one JSON value: pretty or compact
#[derive(Debug, Clone, Copy, PartialEq, Eq, Structural)]
pub enum JsonMode {
    Prettify(PrettifyOptions),
    Uglify,
}

/// what to read the input as, and how to write it
#[derive(Debug, Clone, Copy, PartialEq, Eq, Structural)]
pub enum FormatRequest {
    Json(JsonMode),
    Jsonlines(JsonlinesOptions),
}

/// how a char is written in a JSON string: with its two-char escape where one
/// is needed (`/` needs none), control chars as `\u` escapes, others as they are
pub open spec fn json_char_escaped(c: char) -> Seq<char> {
    if spec_direct_escape(c) is Some && c != '/' {
        seq!['\\', spec_direct_escape(c).unwrap()]
    } else if is_control_char(c) {
        spec_escape(c)
    } else {
        seq![c]
    }
}

/// chars as they are written in a JSON string
pub open spec fn json_escaped(cs: Seq<char>) -> Seq<char>
    decreases cs.len(),
{
    if cs.len() == 0 {
        Seq::empty()
    } else {
        json_escaped(cs.drop_last()) + json_char_escaped(cs.last())
    }
}

/// writes `s` as a JSON string: in quotes, with what must be escaped escaped
pub fn emit_json_string<E: Emitter>(emitter: &mut E, s: &str)
    ensures
        final(emitter).emitted() == old(emitter).emitted() + quoted(json_escaped(s@)),
{
    let ghost start = emitter.emitted();
    let ghost cs = s@;
    emitter.push('"');
    for c in it: s.chars()
        invariant
            it.seq() == cs,
            emitter.emitted() == start.push('"') + json_escaped(cs.subrange(0, it.index() as int)),
    {
        let ghost before = emitter.emitted();
        let json_char = JsonChar(c);
        match json_char.minimal_escape() {
            Some(escaped) => emitter.push_str(escaped),
            None => {
                if json_char.is_control() {
                    let e = json_char.escape();
                    emitter.push_str(e.as_str());
                } else {
                    emitter.push(c);
                }
            },
        }
        proof {
            let pre = cs.subrange(0, it.index() as int);
            let post = cs.subrange(0, it.index() + 1);
            assert(post.drop_last() =~= pre);
            assert(post.last() == c);
            assert(emitter.emitted() =~= before + json_char_escaped(c));
        }
    }
    emitter.push('"');
    proof {
        assert(cs.subrange(0, cs.len() as int) =~= cs);
        assert(emitter.emitted() =~= start + quoted(json_escaped(cs)));
    }
}

} // verus!
