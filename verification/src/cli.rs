//! the command line of the `jjp` tool: its commands and their arguments, how
//! they become a request, and the help text helpers
use vstd::prelude::*;
use vstd::string::StringSliceAdditionalSpecFns;
use vstd::utf8::valid_utf8;

use crate::format::{FormatRequest, JsonMode, JsonlinesOptions, LineEnding, PrettifyOptions};
use crate::text::{lemma_ascii_boundary, lemma_str_bytes, push_char, substr};

verus! {

/// how output lines end
#[derive(Clone, Copy, Debug, Eq, PartialEq, Structural)]
pub enum LineEndingArg {
    Lf,
    CrLf,
    Cr,
}

/// line feeds, unless asked otherwise
impl Default for LineEndingArg {
    fn default() -> (res: Self)
        ensures
            res == LineEndingArg::Lf,
    {
        LineEndingArg::Lf
    }
}

pub open spec fn line_ending_of(a: LineEndingArg) -> LineEnding {
    match a {
        LineEndingArg::Lf => LineEnding::Lf,
        LineEndingArg::CrLf => LineEnding::CrLf,
        LineEndingArg::Cr => LineEnding::Cr,
    }
}

impl LineEndingArg {
    pub fn into_parse(self) -> (res: LineEnding)
        ensures
            res == line_ending_of(self),
    {
        match self {
            LineEndingArg::Lf => LineEnding::Lf,
            LineEndingArg::CrLf => LineEnding::CrLf,
            LineEndingArg::Cr => LineEnding::Cr,
        }
    }
}

/// what the input is read as
#[derive(Clone, Copy, Debug, Eq, PartialEq, Structural)]
pub enum ParserArg {
    Json,
    Jsonlines,
}

/// one JSON value, unless asked otherwise
impl Default for ParserArg {
    fn default() -> (res: Self)
        ensures
            res == ParserArg::Json,
    {
        ParserArg::Json
    }
}

/// the commands of the tool
#[derive(Clone, Copy, Debug, Eq, PartialEq, Structural)]
pub enum Commands {
    /// make your json look really good
    Format {
        uglify: bool,
        preferred_width: Option<usize>,
        end_of_line: LineEndingArg,
        parser: ParserArg,
    },
    /// validates json syntax
    Check { parser: ParserArg },
    /// start a language server over stdio
    Lsp,
}

/// the command line
#[derive(Clone, Copy, Debug, Eq, PartialEq, Structural)]
pub struct Cli {
    pub command: Commands,
}

/// arguments of `format` that cannot go together
#[derive(Clone, Copy, Debug, Eq, PartialEq, Structural)]
pub enum Conflict {
    JsonlinesWithUglify,
    JsonlinesWithPreferredWidth,
}

pub open spec fn conflict_message(c: Conflict) -> Seq<char> {
    match c {
        Conflict::JsonlinesWithUglify => "error: the argument '--parser jsonlines' cannot be used with '--uglify'\n\nUsage: jjp format --parser jsonlines\n\nFor more information, try '--help'."@,
        Conflict::JsonlinesWithPreferredWidth => "error: the argument '--parser jsonlines' cannot be used with '--preferred-width'\n\nUsage: jjp format --parser jsonlines\n\nFor more information, try '--help'."@,
    }
}

impl Conflict {
    /// what the tool prints for the conflict
    pub fn message(self) -> (res: &'static str)
        ensures
            res@ == conflict_message(self),
    {
        match self {
            Conflict::JsonlinesWithUglify => "error: the argument '--parser jsonlines' cannot be used with '--uglify'\n\nUsage: jjp format --parser jsonlines\n\nFor more information, try '--help'.",
            Conflict::JsonlinesWithPreferredWidth => "error: the argument '--parser jsonlines' cannot be used with '--preferred-width'\n\nUsage: jjp format --parser jsonlines\n\nFor more information, try '--help'.",
        }
    }
}

/// the request that the arguments of `format` make: JSON lines are written
/// compactly, with no width, so neither `--uglify` nor a width goes with them
pub fn format_request(
    uglify: bool,
    preferred_width: Option<usize>,
    end_of_line: LineEndingArg,
    parser: ParserArg,
) -> (res: Result<FormatRequest, Conflict>)
    ensures
        res == match parser {
            ParserArg::Jsonlines => if uglify {
                Err(Conflict::JsonlinesWithUglify)
            } else if preferred_width is Some {
                Err(Conflict::JsonlinesWithPreferredWidth)
            } else {
                Ok(FormatRequest::Jsonlines(JsonlinesOptions { line_ending: line_ending_of(end_of_line) }))
            },
            ParserArg::Json => if uglify {
                Ok(FormatRequest::Json(JsonMode::Uglify))
            } else {
                Ok(
                    FormatRequest::Json(
                        JsonMode::Prettify(
                            PrettifyOptions {
                                preferred_width: match preferred_width {
                                    Some(w) => w,
                                    None => 80usize,
                                },
                                line_ending: line_ending_of(end_of_line),
                            },
                        ),
                    ),
                )
            },
        },
{
    match parser {
        ParserArg::Jsonlines => {
            if uglify {
                Err(Conflict::JsonlinesWithUglify)
            } else if preferred_width.is_some() {
                Err(Conflict::JsonlinesWithPreferredWidth)
            } else {
                Ok(FormatRequest::Jsonlines(JsonlinesOptions { line_ending: end_of_line.into_parse() }))
            }
        },
        ParserArg::Json => {
            if uglify {
                Ok(FormatRequest::Json(JsonMode::Uglify))
            } else {
                Ok(
                    FormatRequest::Json(
                        JsonMode::Prettify(PrettifyOptions::new(preferred_width, end_of_line.into_parse())),
                    ),
                )
            }
        },
    }
}

/// the separator between the front matter of a help snapshot and its text
pub open spec fn sep_at(b: Seq<u8>, i: int) -> bool {
    &&& 0 <= i
    &&& i + 5 <= b.len()
    &&& b[i] == 10
    &&& b[i + 1] == 45
    &&& b[i + 2] == 45
    &&& b[i + 3] == 45
    &&& b[i + 4] == 10
}

/// the text of a help snapshot after its front matter: what follows the first
/// line that is `---`
pub fn strip_front_matter(raw: &str) -> (res: &str)
    requires
        exists|i: int| sep_at(raw.spec_bytes(), i),
    ensures
        exists|i: int|
            sep_at(raw.spec_bytes(), i) && (forall|j: int| 0 <= j < i ==> !sep_at(raw.spec_bytes(), j))
                && res.spec_bytes() == raw.spec_bytes().subrange(i + 5, raw.spec_bytes().len() as int),
{
    let b = raw.as_bytes();
    let ghost t = raw.spec_bytes();
    proof {
        lemma_str_bytes(raw);
    }
    let mut i: usize = 0;
    while i <= b.len() && b.len() - i >= 5
        invariant
            b@ == t,
            t == raw.spec_bytes(),
            valid_utf8(t),
            i <= b@.len(),
            forall|j: int| 0 <= j < i ==> !sep_at(t, j),
            exists|k: int| i <= k && sep_at(t, k),
        decreases b.len() - i,
    {
        if is_separator_at(b, i) {
            proof {
                lemma_ascii_boundary(t, i + 5);
                lemma_ascii_boundary(t, t.len() as int);
            }
            return substr(raw, i + 5, b.len());
        }
        proof {
            let k = choose|k: int| i <= k && sep_at(t, k);
            assert(k != i);
            assert(i + 1 <= k && sep_at(t, k));
        }
        i = i + 1;
    }
    proof {
        let k = choose|k: int| i <= k && sep_at(t, k);
        assert(false);
    }
    raw
}

fn is_separator_at(b: &[u8], i: usize) -> (res: bool)
    requires
        i + 5 <= b@.len(),
    ensures
        res == sep_at(b@, i as int),
{
    b[i] == 10 && b[i + 1] == 45 && b[i + 2] == 45 && b[i + 3] == 45 && b[i + 4] == 10
}

/// where a line of text to indent stands: in its text, after a carriage
/// return that may end it, or after a line feed that ended it
#[derive(Clone, Copy, Debug, Eq, PartialEq, Structural)]
pub enum LineState {
    Text,
    CarriageReturn,
    LineFeed,
}

/// the text written for `c`, and the state after it; a line feed, with a
/// carriage return before it, ends a line and is written only when another
/// line follows, as a line feed and a tab
pub open spec fn indent_step(state: LineState, c: char) -> (Seq<char>, LineState) {
    let pending = match state {
        LineState::Text => Seq::<char>::empty(),
        LineState::CarriageReturn => if c == '\n' {
            Seq::<char>::empty()
        } else {
            seq!['\r']
        },
        LineState::LineFeed => seq!['\n', '\t'],
    };
    if c == '\n' {
        (pending, LineState::LineFeed)
    } else if c == '\r' {
        (pending, LineState::CarriageReturn)
    } else {
        (pending.push(c), LineState::Text)
    }
}

/// the text written for `cs` and the state after it
pub open spec fn indent_run(cs: Seq<char>) -> (Seq<char>, LineState)
    decreases cs.len(),
{
    if cs.len() == 0 {
        (Seq::empty(), LineState::Text)
    } else {
        let (out, st) = indent_run(cs.drop_last());
        let (more, st2) = indent_step(st, cs.last());
        (out + more, st2)
    }
}

/// each line of `cs` after a tab, the lines joined by line feeds; lines end at a
/// line feed or a carriage return and line feed, and a last line ending ends no
/// line
pub open spec fn indented(cs: Seq<char>) -> Seq<char> {
    if cs.len() == 0 {
        Seq::empty()
    } else {
        let (out, st) = indent_run(cs);
        seq!['\t'] + out + if st is CarriageReturn {
            seq!['\r']
        } else {
            Seq::<char>::empty()
        }
    }
}

/// each line of `s` after a tab
pub fn indent(s: &str) -> (res: String)
    ensures
        res@ == indented(s@),
{
    let mut body = String::new();
    let mut state = LineState::Text;
    let ghost cs = s@;
    for c in it: s.chars()
        invariant
            it.seq() == cs,
            (body@, state) == indent_run(cs.subrange(0, it.index() as int)),
    {
        proof {
            assert(cs.subrange(0, it.index() + 1).drop_last() =~= cs.subrange(0, it.index() as int));
        }
        match state {
            LineState::CarriageReturn => if c != '\n' {
                push_char(&mut body, '\r');
            },
            LineState::LineFeed => {
                push_char(&mut body, '\n');
                push_char(&mut body, '\t');
            },
            LineState::Text => {},
        }
        if c == '\n' {
            state = LineState::LineFeed;
        } else if c == '\r' {
            state = LineState::CarriageReturn;
        } else {
            push_char(&mut body, c);
            state = LineState::Text;
        }
        proof {
            assert(body@ =~= indent_run(cs.subrange(0, it.index() + 1)).0);
        }
    }
    proof {
        assert(cs.subrange(0, cs.len() as int) =~= cs);
    }
    if s.as_bytes().len() == 0 {
        return String::new();
    }
    let mut res = String::new();
    push_char(&mut res, '\t');
    crate::text::push_str(&mut res, body.as_str());
    if state == LineState::CarriageReturn {
        push_char(&mut res, '\r');
    }
    res
}

} // verus!
