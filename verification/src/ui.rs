//! messages of the tool as the terminal shows them, laid out by the
//! `annotate_snippets` renderer
use vstd::prelude::*;

use vstd::string::StringSliceAdditionalSpecFns;
use vstd::utf8::*;

use annotate_snippets::renderer::DecorStyle;
use annotate_snippets::Patch as SnippetPatch;
use annotate_snippets::{AnnotationKind, Group, Level, Renderer, Snippet};

use crate::diagnostics::{
    Context, Diagnostic, Patch, Source, context_specs, context_view, cut_fits, cuts_ok, diagnosable,
    patch_specs, patch_view, patches_ok, shows,
};
use crate::message::kind_message;
use crate::error::Error;
use crate::text::{lemma_str_bytes, placed};
use crate::tokens::Span;

verus! {

/// whether output is coloured with ANSI escapes
#[derive(Debug, Clone, Copy, PartialEq, Eq, Structural)]
pub enum Color {
    Ansi,
    Plain,
}

/// how messages are shown
#[derive(Debug, Clone, Copy, PartialEq, Eq, Structural)]
pub enum Style {
    Pretty(Color),
}

/// an error with no place in a text, and help for it where there is some
#[derive(Debug, PartialEq, Eq, Clone)]
pub struct BasicErrorMessage {
    pub error: String,
    pub help: Option<String>,
}

/// the chars of an optional text
pub open spec fn opt_chars(s: Option<&str>) -> Option<Seq<char>> {
    match s {
        Some(s) => Some(s@),
        None => None,
    }
}

/// a place that a snippet marks: the place of the error, or a place that
/// explains it, with its label
pub enum MarkView {
    Primary(Span),
    Context(Span, Seq<char>),
}

/// a snippet of `text`, shown under the name `path`, with the places it marks
/// and the edits it shows made
pub struct SnippetView {
    pub path: Seq<char>,
    pub text: Seq<char>,
    pub marks: Seq<MarkView>,
    pub edits: Seq<(Span, Seq<char>)>,
}

/// a group of a report: an error or a help, its title, and its snippet
pub struct GroupView {
    pub help: bool,
    pub title: Seq<char>,
    pub snippet: Option<SnippetView>,
}

/// the text that `Renderer::render` of `annotate_snippets` makes of the groups
/// of a report, with ASCII decor, styled with ANSI escapes when `styled`
pub uninterp spec fn rendered(styled: bool, groups: Seq<GroupView>) -> Seq<char>;

/// the groups of a report of an error titled `error`, followed by a help
/// titled `help` where there is one
pub open spec fn message_groups(error: Seq<char>, help: Option<Seq<char>>) -> Seq<GroupView> {
    let first = GroupView { help: false, title: error, snippet: None };
    match help {
        Some(h) => seq![first, GroupView { help: true, title: h, snippet: None }],
        None => seq![first],
    }
}

/// what the renderer makes of a report of an error titled `error`, followed
/// by a help titled `help` where there is one
pub open spec fn rendered_message(ansi: bool, error: Seq<char>, help: Option<Seq<char>>) -> Seq<char> {
    rendered(ansi, message_groups(error, help))
}

/// `Renderer::render` of `annotate_snippets`, plain and with ASCII decor, on
/// an error group titled `error` and, where given, a help group titled `help`;
/// what comes out is named, not stated
#[verifier::external_body]
fn render_plain(error: &str, help: Option<&str>) -> (res: String)
    ensures
        res@ == rendered(false, message_groups(error@, opt_chars(help))),
{
    let help = help.map(|h| Level::HELP.primary_title(h));
    let titles = std::iter::once(Level::ERROR.primary_title(error)).chain(help);
    let groups: Vec<Group> = titles.map(Group::with_title).collect();
    Renderer::plain().decor_style(DecorStyle::Ascii).render(&groups)
}

/// `Renderer::render` of `annotate_snippets`, styled with ANSI escapes and
/// with ASCII decor, on the same groups as [`render_plain`]
#[verifier::external_body]
fn render_styled(error: &str, help: Option<&str>) -> (res: String)
    ensures
        res@ == rendered(true, message_groups(error@, opt_chars(help))),
{
    let help = help.map(|h| Level::HELP.primary_title(h));
    let titles = std::iter::once(Level::ERROR.primary_title(error)).chain(help);
    let groups: Vec<Group> = titles.map(Group::with_title).collect();
    Renderer::styled().decor_style(DecorStyle::Ascii).render(&groups)
}

/// the name under which a text is shown
pub open spec fn source_path(s: Source) -> Seq<char> {
    match s {
        Source::Stdin(_) => "stdin"@,
        Source::File { path, .. } => path@,
    }
}

/// the text itself
pub open spec fn source_str<'a>(s: Source<'a>) -> &'a str {
    match s {
        Source::Stdin(text) => text,
        Source::File { source, .. } => source,
    }
}

/// the groups of a report: an error titled `message` with a snippet of `text`
/// named `path` that marks `primary` and each labelled place of `marks`, then
/// for each of `helps` a help titled by its message with a snippet of the text
/// that shows its edit made
pub open spec fn report_groups(
    path: Seq<char>,
    text: Seq<char>,
    message: Seq<char>,
    primary: Option<Span>,
    marks: Seq<(Seq<char>, Span)>,
    helps: Seq<(Seq<char>, Span, Seq<char>)>,
) -> Seq<GroupView> {
    let first: Seq<MarkView> = match primary {
        Some(r) => seq![MarkView::Primary(r)],
        None => Seq::empty(),
    };
    let places = marks.map_values(|m: (Seq<char>, Span)| MarkView::Context(m.1, m.0));
    let error = GroupView {
        help: false,
        title: message,
        snippet: Some(SnippetView { path, text, marks: first + places, edits: Seq::empty() }),
    };
    seq![error] + helps.map_values(
        |h: (Seq<char>, Span, Seq<char>)|
            GroupView {
                help: true,
                title: h.0,
                snippet: Some(SnippetView { path, text, marks: Seq::empty(), edits: seq![(h.1, h.2)] }),
            },
    )
}

/// what the renderer makes of the report of [`report_groups`]
pub open spec fn rendered_report(
    ansi: bool,
    path: Seq<char>,
    text: Seq<char>,
    message: Seq<char>,
    primary: Option<Span>,
    marks: Seq<(Seq<char>, Span)>,
    helps: Seq<(Seq<char>, Span, Seq<char>)>,
) -> Seq<char> {
    rendered(ansi, report_groups(path, text, message, primary, marks, helps))
}

/// every place a report marks or patches lies in its text
pub open spec fn report_fits(text: &str, primary: Option<Span>, marks: Seq<Context>, helps: Seq<Patch>) -> bool {
    &&& primary matches Some(r) ==> placed(text.spec_bytes(), r)
    &&& forall|i: int| 0 <= i < marks.len() ==> placed(text.spec_bytes(), #[trigger] marks[i].span)
    &&& forall|i: int| 0 <= i < helps.len() ==> placed(text.spec_bytes(), #[trigger] helps[i].span)
}

/// `Renderer::render` of `annotate_snippets`, plain and with ASCII decor, on
/// the groups of [`report_groups`]; what comes out is named, not stated. The
/// renderer panics on a place that ends past the text and slices lines of the
/// text at the places, so the places lie in the text at char boundaries
#[verifier::external_body]
fn render_report_plain(path: &str, text: &str, message: &str, primary: Option<Span>, marks: &[Context], helps: &[Patch]) -> (res: String)
    requires
        report_fits(text, primary, marks@, helps@),
    ensures
        res@ == rendered(
            false,
            report_groups(
                path@,
                text@,
                message@,
                primary,
                marks@.map_values(|c: Context| context_view(c)),
                helps@.map_values(|p: Patch| patch_view(p)),
            ),
        ),
{
    let mut report = vec![Level::ERROR.primary_title(message).element(Snippet::source(text).path(path).annotations(
        primary.map(|r| AnnotationKind::Primary.span(r.start..r.end)).into_iter().chain(
            marks.iter().map(|c| AnnotationKind::Context.span(c.span.start..c.span.end).label(&*c.message)),
        ),
    ))];
    report.extend(helps.iter().map(|p| Level::HELP.primary_title(&*p.message).element(
        Snippet::source(text).path(path).patch(SnippetPatch::new(p.span.start..p.span.end, &*p.replacement)),
    )));
    Renderer::plain().decor_style(DecorStyle::Ascii).render(&report)
}

/// `Renderer::render` of `annotate_snippets`, styled with ANSI escapes and
/// with ASCII decor, on the same report as [`render_report_plain`], with the
/// same needs of its places
#[verifier::external_body]
fn render_report_styled(path: &str, text: &str, message: &str, primary: Option<Span>, marks: &[Context], helps: &[Patch]) -> (res: String)
    requires
        report_fits(text, primary, marks@, helps@),
    ensures
        res@ == rendered(
            true,
            report_groups(
                path@,
                text@,
                message@,
                primary,
                marks@.map_values(|c: Context| context_view(c)),
                helps@.map_values(|p: Patch| patch_view(p)),
            ),
        ),
{
    let mut report = vec![Level::ERROR.primary_title(message).element(Snippet::source(text).path(path).annotations(
        primary.map(|r| AnnotationKind::Primary.span(r.start..r.end)).into_iter().chain(
            marks.iter().map(|c| AnnotationKind::Context.span(c.span.start..c.span.end).label(&*c.message)),
        ),
    ))];
    report.extend(helps.iter().map(|p| Level::HELP.primary_title(&*p.message).element(
        Snippet::source(text).path(path).patch(SnippetPatch::new(p.span.start..p.span.end, &*p.replacement)),
    )));
    Renderer::styled().decor_style(DecorStyle::Ascii).render(&report)
}

/// the contexts a report of `diag` marks: none where the error has no place
pub open spec fn shown_contexts<'a>(diag: Diagnostic<'a>) -> Seq<Context<'a>> {
    if diag.range is Some {
        diag.context@
    } else {
        Seq::empty()
    }
}

/// every place that a report of `diag` marks or patches lies in its text
pub open spec fn renderable(diag: Diagnostic) -> bool {
    report_fits(source_str(diag.source), diag.range, shown_contexts(diag), diag.patches@)
}

/// The diagnostic of an error that can be shown with its text can be
/// rendered: every place it marks or patches lies in its text.
pub proof fn lemma_diagnostic_renderable(e: Error, diag: Diagnostic)
    requires
        diagnosable(e),
        shows(diag, e),
    ensures
        renderable(diag),
{
    let text = source_str(diag.source);
    let t = encode_utf8(e.spec_source_text());
    lemma_str_bytes(text);
    decode_utf8_encode_utf8(text.spec_bytes());
    assert(text.spec_bytes() == t);
    let cs = context_specs(e.spec_kind(), t);
    let ps = patch_specs(e.spec_kind(), e.spec_range(), t.len() as int);
    assert forall|i: int| 0 <= i < shown_contexts(diag).len() implies placed(
        text.spec_bytes(),
        #[trigger] shown_contexts(diag)[i].span,
    ) by {
        assert(diag.context@.map_values(|c: Context| context_view(c)).len() == cs.len());
        assert(diag.context@.map_values(|c: Context| context_view(c))[i] == cs[i]);
        assert(placed(t, cs[i].1));
    }
    assert forall|i: int| 0 <= i < diag.patches@.len() implies placed(
        text.spec_bytes(),
        #[trigger] diag.patches@[i].span,
    ) by {
        assert(diag.patches@.map_values(|p: Patch| patch_view(p))[i] == ps[i]);
        assert(placed(t, ps[i].1));
    }
}

/// a diagnostic whose places all lie in its text shows an error that can be
/// shown with its text
proof fn lemma_renderable_diagnosable(e: Error, diag: Diagnostic)
    requires
        cuts_ok(e),
        patches_ok(e),
        shows(diag, e),
        renderable(diag),
    ensures
        diagnosable(e),
{
    let text = source_str(diag.source);
    let t = encode_utf8(e.spec_source_text());
    lemma_str_bytes(text);
    decode_utf8_encode_utf8(text.spec_bytes());
    assert(text.spec_bytes() == t);
    let cs = context_specs(e.spec_kind(), t);
    let ps = patch_specs(e.spec_kind(), e.spec_range(), t.len() as int);
    assert forall|i: int| 0 <= i < cs.len() implies placed(t, #[trigger] cs[i].1) by {
        assert(diag.context@.map_values(|c: Context| context_view(c)).len() == diag.context@.len());
        assert(diag.context@.map_values(|c: Context| context_view(c))[i] == cs[i]);
        assert(placed(t, shown_contexts(diag)[i].span));
    }
    assert forall|i: int| 0 <= i < ps.len() implies placed(t, #[trigger] ps[i].1) by {
        assert(diag.patches@.map_values(|p: Patch| patch_view(p)).len() == diag.patches@.len());
        assert(diag.patches@.map_values(|p: Patch| patch_view(p))[i] == ps[i]);
        assert(placed(t, diag.patches@[i].span));
    }
}

/// the text the terminal shows for `e` in `style`: its report with its text
/// where it can be shown with it, else its message alone
pub open spec fn error_text(style: Style, e: Error) -> Seq<char> {
    let ansi = style == Style::Pretty(Color::Ansi);
    let t = encode_utf8(e.spec_source_text());
    if diagnosable(e) {
        rendered_report(
            ansi,
            e.spec_source_name(),
            e.spec_source_text(),
            kind_message(e.spec_kind()),
            Some(e.spec_range()),
            context_specs(e.spec_kind(), t),
            patch_specs(e.spec_kind(), e.spec_range(), t.len() as int),
        )
    } else {
        rendered_message(ansi, kind_message(e.spec_kind()), None)
    }
}

/// whether every place that a report of `diag` marks or patches lies in its
/// text, from one char boundary to another
pub fn can_render(diag: &Diagnostic) -> (res: bool)
    ensures
        res == renderable(*diag),
{
    let text = match diag.source {
        Source::Stdin(s) => s,
        Source::File { source, .. } => source,
    };
    let primary_ok = match diag.range {
        Some(r) => cut_fits(text, r),
        None => true,
    };
    let mut marks_ok = true;
    if diag.range.is_some() {
        let mut i: usize = 0;
        while i < diag.context.len()
            invariant
                i <= diag.context@.len(),
                marks_ok == forall|j: int| 0 <= j < i ==> placed(text.spec_bytes(), #[trigger] diag.context@[j].span),
            decreases diag.context@.len() - i,
        {
            marks_ok = marks_ok && cut_fits(text, diag.context[i].span);
            i = i + 1;
        }
    }
    let mut helps_ok = true;
    let mut k: usize = 0;
    while k < diag.patches.len()
        invariant
            k <= diag.patches@.len(),
            helps_ok == forall|j: int| 0 <= j < k ==> placed(text.spec_bytes(), #[trigger] diag.patches@[j].span),
        decreases diag.patches@.len() - k,
    {
        helps_ok = helps_ok && cut_fits(text, diag.patches[k].span);
        k = k + 1;
    }
    primary_ok && marks_ok && helps_ok
}

impl Style {
    /// `m` as the terminal shows it: the error, then its help where there is one
    pub fn render_message(self, m: BasicErrorMessage) -> (res: String)
        ensures
            res@ == rendered_message(
                self == Style::Pretty(Color::Ansi),
                m.error@,
                match m.help {
                    Some(h) => Some(h@),
                    None => None,
                },
            ),
    {
        let help: Option<&str> = match &m.help {
            Some(h) => Some(h.as_str()),
            None => None,
        };
        match self {
            Style::Pretty(Color::Ansi) => render_styled(m.error.as_str(), help),
            Style::Pretty(Color::Plain) => render_plain(m.error.as_str(), help),
        }
    }

    /// `error` as the terminal shows it: its diagnostic with its text where
    /// every place of it lies in the text, else its message alone
    pub fn render_error(self, error: &Error) -> (res: String)
        ensures
            res@ == error_text(self, *error),
    {
        if error.can_diagnose() {
            let diag = Diagnostic::new(error);
            if can_render(&diag) {
                proof {
                    lemma_renderable_diagnosable(*error, diag);
                    assert(source_path(diag.source) == error.spec_source_name());
                    assert(shown_contexts(diag) == diag.context@);
                }
                return self.render_diagnostic(diag);
            }
            proof {
                if diagnosable(*error) {
                    lemma_diagnostic_renderable(*error, diag);
                }
            }
        }
        self.render_message(BasicErrorMessage { error: error.message(), help: None })
    }

    /// `diag` as the terminal shows it: its message over its text, with the
    /// place of the error and, where it has one, the places that explain it
    /// marked; then a help for each edit that may mend the text
    pub fn render_diagnostic(self, diag: Diagnostic) -> (res: String)
        requires
            renderable(diag),
        ensures
            res@ == rendered_report(
                self == Style::Pretty(Color::Ansi),
                source_path(diag.source),
                source_str(diag.source)@,
                diag.message@,
                diag.range,
                shown_contexts(diag).map_values(|c: Context| context_view(c)),
                diag.patches@.map_values(|p: Patch| patch_view(p)),
            ),
    {
        let (path, text) = match diag.source {
            Source::Stdin(s) => ("stdin", s),
            Source::File { source, path } => (path, source),
        };
        let none: Vec<Context> = Vec::new();
        let marks: &[Context] = if diag.range.is_some() {
            diag.context.as_slice()
        } else {
            none.as_slice()
        };
        proof {
            assert(marks@ == shown_contexts(diag));
        }
        match self {
            Style::Pretty(Color::Ansi) => render_report_styled(
                path,
                text,
                diag.message.as_str(),
                diag.range,
                marks,
                diag.patches.as_slice(),
            ),
            Style::Pretty(Color::Plain) => render_report_plain(
                path,
                text,
                diag.message.as_str(),
                diag.range,
                marks,
                diag.patches.as_slice(),
            ),
        }
    }
}

} // verus!
