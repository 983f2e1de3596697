//! Markdown: rendering to HTML with the outliner's own syntax, plain text
//! for search, and small formatting helpers.
use vstd::prelude::*;
use crate::text::{
    chars_of, contains, contains_char, contains_exec, extend_chars, first_of, first_of_exec, is_ws,
    join, join_exec, lemma_first_of, lemma_skip_ws_bounds, matches_at, matches_at_exec, skip_ws,
    skip_ws_exec, slice_chars, string_from, trim, trim_chars,
};
use crate::tasks::{status_keyword, status_prefix, TaskStatus};
use pulldown_cmark::Event;

verus! {

broadcast use vstd::string::group_string_axioms;

// ------------------------------------------------------------------
// Paired delimiters: `[[..]]` and `{{..}}`
// ------------------------------------------------------------------

/// The two kinds of double-delimited markers the renderer rewrites.
#[derive(Clone, Copy, PartialEq, Eq, Structural)]
pub enum Marker {
    /// `[[Page Name]]`
    PageLink,
    /// `{{content}}`
    Transclusion,
}

pub open spec fn open_char(m: Marker) -> char {
    match m {
        Marker::PageLink => '[',
        Marker::Transclusion => '{',
    }
}

pub open spec fn close_char(m: Marker) -> char {
    match m {
        Marker::PageLink => ']',
        Marker::Transclusion => '}',
    }
}

/// A marker starts at `i`: two opening delimiters, one or more characters
/// other than the closing delimiter, two closing delimiters.  The result is
/// the index of the first closing delimiter.
pub open spec fn marker_close(m: Marker, s: Seq<char>, i: int) -> Option<int> {
    if 0 <= i && i + 1 < s.len() && s[i] == open_char(m) && s[i + 1] == open_char(m) {
        let j = first_of(s, close_char(m), i + 2);
        if j > i + 2 && j + 1 < s.len() && s[j + 1] == close_char(m) {
            Some(j)
        } else {
            None
        }
    } else {
        None
    }
}

/// The HTML that replaces a marker holding `x`.
pub open spec fn marker_html(m: Marker, x: Seq<char>) -> Seq<char> {
    match m {
        Marker::PageLink => "<a href='#' class='page-link' data-page='"@ + x + "'>"@ + x
            + "</a>"@,
        Marker::Transclusion => "<div class=\"transclusion\" data-content=\""@ + x
            + "\">[Transclusion: "@ + x + "]</div>"@,
    }
}

/// The text from `i` on with each marker (leftmost first, not
/// overlapping) replaced by its HTML.
pub open spec fn replace_markers_from(m: Marker, s: Seq<char>, i: int) -> Seq<char>
    decreases s.len() - i,
{
    if i < 0 || i >= s.len() {
        Seq::empty()
    } else {
        match marker_close(m, s, i) {
            Some(j) => if i < j + 2 {
                marker_html(m, s.subrange(i + 2, j)) + replace_markers_from(m, s, j + 2)
            } else {
                Seq::empty()
            },
            None => seq![s[i]] + replace_markers_from(m, s, i + 1),
        }
    }
}

proof fn lemma_marker_close(m: Marker, s: Seq<char>, i: int)
    requires
        marker_close(m, s, i) is Some,
    ensures
        i + 2 < marker_close(m, s, i)->0,
        marker_close(m, s, i)->0 + 2 <= s.len(),
{
    lemma_first_of(s, close_char(m), i + 2);
}

fn marker_close_exec(m: Marker, s: &[char], i: usize) -> (r: Option<usize>)
    requires
        i < s@.len(),
    ensures
        r matches Some(j) ==> marker_close(m, s@, i as int) == Some(j as int),
        r is None ==> marker_close(m, s@, i as int) is None,
{
    let (o, c) = match m {
        Marker::PageLink => ('[', ']'),
        Marker::Transclusion => ('{', '}'),
    };
    if s.len() - i > 1 && s[i] == o && s[i + 1] == o {
        let j = first_of_exec(s, c, i + 2);
        proof {
            lemma_first_of(s@, c, i + 2);
        }
        if j > i + 2 && j < s.len() - 1 && s[j + 1] == c {
            Some(j)
        } else {
            None
        }
    } else {
        None
    }
}

fn push_marker_html(out: &mut Vec<char>, m: Marker, x: &[char])
    ensures
        final(out)@ == old(out)@ + marker_html(m, x@),
{
    let ghost start = out@;
    match m {
        Marker::PageLink => {
            extend_chars(out, chars_of("<a href='#' class='page-link' data-page='").as_slice());
            extend_chars(out, x);
            extend_chars(out, chars_of("'>").as_slice());
            extend_chars(out, x);
            extend_chars(out, chars_of("</a>").as_slice());
        },
        Marker::Transclusion => {
            extend_chars(
                out,
                chars_of("<div class=\"transclusion\" data-content=\"").as_slice(),
            );
            extend_chars(out, x);
            extend_chars(out, chars_of("\">[Transclusion: ").as_slice());
            extend_chars(out, x);
            extend_chars(out, chars_of("]</div>").as_slice());
        },
    }
    assert(out@ =~= start + marker_html(m, x@));
}

/// Replace every marker of kind `m` by its HTML.
fn replace_markers(m: Marker, s: &[char]) -> (out: Vec<char>)
    ensures
        out@ == replace_markers_from(m, s@, 0),
{
    let mut out: Vec<char> = Vec::new();
    let mut i: usize = 0;
    while i < s.len()
        invariant
            i <= s@.len(),
            out@ + replace_markers_from(m, s@, i as int) == replace_markers_from(m, s@, 0),
        decreases s@.len() - i,
    {
        match marker_close_exec(m, s, i) {
            Some(j) => {
                proof {
                    lemma_marker_close(m, s@, i as int);
                }
                let x = slice_chars(s, i + 2, j);
                let ghost before = out@;
                push_marker_html(&mut out, m, x.as_slice());
                assert(out@ + replace_markers_from(m, s@, j + 2) =~= before
                    + replace_markers_from(m, s@, i as int));
                i = j + 2;
            },
            None => {
                let ghost before = out@;
                out.push(s[i]);
                assert(out@ + replace_markers_from(m, s@, i + 1) =~= before
                    + replace_markers_from(m, s@, i as int));
                i = i + 1;
            },
        }
    }
    assert(out@ + replace_markers_from(m, s@, i as int) =~= out@);
    out
}


proof fn lemma_marker_close_shift(m: Marker, p: Seq<char>, t: Seq<char>, k: int)
    requires
        0 <= k,
    ensures
        marker_close(m, p + t, p.len() + k) == match marker_close(m, t, k) {
            Some(j) => Some(p.len() + j),
            None => None::<int>,
        },
{
    let s = p + t;
    let i = p.len() + k;
    if k + 1 < t.len() {
        assert(s[i] == t[k] && s[i + 1] == t[k + 1]);
        crate::text::lemma_first_of_shift(p, t, close_char(m), k + 2);
        let j = first_of(t, close_char(m), k + 2);
        lemma_first_of(t, close_char(m), k + 2);
        if j + 1 < t.len() {
            assert(s[p.len() + j + 1] == t[j + 1]);
        }
    }
}

/// Replacing markers in the second part of a joined text, from some index
/// on, is replacing them in that part alone.
proof fn lemma_replace_markers_shift(m: Marker, p: Seq<char>, t: Seq<char>, k: int)
    requires
        0 <= k,
    ensures
        replace_markers_from(m, p + t, p.len() + k) == replace_markers_from(m, t, k),
    decreases t.len() - k,
{
    let s = p + t;
    let i = p.len() + k;
    if k < t.len() {
        lemma_marker_close_shift(m, p, t, k);
        match marker_close(m, t, k) {
            Some(j) => {
                lemma_marker_close(m, t, k);
                assert(s.subrange(i + 2, p.len() + j) =~= t.subrange(k + 2, j));
                lemma_replace_markers_shift(m, p, t, j + 2);
            },
            None => {
                assert(s[i] == t[k]);
                lemma_replace_markers_shift(m, p, t, k + 1);
            },
        }
    }
}

/// A marker at the start of a text becomes its HTML, and the markers of the
/// rest of the text are replaced in turn: a marker never stops the ones
/// after it from being rewritten.
pub proof fn law_marker_then_rest(m: Marker, x: Seq<char>, t: Seq<char>)
    requires
        x.len() > 0,
        forall|k: int| 0 <= k < x.len() ==> #[trigger] x[k] != close_char(m),
    ensures
        replace_markers_from(
            m,
            seq![open_char(m), open_char(m)] + x + seq![close_char(m), close_char(m)] + t,
            0,
        ) == marker_html(m, x) + replace_markers_from(m, t, 0),
{
    let w = seq![open_char(m), open_char(m)] + x + seq![close_char(m), close_char(m)];
    let s = w + t;
    let j: int = x.len() as int + 2;
    assert forall|k: int| 2 <= k < j implies #[trigger] s[k] != close_char(m) by {
        assert(s[k] == x[k - 2]);
    }
    assert(s[j] == close_char(m));
    crate::text::lemma_first_of_at(s, close_char(m), 2, j);
    assert(s[j + 1] == close_char(m));
    assert(s[0] == open_char(m) && s[1] == open_char(m));
    assert(marker_close(m, s, 0) == Some(j));
    assert(s.subrange(2, j) =~= x);
    lemma_replace_markers_shift(m, w, t, 0);
    assert(w.len() == j + 2);
}

/// A character that starts no marker is kept, and the rest of the text is
/// rewritten in turn.
pub proof fn law_unmarked_char_then_rest(m: Marker, c: char, t: Seq<char>)
    requires
        marker_close(m, seq![c] + t, 0) is None,
    ensures
        replace_markers_from(m, seq![c] + t, 0) == seq![c] + replace_markers_from(m, t, 0),
{
    lemma_replace_markers_shift(m, seq![c], t, 0);
}

proof fn lemma_replace_unmarked_from(m: Marker, s: Seq<char>, i: int)
    requires
        0 <= i <= s.len(),
        forall|k: int| 0 <= k < s.len() ==> #[trigger] marker_close(m, s, k) is None,
    ensures
        replace_markers_from(m, s, i) == s.subrange(i, s.len() as int),
    decreases s.len() - i,
{
    if i < s.len() {
        assert(marker_close(m, s, i) is None);
        lemma_replace_unmarked_from(m, s, i + 1);
        assert(s.subrange(i, s.len() as int) =~= seq![s[i]] + s.subrange(i + 1, s.len() as int));
    }
}

/// A text that holds no marker comes out unchanged.
pub proof fn law_text_without_markers_unchanged(m: Marker, s: Seq<char>)
    requires
        forall|k: int| 0 <= k < s.len() ==> #[trigger] marker_close(m, s, k) is None,
    ensures
        replace_markers_from(m, s, 0) == s,
{
    lemma_replace_unmarked_from(m, s, 0);
    assert(s.subrange(0, s.len() as int) =~= s);
}

} // verus!

verus! {

// ------------------------------------------------------------------
// Task markers at the start of a line
// ------------------------------------------------------------------

/// A line starts at `i`.
pub open spec fn line_start(s: Seq<char>, i: int) -> bool {
    i == 0 || (0 < i <= s.len() && s[i - 1] == '\n')
}

/// Where a marker may stand on a line that starts at `i`: right there, or
/// after the `<p>` that opens a paragraph.
pub open spec fn marker_pos(s: Seq<char>, i: int) -> int {
    if matches_at(s, "<p>"@, i) {
        i + 3
    } else {
        i
    }
}

/// The status whose marker, followed by whitespace, stands at the marker
/// position of a line that starts at `i`.
pub open spec fn line_task_at(s: Seq<char>, i: int) -> Option<TaskStatus> {
    if 0 <= i < s.len() && line_start(s, i) && marker_pos(s, i) <= s.len() {
        status_prefix(s.subrange(marker_pos(s, i), s.len() as int))
    } else {
        None
    }
}

/// The lowercase marker word of a status.
pub open spec fn status_lower(st: TaskStatus) -> Seq<char> {
    match st {
        TaskStatus::Todo => "todo"@,
        TaskStatus::Doing => "doing"@,
        TaskStatus::Done => "done"@,
        TaskStatus::Waiting => "waiting"@,
        TaskStatus::Cancelled => "cancelled"@,
    }
}

/// The CSS class of a task of status `st`.
pub open spec fn task_class(st: TaskStatus) -> Seq<char> {
    match st {
        TaskStatus::Done => "task-done"@,
        TaskStatus::Cancelled => "task-cancelled"@,
        _ => "task-pending"@,
    }
}

/// Done and cancelled tasks are shown checked.
pub open spec fn task_checked(st: TaskStatus) -> Seq<char> {
    match st {
        TaskStatus::Done => "checked"@,
        TaskStatus::Cancelled => "checked"@,
        _ => ""@,
    }
}

/// The HTML of a task item with status `st` and description `x`.
pub open spec fn task_html(st: TaskStatus, x: Seq<char>) -> Seq<char> {
    "<div class=\"task-item "@ + task_class(st) + "\">\n                <input type=\"checkbox\" "@
        + task_checked(st) + " data-status=\""@ + status_lower(st)
        + "\" />\n                <span class=\"task-status\">"@ + status_keyword(st)
        + "</span>\n                <span class=\"task-content\">"@ + x
        + "</span>\n            </div>"@
}

/// The text from `i` on with each task line rewritten: the marker, the
/// whitespace after it and the rest of that line become a task item; a
/// `<p>` before the marker is kept.
pub open spec fn convert_tasks_from(s: Seq<char>, i: int) -> Seq<char>
    decreases s.len() - i,
{
    if i < 0 || i >= s.len() {
        Seq::empty()
    } else {
        match line_task_at(s, i) {
            Some(st) => {
                let k = marker_pos(s, i);
                let q = skip_ws(s, k + status_keyword(st).len());
                let e = first_of(s, '\n', q);
                if i < e <= s.len() {
                    s.subrange(i, k) + task_html(st, s.subrange(q, e)) + convert_tasks_from(s, e)
                } else {
                    Seq::empty()
                }
            },
            None => seq![s[i]] + convert_tasks_from(s, i + 1),
        }
    }
}

fn status_lower_exec(st: TaskStatus) -> (r: &'static str)
    ensures
        r@ == status_lower(st),
{
    match st {
        TaskStatus::Todo => "todo",
        TaskStatus::Doing => "doing",
        TaskStatus::Done => "done",
        TaskStatus::Waiting => "waiting",
        TaskStatus::Cancelled => "cancelled",
    }
}

fn push_task_html(out: &mut Vec<char>, st: TaskStatus, x: &[char])
    ensures
        final(out)@ == old(out)@ + task_html(st, x@),
{
    let ghost start = out@;
    let (class, checked) = match st {
        TaskStatus::Done => ("task-done", "checked"),
        TaskStatus::Cancelled => ("task-cancelled", "checked"),
        _ => ("task-pending", ""),
    };
    assert(class@ == task_class(st) && checked@ == task_checked(st));
    extend_chars(out, chars_of("<div class=\"task-item ").as_slice());
    extend_chars(out, chars_of(class).as_slice());
    extend_chars(out, chars_of("\">\n                <input type=\"checkbox\" ").as_slice());
    extend_chars(out, chars_of(checked).as_slice());
    extend_chars(out, chars_of(" data-status=\"").as_slice());
    extend_chars(out, chars_of(status_lower_exec(st)).as_slice());
    extend_chars(out, chars_of("\" />\n                <span class=\"task-status\">").as_slice());
    extend_chars(out, chars_of(st.as_str()).as_slice());
    extend_chars(out, chars_of("</span>\n                <span class=\"task-content\">").as_slice());
    extend_chars(out, x);
    extend_chars(out, chars_of("</span>\n            </div>").as_slice());
    assert(out@ =~= start + task_html(st, x@));
}

fn line_task_at_exec(s: &[char], i: usize) -> (r: Option<(TaskStatus, usize)>)
    requires
        i < s@.len(),
    ensures
        match r {
            Some((st, k)) => line_task_at(s@, i as int) == Some(st) && k == marker_pos(s@, i as int)
                && k + status_keyword(st).len() < s@.len(),
            None => line_task_at(s@, i as int) is None,
        },
{
    if !(i == 0 || s[i - 1] == '\n') {
        return None;
    }
    let p = chars_of("<p>");
    proof {
        reveal_strlit("<p>");
    }
    let k = if matches_at_exec(s, p.as_slice(), i) {
        i + 3
    } else {
        i
    };
    assert(k == marker_pos(s@, i as int));
    let rest = slice_chars(s, k, s.len());
    match crate::tasks::status_prefix_exec(rest.as_slice()) {
        Some(st) => {
            assert(crate::tasks::marker_at(rest@, st));
            Some((st, k))
        },
        None => None,
    }
}

/// Rewrite each task line as a task item.
fn convert_task_markers(s: &[char]) -> (out: Vec<char>)
    ensures
        out@ == convert_tasks_from(s@, 0),
{
    let mut out: Vec<char> = Vec::new();
    let mut i: usize = 0;
    while i < s.len()
        invariant
            i <= s@.len(),
            out@ + convert_tasks_from(s@, i as int) == convert_tasks_from(s@, 0),
        decreases s@.len() - i,
    {
        match line_task_at_exec(s, i) {
            Some((st, k)) => {
                let kw = st.as_str();
                let kwc = chars_of(kw);
                let q = skip_ws_exec(s, k + kwc.len());
                let e = first_of_exec(s, '\n', q);
                proof {
                    lemma_first_of(s@, '\n', q as int);
                }
                let ghost before = out@;
                extend_chars(&mut out, slice_chars(s, i, k).as_slice());
                push_task_html(&mut out, st, slice_chars(s, q, e).as_slice());
                assert(out@ + convert_tasks_from(s@, e as int) =~= before + convert_tasks_from(
                    s@,
                    i as int,
                ));
                i = e;
            },
            None => {
                let ghost before = out@;
                out.push(s[i]);
                assert(out@ + convert_tasks_from(s@, i + 1) =~= before + convert_tasks_from(
                    s@,
                    i as int,
                ));
                i = i + 1;
            },
        }
    }
    assert(out@ + convert_tasks_from(s@, i as int) =~= out@);
    out
}

} // verus!

verus! {

// ------------------------------------------------------------------
// Rendering
// ------------------------------------------------------------------

/// The HTML after the outliner's own syntax is rewritten: page links,
/// then transclusions, then task lines.
pub open spec fn post_processed(html: Seq<char>) -> Seq<char> {
    convert_tasks_from(
        replace_markers_from(
            Marker::Transclusion,
            replace_markers_from(Marker::PageLink, html, 0),
            0,
        ),
        0,
    )
}

/// Rewrite the outliner's own syntax in rendered HTML: `[[Page]]` becomes
/// a page link, `{{x}}` a transclusion placeholder, and a line that starts
/// with a status marker (after an optional `<p>`) a task item.
pub fn post_process_html(html: String) -> (res: String)
    ensures
        res@ == post_processed(html@),
{
    let s = chars_of(html.as_str());
    let a = replace_markers(Marker::PageLink, s.as_slice());
    let b = replace_markers(Marker::Transclusion, a.as_slice());
    let c = convert_task_markers(b.as_slice());
    string_from(c.as_slice())
}

/// What `pulldown-cmark` renders for `s` with the given extensions
/// (strikethrough, tables, footnotes) switched on.
pub uninterp spec fn cmark_html(s: Seq<char>, strikethrough: bool, tables: bool, footnotes: bool) -> Seq<char>;

/// `pulldown_cmark::Parser::new_ext` with the given extensions, written out
/// by `pulldown_cmark::html::push_html`.  The HTML is a function of the text
/// and the extensions alone; its contents are not stated.
#[verifier::external_body]
fn cmark_to_html(content: &str, strikethrough: bool, tables: bool, footnotes: bool) -> (r: String)
    ensures
        r@ == cmark_html(content@, strikethrough, tables, footnotes),
{
    let mut options = pulldown_cmark::Options::empty();
    options.set(pulldown_cmark::Options::ENABLE_STRIKETHROUGH, strikethrough);
    options.set(pulldown_cmark::Options::ENABLE_TABLES, tables);
    options.set(pulldown_cmark::Options::ENABLE_FOOTNOTES, footnotes);
    let mut out = String::new();
    pulldown_cmark::html::push_html(&mut out, pulldown_cmark::Parser::new_ext(content, options));
    out
}

/// Parse Markdown to HTML (CommonMark with strikethrough, tables and
/// footnotes), then rewrite the outliner's own syntax.
pub fn parse_to_html(content: &str) -> (res: String)
    ensures
        res@ == post_processed(cmark_html(content@, true, true, true)),
{
    let html = cmark_to_html(content, true, true, true);
    post_process_html(html)
}

// ------------------------------------------------------------------
// Plain text
// ------------------------------------------------------------------

/// An event of the Markdown parser, with the text it carries.
#[derive(Debug, Clone)]
pub enum MdEvent {
    Start,
    End,
    Text(String),
    Code(String),
    Html(String),
    FootnoteReference(String),
    SoftBreak,
    HardBreak,
    Rule,
    TaskListMarker(bool),
}

/// The abstract value of a parser event.
pub enum MdEventView {
    Start,
    End,
    Text(Seq<char>),
    Code(Seq<char>),
    Html(Seq<char>),
    FootnoteReference(Seq<char>),
    SoftBreak,
    HardBreak,
    Rule,
    TaskListMarker(bool),
}

impl View for MdEvent {
    type V = MdEventView;

    open spec fn view(&self) -> MdEventView {
        match self {
            MdEvent::Start => MdEventView::Start,
            MdEvent::End => MdEventView::End,
            MdEvent::Text(t) => MdEventView::Text(t@),
            MdEvent::Code(t) => MdEventView::Code(t@),
            MdEvent::Html(t) => MdEventView::Html(t@),
            MdEvent::FootnoteReference(t) => MdEventView::FootnoteReference(t@),
            MdEvent::SoftBreak => MdEventView::SoftBreak,
            MdEvent::HardBreak => MdEventView::HardBreak,
            MdEvent::Rule => MdEventView::Rule,
            MdEvent::TaskListMarker(b) => MdEventView::TaskListMarker(*b),
        }
    }
}

/// The events that `pulldown-cmark` parses from `s` (no extensions).
pub uninterp spec fn cmark_events(s: Seq<char>) -> Seq<MdEventView>;

/// `pulldown_cmark::Parser::new`, each event taken one for one (the tags
/// of start and end events are dropped).  The events are a function of the
/// text alone; which events come is not stated.
#[verifier::external_body]
fn parse_events(content: &str) -> (r: Vec<MdEvent>)
    ensures
        r@.map_values(|e: MdEvent| e@) == cmark_events(content@),
{
    let mut out: Vec<MdEvent> = Vec::new();
    for ev in pulldown_cmark::Parser::new(content) {
        out.push(match ev {
            Event::Start(_) => MdEvent::Start, Event::End(_) => MdEvent::End,
            Event::Text(t) => MdEvent::Text(t.to_string()), Event::Code(t) => MdEvent::Code(t.to_string()),
            Event::Html(t) => MdEvent::Html(t.to_string()),
            Event::FootnoteReference(t) => MdEvent::FootnoteReference(t.to_string()),
            Event::SoftBreak => MdEvent::SoftBreak, Event::HardBreak => MdEvent::HardBreak,
            Event::Rule => MdEvent::Rule, Event::TaskListMarker(b) => MdEvent::TaskListMarker(b),
        });
    }
    out
}

/// The text of the text and code events, each trimmed, the blank ones
/// left out.
pub open spec fn text_parts(evs: Seq<MdEventView>) -> Seq<Seq<char>>
    decreases evs.len(),
{
    if evs.len() == 0 {
        Seq::empty()
    } else {
        let rest = text_parts(evs.drop_last());
        match evs.last() {
            MdEventView::Text(t) => if trim(t).len() > 0 {
                rest.push(trim(t))
            } else {
                rest
            },
            MdEventView::Code(t) => if trim(t).len() > 0 {
                rest.push(trim(t))
            } else {
                rest
            },
            _ => rest,
        }
    }
}

/// The plain text of parsed Markdown: its text and code pieces, trimmed,
/// joined with single spaces.
pub open spec fn plain_text_of(evs: Seq<MdEventView>) -> Seq<char> {
    join(text_parts(evs), seq![' '])
}

/// The plain text of a sequence of parser events.
pub fn plain_text_from_events(evs: &Vec<MdEvent>) -> (res: String)
    ensures
        res@ == plain_text_of(evs@.map_values(|e: MdEvent| e@)),
{
    let ghost views = evs@.map_values(|e: MdEvent| e@);
    let mut parts: Vec<Vec<char>> = Vec::new();
    let mut i: usize = 0;
    while i < evs.len()
        invariant
            i <= evs@.len(),
            views == evs@.map_values(|e: MdEvent| e@),
            parts@.map_values(|v: Vec<char>| v@) == text_parts(views.take(i as int)),
        decreases evs@.len() - i,
    {
        proof {
            assert(views.take(i + 1).drop_last() =~= views.take(i as int));
            assert(views.take(i + 1).last() == evs@[i as int]@);
        }
        let ghost before = parts@.map_values(|v: Vec<char>| v@);
        match &evs[i] {
            MdEvent::Text(t) | MdEvent::Code(t) => {
                let p = trim_chars(chars_of(t.as_str()).as_slice());
                if p.len() > 0 {
                    parts.push(p);
                    assert(parts@.map_values(|v: Vec<char>| v@) =~= before.push(p@));
                }
            },
            _ => {},
        }
        i = i + 1;
    }
    assert(views.take(evs@.len() as int) =~= views);
    let sep: [char; 1] = [' '];
    let sp: &[char] = &sep;
    assert(sp@ =~= seq![' ']);
    let out = join_exec(&parts, sp);
    string_from(out.as_slice())
}

/// Extract plain text from Markdown, for search indexing: the text and
/// code pieces, trimmed, joined with single spaces.
pub fn extract_plain_text(content: &str) -> (res: String)
    ensures
        res@ == plain_text_of(cmark_events(content@)),
{
    let evs = parse_events(content);
    plain_text_from_events(&evs)
}

// ------------------------------------------------------------------
// Formatting helpers
// ------------------------------------------------------------------

/// Whether the text has any mark of Markdown formatting: `*` (bold or
/// italic), `#` (heading), `[` (link), `` ` `` (code), `>` (quote), `- `
/// (list) or `1. ` (numbered list).
pub open spec fn markdown_formatted(s: Seq<char>) -> bool {
    s.contains('*') || s.contains('#') || s.contains('[') || s.contains('`') || s.contains('>')
        || contains(s, seq!['-', ' ']) || contains(s, seq!['1', '.', ' '])
}

/// Check if content contains any Markdown formatting.
pub fn has_markdown_formatting(content: &str) -> (res: bool)
    ensures
        res == markdown_formatted(content@),
{
    let s = chars_of(content);
    let ls: [char; 2] = ['-', ' '];
    let ns: [char; 3] = ['1', '.', ' '];
    let l: &[char] = &ls;
    let n: &[char] = &ns;
    assert(l@ =~= seq!['-', ' ']);
    assert(n@ =~= seq!['1', '.', ' ']);
    contains_char(s.as_slice(), '*') || contains_char(s.as_slice(), '#') || contains_char(
        s.as_slice(),
        '[',
    ) || contains_char(s.as_slice(), '`') || contains_char(s.as_slice(), '>') || contains_exec(
        s.as_slice(),
        l,
    ) || contains_exec(s.as_slice(), n)
}

/// The characters that Markdown escapes with a backslash.
pub open spec fn md_special(c: char) -> bool {
    c == '*' || c == '_' || c == '[' || c == ']' || c == '(' || c == ')' || c == '#' || c == '+'
        || c == '-' || c == '.' || c == '!' || c == '`' || c == '|'
}

/// The text with a backslash before each special character.
pub open spec fn md_escaped(s: Seq<char>) -> Seq<char>
    decreases s.len(),
{
    if s.len() == 0 {
        Seq::empty()
    } else if md_special(s.last()) {
        md_escaped(s.drop_last()) + seq!['\\', s.last()]
    } else {
        md_escaped(s.drop_last()).push(s.last())
    }
}

/// Escape Markdown special characters (`*_[]()#+-.!`|`) with a backslash.
pub fn escape_markdown(text: &str) -> (res: String)
    ensures
        res@ == md_escaped(text@),
{
    let s = chars_of(text);
    let mut out: Vec<char> = Vec::new();
    let mut i: usize = 0;
    while i < s.len()
        invariant
            i <= s@.len(),
            out@ == md_escaped(s@.take(i as int)),
        decreases s@.len() - i,
    {
        let c = s[i];
        proof {
            assert(s@.take(i + 1).drop_last() =~= s@.take(i as int));
        }
        if c == '*' || c == '_' || c == '[' || c == ']' || c == '(' || c == ')' || c == '#' || c
            == '+' || c == '-' || c == '.' || c == '!' || c == '`' || c == '|' {
            out.push('\\');
        }
        out.push(c);
        proof {
            assert(out@ =~= md_escaped(s@.take(i + 1)));
        }
        i = i + 1;
    }
    assert(s@.take(s@.len() as int) =~= s@);
    string_from(out.as_slice())
}

} // verus!
