//! Decisions about lines that are printed as they come.

use vstd::prelude::*;

use crate::ansi::{strip_ansi, without_ansi_escape_codes};
use crate::cli::{from_utf8_lossy, utf8_lossy};
use crate::commit_line::{commit_line_spec, format_commit_line};
use crate::conflicts_highlighter::{
    conflicts_step, conflicts_wf, starts_conflict, ConflictsHighlighter, ConflictsView,
};
use crate::constants::{
    BLUE_TO_END_OF_LINE, BOLD, FAINT, NORMAL, NO_EOF_NEWLINE_COLOR, PARSE_ERROR, YELLOW,
};
use crate::hunk_header::{parse_spec, render_spec};
use crate::hunk_highlighter::{
    conflicts_started, hunk_eof, hunk_step, hunk_wf, HunkLinesHighlighter, HunkView,
};
use crate::lines_highlighter::{futures_view, outputs_view, response_view, LineAcceptance, Response};
use crate::plusminus_header_highlighter::{header_text, link_targets_spec, PlusMinusHeaderHighlighter};
use crate::refiner::{Formatter, FormatterView};
use crate::rename_highlighter::{rename_text, RenameHighlighter};
use crate::string_future::StringFuture;
use crate::text::{chars_of, push_str, starts_with, str_starts_with, string_of_str, trim};

verus! {

/// The color of a header line that is highlighted the same way every time:
/// the first of these prefixes that the line starts with decides.
pub open spec fn fixed_highlight_spec(line: Seq<char>) -> Option<Seq<char>> {
    if starts_with(line, "diff "@) {
        Some(FAINT@)
    } else if starts_with(line, "index "@) {
        Some(FAINT@)
    } else if starts_with(line, "Binary files "@) {
        Some(BOLD@)
    } else if starts_with(line, "copy from "@) {
        Some(FAINT@)
    } else if starts_with(line, "copy to "@) {
        Some(BOLD@)
    } else if starts_with(line, "rename from "@) {
        Some(FAINT@)
    } else if starts_with(line, "rename to "@) {
        Some(BOLD@)
    } else if starts_with(line, "similarity index "@) {
        Some(FAINT@)
    } else if starts_with(line, "new file mode "@) {
        Some(FAINT@)
    } else if starts_with(line, "deleted file mode "@) {
        Some(FAINT@)
    } else {
        None
    }
}

/// The color of a header line that is always highlighted the same way, if
/// `line` is one.
pub fn get_fixed_highlight(line: &str) -> (r: Option<&'static str>)
    ensures
        match r {
            Some(s) => fixed_highlight_spec(line@) == Some(s@),
            None => fixed_highlight_spec(line@) is None,
        },
{
    if str_starts_with(line, "diff ") {
        Some(FAINT)
    } else if str_starts_with(line, "index ") {
        Some(FAINT)
    } else if str_starts_with(line, "Binary files ") {
        Some(BOLD)
    } else if str_starts_with(line, "copy from ") {
        Some(FAINT)
    } else if str_starts_with(line, "copy to ") {
        Some(BOLD)
    } else if str_starts_with(line, "rename from ") {
        Some(FAINT)
    } else if str_starts_with(line, "rename to ") {
        Some(BOLD)
    } else if str_starts_with(line, "similarity index ") {
        Some(FAINT)
    } else if str_starts_with(line, "new file mode ") {
        Some(FAINT)
    } else if str_starts_with(line, "deleted file mode ") {
        Some(FAINT)
    } else {
        None
    }
}


// ---------------------------------------------------------------------------
// The highlighter that is taking lines
// ---------------------------------------------------------------------------

/// The highlighter that is taking lines.
pub enum ActiveHighlighter {
    Header(PlusMinusHeaderHighlighter),
    Hunk(HunkLinesHighlighter),
    Conflicts(ConflictsHighlighter),
    Rename(RenameHighlighter),
}

pub enum ActiveView {
    Header { old_name: Seq<char>, new_name: Seq<char>, separator: char },
    Hunk(HunkView),
    Conflicts(ConflictsView),
    Rename { old_name: Seq<char> },
}

impl View for ActiveHighlighter {
    type V = ActiveView;

    open spec fn view(&self) -> ActiveView {
        match self {
            ActiveHighlighter::Header(h) => ActiveView::Header {
                old_name: h.old_name(),
                new_name: h.new_name(),
                separator: h.separator(),
            },
            ActiveHighlighter::Hunk(h) => ActiveView::Hunk(h@),
            ActiveHighlighter::Conflicts(c) => ActiveView::Conflicts(c@),
            ActiveHighlighter::Rename(r) => ActiveView::Rename { old_name: r.old_name() },
        }
    }
}

pub open spec fn active_wf(a: ActiveView) -> bool {
    match a {
        ActiveView::Header { separator, .. } => separator == '/' || separator == '\\',
        ActiveView::Hunk(h) => hunk_wf(h),
        ActiveView::Conflicts(c) => conflicts_wf(c),
        ActiveView::Rename { .. } => true,
    }
}

/// The active highlighter takes a line; `None` where it cannot.
#[verifier::opaque]
pub open spec fn active_step(
    a: ActiveView,
    line: Seq<char>,
    marker: Seq<char>,
    old_url: Option<Seq<char>>,
    new_url: Option<Seq<char>>,
) -> Option<(ActiveView, Result<(LineAcceptance, Seq<Seq<char>>), Seq<char>>)> {
    match a {
        ActiveView::Header { old_name, new_name, separator } => {
            if !(old_name.len() > 0 && new_name.len() == 0 && (starts_with(line, "+++ "@) ==> line.len()
                > 4)) {
                None
            } else if starts_with(line, "+++ "@) {
                Some(
                    (
                        ActiveView::Header { old_name, new_name: line.skip(4), separator },
                        Ok(
                            (
                                LineAcceptance::AcceptedDone,
                                seq![header_text(old_name, line.skip(4), separator, old_url, new_url)],
                            ),
                        ),
                    ),
                )
            } else {
                Some((a, Err("--- was not followed by +++"@)))
            }
        },
        ActiveView::Hunk(h) => match hunk_step(h, line, marker) {
            Some((after, r)) => Some((ActiveView::Hunk(after), r)),
            None => None,
        },
        ActiveView::Conflicts(c) => {
            let (after, r) = conflicts_step(c, line);
            Some((ActiveView::Conflicts(after), r))
        },
        ActiveView::Rename { old_name } => if old_name.len() == 0 {
            None
        } else if starts_with(line, "rename to "@) {
            Some(
                (
                    a,
                    Ok(
                        (
                            LineAcceptance::AcceptedDone,
                            seq![rename_text(old_name, trim(line.skip(10)))],
                        ),
                    ),
                ),
            )
        } else {
            Some((a, Err("Expected 'rename to <new_name>' after 'rename from <old_name>'"@)))
        },
    }
}

/// The input ended while the highlighter was taking lines.
pub open spec fn active_eof(a: ActiveView, marker: Seq<char>) -> Option<
    (ActiveView, Result<Seq<Seq<char>>, Seq<char>>),
> {
    match a {
        ActiveView::Header { .. } => Some(
            (a, Err("Input ended early, --- should have been followed by +++"@)),
        ),
        ActiveView::Hunk(h) => match hunk_eof(h, marker) {
            Some((after, r)) => Some((ActiveView::Hunk(after), r)),
            None => None,
        },
        ActiveView::Conflicts(_) => Some((a, Err("Unexpected EOF inside a conflicts section"@))),
        ActiveView::Rename { .. } => Some(
            (a, Err("Input ended early, rename from should have been followed by rename to"@)),
        ),
    }
}

// ---------------------------------------------------------------------------
// The collector
// ---------------------------------------------------------------------------

/// Takes the input one line at a time. Lines that belong together go to a
/// highlighter; the others are collected as plain text. What is ready to be
/// printed is handed out, in order.
pub struct LineCollector {
    lines_highlighter: Option<ActiveHighlighter>,
    /// Headers and stuff that we just want printed, not part of a diff
    plain_text: String,
    /// Set to true when we see the first diff line.
    diff_seen: bool,
    /// This is the `\ No newline at end of file` string. But since it can
    /// come in not-English as well as English, we take it from the input.
    /// None means we don't know yet.
    no_eof_newline_marker: Option<String>,
    /// The platform's path separator.
    separator: char,
    formatter: Formatter,
}

pub struct CollectorView {
    pub highlighter: Option<ActiveView>,
    pub plain_text: Seq<char>,
    pub diff_seen: bool,
    pub no_eof_newline_marker: Option<Seq<char>>,
    pub separator: char,
    pub formatter: FormatterView,
}

impl View for LineCollector {
    type V = CollectorView;

    closed spec fn view(&self) -> CollectorView {
        CollectorView {
            highlighter: match self.lines_highlighter {
                Some(h) => Some(h@),
                None => None,
            },
            plain_text: self.plain_text@,
            diff_seen: self.diff_seen,
            no_eof_newline_marker: crate::ansi::opt_view(self.no_eof_newline_marker),
            separator: self.separator,
            formatter: self.formatter@,
        }
    }
}

pub open spec fn collector_wf(v: CollectorView) -> bool {
    &&& v.separator == '/' || v.separator == '\\'
    &&& match v.highlighter {
        Some(a) => active_wf(a),
        None => true,
    }
}

/// How this input phrases `\ No newline at end of file`, as far as it has
/// shown it.
pub open spec fn marker_of(v: CollectorView) -> Seq<char> {
    match v.no_eof_newline_marker {
        Some(m) => m,
        None => seq![],
    }
}

/// The text of a line of input, with incoming ANSI formatting stripped if
/// asked to.
pub open spec fn decoded(raw: Seq<u8>, strip_incoming_formatting: bool) -> Seq<char> {
    if strip_incoming_formatting {
        utf8_lossy(strip_ansi(raw))
    } else {
        utf8_lossy(raw)
    }
}

/// Handing out the plain text collected so far.
pub open spec fn drained_plain(v: CollectorView) -> (CollectorView, Seq<Seq<char>>) {
    if v.plain_text.len() == 0 {
        (v, seq![])
    } else {
        (CollectorView { plain_text: seq![], ..v }, seq![v.plain_text])
    }
}

/// How a line that no highlighter takes is printed.
pub open spec fn plain_line_text(line: Seq<char>, raw: Seq<u8>) -> Seq<char> {
    match fixed_highlight_spec(line) {
        Some(color) => color + line + NORMAL@ + seq!['\n'],
        None => if starts_with(line, "commit"@) {
            commit_line_spec(line) + seq!['\n']
        } else if line.len() > 0 && line[0] == '\\' {
            // "\ No newline at end of file"
            NO_EOF_NEWLINE_COLOR@ + line + NORMAL@ + seq!['\n']
        } else if line.len() == 0 {
            seq!['\n']
        } else {
            utf8_lossy(raw) + seq!['\n']
        },
    }
}

/// A highlighter that `line` starts, after the plain text is handed out.
pub open spec fn started(v: CollectorView, line: Seq<char>, a: ActiveView) -> (CollectorView, Seq<
    Seq<char>,
>) {
    let (drained, sent) = drained_plain(v);
    (CollectorView { highlighter: Some(a), ..drained }, sent)
}

/// A line while no highlighter takes lines: it may start one, or it is
/// collected as plain text.
#[verifier::opaque]
pub open spec fn start_or_plain(v: CollectorView, line: Seq<char>, raw: Seq<u8>) -> (CollectorView, Seq<
    Seq<char>,
>) {
    if starts_with(line, "--- "@) {
        started(
            v,
            line,
            ActiveView::Header { old_name: line.skip(4), new_name: seq![], separator: v.separator },
        )
    } else if parse_spec(line) is Some {
        let header = parse_spec(line).unwrap();
        started(
            v,
            line,
            ActiveView::Hunk(
                HunkView {
                    inner: None,
                    hunk_header: Some(render_spec(header)),
                    initial_line_counts: header.linecounts,
                    remaining_line_counts: header.linecounts,
                    formatter: v.formatter,
                },
            ),
        )
    } else if starts_conflict(line) {
        started(v, line, ActiveView::Conflicts(conflicts_started(line)))
    } else if starts_with(line, "rename from "@) {
        started(v, line, ActiveView::Rename { old_name: trim(line.skip(12)) })
    } else {
        (
            CollectorView {
                diff_seen: v.diff_seen || starts_with(line, "diff"@),
                plain_text: v.plain_text + plain_line_text(line, raw),
                ..v
            },
            seq![],
        )
    }
}

/// Taking one line of input: the state afterwards, what is handed out to be
/// printed, and the result. `None` where the line cannot be taken.
pub open spec fn collect_internal(
    v: CollectorView,
    raw: Seq<u8>,
    strip_incoming_formatting: bool,
    old_url: Option<Seq<char>>,
    new_url: Option<Seq<char>>,
) -> Option<(CollectorView, Seq<Seq<char>>, Result<(), Seq<char>>)> {
    let line = decoded(raw, strip_incoming_formatting);
    // Store the "\ No newline at end of file" string however it is phrased
    // in this particular diff.
    let v1 = if line.len() > 0 && line[0] == '\\' {
        CollectorView { no_eof_newline_marker: Some(line), ..v }
    } else {
        v
    };
    if line.len() + 3 > usize::MAX {
        None
    } else {
        match v1.highlighter {
            None => {
                let (after, sent) = start_or_plain(v1, line, raw);
                Some((after, sent, Ok(())))
            },
            Some(a) => match active_step(a, line, marker_of(v1), old_url, new_url) {
                None => None,
                Some((_, Err(e))) => Some((CollectorView { highlighter: None, ..v1 }, seq![], Err(e))),
                Some((after, Ok((acceptance, out)))) => match acceptance {
                    LineAcceptance::AcceptedWantMore => Some(
                        (CollectorView { highlighter: Some(after), ..v1 }, out, Ok(())),
                    ),
                    LineAcceptance::AcceptedDone => Some(
                        (CollectorView { highlighter: None, ..v1 }, out, Ok(())),
                    ),
                    LineAcceptance::RejectedDone => {
                        // Fall back to the no-highlighter handling
                        let (retried, sent) = start_or_plain(
                            CollectorView { highlighter: None, ..v1 },
                            line,
                            raw,
                        );
                        Some((retried, out + sent, Ok(())))
                    },
                },
            },
        }
    }
}

/// A `\ No newline at end of file` line is stored as the marker before the
/// highlighter that takes lines sees it, so the highlighter draws the marker
/// in the words of this very line.
pub proof fn lemma_marker_stored_first(
    v: CollectorView,
    raw: Seq<u8>,
    strip_incoming_formatting: bool,
    old_url: Option<Seq<char>>,
    new_url: Option<Seq<char>>,
)
    requires
        decoded(raw, strip_incoming_formatting).len() > 0,
        decoded(raw, strip_incoming_formatting)[0] == '\\',
        decoded(raw, strip_incoming_formatting).len() + 3 <= usize::MAX,
        v.highlighter is Some,
    ensures
        ({
            let line = decoded(raw, strip_incoming_formatting);
            let stored = CollectorView { no_eof_newline_marker: Some(line), ..v };
            &&& marker_of(stored) == line
            &&& collect_internal(v, raw, strip_incoming_formatting, old_url, new_url) == match active_step(
                v.highlighter->0,
                line,
                line,
                old_url,
                new_url,
            ) {
                None => None,
                Some((_, Err(e))) => Some((CollectorView { highlighter: None, ..stored }, seq![], Err(e))),
                Some((after, Ok((acceptance, out)))) => match acceptance {
                    LineAcceptance::AcceptedWantMore => Some(
                        (CollectorView { highlighter: Some(after), ..stored }, out, Ok(())),
                    ),
                    LineAcceptance::AcceptedDone => Some(
                        (CollectorView { highlighter: None, ..stored }, out, Ok(())),
                    ),
                    LineAcceptance::RejectedDone => {
                        let (retried, sent) = start_or_plain(
                            CollectorView { highlighter: None, ..stored },
                            line,
                            raw,
                        );
                        Some((retried, out + sent, Ok(())))
                    },
                },
            }
        }),
{
}

/// Taking one line of input; a line that fails is printed as a parse error
/// after the plain text collected so far, and ends the highlighter.
pub open spec fn collect_step(
    v: CollectorView,
    raw: Seq<u8>,
    strip_incoming_formatting: bool,
    old_url: Option<Seq<char>>,
    new_url: Option<Seq<char>>,
) -> Option<(CollectorView, Seq<Seq<char>>, Result<(), Seq<char>>)> {
    match collect_internal(v, raw, strip_incoming_formatting, old_url, new_url) {
        None => None,
        Some((after, sent, Ok(()))) => Some((after, sent, Ok(()))),
        Some((after, sent, Err(e))) => {
            let (drained, more) = drained_plain(after);
            Some(
                (
                    CollectorView { highlighter: None, ..drained },
                    sent + more + seq![PARSE_ERROR@ + utf8_lossy(strip_ansi(raw)) + NORMAL@],
                    Err(e),
                ),
            )
        },
    }
}

/// The end of the input: the plain text and what the highlighter holds are
/// handed out.
pub open spec fn collect_finish(v: CollectorView) -> Option<(CollectorView, Seq<Seq<char>>, Result<(), Seq<char>>)> {
    let (drained, sent) = drained_plain(v);
    match drained.highlighter {
        None => Some((drained, sent, Ok(()))),
        Some(a) => match active_eof(a, marker_of(drained)) {
            None => None,
            Some((_, Err(e))) => Some((CollectorView { highlighter: None, ..drained }, sent, Err(e))),
            Some((after, Ok(out))) => Some(
                (CollectorView { highlighter: Some(after), ..drained }, sent + out, Ok(())),
            ),
        },
    }
}

/// The files that the `+++` line would link to, when a `---` / `+++` header
/// is taking lines and can take this one.
pub open spec fn collect_link_targets(v: CollectorView, raw: Seq<u8>, strip_incoming_formatting: bool) -> (
    Option<Seq<char>>,
    Option<Seq<char>>,
) {
    let line = decoded(raw, strip_incoming_formatting);
    match v.highlighter {
        Some(ActiveView::Header { old_name, new_name, separator }) => if old_name.len() > 0
            && new_name.len() == 0 && starts_with(line, "+++ "@) && line.len() > 4 {
            link_targets_spec(old_name, line.skip(4), separator)
        } else {
            (None, None)
        },
        _ => (None, None),
    }
}

/// The active highlighter takes a line. `None` where it cannot.
fn active_line(
    h: ActiveHighlighter,
    line: &str,
    marker: &str,
    old_url: Option<String>,
    new_url: Option<String>,
) -> (r: (ActiveHighlighter, Option<Result<Response, String>>))
    requires
        active_wf(h@),
        !line@.contains('\n'),
    ensures
        match r.1 {
            None => active_step(h@, line@, marker@, crate::ansi::opt_view(old_url), crate::ansi::opt_view(new_url)) is None,
            Some(res) => active_step(h@, line@, marker@, crate::ansi::opt_view(old_url), crate::ansi::opt_view(new_url))
                == Some((r.0@, response_view(res))),
        },
        active_wf(r.0@),
{
    proof {
        reveal(active_step);
    }
    match h {
        ActiveHighlighter::Header(mut header) => {
            let result = header.consume_line(line, old_url, new_url);
            (ActiveHighlighter::Header(header), result)
        },
        ActiveHighlighter::Hunk(mut hunk) => {
            let result = hunk.consume_line(line, marker);
            (ActiveHighlighter::Hunk(hunk), result)
        },
        ActiveHighlighter::Conflicts(mut conflicts) => {
            let result = conflicts.consume_line(line);
            (ActiveHighlighter::Conflicts(conflicts), Some(result))
        },
        ActiveHighlighter::Rename(mut rename) => {
            let result = rename.consume_line(line);
            (ActiveHighlighter::Rename(rename), result)
        },
    }
}

/// The input ended while the highlighter was taking lines. `None` where it
/// cannot hand out what it holds.
fn active_end(h: ActiveHighlighter, marker: &str) -> (r: (ActiveHighlighter, Option<Result<Vec<StringFuture>, String>>))
    requires
        active_wf(h@),
    ensures
        match r.1 {
            None => active_eof(h@, marker@) is None,
            Some(res) => active_eof(h@, marker@) == Some((r.0@, outputs_view(res))),
        },
        active_wf(r.0@),
{
    match h {
        ActiveHighlighter::Header(mut header) => {
            let result = header.consume_eof();
            (ActiveHighlighter::Header(header), Some(result))
        },
        ActiveHighlighter::Hunk(mut hunk) => {
            let result = hunk.consume_eof(marker);
            (ActiveHighlighter::Hunk(hunk), result)
        },
        ActiveHighlighter::Conflicts(mut conflicts) => {
            let result = conflicts.consume_eof();
            (ActiveHighlighter::Conflicts(conflicts), Some(result))
        },
        ActiveHighlighter::Rename(mut rename) => {
            let result = rename.consume_eof();
            (ActiveHighlighter::Rename(rename), Some(result))
        },
    }
}

/// Appends `more` to `out`.
fn send_all(out: &mut Vec<StringFuture>, more: Vec<StringFuture>)
    ensures
        futures_view(final(out)@) == futures_view(old(out)@) + futures_view(more@),
{
    let ghost start = out@;
    let mut more = more;
    let ghost moved = more@;
    out.append(&mut more);
    assert(futures_view(out@) =~= futures_view(start) + futures_view(moved));
}

/// One piece of output.
fn single(text: String) -> (r: Vec<StringFuture>)
    ensures
        futures_view(r@) == seq![text@],
{
    let mut out = Vec::new();
    out.push(StringFuture::from_string(text));
    assert(futures_view(out@) =~= seq![text@]);
    out
}

/// A result without a value, as a plain value.
pub open spec fn unit_result(r: Result<(), String>) -> Result<(), Seq<char>> {
    match r {
        Ok(_) => Ok(()),
        Err(e) => Err(e@),
    }
}

/// The text of a line of input, with incoming ANSI formatting stripped if
/// asked to.
fn decode(raw_line: &[u8], strip_incoming_formatting: bool) -> (r: String)
    ensures
        r@ == decoded(raw_line@, strip_incoming_formatting),
        !raw_line@.contains(10u8) ==> !r@.contains('\n'),
{
    if strip_incoming_formatting {
        let stripped = without_ansi_escape_codes(raw_line);
        proof {
            if !raw_line@.contains(10u8) {
                crate::ansi::lemma_strip_adds_nothing(raw_line@, 0, crate::ansi::StripState::Normal, 10u8);
            }
        }
        from_utf8_lossy(stripped.as_slice())
    } else {
        from_utf8_lossy(raw_line)
    }
}

impl LineCollector {
    /// A collector with nothing collected yet.
    pub fn new(formatter: Formatter) -> (r: LineCollector)
        ensures
            r@.highlighter is None,
            r@.plain_text.len() == 0,
            !r@.diff_seen,
            r@.no_eof_newline_marker is None,
            r@.formatter == formatter@,
            collector_wf(r@),
    {
        LineCollector {
            lines_highlighter: None,
            plain_text: String::new(),
            diff_seen: false,
            no_eof_newline_marker: None,
            separator: crate::plusminus_header_highlighter::main_separator(),
            formatter,
        }
    }

    /// Hands out the plain text collected so far.
    fn drain_plain(&mut self) -> (r: Vec<StringFuture>)
        ensures
            (final(self)@, futures_view(r@)) == drained_plain(old(self)@),
    {
        let ghost v = self@;
        if self.plain_text.as_str().is_empty() {
            let out: Vec<StringFuture> = Vec::new();
            assert(futures_view(out@) =~= Seq::<Seq<char>>::empty());
            return out;
        }
        let mut text = String::new();
        std::mem::swap(&mut text, &mut self.plain_text);
        assert(self@ == CollectorView { plain_text: seq![], ..v });
        single(text)
    }

    /// Starts the highlighter `h`, after handing out the plain text.
    fn start(&mut self, h: ActiveHighlighter) -> (r: Vec<StringFuture>)
        requires
            collector_wf(old(self)@),
            active_wf(h@),
        ensures
            (final(self)@, futures_view(r@)) == ({
                let (d, sent) = drained_plain(old(self)@);
                (CollectorView { highlighter: Some(h@), ..d }, sent)
            }),
            collector_wf(final(self)@),
    {
        let out = self.drain_plain();
        self.lines_highlighter = Some(h);
        out
    }

    /// A line while no highlighter takes lines: it may start one, or it is
    /// collected as plain text.
    fn start_or_plain(&mut self, line: &str, raw_line: &[u8]) -> (r: Vec<StringFuture>)
        requires
            collector_wf(old(self)@),
            old(self)@.highlighter is None,
            line@.len() + 3 <= usize::MAX,
        ensures
            (final(self)@, futures_view(r@)) == start_or_plain(old(self)@, line@, raw_line@),
            collector_wf(final(self)@),
    {
        proof {
            reveal(start_or_plain);
        }
        let ghost v = self@;
        if let Some(header) = PlusMinusHeaderHighlighter::from_line_with_separator(line, self.separator) {
            assert(header.new_name() =~= Seq::<char>::empty());
            return self.start(ActiveHighlighter::Header(header));
        }
        if let Some(hunk) = HunkLinesHighlighter::from_line(line, self.formatter.duplicate()) {
            return self.start(ActiveHighlighter::Hunk(hunk));
        }
        if let Some(conflicts) = ConflictsHighlighter::from_line(line) {
            assert(conflicts@ == conflicts_started(line@));
            return self.start(ActiveHighlighter::Conflicts(conflicts));
        }
        if let Some(rename) = RenameHighlighter::from_line(line) {
            return self.start(ActiveHighlighter::Rename(rename));
        }
        if str_starts_with(line, "diff") {
            self.diff_seen = true;
        }
        let text = plain_line(line, raw_line);
        push_str(&mut self.plain_text, text.as_str());
        let out: Vec<StringFuture> = Vec::new();
        assert(futures_view(out@) =~= Seq::<Seq<char>>::empty());
        out
    }

    /// Hands the line to the active highlighter. `None` where it cannot
    /// take it; otherwise the output, and whether it took the line (else
    /// the line is still to be handled), or its error.
    fn hand_over(
        &mut self,
        h: ActiveHighlighter,
        line: &str,
        old_url: Option<String>,
        new_url: Option<String>,
    ) -> (r: Option<(Vec<StringFuture>, Result<bool, String>)>)
        requires
            collector_wf(old(self)@),
            old(self)@.highlighter is None,
            active_wf(h@),
            !line@.contains('\n'),
        ensures
            match r {
                None => active_step(
                    h@,
                    line@,
                    marker_of(old(self)@),
                    crate::ansi::opt_view(old_url),
                    crate::ansi::opt_view(new_url),
                ) is None,
                Some((sent, res)) => match active_step(
                    h@,
                    line@,
                    marker_of(old(self)@),
                    crate::ansi::opt_view(old_url),
                    crate::ansi::opt_view(new_url),
                ) {
                    None => false,
                    Some((after, Err(e))) => res == Err::<bool, String>(res->Err_0) && res->Err_0@ == e
                        && sent@.len() == 0 && final(self)@ == old(self)@,
                    Some((after, Ok((acceptance, out)))) => res is Ok && futures_view(sent@) == out && match acceptance {
                        LineAcceptance::AcceptedWantMore => res == Ok::<bool, String>(true) && final(self)@
                            == (CollectorView { highlighter: Some(after), ..old(self)@ }),
                        LineAcceptance::AcceptedDone => res == Ok::<bool, String>(true) && final(self)@
                            == old(self)@,
                        LineAcceptance::RejectedDone => res == Ok::<bool, String>(false) && final(self)@
                            == old(self)@,
                    },
                },
            },
            collector_wf(final(self)@),
    {
        let marker = match &self.no_eof_newline_marker {
            Some(m) => string_of_str(m.as_str()),
            None => String::new(),
        };
        let (after, result) = active_line(h, line, marker.as_str(), old_url, new_url);
        match result {
            None => None,
            Some(Err(e)) => Some((Vec::new(), Err(e))),
            Some(Ok(response)) => {
                let Response { line_accepted, highlighted } = response;
                match line_accepted {
                    LineAcceptance::AcceptedWantMore => {
                        self.lines_highlighter = Some(after);
                        Some((highlighted, Ok(true)))
                    },
                    LineAcceptance::AcceptedDone => Some((highlighted, Ok(true))),
                    LineAcceptance::RejectedDone => Some((highlighted, Ok(false))),
                }
            },
        }
    }

    /// Takes one line of input. Returns the output and an error message on
    /// trouble; `None` where the line cannot be taken.
    fn consume_line_internal(
        &mut self,
        raw_line: &[u8],
        strip_incoming_formatting: bool,
        old_url: Option<String>,
        new_url: Option<String>,
    ) -> (r: Option<(Vec<StringFuture>, Result<(), String>)>)
        requires
            collector_wf(old(self)@),
            !raw_line@.contains(10u8),
        ensures
            match r {
                None => collect_internal(
                    old(self)@,
                    raw_line@,
                    strip_incoming_formatting,
                    crate::ansi::opt_view(old_url),
                    crate::ansi::opt_view(new_url),
                ) is None,
                Some((sent, res)) => collect_internal(
                    old(self)@,
                    raw_line@,
                    strip_incoming_formatting,
                    crate::ansi::opt_view(old_url),
                    crate::ansi::opt_view(new_url),
                ) == Some((final(self)@, futures_view(sent@), unit_result(res))),
            },
            collector_wf(final(self)@),
    {
        // Strip out incoming ANSI formatting. This enables us to highlight
        // already-colored input.
        let line = decode(raw_line, strip_incoming_formatting);
        let chars = chars_of(line.as_str());
        if chars.len() > usize::MAX - 3 {
            return None;
        }
        if chars.len() > 0 && chars[0] == '\\' {
            self.no_eof_newline_marker = Some(string_of_str(line.as_str()));
        }
        let mut taken: Option<ActiveHighlighter> = None;
        std::mem::swap(&mut taken, &mut self.lines_highlighter);
        let mut out: Vec<StringFuture> = Vec::new();
        if let Some(h) = taken {
            match self.hand_over(h, line.as_str(), old_url, new_url) {
                None => {
                    return None;
                },
                Some((_, Err(e))) => {
                    let none: Vec<StringFuture> = Vec::new();
                    assert(futures_view(none@) =~= Seq::<Seq<char>>::empty());
                    return Some((none, Err(e)));
                },
                Some((sent, Ok(true))) => {
                    return Some((sent, Ok(())));
                },
                Some((sent, Ok(false))) => {
                    // Do not return, fall back to the no-handler code below
                    out = sent;
                },
            }
        } else {
            assert(futures_view(out@) =~= Seq::<Seq<char>>::empty());
        }
        let more = self.start_or_plain(line.as_str(), raw_line);
        send_all(&mut out, more);
        Some((out, Ok(())))
    }

    /// Takes one line of input, which holds no newline. `old_url` and
    /// `new_url` are where the files that `link_targets` names for this line
    /// are, if they exist. Returns what is ready to be printed, in order,
    /// and an error message on trouble (then the line itself comes last in
    /// the output, as a parse error); `None` where the line cannot be taken.
    pub fn consume_line(
        &mut self,
        raw_line: &[u8],
        strip_incoming_formatting: bool,
        old_url: Option<String>,
        new_url: Option<String>,
    ) -> (r: Option<(Vec<StringFuture>, Result<(), String>)>)
        requires
            collector_wf(old(self)@),
            !raw_line@.contains(10u8),
        ensures
            match r {
                None => collect_step(
                    old(self)@,
                    raw_line@,
                    strip_incoming_formatting,
                    crate::ansi::opt_view(old_url),
                    crate::ansi::opt_view(new_url),
                ) is None,
                Some((sent, res)) => collect_step(
                    old(self)@,
                    raw_line@,
                    strip_incoming_formatting,
                    crate::ansi::opt_view(old_url),
                    crate::ansi::opt_view(new_url),
                ) == Some((final(self)@, futures_view(sent@), unit_result(res))),
            },
            collector_wf(final(self)@),
    {
        match self.consume_line_internal(raw_line, strip_incoming_formatting, old_url, new_url) {
            None => None,
            Some((sent, Ok(()))) => Some((sent, Ok(()))),
            Some((sent, Err(error))) => {
                // Invariant: This was an error
                let mut out = sent;
                let drained = self.drain_plain();
                send_all(&mut out, drained);
                // This one just failed, so it's out
                self.lines_highlighter = None;
                let stripped = without_ansi_escape_codes(raw_line);
                let text = from_utf8_lossy(stripped.as_slice());
                let mut message = string_of_str(PARSE_ERROR);
                push_str(&mut message, text.as_str());
                push_str(&mut message, NORMAL);
                send_all(&mut out, single(message));
                Some((out, Err(error)))
            },
        }
    }

    /// The end of the input: hands out the plain text and what the
    /// highlighter holds, and returns the highlighter's error message, if it
    /// has one. `None` where it cannot hand out what it holds.
    pub fn finish(&mut self) -> (r: Option<(Vec<StringFuture>, Result<(), String>)>)
        requires
            collector_wf(old(self)@),
        ensures
            match r {
                None => collect_finish(old(self)@) is None,
                Some((sent, res)) => collect_finish(old(self)@) == Some(
                    (final(self)@, futures_view(sent@), unit_result(res)),
                ),
            },
            collector_wf(final(self)@),
    {
        // Flush outstanding lines
        let mut out = self.drain_plain();
        let mut taken: Option<ActiveHighlighter> = None;
        std::mem::swap(&mut taken, &mut self.lines_highlighter);
        match taken {
            None => Some((out, Ok(()))),
            Some(h) => {
                let marker = match &self.no_eof_newline_marker {
                    Some(m) => string_of_str(m.as_str()),
                    None => String::new(),
                };
                let (after, result) = active_end(h, marker.as_str());
                match result {
                    None => None,
                    Some(Err(e)) => Some((out, Err(e))),
                    Some(Ok(highlighted)) => {
                        self.lines_highlighter = Some(after);
                        send_all(&mut out, highlighted);
                        Some((out, Ok(())))
                    },
                }
            },
        }
    }

    /// The files that a `+++` line would link its names to, when a `---` /
    /// `+++` header is taking lines; `None` for each otherwise.
    pub fn link_targets(&self, raw_line: &[u8], strip_incoming_formatting: bool) -> (r: (
        Option<String>,
        Option<String>,
    ))
        requires
            collector_wf(self@),
        ensures
            (crate::ansi::opt_view(r.0), crate::ansi::opt_view(r.1)) == collect_link_targets(
                self@,
                raw_line@,
                strip_incoming_formatting,
            ),
    {
        match &self.lines_highlighter {
            Some(ActiveHighlighter::Header(header)) => {
                let line = decode(raw_line, strip_incoming_formatting);
                header.link_targets(line.as_str())
            },
            _ => (None, None),
        }
    }
}

/// How a line that no highlighter takes is printed.
fn plain_line(line: &str, raw_line: &[u8]) -> (r: String)
    ensures
        r@ == plain_line_text(line@, raw_line@),
{
    let chars = chars_of(line);
    let mut text = String::new();
    match get_fixed_highlight(line) {
        Some(fixed_highlight) => {
            push_str(&mut text, fixed_highlight);
            push_str(&mut text, line);
            push_str(&mut text, NORMAL);
        },
        None => {
            if str_starts_with(line, "commit") {
                let formatted = format_commit_line(line);
                push_str(&mut text, formatted.as_str());
            } else if chars.len() > 0 && chars[0] == '\\' {
                // "\ No newline at end of file"
                push_str(&mut text, NO_EOF_NEWLINE_COLOR);
                push_str(&mut text, line);
                push_str(&mut text, NORMAL);
            } else if chars.len() == 0 {
            } else {
                let lossy = from_utf8_lossy(raw_line);
                push_str(&mut text, lossy.as_str());
            }
        },
    }
    let ghost before = text@;
    crate::text::push_char(&mut text, '\n');
    assert(text@ =~= before + seq!['\n']);
    text
}


/// A line that starts with "commit" starts no highlighter and has no fixed
/// color.
proof fn lemma_commit_line_is_plain(line: Seq<char>)
    requires
        starts_with(line, "commit"@),
    ensures
        fixed_highlight_spec(line) is None,
        !starts_with(line, "--- "@),
        parse_spec(line) is None,
        !starts_conflict(line),
        !starts_with(line, "rename from "@),
        !starts_with(line, "diff"@),
        line.len() > 0 && line[0] == 'c',
{
    reveal_strlit("commit");
    reveal_strlit("--- ");
    reveal_strlit("rename from ");
    reveal_strlit("diff");
    reveal_strlit("diff ");
    reveal_strlit("index ");
    reveal_strlit("Binary files ");
    reveal_strlit("copy from ");
    reveal_strlit("copy to ");
    reveal_strlit("rename to ");
    reveal_strlit("similarity index ");
    reveal_strlit("new file mode ");
    reveal_strlit("deleted file mode ");
    reveal_strlit("<<<<<<<");
    reveal_strlit("++<<<<<<<");
    assert(line.take(6) == "commit"@);
    assert(line[0] == line.take(6)[0]);
    assert(line[2] == line.take(6)[2]);
    assert(crate::hunk_header::at_run(line) == 0);
}

/// A line that starts with "commit", taken while no highlighter is active,
/// is collected as the highlighted commit line (`format_commit_line`) and a
/// newline, so it comes out in yellow on the blue background; nothing is
/// handed out yet and nothing else changes.
pub proof fn lemma_commit_line_collected(
    v: CollectorView,
    raw: Seq<u8>,
    strip_incoming_formatting: bool,
    old_url: Option<Seq<char>>,
    new_url: Option<Seq<char>>,
)
    requires
        v.highlighter is None,
        starts_with(decoded(raw, strip_incoming_formatting), "commit"@),
        decoded(raw, strip_incoming_formatting).len() + 3 <= usize::MAX,
    ensures
        ({
            let line = decoded(raw, strip_incoming_formatting);
            &&& collect_step(v, raw, strip_incoming_formatting, old_url, new_url) == Some(
                (
                    CollectorView {
                        plain_text: v.plain_text + commit_line_spec(line) + seq!['\n'],
                        ..v
                    },
                    Seq::<Seq<char>>::empty(),
                    Ok::<(), Seq<char>>(()),
                ),
            )
            &&& starts_with(commit_line_spec(line), YELLOW@ + BLUE_TO_END_OF_LINE@)
        }),
{
    let line = decoded(raw, strip_incoming_formatting);
    lemma_commit_line_is_plain(line);
    reveal(start_or_plain);
    assert(plain_line_text(line, raw) == commit_line_spec(line) + seq!['\n']);
    assert(v.plain_text + plain_line_text(line, raw) =~= v.plain_text + commit_line_spec(line) + seq![
        '\n',
    ]);
    let head = YELLOW@ + BLUE_TO_END_OF_LINE@;
    assert(commit_line_spec(line).take(head.len() as int) =~= head);
}

} // verus!
