//! Highlighting of hunks: a hunk header and the lines it announces.

use vstd::prelude::*;

use crate::conflicts_highlighter::{
    conflicts_step, conflicts_wf, starts_conflict, ConflictsHighlighter, ConflictsView,
};
use crate::constants::{NORMAL, NO_EOF_NEWLINE_COLOR};
use crate::hunk_header::{parse_spec, render_spec, HunkHeader};
use crate::lines_highlighter::{
    futures_view, outputs_view, response_view, LineAcceptance, Response,
};
use crate::plusminus_header_highlighter::spaces;
use crate::plusminus_lines_highlighter::{
    plusminus_eof, plusminus_start, plusminus_step, plusminus_wf, PlusMinusLinesHighlighter,
    PlusMinusView,
};
use crate::refiner::{Formatter, FormatterView};
use crate::string_future::StringFuture;
use crate::text::{
    byte_split, byte_split_spec, chars_of, decimal, push_chars, push_decimal, push_str,
    starts_with, string_of_str, ByteSplit,
};

verus! {

/// What a hunk hands its lines to while they belong together.
pub enum InnerHighlighter {
    Conflicts(ConflictsHighlighter),
    PlusMinus(PlusMinusLinesHighlighter),
}

pub enum InnerView {
    Conflicts(ConflictsView),
    PlusMinus(PlusMinusView),
}

impl View for InnerHighlighter {
    type V = InnerView;

    open spec fn view(&self) -> InnerView {
        match self {
            InnerHighlighter::Conflicts(c) => InnerView::Conflicts(c@),
            InnerHighlighter::PlusMinus(p) => InnerView::PlusMinus(p@),
        }
    }
}

pub open spec fn inner_wf(iv: InnerView) -> bool {
    match iv {
        InnerView::Conflicts(c) => conflicts_wf(c),
        InnerView::PlusMinus(p) => plusminus_wf(p),
    }
}

/// The inner highlighter takes a line.
pub open spec fn inner_step(iv: InnerView, line: Seq<char>, marker: Seq<char>) -> Option<
    (InnerView, Result<(LineAcceptance, Seq<Seq<char>>), Seq<char>>),
> {
    match iv {
        InnerView::Conflicts(c) => {
            let (after, r) = conflicts_step(c, line);
            Some((InnerView::Conflicts(after), r))
        },
        InnerView::PlusMinus(p) => match plusminus_step(p, line, marker) {
            Some((after, r)) => Some((InnerView::PlusMinus(after), r)),
            None => None,
        },
    }
}

/// The inner highlighter takes the end of its lines.
pub open spec fn inner_eof(iv: InnerView, marker: Seq<char>) -> Option<
    (InnerView, Result<Seq<Seq<char>>, Seq<char>>),
> {
    match iv {
        InnerView::Conflicts(c) => Some((iv, Err("Unexpected EOF inside a conflicts section"@))),
        InnerView::PlusMinus(p) => match plusminus_eof(p, marker) {
            Some((after, r)) => Some((InnerView::PlusMinus(after), r)),
            None => None,
        },
    }
}

/// Highlights a hunk: its header, then its lines until the line counts in
/// the header are used up.
pub struct HunkLinesHighlighter {
    lines_highlighter: Option<InnerHighlighter>,
    /// This will have to be rendered at the top of our returned result.
    hunk_header: Option<String>,
    /// Calculated by HunkHeader::parse()
    initial_line_counts: Vec<usize>,
    /// We'll count these values down as we consume lines.
    remaining_line_counts: Vec<usize>,
    formatter: Formatter,
}

pub struct HunkView {
    pub inner: Option<InnerView>,
    pub hunk_header: Option<Seq<char>>,
    pub initial_line_counts: Seq<usize>,
    pub remaining_line_counts: Seq<usize>,
    pub formatter: FormatterView,
}

impl View for HunkLinesHighlighter {
    type V = HunkView;

    closed spec fn view(&self) -> HunkView {
        HunkView {
            inner: match self.lines_highlighter {
                Some(h) => Some(h@),
                None => None,
            },
            hunk_header: crate::ansi::opt_view(self.hunk_header),
            initial_line_counts: self.initial_line_counts@,
            remaining_line_counts: self.remaining_line_counts@,
            formatter: self.formatter@,
        }
    }
}

/// One count per column plus one for the result, each counted down from its
/// initial value.
pub open spec fn hunk_wf(v: HunkView) -> bool {
    &&& v.remaining_line_counts.len() >= 1
    &&& v.initial_line_counts.len() == v.remaining_line_counts.len()
    &&& forall|i: int|
        0 <= i < v.remaining_line_counts.len() ==> #[trigger] v.remaining_line_counts[i]
            <= v.initial_line_counts[i]
    &&& match v.inner {
        Some(iv) => inner_wf(iv),
        None => true,
    }
}

/// How many prefix columns the lines have.
pub open spec fn prefix_length_of(v: HunkView) -> int {
    v.remaining_line_counts.len() - 1
}

/// Whether any line count has not reached zero.
pub open spec fn more_expected(v: HunkView) -> bool {
    exists|i: int| 0 <= i < v.remaining_line_counts.len() && #[trigger] v.remaining_line_counts[i] != 0
}

// ---------------------------------------------------------------------------
// Counting lines down
// ---------------------------------------------------------------------------

/// Counts down the columns (from `pos` on) where `prefix` holds `target`.
/// The second value is the first such column, counted from one, whose count
/// was already zero; the counts before it stay counted down.
pub open spec fn decrease_columns(counts: Seq<usize>, prefix: Seq<char>, target: char, pos: int) -> (
    Seq<usize>,
    Option<int>,
)
    decreases prefix.len() - pos,
{
    if pos < 0 || pos >= prefix.len() {
        (counts, None)
    } else if prefix[pos] != target {
        decrease_columns(counts, prefix, target, pos + 1)
    } else if counts[pos] == 0 {
        (counts, Some(pos + 1))
    } else {
        decrease_columns(counts.update(pos, (counts[pos] - 1) as usize), prefix, target, pos + 1)
    }
}

/// The line counts after a line with `prefix`, or the error.
pub open spec fn decrease_spec(counts: Seq<usize>, prefix: Seq<char>) -> (Seq<usize>, Result<
    (),
    Seq<char>,
>) {
    if prefix.contains('+') || crate::plusminus_lines_highlighter::all_spaces(prefix) {
        // Any additions always count towards the last (additions) line
        // count. Context lines (space only) also count towards the last
        // count.
        if counts.last() == 0 {
            (counts, Err("Got more + lines than expected"@))
        } else {
            let counted = counts.update(counts.len() - 1, (counts.last() - 1) as usize);
            match decrease_columns(counted, prefix, ' ', 0) {
                (after, None) => (after, Ok(())),
                (after, Some(k)) => (
                    after,
                    Err(
                        "Got more lines than expected for version (+ context column) "@ + decimal(
                            k as nat,
                        ),
                    ),
                ),
            }
        }
    } else {
        // Now, also decrease any `-` columns
        match decrease_columns(counts, prefix, '-', 0) {
            (after, None) => (after, Ok(())),
            (after, Some(k)) => (
                after,
                Err(
                    "Got more lines than expected for version (minus / space column) "@ + decimal(
                        k as nat,
                    ),
                ),
            ),
        }
    }
}

/// The remaining line counts added up.
pub open spec fn count_total(counts: Seq<usize>) -> int
    decreases counts.len(),
{
    if counts.len() == 0 {
        0
    } else {
        count_total(counts.drop_last()) + counts.last()
    }
}

proof fn lemma_count_total_update(counts: Seq<usize>, i: int)
    requires
        0 <= i < counts.len(),
        counts[i] > 0,
    ensures
        count_total(counts.update(i, (counts[i] - 1) as usize)) == count_total(counts) - 1,
    decreases counts.len(),
{
    let updated = counts.update(i, (counts[i] - 1) as usize);
    if i < counts.len() - 1 {
        assert(updated.drop_last() =~= counts.drop_last().update(i, (counts[i] - 1) as usize));
        lemma_count_total_update(counts.drop_last(), i);
    } else {
        assert(updated.drop_last() =~= counts.drop_last());
    }
}

proof fn lemma_decrease_columns_shrinks(counts: Seq<usize>, prefix: Seq<char>, target: char, pos: int)
    requires
        0 <= pos,
        prefix.len() <= counts.len(),
    ensures
        decrease_columns(counts, prefix, target, pos).0.len() == counts.len(),
        count_total(decrease_columns(counts, prefix, target, pos).0) <= count_total(counts),
        decrease_columns(counts, prefix, target, pos).1 is None && (exists|j: int|
            pos <= j < prefix.len() && #[trigger] prefix[j] == target) ==> count_total(
            decrease_columns(counts, prefix, target, pos).0,
        ) < count_total(counts),
    decreases prefix.len() - pos,
{
    if pos < prefix.len() {
        if prefix[pos] != target {
            lemma_decrease_columns_shrinks(counts, prefix, target, pos + 1);
            if exists|j: int| pos <= j < prefix.len() && #[trigger] prefix[j] == target {
                let j = choose|j: int| pos <= j < prefix.len() && #[trigger] prefix[j] == target;
                assert(j != pos);
                assert(pos + 1 <= j);
            }
        } else if counts[pos] != 0 {
            let counted = counts.update(pos, (counts[pos] - 1) as usize);
            lemma_count_total_update(counts, pos);
            lemma_decrease_columns_shrinks(counted, prefix, target, pos + 1);
        }
    }
}

/// Every line that a hunk takes brings it closer to its end: counting down
/// the line counts for a line whose prefix holds spaces, `-` and `+` only
/// never raises their total, and where it succeeds the total goes down.
pub proof fn lemma_decrease_shrinks(counts: Seq<usize>, prefix: Seq<char>)
    requires
        prefix.len() < counts.len(),
        forall|i: int| 0 <= i < prefix.len() ==> #[trigger] prefix[i] == ' ' || prefix[i] == '-' || prefix[i] == '+',
    ensures
        decrease_spec(counts, prefix).0.len() == counts.len(),
        count_total(decrease_spec(counts, prefix).0) <= count_total(counts),
        decrease_spec(counts, prefix).1 is Ok ==> count_total(decrease_spec(counts, prefix).0)
            < count_total(counts),
{
    if prefix.contains('+') || crate::plusminus_lines_highlighter::all_spaces(prefix) {
        if counts.last() != 0 {
            let counted = counts.update(counts.len() - 1, (counts.last() - 1) as usize);
            lemma_count_total_update(counts, counts.len() - 1);
            lemma_decrease_columns_shrinks(counted, prefix, ' ', 0);
        }
    } else {
        lemma_decrease_columns_shrinks(counts, prefix, '-', 0);
        let j = choose|j: int| 0 <= j < prefix.len() && prefix[j] != ' ';
        assert(prefix[j] == '-') by {
            if prefix[j] == '+' {
                assert(prefix.contains('+'));
            }
        }
    }
}

// ---------------------------------------------------------------------------
// Describing the counts
// ---------------------------------------------------------------------------

/// `n` plus signs.
pub open spec fn pluses(n: int) -> Seq<char> {
    Seq::new(n as nat, |_i: int| '+')
}

/// The column a count belongs to: `±` in its place among spaces, and all
/// `+` for the last (result) count.
pub open spec fn count_column(len: int, pos: int) -> Seq<char> {
    if pos == len - 1 {
        pluses(len - 1)
    } else {
        spaces(pos) + seq!['\u{b1}'] + spaces(len - pos - 2)
    }
}

/// How the count at `pos` is described: its column, and how many of its
/// lines have come out of how many.
pub open spec fn count_piece(initial: Seq<usize>, remaining: Seq<usize>, pos: int) -> Seq<char> {
    let separator = if pos == 0 {
        seq![]
    } else {
        ", "@
    };
    separator + "<"@ + count_column(remaining.len() as int, pos) + "> "@ + decimal(
        (initial[pos] - remaining[pos]) as nat,
    ) + "/"@ + decimal(initial[pos] as nat) + " done"@
}

/// The first `n` counts described, separated by commas.
pub open spec fn describe_from(initial: Seq<usize>, remaining: Seq<usize>, n: int) -> Seq<char>
    decreases n,
{
    if n <= 0 {
        seq![]
    } else {
        describe_from(initial, remaining, n - 1) + count_piece(initial, remaining, n - 1)
    }
}

/// Something along the lines of `[<± > 1/1 done, < ±> 3/4 done, <++> 1/1 done]`
pub open spec fn describe_spec(v: HunkView) -> Seq<char> {
    "["@ + describe_from(
        v.initial_line_counts,
        v.remaining_line_counts,
        v.remaining_line_counts.len() as int,
    ) + "]"@
}

// ---------------------------------------------------------------------------
// Taking lines
// ---------------------------------------------------------------------------

/// The prefix of a hunk line: its first `n` bytes, or `n` spaces for a
/// shorter line. `None` where byte `n` falls inside a character.
pub open spec fn hunk_prefix(line: Seq<char>, n: int) -> Option<Seq<char>> {
    match byte_split_spec(line, n) {
        ByteSplit::Short => Some(spaces(n)),
        ByteSplit::At(j) => Some(line.take(j as int)),
        ByteSplit::Inside => None,
    }
}

/// The state of a conflicts highlighter that starts at `line`.
pub open spec fn conflicts_started(line: Seq<char>) -> ConflictsView {
    ConflictsView {
        c1_header: line,
        c1: seq![],
        base_header: seq![],
        base: seq![],
        base_line_prefixes: seq![],
        c2_header: seq![],
        c2: seq![],
        footer: seq![],
    }
}

/// The state of a `-` / `+` lines highlighter that starts at `line`.
pub open spec fn plusminus_started(line: Seq<char>, n: int, f: FormatterView) -> PlusMinusView {
    PlusMinusView {
        prefix_length: n,
        texts: seq![line.skip(n) + seq!['\n']],
        prefixes: seq![line.take(n)],
        last_seen_prefix: Some(line.take(n)),
        formatter: f,
    }
}

/// A line taken while no inner highlighter is active: it may start one, be
/// a context line, or be a `\ No newline at end of file` line.
pub open spec fn fresh_step(v: HunkView, line: Seq<char>) -> (HunkView, Result<
    Seq<Seq<char>>,
    Seq<char>,
>) {
    let n = prefix_length_of(v);
    if n == 2 && starts_conflict(line) {
        (HunkView { inner: Some(InnerView::Conflicts(conflicts_started(line))), ..v }, Ok(seq![]))
    } else if plusminus_start(line, n) is Some {
        (
            HunkView {
                inner: Some(InnerView::PlusMinus(plusminus_started(line, n, v.formatter))),
                ..v
            },
            Ok(seq![]),
        )
    } else if line.len() == 0 || starts_with(line, spaces(n)) {
        // Context lines
        (v, Ok(seq![line + seq!['\n']]))
    } else if !(line.len() > 0 && line[0] == '\\') {
        // All other cases should have been handled above
        (v, Err("Expected line at "@ + describe_spec(v) + " to start with \"\\\\\""@))
    } else {
        (v, Ok(seq![NO_EOF_NEWLINE_COLOR@ + line + NORMAL@ + seq!['\n']]))
    }
}

/// A line handed to the inner highlighter, if there is one; a line it
/// rejects is taken afresh.
pub open spec fn internal_step(v: HunkView, line: Seq<char>, marker: Seq<char>) -> Option<
    (HunkView, Result<Seq<Seq<char>>, Seq<char>>),
> {
    match v.inner {
        None => Some(fresh_step(v, line)),
        Some(iv) => match inner_step(iv, line, marker) {
            None => None,
            Some((after, Err(e))) => Some((HunkView { inner: Some(after), ..v }, Err(e))),
            Some((after, Ok((acceptance, out)))) => match acceptance {
                LineAcceptance::AcceptedWantMore => Some(
                    (HunkView { inner: Some(after), ..v }, Ok(out)),
                ),
                LineAcceptance::AcceptedDone => Some((HunkView { inner: None, ..v }, Ok(out))),
                LineAcceptance::RejectedDone => {
                    // Drop our lines_highlighter and retry the line
                    let (retried, r) = fresh_step(HunkView { inner: None, ..v }, line);
                    match r {
                        Err(e) => Some((retried, Err(e))),
                        Ok(more) => Some((retried, Ok(out + more))),
                    }
                },
            },
        },
    }
}

/// Handing out what the inner highlighter holds.
pub open spec fn hunk_drain(v: HunkView, marker: Seq<char>) -> Option<
    (HunkView, Result<Seq<Seq<char>>, Seq<char>>),
> {
    match v.inner {
        None => Some((v, Ok(seq![]))),
        Some(iv) => match inner_eof(iv, marker) {
            None => None,
            Some((after, Err(e))) => Some((HunkView { inner: Some(after), ..v }, Err(e))),
            Some((after, Ok(out))) => Some((HunkView { inner: None, ..v }, Ok(out))),
        },
    }
}

/// Taking one line of the hunk: the state afterwards and the answer; `None`
/// where the line cannot be taken.
pub open spec fn hunk_step(v: HunkView, line: Seq<char>, marker: Seq<char>) -> Option<
    (HunkView, Result<(LineAcceptance, Seq<Seq<char>>), Seq<char>>),
> {
    // Always start by rendering the hunk header
    let header = match v.hunk_header {
        Some(h) => seq![h + seq!['\n']],
        None => seq![],
    };
    let v0 = HunkView { hunk_header: None, ..v };
    match hunk_prefix(line, prefix_length_of(v)) {
        None => None,
        Some(prefix) => if line.len() > 0 && line[0] == '\\' {
            match internal_step(v0, line, marker) {
                None => None,
                Some((after, Err(e))) => Some((after, Err(e))),
                Some((after, Ok(out))) => Some(
                    (after, Ok((LineAcceptance::AcceptedWantMore, header + out))),
                ),
            }
        } else if !more_expected(v0) {
            match v0.inner {
                None => Some((v0, Ok((LineAcceptance::RejectedDone, header)))),
                Some(iv) => match inner_eof(iv, marker) {
                    None => None,
                    Some((after, Err(e))) => Some((HunkView { inner: Some(after), ..v0 }, Err(e))),
                    Some((after, Ok(out))) => Some(
                        (
                            HunkView { inner: Some(after), ..v0 },
                            Ok((LineAcceptance::RejectedDone, header + out)),
                        ),
                    ),
                },
            }
        } else {
            let (counts, decreased) = decrease_spec(v0.remaining_line_counts, prefix);
            let v1 = HunkView { remaining_line_counts: counts, ..v0 };
            match decreased {
                Err(e) => Some((v1, Err(e))),
                Ok(_) => match internal_step(v1, line, marker) {
                    None => None,
                    Some((after, Err(e))) => Some((after, Err(e))),
                    Some((after, Ok(out))) => Some(
                        (after, Ok((LineAcceptance::AcceptedWantMore, header + out))),
                    ),
                },
            }
        },
    }
}

/// The end of the input inside the hunk.
pub open spec fn hunk_eof(v: HunkView, marker: Seq<char>) -> Option<
    (HunkView, Result<Seq<Seq<char>>, Seq<char>>),
> {
    if more_expected(v) {
        Some((v, Err("Still expecting more lines, but got EOF: "@ + describe_spec(v))))
    } else {
        hunk_drain(v, marker)
    }
}


// ---------------------------------------------------------------------------
// The highlighter
// ---------------------------------------------------------------------------

/// Hands a line to an inner highlighter. `None` where it cannot take it.
fn inner_line(h: InnerHighlighter, line: &str, marker: &str) -> (r: (InnerHighlighter, Option<Result<Response, String>>))
    requires
        inner_wf(h@),
        !line@.contains('\n'),
    ensures
        match r.1 {
            None => inner_step(h@, line@, marker@) is None,
            Some(res) => inner_step(h@, line@, marker@) == Some((r.0@, response_view(res))),
        },
        inner_wf(r.0@),
{
    match h {
        InnerHighlighter::Conflicts(mut c) => {
            let result = c.consume_line(line);
            (InnerHighlighter::Conflicts(c), Some(result))
        },
        InnerHighlighter::PlusMinus(mut p) => {
            let result = p.consume_line(line, marker);
            (InnerHighlighter::PlusMinus(p), result)
        },
    }
}

/// Tells an inner highlighter that its lines have ended. `None` where it
/// cannot hand out what it holds.
fn inner_end(h: InnerHighlighter, marker: &str) -> (r: (InnerHighlighter, Option<Result<Vec<StringFuture>, String>>))
    requires
        inner_wf(h@),
    ensures
        match r.1 {
            None => inner_eof(h@, marker@) is None,
            Some(res) => inner_eof(h@, marker@) == Some((r.0@, outputs_view(res))),
        },
        inner_wf(r.0@),
{
    match h {
        InnerHighlighter::Conflicts(mut c) => {
            let result = c.consume_eof();
            (InnerHighlighter::Conflicts(c), Some(result))
        },
        InnerHighlighter::PlusMinus(mut p) => {
            let result = p.consume_eof(marker);
            (InnerHighlighter::PlusMinus(p), result)
        },
    }
}

/// A copy of some counts.
fn copy_counts(v: &Vec<usize>) -> (r: Vec<usize>)
    ensures
        r@ == v@,
{
    let mut out: Vec<usize> = Vec::new();
    let mut i: usize = 0;
    while i < v.len()
        invariant
            i <= v@.len(),
            out@ =~= v@.take(i as int),
        decreases v@.len() - i,
    {
        out.push(v[i]);
        i = i + 1;
    }
    out
}

/// Appends `more` to `out`.
fn append_all(out: &mut Vec<StringFuture>, more: Vec<StringFuture>)
    ensures
        futures_view(final(out)@) == futures_view(old(out)@) + futures_view(more@),
{
    let ghost start = out@;
    let mut more = more;
    let ghost moved = more@;
    out.append(&mut more);
    assert(futures_view(out@) =~= futures_view(start) + futures_view(moved));
}

impl HunkLinesHighlighter {
    /// Starts a hunk at a hunk header line.
    ///
    /// Returns None if this line isn't a hunk header.
    pub fn from_line(line: &str, formatter: Formatter) -> (r: Option<Self>)
        requires
            line@.len() + 3 <= usize::MAX,
        ensures
            parse_spec(line@) is Some <==> r is Some,
            r matches Some(h) ==> h@ == (HunkView {
                inner: None,
                hunk_header: Some(render_spec(parse_spec(line@).unwrap())),
                initial_line_counts: parse_spec(line@).unwrap().linecounts,
                remaining_line_counts: parse_spec(line@).unwrap().linecounts,
                formatter: formatter@,
            }),
            r matches Some(h) ==> hunk_wf(h@),
    {
        match HunkHeader::parse(line) {
            Some(hunk_header) => {
                let rendered = hunk_header.render();
                let remaining = copy_counts(&hunk_header.linecounts);
                Some(HunkLinesHighlighter {
                    hunk_header: Some(rendered),
                    remaining_line_counts: remaining,
                    initial_line_counts: hunk_header.linecounts,
                    lines_highlighter: None,
                    formatter,
                })
            },
            None => None,
        }
    }

    /// The line counts that are left.
    pub fn remaining_line_counts(&self) -> (r: Vec<usize>)
        ensures
            r@ == self@.remaining_line_counts,
    {
        copy_counts(&self.remaining_line_counts)
    }

    /// Whether any line count has not reached zero.
    pub fn more_lines_expected(&self) -> (r: bool)
        ensures
            r == more_expected(self@),
    {
        let mut i: usize = 0;
        while i < self.remaining_line_counts.len()
            invariant
                i <= self.remaining_line_counts@.len(),
                forall|k: int| 0 <= k < i ==> self.remaining_line_counts@[k] == 0,
            decreases self.remaining_line_counts@.len() - i,
        {
            if self.remaining_line_counts[i] != 0 {
                assert(self@.remaining_line_counts[i as int] != 0);
                return true;
            }
            i = i + 1;
        }
        assert(!more_expected(self@)) by {
            if more_expected(self@) {
                let k = choose|k: int|
                    0 <= k < self@.remaining_line_counts.len() && #[trigger] self@.remaining_line_counts[k] != 0;
                assert(self.remaining_line_counts@[k] == 0);
            }
        }
        false
    }

    /// Counts down, for one line with `prefix`, the line counts of the
    /// columns it belongs to.
    pub fn decrease_remaining_line_counts(&mut self, prefix: &str) -> (r: Result<(), String>)
        requires
            hunk_wf(old(self)@),
            prefix@.len() < old(self)@.remaining_line_counts.len(),
        ensures
            ({
                let (counts, result) = decrease_spec(old(self)@.remaining_line_counts, prefix@);
                &&& final(self)@ == (HunkView { remaining_line_counts: counts, ..old(self)@ })
                &&& match r {
                    Ok(_) => result is Ok,
                    Err(e) => result == Err::<(), Seq<char>>(e@),
                }
            }),
            hunk_wf(final(self)@),
    {
        let ghost v = self@;
        let p = chars_of(prefix);
        let (_, only_spaces) = crate::plusminus_lines_highlighter::classify_prefix(&p, p.len());
        assert(p@.take(p@.len() as int) =~= p@);
        let (target, counted) = if crate::text::chars_contain(&p, '+') || only_spaces {
            let last = self.remaining_line_counts.len() - 1;
            if self.remaining_line_counts[last] == 0 {
                return Err(string_of_str("Got more + lines than expected"));
            }
            let value = self.remaining_line_counts[last] - 1;
            self.remaining_line_counts.set(last, value);
            (' ', true)
        } else {
            ('-', false)
        };
        let ghost start = self@.remaining_line_counts;
        let mut pos: usize = 0;
        let mut failed: usize = 0;
        while pos < p.len() && failed == 0
            invariant
                pos <= p@.len(),
                p@.len() < self@.remaining_line_counts.len(),
                self@.remaining_line_counts.len() == v.remaining_line_counts.len(),
                self@ == (HunkView { remaining_line_counts: self@.remaining_line_counts, ..v }),
                hunk_wf(self@),
                failed == 0 ==> decrease_columns(self@.remaining_line_counts, p@, target, pos as int)
                    == decrease_columns(start, p@, target, 0),
                failed != 0 ==> decrease_columns(start, p@, target, 0) == (
                    self@.remaining_line_counts,
                    Some(failed as int),
                ),
            decreases p@.len() - pos,
        {
            if p[pos] == target {
                if self.remaining_line_counts[pos] == 0 {
                    failed = pos + 1;
                } else {
                    let ghost before = self@.remaining_line_counts;
                    let value = self.remaining_line_counts[pos] - 1;
                    self.remaining_line_counts.set(pos, value);
                    assert(self@.remaining_line_counts =~= before.update(pos as int, value));
                }
            }
            pos = pos + 1;
        }
        if failed != 0 {
            let mut message = if counted {
                string_of_str("Got more lines than expected for version (+ context column) ")
            } else {
                string_of_str("Got more lines than expected for version (minus / space column) ")
            };
            push_decimal(&mut message, failed);
            return Err(message);
        }
        Ok(())
    }

    /// Return something along the lines of `[<± > done, < ±> 3 more
    /// expected, <++> 1 more expected]`
    fn describe_remaining_line_counts(&self) -> (r: String)
        requires
            hunk_wf(self@),
        ensures
            r@ == describe_spec(self@),
    {
        let ghost v = self@;
        let len = self.remaining_line_counts.len();
        let mut return_me = String::new();
        push_str(&mut return_me, "[");
        let ghost head = return_me@;
        let mut pos: usize = 0;
        while pos < len
            invariant
                pos <= len,
                len == v.remaining_line_counts.len(),
                v == self@,
                hunk_wf(v),
                return_me@ == head + describe_from(v.initial_line_counts, v.remaining_line_counts, pos as int),
            decreases len - pos,
        {
            let ghost before = return_me@;
            self.push_count_piece(&mut return_me, pos);
            assert(return_me@ =~= head + describe_from(v.initial_line_counts, v.remaining_line_counts, pos + 1));
            pos = pos + 1;
        }
        push_str(&mut return_me, "]");
        assert(return_me@ =~= describe_spec(v));
        return_me
    }

    /// Appends the description of the count at `pos`.
    #[verifier::spinoff_prover]
    #[verifier::rlimit(30)]
    fn push_count_piece(&self, out: &mut String, pos: usize)
        requires
            hunk_wf(self@),
            pos < self@.remaining_line_counts.len(),
        ensures
            final(out)@ == old(out)@ + count_piece(
                self@.initial_line_counts,
                self@.remaining_line_counts,
                pos as int,
            ),
    {
        let ghost start = out@;
        let len = self.remaining_line_counts.len();
        if pos != 0 {
            push_str(out, ", ");
        } else {
            push_str(out, "");
        }
        push_str(out, "<");
        let ghost mid = out@;
        if pos == len - 1 {
            crate::text::push_repeat(out, '+', len - 1);
        } else {
            crate::text::push_repeat(out, ' ', pos);
            crate::text::push_char(out, '\u{b1}');
            crate::text::push_repeat(out, ' ', len - pos - 2);
        }
        assert(out@ =~= mid + count_column(len as int, pos as int));
        let ghost col = out@;
        push_str(out, "> ");
        let initial = self.initial_line_counts[pos];
        let remaining = self.remaining_line_counts[pos];
        assert(remaining <= initial);
        push_decimal(out, initial - remaining);
        push_str(out, "/");
        push_decimal(out, initial);
        push_str(out, " done");
        proof {
            reveal_strlit("");
            assert(""@ =~= Seq::<char>::empty());
        }
        assert(out@ =~= start + count_piece(self@.initial_line_counts, self@.remaining_line_counts, pos as int));
    }

    /// Forgets the inner highlighter, handing out what it holds. `None`
    /// where it cannot do that.
    fn drain(&mut self, marker: &str) -> (r: Option<Result<Vec<StringFuture>, String>>)
        requires
            hunk_wf(old(self)@),
        ensures
            match r {
                None => hunk_drain(old(self)@, marker@) is None,
                Some(res) => hunk_drain(old(self)@, marker@) == Some((final(self)@, outputs_view(res))),
            },
            hunk_wf(final(self)@),
    {
        let ghost v = self@;
        let mut taken: Option<InnerHighlighter> = None;
        std::mem::swap(&mut taken, &mut self.lines_highlighter);
        match taken {
            Some(h) => {
                let (after, result) = inner_end(h, marker);
                match result {
                    None => None,
                    Some(Err(e)) => {
                        self.lines_highlighter = Some(after);
                        Some(Err(e))
                    },
                    Some(Ok(out)) => Some(Ok(out)),
                }
            },
            None => {
                let out: Vec<StringFuture> = Vec::new();
                assert(futures_view(out@) =~= Seq::<Seq<char>>::empty());
                Some(Ok(out))
            },
        }
    }

    /// Takes a line while no inner highlighter is active.
    fn consume_fresh(&mut self, line: &str) -> (r: Result<Vec<StringFuture>, String>)
        requires
            hunk_wf(old(self)@),
            old(self)@.inner is None,
        ensures
            fresh_step(old(self)@, line@) == (final(self)@, outputs_view(r)),
            hunk_wf(final(self)@),
    {
        let ghost v = self@;
        let prefix_length = self.remaining_line_counts.len() - 1;
        if prefix_length == 2 {
            if let Some(highlighter) = ConflictsHighlighter::from_line(line) {
                self.lines_highlighter = Some(InnerHighlighter::Conflicts(highlighter));
                let out: Vec<StringFuture> = Vec::new();
                assert(futures_view(out@) =~= Seq::<Seq<char>>::empty());
                return Ok(out);
            }
        }
        if let Some(highlighter) = PlusMinusLinesHighlighter::from_line(line, prefix_length, self.formatter.duplicate()) {
            self.lines_highlighter = Some(InnerHighlighter::PlusMinus(highlighter));
            let out: Vec<StringFuture> = Vec::new();
            assert(futures_view(out@) =~= Seq::<Seq<char>>::empty());
            return Ok(out);
        }

        // It wasn't a plusminus line (including nnaeof lines), and we're
        // still expecting more lines. It must be a context line.
        let mut spaces_only = String::new();
        crate::text::push_repeat(&mut spaces_only, ' ', prefix_length);
        assert(spaces_only@ =~= spaces(prefix_length as int));
        let chars = chars_of(line);
        if chars.len() == 0 || crate::text::str_starts_with(line, spaces_only.as_str()) {
            let mut text = string_of_str(line);
            crate::text::push_char(&mut text, '\n');
            assert(text@ =~= line@ + seq!['\n']);
            let mut out = Vec::new();
            out.push(StringFuture::from_string(text));
            assert(futures_view(out@) =~= seq![line@ + seq!['\n']]);
            return Ok(out);
        }
        if chars[0] != '\\' {
            // All other cases should have been handled above
            let mut message = string_of_str("Expected line at ");
            let description = self.describe_remaining_line_counts();
            push_str(&mut message, description.as_str());
            push_str(&mut message, " to start with \"\\\\\"");
            return Err(message);
        }
        let mut text = string_of_str(NO_EOF_NEWLINE_COLOR);
        push_str(&mut text, line);
        push_str(&mut text, NORMAL);
        crate::text::push_char(&mut text, '\n');
        assert(text@ =~= NO_EOF_NEWLINE_COLOR@ + line@ + NORMAL@ + seq!['\n']);
        let mut out = Vec::new();
        out.push(StringFuture::from_string(text));
        assert(futures_view(out@) =~= seq![NO_EOF_NEWLINE_COLOR@ + line@ + NORMAL@ + seq!['\n']]);
        return Ok(out);
    }

    /// Hands a line to the inner highlighter, or takes it afresh. `None`
    /// where the inner highlighter cannot take it.
    fn consume_line_internal(&mut self, line: &str, marker: &str) -> (r: Option<Result<Vec<StringFuture>, String>>)
        requires
            hunk_wf(old(self)@),
            !line@.contains('\n'),
        ensures
            match r {
                None => internal_step(old(self)@, line@, marker@) is None,
                Some(res) => internal_step(old(self)@, line@, marker@) == Some((final(self)@, outputs_view(res))),
            },
            hunk_wf(final(self)@),
    {
        let ghost v = self@;
        let mut taken: Option<InnerHighlighter> = None;
        std::mem::swap(&mut taken, &mut self.lines_highlighter);
        match taken {
            None => Some(self.consume_fresh(line)),
            Some(h) => {
                let (after, result) = inner_line(h, line, marker);
                match result {
                    None => None,
                    Some(Err(e)) => {
                        self.lines_highlighter = Some(after);
                        Some(Err(e))
                    },
                    Some(Ok(response)) => {
                        let Response { line_accepted, highlighted } = response;
                        match line_accepted {
                            LineAcceptance::AcceptedWantMore => {
                                self.lines_highlighter = Some(after);
                                Some(Ok(highlighted))
                            },
                            LineAcceptance::AcceptedDone => Some(Ok(highlighted)),
                            LineAcceptance::RejectedDone => {
                                // Drop our lines_highlighter and retry the line
                                let mut return_me = highlighted;
                                match self.consume_fresh(line) {
                                    Err(e) => Some(Err(e)),
                                    Ok(more) => {
                                        append_all(&mut return_me, more);
                                        Some(Ok(return_me))
                                    },
                                }
                            },
                        }
                    },
                }
            },
        }
    }

    /// Hands out the hunk header, once.
    fn take_header(&mut self) -> (r: Vec<StringFuture>)
        ensures
            futures_view(r@) == match old(self)@.hunk_header {
                Some(h) => seq![h + seq!['\n']],
                None => Seq::<Seq<char>>::empty(),
            },
            final(self)@ == (HunkView { hunk_header: None, ..old(self)@ }),
    {
        let mut return_me: Vec<StringFuture> = Vec::new();
        let mut header: Option<String> = None;
        std::mem::swap(&mut header, &mut self.hunk_header);
        if let Some(hunk_header) = header {
            let ghost h = hunk_header@;
            let mut text = hunk_header;
            crate::text::push_char(&mut text, '\n');
            assert(text@ =~= h + seq!['\n']);
            return_me.push(StringFuture::from_string(text));
        }
        assert(futures_view(return_me@) =~= match old(self)@.hunk_header {
            Some(h) => seq![h + seq!['\n']],
            None => Seq::<Seq<char>>::empty(),
        });
        return_me
    }

    /// The prefix columns of a line; `None` where they end inside a
    /// character.
    fn line_prefix(&self, line: &str) -> (r: Option<String>)
        requires
            hunk_wf(self@),
        ensures
            match r {
                None => hunk_prefix(line@, prefix_length_of(self@)) is None,
                Some(p) => Some(p@) == hunk_prefix(line@, prefix_length_of(self@)) && p@.len()
                    <= prefix_length_of(self@),
            },
    {
        let prefix_length = self.remaining_line_counts.len() - 1;
        let chars = chars_of(line);
        match byte_split(&chars, prefix_length) {
            ByteSplit::Short => {
                let mut spaces_only = String::new();
                crate::text::push_repeat(&mut spaces_only, ' ', prefix_length);
                assert(spaces_only@ =~= spaces(prefix_length as int));
                Some(spaces_only)
            },
            ByteSplit::At(j) => {
                let p = crate::text::string_of_range(&chars, 0, j);
                assert(p@ =~= line@.take(j as int));
                proof {
                    crate::text::lemma_utf8_len_at_least(line@.take(j as int));
                }
                Some(p)
            },
            ByteSplit::Inside => None,
        }
    }

    /// Takes one line of the hunk. `no_eof_newline_marker` is how this diff
    /// phrases `\ No newline at end of file`. `None` where the line cannot
    /// be taken: its prefix columns end inside a character, or the inner
    /// highlighter cannot take it.
    #[verifier::rlimit(40)]
    pub fn consume_line(&mut self, line: &str, no_eof_newline_marker: &str) -> (r: Option<Result<Response, String>>)
        requires
            hunk_wf(old(self)@),
            !line@.contains('\n'),
        ensures
            match r {
                None => hunk_step(old(self)@, line@, no_eof_newline_marker@) is None,
                Some(res) => hunk_step(old(self)@, line@, no_eof_newline_marker@) == Some(
                    (final(self)@, response_view(res)),
                ),
            },
            hunk_wf(final(self)@),
    {
        let ghost v = self@;
        // Always start by rendering the hunk header
        let mut return_me = self.take_header();
        let ghost v0 = self@;
        let prefix = match self.line_prefix(line) {
            Some(p) => p,
            None => {
                return None;
            },
        };
        let chars = chars_of(line);

        if chars.len() > 0 && chars[0] == '\\' {
            match self.consume_line_internal(line, no_eof_newline_marker) {
                None => {
                    return None;
                },
                Some(Err(e)) => {
                    return Some(Err(e));
                },
                Some(Ok(out)) => {
                    append_all(&mut return_me, out);
                    return Some(Ok(Response { line_accepted: LineAcceptance::AcceptedWantMore, highlighted: return_me }));
                },
            }
        }

        if !self.more_lines_expected() {
            let mut taken: Option<InnerHighlighter> = None;
            std::mem::swap(&mut taken, &mut self.lines_highlighter);
            if let Some(h) = taken {
                let (after, result) = inner_end(h, no_eof_newline_marker);
                self.lines_highlighter = Some(after);
                match result {
                    None => {
                        return None;
                    },
                    Some(Err(e)) => {
                        return Some(Err(e));
                    },
                    Some(Ok(out)) => {
                        append_all(&mut return_me, out);
                    },
                }
            }
            return Some(Ok(Response { line_accepted: LineAcceptance::RejectedDone, highlighted: return_me }));
        }

        match self.decrease_remaining_line_counts(prefix.as_str()) {
            Err(e) => {
                return Some(Err(e));
            },
            Ok(_) => {},
        }

        // It wasn't a nnaeof line, and we're still expecting more lines.
        match self.consume_line_internal(line, no_eof_newline_marker) {
            None => None,
            Some(Err(e)) => Some(Err(e)),
            Some(Ok(out)) => {
                append_all(&mut return_me, out);
                Some(Ok(Response { line_accepted: LineAcceptance::AcceptedWantMore, highlighted: return_me }))
            },
        }
    }

    /// The input ended: all announced lines must have come. `None` where
    /// the inner highlighter cannot hand out what it holds.
    pub fn consume_eof(&mut self, no_eof_newline_marker: &str) -> (r: Option<Result<Vec<StringFuture>, String>>)
        requires
            hunk_wf(old(self)@),
        ensures
            match r {
                None => hunk_eof(old(self)@, no_eof_newline_marker@) is None,
                Some(res) => hunk_eof(old(self)@, no_eof_newline_marker@) == Some(
                    (final(self)@, outputs_view(res)),
                ),
            },
            hunk_wf(final(self)@),
    {
        if self.more_lines_expected() {
            let mut message = string_of_str("Still expecting more lines, but got EOF: ");
            let description = self.describe_remaining_line_counts();
            push_str(&mut message, description.as_str());
            return Some(Err(message));
        }
        return self.drain(no_eof_newline_marker);
    }
}

} // verus!
