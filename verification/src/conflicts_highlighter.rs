//! Highlighting of merge conflict sections, plain and inside `git diff`
//! output.

use vstd::prelude::*;

use crate::ansi::Color;
use crate::constants::{GREEN, INVERSE_VIDEO, NORMAL};
use crate::lines_highlighter::{futures_view, LineAcceptance, Response};
use crate::line_counts::{
    lemma_multiprefix_shown_text, lemma_printable_plain, lemma_refined_spelling,
    lemma_render_shown_text, lemma_tokens_of_text, line_style_shown_plain, no_urls, printable_text,
    refinement_keeps_tokens, tokens_shown_plain,
};
use crate::refiner::{ends_with_newline, highlighted_tokens, to_highlighted_tokens};
use crate::terminal::{lemma_shown_plain, lemma_shown_sgr, shown_chars};
use crate::string_future::StringFuture;
use crate::text::{
    chars_of, count_char, lemma_count_absent, lemma_count_concat, lemma_flatten_newlines, lines,
    lines_of, newline_tokens, push_chars, push_str, starts_with, str_starts_with, string_of_str,
};
use crate::token_collector::{
    all_context, as_context, conflict_line_style, control_picture, first_newline,
    is_newline_token, line_style_conflict_base, line_style_conflict_new, line_style_conflict_old,
    render, render_multiprefix, render_multiprefix_spec, render_spec, row_count, LineStyleView, shown_text,
    style_rank, tokens_view, StyledToken, TokenView, token_texts, lemma_row_count,
    lemma_shown_newlines,
};
use crate::tokenizer::{lemma_newline_tokens, lemma_tokenize_lossless, strings_view, tokenize_spec};

verus! {

pub const CONFLICTS_HEADER1: &'static str = "<<<<<<<";

pub const CONFLICTS_HEADER2: &'static str = "++<<<<<<<";

pub const BASE_HEADER: &'static str = "|||||||";

pub const C2_HEADER: &'static str = "=======";

pub const CONFLICTS_FOOTER: &'static str = ">>>>>>>";

/// Collects a conflict section, then renders it highlighted.
pub struct ConflictsHighlighter {
    /// `<<<<<<< HEAD`, start of the whole conflict block. Followed by `c1`.
    c1_header: String,
    /// One of the conflicting variants. Multi line string. Always ends with a
    /// newline.
    c1: String,
    /// `||||||| 07ffb9b`, followed by `base` if found. Empty if not found.
    base_header: String,
    /// The base variant which both `c1` and `c2` are based on. Will be
    /// non-empty only for `diff3` style conflict markers. Multi line string.
    /// Always ends with a newline.
    base: String,
    /// Prefixes of the base section, one per line.
    base_line_prefixes: Vec<String>,
    /// `=======`, followed by `c2`
    c2_header: String,
    /// The other conflicting variant. Multi line string. Always ends with a
    /// newline.
    c2: String,
    /// `>>>>>>> branch`, marks the end of `c2` and the whole conflict
    footer: String,
}

/// What a conflicts highlighter has collected.
pub struct ConflictsView {
    pub c1_header: Seq<char>,
    pub c1: Seq<char>,
    pub base_header: Seq<char>,
    pub base: Seq<char>,
    pub base_line_prefixes: Seq<Seq<char>>,
    pub c2_header: Seq<char>,
    pub c2: Seq<char>,
    pub footer: Seq<char>,
}

impl View for ConflictsHighlighter {
    type V = ConflictsView;

    closed spec fn view(&self) -> ConflictsView {
        ConflictsView {
            c1_header: self.c1_header@,
            c1: self.c1@,
            base_header: self.base_header@,
            base: self.base@,
            base_line_prefixes: strings_view(self.base_line_prefixes@),
            c2_header: self.c2_header@,
            c2: self.c2@,
            footer: self.footer@,
        }
    }
}

/// Empty, or ending with a newline.
pub open spec fn is_lines(s: Seq<char>) -> bool {
    s.len() == 0 || s.last() == '\n'
}

/// The sections are whole lines, and the base has one prefix per line.
pub open spec fn conflicts_wf(v: ConflictsView) -> bool {
    &&& is_lines(v.c1)
    &&& is_lines(v.base)
    &&& is_lines(v.c2)
    &&& count_char(v.base, '\n') == v.base_line_prefixes.len()
}

/// Conflict markers inside `git diff` output carry the two columns of `+`
/// prefixes.
pub open spec fn in_git_diff(v: ConflictsView) -> bool {
    starts_with(v.c1_header, "++"@)
}

/// `line` starts with the marker `marker`, behind `++` inside `git diff`
/// output.
pub open spec fn is_marker_line(v: ConflictsView, line: Seq<char>, marker: Seq<char>) -> bool {
    if in_git_diff(v) {
        starts_with(line, "++"@ + marker)
    } else {
        starts_with(line, marker)
    }
}

/// The prefixes a content line may have.
pub open spec fn content_prefixes(v: ConflictsView) -> Seq<Seq<char>> {
    if in_git_diff(v) {
        // Possible content line prefixes when doing "git diff"
        seq!["+ "@, "++"@, " +"@, " -"@, "- "@, "  "@]
    } else {
        seq![""@]
    }
}

/// The index of the first of `prefixes` that `line` starts with.
pub open spec fn first_prefix_from(prefixes: Seq<Seq<char>>, line: Seq<char>, i: int) -> Option<int>
    decreases prefixes.len() - i,
{
    if i < 0 || i >= prefixes.len() {
        None
    } else if starts_with(line, prefixes[i]) {
        Some(i)
    } else {
        first_prefix_from(prefixes, line, i + 1)
    }
}

/// `v` after the content line `line`, whose prefix is `prefix`: the rest of
/// the line goes to the section being collected.
pub open spec fn with_content(v: ConflictsView, line: Seq<char>, prefix: Seq<char>) -> ConflictsView {
    let text = line.skip(prefix.len() as int) + seq!['\n'];
    if v.c2_header.len() > 0 {
        ConflictsView { c2: v.c2 + text, ..v }
    } else if v.base_header.len() > 0 {
        ConflictsView {
            base: v.base + text,
            base_line_prefixes: v.base_line_prefixes.push(prefix),
            ..v
        }
    } else {
        ConflictsView { c1: v.c1 + text, ..v }
    }
}

// ---------------------------------------------------------------------------
// Rendering
// ---------------------------------------------------------------------------

/// A marker line, inverted; reset to normal afterwards inside `git diff`
/// output.
pub open spec fn marker_text_of(git: bool, marker_line: Seq<char>) -> Seq<char> {
    let reset = if git {
        NORMAL@
    } else {
        ""@
    };
    INVERSE_VIDEO@ + marker_line + reset + seq!['\n']
}

/// A marker line of this conflict, inverted.
pub open spec fn marker_text(v: ConflictsView, marker_line: Seq<char>) -> Seq<char> {
    marker_text_of(in_git_diff(v), marker_line)
}

/// The line prefix of the first section.
pub open spec fn c1_prefix(v: ConflictsView) -> Seq<char> {
    if in_git_diff(v) {
        " +"@
    } else {
        ""@
    }
}

/// The line prefix of the second section.
pub open spec fn c2_prefix(v: ConflictsView) -> Seq<char> {
    if in_git_diff(v) {
        "+ "@
    } else {
        ""@
    }
}

/// A section's text, or a lone newline for an empty section.
pub open spec fn or_newline(s: Seq<char>) -> Seq<char> {
    if s.len() == 0 {
        seq!['\n']
    } else {
        s
    }
}

/// A section's rendering, if the section is not empty.
pub open spec fn when_present(section: Seq<char>, rendered: Seq<char>) -> Seq<char> {
    if section.len() > 0 {
        rendered
    } else {
        seq![]
    }
}

/// The first section is drawn as the old side, unless a base follows it.
pub open spec fn first_section_style(v: ConflictsView) -> LineStyleView {
    if v.base_header.len() == 0 {
        conflict_line_style(Color::Red)
    } else {
        conflict_line_style(Color::Green)
    }
}

/// The first of two sections, highlighted against the second.
#[verifier::opaque]
pub open spec fn first_section_text(v: ConflictsView) -> Seq<char> {
    render_spec(
        first_section_style(v),
        c1_prefix(v),
        highlighted_tokens(or_newline(v.c1), or_newline(v.c2)).0,
    )
}

/// The second of two sections, highlighted against the first.
#[verifier::opaque]
pub open spec fn second_section_text(v: ConflictsView) -> Seq<char> {
    render_spec(
        conflict_line_style(Color::Green),
        c2_prefix(v),
        highlighted_tokens(or_newline(v.c1), or_newline(v.c2)).1,
    )
}

/// Two conflicting sections: each highlighted against the other.
pub open spec fn render_two_spec(v: ConflictsView) -> Seq<char> {
    marker_text(v, v.c1_header) + when_present(v.c1, first_section_text(v)) + (if v.base_header.len()
        > 0 {
        marker_text(v, v.base_header)
    } else {
        seq![]
    }) + marker_text(v, v.c2_header) + when_present(v.c2, second_section_text(v))
        + marker_text(v, v.footer)
}

/// The base's tokens compared with a section; plain where that section is
/// empty.
pub open spec fn base_versus(base: Seq<char>, section: Seq<char>) -> Seq<TokenView> {
    let b = highlighted_tokens(base, or_newline(section)).0;
    if section.len() == 0 {
        as_context(b)
    } else {
        b
    }
}

/// Each base token as it came out of the comparison where it is the more
/// prominent; the first comparison wins ties.
pub open spec fn more_prominent(a: Seq<TokenView>, b: Seq<TokenView>) -> Seq<TokenView> {
    Seq::new(
        a.len(),
        |j: int|
            if style_rank(a[j].style) >= style_rank(b[j].style) {
                a[j]
            } else {
                b[j]
            },
    )
}

/// Three sections: both sides highlighted for what they add to the base,
/// the base for what either side removed, each base line behind its own
/// prefix.
pub open spec fn render_three_spec(v: ConflictsView) -> Seq<char> {
    let c1_tokens = highlighted_tokens(v.base, or_newline(v.c1)).1;
    let c2_tokens = highlighted_tokens(v.base, or_newline(v.c2)).1;
    let base_tokens = more_prominent(base_versus(v.base, v.c1), base_versus(v.base, v.c2));
    marker_text(v, v.c1_header) + when_present(
        v.c1,
        render_spec(conflict_line_style(Color::Green), c1_prefix(v), c1_tokens),
    ) + marker_text(v, v.base_header) + when_present(
        v.base,
        render_multiprefix_spec(conflict_line_style(Color::Red), v.base_line_prefixes, base_tokens, 0),
    ) + marker_text(v, v.c2_header) + when_present(
        v.c2,
        render_spec(conflict_line_style(Color::Green), c2_prefix(v), c2_tokens),
    ) + marker_text(v, v.footer)
}

/// The highlighted conflict: three way when there is a base, else two way.
pub open spec fn render_conflict_spec(v: ConflictsView) -> Seq<char> {
    if v.base.len() > 0 {
        render_three_spec(v)
    } else {
        render_two_spec(v)
    }
}

/// A line drawn without highlighting: in green inside `git diff` output.
pub open spec fn plain_line(v: ConflictsView, mark: Seq<char>, line: Seq<char>) -> Seq<char> {
    let (color, reset) = if in_git_diff(v) {
        (GREEN@, NORMAL@)
    } else {
        (""@, ""@)
    };
    color + mark + line + reset + seq!['\n']
}

/// Lines drawn without highlighting, each behind `mark`.
pub open spec fn plain_lines(v: ConflictsView, mark: Seq<char>, ls: Seq<Seq<char>>) -> Seq<char>
    decreases ls.len(),
{
    if ls.len() == 0 {
        seq![]
    } else {
        plain_lines(v, mark, ls.drop_last()) + plain_line(v, mark, ls.last())
    }
}

/// Everything collected so far, without highlighting: each marker line that
/// was taken, and each section's lines behind its column marks.
#[verifier::opaque]
pub open spec fn render_plain_spec(v: ConflictsView) -> Seq<char> {
    plain_line(v, seq![], v.c1_header) + when_present(v.c1, plain_lines(v, " +"@, lines(v.c1)))
        + when_present(v.base_header, plain_line(v, seq![], v.base_header)) + when_present(
        v.base,
        plain_lines(v, "++"@, lines(v.base)),
    ) + when_present(v.c2_header, plain_line(v, seq![], v.c2_header)) + when_present(
        v.c2,
        plain_lines(v, "+ "@, lines(v.c2)),
    ) + when_present(v.footer, plain_line(v, seq![], v.footer))
}

/// What taking one line does: the collected state afterwards, and the
/// answer.
pub open spec fn conflicts_step(v: ConflictsView, line: Seq<char>) -> (ConflictsView, Result<
    (LineAcceptance, Seq<Seq<char>>),
    Seq<char>,
>) {
    if is_marker_line(v, line, BASE_HEADER@) {
        if v.c2.len() > 0 {
            (v, Err("Unexpected `|||||||` line after `=======`"@))
        } else if v.base.len() > 0 {
            (v, Err("Multiple `|||||||` lines before `=======`"@))
        } else {
            (
                ConflictsView { base_header: line, base: seq![], ..v },
                Ok((LineAcceptance::AcceptedWantMore, seq![])),
            )
        }
    } else if is_marker_line(v, line, C2_HEADER@) {
        if v.c2.len() > 0 {
            (v, Err("Multiple `=======` lines before `>>>>>>>`"@))
        } else {
            (ConflictsView { c2_header: line, ..v }, Ok((LineAcceptance::AcceptedWantMore, seq![])))
        }
    } else if is_marker_line(v, line, CONFLICTS_FOOTER@) {
        let done = ConflictsView { footer: line, ..v };
        (done, Ok((LineAcceptance::AcceptedDone, seq![render_conflict_spec(done)])))
    } else {
        match first_prefix_from(content_prefixes(v), line, 0) {
            Some(k) => (
                with_content(v, line, content_prefixes(v)[k]),
                Ok((LineAcceptance::AcceptedWantMore, seq![])),
            ),
            // Not a content line, just give up and do a simple render
            None => (v, Ok((LineAcceptance::RejectedDone, seq![render_plain_spec(v)]))),
        }
    }
}

/// Whether `line` starts a conflict section.
pub open spec fn starts_conflict(line: Seq<char>) -> bool {
    starts_with(line, CONFLICTS_HEADER1@) || starts_with(line, CONFLICTS_HEADER2@)
}

// ---------------------------------------------------------------------------
// The base has as many rows as prefixes
// ---------------------------------------------------------------------------

/// The base drawn as rows has one row per newline of its text.
proof fn lemma_base_rows(base: Seq<char>, ts: Seq<TokenView>)
    requires
        base.len() > 0,
        base.last() == '\n',
        token_texts(ts) == tokenize_spec(base).map_values(|t: Seq<char>| shown_text(t)),
    ensures
        row_count(ts) == count_char(base, '\n'),
{
    let tk = tokenize_spec(base);
    lemma_tokenize_lossless(base);
    lemma_newline_tokens(base);
    assert(tk.len() > 0) by {
        if tk.len() == 0 {
            assert(tk.flatten() =~= Seq::<char>::empty());
        }
    }
    // The last token ends the text, so it is the final newline
    assert(tk.last() == seq!['\n']) by {
        tk.lemma_flatten_and_flatten_alt_are_equivalent();
        assert(tk.flatten_alt() == tk.drop_last().flatten_alt() + tk.last());
        let last = tk.last();
        assert(last.len() > 0);
        assert(base.last() == last.last());
        assert(last.contains('\n')) by {
            assert(last[last.len() - 1] == '\n');
        }
    }
    assert(token_texts(ts).len() == ts.len());
    assert(ts.last().token == token_texts(ts)[ts.len() - 1]);
    assert(is_newline_token(ts.last()));
    lemma_row_count(ts);
    lemma_shown_newlines(tk);
    lemma_flatten_newlines(tk);
}


// ---------------------------------------------------------------------------
// The highlighter
// ---------------------------------------------------------------------------

/// Appends a marker line, inverted.
fn push_marker(out: &mut String, git: bool, marker_line: &str)
    ensures
        final(out)@ == old(out)@ + marker_text_of(git, marker_line@),
{
    let ghost start = out@;
    push_str(out, INVERSE_VIDEO);
    push_str(out, marker_line);
    if git {
        push_str(out, NORMAL);
    } else {
        push_str(out, "");
    }
    crate::text::push_char(out, '\n');
}

/// Appends a line drawn without highlighting.
fn push_plain_line(out: &mut String, git: bool, line: &str, Ghost(v): Ghost<ConflictsView>)
    requires
        git == in_git_diff(v),
    ensures
        final(out)@ == old(out)@ + plain_line(v, seq![], line@),
{
    let ghost start = out@;
    if git {
        push_str(out, GREEN);
    } else {
        push_str(out, "");
    }
    push_str(out, line);
    if git {
        push_str(out, NORMAL);
    } else {
        push_str(out, "");
    }
    crate::text::push_char(out, '\n');
    assert(out@ =~= start + plain_line(v, seq![], line@));
}

/// Appends lines drawn without highlighting, each behind `mark`.
fn push_plain_lines(out: &mut String, git: bool, mark: &str, text: &str, Ghost(v): Ghost<ConflictsView>)
    requires
        git == in_git_diff(v),
    ensures
        final(out)@ == old(out)@ + plain_lines(v, mark@, lines(text@)),
{
    let ls = lines_of(&chars_of(text));
    let ghost lv = lines(text@);
    let ghost start = out@;
    let mut i: usize = 0;
    assert(lv.take(0) =~= Seq::<Seq<char>>::empty());
    while i < ls.len()
        invariant
            i <= ls.len(),
            git == in_git_diff(v),
            crate::text::vecs_view(ls@) == lv,
            out@ == start + plain_lines(v, mark@, lv.take(i as int)),
        decreases ls.len() - i,
    {
        let line = &ls[i];
        assert(lv[i as int] == line@);
        assert(lv.take(i + 1).drop_last() =~= lv.take(i as int));
        if git {
            push_str(out, GREEN);
        } else {
            push_str(out, "");
        }
        push_str(out, mark);
        push_chars(out, line, 0, line.len());
        assert(line@.subrange(0, line@.len() as int) =~= line@);
        if git {
            push_str(out, NORMAL);
        } else {
            push_str(out, "");
        }
        crate::text::push_char(out, '\n');
        i = i + 1;
        assert(out@ =~= start + plain_lines(v, mark@, lv.take(i as int)));
    }
    assert(lv.take(ls.len() as int) =~= lv);
}

/// The index of the first of `prefixes` that `line` starts with.
fn find_prefix(prefixes: &Vec<&'static str>, line: &str) -> (r: Option<usize>)
    ensures
        match r {
            Some(k) => first_prefix_from(prefixes@.map_values(|p: &str| p@), line@, 0) == Some(k as int)
                && k < prefixes@.len(),
            None => first_prefix_from(prefixes@.map_values(|p: &str| p@), line@, 0) is None,
        },
{
    let ghost pv = prefixes@.map_values(|p: &str| p@);
    let mut i: usize = 0;
    while i < prefixes.len()
        invariant
            i <= prefixes.len(),
            pv == prefixes@.map_values(|p: &str| p@),
            first_prefix_from(pv, line@, i as int) == first_prefix_from(pv, line@, 0),
        decreases prefixes.len() - i,
    {
        assert(pv[i as int] == prefixes@[i as int]@);
        if str_starts_with(line, prefixes[i]) {
            return Some(i);
        }
        i = i + 1;
    }
    None
}

impl ConflictsHighlighter {
    /// Create a new highlighter from a line of input.
    ///
    /// Returns None if this line doesn't start a conflict section.
    pub fn from_line(line: &str) -> (r: Option<Self>)
        ensures
            starts_conflict(line@) <==> r is Some,
            r matches Some(h) ==> h@ == (ConflictsView {
                c1_header: line@,
                c1: seq![],
                base_header: seq![],
                base: seq![],
                base_line_prefixes: seq![],
                c2_header: seq![],
                c2: seq![],
                footer: seq![],
            }),
            r matches Some(h) ==> conflicts_wf(h@),
    {
        if !str_starts_with(line, CONFLICTS_HEADER1) && !str_starts_with(line, CONFLICTS_HEADER2) {
            return None;
        }
        let h = ConflictsHighlighter {
            c1_header: string_of_str(line),
            base_header: String::new(),
            c2_header: String::new(),
            footer: String::new(),
            c1: String::new(),
            base: String::new(),
            base_line_prefixes: Vec::new(),
            c2: String::new(),
        };
        assert(strings_view(h.base_line_prefixes@) =~= Seq::<Seq<char>>::empty());
        assert(count_char(Seq::<char>::empty(), '\n') == 0);
        return Some(h);
    }

    /// Whether the section is inside `git diff` output.
    fn in_git_diff(&self) -> (r: bool)
        ensures
            r == in_git_diff(self@),
    {
        str_starts_with(self.c1_header.as_str(), "++")
    }

    /// Check if `line` starts with `prefix` or `++prefix` depending on what
    /// the `c1_header` looks like.
    fn starts_with(&self, line: &str, prefix: &str) -> (r: bool)
        ensures
            r == is_marker_line(self@, line@, prefix@),
    {
        let mut full = String::new();
        if self.in_git_diff() {
            push_str(&mut full, "++");
        }
        push_str(&mut full, prefix);
        proof {
            if in_git_diff(self@) {
                assert(full@ =~= "++"@ + prefix@);
            } else {
                assert(full@ =~= prefix@);
            }
        }
        str_starts_with(line, full.as_str())
    }

    /// Takes one line of the conflict section. `line` holds no newline.
    pub fn consume_line(&mut self, line: &str) -> (r: Result<Response, String>)
        requires
            conflicts_wf(old(self)@),
            !line@.contains('\n'),
        ensures
            (final(self)@, crate::lines_highlighter::response_view(r)) == conflicts_step(old(self)@, line@),
            conflicts_wf(final(self)@),
    {
        let ghost v = self@;
        if self.starts_with(line, BASE_HEADER) {
            if !self.c2.as_str().is_empty() {
                return Err(string_of_str("Unexpected `|||||||` line after `=======`"));
            }
            if !self.base.as_str().is_empty() {
                return Err(string_of_str("Multiple `|||||||` lines before `=======`"));
            }
            self.base_header = string_of_str(line);
            self.base = String::new();
            let r = Response { line_accepted: LineAcceptance::AcceptedWantMore, highlighted: Vec::new() };
            assert(futures_view(r.highlighted@) =~= Seq::<Seq<char>>::empty());
            assert(self@ =~= ConflictsView { base_header: line@, base: seq![], ..v });
            return Ok(r);
        }
        if self.starts_with(line, C2_HEADER) {
            if !self.c2.as_str().is_empty() {
                return Err(string_of_str("Multiple `=======` lines before `>>>>>>>`"));
            }
            self.c2_header = string_of_str(line);
            let r = Response { line_accepted: LineAcceptance::AcceptedWantMore, highlighted: Vec::new() };
            assert(futures_view(r.highlighted@) =~= Seq::<Seq<char>>::empty());
            return Ok(r);
        }
        if self.starts_with(line, CONFLICTS_FOOTER) {
            self.footer = string_of_str(line);
            let mut highlighted = Vec::new();
            highlighted.push(self.render());
            assert(futures_view(highlighted@) =~= seq![render_conflict_spec(self@)]);
            return Ok(Response { line_accepted: LineAcceptance::AcceptedDone, highlighted });
        }

        //
        // All header lines handled, this is a content line
        //
        let prefixes: Vec<&'static str> = if self.in_git_diff() {
            // Possible content line prefixes when doing "git diff"
            vec!["+ ", "++", " +", " -", "- ", "  "]
        } else {
            vec![""]
        };
        assert(prefixes@.map_values(|p: &str| p@) =~= content_prefixes(v));
        match find_prefix(&prefixes, line) {
            Some(k) => {
                let prefix = prefixes[k];
                let chars = chars_of(line);
                let skip = crate::text::char_count(prefix);
                proof {
                    reveal(first_prefix_from);
                    lemma_first_prefix_found(content_prefixes(v), line@, 0);
                }
                assert(skip <= chars.len());
                let ghost text = line@.skip(skip as int) + seq!['\n'];
                proof {
                    assert(!line@.skip(skip as int).contains('\n')) by {
                        if line@.skip(skip as int).contains('\n') {
                            let j = choose|j: int|
                                0 <= j < line@.skip(skip as int).len() && #[trigger] line@.skip(
                                    skip as int,
                                )[j] == '\n';
                            assert(line@[skip + j] == '\n');
                        }
                    }
                    lemma_count_absent(line@.skip(skip as int), '\n');
                    lemma_count_concat(line@.skip(skip as int), seq!['\n'], '\n');
                    let nl = seq!['\n'];
                    assert(nl.drop_last() =~= Seq::<char>::empty());
                    assert(count_char(Seq::<char>::empty(), '\n') == 0);
                    assert(count_char(nl, '\n') == 1);
                    assert(chars@.subrange(skip as int, chars@.len() as int) =~= line@.skip(skip as int));
                }
                if !self.c2_header.as_str().is_empty() {
                    push_chars(&mut self.c2, &chars, skip, chars.len());
                    crate::text::push_char(&mut self.c2, '\n');
                    assert(self.c2@ =~= v.c2 + text);
                } else if !self.base_header.as_str().is_empty() {
                    push_chars(&mut self.base, &chars, skip, chars.len());
                    crate::text::push_char(&mut self.base, '\n');
                    assert(self.base@ =~= v.base + text);
                    self.base_line_prefixes.push(string_of_str(prefix));
                    assert(strings_view(self.base_line_prefixes@) =~= v.base_line_prefixes.push(prefix@));
                    proof {
                        lemma_count_concat(v.base, text, '\n');
                    }
                } else {
                    push_chars(&mut self.c1, &chars, skip, chars.len());
                    crate::text::push_char(&mut self.c1, '\n');
                    assert(self.c1@ =~= v.c1 + text);
                }
                assert(self@ =~= with_content(v, line@, content_prefixes(v)[k as int]));
                let r = Response { line_accepted: LineAcceptance::AcceptedWantMore, highlighted: Vec::new() };
                assert(futures_view(r.highlighted@) =~= Seq::<Seq<char>>::empty());
                return Ok(r);
            },
            None => {
                // Not a content line, just give up and do a simple render
                let mut highlighted = Vec::new();
                highlighted.push(self.render_plain());
                assert(futures_view(highlighted@) =~= seq![render_plain_spec(v)]);
                return Ok(Response { line_accepted: LineAcceptance::RejectedDone, highlighted });
            },
        }
    }

    /// The input ended inside the conflict section.
    pub fn consume_eof(&mut self) -> (r: Result<Vec<StringFuture>, String>)
        ensures
            r matches Err(e) && e@ == "Unexpected EOF inside a conflicts section"@,
            final(self)@ == old(self)@,
    {
        return Err(string_of_str("Unexpected EOF inside a conflicts section"));
    }

    /// The highlighted conflict.
    fn render(&self) -> (r: StringFuture)
        requires
            conflicts_wf(self@),
        ensures
            r@ == render_conflict_spec(self@),
    {
        if !self.base.as_str().is_empty() {
            // We have three sections
            return self.render_diff3();
        }
        self.render_two()
    }

    /// Both sections, each highlighted against the other.
    fn two_sections(&self, git: bool) -> (r: (String, String))
        requires
            git == in_git_diff(self@),
        ensures
            r.0@ == first_section_text(self@),
            r.1@ == second_section_text(self@),
    {
        proof {
            reveal(first_section_text);
            reveal(second_section_text);
        }
        let (c1_prefix, c2_prefix) = if git {
            (" +", "+ ")
        } else {
            ("", "")
        };
        proof {
            reveal_strlit("\n");
            assert("\n"@ =~= seq!['\n']);
        }
        let c1_or_newline = if self.c1.as_str().is_empty() {
            "\n"
        } else {
            self.c1.as_str()
        };
        let c2_or_newline = if self.c2.as_str().is_empty() {
            "\n"
        } else {
            self.c2.as_str()
        };
        let (c1_tokens, c2_tokens) = to_highlighted_tokens(c1_or_newline, c2_or_newline);
        let c1_style = if self.base_header.as_str().is_empty() {
            line_style_conflict_old()
        } else {
            line_style_conflict_new()
        };
        let highlighted_c1 = render(&c1_style, c1_prefix, c1_tokens.as_slice());
        let highlighted_c2 = render(&line_style_conflict_new(), c2_prefix, c2_tokens.as_slice());
        (highlighted_c1, highlighted_c2)
    }

    /// Two sections, each highlighted against the other.
    fn render_two(&self) -> (r: StringFuture)
        ensures
            r@ == render_two_spec(self@),
    {
        let ghost v = self@;
        let git = self.in_git_diff();
        let (highlighted_c1, highlighted_c2) = self.two_sections(git);
        let ghost c1_part = when_present(v.c1, highlighted_c1@);
        let ghost c2_part = when_present(v.c2, highlighted_c2@);
        let ghost base_part = if v.base_header.len() > 0 {
            marker_text(v, v.base_header)
        } else {
            seq![]
        };

        let mut rendered = String::new();
        push_marker(&mut rendered, git, self.c1_header.as_str());
        let ghost p1 = marker_text(v, v.c1_header);
        assert(rendered@ =~= p1);
        if !self.c1.as_str().is_empty() {
            push_str(&mut rendered, highlighted_c1.as_str());
            assert(rendered@ == p1 + c1_part);
        } else {
            assert(p1 + c1_part =~= p1);
        }
        let ghost p2 = p1 + c1_part;
        assert(rendered@ == p2);
        if !self.base_header.as_str().is_empty() {
            push_marker(&mut rendered, git, self.base_header.as_str());
            assert(rendered@ == p2 + base_part);
        } else {
            assert(p2 + base_part =~= p2);
        }
        let ghost p3 = p2 + base_part;
        assert(rendered@ == p3);
        push_marker(&mut rendered, git, self.c2_header.as_str());
        let ghost p4 = p3 + marker_text(v, v.c2_header);
        assert(rendered@ == p4);
        if !self.c2.as_str().is_empty() {
            push_str(&mut rendered, highlighted_c2.as_str());
            assert(rendered@ == p4 + c2_part);
        } else {
            assert(p4 + c2_part =~= p4);
        }
        let ghost p5 = p4 + c2_part;
        assert(rendered@ == p5);
        push_marker(&mut rendered, git, self.footer.as_str());
        assert(rendered@ == p5 + marker_text(v, v.footer));
        StringFuture::from_string(rendered)
    }

    /// In this case we'll render:
    /// * In section C1, we highlight additions compared to base
    /// * In section base, we highlight things that have been removed either
    ///   vs C1 or vs C2.
    /// * In section C2, we highlight additions compared to base
    #[verifier::rlimit(40)]
    fn render_diff3(&self) -> (r: StringFuture)
        requires
            conflicts_wf(self@),
            self@.base.len() > 0,
        ensures
            r@ == render_three_spec(self@),
    {
        let ghost v = self@;
        let git = self.in_git_diff();
        let (c1_prefix, c2_prefix) = if git {
            (" +", "+ ")
        } else {
            ("", "")
        };
        proof {
            reveal_strlit("\n");
            assert("\n"@ =~= seq!['\n']);
        }
        let base = self.base.as_str();

        let c1_or_newline = if self.c1.as_str().is_empty() {
            "\n"
        } else {
            self.c1.as_str()
        };
        let (base_vs_c1_raw, c1_tokens) = to_highlighted_tokens(base, c1_or_newline);
        let base_vs_c1 = if self.c1.as_str().is_empty() {
            // In the base, show only diffs vs c2
            all_context(&base_vs_c1_raw)
        } else {
            base_vs_c1_raw
        };
        let highlighted_c1 = render(&line_style_conflict_new(), c1_prefix, c1_tokens.as_slice());

        let c2_or_newline = if self.c2.as_str().is_empty() {
            "\n"
        } else {
            self.c2.as_str()
        };
        let (base_vs_c2_raw, c2_tokens) = to_highlighted_tokens(base, c2_or_newline);
        let base_vs_c2 = if self.c2.as_str().is_empty() {
            // In the base, show only diffs vs c1
            all_context(&base_vs_c2_raw)
        } else {
            base_vs_c2_raw
        };
        let highlighted_c2 = render(&line_style_conflict_new(), c2_prefix, c2_tokens.as_slice());

        let ghost a = tokens_view(base_vs_c1@);
        let ghost b = tokens_view(base_vs_c2@);
        let ghost shown_base = tokenize_spec(v.base).map_values(|t: Seq<char>| shown_text(t));
        assert(a == base_versus(v.base, v.c1));
        assert(b == base_versus(v.base, v.c2));
        assert(token_texts(a) =~= shown_base);
        assert(token_texts(b) =~= shown_base);
        assert(base_vs_c1@.len() == base_vs_c2@.len()) by {
            assert(token_texts(a).len() == a.len());
            assert(token_texts(b).len() == b.len());
        }

        // Now, highlight everything in base that was removed either vs c1 or vs c2
        let mut base_tokens: Vec<StyledToken> = Vec::new();
        let mut j: usize = 0;
        while j < base_vs_c1.len()
            invariant
                j <= base_vs_c1@.len(),
                base_vs_c1@.len() == base_vs_c2@.len(),
                a == tokens_view(base_vs_c1@),
                b == tokens_view(base_vs_c2@),
                tokens_view(base_tokens@) =~= more_prominent(a, b).take(j as int),
            decreases base_vs_c1@.len() - j,
        {
            let ghost before = base_tokens@;
            assert(a[j as int] == base_vs_c1@[j as int]@);
            assert(b[j as int] == base_vs_c2@[j as int]@);
            if crate::token_collector::rank(base_vs_c1[j].style) >= crate::token_collector::rank(
                base_vs_c2[j].style,
            ) {
                base_tokens.push(base_vs_c1[j].duplicate());
            } else {
                base_tokens.push(base_vs_c2[j].duplicate());
            }
            assert(tokens_view(base_tokens@) =~= tokens_view(before).push(base_tokens@[j as int]@));
            j = j + 1;
        }
        let ghost merged = tokens_view(base_tokens@);
        assert(merged =~= more_prominent(a, b));
        proof {
            assert(token_texts(merged) =~= shown_base) by {
                assert forall|i: int| 0 <= i < merged.len() implies #[trigger] token_texts(merged)[i]
                    == shown_base[i] by {
                    assert(token_texts(a)[i] == a[i].token);
                    assert(token_texts(b)[i] == b[i].token);
                }
            }
            lemma_base_rows(v.base, merged);
        }
        assert(strings_view(self.base_line_prefixes@) == v.base_line_prefixes);
        let highlighted_base = render_multiprefix(
            &line_style_conflict_base(),
            self.base_line_prefixes.as_slice(),
            base_tokens.as_slice(),
        );

        assert(c1_prefix@ == self::c1_prefix(v));
        assert(c2_prefix@ == self::c2_prefix(v));
        let ghost c1_part = when_present(v.c1, highlighted_c1@);
        let ghost c2_part = when_present(v.c2, highlighted_c2@);
        let mut rendered = String::new();
        push_marker(&mut rendered, git, self.c1_header.as_str());
        if !self.c1.as_str().is_empty() {
            push_str(&mut rendered, highlighted_c1.as_str());
        }
        let ghost p1 = marker_text(v, v.c1_header) + c1_part;
        assert(rendered@ =~= p1);
        push_marker(&mut rendered, git, self.base_header.as_str());
        push_str(&mut rendered, highlighted_base.as_str());
        let ghost p2 = p1 + marker_text(v, v.base_header) + highlighted_base@;
        assert(rendered@ =~= p2);
        push_marker(&mut rendered, git, self.c2_header.as_str());
        if !self.c2.as_str().is_empty() {
            push_str(&mut rendered, highlighted_c2.as_str());
        }
        let ghost p3 = p2 + marker_text(v, v.c2_header) + c2_part;
        assert(rendered@ =~= p3);
        push_marker(&mut rendered, git, self.footer.as_str());
        assert(rendered@ =~= p3 + marker_text(v, v.footer));
        assert(rendered@ =~= render_three_spec(v));
        StringFuture::from_string(rendered)
    }

    /// Render everything we have so far without any highlighting, even if it
    /// is incomplete.
    fn render_plain(&self) -> (r: StringFuture)
        ensures
            r@ == render_plain_spec(self@),
    {
        let ghost v = self@;
        let git = self.in_git_diff();
        let mut rendered = String::new();
        push_plain_line(&mut rendered, git, self.c1_header.as_str(), Ghost(v));
        if !self.c1.as_str().is_empty() {
            push_plain_lines(&mut rendered, git, " +", self.c1.as_str(), Ghost(v));
        }
        let ghost s1 = rendered@;
        assert(s1 =~= plain_line(v, seq![], v.c1_header) + when_present(
            v.c1,
            plain_lines(v, " +"@, lines(v.c1)),
        ));
        if !self.base_header.as_str().is_empty() {
            push_plain_line(&mut rendered, git, self.base_header.as_str(), Ghost(v));
        }
        let ghost s2 = rendered@;
        assert(s2 =~= s1 + when_present(v.base_header, plain_line(v, seq![], v.base_header)));
        if !self.base.as_str().is_empty() {
            push_plain_lines(&mut rendered, git, "++", self.base.as_str(), Ghost(v));
        }
        let ghost s3 = rendered@;
        assert(s3 =~= s2 + when_present(v.base, plain_lines(v, "++"@, lines(v.base))));
        if !self.c2_header.as_str().is_empty() {
            push_plain_line(&mut rendered, git, self.c2_header.as_str(), Ghost(v));
        }
        let ghost s4 = rendered@;
        assert(s4 =~= s3 + when_present(v.c2_header, plain_line(v, seq![], v.c2_header)));
        if !self.c2.as_str().is_empty() {
            push_plain_lines(&mut rendered, git, "+ ", self.c2.as_str(), Ghost(v));
        }
        let ghost s5 = rendered@;
        assert(s5 =~= s4 + when_present(v.c2, plain_lines(v, "+ "@, lines(v.c2))));
        if !self.footer.as_str().is_empty() {
            push_plain_line(&mut rendered, git, self.footer.as_str(), Ghost(v));
        }
        assert(rendered@ =~= s5 + when_present(v.footer, plain_line(v, seq![], v.footer)));
        assert(rendered@ == render_plain_spec(v)) by {
            reveal(render_plain_spec);
        }
        StringFuture::from_string(rendered)
    }
}

proof fn lemma_first_prefix_found(prefixes: Seq<Seq<char>>, line: Seq<char>, i: int)
    requires
        0 <= i,
    ensures
        first_prefix_from(prefixes, line, i) matches Some(k) ==> i <= k < prefixes.len() && starts_with(
            line,
            prefixes[k],
        ),
    decreases prefixes.len() - i,
{
    if i < prefixes.len() && !starts_with(line, prefixes[i]) {
        lemma_first_prefix_found(prefixes, line, i + 1);
    }
}


// ---------------------------------------------------------------------------
// What a terminal shows of a highlighted conflict
// ---------------------------------------------------------------------------

/// The conflict's text as it was collected: each marker line with its
/// newline, and the sections as they came.
pub open spec fn conflict_text(v: ConflictsView) -> Seq<char> {
    v.c1_header + seq!['\n'] + v.c1 + (if v.base.len() > 0 || v.base_header.len() > 0 {
        v.base_header + seq!['\n'] + v.base
    } else {
        seq![]
    }) + v.c2_header + seq!['\n'] + v.c2 + v.footer + seq!['\n']
}

/// A section of printable characters that is empty or ends with a newline.
pub open spec fn plain_section(s: Seq<char>) -> bool {
    (s.len() == 0 || ends_with_newline(s)) && printable_text(s)
}

/// What the law on a shown conflict asks: a conflict outside `git diff`
/// output, of printable marker lines and sections, whose base lines have
/// empty prefixes, one for each line at least.
pub open spec fn conflict_shown_premise(v: ConflictsView) -> bool {
    &&& !in_git_diff(v)
    &&& printable_text(v.c1_header)
    &&& printable_text(v.base_header)
    &&& printable_text(v.c2_header)
    &&& printable_text(v.footer)
    &&& plain_section(v.c1)
    &&& plain_section(v.base)
    &&& plain_section(v.c2)
    &&& forall|i: int| 0 <= i < v.base_line_prefixes.len() ==> (#[trigger] v.base_line_prefixes[i]).len() == 0
    &&& lines(v.base).len() <= v.base_line_prefixes.len()
}

/// Refinement keeps the tokens of the texts that rendering compares (which
/// `to_highlighted_tokens` states).
pub open spec fn conflict_refinement_keeps_tokens(v: ConflictsView) -> bool {
    if v.base.len() > 0 {
        refinement_keeps_tokens(v.base, or_newline(v.c1)) && refinement_keeps_tokens(
            v.base,
            or_newline(v.c2),
        )
    } else {
        refinement_keeps_tokens(or_newline(v.c1), or_newline(v.c2))
    }
}

proof fn lemma_conflict_style_plain(c: Color)
    ensures
        line_style_shown_plain(conflict_line_style(c)),
{
}

/// A marker line shows as itself and its newline.
proof fn lemma_marker_shown(v: ConflictsView, h: Seq<char>, rest: Seq<char>)
    requires
        !in_git_diff(v),
        printable_text(h),
    ensures
        shown_chars(marker_text(v, h) + rest) == h + seq!['\n'] + shown_chars(rest),
{
    reveal_strlit("");
    reveal_strlit("\x1b[7m");
    lemma_printable_plain(h);
    let nl = seq!['\n'];
    assert(marker_text(v, h) + rest =~= INVERSE_VIDEO@ + (h + (nl + rest)));
    lemma_shown_sgr(INVERSE_VIDEO@, h + (nl + rest));
    lemma_shown_plain(h, nl + rest);
    lemma_shown_plain(nl, rest);
    assert(h + (nl + shown_chars(rest)) =~= h + nl + shown_chars(rest));
}

/// A printable section that ends with a newline, or `"\n"`.
proof fn lemma_or_newline_plain(s: Seq<char>)
    requires
        plain_section(s),
    ensures
        ends_with_newline(or_newline(s)),
        printable_text(or_newline(s)),
        s.len() > 0 ==> or_newline(s) == s,
{
}

/// A section drawn without a prefix from tokens that spell it shows as the
/// section.
proof fn lemma_section_shown(
    ls: LineStyleView,
    prefix: Seq<char>,
    toks: Seq<TokenView>,
    section: Seq<char>,
    rest: Seq<char>,
)
    requires
        line_style_shown_plain(ls),
        prefix.len() == 0,
        plain_section(section),
        section.len() > 0 ==> no_urls(toks) && token_texts(toks) == tokenize_spec(section),
    ensures
        shown_chars(when_present(section, render_spec(ls, prefix, toks)) + rest) == section
            + shown_chars(rest),
{
    if section.len() > 0 {
        lemma_tokens_of_text(toks, section);
        lemma_render_shown_text(ls, prefix, toks, rest);
    } else {
        assert(when_present(section, render_spec(ls, prefix, toks)) + rest =~= rest);
        assert(section + shown_chars(rest) =~= shown_chars(rest));
    }
}

/// The base's tokens compared with a section spell the base.
proof fn lemma_base_versus(base: Seq<char>, section: Seq<char>)
    requires
        ends_with_newline(base),
        printable_text(base),
        plain_section(section),
        refinement_keeps_tokens(base, or_newline(section)),
    ensures
        token_texts(base_versus(base, section)) == tokenize_spec(base),
        no_urls(base_versus(base, section)),
{
    lemma_or_newline_plain(section);
    lemma_refined_spelling(base, or_newline(section));
    let b = highlighted_tokens(base, or_newline(section)).0;
    if section.len() == 0 {
        assert(token_texts(as_context(b)) =~= token_texts(b));
    }
}

/// The base's tokens, each as drawn where it is more prominent, spell the
/// base, one row per line.
proof fn lemma_base_tokens(v: ConflictsView)
    requires
        conflict_shown_premise(v),
        conflict_refinement_keeps_tokens(v),
        v.base.len() > 0,
    ensures
        ({
            let toks = more_prominent(base_versus(v.base, v.c1), base_versus(v.base, v.c2));
            &&& tokens_shown_plain(toks)
            &&& token_texts(toks).flatten() == v.base
            &&& row_count(toks) == lines(v.base).len()
        }),
{
    let a = base_versus(v.base, v.c1);
    let b = base_versus(v.base, v.c2);
    let toks = more_prominent(a, b);
    lemma_base_versus(v.base, v.c1);
    lemma_base_versus(v.base, v.c2);
    assert(token_texts(toks) =~= token_texts(a));
    assert(no_urls(toks));
    lemma_tokens_of_text(toks, v.base);
    lemma_row_count(toks);
    lemma_flatten_newlines(token_texts(toks));
    crate::text::lemma_lines_len(v.base);
}

/// A conflict with a base shows as the conflict that was collected.
#[verifier::spinoff_prover]
proof fn lemma_three_shown(v: ConflictsView)
    requires
        conflict_shown_premise(v),
        conflict_refinement_keeps_tokens(v),
        v.base.len() > 0,
    ensures
        shown_chars(render_three_spec(v)) == conflict_text(v),
{
    reveal_strlit("");
    let empty = Seq::<char>::empty();
    assert(shown_chars(empty) == empty);
    lemma_or_newline_plain(v.c1);
    lemma_or_newline_plain(v.c2);
    lemma_conflict_style_plain(Color::Green);
    lemma_conflict_style_plain(Color::Red);
    assert(c1_prefix(v).len() == 0);
    assert(c2_prefix(v).len() == 0);
    let mf = marker_text(v, v.footer);
    lemma_marker_shown(v, v.footer, empty);
    assert(mf + empty =~= mf);
    let nl = seq!['\n'];
    let c1_tokens = highlighted_tokens(v.base, or_newline(v.c1)).1;
    let c2_tokens = highlighted_tokens(v.base, or_newline(v.c2)).1;
    let base_tokens = more_prominent(base_versus(v.base, v.c1), base_versus(v.base, v.c2));
    lemma_refined_spelling(v.base, or_newline(v.c1));
    lemma_refined_spelling(v.base, or_newline(v.c2));
    lemma_base_tokens(v);
    let w2 = when_present(v.c2, render_spec(conflict_line_style(Color::Green), c2_prefix(v), c2_tokens));
    let r6 = w2 + mf;
    lemma_section_shown(conflict_line_style(Color::Green), c2_prefix(v), c2_tokens, v.c2, mf);
    let m2 = marker_text(v, v.c2_header);
    let r5 = m2 + r6;
    lemma_marker_shown(v, v.c2_header, r6);
    let wb = when_present(
        v.base,
        render_multiprefix_spec(conflict_line_style(Color::Red), v.base_line_prefixes, base_tokens, 0),
    );
    let r4 = wb + r5;
    lemma_multiprefix_shown_text(conflict_line_style(Color::Red), v.base_line_prefixes, base_tokens, 0, r5);
    let mb = marker_text(v, v.base_header);
    let r3 = mb + r4;
    lemma_marker_shown(v, v.base_header, r4);
    let w1 = when_present(v.c1, render_spec(conflict_line_style(Color::Green), c1_prefix(v), c1_tokens));
    let r2 = w1 + r3;
    lemma_section_shown(conflict_line_style(Color::Green), c1_prefix(v), c1_tokens, v.c1, r3);
    let m1 = marker_text(v, v.c1_header);
    lemma_marker_shown(v, v.c1_header, r2);
    assert(render_three_spec(v) =~= m1 + r2);
    assert(v.c1_header + nl + (v.c1 + (v.base_header + nl + (v.base + (v.c2_header + nl + (v.c2 + (
    v.footer + nl + empty)))))) =~= conflict_text(v));
}

/// A conflict without a base shows as the conflict that was collected.
#[verifier::spinoff_prover]
#[verifier::rlimit(40)]
proof fn lemma_two_shown(v: ConflictsView)
    requires
        conflict_shown_premise(v),
        conflict_refinement_keeps_tokens(v),
        v.base.len() == 0,
    ensures
        shown_chars(render_two_spec(v)) == conflict_text(v),
{
    reveal_strlit("");
    reveal(first_section_text);
    reveal(second_section_text);
    let empty = Seq::<char>::empty();
    assert(shown_chars(empty) == empty);
    lemma_or_newline_plain(v.c1);
    lemma_or_newline_plain(v.c2);
    lemma_conflict_style_plain(Color::Green);
    lemma_conflict_style_plain(Color::Red);
    assert(c1_prefix(v).len() == 0);
    assert(c2_prefix(v).len() == 0);
    let mf = marker_text(v, v.footer);
    lemma_marker_shown(v, v.footer, empty);
    assert(mf + empty =~= mf);
    let nl = seq!['\n'];
    let toks = highlighted_tokens(or_newline(v.c1), or_newline(v.c2));
    lemma_refined_spelling(or_newline(v.c1), or_newline(v.c2));
    let w2 = when_present(v.c2, second_section_text(v));
    let r6 = w2 + mf;
    lemma_section_shown(conflict_line_style(Color::Green), c2_prefix(v), toks.1, v.c2, mf);
    let m2 = marker_text(v, v.c2_header);
    let r5 = m2 + r6;
    lemma_marker_shown(v, v.c2_header, r6);
    let mb = if v.base_header.len() > 0 {
        marker_text(v, v.base_header)
    } else {
        seq![]
    };
    let r3 = mb + r5;
    if v.base_header.len() > 0 {
        lemma_marker_shown(v, v.base_header, r5);
    } else {
        assert(r3 =~= r5);
    }
    let w1 = when_present(v.c1, first_section_text(v));
    let r2 = w1 + r3;
    lemma_section_shown(first_section_style(v), c1_prefix(v), toks.0, v.c1, r3);
    let m1 = marker_text(v, v.c1_header);
    lemma_marker_shown(v, v.c1_header, r2);
    assert(render_two_spec(v) =~= m1 + r2);
    if v.base_header.len() > 0 {
        assert(v.c1_header + nl + (v.c1 + (v.base_header + nl + (v.c2_header + nl + (v.c2 + (v.footer
            + nl + empty))))) =~= conflict_text(v));
    } else {
        assert(v.c1_header + nl + (v.c1 + (v.c2_header + nl + (v.c2 + (v.footer + nl + empty))))
            =~= conflict_text(v));
    }
}

/// Stripped of its colors, a highlighted conflict reads as the conflict
/// that was collected: its marker lines and sections, in order. This holds
/// outside `git diff` output, for printable marker lines and sections that
/// are empty or end with a newline, where the base lines have empty
/// prefixes; it rests on refinement keeping the tokens of the texts it
/// compares.
pub proof fn lemma_conflict_shown(v: ConflictsView)
    requires
        conflict_shown_premise(v),
        conflict_refinement_keeps_tokens(v),
    ensures
        shown_chars(render_conflict_spec(v)) == conflict_text(v),
{
    if v.base.len() > 0 {
        lemma_three_shown(v);
    } else {
        lemma_two_shown(v);
    }
}


/// In a conflict without a base, the first section is drawn as the old side
/// and the second as the new side: the first section's changed parts are
/// red, the highlighted ones red in inverse video, and the second section's
/// are green, the highlighted ones green in inverse video.
pub proof fn lemma_two_way_section_colors(v: ConflictsView)
    requires
        v.base_header.len() == 0,
    ensures
        ({
            let toks = highlighted_tokens(or_newline(v.c1), or_newline(v.c2));
            let first = first_section_style(v);
            let second = conflict_line_style(Color::Green);
            &&& first_section_text(v) == render_spec(first, c1_prefix(v), toks.0)
            &&& second_section_text(v) == render_spec(second, c2_prefix(v), toks.1)
            &&& first.midlighted_style.color == Color::Red
            &&& first.highlighted_style.color == Color::Red
            &&& first.highlighted_style.inverse
            &&& !first.midlighted_style.inverse
            &&& second.midlighted_style.color == Color::Green
            &&& second.highlighted_style.color == Color::Green
            &&& second.highlighted_style.inverse
            &&& !second.midlighted_style.inverse
        }),
{
    reveal(first_section_text);
    reveal(second_section_text);
}

} // verus!
