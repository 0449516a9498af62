//! Refining: finding and highlighting the changed parts of changed lines.

use vstd::prelude::*;
use vstd::slice::slice_subrange;
use vstd::string::StringSliceAdditionalSpecFns;
use vstd::utf8::encode_utf8;

use similar::DiffOp as SimilarOp;

use crate::ansi::{ansi_style_normal, Color};
use crate::constants::{INVERSE_VIDEO, NORMAL, NO_EOF_NEWLINE_COLOR, OLD};
use crate::text::{
    all_whitespace, chars_all_whitespace, chars_contain, chars_of, lines, lines_of, push_str,
    str_contains_char, str_ends_with_char, string_of_chars, vecs_view,
};
use crate::token_collector::{
    render, render_row, render_row_spec, render_spec, shown_text, style_rank, LineStyle,
    LineStyleView, Style, StyledToken, TokenView, tokens_view, token_texts,
};
use crate::tokenizer::{strings_view, tokenize, tokenize_spec};
use crate::line_counts::{
    drawn_lines_upto, keeps_lines_premise, lemma_format_keeps_lines, lemma_format_shows_lines,
    lemma_marked_spelling, marked_text, no_pictured_chars, prefixed_lines_upto,
    refinement_keeps_tokens, shows_lines_premise,
};
use crate::terminal::shown_chars;

verus! {

/// One step of an edit script from an old token sequence to a new one.
#[derive(Copy, Clone, Debug, PartialEq, Eq, Structural)]
pub enum DiffOp {
    Equal { old_index: usize, new_index: usize, len: usize },
    Delete { old_index: usize, old_len: usize, new_index: usize },
    Insert { old_index: usize, new_index: usize, new_len: usize },
    Replace { old_index: usize, old_len: usize, new_index: usize, new_len: usize },
}

pub open spec fn op_old_start(op: DiffOp) -> int {
    match op {
        DiffOp::Equal { old_index, .. } => old_index as int,
        DiffOp::Delete { old_index, .. } => old_index as int,
        DiffOp::Insert { old_index, .. } => old_index as int,
        DiffOp::Replace { old_index, .. } => old_index as int,
    }
}

pub open spec fn op_new_start(op: DiffOp) -> int {
    match op {
        DiffOp::Equal { new_index, .. } => new_index as int,
        DiffOp::Delete { new_index, .. } => new_index as int,
        DiffOp::Insert { new_index, .. } => new_index as int,
        DiffOp::Replace { new_index, .. } => new_index as int,
    }
}

/// How many old tokens a step covers.
pub open spec fn op_old_len(op: DiffOp) -> int {
    match op {
        DiffOp::Equal { len, .. } => len as int,
        DiffOp::Delete { old_len, .. } => old_len as int,
        DiffOp::Insert { .. } => 0,
        DiffOp::Replace { old_len, .. } => old_len as int,
    }
}

/// How many new tokens a step covers.
pub open spec fn op_new_len(op: DiffOp) -> int {
    match op {
        DiffOp::Equal { len, .. } => len as int,
        DiffOp::Delete { .. } => 0,
        DiffOp::Insert { new_len, .. } => new_len as int,
        DiffOp::Replace { new_len, .. } => new_len as int,
    }
}

/// Whether a step covers a range of old tokens: all but an insertion do
/// (the old index of an insertion says nothing).
pub open spec fn op_covers_old(op: DiffOp) -> bool {
    !(op is Insert)
}

/// Whether a step covers a range of new tokens: all but a deletion do (the
/// new index of a deletion says nothing).
pub open spec fn op_covers_new(op: DiffOp) -> bool {
    !(op is Delete)
}

/// The steps cover the old tokens `o..n_old` and the new tokens `n..n_new`
/// one after the other, in order and without gaps: the old ranges of the
/// steps that cover old tokens follow each other, and so do the new ranges
/// of the steps that cover new tokens.
pub open spec fn ops_tile(ops: Seq<DiffOp>, o: int, n: int, n_old: int, n_new: int) -> bool
    decreases ops.len(),
{
    if ops.len() == 0 {
        o == n_old && n == n_new
    } else {
        &&& op_covers_old(ops[0]) ==> op_old_start(ops[0]) == o
        &&& op_covers_new(ops[0]) ==> op_new_start(ops[0]) == n
        &&& ops_tile(ops.skip(1), o + op_old_len(ops[0]), n + op_new_len(ops[0]), n_old, n_new)
    }
}

/// The edit script that the `similar` crate's patience diff computes from
/// `old` to `new`.
pub uninterp spec fn patience_diff(old: Seq<Seq<char>>, new: Seq<Seq<char>>) -> Seq<DiffOp>;

/// `similar::capture_diff_slices` with the patience algorithm. Its contract
/// names the result and states that it is an edit script: the old ranges
/// of its equal, delete and replace steps cover the old tokens from start to
/// end, in order and without gaps, and the new ranges of its equal, insert
/// and replace steps do the same for the new tokens. (Its compaction may
/// swap a neighbouring delete and insert without changing their indices,
/// so the old index of an insert and the new index of a delete are not
/// relied on.) Which steps the algorithm chooses is left to the name.
#[verifier::external_body]
fn capture_patience_diff(old: &Vec<String>, new: &Vec<String>) -> (ops: Vec<DiffOp>)
    ensures
        ops@ == patience_diff(strings_view(old@), strings_view(new@)),
        ops_tile(ops@, 0, 0, old@.len() as int, new@.len() as int),
{
    similar::capture_diff_slices(similar::Algorithm::Patience, old, new).into_iter().map(
        |op| match op {
            SimilarOp::Equal { old_index, new_index, len } => DiffOp::Equal { old_index, new_index, len },
            SimilarOp::Delete { old_index, old_len, new_index } => DiffOp::Delete { old_index, old_len, new_index },
            SimilarOp::Insert { old_index, new_index, new_len } => DiffOp::Insert { old_index, new_index, new_len },
            SimilarOp::Replace { old_index, old_len, new_index, new_len } => DiffOp::Replace { old_index, old_len, new_index, new_len },
        },
    ).collect()
}

/// The marker drawn where a trailing newline was added or removed.
pub open spec fn newline_marker() -> Seq<char> {
    seq!['\u{23ce}']
}

/// Whether a run of changed tokens should be highlighted: a lone newline
/// marker always is; whitespace only (unless that is fine here) and anything
/// holding a newline never are.
pub open spec fn should_highlight_change_spec(tokens: Seq<Seq<char>>, whitespace_only_is_fine: bool) -> bool {
    let whitespace_only = forall|i: int| 0 <= i < tokens.len() ==> all_whitespace(#[trigger] tokens[i]);
    let contains_newline = exists|i: int| 0 <= i < tokens.len() && (#[trigger] tokens[i]).contains('\n');
    let is_newline_marker = tokens.len() == 2 && tokens[0] == newline_marker() && tokens[1] == seq!['\n'];
    if is_newline_marker {
        true
    } else if (whitespace_only && !whitespace_only_is_fine) || contains_newline {
        false
    } else {
        true
    }
}

/// Both runs consist of whitespace only.
pub open spec fn is_whitespace_replacement_spec(old_run: Seq<Seq<char>>, new_run: Seq<Seq<char>>) -> bool {
    (forall|i: int| 0 <= i < old_run.len() ==> all_whitespace(#[trigger] old_run[i]))
        && (forall|i: int| 0 <= i < new_run.len() ==> all_whitespace(#[trigger] new_run[i]))
}

fn all_tokens_whitespace(tokens: &[String]) -> (r: bool)
    ensures
        r == (forall|i: int|
            0 <= i < strings_view(tokens@).len() ==> all_whitespace(#[trigger] strings_view(tokens@)[i])),
{
    let ghost tv = strings_view(tokens@);
    let mut i: usize = 0;
    while i < tokens.len()
        invariant
            i <= tokens@.len(),
            tv == strings_view(tokens@),
            forall|j: int| 0 <= j < i ==> all_whitespace(#[trigger] tv[j]),
        decreases tokens.len() - i,
    {
        let chars = chars_of(tokens[i].as_str());
        assert(tv[i as int] == tokens@[i as int]@);
        if !chars_all_whitespace(&chars) {
            return false;
        }
        i = i + 1;
    }
    true
}

fn is_newline_marker_token(s: &String) -> (r: bool)
    ensures
        r == (s@ == newline_marker()),
{
    let chars = chars_of(s.as_str());
    if chars.len() == 1 && chars[0] == '\u{23ce}' {
        assert(chars@ =~= newline_marker());
        true
    } else {
        false
    }
}

/// Whether a run of changed tokens should be highlighted.
pub fn should_highlight_change(tokens: &[String], whitespace_only_is_fine: bool) -> (r: bool)
    ensures
        r == should_highlight_change_spec(strings_view(tokens@), whitespace_only_is_fine),
{
    let ghost tv = strings_view(tokens@);
    let whitespace_only = all_tokens_whitespace(tokens);
    let mut contains_newline = false;
    let mut i: usize = 0;
    while i < tokens.len()
        invariant
            i <= tokens@.len(),
            tv == strings_view(tokens@),
            contains_newline == (exists|j: int| 0 <= j < i && (#[trigger] tv[j]).contains('\n')),
        decreases tokens.len() - i,
    {
        let chars = chars_of(tokens[i].as_str());
        if chars_contain(&chars, '\n') {
            assert(tv[i as int].contains('\n'));
            contains_newline = true;
        }
        i = i + 1;
    }
    let is_newline_marker = tokens.len() == 2 && is_newline_marker_token(&tokens[0])
        && crate::token_collector::is_newline(&tokens[1]);

    if is_newline_marker {
        return true;
    }
    if (whitespace_only && !whitespace_only_is_fine) || contains_newline {
        return false;
    }
    return true;
}

/// Whether both runs are whitespace only.
pub fn is_whitepace_replacement(old_run: &[String], new_run: &[String]) -> (r: bool)
    ensures
        r == is_whitespace_replacement_spec(strings_view(old_run@), strings_view(new_run@)),
{
    let old_whitespace_only = all_tokens_whitespace(old_run);
    let new_whitespace_only = all_tokens_whitespace(new_run);
    return old_whitespace_only && new_whitespace_only;
}

/// Whether a text ends with a newline.
pub open spec fn ends_with_newline(s: Seq<char>) -> bool {
    s.len() > 0 && s.last() == '\n'
}

/// The tokens of the old and the new text, with a newline marker before the
/// final newline of the one text that has a trailing newline when the other
/// has none.
pub open spec fn marked_tokens(old_text: Seq<char>, new_text: Seq<char>) -> (Seq<Seq<char>>, Seq<
    Seq<char>,
>) {
    let to = tokenize_spec(old_text);
    let tn = tokenize_spec(new_text);
    if ends_with_newline(old_text) && !ends_with_newline(new_text) {
        (to.insert(to.len() - 1, newline_marker()), tn)
    } else if ends_with_newline(new_text) && !ends_with_newline(old_text) {
        (to, tn.insert(tn.len() - 1, newline_marker()))
    } else {
        (to, tn)
    }
}

/// Tokens with a style, shown as `StyledToken::new` shows them. The
/// whitespace at the ends of a highlighted run is only midlighted (see
/// `run_token_style`).
pub open spec fn styled(run: Seq<Seq<char>>, style: Style) -> Seq<TokenView> {
    Seq::new(
        run.len(),
        |i: int| TokenView { token: shown_text(run[i]), style: run_token_style(run, style, i), url: None },
    )
}

/// The tokens `run[0..=i]` are all whitespace.
pub open spec fn blank_through(run: Seq<Seq<char>>, i: int) -> bool {
    forall|j: int| 0 <= j <= i ==> all_whitespace(#[trigger] run[j])
}

/// The tokens `run[i..]` are all whitespace.
pub open spec fn blank_from(run: Seq<Seq<char>>, i: int) -> bool {
    forall|j: int| i <= j < run.len() ==> all_whitespace(#[trigger] run[j])
}

/// The style of token `i` of a changed run given `style`: in a highlighted
/// run that holds more than whitespace, the whitespace at either end of the
/// run is only midlighted.
pub open spec fn run_token_style(run: Seq<Seq<char>>, style: Style, i: int) -> Style {
    if style == Style::DiffPartHighlighted && !blank_from(run, 0) && (blank_through(run, i)
        || blank_from(run, i)) {
        Style::DiffPartMidlighted
    } else {
        style
    }
}

fn is_blank(s: &String) -> (r: bool)
    ensures
        r == all_whitespace(s@),
{
    let chars = chars_of(s.as_str());
    chars_all_whitespace(&chars)
}

/// How many tokens at the start and at the end of `tokens[lo..hi]` are
/// whitespace only.
fn blank_edges(tokens: &Vec<String>, lo: usize, hi: usize) -> (r: (usize, usize))
    requires
        lo <= hi <= tokens@.len(),
    ensures
        r.0 <= hi - lo,
        r.1 <= hi - lo,
        blank_from(strings_view(tokens@).subrange(lo as int, hi as int), 0) <==> r.0 == hi - lo,
        forall|i: int|
            0 <= i < hi - lo ==> (blank_through(strings_view(tokens@).subrange(lo as int, hi as int), i)
                <==> i < r.0),
        forall|i: int|
            0 <= i < hi - lo ==> (blank_from(strings_view(tokens@).subrange(lo as int, hi as int), i)
                <==> i >= hi - lo - r.1),
{
    let ghost run = strings_view(tokens@).subrange(lo as int, hi as int);
    let mut a = lo;
    while a < hi && is_blank(&tokens[a])
        invariant
            lo <= a <= hi <= tokens@.len(),
            run == strings_view(tokens@).subrange(lo as int, hi as int),
            forall|j: int| 0 <= j < a - lo ==> all_whitespace(#[trigger] run[j]),
        decreases hi - a,
    {
        assert(run[a - lo] == tokens@[a as int]@);
        a = a + 1;
    }
    assert(a < hi ==> !all_whitespace(run[a - lo])) by {
        if a < hi {
            assert(run[a - lo] == tokens@[a as int]@);
        }
    }
    let mut b = hi;
    while b > lo && is_blank(&tokens[b - 1])
        invariant
            lo <= b <= hi <= tokens@.len(),
            run == strings_view(tokens@).subrange(lo as int, hi as int),
            forall|j: int| b - lo <= j < hi - lo ==> all_whitespace(#[trigger] run[j]),
        decreases b - lo,
    {
        assert(run[b - 1 - lo] == tokens@[b - 1]@);
        b = b - 1;
    }
    assert(b > lo ==> !all_whitespace(run[b - 1 - lo])) by {
        if b > lo {
            assert(run[b - 1 - lo] == tokens@[b - 1]@);
        }
    }
    assert(blank_from(run, 0) <==> a - lo == hi - lo) by {
        if a < hi {
            assert(!all_whitespace(run[a - lo]));
        }
    }
    assert forall|i: int| 0 <= i < hi - lo implies (blank_through(run, i) <==> i < a - lo) by {
        if i >= a - lo {
            assert(!all_whitespace(run[a - lo]));
        }
    }
    assert forall|i: int| 0 <= i < hi - lo implies (blank_from(run, i) <==> i >= b - lo) by {
        if i < b - lo {
            assert(!all_whitespace(run[b - 1 - lo]));
        }
    }
    (a - lo, hi - b)
}

/// Whether the next token would start a line: no tokens yet, or the last one
/// ends with a newline.
pub open spec fn at_start_of_line(toks: Seq<TokenView>) -> bool {
    toks.len() == 0 || (toks.last().token.len() > 0 && toks.last().token.last() == '\n')
}

pub open spec fn change_style(highlight: bool) -> Style {
    if highlight {
        Style::DiffPartHighlighted
    } else {
        Style::DiffPartMidlighted
    }
}

/// What one step of the edit script adds to the old and new token lists.
pub open spec fn apply_op(
    op: DiffOp,
    to: Seq<Seq<char>>,
    tn: Seq<Seq<char>>,
    acc: (Seq<TokenView>, Seq<TokenView>),
) -> (Seq<TokenView>, Seq<TokenView>) {
    let (acc_old, acc_new) = acc;
    match op {
        DiffOp::Equal { old_index, new_index, len } => (
            acc_old + styled(to.subrange(old_index as int, old_index + len), Style::DiffPartUnchanged),
            acc_new + styled(tn.subrange(new_index as int, new_index + len), Style::DiffPartUnchanged),
        ),
        DiffOp::Insert { new_index, new_len, .. } => {
            let run = tn.subrange(new_index as int, new_index + new_len);
            (
                acc_old,
                acc_new + styled(
                    run,
                    change_style(should_highlight_change_spec(run, !at_start_of_line(acc_new))),
                ),
            )
        },
        DiffOp::Delete { old_index, old_len, .. } => {
            let run = to.subrange(old_index as int, old_index + old_len);
            (
                acc_old + styled(
                    run,
                    change_style(should_highlight_change_spec(run, !at_start_of_line(acc_old))),
                ),
                acc_new,
            )
        },
        DiffOp::Replace { old_index, old_len, new_index, new_len } => {
            let old_run = to.subrange(old_index as int, old_index + old_len);
            let new_run = tn.subrange(new_index as int, new_index + new_len);
            let style = change_style(
                should_highlight_change_spec(old_run, false) && should_highlight_change_spec(
                    new_run,
                    false,
                ) && !is_whitespace_replacement_spec(old_run, new_run),
            );
            (acc_old + styled(old_run, style), acc_new + styled(new_run, style))
        },
    }
}

/// A changed run that holds a newline, other than the lone newline marker
/// followed by its newline.
pub open spec fn run_breaks_line(run: Seq<Seq<char>>) -> bool {
    &&& exists|i: int| 0 <= i < run.len() && (#[trigger] run[i]).contains('\n')
    &&& !(run.len() == 2 && run[0] == newline_marker() && run[1] == seq!['\n'])
}

/// A changed run that holds a newline is never highlighted, whether or not
/// whitespace alone would be fine: each of its tokens is only midlighted.
pub proof fn lemma_line_breaking_run_not_highlighted(run: Seq<Seq<char>>, whitespace_only_is_fine: bool)
    requires
        run_breaks_line(run),
    ensures
        !should_highlight_change_spec(run, whitespace_only_is_fine),
        forall|i: int|
            0 <= i < run.len() ==> (#[trigger] styled(
                run,
                change_style(should_highlight_change_spec(run, whitespace_only_is_fine)),
            )[i]).style == Style::DiffPartMidlighted,
{
}

/// Every token that an insertion, deletion or replacement adds is only
/// midlighted, never highlighted, where one of its changed runs holds a
/// newline (other than the lone newline marker and its newline).
pub proof fn lemma_line_breaking_change_midlighted(
    op: DiffOp,
    to: Seq<Seq<char>>,
    tn: Seq<Seq<char>>,
    acc: (Seq<TokenView>, Seq<TokenView>),
)
    requires
        !(op is Equal),
        op_covers_old(op) ==> 0 <= op_old_start(op) && op_old_start(op) + op_old_len(op) <= to.len(),
        op_covers_new(op) ==> 0 <= op_new_start(op) && op_new_start(op) + op_new_len(op) <= tn.len(),
        (op_covers_old(op) && run_breaks_line(
            to.subrange(op_old_start(op), op_old_start(op) + op_old_len(op)),
        )) || (op_covers_new(op) && run_breaks_line(
            tn.subrange(op_new_start(op), op_new_start(op) + op_new_len(op)),
        )),
    ensures
        ({
            let (ro, rn) = apply_op(op, to, tn, acc);
            &&& forall|k: int| acc.0.len() <= k < ro.len() ==> (#[trigger] ro[k]).style == Style::DiffPartMidlighted
            &&& forall|k: int| acc.1.len() <= k < rn.len() ==> (#[trigger] rn[k]).style == Style::DiffPartMidlighted
        }),
{
    let (ro, rn) = apply_op(op, to, tn, acc);
    match op {
        DiffOp::Insert { new_index, new_len, .. } => {
            let run = tn.subrange(new_index as int, new_index + new_len);
            let w = !at_start_of_line(acc.1);
            lemma_line_breaking_run_not_highlighted(run, w);
            assert forall|k: int| acc.1.len() <= k < rn.len() implies (#[trigger] rn[k]).style
                == Style::DiffPartMidlighted by {
                assert(rn[k] == styled(run, change_style(should_highlight_change_spec(run, w)))[k
                    - acc.1.len()]);
            }
        },
        DiffOp::Delete { old_index, old_len, .. } => {
            let run = to.subrange(old_index as int, old_index + old_len);
            let w = !at_start_of_line(acc.0);
            lemma_line_breaking_run_not_highlighted(run, w);
            assert forall|k: int| acc.0.len() <= k < ro.len() implies (#[trigger] ro[k]).style
                == Style::DiffPartMidlighted by {
                assert(ro[k] == styled(run, change_style(should_highlight_change_spec(run, w)))[k
                    - acc.0.len()]);
            }
        },
        DiffOp::Replace { old_index, old_len, new_index, new_len } => {
            let old_run = to.subrange(old_index as int, old_index + old_len);
            let new_run = tn.subrange(new_index as int, new_index + new_len);
            if run_breaks_line(old_run) {
                lemma_line_breaking_run_not_highlighted(old_run, false);
            } else {
                lemma_line_breaking_run_not_highlighted(new_run, false);
            }
            let style = change_style(
                should_highlight_change_spec(old_run, false) && should_highlight_change_spec(
                    new_run,
                    false,
                ) && !is_whitespace_replacement_spec(old_run, new_run),
            );
            assert(style == Style::DiffPartMidlighted);
            assert forall|k: int| acc.0.len() <= k < ro.len() implies (#[trigger] ro[k]).style
                == Style::DiffPartMidlighted by {
                assert(ro[k] == styled(old_run, style)[k - acc.0.len()]);
            }
            assert forall|k: int| acc.1.len() <= k < rn.len() implies (#[trigger] rn[k]).style
                == Style::DiffPartMidlighted by {
                assert(rn[k] == styled(new_run, style)[k - acc.1.len()]);
            }
        },
        DiffOp::Equal { .. } => {},
    }
}

/// The token lists after all steps of the edit script.
pub open spec fn apply_ops(
    ops: Seq<DiffOp>,
    to: Seq<Seq<char>>,
    tn: Seq<Seq<char>>,
    acc: (Seq<TokenView>, Seq<TokenView>),
) -> (Seq<TokenView>, Seq<TokenView>)
    decreases ops.len(),
{
    if ops.len() == 0 {
        acc
    } else {
        apply_ops(ops.skip(1), to, tn, apply_op(ops[0], to, tn, acc))
    }
}

/// The highlighted old and new tokens: the marked tokens of both texts, put
/// through the patience diff's edit script.
pub open spec fn highlighted_tokens(old_text: Seq<char>, new_text: Seq<char>) -> (Seq<TokenView>, Seq<
    TokenView,
>) {
    let (to, tn) = marked_tokens(old_text, new_text);
    apply_ops(patience_diff(to, tn), to, tn, (seq![], seq![]))
}

/// Pushes `tokens[lo..hi]`, each made a `StyledToken` with `style`.
fn push_styled(out: &mut Vec<StyledToken>, tokens: &Vec<String>, lo: usize, hi: usize, style: Style)
    requires
        lo <= hi <= tokens@.len(),
    ensures
        tokens_view(final(out)@) == tokens_view(old(out)@) + styled(
            strings_view(tokens@).subrange(lo as int, hi as int),
            style,
        ),
{
    let ghost start = out@;
    let ghost run = strings_view(tokens@).subrange(lo as int, hi as int);
    let (lead, trail) = blank_edges(tokens, lo, hi);
    let trim = match style {
        Style::DiffPartHighlighted => lead < hi - lo,
        _ => false,
    };
    let mut i = lo;
    while i < hi
        invariant
            lo <= i <= hi <= tokens@.len(),
            run == strings_view(tokens@).subrange(lo as int, hi as int),
            lead <= hi - lo,
            trail <= hi - lo,
            trim == (style == Style::DiffPartHighlighted && !blank_from(run, 0)),
            forall|k: int| 0 <= k < hi - lo ==> (blank_through(run, k) <==> k < lead),
            forall|k: int| 0 <= k < hi - lo ==> (blank_from(run, k) <==> k >= hi - lo - trail),
            tokens_view(out@) == tokens_view(start) + styled(run, style).subrange(0, i - lo),
        decreases hi - i,
    {
        let ghost before = out@;
        let k = i - lo;
        let st = if trim && (k < lead || k >= hi - lo - trail) {
            Style::DiffPartMidlighted
        } else {
            style
        };
        assert(st == run_token_style(run, style, k as int));
        assert(run[k as int] == tokens@[i as int]@);
        out.push(StyledToken::new(tokens[i].clone(), st));
        assert(tokens_view(out@) =~= tokens_view(before).push(
            TokenView { token: shown_text(tokens@[i as int]@), style: st, url: None },
        ));
        i = i + 1;
        assert(tokens_view(out@) =~= tokens_view(start) + styled(run, style).subrange(0, i - lo));
    }
    assert(styled(run, style).subrange(0, hi - lo) =~= styled(run, style));
}

/// Whether the next token would start a line.
fn starts_line(toks: &Vec<StyledToken>) -> (r: bool)
    ensures
        r == at_start_of_line(tokens_view(toks@)),
{
    if toks.len() == 0 {
        return true;
    }
    let last = &toks[toks.len() - 1];
    str_ends_with_char(last.token.as_str(), '\n')
}

/// The highlighted old and new tokens, given the tokens of both texts and
/// the edit script between them: every step styles the tokens it covers, an
/// unchanged run as unchanged and a changed run highlighted where
/// `should_highlight_change` says so.
pub fn highlight_by_steps(tokenized_old: &Vec<String>, tokenized_new: &Vec<String>, diff: &Vec<DiffOp>) -> (r: (
    Vec<StyledToken>,
    Vec<StyledToken>,
))
    requires
        ops_tile(diff@, 0, 0, tokenized_old@.len() as int, tokenized_new@.len() as int),
    ensures
        (tokens_view(r.0@), tokens_view(r.1@)) == apply_ops(
            diff@,
            strings_view(tokenized_old@),
            strings_view(tokenized_new@),
            (seq![], seq![]),
        ),
        // Every token of both texts comes out once, in order
        token_texts(tokens_view(r.0@)) == shown_texts(strings_view(tokenized_old@)),
        token_texts(tokens_view(r.1@)) == shown_texts(strings_view(tokenized_new@)),
{
    let mut old_tokens: Vec<StyledToken> = Vec::new();
    let mut new_tokens: Vec<StyledToken> = Vec::new();
    let ghost to = strings_view(tokenized_old@);
    let ghost tn = strings_view(tokenized_new@);
    let ghost ops = diff@;
    let mut k: usize = 0;
    let mut old_pos: usize = 0;
    let mut new_pos: usize = 0;
    assert(ops.skip(0) == ops);
    assert(tokens_view(old_tokens@) =~= Seq::<TokenView>::empty());
    assert(tokens_view(new_tokens@) =~= Seq::<TokenView>::empty());
    while k < diff.len()
        invariant
            k <= diff@.len(),
            ops == diff@,
            to == strings_view(tokenized_old@),
            tn == strings_view(tokenized_new@),
            to.len() == tokenized_old.len(),
            tn.len() == tokenized_new.len(),
            ops_tile(ops.skip(k as int), old_pos as int, new_pos as int, to.len() as int, tn.len() as int),
            apply_ops(ops.skip(k as int), to, tn, (tokens_view(old_tokens@), tokens_view(new_tokens@)))
                == apply_ops(ops, to, tn, (seq![], seq![])),
        decreases diff.len() - k,
    {
        let change = diff[k];
        let ghost acc = (tokens_view(old_tokens@), tokens_view(new_tokens@));
        proof {
            lemma_tile_bounds(ops.skip(k as int), old_pos as int, new_pos as int, to.len() as int, tn.len() as int);
            assert(ops.skip(k as int)[0] == change);
            assert(ops.skip(k as int).skip(1) == ops.skip(k + 1));
        }
        let old_start_of_line = starts_line(&old_tokens);
        let new_start_of_line = starts_line(&new_tokens);
        match change {
            DiffOp::Equal { old_index, new_index, len } => {
                assert(old_index + len <= to.len());
                assert(new_index + len <= tn.len());
                push_styled(&mut old_tokens, &tokenized_old, old_index, old_index + len, Style::DiffPartUnchanged);
                push_styled(&mut new_tokens, &tokenized_new, new_index, new_index + len, Style::DiffPartUnchanged);
                old_pos = old_index + len;
                new_pos = new_index + len;
            },
            DiffOp::Insert { old_index: _, new_index, new_len } => {
                let run = slice_subrange(tokenized_new.as_slice(), new_index, new_index + new_len);
                assert(strings_view(run@) =~= tn.subrange(new_index as int, new_index + new_len));
                let style = if should_highlight_change(run, !new_start_of_line) {
                    Style::DiffPartHighlighted
                } else {
                    Style::DiffPartMidlighted
                };
                push_styled(&mut new_tokens, &tokenized_new, new_index, new_index + new_len, style);
                new_pos = new_index + new_len;
            },
            DiffOp::Delete { old_index, old_len, new_index: _ } => {
                let run = slice_subrange(tokenized_old.as_slice(), old_index, old_index + old_len);
                assert(strings_view(run@) =~= to.subrange(old_index as int, old_index + old_len));
                let style = if should_highlight_change(run, !old_start_of_line) {
                    Style::DiffPartHighlighted
                } else {
                    Style::DiffPartMidlighted
                };
                push_styled(&mut old_tokens, &tokenized_old, old_index, old_index + old_len, style);
                old_pos = old_index + old_len;
            },
            DiffOp::Replace { old_index, old_len, new_index, new_len } => {
                let old_run = slice_subrange(tokenized_old.as_slice(), old_index, old_index + old_len);
                let new_run = slice_subrange(tokenized_new.as_slice(), new_index, new_index + new_len);
                assert(strings_view(old_run@) =~= to.subrange(old_index as int, old_index + old_len));
                assert(strings_view(new_run@) =~= tn.subrange(new_index as int, new_index + new_len));
                let style = if should_highlight_change(old_run, false)
                    && should_highlight_change(new_run, false)
                    && !is_whitepace_replacement(old_run, new_run) {
                    Style::DiffPartHighlighted
                } else {
                    Style::DiffPartMidlighted
                };
                push_styled(&mut old_tokens, &tokenized_old, old_index, old_index + old_len, style);
                push_styled(&mut new_tokens, &tokenized_new, new_index, new_index + new_len, style);
                old_pos = old_index + old_len;
                new_pos = new_index + new_len;
            },
        }
        assert((tokens_view(old_tokens@), tokens_view(new_tokens@)) == apply_op(change, to, tn, acc));
        k = k + 1;
    }
    proof {
        lemma_apply_ops_keeps_tokens(ops, to, tn, Seq::empty(), Seq::empty(), 0, 0);
        assert(to.subrange(0, to.len() as int) == to);
        assert(tn.subrange(0, tn.len() as int) == tn);
        assert(token_texts(Seq::<TokenView>::empty()) =~= Seq::<Seq<char>>::empty());
        assert(ops.skip(k as int) =~= Seq::<DiffOp>::empty());
    }
    return (old_tokens, new_tokens);
}

/// Returns the highlighted tokens of the old and the new text.
///
/// `old_text` and `new_text` are multi line strings. Having or not having
/// trailing newlines will affect tokenization. The lines are not expected to
/// have any prefixes like `+` or `-`.
pub fn to_highlighted_tokens(old_text: &str, new_text: &str) -> (r: (Vec<StyledToken>, Vec<StyledToken>))
    ensures
        (tokens_view(r.0@), tokens_view(r.1@)) == highlighted_tokens(old_text@, new_text@),
        // Every token of both (marked) texts comes out once, in order
        token_texts(tokens_view(r.0@)) == marked_tokens(old_text@, new_text@).0.map_values(
            |t: Seq<char>| shown_text(t),
        ),
        token_texts(tokens_view(r.1@)) == marked_tokens(old_text@, new_text@).1.map_values(
            |t: Seq<char>| shown_text(t),
        ),
        refinement_keeps_tokens(old_text@, new_text@),
        // Joined, the tokens spell both texts (with the newline marker where
        // only one text ends with a newline)
        no_pictured_chars(old_text@) && no_pictured_chars(new_text@) ==> token_texts(
            tokens_view(r.0@),
        ).flatten() == marked_text(old_text@, new_text@) && token_texts(tokens_view(r.1@)).flatten()
            == marked_text(new_text@, old_text@),
{
    // Tokenize adds and removes before diffing them
    let mut tokenized_old = tokenize(old_text);
    let mut tokenized_new = tokenize(new_text);

    // Help visualize what actually happens in "No newline at end of file" diffs
    let old_ends = str_ends_with_char(old_text, '\n');
    let new_ends = str_ends_with_char(new_text, '\n');
    proof {
        crate::tokenizer::lemma_tokenize_lossless(old_text@);
        crate::tokenizer::lemma_tokenize_lossless(new_text@);
        if old_ends {
            lemma_nonempty_tokens(old_text@);
        }
        if new_ends {
            lemma_nonempty_tokens(new_text@);
        }
    }
    let mut marker = String::new();
    crate::text::push_char(&mut marker, '\u{23ce}');
    if old_ends && !new_ends {
        let at = tokenized_old.len() - 1;
        tokenized_old.insert(at, marker);
    } else if new_ends && !old_ends {
        let at = tokenized_new.len() - 1;
        tokenized_new.insert(at, marker);
    }
    let ghost to = strings_view(tokenized_old@);
    let ghost tn = strings_view(tokenized_new@);
    assert((to, tn) == marked_tokens(old_text@, new_text@)) by {
        let ot = tokenize_spec(old_text@);
        let nt = tokenize_spec(new_text@);
        if old_ends && !new_ends {
            assert(to =~= ot.insert(ot.len() - 1, newline_marker()));
        } else if new_ends && !old_ends {
            assert(tn =~= nt.insert(nt.len() - 1, newline_marker()));
        }
    }

    let diff = capture_patience_diff(&tokenized_old, &tokenized_new);
    proof {
        if no_pictured_chars(old_text@) && no_pictured_chars(new_text@) {
            lemma_marked_spelling(old_text@, new_text@);
        }
    }
    highlight_by_steps(&tokenized_old, &tokenized_new, &diff)
}


/// The steps of an edit script stay within the sequences it covers.
proof fn lemma_tile_bounds(ops: Seq<DiffOp>, o: int, n: int, n_old: int, n_new: int)
    requires
        ops_tile(ops, o, n, n_old, n_new),
        ops.len() > 0,
        0 <= o,
        0 <= n,
    ensures
        op_covers_old(ops[0]) ==> op_old_start(ops[0]) == o,
        op_covers_new(ops[0]) ==> op_new_start(ops[0]) == n,
        o + op_old_len(ops[0]) <= n_old,
        n + op_new_len(ops[0]) <= n_new,
        ops_tile(ops.skip(1), o + op_old_len(ops[0]), n + op_new_len(ops[0]), n_old, n_new),
{
    lemma_tile_monotone(ops.skip(1), o + op_old_len(ops[0]), n + op_new_len(ops[0]), n_old, n_new);
}

proof fn lemma_tile_monotone(ops: Seq<DiffOp>, o: int, n: int, n_old: int, n_new: int)
    requires
        ops_tile(ops, o, n, n_old, n_new),
    ensures
        o <= n_old,
        n <= n_new,
    decreases ops.len(),
{
    if ops.len() > 0 {
        let op = ops[0];
        assert(op_old_len(op) >= 0 && op_new_len(op) >= 0);
        lemma_tile_monotone(ops.skip(1), o + op_old_len(op), n + op_new_len(op), n_old, n_new);
    }
}

/// A text that ends with a newline has tokens, the last of which is that
/// newline.
proof fn lemma_nonempty_tokens(s: Seq<char>)
    requires
        ends_with_newline(s),
    ensures
        tokenize_spec(s).len() > 0,
{
    crate::tokenizer::lemma_tokenize_lossless(s);
    if tokenize_spec(s).len() == 0 {
        assert(tokenize_spec(s).flatten() =~= Seq::<char>::empty());
    }
}



proof fn lemma_styled_texts(run: Seq<Seq<char>>, style: Style)
    ensures
        token_texts(styled(run, style)) == run.map_values(|t: Seq<char>| shown_text(t)),
{
    assert(token_texts(styled(run, style)) =~= run.map_values(|t: Seq<char>| shown_text(t)));
}

/// Shown texts of a run of tokens.
pub open spec fn shown_texts(run: Seq<Seq<char>>) -> Seq<Seq<char>> {
    run.map_values(|t: Seq<char>| shown_text(t))
}

proof fn lemma_shown_texts_concat(a: Seq<Seq<char>>, b: Seq<Seq<char>>)
    ensures
        shown_texts(a + b) == shown_texts(a) + shown_texts(b),
{
    assert(shown_texts(a + b) =~= shown_texts(a) + shown_texts(b));
}

proof fn lemma_token_texts_concat(a: Seq<TokenView>, b: Seq<TokenView>)
    ensures
        token_texts(a + b) == token_texts(a) + token_texts(b),
{
    assert(token_texts(a + b) =~= token_texts(a) + token_texts(b));
}

/// One step of an edit script adds the shown texts of the tokens it covers.
proof fn lemma_apply_op_texts(
    op: DiffOp,
    to: Seq<Seq<char>>,
    tn: Seq<Seq<char>>,
    ao: Seq<TokenView>,
    an: Seq<TokenView>,
    o: int,
    n: int,
)
    requires
        op_covers_old(op) ==> op_old_start(op) == o,
        op_covers_new(op) ==> op_new_start(op) == n,
        0 <= o,
        0 <= n,
        o + op_old_len(op) <= to.len(),
        n + op_new_len(op) <= tn.len(),
    ensures
        token_texts(apply_op(op, to, tn, (ao, an)).0) == token_texts(ao) + shown_texts(
            to.subrange(o, o + op_old_len(op)),
        ),
        token_texts(apply_op(op, to, tn, (ao, an)).1) == token_texts(an) + shown_texts(
            tn.subrange(n, n + op_new_len(op)),
        ),
{
    let next = apply_op(op, to, tn, (ao, an));
    let old_run = to.subrange(o, o + op_old_len(op));
    let new_run = tn.subrange(n, n + op_new_len(op));
    match op {
        DiffOp::Equal { .. } => {
            lemma_styled_texts(old_run, Style::DiffPartUnchanged);
            lemma_styled_texts(new_run, Style::DiffPartUnchanged);
            lemma_token_texts_concat(ao, styled(old_run, Style::DiffPartUnchanged));
            lemma_token_texts_concat(an, styled(new_run, Style::DiffPartUnchanged));
        },
        DiffOp::Insert { .. } => {
            let st = change_style(should_highlight_change_spec(new_run, !at_start_of_line(an)));
            lemma_styled_texts(new_run, st);
            lemma_token_texts_concat(an, styled(new_run, st));
            assert(old_run =~= Seq::<Seq<char>>::empty());
            assert(token_texts(ao) + shown_texts(old_run) =~= token_texts(ao));
        },
        DiffOp::Delete { .. } => {
            let st = change_style(should_highlight_change_spec(old_run, !at_start_of_line(ao)));
            lemma_styled_texts(old_run, st);
            lemma_token_texts_concat(ao, styled(old_run, st));
            assert(new_run =~= Seq::<Seq<char>>::empty());
            assert(token_texts(an) + shown_texts(new_run) =~= token_texts(an));
        },
        DiffOp::Replace { .. } => {
            assert(token_texts(next.0) =~= token_texts(ao) + shown_texts(old_run));
            assert(token_texts(next.1) =~= token_texts(an) + shown_texts(new_run));
        },
    }
}

/// Following an edit script puts every old and every new token into the
/// result once, in order.
proof fn lemma_apply_ops_keeps_tokens(
    ops: Seq<DiffOp>,
    to: Seq<Seq<char>>,
    tn: Seq<Seq<char>>,
    ao: Seq<TokenView>,
    an: Seq<TokenView>,
    o: int,
    n: int,
)
    requires
        ops_tile(ops, o, n, to.len() as int, tn.len() as int),
        0 <= o,
        0 <= n,
    ensures
        token_texts(apply_ops(ops, to, tn, (ao, an)).0) == token_texts(ao) + shown_texts(
            to.subrange(o, to.len() as int),
        ),
        token_texts(apply_ops(ops, to, tn, (ao, an)).1) == token_texts(an) + shown_texts(
            tn.subrange(n, tn.len() as int),
        ),
    decreases ops.len(),
{
    if ops.len() == 0 {
        assert(to.subrange(o, to.len() as int) =~= Seq::<Seq<char>>::empty());
        assert(tn.subrange(n, tn.len() as int) =~= Seq::<Seq<char>>::empty());
        assert(token_texts(ao) + shown_texts(to.subrange(o, to.len() as int)) =~= token_texts(ao));
        assert(token_texts(an) + shown_texts(tn.subrange(n, tn.len() as int)) =~= token_texts(an));
    } else {
        let op = ops[0];
        lemma_tile_bounds(ops, o, n, to.len() as int, tn.len() as int);
        let o2 = o + op_old_len(op);
        let n2 = n + op_new_len(op);
        let next = apply_op(op, to, tn, (ao, an));
        lemma_apply_op_texts(op, to, tn, ao, an, o, n);
        lemma_apply_ops_keeps_tokens(ops.skip(1), to, tn, next.0, next.1, o2, n2);
        let old_run = to.subrange(o, o2);
        let new_run = tn.subrange(n, n2);
        assert(to.subrange(o, to.len() as int) =~= old_run + to.subrange(o2, to.len() as int));
        assert(tn.subrange(n, tn.len() as int) =~= new_run + tn.subrange(n2, tn.len() as int));
        lemma_shown_texts_concat(old_run, to.subrange(o2, to.len() as int));
        lemma_shown_texts_concat(new_run, tn.subrange(n2, tn.len() as int));
        assert(token_texts(ao) + shown_texts(old_run) + shown_texts(to.subrange(o2, to.len() as int))
            =~= token_texts(ao) + (shown_texts(old_run) + shown_texts(to.subrange(o2, to.len() as int))));
        assert(token_texts(an) + shown_texts(new_run) + shown_texts(tn.subrange(n2, tn.len() as int))
            =~= token_texts(an) + (shown_texts(new_run) + shown_texts(tn.subrange(n2, tn.len() as int))));
    }
}


/// The texts of a sequence of string slices.
pub open spec fn strs_view(s: Seq<&str>) -> Seq<Seq<char>> {
    s.map_values(|t: &str| t@)
}

/// The line drawn for a `\ No newline at end of file` marker line.
pub open spec fn no_eof_line(marker: Seq<char>) -> Seq<char> {
    NO_EOF_NEWLINE_COLOR@ + marker + NORMAL@
}

/// Splits text into lines. If the text doesn't end in a newline, a no-newline
/// marker line follows.
pub open spec fn to_lines_spec(text: Seq<char>, marker: Seq<char>) -> Seq<Seq<char>> {
    lines(text) + if text.len() > 0 && !ends_with_newline(text) {
        seq![no_eof_line(marker)]
    } else {
        seq![]
    }
}

fn no_eof_newline_line(marker: &str) -> (r: String)
    ensures
        r@ == no_eof_line(marker@),
{
    let mut line = String::new();
    push_str(&mut line, NO_EOF_NEWLINE_COLOR);
    push_str(&mut line, marker);
    push_str(&mut line, NORMAL);
    line
}

/// Strings made of character vectors.
fn strings_of(v: &Vec<Vec<char>>) -> (r: Vec<String>)
    ensures
        strings_view(r@) == vecs_view(v@),
{
    let mut r: Vec<String> = Vec::new();
    let mut i: usize = 0;
    while i < v.len()
        invariant
            i <= v.len(),
            strings_view(r@) == vecs_view(v@).take(i as int),
        decreases v.len() - i,
    {
        let ghost before = r@;
        r.push(string_of_chars(&v[i]));
        assert(strings_view(r@) =~= strings_view(before).push(v@[i as int]@));
        assert(vecs_view(v@).take(i + 1) =~= vecs_view(v@).take(i as int).push(v@[i as int]@));
        i = i + 1;
    }
    assert(vecs_view(v@).take(v.len() as int) =~= vecs_view(v@));
    r
}

/// Splits text into lines. If the text doesn't end in a newline, a no-newline
/// marker will be added at the end.
///
/// `no_eof_newline_marker` is the `\ No newline at end of file` text, as the
/// diff being highlighted phrases it.
pub fn to_lines(text: &str, no_eof_newline_marker: &str) -> (r: Vec<String>)
    ensures
        strings_view(r@) == to_lines_spec(text@, no_eof_newline_marker@),
{
    let chars = chars_of(text);
    let split = lines_of(&chars);
    let mut lines = strings_of(&split);
    if chars.len() > 0 && chars[chars.len() - 1] != '\n' {
        let ghost before = lines@;
        lines.push(no_eof_newline_line(no_eof_newline_marker));
        assert(strings_view(lines@) =~= strings_view(before).push(no_eof_line(no_eof_newline_marker@)));
    } else {
        assert(strings_view(lines@) =~= strings_view(lines@) + Seq::<Seq<char>>::empty());
    }
    return lines;
}

/// The old and new line styles of a formatter.
pub struct FormatterView {
    pub line_style_old: LineStyleView,
    pub line_style_new: LineStyleView,
}

/// Draws old and new texts as lines of a diff.
#[derive(Debug, Clone, PartialEq)]
pub struct Formatter {
    pub line_style_old: LineStyle,
    pub line_style_new: LineStyle,
}

impl View for Formatter {
    type V = FormatterView;

    open spec fn view(&self) -> FormatterView {
        FormatterView { line_style_old: self.line_style_old@, line_style_new: self.line_style_new@ }
    }
}

/// A line style with prefix and changes in `c`, unchanged parts in `unchanged`.
pub open spec fn diff_line_style(c: Color, unchanged: Color) -> LineStyleView {
    LineStyleView {
        prefix_style: crate::token_collector::with_color(crate::ansi::normal_style(), c),
        unchanged_style: crate::token_collector::with_color(crate::ansi::normal_style(), unchanged),
        midlighted_style: crate::token_collector::with_color(crate::ansi::normal_style(), c),
        highlighted_style: crate::token_collector::with_inverse(
            crate::token_collector::with_color(crate::ansi::normal_style(), c),
        ),
    }
}

fn diff_style(c: Color, unchanged: Color) -> (r: LineStyle)
    ensures
        r@ == diff_line_style(c, unchanged),
{
    LineStyle {
        prefix_style: ansi_style_normal().with_color(c),
        unchanged_style: ansi_style_normal().with_color(unchanged),
        midlighted_style: ansi_style_normal().with_color(c),
        highlighted_style: ansi_style_normal().with_color(c).with_inverse(true),
    }
}

/// One line of a text drawn without refinement.
pub open spec fn simple_row(ls: LineStyleView, prefix: Seq<char>, line: Seq<char>) -> Seq<char> {
    render_row_spec(
        ls,
        prefix,
        seq![TokenView { token: shown_text(line), style: Style::DiffPartMidlighted, url: None }],
        false,
    )
}

/// The rows of the lines `ll`, the last one with the missing newline mark
/// if `draw_missing` holds.
pub open spec fn simple_rows(ls: LineStyleView, prefix: Seq<char>, ll: Seq<Seq<char>>, draw_missing: bool) -> Seq<Seq<char>> {
    Seq::new(
        ll.len(),
        |pos: int|
            if pos == ll.len() - 1 && draw_missing {
                simple_row(ls, prefix, ll[pos]) + missing_newline_mark()
            } else {
                simple_row(ls, prefix, ll[pos])
            },
    )
}

/// The drawn-in red inverse newline symbol that marks an added text without a
/// trailing newline.
pub open spec fn missing_newline_mark() -> Seq<char> {
    OLD@ + INVERSE_VIDEO@ + newline_marker() + NORMAL@
}

/// The lines of one text drawn without refinement: `+` texts in the new
/// style, others in the old; a `+` text without trailing newline gets the
/// missing newline mark on its last line, and any text without trailing
/// newline is followed by the no-newline marker line.
pub open spec fn format_simple_text(f: FormatterView, prefix: Seq<char>, text: Seq<char>, marker: Seq<
    char,
>) -> Seq<Seq<char>> {
    let ls = if prefix.contains('+') {
        f.line_style_new
    } else {
        f.line_style_old
    };
    let draw_missing_trailing_newline = prefix.contains('+') && !ends_with_newline(text);
    simple_rows(ls, prefix, lines(text), draw_missing_trailing_newline) + if !ends_with_newline(
        text,
    ) {
        seq![no_eof_line(marker)]
    } else {
        seq![]
    }
}

/// The lines of the first `n` prefixed texts drawn without refinement.
pub open spec fn format_simple_upto(
    f: FormatterView,
    prefixes: Seq<Seq<char>>,
    texts: Seq<Seq<char>>,
    marker: Seq<char>,
    n: int,
) -> Seq<Seq<char>>
    decreases n,
{
    if n <= 0 {
        seq![]
    } else {
        format_simple_upto(f, prefixes, texts, marker, n - 1) + format_simple_text(
            f,
            prefixes[n - 1],
            texts[n - 1],
            marker,
        )
    }
}

pub open spec fn min_len(a: int, b: int) -> int {
    if a < b {
        a
    } else {
        b
    }
}

/// All prefixed texts (as many as there are both prefixes and texts) drawn
/// without refinement.
pub open spec fn format_simple_spec(
    f: FormatterView,
    prefixes: Seq<Seq<char>>,
    texts: Seq<Seq<char>>,
    marker: Seq<char>,
) -> Seq<Seq<char>> {
    format_simple_upto(f, prefixes, texts, marker, min_len(prefixes.len() as int, texts.len() as int))
}

/// Every text that gets a prefix is non-empty.
pub open spec fn prefixed_texts_nonempty(prefixes: Seq<Seq<char>>, texts: Seq<Seq<char>>) -> bool {
    forall|i: int| 0 <= i < min_len(prefixes.len() as int, texts.len() as int) ==> (#[trigger] texts[i]).len() > 0
}

/// A non-empty text has at least one line.
proof fn lemma_lines_nonempty(s: Seq<char>)
    requires
        s.len() > 0,
    ensures
        lines(s).len() >= 1,
{
    crate::text::lemma_split_char(s, '\n');
    let pieces = crate::text::split_char(s, '\n');
    if ends_with_newline(s) && pieces.len() == 1 {
        crate::text::lemma_first_index_found(s, '\n');
        assert(s.contains('\n'));
        match crate::text::first_index(s, '\n') {
            Some(k) => {
                assert(pieces == seq![s.take(k)] + crate::text::split_char(s.skip(k + 1), '\n'));
                crate::text::lemma_split_char(s.skip(k + 1), '\n');
            },
            None => {},
        }
    }
}

/// The total length in bytes (UTF-8) of some texts.
pub open spec fn total_bytes(texts: Seq<Seq<char>>) -> int
    decreases texts.len(),
{
    if texts.len() == 0 {
        0
    } else {
        total_bytes(texts.drop_last()) + encode_utf8(texts.last()).len()
    }
}

/// Texts too large for the quadratic refinement (over 13 000 squared bytes).
pub open spec fn too_large_spec(texts: Seq<Seq<char>>) -> bool {
    total_bytes(texts) > 13_000 * 13_000
}

/// Whether `format` refines: at least two texts, one of them added, and not
/// too large.
pub open spec fn refines(prefixes: Seq<Seq<char>>, texts: Seq<Seq<char>>) -> bool {
    &&& prefixes.len() >= 2
    &&& exists|i: int| 0 <= i < prefixes.len() && (#[trigger] prefixes[i]).contains('+')
    &&& !too_large_spec(texts)
}

/// `acc` with each token's style raised to that of the token at the same
/// place in `other` where that one is more prominent.
pub open spec fn merge_styles(acc: Seq<TokenView>, other: Seq<TokenView>) -> Seq<TokenView> {
    Seq::new(
        acc.len(),
        |j: int|
            if j < other.len() && style_rank(other[j].style) > style_rank(acc[j].style) {
                TokenView { style: other[j].style, ..acc[j] }
            } else {
                acc[j]
            },
    )
}

/// The new tokens after comparing the new text with the first `n` old texts:
/// the first non-empty result, with the more prominent styles of the later
/// comparisons merged in.
pub open spec fn merged_new_tokens(olds: Seq<Seq<char>>, new_text: Seq<char>, n: int) -> Seq<
    TokenView,
>
    decreases n,
{
    if n <= 0 {
        seq![]
    } else {
        let acc = merged_new_tokens(olds, new_text, n - 1);
        let internal = highlighted_tokens(olds[n - 1], new_text).1;
        if acc.len() == 0 {
            internal
        } else {
            merge_styles(acc, internal)
        }
    }
}

/// Tokens styled as parts of a diff: unchanged, midlighted or highlighted.
pub open spec fn diff_part_styled(ts: Seq<TokenView>) -> bool {
    forall|k: int| 0 <= k < ts.len() ==> 3 <= #[trigger] style_rank(ts[k].style) <= 5
}

proof fn lemma_styled_diff_part(acc: Seq<TokenView>, run: Seq<Seq<char>>, style: Style)
    requires
        diff_part_styled(acc),
        3 <= style_rank(style) <= 5,
    ensures
        diff_part_styled(acc + styled(run, style)),
{
    let t = acc + styled(run, style);
    assert forall|k: int| 0 <= k < t.len() implies 3 <= #[trigger] style_rank(t[k].style) <= 5 by {
        if k < acc.len() {
            assert(t[k] == acc[k]);
        } else {
            assert(t[k] == styled(run, style)[k - acc.len()]);
        }
    }
}

proof fn lemma_apply_ops_diff_part(
    ops: Seq<DiffOp>,
    to: Seq<Seq<char>>,
    tn: Seq<Seq<char>>,
    acc: (Seq<TokenView>, Seq<TokenView>),
)
    requires
        diff_part_styled(acc.0),
        diff_part_styled(acc.1),
    ensures
        diff_part_styled(apply_ops(ops, to, tn, acc).0),
        diff_part_styled(apply_ops(ops, to, tn, acc).1),
    decreases ops.len(),
{
    if ops.len() > 0 {
        let (acc_old, acc_new) = acc;
        match ops[0] {
            DiffOp::Equal { old_index, new_index, len } => {
                lemma_styled_diff_part(acc_old, to.subrange(old_index as int, old_index + len), Style::DiffPartUnchanged);
                lemma_styled_diff_part(acc_new, tn.subrange(new_index as int, new_index + len), Style::DiffPartUnchanged);
            },
            DiffOp::Insert { new_index, new_len, .. } => {
                let run = tn.subrange(new_index as int, new_index + new_len);
                lemma_styled_diff_part(acc_new, run, change_style(should_highlight_change_spec(run, !at_start_of_line(acc_new))));
            },
            DiffOp::Delete { old_index, old_len, .. } => {
                let run = to.subrange(old_index as int, old_index + old_len);
                lemma_styled_diff_part(acc_old, run, change_style(should_highlight_change_spec(run, !at_start_of_line(acc_old))));
            },
            DiffOp::Replace { old_index, old_len, new_index, new_len } => {
                let old_run = to.subrange(old_index as int, old_index + old_len);
                let new_run = tn.subrange(new_index as int, new_index + new_len);
                let style = change_style(
                    should_highlight_change_spec(old_run, false) && should_highlight_change_spec(
                        new_run,
                        false,
                    ) && !is_whitespace_replacement_spec(old_run, new_run),
                );
                lemma_styled_diff_part(acc_old, old_run, style);
                lemma_styled_diff_part(acc_new, new_run, style);
            },
        }
        lemma_apply_ops_diff_part(ops.skip(1), to, tn, apply_op(ops[0], to, tn, acc));
    }
}

/// Refinement styles every token as unchanged, midlighted or highlighted.
pub proof fn lemma_highlighted_diff_part(old_text: Seq<char>, new_text: Seq<char>)
    ensures
        diff_part_styled(highlighted_tokens(old_text, new_text).0),
        diff_part_styled(highlighted_tokens(old_text, new_text).1),
{
    let (to, tn) = marked_tokens(old_text, new_text);
    lemma_apply_ops_diff_part(patience_diff(to, tn), to, tn, (seq![], seq![]));
}

/// The new tokens of a refined format with several old texts: each token is
/// at least as prominent as it came out of the comparison with every single
/// old text (so a token highlighted against any old text is highlighted),
/// and there are none only where no comparison gave any.
pub proof fn lemma_merged_most_prominent(olds: Seq<Seq<char>>, new_text: Seq<char>, n: int)
    requires
        0 <= n <= olds.len(),
    ensures
        forall|i: int, j: int|
            0 <= i < n && 0 <= j < merged_new_tokens(olds, new_text, n).len() && j < highlighted_tokens(
                olds[i],
                new_text,
            ).1.len() ==> style_rank((#[trigger] merged_new_tokens(olds, new_text, n)[j]).style)
                >= style_rank((#[trigger] highlighted_tokens(olds[i], new_text).1[j]).style),
        forall|i: int, j: int|
            0 <= i < n && 0 <= j < merged_new_tokens(olds, new_text, n).len() && j < highlighted_tokens(
                olds[i],
                new_text,
            ).1.len() && (#[trigger] highlighted_tokens(olds[i], new_text).1[j]).style
                == Style::DiffPartHighlighted ==> (#[trigger] merged_new_tokens(olds, new_text, n)[j]).style
                == Style::DiffPartHighlighted,
        diff_part_styled(merged_new_tokens(olds, new_text, n)),
        merged_new_tokens(olds, new_text, n).len() == 0 ==> forall|i: int|
            0 <= i < n ==> (#[trigger] highlighted_tokens(olds[i], new_text).1).len() == 0,
    decreases n,
{
    if n > 0 {
        lemma_merged_most_prominent(olds, new_text, n - 1);
        let acc = merged_new_tokens(olds, new_text, n - 1);
        let internal = highlighted_tokens(olds[n - 1], new_text).1;
        let m = merged_new_tokens(olds, new_text, n);
        lemma_highlighted_diff_part(olds[n - 1], new_text);
        if acc.len() > 0 {
            assert(m == merge_styles(acc, internal));
            assert forall|j: int| 0 <= j < m.len() implies style_rank((#[trigger] m[j]).style) >= style_rank(
                acc[j].style,
            ) && (j < internal.len() ==> style_rank(m[j].style) >= style_rank(internal[j].style)) by {}
        }
        assert forall|i: int, j: int|
            0 <= i < n && 0 <= j < m.len() && j < highlighted_tokens(olds[i], new_text).1.len()
            implies style_rank((#[trigger] m[j]).style) >= style_rank(
            (#[trigger] highlighted_tokens(olds[i], new_text).1[j]).style,
        ) by {
            if i < n - 1 && acc.len() > 0 {
                assert(style_rank(acc[j].style) >= style_rank(highlighted_tokens(olds[i], new_text).1[j].style));
            }
        }
    }
}

/// The lines of the first `n` old texts, each refined against the new text.
pub open spec fn old_lines_upto(
    f: FormatterView,
    old_prefixes: Seq<Seq<char>>,
    olds: Seq<Seq<char>>,
    new_text: Seq<char>,
    marker: Seq<char>,
    n: int,
) -> Seq<Seq<char>>
    decreases n,
{
    if n <= 0 {
        seq![]
    } else {
        old_lines_upto(f, old_prefixes, olds, new_text, marker, n - 1) + to_lines_spec(
            render_spec(f.line_style_old, old_prefixes[n - 1], highlighted_tokens(olds[n - 1], new_text).0),
            marker,
        )
    }
}

/// What `format` draws: without refinement when `refines` does not hold;
/// otherwise each old text refined against the last (new) text, then the new
/// text with the most prominent style each of its tokens got.
pub open spec fn format_spec(f: FormatterView, prefixes: Seq<Seq<char>>, texts: Seq<Seq<char>>, marker: Seq<char>) -> Seq<
    Seq<char>,
> {
    let tv = texts;
    if !refines(prefixes, texts) {
        format_simple_spec(f, prefixes, tv, marker)
    } else {
        let olds = tv.drop_last();
        let old_prefixes = prefixes.drop_last();
        let new_text = tv.last();
        old_lines_upto(f, old_prefixes, olds, new_text, marker, min_len(old_prefixes.len() as int, olds.len() as int))
            + to_lines_spec(
            render_spec(f.line_style_new, prefixes.last(), merged_new_tokens(olds, new_text, olds.len() as int)),
            marker,
        )
    }
}

fn any_contains_plus(prefixes: &[&str]) -> (r: bool)
    ensures
        r == exists|i: int| 0 <= i < strs_view(prefixes@).len() && (#[trigger] strs_view(prefixes@)[i]).contains('+'),
{
    let ghost pv = strs_view(prefixes@);
    let mut i: usize = 0;
    while i < prefixes.len()
        invariant
            i <= prefixes@.len(),
            pv == strs_view(prefixes@),
            forall|j: int| 0 <= j < i ==> !(#[trigger] pv[j]).contains('+'),
        decreases prefixes.len() - i,
    {
        if str_contains_char(prefixes[i], '+') {
            assert(pv[i as int].contains('+'));
            return true;
        }
        i = i + 1;
    }
    false
}

impl Formatter {
    /// Old lines red, new lines green, unchanged parts in the same colors.
    pub fn default() -> (r: Formatter)
        ensures
            r@ == (FormatterView {
                line_style_old: diff_line_style(Color::Red, Color::Red),
                line_style_new: diff_line_style(Color::Green, Color::Green),
            }),
    {
        Formatter {
            line_style_old: diff_style(Color::Red, Color::Red),
            line_style_new: diff_style(Color::Green, Color::Green),
        }
    }

    /// Old lines red, new lines green, unchanged parts yellow.
    pub fn yellow() -> (r: Formatter)
        ensures
            r@ == (FormatterView {
                line_style_old: diff_line_style(Color::Red, Color::Yellow),
                line_style_new: diff_line_style(Color::Green, Color::Yellow),
            }),
    {
        Formatter {
            line_style_old: diff_style(Color::Red, Color::Yellow),
            line_style_new: diff_style(Color::Green, Color::Yellow),
        }
    }

    /// A copy of this formatter.
    pub fn duplicate(&self) -> (r: Formatter)
        ensures
            r@ == self@,
    {
        Formatter {
            line_style_old: self.line_style_old.duplicate(),
            line_style_new: self.line_style_new.duplicate(),
        }
    }

    fn format_simple_one(&self, prefix: &str, prefix_text: &str, no_eof_newline_marker: &str, lines_out: &mut Vec<String>)
        requires
            prefix_text@.len() > 0,
        ensures
            strings_view(final(lines_out)@) == strings_view(old(lines_out)@) + format_simple_text(
                self@,
                prefix@,
                prefix_text@,
                no_eof_newline_marker@,
            ),
    {
        let ghost start = lines_out@;
        let is_new = str_contains_char(prefix, '+');
        let line_style = if is_new {
            &self.line_style_new
        } else {
            &self.line_style_old
        };
        let ends_newline = str_ends_with_char(prefix_text, '\n');

        // If the user adds a section with a missing trailing newline, we want
        // to draw a highlighted-in-red newline symbol at the end of the last
        // line.
        let draw_missing_trailing_newline = is_new && !ends_newline;

        let text_chars = chars_of(prefix_text);
        let text_lines = lines_of(&text_chars);
        proof {
            lemma_lines_nonempty(prefix_text@);
        }
        let last_pos = text_lines.len() - 1;
        let ghost ll = lines(prefix_text@);
        let ghost ls = if prefix@.contains('+') {
            self@.line_style_new
        } else {
            self@.line_style_old
        };
        let ghost rows = simple_rows(ls, prefix@, ll, draw_missing_trailing_newline);
        let mut pos: usize = 0;
        while pos < text_lines.len()
            invariant
                pos <= text_lines.len(),
                last_pos == text_lines.len() - 1,
                vecs_view(text_lines@) == ll,
                line_style@ == ls,
                rows == simple_rows(ls, prefix@, ll, draw_missing_trailing_newline),
                strings_view(lines_out@) == strings_view(start) + rows.take(pos as int),
            decreases text_lines.len() - pos,
        {
            let line = string_of_chars(&text_lines[pos]);
            let mut row = Vec::new();
            row.push(StyledToken::new(line, Style::DiffPartMidlighted));
            let ghost rv = tokens_view(row@);
            assert(rv =~= seq![TokenView { token: shown_text(ll[pos as int]), style: Style::DiffPartMidlighted, url: None }]);
            let mut to_push = render_row(line_style, prefix, row.as_slice(), false);
            if pos == last_pos && draw_missing_trailing_newline {
                push_str(&mut to_push, OLD);
                push_str(&mut to_push, INVERSE_VIDEO);
                crate::text::push_char(&mut to_push, '\u{23ce}');
                push_str(&mut to_push, NORMAL);
            }
            assert(text_lines@[pos as int]@ == ll[pos as int]);
            assert(to_push@ =~= rows[pos as int]);
            let ghost before = lines_out@;
            lines_out.push(to_push);
            assert(strings_view(lines_out@) =~= strings_view(before).push(rows[pos as int]));
            assert(rows.take(pos + 1) =~= rows.take(pos as int).push(rows[pos as int]));
            pos = pos + 1;
        }
        assert(rows.take(ll.len() as int) =~= rows);
        if !ends_newline {
            let ghost before = lines_out@;
            lines_out.push(no_eof_newline_line(no_eof_newline_marker));
            assert(strings_view(lines_out@) =~= strings_view(before).push(no_eof_line(no_eof_newline_marker@)));
        }
        assert(strings_view(lines_out@) =~= strings_view(start) + format_simple_text(
            self@,
            prefix@,
            prefix_text@,
            no_eof_newline_marker@,
        ));
    }

    /// Format old and new lines in OLD and NEW colors.
    ///
    /// No intra-line refinement.
    pub fn format_simple(&self, prefixes: &[&str], prefix_texts: &[&str], no_eof_newline_marker: &str) -> (r: Vec<String>)
        requires
            prefixed_texts_nonempty(strs_view(prefixes@), strs_view(prefix_texts@)),
        ensures
            strings_view(r@) == format_simple_spec(
                self@,
                strs_view(prefixes@),
                strs_view(prefix_texts@),
                no_eof_newline_marker@,
            ),
    {
        let mut lines: Vec<String> = Vec::new();
        let n = if prefixes.len() < prefix_texts.len() {
            prefixes.len()
        } else {
            prefix_texts.len()
        };
        let ghost pv = strs_view(prefixes@);
        let ghost tv = strs_view(prefix_texts@);
        let mut i: usize = 0;
        assert(strings_view(lines@) =~= Seq::<Seq<char>>::empty());
        while i < n
            invariant
                i <= n,
                n == min_len(prefixes@.len() as int, prefix_texts@.len() as int),
                pv == strs_view(prefixes@),
                tv == strs_view(prefix_texts@),
                prefixed_texts_nonempty(pv, tv),
                strings_view(lines@) == format_simple_upto(self@, pv, tv, no_eof_newline_marker@, i as int),
            decreases n - i,
        {
            assert(i < prefix_texts@.len());
            assert(tv.len() == prefix_texts@.len());
            assert(tv[i as int] == prefix_texts@[i as int]@);
            assert(tv[i as int].len() > 0);
            self.format_simple_one(prefixes[i], prefix_texts[i], no_eof_newline_marker, &mut lines);
            i = i + 1;
        }
        return lines;
    }

    /// LCS is O(m * n) complexity. If it gets too complex, refining will take too
    /// much time and memory, so we shouldn't.
    fn too_large_to_refine(texts: &[&str]) -> (r: bool)
        requires
            total_bytes(strs_view(texts@)) <= usize::MAX,
        ensures
            r == too_large_spec(strs_view(texts@)),
    {
        let mut size: usize = 0;
        let mut i: usize = 0;
        while i < texts.len()
            invariant
                i <= texts@.len(),
                total_bytes(strs_view(texts@)) <= usize::MAX,
                size == total_bytes(strs_view(texts@).take(i as int)),
            decreases texts.len() - i,
        {
            proof {
                assert(strs_view(texts@).take(i + 1).drop_last() =~= strs_view(texts@).take(i as int));
                lemma_total_bytes_prefix(strs_view(texts@), i + 1);
            }
            size = size + texts[i].len();
            i = i + 1;
        }
        assert(strs_view(texts@).take(texts@.len() as int) =~= strs_view(texts@));
        // Around this point refining starts taking near one second on Johan's
        // laptop. Numbers have been invented through experimentation.
        return size > 13_000usize * 13_000usize;
    }

    /// Returns a vector of ANSI highlighted lines.
    ///
    /// `prefix_texts` are multi line strings. Having or not having trailing
    /// newlines will affect tokenization. The lines are not expected to have any
    /// prefixes like `+` or `-`.
    ///
    /// `prefixes` are the prefixes to use for each `prefix_texts` text.
    pub fn format(&self, prefixes: &[&str], prefix_texts: &[&str], no_eof_newline_marker: &str) -> (r: Vec<String>)
        requires
            prefixes@.len() >= 2 ==> total_bytes(strs_view(prefix_texts@)) <= usize::MAX,
            !refines(strs_view(prefixes@), strs_view(prefix_texts@)) ==> prefixed_texts_nonempty(
                strs_view(prefixes@),
                strs_view(prefix_texts@),
            ),
            refines(strs_view(prefixes@), strs_view(prefix_texts@)) ==> prefix_texts@.len() >= 1,
        ensures
            strings_view(r@) == format_spec(self@, strs_view(prefixes@), strs_view(prefix_texts@), no_eof_newline_marker@),
            // Every line of every text comes out as one line, and every text
            // without a trailing newline is followed by one marker line
            keeps_lines_premise(self@, strs_view(prefixes@), strs_view(prefix_texts@)) ==> r@.len()
                == drawn_lines_upto(strs_view(prefix_texts@), prefix_texts@.len() as int),
            // Only colors are added: stripped of them, each line is its
            // text's prefix followed by the text's line
            shows_lines_premise(self@, strs_view(prefixes@), strs_view(prefix_texts@)) ==> strings_view(
                r@,
            ).map_values(|l: Seq<char>| shown_chars(l)) == prefixed_lines_upto(
                strs_view(prefixes@),
                strs_view(prefix_texts@),
                prefix_texts@.len() as int,
            ),
    {
        let ghost pv = strs_view(prefixes@);
        let ghost tv = strs_view(prefix_texts@);
        if prefixes.len() < 2 || !any_contains_plus(prefixes) || Formatter::too_large_to_refine(prefix_texts) {
            // Nothing to compare, or nothing added, or too much to compare:
            // we can't highlight anything
            let r = self.format_simple(prefixes, prefix_texts, no_eof_newline_marker);
            proof {
                if keeps_lines_premise(self@, pv, tv) {
                    lemma_format_keeps_lines(self@, pv, tv, no_eof_newline_marker@);
                }
                if shows_lines_premise(self@, pv, tv) {
                    lemma_format_shows_lines(self@, pv, tv, no_eof_newline_marker@);
                }
            }
            return r;
        }

        // This is what all old texts will be compared against
        let new_text = prefix_texts[prefix_texts.len() - 1];
        let new_prefix = prefixes[prefixes.len() - 1];

        // These are all except for the last element
        let old_prefixes = slice_subrange(prefixes, 0, prefixes.len() - 1);
        let old_prefix_texts = slice_subrange(prefix_texts, 0, prefix_texts.len() - 1);
        let ghost olds = tv.drop_last();
        assert(strs_view(old_prefix_texts@) =~= olds);
        assert(strs_view(old_prefixes@) =~= pv.drop_last());
        assert(new_text@ == tv.last());

        let mut old_tokens: Vec<Vec<StyledToken>> = Vec::new();
        let mut new_tokens: Vec<StyledToken> = Vec::new();
        let mut k: usize = 0;
        while k < old_prefix_texts.len()
            invariant
                k <= old_prefix_texts@.len(),
                olds == strs_view(old_prefix_texts@),
                new_text@ == tv.last(),
                old_tokens@.len() == k,
                forall|j: int| 0 <= j < k ==> tokens_view(#[trigger] old_tokens@[j]@) == highlighted_tokens(olds[j], tv.last()).0,
                forall|j: int| 0 <= j < k ==> refinement_keeps_tokens(#[trigger] olds[j], tv.last()),
                tokens_view(new_tokens@) == merged_new_tokens(olds, tv.last(), k as int),
            decreases old_prefix_texts.len() - k,
        {
            let (old_tokens_internal, new_tokens_internal) = to_highlighted_tokens(old_prefix_texts[k], new_text);
            assert(old_prefix_texts@[k as int]@ == olds[k as int]);
            old_tokens.push(old_tokens_internal);
            if new_tokens.len() == 0 {
                // First iteration, just remember the new tokens
                new_tokens = new_tokens_internal;
            } else {
                // Subsequent iterations, merge the new token styles
                let ghost acc = tokens_view(new_tokens@);
                let ghost other = tokens_view(new_tokens_internal@);
                let mut j: usize = 0;
                while j < new_tokens.len() && j < new_tokens_internal.len()
                    invariant
                        j <= new_tokens@.len(),
                        new_tokens@.len() == acc.len(),
                        other == tokens_view(new_tokens_internal@),
                        forall|m: int| 0 <= m < j ==> (#[trigger] tokens_view(new_tokens@)[m]) == merge_styles(acc, other)[m],
                        forall|m: int| j <= m < acc.len() ==> (#[trigger] tokens_view(new_tokens@)[m]) == acc[m],
                    decreases new_tokens.len() - j,
                {
                    let internal_style = new_tokens_internal[j].style;
                    let ghost before = new_tokens@;
                    assert(tokens_view(before)[j as int] == acc[j as int]);
                    assert(other[j as int].style == internal_style);
                    if crate::token_collector::rank(internal_style) > crate::token_collector::rank(new_tokens[j].style) {
                        let mut token = new_tokens[j].duplicate();
                        token.style = internal_style;
                        new_tokens.set(j, token);
                        assert(tokens_view(new_tokens@)[j as int] == merge_styles(acc, other)[j as int]);
                    } else {
                        assert(tokens_view(new_tokens@)[j as int] == merge_styles(acc, other)[j as int]);
                    }
                    assert forall|m: int| 0 <= m < new_tokens@.len() && m != j implies #[trigger] tokens_view(new_tokens@)[m] == tokens_view(before)[m] by {}
                    j = j + 1;
                }
                assert(tokens_view(new_tokens@) =~= merge_styles(acc, other));
            }
            k = k + 1;
        }

        // Now turn all our token vectors (all vectors in old_tokens plus
        // new_tokens) into lines of highlighted text

        // First render() into strings, then to_lines() into lines
        let mut highlighted_lines: Vec<String> = Vec::new();
        let n = if old_prefixes.len() < old_tokens.len() {
            old_prefixes.len()
        } else {
            old_tokens.len()
        };
        let ghost opv = pv.drop_last();
        let mut m: usize = 0;
        assert(strings_view(highlighted_lines@) =~= Seq::<Seq<char>>::empty());
        while m < n
            invariant
                m <= n,
                n <= old_prefixes@.len(),
                n <= old_tokens@.len(),
                old_tokens@.len() == olds.len(),
                opv == strs_view(old_prefixes@),
                forall|j: int| 0 <= j < old_tokens@.len() ==> tokens_view(#[trigger] old_tokens@[j]@) == highlighted_tokens(olds[j], tv.last()).0,
                strings_view(highlighted_lines@) == old_lines_upto(self@, opv, olds, tv.last(), no_eof_newline_marker@, m as int),
            decreases n - m,
        {
            let text = render(&self.line_style_old, old_prefixes[m], old_tokens[m].as_slice());
            let lines = to_lines(text.as_str(), no_eof_newline_marker);
            let ghost before = highlighted_lines@;
            let mut q: usize = 0;
            while q < lines.len()
                invariant
                    q <= lines@.len(),
                    strings_view(highlighted_lines@) == strings_view(before) + strings_view(lines@).take(q as int),
                decreases lines.len() - q,
            {
                let ghost b = highlighted_lines@;
                highlighted_lines.push(lines[q].clone());
                assert(strings_view(highlighted_lines@) =~= strings_view(b).push(lines@[q as int]@));
                assert(strings_view(lines@).take(q + 1) =~= strings_view(lines@).take(q as int).push(lines@[q as int]@));
                q = q + 1;
            }
            assert(strings_view(lines@).take(lines@.len() as int) =~= strings_view(lines@));
            m = m + 1;
        }
        let new_rendered = render(&self.line_style_new, new_prefix, new_tokens.as_slice());
        let lines = to_lines(new_rendered.as_str(), no_eof_newline_marker);
        let ghost before = highlighted_lines@;
        let mut q: usize = 0;
        while q < lines.len()
            invariant
                q <= lines@.len(),
                strings_view(highlighted_lines@) == strings_view(before) + strings_view(lines@).take(q as int),
            decreases lines.len() - q,
        {
            let ghost b = highlighted_lines@;
            highlighted_lines.push(lines[q].clone());
            assert(strings_view(highlighted_lines@) =~= strings_view(b).push(lines@[q as int]@));
            assert(strings_view(lines@).take(q + 1) =~= strings_view(lines@).take(q as int).push(lines@[q as int]@));
            q = q + 1;
        }
        assert(strings_view(lines@).take(lines@.len() as int) =~= strings_view(lines@));
        assert(pv.last() == new_prefix@);
        proof {
            if keeps_lines_premise(self@, pv, tv) {
                assert forall|i: int| 0 <= i < tv.len() - 1 implies refinement_keeps_tokens(
                    #[trigger] tv[i],
                    tv.last(),
                ) by {
                    assert(olds[i] == tv[i]);
                }
                lemma_format_keeps_lines(self@, pv, tv, no_eof_newline_marker@);
            }
            if shows_lines_premise(self@, pv, tv) {
                assert forall|i: int| 0 <= i < tv.len() - 1 implies refinement_keeps_tokens(
                    #[trigger] tv[i],
                    tv.last(),
                ) by {
                    assert(olds[i] == tv[i]);
                }
                lemma_format_shows_lines(self@, pv, tv, no_eof_newline_marker@);
            }
        }
        return highlighted_lines;
    }
}


proof fn lemma_total_bytes_prefix(texts: Seq<Seq<char>>, i: int)
    requires
        0 <= i <= texts.len(),
    ensures
        total_bytes(texts.take(i)) <= total_bytes(texts),
    decreases texts.len() - i,
{
    if i < texts.len() {
        lemma_total_bytes_prefix(texts, i + 1);
        assert(texts.take(i + 1).drop_last() == texts.take(i));
    } else {
        assert(texts.take(i) == texts);
    }
}

} // verus!
