//! Formatting keeps the lines: every line of a changed text comes out as one
//! line, and a text without a trailing newline gets its marker line back.
//! Tools that feed a diff through this one and then apply it (`git add -p`
//! with an `interactive.diffFilter`) depend on that. Stripped of its colors,
//! each drawn line is the prefix of its text followed by the text's line.

use vstd::prelude::*;

use crate::refiner::{
    ends_with_newline, simple_row, simple_rows, format_simple_text, format_simple_upto, format_spec, highlighted_tokens,
    marked_tokens, merge_styles, merged_new_tokens, min_len, newline_marker, old_lines_upto,
    refines, shown_texts, styled, to_lines_spec, apply_op, apply_ops, at_start_of_line,
    change_style, is_whitespace_replacement_spec, should_highlight_change_spec, DiffOp,
    FormatterView,
};
use crate::ansi::{
    color_code, hyperlink_code, inverse_code, normal_style, style_transition, weight_code, StyleView,
    Weight,
};
use crate::constants::{BOLD, FAINT, NORMAL, NORMAL_INTENSITY};
use crate::terminal::{lemma_shown_plain, lemma_shown_transition, shown_chars};
use crate::text::{
    count_char, first_index, lemma_first_index, lemma_flatten_newlines, lemma_lines_len,
    lemma_newline_tokens_skip, lemma_no_char_concat, lemma_split_char, lines, newline_tokens,
    split_char, strip_cr,
};
use crate::token_collector::{
    first_newline, is_newline_token, lemma_first_newline_props, lemma_render_newlines,
    lemma_row_without_newline, line_style_without_newline, render_multiprefix_spec,
    render_row_spec, render_spec, row_count,
    tokens_line_safe,
    row_tokens_text, shown_text, token_style, token_texts, LineStyleView, Style, TokenView,
};
use crate::tokenizer::{lemma_newline_tokens, lemma_tokenize_lossless, tokenize_spec};

verus! {

/// How many lines a text is drawn as: its lines, and the no-newline marker
/// line when it does not end with a newline.
pub open spec fn drawn_line_count(text: Seq<char>) -> int {
    lines(text).len() + if ends_with_newline(text) {
        0int
    } else {
        1int
    }
}

/// How many lines the first `n` texts are drawn as.
pub open spec fn drawn_lines_upto(texts: Seq<Seq<char>>, n: int) -> int
    decreases n,
{
    if n <= 0 {
        0
    } else {
        drawn_lines_upto(texts, n - 1) + drawn_line_count(texts[n - 1])
    }
}

/// What the line count law asks of the arguments of `format`: a prefix for
/// each text, no empty text, no newline in a prefix, and no newline in a URL
/// of the formatter's styles.
pub open spec fn keeps_lines_premise(f: FormatterView, prefixes: Seq<Seq<char>>, texts: Seq<Seq<char>>) -> bool {
    &&& prefixes.len() == texts.len()
    &&& forall|i: int| 0 <= i < texts.len() ==> (#[trigger] texts[i]).len() > 0
    &&& forall|i: int| 0 <= i < prefixes.len() ==> !(#[trigger] prefixes[i]).contains('\n')
    &&& line_style_without_newline(f.line_style_old)
    &&& line_style_without_newline(f.line_style_new)
}

/// Refining `old` against `new` puts every token of both (marked) texts into
/// the result once, in order.
pub open spec fn refinement_keeps_tokens(old: Seq<char>, new: Seq<char>) -> bool {
    &&& token_texts(highlighted_tokens(old, new).0) == shown_texts(marked_tokens(old, new).0)
    &&& token_texts(highlighted_tokens(old, new).1) == shown_texts(marked_tokens(old, new).1)
}

/// Tokens that stand for `text` as far as lines go: there are some, none is
/// empty, a newline only comes alone, they hold the text's newlines, and the
/// last one is a newline exactly when the text ends with one.
pub open spec fn tokens_match_lines(ts: Seq<Seq<char>>, text: Seq<char>) -> bool {
    &&& ts.len() > 0
    &&& forall|k: int|
        0 <= k < ts.len() ==> (#[trigger] ts[k]).len() > 0 && (ts[k].contains('\n') ==> ts[k]
            == seq!['\n'])
    &&& newline_tokens(ts) == count_char(text, '\n')
    &&& (ts.last() == seq!['\n']) <==> ends_with_newline(text)
}

/// No token links anywhere.
pub open spec fn no_urls(ts: Seq<TokenView>) -> bool {
    forall|k: int| 0 <= k < ts.len() ==> (#[trigger] ts[k]).url is None
}

// ---------------------------------------------------------------------------
// Tokens of a text
// ---------------------------------------------------------------------------

pub proof fn lemma_tokenize_matches(text: Seq<char>)
    requires
        text.len() > 0,
    ensures
        tokens_match_lines(tokenize_spec(text), text),
{
    let tk = tokenize_spec(text);
    lemma_tokenize_lossless(text);
    lemma_newline_tokens(text);
    assert(tk.len() > 0) by {
        if tk.len() == 0 {
            assert(tk.flatten() =~= Seq::<char>::empty());
        }
    }
    lemma_flatten_newlines(tk);
    // The last character of the text is the last character of the last token
    tk.lemma_flatten_and_flatten_alt_are_equivalent();
    assert(tk.flatten_alt() == tk.drop_last().flatten_alt() + tk.last());
    let last = tk.last();
    assert(last.len() > 0);
    assert(text.last() == last.last());
    if ends_with_newline(text) {
        assert(last.contains('\n')) by {
            assert(last[last.len() - 1] == '\n');
        }
    }
    if last == seq!['\n'] {
        assert(last.last() == '\n');
    }
}

proof fn lemma_newline_tokens_concat(a: Seq<Seq<char>>, b: Seq<Seq<char>>)
    ensures
        newline_tokens(a + b) == newline_tokens(a) + newline_tokens(b),
    decreases a.len(),
{
    if a.len() > 0 {
        lemma_newline_tokens_concat(a.skip(1), b);
        assert((a + b).skip(1) =~= a.skip(1) + b);
        assert((a + b)[0] == a[0]);
    } else {
        assert(a + b =~= b);
    }
}

proof fn lemma_marker_keeps_match(ts: Seq<Seq<char>>, text: Seq<char>)
    requires
        tokens_match_lines(ts, text),
        ends_with_newline(text),
    ensures
        tokens_match_lines(ts.insert(ts.len() - 1, newline_marker()), text),
{
    let i = ts.len() - 1;
    let m = newline_marker();
    let marked = ts.insert(i, m);
    assert(marked =~= ts.take(i) + seq![m] + ts.skip(i));
    assert(ts =~= ts.take(i) + ts.skip(i));
    lemma_newline_tokens_concat(ts.take(i) + seq![m], ts.skip(i));
    lemma_newline_tokens_concat(ts.take(i), seq![m]);
    lemma_newline_tokens_concat(ts.take(i), ts.skip(i));
    assert(m != seq!['\n']) by {
        assert(m[0] != seq!['\n'][0]);
    }
    assert(seq![m].skip(1) =~= Seq::<Seq<char>>::empty());
    assert(newline_tokens(Seq::<Seq<char>>::empty()) == 0);
    assert(seq![m][0] == m);
    assert(newline_tokens(seq![m]) == 0);
    assert(marked.last() == ts.last());
    assert forall|k: int| 0 <= k < marked.len() implies (#[trigger] marked[k]).len() > 0 && (
    marked[k].contains('\n') ==> marked[k] == seq!['\n']) by {
        if k < i {
            assert(marked[k] == ts[k]);
        } else if k == i {
            assert(marked[k] == m);
            assert(!m.contains('\n')) by {
                if m.contains('\n') {
                    let j = choose|j: int| 0 <= j < m.len() && m[j] == '\n';
                    assert(m[0] == '\u{23ce}');
                }
            }
        } else {
            assert(marked[k] == ts[k - 1]);
        }
    }
}

/// The marked tokens of both texts stand for their texts.
proof fn lemma_marked_match(old: Seq<char>, new: Seq<char>)
    requires
        old.len() > 0,
        new.len() > 0,
    ensures
        tokens_match_lines(marked_tokens(old, new).0, old),
        tokens_match_lines(marked_tokens(old, new).1, new),
{
    lemma_tokenize_matches(old);
    lemma_tokenize_matches(new);
    let to = tokenize_spec(old);
    let tn = tokenize_spec(new);
    if ends_with_newline(old) && !ends_with_newline(new) {
        lemma_marker_keeps_match(to, old);
    } else if ends_with_newline(new) && !ends_with_newline(old) {
        lemma_marker_keeps_match(tn, new);
    }
}

proof fn lemma_shown_token(t: Seq<char>)
    ensures
        shown_text(t).len() == t.len(),
        (shown_text(t) == seq!['\n']) <==> (t == seq!['\n']),
        shown_text(t).contains('\n') ==> t.contains('\n'),
{
    if t.len() == 1 && (t[0] as u32) < 0x20 && t[0] != '\t' && t[0] != '\n' {
        let p = crate::token_collector::control_picture(t[0]);
        assert(p != '\n') by {
            let x = (t[0] as u32) + 0x2400;
            assert(0x2400 <= x < 0x2420);
            assert((x as char) as u32 == x);
        }
        assert(shown_text(t) =~= seq![p]);
        assert(shown_text(t) != seq!['\n']) by {
            assert(seq!['\n'][0] == '\n');
        }
        assert(t != seq!['\n']) by {
            assert(seq!['\n'][0] == '\n');
        }
        if shown_text(t).contains('\n') {
            let j = choose|j: int| 0 <= j < shown_text(t).len() && shown_text(t)[j] == '\n';
            assert(shown_text(t)[0] == p);
        }
    }
}

proof fn lemma_shown_match(ts: Seq<Seq<char>>, text: Seq<char>)
    requires
        tokens_match_lines(ts, text),
    ensures
        tokens_match_lines(shown_texts(ts), text),
{
    let sh = shown_texts(ts);
    crate::token_collector::lemma_shown_newlines(ts);
    assert forall|k: int| 0 <= k < sh.len() implies (#[trigger] sh[k]).len() > 0 && (sh[k].contains(
        '\n',
    ) ==> sh[k] == seq!['\n']) by {
        lemma_shown_token(ts[k]);
    }
    lemma_shown_token(ts.last());
    assert(sh.last() == shown_text(ts.last()));
}

// ---------------------------------------------------------------------------
// Tokens of refinement
// ---------------------------------------------------------------------------

proof fn lemma_concat_no_urls(a: Seq<TokenView>, b: Seq<TokenView>)
    requires
        no_urls(a),
        no_urls(b),
    ensures
        no_urls(a + b),
{
    assert forall|k: int| 0 <= k < (a + b).len() implies (#[trigger] (a + b)[k]).url is None by {
        if k < a.len() {
            assert((a + b)[k] == a[k]);
        } else {
            assert((a + b)[k] == b[k - a.len()]);
        }
    }
}

proof fn lemma_apply_op_no_urls(
    op: DiffOp,
    to: Seq<Seq<char>>,
    tn: Seq<Seq<char>>,
    acc: (Seq<TokenView>, Seq<TokenView>),
)
    requires
        no_urls(acc.0),
        no_urls(acc.1),
    ensures
        no_urls(apply_op(op, to, tn, acc).0),
        no_urls(apply_op(op, to, tn, acc).1),
{
    let (acc_old, acc_new) = acc;
    match op {
        DiffOp::Equal { old_index, new_index, len } => {
            lemma_concat_no_urls(acc_old, styled(to.subrange(old_index as int, old_index + len), Style::DiffPartUnchanged));
            lemma_concat_no_urls(acc_new, styled(tn.subrange(new_index as int, new_index + len), Style::DiffPartUnchanged));
        },
        DiffOp::Insert { new_index, new_len, .. } => {
            let run = tn.subrange(new_index as int, new_index + new_len);
            let style = change_style(should_highlight_change_spec(run, !at_start_of_line(acc_new)));
            lemma_concat_no_urls(acc_new, styled(run, style));
        },
        DiffOp::Delete { old_index, old_len, .. } => {
            let run = to.subrange(old_index as int, old_index + old_len);
            let style = change_style(should_highlight_change_spec(run, !at_start_of_line(acc_old)));
            lemma_concat_no_urls(acc_old, styled(run, style));
        },
        DiffOp::Replace { old_index, old_len, new_index, new_len } => {
            let old_run = to.subrange(old_index as int, old_index + old_len);
            let new_run = tn.subrange(new_index as int, new_index + new_len);
            let style = change_style(
                should_highlight_change_spec(old_run, false) && should_highlight_change_spec(
                    new_run,
                    false,
                ) && !is_whitespace_replacement_spec(old_run, new_run),
            );
            lemma_concat_no_urls(acc_old, styled(old_run, style));
            lemma_concat_no_urls(acc_new, styled(new_run, style));
        },
    }
}

proof fn lemma_apply_ops_no_urls(
    ops: Seq<DiffOp>,
    to: Seq<Seq<char>>,
    tn: Seq<Seq<char>>,
    acc: (Seq<TokenView>, Seq<TokenView>),
)
    requires
        no_urls(acc.0),
        no_urls(acc.1),
    ensures
        no_urls(apply_ops(ops, to, tn, acc).0),
        no_urls(apply_ops(ops, to, tn, acc).1),
    decreases ops.len(),
{
    if ops.len() > 0 {
        lemma_apply_op_no_urls(ops[0], to, tn, acc);
        lemma_apply_ops_no_urls(ops.skip(1), to, tn, apply_op(ops[0], to, tn, acc));
    }
}

/// Refining links no token anywhere.
proof fn lemma_highlighted_no_urls(old: Seq<char>, new: Seq<char>)
    ensures
        no_urls(highlighted_tokens(old, new).0),
        no_urls(highlighted_tokens(old, new).1),
{
    let (to, tn) = marked_tokens(old, new);
    lemma_apply_ops_no_urls(
        crate::refiner::patience_diff(to, tn),
        to,
        tn,
        (Seq::<TokenView>::empty(), Seq::<TokenView>::empty()),
    );
}

/// The merged new tokens are those of the first comparison, restyled.
proof fn lemma_merged_tokens(olds: Seq<Seq<char>>, new: Seq<char>, n: int)
    requires
        1 <= n <= olds.len(),
        new.len() > 0,
        olds[0].len() > 0,
        refinement_keeps_tokens(olds[0], new),
    ensures
        token_texts(merged_new_tokens(olds, new, n)) == shown_texts(marked_tokens(olds[0], new).1),
        no_urls(merged_new_tokens(olds, new, n)),
    decreases n,
{
    lemma_highlighted_no_urls(olds[n - 1], new);
    if n == 1 {
        lemma_highlighted_no_urls(olds[0], new);
        assert(merged_new_tokens(olds, new, 0) == Seq::<TokenView>::empty());
    } else {
        lemma_merged_tokens(olds, new, n - 1);
        let acc = merged_new_tokens(olds, new, n - 1);
        let internal = highlighted_tokens(olds[n - 1], new).1;
        lemma_marked_match(olds[0], new);
        lemma_shown_match(marked_tokens(olds[0], new).1, new);
        assert(acc.len() > 0) by {
            assert(token_texts(acc).len() == acc.len());
        }
        assert(token_texts(merge_styles(acc, internal)) =~= token_texts(acc));
        assert(no_urls(merge_styles(acc, internal)));
    }
}

// ---------------------------------------------------------------------------
// Drawing tokens as lines
// ---------------------------------------------------------------------------

/// Tokens that stand for a non-empty text are drawn as that text's lines,
/// plus the marker line when it lacks a trailing newline.
proof fn lemma_drawn_text(ls: LineStyleView, prefix: Seq<char>, toks: Seq<TokenView>, text: Seq<char>, marker: Seq<char>)
    requires
        line_style_without_newline(ls),
        !prefix.contains('\n'),
        no_urls(toks),
        tokens_match_lines(token_texts(toks), text),
        text.len() > 0,
    ensures
        to_lines_spec(render_spec(ls, prefix, toks), marker).len() == drawn_line_count(text),
{
    let t = token_texts(toks);
    assert forall|k: int| 0 <= k < toks.len() implies {
        &&& (#[trigger] toks[k]).token.len() > 0
        &&& toks[k].token.contains('\n') ==> toks[k].token == seq!['\n']
        &&& match toks[k].url {
            Some(u) => !u.contains('\n'),
            None => true,
        }
    } by {
        assert(t[k] == toks[k].token);
    }
    lemma_render_newlines(ls, prefix, toks);
    let r = render_spec(ls, prefix, toks);
    lemma_lines_len(r);
    lemma_lines_len(text);
    assert(t.last() == toks.last().token);
}

proof fn lemma_simple_text(f: FormatterView, prefix: Seq<char>, text: Seq<char>, marker: Seq<char>)
    ensures
        format_simple_text(f, prefix, text, marker).len() == drawn_line_count(text),
{
}

proof fn lemma_simple_upto(f: FormatterView, prefixes: Seq<Seq<char>>, texts: Seq<Seq<char>>, marker: Seq<char>, n: int)
    requires
        0 <= n <= texts.len(),
        n <= prefixes.len(),
    ensures
        format_simple_upto(f, prefixes, texts, marker, n).len() == drawn_lines_upto(texts, n),
    decreases n,
{
    if n > 0 {
        lemma_simple_upto(f, prefixes, texts, marker, n - 1);
        lemma_simple_text(f, prefixes[n - 1], texts[n - 1], marker);
    }
}

proof fn lemma_old_lines_upto(
    f: FormatterView,
    prefixes: Seq<Seq<char>>,
    olds: Seq<Seq<char>>,
    new: Seq<char>,
    marker: Seq<char>,
    n: int,
)
    requires
        0 <= n <= olds.len(),
        n <= prefixes.len(),
        new.len() > 0,
        line_style_without_newline(f.line_style_old),
        forall|i: int| 0 <= i < olds.len() ==> (#[trigger] olds[i]).len() > 0,
        forall|i: int| 0 <= i < prefixes.len() ==> !(#[trigger] prefixes[i]).contains('\n'),
        forall|i: int| 0 <= i < olds.len() ==> refinement_keeps_tokens(#[trigger] olds[i], new),
    ensures
        old_lines_upto(f, prefixes, olds, new, marker, n).len() == drawn_lines_upto(olds, n),
    decreases n,
{
    if n > 0 {
        lemma_old_lines_upto(f, prefixes, olds, new, marker, n - 1);
        let o = olds[n - 1];
        assert(o.len() > 0);
        assert(refinement_keeps_tokens(o, new));
        assert(!prefixes[n - 1].contains('\n'));
        lemma_marked_match(o, new);
        lemma_shown_match(marked_tokens(o, new).0, o);
        lemma_highlighted_no_urls(o, new);
        lemma_drawn_text(f.line_style_old, prefixes[n - 1], highlighted_tokens(o, new).0, o, marker);
    }
}

proof fn lemma_drawn_lines_split(texts: Seq<Seq<char>>)
    requires
        texts.len() > 0,
    ensures
        drawn_lines_upto(texts, texts.len() as int) == drawn_lines_upto(texts.drop_last(), texts.len() - 1)
            + drawn_line_count(texts.last()),
{
    lemma_drawn_lines_prefix(texts, texts.drop_last(), texts.len() - 1);
}

proof fn lemma_drawn_lines_prefix(a: Seq<Seq<char>>, b: Seq<Seq<char>>, n: int)
    requires
        0 <= n <= a.len(),
        n <= b.len(),
        forall|i: int| 0 <= i < n ==> a[i] == b[i],
    ensures
        drawn_lines_upto(a, n) == drawn_lines_upto(b, n),
    decreases n,
{
    if n > 0 {
        lemma_drawn_lines_prefix(a, b, n - 1);
    }
}

/// Formatting keeps the lines: `format` draws every line of every text as
/// one line, and follows each text that lacks a trailing newline with one
/// marker line, whether it refines the texts or not. This holds for texts
/// that are not empty, with a prefix each, where no prefix and no URL of the
/// formatter's styles holds a newline; it rests on refinement keeping every
/// token of the texts it compares (which `to_highlighted_tokens` states).
pub proof fn lemma_format_keeps_lines(
    f: FormatterView,
    prefixes: Seq<Seq<char>>,
    texts: Seq<Seq<char>>,
    marker: Seq<char>,
)
    requires
        keeps_lines_premise(f, prefixes, texts),
        refines(prefixes, texts) ==> forall|i: int|
            0 <= i < texts.len() - 1 ==> refinement_keeps_tokens(#[trigger] texts[i], texts.last()),
    ensures
        format_spec(f, prefixes, texts, marker).len() == drawn_lines_upto(texts, texts.len() as int),
{
    if !refines(prefixes, texts) {
        lemma_simple_upto(f, prefixes, texts, marker, texts.len() as int);
    } else {
        let olds = texts.drop_last();
        let old_prefixes = prefixes.drop_last();
        let new = texts.last();
        assert(new.len() > 0);
        assert forall|i: int| 0 <= i < olds.len() implies refinement_keeps_tokens(#[trigger] olds[i], new) by {
            assert(olds[i] == texts[i]);
        }
        assert forall|i: int| 0 <= i < olds.len() implies (#[trigger] olds[i]).len() > 0 by {
            assert(olds[i] == texts[i]);
        }
        assert forall|i: int| 0 <= i < old_prefixes.len() implies !(#[trigger] old_prefixes[i]).contains('\n') by {
            assert(old_prefixes[i] == prefixes[i]);
        }
        let n = min_len(old_prefixes.len() as int, olds.len() as int);
        lemma_old_lines_upto(f, old_prefixes, olds, new, marker, n);
        assert(olds.len() >= 1);
        assert(olds[0] == texts[0]);
        lemma_merged_tokens(olds, new, olds.len() as int);
        lemma_marked_match(olds[0], new);
        lemma_shown_match(marked_tokens(olds[0], new).1, new);
        assert(!prefixes.last().contains('\n')) by {
            assert(prefixes.last() == prefixes[prefixes.len() - 1]);
        }
        lemma_drawn_text(
            f.line_style_new,
            prefixes.last(),
            merged_new_tokens(olds, new, olds.len() as int),
            new,
            marker,
        );
        lemma_drawn_lines_split(texts);
    }
}


// ---------------------------------------------------------------------------
// Refinement spells the texts
// ---------------------------------------------------------------------------

/// A character that a lone token of it is drawn as a picture of.
pub open spec fn is_pictured(c: char) -> bool {
    (c as u32) < 0x20 && c != '\t' && c != '\n'
}

/// No character of the text is drawn as a picture.
pub open spec fn no_pictured_chars(s: Seq<char>) -> bool {
    forall|i: int| 0 <= i < s.len() ==> !is_pictured(#[trigger] s[i])
}

/// A text as its marked tokens spell it: with the newline marker before its
/// final newline when it ends with a newline and the other text does not.
pub open spec fn marked_text(text: Seq<char>, other: Seq<char>) -> Seq<char> {
    if ends_with_newline(text) && !ends_with_newline(other) {
        text.drop_last() + newline_marker() + seq!['\n']
    } else {
        text
    }
}

proof fn lemma_token_chars_in_text(ts: Seq<Seq<char>>, k: int, j: int)
    requires
        0 <= k < ts.len(),
        0 <= j < ts[k].len(),
    ensures
        ts.flatten().contains(ts[k][j]),
{
    vstd::seq_lib::lemma_flatten_concat(ts.take(k), ts.skip(k));
    assert(ts.take(k) + ts.skip(k) =~= ts);
    let rest = ts.skip(k);
    assert(rest.first() == ts[k]);
    let at = ts.take(k).flatten().len() + j;
    assert(ts.flatten()[at] == ts[k][j]);
}

proof fn lemma_shown_unchanged(ts: Seq<Seq<char>>)
    requires
        forall|k: int| 0 <= k < ts.len() ==> !((#[trigger] ts[k]).len() == 1 && is_pictured(ts[k][0])),
    ensures
        shown_texts(ts) == ts,
{
    assert(shown_texts(ts) =~= ts);
}

/// The tokens of a text without pictured characters are shown as they are.
proof fn lemma_tokens_shown_unchanged(text: Seq<char>)
    requires
        no_pictured_chars(text),
    ensures
        shown_texts(tokenize_spec(text)) == tokenize_spec(text),
{
    let ts = tokenize_spec(text);
    lemma_tokenize_lossless(text);
    assert forall|k: int| 0 <= k < ts.len() implies !((#[trigger] ts[k]).len() == 1 && is_pictured(
        ts[k][0],
    )) by {
        if ts[k].len() == 1 {
            lemma_token_chars_in_text(ts, k, 0);
            let i = choose|i: int| 0 <= i < text.len() && text[i] == ts[k][0];
            assert(!is_pictured(text[i]));
        }
    }
    lemma_shown_unchanged(ts);
}

/// Marking the last token of a text that ends with a newline spells the text
/// with the marker before its final newline.
proof fn lemma_marked_spelling_one(text: Seq<char>, marked: bool)
    requires
        no_pictured_chars(text),
        marked ==> ends_with_newline(text),
    ensures
        ({
            let ts = tokenize_spec(text);
            let mt = if marked {
                ts.insert(ts.len() - 1, newline_marker())
            } else {
                ts
            };
            &&& shown_texts(mt).flatten() == if marked {
                text.drop_last() + newline_marker() + seq!['\n']
            } else {
                text
            }
        }),
{
    let ts = tokenize_spec(text);
    lemma_tokenize_lossless(text);
    lemma_tokens_shown_unchanged(text);
    if marked {
        lemma_tokenize_matches(text);
        let n = ts.len() - 1;
        let m = newline_marker();
        let mt = ts.insert(n, m);
        assert(mt =~= ts.take(n) + seq![m] + ts.skip(n));
        assert(ts.skip(n) =~= seq![seq!['\n']]);
        assert(m[0] == '\u{23ce}');
        assert forall|k: int| 0 <= k < mt.len() implies !((#[trigger] mt[k]).len() == 1 && is_pictured(
            mt[k][0],
        )) by {
            if k < n {
                assert(mt[k] == ts[k]);
                assert(shown_texts(ts)[k] == ts[k]);
            } else if k == n {
                assert(mt[k] == m);
            } else {
                assert(mt[k] == seq!['\n']);
            }
        }
        lemma_shown_unchanged(mt);
        vstd::seq_lib::lemma_flatten_concat(ts.take(n) + seq![m], ts.skip(n));
        vstd::seq_lib::lemma_flatten_concat(ts.take(n), seq![m]);
        vstd::seq_lib::lemma_flatten_concat(ts.take(n), ts.skip(n));
        assert(ts.take(n) + ts.skip(n) =~= ts);
        seq![m].lemma_flatten_one_element();
        seq![seq!['\n']].lemma_flatten_one_element();
        assert(text =~= ts.take(n).flatten() + seq!['\n']);
        assert(text.drop_last() =~= ts.take(n).flatten());
    }
}

/// The marked tokens of both texts, shown, spell the texts: with the
/// newline marker before the final newline of the one text that ends with a
/// newline when the other does not.
pub proof fn lemma_marked_spelling(old: Seq<char>, new: Seq<char>)
    requires
        no_pictured_chars(old),
        no_pictured_chars(new),
    ensures
        shown_texts(marked_tokens(old, new).0).flatten() == marked_text(old, new),
        shown_texts(marked_tokens(old, new).1).flatten() == marked_text(new, old),
{
    lemma_marked_spelling_one(old, ends_with_newline(old) && !ends_with_newline(new));
    lemma_marked_spelling_one(new, ends_with_newline(new) && !ends_with_newline(old));
}



// ---------------------------------------------------------------------------
// What a terminal shows of the drawn lines
// ---------------------------------------------------------------------------

/// A text of printable characters, newlines aside: no control character
/// (escape and carriage return among them) but the newline.
pub open spec fn printable_text(s: Seq<char>) -> bool {
    forall|i: int| 0 <= i < s.len() ==> (#[trigger] s[i] as u32) >= 0x20 || s[i] == '\n'
}

/// No escape character and no carriage return in a URL of the style.
pub open spec fn url_shown_plain(s: StyleView) -> bool {
    s.url matches Some(u) ==> !u.contains('\x1b') && !u.contains('\r')
}

/// No escape character and no carriage return in the URLs of a line style.
pub open spec fn line_style_shown_plain(ls: LineStyleView) -> bool {
    &&& url_shown_plain(ls.prefix_style)
    &&& url_shown_plain(ls.unchanged_style)
    &&& url_shown_plain(ls.midlighted_style)
    &&& url_shown_plain(ls.highlighted_style)
}

/// Tokens without an escape character or a carriage return, and without
/// URLs.
pub open spec fn tokens_shown_plain(toks: Seq<TokenView>) -> bool {
    forall|k: int|
        0 <= k < toks.len() ==> !(#[trigger] toks[k]).token.contains('\x1b') && !toks[k].token.contains(
            '\r',
        ) && toks[k].url is None
}

/// Switching styles writes no carriage return, as long as the new style's
/// URL holds none.
proof fn lemma_transition_without_cr(after: StyleView, before: StyleView)
    requires
        after.url matches Some(u) ==> !u.contains('\r'),
    ensures
        !style_transition(after, before).contains('\r'),
{
    reveal_strlit("\x1b]8;;");
    reveal_strlit("\x1b\\");
    reveal_strlit("\x1b]8;;\x1b\\");
    reveal_strlit("\x1b[0m");
    reveal_strlit("\x1b[7m");
    reveal_strlit("\x1b[27m");
    reveal_strlit("\x1b[22m");
    reveal_strlit("\x1b[2m");
    reveal_strlit("\x1b[1m");
    reveal_strlit("\x1b[39m");
    reveal_strlit("\x1b[31m");
    reveal_strlit("\x1b[32m");
    reveal_strlit("\x1b[33m");
    let link = if after.url != before.url {
        hyperlink_code(after.url)
    } else {
        seq![]
    };
    assert(!link.contains('\r')) by {
        if after.url != before.url {
            match after.url {
                Some(u) => {
                    lemma_no_char_concat("\x1b]8;;"@, u, '\r');
                    lemma_no_char_concat("\x1b]8;;"@ + u, "\x1b\\"@, '\r');
                },
                None => {},
            }
        }
    }
    let inv = inverse_code(after, before);
    let wt = weight_code(after, before);
    let col = if after.color != before.color {
        color_code(after.color)
    } else {
        seq![]
    };
    assert(!inv.contains('\r'));
    assert(!wt.contains('\r')) by {
        let first = if before.weight != Weight::Normal {
            NORMAL_INTENSITY@
        } else {
            seq![]
        };
        let second = if after.weight == Weight::Faint {
            FAINT@
        } else if after.weight == Weight::Bold {
            BOLD@
        } else {
            seq![]
        };
        lemma_no_char_concat(first, second, '\r');
    }
    assert(!col.contains('\r'));
    lemma_no_char_concat(link, NORMAL@, '\r');
    lemma_no_char_concat(link, inv, '\r');
    lemma_no_char_concat(link + inv, wt, '\r');
    lemma_no_char_concat(link + inv + wt, col, '\r');
}

proof fn lemma_token_style_plain(ls: LineStyleView, t: TokenView, force_faint: bool)
    requires
        line_style_shown_plain(ls),
        t.url is None,
    ensures
        url_shown_plain(token_style(ls, t, force_faint)),
{
}

/// The tokens of a row show as their texts, one after the other; the row
/// holds no carriage return.
proof fn lemma_shown_row_tokens(
    ls: LineStyleView,
    row: Seq<TokenView>,
    force_faint: bool,
    current: StyleView,
    rest: Seq<char>,
)
    requires
        line_style_shown_plain(ls),
        tokens_shown_plain(row),
    ensures
        shown_chars(row_tokens_text(ls, row, force_faint, current) + rest) == token_texts(
            row,
        ).flatten() + shown_chars(rest),
        !row_tokens_text(ls, row, force_faint, current).contains('\r'),
    decreases row.len(),
{
    if row.len() == 0 {
        lemma_shown_transition(normal_style(), current, rest);
        lemma_transition_without_cr(normal_style(), current);
        assert(token_texts(row).flatten() =~= Seq::<char>::empty());
    } else {
        let ns = token_style(ls, row[0], force_faint);
        lemma_token_style_plain(ls, row[0], force_faint);
        let tail = row.skip(1);
        assert forall|k: int| 0 <= k < tail.len() implies !(#[trigger] tail[k]).token.contains('\x1b')
            && !tail[k].token.contains('\r') && tail[k].url is None by {
            assert(tail[k] == row[k + 1]);
        }
        let rt = row_tokens_text(ls, tail, force_faint, ns);
        lemma_shown_row_tokens(ls, tail, force_faint, ns, rest);
        let tok = row[0].token;
        lemma_shown_plain(tok, rt + rest);
        let tr = style_transition(ns, current);
        lemma_shown_transition(ns, current, tok + (rt + rest));
        assert(row_tokens_text(ls, row, force_faint, current) + rest =~= tr + (tok + (rt + rest)));
        assert(token_texts(row).drop_first() =~= token_texts(tail));
        assert(token_texts(row).first() == tok);
        assert(token_texts(row).flatten() == tok + token_texts(tail).flatten());
        assert(tok + (token_texts(tail).flatten() + shown_chars(rest)) =~= tok + token_texts(
            tail,
        ).flatten() + shown_chars(rest));
        lemma_transition_without_cr(ns, current);
        lemma_no_char_concat(tr, tok, '\r');
        lemma_no_char_concat(tr + tok, rt, '\r');
    }
}

/// A row shows as its prefix and its tokens' texts, and holds no carriage
/// return.
proof fn lemma_shown_row(ls: LineStyleView, prefix: Seq<char>, row: Seq<TokenView>, force_faint: bool)
    requires
        line_style_shown_plain(ls),
        tokens_shown_plain(row),
        !prefix.contains('\x1b'),
        !prefix.contains('\r'),
    ensures
        shown_chars(render_row_spec(ls, prefix, row, force_faint)) == prefix + token_texts(
            row,
        ).flatten(),
        !render_row_spec(ls, prefix, row, force_faint).contains('\r'),
{
    let empty = Seq::<char>::empty();
    let rt = row_tokens_text(ls, row, force_faint, ls.prefix_style);
    lemma_shown_row_tokens(ls, row, force_faint, ls.prefix_style, empty);
    assert(rt + empty =~= rt);
    assert(shown_chars(empty) =~= empty);
    lemma_shown_plain(prefix, rt);
    let head = style_transition(ls.prefix_style, normal_style());
    lemma_shown_transition(ls.prefix_style, normal_style(), prefix + rt);
    assert(render_row_spec(ls, prefix, row, force_faint) =~= head + (prefix + rt));
    assert(token_texts(row).flatten() + empty =~= token_texts(row).flatten());
    lemma_transition_without_cr(ls.prefix_style, normal_style());
    lemma_no_char_concat(head, prefix, '\r');
    lemma_no_char_concat(head + prefix, rt, '\r');
}


/// A text that counts no `c` holds none.
proof fn lemma_count_zero_absent(s: Seq<char>, c: char)
    ensures
        count_char(s, c) == 0 ==> !s.contains(c),
    decreases s.len(),
{
    if s.len() > 0 {
        lemma_count_zero_absent(s.drop_last(), c);
        if count_char(s, c) == 0 {
            assert forall|i: int| 0 <= i < s.len() implies s[i] != c by {
                if i < s.len() - 1 {
                    assert(s.drop_last()[i] == s[i]);
                }
            }
        }
    }
}

/// Texts without `c`, joined, hold no `c`.
proof fn lemma_flatten_no_char(ts: Seq<Seq<char>>, c: char)
    requires
        forall|k: int| 0 <= k < ts.len() ==> !(#[trigger] ts[k]).contains(c),
    ensures
        !ts.flatten().contains(c),
    decreases ts.len(),
{
    if ts.len() > 0 {
        let rest = ts.drop_first();
        assert forall|k: int| 0 <= k < rest.len() implies !(#[trigger] rest[k]).contains(c) by {
            assert(rest[k] == ts[k + 1]);
        }
        lemma_flatten_no_char(rest, c);
        assert(!ts[0].contains(c));
        lemma_no_char_concat(ts.first(), rest.flatten(), c);
    }
}

/// The lines of a line, a newline and more text.
proof fn lemma_lines_cons(a: Seq<char>, b: Seq<char>)
    requires
        !a.contains('\n'),
    ensures
        lines(a + seq!['\n'] + b) == seq![strip_cr(a)] + lines(b),
{
    let s = a + seq!['\n'] + b;
    let k = a.len() as int;
    assert forall|i: int| 0 <= i < k implies s[i] != '\n' by {
        assert(s[i] == a[i]);
    }
    lemma_first_index(s, '\n', k);
    assert(s.take(k) =~= a);
    assert(s.skip(k + 1) =~= b);
    lemma_split_char(b, '\n');
    let pb = split_char(b, '\n');
    assert(split_char(s, '\n') == seq![a] + pb);
    if b.len() > 0 {
        assert(s.last() == b.last());
    } else {
        assert(s.last() == '\n');
    }
    assert(lines(s) =~= seq![strip_cr(a)] + lines(b));
}

/// Rows that end in a newline token show, line by line, as the prefix and
/// the line of the tokens' text.
proof fn lemma_render_shown_lines(ls: LineStyleView, prefix: Seq<char>, toks: Seq<TokenView>)
    requires
        line_style_shown_plain(ls),
        line_style_without_newline(ls),
        !prefix.contains('\x1b'),
        !prefix.contains('\r'),
        !prefix.contains('\n'),
        tokens_shown_plain(toks),
        tokens_line_safe(toks),
        toks.len() > 0,
        is_newline_token(toks.last()),
    ensures
        lines(render_spec(ls, prefix, toks)).map_values(|l: Seq<char>| shown_chars(l)) == lines(
            token_texts(toks).flatten(),
        ).map_values(|l: Seq<char>| prefix + l),
    decreases toks.len(),
{
    lemma_first_newline_props(toks);
    let k = first_newline(toks)->0;
    let row = toks.take(k);
    let rest = toks.skip(k + 1);
    assert forall|j: int| 0 <= j < row.len() implies !is_newline_token(#[trigger] row[j]) && {
        &&& row[j].token.len() > 0
        &&& row[j].token.contains('\n') ==> row[j].token == seq!['\n']
        &&& match row[j].url {
            Some(u) => !u.contains('\n'),
            None => true,
        }
    } && !row[j].token.contains('\x1b') && !row[j].token.contains('\r') && row[j].url is None by {
        assert(row[j] == toks[j]);
    }
    let rr = render_row_spec(ls, prefix, row, false);
    lemma_row_without_newline(ls, prefix, row, false);
    lemma_count_zero_absent(rr, '\n');
    lemma_shown_row(ls, prefix, row, false);
    let t = token_texts(toks);
    let tr = token_texts(row);
    assert(t =~= tr + seq![seq!['\n']] + token_texts(rest));
    vstd::seq_lib::lemma_flatten_concat(tr + seq![seq!['\n']], token_texts(rest));
    vstd::seq_lib::lemma_flatten_concat(tr, seq![seq!['\n']]);
    seq![seq!['\n']].lemma_flatten_one_element();
    let fr = tr.flatten();
    assert(t.flatten() =~= fr + seq!['\n'] + token_texts(rest).flatten());
    assert forall|j: int| 0 <= j < tr.len() && (#[trigger] tr[j]).contains('\n') implies tr[j] == seq![
        '\n',
    ] by {
        assert(tr[j] == row[j].token);
    }
    lemma_flatten_newlines(tr);
    lemma_newline_tokens_skip(tr, tr.len() as int);
    assert(tr.skip(tr.len() as int) =~= Seq::<Seq<char>>::empty());
    lemma_count_zero_absent(fr, '\n');
    assert forall|j: int| 0 <= j < tr.len() implies !(#[trigger] tr[j]).contains('\r') by {
        assert(tr[j] == row[j].token);
    }
    lemma_flatten_no_char(tr, '\r');
    lemma_lines_cons(fr, token_texts(rest).flatten());
    lemma_lines_cons(rr, render_spec(ls, prefix, rest));
    assert(strip_cr(rr) == rr);
    assert(strip_cr(fr) == fr);
    if rest.len() == 0 {
        assert(render_spec(ls, prefix, rest) == Seq::<char>::empty());
        assert(token_texts(rest).flatten() =~= Seq::<char>::empty());
        assert(lines(Seq::<char>::empty()) =~= Seq::<Seq<char>>::empty());
    } else {
        assert(rest.last() == toks.last());
        assert forall|j: int| 0 <= j < rest.len() implies {
            &&& (#[trigger] rest[j]).token.len() > 0
            &&& rest[j].token.contains('\n') ==> rest[j].token == seq!['\n']
            &&& match rest[j].url {
                Some(u) => !u.contains('\n'),
                None => true,
            }
        } && !rest[j].token.contains('\x1b') && !rest[j].token.contains('\r') && rest[j].url is None by {
            assert(rest[j] == toks[k + 1 + j]);
        }
        lemma_render_shown_lines(ls, prefix, rest);
    }
    assert(render_spec(ls, prefix, toks) == rr + seq!['\n'] + render_spec(ls, prefix, rest));
    let l1 = lines(render_spec(ls, prefix, toks));
    let l2 = lines(t.flatten());
    let a = lines(render_spec(ls, prefix, rest));
    let b = lines(token_texts(rest).flatten());
    assert(l1 == seq![rr] + a);
    assert(l2 == seq![fr] + b);
    assert(a.map_values(|l: Seq<char>| shown_chars(l)) == b.map_values(|l: Seq<char>| prefix + l));
    assert(a.len() == b.len()) by {
        assert(a.map_values(|l: Seq<char>| shown_chars(l)).len() == a.len());
        assert(b.map_values(|l: Seq<char>| prefix + l).len() == b.len());
    }
    assert forall|i: int| 0 <= i < l1.len() implies shown_chars(#[trigger] l1[i]) == prefix + l2[i] by {
        if i > 0 {
            assert(l1[i] == a[i - 1]);
            assert(l2[i] == b[i - 1]);
            assert(a.map_values(|l: Seq<char>| shown_chars(l))[i - 1] == shown_chars(a[i - 1]));
            assert(b.map_values(|l: Seq<char>| prefix + l)[i - 1] == prefix + b[i - 1]);
        }
    }
    assert(l1.map_values(|l: Seq<char>| shown_chars(l)) =~= l2.map_values(|l: Seq<char>| prefix + l));
}


/// The pieces of a text split at `c` hold no character that the text does
/// not hold.
proof fn lemma_split_no_char(s: Seq<char>, c: char, x: char)
    requires
        !s.contains(x),
    ensures
        forall|i: int| 0 <= i < split_char(s, c).len() ==> !(#[trigger] split_char(s, c)[i]).contains(x),
    decreases s.len(),
{
    crate::text::lemma_first_index_found(s, c);
    match first_index(s, c) {
        Some(k) => {
            if 0 <= k < s.len() {
                let rest = s.skip(k + 1);
                assert(!rest.contains(x)) by {
                    if rest.contains(x) {
                        let j = choose|j: int| 0 <= j < rest.len() && rest[j] == x;
                        assert(s[k + 1 + j] == x);
                    }
                }
                lemma_split_no_char(rest, c, x);
                assert forall|i: int| 0 <= i < split_char(s, c).len() implies !(#[trigger] split_char(
                    s,
                    c,
                )[i]).contains(x) by {
                    if i == 0 {
                        if s.take(k).contains(x) {
                            let j = choose|j: int| 0 <= j < s.take(k).len() && s.take(k)[j] == x;
                            assert(s[j] == x);
                        }
                    } else {
                        assert(split_char(s, c)[i] == split_char(rest, c)[i - 1]);
                    }
                }
            }
        },
        None => {},
    }
}

/// The lines of a text hold no character that the text does not hold.
proof fn lemma_lines_no_char(s: Seq<char>, x: char)
    requires
        !s.contains(x),
    ensures
        forall|i: int| 0 <= i < lines(s).len() ==> !(#[trigger] lines(s)[i]).contains(x),
{
    lemma_split_no_char(s, '\n', x);
    let pieces = split_char(s, '\n');
    assert forall|i: int| 0 <= i < lines(s).len() implies !(#[trigger] lines(s)[i]).contains(x) by {
        assert(!pieces[i].contains(x));
        if lines(s)[i] != pieces[i] {
            assert(lines(s)[i] == pieces[i].drop_last());
            if pieces[i].drop_last().contains(x) {
                let j = choose|j: int| 0 <= j < pieces[i].drop_last().len() && pieces[i].drop_last()[j] == x;
                assert(pieces[i][j] == x);
            }
        }
    }
}

/// A printable text holds no escape character and no carriage return.
pub(crate) proof fn lemma_printable_plain(s: Seq<char>)
    requires
        printable_text(s),
    ensures
        !s.contains('\x1b'),
        !s.contains('\r'),
        no_pictured_chars(s),
{
    if s.contains('\x1b') {
        let j = choose|j: int| 0 <= j < s.len() && s[j] == '\x1b';
        assert((s[j] as u32) >= 0x20 || s[j] == '\n');
    }
    if s.contains('\r') {
        let j = choose|j: int| 0 <= j < s.len() && s[j] == '\r';
        assert((s[j] as u32) >= 0x20 || s[j] == '\n');
    }
}

/// The lines of a text, each behind the prefix.
pub open spec fn prefixed_lines(prefix: Seq<char>, text: Seq<char>) -> Seq<Seq<char>> {
    lines(text).map_values(|l: Seq<char>| prefix + l)
}

/// A text drawn from tokens that spell it shows, line by line, as its lines
/// behind the prefix.
proof fn lemma_drawn_shown(
    ls: LineStyleView,
    prefix: Seq<char>,
    toks: Seq<TokenView>,
    text: Seq<char>,
    marker: Seq<char>,
)
    requires
        line_style_shown_plain(ls),
        line_style_without_newline(ls),
        !prefix.contains('\x1b'),
        !prefix.contains('\r'),
        !prefix.contains('\n'),
        no_urls(toks),
        token_texts(toks) == tokenize_spec(text),
        ends_with_newline(text),
        printable_text(text),
    ensures
        to_lines_spec(render_spec(ls, prefix, toks), marker).map_values(|l: Seq<char>| shown_chars(l))
            == prefixed_lines(prefix, text),
{
    let t = token_texts(toks);
    lemma_tokenize_matches(text);
    lemma_tokenize_lossless(text);
    lemma_printable_plain(text);
    assert forall|k: int| 0 <= k < toks.len() implies {
        &&& (#[trigger] toks[k]).token.len() > 0
        &&& toks[k].token.contains('\n') ==> toks[k].token == seq!['\n']
        &&& match toks[k].url {
            Some(u) => !u.contains('\n'),
            None => true,
        }
    } && !toks[k].token.contains('\x1b') && !toks[k].token.contains('\r') && toks[k].url is None by {
        assert(t[k] == toks[k].token);
        if toks[k].token.contains('\x1b') {
            let j = choose|j: int| 0 <= j < t[k].len() && t[k][j] == '\x1b';
            lemma_token_chars_in_text(t, k, j);
        }
        if toks[k].token.contains('\r') {
            let j = choose|j: int| 0 <= j < t[k].len() && t[k][j] == '\r';
            lemma_token_chars_in_text(t, k, j);
        }
    }
    assert(t.last() == toks.last().token);
    lemma_render_shown_lines(ls, prefix, toks);
    lemma_render_newlines(ls, prefix, toks);
    let r = render_spec(ls, prefix, toks);
    assert(to_lines_spec(r, marker) == lines(r));
}

/// A text drawn without refinement shows, line by line, as its lines behind
/// the prefix.
proof fn lemma_simple_shown(f: FormatterView, prefix: Seq<char>, text: Seq<char>, marker: Seq<char>)
    requires
        line_style_shown_plain(f.line_style_old),
        line_style_shown_plain(f.line_style_new),
        !prefix.contains('\x1b'),
        !prefix.contains('\r'),
        ends_with_newline(text),
        printable_text(text),
    ensures
        format_simple_text(f, prefix, text, marker).map_values(|l: Seq<char>| shown_chars(l))
            == prefixed_lines(prefix, text),
{
    let ls = if prefix.contains('+') {
        f.line_style_new
    } else {
        f.line_style_old
    };
    let ll = lines(text);
    lemma_printable_plain(text);
    lemma_lines_no_char(text, '\x1b');
    lemma_lines_no_char(text, '\r');
    let out = format_simple_text(f, prefix, text, marker);
    assert(out =~= simple_rows(ls, prefix, ll, false));
    assert forall|pos: int| 0 <= pos < ll.len() implies shown_chars(#[trigger] out[pos]) == prefix + ll[pos] by {
        let l = ll[pos];
        let tok = TokenView { token: shown_text(l), style: Style::DiffPartMidlighted, url: None };
        assert(out[pos] == simple_row(ls, prefix, l));
        assert(shown_text(l) == l) by {
            if l.len() == 1 && (l[0] as u32) < 0x20 && l[0] != '\t' && l[0] != '\n' {
                lemma_lines_no_char(text, l[0]);
                assert(l.contains(l[0]));
            }
        }
        assert(!l.contains('\x1b'));
        assert(!l.contains('\r'));
        lemma_shown_row(ls, prefix, seq![tok], false);
        assert(token_texts(seq![tok]) =~= seq![l]);
        seq![l].lemma_flatten_one_element();
    }
    assert(out.map_values(|l: Seq<char>| shown_chars(l)) =~= prefixed_lines(prefix, text));
}


/// The lines of the first `n` texts, each behind its text's prefix.
pub open spec fn prefixed_lines_upto(prefixes: Seq<Seq<char>>, texts: Seq<Seq<char>>, n: int) -> Seq<
    Seq<char>,
>
    decreases n,
{
    if n <= 0 {
        seq![]
    } else {
        prefixed_lines_upto(prefixes, texts, n - 1) + prefixed_lines(prefixes[n - 1], texts[n - 1])
    }
}

proof fn lemma_prefixed_lines_prefix(
    ap: Seq<Seq<char>>,
    at: Seq<Seq<char>>,
    bp: Seq<Seq<char>>,
    bt: Seq<Seq<char>>,
    n: int,
)
    requires
        0 <= n <= ap.len(),
        n <= at.len(),
        n <= bp.len(),
        n <= bt.len(),
        forall|i: int| 0 <= i < n ==> ap[i] == bp[i] && at[i] == bt[i],
    ensures
        prefixed_lines_upto(ap, at, n) == prefixed_lines_upto(bp, bt, n),
    decreases n,
{
    if n > 0 {
        lemma_prefixed_lines_prefix(ap, at, bp, bt, n - 1);
    }
}

/// What the law on shown lines asks of `format`'s input: the premise of
/// `lemma_format_keeps_lines`, texts of printable characters that each end
/// with a newline, prefixes without escape character or carriage return,
/// and line styles whose URLs hold neither.
pub open spec fn shows_lines_premise(f: FormatterView, prefixes: Seq<Seq<char>>, texts: Seq<Seq<char>>) -> bool {
    &&& keeps_lines_premise(f, prefixes, texts)
    &&& line_style_shown_plain(f.line_style_old)
    &&& line_style_shown_plain(f.line_style_new)
    &&& forall|i: int| 0 <= i < texts.len() ==> ends_with_newline(#[trigger] texts[i]) && printable_text(texts[i])
    &&& forall|i: int|
        0 <= i < prefixes.len() ==> !(#[trigger] prefixes[i]).contains('\x1b') && !prefixes[i].contains(
            '\r',
        )
}

proof fn lemma_simple_upto_shown(
    f: FormatterView,
    prefixes: Seq<Seq<char>>,
    texts: Seq<Seq<char>>,
    marker: Seq<char>,
    n: int,
)
    requires
        shows_lines_premise(f, prefixes, texts),
        0 <= n <= texts.len(),
    ensures
        format_simple_upto(f, prefixes, texts, marker, n).map_values(|l: Seq<char>| shown_chars(l))
            == prefixed_lines_upto(prefixes, texts, n),
    decreases n,
{
    if n > 0 {
        lemma_simple_upto_shown(f, prefixes, texts, marker, n - 1);
        let a = format_simple_upto(f, prefixes, texts, marker, n - 1);
        let b = format_simple_text(f, prefixes[n - 1], texts[n - 1], marker);
        lemma_simple_shown(f, prefixes[n - 1], texts[n - 1], marker);
        assert((a + b).map_values(|l: Seq<char>| shown_chars(l)) =~= a.map_values(
            |l: Seq<char>| shown_chars(l),
        ) + b.map_values(|l: Seq<char>| shown_chars(l)));
    }
}

/// An old text refined against the new one is drawn from tokens that spell
/// it.
pub(crate) proof fn lemma_refined_spelling(old: Seq<char>, new: Seq<char>)
    requires
        ends_with_newline(old),
        ends_with_newline(new),
        printable_text(old),
        printable_text(new),
        refinement_keeps_tokens(old, new),
    ensures
        token_texts(highlighted_tokens(old, new).0) == tokenize_spec(old),
        token_texts(highlighted_tokens(old, new).1) == tokenize_spec(new),
        no_urls(highlighted_tokens(old, new).0),
        no_urls(highlighted_tokens(old, new).1),
{
    lemma_printable_plain(old);
    lemma_printable_plain(new);
    lemma_tokens_shown_unchanged(old);
    lemma_tokens_shown_unchanged(new);
    lemma_highlighted_no_urls(old, new);
}

proof fn lemma_old_lines_shown(
    f: FormatterView,
    prefixes: Seq<Seq<char>>,
    olds: Seq<Seq<char>>,
    new: Seq<char>,
    marker: Seq<char>,
    n: int,
)
    requires
        0 <= n <= olds.len(),
        n <= prefixes.len(),
        line_style_shown_plain(f.line_style_old),
        line_style_without_newline(f.line_style_old),
        ends_with_newline(new),
        printable_text(new),
        forall|i: int|
            0 <= i < n ==> ends_with_newline(#[trigger] olds[i]) && printable_text(olds[i])
                && refinement_keeps_tokens(olds[i], new),
        forall|i: int|
            0 <= i < n ==> !(#[trigger] prefixes[i]).contains('\x1b') && !prefixes[i].contains('\r')
                && !prefixes[i].contains('\n'),
    ensures
        old_lines_upto(f, prefixes, olds, new, marker, n).map_values(|l: Seq<char>| shown_chars(l))
            == prefixed_lines_upto(prefixes, olds, n),
    decreases n,
{
    if n > 0 {
        lemma_old_lines_shown(f, prefixes, olds, new, marker, n - 1);
        let o = olds[n - 1];
        let p = prefixes[n - 1];
        assert(ends_with_newline(o) && printable_text(o) && refinement_keeps_tokens(o, new));
        assert(!p.contains('\x1b') && !p.contains('\r') && !p.contains('\n'));
        lemma_refined_spelling(o, new);
        let toks = highlighted_tokens(o, new).0;
        lemma_drawn_shown(f.line_style_old, p, toks, o, marker);
        let a = old_lines_upto(f, prefixes, olds, new, marker, n - 1);
        let b = to_lines_spec(render_spec(f.line_style_old, p, toks), marker);
        assert((a + b).map_values(|l: Seq<char>| shown_chars(l)) =~= a.map_values(
            |l: Seq<char>| shown_chars(l),
        ) + b.map_values(|l: Seq<char>| shown_chars(l)));
    }
}

/// Formatting adds colors and nothing else: stripped of its escape
/// sequences, each line that `format` draws is the prefix of its text
/// followed by the line of that text, in order, whether it refines the texts
/// or not. This holds for texts of printable characters that each end with
/// a newline, with a prefix each that holds no escape character, carriage
/// return or newline, where no URL of the formatter's styles holds an
/// escape character, carriage return or newline; it rests on refinement
/// keeping every token of the texts it compares (which
/// `to_highlighted_tokens` states).
pub proof fn lemma_format_shows_lines(
    f: FormatterView,
    prefixes: Seq<Seq<char>>,
    texts: Seq<Seq<char>>,
    marker: Seq<char>,
)
    requires
        shows_lines_premise(f, prefixes, texts),
        refines(prefixes, texts) ==> forall|i: int|
            0 <= i < texts.len() - 1 ==> refinement_keeps_tokens(#[trigger] texts[i], texts.last()),
    ensures
        format_spec(f, prefixes, texts, marker).map_values(|l: Seq<char>| shown_chars(l))
            == prefixed_lines_upto(prefixes, texts, texts.len() as int),
{
    if !refines(prefixes, texts) {
        lemma_simple_upto_shown(f, prefixes, texts, marker, texts.len() as int);
    } else {
        let olds = texts.drop_last();
        let old_prefixes = prefixes.drop_last();
        let new = texts.last();
        let n = texts.len() - 1;
        assert(ends_with_newline(new) && printable_text(new)) by {
            assert(new == texts[texts.len() - 1]);
        }
        assert forall|i: int| 0 <= i < n implies ends_with_newline(#[trigger] olds[i])
            && printable_text(olds[i]) && refinement_keeps_tokens(olds[i], new) by {
            assert(olds[i] == texts[i]);
        }
        assert forall|i: int| 0 <= i < n implies !(#[trigger] old_prefixes[i]).contains('\x1b')
            && !old_prefixes[i].contains('\r') && !old_prefixes[i].contains('\n') by {
            assert(old_prefixes[i] == prefixes[i]);
        }
        assert(min_len(old_prefixes.len() as int, olds.len() as int) == n);
        lemma_old_lines_shown(f, old_prefixes, olds, new, marker, n);
        assert(olds[0] == texts[0]);
        lemma_merged_tokens(olds, new, olds.len() as int);
        lemma_refined_spelling(olds[0], new);
        let p = prefixes.last();
        assert(!p.contains('\x1b') && !p.contains('\r') && !p.contains('\n')) by {
            assert(p == prefixes[prefixes.len() - 1]);
        }
        let toks = merged_new_tokens(olds, new, olds.len() as int);
        lemma_drawn_shown(f.line_style_new, p, toks, new, marker);
        let a = old_lines_upto(f, old_prefixes, olds, new, marker, n);
        let b = to_lines_spec(render_spec(f.line_style_new, p, toks), marker);
        assert((a + b).map_values(|l: Seq<char>| shown_chars(l)) =~= a.map_values(
            |l: Seq<char>| shown_chars(l),
        ) + b.map_values(|l: Seq<char>| shown_chars(l)));
        lemma_prefixed_lines_prefix(old_prefixes, olds, prefixes, texts, n);
    }
}


/// A row followed by more text shows as its prefix, its tokens' texts and
/// what the rest shows.
proof fn lemma_shown_row_then(
    ls: LineStyleView,
    prefix: Seq<char>,
    row: Seq<TokenView>,
    force_faint: bool,
    rest: Seq<char>,
)
    requires
        line_style_shown_plain(ls),
        tokens_shown_plain(row),
        !prefix.contains('\x1b'),
    ensures
        shown_chars(render_row_spec(ls, prefix, row, force_faint) + rest) == prefix + token_texts(
            row,
        ).flatten() + shown_chars(rest),
{
    let rt = row_tokens_text(ls, row, force_faint, ls.prefix_style);
    lemma_shown_row_tokens(ls, row, force_faint, ls.prefix_style, rest);
    lemma_shown_plain(prefix, rt + rest);
    let head = style_transition(ls.prefix_style, normal_style());
    lemma_shown_transition(ls.prefix_style, normal_style(), prefix + (rt + rest));
    assert(render_row_spec(ls, prefix, row, force_faint) + rest =~= head + (prefix + (rt + rest)));
    assert(prefix + (token_texts(row).flatten() + shown_chars(rest)) =~= prefix + token_texts(
        row,
    ).flatten() + shown_chars(rest));
}

/// The texts of a row, a newline token, and the rest.
proof fn lemma_row_texts(toks: Seq<TokenView>, k: int)
    requires
        0 <= k < toks.len(),
        is_newline_token(toks[k]),
    ensures
        token_texts(toks).flatten() == token_texts(toks.take(k)).flatten() + seq!['\n'] + token_texts(
            toks.skip(k + 1),
        ).flatten(),
{
    let tr = token_texts(toks.take(k));
    assert(token_texts(toks) =~= tr + seq![seq!['\n']] + token_texts(toks.skip(k + 1)));
    vstd::seq_lib::lemma_flatten_concat(tr + seq![seq!['\n']], token_texts(toks.skip(k + 1)));
    vstd::seq_lib::lemma_flatten_concat(tr, seq![seq!['\n']]);
    seq![seq!['\n']].lemma_flatten_one_element();
}

/// Tokens drawn without a prefix, followed by more text, show as the
/// tokens' texts and what the rest shows.
pub(crate) proof fn lemma_render_shown_text(
    ls: LineStyleView,
    prefix: Seq<char>,
    toks: Seq<TokenView>,
    rest: Seq<char>,
)
    requires
        line_style_shown_plain(ls),
        tokens_shown_plain(toks),
        prefix.len() == 0,
    ensures
        shown_chars(render_spec(ls, prefix, toks) + rest) == token_texts(toks).flatten() + shown_chars(
            rest,
        ),
    decreases toks.len(),
{
    assert(prefix =~= Seq::<char>::empty());
    lemma_first_newline_props(toks);
    match first_newline(toks) {
        Some(k) => {
            let row = toks.take(k);
            let tail = toks.skip(k + 1);
            assert forall|j: int| 0 <= j < row.len() implies !(#[trigger] row[j]).token.contains('\x1b')
                && !row[j].token.contains('\r') && row[j].url is None by {
                assert(row[j] == toks[j]);
            }
            assert forall|j: int| 0 <= j < tail.len() implies !(#[trigger] tail[j]).token.contains(
                '\x1b',
            ) && !tail[j].token.contains('\r') && tail[j].url is None by {
                assert(tail[j] == toks[k + 1 + j]);
            }
            let rt = render_spec(ls, prefix, tail);
            lemma_render_shown_text(ls, prefix, tail, rest);
            lemma_shown_plain(seq!['\n'], rt + rest);
            lemma_shown_row_then(ls, prefix, row, false, seq!['\n'] + (rt + rest));
            lemma_row_texts(toks, k);
            assert(render_spec(ls, prefix, toks) + rest =~= render_row_spec(ls, prefix, row, false) + (
            seq!['\n'] + (rt + rest)));
            assert(prefix + token_texts(row).flatten() + (seq!['\n'] + (token_texts(tail).flatten()
                + shown_chars(rest))) =~= token_texts(toks).flatten() + shown_chars(rest));
        },
        None => {
            if toks.len() > 0 {
                lemma_shown_row_then(ls, prefix, toks, false, rest);
                assert(prefix + token_texts(toks).flatten() =~= token_texts(toks).flatten());
            } else {
                assert(render_spec(ls, prefix, toks) + rest =~= rest);
                assert(token_texts(toks).flatten() =~= Seq::<char>::empty());
            }
        },
    }
}

/// Tokens drawn row by row behind empty prefixes, followed by more text,
/// show as the tokens' texts and what the rest shows.
pub(crate) proof fn lemma_multiprefix_shown_text(
    ls: LineStyleView,
    prefixes: Seq<Seq<char>>,
    toks: Seq<TokenView>,
    n: int,
    rest: Seq<char>,
)
    requires
        line_style_shown_plain(ls),
        tokens_shown_plain(toks),
        0 <= n,
        n + row_count(toks) <= prefixes.len(),
        forall|i: int| 0 <= i < prefixes.len() ==> (#[trigger] prefixes[i]).len() == 0,
    ensures
        shown_chars(render_multiprefix_spec(ls, prefixes, toks, n) + rest) == token_texts(
            toks,
        ).flatten() + shown_chars(rest),
    decreases toks.len(),
{
    lemma_first_newline_props(toks);
    match first_newline(toks) {
        Some(k) => {
            let row = toks.take(k);
            let tail = toks.skip(k + 1);
            let p = prefixes[n];
            assert(p =~= Seq::<char>::empty());
            assert forall|j: int| 0 <= j < row.len() implies !(#[trigger] row[j]).token.contains('\x1b')
                && !row[j].token.contains('\r') && row[j].url is None by {
                assert(row[j] == toks[j]);
            }
            assert forall|j: int| 0 <= j < tail.len() implies !(#[trigger] tail[j]).token.contains(
                '\x1b',
            ) && !tail[j].token.contains('\r') && tail[j].url is None by {
                assert(tail[j] == toks[k + 1 + j]);
            }
            let rt = render_multiprefix_spec(ls, prefixes, tail, n + 1);
            lemma_multiprefix_shown_text(ls, prefixes, tail, n + 1, rest);
            lemma_shown_plain(seq!['\n'], rt + rest);
            lemma_shown_row_then(ls, p, row, p.contains('-'), seq!['\n'] + (rt + rest));
            lemma_row_texts(toks, k);
            assert(render_multiprefix_spec(ls, prefixes, toks, n) + rest =~= render_row_spec(
                ls,
                p,
                row,
                p.contains('-'),
            ) + (seq!['\n'] + (rt + rest)));
            assert(p + token_texts(row).flatten() + (seq!['\n'] + (token_texts(tail).flatten()
                + shown_chars(rest))) =~= token_texts(toks).flatten() + shown_chars(rest));
        },
        None => {
            if toks.len() > 0 {
                let p = prefixes[n];
                assert(p =~= Seq::<char>::empty());
                lemma_shown_row_then(ls, p, toks, p.contains('-'), rest);
                assert(p + token_texts(toks).flatten() =~= token_texts(toks).flatten());
            } else {
                assert(render_multiprefix_spec(ls, prefixes, toks, n) + rest =~= rest);
                assert(token_texts(toks).flatten() =~= Seq::<char>::empty());
            }
        },
    }
}

/// Tokens that spell a printable text are drawn as shown text: no escape
/// character, carriage return or URL, newlines alone, spelling the text.
pub(crate) proof fn lemma_tokens_of_text(toks: Seq<TokenView>, text: Seq<char>)
    requires
        no_urls(toks),
        token_texts(toks) == tokenize_spec(text),
        printable_text(text),
        text.len() > 0,
    ensures
        tokens_shown_plain(toks),
        tokens_line_safe(toks),
        token_texts(toks).flatten() == text,
        ends_with_newline(text) ==> toks.len() > 0 && is_newline_token(toks.last()),
{
    let t = token_texts(toks);
    lemma_tokenize_matches(text);
    lemma_tokenize_lossless(text);
    lemma_printable_plain(text);
    assert forall|k: int| 0 <= k < toks.len() implies {
        &&& (#[trigger] toks[k]).token.len() > 0
        &&& toks[k].token.contains('\n') ==> toks[k].token == seq!['\n']
        &&& match toks[k].url {
            Some(u) => !u.contains('\n'),
            None => true,
        }
    } && !toks[k].token.contains('\x1b') && !toks[k].token.contains('\r') && toks[k].url is None by {
        assert(t[k] == toks[k].token);
        if toks[k].token.contains('\x1b') {
            let j = choose|j: int| 0 <= j < t[k].len() && t[k][j] == '\x1b';
            lemma_token_chars_in_text(t, k, j);
        }
        if toks[k].token.contains('\r') {
            let j = choose|j: int| 0 <= j < t[k].len() && t[k][j] == '\r';
            lemma_token_chars_in_text(t, k, j);
        }
    }
    if toks.len() > 0 {
        assert(t.last() == toks.last().token);
    }
}

} // verus!
