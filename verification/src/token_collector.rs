//! Styled tokens, and rendering them into ANSI highlighted lines.

use vstd::prelude::*;
use vstd::slice::slice_subrange;

use crate::ansi::{
    ansi_style_normal, lemma_transition_without_newline, normal_style, style_transition,
    url_without_newline, AnsiStyle, Color, StyleView, Weight,
};
use crate::text::{
    char_from_u32, chars_all_whitespace, chars_contain, chars_of, all_whitespace, count_char,
    lemma_count_absent, lemma_count_concat, lemma_newline_tokens_skip, newline_tokens, push_str,
    string_of_chars,
};

verus! {

#[derive(Copy, Clone, Debug, PartialEq, Eq, Structural)]
pub enum Style {
    /// Faint
    Lowlighted,
    /// Default
    Context,
    /// Bold
    Bright,
    /// Yellow
    DiffPartUnchanged,
    /// Red or Green
    DiffPartMidlighted,
    /// Inverse Red or Green
    DiffPartHighlighted,
    /// Inverse Red
    Error,
}

/// The order of the styles, from least to most prominent.
pub open spec fn style_rank(s: Style) -> u8 {
    match s {
        Style::Lowlighted => 0,
        Style::Context => 1,
        Style::Bright => 2,
        Style::DiffPartUnchanged => 3,
        Style::DiffPartMidlighted => 4,
        Style::DiffPartHighlighted => 5,
        Style::Error => 6,
    }
}

/// The position of a style in the order of prominence.
pub fn rank(s: Style) -> (r: u8)
    ensures
        r == style_rank(s),
{
    match s {
        Style::Lowlighted => 0,
        Style::Context => 1,
        Style::Bright => 2,
        Style::DiffPartUnchanged => 3,
        Style::DiffPartMidlighted => 4,
        Style::DiffPartHighlighted => 5,
        Style::Error => 6,
    }
}

/// A piece of text with a style and an optional hyperlink (the text of its
/// URL).
#[derive(Clone, Debug, PartialEq, Eq)]
pub struct StyledToken {
    pub token: String,
    pub style: Style,
    pub url: Option<String>,
}

pub struct TokenView {
    pub token: Seq<char>,
    pub style: Style,
    pub url: Option<Seq<char>>,
}

impl View for StyledToken {
    type V = TokenView;

    open spec fn view(&self) -> TokenView {
        TokenView { token: self.token@, style: self.style, url: crate::ansi::opt_view(self.url) }
    }
}

/// The views of a sequence of tokens.
pub open spec fn tokens_view(s: Seq<StyledToken>) -> Seq<TokenView> {
    s.map_values(|t: StyledToken| t@)
}

/// The Unicode control picture of a control character (its code point plus
/// 0x2400).
pub open spec fn control_picture(c: char) -> char {
    ((c as u32) + 0x2400) as char
}

/// How a token text is shown: a lone control character (other than tab and
/// newline) becomes its Unicode control picture, everything else stays.
pub open spec fn shown_text(t: Seq<char>) -> Seq<char> {
    if t.len() == 1 && (t[0] as u32) < 0x20 && t[0] != '\t' && t[0] != '\n' {
        seq![control_picture(t[0])]
    } else {
        t
    }
}

/// The four styles a line is drawn with.
#[derive(Clone, Debug, PartialEq, Eq)]
pub struct LineStyle {
    pub prefix_style: AnsiStyle,
    pub unchanged_style: AnsiStyle,
    pub midlighted_style: AnsiStyle,
    pub highlighted_style: AnsiStyle,
}

pub struct LineStyleView {
    pub prefix_style: StyleView,
    pub unchanged_style: StyleView,
    pub midlighted_style: StyleView,
    pub highlighted_style: StyleView,
}

impl View for LineStyle {
    type V = LineStyleView;

    open spec fn view(&self) -> LineStyleView {
        LineStyleView {
            prefix_style: self.prefix_style@,
            unchanged_style: self.unchanged_style@,
            midlighted_style: self.midlighted_style@,
            highlighted_style: self.highlighted_style@,
        }
    }
}

impl LineStyle {
    /// A copy of this line style.
    pub fn duplicate(&self) -> (r: LineStyle)
        ensures
            r@ == self@,
    {
        LineStyle {
            prefix_style: self.prefix_style.duplicate(),
            unchanged_style: self.unchanged_style.duplicate(),
            midlighted_style: self.midlighted_style.duplicate(),
            highlighted_style: self.highlighted_style.duplicate(),
        }
    }
}

pub open spec fn with_color(s: StyleView, c: Color) -> StyleView {
    StyleView { color: c, ..s }
}

pub open spec fn with_inverse(s: StyleView) -> StyleView {
    StyleView { inverse: true, ..s }
}

pub open spec fn with_weight(s: StyleView, w: Weight) -> StyleView {
    StyleView { weight: w, ..s }
}

/// A line style: inverse prefix, plain unchanged parts, changes in `c`.
pub open spec fn conflict_line_style(c: Color) -> LineStyleView {
    LineStyleView {
        prefix_style: with_inverse(normal_style()),
        unchanged_style: normal_style(),
        midlighted_style: with_color(normal_style(), c),
        highlighted_style: with_inverse(with_color(normal_style(), c)),
    }
}

/// A line style: bold prefix, plain unchanged parts, changes in `c`.
pub open spec fn filename_line_style(c: Color) -> LineStyleView {
    LineStyleView {
        prefix_style: with_weight(normal_style(), Weight::Bold),
        unchanged_style: normal_style(),
        midlighted_style: with_color(normal_style(), c),
        highlighted_style: with_inverse(with_color(normal_style(), c)),
    }
}

fn conflict_style(c: Color) -> (r: LineStyle)
    ensures
        r@ == conflict_line_style(c),
{
    LineStyle {
        prefix_style: ansi_style_normal().with_inverse(true),
        unchanged_style: ansi_style_normal(),
        midlighted_style: ansi_style_normal().with_color(c),
        highlighted_style: ansi_style_normal().with_color(c).with_inverse(true),
    }
}

fn filename_style(c: Color) -> (r: LineStyle)
    ensures
        r@ == filename_line_style(c),
{
    LineStyle {
        prefix_style: ansi_style_normal().with_weight(Weight::Bold),
        unchanged_style: ansi_style_normal(),
        midlighted_style: ansi_style_normal().with_color(c),
        highlighted_style: ansi_style_normal().with_color(c).with_inverse(true),
    }
}

/// Base sections of conflicts.
pub fn line_style_conflict_base() -> (r: LineStyle)
    ensures
        r@ == conflict_line_style(Color::Red),
{
    conflict_style(Color::Red)
}

/// The old side of conflicts.
pub fn line_style_conflict_old() -> (r: LineStyle)
    ensures
        r@ == conflict_line_style(Color::Red),
{
    conflict_style(Color::Red)
}

/// The new side of conflicts.
pub fn line_style_conflict_new() -> (r: LineStyle)
    ensures
        r@ == conflict_line_style(Color::Green),
{
    conflict_style(Color::Green)
}

/// `---` file name lines.
pub fn line_style_old_filename() -> (r: LineStyle)
    ensures
        r@ == filename_line_style(Color::Red),
{
    filename_style(Color::Red)
}

/// `+++` file name lines.
pub fn line_style_new_filename() -> (r: LineStyle)
    ensures
        r@ == filename_line_style(Color::Green),
{
    filename_style(Color::Green)
}

impl StyledToken {
    /// A token with this text and style and no hyperlink. A lone control
    /// character is replaced by its Unicode control picture.
    pub fn new(token: String, style: Style) -> (r: StyledToken)
        ensures
            r@ == (TokenView { token: shown_text(token@), style, url: None }),
    {
        let chars = chars_of(token.as_str());
        if chars.len() != 1 {
            return StyledToken { token, style, url: None };
        }
        let character = chars[0];
        if (character as u32) >= 0x20 || character == '\x09' || character == '\x0a' {
            return StyledToken { token, style, url: None };
        }
        // This is a special character, let's replace it with its Unicode symbol
        let symbol = match char_from_u32((character as u32) + 0x2400) {
            Some(c) => c,
            None => character,
        };

        let mut replaced = String::new();
        crate::text::push_char(&mut replaced, symbol);
        return StyledToken { token: replaced, style, url: None };
    }

    /// Are all characters in this token whitespace?
    pub fn is_whitespace(&self) -> (r: bool)
        ensures
            r == all_whitespace(self.token@),
    {
        let chars = chars_of(self.token.as_str());
        chars_all_whitespace(&chars)
    }

    /// A copy of this token.
    pub fn duplicate(&self) -> (r: StyledToken)
        ensures
            r@ == self@,
    {
        StyledToken {
            token: self.token.clone(),
            style: self.style,
            url: crate::ansi::copy_opt_string(&self.url),
        }
    }
}

/// The style a token is drawn with on a line of style `ls`.
pub open spec fn token_style(ls: LineStyleView, t: TokenView, force_faint: bool) -> StyleView {
    let base = match t.style {
        Style::Context => normal_style(),
        Style::Lowlighted => with_weight(normal_style(), Weight::Faint),
        Style::Bright => with_weight(normal_style(), Weight::Bold),
        Style::DiffPartUnchanged => ls.unchanged_style,
        Style::DiffPartMidlighted => ls.midlighted_style,
        Style::DiffPartHighlighted => ls.highlighted_style,
        Style::Error => with_inverse(with_color(normal_style(), Color::Red)),
    };
    let faint = if force_faint {
        with_weight(base, Weight::Faint)
    } else {
        base
    };
    match t.url {
        Some(u) => StyleView { url: Some(u), ..faint },
        None => faint,
    }
}

/// The tokens of a row drawn one after the other, starting in style
/// `current`, and a switch back to the normal style at the end.
pub open spec fn row_tokens_text(
    ls: LineStyleView,
    row: Seq<TokenView>,
    force_faint: bool,
    current: StyleView,
) -> Seq<char>
    decreases row.len(),
{
    if row.len() == 0 {
        style_transition(normal_style(), current)
    } else {
        let ns = token_style(ls, row[0], force_faint);
        style_transition(ns, current) + row[0].token + row_tokens_text(
            ls,
            row.skip(1),
            force_faint,
            ns,
        )
    }
}

/// A row: the prefix in the prefix style, then the tokens.
pub open spec fn render_row_spec(
    ls: LineStyleView,
    prefix: Seq<char>,
    row: Seq<TokenView>,
    force_faint: bool,
) -> Seq<char> {
    style_transition(ls.prefix_style, normal_style()) + prefix + row_tokens_text(
        ls,
        row,
        force_faint,
        ls.prefix_style,
    )
}

/// The style that a token is drawn with.
fn token_ansi_style(line_style: &LineStyle, token: &StyledToken, force_faint: bool) -> (r: AnsiStyle)
    ensures
        r@ == token_style(line_style@, token@, force_faint),
{
    let mut new_style = match token.style {
        Style::Context => ansi_style_normal(),
        Style::Lowlighted => ansi_style_normal().with_weight(Weight::Faint),
        Style::Bright => ansi_style_normal().with_weight(Weight::Bold),
        Style::DiffPartUnchanged => line_style.unchanged_style.duplicate(),
        Style::DiffPartMidlighted => line_style.midlighted_style.duplicate(),
        Style::DiffPartHighlighted => line_style.highlighted_style.duplicate(),
        Style::Error => ansi_style_normal().with_color(Color::Red).with_inverse(true),
    };
    if force_faint {
        new_style = new_style.with_weight(Weight::Faint);
    }
    if let Some(url) = &token.url {
        new_style = new_style.with_url(url.clone());
    }
    new_style
}

/// Renders one row of tokens, prefixed by `prefix`.
pub fn render_row(line_style: &LineStyle, prefix: &str, row: &[StyledToken], force_faint: bool) -> (r:
    String)
    ensures
        r@ == render_row_spec(line_style@, prefix@, tokens_view(row@), force_faint),
{
    let mut rendered = String::new();
    let normal = ansi_style_normal();

    // Render prefix
    let s = line_style.prefix_style.from(&normal);
    push_str(&mut rendered, s.as_str());
    let mut current_style = line_style.prefix_style.duplicate();
    push_str(&mut rendered, prefix);

    let ghost row_v = tokens_view(row@);
    let ghost ls = line_style@;
    let mut i: usize = 0;
    assert(row_v.skip(0) == row_v);
    while i < row.len()
        invariant
            i <= row.len(),
            row_v == tokens_view(row@),
            ls == line_style@,
            rendered@ + row_tokens_text(ls, row_v.skip(i as int), force_faint, current_style@)
                == render_row_spec(ls, prefix@, row_v, force_faint),
        decreases row.len() - i,
    {
        let token = &row[i];
        let new_style = token_ansi_style(line_style, token, force_faint);
        proof {
            assert(row_v.skip(i as int)[0] == row_v[i as int]);
            assert(row_v.skip(i as int).skip(1) == row_v.skip(i + 1));
        }
        let s = new_style.from(&current_style);
        push_str(&mut rendered, s.as_str());
        current_style = new_style;
        push_str(&mut rendered, token.token.as_str());
        i = i + 1;
    }

    // Reset formatting at the end of the line
    let s = normal.from(&current_style);
    push_str(&mut rendered, s.as_str());
    return rendered;
}

/// Whether a token is a lone newline.
pub open spec fn is_newline_token(t: TokenView) -> bool {
    t.token == seq!['\n']
}

/// Whether a string is a lone newline.
pub fn is_newline(s: &String) -> (r: bool)
    ensures
        r == (s@ == seq!['\n']),
{
    let chars = chars_of(s.as_str());
    if chars.len() == 1 && chars[0] == '\n' {
        assert(chars@ =~= seq!['\n']);
        true
    } else {
        false
    }
}

/// The index of the first newline token.
pub open spec fn first_newline(toks: Seq<TokenView>) -> Option<int>
    decreases toks.len(),
{
    if toks.len() == 0 {
        None
    } else if is_newline_token(toks[0]) {
        Some(0)
    } else {
        match first_newline(toks.skip(1)) {
            Some(k) => Some(k + 1),
            None => None,
        }
    }
}

pub proof fn lemma_first_newline(toks: Seq<TokenView>, k: int)
    requires
        0 <= k <= toks.len(),
        forall|i: int| 0 <= i < k ==> !is_newline_token(#[trigger] toks[i]),
    ensures
        k < toks.len() && is_newline_token(toks[k]) ==> first_newline(toks) == Some(k),
        k == toks.len() ==> first_newline(toks) is None,
    decreases toks.len(),
{
    if toks.len() > 0 && k > 0 {
        assert forall|i: int| 0 <= i < k - 1 implies !is_newline_token(#[trigger] toks.skip(1)[i]) by {
            assert(toks.skip(1)[i] == toks[i + 1]);
        }
        lemma_first_newline(toks.skip(1), k - 1);
    }
}

/// All the tokens drawn as rows: each newline token ends a row, and a last
/// row without a newline is drawn too.
pub open spec fn render_spec(ls: LineStyleView, prefix: Seq<char>, toks: Seq<TokenView>) -> Seq<
    char,
>
    decreases toks.len(),
{
    match first_newline(toks) {
        Some(k) => {
            if 0 <= k < toks.len() {
                render_row_spec(ls, prefix, toks.take(k), false) + seq!['\n'] + render_spec(
                    ls,
                    prefix,
                    toks.skip(k + 1),
                )
            } else {
                seq![]
            }
        },
        None => {
            if toks.len() > 0 {
                render_row_spec(ls, prefix, toks, false)
            } else {
                seq![]
            }
        },
    }
}

/// Render all the tokens into a (most of the time multiline) string
pub fn render(line_style: &LineStyle, prefix: &str, tokens: &[StyledToken]) -> (r: String)
    ensures
        r@ == render_spec(line_style@, prefix@, tokens_view(tokens@)),
{
    let mut rendered = String::new();
    let ghost tv = tokens_view(tokens@);
    let mut current_row_start: usize = 0;
    let mut i: usize = 0;
    assert(tv.skip(0) == tv);
    while i < tokens.len()
        invariant
            current_row_start <= i <= tokens.len(),
            tv == tokens_view(tokens@),
            forall|j: int| current_row_start <= j < i ==> !is_newline_token(#[trigger] tv[j]),
            rendered@ + render_spec(line_style@, prefix@, tv.skip(current_row_start as int))
                == render_spec(line_style@, prefix@, tv),
        decreases tokens.len() - i,
    {
        if is_newline(&tokens[i].token) {
            let row = slice_subrange(tokens, current_row_start, i);
            let ghost rest = tv.skip(current_row_start as int);
            proof {
                assert forall|j: int| 0 <= j < i - current_row_start implies !is_newline_token(
                    #[trigger] rest[j],
                ) by {
                    assert(rest[j] == tv[current_row_start + j]);
                }
                assert(rest[i - current_row_start] == tv[i as int]);
                lemma_first_newline(rest, i - current_row_start);
                assert(rest.take(i - current_row_start) =~= tokens_view(row@));
                assert(rest.skip(i - current_row_start + 1) =~= tv.skip(i + 1));
            }
            let rendered_row = render_row(line_style, prefix, row, false);
            push_str(&mut rendered, rendered_row.as_str());
            crate::text::push_char(&mut rendered, '\n');
            current_row_start = i + 1;
        }
        i = i + 1;
    }
    let ghost rest = tv.skip(current_row_start as int);
    proof {
        assert forall|j: int| 0 <= j < rest.len() implies !is_newline_token(#[trigger] rest[j]) by {
            assert(rest[j] == tv[current_row_start + j]);
        }
        lemma_first_newline(rest, rest.len() as int);
    }
    if current_row_start < tokens.len() {
        let row = slice_subrange(tokens, current_row_start, tokens.len());
        assert(rest =~= tokens_view(row@));
        let rendered_row = render_row(line_style, prefix, row, false);
        push_str(&mut rendered, rendered_row.as_str());
    } else {
        assert(rendered@ =~= rendered@ + render_spec(line_style@, prefix@, rest));
    }
    return rendered;
}


/// The number of rows that rendering `toks` draws.
pub open spec fn row_count(toks: Seq<TokenView>) -> nat
    decreases toks.len(),
{
    match first_newline(toks) {
        Some(k) => {
            if 0 <= k < toks.len() {
                1 + row_count(toks.skip(k + 1))
            } else {
                0
            }
        },
        None => {
            if toks.len() > 0 {
                1
            } else {
                0
            }
        },
    }
}

/// Like `render_spec`, but row `n` is prefixed by `prefixes[n]` and drawn
/// faint when that prefix holds a `-`.
pub open spec fn render_multiprefix_spec(
    ls: LineStyleView,
    prefixes: Seq<Seq<char>>,
    toks: Seq<TokenView>,
    n: int,
) -> Seq<char>
    decreases toks.len(),
{
    match first_newline(toks) {
        Some(k) => {
            if 0 <= k < toks.len() {
                render_row_spec(ls, prefixes[n], toks.take(k), prefixes[n].contains('-')) + seq![
                    '\n',
                ] + render_multiprefix_spec(ls, prefixes, toks.skip(k + 1), n + 1)
            } else {
                seq![]
            }
        },
        None => {
            if toks.len() > 0 {
                render_row_spec(ls, prefixes[n], toks, prefixes[n].contains('-'))
            } else {
                seq![]
            }
        },
    }
}

/// Render all the tokens into a (most of the time multiline) string. Each line
/// is prefixed by a prefix from `line_prefixes`.
pub fn render_multiprefix(line_style: &LineStyle, line_prefixes: &[String], tokens: &[StyledToken]) -> (r:
    String)
    requires
        row_count(tokens_view(tokens@)) <= line_prefixes@.len(),
    ensures
        r@ == render_multiprefix_spec(
            line_style@,
            crate::tokenizer::strings_view(line_prefixes@),
            tokens_view(tokens@),
            0,
        ),
{
    let mut rendered = String::new();
    let ghost tv = tokens_view(tokens@);
    let ghost pv = crate::tokenizer::strings_view(line_prefixes@);
    let mut current_row_start: usize = 0;
    let mut line_number_zero_based: usize = 0;
    let mut i: usize = 0;
    assert(tv.skip(0) == tv);
    while i < tokens.len()
        invariant
            current_row_start <= i <= tokens.len(),
            tv == tokens_view(tokens@),
            pv == crate::tokenizer::strings_view(line_prefixes@),
            row_count(tv) <= line_prefixes@.len(),
            line_number_zero_based + row_count(tv.skip(current_row_start as int)) == row_count(tv),
            forall|j: int| current_row_start <= j < i ==> !is_newline_token(#[trigger] tv[j]),
            rendered@ + render_multiprefix_spec(
                line_style@,
                pv,
                tv.skip(current_row_start as int),
                line_number_zero_based as int,
            ) == render_multiprefix_spec(line_style@, pv, tv, 0),
        decreases tokens.len() - i,
    {
        if !is_newline(&tokens[i].token) {
            i = i + 1;
            continue;
        }
        let row = slice_subrange(tokens, current_row_start, i);
        let ghost rest = tv.skip(current_row_start as int);
        proof {
            assert forall|j: int| 0 <= j < i - current_row_start implies !is_newline_token(
                #[trigger] rest[j],
            ) by {
                assert(rest[j] == tv[current_row_start + j]);
            }
            assert(rest[i - current_row_start] == tv[i as int]);
            lemma_first_newline(rest, i - current_row_start);
            assert(rest.take(i - current_row_start) =~= tokens_view(row@));
            assert(rest.skip(i - current_row_start + 1) =~= tv.skip(i + 1));
        }
        let prefix = &line_prefixes[line_number_zero_based];
        let prefix_chars = chars_of(prefix.as_str());
        let force_faint = chars_contain(&prefix_chars, '-');
        assert(pv[line_number_zero_based as int] == prefix@);
        let rendered_row = render_row(line_style, prefix.as_str(), row, force_faint);
        push_str(&mut rendered, rendered_row.as_str());
        crate::text::push_char(&mut rendered, '\n');
        current_row_start = i + 1;
        line_number_zero_based = line_number_zero_based + 1;
        i = i + 1;
    }
    let ghost rest = tv.skip(current_row_start as int);
    proof {
        assert forall|j: int| 0 <= j < rest.len() implies !is_newline_token(#[trigger] rest[j]) by {
            assert(rest[j] == tv[current_row_start + j]);
        }
        lemma_first_newline(rest, rest.len() as int);
    }
    if current_row_start < tokens.len() {
        // Render the last row
        let row = slice_subrange(tokens, current_row_start, tokens.len());
        assert(rest =~= tokens_view(row@));
        let prefix = &line_prefixes[line_number_zero_based];
        let prefix_chars = chars_of(prefix.as_str());
        let force_faint = chars_contain(&prefix_chars, '-');
        assert(pv[line_number_zero_based as int] == prefix@);
        let rendered_row = render_row(line_style, prefix.as_str(), row, force_faint);
        push_str(&mut rendered, rendered_row.as_str());
    } else {
        assert(rendered@ =~= rendered@ + render_multiprefix_spec(
            line_style@,
            pv,
            rest,
            line_number_zero_based as int,
        ));
    }
    return rendered;
}

/// A token with another style.
pub open spec fn with_style(t: TokenView, style: Style) -> TokenView {
    TokenView { style, ..t }
}

/// Every token in the plain style.
pub open spec fn as_context(row: Seq<TokenView>) -> Seq<TokenView> {
    Seq::new(row.len(), |i: int| with_style(row[i], Style::Context))
}

/// Every token in the plain style.
pub fn all_context(row: &Vec<StyledToken>) -> (r: Vec<StyledToken>)
    ensures
        tokens_view(r@) == as_context(tokens_view(row@)),
{
    let ghost rv = tokens_view(row@);
    let mut out: Vec<StyledToken> = Vec::new();
    let mut i: usize = 0;
    while i < row.len()
        invariant
            i <= row.len(),
            rv == tokens_view(row@),
            tokens_view(out@) =~= as_context(rv).take(i as int),
        decreases row.len() - i,
    {
        let ghost before = out@;
        let mut t = row[i].duplicate();
        t.style = Style::Context;
        out.push(t);
        assert(rv[i as int] == row@[i as int]@);
        assert(tokens_view(out@) =~= tokens_view(before).push(out@[i as int]@));
        i = i + 1;
    }
    out
}


/// The texts of a sequence of tokens.
pub open spec fn token_texts(ts: Seq<TokenView>) -> Seq<Seq<char>> {
    ts.map_values(|t: TokenView| t.token)
}

pub proof fn lemma_first_newline_props(ts: Seq<TokenView>)
    ensures
        first_newline(ts) matches Some(k) ==> 0 <= k < ts.len() && is_newline_token(ts[k]) && forall|
            i: int,
        | 0 <= i < k ==> !is_newline_token(#[trigger] ts[i]),
        first_newline(ts) is None ==> forall|i: int|
            0 <= i < ts.len() ==> !is_newline_token(#[trigger] ts[i]),
    decreases ts.len(),
{
    if ts.len() > 0 && !is_newline_token(ts[0]) {
        lemma_first_newline_props(ts.skip(1));
        assert forall|i: int| 1 <= i < ts.len() implies ts[i] == ts.skip(1)[i - 1] by {}
    }
}

/// Rows that all end in a newline token are as many as the newline tokens.
pub proof fn lemma_row_count(ts: Seq<TokenView>)
    requires
        ts.len() == 0 || is_newline_token(ts.last()),
    ensures
        row_count(ts) == newline_tokens(token_texts(ts)),
    decreases ts.len(),
{
    let t = token_texts(ts);
    if ts.len() > 0 {
        lemma_first_newline_props(ts);
        match first_newline(ts) {
            Some(k) => {
                let rest = ts.skip(k + 1);
                if rest.len() > 0 {
                    assert(rest.last() == ts.last());
                }
                lemma_row_count(rest);
                assert(token_texts(rest) =~= t.skip(k + 1));
                lemma_newline_tokens_skip(t, k);
                assert(t.skip(k)[0] == seq!['\n']);
                assert(t.skip(k).skip(1) =~= t.skip(k + 1));
            },
            None => {
                assert(!is_newline_token(ts[ts.len() - 1]));
            },
        }
    }
}

/// Showing tokens keeps which of them are lone newlines.
pub proof fn lemma_shown_newlines(ts: Seq<Seq<char>>)
    ensures
        newline_tokens(ts.map_values(|t: Seq<char>| shown_text(t))) == newline_tokens(ts),
    decreases ts.len(),
{
    if ts.len() > 0 {
        let shown = ts.map_values(|t: Seq<char>| shown_text(t));
        lemma_shown_newlines(ts.skip(1));
        assert(shown.skip(1) =~= ts.skip(1).map_values(|t: Seq<char>| shown_text(t)));
        let t0 = ts[0];
        if t0.len() == 1 && (t0[0] as u32) < 0x20 && t0[0] != '\t' && t0[0] != '\n' {
            let p = control_picture(t0[0]);
            assert(p != '\n') by {
                let x = (t0[0] as u32) + 0x2400;
                assert(0x2400 <= x < 0x2420);
                assert((x as char) as u32 == x);
            }
            assert(shown[0] =~= seq![p]);
            assert(shown[0] != seq!['\n']) by {
                assert(seq!['\n'][0] == '\n');
            }
        }
    }
}



// ---------------------------------------------------------------------------
// Rendering draws one row per line of tokens
// ---------------------------------------------------------------------------

/// None of the four styles links to a URL that holds a newline.
pub open spec fn line_style_without_newline(ls: LineStyleView) -> bool {
    &&& url_without_newline(ls.prefix_style)
    &&& url_without_newline(ls.unchanged_style)
    &&& url_without_newline(ls.midlighted_style)
    &&& url_without_newline(ls.highlighted_style)
}

/// Tokens that can be drawn line by line: none is empty, a newline only
/// comes as a token of its own, and no URL holds a newline.
pub open spec fn tokens_line_safe(toks: Seq<TokenView>) -> bool {
    forall|k: int|
        0 <= k < toks.len() ==> {
            &&& (#[trigger] toks[k]).token.len() > 0
            &&& toks[k].token.contains('\n') ==> toks[k].token == seq!['\n']
            &&& match toks[k].url {
                Some(u) => !u.contains('\n'),
                None => true,
            }
        }
}

proof fn lemma_token_style_without_newline(ls: LineStyleView, t: TokenView, force_faint: bool)
    requires
        line_style_without_newline(ls),
        match t.url {
            Some(u) => !u.contains('\n'),
            None => true,
        },
    ensures
        url_without_newline(token_style(ls, t, force_faint)),
{
}

/// A text without `c` counts no `c`, and a text that counts none does not
/// end with one.
proof fn lemma_count_zero(s: Seq<char>, c: char)
    ensures
        count_char(s, c) == 0 ==> s.len() == 0 || s.last() != c,
{
}

proof fn lemma_row_tokens_without_newline(
    ls: LineStyleView,
    row: Seq<TokenView>,
    force_faint: bool,
    current: StyleView,
)
    requires
        line_style_without_newline(ls),
        url_without_newline(current),
        tokens_line_safe(row),
        forall|k: int| 0 <= k < row.len() ==> !is_newline_token(#[trigger] row[k]),
    ensures
        count_char(row_tokens_text(ls, row, force_faint, current), '\n') == 0,
    decreases row.len(),
{
    if row.len() == 0 {
        lemma_transition_without_newline(normal_style(), current);
    } else {
        let ns = token_style(ls, row[0], force_faint);
        lemma_token_style_without_newline(ls, row[0], force_faint);
        lemma_transition_without_newline(ns, current);
        let rest = row.skip(1);
        assert forall|k: int| 0 <= k < rest.len() implies !is_newline_token(#[trigger] rest[k]) && {
            &&& rest[k].token.len() > 0
            &&& rest[k].token.contains('\n') ==> rest[k].token == seq!['\n']
            &&& match rest[k].url {
                Some(u) => !u.contains('\n'),
                None => true,
            }
        } by {
            assert(rest[k] == row[k + 1]);
        }
        lemma_row_tokens_without_newline(ls, rest, force_faint, ns);
        assert(!row[0].token.contains('\n')) by {
            assert(!is_newline_token(row[0]));
        }
        lemma_count_absent(row[0].token, '\n');
        lemma_count_concat(style_transition(ns, current), row[0].token, '\n');
        lemma_count_concat(
            style_transition(ns, current) + row[0].token,
            row_tokens_text(ls, rest, force_faint, ns),
            '\n',
        );
    }
}

/// A row holds no newline, and is not empty when it has tokens.
pub(crate) proof fn lemma_row_without_newline(ls: LineStyleView, prefix: Seq<char>, row: Seq<TokenView>, force_faint: bool)
    requires
        line_style_without_newline(ls),
        !prefix.contains('\n'),
        tokens_line_safe(row),
        forall|k: int| 0 <= k < row.len() ==> !is_newline_token(#[trigger] row[k]),
    ensures
        count_char(render_row_spec(ls, prefix, row, force_faint), '\n') == 0,
        row.len() > 0 ==> render_row_spec(ls, prefix, row, force_faint).len() > 0,
{
    lemma_transition_without_newline(ls.prefix_style, normal_style());
    lemma_row_tokens_without_newline(ls, row, force_faint, ls.prefix_style);
    lemma_count_absent(prefix, '\n');
    let head = style_transition(ls.prefix_style, normal_style());
    lemma_count_concat(head, prefix, '\n');
    lemma_count_concat(head + prefix, row_tokens_text(ls, row, force_faint, ls.prefix_style), '\n');
    if row.len() > 0 {
        assert(row_tokens_text(ls, row, force_faint, ls.prefix_style).len() >= row[0].token.len());
    }
}

/// Rendering writes one newline per newline token, and ends without a
/// newline exactly when the tokens end with something else than a newline.
pub proof fn lemma_render_newlines(ls: LineStyleView, prefix: Seq<char>, toks: Seq<TokenView>)
    requires
        line_style_without_newline(ls),
        !prefix.contains('\n'),
        tokens_line_safe(toks),
    ensures
        count_char(render_spec(ls, prefix, toks), '\n') == newline_tokens(token_texts(toks)),
        (render_spec(ls, prefix, toks).len() > 0 && render_spec(ls, prefix, toks).last() != '\n')
            <==> (toks.len() > 0 && !is_newline_token(toks.last())),
    decreases toks.len(),
{
    let t = token_texts(toks);
    lemma_first_newline_props(toks);
    match first_newline(toks) {
        Some(k) => {
            let row = toks.take(k);
            let rest = toks.skip(k + 1);
            assert forall|j: int| 0 <= j < row.len() implies !is_newline_token(#[trigger] row[j]) && {
                &&& row[j].token.len() > 0
                &&& row[j].token.contains('\n') ==> row[j].token == seq!['\n']
                &&& match row[j].url {
                    Some(u) => !u.contains('\n'),
                    None => true,
                }
            } by {
                assert(row[j] == toks[j]);
            }
            assert forall|j: int| 0 <= j < rest.len() implies {
                &&& (#[trigger] rest[j]).token.len() > 0
                &&& rest[j].token.contains('\n') ==> rest[j].token == seq!['\n']
                &&& match rest[j].url {
                    Some(u) => !u.contains('\n'),
                    None => true,
                }
            } by {
                assert(rest[j] == toks[j + k + 1]);
            }
            lemma_row_without_newline(ls, prefix, row, false);
            lemma_render_newlines(ls, prefix, rest);
            let r_row = render_row_spec(ls, prefix, row, false);
            let r_rest = render_spec(ls, prefix, rest);
            assert(render_spec(ls, prefix, toks) == r_row + seq!['\n'] + r_rest);
            let nl = seq!['\n'];
            assert(nl.drop_last() =~= Seq::<char>::empty());
            assert(count_char(Seq::<char>::empty(), '\n') == 0);
            assert(count_char(nl, '\n') == 1);
            lemma_count_concat(r_row, nl, '\n');
            lemma_count_concat(r_row + nl, r_rest, '\n');
            // The newline tokens
            assert forall|i: int| 0 <= i < k implies t[i] != seq!['\n'] by {
                assert(!is_newline_token(toks[i]));
            }
            lemma_newline_tokens_skip(t, k);
            assert(t.skip(k)[0] == seq!['\n']);
            assert(t.skip(k).skip(1) =~= token_texts(rest));
            // The last character
            if rest.len() > 0 {
                assert(rest.last() == toks.last());
                if is_newline_token(rest.last()) {
                    lemma_count_zero(r_rest, '\n');
                }
            } else {
                assert(toks.last() == toks[k]);
            }
            lemma_count_zero(r_rest, '\n');
        },
        None => {
            if toks.len() > 0 {
                lemma_row_without_newline(ls, prefix, toks, false);
                lemma_count_zero(render_row_spec(ls, prefix, toks, false), '\n');
                assert forall|i: int| 0 <= i < t.len() implies t[i] != seq!['\n'] by {
                    assert(!is_newline_token(toks[i]));
                }
                lemma_newline_tokens_skip(t, t.len() as int);
                assert(t.skip(t.len() as int) =~= Seq::<Seq<char>>::empty());
                assert(!is_newline_token(toks[toks.len() - 1]));
            } else {
                assert(t =~= Seq::<Seq<char>>::empty());
            }
        },
    }
}

} // verus!
