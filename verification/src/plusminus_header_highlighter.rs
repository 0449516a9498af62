//! Highlighting of `---` / `+++` file name header line pairs.

use vstd::prelude::*;
use vstd::pervasive::VecAdditionalExecFns;

use crate::ansi::{opt_view, Color};
use crate::lines_highlighter::{futures_view, LineAcceptance, Response};
use crate::refiner::{highlighted_tokens, to_highlighted_tokens};
use crate::token_collector::token_texts;
use crate::string_future::StringFuture;
use crate::text::{
    all_whitespace, chars_of, chars_start_with, ends_with, is_whitespace_char, push_chars, push_str,
    slice_chars, starts_with, str_all_whitespace, string_of_chars, string_of_str,
};
use crate::token_collector::{
    all_context, as_context, filename_line_style, line_style_new_filename,
    line_style_old_filename, render, render_spec, tokens_view, with_style, Style, StyledToken,
    TokenView,
};
use crate::tokenizer::{lemma_tokenize_lossless, tokenize_spec};

verus! {

/// std's `std::path::MAIN_SEPARATOR`, the separator of path components on
/// this platform. Its documentation gives `/` on Unix and `\` on Windows; the
/// contract says that it is one of those two.
#[verifier::external_body]
pub(crate) fn main_separator() -> (c: char)
    ensures
        c == '/' || c == '\\',
{
    std::path::MAIN_SEPARATOR
}

// ---------------------------------------------------------------------------
// Splitting a row into prefix, path, file name, separator and timestamp
// ---------------------------------------------------------------------------

/// A token that separates path components: `/` or the platform's separator.
pub open spec fn is_separator(t: Seq<char>, sep: char) -> bool {
    t == seq!['/'] || t == seq![sep]
}

/// A text that takes exactly one byte in UTF-8.
pub open spec fn is_one_byte(t: Seq<char>) -> bool {
    t.len() == 1 && (t[0] as u32) < 0x80
}

/// Where the path starts: after a git prefix like `a/`, when such prefixes
/// are looked for and the row has one.
pub open spec fn path_start_spec(look_for_git_prefixes: bool, row: Seq<TokenView>, sep: char) -> int {
    if look_for_git_prefixes && row.len() >= 2 && is_one_byte(row[0].token) && is_separator(
        row[1].token,
        sep,
    ) {
        2
    } else {
        0
    }
}

/// The index of the first token at or after `i` that is all whitespace (a
/// tab, some spaces), or the row's length if there is none.
pub open spec fn blank_from(row: Seq<TokenView>, i: int) -> int
    decreases row.len() - i,
{
    if i >= row.len() {
        row.len() as int
    } else if all_whitespace(row[i].token) {
        i
    } else {
        blank_from(row, i + 1)
    }
}

/// Where the file name starts within `row[lo..hi]`: just after the last
/// separator there, or at `lo` when there is none.
pub open spec fn filename_start_spec(row: Seq<TokenView>, lo: int, hi: int, sep: char) -> int
    decreases hi - lo,
{
    if hi <= lo {
        lo
    } else if is_separator(row[hi - 1].token, sep) {
        hi
    } else {
        filename_start_spec(row, lo, hi - 1, sep)
    }
}

/// The boundaries of the five parts of a row, by token index:
/// `prefix` is `[0, path_start)`, `just_path` is
/// `[path_start, filename_start)`, `just_filename` is
/// `[filename_start, path_end)`, `time_space` is
/// `[path_end, timestamp_start)` and `timestamp` is the rest.
#[derive(Copy, Clone, Debug, PartialEq, Eq, Structural)]
pub struct SplitRow {
    pub path_start: usize,
    pub filename_start: usize,
    pub path_end: usize,
    pub timestamp_start: usize,
}

pub struct SplitView {
    pub path_start: int,
    pub filename_start: int,
    pub path_end: int,
    pub timestamp_start: int,
}

impl View for SplitRow {
    type V = SplitView;

    open spec fn view(&self) -> SplitView {
        SplitView {
            path_start: self.path_start as int,
            filename_start: self.filename_start as int,
            path_end: self.path_end as int,
            timestamp_start: self.timestamp_start as int,
        }
    }
}

/// How a row splits into its parts.
pub open spec fn split_spec(look_for_git_prefixes: bool, row: Seq<TokenView>, sep: char) -> SplitView {
    let ps = path_start_spec(look_for_git_prefixes, row, sep);
    let pe = blank_from(row, 0);
    SplitView {
        path_start: ps,
        filename_start: filename_start_spec(row, ps, pe, sep),
        path_end: pe,
        timestamp_start: if pe + 1 < row.len() {
            pe + 1
        } else {
            row.len() as int
        },
    }
}

/// Whether a token is a path separator.
fn is_separator_token(t: &String, sep: char) -> (r: bool)
    ensures
        r == is_separator(t@, sep),
{
    let v = chars_of(t.as_str());
    if v.len() == 1 && (v[0] == '/' || v[0] == sep) {
        assert(v@ =~= seq![v@[0]]);
        true
    } else {
        proof {
            if t@ == seq!['/'] || t@ == seq![sep] {
                assert(v@.len() == 1);
            }
        }
        false
    }
}

/// Whether a token is exactly the single character `c`.
fn is_char_token(t: &String, c: char) -> (r: bool)
    ensures
        r == (t@ == seq![c]),
{
    let v = chars_of(t.as_str());
    if v.len() == 1 && v[0] == c {
        assert(v@ =~= seq![c]);
        true
    } else {
        false
    }
}

/// Splits a row into (prefix, just_path, just_filename, time_space,
/// timestamp) parts.
///
/// Let's say we have a row like this and `look_for_git_prefixes` is true:
/// `a/doc/c.txt\t2023-12-15 15:43:29`
///
/// Then the parts will be:
/// - `prefix`: `a/`
/// - `just_path`: `doc/`
/// - `just_filename`: `c.txt`
/// - `time_space`: `\t`
/// - `timestamp`: `2023-12-15 15:43:29`
///
/// The path ends where the first whitespace token (a tab or two or more
/// spaces) starts the timestamp, or at the end of the row.
pub fn split_row(look_for_git_prefixes: bool, row: &[StyledToken], separator: char) -> (r: SplitRow)
    requires
        path_start_spec(look_for_git_prefixes, tokens_view(row@), separator) <= blank_from(
            tokens_view(row@),
            0,
        ),
    ensures
        r@ == split_spec(look_for_git_prefixes, tokens_view(row@), separator),
        r.path_start <= r.filename_start <= r.path_end <= r.timestamp_start <= row@.len(),
{
    let ghost rv = tokens_view(row@);
    let path_start: usize = if look_for_git_prefixes && row.len() >= 2 && is_one_byte_token(
        &row[0].token,
    ) && is_separator_token(&row[1].token, separator) {
        // If we have a git prefix, the path starts after the first two tokens
        2
    } else {
        // Otherwise, it starts at the first token
        0
    };
    assert(path_start == path_start_spec(look_for_git_prefixes, rv, separator)) by {
        if look_for_git_prefixes && row.len() >= 2 {
            assert(rv[0].token == row@[0].token@);
            assert(rv[1].token == row@[1].token@);
        }
    }

    // Path ends where the timestamp starts, or at the end of the row if there
    // is no timestamp
    let mut path_end: usize = 0;
    while path_end < row.len() && !str_all_whitespace(row[path_end].token.as_str())
        invariant
            path_end <= row.len(),
            rv == tokens_view(row@),
            blank_from(rv, path_end as int) == blank_from(rv, 0),
        decreases row.len() - path_end,
    {
        assert(rv[path_end as int].token == row@[path_end as int].token@);
        path_end = path_end + 1;
    }
    proof {
        if path_end < row.len() {
            assert(rv[path_end as int].token == row@[path_end as int].token@);
        }
    }
    assert(path_end == blank_from(rv, 0));

    let timestamp_start: usize = if path_end < row.len() {
        path_end + 1
    } else {
        row.len()
    };

    // The file name starts after the last separator of the path
    let mut filename_start: usize = path_end;
    while filename_start > path_start && !is_separator_token(&row[filename_start - 1].token, separator)
        invariant
            path_start <= filename_start <= path_end <= row.len(),
            rv == tokens_view(row@),
            filename_start_spec(rv, path_start as int, filename_start as int, separator)
                == filename_start_spec(rv, path_start as int, path_end as int, separator),
        decreases filename_start,
    {
        assert(rv[filename_start - 1].token == row@[filename_start - 1].token@);
        filename_start = filename_start - 1;
    }
    proof {
        if filename_start > path_start {
            assert(rv[filename_start - 1].token == row@[filename_start - 1].token@);
        }
    }
    SplitRow { path_start, filename_start, path_end, timestamp_start }
}

/// Whether a token takes exactly one byte in UTF-8.
fn is_one_byte_token(t: &String) -> (r: bool)
    ensures
        r == is_one_byte(t@),
{
    let v = chars_of(t.as_str());
    v.len() == 1 && (v[0] as u32) < 0x80
}

// ---------------------------------------------------------------------------
// Git prefixes
// ---------------------------------------------------------------------------

/// The row starts with `letter` and a separator, as in `a/`.
pub open spec fn has_git_prefix(row: Seq<TokenView>, letter: char, sep: char) -> bool {
    row.len() >= 2 && row[0].token == seq![letter] && is_separator(row[1].token, sep)
}

/// The row starts with a separator.
pub open spec fn is_absolute(row: Seq<TokenView>, sep: char) -> bool {
    row.len() > 0 && is_separator(row[0].token, sep)
}

/// Both rows look like git's: the old one starts with `a/` or is absolute
/// (as `/dev/null` is), the new one starts with `b/` or is absolute.
pub open spec fn git_prefixes_spec(old: Seq<TokenView>, new: Seq<TokenView>, sep: char) -> bool {
    (has_git_prefix(old, 'a', sep) || is_absolute(old, sep)) && (has_git_prefix(new, 'b', sep)
        || is_absolute(new, sep))
}

/// Both "a/..." and "/dev/null" count as having a git prefix.
fn have_git_prefixes(old_tokens: &Vec<StyledToken>, new_tokens: &Vec<StyledToken>, separator: char) -> (r:
    bool)
    requires
        old_tokens@.len() > 0,
        new_tokens@.len() > 0,
    ensures
        r == git_prefixes_spec(tokens_view(old_tokens@), tokens_view(new_tokens@), separator),
{
    let ghost ov = tokens_view(old_tokens@);
    let ghost nv = tokens_view(new_tokens@);
    assert(ov[0].token == old_tokens@[0].token@);
    assert(nv[0].token == new_tokens@[0].token@);
    let old_has_git_prefix = old_tokens.len() >= 2 && is_char_token(&old_tokens[0].token, 'a')
        && is_separator_token(&old_tokens[1].token, separator);
    let old_is_absolute = is_separator_token(&old_tokens[0].token, separator);
    let new_has_git_prefix = new_tokens.len() >= 2 && is_char_token(&new_tokens[0].token, 'b')
        && is_separator_token(&new_tokens[1].token, separator);
    let new_is_absolute = is_separator_token(&new_tokens[0].token, separator);
    proof {
        if old_tokens@.len() >= 2 {
            assert(ov[1].token == old_tokens@[1].token@);
        }
        if new_tokens@.len() >= 2 {
            assert(nv[1].token == new_tokens@[1].token@);
        }
    }
    return (old_has_git_prefix || old_is_absolute) && (new_has_git_prefix || new_is_absolute);
}

// ---------------------------------------------------------------------------
// Decorating the parts of a row
// ---------------------------------------------------------------------------

/// The file name tokens made bright, unless they are highlighted changes.
pub open spec fn brightened(row: Seq<TokenView>, s: SplitView) -> Seq<TokenView> {
    Seq::new(
        row.len(),
        |i: int|
            if s.filename_start <= i < s.path_end && row[i].style != Style::DiffPartHighlighted {
                with_style(row[i], Style::Bright)
            } else {
                row[i]
            },
    )
}

/// The text `/dev/null`.
pub open spec fn dev_null() -> Seq<char> {
    seq!['/', 'd', 'e', 'v', '/', 'n', 'u', 'l', 'l']
}

/// A path `/dev/` (followed by anything) and a file name `null`.
pub open spec fn is_dev_null(path: Seq<TokenView>, filename: Seq<TokenView>) -> bool {
    &&& path.len() >= 3
    &&& filename.len() == 1
    &&& path[0].token == seq!['/']
    &&& path[1].token == seq!['d', 'e', 'v']
    &&& path[2].token == seq!['/']
    &&& filename[0].token == seq!['n', 'u', 'l', 'l']
}

/// The texts of some tokens, one after the other.
pub open spec fn joined(ts: Seq<TokenView>) -> Seq<char>
    decreases ts.len(),
{
    if ts.len() == 0 {
        seq![]
    } else {
        joined(ts.drop_last()) + ts.last().token
    }
}

/// The file that a row's path and file name could be linked to: their joined
/// text, unless that is `/dev/null`.
pub open spec fn link_target(row: Seq<TokenView>, s: SplitView) -> Option<Seq<char>> {
    let name = joined(row.subrange(s.path_start, s.path_end));
    if name == dev_null() {
        None
    } else {
        Some(name)
    }
}

/// A row decorated: the git prefix and the timestamp lowlighted, the space
/// before the timestamp plain, the path and file name linked to `url` when
/// there is one, and lowlighted when they spell `/dev/null`.
pub open spec fn decorated(row: Seq<TokenView>, s: SplitView, url: Option<Seq<char>>) -> Seq<TokenView> {
    let lowlit = is_dev_null(
        row.subrange(s.path_start, s.filename_start),
        row.subrange(s.filename_start, s.path_end),
    );
    Seq::new(
        row.len(),
        |i: int|
            if i < s.path_start {
                with_style(row[i], Style::Lowlighted)
            } else if i < s.path_end {
                let linked = match url {
                    Some(u) => TokenView { url: Some(u), ..row[i] },
                    None => row[i],
                };
                if lowlit {
                    with_style(linked, Style::Lowlighted)
                } else {
                    linked
                }
            } else if i < s.timestamp_start {
                with_style(row[i], Style::Context)
            } else {
                with_style(row[i], Style::Lowlighted)
            },
    )
}

/// Brightens the file name tokens of a row, unless they are highlighted
/// changes.
fn brighten(row: &Vec<StyledToken>, s: &SplitRow) -> (r: Vec<StyledToken>)
    ensures
        tokens_view(r@) == brightened(tokens_view(row@), s@),
{
    let ghost rv = tokens_view(row@);
    let mut out: Vec<StyledToken> = Vec::new();
    let mut i: usize = 0;
    while i < row.len()
        invariant
            i <= row.len(),
            rv == tokens_view(row@),
            tokens_view(out@) =~= brightened(rv, s@).take(i as int),
        decreases row.len() - i,
    {
        let ghost before = out@;
        let mut t = row[i].duplicate();
        if s.filename_start <= i && i < s.path_end && t.style != Style::DiffPartHighlighted {
            t.style = Style::Bright;
        }
        out.push(t);
        assert(rv[i as int] == row@[i as int]@);
        assert(tokens_view(out@) =~= tokens_view(before).push(out@[i as int]@));
        i = i + 1;
    }
    out
}

/// Whether two token ranges are equal: same texts, styles and links.
fn same_tokens(a: &Vec<StyledToken>, alo: usize, ahi: usize, b: &Vec<StyledToken>, blo: usize, bhi: usize) -> (r:
    bool)
    requires
        alo <= ahi <= a@.len(),
        blo <= bhi <= b@.len(),
    ensures
        r == (tokens_view(a@).subrange(alo as int, ahi as int) == tokens_view(b@).subrange(
            blo as int,
            bhi as int,
        )),
{
    let ghost av = tokens_view(a@).subrange(alo as int, ahi as int);
    let ghost bv = tokens_view(b@).subrange(blo as int, bhi as int);
    if ahi - alo != bhi - blo {
        assert(av.len() != bv.len());
        return false;
    }
    let mut i: usize = 0;
    while i < ahi - alo
        invariant
            alo <= ahi <= a@.len(),
            blo <= bhi <= b@.len(),
            ahi - alo == bhi - blo,
            av == tokens_view(a@).subrange(alo as int, ahi as int),
            bv == tokens_view(b@).subrange(blo as int, bhi as int),
            i <= ahi - alo,
            forall|j: int| 0 <= j < i ==> av[j] == bv[j],
        decreases ahi - alo - i,
    {
        let ta = &a[alo + i];
        let tb = &b[blo + i];
        assert(av[i as int] == ta@);
        assert(bv[i as int] == tb@);
        if !crate::text::str_eq(ta.token.as_str(), tb.token.as_str()) || ta.style != tb.style
            || !crate::ansi::opt_string_eq(&ta.url, &tb.url) {
            return false;
        }
        i = i + 1;
    }
    assert(av =~= bv);
    true
}

/// The texts of `row[lo..hi]`, one after the other.
fn joined_text(row: &Vec<StyledToken>, lo: usize, hi: usize) -> (r: String)
    requires
        lo <= hi <= row@.len(),
    ensures
        r@ == joined(tokens_view(row@).subrange(lo as int, hi as int)),
{
    let ghost rv = tokens_view(row@);
    let mut out = String::new();
    let mut i: usize = lo;
    assert(rv.subrange(lo as int, lo as int) =~= Seq::<TokenView>::empty());
    while i < hi
        invariant
            lo <= i <= hi <= row@.len(),
            rv == tokens_view(row@),
            out@ == joined(rv.subrange(lo as int, i as int)),
        decreases hi - i,
    {
        assert(rv.subrange(lo as int, i + 1).drop_last() =~= rv.subrange(lo as int, i as int));
        crate::text::push_str(&mut out, row[i].token.as_str());
        i = i + 1;
    }
    out
}

/// The file that a row's path and file name could be linked to.
fn link_target_of(row: &Vec<StyledToken>, s: &SplitRow) -> (r: Option<String>)
    requires
        s.path_start <= s.path_end <= row@.len(),
    ensures
        crate::ansi::opt_view(r) == link_target(tokens_view(row@), s@),
{
    let name = joined_text(row, s.path_start, s.path_end);
    let v = chars_of(name.as_str());
    let dn = chars_of("/dev/null");
    proof {
        reveal_strlit("/dev/null");
        assert(dn@ =~= dev_null());
    }
    if crate::text::chars_eq(&v, &dn) {
        // Hyperlinking /dev/null would just be confusing
        None
    } else {
        Some(name)
    }
}

/// Whether a token's text is `text`.
fn token_text_is(t: &StyledToken, text: &str) -> (r: bool)
    ensures
        r == (t@.token == text@),
{
    crate::text::str_eq(t.token.as_str(), text)
}

/// Whether the path and file name of a row spell `/dev/`...`null`.
fn is_dev_null_row(row: &Vec<StyledToken>, s: &SplitRow) -> (r: bool)
    requires
        s.path_start <= s.filename_start <= s.path_end <= row@.len(),
    ensures
        r == is_dev_null(
            tokens_view(row@).subrange(s.path_start as int, s.filename_start as int),
            tokens_view(row@).subrange(s.filename_start as int, s.path_end as int),
        ),
{
    let ghost rv = tokens_view(row@);
    proof {
        reveal_strlit("/");
        reveal_strlit("dev");
        reveal_strlit("null");
        assert("/"@ =~= seq!['/']);
        assert("dev"@ =~= seq!['d', 'e', 'v']);
        assert("null"@ =~= seq!['n', 'u', 'l', 'l']);
    }
    if s.filename_start - s.path_start < 3 {
        // Expected "/dev/"
        return false;
    }
    if s.path_end - s.filename_start != 1 {
        // Expected "null"
        return false;
    }
    let p = s.path_start;
    assert(rv[p as int] == row@[p as int]@);
    assert(rv[p + 1] == row@[p + 1]@);
    assert(rv[p + 2] == row@[p + 2]@);
    assert(rv[s.filename_start as int] == row@[s.filename_start as int]@);
    token_text_is(&row[p], "/") && token_text_is(&row[p + 1], "dev") && token_text_is(
        &row[p + 2],
        "/",
    ) && token_text_is(&row[s.filename_start], "null")
}

/// Decorates a row: the git prefix and the timestamp lowlighted, the space
/// before the timestamp plain, the path and file name linked to `url` when
/// there is one, and lowlighted when they spell `/dev/null`.
fn decorate(row: &Vec<StyledToken>, s: &SplitRow, url: &Option<String>) -> (r: Vec<StyledToken>)
    requires
        s.path_start <= s.filename_start <= s.path_end <= s.timestamp_start <= row@.len(),
    ensures
        tokens_view(r@) == decorated(tokens_view(row@), s@, crate::ansi::opt_view(*url)),
{
    let ghost rv = tokens_view(row@);
    let ghost target = decorated(rv, s@, crate::ansi::opt_view(*url));
    let lowlit = is_dev_null_row(row, s);
    let mut out: Vec<StyledToken> = Vec::new();
    let mut i: usize = 0;
    while i < row.len()
        invariant
            i <= row.len(),
            s.path_start <= s.filename_start <= s.path_end <= s.timestamp_start <= row@.len(),
            rv == tokens_view(row@),
            target == decorated(rv, s@, crate::ansi::opt_view(*url)),
            lowlit == is_dev_null(
                rv.subrange(s.path_start as int, s.filename_start as int),
                rv.subrange(s.filename_start as int, s.path_end as int),
            ),
            tokens_view(out@) =~= target.take(i as int),
        decreases row.len() - i,
    {
        let ghost before = out@;
        let mut t = row[i].duplicate();
        if i < s.path_start {
            t.style = Style::Lowlighted;
        } else if i < s.path_end {
            if let Some(u) = url {
                t.url = Some(u.clone());
            }
            if lowlit {
                t.style = Style::Lowlighted;
            }
        } else if i < s.timestamp_start {
            t.style = Style::Context;
        } else {
            t.style = Style::Lowlighted;
        }
        out.push(t);
        assert(rv[i as int] == row@[i as int]@);
        assert(tokens_view(out@) =~= tokens_view(before).push(out@[i as int]@));
        i = i + 1;
    }
    out
}

// ---------------------------------------------------------------------------
// Aligning the timestamps
// ---------------------------------------------------------------------------

/// The index of the first tab token at or after `i`, or the row's length.
pub open spec fn tab_index(row: Seq<TokenView>, i: int) -> int
    decreases row.len() - i,
{
    if i >= row.len() {
        row.len() as int
    } else if row[i].token == seq!['\t'] {
        i
    } else {
        tab_index(row, i + 1)
    }
}

/// `n` spaces.
pub open spec fn spaces(n: int) -> Seq<char> {
    Seq::new(n as nat, |_i: int| ' ')
}

/// When both rows have a tab token, each first tab is replaced by enough
/// spaces (at least two) that the texts after them start in the same column.
pub open spec fn aligned(old_row: Seq<TokenView>, new_row: Seq<TokenView>) -> (Seq<TokenView>, Seq<
    TokenView,
>) {
    let ko = tab_index(old_row, 0);
    let kn = tab_index(new_row, 0);
    if ko < old_row.len() && kn < new_row.len() {
        let co = joined(old_row.subrange(0, ko)).len() as int;
        let cn = joined(new_row.subrange(0, kn)).len() as int;
        let m = if co > cn {
            co
        } else {
            cn
        };
        (
            old_row.update(ko, TokenView { token: spaces(2 + m - co), ..old_row[ko] }),
            new_row.update(kn, TokenView { token: spaces(2 + m - cn), ..new_row[kn] }),
        )
    } else {
        (old_row, new_row)
    }
}

/// The index of the first tab token of a row, or its length.
fn tab_position(row: &Vec<StyledToken>) -> (r: usize)
    ensures
        r == tab_index(tokens_view(row@), 0),
        r <= row@.len(),
{
    let ghost rv = tokens_view(row@);
    let mut i: usize = 0;
    while i < row.len() && !is_char_token(&row[i].token, '\t')
        invariant
            i <= row.len(),
            rv == tokens_view(row@),
            tab_index(rv, i as int) == tab_index(rv, 0),
        decreases row.len() - i,
    {
        assert(rv[i as int].token == row@[i as int].token@);
        i = i + 1;
    }
    proof {
        if i < row.len() {
            assert(rv[i as int].token == row@[i as int].token@);
        }
    }
    i
}

/// Two spaces and `extra` more.
fn spaces_text(extra: usize) -> (r: String)
    ensures
        r@ == spaces(2 + extra),
{
    let mut out = String::new();
    crate::text::push_char(&mut out, ' ');
    crate::text::push_char(&mut out, ' ');
    let mut i: usize = 0;
    while i < extra
        invariant
            i <= extra,
            out@ == spaces(2 + i),
        decreases extra - i,
    {
        crate::text::push_char(&mut out, ' ');
        i = i + 1;
        assert(out@ =~= spaces(2 + i));
    }
    out
}

/// A token with another text.
fn with_text(t: &StyledToken, text: String) -> (r: StyledToken)
    ensures
        r@ == (TokenView { token: text@, ..t@ }),
{
    StyledToken { token: text, style: t.style, url: crate::ansi::copy_opt_string(&t.url) }
}

/// Replaces the first tab of each row by spaces so that what follows the
/// tabs (the timestamps) lines up.
fn align_tabs(old_row: &mut Vec<StyledToken>, new_row: &mut Vec<StyledToken>)
    ensures
        (tokens_view(final(old_row)@), tokens_view(final(new_row)@)) == aligned(
            tokens_view(old(old_row)@),
            tokens_view(old(new_row)@),
        ),
{
    let ghost ov = tokens_view(old_row@);
    let ghost nv = tokens_view(new_row@);
    let old_tab = tab_position(old_row);
    if old_tab == old_row.len() {
        return;
    }
    let new_tab = tab_position(new_row);
    if new_tab == new_row.len() {
        return;
    }
    let old_before = joined_text(old_row, 0, old_tab);
    let new_before = joined_text(new_row, 0, new_tab);
    let old_chars = crate::text::char_count(old_before.as_str());
    let new_chars = crate::text::char_count(new_before.as_str());
    let widest = if old_chars > new_chars {
        old_chars
    } else {
        new_chars
    };
    let old_token = with_text(&old_row[old_tab], spaces_text(widest - old_chars));
    let new_token = with_text(&new_row[new_tab], spaces_text(widest - new_chars));
    assert(ov[old_tab as int] == old_row@[old_tab as int]@);
    assert(nv[new_tab as int] == new_row@[new_tab as int]@);
    old_row.set(old_tab, old_token);
    new_row.set(new_tab, new_token);
    assert(tokens_view(old_row@) =~= ov.update(
        old_tab as int,
        TokenView { token: spaces(2 + widest - old_chars), ..ov[old_tab as int] },
    ));
    assert(tokens_view(new_row@) =~= nv.update(
        new_tab as int,
        TokenView { token: spaces(2 + widest - new_chars), ..nv[new_tab as int] },
    ));
}

// ---------------------------------------------------------------------------
// The header
// ---------------------------------------------------------------------------

/// The highlighted tokens of both names; the side facing `/dev/null` is not
/// diff highlighted.
pub open spec fn plain_rows(old_name: Seq<char>, new_name: Seq<char>) -> (Seq<TokenView>, Seq<
    TokenView,
>) {
    let (o0, n0) = highlighted_tokens(old_name, new_name);
    (
        if new_name == dev_null() {
            as_context(o0)
        } else {
            o0
        },
        if old_name == dev_null() {
            as_context(n0)
        } else {
            n0
        },
    )
}

/// The files that decorated rows link their paths and file names to, if
/// they can be found: the old one only when its path and file name are the
/// same as the new one's, since a file that is gone would be the wrong one;
/// neither when it is `/dev/null`.
pub open spec fn path_targets(o1: Seq<TokenView>, n1: Seq<TokenView>, sep: char) -> (Option<
    Seq<char>,
>, Option<Seq<char>>) {
    let look = git_prefixes_spec(o1, n1, sep);
    let so = split_spec(look, o1, sep);
    let sn = split_spec(look, n1, sep);
    let ob = brightened(o1, so);
    let nb = brightened(n1, sn);
    let same_path = ob.subrange(so.path_start, so.filename_start) == nb.subrange(
        sn.path_start,
        sn.filename_start,
    ) && ob.subrange(so.filename_start, so.path_end) == nb.subrange(
        sn.filename_start,
        sn.path_end,
    );
    (
        if same_path {
            link_target(o1, so)
        } else {
            None
        },
        link_target(n1, sn),
    )
}

/// Both rows split and decorated: file names brightened, git prefixes and
/// timestamps lowlighted, paths linked to `old_url` and `new_url` where a
/// link target exists, `/dev/null` lowlighted, and the timestamps aligned.
pub open spec fn decorated_paths(
    o1: Seq<TokenView>,
    n1: Seq<TokenView>,
    sep: char,
    old_url: Option<Seq<char>>,
    new_url: Option<Seq<char>>,
) -> (Seq<TokenView>, Seq<TokenView>) {
    let look = git_prefixes_spec(o1, n1, sep);
    let so = split_spec(look, o1, sep);
    let sn = split_spec(look, n1, sep);
    let (old_target, new_target) = path_targets(o1, n1, sep);
    let o2 = decorated(
        brightened(o1, so),
        so,
        if old_target is Some {
            old_url
        } else {
            None
        },
    );
    let n2 = decorated(
        brightened(n1, sn),
        sn,
        if new_target is Some {
            new_url
        } else {
            None
        },
    );
    aligned(o2, n2)
}

/// The files that the header for these names links them to, if they can be
/// found.
pub open spec fn link_targets_spec(old_name: Seq<char>, new_name: Seq<char>, sep: char) -> (Option<
    Seq<char>,
>, Option<Seq<char>>) {
    let (o1, n1) = plain_rows(old_name, new_name);
    path_targets(o1, n1, sep)
}

/// A bright label in front of a name.
pub open spec fn label(text: Seq<char>) -> TokenView {
    TokenView { token: text, style: Style::Bright, url: None }
}

pub open spec fn deleted_label() -> Seq<char> {
    seq!['D', 'E', 'L', 'E', 'T', 'E', 'D', ' ']
}

pub open spec fn new_label() -> Seq<char> {
    seq!['N', 'E', 'W', ' ']
}

/// The tokens of both header lines: the names diff highlighted against each
/// other, decorated, and a `DELETED` / `NEW` label in front when the other
/// side is `/dev/null`.
pub open spec fn header_rows_spec(
    old_name: Seq<char>,
    new_name: Seq<char>,
    sep: char,
    old_url: Option<Seq<char>>,
    new_url: Option<Seq<char>>,
) -> (Seq<TokenView>, Seq<TokenView>) {
    let (o1, n1) = plain_rows(old_name, new_name);
    let (o3, n3) = decorated_paths(o1, n1, sep, old_url, new_url);
    (
        if new_name == dev_null() {
            seq![label(deleted_label())] + o3
        } else {
            o3
        },
        if old_name == dev_null() {
            seq![label(new_label())] + n3
        } else {
            n3
        },
    )
}

/// The two highlighted header lines, each ending in a newline.
pub open spec fn header_text(
    old_name: Seq<char>,
    new_name: Seq<char>,
    sep: char,
    old_url: Option<Seq<char>>,
    new_url: Option<Seq<char>>,
) -> Seq<char> {
    let (o, n) = header_rows_spec(old_name, new_name, sep, old_url, new_url);
    render_spec(filename_line_style(Color::Red), seq!['-', '-', '-', ' '], o) + seq!['\n']
        + render_spec(filename_line_style(Color::Green), seq!['+', '+', '+', ' '], n) + seq!['\n']
}

/// A text's tokens are not empty when the text is not.
proof fn lemma_tokens_nonempty(s: Seq<char>)
    requires
        s.len() > 0,
    ensures
        tokenize_spec(s).len() > 0,
{
    lemma_tokenize_lossless(s);
    if tokenize_spec(s).len() == 0 {
        assert(tokenize_spec(s).flatten() =~= Seq::<char>::empty());
    }
}

/// The first row token of a row with a git prefix or an absolute path is
/// not whitespace, and neither is the second when it is a separator.
proof fn lemma_path_start_before_blank(row: Seq<TokenView>, letter: char, sep: char)
    requires
        sep == '/' || sep == '\\',
        letter == 'a' || letter == 'b',
        has_git_prefix(row, letter, sep) || is_absolute(row, sep),
    ensures
        path_start_spec(true, row, sep) <= blank_from(row, 0),
{
    lemma_blank_from_at_least(row, 0);
    assert(!is_whitespace_char(row[0].token[0]));
    assert(!all_whitespace(row[0].token));
    assert(blank_from(row, 0) == blank_from(row, 1));
    if path_start_spec(true, row, sep) == 2 {
        assert(!is_whitespace_char(row[1].token[0]));
        assert(!all_whitespace(row[1].token));
        assert(blank_from(row, 1) == blank_from(row, 2));
        lemma_blank_from_at_least(row, 2);
    }
}

proof fn lemma_blank_from_at_least(row: Seq<TokenView>, i: int)
    requires
        0 <= i <= row.len(),
    ensures
        i <= blank_from(row, i) <= row.len(),
    decreases row.len() - i,
{
    if i < row.len() && !all_whitespace(row[i].token) {
        lemma_blank_from_at_least(row, i + 1);
    }
}

/// Splits and decorates both rows: file names brightened, git prefixes and
/// timestamps lowlighted, paths hyperlinked, `/dev/null` lowlighted and
/// timestamps aligned. Also returns the files the paths were linked to.
fn decorate_paths(
    o1: &Vec<StyledToken>,
    n1: &Vec<StyledToken>,
    sep: char,
    old_url: &Option<String>,
    new_url: &Option<String>,
) -> (r: (Vec<StyledToken>, Vec<StyledToken>, Option<String>, Option<String>))
    requires
        o1@.len() > 0,
        n1@.len() > 0,
        sep == '/' || sep == '\\',
    ensures
        (tokens_view(r.0@), tokens_view(r.1@)) == decorated_paths(
            tokens_view(o1@),
            tokens_view(n1@),
            sep,
            opt_view(*old_url),
            opt_view(*new_url),
        ),
        (opt_view(r.2), opt_view(r.3)) == path_targets(tokens_view(o1@), tokens_view(n1@), sep),
{
    let ghost ov = tokens_view(o1@);
    let ghost nv = tokens_view(n1@);
    let look = have_git_prefixes(o1, n1, sep);
    proof {
        lemma_blank_from_at_least(ov, 0);
        lemma_blank_from_at_least(nv, 0);
        if look {
            lemma_path_start_before_blank(ov, 'a', sep);
            lemma_path_start_before_blank(nv, 'b', sep);
        }
    }
    let so = split_row(look, o1.as_slice(), sep);
    let sn = split_row(look, n1.as_slice(), sep);
    let ob = brighten(o1, &so);
    let nb = brighten(n1, &sn);
    assert(ob@.len() == tokens_view(ob@).len());
    assert(nb@.len() == tokens_view(nb@).len());

    // If the old filename is not the same as the new, it means it's gone,
    // and any file we link to is likely to be the wrong one. So we only
    // hyperlink the old name if it is the same as the new name.
    let same_path = same_tokens(&ob, so.path_start, so.filename_start, &nb, sn.path_start, sn.filename_start)
        && same_tokens(&ob, so.filename_start, so.path_end, &nb, sn.filename_start, sn.path_end);
    let old_target = if same_path {
        link_target_of(o1, &so)
    } else {
        None
    };
    let new_target = link_target_of(n1, &sn);
    let old_link = if old_target.is_some() {
        crate::ansi::copy_opt_string(old_url)
    } else {
        None
    };
    let new_link = if new_target.is_some() {
        crate::ansi::copy_opt_string(new_url)
    } else {
        None
    };

    let mut old_tokens = decorate(&ob, &so, &old_link);
    let mut new_tokens = decorate(&nb, &sn, &new_link);
    align_tabs(&mut old_tokens, &mut new_tokens);

    (old_tokens, new_tokens, old_target, new_target)
}

/// Highlights pairs of `--- old_name` / `+++ new_name` lines.
pub struct PlusMinusHeaderHighlighter {
    /// May or may not end with one or more tabs + a timestamp string.
    old_name: String,
    /// May or may not end with one or more tabs + a timestamp string.
    new_name: String,
    /// The platform's path separator.
    separator: char,
}

impl PlusMinusHeaderHighlighter {
    pub closed spec fn old_name(&self) -> Seq<char> {
        self.old_name@
    }

    pub closed spec fn new_name(&self) -> Seq<char> {
        self.new_name@
    }

    /// The path separator of this platform, `/` or `\`.
    pub closed spec fn separator(&self) -> char {
        self.separator
    }

    /// Create a new highlighter from a line of input.
    ///
    /// Returns None if this line doesn't start a `---` / `+++` header.
    pub fn from_line(line: &str) -> (r: Option<Self>)
        ensures
            starts_with(line@, "--- "@) <==> r is Some,
            r matches Some(h) ==> h.old_name() == line@.skip(4) && h.new_name().len() == 0 && (
            h.separator() == '/' || h.separator() == '\\'),
    {
        Self::from_line_with_separator(line, main_separator())
    }

    /// Like `from_line`, with the path separator given.
    pub fn from_line_with_separator(line: &str, separator: char) -> (r: Option<Self>)
        ensures
            starts_with(line@, "--- "@) <==> r is Some,
            r matches Some(h) ==> h.old_name() == line@.skip(4) && h.new_name().len() == 0
                && h.separator() == separator,
    {
        let v = chars_of(line);
        let prefix = chars_of("--- ");
        if !chars_start_with(&v, &prefix) {
            return None;
        }
        proof {
            reveal_strlit("--- ");
        }
        let rest = slice_chars(&v, 4, v.len());
        assert(rest@ =~= line@.skip(4));
        Some(PlusMinusHeaderHighlighter {
            old_name: string_of_chars(&rest),
            new_name: String::new(),
            separator,
        })
    }

    /// The tokens of both header lines, and the files they could link to.
    fn header_rows(&self, new_name: &str, old_url: &Option<String>, new_url: &Option<String>) -> (r: (
        Vec<StyledToken>,
        Vec<StyledToken>,
        Option<String>,
        Option<String>,
    ))
        requires
            self.old_name@.len() > 0,
            new_name@.len() > 0,
            self.separator == '/' || self.separator == '\\',
        ensures
            (tokens_view(r.0@), tokens_view(r.1@)) == header_rows_spec(
                self.old_name@,
                new_name@,
                self.separator,
                opt_view(*old_url),
                opt_view(*new_url),
            ),
            (opt_view(r.2), opt_view(r.3)) == link_targets_spec(
                self.old_name@,
                new_name@,
                self.separator,
            ),
    {
        let sep = self.separator;
        let ghost on = self.old_name@;
        let ghost nn = new_name@;
        let (o0, n0) = to_highlighted_tokens(self.old_name.as_str(), new_name);
        let dn = chars_of("/dev/null");
        proof {
            reveal_strlit("/dev/null");
            assert(dn@ =~= dev_null());
        }
        let old_is_dev_null = crate::text::chars_eq(&chars_of(self.old_name.as_str()), &dn);
        let new_is_dev_null = crate::text::chars_eq(&chars_of(new_name), &dn);

        // Don't diff highlight vs "/dev/null"
        let o1 = if new_is_dev_null {
            all_context(&o0)
        } else {
            o0
        };
        let n1 = if old_is_dev_null {
            all_context(&n0)
        } else {
            n0
        };
        let ghost ov = tokens_view(o1@);
        let ghost nv = tokens_view(n1@);
        assert((ov, nv) == plain_rows(on, nn));
        proof {
            lemma_tokens_nonempty(on);
            lemma_tokens_nonempty(nn);
            let ho = highlighted_tokens(on, nn);
            let mk = crate::refiner::marked_tokens(on, nn);
            assert(mk.0.len() >= tokenize_spec(on).len());
            assert(mk.1.len() >= tokenize_spec(nn).len());
            assert(token_texts(ho.0).len() == ho.0.len());
            assert(token_texts(ho.1).len() == ho.1.len());
            assert(ov.len() == ho.0.len());
            assert(nv.len() == ho.1.len());
            assert(o1@.len() > 0);
            assert(n1@.len() > 0);
        }

        let (mut old_tokens, mut new_tokens, old_target, new_target) = decorate_paths(
            &o1,
            &n1,
            sep,
            old_url,
            new_url,
        );

        let ghost o3 = tokens_view(old_tokens@);
        let ghost n3 = tokens_view(new_tokens@);
        if new_is_dev_null {
            let t = StyledToken::new(string_of_str("DELETED "), Style::Bright);
            proof {
                reveal_strlit("DELETED ");
                assert("DELETED "@ =~= deleted_label());
            }
            old_tokens.insert(0, t);
            assert(tokens_view(old_tokens@) =~= seq![label(deleted_label())] + o3);
        }
        if old_is_dev_null {
            let t = StyledToken::new(string_of_str("NEW "), Style::Bright);
            proof {
                reveal_strlit("NEW ");
                assert("NEW "@ =~= new_label());
            }
            new_tokens.insert(0, t);
            assert(tokens_view(new_tokens@) =~= seq![label(new_label())] + n3);
        }
        (old_tokens, new_tokens, old_target, new_target)
    }

    /// The two highlighted header lines.
    fn highlighted(&self, old_url: &Option<String>, new_url: &Option<String>) -> (r: String)
        requires
            self.old_name@.len() > 0,
            self.new_name@.len() > 0,
            self.separator == '/' || self.separator == '\\',
        ensures
            r@ == header_text(
                self.old_name@,
                self.new_name@,
                self.separator,
                opt_view(*old_url),
                opt_view(*new_url),
            ),
    {
        let (old_tokens, new_tokens, _, _) = self.header_rows(self.new_name.as_str(), old_url, new_url);
        let old_filename = render(&line_style_old_filename(), "--- ", old_tokens.as_slice());
        let new_filename = render(&line_style_new_filename(), "+++ ", new_tokens.as_slice());
        proof {
            reveal_strlit("--- ");
            reveal_strlit("+++ ");
            assert("--- "@ =~= seq!['-', '-', '-', ' ']);
            assert("+++ "@ =~= seq!['+', '+', '+', ' ']);
        }

        let mut highlighted = String::new();
        push_str(&mut highlighted, old_filename.as_str());
        crate::text::push_char(&mut highlighted, '\n');
        push_str(&mut highlighted, new_filename.as_str());
        crate::text::push_char(&mut highlighted, '\n');
        return highlighted;
    }

    /// Whether the `+++` line `line` can be taken: there is an old name, no
    /// new name yet, and `line` names a new file.
    pub open spec fn can_take(&self, line: Seq<char>) -> bool {
        &&& self.old_name().len() > 0
        &&& self.new_name().len() == 0
        &&& starts_with(line, "+++ "@) ==> line.len() > 4
    }

    /// The files that the header for the `+++` line `line` would link its
    /// old and new name to, before anyone has looked whether they exist;
    /// `None` for each when `line` is no `+++` line it can take.
    pub fn link_targets(&self, line: &str) -> (r: (Option<String>, Option<String>))
        requires
            self.separator() == '/' || self.separator() == '\\',
        ensures
            self.can_take(line@) && starts_with(line@, "+++ "@) ==> (opt_view(r.0), opt_view(r.1))
                == link_targets_spec(self.old_name(), line@.skip(4), self.separator()),
            !(self.can_take(line@) && starts_with(line@, "+++ "@)) ==> r.0 is None && r.1 is None,
    {
        let v = chars_of(line);
        let prefix = chars_of("+++ ");
        proof {
            reveal_strlit("+++ ");
        }
        if !chars_start_with(&v, &prefix) || v.len() <= 4 || self.old_name.as_str().is_empty()
            || !self.new_name.as_str().is_empty() {
            return (None, None);
        }
        let rest = slice_chars(&v, 4, v.len());
        assert(rest@ =~= line@.skip(4));
        let new_name = string_of_chars(&rest);
        let (_, _, old_target, new_target) = self.header_rows(new_name.as_str(), &None, &None);
        (old_target, new_target)
    }

    /// Takes the `+++` line that must follow. `old_url` and `new_url` are
    /// the addresses of the files that `link_targets` names, where those
    /// files exist; the header links the names to them. `None` where the
    /// line cannot be taken.
    pub fn consume_line(&mut self, line: &str, old_url: Option<String>, new_url: Option<String>) -> (r:
        Option<Result<Response, String>>)
        requires
            old(self).separator() == '/' || old(self).separator() == '\\',
        ensures
            r is None <==> !old(self).can_take(line@),
            r matches Some(res) ==> (starts_with(line@, "+++ "@) <==> res is Ok),
            r matches Some(Ok(resp)) ==> resp.line_accepted == LineAcceptance::AcceptedDone && futures_view(
                resp.highlighted@,
            ) == seq![
                header_text(
                    old(self).old_name(),
                    line@.skip(4),
                    old(self).separator(),
                    opt_view(old_url),
                    opt_view(new_url),
                ),
            ],
            r matches Some(Err(e)) ==> e@ == "--- was not followed by +++"@,
            final(self).old_name() == old(self).old_name(),
            final(self).separator() == old(self).separator(),
            final(self).new_name() == if r matches Some(Ok(_)) {
                line@.skip(4)
            } else {
                old(self).new_name()
            },
    {
        let v = chars_of(line);
        let prefix = chars_of("+++ ");
        proof {
            reveal_strlit("+++ ");
        }
        let starts = chars_start_with(&v, &prefix);
        if self.old_name.as_str().is_empty() || !self.new_name.as_str().is_empty() || (starts
            && v.len() <= 4) {
            return None;
        }
        if starts {
            let rest = slice_chars(&v, 4, v.len());
            assert(rest@ =~= line@.skip(4));
            push_chars(&mut self.new_name, &rest, 0, rest.len());
            assert(self.new_name@ =~= line@.skip(4));
            let text = self.highlighted(&old_url, &new_url);
            let mut highlighted = Vec::new();
            highlighted.push(StringFuture::from_string(text));
            assert(futures_view(highlighted@) =~= seq![
                header_text(self.old_name@, line@.skip(4), self.separator, opt_view(old_url), opt_view(new_url)),
            ]);
            return Some(Ok(Response { line_accepted: LineAcceptance::AcceptedDone, highlighted }));
        }
        return Some(Err(string_of_str("--- was not followed by +++")));
    }

    /// The input ended before the `+++` line.
    pub fn consume_eof(&mut self) -> (r: Result<Vec<StringFuture>, String>)
        ensures
            r matches Err(e) && e@ == "Input ended early, --- should have been followed by +++"@,
            final(self).old_name() == old(self).old_name(),
            final(self).new_name() == old(self).new_name(),
            final(self).separator() == old(self).separator(),
    {
        return Err(string_of_str("Input ended early, --- should have been followed by +++"));
    }
}


/// A letter or digit of ASCII.
pub open spec fn is_ascii_letter_or_digit(c: char) -> bool {
    ('a' <= c && c <= 'z') || ('A' <= c && c <= 'Z') || ('0' <= c && c <= '9')
}

/// The path holds no `\`, and ends with `/` and then `name`, a non-empty
/// run of ASCII letters and digits (so `name` is its last component on every
/// platform, and needs no percent-encoding).
pub open spec fn plain_last_name(path: Seq<char>, name: Seq<char>) -> bool {
    &&& !path.contains('\\')
    &&& name.len() > 0
    &&& forall|j: int| 0 <= j < name.len() ==> #[trigger] is_ascii_letter_or_digit(name[j])
    &&& ends_with(path, seq!['/'] + name)
}

/// `url::Url::from_file_path` on a path, with the URL written out as text.
/// Every URL it makes starts with `file://` (its source writes that first,
/// and `to_string` gives back what it wrote), and it ends with `/` and the
/// path's last component, percent-encoded (the source pushes `/` and each
/// encoded component, on Unix and on Windows alike). The contract states
/// the last component where it is plain: a run of ASCII letters and digits
/// after the path's last `/` in a path without `\`. Which paths it takes
/// and how it writes the rest follows the platform's path rules, so nothing
/// more is stated.
#[verifier::external_body]
fn file_url(path: &str) -> (r: Option<String>)
    ensures
        r matches Some(u) ==> starts_with(u@, "file://"@),
        forall|name: Seq<char>| #[trigger] plain_last_name(path@, name) ==> (r matches Some(u)
            ==> ends_with(u@, seq!['/'] + name)),
{
    match url::Url::from_file_path(path) {
        Ok(u) => Some(u.to_string()),
        Err(_) => None,
    }
}

/// The URL to link a file name to, given its absolute path and whether the
/// file is there: none for a file that is not; otherwise the `file://` URL
/// of the path, if the path makes one. That URL ends with the path's last
/// component where the contract of `file_url` can say so.
pub fn link_url(absolute_path: &str, exists: bool) -> (r: Option<String>)
    ensures
        !exists ==> r is None,
        r matches Some(u) ==> starts_with(u@, "file://"@),
        forall|name: Seq<char>| #[trigger] plain_last_name(absolute_path@, name) ==> (r matches Some(
            u,
        ) ==> ends_with(u@, seq!['/'] + name)),
{
    if !exists {
        return None;
    }
    file_url(absolute_path)
}

} // verus!
