//! Collecting runs of `-` / `+` lines of a hunk and highlighting them against
//! each other.

use vstd::prelude::*;

use crate::lines_highlighter::{futures_view, response_view, LineAcceptance, Response};
use crate::refiner::{
    format_spec, prefixed_texts_nonempty, refines, strs_view, total_bytes, ends_with_newline,
    Formatter, FormatterView,
};
use crate::string_future::StringFuture;
use crate::text::{
    byte_split, byte_split_from, byte_split_spec, chars_of, utf8_len, utf8_width, decimal, push_chars, push_decimal, push_str,
    string_of_str, ByteSplit,
};
use crate::tokenizer::strings_view;

verus! {

/// Collects the `-` / `+` lines of one change in a hunk.
pub struct PlusMinusLinesHighlighter {
    prefix_length: usize,
    /// Different versions of the same text. The last version in this vector
    /// is the end result. All versions before that are sources that this
    /// version is based on.
    ///
    /// Each version's diff prefix is stored in `prefixes`.
    texts: Vec<String>,
    /// Line prefixes. Usually `-` or `+`, but could be things line ` -` or
    /// `+++` if this is a merge diff. Each prefix corresponds to one prefix
    /// text (stored in `texts`).
    prefixes: Vec<String>,
    last_seen_prefix: Option<String>,
    formatter: Formatter,
}

/// What a `-` / `+` lines highlighter has collected.
pub struct PlusMinusView {
    pub prefix_length: int,
    pub texts: Seq<Seq<char>>,
    pub prefixes: Seq<Seq<char>>,
    pub last_seen_prefix: Option<Seq<char>>,
    pub formatter: FormatterView,
}

impl View for PlusMinusLinesHighlighter {
    type V = PlusMinusView;

    closed spec fn view(&self) -> PlusMinusView {
        PlusMinusView {
            prefix_length: self.prefix_length as int,
            texts: strings_view(self.texts@),
            prefixes: strings_view(self.prefixes@),
            last_seen_prefix: crate::ansi::opt_view(self.last_seen_prefix),
            formatter: self.formatter@,
        }
    }
}

/// One text per prefix.
pub open spec fn plusminus_wf(v: PlusMinusView) -> bool {
    v.texts.len() == v.prefixes.len()
}

/// A character that may stand in a diff line prefix.
pub open spec fn is_prefix_char(c: char) -> bool {
    c == ' ' || c == '-' || c == '+'
}

pub open spec fn all_prefix_chars(p: Seq<char>) -> bool {
    forall|i: int| 0 <= i < p.len() ==> #[trigger] is_prefix_char(p[i])
}

pub open spec fn all_spaces(p: Seq<char>) -> bool {
    forall|i: int| 0 <= i < p.len() ==> #[trigger] p[i] == ' '
}

/// The prefix of the section being collected, empty before the first.
pub open spec fn current_prefix_spec(v: PlusMinusView) -> Seq<char> {
    if v.prefixes.len() > 0 {
        v.prefixes.last()
    } else {
        seq![]
    }
}

/// Lines, each followed by a newline.
pub open spec fn joined_lines(ls: Seq<Seq<char>>) -> Seq<char>
    decreases ls.len(),
{
    if ls.len() == 0 {
        seq![]
    } else {
        joined_lines(ls.drop_last()) + ls.last() + seq!['\n']
    }
}

/// The collected texts can be formatted: none is empty when they are not
/// refined, and their size fits in memory.
pub open spec fn can_drain(v: PlusMinusView) -> bool {
    v.texts.len() == 0 || ((v.prefixes.len() >= 2 ==> total_bytes(v.texts) <= usize::MAX) && (
    !refines(v.prefixes, v.texts) ==> prefixed_texts_nonempty(v.prefixes, v.texts)))
}

/// Handing out what was collected: the texts formatted against each other
/// into one piece of output, and nothing collected any more.
pub open spec fn drain_spec(v: PlusMinusView, marker: Seq<char>) -> (PlusMinusView, Seq<Seq<char>>) {
    if v.texts.len() == 0 {
        (v, seq![])
    } else {
        (
            PlusMinusView { texts: seq![], prefixes: seq![], ..v },
            seq![joined_lines(format_spec(v.formatter, v.prefixes, v.texts, marker))],
        )
    }
}

/// Removes the trailing newline from the texts of the columns of `prefix`
/// (from `pos` on) that are not a space. `None` where a column has no text;
/// `false` where a text has no newline to remove (the texts before it stay
/// stripped).
pub open spec fn strip_columns(texts: Seq<Seq<char>>, prefix: Seq<char>, pos: int) -> Option<
    (Seq<Seq<char>>, bool),
>
    decreases prefix.len() - pos,
{
    if pos < 0 || pos >= prefix.len() {
        Some((texts, true))
    } else if prefix[pos] == ' ' {
        strip_columns(texts, prefix, pos + 1)
    } else if pos >= texts.len() {
        None
    } else if ends_with_newline(texts[pos]) {
        strip_columns(texts.update(pos, texts[pos].drop_last()), prefix, pos + 1)
    } else {
        Some((texts, false))
    }
}

/// A `\ No newline at end of file` line: the state afterwards and the
/// answer; `None` where it cannot be taken.
pub open spec fn nnaeof_step(v: PlusMinusView, marker: Seq<char>) -> Option<
    (PlusMinusView, Result<(LineAcceptance, Seq<Seq<char>>), Seq<char>>),
> {
    match v.last_seen_prefix {
        None => Some(
            (v, Err("Got '\\ No newline at end of file' without being in a +/- section"@)),
        ),
        Some(p) => if p.contains('+') {
            // Additions are always about the last text
            if v.texts.len() == 0 {
                None
            } else if !ends_with_newline(v.texts.last()) {
                Some(
                    (
                        v,
                        Err(
                            "Got + '\\ No newline at end of file' without any newline to remove"@,
                        ),
                    ),
                )
            } else {
                let stripped = PlusMinusView {
                    texts: v.texts.update(v.texts.len() - 1, v.texts.last().drop_last()),
                    ..v
                };
                if !can_drain(stripped) {
                    None
                } else {
                    let (after, out) = drain_spec(stripped, marker);
                    Some((after, Ok((LineAcceptance::AcceptedDone, out))))
                }
            }
        } else {
            match strip_columns(v.texts, p, 0) {
                None => None,
                Some((texts, true)) => Some(
                    (PlusMinusView { texts, ..v }, Ok((LineAcceptance::AcceptedWantMore, seq![]))),
                ),
                Some((texts, false)) => Some(
                    (
                        PlusMinusView { texts, ..v },
                        Err(
                            "Got - '\\ No newline at end of file' without any newline to remove"@,
                        ),
                    ),
                ),
            }
        },
    }
}

/// Taking one line: the state afterwards and the answer; `None` where the
/// line cannot be taken (an empty line, a prefix that ends inside a
/// character, or texts that cannot be formatted).
pub open spec fn plusminus_step(v: PlusMinusView, line: Seq<char>, marker: Seq<char>) -> Option<
    (PlusMinusView, Result<(LineAcceptance, Seq<Seq<char>>), Seq<char>>),
> {
    if line.len() == 0 {
        None
    } else if line[0] == '\\' {
        nnaeof_step(v, marker)
    } else {
        match byte_split_spec(line, v.prefix_length) {
            ByteSplit::Short => Some(
                (
                    v,
                    Err(
                        "Line too short, expected 0 or at least "@ + decimal(
                            v.prefix_length as nat,
                        ) + " characters"@,
                    ),
                ),
            ),
            ByteSplit::Inside => None,
            ByteSplit::At(j) => {
                let prefix = line.take(j as int);
                let rest = line.skip(j as int);
                if !all_prefix_chars(prefix) {
                    Some(
                        (
                            v,
                            Err(
                                "Unexpected character in prefix <"@ + prefix
                                    + ">, only +, - and space allowed: <"@ + prefix + ">"@,
                            ),
                        ),
                    )
                } else {
                    let seen = PlusMinusView { last_seen_prefix: Some(prefix), ..v };
                    if prefix.len() == 0 {
                        Some((seen, Err("Hunk line must start with '-' or '+'"@)))
                    } else if prefix != current_prefix_spec(seen) && current_prefix_spec(
                        seen,
                    ).contains('+') {
                        // Always start anew after any `+` section, there are
                        // never more than one of those.
                        if !can_drain(seen) {
                            None
                        } else {
                            let (after, out) = drain_spec(seen, marker);
                            Some((after, Ok((LineAcceptance::RejectedDone, out))))
                        }
                    } else {
                        let opened = if prefix != current_prefix_spec(seen) {
                            PlusMinusView {
                                prefixes: seen.prefixes.push(prefix),
                                texts: seen.texts.push(seq![]),
                                ..seen
                            }
                        } else {
                            seen
                        };
                        let last = opened.texts.len() - 1;
                        Some(
                            (
                                PlusMinusView {
                                    texts: opened.texts.update(
                                        last,
                                        opened.texts[last] + rest + seq!['\n'],
                                    ),
                                    ..opened
                                },
                                Ok((LineAcceptance::AcceptedWantMore, seq![])),
                            ),
                        )
                    }
                }
            },
        }
    }
}

proof fn lemma_byte_split_at(s: Seq<char>, n: int, j: int)
    requires
        0 <= j <= s.len(),
        s.len() <= usize::MAX,
    ensures
        byte_split_from(s, n, j) matches ByteSplit::At(k) ==> j <= k && utf8_len(s.take(k as int))
            == n,
    decreases s.len() - j,
{
    if utf8_len(s.take(j)) != n && j < s.len() && utf8_len(s.take(j)) + utf8_width(s[j]) <= n {
        lemma_byte_split_at(s, n, j + 1);
    } else if utf8_len(s.take(j)) == n {
        assert((j as usize) as int == j);
    }
}

/// A `-` / `+` line is refused exactly when it is shorter than the prefix or
/// its prefix holds a character other than a space, `-` or `+`; a refused
/// line leaves the collected texts, prefixes and last seen prefix as they
/// were.
pub proof fn lemma_plusminus_errors(v: PlusMinusView, line: Seq<char>, marker: Seq<char>)
    requires
        v.prefix_length >= 1,
        line.len() > 0,
        line[0] != '\\',
        line.len() <= usize::MAX,
        !(byte_split_spec(line, v.prefix_length) is Inside),
    ensures
        ({
            let step = plusminus_step(v, line, marker);
            let refused = match byte_split_spec(line, v.prefix_length) {
                ByteSplit::At(j) => !all_prefix_chars(line.take(j as int)),
                _ => true,
            };
            &&& refused ==> (step matches Some((after, Err(_))) && after == v)
            &&& !refused ==> (step matches Some((_, r)) ==> r is Ok)
        }),
{
    lemma_byte_split_at(line, v.prefix_length, 0);
    assert(line.take(0) =~= Seq::<char>::empty());
    assert(utf8_len(Seq::<char>::empty()) == 0);
}

/// The prefix of a line that starts a `-` / `+` section: its first
/// `prefix_length` characters, made of spaces, `-` and `+` and not all
/// spaces.
pub open spec fn plusminus_start(line: Seq<char>, prefix_length: int) -> Option<Seq<char>> {
    if line.len() < prefix_length {
        None
    } else {
        let prefix = line.take(prefix_length);
        if !all_prefix_chars(prefix) || all_spaces(prefix) {
            None
        } else {
            Some(prefix)
        }
    }
}

/// What taking the end of the input does: the state afterwards and the
/// answer; `None` where the texts cannot be formatted.
pub open spec fn plusminus_eof(v: PlusMinusView, marker: Seq<char>) -> Option<
    (PlusMinusView, Result<Seq<Seq<char>>, Seq<char>>),
> {
    if v.last_seen_prefix is None {
        Some((v, Err("Got EOF without any lines"@)))
    } else if !can_drain(v) {
        None
    } else {
        let (after, out) = drain_spec(v, marker);
        Some((after, Ok(out)))
    }
}

/// Whether the first `n` characters are prefix characters, and whether they
/// are all spaces.
pub(crate) fn classify_prefix(v: &Vec<char>, n: usize) -> (r: (bool, bool))
    requires
        n <= v@.len(),
    ensures
        r.0 == all_prefix_chars(v@.take(n as int)),
        r.1 == all_spaces(v@.take(n as int)),
{
    let mut valid = true;
    let mut spaces = true;
    let mut i: usize = 0;
    while i < n
        invariant
            i <= n <= v@.len(),
            valid == all_prefix_chars(v@.take(i as int)),
            spaces == all_spaces(v@.take(i as int)),
        decreases n - i,
    {
        let c = v[i];
        assert(v@.take(i + 1) =~= v@.take(i as int).push(c));
        if !(c == ' ' || c == '-' || c == '+') {
            valid = false;
        }
        if c != ' ' {
            spaces = false;
        }
        proof {
            let t = v@.take(i + 1);
            if !valid {
                if is_prefix_char(c) {
                    assert(!all_prefix_chars(v@.take(i as int)));
                    let k = choose|k: int| 0 <= k < i && !#[trigger] is_prefix_char(v@.take(i as int)[k]);
                    assert(t[k] == v@.take(i as int)[k]);
                } else {
                    assert(!is_prefix_char(t[i as int]));
                }
            }
            if !spaces {
                if c == ' ' {
                    let k = choose|k: int| 0 <= k < i && #[trigger] v@.take(i as int)[k] != ' ';
                    assert(t[k] == v@.take(i as int)[k]);
                } else {
                    assert(t[i as int] != ' ');
                }
            }
        }
        i = i + 1;
    }
    (valid, spaces)
}

/// The strings' texts, as string slices.
fn as_strs(v: &Vec<String>) -> (r: Vec<&str>)
    ensures
        strs_view(r@) == strings_view(v@),
{
    let mut out: Vec<&str> = Vec::new();
    let mut i: usize = 0;
    while i < v.len()
        invariant
            i <= v@.len(),
            strs_view(out@) =~= strings_view(v@).take(i as int),
        decreases v@.len() - i,
    {
        let ghost before = out@;
        out.push(v[i].as_str());
        assert(strs_view(out@) =~= strs_view(before).push(v@[i as int]@));
        i = i + 1;
    }
    out
}

/// A copy of a text without its last character.
fn without_last(s: &String) -> (r: String)
    requires
        s@.len() > 0,
    ensures
        r@ == s@.drop_last(),
{
    let v = chars_of(s.as_str());
    crate::text::string_of_range(&v, 0, v.len() - 1)
}

impl PlusMinusLinesHighlighter {
    /// Starts a section at a line whose first `prefix_length` characters are
    /// `-`, `+` and spaces, not all of them spaces.
    ///
    /// Returns None if this line doesn't start such a section.
    pub fn from_line(line: &str, prefix_length: usize, formatter: Formatter) -> (r: Option<Self>)
        ensures
            r is Some <==> plusminus_start(line@, prefix_length as int) is Some,
            r matches Some(h) ==> h@ == (PlusMinusView {
                prefix_length: prefix_length as int,
                texts: seq![line@.skip(prefix_length as int) + seq!['\n']],
                prefixes: seq![line@.take(prefix_length as int)],
                last_seen_prefix: Some(line@.take(prefix_length as int)),
                formatter: formatter@,
            }),
            r matches Some(h) ==> plusminus_wf(h@),
    {
        let chars = chars_of(line);
        if chars.len() < prefix_length {
            return None;
        }
        let (valid, spaces) = classify_prefix(&chars, prefix_length);
        if !valid || spaces {
            return None;
        }
        let prefix = crate::text::string_of_range(&chars, 0, prefix_length);
        let mut text = crate::text::string_of_range(&chars, prefix_length, chars.len());
        crate::text::push_char(&mut text, '\n');
        let seen = crate::text::string_of_range(&chars, 0, prefix_length);
        assert(chars@.subrange(prefix_length as int, chars@.len() as int) =~= line@.skip(
            prefix_length as int,
        ));
        assert(text@ =~= line@.skip(prefix_length as int) + seq!['\n']);
        let mut texts = Vec::new();
        texts.push(text);
        let mut prefixes = Vec::new();
        prefixes.push(prefix);
        let h = PlusMinusLinesHighlighter {
            prefix_length,
            texts,
            prefixes,
            last_seen_prefix: Some(seen),
            formatter,
        };
        assert(chars@.subrange(0, prefix_length as int) =~= line@.take(prefix_length as int));
        assert(chars@.subrange(prefix_length as int, chars@.len() as int) =~= line@.skip(
            prefix_length as int,
        ));
        assert(h@.texts =~= seq![h.texts@[0]@]);
        assert(h@.prefixes =~= seq![line@.take(prefix_length as int)]);
        Some(h)
    }

    /// Returns `` (the empty string) on no-current-prefix
    fn current_prefix(&self) -> (r: &str)
        ensures
            r@ == current_prefix_spec(self@),
    {
        if self.prefixes.len() > 0 {
            return self.prefixes[self.prefixes.len() - 1].as_str();
        }
        proof {
            reveal_strlit("");
            assert(""@ =~= Seq::<char>::empty());
        }
        return "";
    }

    /// Formats the collected texts against each other, and forgets them.
    fn drain(&mut self, no_eof_newline_marker: &str) -> (r: Vec<StringFuture>)
        requires
            plusminus_wf(old(self)@),
            can_drain(old(self)@),
        ensures
            (final(self)@, futures_view(r@)) == drain_spec(old(self)@, no_eof_newline_marker@),
            plusminus_wf(final(self)@),
    {
        let ghost v = self@;
        // Return nothing if we have no texts
        if self.texts.len() == 0 {
            let r: Vec<StringFuture> = Vec::new();
            assert(futures_view(r@) =~= Seq::<Seq<char>>::empty());
            return r;
        }
        let text = {
            let prefixes = as_strs(&self.prefixes);
            let texts = as_strs(&self.texts);
            let lines = self.formatter.format(prefixes.as_slice(), texts.as_slice(), no_eof_newline_marker);
            let ghost lv = strings_view(lines@);
            let mut text = String::new();
            let mut i: usize = 0;
            assert(lv.take(0) =~= Seq::<Seq<char>>::empty());
            while i < lines.len()
                invariant
                    i <= lines@.len(),
                    lv == strings_view(lines@),
                    text@ == joined_lines(lv.take(i as int)),
                decreases lines@.len() - i,
            {
                assert(lv.take(i + 1).drop_last() =~= lv.take(i as int));
                assert(lv[i as int] == lines@[i as int]@);
                push_str(&mut text, lines[i].as_str());
                crate::text::push_char(&mut text, '\n');
                i = i + 1;
            }
            assert(lv.take(lines@.len() as int) =~= lv);
            text
        };
        self.texts = Vec::new();
        self.prefixes = Vec::new();
        let mut r = Vec::new();
        r.push(StringFuture::from_string(text));
        assert(futures_view(r@) =~= seq![joined_lines(format_spec(v.formatter, v.prefixes, v.texts, no_eof_newline_marker@))]);
        assert(self@.texts =~= Seq::<Seq<char>>::empty());
        assert(self@.prefixes =~= Seq::<Seq<char>>::empty());
        r
    }

    /// Whether the collected texts can be formatted.
    fn drain_possible(&self) -> (r: bool)
        requires
            plusminus_wf(self@),
        ensures
            r == can_drain(self@),
    {
        let ghost v = self@;
        if self.texts.len() == 0 {
            return true;
        }
        let mut total: usize = 0;
        let mut overflow = false;
        let mut all_nonempty = true;
        let mut any_plus = false;
        let mut i: usize = 0;
        while i < self.texts.len()
            invariant
                i <= self.texts@.len(),
                v == self@,
                plusminus_wf(v),
                !overflow ==> total == total_bytes(v.texts.take(i as int)),
                overflow ==> total_bytes(v.texts.take(i as int)) > usize::MAX,
                all_nonempty == (forall|k: int| 0 <= k < i ==> (#[trigger] v.texts[k]).len() > 0),
                any_plus == (exists|k: int| 0 <= k < i && (#[trigger] v.prefixes[k]).contains('+')),
            decreases self.texts@.len() - i,
        {
            let text = self.texts[i].as_str();
            assert(v.texts[i as int] == text@);
            assert(v.prefixes[i as int] == self.prefixes@[i as int]@);
            let bytes = text.as_bytes();
            let b = bytes.len();
            assert(v.texts.take(i + 1).drop_last() =~= v.texts.take(i as int));
            assert(v.texts.take(i + 1).last() == text@);
            if !overflow {
                match total.checked_add(b) {
                    Some(t) => {
                        total = t;
                    },
                    None => {
                        overflow = true;
                    },
                }
            }
            if crate::text::str_contains_char(self.prefixes[i].as_str(), '+') {
                any_plus = true;
            }
            if text.is_empty() {
                all_nonempty = false;
            }
            i = i + 1;
        }
        assert(v.texts.take(i as int) =~= v.texts);
        let fits = !overflow;
        let too_large = overflow || total > 13_000usize * 13_000usize;
        let refine = self.prefixes.len() >= 2 && any_plus && !too_large;
        assert(refine == refines(v.prefixes, v.texts));
        (self.prefixes.len() < 2 || fits) && (refine || all_nonempty)
    }

    /// Consume a `\ No newline at end of file` line.
    ///
    /// Strip trailing newlines from the relevant texts, as decided by
    /// self.last_seen_prefix. `None` where that cannot be done.
    fn consume_nnaeof(&mut self, no_eof_newline_marker: &str) -> (r: Option<Result<Response, String>>)
        requires
            plusminus_wf(old(self)@),
        ensures
            match r {
                None => nnaeof_step(old(self)@, no_eof_newline_marker@) is None,
                Some(res) => nnaeof_step(old(self)@, no_eof_newline_marker@) == Some(
                    (final(self)@, response_view(res)),
                ),
            },
            plusminus_wf(final(self)@),
    {
        let ghost v = self@;
        let prefix = match &self.last_seen_prefix {
            None => {
                return Some(Err(string_of_str("Got '\\ No newline at end of file' without being in a +/- section")));
            },
            Some(p) => chars_of(p.as_str()),
        };
        let ghost p = prefix@;

        // Additions are always about the last text
        if crate::text::chars_contain(&prefix, '+') {
            if self.texts.len() == 0 {
                return None;
            }
            let last = self.texts.len() - 1;
            assert(v.texts[last as int] == self.texts@[last as int]@);
            if !crate::text::str_ends_with_char(self.texts[last].as_str(), '\n') {
                return Some(Err(string_of_str("Got + '\\ No newline at end of file' without any newline to remove")));
            }
            let stripped = without_last(&self.texts[last]);
            self.texts.set(last, stripped);
            assert(self@.texts =~= v.texts.update(last as int, v.texts.last().drop_last()));
            if !self.drain_possible() {
                return None;
            }
            // `\ No newline at end of file` is always the last line of +
            // section, and the + sections always come last, so we're done.
            let highlighted = self.drain(no_eof_newline_marker);
            return Some(Ok(Response { line_accepted: LineAcceptance::AcceptedDone, highlighted }));
        }

        // Remove trailing newlines from all texts with a `-` in their column
        let mut pos: usize = 0;
        let mut missing_newline = false;
        let mut missing_text = false;
        while pos < prefix.len() && !missing_newline && !missing_text
            invariant
                pos <= prefix@.len(),
                p == prefix@,
                plusminus_wf(v),
                v.last_seen_prefix == Some(p),
                !p.contains('+'),
                !missing_newline && !missing_text ==> strip_columns(self@.texts, p, pos as int)
                    == strip_columns(v.texts, p, 0),
                missing_newline ==> strip_columns(v.texts, p, 0) == Some((self@.texts, false)),
                missing_text ==> strip_columns(v.texts, p, 0) is None,
                self@.texts.len() == v.texts.len(),
                self@ == (PlusMinusView { texts: self@.texts, ..v }),
            decreases prefix@.len() - pos,
        {
            if prefix[pos] != ' ' {
                if pos >= self.texts.len() {
                    missing_text = true;
                } else {
                    let ghost before = self@.texts;
                    assert(before[pos as int] == self.texts@[pos as int]@);
                    if !crate::text::str_ends_with_char(self.texts[pos].as_str(), '\n') {
                        missing_newline = true;
                    } else {
                        let stripped = without_last(&self.texts[pos]);
                        self.texts.set(pos, stripped);
                        assert(self@.texts =~= before.update(pos as int, before[pos as int].drop_last()));
                    }
                }
            }
            pos = pos + 1;
        }
        if missing_text {
            return None;
        }
        if missing_newline {
            return Some(Err(string_of_str("Got - '\\ No newline at end of file' without any newline to remove")));
        }

        // We handled some - columns, now there could be more + lines incoming
        let r = Response { line_accepted: LineAcceptance::AcceptedWantMore, highlighted: Vec::new() };
        assert(futures_view(r.highlighted@) =~= Seq::<Seq<char>>::empty());
        Some(Ok(r))
    }

    /// Takes one line of the section. `no_eof_newline_marker` is how this
    /// diff phrases `\ No newline at end of file`. `None` where the line
    /// cannot be taken: an empty line, a prefix that ends inside a character,
    /// a `\ No newline at end of file` line for a column that has no text,
    /// or texts that cannot be formatted.
    pub fn consume_line(&mut self, line: &str, no_eof_newline_marker: &str) -> (r: Option<Result<Response, String>>)
        requires
            plusminus_wf(old(self)@),
        ensures
            match r {
                None => plusminus_step(old(self)@, line@, no_eof_newline_marker@) is None,
                Some(res) => plusminus_step(old(self)@, line@, no_eof_newline_marker@) == Some(
                    (final(self)@, response_view(res)),
                ),
            },
            plusminus_wf(final(self)@),
    {
        let ghost v = self@;
        let chars = chars_of(line);
        if chars.len() == 0 {
            return None;
        }
        if chars[0] == '\\' {
            return self.consume_nnaeof(no_eof_newline_marker);
        }
        match byte_split(&chars, self.prefix_length) {
            ByteSplit::Short => {
                // Not enough columns. For example, if we expect two line
                // counts, one of them will have a + prefix and the other one
                // -. So lines need to be at least 1 long in this case.
                let mut message = string_of_str("Line too short, expected 0 or at least ");
                push_decimal(&mut message, self.prefix_length);
                push_str(&mut message, " characters");
                return Some(Err(message));
            },
            ByteSplit::Inside => {
                return None;
            },
            ByteSplit::At(j) => {
                let (valid, _) = classify_prefix(&chars, j);
                let prefix = crate::text::string_of_range(&chars, 0, j);
                assert(prefix@ =~= line@.take(j as int));
                if !valid {
                    let mut message = string_of_str("Unexpected character in prefix <");
                    push_str(&mut message, prefix.as_str());
                    push_str(&mut message, ">, only +, - and space allowed: <");
                    push_str(&mut message, prefix.as_str());
                    push_str(&mut message, ">");
                    return Some(Err(message));
                }
                self.last_seen_prefix = Some(crate::text::string_of_range(&chars, 0, j));

                // Keep track of which prefix we're currently on or start a new
                // one if needed
                if j == 0 {
                    return Some(Err(string_of_str("Hunk line must start with '-' or '+'")));
                }
                let ghost seen = self@;
                assert(seen == PlusMinusView { last_seen_prefix: Some(line@.take(j as int)), ..v });
                if !crate::text::str_eq(prefix.as_str(), self.current_prefix()) {
                    if crate::text::str_contains_char(self.current_prefix(), '+') {
                        // Always start anew after any `+` section, there are
                        // never more than one of those.
                        if !self.drain_possible() {
                            return None;
                        }
                        let highlighted = self.drain(no_eof_newline_marker);
                        return Some(Ok(Response { line_accepted: LineAcceptance::RejectedDone, highlighted }));
                    }
                    self.prefixes.push(prefix);
                    self.texts.push(String::new());
                    assert(self@.prefixes =~= seen.prefixes.push(line@.take(j as int)));
                    assert(self@.texts =~= seen.texts.push(seq![]));
                }
                let ghost opened = self@;

                // Update the current prefix text with the new line
                let last = self.texts.len() - 1;
                let mut text = self.texts[last].clone();
                assert(text@ == opened.texts[last as int]);
                push_chars(&mut text, &chars, j, chars.len());
                crate::text::push_char(&mut text, '\n');
                assert(chars@.subrange(j as int, chars@.len() as int) =~= line@.skip(j as int));
                assert(text@ =~= opened.texts[last as int] + line@.skip(j as int) + seq!['\n']);
                self.texts.set(last, text);
                assert(self@.texts =~= opened.texts.update(last as int, opened.texts[last as int] + line@.skip(j as int) + seq!['\n']));
                let r = Response { line_accepted: LineAcceptance::AcceptedWantMore, highlighted: Vec::new() };
                assert(futures_view(r.highlighted@) =~= Seq::<Seq<char>>::empty());
                return Some(Ok(r));
            },
        }
    }

    /// No more lines: hands out what was collected. `None` where the texts
    /// cannot be formatted.
    pub fn consume_eof(&mut self, no_eof_newline_marker: &str) -> (r: Option<Result<Vec<StringFuture>, String>>)
        requires
            plusminus_wf(old(self)@),
        ensures
            match r {
                None => plusminus_eof(old(self)@, no_eof_newline_marker@) is None,
                Some(res) => plusminus_eof(old(self)@, no_eof_newline_marker@) == Some(
                    (final(self)@, crate::lines_highlighter::outputs_view(res)),
                ),
            },
            plusminus_wf(final(self)@),
    {
        if self.last_seen_prefix.is_none() {
            return Some(Err(string_of_str("Got EOF without any lines")));
        }
        if !self.drain_possible() {
            return None;
        }
        return Some(Ok(self.drain(no_eof_newline_marker)));
    }
}


/// What stripping the columns from `pos` on does: where it succeeds, every
/// column of the prefix that is not a space has a text that ended with a
/// newline and now lacks it; every other text is unchanged. Where every such
/// column has a text ending with a newline, it succeeds.
proof fn lemma_strip_columns(texts: Seq<Seq<char>>, prefix: Seq<char>, pos: int)
    requires
        0 <= pos <= prefix.len(),
    ensures
        strip_columns(texts, prefix, pos) matches Some((r, true)) ==> {
            &&& r.len() == texts.len()
            &&& forall|i: int|
                #![trigger prefix[i]]
                pos <= i < prefix.len() && prefix[i] != ' ' ==> i < texts.len() && ends_with_newline(
                    texts[i],
                ) && r[i] == texts[i].drop_last()
            &&& forall|i: int|
                0 <= i < texts.len() && !(pos <= i < prefix.len() && prefix[i] != ' ') ==> #[trigger] r[i]
                    == texts[i]
        },
        (forall|i: int|
            #![trigger prefix[i]]
            pos <= i < prefix.len() && prefix[i] != ' ' ==> i < texts.len() && ends_with_newline(
                texts[i],
            )) ==> strip_columns(texts, prefix, pos) matches Some((_, true)),
    decreases prefix.len() - pos,
{
    if pos < prefix.len() {
        if prefix[pos] == ' ' {
            lemma_strip_columns(texts, prefix, pos + 1);
            assert(strip_columns(texts, prefix, pos) == strip_columns(texts, prefix, pos + 1));
        } else if pos < texts.len() && ends_with_newline(texts[pos]) {
            let t2 = texts.update(pos, texts[pos].drop_last());
            lemma_strip_columns(t2, prefix, pos + 1);
            assert(strip_columns(texts, prefix, pos) == strip_columns(t2, prefix, pos + 1));
            match strip_columns(t2, prefix, pos + 1) {
                Some((r, true)) => {
                    assert forall|i: int|
                        #![trigger prefix[i]]
                        pos <= i < prefix.len() && prefix[i] != ' ' implies i < texts.len()
                        && ends_with_newline(texts[i]) && r[i] == texts[i].drop_last() by {
                        if i > pos {
                            assert(t2[i] == texts[i]);
                        }
                    }
                    assert forall|i: int|
                        0 <= i < texts.len() && !(pos <= i < prefix.len() && prefix[i] != ' ') implies #[trigger] r[i]
                        == texts[i] by {
                        assert(t2[i] == texts[i]);
                    }
                },
                _ => {},
            }
            if forall|i: int|
                #![trigger prefix[i]]
                pos <= i < prefix.len() && prefix[i] != ' ' ==> i < texts.len() && ends_with_newline(
                    texts[i],
                ) {
                assert forall|i: int|
                    #![trigger prefix[i]]
                    pos + 1 <= i < prefix.len() && prefix[i] != ' ' implies i < t2.len() && ends_with_newline(
                    t2[i],
                ) by {
                    assert(t2[i] == texts[i]);
                }
            }
        }
    }
}

/// A `\ No newline at end of file` line after a section without `+` strips
/// the final newline from the text of every column of the last seen prefix
/// that is not a space (each text is one character shorter) and leaves the
/// other texts as they were. It is taken whenever each such column has a
/// text that ends with a newline.
pub proof fn lemma_nnaeof_strips_columns(v: PlusMinusView, line: Seq<char>, marker: Seq<char>)
    requires
        line.len() > 0,
        line[0] == '\\',
        v.last_seen_prefix is Some,
        !v.last_seen_prefix->0.contains('+'),
    ensures
        ({
            let p = v.last_seen_prefix->0;
            &&& plusminus_step(v, line, marker) matches Some((after, Ok(_))) ==> {
                &&& after.texts.len() == v.texts.len()
                &&& after.prefixes == v.prefixes
                &&& forall|i: int|
                    #![trigger p[i]]
                    0 <= i < p.len() && p[i] != ' ' ==> i < v.texts.len() && ends_with_newline(
                        v.texts[i],
                    ) && after.texts[i] == v.texts[i].drop_last() && after.texts[i].len() + 1
                        == v.texts[i].len()
                &&& forall|i: int|
                    0 <= i < v.texts.len() && !(i < p.len() && p[i] != ' ') ==> #[trigger] after.texts[i]
                        == v.texts[i]
            }
            &&& (forall|i: int|
                #![trigger p[i]]
                0 <= i < p.len() && p[i] != ' ' ==> i < v.texts.len() && ends_with_newline(
                    v.texts[i],
                )) ==> plusminus_step(v, line, marker) matches Some((_, Ok(_)))
        }),
{
    let p = v.last_seen_prefix->0;
    lemma_strip_columns(v.texts, p, 0);
    assert(plusminus_step(v, line, marker) == nnaeof_step(v, marker));
    match strip_columns(v.texts, p, 0) {
        Some((texts, true)) => {
            assert(nnaeof_step(v, marker) == Some(
                (PlusMinusView { texts, ..v }, Ok::<(LineAcceptance, Seq<Seq<char>>), Seq<char>>((LineAcceptance::AcceptedWantMore, seq![]))),
            ));
            assert forall|i: int|
                #![trigger p[i]]
                0 <= i < p.len() && p[i] != ' ' implies i < v.texts.len() && ends_with_newline(
                v.texts[i],
            ) && texts[i] == v.texts[i].drop_last() && texts[i].len() + 1 == v.texts[i].len() by {}
        },
        _ => {},
    }
}

} // verus!
