//! Hunk headers of unified diffs: `@@ -1,2 +1,2 @@ Initial commit`.

use vstd::prelude::*;

use crate::constants::{BOLD, NORMAL};
use crate::text::{
    chars_eq, chars_of, decimal, parse_usize, parse_usize_chars, push_char, push_decimal, push_str,
    split_char, split_chars, splitn_char, splitn_chars, string_of_chars, trim_start_char,
    trim_start_chars, vecs_view, starts_with, is_digit, spaced, lemma_spaced_push,
};
use crate::terminal::{lemma_header_codes_sgr, lemma_shown_plain, lemma_shown_sgr, shown_chars};

verus! {

/// Cyan
pub const HUNK_HEADER: &'static str = "\x1b[36m";

/// Result of parsing a hunk header: <https://en.wikipedia.org/wiki/Diff#Unified_format>
///
/// Example hunk header: `@@ -1,2 +1,2 @@ Initial commit`
///
/// This would mean "old line numbers are 1-2, and new line numbers are 1-2",
/// making the line counts 2 for both.
#[derive(Debug, PartialEq)]
pub struct HunkHeader {
    /// "@@" with the right number of @ chars, usually two.
    pub ats: String,
    /// One-based start lines of one or more old sections + one new section.
    /// This vector will always have at least two entries, and mostly it will be
    /// exactly two.
    pub starts: Vec<usize>,
    /// Number of lines in one or more old sections + one new section. This
    /// vector will always have at least two entries, and mostly it will be
    /// exactly two.
    pub linecounts: Vec<usize>,
    pub title: Option<String>,
}

pub struct HunkHeaderView {
    pub ats: Seq<char>,
    pub starts: Seq<usize>,
    pub linecounts: Seq<usize>,
    pub title: Option<Seq<char>>,
}

impl View for HunkHeader {
    type V = HunkHeaderView;

    open spec fn view(&self) -> HunkHeaderView {
        HunkHeaderView {
            ats: self.ats@,
            starts: self.starts@,
            linecounts: self.linecounts@,
            title: crate::ansi::opt_view(self.title),
        }
    }
}

/// The number of `@` characters that `s` starts with.
pub open spec fn at_run(s: Seq<char>) -> nat
    decreases s.len(),
{
    if s.len() > 0 && s[0] == '@' {
        1 + at_run(s.skip(1))
    } else {
        0
    }
}

/// The sign in front of the `j`:th of `count` ranges: `-` for the old
/// sections, `+` for the last (new) one.
pub open spec fn range_sign(j: int, count: int) -> char {
    if j >= count - 1 {
        '+'
    } else {
        '-'
    }
}

/// A range like `-1,2` (start 1, 2 lines) or `+5` (start 5, 1 line), after
/// all leading `sign` characters.
pub open spec fn parse_range(part: Seq<char>, sign: char) -> Option<(usize, usize)> {
    let numbers = split_char(trim_start_char(part, sign), ',');
    if numbers.len() == 0 || numbers.len() > 2 {
        None
    } else {
        match parse_usize(numbers[0]) {
            None => None,
            Some(start) => {
                if numbers.len() == 2 {
                    match parse_usize(numbers[1]) {
                        None => None,
                        Some(count) => Some((start, count)),
                    }
                } else {
                    Some((start, 1))
                }
            },
        }
    }
}

/// The hunk header a line holds: two or more `@` and a space; as many
/// ranges as there were `@`, the last one `+`, the others `-`; the same `@`
/// run again; and an optional title (the rest of the line).
pub open spec fn parse_spec(line: Seq<char>) -> Option<HunkHeaderView> {
    let k = at_run(line) as int;
    if !(k == line.len() || line[k] == ' ') || k < 2 {
        None
    } else {
        let parts = splitn_char(line, (k + 3) as nat, ' ');
        if parts.len() < k + 2 {
            None
        } else if !(forall|j: int| 0 <= j < k ==> (#[trigger] parse_range(parts[j + 1], range_sign(j, k))) is Some) {
            None
        } else if parts[k + 1] != parts[0] {
            None
        } else {
            Some(
                HunkHeaderView {
                    ats: parts[0],
                    starts: Seq::new(k as nat, |j: int| parse_range(parts[j + 1], range_sign(j, k)).unwrap().0),
                    linecounts: Seq::new(k as nat, |j: int| parse_range(parts[j + 1], range_sign(j, k)).unwrap().1),
                    title: if parts.len() > k + 2 {
                        Some(parts[k + 2])
                    } else {
                        None
                    },
                },
            )
        }
    }
}

proof fn lemma_at_run(s: Seq<char>)
    ensures
        at_run(s) <= s.len(),
        forall|j: int| 0 <= j < at_run(s) ==> s[j] == '@',
    decreases s.len(),
{
    if s.len() > 0 && s[0] == '@' {
        lemma_at_run(s.skip(1));
        assert forall|j: int| 0 <= j < at_run(s) implies s[j] == '@' by {
            if j > 0 {
                assert(s[j] == s.skip(1)[j - 1]);
            }
        }
    }
}

/// What a parsed hunk header looks like: a run of two or more `@` that the
/// line starts with, followed by a space, and a start line and a line count
/// for each `@`.
pub proof fn lemma_parse_shape(line: Seq<char>)
    requires
        parse_spec(line) is Some,
    ensures
        ({
            let h = parse_spec(line).unwrap();
            &&& h.ats.len() >= 2
            &&& forall|j: int| 0 <= j < h.ats.len() ==> h.ats[j] == '@'
            &&& starts_with(line, h.ats + seq![' '])
            &&& h.starts.len() == h.ats.len()
            &&& h.linecounts.len() == h.ats.len()
        }),
{
    let k = at_run(line) as int;
    lemma_at_run(line);
    if k == line.len() {
        crate::text::lemma_first_index(line, ' ', k);
        assert(splitn_char(line, (k + 3) as nat, ' ') == seq![line]);
    } else {
        crate::text::lemma_first_index(line, ' ', k);
        let parts = splitn_char(line, (k + 3) as nat, ' ');
        assert(parts[0] == line.take(k));
        assert(line.take(k + 1) =~= line.take(k) + seq![' ']);
    }
}

/// The ranges part of a rendered header: `-start,count ` for each old
/// section and `+start,count ` for the new one.
pub open spec fn ranges_text(starts: Seq<usize>, linecounts: Seq<usize>, n: int) -> Seq<char>
    decreases n,
{
    if n <= 0 {
        seq![]
    } else {
        ranges_text(starts, linecounts, n - 1) + seq![
            if n - 1 == starts.len() - 1 {
                '+'
            } else {
                '-'
            },
        ] + decimal(starts[n - 1] as nat) + seq![','] + decimal(linecounts[n - 1] as nat) + seq![' ']
    }
}

/// A rendered header: in cyan, the `@@`, the ranges and the `@@` again, then
/// the title (after a space, in bold) if there is one, then the reset code.
pub open spec fn render_spec(h: HunkHeaderView) -> Seq<char> {
    HUNK_HEADER@ + h.ats + seq![' '] + ranges_text(h.starts, h.linecounts, h.starts.len() as int)
        + h.ats + match h.title {
        Some(t) => seq![' '] + BOLD@ + t,
        None => seq![],
    } + NORMAL@
}

// ---------------------------------------------------------------------------
// Rendering and parsing again
// ---------------------------------------------------------------------------

/// One range as it is rendered: its sign, start, a comma and its count.
pub open spec fn range_piece(sign: char, start: usize, count: usize) -> Seq<char> {
    seq![sign] + decimal(start as nat) + seq![','] + decimal(count as nat)
}

/// The rendered ranges of a header, one piece each.
pub open spec fn range_pieces(h: HunkHeaderView) -> Seq<Seq<char>> {
    Seq::new(
        h.starts.len(),
        |j: int| range_piece(range_sign(j, h.starts.len() as int), h.starts[j], h.linecounts[j]),
    )
}

/// A header rendered without its colors.
pub open spec fn plain_header(h: HunkHeaderView) -> Seq<char> {
    h.ats + seq![' '] + ranges_text(h.starts, h.linecounts, h.starts.len() as int) + h.ats + match h.title {
        Some(t) => seq![' '] + t,
        None => seq![],
    }
}

/// What a parsed header looks like: two or more `@`, and a start line and a
/// line count for each.
pub open spec fn header_shape(h: HunkHeaderView) -> bool {
    &&& h.ats.len() >= 2
    &&& forall|j: int| 0 <= j < h.ats.len() ==> h.ats[j] == '@'
    &&& h.starts.len() == h.ats.len()
    &&& h.linecounts.len() == h.ats.len()
}

proof fn lemma_ranges_spaced(h: HunkHeaderView, n: int)
    requires
        0 <= n <= h.starts.len(),
        h.linecounts.len() == h.starts.len(),
    ensures
        ranges_text(h.starts, h.linecounts, n) == spaced(range_pieces(h).take(n)),
    decreases n,
{
    let ps = range_pieces(h);
    if n == 0 {
        assert(ps.take(0) =~= Seq::<Seq<char>>::empty());
        assert(spaced(Seq::<Seq<char>>::empty()) =~= Seq::<char>::empty());
    } else {
        lemma_ranges_spaced(h, n - 1);
        assert(ps.take(n) =~= ps.take(n - 1).push(ps[n - 1]));
        lemma_spaced_push(ps.take(n - 1), ps[n - 1]);
        let sign = if n - 1 == h.starts.len() - 1 {
            '+'
        } else {
            '-'
        };
        assert(sign == range_sign(n - 1, h.starts.len() as int));
        assert(ranges_text(h.starts, h.linecounts, n) =~= ranges_text(h.starts, h.linecounts, n - 1)
            + ps[n - 1] + seq![' ']);
    }
}

proof fn lemma_range_piece(sign: char, start: usize, count: usize)
    requires
        sign == '+' || sign == '-',
    ensures
        parse_range(range_piece(sign, start, count), sign) == Some((start, count)),
        !range_piece(sign, start, count).contains(' '),
        !range_piece(sign, start, count).contains('\x1b'),
{
    let a = decimal(start as nat);
    let b = decimal(count as nat);
    crate::text::lemma_decimal(start as nat);
    crate::text::lemma_decimal(count as nat);
    crate::text::lemma_parse_decimal(start);
    crate::text::lemma_parse_decimal(count);
    assert(is_digit(a[0]));
    let body = a + seq![','] + b;
    assert(body[0] == a[0]);
    assert(range_piece(sign, start, count) =~= seq![sign] + body);
    crate::text::lemma_trim_start_one(sign, body);
    assert(!a.contains(',')) by {
        if a.contains(',') {
            let i = choose|i: int| 0 <= i < a.len() && a[i] == ',';
            assert(is_digit(a[i]));
        }
    }
    assert(!b.contains(',')) by {
        if b.contains(',') {
            let i = choose|i: int| 0 <= i < b.len() && b[i] == ',';
            assert(is_digit(b[i]));
        }
    }
    crate::text::lemma_split_two(a, b, ',');
    let piece = range_piece(sign, start, count);
    assert forall|i: int| 0 <= i < piece.len() implies piece[i] != ' ' && piece[i] != '\x1b' by {
        if i == 0 {
        } else if i < 1 + a.len() {
            assert(piece[i] == a[i - 1]);
            assert(is_digit(a[i - 1]));
        } else if i == 1 + a.len() {
        } else {
            assert(piece[i] == b[i - 2 - a.len()]);
            assert(is_digit(b[i - 2 - a.len()]));
        }
    }
}

proof fn lemma_at_run_of(ats: Seq<char>, rest: Seq<char>)
    requires
        forall|j: int| 0 <= j < ats.len() ==> ats[j] == '@',
        rest.len() > 0,
        rest[0] != '@',
    ensures
        at_run(ats + rest) == ats.len(),
    decreases ats.len(),
{
    if ats.len() > 0 {
        assert((ats + rest).skip(1) =~= ats.skip(1) + rest);
        lemma_at_run_of(ats.skip(1), rest);
    } else {
        assert(ats + rest =~= rest);
    }
}

/// A header with the shape of a parsed one, rendered without its colors,
/// parses back into itself.
pub proof fn lemma_plain_header_parses(h: HunkHeaderView)
    requires
        header_shape(h),
    ensures
        parse_spec(plain_header(h)) == Some(h),
{
    let k = h.ats.len() as int;
    let ps = range_pieces(h);
    lemma_ranges_spaced(h, k);
    assert(ps.take(k) =~= ps);
    let tail = match h.title {
        Some(t) => seq![' '] + t,
        None => seq![],
    };
    let line = plain_header(h);
    let pieces = seq![h.ats] + ps;
    assert(spaced(pieces) =~= h.ats + seq![' '] + spaced(ps)) by {
        assert(pieces.skip(1) =~= ps);
        assert(pieces[0] == h.ats);
    }
    assert(line =~= spaced(pieces) + (h.ats + tail));
    // The run of `@`
    lemma_at_run_of(h.ats, seq![' '] + (spaced(ps) + h.ats + tail));
    assert(line =~= h.ats + (seq![' '] + (spaced(ps) + h.ats + tail)));
    assert(line[k] == ' ');
    // The parts
    assert(!h.ats.contains(' ')) by {
        if h.ats.contains(' ') {
            let i = choose|i: int| 0 <= i < h.ats.len() && h.ats[i] == ' ';
        }
    }
    assert forall|j: int| 0 <= j < pieces.len() implies !(#[trigger] pieces[j]).contains(' ') by {
        if j > 0 {
            assert(pieces[j] == ps[j - 1]);
            lemma_range_piece(range_sign(j - 1, k), h.starts[j - 1], h.linecounts[j - 1]);
        }
    }
    crate::text::lemma_splitn_spaced(pieces, h.ats + tail, 2);
    let parts = splitn_char(line, (k + 3) as nat, ' ');
    assert(pieces.len() + 2 == k + 3);
    let last = splitn_char(h.ats + tail, 2, ' ');
    assert(parts == pieces + last);
    match h.title {
        Some(t) => {
            let r = h.ats + tail;
            assert forall|i: int| 0 <= i < h.ats.len() implies r[i] != ' ' by {
                assert(r[i] == h.ats[i]);
            }
            crate::text::lemma_first_index(r, ' ', k);
            assert(r.take(k) =~= h.ats);
            assert(r.skip(k + 1) =~= t);
            assert(last == seq![h.ats] + splitn_char(t, 1, ' '));
            assert(last =~= seq![h.ats, t]);
        },
        None => {
            assert(h.ats + tail =~= h.ats);
            crate::text::lemma_first_index_found(h.ats, ' ');
            assert(last == seq![h.ats]);
        },
    }
    assert(parts.len() >= k + 2);
    assert forall|j: int| 0 <= j < k implies #[trigger] parse_range(parts[j + 1], range_sign(j, k))
        == Some((h.starts[j], h.linecounts[j])) by {
        assert(parts[j + 1] == ps[j]);
        lemma_range_piece(range_sign(j, k), h.starts[j], h.linecounts[j]);
    }
    assert(parts[k + 1] == h.ats);
    assert(parts[0] == h.ats);
    let r = parse_spec(line).unwrap();
    assert(r.starts =~= h.starts);
    assert(r.linecounts =~= h.linecounts);
}

/// Parsing a rendered header, its colors removed, gives the header back
/// (for a header with the shape of a parsed one, whose title holds no ESC).
pub proof fn lemma_render_parse_round_trip(h: HunkHeaderView)
    requires
        header_shape(h),
        h.title matches Some(t) ==> !t.contains('\x1b'),
    ensures
        shown_chars(render_spec(h)) == plain_header(h),
        parse_spec(shown_chars(render_spec(h))) == Some(h),
{
    lemma_plain_header_parses(h);
    lemma_header_codes_sgr();
    let k = h.ats.len() as int;
    let ps = range_pieces(h);
    lemma_ranges_spaced(h, k);
    assert(ps.take(k) =~= ps);
    let body = h.ats + seq![' '] + ranges_text(h.starts, h.linecounts, k) + h.ats;
    // No ESC in the `@`s and the ranges
    assert(!body.contains('\x1b')) by {
        if body.contains('\x1b') {
            let i = choose|i: int| 0 <= i < body.len() && body[i] == '\x1b';
            let sp = spaced(ps);
            assert(body =~= h.ats + seq![' '] + sp + h.ats);
            if i < k {
                assert(body[i] == h.ats[i]);
            } else if i == k {
            } else if i < k + 1 + sp.len() {
                assert(body[i] == sp[i - k - 1]);
                lemma_spaced_no_esc(h, ps, i - k - 1);
            } else {
                assert(body[i] == h.ats[i - k - 1 - sp.len()]);
            }
        }
    }
    let n = NORMAL@;
    let e = Seq::<char>::empty();
    assert(shown_chars(e) =~= e);
    lemma_shown_sgr(n, e);
    assert(n + e =~= n);
    match h.title {
        Some(t) => {
            let rest = seq![' '] + (BOLD@ + (t + n));
            assert(render_spec(h) =~= HUNK_HEADER@ + (body + rest));
            lemma_shown_sgr(HUNK_HEADER@, body + rest);
            lemma_shown_plain(body, rest);
            assert(!seq![' '].contains('\x1b')) by {
                assert(seq![' '][0] == ' ');
            }
            lemma_shown_plain(seq![' '], BOLD@ + (t + n));
            lemma_shown_sgr(BOLD@, t + n);
            lemma_shown_plain(t, n);
            lemma_shown_plain(t, e);
            assert(t + e =~= t);
            assert(plain_header(h) =~= body + (seq![' '] + t));
        },
        None => {
            assert(render_spec(h) =~= HUNK_HEADER@ + (body + n));
            lemma_shown_sgr(HUNK_HEADER@, body + n);
            lemma_shown_plain(body, n);
            assert(plain_header(h) =~= body + e);
        },
    }
}

proof fn lemma_spaced_no_esc(h: HunkHeaderView, ps: Seq<Seq<char>>, i: int)
    requires
        header_shape(h),
        ps == range_pieces(h),
        0 <= i < spaced(ps).len(),
    ensures
        spaced(ps)[i] != '\x1b',
{
    assert forall|j: int| 0 <= j < ps.len() implies !(#[trigger] ps[j]).contains('\x1b') by {
        lemma_range_piece(range_sign(j, h.starts.len() as int), h.starts[j], h.linecounts[j]);
    }
    lemma_spaced_no_char(ps, i, '\x1b');
}

proof fn lemma_spaced_no_char(ps: Seq<Seq<char>>, i: int, c: char)
    requires
        c != ' ',
        forall|j: int| 0 <= j < ps.len() ==> !(#[trigger] ps[j]).contains(c),
        0 <= i < spaced(ps).len(),
    ensures
        spaced(ps)[i] != c,
    decreases ps.len(),
{
    if ps.len() > 0 {
        let p = ps[0];
        let tail = ps.skip(1);
        assert(spaced(ps) == p + seq![' '] + spaced(tail));
        if i < p.len() {
            assert(spaced(ps)[i] == p[i]);
        } else if i > p.len() {
            assert forall|j: int| 0 <= j < tail.len() implies !(#[trigger] tail[j]).contains(c) by {
                assert(tail[j] == ps[j + 1]);
            }
            lemma_spaced_no_char(tail, i - p.len() - 1, c);
            assert(spaced(ps)[i] == spaced(tail)[i - p.len() - 1]);
        }
    }
}

impl HunkHeader {
    /// Parse a hunk header from a line of text.
    ///
    /// Returns `None` if the line is not a valid hunk header.
    pub fn parse(line: &str) -> (r: Option<Self>)
        requires
            line@.len() + 3 <= usize::MAX,
        ensures
            match r {
                Some(h) => parse_spec(line@) == Some(h@),
                None => parse_spec(line@) is None,
            },
    {
        let v = chars_of(line);
        // Count the number of @ chars at the start of the line, followed by a space
        let mut initial_at_count: usize = 0;
        assert(v@.skip(0) == v@);
        while initial_at_count < v.len() && v[initial_at_count as usize] == '@'
            invariant
                initial_at_count <= v.len(),
                forall|i: int| 0 <= i < initial_at_count ==> v@[i] == '@',
                at_run(v@) == initial_at_count + at_run(v@.skip(initial_at_count as int)),
            decreases v.len() - initial_at_count,
        {
            assert(v@.skip(initial_at_count as int).skip(1) == v@.skip(initial_at_count + 1));
            initial_at_count = initial_at_count + 1;
        }
        assert(at_run(v@.skip(initial_at_count as int)) == 0);
        if initial_at_count < v.len() && v[initial_at_count] != ' ' {
            // Expected only @ chars followed by a space, this is not it
            return None;
        }
        if initial_at_count < 2 {
            // Expected at least two @ chars, this is not it
            return None;
        }
        let k = initial_at_count;
        let parts = splitn_chars(&v, 3 + k, ' ');
        let ghost pv = vecs_view(parts@);
        let mut starts: Vec<usize> = Vec::new();
        let mut linecounts: Vec<usize> = Vec::new();
        let mut j: usize = 0;
        while j < k
            invariant
                j <= k,
                k == at_run(line@),
                pv == vecs_view(parts@),
                pv == splitn_char(line@, (k + 3) as nat, ' '),
                starts@.len() == j,
                linecounts@.len() == j,
                forall|i: int| 0 <= i < j ==> i + 1 < pv.len() && (#[trigger] parse_range(pv[i + 1], range_sign(i, k as int))) == Some((starts@[i], linecounts@[i])),
            decreases k - j,
        {
            // Example: "-1,2", or just "-55"
            if j + 1 >= parts.len() {
                return None;
            }
            let expected_start_char = if j + 1 >= k {
                '+'
            } else {
                '-'
            };
            let counts_part = &parts[j + 1];
            assert(counts_part@ == pv[j + 1]);
            let trimmed = trim_start_chars(counts_part, expected_start_char);
            let numbers = split_chars(&trimmed, ',');
            if numbers.len() == 0 || numbers.len() > 2 {
                assert(parse_range(pv[j + 1], range_sign(j as int, k as int)) is None);
                return None;
            }
            let start = match parse_usize_chars(&numbers[0]) {
                Some(s) => s,
                None => {
                    assert(parse_range(pv[j + 1], range_sign(j as int, k as int)) is None);
                    return None;
                },
            };
            let linecount = if numbers.len() == 2 {
                match parse_usize_chars(&numbers[1]) {
                    Some(c) => c,
                    None => {
                        assert(parse_range(pv[j + 1], range_sign(j as int, k as int)) is None);
                        return None;
                    },
                }
            } else {
                1
            };
            assert(parse_range(pv[j + 1], range_sign(j as int, k as int)) == Some((start, linecount)));
            starts.push(start);
            linecounts.push(linecount);
            j = j + 1;
        }
        if k + 1 >= parts.len() {
            return None;
        }
        if !chars_eq(&parts[k + 1], &parts[0]) {
            // Not a hunk header, it wasn't finalized by @@ at the end
            assert(pv[k + 1] != pv[0]);
            return None;
        }
        // Example: "Initial commit"
        let title = if k + 2 < parts.len() {
            Some(string_of_chars(&parts[k + 2]))
        } else {
            None
        };
        let h = HunkHeader { ats: string_of_chars(&parts[0]), starts, linecounts, title };
        assert(h@.starts =~= Seq::new(k as nat, |i: int| parse_range(pv[i + 1], range_sign(i, k as int)).unwrap().0));
        assert(h@.linecounts =~= Seq::new(k as nat, |i: int| parse_range(pv[i + 1], range_sign(i, k as int)).unwrap().1));
        Some(h)
    }

    /// Render into an ANSI highlighted string, not ending in a newline.
    pub fn render(&self) -> (r: String)
        requires
            self.starts@.len() <= self.linecounts@.len(),
        ensures
            r@ == render_spec(self@),
    {
        let mut rendered = String::new();
        push_str(&mut rendered, HUNK_HEADER);
        push_str(&mut rendered, self.ats.as_str());
        push_char(&mut rendered, ' ');
        let ghost head = rendered@;
        let mut i: usize = 0;
        while i < self.starts.len()
            invariant
                i <= self.starts@.len(),
                self.starts@.len() <= self.linecounts@.len(),
                rendered@ == head + ranges_text(self.starts@, self.linecounts@, i as int),
            decreases self.starts.len() - i,
        {
            if i == self.starts.len() - 1 {
                push_char(&mut rendered, '+');
            } else {
                push_char(&mut rendered, '-');
            }
            push_decimal(&mut rendered, self.starts[i]);
            push_char(&mut rendered, ',');
            push_decimal(&mut rendered, self.linecounts[i]);
            push_char(&mut rendered, ' ');
            i = i + 1;
            assert(rendered@ =~= head + ranges_text(self.starts@, self.linecounts@, i as int));
        }
        push_str(&mut rendered, self.ats.as_str());
        if let Some(title) = &self.title {
            push_char(&mut rendered, ' ');
            push_str(&mut rendered, BOLD);
            push_str(&mut rendered, title.as_str());
        }
        push_str(&mut rendered, NORMAL);
        assert(rendered@ =~= render_spec(self@));
        return rendered;
    }
}


/// The pieces of `splitn_char` hold no character that the text does not
/// hold.
proof fn lemma_splitn_no_char(s: Seq<char>, n: nat, c: char, x: char)
    requires
        !s.contains(x),
    ensures
        forall|i: int| 0 <= i < splitn_char(s, n, c).len() ==> !(#[trigger] splitn_char(s, n, c)[i]).contains(
            x,
        ),
    decreases n,
{
    if n > 1 {
        crate::text::lemma_first_index_found(s, c);
        match crate::text::first_index(s, c) {
            Some(k) => {
                if 0 <= k < s.len() {
                    let rest = s.skip(k + 1);
                    assert(!rest.contains(x)) by {
                        if rest.contains(x) {
                            let j = choose|j: int| 0 <= j < rest.len() && rest[j] == x;
                            assert(s[k + 1 + j] == x);
                        }
                    }
                    lemma_splitn_no_char(rest, (n - 1) as nat, c, x);
                    assert forall|i: int| 0 <= i < splitn_char(s, n, c).len() implies !(
                    #[trigger] splitn_char(s, n, c)[i]).contains(x) by {
                        if i == 0 {
                            if s.take(k).contains(x) {
                                let j = choose|j: int| 0 <= j < s.take(k).len() && s.take(k)[j] == x;
                                assert(s[j] == x);
                            }
                        } else {
                            assert(splitn_char(s, n, c)[i] == splitn_char(rest, (n - 1) as nat, c)[i
                                - 1]);
                        }
                    }
                }
            },
            None => {},
        }
    }
}

/// A header parsed from a line without ESC renders as a line that does not
/// end with a newline and that, its colors removed, parses back to the
/// header.
pub proof fn lemma_parsed_header_round_trip(line: Seq<char>)
    requires
        parse_spec(line) is Some,
        !line.contains('\x1b'),
    ensures
        ({
            let h = parse_spec(line).unwrap();
            &&& !(render_spec(h).len() > 0 && render_spec(h).last() == '\n')
            &&& parse_spec(shown_chars(render_spec(h))) == Some(h)
        }),
{
    let h = parse_spec(line).unwrap();
    lemma_parse_shape(line);
    let k = at_run(line) as int;
    lemma_splitn_no_char(line, (k + 3) as nat, ' ', '\x1b');
    reveal_strlit("\x1b[0m");
    let r = render_spec(h);
    assert(r.last() == 'm');
    lemma_render_parse_round_trip(h);
}

} // verus!
