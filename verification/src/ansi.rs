//! Text styles and the ANSI escape sequences that switch between them.

use vstd::prelude::*;

use crate::constants::{
    BOLD, DEFAULT_COLOR, FAINT, GREEN, INVERSE_VIDEO, NORMAL, NORMAL_INTENSITY, NO_INVERSE_VIDEO,
    RED, YELLOW,
};
use crate::text::{lemma_count_absent, lemma_no_char_concat, count_char, push_str};

verus! {

#[derive(Copy, Clone, Debug, PartialEq, Eq, Structural)]
pub enum Color {
    Default,
    Red,
    Green,
    Yellow,
}

#[derive(Copy, Clone, Debug, PartialEq, Eq, Structural)]
pub enum Weight {
    Normal,
    Bold,
    Faint,
}

/// A text style: color, weight, inverse video and an optional hyperlink.
///
/// The hyperlink is held as the text of its URL.
#[derive(Clone, Debug, PartialEq, Eq)]
pub struct AnsiStyle {
    pub color: Color,
    pub weight: Weight,
    pub inverse: bool,
    pub url: Option<String>,
}

/// What a style is, with the hyperlink taken as its characters.
pub struct StyleView {
    pub color: Color,
    pub weight: Weight,
    pub inverse: bool,
    pub url: Option<Seq<char>>,
}

/// The characters of an optional string.
pub open spec fn opt_view(o: Option<String>) -> Option<Seq<char>> {
    match o {
        Some(s) => Some(s@),
        None => None,
    }
}

impl View for AnsiStyle {
    type V = StyleView;

    open spec fn view(&self) -> StyleView {
        StyleView {
            color: self.color,
            weight: self.weight,
            inverse: self.inverse,
            url: opt_view(self.url),
        }
    }
}

/// The terminal's default style.
pub open spec fn normal_style() -> StyleView {
    StyleView { color: Color::Default, weight: Weight::Normal, inverse: false, url: None }
}

/// No color, weight or inverse video; a hyperlink may be present.
pub open spec fn plain_except_hyperlink(s: StyleView) -> bool {
    s.color == Color::Default && s.weight == Weight::Normal && !s.inverse
}

/// The OSC 8 sequence that starts (or, with no URL, ends) a hyperlink.
pub open spec fn hyperlink_code(url: Option<Seq<char>>) -> Seq<char> {
    match url {
        Some(u) => "\x1b]8;;"@ + u + "\x1b\\"@,
        None => "\x1b]8;;\x1b\\"@,
    }
}

/// The escape sequence that selects a foreground color.
pub open spec fn color_code(c: Color) -> Seq<char> {
    match c {
        Color::Default => DEFAULT_COLOR@,
        Color::Red => RED@,
        Color::Green => GREEN@,
        Color::Yellow => YELLOW@,
    }
}

pub open spec fn inverse_code(after: StyleView, before: StyleView) -> Seq<char> {
    if after.inverse && !before.inverse {
        INVERSE_VIDEO@
    } else if !after.inverse && before.inverse {
        NO_INVERSE_VIDEO@
    } else {
        seq![]
    }
}

pub open spec fn weight_code(after: StyleView, before: StyleView) -> Seq<char> {
    if after.weight != before.weight {
        (if before.weight != Weight::Normal {
            NORMAL_INTENSITY@
        } else {
            seq![]
        }) + (if after.weight == Weight::Faint {
            FAINT@
        } else if after.weight == Weight::Bold {
            BOLD@
        } else {
            seq![]
        })
    } else {
        seq![]
    }
}

/// The escape sequence that switches the terminal from style `before` to
/// style `after`: nothing when they are the same, the hyperlink change if the
/// URL differs, then either a full reset (when only the hyperlink remains) or
/// the inverse, weight and color changes.
pub open spec fn style_transition(after: StyleView, before: StyleView) -> Seq<char> {
    if after == before {
        seq![]
    } else {
        let link = if after.url != before.url {
            hyperlink_code(after.url)
        } else {
            seq![]
        };
        if plain_except_hyperlink(after) && !plain_except_hyperlink(before) {
            link + NORMAL@
        } else {
            link + inverse_code(after, before) + weight_code(after, before) + (if after.color
                != before.color {
                color_code(after.color)
            } else {
                seq![]
            })
        }
    }
}

/// The terminal's default style.
pub fn ansi_style_normal() -> (s: AnsiStyle)
    ensures
        s@ == normal_style(),
{
    AnsiStyle { color: Color::Default, weight: Weight::Normal, inverse: false, url: None }
}

/// A copy of an optional string.
pub fn copy_opt_string(o: &Option<String>) -> (r: Option<String>)
    ensures
        opt_view(r) == opt_view(*o),
{
    match o {
        Some(s) => Some(s.clone()),
        None => None,
    }
}

/// Whether two optional strings hold the same text.
pub fn opt_string_eq(a: &Option<String>, b: &Option<String>) -> (r: bool)
    ensures
        r == (opt_view(*a) == opt_view(*b)),
{
    match a {
        Some(x) => match b {
            Some(y) => {
                let same = x.eq(y);
                assert(same == (x@ == y@));
                same
            },
            None => false,
        },
        None => b.is_none(),
    }
}

impl AnsiStyle {
    /// Whether switching from `old_url` to `new_url` changes the hyperlink.
    fn should_add_url(new_url: &Option<String>, old_url: &Option<String>) -> (r: bool)
        ensures
            r == (opt_view(*new_url) != opt_view(*old_url)),
    {
        !opt_string_eq(new_url, old_url)
    }

    fn normal_except_hyperlink(&self) -> (r: bool)
        ensures
            r == plain_except_hyperlink(self@),
    {
        self.color == Color::Default && self.weight == Weight::Normal && !self.inverse
    }

    /// A copy of this style.
    pub fn duplicate(&self) -> (r: AnsiStyle)
        ensures
            r@ == self@,
    {
        AnsiStyle {
            color: self.color,
            weight: self.weight,
            inverse: self.inverse,
            url: copy_opt_string(&self.url),
        }
    }

    /// Whether two styles are the same.
    pub fn same_as(&self, other: &AnsiStyle) -> (r: bool)
        ensures
            r == (self@ == other@),
    {
        self.color == other.color && self.weight == other.weight && self.inverse == other.inverse
            && opt_string_eq(&self.url, &other.url)
    }

    /// Renders a (possibly empty) ANSI escape sequence to switch to this style
    /// from the before style.
    pub fn from(&self, before: &AnsiStyle) -> (r: String)
        ensures
            r@ == style_transition(self@, before@),
    {
        if self.same_as(before) {
            return String::new();
        }
        let mut return_me = String::new();

        if AnsiStyle::should_add_url(&self.url, &before.url) {
            if let Some(url) = &self.url {
                // Write the updated URL
                push_str(&mut return_me, "\x1b]8;;");
                push_str(&mut return_me, url.as_str());
                push_str(&mut return_me, "\x1b\\");
            } else {
                // Remove the URL
                push_str(&mut return_me, "\x1b]8;;\x1b\\");
            }
        }
        let ghost link = return_me@;

        if self.normal_except_hyperlink() && !before.normal_except_hyperlink() {
            // Special case for resetting to default style
            push_str(&mut return_me, NORMAL);
            return return_me;
        }

        if self.inverse && !before.inverse {
            // Inverse on
            push_str(&mut return_me, INVERSE_VIDEO);
        }
        if !self.inverse && before.inverse {
            // Inverse off
            push_str(&mut return_me, NO_INVERSE_VIDEO);
        }
        assert(return_me@ == link + inverse_code(self@, before@));
        let ghost upto_inverse = return_me@;

        if self.weight != before.weight {
            if before.weight != Weight::Normal {
                // Turn off bold or faint
                push_str(&mut return_me, NORMAL_INTENSITY);
            }
            if self.weight == Weight::Faint {
                push_str(&mut return_me, FAINT);
            }
            if self.weight == Weight::Bold {
                push_str(&mut return_me, BOLD);
            }
        }
        assert(return_me@ =~= upto_inverse + weight_code(self@, before@));
        let ghost upto_weight = return_me@;

        if self.color != before.color {
            match self.color {
                Color::Default => push_str(&mut return_me, DEFAULT_COLOR),
                Color::Red => push_str(&mut return_me, RED),
                Color::Green => push_str(&mut return_me, GREEN),
                Color::Yellow => push_str(&mut return_me, YELLOW),
            }
        } else {
            assert(return_me@ =~= upto_weight + seq![]);
        }
        return return_me;
    }

    /// This style with another color.
    pub fn with_color(&self, color: Color) -> (r: AnsiStyle)
        ensures
            r@ == (StyleView { color, ..self@ }),
    {
        return AnsiStyle {
            color,
            weight: self.weight,
            inverse: self.inverse,
            url: copy_opt_string(&self.url),
        };
    }

    /// This style with inverse video on or off.
    pub fn with_inverse(&self, inverse: bool) -> (r: AnsiStyle)
        ensures
            r@ == (StyleView { inverse, ..self@ }),
    {
        return AnsiStyle {
            color: self.color,
            weight: self.weight,
            inverse,
            url: copy_opt_string(&self.url),
        };
    }

    /// This style with another weight.
    pub fn with_weight(&self, weight: Weight) -> (r: AnsiStyle)
        ensures
            r@ == (StyleView { weight, ..self@ }),
    {
        return AnsiStyle {
            color: self.color,
            weight,
            inverse: self.inverse,
            url: copy_opt_string(&self.url),
        };
    }

    /// This style hyperlinked to `url` (the text of the URL).
    pub fn with_url(&self, url: String) -> (r: AnsiStyle)
        ensures
            r@ == (StyleView { url: Some(url@), ..self@ }),
    {
        return AnsiStyle { color: self.color, weight: self.weight, inverse: self.inverse, url: Some(url) };
    }
}

/// A style whose hyperlink, if any, holds no newline.
pub open spec fn url_without_newline(s: StyleView) -> bool {
    match s.url {
        Some(u) => !u.contains('\n'),
        None => true,
    }
}

/// Switching styles writes no newline, as long as no URL holds one.
pub proof fn lemma_transition_without_newline(after: StyleView, before: StyleView)
    requires
        url_without_newline(after),
        url_without_newline(before),
    ensures
        count_char(style_transition(after, before), '\n') == 0,
{
    reveal_strlit("\x1b]8;;");
    reveal_strlit("\x1b\\");
    reveal_strlit("\x1b]8;;\x1b\\");
    reveal_strlit("\x1b[0m");
    reveal_strlit("\x1b[7m");
    reveal_strlit("\x1b[27m");
    reveal_strlit("\x1b[22m");
    reveal_strlit("\x1b[2m");
    reveal_strlit("\x1b[1m");
    reveal_strlit("\x1b[39m");
    reveal_strlit("\x1b[31m");
    reveal_strlit("\x1b[32m");
    reveal_strlit("\x1b[33m");
    let link = if after.url != before.url {
        hyperlink_code(after.url)
    } else {
        seq![]
    };
    assert(!link.contains('\n')) by {
        if after.url != before.url {
            match after.url {
                Some(u) => {
                    lemma_no_char_concat("\x1b]8;;"@, u, '\n');
                    lemma_no_char_concat("\x1b]8;;"@ + u, "\x1b\\"@, '\n');
                },
                None => {},
            }
        }
    }
    let inv = inverse_code(after, before);
    let wt = weight_code(after, before);
    let col = if after.color != before.color {
        color_code(after.color)
    } else {
        seq![]
    };
    assert(!inv.contains('\n'));
    assert(!wt.contains('\n')) by {
        let first = if before.weight != Weight::Normal {
            NORMAL_INTENSITY@
        } else {
            seq![]
        };
        let second = if after.weight == Weight::Faint {
            FAINT@
        } else if after.weight == Weight::Bold {
            BOLD@
        } else {
            seq![]
        };
        lemma_no_char_concat(first, second, '\n');
    }
    assert(!col.contains('\n'));
    lemma_no_char_concat(link, NORMAL@, '\n');
    lemma_no_char_concat(link, inv, '\n');
    lemma_no_char_concat(link + inv, wt, '\n');
    lemma_no_char_concat(link + inv + wt, col, '\n');
    lemma_count_absent(style_transition(after, before), '\n');
}

/// Switching from a style to the same style takes no escape sequence.
pub proof fn lemma_transition_to_same_style_is_empty(s: StyleView)
    ensures
        style_transition(s, s) == Seq::<char>::empty(),
{
}


/// Where `without_ansi_escape_codes` is while it reads its input.
#[derive(Copy, Clone, Debug, PartialEq, Eq, Structural)]
pub enum StripState {
    Normal,
    Escape,
    EscapeBracket,
    Osc,
    OscSequence,
}

pub open spec fn is_ascii_digit(b: u8) -> bool {
    0x30 <= b <= 0x39
}

/// The bytes kept from `line[i..]` when reading starts there in state `st`.
///
/// Plain bytes are kept. An ESC starts a sequence: `ESC [` runs to the first
/// byte that is neither a digit nor `;` (that byte included), `ESC ]` runs to
/// the next `ESC \` (or to the end), and ESC followed by anything else is kept
/// as it is.
pub open spec fn strip_from(line: Seq<u8>, i: int, st: StripState) -> Seq<u8>
    decreases line.len() - i,
{
    if i < 0 || i >= line.len() {
        seq![]
    } else {
        let b = line[i];
        match st {
            StripState::Normal => {
                if b == 0x1b {
                    strip_from(line, i + 1, StripState::Escape)
                } else {
                    seq![b] + strip_from(line, i + 1, StripState::Normal)
                }
            },
            StripState::Escape => {
                if b == 0x5b {
                    strip_from(line, i + 1, StripState::EscapeBracket)
                } else if b == 0x5d {
                    strip_from(line, i + 1, StripState::Osc)
                } else {
                    seq![0x1bu8, b] + strip_from(line, i + 1, StripState::Normal)
                }
            },
            StripState::EscapeBracket => {
                if !is_ascii_digit(b) && b != 0x3b {
                    strip_from(line, i + 1, StripState::Normal)
                } else {
                    strip_from(line, i + 1, StripState::EscapeBracket)
                }
            },
            StripState::Osc => strip_from(line, i + 1, StripState::OscSequence),
            StripState::OscSequence => {
                if b == 0x1b && i + 1 < line.len() && line[i + 1] == 0x5c {
                    strip_from(line, i + 2, StripState::Normal)
                } else {
                    strip_from(line, i + 1, StripState::OscSequence)
                }
            },
        }
    }
}

/// `line` with its ANSI escape sequences removed.
pub open spec fn strip_ansi(line: Seq<u8>) -> Seq<u8> {
    strip_from(line, 0, StripState::Normal)
}

/// Stripping only removes bytes: a byte other than ESC that the line does
/// not hold does not come out.
pub proof fn lemma_strip_adds_nothing(line: Seq<u8>, i: int, st: StripState, x: u8)
    requires
        !line.contains(x),
        x != 0x1b,
    ensures
        !strip_from(line, i, st).contains(x),
    decreases line.len() - i,
{
    if 0 <= i < line.len() {
        let b = line[i];
        assert(b != x);
        lemma_strip_adds_nothing(line, i + 1, StripState::Normal, x);
        lemma_strip_adds_nothing(line, i + 1, StripState::Escape, x);
        lemma_strip_adds_nothing(line, i + 1, StripState::EscapeBracket, x);
        lemma_strip_adds_nothing(line, i + 1, StripState::Osc, x);
        lemma_strip_adds_nothing(line, i + 1, StripState::OscSequence, x);
        if i + 2 <= line.len() {
            lemma_strip_adds_nothing(line, i + 2, StripState::Normal, x);
        }
        let out = strip_from(line, i, st);
        if out.contains(x) {
            let k = choose|k: int| 0 <= k < out.len() && #[trigger] out[k] == x;
            match st {
                StripState::Normal => {
                    if b != 0x1b {
                        let rest = strip_from(line, i + 1, StripState::Normal);
                        assert(out == seq![b] + rest);
                        if k > 0 {
                            assert(rest[k - 1] == x);
                        }
                    }
                },
                StripState::Escape => {
                    if b != 0x5b && b != 0x5d {
                        let rest = strip_from(line, i + 1, StripState::Normal);
                        assert(out == seq![0x1bu8, b] + rest);
                        if k > 1 {
                            assert(rest[k - 2] == x);
                        }
                    }
                },
                _ => {},
            }
        }
    }
}

/// Modifies the input so that all ANSI escape codes are removed
pub fn without_ansi_escape_codes(line: &[u8]) -> (r: Vec<u8>)
    ensures
        r@ == strip_ansi(line@),
{
    let mut state = StripState::Normal;
    let mut without_ansi: Vec<u8> = Vec::with_capacity(line.len());
    let mut i: usize = 0;
    while i < line.len()
        invariant
            i <= line.len() + 1,
            without_ansi@ + strip_from(line@, i as int, state) == strip_ansi(line@),
        decreases line.len() - i,
    {
        let byte = line[i];
        let ghost before = without_ansi@;
        match state {
            StripState::Normal => {
                if byte == 0x1b {
                    state = StripState::Escape;
                } else {
                    without_ansi.push(byte);
                    assert(before + strip_from(line@, i as int, StripState::Normal) =~= without_ansi@
                        + strip_from(line@, i + 1, StripState::Normal));
                }
            },
            StripState::Escape => {
                if byte == 0x5b {
                    state = StripState::EscapeBracket;
                } else if byte == 0x5d {
                    state = StripState::Osc;
                } else {
                    // Not an ANSI sequence
                    state = StripState::Normal;
                    without_ansi.push(0x1b);
                    without_ansi.push(byte);
                    assert(before + strip_from(line@, i as int, StripState::Escape) =~= without_ansi@
                        + strip_from(line@, i + 1, StripState::Normal));
                }
            },
            StripState::EscapeBracket => {
                if !(0x30 <= byte && byte <= 0x39) && byte != 0x3b {
                    // End of SGR sequence
                    state = StripState::Normal;
                }
            },
            StripState::Osc => {
                // OSC sequence, skip until the string terminator `ESC \`
                state = StripState::OscSequence;
            },
            StripState::OscSequence => {
                if byte == 0x1b && i + 1 < line.len() && line[i + 1] == 0x5c {
                    // End of OSC sequence
                    state = StripState::Normal;
                    i = i + 1;  // Skip the '\\' as well
                }
            },
        }
        i = i + 1;
    }
    return without_ansi;
}

/// Text without any ESC byte comes through unchanged.
pub proof fn lemma_strip_plain_text(line: Seq<u8>)
    requires
        !line.contains(0x1bu8),
    ensures
        strip_ansi(line) == line,
{
    lemma_strip_plain_from(line, 0);
    assert(line.skip(0) == line);
}

proof fn lemma_strip_plain_from(line: Seq<u8>, i: int)
    requires
        !line.contains(0x1bu8),
        0 <= i <= line.len(),
    ensures
        strip_from(line, i, StripState::Normal) == line.skip(i),
    decreases line.len() - i,
{
    if i < line.len() {
        lemma_strip_plain_from(line, i + 1);
        assert(line[i] != 0x1b);
        assert(line.skip(i) =~= seq![line[i]] + line.skip(i + 1));
    } else {
        assert(line.skip(i) =~= Seq::<u8>::empty());
    }
}


/// A text that stripping passes through unchanged: every ESC is followed by
/// a byte that starts no escape sequence.
pub open spec fn strip_clean(s: Seq<u8>) -> bool
    decreases s.len(),
{
    if s.len() == 0 {
        true
    } else if s[0] != 0x1b {
        strip_clean(s.skip(1))
    } else {
        s.len() >= 2 && s[1] != 0x5b && s[1] != 0x5d && strip_clean(s.skip(2))
    }
}

proof fn lemma_strip_output_clean(line: Seq<u8>, i: int, st: StripState)
    ensures
        strip_clean(strip_from(line, i, st)),
    decreases line.len() - i,
{
    if 0 <= i < line.len() {
        let b = line[i];
        lemma_strip_output_clean(line, i + 1, StripState::Normal);
        lemma_strip_output_clean(line, i + 1, StripState::Escape);
        lemma_strip_output_clean(line, i + 1, StripState::EscapeBracket);
        lemma_strip_output_clean(line, i + 1, StripState::Osc);
        lemma_strip_output_clean(line, i + 1, StripState::OscSequence);
        if i + 2 <= line.len() {
            lemma_strip_output_clean(line, i + 2, StripState::Normal);
        }
        let rest = strip_from(line, i + 1, StripState::Normal);
        match st {
            StripState::Normal => {
                if b != 0x1b {
                    assert((seq![b] + rest).skip(1) =~= rest);
                }
            },
            StripState::Escape => {
                if b != 0x5b && b != 0x5d {
                    let out = seq![0x1bu8, b] + rest;
                    assert(out.skip(2) =~= rest);
                    assert(out[0] == 0x1b && out[1] == b);
                }
            },
            _ => {},
        }
    }
}

proof fn lemma_strip_clean_from(s: Seq<u8>, i: int)
    requires
        0 <= i <= s.len(),
        strip_clean(s.skip(i)),
    ensures
        strip_from(s, i, StripState::Normal) == s.skip(i),
    decreases s.len() - i,
{
    if i < s.len() {
        let t = s.skip(i);
        if s[i] != 0x1b {
            assert(t.skip(1) =~= s.skip(i + 1));
            lemma_strip_clean_from(s, i + 1);
            assert(s.skip(i) =~= seq![s[i]] + s.skip(i + 1));
        } else {
            assert(t[0] == 0x1b);
            assert(t.skip(2) =~= s.skip(i + 2));
            assert(t[1] == s[i + 1]);
            lemma_strip_clean_from(s, i + 2);
            let b = s[i + 1];
            assert(b != 0x5b && b != 0x5d);
            assert(strip_from(s, i + 1, StripState::Escape) == seq![0x1bu8, b] + strip_from(
                s,
                i + 2,
                StripState::Normal,
            ));
            assert(strip_from(s, i, StripState::Normal) == strip_from(s, i + 1, StripState::Escape));
            assert(s.skip(i) =~= seq![0x1bu8, b] + s.skip(i + 2));
        }
    } else {
        assert(s.skip(i) =~= Seq::<u8>::empty());
    }
}

/// Stripping twice is stripping once: what stripping leaves holds no escape
/// sequence to remove.
pub proof fn lemma_strip_idempotent(line: Seq<u8>)
    ensures
        strip_ansi(strip_ansi(line)) == strip_ansi(line),
{
    let once = strip_ansi(line);
    lemma_strip_output_clean(line, 0, StripState::Normal);
    assert(once.skip(0) =~= once);
    lemma_strip_clean_from(once, 0);
}

/// Whether `a` is `b` with some bytes left out, the rest in their order.
pub open spec fn is_subsequence(a: Seq<u8>, b: Seq<u8>) -> bool
    decreases b.len(),
{
    if a.len() == 0 {
        true
    } else if b.len() == 0 {
        false
    } else if a[0] == b[0] {
        is_subsequence(a.skip(1), b.skip(1))
    } else {
        is_subsequence(a, b.skip(1))
    }
}

proof fn lemma_subsequence_drop_first(a: Seq<u8>, b: Seq<u8>)
    requires
        is_subsequence(a, b),
        a.len() > 0,
    ensures
        is_subsequence(a.skip(1), b),
    decreases b.len(), 0int,
{
    if a[0] == b[0] {
        lemma_subsequence_prepend(a.skip(1), b[0], b.skip(1));
        assert(seq![b[0]] + b.skip(1) =~= b);
    } else {
        lemma_subsequence_drop_first(a, b.skip(1));
        lemma_subsequence_prepend(a.skip(1), b[0], b.skip(1));
        assert(seq![b[0]] + b.skip(1) =~= b);
    }
}

proof fn lemma_subsequence_prepend(a: Seq<u8>, x: u8, b: Seq<u8>)
    requires
        is_subsequence(a, b),
    ensures
        is_subsequence(a, seq![x] + b),
    decreases b.len(), 1int,
{
    let xb = seq![x] + b;
    assert(xb.skip(1) =~= b);
    if a.len() > 0 && a[0] == x {
        lemma_subsequence_drop_first(a, b);
    }
}

proof fn lemma_subsequence_both(a: Seq<u8>, x: u8, b: Seq<u8>)
    requires
        is_subsequence(a, b),
    ensures
        is_subsequence(seq![x] + a, seq![x] + b),
{
    assert((seq![x] + a).skip(1) =~= a);
    assert((seq![x] + b).skip(1) =~= b);
}

proof fn lemma_subsequence_len(a: Seq<u8>, b: Seq<u8>)
    requires
        is_subsequence(a, b),
    ensures
        a.len() <= b.len(),
    decreases b.len(),
{
    if a.len() > 0 {
        if a[0] == b[0] {
            lemma_subsequence_len(a.skip(1), b.skip(1));
        } else {
            lemma_subsequence_len(a, b.skip(1));
        }
    }
}

/// What a state has read already and may still hand out: the ESC that
/// started a sequence.
pub open spec fn pending_bytes(st: StripState) -> Seq<u8> {
    match st {
        StripState::Escape => seq![0x1bu8],
        _ => seq![],
    }
}

proof fn lemma_strip_from_subsequence(line: Seq<u8>, i: int, st: StripState)
    requires
        0 <= i <= line.len(),
    ensures
        is_subsequence(strip_from(line, i, st), pending_bytes(st) + line.skip(i)),
    decreases line.len() - i,
{
    let p = pending_bytes(st);
    if i == line.len() {
        assert(strip_from(line, i, st) =~= Seq::<u8>::empty());
    } else {
        let b = line[i];
        let rest = line.skip(i + 1);
        assert(line.skip(i) =~= seq![b] + rest);
        lemma_strip_from_subsequence(line, i + 1, StripState::Normal);
        lemma_strip_from_subsequence(line, i + 1, StripState::Escape);
        lemma_strip_from_subsequence(line, i + 1, StripState::EscapeBracket);
        lemma_strip_from_subsequence(line, i + 1, StripState::Osc);
        lemma_strip_from_subsequence(line, i + 1, StripState::OscSequence);
        assert(seq![] + rest =~= rest);
        assert(seq![] + line.skip(i) =~= line.skip(i));
        match st {
            StripState::Normal => {
                if b == 0x1b {
                    assert(seq![0x1bu8] + rest =~= line.skip(i));
                } else {
                    lemma_subsequence_both(strip_from(line, i + 1, StripState::Normal), b, rest);
                }
            },
            StripState::Escape => {
                assert(p + line.skip(i) =~= seq![0x1bu8] + (seq![b] + rest));
                if b == 0x5b {
                    lemma_subsequence_prepend(strip_from(line, i + 1, StripState::EscapeBracket), b, rest);
                    lemma_subsequence_prepend(strip_from(line, i + 1, StripState::EscapeBracket), 0x1bu8, seq![b] + rest);
                } else if b == 0x5d {
                    lemma_subsequence_prepend(strip_from(line, i + 1, StripState::Osc), b, rest);
                    lemma_subsequence_prepend(strip_from(line, i + 1, StripState::Osc), 0x1bu8, seq![b] + rest);
                } else {
                    let r = strip_from(line, i + 1, StripState::Normal);
                    lemma_subsequence_both(r, b, rest);
                    lemma_subsequence_both(seq![b] + r, 0x1bu8, seq![b] + rest);
                    assert(seq![0x1bu8, b] + r =~= seq![0x1bu8] + (seq![b] + r));
                }
            },
            StripState::EscapeBracket => {
                if !is_ascii_digit(b) && b != 0x3b {
                    lemma_subsequence_prepend(strip_from(line, i + 1, StripState::Normal), b, rest);
                } else {
                    lemma_subsequence_prepend(strip_from(line, i + 1, StripState::EscapeBracket), b, rest);
                }
            },
            StripState::Osc => {
                lemma_subsequence_prepend(strip_from(line, i + 1, StripState::OscSequence), b, rest);
            },
            StripState::OscSequence => {
                if b == 0x1b && i + 1 < line.len() && line[i + 1] == 0x5c {
                    lemma_strip_from_subsequence(line, i + 2, StripState::Normal);
                    let r = strip_from(line, i + 2, StripState::Normal);
                    assert(rest =~= seq![line[i + 1]] + line.skip(i + 2));
                    lemma_subsequence_prepend(r, line[i + 1], line.skip(i + 2));
                    lemma_subsequence_prepend(r, b, rest);
                } else {
                    lemma_subsequence_prepend(strip_from(line, i + 1, StripState::OscSequence), b, rest);
                }
            },
        }
    }
}

/// Stripping only leaves bytes out: what remains is the input's bytes in
/// their order, and no longer than the input.
pub proof fn lemma_strip_keeps_order(line: Seq<u8>)
    ensures
        is_subsequence(strip_ansi(line), line),
        strip_ansi(line).len() <= line.len(),
{
    lemma_strip_from_subsequence(line, 0, StripState::Normal);
    assert(seq![] + line.skip(0) =~= line);
    lemma_subsequence_len(strip_ansi(line), line);
}

/// An SGR escape sequence: `ESC [`, digits and semicolons, then one final
/// byte that is neither.
pub open spec fn is_sgr_sequence(code: Seq<u8>) -> bool {
    &&& code.len() >= 3
    &&& code[0] == 0x1b
    &&& code[1] == 0x5b
    &&& forall|k: int| 2 <= k < code.len() - 1 ==> is_ascii_digit(#[trigger] code[k]) || code[k]
        == 0x3b
    &&& !is_ascii_digit(code.last()) && code.last() != 0x3b
}

/// A complete SGR sequence in front of any text is removed without a trace:
/// the result is what the text alone gives.
pub proof fn lemma_strip_sgr_prefix(code: Seq<u8>, rest: Seq<u8>)
    requires
        is_sgr_sequence(code),
    ensures
        strip_ansi(code + rest) == strip_ansi(rest),
{
    let line = code + rest;
    lemma_strip_sgr_params(code, rest, 2);
    assert(line[0] == 0x1b);
    assert(line[1] == 0x5b);
    assert(strip_from(line, 1, StripState::Escape) == strip_from(line, 2, StripState::EscapeBracket));
    assert(strip_from(line, 0, StripState::Normal) == strip_from(line, 1, StripState::Escape));
    lemma_strip_shift(code, rest, 0, StripState::Normal);
}

proof fn lemma_strip_sgr_params(code: Seq<u8>, rest: Seq<u8>, k: int)
    requires
        is_sgr_sequence(code),
        2 <= k < code.len(),
    ensures
        strip_from(code + rest, k, StripState::EscapeBracket) == strip_from(
            code + rest,
            code.len() as int,
            StripState::Normal,
        ),
    decreases code.len() - k,
{
    let line = code + rest;
    if k < code.len() - 1 {
        assert(line[k] == code[k]);
        assert(is_ascii_digit(code[k]) || code[k] == 0x3b);
        lemma_strip_sgr_params(code, rest, k + 1);
    } else {
        assert(line[k] == code.last());
    }
}

/// Reading the part of `p + r` that lies in `r` gives what reading `r` gives.
proof fn lemma_strip_shift(p: Seq<u8>, r: Seq<u8>, j: int, st: StripState)
    requires
        0 <= j,
    ensures
        strip_from(p + r, p.len() + j, st) == strip_from(r, j, st),
    decreases r.len() - j,
{
    let line = p + r;
    if j < r.len() {
        assert(line[p.len() + j] == r[j]);
        if j + 1 < r.len() {
            assert(line[p.len() + j + 1] == r[j + 1]);
        }
        lemma_strip_shift(p, r, j + 1, StripState::Normal);
        lemma_strip_shift(p, r, j + 1, StripState::Escape);
        lemma_strip_shift(p, r, j + 1, StripState::EscapeBracket);
        lemma_strip_shift(p, r, j + 1, StripState::Osc);
        lemma_strip_shift(p, r, j + 1, StripState::OscSequence);
        if j + 1 < r.len() {
            lemma_strip_shift(p, r, j + 2, StripState::Normal);
        }
    }
}

} // verus!
