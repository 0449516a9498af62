//! What a terminal does with the escape sequences that switch styles.

use vstd::prelude::*;

use crate::ansi::{
    color_code, hyperlink_code, plain_except_hyperlink, style_transition, Color, StripState,
    StyleView, Weight,
};
use crate::constants::{
    BOLD, DEFAULT_COLOR, FAINT, GREEN, INVERSE_VIDEO, NORMAL, NORMAL_INTENSITY, NO_INVERSE_VIDEO,
    RED, YELLOW,
};

verus! {

/// The value of a decimal digit.
pub open spec fn digit_value(c: char) -> int {
    (c as u32) - 0x30
}

pub open spec fn is_digit_char(c: char) -> bool {
    '0' <= c && c <= '9'
}

/// The parameter of an SGR sequence `ESC [ n m` with a one or two digit
/// `n`.
pub open spec fn sgr_number(code: Seq<char>) -> Option<int> {
    if code.len() == 4 && code[0] == '\x1b' && code[1] == '[' && is_digit_char(code[2])
        && code[3] == 'm' {
        Some(digit_value(code[2]))
    } else if code.len() == 5 && code[0] == '\x1b' && code[1] == '[' && is_digit_char(code[2])
        && is_digit_char(code[3]) && code[4] == 'm' {
        Some(10 * digit_value(code[2]) + digit_value(code[3]))
    } else {
        None
    }
}

/// What a terminal in style `s` makes of one escape sequence: an OSC 8
/// hyperlink `ESC ] 8 ; ; U ESC \` sets the URL (none for an empty `U`);
/// SGR 0 resets color, weight and inverse video (the hyperlink stays); 1, 2
/// and 22 set the weight to bold, faint and normal; 7 and 27 switch inverse
/// video on and off; 31, 32, 33 and 39 set the color to red, green, yellow
/// and the default. Any other text leaves the style as it is.
pub open spec fn apply_code(s: StyleView, code: Seq<char>) -> StyleView {
    if code.len() >= 7 && code.take(5) == seq!['\x1b', ']', '8', ';', ';'] && code.skip(
        code.len() - 2,
    ) == seq!['\x1b', '\\'] {
        let u = code.subrange(5, code.len() - 2);
        StyleView {
            url: if u.len() == 0 {
                None
            } else {
                Some(u)
            },
            ..s
        }
    } else {
        let n = sgr_number(code);
        if n == Some(0int) {
            StyleView { color: Color::Default, weight: Weight::Normal, inverse: false, ..s }
        } else if n == Some(1int) {
            StyleView { weight: Weight::Bold, ..s }
        } else if n == Some(2int) {
            StyleView { weight: Weight::Faint, ..s }
        } else if n == Some(22int) {
            StyleView { weight: Weight::Normal, ..s }
        } else if n == Some(7int) {
            StyleView { inverse: true, ..s }
        } else if n == Some(27int) {
            StyleView { inverse: false, ..s }
        } else if n == Some(31int) {
            StyleView { color: Color::Red, ..s }
        } else if n == Some(32int) {
            StyleView { color: Color::Green, ..s }
        } else if n == Some(33int) {
            StyleView { color: Color::Yellow, ..s }
        } else if n == Some(39int) {
            StyleView { color: Color::Default, ..s }
        } else {
            s
        }
    }
}

/// What a terminal in style `s` makes of escape sequences, one after the
/// other.
pub open spec fn play_codes(s: StyleView, codes: Seq<Seq<char>>) -> StyleView
    decreases codes.len(),
{
    if codes.len() == 0 {
        s
    } else {
        play_codes(apply_code(s, codes[0]), codes.skip(1))
    }
}

/// The escape sequences that `style_transition` writes, one by one.
pub open spec fn transition_codes(after: StyleView, before: StyleView) -> Seq<Seq<char>> {
    if after == before {
        seq![]
    } else {
        let link = if after.url != before.url {
            seq![hyperlink_code(after.url)]
        } else {
            seq![]
        };
        if plain_except_hyperlink(after) && !plain_except_hyperlink(before) {
            link + seq![NORMAL@]
        } else {
            let inv = if after.inverse && !before.inverse {
                seq![INVERSE_VIDEO@]
            } else if !after.inverse && before.inverse {
                seq![NO_INVERSE_VIDEO@]
            } else {
                seq![]
            };
            let wt = if after.weight != before.weight {
                (if before.weight != Weight::Normal {
                    seq![NORMAL_INTENSITY@]
                } else {
                    seq![]
                }) + (if after.weight == Weight::Faint {
                    seq![FAINT@]
                } else if after.weight == Weight::Bold {
                    seq![BOLD@]
                } else {
                    seq![]
                })
            } else {
                seq![]
            };
            let col = if after.color != before.color {
                seq![color_code(after.color)]
            } else {
                seq![]
            };
            link + inv + wt + col
        }
    }
}

proof fn lemma_play_concat(s: StyleView, a: Seq<Seq<char>>, b: Seq<Seq<char>>)
    ensures
        play_codes(s, a + b) == play_codes(play_codes(s, a), b),
    decreases a.len(),
{
    if a.len() > 0 {
        assert((a + b).skip(1) =~= a.skip(1) + b);
        lemma_play_concat(apply_code(s, a[0]), a.skip(1), b);
    } else {
        assert(a + b =~= b);
    }
}

proof fn lemma_empty_codes(s: StyleView)
    ensures
        play_codes(s, Seq::<Seq<char>>::empty()) == s,
        Seq::<Seq<char>>::empty().flatten() == Seq::<char>::empty(),
{
    assert(Seq::<Seq<char>>::empty().flatten() =~= Seq::<char>::empty());
}

proof fn lemma_one_code(s: StyleView, c: Seq<char>)
    ensures
        play_codes(s, seq![c]) == apply_code(s, c),
        seq![c].flatten() == c,
{
    assert(seq![c].skip(1) =~= Seq::<Seq<char>>::empty());
    assert(seq![c][0] == c);
    lemma_empty_codes(apply_code(s, c));
    seq![c].lemma_flatten_one_element();
}

proof fn lemma_two_codes(s: StyleView, a: Seq<Seq<char>>, b: Seq<Seq<char>>)
    ensures
        play_codes(s, a + b) == play_codes(play_codes(s, a), b),
        (a + b).flatten() == a.flatten() + b.flatten(),
{
    lemma_play_concat(s, a, b);
    vstd::seq_lib::lemma_flatten_concat(a, b);
}

proof fn lemma_sgr(s: StyleView)
    ensures
        apply_code(s, NORMAL@) == (StyleView { color: Color::Default, weight: Weight::Normal, inverse: false, ..s }),
        apply_code(s, BOLD@) == (StyleView { weight: Weight::Bold, ..s }),
        apply_code(s, FAINT@) == (StyleView { weight: Weight::Faint, ..s }),
        apply_code(s, NORMAL_INTENSITY@) == (StyleView { weight: Weight::Normal, ..s }),
        apply_code(s, INVERSE_VIDEO@) == (StyleView { inverse: true, ..s }),
        apply_code(s, NO_INVERSE_VIDEO@) == (StyleView { inverse: false, ..s }),
        forall|c: Color| #[trigger] apply_code(s, color_code(c)) == (StyleView { color: c, ..s }),
{
    reveal_strlit("\x1b[0m");
    reveal_strlit("\x1b[7m");
    reveal_strlit("\x1b[27m");
    reveal_strlit("\x1b[22m");
    reveal_strlit("\x1b[2m");
    reveal_strlit("\x1b[1m");
    reveal_strlit("\x1b[39m");
    reveal_strlit("\x1b[31m");
    reveal_strlit("\x1b[32m");
    reveal_strlit("\x1b[33m");
    assert forall|c: Color| #[trigger] apply_code(s, color_code(c)) == (StyleView { color: c, ..s }) by {
        match c {
            Color::Default => {},
            Color::Red => {},
            Color::Green => {},
            Color::Yellow => {},
        }
    }
}

proof fn lemma_link(s: StyleView, url: Option<Seq<char>>)
    requires
        url != Some(Seq::<char>::empty()),
    ensures
        apply_code(s, hyperlink_code(url)) == (StyleView { url, ..s }),
{
    reveal_strlit("\x1b]8;;");
    reveal_strlit("\x1b\\");
    reveal_strlit("\x1b]8;;\x1b\\");
    let h = hyperlink_code(url);
    assert(h.take(5) =~= seq!['\x1b', ']', '8', ';', ';']);
    assert(h.skip(h.len() - 2) =~= seq!['\x1b', '\\']);
    match url {
        Some(u) => {
            assert(u.len() > 0) by {
                if u.len() == 0 {
                    assert(u =~= Seq::<char>::empty());
                }
            }
            assert(h.subrange(5, h.len() - 2) =~= u);
        },
        None => {
            assert(h.subrange(5, h.len() - 2) =~= Seq::<char>::empty());
        },
    }
}

/// A terminal follows the switch: in style `before`, the escape sequences
/// that switching to `after` writes (`style_transition`, which
/// `AnsiStyle::from` returns) leave it in style `after`. (A URL is never
/// empty: an empty OSC 8 link ends a hyperlink.)
pub proof fn lemma_terminal_follows(after: StyleView, before: StyleView)
    requires
        after.url != Some(Seq::<char>::empty()),
    ensures
        transition_codes(after, before).flatten() == style_transition(after, before),
        play_codes(before, transition_codes(after, before)) == after,
{
    let empty = Seq::<Seq<char>>::empty();
    lemma_empty_codes(before);
    if after != before {
        let link = if after.url != before.url {
            seq![hyperlink_code(after.url)]
        } else {
            empty
        };
        if after.url != before.url {
            lemma_one_code(before, hyperlink_code(after.url));
            lemma_link(before, after.url);
        }
        let s1 = play_codes(before, link);
        assert(s1 == StyleView { url: after.url, ..before });
        lemma_sgr(s1);
        if plain_except_hyperlink(after) && !plain_except_hyperlink(before) {
            lemma_one_code(s1, NORMAL@);
            lemma_two_codes(before, link, seq![NORMAL@]);
        } else {
            let inv = if after.inverse && !before.inverse {
                seq![INVERSE_VIDEO@]
            } else if !after.inverse && before.inverse {
                seq![NO_INVERSE_VIDEO@]
            } else {
                empty
            };
            if inv.len() > 0 {
                lemma_one_code(s1, inv[0]);
                assert(inv =~= seq![inv[0]]);
            } else {
                lemma_empty_codes(s1);
            }
            let s2 = play_codes(s1, inv);
            assert(s2 == StyleView { inverse: after.inverse, ..s1 });
            lemma_sgr(s2);
            let w1 = if before.weight != Weight::Normal {
                seq![NORMAL_INTENSITY@]
            } else {
                empty
            };
            if w1.len() > 0 {
                lemma_one_code(s2, NORMAL_INTENSITY@);
            } else {
                lemma_empty_codes(s2);
            }
            let s2b = play_codes(s2, w1);
            lemma_sgr(s2b);
            let w2 = if after.weight == Weight::Faint {
                seq![FAINT@]
            } else if after.weight == Weight::Bold {
                seq![BOLD@]
            } else {
                empty
            };
            if w2.len() > 0 {
                assert(w2 =~= seq![w2[0]]);
                lemma_one_code(s2b, w2[0]);
            } else {
                lemma_empty_codes(s2b);
            }
            lemma_two_codes(s2, w1, w2);
            let wt = if after.weight != before.weight {
                w1 + w2
            } else {
                empty
            };
            let s3 = play_codes(s2, wt);
            assert(s3 == StyleView { weight: after.weight, ..s2 });
            lemma_sgr(s3);
            let col = if after.color != before.color {
                seq![color_code(after.color)]
            } else {
                empty
            };
            if col.len() > 0 {
                lemma_one_code(s3, color_code(after.color));
            } else {
                lemma_empty_codes(s3);
            }
            let s4 = play_codes(s3, col);
            assert(s4 == after);
            lemma_two_codes(before, link, inv);
            lemma_two_codes(before, link + inv, wt);
            lemma_two_codes(before, link + inv + wt, col);
            assert(transition_codes(after, before) == link + inv + wt + col);
        }
    }
}


// ---------------------------------------------------------------------------
// The text a terminal shows
// ---------------------------------------------------------------------------

/// The text of `s[i..]` without its escape sequences, read from state `st`,
/// the way `strip_from` reads bytes: `ESC [` runs to the first character
/// that is neither a digit nor `;`, `ESC ]` runs to the next `ESC \`, and
/// ESC followed by anything else is kept.
pub open spec fn shown_from(s: Seq<char>, i: int, st: StripState) -> Seq<char>
    decreases s.len() - i,
{
    if i < 0 || i >= s.len() {
        seq![]
    } else {
        let c = s[i];
        match st {
            StripState::Normal => {
                if c == '\x1b' {
                    shown_from(s, i + 1, StripState::Escape)
                } else {
                    seq![c] + shown_from(s, i + 1, StripState::Normal)
                }
            },
            StripState::Escape => {
                if c == '[' {
                    shown_from(s, i + 1, StripState::EscapeBracket)
                } else if c == ']' {
                    shown_from(s, i + 1, StripState::Osc)
                } else {
                    seq!['\x1b', c] + shown_from(s, i + 1, StripState::Normal)
                }
            },
            StripState::EscapeBracket => {
                if !is_digit_char(c) && c != ';' {
                    shown_from(s, i + 1, StripState::Normal)
                } else {
                    shown_from(s, i + 1, StripState::EscapeBracket)
                }
            },
            StripState::Osc => shown_from(s, i + 1, StripState::OscSequence),
            StripState::OscSequence => {
                if c == '\x1b' && i + 1 < s.len() && s[i + 1] == '\\' {
                    shown_from(s, i + 2, StripState::Normal)
                } else {
                    shown_from(s, i + 1, StripState::OscSequence)
                }
            },
        }
    }
}

/// The text without its escape sequences.
pub open spec fn shown_chars(s: Seq<char>) -> Seq<char> {
    shown_from(s, 0, StripState::Normal)
}

proof fn lemma_shown_shift(p: Seq<char>, r: Seq<char>, j: int, st: StripState)
    requires
        0 <= j,
    ensures
        shown_from(p + r, p.len() + j, st) == shown_from(r, j, st),
    decreases r.len() - j,
{
    let line = p + r;
    if j < r.len() {
        assert(line[p.len() + j] == r[j]);
        if j + 1 < r.len() {
            assert(line[p.len() + j + 1] == r[j + 1]);
        }
        lemma_shown_shift(p, r, j + 1, StripState::Normal);
        lemma_shown_shift(p, r, j + 1, StripState::Escape);
        lemma_shown_shift(p, r, j + 1, StripState::EscapeBracket);
        lemma_shown_shift(p, r, j + 1, StripState::Osc);
        lemma_shown_shift(p, r, j + 1, StripState::OscSequence);
        if j + 1 < r.len() {
            lemma_shown_shift(p, r, j + 2, StripState::Normal);
        }
    }
}

proof fn lemma_shown_plain_from(p: Seq<char>, r: Seq<char>, i: int)
    requires
        !p.contains('\x1b'),
        0 <= i <= p.len(),
    ensures
        shown_from(p + r, i, StripState::Normal) == p.skip(i) + shown_chars(r),
    decreases p.len() - i,
{
    if i < p.len() {
        lemma_shown_plain_from(p, r, i + 1);
        assert((p + r)[i] == p[i]);
        assert(p[i] != '\x1b');
        assert(p.skip(i) =~= seq![p[i]] + p.skip(i + 1));
    } else {
        lemma_shown_shift(p, r, 0, StripState::Normal);
        assert(p.skip(i) =~= Seq::<char>::empty());
        assert(p.len() + 0 == i);
    }
}

/// Text without ESC is shown as it is.
pub proof fn lemma_shown_plain(p: Seq<char>, r: Seq<char>)
    requires
        !p.contains('\x1b'),
    ensures
        shown_chars(p + r) == p + shown_chars(r),
{
    lemma_shown_plain_from(p, r, 0);
    assert(p.skip(0) =~= p);
}

/// An SGR sequence: `ESC [`, digits and semicolons, and one final
/// character that is neither.
pub open spec fn is_sgr_text(code: Seq<char>) -> bool {
    &&& code.len() >= 3
    &&& code[0] == '\x1b'
    &&& code[1] == '['
    &&& forall|k: int| 2 <= k < code.len() - 1 ==> is_digit_char(#[trigger] code[k]) || code[k] == ';'
    &&& !is_digit_char(code.last()) && code.last() != ';'
}

proof fn lemma_shown_sgr_params(code: Seq<char>, rest: Seq<char>, k: int)
    requires
        is_sgr_text(code),
        2 <= k < code.len(),
    ensures
        shown_from(code + rest, k, StripState::EscapeBracket) == shown_from(
            code + rest,
            code.len() as int,
            StripState::Normal,
        ),
    decreases code.len() - k,
{
    let line = code + rest;
    if k < code.len() - 1 {
        assert(line[k] == code[k]);
        assert(is_digit_char(code[k]) || code[k] == ';');
        lemma_shown_sgr_params(code, rest, k + 1);
    } else {
        assert(line[k] == code.last());
    }
}

/// An SGR sequence in front of a text is not shown.
pub proof fn lemma_shown_sgr(code: Seq<char>, rest: Seq<char>)
    requires
        is_sgr_text(code),
    ensures
        shown_chars(code + rest) == shown_chars(rest),
{
    let line = code + rest;
    lemma_shown_sgr_params(code, rest, 2);
    assert(line[0] == '\x1b');
    assert(line[1] == '[');
    assert(shown_from(line, 1, StripState::Escape) == shown_from(line, 2, StripState::EscapeBracket));
    assert(shown_from(line, 0, StripState::Normal) == shown_from(line, 1, StripState::Escape));
    lemma_shown_shift(code, rest, 0, StripState::Normal);
}

/// The color codes that `HunkHeader::render` writes are SGR sequences.
pub proof fn lemma_header_codes_sgr()
    ensures
        is_sgr_text(crate::hunk_header::HUNK_HEADER@),
        is_sgr_text(BOLD@),
        is_sgr_text(NORMAL@),
{
    reveal_strlit("\x1b[36m");
    reveal_strlit("\x1b[1m");
    reveal_strlit("\x1b[0m");
}

proof fn lemma_shown_osc_scan(s: Seq<char>, k: int, e: int)
    requires
        0 <= k <= e,
        e < s.len(),
        forall|j: int| k <= j < e ==> s[j] != '\x1b',
    ensures
        shown_from(s, k, StripState::OscSequence) == shown_from(s, e, StripState::OscSequence),
    decreases e - k,
{
    if k < e {
        lemma_shown_osc_scan(s, k + 1, e);
    }
}

/// A hyperlink code whose URL holds no escape character is not shown.
pub proof fn lemma_shown_link(url: Option<Seq<char>>, rest: Seq<char>)
    requires
        url matches Some(u) ==> !u.contains('\x1b'),
    ensures
        shown_chars(hyperlink_code(url) + rest) == shown_chars(rest),
{
    reveal_strlit("\x1b]8;;");
    reveal_strlit("\x1b\\");
    reveal_strlit("\x1b]8;;\x1b\\");
    let u = match url {
        Some(u) => u,
        None => Seq::<char>::empty(),
    };
    let code = hyperlink_code(url);
    assert(code =~= "\x1b]8;;"@ + u + "\x1b\\"@);
    let s = code + rest;
    let e = u.len() as int + 5;
    assert forall|j: int| 3 <= j < e implies s[j] != '\x1b' by {
        if j >= 5 {
            assert(s[j] == u[j - 5]);
        }
    }
    lemma_shown_osc_scan(s, 3, e);
    assert(s[e] == '\x1b');
    assert(s[e + 1] == '\\');
    assert(shown_from(s, e, StripState::OscSequence) == shown_from(s, e + 2, StripState::Normal));
    lemma_shown_shift(code, rest, 0, StripState::Normal);
    assert(s[0] == '\x1b');
    assert(s[1] == ']');
    assert(shown_from(s, 2, StripState::Osc) == shown_from(s, 3, StripState::OscSequence));
    assert(shown_from(s, 1, StripState::Escape) == shown_from(s, 2, StripState::Osc));
}

/// An SGR sequence, or nothing, in front of a text is not shown.
proof fn lemma_shown_maybe_sgr(code: Seq<char>, rest: Seq<char>)
    requires
        code.len() == 0 || is_sgr_text(code),
    ensures
        shown_chars(code + rest) == shown_chars(rest),
{
    if code.len() == 0 {
        assert(code + rest =~= rest);
    } else {
        lemma_shown_sgr(code, rest);
    }
}

/// The codes that switch colors, weights and inverse video are SGR
/// sequences.
proof fn lemma_style_codes_sgr()
    ensures
        is_sgr_text(INVERSE_VIDEO@),
        is_sgr_text(NO_INVERSE_VIDEO@),
        is_sgr_text(NORMAL_INTENSITY@),
        is_sgr_text(FAINT@),
        is_sgr_text(BOLD@),
        is_sgr_text(NORMAL@),
        forall|c: Color| is_sgr_text(#[trigger] color_code(c)),
{
    reveal_strlit("\x1b[7m");
    reveal_strlit("\x1b[27m");
    reveal_strlit("\x1b[22m");
    reveal_strlit("\x1b[2m");
    reveal_strlit("\x1b[1m");
    reveal_strlit("\x1b[39m");
    reveal_strlit("\x1b[31m");
    reveal_strlit("\x1b[32m");
    reveal_strlit("\x1b[33m");
    reveal_strlit("\x1b[0m");
}

/// The codes that switch inverse video, weight and color are not shown.
proof fn lemma_shown_style_codes(after: StyleView, before: StyleView, rest: Seq<char>)
    ensures
        shown_chars(crate::ansi::inverse_code(after, before) + crate::ansi::weight_code(after, before)
            + (if after.color != before.color {
            color_code(after.color)
        } else {
            seq![]
        }) + rest) == shown_chars(rest),
{
    lemma_style_codes_sgr();
    let inv = crate::ansi::inverse_code(after, before);
    let wt = crate::ansi::weight_code(after, before);
    let col = if after.color != before.color {
        color_code(after.color)
    } else {
        seq![]
    };
    let r3 = col + rest;
    lemma_shown_maybe_sgr(col, rest);
    let r2 = wt + r3;
    if after.weight != before.weight {
        let w1 = if before.weight != Weight::Normal {
            NORMAL_INTENSITY@
        } else {
            seq![]
        };
        let w2 = if after.weight == Weight::Faint {
            FAINT@
        } else if after.weight == Weight::Bold {
            BOLD@
        } else {
            seq![]
        };
        assert(wt == w1 + w2);
        assert(r2 =~= w1 + (w2 + r3));
        lemma_shown_maybe_sgr(w2, r3);
        lemma_shown_maybe_sgr(w1, w2 + r3);
    } else {
        assert(r2 =~= r3);
    }
    lemma_shown_maybe_sgr(inv, r2);
    assert(inv + wt + col + rest =~= inv + r2);
}

/// The codes that switch styles are not shown, where the new style's URL
/// holds no escape character.
pub proof fn lemma_shown_transition(after: StyleView, before: StyleView, rest: Seq<char>)
    requires
        after.url matches Some(u) ==> !u.contains('\x1b'),
    ensures
        shown_chars(style_transition(after, before) + rest) == shown_chars(rest),
{
    if after == before {
        assert(style_transition(after, before) + rest =~= rest);
    } else {
        let link = if after.url != before.url {
            hyperlink_code(after.url)
        } else {
            seq![]
        };
        let tail = if plain_except_hyperlink(after) && !plain_except_hyperlink(before) {
            NORMAL@
        } else {
            crate::ansi::inverse_code(after, before) + crate::ansi::weight_code(after, before) + (
            if after.color != before.color {
                color_code(after.color)
            } else {
                seq![]
            })
        };
        assert(style_transition(after, before) == link + tail);
        if plain_except_hyperlink(after) && !plain_except_hyperlink(before) {
            lemma_style_codes_sgr();
            lemma_shown_sgr(NORMAL@, rest);
        } else {
            lemma_shown_style_codes(after, before, rest);
        }
        assert(shown_chars(tail + rest) == shown_chars(rest));
        assert(style_transition(after, before) + rest =~= link + (tail + rest));
        if after.url != before.url {
            lemma_shown_link(after.url, tail + rest);
        } else {
            assert(link + (tail + rest) =~= tail + rest);
        }
    }
}

} // verus!
