//! Character and string helpers that the highlighters share.
//!
//! Strings are modelled by their characters (`Seq<char>`). Most of the
//! highlighting logic converts a string slice into a `Vec<char>` once, works on
//! character indices and builds `String`s from character ranges.

use vstd::prelude::*;

verus! {

// ---------------------------------------------------------------------------
// Character classes
// ---------------------------------------------------------------------------

/// Whether `c`, a character outside ASCII, has the Unicode `Alphabetic`
/// property or a numeric general category.
pub uninterp spec fn unicode_alphanumeric(c: char) -> bool;

/// What std's `char::is_alphanumeric` answers for `c`: the Unicode
/// `Alphabetic` property or a numeric general category, which within ASCII
/// hold of the letters and the digits only.
pub open spec fn is_alphanumeric_char(c: char) -> bool {
    if (c as u32) < 0x80 {
        ('a' <= c && c <= 'z') || ('A' <= c && c <= 'Z') || ('0' <= c && c <= '9')
    } else {
        unicode_alphanumeric(c)
    }
}

/// Whether `c`, a character outside ASCII, has the Unicode `White_Space`
/// property.
pub uninterp spec fn unicode_white_space(c: char) -> bool;

/// What std's `char::is_whitespace` answers for `c`: the Unicode
/// `White_Space` property, which within ASCII holds of the space and of
/// U+0009 to U+000D (tab, line feed, vertical tab, form feed, carriage
/// return) only.
pub open spec fn is_whitespace_char(c: char) -> bool {
    if (c as u32) < 0x80 {
        (c as u32) == 0x20 || (0x09 <= (c as u32) && (c as u32) <= 0x0d)
    } else {
        unicode_white_space(c)
    }
}

/// std's `char::is_alphanumeric`. Its contract states the documented
/// properties for ASCII and names the answer for the other characters: the
/// Unicode tables that decide it are not restated here.
#[verifier::external_body]
pub(crate) fn char_is_alphanumeric(c: char) -> (b: bool)
    ensures
        b == is_alphanumeric_char(c),
        (c as u32) >= 0x80 ==> b == unicode_alphanumeric(c),
{
    c.is_alphanumeric()
}

/// std's `char::is_whitespace`. Its contract states the documented
/// `White_Space` property for ASCII and names the answer for the other
/// characters: the Unicode tables that decide it are not restated here.
#[verifier::external_body]
pub(crate) fn char_is_whitespace(c: char) -> (b: bool)
    ensures
        b == is_whitespace_char(c),
        (c as u32) >= 0x80 ==> b == unicode_white_space(c),
{
    c.is_whitespace()
}

/// std's `char::from_u32`: `Some` exactly for the valid Unicode scalar
/// values, and then the character with that code point.
#[verifier::external_body]
pub(crate) fn char_from_u32(u: u32) -> (r: Option<char>)
    ensures
        (u < 0xD800 || (0xE000 <= u && u <= 0x10FFFF)) <==> r is Some,
        r matches Some(c) ==> c as u32 == u && c == u as char,
{
    char::from_u32(u)
}

/// All characters of `s` are whitespace (vacuously true for the empty text).
pub open spec fn all_whitespace(s: Seq<char>) -> bool {
    forall|i: int| 0 <= i < s.len() ==> #[trigger] is_whitespace_char(s[i])
}

/// Whether all characters are whitespace.
pub fn chars_all_whitespace(v: &Vec<char>) -> (b: bool)
    ensures
        b == all_whitespace(v@),
{
    let mut i: usize = 0;
    while i < v.len()
        invariant
            i <= v.len(),
            forall|j: int| 0 <= j < i ==> #[trigger] is_whitespace_char(v@[j]),
        decreases v.len() - i,
    {
        if !char_is_whitespace(v[i]) {
            return false;
        }
        i = i + 1;
    }
    true
}

/// Whether a string slice consists of whitespace only.
pub fn str_all_whitespace(s: &str) -> (b: bool)
    ensures
        b == all_whitespace(s@),
{
    let v = chars_of(s);
    chars_all_whitespace(&v)
}

// ---------------------------------------------------------------------------
// Building strings
// ---------------------------------------------------------------------------

/// Appends one character to a string (std's `String::push`).
#[verifier::external_body]
pub(crate) fn push_char(s: &mut String, c: char)
    ensures
        final(s)@ == old(s)@.push(c),
{
    s.push(c);
}

/// Appends a string slice to a string.
pub fn push_str(s: &mut String, t: &str)
    ensures
        final(s)@ == old(s)@ + t@,
{
    s.append(t);
}

/// An owned copy of a string slice.
pub fn string_of_str(t: &str) -> (s: String)
    ensures
        s@ == t@,
{
    let mut s = String::new();
    push_str(&mut s, t);
    s
}

/// Appends the characters `v[lo..hi]` to `s`.
pub fn push_chars(s: &mut String, v: &Vec<char>, lo: usize, hi: usize)
    requires
        lo <= hi <= v.len(),
    ensures
        final(s)@ == old(s)@ + v@.subrange(lo as int, hi as int),
{
    let mut i = lo;
    while i < hi
        invariant
            lo <= i <= hi <= v.len(),
            s@ == old(s)@ + v@.subrange(lo as int, i as int),
        decreases hi - i,
    {
        push_char(s, v[i]);
        i = i + 1;
        assert(v@.subrange(lo as int, i as int) == v@.subrange(lo as int, i - 1 as int).push(
            v@[i - 1],
        ));
    }
}

/// A string made of the characters `v[lo..hi]`.
pub fn string_of_range(v: &Vec<char>, lo: usize, hi: usize) -> (s: String)
    requires
        lo <= hi <= v.len(),
    ensures
        s@ == v@.subrange(lo as int, hi as int),
{
    let mut s = String::new();
    push_chars(&mut s, v, lo, hi);
    s
}

/// A string made of all characters of `v`.
pub fn string_of_chars(v: &Vec<char>) -> (s: String)
    ensures
        s@ == v@,
{
    let s = string_of_range(v, 0, v.len());
    assert(v@.subrange(0, v@.len() as int) == v@);
    s
}

/// The characters of a string slice, in order.
pub fn chars_of(s: &str) -> (v: Vec<char>)
    ensures
        v@ == s@,
{
    let mut v: Vec<char> = Vec::new();
    for c in it: s.chars()
        invariant
            it.seq() == s@,
            v@ == it.seq().take(it.index() as int),
    {
        v.push(c);
    }
    v
}

/// The number of characters of a string slice.
pub fn char_count(s: &str) -> (n: usize)
    ensures
        n == s@.len(),
{
    let v = chars_of(s);
    v.len()
}

/// Whether two string slices hold the same characters.
pub fn str_eq(a: &str, b: &str) -> (r: bool)
    ensures
        r == (a@ == b@),
{
    let va = chars_of(a);
    let vb = chars_of(b);
    chars_eq(&va, &vb)
}

/// Whether two character vectors are equal.
pub fn chars_eq(a: &Vec<char>, b: &Vec<char>) -> (r: bool)
    ensures
        r == (a@ == b@),
{
    if a.len() != b.len() {
        return false;
    }
    let mut i: usize = 0;
    while i < a.len()
        invariant
            a.len() == b.len(),
            i <= a.len(),
            forall|j: int| 0 <= j < i ==> a@[j] == b@[j],
        decreases a.len() - i,
    {
        if a[i] != b[i] {
            return false;
        }
        i = i + 1;
    }
    assert(a@ =~= b@);
    true
}

// ---------------------------------------------------------------------------
// Prefixes, suffixes and searching
// ---------------------------------------------------------------------------

pub open spec fn starts_with(s: Seq<char>, p: Seq<char>) -> bool {
    p.len() <= s.len() && s.take(p.len() as int) == p
}

pub open spec fn ends_with(s: Seq<char>, p: Seq<char>) -> bool {
    p.len() <= s.len() && s.skip(s.len() - p.len()) == p
}

/// Whether `v[at..]` starts with `p`.
pub fn chars_start_with_at(v: &Vec<char>, at: usize, p: &Vec<char>) -> (r: bool)
    requires
        at <= v.len(),
    ensures
        r == starts_with(v@.skip(at as int), p@),
{
    if p.len() > v.len() - at {
        return false;
    }
    let mut i: usize = 0;
    while i < p.len()
        invariant
            p.len() <= v.len() - at,
            at <= v.len(),
            i <= p.len(),
            forall|j: int| 0 <= j < i ==> v@[at + j] == p@[j],
        decreases p.len() - i,
    {
        if v[at + i] != p[i] {
            assert(v@.skip(at as int).take(p.len() as int)[i as int] != p@[i as int]);
            return false;
        }
        i = i + 1;
    }
    assert(v@.skip(at as int).take(p.len() as int) =~= p@);
    true
}

/// Whether `v` starts with `p`.
pub fn chars_start_with(v: &Vec<char>, p: &Vec<char>) -> (r: bool)
    ensures
        r == starts_with(v@, p@),
{
    assert(v@.skip(0) == v@);
    chars_start_with_at(v, 0, p)
}

/// Whether `v` ends with `p`.
pub fn chars_end_with(v: &Vec<char>, p: &Vec<char>) -> (r: bool)
    ensures
        r == ends_with(v@, p@),
{
    if p.len() > v.len() {
        return false;
    }
    let r = chars_start_with_at(v, v.len() - p.len(), p);
    assert(v@.skip(v.len() - p.len()).take(p.len() as int) == v@.skip(v.len() - p.len()));
    r
}

/// Whether the string slice `s` starts with `p`.
pub fn str_starts_with(s: &str, p: &str) -> (r: bool)
    ensures
        r == starts_with(s@, p@),
{
    let vs = chars_of(s);
    let vp = chars_of(p);
    chars_start_with(&vs, &vp)
}

/// Whether the string slice `s` ends with the character `c`.
pub fn str_ends_with_char(s: &str, c: char) -> (r: bool)
    ensures
        r == (s@.len() > 0 && s@.last() == c),
{
    let v = chars_of(s);
    v.len() > 0 && v[v.len() - 1] == c
}

/// Whether `c` occurs in `v`.
pub fn chars_contain(v: &Vec<char>, c: char) -> (r: bool)
    ensures
        r == v@.contains(c),
{
    let mut i: usize = 0;
    while i < v.len()
        invariant
            i <= v.len(),
            forall|j: int| 0 <= j < i ==> v@[j] != c,
        decreases v.len() - i,
    {
        if v[i] == c {
            return true;
        }
        i = i + 1;
    }
    false
}

/// Whether the character `c` occurs in the string slice `s`.
pub fn str_contains_char(s: &str, c: char) -> (r: bool)
    ensures
        r == s@.contains(c),
{
    let v = chars_of(s);
    chars_contain(&v, c)
}

/// The index of the first `c` in `s`, if any.
pub open spec fn first_index(s: Seq<char>, c: char) -> Option<int>
    decreases s.len(),
{
    if s.len() == 0 {
        None
    } else if s[0] == c {
        Some(0)
    } else {
        match first_index(s.skip(1), c) {
            Some(k) => Some(k + 1),
            None => None,
        }
    }
}

/// `first_index` is the smallest index holding `c`.
pub proof fn lemma_first_index(s: Seq<char>, c: char, k: int)
    requires
        0 <= k <= s.len(),
        forall|i: int| 0 <= i < k ==> s[i] != c,
    ensures
        k < s.len() && s[k] == c ==> first_index(s, c) == Some(k),
        k == s.len() ==> first_index(s, c) is None,
    decreases s.len(),
{
    if s.len() > 0 && k > 0 {
        lemma_first_index(s.skip(1), c, k - 1);
    }
}

/// Splits `s` at every `c` (std's `str::split` with a character pattern).
pub open spec fn split_char(s: Seq<char>, c: char) -> Seq<Seq<char>>
    decreases s.len(),
{
    match first_index(s, c) {
        Some(k) => {
            if 0 <= k < s.len() {
                seq![s.take(k)] + split_char(s.skip(k + 1), c)
            } else {
                seq![s]
            }
        },
        None => seq![s],
    }
}

/// Splits `s` at the first `n - 1` occurrences of `c` (std's `str::splitn`);
/// the last piece holds the rest.
pub open spec fn splitn_char(s: Seq<char>, n: nat, c: char) -> Seq<Seq<char>>
    decreases n,
{
    if n == 0 {
        seq![]
    } else if n == 1 {
        seq![s]
    } else {
        match first_index(s, c) {
            Some(k) => {
                if 0 <= k < s.len() {
                    seq![s.take(k)] + splitn_char(s.skip(k + 1), (n - 1) as nat, c)
                } else {
                    seq![s]
                }
            },
            None => seq![s],
        }
    }
}

/// The first occurrence of `c` in `v` at or after `from`.
pub fn find_char_from(v: &Vec<char>, c: char, from: usize) -> (r: Option<usize>)
    requires
        from <= v.len(),
    ensures
        r matches Some(k) ==> from <= k < v.len() && v@[k as int] == c,
        r matches Some(k) ==> first_index(v@.skip(from as int), c) == Some(k - from),
        r is None ==> first_index(v@.skip(from as int), c) is None,
        r is None ==> forall|j: int| from <= j < v.len() ==> v@[j] != c,
{
    let mut i = from;
    while i < v.len()
        invariant
            from <= i <= v.len(),
            forall|j: int| from <= j < i ==> v@[j] != c,
        decreases v.len() - i,
    {
        if v[i] == c {
            proof {
                lemma_first_index(v@.skip(from as int), c, i - from);
            }
            return Some(i);
        }
        i = i + 1;
    }
    proof {
        lemma_first_index(v@.skip(from as int), c, v.len() - from);
    }
    None
}

/// The character sequences held by a sequence of character vectors.
pub open spec fn vecs_view(s: Seq<Vec<char>>) -> Seq<Seq<char>> {
    s.map_values(|v: Vec<char>| v@)
}

/// Splits `v` at every `c`.
pub fn split_chars(v: &Vec<char>, c: char) -> (out: Vec<Vec<char>>)
    ensures
        vecs_view(out@) == split_char(v@, c),
{
    let mut out: Vec<Vec<char>> = Vec::new();
    let mut lo: usize = 0;
    assert(v@.skip(0) == v@);
    assert(vecs_view(out@) =~= Seq::<Seq<char>>::empty());
    loop
        invariant
            lo <= v.len(),
            vecs_view(out@) + split_char(v@.skip(lo as int), c) == split_char(v@, c),
        decreases v.len() - lo,
    {
        let ghost rest = v@.skip(lo as int);
        match find_char_from(v, c, lo) {
            Some(k) => {
                let piece = slice_chars(v, lo, k);
                proof {
                    assert(rest.take(k - lo) == v@.subrange(lo as int, k as int));
                    assert(rest.skip(k - lo + 1) == v@.skip(k + 1));
                }
                let ghost before = out@;
                out.push(piece);
                proof {
                    assert(vecs_view(out@) =~= vecs_view(before).push(v@.subrange(lo as int, k as int)));
                    assert(split_char(rest, c) == seq![rest.take(k - lo)] + split_char(
                        rest.skip(k - lo + 1),
                        c,
                    ));
                    assert(vecs_view(out@) + split_char(v@.skip(k + 1), c) =~= vecs_view(before) + split_char(
                        rest,
                        c,
                    ));
                }
                lo = k + 1;
            },
            None => {
                let piece = slice_chars(v, lo, v.len());
                assert(v@.subrange(lo as int, v.len() as int) == rest);
                let ghost before = out@;
                out.push(piece);
                assert(vecs_view(out@) =~= vecs_view(before).push(rest));
                assert(vecs_view(out@) =~= split_char(v@, c));
                return out;
            },
        }
    }
}

/// A copy of `v[lo..hi]`.
pub fn slice_chars(v: &Vec<char>, lo: usize, hi: usize) -> (r: Vec<char>)
    requires
        lo <= hi <= v.len(),
    ensures
        r@ == v@.subrange(lo as int, hi as int),
{
    let mut r: Vec<char> = Vec::new();
    let mut i = lo;
    while i < hi
        invariant
            lo <= i <= hi <= v.len(),
            r@ == v@.subrange(lo as int, i as int),
        decreases hi - i,
    {
        r.push(v[i]);
        i = i + 1;
    }
    r
}


/// Splits `v` at the first `n - 1` occurrences of `c`.
pub fn splitn_chars(v: &Vec<char>, n: usize, c: char) -> (out: Vec<Vec<char>>)
    ensures
        vecs_view(out@) == splitn_char(v@, n as nat, c),
{
    let mut out: Vec<Vec<char>> = Vec::new();
    if n == 0 {
        assert(vecs_view(out@) =~= Seq::<Seq<char>>::empty());
        return out;
    }
    let mut lo: usize = 0;
    let mut left: usize = n;
    assert(v@.skip(0) == v@);
    assert(vecs_view(out@) =~= Seq::<Seq<char>>::empty());
    loop
        invariant
            lo <= v.len(),
            1 <= left <= n,
            vecs_view(out@) + splitn_char(v@.skip(lo as int), left as nat, c) == splitn_char(
                v@,
                n as nat,
                c,
            ),
        decreases left,
    {
        let ghost rest = v@.skip(lo as int);
        let ghost before = out@;
        if left == 1 {
            let piece = slice_chars(v, lo, v.len());
            assert(v@.subrange(lo as int, v.len() as int) == rest);
            out.push(piece);
            assert(vecs_view(out@) =~= vecs_view(before).push(rest));
            return out;
        }
        match find_char_from(v, c, lo) {
            Some(k) => {
                let piece = slice_chars(v, lo, k);
                proof {
                    assert(rest.take(k - lo) == v@.subrange(lo as int, k as int));
                    assert(rest.skip(k - lo + 1) == v@.skip(k + 1));
                }
                out.push(piece);
                proof {
                    assert(vecs_view(out@) =~= vecs_view(before).push(
                        v@.subrange(lo as int, k as int),
                    ));
                    assert(splitn_char(rest, left as nat, c) == seq![rest.take(k - lo)]
                        + splitn_char(rest.skip(k - lo + 1), (left - 1) as nat, c));
                    assert(vecs_view(out@) + splitn_char(v@.skip(k + 1), (left - 1) as nat, c)
                        =~= vecs_view(before) + splitn_char(rest, left as nat, c));
                }
                lo = k + 1;
                left = left - 1;
            },
            None => {
                let piece = slice_chars(v, lo, v.len());
                assert(v@.subrange(lo as int, v.len() as int) == rest);
                out.push(piece);
                assert(vecs_view(out@) =~= vecs_view(before).push(rest));
                return out;
            },
        }
    }
}

/// `s` without all leading `c` characters (std's `str::trim_start_matches`
/// with a character pattern).
pub open spec fn trim_start_char(s: Seq<char>, c: char) -> Seq<char>
    decreases s.len(),
{
    if s.len() > 0 && s[0] == c {
        trim_start_char(s.skip(1), c)
    } else {
        s
    }
}

/// `v` without all leading `c` characters.
pub fn trim_start_chars(v: &Vec<char>, c: char) -> (r: Vec<char>)
    ensures
        r@ == trim_start_char(v@, c),
{
    let mut i: usize = 0;
    assert(v@.skip(0) == v@);
    while i < v.len() && v[i] == c
        invariant
            i <= v.len(),
            trim_start_char(v@.skip(i as int), c) == trim_start_char(v@, c),
        decreases v.len() - i,
    {
        assert(v@.skip(i as int).skip(1) == v@.skip(i + 1));
        i = i + 1;
    }
    let r = slice_chars(v, i, v.len());
    assert(r@ == v@.skip(i as int));
    r
}

/// `s` without leading and trailing whitespace (std's `str::trim`).
pub open spec fn trim(s: Seq<char>) -> Seq<char> {
    trim_end_ws(trim_start_ws(s))
}

pub open spec fn trim_start_ws(s: Seq<char>) -> Seq<char>
    decreases s.len(),
{
    if s.len() > 0 && is_whitespace_char(s[0]) {
        trim_start_ws(s.skip(1))
    } else {
        s
    }
}

pub open spec fn trim_end_ws(s: Seq<char>) -> Seq<char>
    decreases s.len(),
{
    if s.len() > 0 && is_whitespace_char(s.last()) {
        trim_end_ws(s.drop_last())
    } else {
        s
    }
}

/// `v` without leading and trailing whitespace.
pub fn trim_chars(v: &Vec<char>) -> (r: Vec<char>)
    ensures
        r@ == trim(v@),
{
    let mut i: usize = 0;
    assert(v@.skip(0) == v@);
    while i < v.len() && char_is_whitespace(v[i])
        invariant
            i <= v.len(),
            trim_start_ws(v@.skip(i as int)) == trim_start_ws(v@),
        decreases v.len() - i,
    {
        assert(v@.skip(i as int).skip(1) == v@.skip(i + 1));
        i = i + 1;
    }
    let ghost started = v@.skip(i as int);
    assert(trim_start_ws(started) == started);
    let mut j: usize = v.len();
    assert(v@.subrange(i as int, j as int) == started);
    while j > i && char_is_whitespace(v[j - 1])
        invariant
            i <= j <= v.len(),
            trim_start_ws(v@) == started,
            trim_end_ws(v@.subrange(i as int, j as int)) == trim(v@),
        decreases j,
    {
        assert(v@.subrange(i as int, j as int).drop_last() == v@.subrange(i as int, j - 1));
        j = j - 1;
    }
    slice_chars(v, i, j)
}

/// The decimal digit `d` as a character.
pub open spec fn digit_char(d: int) -> char {
    seq!['0', '1', '2', '3', '4', '5', '6', '7', '8', '9'][d]
}

/// The decimal rendering of `n` (std's `to_string` on unsigned integers).
pub open spec fn decimal(n: nat) -> Seq<char>
    decreases n,
{
    if n < 10 {
        seq![digit_char(n as int)]
    } else {
        decimal(n / 10).push(digit_char((n % 10) as int))
    }
}

fn digit_to_char(d: usize) -> (c: char)
    requires
        d < 10,
    ensures
        c == digit_char(d as int),
{
    if d == 0 {
        '0'
    } else if d == 1 {
        '1'
    } else if d == 2 {
        '2'
    } else if d == 3 {
        '3'
    } else if d == 4 {
        '4'
    } else if d == 5 {
        '5'
    } else if d == 6 {
        '6'
    } else if d == 7 {
        '7'
    } else if d == 8 {
        '8'
    } else {
        '9'
    }
}

/// Appends the decimal rendering of `n` to `s`.
pub fn push_decimal(s: &mut String, n: usize)
    ensures
        final(s)@ == old(s)@ + decimal(n as nat),
    decreases n,
{
    if n >= 10 {
        push_decimal(s, n / 10);
    }
    push_char(s, digit_to_char(n % 10));
    if n >= 10 {
        assert(decimal(n as nat) == decimal((n / 10) as nat).push(digit_char((n % 10) as int)));
    }
}

pub open spec fn is_digit(c: char) -> bool {
    '0' <= c <= '9'
}

pub open spec fn all_digits(s: Seq<char>) -> bool {
    forall|i: int| 0 <= i < s.len() ==> #[trigger] is_digit(s[i])
}

/// The number that a sequence of decimal digits spells.
pub open spec fn digits_value(s: Seq<char>) -> int
    decreases s.len(),
{
    if s.len() == 0 {
        0
    } else {
        digits_value(s.drop_last()) * 10 + (s.last() as int - '0' as int)
    }
}

/// std's `str::parse::<usize>`: an optional `+` followed by one or more
/// decimal digits whose value fits in a `usize`.
pub open spec fn parse_usize(s: Seq<char>) -> Option<usize> {
    let d = if s.len() > 0 && s[0] == '+' {
        s.skip(1)
    } else {
        s
    };
    if d.len() > 0 && all_digits(d) && digits_value(d) <= usize::MAX {
        Some(digits_value(d) as usize)
    } else {
        None
    }
}

proof fn lemma_digits_value_grows(s: Seq<char>, i: int)
    requires
        0 <= i <= s.len(),
        all_digits(s),
    ensures
        0 <= digits_value(s.take(i)) <= digits_value(s),
    decreases s.len() - i,
{
    if i < s.len() {
        lemma_digits_value_grows(s, i + 1);
        assert(s.take(i + 1).drop_last() == s.take(i));
        assert(is_digit(s[i]));
    } else {
        assert(s.take(i) == s);
        lemma_digits_value_nonneg(s);
    }
}

proof fn lemma_digits_value_nonneg(s: Seq<char>)
    requires
        all_digits(s),
    ensures
        0 <= digits_value(s),
    decreases s.len(),
{
    if s.len() > 0 {
        assert(is_digit(s.last()));
        assert(all_digits(s.drop_last()));
        lemma_digits_value_nonneg(s.drop_last());
    }
}

/// Parses a `usize` as std's `str::parse::<usize>` does.
pub fn parse_usize_chars(v: &Vec<char>) -> (r: Option<usize>)
    ensures
        r == parse_usize(v@),
{
    let start: usize = if v.len() > 0 && v[0] == '+' {
        1
    } else {
        0
    };
    let ghost d = v@.skip(start as int);
    assert(d == (if v@.len() > 0 && v@[0] == '+' {
        v@.skip(1)
    } else {
        v@
    }));
    if start >= v.len() {
        return None;
    }
    let mut i = start;
    let mut value: usize = 0;
    while i < v.len()
        invariant
            start <= i <= v.len(),
            start < v.len(),
            d == v@.skip(start as int),
            d == (if v@.len() > 0 && v@[0] == '+' {
                v@.skip(1)
            } else {
                v@
            }),
            forall|j: int| 0 <= j < i - start ==> #[trigger] is_digit(d[j]),
            value == digits_value(d.take(i - start)),
        decreases v.len() - i,
    {
        let c = v[i];
        if !('0' <= c && c <= '9') {
            assert(!is_digit(d[i - start]));
            return None;
        }
        let digit = (c as u32 - '0' as u32) as usize;
        assert(d.take(i - start + 1).drop_last() == d.take(i - start));
        assert(forall|j: int| 0 <= j < i - start + 1 ==> #[trigger] is_digit(d.take(i - start + 1)[j]));
        let times_ten = value.checked_mul(10);
        match times_ten {
            Some(t) => {
                match t.checked_add(digit) {
                    Some(next) => {
                        value = next;
                    },
                    None => {
                        proof {
                            if all_digits(d) {
                                lemma_digits_value_grows(d, i - start + 1);
                            }
                        }
                        return None;
                    },
                }
            },
            None => {
                proof {
                    if all_digits(d) {
                        lemma_digits_value_grows(d, i - start + 1);
                    }
                }
                return None;
            },
        }
        i = i + 1;
    }
    assert(d.take(i - start) == d);
    Some(value)
}


/// A line without one trailing carriage return.
pub open spec fn strip_cr(s: Seq<char>) -> Seq<char> {
    if s.len() > 0 && s.last() == '\r' {
        s.drop_last()
    } else {
        s
    }
}

/// The lines of `s` as std's `str::lines` gives them: split at `\n`, a `\r`
/// right before a `\n` dropped, and no empty line after a final `\n`.
pub open spec fn lines(s: Seq<char>) -> Seq<Seq<char>> {
    let pieces = split_char(s, '\n');
    let kept = if s.len() == 0 || s.last() == '\n' {
        pieces.len() - 1
    } else {
        pieces.len() as int
    };
    Seq::new(
        kept as nat,
        |i: int|
            if i < pieces.len() - 1 {
                strip_cr(pieces[i])
            } else {
                pieces[i]
            },
    )
}

/// `split_char` always yields at least one piece; the pieces joined with `c`
/// give back `s`, and the last piece is empty exactly when `s` ends with `c`
/// (or is empty).
pub proof fn lemma_split_char(s: Seq<char>, c: char)
    ensures
        split_char(s, c).len() >= 1,
        (split_char(s, c).last().len() == 0) <==> (s.len() == 0 || s.last() == c),
        forall|i: int|
            0 <= i < split_char(s, c).len() ==> !(#[trigger] split_char(s, c)[i]).contains(c),
    decreases s.len(),
{
    match first_index(s, c) {
        Some(k) => {
            lemma_first_index_found(s, c);
            if 0 <= k < s.len() {
                lemma_split_char(s.skip(k + 1), c);
                let rest = split_char(s.skip(k + 1), c);
                assert(split_char(s, c) == seq![s.take(k)] + rest);
                assert(split_char(s, c).last() == rest.last());
                if s.skip(k + 1).len() > 0 {
                    assert(s.skip(k + 1).last() == s.last());
                } else {
                    assert(s.last() == s[k]);
                }
                assert forall|i: int| 0 <= i < split_char(s, c).len() implies !(
                #[trigger] split_char(s, c)[i]).contains(c) by {
                    if i == 0 {
                        assert forall|j: int| 0 <= j < k implies s.take(k)[j] != c by {}
                    } else {
                        assert(split_char(s, c)[i] == rest[i - 1]);
                    }
                }
            }
        },
        None => {
            lemma_first_index_found(s, c);
        },
    }
}

/// What `first_index` finds.
pub proof fn lemma_first_index_found(s: Seq<char>, c: char)
    ensures
        first_index(s, c) matches Some(k) ==> 0 <= k < s.len() && s[k] == c && forall|j: int|
            0 <= j < k ==> s[j] != c,
        first_index(s, c) is None ==> !s.contains(c),
    decreases s.len(),
{
    if s.len() > 0 {
        lemma_first_index_found(s.skip(1), c);
        if s[0] != c {
            if first_index(s.skip(1), c) is None {
                assert forall|j: int| 0 <= j < s.len() implies s[j] != c by {
                    if j > 0 {
                        assert(s[j] == s.skip(1)[j - 1]);
                    }
                }
            } else {
                let k = first_index(s.skip(1), c)->0;
                assert forall|j: int| 0 <= j < k + 1 implies s[j] != c by {
                    if j > 0 {
                        assert(s[j] == s.skip(1)[j - 1]);
                    }
                }
            }
        }
    }
}

/// The lines of `v` (std's `str::lines`).
pub fn lines_of(v: &Vec<char>) -> (out: Vec<Vec<char>>)
    ensures
        vecs_view(out@) == lines(v@),
{
    let pieces = split_chars(v, '\n');
    proof {
        lemma_split_char(v@, '\n');
    }
    let kept: usize = if v.len() == 0 || v[v.len() - 1] == '\n' {
        pieces.len() - 1
    } else {
        pieces.len()
    };
    let mut out: Vec<Vec<char>> = Vec::new();
    let mut i: usize = 0;
    while i < kept
        invariant
            kept <= pieces.len(),
            i <= kept,
            vecs_view(pieces@) == split_char(v@, '\n'),
            kept == lines(v@).len(),
            vecs_view(out@) == lines(v@).take(i as int),
        decreases kept - i,
    {
        let ghost before = out@;
        let piece = &pieces[i];
        assert(piece@ == split_char(v@, '\n')[i as int]);
        if i + 1 < pieces.len() && piece.len() > 0 && piece[piece.len() - 1] == '\r' {
            out.push(slice_chars(piece, 0, piece.len() - 1));
            assert(piece@.subrange(0, piece.len() - 1) == piece@.drop_last());
        } else {
            out.push(slice_chars(piece, 0, piece.len()));
            assert(piece@.subrange(0, piece@.len() as int) == piece@);
        }
        assert(vecs_view(out@) =~= vecs_view(before).push(lines(v@)[i as int]));
        assert(lines(v@).take(i + 1) =~= lines(v@).take(i as int).push(lines(v@)[i as int]));
        i = i + 1;
    }
    assert(lines(v@).take(kept as int) =~= lines(v@));
    out
}

/// The index of the first occurrence of the (non-empty) pattern `p` in `s`.
pub open spec fn first_match(s: Seq<char>, p: Seq<char>) -> Option<int>
    decreases s.len(),
{
    if p.len() == 0 || p.len() > s.len() {
        None
    } else if s.take(p.len() as int) == p {
        Some(0)
    } else {
        match first_match(s.skip(1), p) {
            Some(k) => Some(k + 1),
            None => None,
        }
    }
}

/// `first_match` is the smallest index where `p` occurs.
pub proof fn lemma_first_match(s: Seq<char>, p: Seq<char>, k: int)
    requires
        p.len() > 0,
        0 <= k,
        k + p.len() <= s.len() + 1,
        forall|i: int| 0 <= i < k ==> !(#[trigger] s.subrange(i, i + p.len()) == p),
    ensures
        k + p.len() <= s.len() && s.subrange(k, k + p.len()) == p ==> first_match(s, p) == Some(
            k,
        ),
        k + p.len() == s.len() + 1 ==> first_match(s, p) is None,
    decreases s.len(),
{
    if p.len() <= s.len() {
        assert(s.take(p.len() as int) == s.subrange(0, p.len() as int));
        if k > 0 {
            assert(!(s.subrange(0int, 0int + p.len()) == p));
            assert forall|i: int| 0 <= i < k - 1 implies !(#[trigger] s.skip(1).subrange(
                i,
                i + p.len(),
            ) == p) by {
                assert(s.skip(1).subrange(i, i + p.len()) == s.subrange(i + 1, i + 1 + p.len()));
            }
            if k + p.len() <= s.len() {
                assert(s.skip(1).subrange(k - 1, k - 1 + p.len()) == s.subrange(k, k + p.len()));
            }
            lemma_first_match(s.skip(1), p, k - 1);
        }
    }
}

/// Splits `s` at every occurrence of the non-empty pattern `p` (std's
/// `str::split` with a string pattern).
pub open spec fn split_str(s: Seq<char>, p: Seq<char>) -> Seq<Seq<char>>
    decreases s.len(),
{
    match first_match(s, p) {
        Some(k) => {
            if 0 <= k && p.len() > 0 && k + p.len() <= s.len() {
                seq![s.take(k)] + split_str(s.skip(k + p.len()), p)
            } else {
                seq![s]
            }
        },
        None => seq![s],
    }
}

/// The first occurrence of the non-empty pattern `p` in `v` at or after `from`.
pub fn find_pattern_from(v: &Vec<char>, p: &Vec<char>, from: usize) -> (r: Option<usize>)
    requires
        from <= v.len(),
        p.len() > 0,
    ensures
        r matches Some(k) ==> from <= k && k + p.len() <= v.len() && first_match(
            v@.skip(from as int),
            p@,
        ) == Some(k - from),
        r is None ==> first_match(v@.skip(from as int), p@) is None,
{
    let ghost s = v@.skip(from as int);
    let mut i = from;
    while i <= v.len() && p.len() <= v.len() - i
        invariant
            from <= i,
            i <= v.len(),
            p.len() > 0,
            s == v@.skip(from as int),
            p.len() <= s.len() ==> i + p.len() <= v.len() + 1,
            forall|j: int| 0 <= j < i - from ==> !(#[trigger] s.subrange(j, j + p.len()) == p@),
        decreases v.len() - i,
    {
        if chars_start_with_at(v, i, p) {
            proof {
                assert(s.subrange(i - from, i - from + p.len()) == v@.skip(i as int).take(
                    p.len() as int,
                ));
                lemma_first_match(s, p@, i - from);
            }
            return Some(i);
        }
        proof {
            assert(s.subrange(i - from, i - from + p.len()) == v@.skip(i as int).take(
                p.len() as int,
            ));
        }
        i = i + 1;
    }
    proof {
        if p.len() <= s.len() {
            lemma_first_match(s, p@, i - from);
        }
    }
    None
}

/// Splits `v` at every occurrence of the non-empty pattern `p`.
pub fn split_pattern(v: &Vec<char>, p: &Vec<char>) -> (out: Vec<Vec<char>>)
    requires
        p.len() > 0,
    ensures
        vecs_view(out@) == split_str(v@, p@),
{
    let mut out: Vec<Vec<char>> = Vec::new();
    let mut lo: usize = 0;
    assert(v@.skip(0) == v@);
    assert(vecs_view(out@) =~= Seq::<Seq<char>>::empty());
    loop
        invariant
            lo <= v.len(),
            p.len() > 0,
            vecs_view(out@) + split_str(v@.skip(lo as int), p@) == split_str(v@, p@),
        decreases v.len() - lo,
    {
        let ghost rest = v@.skip(lo as int);
        let ghost before = out@;
        match find_pattern_from(v, p, lo) {
            Some(k) => {
                let piece = slice_chars(v, lo, k);
                proof {
                    assert(rest.take(k - lo) == v@.subrange(lo as int, k as int));
                    assert(rest.skip(k - lo + p.len()) == v@.skip(k + p.len()));
                }
                out.push(piece);
                proof {
                    assert(vecs_view(out@) =~= vecs_view(before).push(
                        v@.subrange(lo as int, k as int),
                    ));
                    assert(split_str(rest, p@) == seq![rest.take(k - lo)] + split_str(
                        rest.skip(k - lo + p.len()),
                        p@,
                    ));
                    assert(vecs_view(out@) + split_str(v@.skip(k + p.len()), p@) =~= vecs_view(
                        before,
                    ) + split_str(rest, p@));
                }
                lo = k + p.len();
            },
            None => {
                let piece = slice_chars(v, lo, v.len());
                assert(v@.subrange(lo as int, v.len() as int) == rest);
                out.push(piece);
                assert(vecs_view(out@) =~= vecs_view(before).push(rest));
                return out;
            },
        }
    }
}

/// The number of occurrences of `c` in `s`.
pub open spec fn count_char(s: Seq<char>, c: char) -> nat
    decreases s.len(),
{
    if s.len() == 0 {
        0
    } else {
        count_char(s.drop_last(), c) + if s.last() == c {
            1nat
        } else {
            0nat
        }
    }
}

/// The number of occurrences of `c` in `v`.
pub fn count_chars(v: &Vec<char>, c: char) -> (n: usize)
    ensures
        n == count_char(v@, c),
{
    let mut n: usize = 0;
    let mut i: usize = 0;
    while i < v.len()
        invariant
            i <= v.len(),
            n == count_char(v@.take(i as int), c),
            n <= i,
        decreases v.len() - i,
    {
        assert(v@.take(i + 1).drop_last() == v@.take(i as int));
        if v[i] == c {
            n = n + 1;
        }
        i = i + 1;
    }
    assert(v@.take(v.len() as int) == v@);
    n
}


/// Where the word starting at `i` ends: the first whitespace at or after `i`
/// (or the end).
pub open spec fn word_end(s: Seq<char>, i: int) -> int
    decreases s.len() - i,
{
    if i < 0 || i >= s.len() || is_whitespace_char(s[i]) {
        i
    } else {
        word_end(s, i + 1)
    }
}

pub proof fn lemma_word_end(s: Seq<char>, i: int)
    requires
        0 <= i <= s.len(),
    ensures
        i <= word_end(s, i) <= s.len(),
        forall|j: int| i <= j < word_end(s, i) ==> !is_whitespace_char(#[trigger] s[j]),
        word_end(s, i) < s.len() ==> is_whitespace_char(s[word_end(s, i)]),
    decreases s.len() - i,
{
    if i < s.len() && !is_whitespace_char(s[i]) {
        lemma_word_end(s, i + 1);
    }
}

/// The whitespace separated words of `s[i..]` (std's
/// `str::split_whitespace`).
pub open spec fn words_from(s: Seq<char>, i: int) -> Seq<Seq<char>>
    decreases s.len() - i,
{
    if i < 0 || i >= s.len() {
        seq![]
    } else if is_whitespace_char(s[i]) {
        words_from(s, i + 1)
    } else {
        let k = word_end(s, i);
        if k <= i || k > s.len() {
            seq![]
        } else {
            seq![s.subrange(i, k)] + words_from(s, k)
        }
    }
}

/// The whitespace separated words of a text.
pub fn words_of(s: &str) -> (r: Vec<String>)
    ensures
        crate::tokenizer::strings_view(r@) == words_from(s@, 0),
{
    let chars = chars_of(s);
    let words = split_whitespace_chars(&chars);
    let mut r: Vec<String> = Vec::new();
    let mut i: usize = 0;
    while i < words.len()
        invariant
            i <= words@.len(),
            crate::tokenizer::strings_view(r@) == vecs_view(words@).take(i as int),
        decreases words.len() - i,
    {
        let ghost before = r@;
        r.push(string_of_chars(&words[i]));
        assert(crate::tokenizer::strings_view(r@) =~= crate::tokenizer::strings_view(before).push(
            words@[i as int]@,
        ));
        assert(vecs_view(words@).take(i + 1) =~= vecs_view(words@).take(i as int).push(words@[i as int]@));
        i = i + 1;
    }
    assert(vecs_view(words@).take(words@.len() as int) =~= vecs_view(words@));
    r
}

/// The words of a text, split at whitespace.
pub fn split_whitespace_chars(v: &Vec<char>) -> (out: Vec<Vec<char>>)
    ensures
        vecs_view(out@) == words_from(v@, 0),
{
    let mut out: Vec<Vec<char>> = Vec::new();
    let mut i: usize = 0;
    assert(vecs_view(out@) =~= Seq::<Seq<char>>::empty());
    while i < v.len()
        invariant
            i <= v.len(),
            vecs_view(out@) + words_from(v@, i as int) == words_from(v@, 0),
        decreases v.len() - i,
    {
        if char_is_whitespace(v[i]) {
            i = i + 1;
        } else {
            let mut k = i + 1;
            proof {
                lemma_word_end(v@, i as int);
            }
            while k < v.len() && !char_is_whitespace(v[k])
                invariant
                    i < k <= v.len(),
                    word_end(v@, i as int) == word_end(v@, k as int),
                decreases v.len() - k,
            {
                k = k + 1;
            }
            let ghost before = out@;
            out.push(slice_chars(v, i, k));
            assert(vecs_view(out@) =~= vecs_view(before).push(v@.subrange(i as int, k as int)));
            assert(vecs_view(out@) + words_from(v@, k as int) =~= vecs_view(before) + words_from(
                v@,
                i as int,
            ));
            i = k;
        }
    }
    assert(vecs_view(out@) + words_from(v@, i as int) =~= vecs_view(out@));
    out
}

// ---------------------------------------------------------------------------
// UTF-8 lengths
// ---------------------------------------------------------------------------

/// How many bytes UTF-8 takes for `c`.
pub open spec fn utf8_width(c: char) -> nat {
    let u = c as u32;
    if u < 0x80 {
        1
    } else if u < 0x800 {
        2
    } else if u < 0x10000 {
        3
    } else {
        4
    }
}

/// How many bytes UTF-8 takes for `s`.
pub open spec fn utf8_len(s: Seq<char>) -> nat
    decreases s.len(),
{
    if s.len() == 0 {
        0
    } else {
        utf8_len(s.drop_last()) + utf8_width(s.last())
    }
}

/// Where byte `n` of a text falls.
#[derive(Copy, Clone, Debug, PartialEq, Eq, Structural)]
pub enum ByteSplit {
    /// The text has fewer than `n` bytes.
    Short,
    /// The first `n` bytes are exactly the first this many characters.
    At(usize),
    /// Byte `n` falls inside a character.
    Inside,
}

/// Where byte `n` falls, looking from character `j` on.
pub open spec fn byte_split_from(s: Seq<char>, n: int, j: int) -> ByteSplit
    decreases s.len() - j,
{
    let before = utf8_len(s.take(j));
    if before == n {
        ByteSplit::At(j as usize)
    } else if j >= s.len() || j < 0 {
        ByteSplit::Short
    } else if before + utf8_width(s[j]) > n {
        ByteSplit::Inside
    } else {
        byte_split_from(s, n, j + 1)
    }
}

/// Where byte `n` of `s` falls.
pub open spec fn byte_split_spec(s: Seq<char>, n: int) -> ByteSplit {
    byte_split_from(s, n, 0)
}

/// How many bytes UTF-8 takes for `c`.
pub fn utf8_width_of(c: char) -> (w: usize)
    ensures
        w == utf8_width(c),
{
    let u = c as u32;
    if u < 0x80 {
        1
    } else if u < 0x800 {
        2
    } else if u < 0x10000 {
        3
    } else {
        4
    }
}

/// Where byte `n` of the text `v` falls.
pub fn byte_split(v: &Vec<char>, n: usize) -> (r: ByteSplit)
    ensures
        r == byte_split_spec(v@, n as int),
        r matches ByteSplit::At(j) ==> j <= v@.len() && utf8_len(v@.take(j as int)) == n,
{
    let mut acc: usize = 0;
    let mut j: usize = 0;
    assert(v@.take(0) =~= Seq::<char>::empty());
    while acc != n && j < v.len()
        invariant
            j <= v@.len(),
            acc <= n,
            acc == utf8_len(v@.take(j as int)),
            byte_split_from(v@, n as int, j as int) == byte_split_spec(v@, n as int),
        decreases v@.len() - j,
    {
        let w = utf8_width_of(v[j]);
        assert(v@.take(j + 1).drop_last() =~= v@.take(j as int));
        if w > n - acc {
            return ByteSplit::Inside;
        }
        acc = acc + w;
        j = j + 1;
    }
    if acc == n {
        ByteSplit::At(j)
    } else {
        ByteSplit::Short
    }
}

/// Every character takes at least one byte.
pub proof fn lemma_utf8_len_at_least(s: Seq<char>)
    ensures
        utf8_len(s) >= s.len(),
    decreases s.len(),
{
    if s.len() > 0 {
        lemma_utf8_len_at_least(s.drop_last());
    }
}

/// Appends `n` copies of `c`.
pub fn push_repeat(s: &mut String, c: char, n: usize)
    ensures
        final(s)@ == old(s)@ + Seq::new(n as nat, |_i: int| c),
{
    let ghost start = s@;
    let mut i: usize = 0;
    while i < n
        invariant
            i <= n,
            s@ == start + Seq::new(i as nat, |_i: int| c),
        decreases n - i,
    {
        push_char(s, c);
        i = i + 1;
        assert(s@ =~= start + Seq::new(i as nat, |_i: int| c));
    }
}


/// The number of texts that are a lone newline.
pub open spec fn newline_tokens(ts: Seq<Seq<char>>) -> nat
    decreases ts.len(),
{
    if ts.len() == 0 {
        0
    } else {
        (if ts[0] == seq!['\n'] {
            1nat
        } else {
            0nat
        }) + newline_tokens(ts.skip(1))
    }
}

pub proof fn lemma_count_concat(a: Seq<char>, b: Seq<char>, c: char)
    ensures
        count_char(a + b, c) == count_char(a, c) + count_char(b, c),
    decreases b.len(),
{
    if b.len() > 0 {
        assert((a + b).drop_last() =~= a + b.drop_last());
        lemma_count_concat(a, b.drop_last(), c);
    } else {
        assert(a + b =~= a);
    }
}

pub proof fn lemma_count_absent(s: Seq<char>, c: char)
    requires
        !s.contains(c),
    ensures
        count_char(s, c) == 0,
    decreases s.len(),
{
    if s.len() > 0 {
        assert(s[s.len() - 1] != c);
        assert(!s.drop_last().contains(c)) by {
            if s.drop_last().contains(c) {
                let j = choose|j: int| 0 <= j < s.drop_last().len() && #[trigger] s.drop_last()[j] == c;
                assert(s[j] == c);
            }
        }
        lemma_count_absent(s.drop_last(), c);
    }
}

/// When newlines only come as tokens of their own, the newlines of the
/// joined text are the newline tokens.
pub proof fn lemma_flatten_newlines(ts: Seq<Seq<char>>)
    requires
        forall|k: int| 0 <= k < ts.len() && (#[trigger] ts[k]).contains('\n') ==> ts[k] == seq!['\n'],
    ensures
        count_char(ts.flatten(), '\n') == newline_tokens(ts),
    decreases ts.len(),
{
    if ts.len() > 0 {
        let rest = ts.skip(1);
        assert(ts.drop_first() =~= rest);
        assert forall|k: int| 0 <= k < rest.len() && (#[trigger] rest[k]).contains('\n') implies rest[k]
            == seq!['\n'] by {
            assert(rest[k] == ts[k + 1]);
        }
        lemma_flatten_newlines(rest);
        assert(ts.flatten() == ts[0] + rest.flatten());
        lemma_count_concat(ts[0], rest.flatten(), '\n');
        if ts[0] == seq!['\n'] {
            let nl = seq!['\n'];
            assert(nl.drop_last() =~= Seq::<char>::empty());
            assert(count_char(Seq::<char>::empty(), '\n') == 0);
            assert(nl.last() == '\n');
            assert(count_char(ts[0], '\n') == 1);
        } else {
            lemma_count_absent(ts[0], '\n');
        }
    }
}

/// Leading texts that are no lone newline do not count.
pub proof fn lemma_newline_tokens_skip(t: Seq<Seq<char>>, j: int)
    requires
        0 <= j <= t.len(),
        forall|i: int| 0 <= i < j ==> t[i] != seq!['\n'],
    ensures
        newline_tokens(t) == newline_tokens(t.skip(j)),
    decreases j,
{
    if j == 0 {
        assert(t.skip(0) =~= t);
    } else {
        assert forall|i: int| 0 <= i < j - 1 implies t.skip(1)[i] != seq!['\n'] by {
            assert(t.skip(1)[i] == t[i + 1]);
        }
        lemma_newline_tokens_skip(t.skip(1), j - 1);
        assert(t.skip(1).skip(j - 1) =~= t.skip(j));
    }
}



/// `split_char` gives one piece more than there are separators.
pub proof fn lemma_split_count(s: Seq<char>, c: char)
    ensures
        split_char(s, c).len() == count_char(s, c) + 1,
    decreases s.len(),
{
    lemma_first_index_found(s, c);
    match first_index(s, c) {
        Some(k) => {
            lemma_split_count(s.skip(k + 1), c);
            assert(!s.take(k).contains(c)) by {
                if s.take(k).contains(c) {
                    let j = choose|j: int| 0 <= j < s.take(k).len() && s.take(k)[j] == c;
                    assert(s[j] == c);
                }
            }
            lemma_count_absent(s.take(k), c);
            assert(s =~= s.take(k) + seq![c] + s.skip(k + 1));
            lemma_count_concat(s.take(k), seq![c], c);
            lemma_count_concat(s.take(k) + seq![c], s.skip(k + 1), c);
            let one = seq![c];
            assert(one.drop_last() =~= Seq::<char>::empty());
            assert(count_char(Seq::<char>::empty(), c) == 0);
            assert(one.last() == c);
            assert(count_char(one, c) == 1);
        },
        None => {
            lemma_count_absent(s, c);
        },
    }
}

/// A text has as many lines as newlines, and one more when it does not end
/// with a newline (and is not empty).
pub proof fn lemma_lines_len(s: Seq<char>)
    ensures
        lines(s).len() == count_char(s, '\n') + if s.len() > 0 && s.last() != '\n' {
            1int
        } else {
            0int
        },
{
    lemma_split_count(s, '\n');
}


/// Joining two texts without `c` gives a text without `c`.
pub proof fn lemma_no_char_concat(a: Seq<char>, b: Seq<char>, c: char)
    requires
        !a.contains(c),
        !b.contains(c),
    ensures
        !(a + b).contains(c),
{
    if (a + b).contains(c) {
        let j = choose|j: int| 0 <= j < (a + b).len() && (a + b)[j] == c;
        if j < a.len() {
            assert(a[j] == c);
        } else {
            assert(b[j - a.len()] == c);
        }
    }
}


// ---------------------------------------------------------------------------
// Reading back what was written
// ---------------------------------------------------------------------------

proof fn lemma_digit_char(d: int)
    requires
        0 <= d < 10,
    ensures
        is_digit(digit_char(d)),
        digit_char(d) as int - '0' as int == d,
{
    let ds = seq!['0', '1', '2', '3', '4', '5', '6', '7', '8', '9'];
    assert(digit_char(d) == ds[d]);
    if d == 0 {} else if d == 1 {} else if d == 2 {} else if d == 3 {} else if d == 4 {}
    else if d == 5 {} else if d == 6 {} else if d == 7 {} else if d == 8 {} else {}
}

/// The decimal rendering of a number is digits only, and spells that number.
pub proof fn lemma_decimal(n: nat)
    ensures
        decimal(n).len() > 0,
        all_digits(decimal(n)),
        digits_value(decimal(n)) == n,
    decreases n,
{
    if n < 10 {
        lemma_digit_char(n as int);
        let d = decimal(n);
        assert(d.drop_last() =~= Seq::<char>::empty());
        assert(digits_value(Seq::<char>::empty()) == 0);
        assert(d.last() == digit_char(n as int));
    } else {
        lemma_decimal(n / 10);
        lemma_digit_char((n % 10) as int);
        let d = decimal(n);
        assert(d.drop_last() =~= decimal(n / 10));
        vstd::arithmetic::div_mod::lemma_fundamental_div_mod(n as int, 10);
        assert(d.last() == digit_char((n % 10) as int));
        assert(digits_value(d) == digits_value(decimal(n / 10)) * 10 + (d.last() as int - '0' as int));
        assert forall|i: int| 0 <= i < d.len() implies #[trigger] is_digit(d[i]) by {
            if i < d.len() - 1 {
                assert(d[i] == decimal(n / 10)[i]);
            }
        }
    }
}

/// Parsing the decimal rendering of a `usize` gives it back.
pub proof fn lemma_parse_decimal(n: usize)
    ensures
        parse_usize(decimal(n as nat)) == Some(n),
{
    lemma_decimal(n as nat);
    assert(is_digit(decimal(n as nat)[0]));
}

/// Leading `c`s are trimmed up to the first other character.
pub proof fn lemma_trim_start_one(c: char, d: Seq<char>)
    requires
        d.len() > 0,
        d[0] != c,
    ensures
        trim_start_char(seq![c] + d, c) == d,
{
    assert((seq![c] + d).skip(1) =~= d);
    assert((seq![c] + d)[0] == c);
    assert(trim_start_char(d, c) == d);
}

/// Splitting `a c b` at `c`, where neither `a` nor `b` holds `c`, gives `a`
/// and `b`.
pub proof fn lemma_split_two(a: Seq<char>, b: Seq<char>, c: char)
    requires
        !a.contains(c),
        !b.contains(c),
    ensures
        split_char(a + seq![c] + b, c) == seq![a, b],
{
    let s = a + seq![c] + b;
    assert forall|i: int| 0 <= i < a.len() implies s[i] != c by {
        assert(s[i] == a[i]);
    }
    lemma_first_index(s, c, a.len() as int);
    assert(s.take(a.len() as int) =~= a);
    assert(s.skip(a.len() as int + 1) =~= b);
    lemma_first_index_found(b, c);
    assert(first_index(b, c) is None);
    assert(split_char(b, c) == seq![b]);
    assert(first_index(s, c) == Some(a.len() as int));
    assert(split_char(s, c) == seq![a] + split_char(b, c));
    assert(seq![a] + seq![b] =~= seq![a, b]);
}

/// Pieces each followed by one space.
pub open spec fn spaced(pieces: Seq<Seq<char>>) -> Seq<char>
    decreases pieces.len(),
{
    if pieces.len() == 0 {
        seq![]
    } else {
        pieces[0] + seq![' '] + spaced(pieces.skip(1))
    }
}

pub proof fn lemma_spaced_push(pieces: Seq<Seq<char>>, x: Seq<char>)
    ensures
        spaced(pieces.push(x)) == spaced(pieces) + x + seq![' '],
    decreases pieces.len(),
{
    if pieces.len() == 0 {
        assert(pieces.push(x).skip(1) =~= Seq::<Seq<char>>::empty());
        assert(spaced(Seq::<Seq<char>>::empty()) =~= Seq::<char>::empty());
        assert(spaced(pieces.push(x)) =~= x + seq![' ']);
    } else {
        assert(pieces.push(x).skip(1) =~= pieces.skip(1).push(x));
        lemma_spaced_push(pieces.skip(1), x);
        assert(pieces.push(x)[0] == pieces[0]);
    }
}

/// Splitting space separated pieces (none holding a space) at the first
/// `pieces.len() + n - 1` spaces gives the pieces, then what splitting the
/// rest gives.
pub proof fn lemma_splitn_spaced(pieces: Seq<Seq<char>>, rest: Seq<char>, n: nat)
    requires
        n >= 1,
        forall|j: int| 0 <= j < pieces.len() ==> !(#[trigger] pieces[j]).contains(' '),
    ensures
        splitn_char(spaced(pieces) + rest, pieces.len() + n, ' ') == pieces + splitn_char(rest, n, ' '),
    decreases pieces.len(),
{
    if pieces.len() == 0 {
        assert(spaced(pieces) + rest =~= rest);
        assert(pieces + splitn_char(rest, n, ' ') =~= splitn_char(rest, n, ' '));
    } else {
        let p = pieces[0];
        let tail = pieces.skip(1);
        assert forall|j: int| 0 <= j < tail.len() implies !(#[trigger] tail[j]).contains(' ') by {
            assert(tail[j] == pieces[j + 1]);
        }
        lemma_splitn_spaced(tail, rest, n);
        let s = spaced(pieces) + rest;
        assert(s =~= p + seq![' '] + (spaced(tail) + rest));
        assert forall|i: int| 0 <= i < p.len() implies s[i] != ' ' by {
            assert(s[i] == p[i]);
        }
        lemma_first_index(s, ' ', p.len() as int);
        assert(s.take(p.len() as int) =~= p);
        assert(s.skip(p.len() as int + 1) =~= spaced(tail) + rest);
        assert(pieces =~= seq![p] + tail);
        assert(pieces + splitn_char(rest, n, ' ') =~= seq![p] + (tail + splitn_char(rest, n, ' ')));
    }
}
} // verus!
