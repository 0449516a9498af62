//! Splitting text into the tokens that the refiner compares.

use vstd::prelude::*;

use crate::text::{char_is_alphanumeric, char_is_whitespace, chars_of, is_alphanumeric_char, is_whitespace_char, string_of_range};

verus! {

/// The texts held by a sequence of strings.
pub open spec fn strings_view(s: Seq<String>) -> Seq<Seq<char>> {
    s.map_values(|t: String| t@)
}

/// Letters, digits and `_` make up words.
pub open spec fn is_word_part(c: char) -> bool {
    c == '_' || is_alphanumeric_char(c)
}

/// Characters that may start a run of several characters: word characters and
/// whitespace other than newline.
pub open spec fn starts_run(c: char) -> bool {
    is_word_part(c) || (is_whitespace_char(c) && c != '\n')
}

/// Whether `c` continues a run started by `start`: word characters continue
/// words, and a whitespace character continues a run of that same character.
pub open spec fn continues_run(start: char, c: char) -> bool {
    (is_word_part(c) && is_word_part(start)) || (is_whitespace_char(start) && start != '\n' && c
        == start)
}

/// The tokens of `s[i..]`, when a run started at `run` (if any) is still open.
pub open spec fn tokens_from(s: Seq<char>, i: int, run: Option<int>) -> Seq<Seq<char>>
    decreases s.len() - i,
{
    if i < 0 || i >= s.len() {
        match run {
            Some(st) => seq![s.subrange(st, s.len() as int)],
            None => seq![],
        }
    } else {
        let c = s[i];
        match run {
            Some(st) => {
                if continues_run(s[st], c) {
                    tokens_from(s, i + 1, run)
                } else if starts_run(c) {
                    seq![s.subrange(st, i)] + tokens_from(s, i + 1, Some(i))
                } else {
                    seq![s.subrange(st, i), seq![c]] + tokens_from(s, i + 1, None)
                }
            },
            None => {
                if starts_run(c) {
                    tokens_from(s, i + 1, Some(i))
                } else {
                    seq![seq![c]] + tokens_from(s, i + 1, None)
                }
            },
        }
    }
}

/// The tokens of `s`: words (runs of letters, digits and `_`), runs of one
/// repeated whitespace character other than newline, and every other
/// character on its own.
pub open spec fn tokenize_spec(s: Seq<char>) -> Seq<Seq<char>> {
    tokens_from(s, 0, None)
}

/// Splits string into a vector of words. A word is any sequence of alphanumeric
/// characters. Non-words get into the vector one and one.
pub fn tokenize(input: &str) -> (result: Vec<String>)
    ensures
        strings_view(result@) == tokenize_spec(input@),
{
    let v = chars_of(input);
    let mut run_start: Option<usize> = None;
    let mut result: Vec<String> = Vec::new();
    let mut i: usize = 0;
    assert(strings_view(result@) =~= Seq::<Seq<char>>::empty());
    while i < v.len()
        invariant
            i <= v.len(),
            v@ == input@,
            run_start matches Some(st) ==> st < i,
            strings_view(result@) + tokens_from(v@, i as int, opt_int(run_start)) == tokenize_spec(
                v@,
            ),
        decreases v.len() - i,
    {
        let character = v[i];
        let ghost before = result@;
        let ghost old_run = run_start;
        let is_word = character == '_' || char_is_alphanumeric(character);
        let is_space = char_is_whitespace(character);
        let mut still_in_run = false;
        if let Some(start_index) = run_start {
            let start_char = v[start_index];
            let last_was_word_part = start_char == '_' || char_is_alphanumeric(start_char);
            if is_word && last_was_word_part {
                still_in_run = true;
            } else if char_is_whitespace(start_char) && start_char != '\n' && character
                == start_char {
                still_in_run = true;
            } else {
                run_start = None;
                // Push the token that just ended
                result.push(string_of_range(&v, start_index, i));
            }
        }
        if !still_in_run {
            // Start a new run?
            if is_word || (is_space && character != '\n') {
                run_start = Some(i);
                still_in_run = true;
            }
        }
        if !still_in_run {
            // Push the current character
            result.push(string_of_range(&v, i, i + 1));
        }
        proof {
            assert(v@.subrange(i as int, i + 1) =~= seq![character]);
            assert(strings_view(result@) + tokens_from(v@, i + 1, opt_int(run_start))
                =~= strings_view(before) + tokens_from(v@, i as int, opt_int(old_run)));
        }
        i = i + 1;
    }
    if let Some(run_start) = run_start {
        // Push the ending token
        let ghost before = result@;
        result.push(string_of_range(&v, run_start, v.len()));
        assert(strings_view(result@) =~= strings_view(before).push(
            v@.subrange(run_start as int, v@.len() as int),
        ));
    }
    assert(strings_view(result@) =~= tokenize_spec(v@));
    return result;
}

/// An optional index as an optional integer.
pub open spec fn opt_int(o: Option<usize>) -> Option<int> {
    match o {
        Some(x) => Some(x as int),
        None => None,
    }
}

/// Tokenizing loses nothing: the tokens joined give back the text, and no
/// token is empty.
pub proof fn lemma_tokenize_lossless(s: Seq<char>)
    ensures
        tokenize_spec(s).flatten() == s,
        forall|k: int| 0 <= k < tokenize_spec(s).len() ==> (#[trigger] tokenize_spec(s)[k]).len()
            > 0,
{
    lemma_tokens_from(s, 0, None);
    assert(s.subrange(0, s.len() as int) == s);
}

proof fn lemma_tokens_from(s: Seq<char>, i: int, run: Option<int>)
    requires
        0 <= i <= s.len(),
        run matches Some(st) ==> 0 <= st < i,
    ensures
        tokens_from(s, i, run).flatten() == s.subrange(
            match run {
                Some(st) => st,
                None => i,
            },
            s.len() as int,
        ),
        forall|k: int|
            0 <= k < tokens_from(s, i, run).len() ==> (#[trigger] tokens_from(s, i, run)[k]).len()
                > 0,
    decreases s.len() - i,
{
    if i < s.len() {
        let c = s[i];
        lemma_tokens_from(s, i + 1, run);
        lemma_tokens_from(s, i + 1, Some(i));
        lemma_tokens_from(s, i + 1, None);
        let from = match run {
            Some(st) => st,
            None => i,
        };
        match run {
            Some(st) => {
                if continues_run(s[st], c) {
                } else if starts_run(c) {
                    lemma_flatten_prepend(s.subrange(st, i), tokens_from(s, i + 1, Some(i)));
                    assert(s.subrange(st, i) + s.subrange(i, s.len() as int) =~= s.subrange(
                        st,
                        s.len() as int,
                    ));
                } else {
                    let rest = tokens_from(s, i + 1, None);
                    assert(seq![s.subrange(st, i), seq![c]] + rest == seq![s.subrange(st, i)] + (
                    seq![seq![c]] + rest));
                    lemma_flatten_prepend(seq![c], rest);
                    lemma_flatten_prepend(s.subrange(st, i), seq![seq![c]] + rest);
                    assert(s.subrange(st, i) + (seq![c] + s.subrange(i + 1, s.len() as int))
                        =~= s.subrange(st, s.len() as int));
                }
            },
            None => {
                if starts_run(c) {
                } else {
                    lemma_flatten_prepend(seq![c], tokens_from(s, i + 1, None));
                    assert(seq![c] + s.subrange(i + 1, s.len() as int) =~= s.subrange(
                        i,
                        s.len() as int,
                    ));
                }
            },
        }
    } else {
        match run {
            Some(st) => {
                assert(seq![s.subrange(st, s.len() as int)].flatten() == s.subrange(
                    st,
                    s.len() as int,
                )) by {
                    seq![s.subrange(st, s.len() as int)].lemma_flatten_one_element();
                }
            },
            None => {
                assert(s.subrange(i, s.len() as int) =~= Seq::<char>::empty());
            },
        }
    }
}

proof fn lemma_flatten_prepend(first: Seq<char>, rest: Seq<Seq<char>>)
    ensures
        (seq![first] + rest).flatten() == first + rest.flatten(),
{
    assert((seq![first] + rest).drop_first() =~= rest);
}

/// A newline is always a token of its own: every token that holds a newline
/// is exactly one newline.
pub proof fn lemma_newline_tokens(s: Seq<char>)
    ensures
        forall|k: int|
            0 <= k < tokenize_spec(s).len() && (#[trigger] tokenize_spec(s)[k]).contains('\n')
                ==> tokenize_spec(s)[k] == seq!['\n'],
{
    lemma_newline_tokens_from(s, 0, None);
}

proof fn lemma_newline_tokens_from(s: Seq<char>, i: int, run: Option<int>)
    requires
        0 <= i <= s.len(),
        run matches Some(st) ==> 0 <= st < i && !s.subrange(st, i).contains('\n'),
    ensures
        forall|k: int|
            0 <= k < tokens_from(s, i, run).len() && (#[trigger] tokens_from(
                s,
                i,
                run,
            )[k]).contains('\n') ==> tokens_from(s, i, run)[k] == seq!['\n'],
    decreases s.len() - i,
{
    let toks = tokens_from(s, i, run);
    if i < s.len() {
        let c = s[i];
        match run {
            Some(st) => {
                let head = s.subrange(st, i);
                if continues_run(s[st], c) {
                    assert(s[st] != '\n') by {
                        assert(head[0] == s[st]);
                    }
                    assert(c != '\n');
                    let longer = s.subrange(st, i + 1);
                    assert(!longer.contains('\n')) by {
                        assert(longer =~= head.push(c));
                        if longer.contains('\n') {
                            let j = choose|j: int| 0 <= j < longer.len() && #[trigger] longer[j] == '\n';
                            if j < i - st {
                                assert(head[j] == longer[j]);
                            }
                        }
                    }
                    lemma_newline_tokens_from(s, i + 1, run);
                    assert(toks == tokens_from(s, i + 1, run));
                } else if starts_run(c) {
                    assert(c != '\n');
                    assert(!s.subrange(i, i + 1).contains('\n')) by {
                        assert(s.subrange(i, i + 1) =~= seq![c]);
                    }
                    lemma_newline_tokens_from(s, i + 1, Some(i));
                    let rest = tokens_from(s, i + 1, Some(i));
                    assert(toks == seq![head] + rest);
                    assert forall|k: int| 0 <= k < toks.len() && (#[trigger] toks[k]).contains('\n') implies toks[k]
                        == seq!['\n'] by {
                        if k > 0 {
                            assert(toks[k] == rest[k - 1]);
                        }
                    }
                } else {
                    lemma_newline_tokens_from(s, i + 1, None);
                    let rest = tokens_from(s, i + 1, None);
                    assert(toks == seq![head, seq![c]] + rest);
                    assert forall|k: int| 0 <= k < toks.len() && (#[trigger] toks[k]).contains('\n') implies toks[k]
                        == seq!['\n'] by {
                        if k > 1 {
                            assert(toks[k] == rest[k - 2]);
                        } else if k == 1 {
                            assert(toks[1] == seq![c]);
                            let one = seq![c];
                            let j = choose|j: int| 0 <= j < one.len() && #[trigger] one[j] == '\n';
                            assert(j == 0);
                        }
                    }
                }
            },
            None => {
                if starts_run(c) {
                    assert(c != '\n');
                    assert(!s.subrange(i, i + 1).contains('\n')) by {
                        assert(s.subrange(i, i + 1) =~= seq![c]);
                    }
                    lemma_newline_tokens_from(s, i + 1, Some(i));
                    assert(toks == tokens_from(s, i + 1, Some(i)));
                } else {
                    lemma_newline_tokens_from(s, i + 1, None);
                    let rest = tokens_from(s, i + 1, None);
                    assert(toks == seq![seq![c]] + rest);
                    assert forall|k: int| 0 <= k < toks.len() && (#[trigger] toks[k]).contains('\n') implies toks[k]
                        == seq!['\n'] by {
                        if k > 0 {
                            assert(toks[k] == rest[k - 1]);
                        } else {
                            let one = seq![c];
                            let j = choose|j: int| 0 <= j < one.len() && #[trigger] one[j] == '\n';
                            assert(j == 0);
                        }
                    }
                }
            },
        }
    } else {
        match run {
            Some(st) => {
                assert(toks == seq![s.subrange(st, s.len() as int)]);
                assert(toks[0] == s.subrange(st, i));
            },
            None => {
                assert(toks.len() == 0);
            },
        }
    }
}


// ---------------------------------------------------------------------------
// What tokens look like
// ---------------------------------------------------------------------------

/// A word: one or more letters, digits or `_`.
pub open spec fn word_token(t: Seq<char>) -> bool {
    t.len() > 0 && forall|j: int| 0 <= j < t.len() ==> #[trigger] is_word_part(t[j])
}

/// One or more copies of one whitespace character other than newline.
pub open spec fn blank_run(t: Seq<char>) -> bool {
    &&& t.len() > 0
    &&& is_whitespace_char(t[0]) && t[0] != '\n'
    &&& forall|j: int| 0 <= j < t.len() ==> #[trigger] t[j] == t[0]
}

/// One character that starts no run (so every newline is a token of its
/// own).
pub open spec fn single_token(t: Seq<char>) -> bool {
    t.len() == 1 && !starts_run(t[0])
}

pub open spec fn well_formed_token(t: Seq<char>) -> bool {
    word_token(t) || blank_run(t) || single_token(t)
}

/// Two neighbouring tokens that would have been one: two words, or two
/// runs of the same whitespace character.
pub open spec fn would_join(a: Seq<char>, b: Seq<char>) -> bool {
    (word_token(a) && word_token(b)) || (blank_run(a) && blank_run(b) && a[0] == b[0])
}

/// The run `s[st..i]` may continue at `i`.
pub open spec fn open_run(s: Seq<char>, st: int, i: int) -> bool {
    &&& 0 <= st < i <= s.len()
    &&& starts_run(s[st])
    &&& forall|j: int| st < j < i ==> #[trigger] continues_run(s[st], s[j])
}

proof fn lemma_run_token(s: Seq<char>, st: int, i: int)
    requires
        open_run(s, st, i),
    ensures
        well_formed_token(s.subrange(st, i)),
        s.subrange(st, i)[0] == s[st],
{
    let t = s.subrange(st, i);
    if is_word_part(s[st]) {
        assert forall|j: int| 0 <= j < t.len() implies #[trigger] is_word_part(t[j]) by {
            if j > 0 {
                assert(continues_run(s[st], s[st + j]));
            }
        }
    } else {
        assert forall|j: int| 0 <= j < t.len() implies #[trigger] t[j] == t[0] by {
            if j > 0 {
                assert(continues_run(s[st], s[st + j]));
            }
        }
    }
}

proof fn lemma_tokens_from_shape(s: Seq<char>, i: int, run: Option<int>)
    requires
        0 <= i <= s.len(),
        run matches Some(st) ==> open_run(s, st, i),
    ensures
        ({
            let ts = tokens_from(s, i, run);
            &&& forall|k: int| 0 <= k < ts.len() ==> well_formed_token(#[trigger] ts[k])
            &&& forall|k: int| 0 <= k < ts.len() - 1 ==> !would_join(#[trigger] ts[k], ts[k + 1])
            &&& forall|k: int| 0 <= k < ts.len() ==> (#[trigger] ts[k]).len() > 0
            &&& run matches Some(st) ==> ts.len() > 0 && ts[0][0] == s[st]
            &&& (run is None && i < s.len()) ==> ts.len() > 0 && ts[0][0] == s[i]
        }),
    decreases s.len() - i,
{
    let ts = tokens_from(s, i, run);
    if i == s.len() {
        if let Some(st) = run {
            lemma_run_token(s, st, i);
        }
    } else {
        let c = s[i];
        match run {
            Some(st) => {
                if continues_run(s[st], c) {
                    lemma_tokens_from_shape(s, i + 1, run);
                } else if starts_run(c) {
                    lemma_run_token(s, st, i);
                    lemma_tokens_from_shape(s, i + 1, Some(i));
                    let first = s.subrange(st, i);
                    let tail = tokens_from(s, i + 1, Some(i));
                    assert(ts == seq![first] + tail);
                    assert(!would_join(first, tail[0])) by {
                        if word_token(first) && word_token(tail[0]) {
                            assert(is_word_part(first[0]));
                            assert(is_word_part(tail[0][0]));
                        }
                    }
                    assert forall|k: int| 0 <= k < ts.len() - 1 implies !would_join(#[trigger] ts[k], ts[k + 1]) by {
                        if k > 0 {
                            assert(ts[k] == tail[k - 1]);
                            assert(ts[k + 1] == tail[k]);
                        }
                    }
                    assert forall|k: int| 0 <= k < ts.len() implies well_formed_token(#[trigger] ts[k]) && ts[k].len() > 0 by {
                        if k > 0 {
                            assert(ts[k] == tail[k - 1]);
                        }
                    }
                } else {
                    lemma_run_token(s, st, i);
                    lemma_tokens_from_shape(s, i + 1, None);
                    let first = s.subrange(st, i);
                    let tail = tokens_from(s, i + 1, None);
                    assert(ts == seq![first, seq![c]] + tail);
                    assert(seq![c][0] == c);
                    assert forall|k: int| 0 <= k < ts.len() - 1 implies !would_join(#[trigger] ts[k], ts[k + 1]) by {
                        if k == 0 {
                            assert(ts[1] == seq![c]);
                        } else if k == 1 {
                            assert(ts[1] == seq![c]);
                        } else {
                            assert(ts[k] == tail[k - 2]);
                            assert(ts[k + 1] == tail[k - 1]);
                        }
                    }
                    assert forall|k: int| 0 <= k < ts.len() implies well_formed_token(#[trigger] ts[k]) && ts[k].len() > 0 by {
                        if k == 1 {
                            assert(ts[1] == seq![c]);
                        } else if k > 1 {
                            assert(ts[k] == tail[k - 2]);
                        }
                    }
                }
            },
            None => {
                if starts_run(c) {
                    lemma_tokens_from_shape(s, i + 1, Some(i));
                } else {
                    lemma_tokens_from_shape(s, i + 1, None);
                    let tail = tokens_from(s, i + 1, None);
                    assert(ts == seq![seq![c]] + tail);
                    assert(seq![c][0] == c);
                    assert forall|k: int| 0 <= k < ts.len() - 1 implies !would_join(#[trigger] ts[k], ts[k + 1]) by {
                        if k > 0 {
                            assert(ts[k] == tail[k - 1]);
                            assert(ts[k + 1] == tail[k]);
                        } else {
                            assert(ts[0] == seq![c]);
                        }
                    }
                    assert forall|k: int| 0 <= k < ts.len() implies well_formed_token(#[trigger] ts[k]) && ts[k].len() > 0 by {
                        if k > 0 {
                            assert(ts[k] == tail[k - 1]);
                        }
                    }
                }
            },
        }
    }
}

/// What the tokens of any text look like: each is a word, a run of one
/// whitespace character other than newline, or a single other character;
/// and no two neighbours are both words, or both runs of the same
/// character.
pub proof fn lemma_token_shapes(s: Seq<char>)
    ensures
        forall|k: int| 0 <= k < tokenize_spec(s).len() ==> well_formed_token(#[trigger] tokenize_spec(s)[k]),
        forall|k: int|
            0 <= k < tokenize_spec(s).len() - 1 ==> !would_join(
                #[trigger] tokenize_spec(s)[k],
                tokenize_spec(s)[k + 1],
            ),
{
    lemma_tokens_from_shape(s, 0, None);
}
} // verus!
