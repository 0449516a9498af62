//! Highlighting of `commit` lines, with their tags and branches.

use vstd::prelude::*;

use crate::terminal::{is_sgr_text, lemma_shown_plain, lemma_shown_sgr, shown_chars};
use crate::constants::{BLUE_TO_END_OF_LINE, BOLD, CYAN, GREEN, NORMAL, NORMAL_INTENSITY, RED, YELLOW};
use crate::text::{
    chars_end_with, chars_of, chars_start_with, count_char, count_chars, ends_with, first_match,
    first_index, lemma_first_index_found, lemma_split_char, lemma_split_count, push_chars,
    push_str, slice_chars, split_char, split_chars, split_pattern, split_str, starts_with,
    string_of_chars, trim, trim_chars, vecs_view,
};

verus! {

/// The texts of a sequence of string slices.
pub open spec fn strs_view(s: Seq<&str>) -> Seq<Seq<char>> {
    s.map_values(|t: &str| t@)
}

/// `list` joined with `sep` between the items.
pub open spec fn seq_join(list: Seq<Seq<char>>, sep: Seq<char>) -> Seq<char>
    decreases list.len(),
{
    if list.len() == 0 {
        seq![]
    } else if list.len() == 1 {
        list[0]
    } else {
        seq_join(list.drop_last(), sep) + sep + list.last()
    }
}

pub open spec fn is_tag(part: Seq<char>) -> bool {
    starts_with(part, "tag: "@)
}

/// A branch candidate that names the checked out branch.
pub open spec fn is_head(part: Seq<char>) -> bool {
    !is_tag(part) && starts_with(part, "HEAD -> "@)
}

pub open spec fn slashes(part: Seq<char>) -> nat {
    count_char(part, '/')
}

/// `i` is the first `HEAD -> ` candidate.
pub open spec fn is_first_head(cands: Seq<Seq<char>>, i: int) -> bool {
    0 <= i < cands.len() && is_head(cands[i]) && forall|j: int| 0 <= j < i ==> !is_head(#[trigger] cands[j])
}

/// `i` is the one branch (candidate that is not a tag) with fewer slashes
/// than all other branches.
pub open spec fn is_fewest_slashes(cands: Seq<Seq<char>>, i: int) -> bool {
    &&& 0 <= i < cands.len()
    &&& !is_tag(cands[i])
    &&& forall|j: int| 0 <= j < cands.len() && j != i && !is_tag(#[trigger] cands[j]) ==> slashes(cands[j]) > slashes(cands[i])
}

/// The current branch among the decorations of a commit: the one after the
/// first `HEAD -> `, else the branch with fewer slashes than all others (if
/// there is exactly one such), else none. Tags are no branches.
pub open spec fn current_branch_spec(cands: Seq<Seq<char>>) -> Option<Seq<char>> {
    if exists|i: int| is_first_head(cands, i) {
        let i = choose|i: int| is_first_head(cands, i);
        Some(cands[i].skip(8))
    } else if exists|i: int| is_fewest_slashes(cands, i) {
        let i = choose|i: int| is_fewest_slashes(cands, i);
        Some(cands[i])
    } else {
        None
    }
}

/// One decoration of a commit line: tags bold, the current branch bold green,
/// `HEAD -> ` bold cyan with the branch in green, other branches bold red.
/// Every part but a tag returns to yellow afterwards.
pub open spec fn commit_part_spec(part: Seq<char>, current_branch: Option<Seq<char>>) -> Seq<char> {
    if is_tag(part) {
        BOLD@ + part + NORMAL_INTENSITY@
    } else if current_branch == Some(part) {
        BOLD@ + GREEN@ + part + NORMAL_INTENSITY@ + YELLOW@
    } else if starts_with(part, "HEAD -> "@) {
        BOLD@ + CYAN@ + "HEAD -> "@ + GREEN@ + part.skip(8) + NORMAL_INTENSITY@ + YELLOW@
    } else {
        BOLD@ + RED@ + part + NORMAL_INTENSITY@ + YELLOW@
    }
}

/// A whole line in yellow on the blue background.
pub open spec fn plain_commit_line(line: Seq<char>) -> Seq<char> {
    YELLOW@ + BLUE_TO_END_OF_LINE@ + line + NORMAL@
}

/// A `commit <hash> (<decorations>)` line: the commit part yellow on blue,
/// the decorations highlighted one by one and separated by `, `. A line
/// without `(`, or whose text after its first `(` does not end with `)`, is
/// all yellow on blue.
pub open spec fn commit_line_spec(line: Seq<char>) -> Seq<char> {
    let parts = split_char(line, '(');
    if parts.len() == 1 || !ends_with(parts[1], seq![')']) {
        plain_commit_line(line)
    } else {
        let inner = parts[1].drop_last();
        let decorations = split_str(inner, ", "@);
        let current = current_branch_spec(decorations);
        YELLOW@ + BLUE_TO_END_OF_LINE@ + trim(parts[0]) + " ("@ + seq_join(
            decorations.map_values(|p: Seq<char>| commit_part_spec(p, current)),
            ", "@,
        ) + ")"@ + NORMAL@
    }
}

/// A line without `(` is drawn whole in yellow on the blue background.
pub proof fn lemma_commit_line_plain(line: Seq<char>)
    requires
        !line.contains('('),
    ensures
        commit_line_spec(line) == plain_commit_line(line),
{
    lemma_first_index_found(line, '(');
}

/// How the current branch is picked: the branch after the first `HEAD -> `;
/// where there is none, the one branch with fewer slashes than all others;
/// where there is no such branch, none.
pub proof fn lemma_current_branch(cands: Seq<Seq<char>>)
    ensures
        forall|i: int| #[trigger] is_first_head(cands, i) ==> current_branch_spec(cands) == Some(cands[i].skip(8)),
        (forall|i: int| !#[trigger] is_first_head(cands, i)) ==> forall|i: int|
            #[trigger] is_fewest_slashes(cands, i) ==> current_branch_spec(cands) == Some(cands[i]),
        (forall|i: int| !#[trigger] is_first_head(cands, i)) && (forall|i: int|
            !#[trigger] is_fewest_slashes(cands, i)) ==> current_branch_spec(cands) is None,
{
    assert forall|i: int, j: int| is_first_head(cands, i) && is_first_head(cands, j) implies i == j by {
        if i < j {
            assert(!is_head(cands[i]));
        } else if j < i {
            assert(!is_head(cands[j]));
        }
    }
    assert forall|i: int, j: int| is_fewest_slashes(cands, i) && is_fewest_slashes(cands, j) implies i == j by {
        if i != j {
            assert(slashes(cands[j]) > slashes(cands[i]));
            assert(slashes(cands[i]) > slashes(cands[j]));
        }
    }
}

// Highlight lines starting with "commit: "
pub fn format_commit_line(line: &str) -> (r: String)
    ensures
        r@ == commit_line_spec(line@),
{
    let v = chars_of(line);
    let parts = split_chars(&v, '(');
    let ghost pv = vecs_view(parts@);
    proof {
        lemma_split_char(v@, '(');
    }
    let close = chars_of(")");
    proof {
        reveal_strlit(")");
        assert(close@ =~= seq![')']);
    }
    if parts.len() == 1 || !chars_end_with(&parts[1], &close) {
        // Just "commit: 123abc", or no final parenthesis: color it all yellow
        let mut r = String::new();
        push_str(&mut r, YELLOW);
        push_str(&mut r, BLUE_TO_END_OF_LINE);
        push_str(&mut r, line);
        push_str(&mut r, NORMAL);
        assert(parts@.len() == 1 || !ends_with(pv[1], seq![')']));
        assert(r@ =~= plain_commit_line(line@));
        return r;
    }
    let commit_part = trim_chars(&parts[0]);
    let inner = slice_chars(&parts[1], 0, parts[1].len() - 1);
    assert(inner@ == pv[1].drop_last());
    let separator = chars_of(", ");
    proof {
        reveal_strlit(", ");
    }
    let parenthesis_parts = split_pattern(&inner, &separator);
    let ghost decorations = vecs_view(parenthesis_parts@);
    let current_branch = current_branch_of(&parenthesis_parts);

    let mut r = String::new();
    push_str(&mut r, YELLOW);
    push_str(&mut r, BLUE_TO_END_OF_LINE);
    push_chars(&mut r, &commit_part, 0, commit_part.len());
    assert(commit_part@.subrange(0, commit_part@.len() as int) == commit_part@);
    push_str(&mut r, " (");
    let ghost head = r@;
    let ghost formatted = decorations.map_values(|p: Seq<char>| commit_part_spec(p, opt_chars(current_branch)));
    let mut i: usize = 0;
    while i < parenthesis_parts.len()
        invariant
            i <= parenthesis_parts@.len(),
            decorations == vecs_view(parenthesis_parts@),
            formatted == decorations.map_values(|p: Seq<char>| commit_part_spec(p, opt_chars(current_branch))),
            r@ == head + seq_join(formatted.take(i as int), ", "@),
        decreases parenthesis_parts.len() - i,
    {
        if i > 0 {
            push_str(&mut r, ", ");
        }
        let part = format_commit_part(&parenthesis_parts[i], &current_branch);
        push_str(&mut r, part.as_str());
        proof {
            assert(formatted.take(i + 1).drop_last() =~= formatted.take(i as int));
            assert(formatted.take(i + 1).last() == formatted[i as int]);
        }
        i = i + 1;
    }
    assert(formatted.take(parenthesis_parts.len() as int) =~= formatted);
    push_str(&mut r, ")");
    push_str(&mut r, NORMAL);
    assert(current_branch_spec(decorations) == opt_chars(current_branch));
    assert(commit_part@ == trim(pv[0]));
    assert(inner@ == pv[1].drop_last());
    assert(separator@ == ", "@);
    assert(decorations == split_str(pv[1].drop_last(), ", "@));
    assert(r@ =~= commit_line_spec(line@));
    return r;
}

/// The characters of an optional character vector.
pub open spec fn opt_chars(o: Option<Vec<char>>) -> Option<Seq<char>> {
    match o {
        Some(v) => Some(v@),
        None => None,
    }
}

fn format_commit_part(part: &Vec<char>, current_branch: &Option<Vec<char>>) -> (r: String)
    ensures
        r@ == commit_part_spec(part@, opt_chars(*current_branch)),
{
    let tag = chars_of("tag: ");
    if chars_start_with(part, &tag) {
        let mut r = String::new();
        push_str(&mut r, BOLD);
        push_chars(&mut r, part, 0, part.len());
        push_str(&mut r, NORMAL_INTENSITY);
        assert(part@.subrange(0, part@.len() as int) == part@);
        return r;
    }
    if let Some(current_branch_4_realz) = current_branch {
        if crate::text::chars_eq(current_branch_4_realz, part) {
            let mut r = String::new();
            push_str(&mut r, BOLD);
            push_str(&mut r, GREEN);
            push_chars(&mut r, part, 0, part.len());
            push_str(&mut r, NORMAL_INTENSITY);
            push_str(&mut r, YELLOW);
            assert(part@.subrange(0, part@.len() as int) == part@);
            return r;
        }
    }
    // Handle "HEAD -> current_branch"
    let head = chars_of("HEAD -> ");
    if chars_start_with(part, &head) {
        proof {
            reveal_strlit("HEAD -> ");
        }
        let mut r = String::new();
        push_str(&mut r, BOLD);
        push_str(&mut r, CYAN);
        push_str(&mut r, "HEAD -> ");
        push_str(&mut r, GREEN);
        push_chars(&mut r, part, 8, part.len());
        push_str(&mut r, NORMAL_INTENSITY);
        push_str(&mut r, YELLOW);
        assert(part@.subrange(8, part@.len() as int) == part@.skip(8));
        return r;
    }
    // Assume this is a branch, but not the current one
    let mut r = String::new();
    push_str(&mut r, BOLD);
    push_str(&mut r, RED);
    push_chars(&mut r, part, 0, part.len());
    push_str(&mut r, NORMAL_INTENSITY);
    push_str(&mut r, YELLOW);
    assert(part@.subrange(0, part@.len() as int) == part@);
    return r;
}

/// If we find multiple options, pick the one with the lowest number of
/// slashes.
fn current_branch_of(candidates: &Vec<Vec<char>>) -> (r: Option<Vec<char>>)
    ensures
        opt_chars(r) == current_branch_spec(vecs_view(candidates@)),
{
    let ghost cands = vecs_view(candidates@);
    let tag = chars_of("tag: ");
    let head = chars_of("HEAD -> ");
    proof {
        reveal_strlit("HEAD -> ");
    }
    // Indices of the candidates with the fewest slashes so far
    let mut fewest_slashes: Vec<usize> = Vec::new();
    let mut lowest_slash_count = usize::MAX;
    let mut k: usize = 0;
    while k < candidates.len()
        invariant
            k <= candidates@.len(),
            cands == vecs_view(candidates@),
            tag@ == "tag: "@,
            head@ == "HEAD -> "@,
            head@.len() == 8,
            fewest_slashes@.len() == 0 ==> lowest_slash_count == usize::MAX,
            forall|j: int| 0 <= j < k ==> !is_head(#[trigger] cands[j]),
            // every branch so far has at least the lowest count
            forall|j: int| 0 <= j < k && !is_tag(#[trigger] cands[j]) ==> slashes(cands[j]) >= lowest_slash_count,
            // the fewest ones are the branches so far with the lowest count, each once
            forall|m: int| 0 <= m < fewest_slashes@.len() ==> {
                let j = #[trigger] fewest_slashes@[m];
                &&& j < k
                &&& !is_tag(cands[j as int])
                &&& slashes(cands[j as int]) == lowest_slash_count
            },
            forall|m1: int, m2: int| 0 <= m1 < m2 < fewest_slashes@.len() ==> fewest_slashes@[m1] < fewest_slashes@[m2],
            forall|j: int| 0 <= j < k && !is_tag(#[trigger] cands[j]) && slashes(cands[j]) == lowest_slash_count ==> fewest_slashes@.contains(j as usize),
            fewest_slashes@.len() == 0 ==> forall|j: int| 0 <= j < k ==> is_tag(#[trigger] cands[j]),
        decreases candidates.len() - k,
    {
        let candidate = &candidates[k];
        assert(candidate@ == cands[k as int]);
        if chars_start_with(candidate, &tag) {
            // This is not a branch name
            k = k + 1;
            continue;
        }
        if chars_start_with(candidate, &head) {
            // Found it, this is conclusive!
            proof {
                assert(is_first_head(cands, k as int));
                assert forall|i: int| is_first_head(cands, i) implies i == k by {
                    if i < k {
                        assert(!is_head(cands[i]));
                    } else if i > k {
                        assert(!is_head(cands[k as int]));
                    }
                }
            }
            let headless = slice_chars(candidate, 8, candidate.len());
            assert(headless@ == cands[k as int].skip(8));
            return Some(headless);
        }
        let candidate_slash_count = count_chars(candidate, '/');
        if candidate_slash_count > lowest_slash_count {
            // This one is worse than what we already have, never mind
            k = k + 1;
            continue;
        }
        if candidate_slash_count < lowest_slash_count {
            // This one is better, replace the others
            fewest_slashes.clear();
        }
        lowest_slash_count = candidate_slash_count;
        let ghost before = fewest_slashes@;
        fewest_slashes.push(k);
        proof {
            assert forall|j: int| 0 <= j < k + 1 && !is_tag(#[trigger] cands[j]) && slashes(cands[j]) == lowest_slash_count implies fewest_slashes@.contains(j as usize) by {
                if j < k {
                    assert(before.contains(j as usize));
                    let m = choose|m: int| 0 <= m < before.len() && before[m] == j as usize;
                    assert(fewest_slashes@[m] == j as usize);
                } else {
                    assert(fewest_slashes@[before.len() as int] == k);
                }
            }
        }
        k = k + 1;
    }
    proof {
        assert forall|i: int| !is_first_head(cands, i) by {
            if 0 <= i < cands.len() {
                assert(!is_head(cands[i]));
            }
        }
    }
    if fewest_slashes.len() == 0 {
        proof {
            assert forall|i: int| !is_fewest_slashes(cands, i) by {
                if 0 <= i < cands.len() {
                    assert(is_tag(cands[i]));
                }
            }
        }
        return None;
    }
    if fewest_slashes.len() == 1 {
        let only = fewest_slashes[0];
        proof {
            assert(is_fewest_slashes(cands, only as int)) by {
                assert forall|j: int| 0 <= j < cands.len() && j != only && !is_tag(#[trigger] cands[j]) implies slashes(cands[j]) > slashes(cands[only as int]) by {
                    if slashes(cands[j]) == lowest_slash_count {
                        assert(fewest_slashes@.contains(j as usize));
                    }
                }
            }
            assert forall|i: int| is_fewest_slashes(cands, i) implies i == only by {
                if i != only {
                    assert(slashes(cands[i]) > slashes(cands[only as int]));
                    assert(slashes(cands[only as int]) > slashes(cands[i]));
                }
            }
        }
        return Some(slice_chars(&candidates[only], 0, candidates[only].len()));
    }
    // Give up, we don't know
    proof {
        let a = fewest_slashes@[0];
        let b = fewest_slashes@[1];
        assert forall|i: int| !is_fewest_slashes(cands, i) by {
            if is_fewest_slashes(cands, i) {
                if i != a {
                    assert(slashes(cands[a as int]) > slashes(cands[i]));
                } else {
                    assert(slashes(cands[b as int]) > slashes(cands[i]));
                }
            }
        }
    }
    return None;
}

/// The current branch among the comma separated parts of a commit line's
/// decorations.
pub fn compute_current_branch(candidates: &Vec<&str>) -> (r: Option<String>)
    ensures
        crate::ansi::opt_view(r) == current_branch_spec(strs_view(candidates@)),
{
    let mut cands: Vec<Vec<char>> = Vec::new();
    let mut i: usize = 0;
    while i < candidates.len()
        invariant
            i <= candidates@.len(),
            vecs_view(cands@) == strs_view(candidates@).take(i as int),
        decreases candidates.len() - i,
    {
        let ghost before = cands@;
        cands.push(chars_of(candidates[i]));
        assert(vecs_view(cands@) =~= vecs_view(before).push(candidates@[i as int]@));
        assert(strs_view(candidates@).take(i + 1) =~= strs_view(candidates@).take(i as int).push(candidates@[i as int]@));
        i = i + 1;
    }
    assert(strs_view(candidates@).take(candidates@.len() as int) =~= strs_view(candidates@));
    match current_branch_of(&cands) {
        Some(b) => Some(string_of_chars(&b)),
        None => None,
    }
}


// ---------------------------------------------------------------------------
// What a terminal shows of a highlighted commit line
// ---------------------------------------------------------------------------

/// Joining pieces with one piece in front of the others.
proof fn lemma_join_front(a: Seq<char>, l: Seq<Seq<char>>, sep: Seq<char>)
    requires
        l.len() >= 1,
    ensures
        seq_join(seq![a] + l, sep) == a + sep + seq_join(l, sep),
    decreases l.len(),
{
    let full = seq![a] + l;
    assert(full.drop_last() =~= seq![a] + l.drop_last());
    assert(full.last() == l.last());
    if l.len() == 1 {
        assert(full.drop_last() =~= seq![a]);
        assert(seq_join(seq![a], sep) == a);
        assert(full.len() == 2);
        assert(seq_join(full, sep) == a + sep + l[0]);
        assert(seq_join(l, sep) == l[0]);
    } else {
        lemma_join_front(a, l.drop_last(), sep);
        assert(seq_join(full, sep) == a + sep + seq_join(l.drop_last(), sep) + sep + l.last());
        assert(a + sep + seq_join(l.drop_last(), sep) + sep + l.last() =~= a + sep + (seq_join(
            l.drop_last(),
            sep,
        ) + sep + l.last()));
    }
}

/// Where `first_match` finds the pattern.
proof fn lemma_first_match_found(s: Seq<char>, p: Seq<char>)
    ensures
        first_match(s, p) matches Some(k) ==> 0 <= k && k + p.len() <= s.len() && s.subrange(
            k,
            k + p.len(),
        ) == p,
    decreases s.len(),
{
    if p.len() > 0 && p.len() <= s.len() && s.take(p.len() as int) != p {
        lemma_first_match_found(s.skip(1), p);
        match first_match(s.skip(1), p) {
            Some(k) => {
                assert(s.skip(1).subrange(k, k + p.len()) =~= s.subrange(k + 1, k + 1 + p.len()));
            },
            None => {},
        }
    } else if p.len() > 0 && p.len() <= s.len() {
        assert(s.take(p.len() as int) =~= s.subrange(0, p.len() as int));
    }
}

/// Splitting at a pattern and joining with it gives the text back; the
/// pieces hold no character that the text does not hold.
pub(crate) proof fn lemma_join_split(s: Seq<char>, p: Seq<char>, c: char)
    requires
        p.len() > 0,
    ensures
        split_str(s, p).len() >= 1,
        seq_join(split_str(s, p), p) == s,
        !s.contains(c) ==> forall|i: int|
            0 <= i < split_str(s, p).len() ==> !(#[trigger] split_str(s, p)[i]).contains(c),
    decreases s.len(),
{
    lemma_first_match_found(s, p);
    match first_match(s, p) {
        Some(k) => {
            if 0 <= k && k + p.len() <= s.len() {
                let rest = s.skip(k + p.len());
                lemma_join_split(rest, p, c);
                lemma_join_front(s.take(k), split_str(rest, p), p);
                assert(s =~= s.take(k) + p + rest);
                if !s.contains(c) {
                    assert forall|i: int| 0 <= i < split_str(s, p).len() implies !(
                    #[trigger] split_str(s, p)[i]).contains(c) by {
                        if i == 0 {
                            if s.take(k).contains(c) {
                                let j = choose|j: int| 0 <= j < s.take(k).len() && s.take(k)[j] == c;
                                assert(s[j] == c);
                            }
                        } else {
                            assert(split_str(s, p)[i] == split_str(rest, p)[i - 1]);
                            if rest.contains(c) {
                                let j = choose|j: int| 0 <= j < rest.len() && rest[j] == c;
                                assert(s[k + p.len() + j] == c);
                            }
                        }
                    }
                }
            }
        },
        None => {},
    }
}


/// The color codes of a highlighted commit line are SGR sequences; the blue
/// background is two of them.
pub(crate) proof fn lemma_commit_codes_sgr()
    ensures
        is_sgr_text(BOLD@),
        is_sgr_text(NORMAL_INTENSITY@),
        is_sgr_text(YELLOW@),
        is_sgr_text(GREEN@),
        is_sgr_text(CYAN@),
        is_sgr_text(RED@),
        is_sgr_text(NORMAL@),
        is_sgr_text("\x1b[48;5;17m"@),
        is_sgr_text("\x1b[0K"@),
        BLUE_TO_END_OF_LINE@ == "\x1b[48;5;17m"@ + "\x1b[0K"@,
{
    reveal_strlit("\x1b[1m");
    reveal_strlit("\x1b[22m");
    reveal_strlit("\x1b[33m");
    reveal_strlit("\x1b[32m");
    reveal_strlit("\x1b[36m");
    reveal_strlit("\x1b[31m");
    reveal_strlit("\x1b[0m");
    reveal_strlit("\x1b[48;5;17m");
    reveal_strlit("\x1b[0K");
    reveal_strlit("\x1b[48;5;17m\x1b[0K");
    assert(BLUE_TO_END_OF_LINE@ =~= "\x1b[48;5;17m"@ + "\x1b[0K"@);
}

/// The plain texts of a highlighted commit line hold no escape character.
pub(crate) proof fn lemma_commit_texts_plain()
    ensures
        !"HEAD -> "@.contains('\x1b'),
        "HEAD -> "@.len() == 8,
        !" ("@.contains('\x1b'),
        " ("@ == " "@ + "("@,
        !")"@.contains('\x1b'),
        ")"@ == seq![')'],
        "("@ == seq!['('],
        !", "@.contains('\x1b'),
        ", "@.len() == 2,
{
    reveal_strlit("HEAD -> ");
    reveal_strlit(" (");
    reveal_strlit(" ");
    reveal_strlit("(");
    reveal_strlit(")");
    reveal_strlit(", ");
    assert(" ("@ =~= " "@ + "("@);
    assert(")"@ =~= seq![')']);
    assert("("@ =~= seq!['(']);
}

/// A text without `c` keeps none in its suffixes.
proof fn lemma_skip_no_char(s: Seq<char>, n: int, c: char)
    requires
        !s.contains(c),
        0 <= n <= s.len(),
    ensures
        !s.skip(n).contains(c),
{
    if s.skip(n).contains(c) {
        let j = choose|j: int| 0 <= j < s.skip(n).len() && s.skip(n)[j] == c;
        assert(s[n + j] == c);
    }
}

/// A highlighted decoration shows as the decoration.
proof fn lemma_shown_part(part: Seq<char>, cur: Option<Seq<char>>, rest: Seq<char>)
    requires
        !part.contains('\x1b'),
    ensures
        shown_chars(commit_part_spec(part, cur) + rest) == part + shown_chars(rest),
{
    lemma_commit_codes_sgr();
    lemma_commit_texts_plain();
    let ni_rest = NORMAL_INTENSITY@ + rest;
    lemma_shown_sgr(NORMAL_INTENSITY@, rest);
    if is_tag(part) {
        assert(commit_part_spec(part, cur) + rest =~= BOLD@ + (part + ni_rest));
        lemma_shown_sgr(BOLD@, part + ni_rest);
        lemma_shown_plain(part, ni_rest);
    } else {
        let tail = NORMAL_INTENSITY@ + (YELLOW@ + rest);
        lemma_shown_sgr(YELLOW@, rest);
        lemma_shown_sgr(NORMAL_INTENSITY@, YELLOW@ + rest);
        if cur == Some(part) {
            assert(commit_part_spec(part, cur) + rest =~= BOLD@ + (GREEN@ + (part + tail)));
            lemma_shown_sgr(BOLD@, GREEN@ + (part + tail));
            lemma_shown_sgr(GREEN@, part + tail);
            lemma_shown_plain(part, tail);
        } else if starts_with(part, "HEAD -> "@) {
            let h = "HEAD -> "@;
            let b = part.skip(8);
            lemma_skip_no_char(part, 8, '\x1b');
            assert(commit_part_spec(part, cur) + rest =~= BOLD@ + (CYAN@ + (h + (GREEN@ + (b
                + tail)))));
            lemma_shown_sgr(BOLD@, CYAN@ + (h + (GREEN@ + (b + tail))));
            lemma_shown_sgr(CYAN@, h + (GREEN@ + (b + tail)));
            lemma_shown_plain(h, GREEN@ + (b + tail));
            lemma_shown_sgr(GREEN@, b + tail);
            lemma_shown_plain(b, tail);
            assert(part =~= h + b);
            assert(h + (b + shown_chars(rest)) =~= part + shown_chars(rest));
        } else {
            assert(commit_part_spec(part, cur) + rest =~= BOLD@ + (RED@ + (part + tail)));
            lemma_shown_sgr(BOLD@, RED@ + (part + tail));
            lemma_shown_sgr(RED@, part + tail);
            lemma_shown_plain(part, tail);
        }
    }
}

/// Highlighted decorations joined with `, ` show as the decorations joined
/// with `, `.
proof fn lemma_shown_parts(parts: Seq<Seq<char>>, cur: Option<Seq<char>>, rest: Seq<char>)
    requires
        parts.len() >= 1,
        forall|i: int| 0 <= i < parts.len() ==> !(#[trigger] parts[i]).contains('\x1b'),
    ensures
        shown_chars(
            seq_join(parts.map_values(|p: Seq<char>| commit_part_spec(p, cur)), ", "@) + rest,
        ) == seq_join(parts, ", "@) + shown_chars(rest),
    decreases parts.len(),
{
    let hs = parts.map_values(|p: Seq<char>| commit_part_spec(p, cur));
    let sep = ", "@;
    lemma_commit_texts_plain();
    if parts.len() == 1 {
        assert(seq_join(hs, sep) == hs[0]);
        lemma_shown_part(parts[0], cur, rest);
    } else {
        let init = parts.drop_last();
        assert(hs.drop_last() =~= init.map_values(|p: Seq<char>| commit_part_spec(p, cur)));
        let last = parts.last();
        let rest2 = sep + (hs.last() + rest);
        assert(forall|i: int| 0 <= i < init.len() ==> #[trigger] init[i] == parts[i]);
        lemma_shown_parts(init, cur, rest2);
        lemma_shown_part(last, cur, rest);
        lemma_shown_plain(sep, hs.last() + rest);
        assert(seq_join(hs, sep) + rest =~= seq_join(hs.drop_last(), sep) + rest2);
        assert(seq_join(parts, sep) == seq_join(init, sep) + sep + last);
        assert(seq_join(init, sep) + (sep + (last + shown_chars(rest))) =~= seq_join(parts, sep)
            + shown_chars(rest));
    }
}


/// The parts of a text without `c` hold no `c`.
pub(crate) proof fn lemma_no_char_parts(a: Seq<char>, b: Seq<char>, c: char)
    requires
        !(a + b).contains(c),
    ensures
        !a.contains(c),
        !b.contains(c),
{
    if a.contains(c) {
        let j = choose|j: int| 0 <= j < a.len() && a[j] == c;
        assert((a + b)[j] == c);
    }
    if b.contains(c) {
        let j = choose|j: int| 0 <= j < b.len() && b[j] == c;
        assert((a + b)[a.len() + j] == c);
    }
}

/// Splitting a text at its only `c` gives the text before and after it.
pub(crate) proof fn lemma_split_one(s: Seq<char>, c: char)
    requires
        count_char(s, c) <= 1,
        split_char(s, c).len() > 1,
    ensures
        split_char(s, c).len() == 2,
        s == split_char(s, c)[0] + seq![c] + split_char(s, c)[1],
{
    lemma_split_count(s, c);
    lemma_first_index_found(s, c);
    match first_index(s, c) {
        Some(k) => {
            let rest = s.skip(k + 1);
            lemma_first_index_found(rest, c);
            match first_index(rest, c) {
                Some(k2) => {
                    lemma_split_char(rest.skip(k2 + 1), c);
                    assert(split_char(rest, c).len() >= 2);
                    assert(split_char(s, c) == seq![s.take(k)] + split_char(rest, c));
                    assert(false);
                },
                None => {},
            }
            assert(split_char(rest, c) == seq![rest]);
            assert(s =~= s.take(k) + seq![c] + rest);
        },
        None => {},
    }
}

/// Stripped of its color codes, a highlighted commit line reads as the line
/// itself, where the line holds no escape character and at most one `(`,
/// and, where its decorations are highlighted (the text after the `(` ends
/// with `)`), the text before the `(` is its trimmed self and one space.
pub proof fn lemma_commit_line_shown(line: Seq<char>)
    requires
        !line.contains('\x1b'),
        count_char(line, '(') <= 1,
        split_char(line, '(').len() > 1 && ends_with(split_char(line, '(')[1], seq![')'])
            ==> trim(split_char(line, '(')[0]) + " "@ == split_char(line, '(')[0],
    ensures
        shown_chars(commit_line_spec(line)) == line,
{
    lemma_commit_codes_sgr();
    lemma_commit_texts_plain();
    let b1 = "\x1b[48;5;17m"@;
    let b2 = "\x1b[0K"@;
    let empty = Seq::<char>::empty();
    let parts = split_char(line, '(');
    lemma_shown_sgr(NORMAL@, empty);
    assert(NORMAL@ + empty =~= NORMAL@);
    assert(shown_chars(empty) == empty);
    if parts.len() == 1 || !ends_with(parts[1], seq![')']) {
        let tail = line + NORMAL@;
        assert(commit_line_spec(line) =~= YELLOW@ + (b1 + (b2 + tail)));
        lemma_shown_sgr(YELLOW@, b1 + (b2 + tail));
        lemma_shown_sgr(b1, b2 + tail);
        lemma_shown_sgr(b2, tail);
        lemma_shown_plain(line, NORMAL@);
        assert(line + empty =~= line);
    } else {
        lemma_split_one(line, '(');
        let p0 = parts[0];
        let p1 = parts[1];
        let inner = p1.drop_last();
        let sep = ", "@;
        let decorations = split_str(inner, sep);
        let current = current_branch_spec(decorations);
        assert(line =~= p0 + (seq!['('] + p1));
        lemma_no_char_parts(p0, seq!['('] + p1, '\x1b');
        lemma_no_char_parts(seq!['('], p1, '\x1b');
        assert(p1 =~= inner + ")"@);
        lemma_no_char_parts(inner, ")"@, '\x1b');
        assert(trim(p0) + " "@ == p0);
        lemma_no_char_parts(trim(p0), " "@, '\x1b');
        lemma_join_split(inner, sep, '\x1b');
        let j = seq_join(
            decorations.map_values(|p: Seq<char>| commit_part_spec(p, current)),
            sep,
        );
        let r4 = ")"@ + NORMAL@;
        let r3 = j + r4;
        let r2 = " ("@ + r3;
        let r1 = trim(p0) + r2;
        assert(commit_line_spec(line) =~= YELLOW@ + (b1 + (b2 + r1)));
        lemma_shown_sgr(YELLOW@, b1 + (b2 + r1));
        lemma_shown_sgr(b1, b2 + r1);
        lemma_shown_sgr(b2, r1);
        lemma_shown_plain(trim(p0), r2);
        lemma_shown_plain(" ("@, r3);
        lemma_shown_parts(decorations, current, r4);
        lemma_shown_plain(")"@, NORMAL@);
        assert(trim(p0) + (" ("@ + (inner + (")"@ + empty))) =~= trim(p0) + " "@ + "("@ + (inner
            + ")"@));
    }
}

} // verus!
