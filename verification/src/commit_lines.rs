//! A simpler highlighting of `commit` lines: tags in bold, and no current
//! branch picked out.

use vstd::prelude::*;

use crate::commit_line::{
    is_tag, lemma_commit_codes_sgr, lemma_commit_texts_plain, lemma_join_split, lemma_no_char_parts,
    lemma_split_one, seq_join,
};
use crate::terminal::{lemma_shown_plain, lemma_shown_sgr, shown_chars};
use crate::constants::{BOLD, NORMAL, YELLOW};
use crate::text::{
    chars_end_with, chars_of, chars_start_with, count_char, ends_with, push_chars, push_str, slice_chars,
    split_char, split_chars, split_pattern, split_str, trim, trim_chars, vecs_view,
};

verus! {

/// One decoration: tags bold yellow, everything else as it is.
pub open spec fn commit_part_spec(part: Seq<char>) -> Seq<char> {
    if is_tag(part) {
        BOLD@ + YELLOW@ + part + NORMAL@
    } else {
        part
    }
}

/// A `commit <hash> (<decorations>)` line: yellow, with the decorations
/// separated by a yellow `, `. A line without `(`, or whose text after its
/// first `(` does not end with `)`, is all yellow.
pub open spec fn commit_line_spec(line: Seq<char>) -> Seq<char> {
    let parts = split_char(line, '(');
    if parts.len() == 1 || !ends_with(parts[1], seq![')']) {
        YELLOW@ + line + NORMAL@
    } else {
        let decorations = split_str(parts[1].drop_last(), ", "@);
        YELLOW@ + trim(parts[0]) + " ("@ + seq_join(
            decorations.map_values(|p: Seq<char>| commit_part_spec(p)),
            YELLOW@ + ", "@ + NORMAL@,
        ) + ")"@ + NORMAL@
    }
}

/// A line without `(` is drawn whole in yellow.
pub proof fn lemma_commit_line_plain(line: Seq<char>)
    requires
        !line.contains('('),
    ensures
        commit_line_spec(line) == YELLOW@ + line + NORMAL@,
{
    crate::text::lemma_first_index_found(line, '(');
}

pub fn format_commit_line(line: &str) -> (r: String)
    ensures
        r@ == commit_line_spec(line@),
{
    let v = chars_of(line);
    let parts = split_chars(&v, '(');
    let ghost pv = vecs_view(parts@);
    proof {
        crate::text::lemma_split_char(v@, '(');
    }
    let close = chars_of(")");
    proof {
        reveal_strlit(")");
        assert(close@ =~= seq![')']);
    }
    if parts.len() == 1 || !chars_end_with(&parts[1], &close) {
        // Just "commit: 123abc" or no final parenthesis, color it all yellow
        let mut r = String::new();
        push_str(&mut r, YELLOW);
        push_str(&mut r, line);
        push_str(&mut r, NORMAL);
        return r;
    }
    let commit_part = trim_chars(&parts[0]);
    let inner = slice_chars(&parts[1], 0, parts[1].len() - 1);
    assert(inner@ == pv[1].drop_last());
    let separator = chars_of(", ");
    proof {
        reveal_strlit(", ");
    }
    let parenthesis_parts = split_pattern(&inner, &separator);
    let ghost decorations = vecs_view(parenthesis_parts@);
    let ghost comma = YELLOW@ + ", "@ + NORMAL@;

    let mut r = String::new();
    push_str(&mut r, YELLOW);
    push_chars(&mut r, &commit_part, 0, commit_part.len());
    assert(commit_part@.subrange(0, commit_part@.len() as int) == commit_part@);
    push_str(&mut r, " (");
    let ghost head = r@;
    let ghost formatted = decorations.map_values(|p: Seq<char>| commit_part_spec(p));
    let mut i: usize = 0;
    while i < parenthesis_parts.len()
        invariant
            i <= parenthesis_parts@.len(),
            decorations == vecs_view(parenthesis_parts@),
            formatted == decorations.map_values(|p: Seq<char>| commit_part_spec(p)),
            comma == YELLOW@ + ", "@ + NORMAL@,
            r@ == head + seq_join(formatted.take(i as int), comma),
        decreases parenthesis_parts.len() - i,
    {
        if i > 0 {
            push_str(&mut r, YELLOW);
            push_str(&mut r, ", ");
            push_str(&mut r, NORMAL);
        }
        let part = format_commit_part(&parenthesis_parts[i]);
        push_str(&mut r, part.as_str());
        proof {
            assert(formatted.take(i + 1).drop_last() =~= formatted.take(i as int));
            assert(formatted.take(i + 1).last() == formatted[i as int]);
        }
        i = i + 1;
    }
    assert(formatted.take(parenthesis_parts.len() as int) =~= formatted);
    push_str(&mut r, ")");
    push_str(&mut r, NORMAL);
    assert(r@ =~= commit_line_spec(line@));
    return r;
}

fn format_commit_part(part: &Vec<char>) -> (r: String)
    ensures
        r@ == commit_part_spec(part@),
{
    let tag = chars_of("tag: ");
    let mut r = String::new();
    if chars_start_with(part, &tag) {
        push_str(&mut r, BOLD);
        push_str(&mut r, YELLOW);
        push_chars(&mut r, part, 0, part.len());
        push_str(&mut r, NORMAL);
    } else {
        push_chars(&mut r, part, 0, part.len());
    }
    assert(part@.subrange(0, part@.len() as int) == part@);
    return r;
}

/// This highlighting picks out no current branch.
pub fn compute_current_branch(candidates: &Vec<&str>) -> (r: Option<String>)
    ensures
        r is None,
{
    return None;
}


/// A decoration shows as itself.
proof fn lemma_shown_part(part: Seq<char>, rest: Seq<char>)
    requires
        !part.contains('\x1b'),
    ensures
        shown_chars(commit_part_spec(part) + rest) == part + shown_chars(rest),
{
    lemma_commit_codes_sgr();
    if is_tag(part) {
        assert(commit_part_spec(part) + rest =~= BOLD@ + (YELLOW@ + (part + (NORMAL@ + rest))));
        lemma_shown_sgr(BOLD@, YELLOW@ + (part + (NORMAL@ + rest)));
        lemma_shown_sgr(YELLOW@, part + (NORMAL@ + rest));
        lemma_shown_plain(part, NORMAL@ + rest);
        lemma_shown_sgr(NORMAL@, rest);
    } else {
        lemma_shown_plain(part, rest);
    }
}

/// Decorations joined with a yellow `, ` show as the decorations joined
/// with `, `.
proof fn lemma_shown_parts(parts: Seq<Seq<char>>, rest: Seq<char>)
    requires
        parts.len() >= 1,
        forall|i: int| 0 <= i < parts.len() ==> !(#[trigger] parts[i]).contains('\x1b'),
    ensures
        shown_chars(
            seq_join(
                parts.map_values(|p: Seq<char>| commit_part_spec(p)),
                YELLOW@ + ", "@ + NORMAL@,
            ) + rest,
        ) == seq_join(parts, ", "@) + shown_chars(rest),
    decreases parts.len(),
{
    let hs = parts.map_values(|p: Seq<char>| commit_part_spec(p));
    let comma = YELLOW@ + ", "@ + NORMAL@;
    let sep = ", "@;
    lemma_commit_codes_sgr();
    lemma_commit_texts_plain();
    if parts.len() == 1 {
        assert(seq_join(hs, comma) == hs[0]);
        lemma_shown_part(parts[0], rest);
    } else {
        let init = parts.drop_last();
        assert(hs.drop_last() =~= init.map_values(|p: Seq<char>| commit_part_spec(p)));
        let last = parts.last();
        let rest2 = comma + (hs.last() + rest);
        assert(forall|i: int| 0 <= i < init.len() ==> #[trigger] init[i] == parts[i]);
        lemma_shown_parts(init, rest2);
        lemma_shown_part(last, rest);
        assert(rest2 =~= YELLOW@ + (sep + (NORMAL@ + (hs.last() + rest))));
        lemma_shown_sgr(YELLOW@, sep + (NORMAL@ + (hs.last() + rest)));
        lemma_shown_plain(sep, NORMAL@ + (hs.last() + rest));
        lemma_shown_sgr(NORMAL@, hs.last() + rest);
        assert(seq_join(hs, comma) + rest =~= seq_join(hs.drop_last(), comma) + rest2);
        assert(seq_join(parts, sep) == seq_join(init, sep) + sep + last);
        assert(seq_join(init, sep) + (sep + (last + shown_chars(rest))) =~= seq_join(parts, sep)
            + shown_chars(rest));
    }
}

/// Stripped of its color codes, a highlighted commit line reads as the line
/// itself, where the line holds no escape character and at most one `(`,
/// and, where its decorations are highlighted (the text after the `(` ends
/// with `)`), the text before the `(` is its trimmed self and one space.
pub proof fn lemma_commit_line_shown(line: Seq<char>)
    requires
        !line.contains('\x1b'),
        count_char(line, '(') <= 1,
        split_char(line, '(').len() > 1 && ends_with(split_char(line, '(')[1], seq![')'])
            ==> trim(split_char(line, '(')[0]) + " "@ == split_char(line, '(')[0],
    ensures
        shown_chars(commit_line_spec(line)) == line,
{
    lemma_commit_codes_sgr();
    lemma_commit_texts_plain();
    let empty = Seq::<char>::empty();
    let parts = split_char(line, '(');
    lemma_shown_sgr(NORMAL@, empty);
    assert(NORMAL@ + empty =~= NORMAL@);
    assert(shown_chars(empty) == empty);
    if parts.len() == 1 || !ends_with(parts[1], seq![')']) {
        assert(commit_line_spec(line) =~= YELLOW@ + (line + NORMAL@));
        lemma_shown_sgr(YELLOW@, line + NORMAL@);
        lemma_shown_plain(line, NORMAL@);
        assert(line + empty =~= line);
    } else {
        lemma_split_one(line, '(');
        let p0 = parts[0];
        let p1 = parts[1];
        let inner = p1.drop_last();
        let sep = ", "@;
        let decorations = split_str(inner, sep);
        assert(line =~= p0 + (seq!['('] + p1));
        lemma_no_char_parts(p0, seq!['('] + p1, '\x1b');
        lemma_no_char_parts(seq!['('], p1, '\x1b');
        assert(p1 =~= inner + ")"@);
        lemma_no_char_parts(inner, ")"@, '\x1b');
        assert(trim(p0) + " "@ == p0);
        lemma_no_char_parts(trim(p0), " "@, '\x1b');
        lemma_join_split(inner, sep, '\x1b');
        let j = seq_join(
            decorations.map_values(|p: Seq<char>| commit_part_spec(p)),
            YELLOW@ + ", "@ + NORMAL@,
        );
        let r4 = ")"@ + NORMAL@;
        let r3 = j + r4;
        let r2 = " ("@ + r3;
        let r1 = trim(p0) + r2;
        assert(commit_line_spec(line) =~= YELLOW@ + r1);
        lemma_shown_sgr(YELLOW@, r1);
        lemma_shown_plain(trim(p0), r2);
        lemma_shown_plain(" ("@, r3);
        lemma_shown_parts(decorations, r4);
        lemma_shown_plain(")"@, NORMAL@);
        assert(trim(p0) + (" ("@ + (inner + (")"@ + empty))) =~= trim(p0) + " "@ + "("@ + (inner
            + ")"@));
    }
}

} // verus!
