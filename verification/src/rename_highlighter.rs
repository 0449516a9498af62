//! Highlighting of `rename from` / `rename to` line pairs.

use vstd::prelude::*;

use crate::lines_highlighter::{futures_view, LineAcceptance, Response};
use crate::constants::NORMAL;
use crate::string_future::StringFuture;
use crate::text::{count_char, lemma_count_absent, lemma_count_concat, chars_of, chars_start_with, push_chars, push_str, slice_chars, starts_with, string_of_chars, trim, trim_chars};

verus! {

/// Parses sections looking like this:
///   rename from old_name
///   rename to new_name
pub struct RenameHighlighter {
    old_name: String,
}

/// The two lines drawn for a rename, the old name bold red, the new one bold
/// green, each ending with a newline as the input lines did.
pub open spec fn rename_text(old_name: Seq<char>, new_name: Seq<char>) -> Seq<char> {
    "rename from \x1b[1;31m"@ + old_name + NORMAL@ + seq!['\n'] + "rename to \x1b[1;32m"@ + new_name
        + NORMAL@ + seq!['\n']
}

/// A rename keeps its two lines: the two input lines come out as two lines.
pub proof fn lemma_rename_lines(old_name: Seq<char>, new_name: Seq<char>)
    requires
        !old_name.contains('\n'),
        !new_name.contains('\n'),
    ensures
        count_char(rename_text(old_name, new_name), '\n') == 2,
        rename_text(old_name, new_name).last() == '\n',
{
    reveal_strlit("rename from \x1b[1;31m");
    reveal_strlit("rename to \x1b[1;32m");
    reveal_strlit("\x1b[0m");
    let a = "rename from \x1b[1;31m"@;
    let b = "rename to \x1b[1;32m"@;
    let n = NORMAL@;
    let nl = seq!['\n'];
    lemma_count_absent(a, '\n');
    lemma_count_absent(b, '\n');
    lemma_count_absent(n, '\n');
    lemma_count_absent(old_name, '\n');
    lemma_count_absent(new_name, '\n');
    assert(nl.drop_last() =~= Seq::<char>::empty());
    assert(count_char(Seq::<char>::empty(), '\n') == 0);
    assert(count_char(nl, '\n') == 1);
    lemma_count_concat(a, old_name, '\n');
    lemma_count_concat(a + old_name, n, '\n');
    lemma_count_concat(a + old_name + n, nl, '\n');
    lemma_count_concat(a + old_name + n + nl, b, '\n');
    lemma_count_concat(a + old_name + n + nl + b, new_name, '\n');
    lemma_count_concat(a + old_name + n + nl + b + new_name, n, '\n');
    lemma_count_concat(a + old_name + n + nl + b + new_name + n, nl, '\n');
}

impl RenameHighlighter {
    /// The old name, without surrounding whitespace.
    pub closed spec fn old_name(&self) -> Seq<char> {
        self.old_name@
    }

    /// Returns None if this line doesn't start a new renames section
    pub fn from_line(line: &str) -> (r: Option<Self>)
        ensures
            starts_with(line@, "rename from "@) <==> r is Some,
            r matches Some(h) ==> h.old_name() == trim(line@.skip(12)),
    {
        let v = chars_of(line);
        let prefix = chars_of("rename from ");
        proof {
            reveal_strlit("rename from ");
        }
        if chars_start_with(&v, &prefix) {
            let rest = slice_chars(&v, 12, v.len());
            let old_name = string_of_chars(&trim_chars(&rest));
            Some(Self { old_name })
        } else {
            None
        }
    }

    /// Takes the `rename to` line that must follow. `None` when there is no
    /// old name to show.
    pub fn consume_line(&mut self, line: &str) -> (r: Option<Result<Response, String>>)
        ensures
            r is None <==> old(self).old_name().len() == 0,
            r matches Some(res) ==> (starts_with(line@, "rename to "@) <==> res is Ok),
            r matches Some(Ok(resp)) ==> resp.line_accepted == LineAcceptance::AcceptedDone
                && futures_view(resp.highlighted@) == seq![rename_text(old(self).old_name(), trim(line@.skip(10)))],
            r matches Some(Err(e)) ==> e@ == "Expected 'rename to <new_name>' after 'rename from <old_name>'"@,
            final(self).old_name() == old(self).old_name(),
    {
        if self.old_name.as_str().is_empty() {
            return None;
        }
        let v = chars_of(line);
        let prefix = chars_of("rename to ");
        proof {
            reveal_strlit("rename to ");
        }
        if chars_start_with(&v, &prefix) {
            let rest = slice_chars(&v, 10, v.len());
            let new_name = trim_chars(&rest);
            let mut highlighted = Vec::new();
            highlighted.push(StringFuture::from_string(self.highlighted(&new_name)));
            assert(futures_view(highlighted@) =~= seq![rename_text(self.old_name(), trim(line@.skip(10)))]);
            return Some(Ok(Response { line_accepted: LineAcceptance::AcceptedDone, highlighted }));
        }
        return Some(Err(crate::text::string_of_str("Expected 'rename to <new_name>' after 'rename from <old_name>'")));
    }

    /// The input ended before the `rename to` line.
    pub fn consume_eof(&mut self) -> (r: Result<Vec<StringFuture>, String>)
        ensures
            r matches Err(e) && e@ == "Input ended early, rename from should have been followed by rename to"@,
            final(self).old_name() == old(self).old_name(),
    {
        return Err(crate::text::string_of_str("Input ended early, rename from should have been followed by rename to"));
    }

    fn highlighted(&self, new_name: &Vec<char>) -> (r: String)
        ensures
            r@ == rename_text(self.old_name(), new_name@),
    {
        let mut r = String::new();
        push_str(&mut r, "rename from \x1b[1;31m");
        push_str(&mut r, self.old_name.as_str());
        push_str(&mut r, NORMAL);
        push_str(&mut r, "\n");
        push_str(&mut r, "rename to \x1b[1;32m");
        push_chars(&mut r, new_name, 0, new_name.len());
        push_str(&mut r, NORMAL);
        push_str(&mut r, "\n");
        proof {
            reveal_strlit("\n");
        }
        assert(new_name@.subrange(0, new_name@.len() as int) == new_name@);
        r
    }
}

} // verus!
