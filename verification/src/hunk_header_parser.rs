//! A hunk header parser that reads the numbers after `-` and `+` as
//! `first,last` line number pairs and computes the line counts from them.

use vstd::prelude::*;

use crate::text::{
    chars_of, parse_usize, parse_usize_chars, split_char, split_chars, splitn_char, splitn_chars,
    string_of_chars, trim_start_char, trim_start_chars, vecs_view,
};

verus! {

/// Result of parsing a hunk header.
///
/// Example hunk header: `@@ -1,2 +1,2 @@ Initial commit`
///
/// This would mean "old line numbers are 1-2, and new line numbers are 1-2",
/// making the line counts 2 for both.
#[derive(Debug, PartialEq)]
pub struct HunkHeader {
    pub old_line_count: usize,
    pub new_line_count: usize,
    pub title: Option<String>,
}

/// What reading a `first,last` pair gives: not a pair of numbers, a pair
/// whose count `1 + last - first` does not fit in a `usize`, or that count.
pub enum RangeOutcome {
    Invalid,
    OutOfRange,
    Count(usize),
}

/// Reads a `first,last` pair after all leading `sign` characters. `last` is
/// read before `first`, and `1 + last` is formed before `first` is read.
pub open spec fn range_outcome(part: Seq<char>, sign: char) -> RangeOutcome {
    let numbers = split_char(trim_start_char(part, sign), ',');
    if numbers.len() != 2 {
        RangeOutcome::Invalid
    } else {
        match parse_usize(numbers[1]) {
            None => RangeOutcome::Invalid,
            Some(last) => {
                if last == usize::MAX {
                    RangeOutcome::OutOfRange
                } else {
                    match parse_usize(numbers[0]) {
                        None => RangeOutcome::Invalid,
                        Some(first) => {
                            if first > last + 1 {
                                RangeOutcome::OutOfRange
                            } else {
                                RangeOutcome::Count((1 + last - first) as usize)
                            }
                        },
                    }
                }
            },
        }
    }
}

/// The line starts with `@@` and has at least three more space separated
/// parts.
pub open spec fn has_header_parts(line: Seq<char>) -> bool {
    let parts = splitn_char(line, 5, ' ');
    parts.len() >= 4 && parts[0] == seq!['@', '@']
}

/// The header a line holds: `@@`, an old `-first,last` pair, a new
/// `+first,last` pair, one more part (not checked) and an optional title.
/// A pair whose count does not fit in a `usize` makes no valid header.
pub open spec fn parse_spec(line: Seq<char>) -> Option<(usize, usize, Option<Seq<char>>)> {
    let parts = splitn_char(line, 5, ' ');
    if !has_header_parts(line) {
        None
    } else {
        match range_outcome(parts[1], '-') {
            RangeOutcome::Count(old_count) => match range_outcome(parts[2], '+') {
                RangeOutcome::Count(new_count) => Some(
                    (
                        old_count,
                        new_count,
                        if parts.len() > 4 {
                            Some(parts[4])
                        } else {
                            None
                        },
                    ),
                ),
                _ => None,
            },
            _ => None,
        }
    }
}

/// Reads a `first,last` pair: `Ok(None)` if invalid, `Err(())` if the count
/// is out of range.
fn read_range(part: &Vec<char>, sign: char) -> (r: Result<Option<usize>, ()>)
    ensures
        match range_outcome(part@, sign) {
            RangeOutcome::Invalid => r == Ok::<Option<usize>, ()>(None),
            RangeOutcome::OutOfRange => r is Err,
            RangeOutcome::Count(c) => r == Ok::<Option<usize>, ()>(Some(c)),
        },
{
    let trimmed = trim_start_chars(part, sign);
    let numbers = split_chars(&trimmed, ',');
    if numbers.len() != 2 {
        return Ok(None);
    }
    let last = match parse_usize_chars(&numbers[1]) {
        Some(l) => l,
        None => return Ok(None),
    };
    if last == usize::MAX {
        return Err(());
    }
    let first = match parse_usize_chars(&numbers[0]) {
        Some(f) => f,
        None => return Ok(None),
    };
    if first > last + 1 {
        return Err(());
    }
    Ok(Some(1 + last - first))
}

impl HunkHeader {
    /// Parse a hunk header from a line of text.
    ///
    /// Returns `None` if the line is not a valid hunk header.
    pub fn parse(line: &str) -> (r: Option<Self>)
        ensures
            match parse_spec(line@) {
                Some((old_count, new_count, title)) => r matches Some(h) && h.old_line_count
                    == old_count && h.new_line_count == new_count && crate::ansi::opt_view(h.title)
                    == title,
                None => r is None,
            },
    {
        let v = chars_of(line);
        let parts = splitn_chars(&v, 5, ' ');
        let ghost pv = vecs_view(parts@);
        if parts.len() < 4 {
            return None;
        }
        let first = &parts[0];
        if !(first.len() == 2 && first[0] == '@' && first[1] == '@') {
            assert(pv[0] != seq!['@', '@']);
            return None;
        }
        assert(pv[0] =~= seq!['@', '@']);
        // Example: "-1,2"
        let old_line_count = match read_range(&parts[1], '-') {
            Ok(Some(c)) => c,
            Ok(None) => return None,
            Err(()) => return None,
        };
        // Example: "+1,2"
        let new_line_count = match read_range(&parts[2], '+') {
            Ok(Some(c)) => c,
            Ok(None) => return None,
            Err(()) => return None,
        };
        // Example: "Initial commit"
        let title = if parts.len() > 4 {
            Some(string_of_chars(&parts[4]))
        } else {
            None
        };
        Some(HunkHeader { old_line_count, new_line_count, title })
    }
}

} // verus!
