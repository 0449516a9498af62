//! Command line decisions and diagnostics.

use vstd::prelude::*;
use vstd::utf8::{decode_utf8, valid_utf8};

use crate::text::{decimal, push_decimal, push_str, string_of_str, words_from, words_of};
use crate::tokenizer::strings_view;

verus! {

/// Whether to color the output.
#[derive(Copy, Clone, Debug, PartialEq, Eq, Structural)]
pub enum ColorOption {
    On,
    Off,
    /// Color if stdout is a terminal
    Auto,
}

impl ColorOption {
    /// On and off decide; auto takes the default.
    pub fn bool_or(self, default: bool) -> (r: bool)
        ensures
            r == match self {
                ColorOption::On => true,
                ColorOption::Off => false,
                ColorOption::Auto => default,
            },
    {
        match self {
            ColorOption::On => true,
            ColorOption::Off => false,
            ColorOption::Auto => default,
        }
    }
}

/// What std's `String::from_utf8_lossy` makes of some bytes.
pub uninterp spec fn utf8_lossy(bytes: Seq<u8>) -> Seq<char>;

/// std's `String::from_utf8_lossy`: the text the bytes encode, with each
/// invalid sequence replaced by U+FFFD. The contract names the result and
/// states that valid UTF-8 is decoded unchanged, and that a newline comes
/// out only where the bytes hold one (in UTF-8 the byte 0x0A stands for the
/// newline and for nothing else); how invalid sequences are replaced is left
/// to the name.
#[verifier::external_body]
pub(crate) fn from_utf8_lossy(bytes: &[u8]) -> (s: String)
    ensures
        s@ == utf8_lossy(bytes@),
        valid_utf8(bytes@) ==> s@ == decode_utf8(bytes@),
        !bytes@.contains(10u8) ==> !s@.contains('\n'),
{
    String::from_utf8_lossy(bytes).to_string()
}

/// The message for an error on a line of input.
pub open spec fn format_error_spec(message: Seq<char>, line_number: nat, line: Seq<u8>) -> Seq<char> {
    "On line "@ + decimal(line_number) + ": "@ + message + "\n  Line "@ + decimal(line_number) + ": "@
        + utf8_lossy(line)
}

/// The message for an error on a line of input: the line number, the
/// message, and the line itself.
pub fn format_error(message: String, line_number: usize, line: &[u8]) -> (r: String)
    ensures
        r@ == format_error_spec(message@, line_number as nat, line@),
{
    let mut r = String::new();
    push_str(&mut r, "On line ");
    push_decimal(&mut r, line_number);
    push_str(&mut r, ": ");
    push_str(&mut r, message.as_str());
    push_str(&mut r, "\n  Line ");
    push_decimal(&mut r, line_number);
    push_str(&mut r, ": ");
    let text = from_utf8_lossy(line);
    push_str(&mut r, text.as_str());
    r
}

/// `Not found`, `File`, `Directory` or `Not file not dir`, for a path that
/// exists or not, and is a file, a directory or neither.
pub fn type_string(exists: bool, is_file: bool, is_dir: bool) -> (r: &'static str)
    ensures
        !exists ==> r@ == "Not found"@,
        exists && is_file ==> r@ == "File"@,
        exists && !is_file && is_dir ==> r@ == "Directory"@,
        exists && !is_file && !is_dir ==> r@ == "Not file not dir"@,
{
    if !exists {
        return "Not found";
    }
    if is_file {
        return "File";
    }
    if is_dir {
        return "Directory";
    }
    return "Not file not dir";
}

/// The arguments to parse: the program name, then the words of the `RIFF`
/// environment variable where it is set, then the rest of the command line.
pub fn env_and_command_line(program: String, riff_env: Option<&str>, rest: Vec<String>) -> (r: Vec<
    String,
>)
    ensures
        strings_view(r@) == seq![program@] + match riff_env {
            Some(e) => words_from(e@, 0),
            None => seq![],
        } + strings_view(rest@),
{
    let mut r: Vec<String> = Vec::new();
    r.push(program);
    if let Some(e) = riff_env {
        let mut words = words_of(e);
        let ghost before = r@;
        r.append(&mut words);
        assert(strings_view(r@) =~= strings_view(before) + words_from(e@, 0));
    }
    let ghost middle = r@;
    let mut rest = rest;
    let ghost tail = rest@;
    r.append(&mut rest);
    assert(strings_view(r@) =~= strings_view(middle) + strings_view(tail));
    r
}

/// Whether two paths can be compared: both directories, or neither.
pub fn can_compare(path1_is_dir: bool, path2_is_dir: bool) -> (r: bool)
    ensures
        r == ((!path1_is_dir && !path2_is_dir) || (path1_is_dir && path2_is_dir)),
{
    let both_paths_are_non_dirs = !path1_is_dir && !path2_is_dir;
    let both_paths_are_dirs = path1_is_dir && path2_is_dir;
    both_paths_are_non_dirs || both_paths_are_dirs
}

/// The arguments to `diff` for comparing two paths: `-b` and `-w` where
/// asked for, then a recursive unified diff that names the C function of
/// each hunk and treats absent files as empty.
pub fn diff_arguments(ignore_space_change: bool, ignore_all_space: bool, path1: &str, path2: &str) -> (r: Vec<String>)
    ensures
        strings_view(r@) == (if ignore_space_change {
            seq!["-b"@]
        } else {
            seq![]
        }) + (if ignore_all_space {
            seq!["-w"@]
        } else {
            seq![]
        }) + seq!["-ur"@, "--show-c-function"@, "--new-file"@, path1@, path2@],
{
    let mut r: Vec<String> = Vec::new();
    if ignore_space_change {
        r.push(string_of_str("-b"));
    }
    if ignore_all_space {
        r.push(string_of_str("-w"));
    }
    // -u = unified diff, -r = recurse subdirectories
    r.push(string_of_str("-ur"));
    r.push(string_of_str("--show-c-function"));
    r.push(string_of_str("--new-file"));
    r.push(string_of_str(path1));
    r.push(string_of_str(path2));
    assert(strings_view(r@) =~= (if ignore_space_change {
        seq!["-b"@]
    } else {
        seq![]
    }) + (if ignore_all_space {
        seq!["-w"@]
    } else {
        seq![]
    }) + seq!["-ur"@, "--show-c-function"@, "--new-file"@, path1@, path2@]);
    r
}

/// Whether the exit code of `diff` means trouble: neither 0 (the compared
/// files are the same) nor 1 (differences found).
pub fn diff_failed(exit_code: i32) -> (r: bool)
    ensures
        r == (exit_code != 0 && exit_code != 1),
{
    exit_code != 0 && exit_code != 1
}

/// The lines that a stream of bytes holds: each `\n` ends a line, and `\r`
/// bytes are dropped.
pub open spec fn complete_lines(pending: Seq<u8>, bytes: Seq<u8>) -> (Seq<Seq<u8>>, Seq<u8>)
    decreases bytes.len(),
{
    if bytes.len() == 0 {
        (seq![], pending)
    } else {
        let b = bytes[0];
        if b == 0x0d {
            complete_lines(pending, bytes.skip(1))
        } else if b == 0x0a {
            let (lines, rest) = complete_lines(seq![], bytes.skip(1));
            (seq![pending] + lines, rest)
        } else {
            complete_lines(pending.push(b), bytes.skip(1))
        }
    }
}

/// Adds a chunk of input to the line being collected and returns the lines
/// that the chunk completed (without their `\n`); `\r` bytes are dropped. The
/// unfinished rest stays in `line`.
pub fn collect_lines(line: &mut Vec<u8>, chunk: &[u8]) -> (r: Vec<Vec<u8>>)
    ensures
        (r@.map_values(|l: Vec<u8>| l@), final(line)@) == complete_lines(old(line)@, chunk@),
{
    let mut lines: Vec<Vec<u8>> = Vec::new();
    let mut i: usize = 0;
    assert(chunk@.skip(0) == chunk@);
    assert(lines@.map_values(|l: Vec<u8>| l@) =~= Seq::<Seq<u8>>::empty());
    while i < chunk.len()
        invariant
            i <= chunk@.len(),
            ({
                let (rest_lines, rest) = complete_lines(line@, chunk@.skip(i as int));
                (lines@.map_values(|l: Vec<u8>| l@) + rest_lines, rest) == complete_lines(
                    old(line)@,
                    chunk@,
                )
            }),
        decreases chunk.len() - i,
    {
        let byte = chunk[i];
        assert(chunk@.skip(i as int)[0] == byte);
        assert(chunk@.skip(i as int).skip(1) == chunk@.skip(i + 1));
        if byte == 0x0d {
            // MS-DOS file, LF coming up, just ignore this
        } else if byte == 0x0a {
            // Line finished
            let ghost before = lines@;
            let mut finished: Vec<u8> = Vec::new();
            std::mem::swap(&mut finished, line);
            lines.push(finished);
            assert(lines@.map_values(|l: Vec<u8>| l@) =~= before.map_values(|l: Vec<u8>| l@).push(
                finished@,
            ));
            let ghost tail = complete_lines(seq![], chunk@.skip(i + 1));
            assert(lines@.map_values(|l: Vec<u8>| l@) + tail.0 =~= before.map_values(
                |l: Vec<u8>| l@,
            ) + (seq![finished@] + tail.0));
        } else {
            // Line contents, store and continue
            line.push(byte);
        }
        i = i + 1;
    }
    lines
}

} // verus!
