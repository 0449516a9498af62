use riff::cli::{
    can_compare, collect_lines, diff_arguments, diff_failed, env_and_command_line, format_error,
    type_string, ColorOption,
};
use riff::constants::{BOLD, FAINT, INVERSE_VIDEO, NEW, NORMAL, NO_EOF_NEWLINE_COLOR, OLD, PARSE_ERROR};
use riff::hunk_header::HUNK_HEADER;
use riff::line_collector::{get_fixed_highlight, LineCollector};
use riff::pager::{
    pager_command_line, pager_environment, pager_failure_message, Pager, PAGER_FORKBOMB_STOP,
};
use riff::refiner::Formatter;
use riff::string_future::StringFuture;

/// Runs a whole input through a line collector. Returns the output and the
/// error messages, as the command line program would print them.
fn highlight(input: &str) -> (String, Vec<String>) {
    let mut collector = LineCollector::new(Formatter::default());
    let mut output = String::new();
    let mut errors = Vec::new();
    let mut pending: Vec<u8> = Vec::new();
    let mut lines = collect_lines(&mut pending, input.as_bytes());
    if !pending.is_empty() {
        lines.push(pending.clone());
    }
    for (index, line) in lines.iter().enumerate() {
        let (sent, result) = collector.consume_line(line, true, None, None).unwrap();
        for future in sent {
            output.push_str(future.get());
        }
        if let Err(message) = result {
            errors.push(format_error(message, index + 1, line));
        }
    }
    let (sent, result) = collector.finish().unwrap();
    for future in sent {
        output.push_str(future.get());
    }
    if let Err(message) = result {
        errors.push(format!("ERROR at end of input: {message}"));
    }
    (output, errors)
}

#[test]
fn test_trailing_newline_context() {
    let (actual, errors) =
        highlight("@@ -1,1 +1,2 @@\n+bepa\n apa\n\\ No newline at end of file\n");

    let expected = format!(
        "{}{}{}\n{}\n{}\n{}\\ No newline at end of file{}\n",
        HUNK_HEADER,
        "@@ -1,1 +1,2 @@",
        NORMAL,
        format!("{NEW}+bepa{NORMAL}"),
        " apa",
        NO_EOF_NEWLINE_COLOR,
        NORMAL
    );
    assert_eq!(
        actual.lines().collect::<Vec<_>>(),
        expected.lines().collect::<Vec<_>>()
    );
    assert!(errors.is_empty());
}

#[test]
fn plain_lines_pass_through() {
    let (actual, errors) = highlight("hello\n\nworld\n");
    assert_eq!(actual, "hello\n\nworld\n");
    assert!(errors.is_empty());
}

#[test]
fn header_lines_get_fixed_colors() {
    let (actual, _) = highlight("diff --git a/x b/x\nindex 1234..5678 100644\nBinary files a/x and b/x differ\n");
    assert_eq!(
        actual,
        format!(
            "{FAINT}diff --git a/x b/x{NORMAL}\n{FAINT}index 1234..5678 100644{NORMAL}\n{BOLD}Binary files a/x and b/x differ{NORMAL}\n"
        )
    );
}

#[test]
fn fixed_highlights() {
    assert_eq!(get_fixed_highlight("diff --git a/x b/x"), Some(FAINT));
    assert_eq!(get_fixed_highlight("rename to y"), Some(BOLD));
    assert_eq!(get_fixed_highlight("deleted file mode 100644"), Some(FAINT));
    assert_eq!(get_fixed_highlight("+++ b/x"), None);
    assert_eq!(get_fixed_highlight("diff"), None);
}

#[test]
fn incoming_colors_are_stripped_before_lines_are_recognized() {
    let (actual, _) = highlight("\x1b[1mdiff --git a/x b/x\x1b[0m\n\x1b[33mhello\x1b[0m\n");
    // Plain lines are passed on as they came
    assert_eq!(
        actual,
        format!("{FAINT}diff --git a/x b/x{NORMAL}\n\x1b[33mhello\x1b[0m\n")
    );
}

#[test]
fn a_changed_line_is_refined() {
    let (actual, errors) = highlight("@@ -1 +1 @@\n-a b\n+a c\n");
    assert_eq!(
        actual,
        format!(
            "{HUNK_HEADER}@@ -1,1 +1,1 @@{NORMAL}\n\
             {OLD}-a {INVERSE_VIDEO}b{NORMAL}\n\
             {NEW}+a {INVERSE_VIDEO}c{NORMAL}\n"
        )
    );
    assert!(errors.is_empty());
}

#[test]
fn a_line_that_breaks_the_hunk_is_a_parse_error() {
    let (actual, errors) = highlight("@@ -1,1 +1,1 @@\n+a\n+b\nafter\n");
    assert_eq!(
        actual,
        format!("{HUNK_HEADER}@@ -1,1 +1,1 @@{NORMAL}\n{PARSE_ERROR}+b{NORMAL}after\n")
    );
    assert_eq!(
        errors,
        vec!["On line 3: Got more + lines than expected\n  Line 3: +b".to_string()]
    );
}

#[test]
fn a_hunk_cut_short_is_an_error_at_the_end() {
    let (_, errors) = highlight("@@ -1,2 +1,2 @@\n a\n");
    assert_eq!(errors.len(), 1);
    assert!(errors[0].starts_with("ERROR at end of input: Still expecting more lines, but got EOF"));
}

#[test]
fn lines_are_split_at_newlines_and_carriage_returns_dropped() {
    let mut pending: Vec<u8> = b"ab".to_vec();
    let lines = collect_lines(&mut pending, b"c\r\nd\n\nef");
    assert_eq!(lines, vec![b"abc".to_vec(), b"d".to_vec(), b"".to_vec()]);
    assert_eq!(pending, b"ef".to_vec());

    let lines = collect_lines(&mut pending, b"");
    assert!(lines.is_empty());
    assert_eq!(pending, b"ef".to_vec());
}

#[test]
fn error_messages_name_the_line() {
    assert_eq!(
        format_error("Bad".to_string(), 12, b"xyz"),
        "On line 12: Bad\n  Line 12: xyz"
    );
    assert_eq!(
        format_error("Bad".to_string(), 0, b"\xff"),
        "On line 0: Bad\n  Line 0: \u{fffd}"
    );
}

#[test]
fn path_types() {
    assert_eq!(type_string(false, false, false), "Not found");
    assert_eq!(type_string(true, true, false), "File");
    assert_eq!(type_string(true, false, true), "Directory");
    assert_eq!(type_string(true, false, false), "Not file not dir");
}

#[test]
fn color_options() {
    assert!(ColorOption::On.bool_or(false));
    assert!(!ColorOption::Off.bool_or(true));
    assert!(ColorOption::Auto.bool_or(true));
    assert!(!ColorOption::Auto.bool_or(false));
}

#[test]
fn pager_settings() {
    let mut pager = Pager::new();
    assert_eq!(pager.pager_env, None);
    let custom = pager.with_custom_pager_env_var("RIFF_PAGER");
    assert_eq!(custom.pager_env, Some("RIFF_PAGER".to_string()));
    assert_eq!(pager.pager_env, None);

    assert_eq!(pager_command_line("less"), vec!["less".to_string()]);
    assert_eq!(
        pager_command_line("  moar   --no-linenumbers\t-x "),
        vec!["moar".to_string(), "--no-linenumbers".to_string(), "-x".to_string()]
    );
    assert!(pager_command_line("   ").is_empty());

    assert_eq!(
        pager_failure_message("PAGER", "nonexistent"),
        "Failed to page with $PAGER='nonexistent'"
    );
}

#[test]
fn finished_futures() {
    let mut empty = StringFuture::from_string(String::new());
    assert!(empty.is_empty());
    let mut full = StringFuture::from_string("hej\n".to_string());
    assert!(!full.is_empty());
    assert_eq!(full.get(), "hej\n");
}

fn strings(words: &[&str]) -> Vec<String> {
    words.iter().map(|w| w.to_string()).collect()
}

#[test]
fn arguments_from_the_environment_come_first() {
    assert_eq!(
        env_and_command_line("riff".to_string(), Some(" --color=on  -b "), strings(&["x", "y"])),
        strings(&["riff", "--color=on", "-b", "x", "y"])
    );
    assert_eq!(
        env_and_command_line("riff".to_string(), None, strings(&["--no-pager"])),
        strings(&["riff", "--no-pager"])
    );
    assert_eq!(
        env_and_command_line("riff".to_string(), Some(""), Vec::new()),
        strings(&["riff"])
    );
}

#[test]
fn diff_is_run_with_the_whitespace_options() {
    assert_eq!(
        diff_arguments(false, false, "a", "b"),
        strings(&["-ur", "--show-c-function", "--new-file", "a", "b"])
    );
    assert_eq!(
        diff_arguments(true, false, "a", "b"),
        strings(&["-b", "-ur", "--show-c-function", "--new-file", "a", "b"])
    );
    assert_eq!(
        diff_arguments(false, true, "a", "b"),
        strings(&["-w", "-ur", "--show-c-function", "--new-file", "a", "b"])
    );
}

#[test]
fn only_like_paths_are_compared() {
    assert!(can_compare(false, false));
    assert!(can_compare(true, true));
    assert!(!can_compare(true, false));
    assert!(!can_compare(false, true));
}

#[test]
fn diff_exit_codes() {
    assert!(!diff_failed(0));
    assert!(!diff_failed(1));
    assert!(diff_failed(2));
    assert!(diff_failed(-1));
}

#[test]
fn pagers_get_gits_settings() {
    assert_eq!(
        pager_environment(false, false),
        vec![
            (PAGER_FORKBOMB_STOP.to_string(), "1".to_string()),
            ("LESS".to_string(), "FRX".to_string()),
            ("LV".to_string(), "-c".to_string()),
        ]
    );
    assert_eq!(
        pager_environment(true, true),
        vec![(PAGER_FORKBOMB_STOP.to_string(), "1".to_string())]
    );
}

#[test]
fn a_rename_keeps_its_two_lines() {
    let (actual, errors) = highlight("rename from a.txt\nrename to b.txt\nafter\n");
    assert_eq!(
        actual,
        "rename from \x1b[1;31ma.txt\x1b[0m\nrename to \x1b[1;32mb.txt\x1b[0m\nafter\n"
    );
    assert!(errors.is_empty());
}
