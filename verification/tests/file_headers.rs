use riff::ansi::without_ansi_escape_codes;
use riff::constants::{BOLD, FAINT, GREEN, INVERSE_VIDEO, NORMAL, NORMAL_INTENSITY, OLD};
use riff::lines_highlighter::LineAcceptance;
use riff::plusminus_header_highlighter::{split_row, PlusMinusHeaderHighlighter};
use riff::token_collector::{Style, StyledToken};

const NOT_INVERSE_VIDEO: &str = "\x1b[27m";
const DEFAULT_COLOR: &str = "\x1b[39m";

fn highlight_header_lines(old_line: &str, new_line: &str) -> String {
    let mut test_me = PlusMinusHeaderHighlighter::from_line(old_line).unwrap();
    let response = test_me.consume_line(new_line, None, None).unwrap().unwrap();
    assert_eq!(LineAcceptance::AcceptedDone, response.line_accepted);
    assert_eq!(1, response.highlighted.len());

    let highlighted = response.highlighted[0].get().to_string();
    return highlighted;
}

#[test]
fn test_align_timestamps() {
    let highlighted = highlight_header_lines(
        "--- x.txt\t2023-12-15 15:43:29",
        "+++ /Users/johan/xsrc/riff/README.md\t2024-01-29 14:56:40",
    );
    let highlighted_bytes = highlighted.clone().into_bytes();
    let plain = String::from_utf8(without_ansi_escape_codes(&highlighted_bytes)).unwrap();

    assert_eq!(
        "--- x.txt                             2023-12-15 15:43:29\n\
         +++ /Users/johan/xsrc/riff/README.md  2024-01-29 14:56:40\n",
        plain.as_str()
    );
}

#[test]
fn test_brighten_filename() {
    let highlighted = highlight_header_lines("--- a/x/y/z.txt", "+++ b/x/y/z.txt");
    assert_eq!(
        format!(
            "\
            {BOLD}--- {NORMAL_INTENSITY}{FAINT}a/{NORMAL}x/y/{BOLD}z.txt{NORMAL}\n\
            {BOLD}+++ {NORMAL_INTENSITY}{FAINT}b/{NORMAL}x/y/{BOLD}z.txt{NORMAL}\n"
        ),
        highlighted
    );
}

#[test]
fn test_brighten_filename_without_path() {
    let highlighted = highlight_header_lines("--- z.txt", "+++ z.txt");
    assert_eq!(
        format!(
            "\
            {BOLD}--- z.txt{NORMAL}\n\
            {BOLD}+++ z.txt{NORMAL}\n"
        ),
        highlighted
    );
}

#[test]
fn test_brighten_file_rename() {
    let highlighted = highlight_header_lines("--- x.txt", "+++ y.txt");
    assert_eq!(
        format!(
            "\
            {BOLD}--- {INVERSE_VIDEO}{NORMAL_INTENSITY}{OLD}x{NOT_INVERSE_VIDEO}{BOLD}{DEFAULT_COLOR}.txt{NORMAL}\n\
            {BOLD}+++ {INVERSE_VIDEO}{NORMAL_INTENSITY}{GREEN}y{NOT_INVERSE_VIDEO}{BOLD}{DEFAULT_COLOR}.txt{NORMAL}\n"
        ),
        highlighted
    );
}

#[test]
fn test_new_file_header() {
    let highlighted = highlight_header_lines("--- /dev/null", "+++ b/newfile.txt");
    assert_eq!(
        format!(
            "\
            {BOLD}--- {NORMAL_INTENSITY}{FAINT}/dev/null{NORMAL}\n\
            {BOLD}+++ NEW {NORMAL_INTENSITY}{FAINT}b/{NORMAL_INTENSITY}{BOLD}newfile.txt{NORMAL}\n"
        ),
        highlighted
    );
}

#[test]
fn test_deleted_file_header() {
    let highlighted = highlight_header_lines("--- a/oldfile.txt", "+++ /dev/null");
    assert_eq!(
        format!(
            "\
            {BOLD}--- DELETED {NORMAL_INTENSITY}{FAINT}a/{NORMAL_INTENSITY}{BOLD}oldfile.txt{NORMAL}\n\
            {BOLD}+++ {NORMAL_INTENSITY}{FAINT}/dev/null{NORMAL}\n"
        ),
        highlighted
    );
}

#[test]
fn header_links_the_file_names() {
    let mut test_me = PlusMinusHeaderHighlighter::from_line("--- a/x.txt").unwrap();
    let (old_target, new_target) = test_me.link_targets("+++ b/x.txt");
    assert_eq!(old_target, Some("x.txt".to_string()));
    assert_eq!(new_target, Some("x.txt".to_string()));
    let url = "file:///tmp/x.txt".to_string();
    let response = test_me
        .consume_line("+++ b/x.txt", Some(url.clone()), Some(url))
        .unwrap()
        .unwrap();
    let text = response.highlighted[0].get().to_string();
    assert!(text.contains("\x1b]8;;file:///tmp/x.txt\x1b\\"));
}

#[test]
fn renamed_old_file_is_not_linked() {
    let test_me = PlusMinusHeaderHighlighter::from_line("--- a/x.txt").unwrap();
    let (old_target, new_target) = test_me.link_targets("+++ b/y.txt");
    assert_eq!(old_target, None);
    assert_eq!(new_target, Some("y.txt".to_string()));
}

#[test]
fn dev_null_is_never_linked() {
    let test_me = PlusMinusHeaderHighlighter::from_line("--- /dev/null").unwrap();
    let (old_target, new_target) = test_me.link_targets("+++ b/new.txt");
    assert_eq!(old_target, None);
    assert_eq!(new_target, Some("new.txt".to_string()));
}

#[test]
fn header_needs_plus_line() {
    let mut test_me = PlusMinusHeaderHighlighter::from_line("--- a/x.txt").unwrap();
    let result = test_me.consume_line("something else", None, None).unwrap();
    assert_eq!(result.err(), Some("--- was not followed by +++".to_string()));
    assert_eq!(
        test_me.consume_eof().err(),
        Some("Input ended early, --- should have been followed by +++".to_string())
    );
    assert!(PlusMinusHeaderHighlighter::from_line("+++ b/x.txt").is_none());
}

struct Parts {
    prefix: Vec<StyledToken>,
    just_path: Vec<StyledToken>,
    just_filename: Vec<StyledToken>,
    time_space: Vec<StyledToken>,
    timestamp: Vec<StyledToken>,
}

fn split(look_for_git_prefixes: bool, tokens: &[StyledToken]) -> Parts {
    let split = split_row(look_for_git_prefixes, tokens, std::path::MAIN_SEPARATOR);
    Parts {
        prefix: tokens[..split.path_start].to_vec(),
        just_path: tokens[split.path_start..split.filename_start].to_vec(),
        just_filename: tokens[split.filename_start..split.path_end].to_vec(),
        time_space: tokens[split.path_end..split.timestamp_start].to_vec(),
        timestamp: tokens[split.timestamp_start..].to_vec(),
    }
}

fn texts(tokens: &[StyledToken]) -> Vec<&String> {
    tokens.iter().map(|t| &t.token).collect::<Vec<_>>()
}

#[test]
fn test_split_row_with_slash_separator() {
    let tokens: Vec<StyledToken> = ["doc", "/", "c.txt", "\t", "2023-12-15 15:43:29"]
        .iter()
        .map(|s| StyledToken::new(s.to_string(), Style::Context))
        .collect();
    let split = split(false, &tokens);
    assert_eq!(split.prefix.len(), 0);
    assert_eq!(texts(&split.just_path), ["doc", "/"]);
    assert_eq!(texts(&split.just_filename), ["c.txt"]);
    assert_eq!(
        split.time_space,
        [StyledToken::new("\t".to_string(), Style::Context)],
    );
    assert_eq!(texts(&split.timestamp), ["2023-12-15 15:43:29"]);
}

#[test]
fn test_split_row_with_os_separator() {
    let sep = std::path::MAIN_SEPARATOR.to_string();
    let tokens: Vec<StyledToken> = [
        "a",
        &sep,
        "doc",
        &sep,
        "c.txt",
        // Time separator can be either a tab or two or more spaces
        "  ",
        "2023-12-15 15:43:29",
    ]
    .iter()
    .map(|s| StyledToken::new(s.to_string(), Style::Context))
    .collect();
    let split = split(true, &tokens);
    assert_eq!(texts(&split.prefix), ["a", &sep]);
    assert_eq!(texts(&split.just_path), ["doc", &sep]);
    assert_eq!(texts(&split.just_filename), ["c.txt"]);
    assert_eq!(
        split.time_space,
        [StyledToken::new("  ".to_string(), Style::Context)],
    );
    assert_eq!(texts(&split.timestamp), ["2023-12-15 15:43:29"]);
}

#[test]
fn test_split_row_timeless() {
    let tokens: Vec<StyledToken> = ["doc", "/", "c.txt"]
        .iter()
        .map(|s| StyledToken::new(s.to_string(), Style::Context))
        .collect();
    let split = split(false, &tokens);
    assert_eq!(split.prefix.len(), 0);
    assert_eq!(texts(&split.just_path), ["doc", "/"]);
    assert_eq!(texts(&split.just_filename), ["c.txt"]);
    assert_eq!(split.time_space, []);
    assert_eq!(split.timestamp, []);
}

#[test]
fn test_split_row_pathless() {
    let tokens: Vec<StyledToken> = ["README.md", "\t", "2023-12-15 15:43:29"]
        .iter()
        .map(|s| StyledToken::new(s.to_string(), Style::Context))
        .collect();
    let split = split(false, &tokens);
    assert_eq!(split.prefix.len(), 0);
    assert_eq!(split.just_path.len(), 0);
    assert_eq!(texts(&split.just_filename), ["README.md"]);
    assert_eq!(
        split.time_space,
        [StyledToken::new("\t".to_string(), Style::Context)],
    );
    assert_eq!(texts(&split.timestamp), ["2023-12-15 15:43:29"]);
}

#[test]
fn test_split_row_separator_without_time() {
    let tokens: Vec<StyledToken> = ["README.md", "\t"]
        .iter()
        .map(|s| StyledToken::new(s.to_string(), Style::Context))
        .collect();
    let split = split(false, &tokens);
    assert_eq!(split.prefix.len(), 0);
    assert_eq!(split.just_path.len(), 0);
    assert_eq!(texts(&split.just_filename), ["README.md"]);
    assert_eq!(
        split.time_space,
        [StyledToken::new("\t".to_string(), Style::Context)],
    );
    assert_eq!(split.timestamp.len(), 0);
}

#[test]
fn file_names_link_to_file_urls() {
    assert_eq!(
        riff::plusminus_header_highlighter::link_url("/tmp/x.txt", true),
        Some("file:///tmp/x.txt".to_string())
    );
    assert_eq!(riff::plusminus_header_highlighter::link_url("/tmp/x.txt", false), None);
    assert_eq!(riff::plusminus_header_highlighter::link_url("x.txt", true), None);
}

#[test]
fn file_urls_end_with_the_file_name() {
    assert_eq!(
        riff::plusminus_header_highlighter::link_url("/tmp/dir/README", true),
        Some("file:///tmp/dir/README".to_string())
    );
}
