use riff::ansi::{ansi_style_normal, Color};
use riff::constants::{GREEN, INVERSE_VIDEO, NORMAL, NO_INVERSE_VIDEO, OLD, YELLOW};
use riff::refiner::{highlight_by_steps, to_highlighted_tokens, to_lines, DiffOp, Formatter};
use riff::token_collector::{render, LineStyle, Style, StyledToken};

const MARKER: &str = "\\ No newline at end of file";

fn formatter() -> Formatter {
    Formatter::yellow()
}

fn line_style_old() -> LineStyle {
    LineStyle {
        prefix_style: ansi_style_normal().with_color(Color::Red),
        unchanged_style: ansi_style_normal().with_color(Color::Yellow),
        midlighted_style: ansi_style_normal().with_color(Color::Red),
        highlighted_style: ansi_style_normal().with_color(Color::Red).with_inverse(true),
    }
}

fn line_style_new() -> LineStyle {
    LineStyle {
        prefix_style: ansi_style_normal().with_color(Color::Green),
        unchanged_style: ansi_style_normal().with_color(Color::Yellow),
        midlighted_style: ansi_style_normal().with_color(Color::Green),
        highlighted_style: ansi_style_normal().with_color(Color::Green).with_inverse(true),
    }
}

#[test]
fn test_simple_format_adds_and_removes() {
    let empty: Vec<String> = Vec::new();
    assert_eq!(formatter().format_simple(&[], &[], MARKER), empty);

    // Test adds-only
    assert_eq!(
        formatter().format_simple(&["+"], &["a\n"], MARKER),
        ["".to_string() + GREEN + "+a" + NORMAL]
    );
    assert_eq!(
        formatter().format_simple(&["+"], &["a\nb\n"], MARKER),
        [
            "".to_string() + GREEN + "+a" + NORMAL,
            "".to_string() + GREEN + "+b" + NORMAL,
        ]
    );

    // Test removes-only
    assert_eq!(
        formatter().format_simple(&["-"], &["a\n"], MARKER),
        ["".to_string() + OLD + "-a" + NORMAL]
    );
    assert_eq!(
        formatter().format_simple(&["-"], &["a\nb\n"], MARKER),
        [
            "".to_string() + OLD + "-a" + NORMAL,
            "".to_string() + OLD + "-b" + NORMAL,
        ]
    );
}

/// `format_simple()` turned out to have quadratic complexity. If this test
/// hangs, that's probably what happened again.
#[test]
fn test_format_simple_complexity() {
    let lines = 300_000;
    let line_length = 50;
    let mut text = String::new();
    for _ in 0..lines {
        text.push_str(&"a".repeat(line_length));
        text.push('\n');
    }

    let prefixes = vec!["+"];
    let texts = vec![text.as_str()];

    let result = formatter().format_simple(&prefixes, &texts, MARKER);
    assert_eq!(text.lines().count(), result.len());
}

#[test]
fn test_quote_change() {
    let result = formatter().format(
        &["-", "+"],
        &[
            "<unchanged text between quotes>\n",
            "[unchanged text between quotes]\n",
        ],
        MARKER,
    );
    assert_eq!(
        result,
        [
            format!(
                "{OLD}-{INVERSE_VIDEO}<{NO_INVERSE_VIDEO}{YELLOW}unchanged text between quotes{INVERSE_VIDEO}{OLD}>{NORMAL}"
            ),
            format!(
                "{GREEN}+{INVERSE_VIDEO}[{NO_INVERSE_VIDEO}{YELLOW}unchanged text between quotes{INVERSE_VIDEO}{GREEN}]{NORMAL}"
            ),
        ]
    )
}

#[test]
fn test_almost_empty_changes() {
    let result = formatter().format(&["-"], &["x\n"], MARKER);
    assert_eq!(result, [format!("{OLD}-x{NORMAL}"),]);

    let result = formatter().format(&["+"], &["x\n"], MARKER);
    assert_eq!(result, [format!("{GREEN}+x{NORMAL}"),]);
}

#[test]
fn test_space_highlighting() {
    // Add new initial spacing (indentation). We don't want to highlight indentation.
    let (_, new_tokens) = to_highlighted_tokens("x", " x");
    assert_eq!(
        new_tokens,
        vec![
            StyledToken::new(" ".to_string(), Style::DiffPartMidlighted),
            StyledToken::new("x".to_string(), Style::DiffPartUnchanged)
        ]
    );

    // Increase indentation. Do not highlight this.
    let (_, new_tokens) = to_highlighted_tokens(" x", "  x");
    assert_eq!(
        new_tokens,
        vec![
            StyledToken::new("  ".to_string(), Style::DiffPartMidlighted),
            StyledToken::new("x".to_string(), Style::DiffPartUnchanged)
        ]
    );

    // Add a new internal space. We do want to highlight this.
    let (_, new_tokens) = to_highlighted_tokens("#x", "# x");
    assert_eq!(
        new_tokens,
        vec![
            StyledToken::new("#".to_string(), Style::DiffPartUnchanged),
            StyledToken::new(" ".to_string(), Style::DiffPartHighlighted),
            StyledToken::new("x".to_string(), Style::DiffPartUnchanged)
        ]
    );

    // Increase internal space. We do not want to highlight this. Probably code reformatting.
    let (_, new_tokens) = to_highlighted_tokens("x y", "x  y");
    assert_eq!(
        new_tokens,
        vec![
            StyledToken::new("x".to_string(), Style::DiffPartUnchanged),
            StyledToken::new("  ".to_string(), Style::DiffPartMidlighted),
            StyledToken::new("y".to_string(), Style::DiffPartUnchanged)
        ]
    );

    // Remove trailing space. We do want to highlight this.
    let (old_tokens, _) = to_highlighted_tokens("x ", "x");
    assert_eq!(
        old_tokens,
        vec![
            StyledToken::new("x".to_string(), Style::DiffPartUnchanged),
            StyledToken::new(" ".to_string(), Style::DiffPartHighlighted)
        ]
    );
}

#[test]
fn highlighted_tokens_keep_every_token() {
    let (old_tokens, new_tokens) = to_highlighted_tokens("a b c\n", "a x c\n");
    let old_text: String = old_tokens.iter().map(|t| t.token.as_str()).collect();
    let new_text: String = new_tokens.iter().map(|t| t.token.as_str()).collect();
    assert_eq!(old_text, "a b c\n");
    assert_eq!(new_text, "a x c\n");
}

#[test]
fn missing_trailing_newline_gets_a_marker() {
    let (old_tokens, new_tokens) = to_highlighted_tokens("a\n", "a");
    let old_text: Vec<&str> = old_tokens.iter().map(|t| t.token.as_str()).collect();
    assert_eq!(old_text, ["a", "\u{23ce}", "\n"]);
    assert_eq!(new_tokens.len(), 1);
}

#[test]
fn lines_without_trailing_newline_get_the_marker_line() {
    assert_eq!(to_lines("a\nb", MARKER), ["a", "b", "\x1b[2m\\ No newline at end of file\x1b[0m"]);
    assert_eq!(to_lines("a\nb\n", MARKER), ["a", "b"]);
}

#[test]
fn format_without_plus_is_not_refined() {
    let result = formatter().format(&["-", "-"], &["a\n", "b\n"], MARKER);
    assert_eq!(result, [format!("{OLD}-a{NORMAL}"), format!("{OLD}-b{NORMAL}")]);
}

#[test]
fn test_basic() {
    let rendered = render(
        &line_style_new(),
        "+",
        &[
            StyledToken {
                token: "hej".to_string(),
                style: Style::DiffPartMidlighted,
                url: None,
            },
            StyledToken {
                token: "\n".to_string(),
                style: Style::DiffPartMidlighted,
                url: None,
            },
        ],
    );
    assert_eq!(rendered, format!("{GREEN}+hej{NORMAL}\n"));
}

#[test]
fn test_removed_trailing_whitespace() {
    // It shouldn't be highlighted, just added ones should
    let actual = render(
        &line_style_old(),
        "-",
        &[StyledToken::new(" ".to_string(), Style::DiffPartMidlighted)],
    );

    assert_eq!(actual, format!("{OLD}- {NORMAL}"));
}

#[test]
fn test_removed_nonleading_tab() {
    // It shouldn't be highlighted, just added ones should
    let actual = render(
        &line_style_old(),
        "-",
        &[
            StyledToken::new("x".to_string(), Style::DiffPartMidlighted),
            StyledToken::new("\t".to_string(), Style::DiffPartMidlighted),
        ],
    );

    assert_eq!(actual, format!("{OLD}-x\t{NORMAL}"));
}

#[test]
fn test_below_ascii_space() {
    assert_eq!(
        "␛",
        StyledToken::new("\x1b".to_string(), Style::Context).token
    );
    assert_eq!(
        "␇",
        StyledToken::new("\x07".to_string(), Style::Context).token
    );
}

#[test]
fn whitespace_at_the_ends_of_a_highlighted_run_is_midlighted() {
    let (_, new_tokens) = to_highlighted_tokens("my name", "my first name");
    assert_eq!(
        new_tokens,
        vec![
            StyledToken::new("my".to_string(), Style::DiffPartUnchanged),
            StyledToken::new(" ".to_string(), Style::DiffPartUnchanged),
            StyledToken::new("first".to_string(), Style::DiffPartHighlighted),
            StyledToken::new(" ".to_string(), Style::DiffPartMidlighted),
            StyledToken::new("name".to_string(), Style::DiffPartUnchanged),
        ]
    );

    let (old_tokens, _) = to_highlighted_tokens("a b c d", "a d");
    assert_eq!(
        old_tokens,
        vec![
            StyledToken::new("a".to_string(), Style::DiffPartUnchanged),
            StyledToken::new(" ".to_string(), Style::DiffPartUnchanged),
            StyledToken::new("b".to_string(), Style::DiffPartHighlighted),
            StyledToken::new(" ".to_string(), Style::DiffPartHighlighted),
            StyledToken::new("c".to_string(), Style::DiffPartHighlighted),
            StyledToken::new(" ".to_string(), Style::DiffPartMidlighted),
            StyledToken::new("d".to_string(), Style::DiffPartUnchanged),
        ]
    );
}

#[test]
fn formatting_keeps_the_number_of_lines() {
    // Refined: two old lines, one new line without a trailing newline
    let result = formatter().format(&["-", "+"], &["a\nb\n", "a c"], MARKER);
    assert_eq!(result.len(), 2 + 1 + 1);
    assert_eq!(result[3], format!("\u{1b}[2m{MARKER}{NORMAL}"));

    // Not refined: nothing added
    let result = formatter().format(&["-", "-"], &["a\nb\n", "c\n"], MARKER);
    assert_eq!(result.len(), 3);

    // Three-way
    let result = formatter().format(&["-", " -", "+"], &["x\n", "y\nz\n", "x\ny\n"], MARKER);
    assert_eq!(result.len(), 1 + 2 + 2);
}

#[test]
fn given_steps_style_the_tokens_they_cover() {
    let old: Vec<String> = ["a", " ", "b"].iter().map(|t| t.to_string()).collect();
    let new: Vec<String> = ["a", " ", "c", " ", "d"].iter().map(|t| t.to_string()).collect();
    let steps = vec![
        DiffOp::Equal { old_index: 0, new_index: 0, len: 2 },
        DiffOp::Replace { old_index: 2, old_len: 1, new_index: 2, new_len: 3 },
    ];
    let (old_tokens, new_tokens) = highlight_by_steps(&old, &new, &steps);
    assert_eq!(
        old_tokens,
        vec![
            StyledToken::new("a".to_string(), Style::DiffPartUnchanged),
            StyledToken::new(" ".to_string(), Style::DiffPartUnchanged),
            StyledToken::new("b".to_string(), Style::DiffPartHighlighted),
        ]
    );
    assert_eq!(
        new_tokens,
        vec![
            StyledToken::new("a".to_string(), Style::DiffPartUnchanged),
            StyledToken::new(" ".to_string(), Style::DiffPartUnchanged),
            StyledToken::new("c".to_string(), Style::DiffPartHighlighted),
            StyledToken::new(" ".to_string(), Style::DiffPartHighlighted),
            StyledToken::new("d".to_string(), Style::DiffPartHighlighted),
        ]
    );

    // An insertion at the start of a line that is only whitespace is not highlighted
    let steps = vec![
        DiffOp::Insert { old_index: 0, new_index: 0, new_len: 1 },
        DiffOp::Equal { old_index: 0, new_index: 1, len: 1 },
    ];
    let old: Vec<String> = vec!["x".to_string()];
    let new: Vec<String> = vec![" ".to_string(), "x".to_string()];
    let (_, new_tokens) = highlight_by_steps(&old, &new, &steps);
    assert_eq!(new_tokens[0], StyledToken::new(" ".to_string(), Style::DiffPartMidlighted));
}

#[test]
fn the_tokens_spell_both_texts() {
    let (old_tokens, new_tokens) = to_highlighted_tokens("a b\n", "a c");
    let old: String = old_tokens.iter().map(|t| t.token.clone()).collect();
    let new: String = new_tokens.iter().map(|t| t.token.clone()).collect();
    assert_eq!(old, "a b\u{23ce}\n");
    assert_eq!(new, "a c");
}

#[test]
fn swapped_delete_and_insert_steps_are_followed() {
    // The edit script similar gives for these tokens after compaction
    let old: Vec<String> = ["a", ","].iter().map(|t| t.to_string()).collect();
    let new: Vec<String> = [",", "b", ","].iter().map(|t| t.to_string()).collect();
    let steps = vec![
        DiffOp::Delete { old_index: 0, old_len: 1, new_index: 1 },
        DiffOp::Equal { old_index: 1, new_index: 0, len: 1 },
        DiffOp::Insert { old_index: 1, new_index: 1, new_len: 2 },
    ];
    let (old_tokens, new_tokens) = highlight_by_steps(&old, &new, &steps);
    assert_eq!(
        old_tokens,
        vec![
            StyledToken::new("a".to_string(), Style::DiffPartHighlighted),
            StyledToken::new(",".to_string(), Style::DiffPartUnchanged),
        ]
    );
    assert_eq!(
        new_tokens,
        vec![
            StyledToken::new(",".to_string(), Style::DiffPartUnchanged),
            StyledToken::new("b".to_string(), Style::DiffPartHighlighted),
            StyledToken::new(",".to_string(), Style::DiffPartHighlighted),
        ]
    );

    // And the real diff of these texts keeps every token
    let (old_tokens, new_tokens) = to_highlighted_tokens("a,", ",b,");
    let old_text: String = old_tokens.iter().map(|t| t.token.clone()).collect();
    let new_text: String = new_tokens.iter().map(|t| t.token.clone()).collect();
    assert_eq!(old_text, "a,");
    assert_eq!(new_text, ",b,");
}

fn stripped(lines: &[String]) -> Vec<String> {
    lines
        .iter()
        .map(|l| String::from_utf8(riff::ansi::without_ansi_escape_codes(l.as_bytes())).unwrap())
        .collect()
}

#[test]
fn formatted_lines_stripped_of_color_are_prefix_and_line() {
    let refined = formatter().format(&["-", "+"], &["a b\nc\n", "a x\nc\n"], MARKER);
    assert_eq!(stripped(&refined), vec!["-a b", "-c", "+a x", "+c"]);

    let simple = formatter().format(&["-", " -"], &["one\n", "two\nthree\n"], MARKER);
    assert_eq!(stripped(&simple), vec!["-one", " -two", " -three"]);
}
