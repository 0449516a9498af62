use riff::conflicts_highlighter::ConflictsHighlighter;
use riff::hunk_highlighter::HunkLinesHighlighter;
use riff::lines_highlighter::LineAcceptance;
use riff::plusminus_lines_highlighter::PlusMinusLinesHighlighter;
use riff::refiner::Formatter;

const NNAEOF: &str = "\\ No newline at end of file";

/// Based on `testdata/adds-only.diff`
#[test]
fn test_happy_path() {
    let mut test_me = HunkLinesHighlighter::from_line("@@ -1,2 +1,2 @@", Formatter::yellow()).unwrap();

    // First call to consume_line() should get us the hunk header
    let result = test_me
        .consume_line("-Hello, my name is Johan", "")
        .unwrap()
        .unwrap();

    // Expect to get the hunk header back immediately, no matter what else
    // we got.
    assert_eq!(result.line_accepted, LineAcceptance::AcceptedWantMore);
    assert_eq!(result.highlighted.len(), 1);
    assert_eq!(
        result.highlighted[0].get(),
        "\u{1b}[36m@@ -1,2 +1,2 @@\u{1b}[0m\n"
    );

    let result = test_me
        .consume_line("+Hello, my first name is Johan", "")
        .unwrap()
        .unwrap();
    assert_eq!(result.line_accepted, LineAcceptance::AcceptedWantMore);
    assert_eq!(result.highlighted.len(), 0);

    let result = test_me.consume_line(" I like pie.", "").unwrap().unwrap();
    assert_eq!(result.line_accepted, LineAcceptance::AcceptedWantMore);

    assert_eq!(result.highlighted.len(), 2);
    assert_eq!(
        result.highlighted[0].get(),
        "\u{1b}[31m-\u{1b}[33mHello, my name is Johan\u{1b}[0m\n\
         \u{1b}[32m+\u{1b}[33mHello, my \u{1b}[7m\u{1b}[32mfirst\u{1b}[27m \u{1b}[33mname is Johan\u{1b}[0m\n"
    );
    assert_eq!(result.highlighted[1].get(), " I like pie.\n");

    let result = test_me.consume_eof("").unwrap().unwrap();
    assert!(result.is_empty());
}

#[test]
fn test_decrease_remaining_line_count() {
    let mut test_me = HunkLinesHighlighter::from_line("@@ -1,2 +1,2 @@", Formatter::yellow()).unwrap();
    assert_eq!(test_me.remaining_line_counts(), vec![2, 2]);

    test_me.decrease_remaining_line_counts("+").unwrap();
    assert_eq!(
        test_me.remaining_line_counts(),
        vec![2, 1],
        "With a + line, we should decrease the last line count"
    );

    test_me.decrease_remaining_line_counts("-").unwrap();
    assert_eq!(
        test_me.remaining_line_counts(),
        vec![1, 1],
        "With a - line, we should decrease the first line count"
    );
}

// `\ No newline at end of file` test, based on
// `testdata/add-remove-trailing-newline.diff`.
#[test]
fn test_nnaeol() {
    let mut test_me = HunkLinesHighlighter::from_line("@@ -1,1 +1,2 @@", Formatter::yellow()).unwrap();
    assert_eq!(test_me.remaining_line_counts(), vec![1, 2]);

    test_me.consume_line(" Hello", NNAEOF).unwrap().unwrap();
    let result = test_me
        .consume_line("+No trailing newline", NNAEOF)
        .unwrap()
        .unwrap();

    // We should now be expecting the `\ No newline at end of file` line
    assert_eq!(result.line_accepted, LineAcceptance::AcceptedWantMore);
    assert_eq!(result.highlighted.len(), 0);

    assert_eq!(test_me.remaining_line_counts(), vec![0, 0]);

    let result = test_me
        .consume_line("\\ No newline at end of file", NNAEOF)
        .unwrap()
        .unwrap();
    assert_eq!(result.line_accepted, LineAcceptance::AcceptedWantMore);
    assert_eq!(result.highlighted.len(), 1);
    assert_eq!(
        result.highlighted[0].get(),
        "\u{1b}[32m+No trailing newline\u{1b}[0m\u{1b}[31m\u{1b}[7m⏎\u{1b}[0m\n\u{1b}[2m\\ No newline at end of file\u{1b}[0m\n",
    );

    assert!(!test_me.more_lines_expected());

    let result = test_me.consume_eof(NNAEOF).unwrap().unwrap();
    assert!(result.is_empty());
}

#[test]
fn test_decrease_remaining_line_count_merge() {
    let mut test_me =
        HunkLinesHighlighter::from_line("@@@ -1,5 -1,5 +1,5 @@@", Formatter::yellow()).unwrap();
    assert_eq!(test_me.remaining_line_counts(), vec![5, 5, 5]);

    test_me.decrease_remaining_line_counts(" -").unwrap();
    assert_eq!(
        test_me.remaining_line_counts(),
        vec![5, 4, 5],
        "Minus counts should have gone down"
    );

    test_me.decrease_remaining_line_counts("- ").unwrap();
    assert_eq!(
        test_me.remaining_line_counts(),
        vec![4, 4, 5],
        "Minus counts should have gone down"
    );

    test_me.decrease_remaining_line_counts("--").unwrap();
    assert_eq!(
        test_me.remaining_line_counts(),
        vec![3, 3, 5],
        "Minus and space counts should have gone down"
    );

    test_me.decrease_remaining_line_counts("++").unwrap();
    assert_eq!(
        test_me.remaining_line_counts(),
        vec![3, 3, 4],
        "With a + line, we should decrease the last line count"
    );

    test_me.decrease_remaining_line_counts(" +").unwrap();
    assert_eq!(
        test_me.remaining_line_counts(),
        vec![2, 3, 3],
        "First count should have gone down because of the space in its column. Last count should have gone down because of the + in its column."
    );

    test_me.decrease_remaining_line_counts("  ").unwrap();
    assert_eq!(
        test_me.remaining_line_counts(),
        vec![1, 2, 2],
        "All counts should drop on context (space only) lines"
    );
}

#[test]
fn too_many_added_lines_are_an_error() {
    let mut test_me = HunkLinesHighlighter::from_line("@@ -1,1 +1,1 @@", Formatter::yellow()).unwrap();
    test_me.decrease_remaining_line_counts("+").unwrap();
    assert_eq!(
        test_me.decrease_remaining_line_counts("+").err(),
        Some("Got more + lines than expected".to_string())
    );
    assert_eq!(
        test_me.decrease_remaining_line_counts(" ").err(),
        Some("Got more + lines than expected".to_string())
    );
}

#[test]
fn too_many_removed_lines_are_an_error() {
    let mut test_me =
        HunkLinesHighlighter::from_line("@@@ -1,1 -1,0 +1,3 @@@", Formatter::yellow()).unwrap();
    assert_eq!(
        test_me.decrease_remaining_line_counts(" -").err(),
        Some("Got more lines than expected for version (minus / space column) 2".to_string())
    );
    assert_eq!(test_me.decrease_remaining_line_counts(" +"), Ok(()));
    assert_eq!(test_me.remaining_line_counts(), vec![0, 0, 2]);
    assert_eq!(
        test_me.decrease_remaining_line_counts(" +").err(),
        Some("Got more lines than expected for version (+ context column) 1".to_string())
    );
}

#[test]
fn early_end_describes_the_counts() {
    let mut test_me = HunkLinesHighlighter::from_line("@@ -1,2 +1,3 @@", Formatter::yellow()).unwrap();
    test_me.consume_line(" a", "").unwrap().unwrap();
    assert_eq!(
        test_me.consume_eof("").unwrap().err(),
        Some("Still expecting more lines, but got EOF: [<±> 1/2 done, <+> 1/3 done]".to_string())
    );
}

#[test]
fn hunk_rejects_lines_after_its_end() {
    let mut test_me = HunkLinesHighlighter::from_line("@@ -1,1 +1,1 @@", Formatter::yellow()).unwrap();
    let result = test_me.consume_line(" a", "").unwrap().unwrap();
    assert_eq!(result.line_accepted, LineAcceptance::AcceptedWantMore);
    let result = test_me.consume_line("diff --git", "").unwrap().unwrap();
    assert_eq!(result.line_accepted, LineAcceptance::RejectedDone);
}

#[test]
fn plusminus_lines_need_prefixes() {
    assert!(PlusMinusLinesHighlighter::from_line(" context", 1, Formatter::yellow()).is_none());
    assert!(PlusMinusLinesHighlighter::from_line("x", 1, Formatter::yellow()).is_none());
    let mut test_me = PlusMinusLinesHighlighter::from_line("-a", 1, Formatter::yellow()).unwrap();
    assert_eq!(
        test_me.consume_line("x", "").unwrap().err(),
        Some("Unexpected character in prefix <x>, only +, - and space allowed: <x>".to_string())
    );
    assert!(test_me.consume_line("", "").is_none());
}

#[test]
fn plusminus_short_line_is_an_error() {
    let mut test_me = PlusMinusLinesHighlighter::from_line("--a", 2, Formatter::yellow()).unwrap();
    assert_eq!(
        test_me.consume_line("-", "").unwrap().err(),
        Some("Line too short, expected 0 or at least 2 characters".to_string())
    );
}

fn conflict(lines: &[&str]) -> (LineAcceptance, Vec<String>) {
    let mut test_me = ConflictsHighlighter::from_line(lines[0]).unwrap();
    let mut last = LineAcceptance::AcceptedWantMore;
    let mut out = Vec::new();
    for line in &lines[1..] {
        let response = test_me.consume_line(line).unwrap();
        last = response.line_accepted;
        for f in response.highlighted {
            out.push(f.get().to_string());
        }
    }
    (last, out)
}

#[test]
fn conflict_is_rendered_at_its_footer() {
    let (last, out) = conflict(&["<<<<<<< HEAD", "a", "=======", "a", ">>>>>>> branch"]);
    assert_eq!(last, LineAcceptance::AcceptedDone);
    assert_eq!(out.len(), 1);
    assert_eq!(
        out[0],
        "\x1b[7m<<<<<<< HEAD\n\x1b[7m\x1b[0ma\n\x1b[7m=======\n\x1b[7m\x1b[0ma\n\x1b[7m>>>>>>> branch\n"
    );
}

#[test]
fn broken_conflict_is_rendered_plain() {
    let (last, out) = conflict(&["++<<<<<<< HEAD", "++a", "xyz"]);
    assert_eq!(last, LineAcceptance::RejectedDone);
    assert_eq!(
        out,
        ["\x1b[32m++<<<<<<< HEAD\x1b[0m\n\x1b[32m +a\x1b[0m\n".to_string()]
    );
}

#[test]
fn conflict_markers_in_wrong_order_are_errors() {
    let mut test_me = ConflictsHighlighter::from_line("<<<<<<< HEAD").unwrap();
    test_me.consume_line("=======").unwrap();
    test_me.consume_line("b").unwrap();
    assert_eq!(
        test_me.consume_line("||||||| base").err(),
        Some("Unexpected `|||||||` line after `=======`".to_string())
    );
    assert_eq!(
        test_me.consume_line("=======").err(),
        Some("Multiple `=======` lines before `>>>>>>>`".to_string())
    );
    assert_eq!(
        test_me.consume_eof().err(),
        Some("Unexpected EOF inside a conflicts section".to_string())
    );
}

#[test]
fn diff3_conflict_has_three_sections() {
    let (last, out) = conflict(&[
        "<<<<<<< HEAD",
        "x",
        "||||||| base",
        "x",
        "=======",
        "x",
        ">>>>>>> branch",
    ]);
    assert_eq!(last, LineAcceptance::AcceptedDone);
    assert_eq!(out.len(), 1);
    assert!(out[0].starts_with("\x1b[7m<<<<<<< HEAD\n"));
    assert!(out[0].contains("\x1b[7m||||||| base\n"));
    assert!(out[0].ends_with("\x1b[7m>>>>>>> branch\n"));
}

#[test]
fn every_counted_line_lowers_the_total() {
    let mut test_me =
        HunkLinesHighlighter::from_line("@@@ -1,5 -1,5 +1,5 @@@", Formatter::yellow()).unwrap();
    let mut total: usize = test_me.remaining_line_counts().iter().sum();
    for prefix in ["  ", "- ", " -", "--", "+ ", " +", "++"] {
        test_me.decrease_remaining_line_counts(prefix).unwrap();
        let now: usize = test_me.remaining_line_counts().iter().sum();
        assert!(now < total, "Counting a {prefix:?} line should lower the total");
        total = now;
    }
}

#[test]
fn an_interrupted_conflict_is_drawn_whole() {
    let mut test_me = ConflictsHighlighter::from_line("++<<<<<<< HEAD").unwrap();
    test_me.consume_line(" +a").unwrap();
    test_me.consume_line("++=======").unwrap();
    test_me.consume_line("+ c").unwrap();
    let response = test_me.consume_line("xyz").unwrap();
    assert_eq!(response.line_accepted, LineAcceptance::RejectedDone);
    assert_eq!(
        response.highlighted[0].get(),
        "\x1b[32m++<<<<<<< HEAD\x1b[0m\n\x1b[32m +a\x1b[0m\n\x1b[32m++=======\x1b[0m\n\x1b[32m+ c\x1b[0m\n"
    );
}

fn strip(text: &str) -> String {
    String::from_utf8(riff::ansi::without_ansi_escape_codes(text.as_bytes())).unwrap()
}

#[test]
fn conflicts_stripped_of_color_read_as_collected() {
    let (_, two) = conflict(&["<<<<<<< HEAD", "a b", "=======", "a c", ">>>>>>> branch"]);
    assert_eq!(strip(&two[0]), "<<<<<<< HEAD\na b\n=======\na c\n>>>>>>> branch\n");

    let (_, three) = conflict(&[
        "<<<<<<< HEAD",
        "x 1",
        "||||||| base",
        "x 0",
        "=======",
        "x 2",
        ">>>>>>> branch",
    ]);
    assert_eq!(
        strip(&three[0]),
        "<<<<<<< HEAD\nx 1\n||||||| base\nx 0\n=======\nx 2\n>>>>>>> branch\n"
    );
}
