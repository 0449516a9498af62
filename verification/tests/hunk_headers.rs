use riff::hunk_header::HunkHeader;
use riff::hunk_header_parser::HunkHeader as CountsHeader;

#[test]
fn hunk_header_test_non_hunk_header() {
    assert_eq!(None, HunkHeader::parse("This is not a hunk header"));
    assert_eq!(None, HunkHeader::parse(""));
}

#[test]
fn hunk_header_test_simple_hunk_header() {
    assert_eq!(
        Some(HunkHeader {
            ats: "@@".to_string(),
            starts: vec![1, 1],
            linecounts: vec![2, 2],
            title: None,
        }),
        HunkHeader::parse("@@ -1,2 +1,2 @@")
    );
}

#[test]
fn hunk_header_test_hunk_header_with_title() {
    assert_eq!(
        Some(HunkHeader {
            ats: "@@".to_string(),
            starts: vec![1, 1],
            linecounts: vec![2, 2],
            title: Some("Hello there".to_string()),
        }),
        HunkHeader::parse("@@ -1,2 +1,2 @@ Hello there")
    );
}

#[test]
fn hunk_header_test_hunk_header_with_spaced_title() {
    assert_eq!(
        Some(HunkHeader {
            ats: "@@".to_string(),
            starts: vec![1, 1],
            linecounts: vec![2, 2],
            title: Some("Hello  there".to_string()),
        }),
        HunkHeader::parse("@@ -1,2 +1,2 @@ Hello  there")
    );
}

#[test]
fn test_hunk_header_with_default_linecounts() {
    assert_eq!(
        Some(HunkHeader {
            ats: "@@".to_string(),
            starts: vec![5, 6],
            linecounts: vec![1, 1],
            title: None,
        }),
        HunkHeader::parse("@@ -5 +6 @@")
    );
}

#[test]
fn test_hunk_header_with_multiple_olds() {
    assert_eq!(
        Some(HunkHeader {
            ats: "@@@".to_string(),
            starts: vec![1, 3, 5],
            linecounts: vec![2, 4, 6],
            title: None,
        }),
        HunkHeader::parse("@@@ -1,2 -3,4 +5,6 @@@")
    );
}

#[test]
fn hunk_header_parser_test_non_hunk_header() {
    assert_eq!(None, CountsHeader::parse("This is not a hunk header"));
    assert_eq!(None, CountsHeader::parse(""));
}

#[test]
fn hunk_header_parser_test_simple_hunk_header() {
    assert_eq!(
        Some(CountsHeader {
            old_line_count: 2,
            new_line_count: 2,
            title: None,
        }),
        CountsHeader::parse("@@ -1,2 +1,2 @@")
    );
}

#[test]
fn hunk_header_parser_test_hunk_header_with_title() {
    assert_eq!(
        Some(CountsHeader {
            old_line_count: 2,
            new_line_count: 2,
            title: Some("Hello there".to_string()),
        }),
        CountsHeader::parse("@@ -1,2 +1,2 @@ Hello there")
    );
}

#[test]
fn hunk_header_parser_test_hunk_header_with_spaced_title() {
    assert_eq!(
        Some(CountsHeader {
            old_line_count: 2,
            new_line_count: 2,
            title: Some("Hello  there".to_string()),
        }),
        CountsHeader::parse("@@ -1,2 +1,2 @@ Hello  there")
    );
}

#[test]
fn hunk_header_renders_in_cyan() {
    let header = HunkHeader::parse("@@ -1,2 +1,2 @@ Hello there").unwrap();
    assert_eq!(
        header.render(),
        "\x1b[36m@@ -1,2 +1,2 @@ \x1b[1mHello there\x1b[0m"
    );
}

#[test]
fn a_range_that_counts_below_zero_is_no_header() {
    assert_eq!(
        riff::hunk_header_parser::HunkHeader::parse("@@ -5,3 +5,3 @@"),
        None
    );
}

#[test]
fn rendered_hunk_headers_parse_back_without_their_colors() {
    for line in ["@@ -1,2 +1,2 @@", "@@@ -5,7 -6,7 +1,1 @@@ fn main() {", "@@ -1 +1 @@"] {
        let header = HunkHeader::parse(line).unwrap();
        let rendered = header.render();
        assert!(!rendered.ends_with('\n'));
        let plain =
            String::from_utf8(riff::ansi::without_ansi_escape_codes(rendered.as_bytes())).unwrap();
        assert_eq!(HunkHeader::parse(&plain), Some(header));
    }
}
