use riff::ansi::{ansi_style_normal, without_ansi_escape_codes, AnsiStyle, Color, Weight};
use riff::tokenizer::tokenize;

#[test]
fn test_empty() {
    let no_strings: Vec<String> = Vec::new();
    assert_eq!(tokenize(""), no_strings);
}

#[test]
fn test_words() {
    assert_eq!(tokenize("word"), ["word"]);
    assert_eq!(tokenize("Adam Bea"), ["Adam", " ", "Bea"]);
}

#[test]
fn test_numbers() {
    assert_eq!(tokenize("123"), ["123"]);
    assert_eq!(tokenize("123 456"), ["123", " ", "456"]);
}

#[test]
fn test_alphanumeric() {
    assert_eq!(tokenize("0xC0deCafe"), ["0xC0deCafe"]);
}

#[test]
fn test_others() {
    assert_eq!(tokenize("+!,"), ["+", "!", ","]);
}

#[test]
fn test_non_breaking_space() {
    assert_eq!(tokenize("\u{00a0}"), ["\u{00a0}"]);
    assert_eq!(tokenize("\u{00a0}s"), ["\u{00a0}", "s"]);
}

#[test]
fn test_leading_whitespace() {
    assert_eq!(tokenize("  word"), ["  ", "word"]);
    assert_eq!(tokenize("  \t  word"), ["  ", "\t", "  ", "word"]);
    assert_eq!(tokenize("\t\t\tword"), ["\t\t\t", "word"]);
}

#[test]
fn test_consecutive_newlines() {
    assert_eq!(tokenize("\n\n\n"), ["\n", "\n", "\n"]);
}

#[test]
fn tokens_join_back_into_the_text() {
    let text = "fn main() {\n    let x  = 1;\t// one\n}\n";
    assert_eq!(tokenize(text).concat(), text);
}

#[test]
fn test_non_sgr() {
    let line = b"hel\x1b[0Klo".to_vec();
    assert_eq!(without_ansi_escape_codes(&line), b"hello");
}

#[test]
fn test_sgr() {
    let line = b"hel\x1b[33mlo".to_vec();
    assert_eq!(without_ansi_escape_codes(&line), b"hello");
}

#[test]
fn test_multi_sgr() {
    let line = b"hel\x1b[33;34mlo".to_vec();
    assert_eq!(without_ansi_escape_codes(&line), b"hello");
}

#[test]
fn test_strip_hyperlink() {
    // OSC 8 hyperlink: \x1b]8;;https://example.com\x1b\\
    let line = b"foo\x1b]8;;https://example.com\x1b\\bar".to_vec();
    // Expect "foobar" after removing OSC 8 hyperlink
    assert_eq!(without_ansi_escape_codes(&line), b"foobar");

    // OSC 8 hyperlink removal: \x1b]8;;\x1b\\
    let line2 = b"foo\x1b]8;;\x1b\\bar".to_vec();
    assert_eq!(without_ansi_escape_codes(&line2), b"foobar");
}

#[test]
fn plain_text_is_not_stripped() {
    let line = b"plain [text] with ; and 1".to_vec();
    assert_eq!(without_ansi_escape_codes(&line), line);
}

#[test]
fn lone_escape_is_kept() {
    assert_eq!(without_ansi_escape_codes(b"a\x1bxb"), b"a\x1bxb");
}

#[test]
fn test_from_hyperlinked() {
    let url = url::Url::parse("https://example.com").unwrap().to_string();
    let hyperlink = AnsiStyle {
        color: Color::Default,
        weight: Weight::Normal,
        inverse: false,
        url: Some(url.clone()),
    };

    // Plain to hyperlink: should emit OSC 8 with URL. Note that the URL has
    // been normalized with a trailing slash, this is done by the URL
    // library.
    let seq1 = hyperlink.from(&ansi_style_normal());
    assert_eq!(seq1, "\x1b]8;;https://example.com/\x1b\\");

    // Hyperlink to plain: should emit OSC 8 with empty URL (removes link)
    let seq2 = ansi_style_normal().from(&hyperlink);
    assert_eq!(seq2, "\x1b]8;;\x1b\\");
}

#[test]
fn test_to_normal_from_all_attributes_hyperlink_and_non_hyperlink() {
    let url = url::Url::parse("https://example.com").unwrap().to_string();

    // Color
    let red = AnsiStyle {
        color: Color::Red,
        weight: Weight::Normal,
        inverse: false,
        url: None,
    };
    let red_link = AnsiStyle {
        color: Color::Red,
        weight: Weight::Normal,
        inverse: false,
        url: Some(url.clone()),
    };
    assert_eq!(ansi_style_normal().from(&red), "\x1b[0m");
    assert_eq!(ansi_style_normal().from(&red_link), "\x1b]8;;\x1b\\\x1b[0m");

    // Weight
    let bold = AnsiStyle {
        color: Color::Default,
        weight: Weight::Bold,
        inverse: false,
        url: None,
    };
    let bold_link = AnsiStyle {
        color: Color::Default,
        weight: Weight::Bold,
        inverse: false,
        url: Some(url.clone()),
    };
    assert_eq!(ansi_style_normal().from(&bold), "\x1b[0m");
    assert_eq!(ansi_style_normal().from(&bold_link), "\x1b]8;;\x1b\\\x1b[0m");

    // Inverse
    let inverse = AnsiStyle {
        color: Color::Default,
        weight: Weight::Normal,
        inverse: true,
        url: None,
    };
    let inverse_link = AnsiStyle {
        color: Color::Default,
        weight: Weight::Normal,
        inverse: true,
        url: Some(url),
    };
    assert_eq!(ansi_style_normal().from(&inverse), "\x1b[0m");
    assert_eq!(
        ansi_style_normal().from(&inverse_link),
        "\x1b]8;;\x1b\\\x1b[0m"
    );
}

#[test]
fn same_style_needs_no_escape_sequence() {
    let style = ansi_style_normal().with_color(Color::Green).with_weight(Weight::Bold);
    assert_eq!(style.from(&style), "");
}

#[test]
fn stripping_twice_is_stripping_once() {
    let inputs: [&[u8]; 4] = [
        b"\x1b\x1bA\x1b[31mB\x1b]8;;https://example.com\x1b\\C",
        b"plain",
        b"\x1bx\x1b\x1b[1;2m",
        b"\x1b",
    ];
    for input in inputs {
        let once = without_ansi_escape_codes(input);
        assert_eq!(without_ansi_escape_codes(&once), once);
    }
    assert_eq!(without_ansi_escape_codes(b"\x1bx\x1b\x1b[1;2m"), b"\x1bx\x1b\x1b[1;2m".to_vec());
}

#[test]
fn neighbouring_tokens_never_join() {
    let tokens = tokenize("ab  \t\tc_d,,\n\n  x");
    assert_eq!(tokens, ["ab", "  ", "\t\t", "c_d", ",", ",", "\n", "\n", "  ", "x"]);
}

#[test]
fn stripping_only_drops_bytes() {
    let input = b"a\x1b[1mb\x1b]8;;u\x1b\\c";
    let stripped = without_ansi_escape_codes(input);
    assert_eq!(stripped, b"abc".to_vec());
    assert!(stripped.len() <= input.len());
}
