use riff::commit_line::{compute_current_branch, format_commit_line};
use riff::constants::{BLUE_TO_END_OF_LINE, BOLD, GREEN, NORMAL, RED, YELLOW};

fn parts(text: &str) -> Vec<&str> {
    text.split(", ").collect::<Vec<&str>>()
}

#[test]
fn test_compute_current_branch() {
    // git show 686f3d7aefe9597395020ff0219eebc90e363d47
    assert_eq!(None, compute_current_branch(&parts("tag: 2.15")));

    assert_eq!(
        Some(String::from("master")),
        compute_current_branch(&parts(
            "HEAD -> master, tag: 2.20.0, origin/master, origin/HEAD"
        ))
    );

    assert_eq!(
        Some(String::from("master")),
        compute_current_branch(&parts("tag: 2.20.0, origin/master, origin/HEAD, master"))
    );

    assert_eq!(
        Some(String::from("walles/threaded")),
        compute_current_branch(&parts("origin/walles/threaded, walles/threaded"))
    );

    assert_eq!(
        Some(String::from("xeago-master")),
        compute_current_branch(&parts("xeago/master, xeago-master"))
    );
}

const NORMAL_INTENSITY: &str = "\x1b[22m";

#[test]
// Verify that the blue background goes all the way from the start of the
// string to its end
fn test_format_commit_line_tags_branches() {
    assert_eq!(
        "".to_owned()
            + YELLOW
            + BLUE_TO_END_OF_LINE
            + "commit 62da46c7b300321119d399bdc69bfb2d56d5da57 ("
            + BOLD
            + "tag: 2.21.0"
            + NORMAL_INTENSITY
            + ", "
            + BOLD
            + RED
            + "origin/master"
            + NORMAL_INTENSITY
            + YELLOW
            + ", "
            + BOLD
            + RED
            + "origin/HEAD"
            + NORMAL_INTENSITY
            + YELLOW
            + ", "
            + BOLD
            + GREEN
            + "master"
            + NORMAL_INTENSITY
            + YELLOW
            + ")"
            + NORMAL,
        // This commit is from the master branch
        format_commit_line(
            "commit 62da46c7b300321119d399bdc69bfb2d56d5da57 (tag: 2.21.0, origin/master, origin/HEAD, master)"
        )
    );
}

#[test]
fn commit_line_without_refs_is_yellow() {
    assert_eq!(
        format_commit_line("commit 1234"),
        "".to_owned() + YELLOW + BLUE_TO_END_OF_LINE + "commit 1234" + NORMAL
    );
}

fn shown(text: &str) -> String {
    String::from_utf8(riff::ansi::without_ansi_escape_codes(text.as_bytes())).unwrap()
}

#[test]
fn commit_lines_stripped_of_color_read_as_the_line() {
    for line in [
        "commit 1234",
        "commit 62da46c7 (tag: 2.21.0, origin/master, origin/HEAD, master)",
        "commit 686f3d7a (HEAD -> master, tag: 2.20.0, origin/master, origin/HEAD)",
        "commit abcdef (unfinished",
    ] {
        assert_eq!(shown(&format_commit_line(line)), line);
        assert_eq!(shown(&riff::commit_lines::format_commit_line(line)), line);
    }
}
