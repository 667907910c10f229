use minigrep::highlight::{RED, RESET};
use minigrep::highlight_matches;
use minigrep::strip::remove_markers;

#[test]
fn markers_are_the_escape_sequences() {
    assert_eq!([0x1b, b'[', b'3', b'1', b'm'], RED.as_bytes());
    assert_eq!([0x1b, b'[', b'0', b'm'], RESET.as_bytes());
    assert_eq!(
        format!("{RED}x{RESET}"),
        highlight_matches("x", "x", "x")
    );
}

#[test]
fn highlight_wraps_the_whole_match() {
    assert_eq!(
        "\x1b[31mTrust\x1b[0m me.",
        highlight_matches("Trust me.", "trust me.", "trust")
    );
}

#[test]
fn highlight_wraps_each_occurrence() {
    assert_eq!(
        "\x1b[31mabX\x1b[0m\x1b[31mabX\x1b[0m",
        highlight_matches("abXabX", "abXabX", "abX")
    );
}

#[test]
fn highlight_copies_what_stands_between() {
    assert_eq!(
        "safe, fa\x1b[31mst\x1b[0m, productive; la\x1b[31mst\x1b[0m.",
        highlight_matches(
            "safe, fast, productive; last.",
            "safe, fast, productive; last.",
            "st"
        )
    );
}

#[test]
fn highlight_without_occurrence_is_unchanged() {
    assert_eq!(
        "Pick three.",
        highlight_matches("Pick three.", "Pick three.", "duct")
    );
    assert_eq!("Rust", highlight_matches("Rust", "Rust", "rust"));
    assert_eq!("ab", highlight_matches("ab", "ab", "abc"));
    assert_eq!("", highlight_matches("", "", "a"));
}

#[test]
fn highlight_with_empty_query_is_unchanged() {
    assert_eq!("Trust me.", highlight_matches("Trust me.", "Trust me.", ""));
    assert_eq!("Trust me.", highlight_matches("Trust me.", "trust me.", ""));
    assert_eq!("", highlight_matches("", "", ""));
}

#[test]
fn highlight_does_not_overlap() {
    assert_eq!(
        "\x1b[31maa\x1b[0m\x1b[31maa\x1b[0ma",
        highlight_matches("aaaaa", "aaaaa", "aa")
    );
    assert_eq!(
        "\x1b[31maba\x1b[0mb\x1b[31maba\x1b[0m",
        highlight_matches("abababa", "abababa", "aba")
    );
}

#[test]
fn highlight_of_the_whole_line() {
    assert_eq!("\x1b[31mRust\x1b[0m", highlight_matches("Rust", "rust", "rust"));
}

#[test]
fn highlight_counts_characters() {
    assert_eq!(
        "Ein \x1b[31mBÄR\x1b[0m und ein \x1b[31mBär\x1b[0m.",
        highlight_matches("Ein BÄR und ein Bär.", "ein bär und ein bär.", "bär")
    );
    assert_eq!(
        "große \x1b[31mSTRAẞE\x1b[0m",
        highlight_matches("große STRAẞE", "große straße", "straße")
    );
}

#[test]
fn highlight_shows_nothing_behind_the_end_of_the_line() {
    assert_eq!(
        "ab\x1b[31mc\x1b[0m",
        highlight_matches("abc", "abcdefg", "cd")
    );
    assert_eq!(
        "abc\x1b[31m\x1b[0m",
        highlight_matches("abc", "abcdefg", "fg")
    );
    assert_eq!(
        "\x1b[31mab\x1b[0mcdefg",
        highlight_matches("abcdefg", "ab", "ab")
    );
}

#[test]
fn highlight_follows_positions_when_folding_changes_the_length() {
    // The dotted capital I folds to two characters, so every later position
    // of the folded line lies one further to the right.
    assert_eq!(
        "İst\x1b[31manb\x1b[0mul",
        highlight_matches("İstanbul", "i\u{307}stanbul", "tan")
    );
    assert_eq!(
        "İstanbu\x1b[31ml\x1b[0m",
        highlight_matches("İstanbul", "i\u{307}stanbul", "ul")
    );
}

#[test]
fn stripping_a_highlighted_line_gives_the_line() {
    let cases = [
        ("Trust me.", "Trust"),
        ("abXabX", "abX"),
        ("aaaaa", "aa"),
        ("safe, fast, productive.", "duct"),
        ("Pick three.", "zzz"),
        ("Pick three.", ""),
        ("", "a"),
        ("[31m is no marker", "31"),
        ("\x1b alone", "alone"),
    ];
    for (line, query) in cases {
        let shown = highlight_matches(line, line, query);
        assert_eq!(line, remove_markers(&shown));
    }
}

#[test]
fn stripping_gives_the_line_when_its_own_marker_is_cut() {
    let line = "\x1b[31m";
    let shown = highlight_matches(line, line, "1m");
    assert_eq!("\x1b[3\x1b[31m1m\x1b[0m", shown);
    assert_eq!(line, remove_markers(&shown));
}

#[test]
fn stripping_takes_out_a_marker_of_the_line_that_is_not_cut() {
    let line = "a\x1b[0mb";
    let shown = highlight_matches(line, line, "b");
    assert_eq!("a\x1b[0m\x1b[31mb\x1b[0m", shown);
    assert_eq!("ab", remove_markers(&shown));
}

#[test]
fn remove_markers_reads_from_left_to_right() {
    assert_eq!("", remove_markers(""));
    assert_eq!("plain", remove_markers("plain"));
    assert_eq!("ab", remove_markers("\x1b[31ma\x1b[0mb"));
    assert_eq!("", remove_markers("\x1b[31m\x1b[0m\x1b[0m"));
    assert_eq!("\x1b[31", remove_markers("\x1b[31"));
    assert_eq!("\x1b[\x1b[3", remove_markers("\x1b[\x1b[31m\x1b[3"));
    assert_eq!("\x1b[32mgrün", remove_markers("\x1b[32mgrün\x1b[0m"));
}
