use minigrep::highlight::highlight_line;
use minigrep::highlight::highlight_line_with;

#[test]
fn highlight_wraps_one_occurrence() {
    assert_eq!(
        "safe, fast, pro\u{1b}[38;5;196mduct\u{1b}[0mive.",
        highlight_line("safe, fast, productive.", "duct")
    );
}

#[test]
fn highlight_wraps_every_occurrence() {
    assert_eq!(
        "a\u{1b}[38;5;196mX\u{1b}[0mb\u{1b}[38;5;196mX\u{1b}[0mc",
        highlight_line("aXbXc", "X")
    );
}

#[test]
fn highlight_without_occurrence_keeps_the_line() {
    assert_eq!("Pick three.", highlight_line("Pick three.", "duct"));
}

#[test]
fn highlight_with_empty_query_keeps_the_line() {
    assert_eq!("Pick three.", highlight_line("Pick three.", ""));
}

#[test]
fn highlight_takes_custom_markers() {
    assert_eq!("a<bc>a<bc>a", highlight_line_with("abcabca", "bc", "<", ">"));
}

#[test]
fn highlight_occurrences_do_not_overlap() {
    assert_eq!("<aa>a", highlight_line_with("aaa", "aa", "<", ">"));
}

#[test]
fn highlight_uses_the_literal_query_casing() {
    // Matching may be case-insensitive, but presentation wraps only exact
    // occurrences of the query as written.
    assert_eq!("Rust:", highlight_line("Rust:", "rust"));
    assert_eq!("t\u{1b}[38;5;196mrust\u{1b}[0m me", highlight_line("trust me", "rust"));
}
