use minigrep::matcher::search;
use minigrep::matcher::search_case_insensitive;
use minigrep::matcher::split_lines;

#[test]
fn one_result() {
    let query = "duct";
    let contents = "\
Rust:
safe, fast, productive.
Pick three.";

    assert_eq!(vec!["safe, fast, productive."], search(query, contents));
}

#[test]
fn case_insensitive() {
    let query = "rUsT";
    let contents = "\
Rust:
safe, fast, productive.
Pick three.
Trust me.";

    assert_eq!(
        vec!["Rust:", "Trust me."],
        search_case_insensitive(query, contents)
    );
}

#[test]
fn empty_query_matches_every_line() {
    assert_eq!(vec!["one", "two", "three"], search("", "one\ntwo\nthree"));
}

#[test]
fn empty_text_yields_nothing() {
    assert!(search("anything", "").is_empty());
}

#[test]
fn query_longer_than_any_line_yields_nothing() {
    assert!(search("abcdef", "ab\ncd\nef").is_empty());
}

#[test]
fn duplicate_lines_are_kept_in_order() {
    assert_eq!(
        vec!["ax", "ax", "xb"],
        search("x", "ax\nskip\nax\nxb")
    );
}

#[test]
fn lines_keep_leading_and_trailing_whitespace() {
    assert_eq!(vec!["  spaced  "], search("spaced", "  spaced  \nother"));
}

#[test]
fn crlf_line_endings_are_handled() {
    assert_eq!(
        vec!["alpha", "beta", "gamma"],
        split_lines("alpha\r\nbeta\r\ngamma")
    );
    assert_eq!(vec!["beta"], search("beta", "alpha\r\nbeta\r\ngamma"));
}

#[test]
fn trailing_newline_opens_no_extra_line() {
    assert_eq!(vec!["a", "b"], search("", "a\nb\n"));
}

#[test]
fn split_lines_splits_on_newlines() {
    assert_eq!(vec!["Rust:", "safe", ""], split_lines("Rust:\nsafe\n\n"));
}

#[test]
fn split_lines_of_empty_text_is_empty() {
    assert!(split_lines("").is_empty());
}

#[test]
fn split_lines_keeps_a_carriage_return_without_newline() {
    assert_eq!(vec!["a", "b\r"], split_lines("a\nb\r"));
}

#[test]
fn case_insensitive_lowercases_both_sides() {
    assert_eq!(vec!["ABBA"], search_case_insensitive("bb", "ABBA\nno"));
}

#[test]
fn case_insensitive_finds_at_least_the_exact_matches() {
    let query = "Rust";
    let contents = "Rust:\ntrust\nTRUST no one\nnothing";
    let exact = search(query, contents);
    let relaxed = search_case_insensitive(query, contents);
    assert!(exact.len() <= relaxed.len());
    assert_eq!(vec!["Rust:"], exact);
    assert_eq!(vec!["Rust:", "trust", "TRUST no one"], relaxed);
}

#[test]
fn matcher_is_deterministic_on_identical_inputs() {
    let query = "duct";
    let contents = "Rust:\nsafe, fast, productive.\nPick three.";
    assert_eq!(search(query, contents), search(query, contents));
    assert_eq!(
        search_case_insensitive(query, contents),
        search_case_insensitive(query, contents)
    );
}
