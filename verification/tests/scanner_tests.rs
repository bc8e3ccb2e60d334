use minigrep::matcher::search;
use minigrep::matcher::search_case_insensitive;
use minigrep::scanner::scan_texts;
use minigrep::scanner::search_in_text;

#[test]
fn scan_concatenates_per_file_results_in_order() {
    let query = "net";
    let first = "planet\nnothing";
    let second = "magnet\nnet gain\nmiss";
    let texts = vec![first.to_string(), second.to_string()];

    let mut expected = search(query, first);
    expected.extend(search(query, second));

    assert_eq!(expected, scan_texts(query, &texts, false));
    assert_eq!(vec!["planet", "magnet", "net gain"], scan_texts(query, &texts, false));
}

#[test]
fn scan_of_no_texts_finds_zero_results() {
    let texts: Vec<String> = Vec::new();
    assert!(scan_texts("anything", &texts, false).is_empty());
    assert!(scan_texts("anything", &texts, true).is_empty());
}

#[test]
fn scan_respects_the_case_policy() {
    let query = "rUsT";
    let texts = vec!["Rust:\nplain".to_string(), "Trust me.\nnope".to_string()];
    assert!(scan_texts(query, &texts, false).is_empty());
    assert_eq!(vec!["Rust:", "Trust me."], scan_texts(query, &texts, true));
}

#[test]
fn search_in_text_dispatches_on_the_case_policy() {
    let contents = "Rust:\nsafe, fast, productive.\nPick three.";
    assert_eq!(search("duct", contents), search_in_text("duct", contents, false));
    assert_eq!(
        search_case_insensitive("rUsT", contents),
        search_in_text("rUsT", contents, true)
    );
    assert!(search_in_text("rUsT", contents, false).is_empty());
}
