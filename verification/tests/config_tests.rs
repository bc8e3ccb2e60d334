use minigrep::config::Config;
use minigrep::config::SearchError;

fn args_of(words: &[&str]) -> Vec<String> {
    words.iter().map(|w| w.to_string()).collect()
}

#[test]
fn build_takes_query_and_path() {
    let args = args_of(&["prog", "duct", "poem.txt"]);
    let config = Config::build(&args, false).unwrap();
    assert_eq!("duct", config.query);
    assert_eq!("poem.txt", config.file_path);
    assert!(!config.ignore_case);
}

#[test]
fn build_keeps_the_case_toggle() {
    let args = args_of(&["prog", "duct", "poem.txt"]);
    let config = Config::build(&args, true).unwrap();
    assert!(config.ignore_case);
}

#[test]
fn build_ignores_extra_arguments() {
    let args = args_of(&["prog", "duct", "poem.txt", "extra"]);
    let config = Config::build(&args, false).unwrap();
    assert_eq!("duct", config.query);
    assert_eq!("poem.txt", config.file_path);
}

#[test]
fn build_rejects_too_few_arguments() {
    let args = args_of(&["prog", "duct"]);
    assert_eq!(SearchError::ArgumentError, Config::build(&args, false).unwrap_err());
    assert_eq!(SearchError::ArgumentError, Config::build(&[], true).unwrap_err());
}

#[test]
fn error_messages_name_the_failure() {
    assert_eq!("Not enough arguments", SearchError::ArgumentError.message());
    assert_eq!("Could not read the path", SearchError::IOError.message());
    assert_eq!(
        "File contents are not valid text",
        SearchError::DecodeError.message()
    );
}
