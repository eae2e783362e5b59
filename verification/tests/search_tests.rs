use minigrep::search;
use minigrep::search_case_insensitive;

#[test]
fn case_sensitive() {
    let pattern = "duct";
    let content = "\
Rust:
safe, fast, productive.
Pick three.";

    assert_eq!(vec!["safe, fast, productive."], search(pattern, content));
}

#[test]
fn test_case_insensitive_search() {
    let query = "rUsT";
    let contents = "\
Rust:
safe, fast, productive.
Pick three.
Trust me.";

    assert_eq!(vec!["Rust:", "Trust me."], search_case_insensitive(query, contents));
}

#[test]
fn case_sensitive_no_match() {
    assert_eq!(
        Vec::<&str>::new(),
        search("Duct", "safe, fast, productive.\nPick three.")
    );
}

#[test]
fn empty_pattern_returns_every_line_case_sensitive() {
    let contents = "Rust:\nsafe, fast, productive.\nPick three.";
    assert_eq!(
        vec!["Rust:", "safe, fast, productive.", "Pick three."],
        search("", contents)
    );
}

#[test]
fn empty_pattern_returns_every_line_case_insensitive() {
    let contents = "Rust:\nsafe, fast, productive.\nPick three.";
    assert_eq!(
        vec!["Rust:", "safe, fast, productive.", "Pick three."],
        search_case_insensitive("", contents)
    );
}

#[test]
fn empty_pattern_matches_empty_lines() {
    assert_eq!(vec!["a", "", "b"], search("", "a\n\nb"));
}

#[test]
fn search_is_idempotent() {
    let pattern = "st";
    let contents = "Rust:\nsafe, fast, productive.\nPick three.\nTrust me.";
    assert_eq!(search(pattern, contents), search(pattern, contents));
    assert_eq!(
        search_case_insensitive(pattern, contents),
        search_case_insensitive(pattern, contents)
    );
}

#[test]
fn insensitive_lowercases_the_pattern() {
    // An uppercase pattern only matches after it has really been lowercased.
    assert_eq!(
        vec!["rust is great"],
        search_case_insensitive("RUST", "rust is great\nnothing here")
    );
}

#[test]
fn insensitive_lowercases_the_line() {
    // An uppercase line only matches after it has really been lowercased,
    // and it comes back in its original casing.
    assert_eq!(
        vec!["RUST IS GREAT"],
        search_case_insensitive("rust", "RUST IS GREAT\nnothing here")
    );
}

#[test]
fn contains_substr_matches_literal_substrings() {
    assert!(minigrep::contains_substr("productive", "duct"));
    assert!(!minigrep::contains_substr("productive", "Duct"));
    assert!(minigrep::contains_substr("anything", ""));
    assert!(minigrep::contains_substr("", ""));
    assert!(!minigrep::contains_substr("", "a"));
    assert!(minigrep::contains_substr("caf\u{e9} au lait", "f\u{e9} a"));
}

#[test]
fn matches_can_repeat_and_keep_file_order() {
    let contents = "one match\nnothing\none more match\nmatch\nno";
    assert_eq!(
        vec!["one match", "one more match", "match"],
        search("match", contents)
    );
}
