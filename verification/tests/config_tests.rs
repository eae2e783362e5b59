use minigrep::run_search;
use minigrep::Config;

fn args(items: &[&str]) -> Vec<String> {
    items.iter().map(|s| s.to_string()).collect()
}

#[test]
fn no_arguments_is_an_error() {
    assert_eq!(Err("Not enough arguments"), Config::new(args(&[]), None).map(|_| ()));
}

#[test]
fn missing_both_positional_arguments_is_an_error() {
    assert_eq!(
        Err("Not enough arguments"),
        Config::new(args(&["prog"]), None).map(|_| ())
    );
}

#[test]
fn missing_filename_is_an_error() {
    assert_eq!(
        Err("Not enough arguments"),
        Config::new(args(&["prog", "needle"]), None).map(|_| ())
    );
}

#[test]
fn two_positional_arguments_are_captured() {
    let config = Config::new(args(&["prog", "needle", "hay.txt"]), None).unwrap();
    assert_eq!("needle", config.pattern);
    assert_eq!("hay.txt", config.filename);
    assert!(config.case_sensitive);
}

#[test]
fn extra_positional_arguments_are_ignored() {
    let config = Config::new(args(&["prog", "needle", "hay.txt", "extra", "more"]), None).unwrap();
    assert_eq!("needle", config.pattern);
    assert_eq!("hay.txt", config.filename);
}

#[test]
fn env_variable_set_turns_case_sensitivity_off() {
    let config =
        Config::new(args(&["prog", "needle", "hay.txt"]), Some("1".to_string())).unwrap();
    assert!(!config.case_sensitive);
}

#[test]
fn env_variable_set_to_empty_also_turns_case_sensitivity_off() {
    let config = Config::new(args(&["prog", "needle", "hay.txt"]), Some("".to_string())).unwrap();
    assert!(!config.case_sensitive);
}

#[test]
fn env_variable_unset_keeps_case_sensitivity_on() {
    let config = Config::new(args(&["prog", "needle", "hay.txt"]), None).unwrap();
    assert!(config.case_sensitive);
}

#[test]
fn run_search_selects_the_case_sensitive_variant() {
    let config = Config::new(args(&["prog", "rUsT", "hay.txt"]), None).unwrap();
    let contents = "Rust:\nTrust me.";
    assert_eq!(Vec::<&str>::new(), run_search(&config, contents));
}

#[test]
fn run_search_selects_the_case_insensitive_variant() {
    let config =
        Config::new(args(&["prog", "rUsT", "hay.txt"]), Some("1".to_string())).unwrap();
    let contents = "Rust:\nTrust me.";
    assert_eq!(vec!["Rust:", "Trust me."], run_search(&config, contents));
}
