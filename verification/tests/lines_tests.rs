use minigrep::split_lines;

#[test]
fn splits_on_newlines() {
    assert_eq!(vec!["a", "b", "c"], split_lines("a\nb\nc"));
}

#[test]
fn trailing_newline_adds_no_final_line() {
    assert_eq!(vec!["a", "b"], split_lines("a\nb\n"));
}

#[test]
fn carriage_return_belongs_to_the_terminator() {
    assert_eq!(vec!["a", "b"], split_lines("a\r\nb"));
}

#[test]
fn lone_carriage_return_stays_in_the_line() {
    assert_eq!(vec!["a\rb"], split_lines("a\rb"));
}

#[test]
fn final_carriage_return_without_newline_stays() {
    assert_eq!(vec!["a\r"], split_lines("a\r"));
}

#[test]
fn empty_contents_have_no_lines() {
    assert_eq!(Vec::<&str>::new(), split_lines(""));
}

#[test]
fn newline_alone_is_one_empty_line() {
    assert_eq!(vec![""], split_lines("\n"));
}

#[test]
fn split_agrees_with_std_lines() {
    let contents = "Rust:\r\nsafe, fast, productive.\n\nPick three.\r\n";
    let expected: Vec<&str> = contents.lines().collect();
    assert_eq!(expected, split_lines(contents));
}
