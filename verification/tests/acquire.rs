use minigrep::acquire::split_trimmed_lines;

#[test]
fn splits_on_line_endings_and_trims() {
    let text = "  the cat sat  \ndog\n\n  at";
    let lines = split_trimmed_lines(text);
    assert_eq!(lines, vec!["the cat sat", "dog", "", "at"]);
}

#[test]
fn final_line_ending_is_optional() {
    assert_eq!(split_trimmed_lines("a\n"), vec!["a"]);
    assert_eq!(split_trimmed_lines("a"), vec!["a"]);
}

#[test]
fn empty_text_has_no_lines() {
    assert_eq!(split_trimmed_lines("").len(), 0);
}

#[test]
fn acquisition_is_repeatable() {
    let text = "  padded \n\tmore\ncat";
    let first = split_trimmed_lines(text);
    let second = split_trimmed_lines(text);
    assert_eq!(first, second);
}

#[test]
fn crlf_endings_are_trimmed() {
    let lines = split_trimmed_lines("cat\r\ndog\r\n");
    assert_eq!(lines, vec!["cat", "dog"]);
}
