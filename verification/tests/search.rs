use journal::search::{format_matches, split_lines};

#[test]
fn split_lines_follows_line_semantics() {
    assert_eq!(split_lines(""), Vec::<String>::new());
    assert_eq!(split_lines("a"), vec!["a"]);
    assert_eq!(split_lines("a\n"), vec!["a"]);
    assert_eq!(split_lines("a\r\nb"), vec!["a", "b"]);
    assert_eq!(split_lines("a\n\nb"), vec!["a", "", "b"]);
    assert_eq!(split_lines("a\r"), vec!["a\r"]);
    assert_eq!(split_lines("\n"), vec![""]);
}

#[test]
fn format_matches_numbers_matching_lines() {
    let lines = split_lines("one\ntwo\nthree");
    let matched = vec![true, false, true];
    let rows = format_matches(&lines, &matched);
    assert_eq!(rows, vec!["1: one", "3: three"]);
}

#[test]
fn format_matches_handles_multi_digit_numbers() {
    let lines: Vec<String> = (0..12).map(|i| format!("line{}", i)).collect();
    let matched: Vec<bool> = (0..12).map(|i| i == 11).collect();
    let rows = format_matches(&lines, &matched);
    assert_eq!(rows, vec!["12: line11"]);
}

#[test]
fn format_matches_with_nothing_matched_is_empty() {
    let lines = split_lines("one\ntwo");
    let matched = vec![false, false];
    assert_eq!(format_matches(&lines, &matched), Vec::<String>::new());
}
