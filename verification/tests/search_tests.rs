use minigrep::config::Config;
use minigrep::lines::split_lines;
use minigrep::search::search;

fn config(query: &str, case_insensitive: bool) -> Config {
    Config {
        query: String::from(query),
        source: String::from("unused"),
        case_insensitive,
    }
}

#[test]
fn search_finds_one_line() {
    let content = "Rust:\nsafe, fast, productive.\nPick three.";
    let result = search(&config("duct", false), content);
    assert_eq!(result, vec!["safe, fast, productive."]);
}

#[test]
fn search_case_insensitive_folds_both_sides() {
    let content = "Rust:\nTrust me.";
    let result = search(&config("rUsT", true), content);
    assert_eq!(result, vec!["Rust:", "Trust me."]);
}

#[test]
fn search_case_sensitive_rejects_other_case() {
    let content = "Rust:\nTrust me.";
    let result = search(&config("rUsT", false), content);
    assert_eq!(result, Vec::<&str>::new());
}

#[test]
fn search_no_match_is_empty() {
    let content = "abc\ndef";
    assert_eq!(search(&config("xyz", false), content), Vec::<&str>::new());
    assert_eq!(search(&config("xyz", true), content), Vec::<&str>::new());
}

#[test]
fn search_empty_query_matches_every_line() {
    let content = "a\nb\nc";
    assert_eq!(search(&config("", false), content), vec!["a", "b", "c"]);
    assert_eq!(search(&config("", true), content), vec!["a", "b", "c"]);
}

#[test]
fn search_insensitive_emits_original_text() {
    let content = "WHOLE LINE\nwhole line";
    let result = search(&config("Whole", true), content);
    // The original, un-folded text comes out, for every matching line.
    assert_eq!(result, vec!["WHOLE LINE", "whole line"]);
}

#[test]
fn search_keeps_duplicate_lines() {
    let content = "dup\nother\ndup";
    let result = search(&config("dup", false), content);
    assert_eq!(result, vec!["dup", "dup"]);
}

#[test]
fn search_preserves_source_order() {
    let content = "one match\nnothing\ntwo match\nthree match";
    let result = search(&config("match", false), content);
    assert_eq!(result, vec!["one match", "two match", "three match"]);
}

#[test]
fn search_empty_content_has_no_lines() {
    assert_eq!(search(&config("", false), ""), Vec::<&str>::new());
    assert_eq!(search(&config("q", true), ""), Vec::<&str>::new());
}

#[test]
fn split_lines_trailing_newline_ends_last_line() {
    assert_eq!(split_lines("a\nb\n"), vec!["a", "b"]);
}

#[test]
fn split_lines_unterminated_tail_is_a_line() {
    assert_eq!(split_lines("a\nb"), vec!["a", "b"]);
}

#[test]
fn split_lines_no_newline_is_one_line() {
    assert_eq!(split_lines("just one line"), vec!["just one line"]);
}

#[test]
fn split_lines_empty_content_has_none() {
    assert_eq!(split_lines(""), Vec::<&str>::new());
}

#[test]
fn split_lines_keeps_empty_middle_lines() {
    assert_eq!(split_lines("a\n\nb"), vec!["a", "", "b"]);
}

#[test]
fn search_query_spanning_lines_never_matches() {
    // Containment is tested per line: a query holding a newline finds nothing.
    let content = "ab\ncd";
    assert_eq!(search(&config("b\nc", false), content), Vec::<&str>::new());
}
