use minigrep::render_output;
use minigrep::search;
use minigrep::search_case_insensitive;
use minigrep::text::contains_substring;

#[test]
fn case_sensitive_search() {
    let query = "duct";
    let text = "\
Rust:
safe, fast, productive
Pick three.
Duct tape.
";
    assert_eq!(vec!["safe, fast, productive"], search(query, text));
}

#[test]
fn case_insensitive_search() {
    let query = "RuSt";
    let text = "\
Rust:
safe, fast, productive
Pick three
Trust me.
";
    assert_eq!(vec!["Rust:", "Trust me."], search_case_insensitive(query, text));
}

#[test]
fn empty_query_matches_every_line() {
    let text = "alpha\nbeta\ngamma\n";
    assert_eq!(vec!["alpha", "beta", "gamma"], search("", text));
    assert_eq!(vec!["alpha", "beta", "gamma"], search_case_insensitive("", text));
}

#[test]
fn no_match_gives_empty_result() {
    let text = "alpha\nbeta\ngamma\n";
    assert!(search("delta", text).is_empty());
    assert!(search_case_insensitive("DELTA", text).is_empty());
}

#[test]
fn sensitive_search_is_exact() {
    let text = "Duct tape\nduct tape\nDUCT TAPE\n";
    assert_eq!(vec!["duct tape"], search("duct", text));
}

#[test]
fn order_of_matches_follows_the_file() {
    let text = "one match\nnothing here\ntwo match\nstill nothing\nthree match";
    assert_eq!(vec!["one match", "two match", "three match"], search("match", text));
    assert_eq!(
        vec!["one match", "two match", "three match"],
        search_case_insensitive("MATCH", text)
    );
}

#[test]
fn insensitive_search_returns_unfolded_lines() {
    // Lowercasing '\u{130}' (Latin capital I with dot above) yields two
    // characters, so folding changes the line's length; the returned line
    // must still be the original text.
    let text = "\u{130}stanbul\nankara\n";
    assert_eq!(vec!["\u{130}stanbul"], search_case_insensitive("\u{130}STANBUL", text));
    assert_eq!(vec!["\u{130}stanbul"], search_case_insensitive("i\u{307}stanbul", text));
}

#[test]
fn windows_line_breaks_leave_no_carriage_return() {
    let text = "one\r\ntwo\r\nthree\r\n";
    assert_eq!(vec!["one", "two", "three"], search("", text));
    assert_eq!(vec!["two"], search("two", text));
}

#[test]
fn carriage_return_without_newline_is_content() {
    let text = "one\r";
    assert_eq!(vec!["one\r"], search("", text));
}

#[test]
fn final_newline_opens_no_empty_line() {
    assert_eq!(vec!["a", "b"], search("", "a\nb\n"));
    assert_eq!(vec!["a", "", "b"], search("", "a\n\nb"));
    assert!(search("", "").is_empty());
}

#[test]
fn contains_substring_decides_containment() {
    assert!(contains_substring("hello world", "o w"));
    assert!(contains_substring("hello", "hello"));
    assert!(contains_substring("hello", ""));
    assert!(contains_substring("", ""));
    assert!(!contains_substring("hello", "world"));
    assert!(!contains_substring("ab", "abc"));
    assert!(!contains_substring("Hello", "hello"));
}

#[test]
fn render_output_terminates_each_line() {
    let lines = vec!["safe, fast, productive", "Trust me."];
    assert_eq!("safe, fast, productive\nTrust me.\n", render_output(&lines));
    let no_lines: Vec<&str> = Vec::new();
    assert_eq!("", render_output(&no_lines));
}
