use minigrep::Config;
use minigrep::run_search;

fn args_of(words: &[&str]) -> Vec<String> {
    words.iter().map(|w| w.to_string()).collect()
}

#[test]
fn build_fails_on_too_few_arguments() {
    assert!(Config::build(&args_of(&["minigrep"]), false).is_err());
    assert!(Config::build(&args_of(&["minigrep", "query"]), false).is_err());
    assert!(Config::build(&args_of(&[]), true).is_err());
}

#[test]
fn build_takes_query_then_file_path() {
    let config = Config::build(&args_of(&["minigrep", "needle", "notes.txt"]), false).unwrap();
    assert_eq!("needle", config.query);
    assert_eq!("notes.txt", config.file_path);
    assert!(!config.ignore_case);
}

#[test]
fn build_passes_the_case_flag_through() {
    let config = Config::build(&args_of(&["minigrep", "q", "f"]), true).unwrap();
    assert!(config.ignore_case);
}

#[test]
fn build_ignores_extra_arguments() {
    let config =
        Config::build(&args_of(&["minigrep", "q", "f", "ignored", "also ignored"]), false).unwrap();
    assert_eq!("q", config.query);
    assert_eq!("f", config.file_path);
}

#[test]
fn run_search_dispatches_on_the_case_flag() {
    let text = "Rust:\nsafe, fast, productive\nPick three\nTrust me.\n";
    let sensitive = Config::build(&args_of(&["minigrep", "RuSt", "f"]), false).unwrap();
    let insensitive = Config::build(&args_of(&["minigrep", "RuSt", "f"]), true).unwrap();
    assert!(run_search(&sensitive, text).is_empty());
    assert_eq!(vec!["Rust:", "Trust me."], run_search(&insensitive, text));
}
