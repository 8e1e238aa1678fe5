use stash::policy::{app_pattern_matches, bytes_contain, is_app_excluded, validate_command_name};
use stash::store::SqliteClipboardDb;

#[test]
fn byte_search_finds_substrings() {
    assert!(bytes_contain(b"hello world", b"lo wo"));
    assert!(bytes_contain(b"hello", b"hello"));
    assert!(!bytes_contain(b"hello", b"world"));
    assert!(!bytes_contain(b"hi", b"hello"));
    // An empty needle matches everything.
    assert!(bytes_contain(b"anything", b""));
    assert!(bytes_contain(b"", b""));
}

#[test]
fn exclusion_patterns_match_as_documented() {
    // Exact string.
    assert!(app_pattern_matches("keepassxc", "keepassxc"));
    assert!(!app_pattern_matches("keepassxc", "keepassxc2"));
    // Anchored exact form.
    assert!(app_pattern_matches("^keepassxc$", "keepassxc"));
    assert!(!app_pattern_matches("^keepassxc$", "akeepassxc"));
    // Wildcards.
    assert!(app_pattern_matches("fire*", "firefox"));
    assert!(app_pattern_matches("*fox", "firefox"));
    assert!(app_pattern_matches("f*f*x", "firefox"));
    assert!(app_pattern_matches("*", "anything"));
    assert!(!app_pattern_matches("fire*", "thunderbird"));
}

#[test]
fn exclusion_list_checks_every_pattern() {
    let pats = vec!["^one$".to_string(), "two*".to_string()];
    assert!(is_app_excluded("one", &pats));
    assert!(is_app_excluded("twofold", &pats));
    assert!(!is_app_excluded("three", &pats));
    assert!(!is_app_excluded("one", &Vec::new()));
}

#[test]
fn command_names_are_vetted() {
    assert!(validate_command_name("notify-send"));
    assert!(validate_command_name("xargs"));
    assert!(!validate_command_name(""));
    assert!(!validate_command_name("rm -rf; echo"));
    assert!(!validate_command_name("cat|tee"));
    assert!(!validate_command_name("/usr/bin/env"));
    assert!(!validate_command_name("../sneaky"));
    assert!(!validate_command_name("echo $HOME"));
}

#[test]
fn migration_rejects_newer_schema() {
    let conn = rusqlite::Connection::open_in_memory().unwrap();
    conn.execute_batch("PRAGMA user_version = 99;").unwrap();
    assert!(matches!(
        SqliteClipboardDb::new(conn),
        Err(stash::errors::StashError::Migration(_))
    ));
}
