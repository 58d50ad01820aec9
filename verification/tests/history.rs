use command_history::history::{Flush, History};
use std::path::PathBuf;

fn store_of(content: &str) -> History {
    History::from_file(PathBuf::from("history.txt"), Some(content))
}

fn entries(store: &History) -> Vec<String> {
    let mut oldest_first: Vec<String> = store.iter().cloned().collect();
    oldest_first.reverse();
    oldest_first
}

#[test]
fn load_drops_blank_lines_and_trims() {
    let store = store_of("a\n\nb\n  c  \n");
    assert_eq!(entries(&store), vec!["a", "b", "c"]);
}

#[test]
fn load_reads_a_last_line_without_ending() {
    let store = store_of("first\nsecond");
    assert_eq!(entries(&store), vec!["first", "second"]);
}

#[test]
fn load_takes_carriage_returns_for_line_endings() {
    let store = store_of("a\r\nb c\r\n\r\nd\r");
    assert_eq!(entries(&store), vec!["a", "b c", "d"]);
}

#[test]
fn load_trims_white_space_beyond_ascii() {
    let store = store_of("\u{3000}select 1\u{a0}\n\t\u{2003}\n\u{feff}x\n");
    assert_eq!(entries(&store), vec!["select 1", "\u{feff}x"]);
}

#[test]
fn load_keeps_white_space_inside_an_entry() {
    let store = store_of("  select  *  from t  \n");
    assert_eq!(entries(&store), vec!["select  *  from t"]);
}

#[test]
fn load_keeps_repeated_lines() {
    let store = store_of("a\na\nb\n");
    assert_eq!(entries(&store), vec!["a", "a", "b"]);
}

#[test]
fn load_of_text_without_entries_is_empty() {
    for content in ["", "\n", " \n\t\n\r\n", "   "] {
        let store = store_of(content);
        assert!(entries(&store).is_empty());
        assert!(store.get(0).is_none());
    }
}

#[test]
fn load_agrees_with_line_by_line_trimming() {
    let samples = [
        "a\n\nb\n  c  \n",
        "one\r\ntwo\r\n",
        "\r\n\r\nx\r",
        "no ending",
        "tab\there\n\u{2028}odd\u{2029}\n",
        "\n\n\n",
        "a\rb\nc\r\r\n",
        "\u{1680}ogham\u{1680}\n\u{85}next\u{85}",
    ];
    for content in samples {
        let expected: Vec<String> = content
            .lines()
            .map(str::trim)
            .filter(|line| !line.is_empty())
            .map(str::to_owned)
            .collect();
        assert_eq!(entries(&store_of(content)), expected, "content {content:?}");
    }
}

#[test]
fn push_suppresses_consecutive_duplicates() {
    let mut store = History::in_memory();
    store.push("x".to_owned());
    store.push("x".to_owned());
    assert_eq!(entries(&store), vec!["x"]);
}

#[test]
fn push_stores_a_command_again_after_another() {
    let mut store = History::in_memory();
    store.push("x".to_owned());
    store.push("y".to_owned());
    store.push("x".to_owned());
    assert_eq!(entries(&store), vec!["x", "y", "x"]);
}

#[test]
fn push_compares_with_the_last_loaded_entry() {
    let mut store = store_of("a\nb\n");
    store.push("b".to_owned());
    assert_eq!(entries(&store), vec!["a", "b"]);
    store.push("a".to_owned());
    assert_eq!(entries(&store), vec!["a", "b", "a"]);
}

#[test]
fn push_stores_a_command_as_it_is() {
    let mut store = History::in_memory();
    store.push("  padded  ".to_owned());
    store.push(String::new());
    assert_eq!(entries(&store), vec!["  padded  ", ""]);
}

#[test]
fn get_counts_back_from_the_most_recent_entry() {
    let store = store_of("a\nb\nc\n");
    assert_eq!(store.get(0).map(String::as_str), Some("c"));
    assert_eq!(store.get(1).map(String::as_str), Some("b"));
    assert_eq!(store.get(2).map(String::as_str), Some("a"));
}

#[test]
fn get_beyond_the_oldest_entry_gives_the_oldest() {
    let store = store_of("a\nb\nc\n");
    assert_eq!(store.get(3).map(String::as_str), Some("a"));
    assert_eq!(store.get(5).map(String::as_str), Some("a"));
    assert_eq!(store.get(usize::MAX).map(String::as_str), Some("a"));
}

#[test]
fn get_on_an_empty_store_gives_nothing() {
    let store = History::in_memory();
    assert!(store.get(0).is_none());
    assert!(store.get(1).is_none());
    assert!(store.get(usize::MAX).is_none());
}

#[test]
fn iter_walks_from_the_most_recent_entry_and_restarts() {
    let store = store_of("a\nb\nc\n");
    let first: Vec<&String> = store.iter().collect();
    assert_eq!(first, vec!["c", "b", "a"]);
    let second: Vec<&String> = store.iter().collect();
    assert_eq!(second, first);
}

#[test]
fn iter_on_an_empty_store_yields_nothing() {
    let store = History::in_memory();
    assert_eq!(store.iter().count(), 0);
}

#[test]
fn release_hands_out_the_new_entries_only() {
    let mut store = store_of("a\nb\n");
    store.push("d".to_owned());
    assert_eq!(entries(&store), vec!["a", "b", "d"]);
    let Flush { path, text } = store.release().expect("the store has a backing file");
    assert_eq!(path, PathBuf::from("history.txt"));
    assert_eq!(text, "d\n");
}

#[test]
fn release_writes_pending_entries_oldest_first() {
    let mut store = store_of("a\n");
    store.push("b".to_owned());
    store.push("c".to_owned());
    store.push("c".to_owned());
    store.push("b".to_owned());
    let flush = store.release().expect("the store has a backing file");
    assert_eq!(flush.text, "b\nc\nb\n");
}

#[test]
fn release_writes_commands_as_they_were_pushed() {
    let mut store = store_of("a\n");
    store.push("  b  ".to_owned());
    store.push(String::new());
    let flush = store.release().expect("the store has a backing file");
    assert_eq!(flush.text, "  b  \n\n");
}

#[test]
fn release_without_pushes_has_nothing_to_append() {
    let store = store_of("a\nb\n");
    let flush = store.release().expect("the store has a backing file");
    assert_eq!(flush.text, "");
}

#[test]
fn release_after_a_repeated_command_has_nothing_to_append() {
    let mut store = store_of("a\nb\n");
    store.push("b".to_owned());
    let flush = store.release().expect("the store has a backing file");
    assert_eq!(flush.text, "");
}

#[test]
fn unreadable_file_gives_an_empty_store() {
    let store = History::from_file(PathBuf::from("/no/such/dir/history.txt"), None);
    assert_eq!(store.iter().count(), 0);
    assert!(store.get(0).is_none());
    let flush = store.release().expect("the store has a backing file");
    assert_eq!(flush.path, PathBuf::from("/no/such/dir/history.txt"));
    assert_eq!(flush.text, "");
}

#[test]
fn in_memory_store_has_nothing_to_release() {
    let mut store = History::in_memory();
    store.push("a".to_owned());
    assert_eq!(entries(&store), vec!["a"]);
    assert!(store.release().is_none());
}

#[test]
fn flushed_text_appended_to_the_file_loads_the_same_entries() {
    let content = "select 1\nselect 2\n";
    let mut store = store_of(content);
    store.push("select 3".to_owned());
    store.push("schema".to_owned());
    let before = entries(&store);
    let flush = store.release().expect("the store has a backing file");
    let written = format!("{content}{}", flush.text);
    assert_eq!(written, "select 1\nselect 2\nselect 3\nschema\n");
    assert_eq!(entries(&store_of(&written)), before);
}
