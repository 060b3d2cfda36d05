use file_browser::entry::{join_path, make_entry, FileEntry};
use file_browser::order::{entry_before, str_lt};
use file_browser::sort::{insert_entry, sort_entries};

fn entry(name: &str, is_directory: bool) -> FileEntry {
    FileEntry { name: name.to_string(), path: format!("/p/{}", name), is_directory }
}

#[test]
fn string_order_is_lexicographic() {
    assert!(str_lt("apple", "banana"));
    assert!(!str_lt("banana", "apple"));
    assert!(!str_lt("apple", "apple"));
    assert!(str_lt("a", "ab"));
    assert!(!str_lt("ab", "a"));
    assert!(str_lt("", "x"));
    assert!(!str_lt("x", ""));
    assert!(str_lt("Zoo", "apple"));
}

#[test]
fn join_inserts_a_separator_only_when_needed() {
    assert_eq!(join_path("/a", "b"), "/a/b");
    assert_eq!(join_path("/a/", "b"), "/a/b");
    assert_eq!(join_path("", "b"), "b");
}

#[test]
fn made_entries_carry_the_joined_path() {
    let e = make_entry("/base", "name.txt".to_string(), false);
    assert_eq!(e.name, "name.txt");
    assert_eq!(e.path, "/base/name.txt");
    assert!(!e.is_directory);
}

#[test]
fn any_directory_precedes_any_file() {
    assert!(entry_before(&entry("zzz", true), &entry("aaa", false)));
    assert!(!entry_before(&entry("aaa", false), &entry("zzz", true)));
}

#[test]
fn same_kind_compares_case_insensitively() {
    assert!(entry_before(&entry("apple", false), &entry("Banana", false)));
    assert!(!entry_before(&entry("Banana", false), &entry("apple", false)));
    assert!(!entry_before(&entry("Banana", false), &entry("banana", false)));
    assert!(!entry_before(&entry("banana", false), &entry("Banana", false)));
}

#[test]
fn sorting_orders_directories_then_files() {
    let v = vec![
        entry("delta", false),
        entry("Alpha", false),
        entry("charlie", true),
        entry("Bravo", true),
    ];
    let out = sort_entries(v);
    let names: Vec<&str> = out.iter().map(|e| e.name.as_str()).collect();
    assert_eq!(names, vec!["Bravo", "charlie", "Alpha", "delta"]);
}

#[test]
fn folding_reaches_beyond_ascii() {
    // U+00DC folds to U+00FC, which sorts after every ASCII letter
    assert!(entry_before(&entry("apfel", false), &entry("Über", false)));
    assert!(!entry_before(&entry("Über", false), &entry("apfel", false)));
    assert!(!entry_before(&entry("Über", false), &entry("über", false)));
    assert!(!entry_before(&entry("über", false), &entry("Über", false)));
}

#[test]
fn sorting_an_empty_vector_yields_an_empty_vector() {
    let out = sort_entries(Vec::new());
    assert!(out.is_empty());
}

#[test]
fn inserting_into_an_empty_vector() {
    let mut v: Vec<FileEntry> = Vec::new();
    insert_entry(&mut v, entry("only", true));
    assert_eq!(v.len(), 1);
    assert_eq!(v[0].name, "only");
}

#[test]
fn inserting_keeps_the_order() {
    let mut v = vec![entry("alpha", false), entry("charlie", false)];
    insert_entry(&mut v, entry("Bravo", false));
    let names: Vec<&str> = v.iter().map(|e| e.name.as_str()).collect();
    assert_eq!(names, vec!["alpha", "Bravo", "charlie"]);
}
