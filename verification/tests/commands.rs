use file_browser::entry::RawEntry;
use file_browser::greeter::greet;
use file_browser::listing::{read_directory, FsError};
use file_browser::reader::read_file_content;

fn raw(name: &str, is_directory: bool) -> Result<RawEntry, String> {
    Ok(RawEntry { name: name.to_string(), is_directory })
}

#[test]
fn greet_embeds_the_name() {
    assert_eq!(greet("World"), "Hello, World! You've been greeted from Rust!");
    assert_eq!(greet(""), "Hello, ! You've been greeted from Rust!");
}

#[test]
fn missing_path_is_not_found() {
    let r = read_directory("/no/such/dir", false, false, Ok(vec![]));
    assert!(matches!(r, Err(FsError::NotFound)));
}

#[test]
fn missing_path_never_reports_a_read_failure() {
    let r = read_directory("/no/such/dir", false, false, Err("permission denied".to_string()));
    let e = r.err().unwrap();
    assert!(matches!(e, FsError::NotFound));
    assert_eq!(e.directory_message(), "Directory does not exist");
}

#[test]
fn file_path_is_not_a_directory() {
    let r = read_directory("/etc/hosts", true, false, Ok(vec![]));
    let e = r.err().unwrap();
    assert!(matches!(e, FsError::NotADirectory));
    assert_eq!(e.directory_message(), "Path is not a directory");
}

#[test]
fn failed_enumeration_reports_the_message() {
    let r = read_directory("/locked", true, true, Err("permission denied".to_string()));
    let e = r.err().unwrap();
    match &e {
        FsError::ReadFailed(m) => assert_eq!(m, "permission denied"),
        _ => panic!("expected ReadFailed"),
    }
    assert_eq!(e.directory_message(), "Failed to read directory: permission denied");
}

#[test]
fn unreadable_children_are_skipped() {
    let reads = vec![raw("kept", false), Err("transient".to_string()), raw("also", true)];
    let out = read_directory("/d", true, true, Ok(reads)).unwrap();
    let names: Vec<&str> = out.iter().map(|e| e.name.as_str()).collect();
    assert_eq!(names, vec!["also", "kept"]);
}

#[test]
fn listing_mixes_directories_before_files() {
    let reads = vec![
        raw("zeta.txt", false),
        raw("Alpha", true),
        raw("beta.txt", false),
        raw("gamma", true),
    ];
    let out = read_directory("/base", true, true, Ok(reads)).unwrap();
    let summary: Vec<(&str, bool)> =
        out.iter().map(|e| (e.name.as_str(), e.is_directory)).collect();
    assert_eq!(
        summary,
        vec![("Alpha", true), ("gamma", true), ("beta.txt", false), ("zeta.txt", false)]
    );
}

#[test]
fn listing_paths_join_directory_and_name() {
    let reads = vec![raw("b.txt", false), raw("a", true)];
    let out = read_directory("/base", true, true, Ok(reads.clone())).unwrap();
    assert_eq!(out[0].path, "/base/a");
    assert_eq!(out[1].path, "/base/b.txt");

    let out = read_directory("/base/", true, true, Ok(reads.clone())).unwrap();
    assert_eq!(out[0].path, "/base/a");
    assert_eq!(out[1].path, "/base/b.txt");

    let out = read_directory("", true, true, Ok(reads)).unwrap();
    assert_eq!(out[0].path, "a");
    assert_eq!(out[1].path, "b.txt");
}

#[test]
fn case_folded_order_with_stable_ties() {
    let reads = vec![
        raw("Banana", false),
        raw("apple", true),
        raw("Cherry", true),
        raw("banana", false),
    ];
    let out = read_directory("/fruit", true, true, Ok(reads.clone())).unwrap();
    let names: Vec<&str> = out.iter().map(|e| e.name.as_str()).collect();
    assert_eq!(names, vec!["apple", "Cherry", "Banana", "banana"]);

    let again = read_directory("/fruit", true, true, Ok(reads)).unwrap();
    let names_again: Vec<&str> = again.iter().map(|e| e.name.as_str()).collect();
    assert_eq!(names, names_again);
}

#[test]
fn empty_directory_lists_nothing() {
    let out = read_directory("/empty", true, true, Ok(vec![])).unwrap();
    assert!(out.is_empty());
}

#[test]
fn file_content_round_trips() {
    let r = read_file_content(Ok("hello\nworld".to_string()));
    assert_eq!(r.unwrap(), "hello\nworld");
}

#[test]
fn failed_file_read_reports_the_message() {
    let os_message = "No such file or directory (os error 2)";
    let r = read_file_content(Err(os_message.to_string()));
    let e = r.err().unwrap();
    match &e {
        FsError::ReadFailed(m) => assert_eq!(m, os_message),
        _ => panic!("expected ReadFailed"),
    }
    let text = e.file_message();
    assert_eq!(text, "Failed to read file: No such file or directory (os error 2)");
    assert!(text.contains(os_message));
}
