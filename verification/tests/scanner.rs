use faalsink::file_scanner::{build_manifest, scan_directory, scan_entry, should_skip, WalkedEntry};
use faalsink::manifest::Manifest;

fn dir(path: &str) -> WalkedEntry {
    WalkedEntry::Directory { path: path.to_string(), size: 4096 }
}

fn file(path: &str, hash: &str) -> WalkedEntry {
    WalkedEntry::File { path: path.to_string(), size: 3, hash: Some(hash.to_string()) }
}

#[test]
fn build_output_and_version_control_are_skipped() {
    assert!(should_skip("./target/debug/x", "."));
    assert!(should_skip("./.git", "."));
    assert!(should_skip("a/.git/config", "a"));
    assert!(!should_skip("./targets/x", "."));
    assert!(!should_skip("./.gitignore", "."));
}

#[test]
fn received_files_are_skipped_unless_scanned() {
    assert!(should_skip("./received_files/a", "."));
    assert!(!should_skip("received_files/a", "received_files"));
    assert!(should_skip("received_files/target", "received_files"));
    assert!(should_skip("received_files/a", "./received_files"));
}

#[test]
fn scan_keeps_directories_and_hashed_files_in_order() {
    let files = scan_directory(
        ".",
        vec![
            dir("."),
            WalkedEntry::Unreadable,
            file("./b", "h1"),
            WalkedEntry::NoMetadata { path: "./c".to_string() },
            WalkedEntry::File { path: "./d".to_string(), size: 1, hash: None },
            file("./target/e", "h2"),
            dir("./a"),
        ],
    );
    assert_eq!(files.len(), 3);
    assert_eq!((files[0].path.as_str(), files[0].size, files[0].is_dir, &files[0].hash), (".", 4096, true, &None));
    assert_eq!(
        (files[1].path.as_str(), files[1].size, files[1].is_dir, files[1].hash.as_deref()),
        ("./b", 3, false, Some("h1"))
    );
    assert_eq!((files[2].path.as_str(), files[2].is_dir), ("./a", true));
}

#[test]
fn entries_that_cannot_be_read_are_left_out() {
    assert!(scan_entry(WalkedEntry::Unreadable, ".").is_none());
    assert!(scan_entry(WalkedEntry::NoMetadata { path: "./a".to_string() }, ".").is_none());
    assert!(scan_entry(WalkedEntry::File { path: "./a".to_string(), size: 1, hash: None }, ".").is_none());
    assert!(scan_entry(dir("./.git"), ".").is_none());
}

#[test]
fn manifest_lists_normalized_paths() {
    let manifest = build_manifest(
        "received_files",
        vec![dir("received_files"), dir("received_files/a"), file("received_files/a/b", "h")],
    );
    assert_eq!(manifest.len(), 3);
    assert_eq!(manifest.get(""), Some(&None));
    assert_eq!(manifest.get("a"), Some(&None));
    assert_eq!(manifest.get("a/b"), Some(&Some("h".to_string())));
    assert_eq!(manifest.get("received_files/a"), None);
}

#[test]
fn manifest_tells_files_from_directories_and_skips() {
    let manifest = build_manifest(
        ".",
        vec![
            dir("."),
            dir("./a"),
            file("./a/b", "h1"),
            dir("./a/target"),
            file("./a/target/x", "h2"),
            file("./.git/config", "h3"),
            file("./received_files/a/b", "h4"),
            WalkedEntry::NoMetadata { path: "./c".to_string() },
        ],
    );
    let mut listed: Vec<(String, Option<String>)> =
        manifest.into_entries().into_iter().map(|entry| (entry.path, entry.hash)).collect();
    listed.sort();
    assert_eq!(
        listed,
        vec![("".to_string(), None), ("a".to_string(), None), ("a/b".to_string(), Some("h1".to_string()))]
    );
}

#[test]
fn root_may_hold_a_backslash_or_be_empty() {
    let manifest = build_manifest("a\\b", vec![dir("a\\b"), file("a\\b/c", "h")]);
    assert_eq!(manifest.len(), 2);
    assert_eq!(manifest.get(""), Some(&None));
    assert_eq!(manifest.get("c"), Some(&Some("h".to_string())));
    let manifest = build_manifest("", vec![dir("a"), file("a/c", "h")]);
    assert_eq!(manifest.len(), 2);
    assert_eq!(manifest.get("a"), Some(&None));
    assert_eq!(manifest.get("a/c"), Some(&Some("h".to_string())));
}

#[test]
fn later_file_with_the_same_normalized_path_counts() {
    let manifest = build_manifest(".", vec![file("./a/b", "h1"), file("./a\\b", "h2")]);
    assert_eq!(manifest.len(), 1);
    assert_eq!(manifest.get("a/b"), Some(&Some("h2".to_string())));
}

#[test]
fn manifest_inserts_and_removes() {
    let mut manifest = Manifest::new();
    assert_eq!(manifest.len(), 0);
    for name in ["a", "b", "c", "d"] {
        manifest.insert(name.to_string(), Some(format!("h{name}")));
    }
    manifest.insert("b".to_string(), None);
    manifest.remove("a");
    manifest.remove("a");
    manifest.remove("d");
    assert_eq!(manifest.len(), 2);
    assert!(!manifest.contains("a"));
    assert!(manifest.contains("c"));
    assert_eq!(manifest.get("b"), Some(&None));
    assert_eq!(manifest.get("c"), Some(&Some("hc".to_string())));
    let mut entries: Vec<(String, Option<String>)> =
        manifest.into_entries().into_iter().map(|entry| (entry.path, entry.hash)).collect();
    entries.sort();
    assert_eq!(entries, vec![("b".to_string(), None), ("c".to_string(), Some("hc".to_string()))]);
}

#[test]
fn clone_of_a_file_says_the_same() {
    let file = scan_entry(file("./a", "h"), ".").unwrap();
    let copy = file.clone();
    assert_eq!((copy.path, copy.size, copy.is_dir, copy.hash), (file.path, file.size, file.is_dir, file.hash));
}
