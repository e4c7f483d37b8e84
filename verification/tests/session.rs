use faalsink::client::{announce, closing_messages, plan_sync, server_manifest, SyncStep};
use faalsink::file_scanner::{build_manifest, scan_directory, FileInfo, WalkedEntry};
use faalsink::manifest::Manifest;
use faalsink::network::{manifest_message, Session, SessionAction, SessionStats};
use faalsink::protocol::SyncMessage;
use faalsink::receiver::FileOutcome;

fn text(s: &str) -> String {
    s.to_string()
}

fn opened() -> Session {
    Session::open(Some(SyncMessage::Auth { token: text("secret") }), "secret").unwrap()
}

fn info(path: &str, hash: Option<&str>) -> FileInfo {
    FileInfo { path: text(path), size: 1, is_dir: hash.is_none(), hash: hash.map(text) }
}

#[test]
fn right_token_opens_a_session() {
    let session = opened();
    assert_eq!(*session.stats(), SessionStats::default());
}

#[test]
fn nothing_but_the_right_token_opens_a_session() {
    assert!(Session::open(None, "secret").is_none());
    assert!(Session::open(Some(SyncMessage::SyncComplete), "secret").is_none());
    assert!(Session::open(Some(SyncMessage::Auth { token: text("Secret") }), "secret").is_none());
    assert!(Session::open(Some(SyncMessage::Auth { token: text("") }), "secret").is_none());
    assert!(Session::open(Some(SyncMessage::Manifest(Manifest::new())), "secret").is_none());
}

#[test]
fn messages_out_of_place_are_errors() {
    let mut session = opened();
    assert!(matches!(session.on_message(Some(SyncMessage::Auth { token: text("secret") })), SessionAction::Proceed));
    assert!(matches!(session.on_message(Some(SyncMessage::Manifest(Manifest::new()))), SessionAction::Proceed));
    assert!(matches!(session.on_message(None), SessionAction::Proceed));
    assert!(matches!(session.on_message(Some(SyncMessage::SyncComplete)), SessionAction::Proceed));
    assert_eq!(*session.stats(), SessionStats { errors: 3, ..SessionStats::default() });
}

#[test]
fn announced_hash_is_expected_of_the_next_content_only() {
    let mut session = opened();
    session.on_message(Some(SyncMessage::FileInfo(info("./x", Some("h1")))));
    session.on_message(Some(SyncMessage::FileInfo(info("./a", Some("h2")))));
    match session.on_message(Some(SyncMessage::FileContentStream { path: text("a") })) {
        SessionAction::ReceiveFile { path, expected_hash } => {
            assert_eq!((path.as_str(), expected_hash.as_deref()), ("a", Some("h2")));
        }
        other => panic!("{other:?}"),
    }
    match session.on_message(Some(SyncMessage::FileContentStream { path: text("b") })) {
        SessionAction::ReceiveFile { path, expected_hash } => {
            assert_eq!((path.as_str(), expected_hash), ("b", None));
        }
        other => panic!("{other:?}"),
    }
}

#[test]
fn an_error_leaves_the_announced_file() {
    let mut session = opened();
    session.on_message(Some(SyncMessage::FileInfo(info("./a", Some("h")))));
    session.on_message(None);
    match session.on_message(Some(SyncMessage::FileContentStream { path: text("a") })) {
        SessionAction::ReceiveFile { expected_hash, .. } => assert_eq!(expected_hash.as_deref(), Some("h")),
        other => panic!("{other:?}"),
    }
}

#[test]
fn actions_are_under_received_files() {
    let mut session = opened();
    match session.on_message(Some(SyncMessage::DeleteFile { path: text("a/b") })) {
        SessionAction::DeleteFile { place } => assert_eq!(place, "received_files/a/b"),
        other => panic!("{other:?}"),
    }
    match session.on_message(Some(SyncMessage::CreateDir { path: text("c") })) {
        SessionAction::CreateDir { place } => assert_eq!(place, "received_files/c"),
        other => panic!("{other:?}"),
    }
    match session.on_message(Some(SyncMessage::RemoveDir { path: text("d") })) {
        SessionAction::RemoveDir { place } => assert_eq!(place, "received_files/d"),
        other => panic!("{other:?}"),
    }
    assert_eq!(session.stats().errors, 0);
}

#[test]
fn traversal_is_counted_and_leads_to_nothing() {
    let mut session = opened();
    let messages = vec![
        SyncMessage::DeleteFile { path: text("../a") },
        SyncMessage::CreateDir { path: text("/a") },
        SyncMessage::RemoveDir { path: text("a/../..") },
    ];
    for message in messages {
        assert!(matches!(session.on_message(Some(message)), SessionAction::Proceed));
    }
    assert_eq!(session.stats().errors, 3);
}

#[test]
fn tally_of_a_session() {
    let mut session = opened();
    session.on_transfer(FileOutcome::Saved { bytes: 10 });
    session.on_transfer(FileOutcome::Saved { bytes: 5 });
    session.on_deleted(true);
    session.on_dir_created(true);
    session.on_dir_removed(true);
    let expected = SessionStats {
        files_saved: 2,
        bytes_written: 15,
        files_deleted: 1,
        dirs_created: 1,
        dirs_removed: 1,
        errors: 0,
    };
    assert_eq!(*session.stats(), expected);
    session.on_transfer(FileOutcome::Rejected);
    session.on_deleted(false);
    session.on_dir_created(false);
    session.on_dir_removed(false);
    session.on_read_error();
    assert_eq!(*session.stats(), SessionStats { errors: 5, ..expected });
}

fn total(stats: &SessionStats) -> u64 {
    stats.files_saved + stats.files_deleted + stats.dirs_created + stats.dirs_removed + stats.errors
}

#[test]
fn every_line_but_the_quiet_ones_is_counted_once() {
    let mut session = opened();
    let lines = vec![
        Some(SyncMessage::FileInfo(info("./a", Some("h")))),
        Some(SyncMessage::FileContentStream { path: text("a") }),
        Some(SyncMessage::FileContentStream { path: text("../a") }),
        Some(SyncMessage::DeleteFile { path: text("b") }),
        Some(SyncMessage::DeleteFile { path: text("/b") }),
        Some(SyncMessage::CreateDir { path: text("c") }),
        Some(SyncMessage::RemoveDir { path: text("d") }),
        None,
        Some(SyncMessage::Auth { token: text("secret") }),
        Some(SyncMessage::Manifest(Manifest::new())),
        Some(SyncMessage::SyncComplete),
    ];
    let count = lines.len() as u64;
    for line in lines {
        let before = *session.stats();
        match session.on_message(line) {
            SessionAction::Proceed => {}
            SessionAction::ReceiveFile { path, .. } => session.on_transfer(if path == "a" {
                FileOutcome::Saved { bytes: 7 }
            } else {
                FileOutcome::Rejected
            }),
            SessionAction::DeleteFile { .. } => session.on_deleted(true),
            SessionAction::CreateDir { .. } => session.on_dir_created(false),
            SessionAction::RemoveDir { .. } => session.on_dir_removed(true),
        }
        assert!(total(session.stats()) <= total(&before) + 1);
    }
    assert_eq!(total(session.stats()), count - 2);
    session.on_read_error();
    assert_eq!(total(session.stats()), count - 1);
    let expected = SessionStats {
        files_saved: 1,
        bytes_written: 7,
        files_deleted: 1,
        dirs_created: 0,
        dirs_removed: 1,
        errors: 7,
    };
    assert_eq!(*session.stats(), expected);
}

#[test]
fn summary_is_a_warning_after_errors_or_failure() {
    let fine = SessionStats::default();
    assert!(!fine.needs_warning(false));
    assert!(fine.needs_warning(true));
    let bad = SessionStats { errors: 1, ..fine };
    assert!(bad.needs_warning(false));
    assert!(bad.needs_warning(true));
}

#[test]
fn server_tells_what_it_has() {
    let entries = vec![
        WalkedEntry::Directory { path: text("received_files"), size: 0 },
        WalkedEntry::File { path: text("received_files/a"), size: 1, hash: Some(text("h")) },
    ];
    let manifest = server_manifest(Some(manifest_message(entries)));
    assert_eq!(manifest.len(), 2);
    assert_eq!(manifest.get("a"), Some(&Some(text("h"))));
}

#[test]
fn reply_without_manifest_counts_for_nothing() {
    assert_eq!(server_manifest(None).len(), 0);
    assert_eq!(server_manifest(Some(SyncMessage::SyncComplete)).len(), 0);
}

fn tree() -> Vec<FileInfo> {
    vec![
        info(".", None),
        info("./old", Some("h1")),
        info("./changed", Some("h2")),
        info("./new", Some("h3")),
        info("./dir", None),
        info("./newdir", None),
        info("./newdir/x", Some("h4")),
    ]
}

fn listed(entries: &[(&str, Option<&str>)]) -> Manifest {
    let mut manifest = Manifest::new();
    for (path, hash) in entries {
        manifest.insert(text(path), hash.map(text));
    }
    manifest
}

fn told(steps: &[SyncStep]) -> Vec<String> {
    steps
        .iter()
        .map(|step| match step {
            SyncStep::CreateDir { path } => format!("create {path}"),
            SyncStep::SendFile { index, path } => format!("send {index} {path}"),
        })
        .collect()
}

#[test]
fn plan_sends_what_is_missing_or_different() {
    let server = listed(&[
        ("", None),
        ("old", Some("h1")),
        ("changed", Some("other")),
        ("dir", None),
        ("gone", Some("h5")),
        ("gonedir", None),
    ]);
    let (steps, left) = plan_sync(&tree(), ".", server);
    assert_eq!(told(&steps), vec!["send 2 changed", "send 3 new", "create newdir", "send 6 newdir/x"]);
    let mut closing: Vec<String> = Vec::new();
    for message in closing_messages(left) {
        closing.push(match message {
            SyncMessage::DeleteFile { path } => format!("delete {path}"),
            SyncMessage::RemoveDir { path } => format!("remove {path}"),
            SyncMessage::SyncComplete => text("complete"),
            _ => panic!("unexpected message"),
        });
    }
    assert_eq!(closing.last().map(|s| s.as_str()), Some("complete"));
    closing.sort();
    assert_eq!(closing, vec!["complete", "delete gone", "remove gonedir"]);
}

#[test]
fn synced_trees_need_no_step() {
    let entries = || {
        vec![
            WalkedEntry::Directory { path: text("."), size: 0 },
            WalkedEntry::Directory { path: text("./a"), size: 0 },
            WalkedEntry::File { path: text("./a/b"), size: 1, hash: Some(text("h")) },
        ]
    };
    let (steps, left) = plan_sync(&scan_directory(".", entries()), ".", build_manifest(".", entries()));
    assert!(steps.is_empty());
    assert_eq!(left.len(), 0);
    assert_eq!(closing_messages(left).len(), 1);
}

#[test]
fn sync_makes_the_server_list_what_the_client_has() {
    let files = tree();
    let server = [("", None), ("changed", Some("other")), ("gone", Some("h5")), ("gonedir", None), ("old", Some("h1"))];
    let mut model = listed(&server);
    let (steps, left) = plan_sync(&files, ".", listed(&server));
    for step in steps {
        match step {
            SyncStep::CreateDir { path } => model.insert(path, None),
            SyncStep::SendFile { index, path } => model.insert(path, files[index].hash.clone()),
        }
    }
    for message in closing_messages(left) {
        match message {
            SyncMessage::DeleteFile { path } | SyncMessage::RemoveDir { path } => model.remove(&path),
            _ => {}
        }
    }
    let (steps, left) = plan_sync(&files, ".", model);
    assert!(steps.is_empty());
    assert_eq!(left.len(), 0);
}

#[test]
fn directory_listed_as_a_file_is_not_created() {
    let (steps, left) = plan_sync(&vec![info("./a", None)], ".", listed(&[("a", Some("h"))]));
    assert!(steps.is_empty());
    assert_eq!(left.len(), 0);
}

#[test]
fn path_listed_once_counts_for_the_first_file() {
    let files = vec![info("./a/b", Some("h")), info("./a\\b", Some("h"))];
    let (steps, _) = plan_sync(&files, ".", listed(&[("a/b", Some("h"))]));
    assert_eq!(told(&steps), vec!["send 1 a/b"]);
}

#[test]
fn announcement_is_paired_by_the_server() {
    let file = info("./dir/a", Some("h"));
    let mut session = opened();
    let mut last = None;
    for message in announce(&file, text("dir/a")) {
        last = Some(session.on_message(Some(message)));
    }
    match last {
        Some(SessionAction::ReceiveFile { path, expected_hash }) => {
            assert_eq!((path.as_str(), expected_hash.as_deref()), ("dir/a", Some("h")));
        }
        other => panic!("{other:?}"),
    }
}
