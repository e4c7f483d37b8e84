use faalsink::file_scanner::normalize_path;
use faalsink::network::build_safe_path;
use std::path::{Component, Path};

const PATHS: [&str; 30] = [
    "", ".", "./", "./.", "..", "../", "/", "//", "/.", "/..", "a", "a/", "./a", "././a", "a/.", "a/./b", "a//b//",
    "a/b/..", "a/../b", "/a", "//a/b", "a/b/c", "received_files", "received_files/", "received_files/a",
    "received_files/./a/", "received_files/a/b", "received_files2/a", ".a/..b", "...",
];

const ROOTS: [&str; 9] = ["", ".", "./", "/", "a", "a/b/", "received_files", "..", "/a"];

#[test]
fn normalize_path_agrees_with_std() {
    for root in ROOTS {
        for path in PATHS {
            let expected = match Path::new(path).strip_prefix(root) {
                Ok(rest) => rest.to_string_lossy().into_owned(),
                Err(_) => path.to_string(),
            };
            assert_eq!(normalize_path(path, root), expected.replace("\\", "/"), "{path:?} under {root:?}");
        }
    }
}

#[test]
fn build_safe_path_agrees_with_std() {
    for base in ["received_files", "received_files/", "/srv", ""] {
        for path in PATHS {
            let leads_out = Path::new(path)
                .components()
                .any(|c| matches!(c, Component::ParentDir | Component::RootDir | Component::Prefix(_)));
            let expected = if leads_out {
                Err("Safety breach: Invalid file path component.")
            } else {
                Ok(Path::new(base).join(path).to_string_lossy().into_owned())
            };
            assert_eq!(build_safe_path(base, path), expected, "{path:?} under {base:?}");
        }
    }
}

#[test]
fn safe_paths_stay_below_their_base() {
    for path in PATHS {
        if let Ok(place) = build_safe_path("received_files", path) {
            let parts: Vec<Component> = Path::new(&place).components().collect();
            assert_eq!(parts[0], Component::Normal("received_files".as_ref()));
            assert!(parts.iter().all(|part| matches!(part, Component::Normal(_))));
        }
    }
}

#[test]
fn safe_path_of_a_plain_file() {
    assert_eq!(build_safe_path("received_files", "a/b.txt"), Ok("received_files/a/b.txt".to_string()));
}

#[test]
fn traversal_is_refused() {
    for path in ["../x", "a/../../x", "/etc/passwd", "..", "a/.."] {
        assert_eq!(build_safe_path("received_files", path), Err("Safety breach: Invalid file path component."));
    }
}

#[test]
fn dots_inside_names_are_no_traversal() {
    assert_eq!(build_safe_path("received_files", "..a/b.."), Ok("received_files/..a/b..".to_string()));
    assert_eq!(build_safe_path("received_files", "..."), Ok("received_files/...".to_string()));
}

#[test]
fn normalize_path_turns_backslashes() {
    assert_eq!(normalize_path("./a\\b", "."), "a/b");
    assert_eq!(normalize_path("x\\y", "received_files"), "x/y");
}

#[test]
fn normalize_path_of_the_root_is_empty() {
    assert_eq!(normalize_path(".", "."), "");
    assert_eq!(normalize_path("received_files", "received_files"), "");
}

#[test]
fn normalize_path_keeps_what_is_not_under_the_root() {
    assert_eq!(normalize_path("other/a/", "received_files"), "other/a/");
}

#[test]
fn received_file_is_listed_as_sent() {
    let sent = normalize_path("./dir/file.txt", ".");
    let place = build_safe_path("received_files", &sent).unwrap();
    assert_eq!(normalize_path(&place, "received_files"), sent);
}

#[test]
fn names_beyond_ascii_are_kept() {
    assert_eq!(normalize_path("./\u{e4}/\u{1f600}.txt", "."), "\u{e4}/\u{1f600}.txt");
    assert_eq!(build_safe_path("b", "\u{e4}"), Ok("b/\u{e4}".to_string()));
}
