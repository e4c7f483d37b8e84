//! What a manifest says of the tree that was walked.

use vstd::prelude::*;
use crate::digest::content_hash;
use crate::file_scanner::{is_skipped, manifest_of, normalized, scanned, scanned_files, WalkedEntry, RECEIVED_FILES};
use crate::network::place_of;
use crate::path_laws::{is_trimmed, joined_parts, lemma_some_part, steps, stripped_is_trimmed, stripped_parts,
    stripping_undoes_joining};
use crate::paths::{is_absolute, is_contained, join, lemma_name_end, lemma_parts, lemma_spans_in_bounds, name_end,
    name_spans, names, part_of_name, parts, root_parts, strip_prefix, PathPart};
use crate::receiver::{kept_files_are_verified, reception, FileOutcome, Reception, ReceiverView};

verus! {

/// Whether a path can be told apart once it is normalized: it lies under
/// `root`, and what lies behind `root` is trimmed, never climbs, and holds no
/// backslash. Behind a root that is not empty everything is trimmed.
pub open spec fn is_plain(path: Seq<char>, root: Seq<char>) -> bool {
    &&& strip_prefix(path, root) matches Some(rest) && (root.len() > 0 || is_trimmed(rest)) && !rest.contains('\\')
    &&& forall|i: int| parts(root).len() <= i < parts(path).len() ==> #[trigger] parts(path)[i] !is ParentDir
}

proof fn lemma_plain(path: Seq<char>, root: Seq<char>)
    requires
        is_plain(path, root),
    ensures
        strip_prefix(path, root) == Some(normalized(path, root)),
        !normalized(path, root).contains('\\'),
        is_trimmed(normalized(path, root)),
{
    let rest = strip_prefix(path, root).unwrap();
    assert forall|i: int| 0 <= i < rest.len() implies rest[i] != '\\' by {
        assert(rest.contains(rest[i]));
    }
    assert(normalized(path, root) =~= rest);
    if root.len() > 0 {
        lemma_some_part(root);
        stripped_is_trimmed(path, root);
    }
}

/// Names other than `.` and `..` are the ordinary parts of a path.
proof fn lemma_ordinary_names(path: Seq<char>, name: Seq<char>)
    requires
        part_of_name(name) is Normal,
    ensures
        names(path).contains(name) == parts(path).contains(PathPart::Normal(name)),
{
    lemma_parts(path);
    if names(path).contains(name) {
        let k = names(path).index_of(name);
        assert(parts(path)[k + root_parts(path)] == part_of_name(names(path)[k]));
    }
    if parts(path).contains(PathPart::Normal(name)) {
        let i = parts(path).index_of(PathPart::Normal(name));
        let k = i - root_parts(path);
        assert(parts(path)[k + root_parts(path)] == part_of_name(names(path)[k]));
    }
}

/// Each part of what is left of a path is a part of the path.
proof fn lemma_part_of_rest(path: Seq<char>, root: Seq<char>, i: int)
    requires
        strip_prefix(path, root) matches Some(rest) && 0 <= i < parts(rest).len(),
    ensures
        parts(root).len() + i < parts(path).len(),
        parts(strip_prefix(path, root).unwrap())[i] == parts(path)[parts(root).len() + i],
{
    stripped_parts(path, root);
}

/// A trimmed path has no root.
proof fn lemma_trimmed_is_relative(path: Seq<char>)
    requires
        is_trimmed(path),
    ensures
        !is_absolute(path),
        parts(path).len() > 0 ==> parts(path)[0] !is RootDir,
{
    lemma_parts(path);
    if path.len() > 0 {
        assert(parts(path)[0 + root_parts(path)] == part_of_name(names(path)[0]));
        if is_absolute(path) {
            assert(name_spans(path, 0) == name_spans(path, 1));
            lemma_spans_in_bounds(path, 1);
        }
    }
}

/// Only the first part of a path can be its root.
proof fn lemma_root_is_first(path: Seq<char>, i: int)
    requires
        0 < i < parts(path).len(),
    ensures
        parts(path)[i] !is RootDir,
{
    lemma_parts(path);
    let k = i - root_parts(path);
    assert(parts(path)[k + root_parts(path)] == part_of_name(names(path)[k]));
}

/// A server takes the paths that a client sends.
pub proof fn sent_paths_are_contained(path: Seq<char>, root: Seq<char>)
    requires
        is_plain(path, root),
    ensures
        is_contained(normalized(path, root)),
{
    let rest = normalized(path, root);
    lemma_plain(path, root);
    assert forall|i: int| 0 <= i < parts(rest).len() implies #[trigger] parts(rest)[i] !is RootDir
        && parts(rest)[i] !is ParentDir by {
        lemma_part_of_rest(path, root, i);
        if i > 0 {
            lemma_root_is_first(rest, i);
        } else {
            lemma_trimmed_is_relative(rest);
        }
    }
}

proof fn lemma_received_files()
    ensures
        parts(RECEIVED_FILES@) == seq![PathPart::Normal(RECEIVED_FILES@)],
{
    let base = RECEIVED_FILES@;
    reveal_strlit("received_files");
    lemma_parts(base);
    lemma_name_end(base, 0);
    lemma_name_end(base, 1);
    assert(name_end(base, 0) == base.len());
    assert(name_spans(base, base.len() as int) =~= Seq::empty());
    assert(name_spans(base, 0) =~= seq![(0int, base.len() as int)]);
    assert(base.subrange(0, base.len() as int) =~= base);
    assert(parts(base)[0 + root_parts(base)] == part_of_name(names(base)[0]));
    assert(parts(base) =~= seq![PathPart::Normal(base)]);
}

/// Whether a path can stand in a manifest as it is: it names something below
/// the place it is joined onto, has nothing around its names, and holds no
/// backslash.
pub open spec fn is_listable(path: Seq<char>) -> bool {
    is_contained(path) && is_trimmed(path) && !path.contains('\\')
}

/// A server lists what it received under the very path that it came with.
pub proof fn received_files_are_listed_as_sent(path: Seq<char>)
    requires
        is_listable(path),
    ensures
        normalized(place_of(path), RECEIVED_FILES@) == path,
{
    lemma_parts(path);
    if is_absolute(path) {
        assert(parts(path)[0] is RootDir);
    }
    lemma_received_files();
    stripping_undoes_joining(RECEIVED_FILES@, path);
    assert forall|i: int| 0 <= i < path.len() implies path[i] != '\\' by {
        assert(path.contains(path[i]));
    }
    assert(normalized(place_of(path), RECEIVED_FILES@) =~= path);
}

/// The paths that a client sends are listable, so that the next sync compares
/// each with what the server made of it.
pub proof fn sent_paths_are_listable(path: Seq<char>, root: Seq<char>)
    requires
        is_plain(path, root),
    ensures
        is_listable(normalized(path, root)),
{
    lemma_plain(path, root);
    sent_paths_are_contained(path, root);
}

/// The path of an entry, unless it could not be read at all.
pub open spec fn path_of(entry: WalkedEntry) -> Option<Seq<char>> {
    match entry {
        WalkedEntry::Unreadable => None,
        WalkedEntry::NoMetadata { path } => Some(path@),
        WalkedEntry::Directory { path, .. } => Some(path@),
        WalkedEntry::File { path, .. } => Some(path@),
    }
}

/// Where a walk of `root` finds what lies at `relative`.
pub open spec fn place_under(root: Seq<char>, relative: Seq<char>) -> Seq<char> {
    if relative.len() == 0 {
        root
    } else {
        join(root, relative)
    }
}

/// Whether these are the entries of a walk of `root`: each lies where its path
/// relative to `root` says, and no path comes twice.
pub open spec fn is_walk(entries: Seq<WalkedEntry>, root: Seq<char>) -> bool {
    &&& forall|i: int|
        0 <= i < entries.len() ==> (path_of(#[trigger] entries[i]) matches Some(path) ==> is_plain(path, root) && path
            == place_under(root, normalized(path, root)))
    &&& forall|i: int, j: int|
        0 <= i < j < entries.len() && path_of(#[trigger] entries[i]) is Some ==> path_of(entries[i]) != path_of(
            #[trigger] entries[j],
        )
}

/// Whether a listed path and hash tell of an entry: the entry is a directory at
/// that path and there is no hash, or it is a file there with that hash.
pub open spec fn tells_of(entry: WalkedEntry, root: Seq<char>, path: Seq<char>, hash: Option<Seq<char>>) -> bool {
    &&& path_of(entry) == Some(place_under(root, path))
    &&& match entry {
        WalkedEntry::Directory { .. } => hash is None,
        WalkedEntry::File { hash: Some(own), .. } => hash == Some(own@),
        _ => false,
    }
}

proof fn lemma_skipped_names()
    ensures
        part_of_name("target"@) is Normal,
        part_of_name(".git"@) is Normal,
        part_of_name(RECEIVED_FILES@) is Normal,
        "target"@ != RECEIVED_FILES@,
        ".git"@ != RECEIVED_FILES@,
{
    reveal_strlit("target");
    reveal_strlit(".git");
    reveal_strlit("received_files");
    assert("target"@.len() == 6 && ".git"@.len() == 4 && RECEIVED_FILES@.len() == 14);
}

/// What is left of a path that is not skipped is not to be skipped either.
proof fn lemma_rest_is_not_skipped(path: Seq<char>, root: Seq<char>)
    requires
        is_plain(path, root),
        !is_skipped(path, root),
    ensures
        !is_skipped(normalized(path, root), root),
{
    let rest = normalized(path, root);
    lemma_plain(path, root);
    lemma_skipped_names();
    assert forall|name: Seq<char>| part_of_name(name) is Normal && names(rest).contains(name) implies #[trigger] names(
        path,
    ).contains(name) by {
        lemma_ordinary_names(rest, name);
        lemma_ordinary_names(path, name);
        let i = parts(rest).index_of(PathPart::Normal(name));
        lemma_part_of_rest(path, root, i);
    }
}

/// A manifest tells what was found: each path in it is that of a directory,
/// which has no hash, or of a file, which has the hash of its content. None of
/// them is to be skipped, and a server takes each of them. Everything that was
/// found, and is not to be skipped, is in it.
pub proof fn manifest_tells_what_was_found(entries: Seq<WalkedEntry>, root: Seq<char>)
    requires
        is_walk(entries, root),
    ensures
        ({
            let manifest = manifest_of(scanned_files(entries, root), root);
            &&& forall|path: Seq<char>| #[trigger]
                manifest.contains_key(path) ==> {
                    &&& exists|i: int| 0 <= i < entries.len() && tells_of(#[trigger] entries[i], root, path, manifest[path])
                    &&& is_listable(path)
                    &&& !is_skipped(path, root)
                }
            &&& forall|i: int|
                0 <= i < entries.len() ==> (scanned(#[trigger] entries[i], root) matches Some(file) ==> {
                    let path = normalized(file.path, root);
                    manifest.contains_key(path) && tells_of(entries[i], root, path, manifest[path])
                })
        }),
    decreases entries.len(),
{
    if entries.len() > 0 {
        let front = entries.drop_last();
        let last = entries.last();
        let before = manifest_of(scanned_files(front, root), root);
        let manifest = manifest_of(scanned_files(entries, root), root);
        assert forall|i: int| 0 <= i < front.len() implies #[trigger] front[i] == entries[i] by {}
        assert(is_walk(front, root));
        manifest_tells_what_was_found(front, root);
        if let Some(file) = scanned(last, root) {
            let own = normalized(file.path, root);
            let files = scanned_files(entries, root);
            assert(files.last() == file);
            assert(files.drop_last() =~= scanned_files(front, root));
            assert(manifest == before.insert(own, file.hash));
            assert(path_of(last) == Some(file.path));
            assert(tells_of(last, root, own, file.hash));
            sent_paths_are_listable(file.path, root);
            lemma_rest_is_not_skipped(file.path, root);
            assert forall|path: Seq<char>| #[trigger] manifest.contains_key(path) implies {
                &&& exists|i: int| 0 <= i < entries.len() && tells_of(#[trigger] entries[i], root, path, manifest[path])
                &&& is_listable(path)
                &&& !is_skipped(path, root)
            } by {
                if path == own {
                    assert(tells_of(entries[entries.len() - 1], root, path, manifest[path]));
                } else {
                    assert(before.contains_key(path));
                    let i = choose|i: int| 0 <= i < front.len() && tells_of(#[trigger] front[i], root, path, before[path]);
                    assert(tells_of(entries[i], root, path, manifest[path]));
                }
            }
            assert forall|i: int| 0 <= i < entries.len() implies (scanned(#[trigger] entries[i], root) matches Some(
                file,
            ) ==> {
                let path = normalized(file.path, root);
                manifest.contains_key(path) && tells_of(entries[i], root, path, manifest[path])
            }) by {
                if i < front.len() {
                    if let Some(other) = scanned(front[i], root) {
                        assert(path_of(entries[i]) == Some(other.path));
                        // Two entries with one relative path would have one path.
                        assert(normalized(other.path, root) != own);
                    }
                }
            }
        } else {
            assert forall|path: Seq<char>| #[trigger] manifest.contains_key(path) implies exists|i: int|
                0 <= i < entries.len() && tells_of(#[trigger] entries[i], root, path, manifest[path]) by {
                let i = choose|i: int| 0 <= i < front.len() && tells_of(#[trigger] front[i], root, path, before[path]);
                assert(tells_of(entries[i], root, path, manifest[path]));
            }
            assert forall|i: int| 0 <= i < entries.len() implies (scanned(#[trigger] entries[i], root) matches Some(
                file,
            ) ==> {
                let path = normalized(file.path, root);
                manifest.contains_key(path) && tells_of(entries[i], root, path, manifest[path])
            }) by {
                if i < front.len() {
                    assert(front[i] == entries[i]);
                }
            }
        }
    }
}

/// A server that lists its files leaves out none of which the path alone says
/// that it is not to be skipped.
proof fn lemma_received_are_not_skipped(path: Seq<char>)
    requires
        is_contained(path),
        !is_skipped(path, RECEIVED_FILES@),
    ensures
        !is_skipped(place_of(path), RECEIVED_FILES@),
{
    let place = place_of(path);
    lemma_skipped_names();
    lemma_received_files();
    lemma_parts(path);
    if is_absolute(path) {
        assert(parts(path)[0] is RootDir);
    }
    reveal_strlit("received_files");
    joined_parts(RECEIVED_FILES@, path);
    assert forall|name: Seq<char>| part_of_name(name) is Normal && name != RECEIVED_FILES@ && names(place).contains(
        name,
    ) implies #[trigger] names(path).contains(name) by {
        lemma_ordinary_names(place, name);
        lemma_ordinary_names(path, name);
        let i = parts(place).index_of(PathPart::Normal(name));
        assert(i > 0);
        assert(steps(path)[i - 1] == PathPart::Normal(name));
        let skip = parts(path).len() - steps(path).len();
        assert(parts(path)[i - 1 + skip] == PathPart::Normal(name));
    }
}

/// The next manifest of a server lists a file that was saved under the path
/// that it came with, and with the hash that was announced for it: if a walk of
/// the received files finds in its place what was written there.
pub proof fn saved_file_is_listed(
    path: Seq<char>,
    expected: Option<Seq<char>>,
    stream: Seq<u8>,
    entries: Seq<WalkedEntry>,
    found: int,
)
    requires
        is_listable(path),
        !is_skipped(path, RECEIVED_FILES@),
        is_walk(entries, RECEIVED_FILES@),
        0 <= found < entries.len(),
        reception(ReceiverView::fresh(path, expected).after_creation(true), stream) matches Reception::Finished {
            file,
            outcome: FileOutcome::Saved { .. },
            ..
        } && (entries[found] matches WalkedEntry::File { path: place, hash: Some(hash), .. } && place@ == place_of(path)
            && hash@ == content_hash(file.content)),
    ensures
        ({
            let manifest = manifest_of(scanned_files(entries, RECEIVED_FILES@), RECEIVED_FILES@);
            let start = ReceiverView::fresh(path, expected).after_creation(true);
            &&& manifest.contains_key(path)
            &&& reception(start, stream) matches Reception::Finished { file, .. } && manifest[path] == Some(
                content_hash(file.content),
            )
            &&& expected is Some ==> manifest[path] == expected
        }),
{
    let start = ReceiverView::fresh(path, expected).after_creation(true);
    kept_files_are_verified(start, stream);
    received_files_are_listed_as_sent(path);
    lemma_received_are_not_skipped(path);
    manifest_tells_what_was_found(entries, RECEIVED_FILES@);
    assert(scanned(entries[found], RECEIVED_FILES@) is Some);
}

} // verus!
