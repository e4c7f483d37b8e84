//! What a scan keeps of a walk, said of the walked entries themselves.

use vstd::prelude::*;
use crate::convergence::manifest_lists_the_files;
use crate::file_scanner::{is_skipped, manifest_of, normalized, scanned, scanned_files, WalkedEntry};
use crate::path_text::{has_segment, names_by_text};

verus! {

/// Whether the text of a path puts it in build output, in version control data
/// or, unless that is what is scanned, in received files.
pub open spec fn is_skipped_by_text(path: Seq<char>, root: Seq<char>) -> bool {
    has_segment(path, "target"@) || has_segment(path, ".git"@) || root != "received_files"@ && has_segment(
        path,
        "received_files"@,
    )
}

/// A path is skipped if and only if one of the three names stands in it
/// between two `/`, or between one and the beginning or the end.
pub proof fn skipped_by_text(path: Seq<char>, root: Seq<char>)
    ensures
        is_skipped(path, root) <==> has_segment(path, "target"@) || has_segment(path, ".git"@) || root
            != "received_files"@ && has_segment(path, "received_files"@),
{
    reveal_strlit("target");
    reveal_strlit(".git");
    reveal_strlit("received_files");
    assert("target"@.len() == 6 && ".git"@.len() == 4 && "received_files"@.len() == 14 && seq!['.'].len() == 1);
    names_by_text(path, "target"@);
    names_by_text(path, ".git"@);
    names_by_text(path, "received_files"@);
}

/// A scan keeps every directory and every file whose content could be hashed,
/// in the order of the walk and as they were found, but for those whose path
/// holds one of the names to skip. It keeps nothing else.
pub proof fn scan_keeps_all_that_is_not_skipped(entries: Seq<WalkedEntry>, root: Seq<char>) -> (kept: Seq<int>)
    ensures
        forall|k: int| 0 <= k < kept.len() ==> 0 <= #[trigger] kept[k] < entries.len(),
        forall|j: int, k: int| 0 <= j < k < kept.len() ==> #[trigger] kept[j] < #[trigger] kept[k],
        forall|i: int|
            #![trigger entries[i]]
            0 <= i < entries.len() ==> (kept.contains(i) <==> match entries[i] {
                WalkedEntry::Directory { path, size: _ } => !is_skipped_by_text(path@, root),
                WalkedEntry::File { path, size: _, hash } => hash is Some && !is_skipped_by_text(path@, root),
                _ => false,
            }),
        scanned_files(entries, root).len() == kept.len(),
        forall|k: int|
            0 <= k < kept.len() ==> {
                let file = #[trigger] scanned_files(entries, root)[k];
                match entries[kept[k]] {
                    WalkedEntry::Directory { path, size } => file.path == path@ && file.size == size && file.is_dir
                        && file.hash is None,
                    WalkedEntry::File { path, size, hash: Some(hash) } => file.path == path@ && file.size == size
                        && !file.is_dir && file.hash == Some(hash@),
                    _ => false,
                }
            },
    decreases entries.len(),
{
    if entries.len() == 0 {
        Seq::empty()
    } else {
        let front = entries.drop_last();
        let last = front.len() as int;
        let before = scan_keeps_all_that_is_not_skipped(front, root);
        match entries[last] {
            WalkedEntry::Directory { path, .. } => skipped_by_text(path@, root),
            WalkedEntry::File { path, .. } => skipped_by_text(path@, root),
            _ => {},
        }
        let kept = if scanned(entries[last], root) is Some {
            before.push(last)
        } else {
            before
        };
        assert forall|i: int|
            #![trigger entries[i]]
            0 <= i < entries.len() implies (kept.contains(i) <==> match entries[i] {
            WalkedEntry::Directory { path, size: _ } => !is_skipped_by_text(path@, root),
            WalkedEntry::File { path, size: _, hash } => hash is Some && !is_skipped_by_text(path@, root),
            _ => false,
        }) by {
            if i < last {
                assert(front[i] == entries[i]);
                if before.contains(i) {
                    let k = before.index_of(i);
                    assert(kept[k] == i);
                }
                if kept.contains(i) {
                    let k = kept.index_of(i);
                    assert(before[k] == i);
                }
            } else {
                if kept != before {
                    assert(kept[before.len() as int] == last);
                } else if kept.contains(last) {
                    let k = kept.index_of(last);
                    assert(before[k] < front.len());
                }
            }
        }
        assert forall|k: int| 0 <= k < kept.len() implies {
            let file = #[trigger] scanned_files(entries, root)[k];
            match entries[kept[k]] {
                WalkedEntry::Directory { path, size } => file.path == path@ && file.size == size && file.is_dir
                    && file.hash is None,
                WalkedEntry::File { path, size, hash: Some(hash) } => file.path == path@ && file.size == size
                    && !file.is_dir && file.hash == Some(hash@),
                _ => false,
            }
        } by {
            if k < before.len() {
                assert(scanned_files(entries, root)[k] == scanned_files(front, root)[k]);
                assert(front[before[k]] == entries[kept[k]]);
            }
        }
        kept
    }
}

/// The manifest of a walk lists a path if and only if some directory or some
/// hashed file that is not skipped has it, once it is normalized. What no later
/// entry shares the path with is listed with its own hash, and a directory with
/// none.
pub proof fn manifest_lists_all_that_is_not_skipped(entries: Seq<WalkedEntry>, root: Seq<char>)
    ensures
        ({
            let manifest = manifest_of(scanned_files(entries, root), root);
            &&& forall|path: Seq<char>| #[trigger]
                manifest.contains_key(path) <==> exists|i: int|
                    0 <= i < entries.len() && counts_as(#[trigger] entries[i], root, path)
            &&& forall|i: int, path: Seq<char>|
                0 <= i < entries.len() && #[trigger] counts_as(entries[i], root, path) && (forall|j: int|
                    i < j < entries.len() ==> !counts_as(#[trigger] entries[j], root, path)) ==> match entries[i] {
                    WalkedEntry::File { hash: Some(hash), .. } => manifest[path] == Some(hash@),
                    _ => manifest[path] is None,
                }
        }),
{
    let manifest = manifest_of(scanned_files(entries, root), root);
    assert forall|path: Seq<char>| #[trigger] manifest.contains_key(path) <==> exists|i: int|
        0 <= i < entries.len() && counts_as(#[trigger] entries[i], root, path) by {
        lemma_listed_by_entry(entries, root, path);
    }
    assert forall|i: int, path: Seq<char>|
        0 <= i < entries.len() && #[trigger] counts_as(entries[i], root, path) && (forall|j: int|
            i < j < entries.len() ==> !counts_as(#[trigger] entries[j], root, path)) implies match entries[i] {
        WalkedEntry::File { hash: Some(hash), .. } => manifest[path] == Some(hash@),
        _ => manifest[path] is None,
    } by {
        lemma_last_entry_is_listed(entries, root, path, i);
    }
}

/// Which paths are listed.
#[verifier::spinoff_prover]
proof fn lemma_listed_by_entry(entries: Seq<WalkedEntry>, root: Seq<char>, path: Seq<char>)
    ensures
        manifest_of(scanned_files(entries, root), root).contains_key(path) <==> exists|i: int|
            0 <= i < entries.len() && counts_as(#[trigger] entries[i], root, path),
{
    let files = scanned_files(entries, root);
    let kept = scan_keeps_all_that_is_not_skipped(entries, root);
    manifest_lists_the_files(files, root);
    if manifest_of(files, root).contains_key(path) {
        let k = choose|k: int| 0 <= k < files.len() && normalized((#[trigger] files[k]).path, root) == path;
        assert(kept.contains(kept[k]));
        assert(counts_as(entries[kept[k]], root, path));
    }
    if exists|i: int| 0 <= i < entries.len() && counts_as(#[trigger] entries[i], root, path) {
        let i = choose|i: int| 0 <= i < entries.len() && counts_as(#[trigger] entries[i], root, path);
        assert(kept.contains(i));
        let k = kept.index_of(i);
        assert(normalized(files[k].path, root) == path);
    }
}

/// What is listed for a path.
#[verifier::spinoff_prover]
proof fn lemma_last_entry_is_listed(entries: Seq<WalkedEntry>, root: Seq<char>, path: Seq<char>, i: int)
    requires
        0 <= i < entries.len(),
        counts_as(entries[i], root, path),
        forall|j: int| i < j < entries.len() ==> !counts_as(#[trigger] entries[j], root, path),
    ensures
        match entries[i] {
            WalkedEntry::File { hash: Some(hash), .. } => manifest_of(scanned_files(entries, root), root)[path] == Some(
                hash@,
            ),
            _ => manifest_of(scanned_files(entries, root), root)[path] is None,
        },
{
    let files = scanned_files(entries, root);
    let kept = scan_keeps_all_that_is_not_skipped(entries, root);
    manifest_lists_the_files(files, root);
    assert(kept.contains(i));
    let k = kept.index_of(i);
    assert(normalized(files[k].path, root) == path);
    assert forall|j: int| k < j < files.len() implies normalized((#[trigger] files[j]).path, root) != normalized(
        files[k].path,
        root,
    ) by {
        assert(kept[k] < kept[j]);
        assert(kept.contains(kept[j]));
        assert(!counts_as(entries[kept[j]], root, path));
    }
}

/// Whether an entry is a directory or a hashed file, is not skipped, and has
/// the given path once its own is normalized.
pub open spec fn counts_as(entry: WalkedEntry, root: Seq<char>, path: Seq<char>) -> bool {
    match entry {
        WalkedEntry::Directory { path: own, size: _ } => !is_skipped_by_text(own@, root) && normalized(own@, root)
            == path,
        WalkedEntry::File { path: own, size: _, hash } => hash is Some && !is_skipped_by_text(own@, root)
            && normalized(own@, root) == path,
        _ => false,
    }
}

} // verus!
