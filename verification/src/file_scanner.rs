//! From the entries of a directory walk to the files of a tree and its manifest.

use vstd::prelude::*;
use crate::manifest::{text_of, Manifest};
use crate::path_text::has_segment;
use crate::paths::{find_stripped, has_name, names, same_text, strip_prefix};
use crate::scan_laws::{is_skipped_by_text, skipped_by_text};
use crate::text::to_chars;

verus! {

/// The directory in which a server keeps what it received.
pub const RECEIVED_FILES: &'static str = "received_files";

/// A file or a directory of a scanned tree.
#[derive(Debug)]
pub struct FileInfo {
    pub path: String,
    pub size: u64,
    pub is_dir: bool,
    /// `Some` for files and `None` for directories.
    pub hash: Option<String>,
}

/// What a [`FileInfo`] says.
pub struct FileInfoView {
    pub path: Seq<char>,
    pub size: u64,
    pub is_dir: bool,
    pub hash: Option<Seq<char>>,
}

impl View for FileInfo {
    type V = FileInfoView;

    open spec fn view(&self) -> FileInfoView {
        FileInfoView {
            path: self.path@,
            size: self.size,
            is_dir: self.is_dir,
            hash: text_of(self.hash),
        }
    }
}

impl Clone for FileInfo {
    fn clone(&self) -> (copy: Self)
        ensures
            copy@ == self@,
            copy.path@ == self.path@ && copy.size == self.size && copy.is_dir == self.is_dir,
            match (copy.hash, self.hash) {
                (Some(copied), Some(own)) => copied@ == own@,
                (None, None) => true,
                _ => false,
            },
    {
        let hash = match &self.hash {
            Some(hash) => Some(hash.clone()),
            None => None,
        };
        FileInfo { path: self.path.clone(), size: self.size, is_dir: self.is_dir, hash }
    }
}

/// What a directory walk found out about one entry.
#[derive(Debug)]
pub enum WalkedEntry {
    /// The entry could not be read at all.
    Unreadable,
    /// The metadata of the entry could not be read.
    NoMetadata { path: String },
    Directory { path: String, size: u64 },
    /// Anything that is not a directory. There is no hash if the content could
    /// not be read.
    File { path: String, size: u64, hash: Option<String> },
}

/// Whether a scan leaves a path out: it lies in build output, in version
/// control data or, unless that is what is scanned, in received files.
pub open spec fn is_skipped(path: Seq<char>, root: Seq<char>) -> bool {
    ||| names(path).contains("target"@)
    ||| names(path).contains(".git"@)
    ||| root != RECEIVED_FILES@ && names(path).contains(RECEIVED_FILES@)
}

/// What a scan of `root` makes of an entry.
pub open spec fn scanned(entry: WalkedEntry, root: Seq<char>) -> Option<FileInfoView> {
    match entry {
        WalkedEntry::Directory { path, size } => if is_skipped(path@, root) {
            None
        } else {
            Some(FileInfoView { path: path@, size, is_dir: true, hash: None })
        },
        WalkedEntry::File { path, size, hash: Some(hash) } => if is_skipped(path@, root) {
            None
        } else {
            Some(FileInfoView { path: path@, size, is_dir: false, hash: Some(hash@) })
        },
        _ => None,
    }
}

/// What a scan of `root` makes of a walk: the entries that count, in order.
pub open spec fn scanned_files(entries: Seq<WalkedEntry>, root: Seq<char>) -> Seq<FileInfoView>
    decreases entries.len(),
{
    if entries.len() == 0 {
        Seq::empty()
    } else {
        let before = scanned_files(entries.drop_last(), root);
        match scanned(entries.last(), root) {
            Some(file) => before.push(file),
            None => before,
        }
    }
}

/// The path relative to `root`, or as it is if it does not lie under `root`,
/// with every backslash turned into a slash.
pub open spec fn normalized(path: Seq<char>, root: Seq<char>) -> Seq<char> {
    let relative = match strip_prefix(path, root) {
        Some(rest) => rest,
        None => path,
    };
    relative.map_values(
        |c: char|
            if c == '\\' {
                '/'
            } else {
                c
            },
    )
}

/// The manifest of a tree. Where two files share a normalized path, the later
/// one counts.
pub open spec fn manifest_of(files: Seq<FileInfoView>, root: Seq<char>) -> Map<Seq<char>, Option<Seq<char>>>
    decreases files.len(),
{
    if files.len() == 0 {
        Map::empty()
    } else {
        manifest_of(files.drop_last(), root).insert(normalized(files.last().path, root), files.last().hash)
    }
}

pub open spec fn file_views(files: Seq<FileInfo>) -> Seq<FileInfoView> {
    files.map_values(|file: FileInfo| file@)
}

/// Whether a scan of `root` leaves the path out, so that there is no need to
/// look at the file.
pub fn should_skip(path: &str, root: &str) -> (skip: bool)
    ensures
        skip == is_skipped(path@, root@),
        skip <==> has_segment(path@, "target"@) || has_segment(path@, ".git"@) || root@ != "received_files"@
            && has_segment(path@, "received_files"@),
{
    proof {
        skipped_by_text(path@, root@);
    }
    let chars = to_chars(path);
    has_name(&chars, "target") || has_name(&chars, ".git") || (!same_text(root, RECEIVED_FILES) && has_name(
        &chars,
        RECEIVED_FILES,
    ))
}

/// What a scan of `root` makes of one entry of the walk.
pub fn scan_entry(entry: WalkedEntry, root: &str) -> (file: Option<FileInfo>)
    ensures
        match file {
            Some(file) => scanned(entry, root@) == Some(file@),
            None => scanned(entry, root@) is None,
        },
        // Every directory and every hashed file is kept as it is, unless its
        // path holds one of the names.
        match entry {
            WalkedEntry::Directory { path, size } => if is_skipped_by_text(path@, root@) {
                file is None
            } else {
                file matches Some(found) && found.path@ == path@ && found.size == size && found.is_dir
                    && found.hash is None
            },
            WalkedEntry::File { path, size, hash: Some(hash) } => if is_skipped_by_text(path@, root@) {
                file is None
            } else {
                file matches Some(found) && found.path@ == path@ && found.size == size && !found.is_dir
                    && (found.hash matches Some(own) && own@ == hash@)
            },
            _ => file is None,
        },
{
    match entry {
        WalkedEntry::Unreadable => None,
        WalkedEntry::NoMetadata { path: _ } => None,
        WalkedEntry::Directory { path, size } => {
            if should_skip(path.as_str(), root) {
                None
            } else {
                Some(FileInfo { path, size, is_dir: true, hash: None })
            }
        },
        WalkedEntry::File { path, size, hash } => {
            if should_skip(path.as_str(), root) {
                None
            } else {
                match hash {
                    Some(hash) => Some(FileInfo { path, size, is_dir: false, hash: Some(hash) }),
                    None => None,
                }
            }
        },
    }
}

/// The files and directories found by a walk of `root`.
pub fn scan_directory(root: &str, entries: Vec<WalkedEntry>) -> (files: Vec<FileInfo>)
    ensures
        file_views(files@) == scanned_files(entries@, root@),
        files@.len() == scanned_files(entries@, root@).len(),
        forall|k: int|
            0 <= k < files@.len() ==> {
                let file = scanned_files(entries@, root@)[k];
                &&& (#[trigger] files@[k]).path@ == file.path && files@[k].size == file.size
                &&& files@[k].is_dir == file.is_dir
                &&& match (files@[k].hash, file.hash) {
                    (Some(own), Some(hash)) => own@ == hash,
                    (None, None) => true,
                    _ => false,
                }
            },
{
    let mut files: Vec<FileInfo> = Vec::new();
    assert(file_views(files@) =~= scanned_files(entries@.take(0), root@));
    for entry in it: entries
        invariant
            it.seq() == entries@,
            file_views(files@) == scanned_files(entries@.take(it.index() as int), root@),
    {
        let ghost seen = entries@.take(it.index() + 1);
        assert(seen.drop_last() =~= entries@.take(it.index() as int));
        let ghost before = files@;
        if let Some(file) = scan_entry(entry, root) {
            files.push(file);
            assert(file_views(files@) =~= file_views(before).push(file@));
        }
    }
    assert(entries@.take(entries@.len() as int) =~= entries@);
    assert(files@.len() == file_views(files@).len());
    assert forall|k: int| 0 <= k < files@.len() implies (#[trigger] files@[k])@ == scanned_files(entries@, root@)[k] by {
        assert(file_views(files@)[k] == files@[k]@);
    }
    files
}

/// The manifest of the tree found by a walk of `root`.
pub fn build_manifest(root: &str, entries: Vec<WalkedEntry>) -> (manifest: Manifest)
    ensures
        manifest@ == manifest_of(scanned_files(entries@, root@), root@),
{
    let files = scan_directory(root, entries);
    let mut manifest = Manifest::new();
    let ghost views = file_views(files@);
    for file in it: files
        invariant
            it.seq() == files@,
            views == file_views(files@),
            manifest@ == manifest_of(views.take(it.index() as int), root@),
    {
        let ghost seen = views.take(it.index() + 1);
        assert(seen.drop_last() =~= views.take(it.index() as int));
        let path = normalize_path(file.path.as_str(), root);
        manifest.insert(path, file.hash);
    }
    assert(views.take(views.len() as int) =~= views);
    manifest
}

/// The path as a manifest lists it.
pub fn normalize_path(path: &str, root: &str) -> (normal: String)
    ensures
        normal@ == normalized(path@, root@),
{
    let path_chars = to_chars(path);
    let root_chars = to_chars(root);
    let piece: (usize, usize) = match find_stripped(&path_chars, &root_chars) {
        Some(piece) => piece,
        None => (0, path_chars.len()),
    };
    let ghost relative = path_chars@.subrange(piece.0 as int, piece.1 as int);
    assert(strip_prefix(path@, root@) is None ==> relative =~= path@);
    let mut normal = String::new();
    let mut i: usize = piece.0;
    while i < piece.1
        invariant
            piece.0 <= i <= piece.1 <= path_chars@.len(),
            relative == path_chars@.subrange(piece.0 as int, piece.1 as int),
            normal@.len() == i - piece.0,
            forall|k: int|
                0 <= k < normal@.len() ==> #[trigger] normal@[k] == (if relative[k] == '\\' {
                    '/'
                } else {
                    relative[k]
                }),
        decreases piece.1 - i,
    {
        if path_chars[i] == '\\' {
            normal.push('/');
        } else {
            normal.push(path_chars[i]);
        }
        i += 1;
    }
    assert(normal@ =~= normalized(path@, root@));
    normal
}

/// A scan leaves out what is to be skipped, and what it finds has a hash if and
/// only if it is not a directory.
pub proof fn scanned_files_are_proper(entries: Seq<WalkedEntry>, root: Seq<char>)
    ensures
        forall|i: int|
            0 <= i < scanned_files(entries, root).len() ==> {
                let file = #[trigger] scanned_files(entries, root)[i];
                !is_skipped(file.path, root) && file.is_dir == (file.hash is None)
            },
    decreases entries.len(),
{
    if entries.len() > 0 {
        scanned_files_are_proper(entries.drop_last(), root);
    }
}

} // verus!
