//! What a tree holds, path by path.

use vstd::hash_map::StringHashMap;
use vstd::prelude::*;

verus! {

/// The text of an optional string.
pub open spec fn text_of(s: Option<String>) -> Option<Seq<char>> {
    match s {
        Some(s) => Some(s@),
        None => None,
    }
}

/// One line of a manifest: the hash of a file, or `None` for a directory.
#[derive(Debug)]
pub struct ManifestEntry {
    pub path: String,
    pub hash: Option<String>,
}

/// Paths with their hashes: `Some` for files and `None` for directories. No
/// path occurs twice.
///
/// The entries stand in a row, in no particular order, and the index says
/// where the entry of a path stands.
pub struct Manifest {
    index: StringHashMap<usize>,
    entries: Vec<ManifestEntry>,
}

impl View for Manifest {
    type V = Map<Seq<char>, Option<Seq<char>>>;

    closed spec fn view(&self) -> Map<Seq<char>, Option<Seq<char>>> {
        Map::new(
            |path: Seq<char>| self.index@.contains_key(path),
            |path: Seq<char>| text_of(self.entries@[self.index@[path] as int].hash),
        )
    }
}

/// The index and the row agree.
spec fn agree(index: Map<Seq<char>, usize>, entries: Seq<ManifestEntry>) -> bool {
    &&& forall|path: Seq<char>| #[trigger]
        index.contains_key(path) ==> index[path] < entries.len() && entries[index[path] as int].path@ == path
    &&& forall|i: int|
        0 <= i < entries.len() ==> index.contains_key((#[trigger] entries[i]).path@) && index[entries[i].path@]
            == i
}

impl Manifest {
    #[verifier::type_invariant]
    spec fn inv(self) -> bool {
        agree(self.index@, self.entries@)
    }

    /// A manifest of nothing.
    pub fn new() -> (manifest: Self)
        ensures
            manifest@ == Map::<Seq<char>, Option<Seq<char>>>::empty(),
    {
        let manifest = Manifest { index: StringHashMap::new(), entries: Vec::new() };
        assert(manifest@ =~= Map::empty());
        manifest
    }

    /// The number of paths.
    pub fn len(&self) -> (len: usize)
        ensures
            len == self@.dom().len(),
    {
        assert(self@.dom() =~= self.index@.dom());
        self.index.len()
    }

    /// Whether the path is listed.
    pub fn contains(&self, path: &str) -> (listed: bool)
        ensures
            listed == self@.contains_key(path@),
    {
        self.index.contains_key(path)
    }

    /// What is listed for the path.
    pub fn get(&self, path: &str) -> (entry: Option<&Option<String>>)
        ensures
            match entry {
                Some(hash) => self@.contains_key(path@) && self@[path@] == text_of(*hash),
                None => !self@.contains_key(path@),
            },
            entry matches Some(hash) ==> match (self@[path@], *hash) {
                (Some(listed), Some(own)) => listed == own@,
                (None, None) => true,
                _ => false,
            },
    {
        proof {
            use_type_invariant(self);
        }
        match self.index.get(path) {
            Some(at) => Some(&self.entries[*at].hash),
            None => None,
        }
    }

    /// Lists a path, in place of what was listed for it before.
    pub fn insert(&mut self, path: String, hash: Option<String>)
        ensures
            final(self)@ == old(self)@.insert(path@, text_of(hash)),
            match (final(self)@[path@], hash) {
                (Some(listed), Some(own)) => listed == own@,
                (None, None) => true,
                _ => false,
            },
    {
        let mut taken = Manifest::new();
        std::mem::swap(self, &mut taken);
        proof {
            use_type_invariant(&taken);
        }
        let ghost before = taken;
        let Manifest { mut index, mut entries } = taken;
        let ghost key = path@;
        let known: Option<usize> = match index.get(path.as_str()) {
            Some(at) => Some(*at),
            None => None,
        };
        match known {
            Some(at) => {
                entries.set(at, ManifestEntry { path, hash });
            },
            None => {
                let at: usize = entries.len();
                index.insert(path.clone(), at);
                entries.push(ManifestEntry { path, hash });
            },
        }
        *self = Manifest { index, entries };
        assert(self@ =~= before@.insert(key, text_of(hash)));
    }

    /// Strikes a path off the list, if it is there.
    pub fn remove(&mut self, path: &str)
        ensures
            final(self)@ == old(self)@.remove(path@),
    {
        let mut taken = Manifest::new();
        std::mem::swap(self, &mut taken);
        proof {
            use_type_invariant(&taken);
        }
        let ghost before = taken;
        let Manifest { mut index, mut entries } = taken;
        let known: Option<usize> = match index.get(path) {
            Some(at) => Some(*at),
            None => None,
        };
        if let Some(at) = known {
            index.remove(path);
            entries.swap_remove(at);
            if at < entries.len() {
                index.insert(entries[at].path.clone(), at);
            }
        }
        *self = Manifest { index, entries };
        assert(self@ =~= before@.remove(path@));
    }

    /// All entries, each path once, in no particular order.
    pub fn into_entries(self) -> (entries: Vec<ManifestEntry>)
        ensures
            forall|i: int|
                0 <= i < entries@.len() ==> self@.contains_key((#[trigger] entries@[i]).path@)
                    && self@[entries@[i].path@] == text_of(entries@[i].hash) && match (
                    self@[entries@[i].path@],
                    entries@[i].hash,
                ) {
                    (Some(listed), Some(own)) => listed == own@,
                    (None, None) => true,
                    _ => false,
                },
            forall|path: Seq<char>| #[trigger]
                self@.contains_key(path) ==> exists|i: int|
                    0 <= i < entries@.len() && (#[trigger] entries@[i]).path@ == path,
            forall|i: int, j: int|
                0 <= i < j < entries@.len() ==> (#[trigger] entries@[i]).path@ != (#[trigger] entries@[j]).path@,
    {
        proof {
            use_type_invariant(&self);
        }
        self.entries
    }
}

} // verus!
