//! One-level directory listings.
//!
//! The filesystem walk itself happens outside the library; it hands in one
//! `Entry` per direct child, in enumeration order. `Directory::from_entries`
//! classifies them: directories become `Folder`, regular files become `File`,
//! and everything else (symlinks, devices, ...) is skipped, in keeping with
//! the service's rule that unsupported entries are omitted with a warning
//! rather than reported.

use vstd::prelude::*;

verus! {

/// What the filesystem reports one direct child of a directory to be.
#[derive(Clone, Copy, Debug, PartialEq, Eq, Structural)]
pub enum EntryKind {
    Folder,
    File,
    Other,
}

/// One raw directory entry as enumerated by the filesystem: its full
/// resolved path string and its kind.
#[derive(Debug)]
pub struct Entry {
    pub name: String,
    pub kind: EntryKind,
}

/// Mathematical model of an `Entry`.
pub struct EntryModel {
    pub name: Seq<char>,
    pub kind: EntryKind,
}

impl View for Entry {
    type V = EntryModel;

    open spec fn view(&self) -> EntryModel {
        EntryModel { name: self.name@, kind: self.kind }
    }
}

/// A listed subdirectory. `name` carries the full resolved path string of
/// the entry, not the bare file name.
#[derive(Debug)]
pub struct FolderInfo {
    name: String,
}

/// A listed regular file. `name` carries the full resolved path string.
#[derive(Debug)]
pub struct FileInfo {
    name: String,
}

/// A listed symbolic link. Present in the protocol's vocabulary, but the
/// lister never emits it: links are skipped.
#[derive(Debug)]
pub struct SymlinkInfo {
    name: String,
}

impl View for FolderInfo {
    type V = Seq<char>;

    closed spec fn view(&self) -> Seq<char> {
        self.name@
    }
}

impl View for FileInfo {
    type V = Seq<char>;

    closed spec fn view(&self) -> Seq<char> {
        self.name@
    }
}

impl View for SymlinkInfo {
    type V = Seq<char>;

    closed spec fn view(&self) -> Seq<char> {
        self.name@
    }
}

impl FolderInfo {
    pub fn new(name: String) -> (r: FolderInfo)
        ensures
            r@ == name@,
    {
        FolderInfo { name }
    }

    /// The full resolved path string this entry carries.
    pub fn name(&self) -> (r: &String)
        ensures
            r@ == self@,
    {
        &self.name
    }
}

impl FileInfo {
    pub fn new(name: String) -> (r: FileInfo)
        ensures
            r@ == name@,
    {
        FileInfo { name }
    }

    /// The full resolved path string this entry carries.
    pub fn name(&self) -> (r: &String)
        ensures
            r@ == self@,
    {
        &self.name
    }
}

impl SymlinkInfo {
    pub fn new(name: String) -> (r: SymlinkInfo)
        ensures
            r@ == name@,
    {
        SymlinkInfo { name }
    }

    /// The full resolved path string this entry carries.
    pub fn name(&self) -> (r: &String)
        ensures
            r@ == self@,
    {
        &self.name
    }
}

/// One classified child of a listed directory.
#[derive(Debug)]
pub enum DirContent {
    Folder(FolderInfo),
    File(FileInfo),
    Symlink(SymlinkInfo),
}

/// Mathematical model of a `DirContent`: the variant with its name.
pub enum DirContentModel {
    Folder(Seq<char>),
    File(Seq<char>),
    Symlink(Seq<char>),
}

impl View for DirContent {
    type V = DirContentModel;

    open spec fn view(&self) -> DirContentModel {
        match self {
            DirContent::Folder(f) => DirContentModel::Folder(f@),
            DirContent::File(f) => DirContentModel::File(f@),
            DirContent::Symlink(s) => DirContentModel::Symlink(s@),
        }
    }
}

/// How one raw entry is listed: folders and files keep their name under the
/// matching variant, anything else is left out.
pub open spec fn listing_of(e: EntryModel) -> Option<DirContentModel> {
    match e.kind {
        EntryKind::Folder => Some(DirContentModel::Folder(e.name)),
        EntryKind::File => Some(DirContentModel::File(e.name)),
        EntryKind::Other => None,
    }
}

/// The classified listing of a whole enumeration: exactly the folder and
/// file entries, in enumeration order, everything else omitted.
pub open spec fn classify(entries: Seq<EntryModel>) -> Seq<DirContentModel> {
    entries.filter_map(|e: EntryModel| listing_of(e))
}

/// One level of listing of a directory: the directory's own path and its
/// classified children, in filesystem enumeration order.
#[derive(Debug)]
pub struct Directory {
    pub path: String,
    pub childs: Vec<DirContent>,
}

/// Mathematical model of a `Directory`.
pub struct DirectoryModel {
    pub path: Seq<char>,
    pub childs: Seq<DirContentModel>,
}

impl View for Directory {
    type V = DirectoryModel;

    open spec fn view(&self) -> DirectoryModel {
        DirectoryModel {
            path: self.path@,
            childs: self.childs@.map_values(|c: DirContent| c@),
        }
    }
}

impl Directory {
    /// Builds the listing of `path` from the raw enumeration `entries`:
    /// exactly the folder and file entries, each under its variant, in the
    /// order given; symlinks and other unsupported entries are omitted.
    pub fn from_entries(path: String, entries: &Vec<Entry>) -> (d: Directory)
        ensures
            d@.path == path@,
            d@.childs == classify(entries@.map_values(|e: Entry| e@)),
    {
        let ghost all = entries@.map_values(|e: Entry| e@);
        let mut childs: Vec<DirContent> = Vec::new();
        let mut i: usize = 0;
        while i < entries.len()
            invariant
                i <= entries.len(),
                all == entries@.map_values(|e: Entry| e@),
                all.len() == entries@.len(),
                childs@.map_values(|c: DirContent| c@) == classify(all.take(i as int)),
            decreases entries.len() - i,
        {
            let ghost before = childs@.map_values(|c: DirContent| c@);
            let entry = &entries[i];
            match entry.kind {
                EntryKind::Folder => {
                    childs.push(DirContent::Folder(FolderInfo { name: entry.name.clone() }));
                }
                EntryKind::File => {
                    childs.push(DirContent::File(FileInfo { name: entry.name.clone() }));
                }
                EntryKind::Other => {}
            }
            proof {
                let prefix = all.take(i as int + 1);
                assert(prefix.drop_last() =~= all.take(i as int));
                assert(prefix.last() == all[i as int]);
                assert(all[i as int] == entries@[i as int]@);
                assert(childs@.map_values(|c: DirContent| c@) =~= classify(prefix));
            }
            i = i + 1;
        }
        proof {
            assert(all.take(entries@.len() as int) =~= all);
        }
        Directory { path, childs }
    }
}

} // verus!
