//! The data model of the namespace: entry kinds, attribute records, namespace
//! entries, and the scan records the builder consumes, together with their
//! ghost models.

use vstd::prelude::*;

verus! {

/// The kinds of entry the namespace exposes: real content files and
/// directories (the root and the synthesized per-tag directories).
#[derive(Debug, Clone, Copy, PartialEq, Eq, Structural)]
pub enum EntryKind {
    RegularFile,
    Directory,
}

/// Per-entry metadata in the shape the protocol reports it. For real files
/// every field but `ino` and `kind` is passed through from the host metadata
/// collaborator; for synthesized tag directories the whole record is made up
/// by the builder. Timestamps are seconds since the Unix epoch.
#[derive(Debug, Clone, Copy, PartialEq, Eq, Structural)]
pub struct Attributes {
    pub ino: u64,
    pub size: u64,
    pub blocks: u64,
    pub atime_secs: i64,
    pub mtime_secs: i64,
    pub ctime_secs: i64,
    pub crtime_secs: i64,
    pub kind: EntryKind,
    pub perm: u16,
    pub nlink: u32,
    pub uid: u32,
    pub gid: u32,
    pub rdev: u32,
    pub blksize: u32,
    pub flags: u32,
}

/// The attribute record synthesized for a tag directory: directory-like,
/// zero size, fixed permissions.
pub open spec fn spec_synth_dir_attrs(ino: u64) -> Attributes {
    Attributes {
        ino,
        size: 0,
        blocks: 0,
        atime_secs: 0,
        mtime_secs: 0,
        ctime_secs: 0,
        crtime_secs: 0,
        kind: EntryKind::Directory,
        perm: 0o555,
        nlink: 2,
        uid: 0,
        gid: 0,
        rdev: 0,
        blksize: 512,
        flags: 0,
    }
}

pub fn synth_dir_attrs(ino: u64) -> (r: Attributes)
    ensures
        r == spec_synth_dir_attrs(ino),
{
    Attributes {
        ino,
        size: 0,
        blocks: 0,
        atime_secs: 0,
        mtime_secs: 0,
        ctime_secs: 0,
        crtime_secs: 0,
        kind: EntryKind::Directory,
        perm: 0o555,
        nlink: 2,
        uid: 0,
        gid: 0,
        rdev: 0,
        blksize: 512,
        flags: 0,
    }
}

/// A host-supplied attribute record with its identity fields overridden: the
/// namespace decides inode numbers and entry kinds itself and copies the rest.
pub open spec fn spec_with_identity(a: Attributes, ino: u64, kind: EntryKind) -> Attributes {
    Attributes { ino, kind, ..a }
}

pub fn with_identity(a: &Attributes, ino: u64, kind: EntryKind) -> (r: Attributes)
    ensures
        r == spec_with_identity(*a, ino, kind),
{
    Attributes { ino, kind, ..*a }
}

/// The ghost model of one namespace entry.
pub ghost struct EntryModel {
    pub inode: u64,
    pub parent: u64,
    pub name: Seq<char>,
    pub kind: EntryKind,
    pub attrs: Attributes,
    /// For a real file, the name of the underlying file in the overlaid
    /// directory (all appearances of one file share it); for a directory,
    /// nothing.
    pub content: Option<Seq<char>>,
}

/// One node of the namespace: the root, a content file under the root, a tag
/// directory, or a file's appearance inside a tag directory.
#[derive(Debug, Clone)]
pub struct Entry {
    pub inode: u64,
    pub parent: u64,
    pub name: String,
    pub kind: EntryKind,
    pub attributes: Attributes,
    pub content_ref: Option<String>,
}

impl View for Entry {
    type V = EntryModel;

    open spec fn view(&self) -> EntryModel {
        EntryModel {
            inode: self.inode,
            parent: self.parent,
            name: self.name@,
            kind: self.kind,
            attrs: self.attributes,
            content: match self.content_ref {
                Option::Some(s) => Option::Some(s@),
                Option::None => Option::None,
            },
        }
    }
}

/// The ghost model of one record of a directory scan.
pub ghost struct ScanModel {
    pub name: Seq<char>,
    pub is_regular: bool,
    pub attrs: Attributes,
    /// The tag list parsed from the file's sidecar, or nothing where no
    /// sidecar exists or it could not be parsed.
    pub tags: Option<Seq<Seq<char>>>,
}

/// One record of a directory scan, as the embedding program hands it to the
/// builder: the entry's name, whether it is a regular file, its host
/// attributes, and the parsed sidecar record if one was found and readable.
pub struct ScanEntry {
    pub name: String,
    pub is_regular: bool,
    pub attributes: Attributes,
    pub tags: Option<crate::Chive>,
}

/// The ghost models of a sequence of scan records, in order.
pub open spec fn scan_models(s: Seq<ScanEntry>) -> Seq<ScanModel> {
    Seq::new(s.len(), |i: int| s[i]@)
}

/// The ghost models of a sequence of entries, in order.
pub open spec fn entry_models(s: Seq<Entry>) -> Seq<EntryModel> {
    Seq::new(s.len(), |i: int| s[i]@)
}

impl View for ScanEntry {
    type V = ScanModel;

    open spec fn view(&self) -> ScanModel {
        ScanModel {
            name: self.name@,
            is_regular: self.is_regular,
            attrs: self.attributes,
            tags: match self.tags {
                Option::Some(c) => Option::Some(c.view_tags()),
                Option::None => Option::None,
            },
        }
    }
}

} // verus!
