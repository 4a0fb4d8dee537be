//! A read-only virtual filesystem core that overlays a directory of content
//! files with a tag-derived view: each file may carry a sidecar record listing
//! tags, and alongside the files the namespace exposes one synthetic directory
//! per tag, listing the files that carry that tag.
//!
//! This crate holds the pure core: the namespace builder, the inode table, and
//! the protocol handler answering lookup, attribute-fetch, directory-listing,
//! and read-dispatch queries. All I/O (directory scanning, sidecar parsing,
//! file reads, the kernel transport) is left to the embedding program, which
//! hands the core plain values.

use vstd::prelude::*;

pub mod builder;
pub mod entry;
pub mod serve;
pub mod session;
pub mod sidecar;

verus! {

/// Seconds a caller may cache a lookup or attribute result before re-querying.
pub const TTL_SECS: u64 = 1;

/// The parsed contents of a sidecar record: the ordered list of tags the
/// content file beside it carries. Unknown fields of the serialized form are
/// ignored by the (external) parser; this type holds only what the core reads.
#[derive(Debug, Clone)]
pub struct Chive {
    tags: Vec<String>,
}

impl Chive {
    /// The tag lists this value stands for, as a sequence of character sequences.
    pub closed spec fn view_tags(&self) -> Seq<Seq<char>> {
        self.tags.deep_view()
    }

    pub fn new(tags: Vec<String>) -> (r: Chive)
        ensures
            r.view_tags() == tags.deep_view(),
    {
        Chive { tags }
    }

    pub fn tags(&self) -> (r: &Vec<String>)
        ensures
            r.deep_view() == self.view_tags(),
    {
        &self.tags
    }
}

impl Default for Chive {
    /// An empty tag list: the record written for an untagged content file.
    fn default() -> (r: Chive)
        ensures
            r.view_tags() == Seq::<Seq<char>>::empty(),
    {
        Chive { tags: Vec::new() }
    }
}

/// Errors a protocol operation or a maintenance command can report.
#[derive(Debug, Clone, Copy, PartialEq, Eq, Structural)]
pub enum FsError {
    /// The inode is unknown, the named child does not exist, or a directory
    /// operation was applied to a non-directory.
    NotFound,
    /// The command is reserved and has no behavior yet.
    Unsupported,
}

/// Reserved maintenance command: clearing recorded state is not offered yet.
pub fn chive_clear() -> (r: Result<(), FsError>)
    ensures
        r == Result::<(), FsError>::Err(FsError::Unsupported),
{
    Err(FsError::Unsupported)
}

/// Reserved maintenance command: running a command over the store is not
/// offered yet.
pub fn chive_exec() -> (r: Result<(), FsError>)
    ensures
        r == Result::<(), FsError>::Err(FsError::Unsupported),
{
    Err(FsError::Unsupported)
}

} // verus!
