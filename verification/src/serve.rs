//! The namespace snapshot and the protocol handler: an immutable entry graph
//! with its inode table (inode `i` lives at index `i - 1`), answering lookup,
//! attribute-fetch, directory-listing, and read-dispatch queries.

use vstd::prelude::*;

use crate::FsError;
use crate::TTL_SECS;
use crate::entry::{Attributes, Entry, EntryKind, EntryModel, entry_models};

verus! {

/// Whether an entry model is listed as a child of the directory with inode
/// `dir`. The root is self-parented and is never a child.
pub open spec fn is_child_of(e: EntryModel, dir: u64) -> bool {
    e.parent == dir && e.inode != 1
}

/// The children of the directory with inode `dir`, in entry-table order: the
/// stable listing order every `readdir` call pages through.
pub open spec fn spec_children(m: Seq<EntryModel>, dir: u64) -> Seq<EntryModel>
    decreases m.len(),
{
    if m.len() == 0 {
        Seq::empty()
    } else {
        let p = spec_children(m.drop_last(), dir);
        if is_child_of(m.last(), dir) {
            p.push(m.last())
        } else {
            p
        }
    }
}

pub proof fn lemma_children_len(m: Seq<EntryModel>, dir: u64)
    ensures
        spec_children(m, dir).len() <= m.len(),
    decreases m.len(),
{
    if m.len() > 0 {
        lemma_children_len(m.drop_last(), dir);
    }
}

/// Whether inode `ino` names an entry of the table.
pub open spec fn spec_has_inode(m: Seq<EntryModel>, ino: u64) -> bool {
    1 <= ino <= m.len()
}

/// The entry the inode table resolves `ino` to.
pub open spec fn spec_entry_at(m: Seq<EntryModel>, ino: u64) -> EntryModel {
    m[ino - 1]
}

/// Whether inode `ino` names a directory entry.
pub open spec fn spec_is_dir(m: Seq<EntryModel>, ino: u64) -> bool {
    spec_has_inode(m, ino) && spec_entry_at(m, ino).kind == EntryKind::Directory
}

/// The index of the first entry at or after `i` that is a child of `parent`
/// named `name`. Under `wf_models` at most one such entry exists.
pub open spec fn spec_first_match(
    m: Seq<EntryModel>,
    parent: u64,
    name: Seq<char>,
    i: int,
) -> Option<int>
    decreases m.len() - i,
{
    if i < 0 || i >= m.len() {
        Option::None
    } else if is_child_of(m[i], parent) && m[i].name == name {
        Option::Some(i)
    } else {
        spec_first_match(m, parent, name, i + 1)
    }
}

/// What `lookup(parent, name)` resolves to: the child of that directory with
/// exactly that name, or nothing if `parent` is no directory or no child
/// carries the name.
pub open spec fn spec_lookup(m: Seq<EntryModel>, parent: u64, name: Seq<char>) -> Option<
    EntryModel,
> {
    if spec_is_dir(m, parent) {
        match spec_first_match(m, parent, name, 0) {
            Option::Some(i) => Option::Some(m[i]),
            Option::None => Option::None,
        }
    } else {
        Option::None
    }
}

/// The full contract of `lookup`: success exactly when the directory has the
/// child, the returned attributes are the child's, and the fixed cache TTL
/// comes with every success.
pub open spec fn lookup_post(
    m: Seq<EntryModel>,
    parent: u64,
    name: Seq<char>,
    r: Result<(Attributes, u64), FsError>,
) -> bool {
    match r {
        Result::Ok(p) => {
            &&& spec_lookup(m, parent, name) is Some
            &&& p.0 == spec_lookup(m, parent, name)->Some_0.attrs
            &&& p.1 == TTL_SECS
        },
        Result::Err(e) => {
            &&& e == FsError::NotFound
            &&& spec_lookup(m, parent, name) is None
        },
    }
}

/// Well-formedness of an entry table:
/// - it is the inode table: the entry at index `i` carries inode `i + 1`;
/// - index 0 holds the root: a self-parented directory with inode 1;
/// - every other entry's parent is an existing directory entry;
/// - each entry's attributes agree with its identity (`ino`, `kind`);
/// - an entry holds a content reference exactly when it is a regular file;
/// - no directory lists two children with one name.
pub open spec fn wf_models(m: Seq<EntryModel>) -> bool {
    &&& 1 <= m.len() <= u64::MAX
    &&& (forall|i: int| 0 <= i < m.len() ==> (#[trigger] m[i]).inode == i + 1)
    &&& m[0].parent == 1
    &&& m[0].kind == EntryKind::Directory
    &&& (forall|i: int|
        1 <= i < m.len() ==> {
            &&& 1 <= (#[trigger] m[i]).parent <= m.len()
            &&& m[m[i].parent - 1].kind == EntryKind::Directory
        })
    &&& (forall|i: int|
        0 <= i < m.len() ==> {
            &&& (#[trigger] m[i]).attrs.ino == m[i].inode
            &&& m[i].attrs.kind == m[i].kind
        })
    &&& (forall|i: int|
        0 <= i < m.len() ==> ((#[trigger] m[i]).kind == EntryKind::RegularFile <==> m[i].content
            is Some))
    &&& (forall|i: int, j: int|
        #![trigger m[i].name, m[j].name]
        1 <= i < j < m.len() && m[i].parent == m[j].parent ==> m[i].name != m[j].name)
}

/// One immutable namespace generation together with its inode table: the
/// entry with inode `i` is stored at index `i - 1`, so the table is a
/// bijection between inode numbers and entries by construction.
#[derive(Debug)]
pub struct Namespace {
    entries: Vec<Entry>,
}

/// One row of a directory listing: the child's inode, the offset at which the
/// listing resumes after this row, the child's kind, and its name.
#[derive(Debug)]
pub struct DirEntry {
    pub inode: u64,
    pub next_offset: u64,
    pub kind: EntryKind,
    pub name: String,
}

/// The ghost model of one directory-listing row.
pub ghost struct DirEntryModel {
    pub inode: u64,
    pub next_offset: u64,
    pub kind: EntryKind,
    pub name: Seq<char>,
}

impl View for DirEntry {
    type V = DirEntryModel;

    open spec fn view(&self) -> DirEntryModel {
        DirEntryModel {
            inode: self.inode,
            next_offset: self.next_offset,
            kind: self.kind,
            name: self.name@,
        }
    }
}

/// The ghost models of a sequence of listing rows, in order.
pub open spec fn listing_models(s: Seq<DirEntry>) -> Seq<DirEntryModel> {
    Seq::new(s.len(), |i: int| s[i]@)
}

/// The listing row for a child entry at position `k` of its directory's
/// child list: the row's continuation offset is `k + 1`.
pub open spec fn row_of(e: EntryModel, k: int) -> DirEntryModel {
    DirEntryModel { inode: e.inode, next_offset: (k + 1) as u64, kind: e.kind, name: e.name }
}

/// The full, stably-ordered listing of the directory with inode `dir`: its
/// children in entry-table order, each row carrying the continuation offset
/// `position + 1`.
pub open spec fn spec_listing(m: Seq<EntryModel>, dir: u64) -> Seq<DirEntryModel> {
    let ch = spec_children(m, dir);
    Seq::new(ch.len(), |k: int| row_of(ch[k], k))
}

/// The suffix of the listing that a call with cursor `offset` must return: an
/// offset at or past the end yields an empty page.
pub open spec fn spec_listing_from(m: Seq<EntryModel>, dir: u64, offset: u64) -> Seq<
    DirEntryModel,
> {
    let full = spec_listing(m, dir);
    if offset <= full.len() {
        full.skip(offset as int)
    } else {
        Seq::empty()
    }
}

impl Namespace {
    /// The entry models of this generation, in inode order.
    pub closed spec fn models(&self) -> Seq<EntryModel> {
        entry_models(self.entries@)
    }

    pub open spec fn wf(&self) -> bool {
        wf_models(self.models())
    }

    pub(crate) fn from_entries(entries: Vec<Entry>) -> (r: Namespace)
        requires
            wf_models(entry_models(entries@)),
        ensures
            r.models() == entry_models(entries@),
    {
        Namespace { entries }
    }

    /// How many entries (and thus inodes) this generation holds.
    pub fn entry_count(&self) -> (r: usize)
        ensures
            r == self.models().len(),
    {
        self.entries.len()
    }

    /// Attribute fetch: resolves an inode to its entry's attributes, which
    /// carry the entry's own inode number and kind, plus the cache TTL.
    /// Fails with `NotFound` exactly when the inode is not in the table.
    pub fn getattr(&self, ino: u64) -> (r: Result<(Attributes, u64), FsError>)
        requires
            self.wf(),
        ensures
            match r {
                Result::Ok(p) => {
                    &&& spec_has_inode(self.models(), ino)
                    &&& p.0 == spec_entry_at(self.models(), ino).attrs
                    &&& p.0.ino == ino
                    &&& p.0.kind == spec_entry_at(self.models(), ino).kind
                    &&& p.1 == TTL_SECS
                },
                Result::Err(e) => {
                    &&& e == FsError::NotFound
                    &&& !spec_has_inode(self.models(), ino)
                },
            },
    {
        if 1 <= ino && ino <= self.entries.len() as u64 {
            let idx = (ino - 1) as usize;
            let e = &self.entries[idx];
            Ok((e.attributes, TTL_SECS))
        } else {
            Err(FsError::NotFound)
        }
    }

    /// Name lookup: resolves `(parent, name)` to the attributes of the single
    /// child of that directory carrying that name, plus the cache TTL. Fails
    /// with `NotFound` exactly when `parent` is not a directory of the table
    /// or no child of it has the name.
    pub fn lookup(&self, parent: u64, name: &String) -> (r: Result<(Attributes, u64), FsError>)
        requires
            self.wf(),
        ensures
            lookup_post(self.models(), parent, name@, r),
    {
        let ghost m = self.models();
        let n = self.entries.len();
        if !(1 <= parent && parent <= n as u64) {
            return Err(FsError::NotFound);
        }
        let pidx = (parent - 1) as usize;
        if !matches!(self.entries[pidx].kind, EntryKind::Directory) {
            return Err(FsError::NotFound);
        }
        assert(spec_is_dir(m, parent));
        for i in 0..n
            invariant
                n == self.entries.len(),
                m == self.models(),
                spec_is_dir(m, parent),
                spec_first_match(m, parent, name@, 0) == spec_first_match(m, parent, name@, i as int),
        {
            let e = &self.entries[i];
            assert(e@ == m[i as int]);
            if e.parent == parent && e.inode != 1 && e.name == *name {
                assert(spec_first_match(m, parent, name@, i as int) == Option::Some(i as int));
                return Ok((e.attributes, TTL_SECS));
            }
        }
        Err(FsError::NotFound)
    }

    /// Directory listing: returns the suffix of the directory's full, stable
    /// child listing starting at position `offset`; each row carries the
    /// cursor at which the listing resumes right after it. Fails with
    /// `NotFound` exactly when `ino` is not a directory of the table.
    pub fn readdir(&self, ino: u64, offset: u64) -> (r: Result<Vec<DirEntry>, FsError>)
        requires
            self.wf(),
        ensures
            match r {
                Result::Ok(v) => {
                    &&& spec_is_dir(self.models(), ino)
                    &&& listing_models(v@) == spec_listing_from(self.models(), ino, offset)
                },
                Result::Err(e) => {
                    &&& e == FsError::NotFound
                    &&& !spec_is_dir(self.models(), ino)
                },
            },
    {
        let ghost m = self.models();
        let n = self.entries.len();
        if !(1 <= ino && ino <= n as u64) {
            return Err(FsError::NotFound);
        }
        let idx = (ino - 1) as usize;
        if !matches!(self.entries[idx].kind, EntryKind::Directory) {
            return Err(FsError::NotFound);
        }
        assert(spec_is_dir(m, ino));
        let mut out: Vec<DirEntry> = Vec::new();
        let mut pos: u64 = 0;
        for i in 0..n
            invariant
                n == self.entries.len(),
                m == self.models(),
                spec_is_dir(m, ino),
                pos == spec_children(m.take(i as int), ino).len(),
                pos <= i,
                listing_models(out@) == spec_listing_from_partial(m, i as int, ino, offset),
        {
            let e = &self.entries[i];
            assert(e@ == m[i as int]);
            proof {
                lemma_listing_step(m, i as int, ino, offset);
                assert(m.take(i + 1).drop_last() =~= m.take(i as int));
                assert(m.take(i + 1).last() == m[i as int]);
            }
            if e.parent == ino && e.inode != 1 {
                if pos >= offset {
                    let row = DirEntry {
                        inode: e.inode,
                        next_offset: pos + 1,
                        kind: e.kind,
                        name: e.name.clone(),
                    };
                    out.push(row);
                }
                pos = pos + 1;
            }
            proof {
                assert(listing_models(out@) =~= spec_listing_from_partial(m, i + 1, ino, offset));
            }
        }
        proof {
            assert(m.take(n as int) =~= m);
            assert(listing_models(out@) =~= spec_listing_from(m, ino, offset));
        }
        Ok(out)
    }

    /// Read dispatch: resolves an inode to the content reference its file
    /// entry shares with every appearance of the file. Fails with `NotFound`
    /// exactly when the inode is not in the table or names a directory.
    pub fn content_ref_for(&self, ino: u64) -> (r: Result<&String, FsError>)
        requires
            self.wf(),
        ensures
            match r {
                Result::Ok(s) => {
                    &&& spec_has_inode(self.models(), ino)
                    &&& spec_entry_at(self.models(), ino).content == Option::Some(s@)
                },
                Result::Err(e) => {
                    &&& e == FsError::NotFound
                    &&& !(spec_has_inode(self.models(), ino) && spec_entry_at(self.models(), ino).content is Some)
                },
            },
    {
        if 1 <= ino && ino <= self.entries.len() as u64 {
            let idx = (ino - 1) as usize;
            match &self.entries[idx].content_ref {
                Option::Some(s) => Ok(s),
                Option::None => Err(FsError::NotFound),
            }
        } else {
            Err(FsError::NotFound)
        }
    }
}

/// The part of the listing suffix contributed by the first `i` entries of the
/// table: what the listing loop has emitted after scanning them.
pub open spec fn spec_listing_from_partial(
    m: Seq<EntryModel>,
    i: int,
    dir: u64,
    offset: u64,
) -> Seq<DirEntryModel> {
    let ch = spec_children(m.take(i), dir);
    let full = Seq::new(ch.len(), |k: int| row_of(ch[k], k));
    if offset <= full.len() {
        full.skip(offset as int)
    } else {
        Seq::empty()
    }
}

/// How one more scanned entry extends what the listing loop has emitted: a
/// child at or past the cursor adds its row, anything else changes nothing.
proof fn lemma_listing_step(m: Seq<EntryModel>, i: int, dir: u64, offset: u64)
    requires
        0 <= i < m.len(),
    ensures
        ({
            let pos = spec_children(m.take(i), dir).len() as int;
            let before = spec_listing_from_partial(m, i, dir, offset);
            let after = spec_listing_from_partial(m, i + 1, dir, offset);
            if is_child_of(m[i], dir) {
                if pos >= offset {
                    after == before.push(row_of(m[i], pos))
                } else {
                    after == before
                }
            } else {
                after == before
            }
        }),
{
    let ch = spec_children(m.take(i), dir);
    let pos = ch.len() as int;
    assert(m.take(i + 1).drop_last() =~= m.take(i));
    assert(m.take(i + 1).last() == m[i]);
    let ch2 = spec_children(m.take(i + 1), dir);
    let full = Seq::new(ch.len(), |k: int| row_of(ch[k], k));
    let full2 = Seq::new(ch2.len(), |k: int| row_of(ch2[k], k));
    if is_child_of(m[i], dir) {
        assert(ch2 == ch.push(m[i]));
        assert(full2 =~= full.push(row_of(m[i], pos)));
        if pos >= offset {
            assert(full2.skip(offset as int) =~= full.skip(offset as int).push(
                row_of(m[i], pos),
            ));
        } else {
            assert(offset > full.len());
            if offset <= full2.len() {
                assert(full2.skip(offset as int) =~= Seq::<DirEntryModel>::empty());
            }
        }
    } else {
        assert(ch2 == ch);
        assert(full2 =~= full);
        if offset <= full.len() {
            assert(full2.skip(offset as int) =~= full.skip(offset as int));
        }
    }
}

/// Where a read at cursor `offset` starts within a file of length `len`: at
/// the cursor, clamped to the end of the file.
pub open spec fn spec_read_start(len: int, offset: u64) -> int {
    if offset <= len {
        offset as int
    } else {
        len
    }
}

/// Where a read of `size` bytes at cursor `offset` ends within a file of
/// length `len`: after `size` bytes, clamped to the end of the file.
pub open spec fn spec_read_end(len: int, offset: u64, size: u32) -> int {
    if offset + size <= len {
        offset + size
    } else {
        len
    }
}

/// The data part of `read`: of the file's bytes, returns the window starting
/// at `offset` of at most `size` bytes, clamped to the file's length. A
/// cursor at or past the end yields zero bytes, not an error.
pub fn read_slice(data: &Vec<u8>, offset: u64, size: u32) -> (r: Vec<u8>)
    ensures
        r@ == data@.subrange(
            spec_read_start(data@.len() as int, offset),
            spec_read_end(data@.len() as int, offset, size),
        ),
{
    let len = data.len();
    let start: usize = if offset >= len as u64 {
        len
    } else {
        offset as usize
    };
    let remaining = len - start;
    let take: usize = if (size as u64) < (remaining as u64) {
        size as usize
    } else {
        remaining
    };
    let mut r: Vec<u8> = Vec::new();
    let ghost lo = spec_read_start(data@.len() as int, offset);
    let ghost hi = spec_read_end(data@.len() as int, offset, size);
    assert(start == lo);
    assert(start + take == hi);
    for k in 0..take
        invariant
            take <= data.len() - start,
            r@ =~= data@.subrange(start as int, start + k),
    {
        r.push(data[start + k]);
        assert(r@ =~= data@.subrange(start as int, start + k + 1));
    }
    assert(r@ =~= data@.subrange(lo, hi));
    r
}

/// Every child's inode exceeds none of the table's bounds, and children
/// appear in strictly increasing inode order: the listing repeats no entry.
proof fn lemma_children_inodes(m: Seq<EntryModel>, dir: u64)
    requires
        forall|i: int| 0 <= i < m.len() ==> (#[trigger] m[i]).inode == i + 1,
    ensures
        forall|a: int|
            0 <= a < spec_children(m, dir).len() ==> (#[trigger] spec_children(m, dir)[a]).inode
                <= m.len(),
        forall|a: int, b: int|
            0 <= a < b < spec_children(m, dir).len() ==> spec_children(m, dir)[a].inode
                < spec_children(m, dir)[b].inode,
    decreases m.len(),
{
    if m.len() > 0 {
        let d = m.drop_last();
        assert(forall|i: int| 0 <= i < d.len() ==> (#[trigger] d[i]).inode == i + 1);
        lemma_children_inodes(d, dir);
        let p = spec_children(d, dir);
        if is_child_of(m.last(), dir) {
            assert(m.last().inode == m.len());
            assert(forall|a: int|
                0 <= a < p.len() ==> (#[trigger] spec_children(m, dir)[a]) == p[a]);
        }
    }
}

/// Paging through a directory listing along the returned continuation
/// offsets yields the full, duplicate-free child list exactly once: the rows
/// before any cut end with the cut as their continuation offset, and the
/// page starting there is exactly the rest of the listing.
pub proof fn lemma_listing_pagination(m: Seq<EntryModel>, dir: u64, k: int)
    requires
        wf_models(m),
        0 <= k <= spec_listing(m, dir).len(),
    ensures
        spec_listing_from(m, dir, 0) == spec_listing(m, dir),
        spec_listing(m, dir).take(k) + spec_listing_from(m, dir, k as u64) == spec_listing(
            m,
            dir,
        ),
        k > 0 ==> spec_listing(m, dir)[k - 1].next_offset == k,
        forall|a: int, b: int|
            0 <= a < b < spec_listing(m, dir).len() ==> spec_listing(m, dir)[a].inode
                != spec_listing(m, dir)[b].inode,
{
    let full = spec_listing(m, dir);
    lemma_children_len(m, dir);
    lemma_children_inodes(m, dir);
    assert(spec_listing_from(m, dir, 0) =~= full);
    assert((k as u64) as int == k);
    assert(full.take(k) + spec_listing_from(m, dir, k as u64) =~= full);
}

/// Within one namespace generation, repeating a lookup gives the same
/// answer: the contract pins the result as a function of the generation, the
/// parent, and the name.
pub proof fn lemma_lookup_idempotent(
    m: Seq<EntryModel>,
    parent: u64,
    name: Seq<char>,
    r1: Result<(Attributes, u64), crate::FsError>,
    r2: Result<(Attributes, u64), crate::FsError>,
)
    requires
        lookup_post(m, parent, name, r1),
        lookup_post(m, parent, name, r2),
    ensures
        r1 == r2,
{
}

/// Reading from the start of a file returns its first `min(size, len)`
/// bytes; reading at or past the end returns zero bytes.
pub proof fn lemma_read_window(data: Seq<u8>, offset: u64, size: u32)
    ensures
        offset == 0 ==> data.subrange(
            spec_read_start(data.len() as int, 0),
            spec_read_end(data.len() as int, 0, size),
        ) == (if size <= data.len() {
            data.take(size as int)
        } else {
            data
        }),
        offset >= data.len() ==> data.subrange(
            spec_read_start(data.len() as int, offset),
            spec_read_end(data.len() as int, offset, size),
        ) == Seq::<u8>::empty(),
{
    if offset == 0 {
        if size <= data.len() {
            assert(data.subrange(0, size as int) =~= data.take(size as int));
        } else {
            assert(data.subrange(0, data.len() as int) =~= data);
        }
    }
    if offset >= data.len() {
        assert(data.subrange(data.len() as int, data.len() as int) =~= Seq::<u8>::empty());
    }
}

} // verus!
