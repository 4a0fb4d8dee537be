//! The entry index builder: turns one directory scan, with the tag lists the
//! sidecar collaborator parsed for it, into a well-formed namespace
//! generation. Inode numbers are assigned sequentially in one pass: 1 for the
//! root, then the content files in scan order, then one directory per
//! distinct tag in first-appearance order, then the per-tag file appearances,
//! grouped by tag.

use vstd::prelude::*;

use crate::entry::{
    Attributes, Entry, EntryKind, EntryModel, ScanEntry, ScanModel, scan_models, entry_models,
    spec_with_identity, with_identity, spec_synth_dir_attrs, synth_dir_attrs,
};
use crate::sidecar::{spec_is_content, is_content, scan_has_name};
use crate::serve::{Namespace, wf_models};

verus! {

/// The tag list of a scan record: what its sidecar carried, or nothing.
pub open spec fn tags_of(e: ScanModel) -> Seq<Seq<char>> {
    match e.tags {
        Option::Some(ts) => ts,
        Option::None => Seq::empty(),
    }
}

/// Whether a scan record carries the tag.
pub open spec fn has_tag(e: ScanModel, t: Seq<char>) -> bool {
    tags_of(e).contains(t)
}

/// The content files of the scan, in scan order.
pub open spec fn content_of(scan: Seq<ScanModel>) -> Seq<ScanModel>
    decreases scan.len(),
{
    if scan.len() == 0 {
        Seq::empty()
    } else {
        let p = content_of(scan.drop_last());
        if spec_is_content(scan.last()) {
            p.push(scan.last())
        } else {
            p
        }
    }
}

/// The tag lists of the content files, concatenated in scan order.
pub open spec fn tag_concat(content: Seq<ScanModel>) -> Seq<Seq<char>>
    decreases content.len(),
{
    if content.len() == 0 {
        Seq::empty()
    } else {
        tag_concat(content.drop_last()) + tags_of(content.last())
    }
}

/// First-occurrence deduplication: keeps each tag once, at the position of
/// its first appearance.
pub open spec fn dedup(s: Seq<Seq<char>>) -> Seq<Seq<char>>
    decreases s.len(),
{
    if s.len() == 0 {
        Seq::empty()
    } else {
        let p = dedup(s.drop_last());
        if p.contains(s.last()) {
            p
        } else {
            p.push(s.last())
        }
    }
}

/// The distinct tags observed across the scan's content files, in
/// first-appearance order: one synthetic directory is made for each.
pub open spec fn all_tags(scan: Seq<ScanModel>) -> Seq<Seq<char>> {
    dedup(tag_concat(content_of(scan)))
}

/// The content files carrying tag `t`, in scan order: the children of the
/// tag's directory.
pub open spec fn members(content: Seq<ScanModel>, t: Seq<char>) -> Seq<ScanModel>
    decreases content.len(),
{
    if content.len() == 0 {
        Seq::empty()
    } else {
        let p = members(content.drop_last(), t);
        if has_tag(content.last(), t) {
            p.push(content.last())
        } else {
            p
        }
    }
}

/// The (tag index, member) pairs for the first `j` tag directories, grouped
/// by tag: the order in which per-tag file appearances receive inodes.
pub open spec fn pairs_upto(content: Seq<ScanModel>, tags: Seq<Seq<char>>, j: int) -> Seq<
    (int, ScanModel),
>
    decreases j,
{
    if j <= 0 {
        Seq::empty()
    } else {
        pairs_upto(content, tags, j - 1) + members(content, tags[j - 1]).map_values(
            |e: ScanModel| (j - 1, e),
        )
    }
}

/// The first tag (in first-appearance order) that collides with a content
/// file name at the root, searching from tag index `j` on.
pub open spec fn first_collision_from(
    tags: Seq<Seq<char>>,
    content: Seq<ScanModel>,
    j: int,
) -> Option<Seq<char>>
    decreases tags.len() - j,
{
    if j < 0 || j >= tags.len() {
        Option::None
    } else if scan_has_name(content, tags[j]) {
        Option::Some(tags[j])
    } else {
        first_collision_from(tags, content, j + 1)
    }
}

/// The collision the build rejects, if any: the first tag whose directory
/// would occupy the same root slot as a content file.
pub open spec fn spec_collision(scan: Seq<ScanModel>) -> Option<Seq<char>> {
    first_collision_from(all_tags(scan), content_of(scan), 0)
}

/// The root entry: inode 1, self-parented, the host's attributes for the
/// overlaid directory with identity fields overridden.
pub open spec fn root_entry(root_attrs: Attributes) -> EntryModel {
    EntryModel {
        inode: 1,
        parent: 1,
        name: Seq::empty(),
        kind: EntryKind::Directory,
        attrs: spec_with_identity(root_attrs, 1, EntryKind::Directory),
        content: Option::None,
    }
}

/// A content file's entry under the root.
pub open spec fn file_entry(e: ScanModel, ino: u64) -> EntryModel {
    EntryModel {
        inode: ino,
        parent: 1,
        name: e.name,
        kind: EntryKind::RegularFile,
        attrs: spec_with_identity(e.attrs, ino, EntryKind::RegularFile),
        content: Option::Some(e.name),
    }
}

/// A tag's synthetic directory entry under the root.
pub open spec fn tagdir_entry(t: Seq<char>, ino: u64) -> EntryModel {
    EntryModel {
        inode: ino,
        parent: 1,
        name: t,
        kind: EntryKind::Directory,
        attrs: spec_synth_dir_attrs(ino),
        content: Option::None,
    }
}

/// A file's appearance inside a tag directory: a fresh inode, the tag
/// directory as parent, and the same name, attributes and content reference
/// as the file's entry under the root.
pub open spec fn member_entry(j: int, e: ScanModel, n: int, t: int, k: int) -> EntryModel {
    EntryModel {
        inode: (1 + n + t + k + 1) as u64,
        parent: (1 + n + j + 1) as u64,
        name: e.name,
        kind: EntryKind::RegularFile,
        attrs: spec_with_identity(e.attrs, (1 + n + t + k + 1) as u64, EntryKind::RegularFile),
        content: Option::Some(e.name),
    }
}

/// What stands at each index of a built namespace: the root at 0, then the
/// content files, then the tag directories, then the per-tag appearances.
pub open spec fn build_at(scan: Seq<ScanModel>, root_attrs: Attributes, i: int) -> EntryModel {
    let content = content_of(scan);
    let tags = all_tags(scan);
    let n = content.len() as int;
    let t = tags.len() as int;
    let pairs = pairs_upto(content, tags, t);
    if i == 0 {
        root_entry(root_attrs)
    } else if i < 1 + n {
        file_entry(content[i - 1], (i + 1) as u64)
    } else if i < 1 + n + t {
        tagdir_entry(tags[i - 1 - n], (i + 1) as u64)
    } else {
        member_entry(pairs[i - 1 - n - t].0, pairs[i - 1 - n - t].1, n, t, i - 1 - n - t)
    }
}

/// How many entries a build over this scan produces.
pub open spec fn build_len(scan: Seq<ScanModel>) -> int {
    1 + content_of(scan).len() as int + all_tags(scan).len() as int + pairs_upto(
        content_of(scan),
        all_tags(scan),
        all_tags(scan).len() as int,
    ).len() as int
}

/// The whole namespace a successful build produces, in inode order: the
/// root, the content files, the tag directories, the per-tag appearances.
pub open spec fn spec_build(scan: Seq<ScanModel>, root_attrs: Attributes) -> Seq<EntryModel> {
    Seq::new(build_len(scan) as nat, |i: int| build_at(scan, root_attrs, i))
}

/// No two records of the scan share a name: what a real directory listing
/// guarantees, and what root-level name uniqueness rests on.
pub open spec fn distinct_names(s: Seq<ScanModel>) -> bool {
    forall|i: int, j: int| 0 <= i < j < s.len() ==> s[i].name != s[j].name
}

/// The number of tag occurrences across the whole scan.
pub open spec fn total_tag_len(scan: Seq<ScanModel>) -> int
    decreases scan.len(),
{
    if scan.len() == 0 {
        0int
    } else {
        total_tag_len(scan.drop_last()) + tags_of(scan.last()).len()
    }
}

/// No two tags of the sequence are equal.
pub open spec fn distinct_tags(s: Seq<Seq<char>>) -> bool {
    forall|i: int, j: int| 0 <= i < j < s.len() ==> s[i] != s[j]
}

proof fn lemma_content_has_name(scan: Seq<ScanModel>, nm: Seq<char>)
    ensures
        scan_has_name(content_of(scan), nm) ==> scan_has_name(scan, nm),
    decreases scan.len(),
{
    if scan.len() > 0 {
        lemma_content_has_name(scan.drop_last(), nm);
        if scan_has_name(content_of(scan), nm) {
            let c = content_of(scan);
            let p = content_of(scan.drop_last());
            let i = choose|i: int| 0 <= i < c.len() && c[i].name == nm;
            if spec_is_content(scan.last()) && i == c.len() - 1 {
                assert(scan[scan.len() - 1].name == nm);
            } else {
                assert(p[i].name == nm);
                let j = choose|j: int|
                    0 <= j < scan.drop_last().len() && scan.drop_last()[j].name == nm;
                assert(scan[j].name == nm);
            }
        }
    }
}

proof fn lemma_content_distinct(scan: Seq<ScanModel>)
    requires
        distinct_names(scan),
    ensures
        distinct_names(content_of(scan)),
    decreases scan.len(),
{
    if scan.len() > 0 {
        let d = scan.drop_last();
        assert(distinct_names(d)) by {
            assert(forall|i: int, j: int|
                0 <= i < j < d.len() ==> d[i] == scan[i] && d[j] == scan[j]);
        }
        lemma_content_distinct(d);
        if spec_is_content(scan.last()) {
            let c = content_of(scan);
            let p = content_of(d);
            assert forall|k: int| 0 <= k < p.len() implies p[k].name != scan.last().name by {
                if p[k].name == scan.last().name {
                    lemma_content_has_name(d, p[k].name);
                    let j = choose|j: int| 0 <= j < d.len() && d[j].name == p[k].name;
                    assert(scan[j].name == scan[scan.len() - 1].name);
                }
            }
        }
    }
}

proof fn lemma_members_has_name(content: Seq<ScanModel>, t: Seq<char>, nm: Seq<char>)
    ensures
        scan_has_name(members(content, t), nm) ==> scan_has_name(content, nm),
    decreases content.len(),
{
    if content.len() > 0 {
        lemma_members_has_name(content.drop_last(), t, nm);
        if scan_has_name(members(content, t), nm) {
            let c = members(content, t);
            let p = members(content.drop_last(), t);
            let i = choose|i: int| 0 <= i < c.len() && c[i].name == nm;
            if has_tag(content.last(), t) && i == c.len() - 1 {
                assert(content[content.len() - 1].name == nm);
            } else {
                assert(p[i].name == nm);
                let j = choose|j: int|
                    0 <= j < content.drop_last().len() && content.drop_last()[j].name == nm;
                assert(content[j].name == nm);
            }
        }
    }
}

proof fn lemma_members_distinct(content: Seq<ScanModel>, t: Seq<char>)
    requires
        distinct_names(content),
    ensures
        distinct_names(members(content, t)),
    decreases content.len(),
{
    if content.len() > 0 {
        let d = content.drop_last();
        assert(distinct_names(d)) by {
            assert(forall|i: int, j: int|
                0 <= i < j < d.len() ==> d[i] == content[i] && d[j] == content[j]);
        }
        lemma_members_distinct(d, t);
        if has_tag(content.last(), t) {
            let p = members(d, t);
            assert forall|k: int| 0 <= k < p.len() implies p[k].name != content.last().name by {
                if p[k].name == content.last().name {
                    lemma_members_has_name(d, t, p[k].name);
                    let j = choose|j: int| 0 <= j < d.len() && d[j].name == p[k].name;
                    assert(content[j].name == content[content.len() - 1].name);
                }
            }
        }
    }
}

proof fn lemma_members_len(content: Seq<ScanModel>, t: Seq<char>)
    ensures
        members(content, t).len() <= content.len(),
    decreases content.len(),
{
    if content.len() > 0 {
        lemma_members_len(content.drop_last(), t);
    }
}

/// A content file carrying a tag is among that tag's members.
proof fn lemma_members_contains(content: Seq<ScanModel>, t: Seq<char>, i: int)
    requires
        0 <= i < content.len(),
        has_tag(content[i], t),
    ensures
        members(content, t).contains(content[i]),
    decreases content.len(),
{
    if i == content.len() - 1 {
        assert(members(content, t).last() == content[i]);
    } else {
        let d = content.drop_last();
        lemma_members_contains(d, t, i);
        let p = members(d, t);
        let r = choose|r: int| 0 <= r < p.len() && p[r] == d[i];
        assert(members(content, t)[r] == content[i]);
    }
}

/// Every member of a tag carries the tag.
proof fn lemma_members_tagged(content: Seq<ScanModel>, t: Seq<char>, r: int)
    requires
        0 <= r < members(content, t).len(),
    ensures
        has_tag(members(content, t)[r], t),
        content.contains(members(content, t)[r]),
    decreases content.len(),
{
    if content.len() > 0 {
        let p = members(content.drop_last(), t);
        if has_tag(content.last(), t) && r == members(content, t).len() - 1 {
            assert(members(content, t)[r] == content[content.len() - 1]);
        } else {
            lemma_members_tagged(content.drop_last(), t, r);
            let d = content.drop_last();
            let j = choose|j: int| 0 <= j < d.len() && d[j] == p[r];
            assert(content[j] == members(content, t)[r]);
        }
    }
}

proof fn lemma_dedup_distinct(s: Seq<Seq<char>>)
    ensures
        distinct_tags(dedup(s)),
    decreases s.len(),
{
    if s.len() > 0 {
        lemma_dedup_distinct(s.drop_last());
        let p = dedup(s.drop_last());
        if !p.contains(s.last()) {
            assert forall|i: int, j: int|
                0 <= i < j < dedup(s).len() implies dedup(s)[i] != dedup(s)[j] by {
                if j == dedup(s).len() - 1 {
                    assert(dedup(s)[i] == p[i]);
                    assert(!p.contains(s.last()));
                }
            }
        }
    }
}

proof fn lemma_dedup_contains(s: Seq<Seq<char>>, x: Seq<char>)
    ensures
        dedup(s).contains(x) <==> s.contains(x),
    decreases s.len(),
{
    if s.len() > 0 {
        lemma_dedup_contains(s.drop_last(), x);
        let p = dedup(s.drop_last());
        let d = s.drop_last();
        if s.contains(x) {
            let i = choose|i: int| 0 <= i < s.len() && s[i] == x;
            if i == s.len() - 1 {
                if p.contains(x) {
                    assert(dedup(s).contains(x));
                } else {
                    assert(dedup(s).last() == x);
                }
            } else {
                assert(d[i] == x);
                let r = choose|r: int| 0 <= r < p.len() && p[r] == x;
                assert(dedup(s)[r] == x);
            }
        }
        if dedup(s).contains(x) {
            let r = choose|r: int| 0 <= r < dedup(s).len() && dedup(s)[r] == x;
            if p.contains(s.last()) || r < p.len() {
                assert(p[r] == x);
                let i = choose|i: int| 0 <= i < d.len() && d[i] == x;
                assert(s[i] == x);
            } else {
                assert(s[s.len() - 1] == x);
            }
        }
    }
}

proof fn lemma_dedup_len(s: Seq<Seq<char>>)
    ensures
        dedup(s).len() <= s.len(),
    decreases s.len(),
{
    if s.len() > 0 {
        lemma_dedup_len(s.drop_last());
    }
}

proof fn lemma_tag_concat_bound(scan: Seq<ScanModel>)
    ensures
        tag_concat(content_of(scan)).len() <= total_tag_len(scan),
        0 <= total_tag_len(scan),
    decreases scan.len(),
{
    if scan.len() > 0 {
        lemma_tag_concat_bound(scan.drop_last());
        let p = content_of(scan.drop_last());
        if spec_is_content(scan.last()) {
            let c = p.push(scan.last());
            assert(c.drop_last() =~= p);
            assert(tag_concat(c) == tag_concat(p) + tags_of(scan.last()));
        }
    }
}

/// A tag occurs in the concatenated tag lists exactly when some content file
/// carries it.
proof fn lemma_tag_concat_contains(content: Seq<ScanModel>, t: Seq<char>)
    ensures
        tag_concat(content).contains(t) <==> exists|i: int|
            0 <= i < content.len() && has_tag(#[trigger] content[i], t),
    decreases content.len(),
{
    if content.len() > 0 {
        let d = content.drop_last();
        lemma_tag_concat_contains(d, t);
        let pre = tag_concat(d);
        let ts = tags_of(content.last());
        if tag_concat(content).contains(t) {
            let i = choose|i: int| 0 <= i < tag_concat(content).len() && tag_concat(content)[i] == t;
            if i < pre.len() {
                assert(pre[i] == t);
                let j = choose|j: int| 0 <= j < d.len() && has_tag(#[trigger] d[j], t);
                assert(has_tag(content[j], t));
            } else {
                assert(ts[i - pre.len()] == t);
                assert(has_tag(content[content.len() - 1], t));
            }
        }
        if exists|i: int| 0 <= i < content.len() && has_tag(#[trigger] content[i], t) {
            let i = choose|i: int| 0 <= i < content.len() && has_tag(#[trigger] content[i], t);
            if i == content.len() - 1 {
                let k = choose|k: int| 0 <= k < ts.len() && ts[k] == t;
                assert(tag_concat(content)[pre.len() + k] == t);
            } else {
                assert(has_tag(d[i], t));
                let k = choose|k: int| 0 <= k < pre.len() && pre[k] == t;
                assert(tag_concat(content)[k] == t);
            }
        }
    }
}

proof fn lemma_pairs_len(content: Seq<ScanModel>, tags: Seq<Seq<char>>, j: int)
    requires
        0 <= j,
    ensures
        0 <= pairs_upto(content, tags, j).len() <= j * content.len(),
    decreases j,
{
    if j > 0 {
        lemma_pairs_len(content, tags, j - 1);
        lemma_members_len(content, tags[j - 1]);
        assert((j - 1) * content.len() + content.len() == j * content.len()) by (nonlinear_arith);
    }
}

/// Earlier pair groups are prefixes of later ones.
proof fn lemma_pairs_prefix(content: Seq<ScanModel>, tags: Seq<Seq<char>>, j1: int, j2: int)
    requires
        0 <= j1 <= j2,
    ensures
        pairs_upto(content, tags, j1).len() <= pairs_upto(content, tags, j2).len(),
        forall|k: int|
            0 <= k < pairs_upto(content, tags, j1).len() ==> pairs_upto(content, tags, j2)[k]
                == pairs_upto(content, tags, j1)[k],
    decreases j2 - j1,
{
    if j1 < j2 {
        lemma_pairs_prefix(content, tags, j1, j2 - 1);
    }
}

/// The pair at group `jj`, offset `r` sits at position `pairs_upto(jj).len() + r`.
proof fn lemma_pairs_at(content: Seq<ScanModel>, tags: Seq<Seq<char>>, jj: int, r: int, j: int)
    requires
        0 <= jj < j,
        0 <= r < members(content, tags[jj]).len(),
    ensures
        pairs_upto(content, tags, jj).len() + r < pairs_upto(content, tags, j).len(),
        pairs_upto(content, tags, j)[pairs_upto(content, tags, jj).len() + r] == (
            jj,
            members(content, tags[jj])[r],
        ),
    decreases j,
{
    if jj == j - 1 {
        assert(pairs_upto(content, tags, j)[pairs_upto(content, tags, jj).len() + r] == (
            jj,
            members(content, tags[jj])[r],
        ));
    } else {
        lemma_pairs_at(content, tags, jj, r, j - 1);
    }
}

/// Every pair position decomposes into a tag group and an offset within it.
proof fn lemma_pairs_decompose(content: Seq<ScanModel>, tags: Seq<Seq<char>>, j: int, k: int)
    requires
        0 <= k < pairs_upto(content, tags, j).len(),
        j <= tags.len(),
    ensures
        exists|jj: int, r: int|
            {
                &&& 0 <= jj < j
                &&& 0 <= r < members(content, tags[jj]).len()
                &&& k == pairs_upto(content, tags, jj).len() + r
                &&& pairs_upto(content, tags, j)[k] == (jj, #[trigger] members(content, tags[jj])[r])
            },
    decreases j,
{
    let prev = pairs_upto(content, tags, j - 1);
    if k < prev.len() {
        lemma_pairs_decompose(content, tags, j - 1, k);
        let (jj, r) = choose|jj: int, r: int|
            {
                &&& 0 <= jj < j - 1
                &&& 0 <= r < members(content, tags[jj]).len()
                &&& k == pairs_upto(content, tags, jj).len() + r
                &&& pairs_upto(content, tags, j - 1)[k] == (jj, #[trigger] members(content, tags[jj])[r])
            };
        assert(pairs_upto(content, tags, j)[k] == prev[k]);
        assert(0 <= jj < j && 0 <= r < members(content, tags[jj]).len() && k == pairs_upto(
            content,
            tags,
            jj,
        ).len() + r && pairs_upto(content, tags, j)[k] == (jj, members(content, tags[jj])[r]));
    } else {
        let jj = j - 1;
        let r = k - prev.len();
        assert(0 <= jj < j && 0 <= r < members(content, tags[jj]).len() && k == pairs_upto(
            content,
            tags,
            jj,
        ).len() + r && pairs_upto(content, tags, j)[k] == (jj, members(content, tags[jj])[r]));
    }
}

proof fn lemma_content_len(scan: Seq<ScanModel>)
    ensures
        content_of(scan).len() <= scan.len(),
    decreases scan.len(),
{
    if scan.len() > 0 {
        lemma_content_len(scan.drop_last());
    }
}

/// A search that found no collision rules one out for every remaining tag.
proof fn lemma_no_collision(tags: Seq<Seq<char>>, content: Seq<ScanModel>, j: int)
    requires
        0 <= j,
        first_collision_from(tags, content, j) is None,
    ensures
        forall|jj: int| j <= jj < tags.len() ==> !scan_has_name(content, #[trigger] tags[jj]),
    decreases tags.len() - j,
{
    if j < tags.len() {
        lemma_no_collision(tags, content, j + 1);
    }
}

/// The size bounds under which a build's inode arithmetic cannot overflow.
pub open spec fn build_size_ok(scan: Seq<ScanModel>) -> bool {
    scan.len() <= 0x4000_0000 && total_tag_len(scan) <= 0x4000_0000
}

proof fn lemma_build_sizes(scan: Seq<ScanModel>, root_attrs: Attributes)
    requires
        build_size_ok(scan),
    ensures
        content_of(scan).len() <= 0x4000_0000,
        all_tags(scan).len() <= 0x4000_0000,
        pairs_upto(content_of(scan), all_tags(scan), all_tags(scan).len() as int).len()
            <= 0x1000_0000_0000_0000,
        spec_build(scan, root_attrs).len() == 1 + content_of(scan).len() + all_tags(scan).len()
            + pairs_upto(content_of(scan), all_tags(scan), all_tags(scan).len() as int).len(),
        spec_build(scan, root_attrs).len() <= u64::MAX,
{
    let content = content_of(scan);
    let tags = all_tags(scan);
    let n = content.len() as int;
    let t = tags.len() as int;
    lemma_content_len(scan);
    lemma_dedup_len(tag_concat(content));
    lemma_tag_concat_bound(scan);
    lemma_pairs_len(content, tags, t);
    assert(t * n <= 0x1000_0000_0000_0000) by (nonlinear_arith)
        requires
            0 <= n <= 0x4000_0000,
            0 <= t <= 0x4000_0000,
    ;
}

/// Each pair's tag index is in range, and its member is one of that tag's
/// member files.
proof fn lemma_pairs_elems(content: Seq<ScanModel>, tags: Seq<Seq<char>>)
    ensures
        forall|k: int|
            0 <= k < pairs_upto(content, tags, tags.len() as int).len() ==> {
                &&& 0 <= (#[trigger] pairs_upto(content, tags, tags.len() as int)[k]).0
                    < tags.len()
                &&& exists|r: int|
                    0 <= r < members(
                        content,
                        tags[pairs_upto(content, tags, tags.len() as int)[k].0],
                    ).len() && pairs_upto(content, tags, tags.len() as int)[k].1 == members(
                        content,
                        tags[pairs_upto(content, tags, tags.len() as int)[k].0],
                    )[r]
            },
{
    let t = tags.len() as int;
    let pairs = pairs_upto(content, tags, t);
    assert forall|k: int| 0 <= k < pairs.len() implies {
        &&& 0 <= (#[trigger] pairs[k]).0 < tags.len()
        &&& exists|r: int|
            0 <= r < members(content, tags[pairs[k].0]).len() && pairs[k].1 == members(
                content,
                tags[pairs[k].0],
            )[r]
    } by {
        lemma_pairs_decompose(content, tags, t, k);
        let (jj, r) = choose|jj: int, r: int|
            {
                &&& 0 <= jj < t
                &&& 0 <= r < members(content, tags[jj]).len()
                &&& k == pairs_upto(content, tags, jj).len() + r
                &&& pairs_upto(content, tags, t)[k] == (jj, #[trigger] members(content, tags[jj])[r])
            };
        assert(pairs[k].0 == jj);
        assert(0 <= r < members(content, tags[pairs[k].0]).len() && pairs[k].1 == members(
            content,
            tags[pairs[k].0],
        )[r]);
    }
}

/// No directory of a collision-free build over a duplicate-free scan lists
/// two children with one name.
#[verifier::rlimit(60)]
proof fn lemma_build_unique_names(scan: Seq<ScanModel>, root_attrs: Attributes)
    requires
        distinct_names(scan),
        spec_collision(scan) is None,
        build_size_ok(scan),
    ensures
        forall|i: int, j: int|
            #![trigger spec_build(scan, root_attrs)[i].name, spec_build(scan, root_attrs)[j].name]
            1 <= i < j < spec_build(scan, root_attrs).len() && spec_build(scan, root_attrs)[i].parent
                == spec_build(scan, root_attrs)[j].parent ==> spec_build(scan, root_attrs)[i].name
                != spec_build(scan, root_attrs)[j].name,
{
    let content = content_of(scan);
    let tags = all_tags(scan);
    let n = content.len() as int;
    let t = tags.len() as int;
    let pairs = pairs_upto(content, tags, t);
    let m = spec_build(scan, root_attrs);
    lemma_build_sizes(scan, root_attrs);
    lemma_content_distinct(scan);
    lemma_dedup_distinct(tag_concat(content));
    lemma_no_collision(tags, content, 0);
    lemma_pairs_elems(content, tags);
    let len = m.len();
    assert forall|i: int, j: int|
        #![trigger m[i].name, m[j].name]
        1 <= i < j < len && m[i].parent == m[j].parent implies m[i].name != m[j].name by {
        assert(m[i] == build_at(scan, root_attrs, i));
        assert(m[j] == build_at(scan, root_attrs, j));
        if j < 1 + n {
            // both content files under the root: scan names are distinct
            assert(m[i].name == content[i - 1].name);
            assert(m[j].name == content[j - 1].name);
        } else if i < 1 + n && j < 1 + n + t {
            // a content file and a tag directory: the collision check
            // rejected exactly this
            if m[i].name == m[j].name {
                assert(content[i - 1].name == tags[j - 1 - n]);
                assert(scan_has_name(content, tags[j - 1 - n]));
            }
        } else if i >= 1 + n && j < 1 + n + t {
            // two tag directories: deduplication keeps each tag once
            assert(m[i].name == tags[i - 1 - n]);
            assert(m[j].name == tags[j - 1 - n]);
            assert(distinct_tags(tags));
        } else if i < 1 + n + t {
            // a root child and a per-tag appearance: parents differ
            let k2 = j - 1 - n - t;
            assert(m[j].parent == 2 + n + pairs[k2].0);
            assert(m[i].parent == 1);
        } else {
            // two appearances under one tag directory: that tag's members
            // are distinct content files
            let k1 = i - 1 - n - t;
            let k2 = j - 1 - n - t;
            lemma_pairs_decompose(content, tags, t, k1);
            lemma_pairs_decompose(content, tags, t, k2);
            let (jj1, r1) = choose|jj: int, r: int|
                {
                    &&& 0 <= jj < t
                    &&& 0 <= r < members(content, tags[jj]).len()
                    &&& k1 == pairs_upto(content, tags, jj).len() + r
                    &&& pairs_upto(content, tags, t)[k1] == (
                        jj,
                        #[trigger] members(content, tags[jj])[r],
                    )
                };
            let (jj2, r2) = choose|jj: int, r: int|
                {
                    &&& 0 <= jj < t
                    &&& 0 <= r < members(content, tags[jj]).len()
                    &&& k2 == pairs_upto(content, tags, jj).len() + r
                    &&& pairs_upto(content, tags, t)[k2] == (
                        jj,
                        #[trigger] members(content, tags[jj])[r],
                    )
                };
            assert(m[i].parent == 2 + n + jj1);
            assert(m[j].parent == 2 + n + jj2);
            assert(jj1 == jj2);
            assert(r1 != r2);
            lemma_members_distinct(content, tags[jj1]);
            assert(m[i].name == members(content, tags[jj1])[r1].name);
            assert(m[j].name == members(content, tags[jj2])[r2].name);
        }
    }
}

proof fn lemma_build_identity(scan: Seq<ScanModel>, root_attrs: Attributes)
    requires
        build_size_ok(scan),
    ensures
        forall|i: int|
            0 <= i < spec_build(scan, root_attrs).len() ==> (#[trigger] spec_build(
                scan,
                root_attrs,
            )[i]).inode == i + 1,
        forall|i: int|
            0 <= i < spec_build(scan, root_attrs).len() ==> (#[trigger] spec_build(
                scan,
                root_attrs,
            )[i]).attrs.ino == spec_build(scan, root_attrs)[i].inode && spec_build(
                scan,
                root_attrs,
            )[i].attrs.kind == spec_build(scan, root_attrs)[i].kind,
        forall|i: int|
            0 <= i < spec_build(scan, root_attrs).len() ==> ((#[trigger] spec_build(
                scan,
                root_attrs,
            )[i]).kind == EntryKind::RegularFile <==> spec_build(scan, root_attrs)[i].content
                is Some),
{
    let m = spec_build(scan, root_attrs);
    lemma_build_sizes(scan, root_attrs);
    assert forall|i: int| 0 <= i < m.len() implies {
        &&& (#[trigger] m[i]).inode == i + 1
        &&& m[i].attrs.ino == m[i].inode
        &&& m[i].attrs.kind == m[i].kind
        &&& (m[i].kind == EntryKind::RegularFile <==> m[i].content is Some)
    } by {
        assert(m[i] == build_at(scan, root_attrs, i));
    }
}

proof fn lemma_build_parents(scan: Seq<ScanModel>, root_attrs: Attributes)
    requires
        build_size_ok(scan),
    ensures
        forall|i: int|
            1 <= i < spec_build(scan, root_attrs).len() ==> 1 <= (#[trigger] spec_build(
                scan,
                root_attrs,
            )[i]).parent <= spec_build(scan, root_attrs).len() && spec_build(scan, root_attrs)[
                spec_build(scan, root_attrs)[i].parent - 1
            ].kind == EntryKind::Directory,
{
    let content = content_of(scan);
    let tags = all_tags(scan);
    let n = content.len() as int;
    let t = tags.len() as int;
    let pairs = pairs_upto(content, tags, t);
    let m = spec_build(scan, root_attrs);
    lemma_build_sizes(scan, root_attrs);
    lemma_pairs_elems(content, tags);
    let len = m.len();
    assert forall|i: int| 1 <= i < len implies {
        &&& 1 <= (#[trigger] m[i]).parent <= len
        &&& m[m[i].parent - 1].kind == EntryKind::Directory
    } by {
        assert(m[i] == build_at(scan, root_attrs, i));
        if i < 1 + n + t {
            assert(m[i].parent == 1);
            assert(m[0] == build_at(scan, root_attrs, 0));
        } else {
            let k = i - 1 - n - t;
            let jj = pairs[k].0;
            assert(0 <= jj < t);
            assert(m[i].parent == 2 + n + jj);
            assert(m[(1 + n + jj) as int] == build_at(scan, root_attrs, 1 + n + jj));
        }
    }
}

/// A content file with a tag sits in that tag's member list exactly at the
/// position given by the members among the files before it.
proof fn lemma_members_index(content: Seq<ScanModel>, t: Seq<char>, c: int)
    requires
        0 <= c < content.len(),
        has_tag(content[c], t),
    ensures
        members(content.take(c), t).len() < members(content, t).len(),
        members(content, t)[members(content.take(c), t).len() as int] == content[c],
    decreases content.len(),
{
    if c == content.len() - 1 {
        assert(content.take(c) =~= content.drop_last());
    } else {
        let d = content.drop_last();
        assert(d.take(c) =~= content.take(c));
        lemma_members_index(d, t, c);
    }
}

/// A collision-free build over a duplicate-free scan yields a well-formed
/// namespace: sequential inodes from 1, every parent an existing directory,
/// attributes consistent with each entry's identity, and no directory with
/// two children of one name.
pub proof fn lemma_build_wf(scan: Seq<ScanModel>, root_attrs: Attributes)
    requires
        distinct_names(scan),
        spec_collision(scan) is None,
        build_size_ok(scan),
    ensures
        wf_models(spec_build(scan, root_attrs)),
{
    let m = spec_build(scan, root_attrs);
    lemma_build_sizes(scan, root_attrs);
    lemma_build_identity(scan, root_attrs);
    lemma_build_parents(scan, root_attrs);
    lemma_build_unique_names(scan, root_attrs);
    assert(m[0] == build_at(scan, root_attrs, 0));
}

/// Errors a build can report.
#[derive(Debug, Clone)]
pub enum BuildError {
    /// A tag's directory would occupy the same root slot as a content file
    /// of this name: the build refuses the scan rather than drop one of the
    /// two entries.
    TagCollision { name: String },
}

#[verifier::loop_isolation(false)]
fn vec_contains_string(v: &Vec<String>, s: &String) -> (r: bool)
    ensures
        r == v.deep_view().contains(s@),
{
    let n = v.len();
    for i in 0..n
        invariant
            n == v.len(),
            forall|k: int| 0 <= k < i ==> v.deep_view()[k] != s@,
    {
        if v[i] == *s {
            assert(v.deep_view()[i as int] == s@);
            return true;
        }
    }
    false
}

#[verifier::loop_isolation(false)]
fn entry_has_tag(e: &ScanEntry, t: &String) -> (r: bool)
    ensures
        r == has_tag(e@, t@),
{
    match &e.tags {
        Option::Some(c) => vec_contains_string(c.tags(), t),
        Option::None => false,
    }
}

/// The indices collected by the content pass point at the scan's content
/// files, in order.
pub open spec fn content_idxs_ok(sm: Seq<ScanModel>, idxs: Seq<usize>) -> bool {
    &&& idxs.len() == content_of(sm).len()
    &&& forall|c: int|
        0 <= c < idxs.len() ==> (#[trigger] idxs[c]) < sm.len() && sm[idxs[c] as int]
            == content_of(sm)[c]
}

#[verifier::loop_isolation(false)]
fn collect_content(scan: &Vec<ScanEntry>) -> (r: Vec<usize>)
    ensures
        content_idxs_ok(scan_models(scan@), r@),
{
    let ghost sm = scan_models(scan@);
    let mut r: Vec<usize> = Vec::new();
    let n = scan.len();
    for i in 0..n
        invariant
            n == scan.len(),
            sm == scan_models(scan@),
            r@.len() == content_of(sm.take(i as int)).len(),
            forall|c: int|
                0 <= c < r@.len() ==> (#[trigger] r@[c]) < i && sm[r@[c] as int] == content_of(
                    sm.take(i as int),
                )[c],
    {
        proof {
            assert(sm.take(i + 1).drop_last() =~= sm.take(i as int));
            assert(sm.take(i + 1).last() == sm[i as int]);
        }
        if is_content(&scan[i]) {
            assert(sm[i as int] == scan[i as int]@);
            r.push(i);
        }
    }
    proof {
        assert(sm.take(n as int) =~= sm);
    }
    r
}

#[verifier::loop_isolation(false)]
fn collect_tags(scan: &Vec<ScanEntry>, idxs: &Vec<usize>) -> (r: Vec<String>)
    requires
        content_idxs_ok(scan_models(scan@), idxs@),
    ensures
        r.deep_view() == all_tags(scan_models(scan@)),
{
    let ghost sm = scan_models(scan@);
    let ghost ct = content_of(sm);
    let mut r: Vec<String> = Vec::new();
    let n = idxs.len();
    for c in 0..n
        invariant
            n == idxs.len(),
            sm == scan_models(scan@),
            content_idxs_ok(sm, idxs@),
            r.deep_view() == dedup(tag_concat(ct.take(c as int))),
    {
        let e = &scan[idxs[c]];
        proof {
            assert(e@ == ct[c as int]);
            assert(ct.take(c + 1).drop_last() =~= ct.take(c as int));
            assert(ct.take(c + 1).last() == ct[c as int]);
            assert(tag_concat(ct.take(c + 1)) == tag_concat(ct.take(c as int)) + tags_of(
                ct[c as int],
            ));
        }
        match &e.tags {
            Option::Some(chive) => {
                let ts = chive.tags();
                let m = ts.len();
                assert(ts.deep_view() == tags_of(ct[c as int]));
                for k in 0..m
                    invariant
                        m == ts.len(),
                        ts.deep_view() == tags_of(ct[c as int]),
                        r.deep_view() == dedup(
                            tag_concat(ct.take(c as int)) + tags_of(ct[c as int]).take(k as int),
                        ),
                {
                    let ghost pre = tag_concat(ct.take(c as int)) + tags_of(ct[c as int]).take(
                        k as int,
                    );
                    proof {
                        assert(pre.push(tags_of(ct[c as int])[k as int]).drop_last() =~= pre);
                        assert((tag_concat(ct.take(c as int)) + tags_of(ct[c as int]).take(k + 1))
                            =~= pre.push(tags_of(ct[c as int])[k as int]));
                    }
                    if !vec_contains_string(&r, &ts[k]) {
                        r.push(ts[k].clone());
                    }
                }
                proof {
                    assert(tags_of(ct[c as int]).take(tags_of(ct[c as int]).len() as int)
                        =~= tags_of(ct[c as int]));
                }
            },
            Option::None => {
                proof {
                    assert(tag_concat(ct.take(c + 1)) =~= tag_concat(ct.take(c as int)));
                }
            },
        }
    }
    proof {
        assert(ct.take(n as int) =~= ct);
    }
    r
}

#[verifier::loop_isolation(false)]
fn content_has_name(scan: &Vec<ScanEntry>, idxs: &Vec<usize>, name: &String) -> (r: bool)
    requires
        content_idxs_ok(scan_models(scan@), idxs@),
    ensures
        r == scan_has_name(content_of(scan_models(scan@)), name@),
{
    let ghost sm = scan_models(scan@);
    let ghost ct = content_of(sm);
    let n = idxs.len();
    for c in 0..n
        invariant
            n == idxs.len(),
            sm == scan_models(scan@),
            content_idxs_ok(sm, idxs@),
            forall|k: int| 0 <= k < c ==> ct[k].name != name@,
    {
        let e = &scan[idxs[c]];
        assert(e@ == ct[c as int]);
        if e.name == *name {
            assert(ct[c as int].name == name@);
            return true;
        }
    }
    false
}

#[verifier::rlimit(100)]
#[verifier::loop_isolation(false)]
fn assemble(
    scan: &Vec<ScanEntry>,
    idxs: &Vec<usize>,
    tags: &Vec<String>,
    root_attrs: &Attributes,
) -> (r: Vec<Entry>)
    requires
        content_idxs_ok(scan_models(scan@), idxs@),
        tags.deep_view() == all_tags(scan_models(scan@)),
        build_size_ok(scan_models(scan@)),
    ensures
        entry_models(r@) == spec_build(scan_models(scan@), *root_attrs),
{
    let ghost sm = scan_models(scan@);
    let ghost ct = content_of(sm);
    let ghost tg = all_tags(sm);
    let n = idxs.len();
    let t = tags.len();
    proof {
        lemma_content_len(sm);
        lemma_dedup_len(tag_concat(ct));
        lemma_tag_concat_bound(sm);
        lemma_build_sizes(sm, *root_attrs);
    }
    let ghost target = spec_build(sm, *root_attrs);
    let mut entries: Vec<Entry> = Vec::new();
    entries.push(
        Entry {
            inode: 1,
            parent: 1,
            name: String::new(),
            kind: EntryKind::Directory,
            attributes: with_identity(root_attrs, 1, EntryKind::Directory),
            content_ref: Option::None,
        },
    );
    assert(entry_models(entries@) =~= target.take(1));
    // the content files, in scan order
    for c in 0..n
        invariant
            n == idxs.len(),
            sm == scan_models(scan@),
            ct == content_of(sm),
            content_idxs_ok(sm, idxs@),
            target == spec_build(sm, *root_attrs),
            target.len() <= u64::MAX,
            n <= target.len(),
            entries@.len() == 1 + c,
            entry_models(entries@) =~= target.take(1 + c),
    {
        let e = &scan[idxs[c]];
        assert(e@ == ct[c as int]);
        let ino = entries.len() as u64 + 1;
        entries.push(
            Entry {
                inode: ino,
                parent: 1,
                name: e.name.clone(),
                kind: EntryKind::RegularFile,
                attributes: with_identity(&e.attributes, ino, EntryKind::RegularFile),
                content_ref: Option::Some(e.name.clone()),
            },
        );
        proof {
            assert(target[1 + c] == build_at(sm, *root_attrs, 1 + c));
            assert(entry_models(entries@) =~= target.take(1 + c + 1));
        }
    }
    // one synthetic directory per distinct tag
    for j in 0..t
        invariant
            t == tags.len(),
            n == idxs.len(),
            sm == scan_models(scan@),
            ct == content_of(sm),
            tg == all_tags(sm),
            tags.deep_view() == tg,
            n == ct.len(),
            target == spec_build(sm, *root_attrs),
            target.len() <= u64::MAX,
            1 + n + t <= target.len(),
            entries@.len() == 1 + n + j,
            entry_models(entries@) =~= target.take(1 + n + j),
    {
        let ino = entries.len() as u64 + 1;
        entries.push(
            Entry {
                inode: ino,
                parent: 1,
                name: tags[j].clone(),
                kind: EntryKind::Directory,
                attributes: synth_dir_attrs(ino),
                content_ref: Option::None,
            },
        );
        proof {
            assert(target[1 + n + j] == build_at(sm, *root_attrs, 1 + n + j));
            assert(entry_models(entries@) =~= target.take(1 + n + j + 1));
        }
    }
    // the per-tag appearances, grouped by tag
    for j in 0..t
        invariant
            t == tags.len(),
            n == idxs.len(),
            sm == scan_models(scan@),
            ct == content_of(sm),
            tg == all_tags(sm),
            tags.deep_view() == tg,
            n == ct.len(),
            t == tg.len(),
            content_idxs_ok(sm, idxs@),
            target == spec_build(sm, *root_attrs),
            target.len() <= u64::MAX,
            target.len() == 1 + n + t + pairs_upto(ct, tg, t as int).len(),
            entries@.len() == 1 + n + t + pairs_upto(ct, tg, j as int).len(),
            entry_models(entries@) =~= target.take(entries@.len() as int),
    {
        let ghost base = pairs_upto(ct, tg, j as int).len() as int;
        proof {
            lemma_pairs_prefix(ct, tg, j as int, t as int);
        }
        for c in 0..n
            invariant
                t == tags.len(),
                n == idxs.len(),
                j < t,
                sm == scan_models(scan@),
                ct == content_of(sm),
                tg == all_tags(sm),
                tags.deep_view() == tg,
                n == ct.len(),
                t == tg.len(),
                content_idxs_ok(sm, idxs@),
                target == spec_build(sm, *root_attrs),
                target.len() <= u64::MAX,
                target.len() == 1 + n + t + pairs_upto(ct, tg, t as int).len(),
                base == pairs_upto(ct, tg, j as int).len(),
                members(ct.take(c as int), tg[j as int]).len() <= c,
                entries@.len() == 1 + n + t + base + members(ct.take(c as int), tg[j as int]).len(),
                entry_models(entries@) =~= target.take(entries@.len() as int),
        {
            let e = &scan[idxs[c]];
            assert(e@ == ct[c as int]);
            let ghost tj = tg[j as int];
            proof {
                assert(ct.take(c + 1).drop_last() =~= ct.take(c as int));
                assert(ct.take(c + 1).last() == ct[c as int]);
            }
            assert(tags[j as int]@ == tj);
            if entry_has_tag(e, &tags[j]) {
                let ghost r = members(ct.take(c as int), tj).len() as int;
                let ghost k = base + r;
                proof {
                    lemma_members_index(ct, tj, c as int);
                    lemma_pairs_at(ct, tg, j as int, r, t as int);
                    assert(pairs_upto(ct, tg, t as int)[k] == (j as int, ct[c as int]));
                }
                let ino = entries.len() as u64 + 1;
                let parent = 2 + n as u64 + j as u64;
                entries.push(
                    Entry {
                        inode: ino,
                        parent,
                        name: e.name.clone(),
                        kind: EntryKind::RegularFile,
                        attributes: with_identity(&e.attributes, ino, EntryKind::RegularFile),
                        content_ref: Option::Some(e.name.clone()),
                    },
                );
                proof {
                    assert(target[1 + n + t + k] == build_at(sm, *root_attrs, 1 + n + t + k));
                    assert(entry_models(entries@) =~= target.take(entries@.len() as int));
                }
            }
        }
        proof {
            assert(ct.take(n as int) =~= ct);
            assert(pairs_upto(ct, tg, j + 1).len() == pairs_upto(ct, tg, j as int).len() + members(
                ct,
                tg[j as int],
            ).len());
        }
    }
    proof {
        assert(entry_models(entries@) =~= target);
    }
    entries
}

/// Builds one namespace generation from a directory scan: classifies content
/// files, collects their tags, refuses a tag that collides with a content
/// file's name at the root, and otherwise lays out the root, the files, the
/// tag directories, and the per-tag appearances with sequential inodes.
///
/// The scan must carry pairwise distinct names (as one directory listing
/// does) and stay within the size bounds under which inode numbers cannot
/// overflow.
#[verifier::loop_isolation(false)]
pub fn build(scan: &Vec<ScanEntry>, root_attrs: &Attributes) -> (r: Result<Namespace, BuildError>)
    requires
        distinct_names(scan_models(scan@)),
        build_size_ok(scan_models(scan@)),
    ensures
        match r {
            Result::Ok(ns) => {
                &&& spec_collision(scan_models(scan@)) is None
                &&& ns.wf()
                &&& ns.models() == spec_build(scan_models(scan@), *root_attrs)
            },
            Result::Err(e) => {
                &&& spec_collision(scan_models(scan@)) is Some
                &&& (e matches BuildError::TagCollision { name } && name@ == spec_collision(
                    scan_models(scan@),
                )->Some_0)
            },
        },
{
    let ghost sm = scan_models(scan@);
    let ghost ct = content_of(sm);
    let idxs = collect_content(scan);
    let tags = collect_tags(scan, &idxs);
    let ghost tg = all_tags(sm);
    let n = idxs.len();
    let t = tags.len();
    proof {
        lemma_content_len(sm);
        lemma_dedup_len(tag_concat(ct));
        lemma_tag_concat_bound(sm);
    }
    // refuse a tag whose directory would collide with a content file's name
    for j in 0..t
        invariant
            t == tags.len(),
            n == idxs.len(),
            sm == scan_models(scan@),
            ct == content_of(sm),
            tg == all_tags(sm),
            tags.deep_view() == tg,
            content_idxs_ok(sm, idxs@),
            first_collision_from(tg, ct, 0) == first_collision_from(tg, ct, j as int),
    {
        assert(tags[j as int]@ == tg[j as int]);
        if content_has_name(scan, &idxs, &tags[j]) {
            assert(first_collision_from(tg, ct, j as int) == Option::Some(tg[j as int]));
            return Err(BuildError::TagCollision { name: tags[j].clone() });
        }
    }
    assert(spec_collision(sm) is None);
    let entries = assemble(scan, &idxs, &tags, root_attrs);
    proof {
        lemma_build_wf(sm, *root_attrs);
    }
    Ok(Namespace::from_entries(entries))
}

/// The tag-derived view is faithful: every content file stands once under
/// the root; the tag directories are exactly the distinct observed tags,
/// each standing once under the root; and a file appears inside a tag's
/// directory exactly when it carries that tag.
pub proof fn lemma_tag_view(scan: Seq<ScanModel>, root_attrs: Attributes)
    requires
        distinct_names(scan),
        spec_collision(scan) is None,
        build_size_ok(scan),
    ensures
        ({
            let m = spec_build(scan, root_attrs);
            let ct = content_of(scan);
            let tg = all_tags(scan);
            let n = ct.len() as int;
            let t = tg.len() as int;
            &&& forall|i: int|
                0 <= i < n ==> (#[trigger] m[1 + i]).parent == 1 && m[1 + i].name == ct[i].name
                    && m[1 + i].kind == EntryKind::RegularFile && m[1 + i].content
                    == Option::Some(ct[i].name)
            &&& forall|j: int|
                0 <= j < t ==> (#[trigger] m[1 + n + j]).parent == 1 && m[1 + n + j].name == tg[j]
                    && m[1 + n + j].kind == EntryKind::Directory
            &&& distinct_tags(tg)
            &&& forall|j: int|
                #![trigger tg[j]]
                0 <= j < t ==> exists|i: int| 0 <= i < n && has_tag(#[trigger] ct[i], tg[j])
            &&& forall|i: int, j: int|
                0 <= i < n && 0 <= j < t ==> (has_tag(#[trigger] ct[i], #[trigger] tg[j])
                    <==> exists|k: int|
                    1 + n + t <= k < m.len() && (#[trigger] m[k]).parent == 2 + n + j && m[k].name
                        == ct[i].name)
        }),
{
    let m = spec_build(scan, root_attrs);
    let ct = content_of(scan);
    let tg = all_tags(scan);
    let n = ct.len() as int;
    let t = tg.len() as int;
    let pairs = pairs_upto(ct, tg, t);
    lemma_build_sizes(scan, root_attrs);
    lemma_content_distinct(scan);
    lemma_dedup_distinct(tag_concat(ct));
    assert forall|i: int| 0 <= i < n implies (#[trigger] m[1 + i]).parent == 1 && m[1 + i].name
        == ct[i].name && m[1 + i].kind == EntryKind::RegularFile && m[1 + i].content
        == Option::Some(ct[i].name) by {
        assert(m[1 + i] == build_at(scan, root_attrs, 1 + i));
    }
    assert forall|j: int| 0 <= j < t implies (#[trigger] m[1 + n + j]).parent == 1 && m[1 + n
        + j].name == tg[j] && m[1 + n + j].kind == EntryKind::Directory by {
        assert(m[1 + n + j] == build_at(scan, root_attrs, 1 + n + j));
    }
    assert forall|j: int| #![trigger tg[j]] 0 <= j < t implies exists|i: int|
        0 <= i < n && has_tag(#[trigger] ct[i], tg[j]) by {
        assert(tg.contains(tg[j]));
        lemma_dedup_contains(tag_concat(ct), tg[j]);
        lemma_tag_concat_contains(ct, tg[j]);
    }
    assert forall|i: int, j: int| 0 <= i < n && 0 <= j < t implies (has_tag(
        #[trigger] ct[i],
        #[trigger] tg[j],
    ) <==> exists|k: int|
        1 + n + t <= k < m.len() && (#[trigger] m[k]).parent == 2 + n + j && m[k].name
            == ct[i].name) by {
        if has_tag(ct[i], tg[j]) {
            lemma_members_contains(ct, tg[j], i);
            let r = choose|r: int|
                0 <= r < members(ct, tg[j]).len() && members(ct, tg[j])[r] == ct[i];
            lemma_pairs_at(ct, tg, j, r, t);
            let k = 1 + n + t + pairs_upto(ct, tg, j).len() + r;
            assert(m[k] == build_at(scan, root_attrs, k));
            assert(pairs[k - 1 - n - t] == (j, ct[i]));
            assert(1 + n + t <= k < m.len() && m[k].parent == 2 + n + j && m[k].name
                == ct[i].name);
        }
        if exists|k: int|
            1 + n + t <= k < m.len() && (#[trigger] m[k]).parent == 2 + n + j && m[k].name
                == ct[i].name {
            let k = choose|k: int|
                1 + n + t <= k < m.len() && (#[trigger] m[k]).parent == 2 + n + j && m[k].name
                    == ct[i].name;
            assert(m[k] == build_at(scan, root_attrs, k));
            let kk = k - 1 - n - t;
            lemma_pairs_decompose(ct, tg, t, kk);
            let (jj, r) = choose|jj: int, r: int|
                {
                    &&& 0 <= jj < t
                    &&& 0 <= r < members(ct, tg[jj]).len()
                    &&& kk == pairs_upto(ct, tg, jj).len() + r
                    &&& pairs_upto(ct, tg, t)[kk] == (jj, #[trigger] members(ct, tg[jj])[r])
                };
            assert(m[k].parent == 2 + n + jj);
            assert(jj == j);
            lemma_members_tagged(ct, tg[j], r);
            let e = members(ct, tg[j])[r];
            assert(has_tag(e, tg[j]));
            let i2 = choose|i2: int| 0 <= i2 < ct.len() && ct[i2] == e;
            assert(ct[i2].name == ct[i].name);
            assert(i2 == i);
        }
    }
}

} // verus!
