//! The sidecar naming convention: a content file named `F` keeps its tag
//! record in a hidden file named `.F.chive` beside it. The builder uses this
//! rule to tell sidecar files from content files, and the init planner uses it
//! to name the sidecars an untagged content file still lacks.

use vstd::prelude::*;

use crate::entry::{ScanEntry, ScanModel, scan_models};

verus! {

/// The fixed extension (with its dot) that ends every sidecar name.
pub open spec fn sidecar_suffix() -> Seq<char> {
    seq!['.', 'c', 'h', 'i', 'v', 'e']
}

/// The sidecar name derived from a content file name: a hidden-file prefix,
/// the content name, and the fixed extension.
pub open spec fn spec_sidecar_name(stem: Seq<char>) -> Seq<char> {
    seq!['.'] + stem + sidecar_suffix()
}

/// Whether a directory-scan name is shaped like a sidecar name: hidden, long
/// enough to hold a nonempty stem, and ending in the fixed extension.
pub open spec fn is_sidecar_name(name: Seq<char>) -> bool {
    &&& name.len() >= 8
    &&& name[0] == '.'
    &&& name.subrange(name.len() - 6, name.len() as int) == sidecar_suffix()
}

/// The content file name a sidecar name was derived from.
pub open spec fn spec_sidecar_stem(name: Seq<char>) -> Seq<char> {
    name.subrange(1, name.len() - 6)
}

/// The naming rule is reversible: a sidecar name derived from a nonempty stem
/// is recognized as one, and yields the stem back.
pub proof fn lemma_sidecar_name_reversible(stem: Seq<char>)
    requires
        stem.len() >= 1,
    ensures
        is_sidecar_name(spec_sidecar_name(stem)),
        spec_sidecar_stem(spec_sidecar_name(stem)) == stem,
{
    let n = spec_sidecar_name(stem);
    assert(n.subrange(n.len() - 6, n.len() as int) =~= sidecar_suffix());
    assert(n.subrange(1, n.len() - 6) =~= stem);
}

/// Builds the sidecar name for a content file name.
pub fn sidecar_name_for(stem: &str) -> (r: String)
    ensures
        r@ == spec_sidecar_name(stem@),
{
    proof {
        reveal_strlit(".");
        reveal_strlit(".chive");
    }
    let r = String::from_str(".").concat(stem).concat(".chive");
    proof {
        assert(r@ =~= spec_sidecar_name(stem@));
    }
    r
}

/// Decides whether a scanned name is shaped like a sidecar name.
pub fn is_sidecar(name: &str) -> (r: bool)
    ensures
        r == is_sidecar_name(name@),
{
    let n = name.unicode_len();
    if n < 8 {
        return false;
    }
    if name.get_char(0) != '.' {
        return false;
    }
    let r = name.get_char(n - 6) == '.' && name.get_char(n - 5) == 'c' && name.get_char(n - 4)
        == 'h' && name.get_char(n - 3) == 'i' && name.get_char(n - 2) == 'v' && name.get_char(
        n - 1,
    ) == 'e';
    proof {
        if r {
            assert(name@.subrange(name@.len() - 6, name@.len() as int) =~= sidecar_suffix());
        } else {
            assert(name@.subrange(name@.len() - 6, name@.len() as int) != sidecar_suffix());
        }
    }
    r
}

/// Whether a scanned record is a content file: a regular file whose name is
/// not shaped like a sidecar name. Everything else (sidecars, subdirectories,
/// other non-regular entries) contributes no namespace entry of its own.
pub open spec fn spec_is_content(e: ScanModel) -> bool {
    e.is_regular && !is_sidecar_name(e.name)
}

pub fn is_content(e: &ScanEntry) -> (r: bool)
    ensures
        r == spec_is_content(e@),
{
    e.is_regular && !is_sidecar(e.name.as_str())
}

/// Whether some record of the scan carries exactly this name.
pub open spec fn scan_has_name(scan: Seq<ScanModel>, name: Seq<char>) -> bool {
    exists|i: int| 0 <= i < scan.len() && scan[i].name == name
}

fn scan_contains_name(scan: &Vec<ScanEntry>, name: &String) -> (r: bool)
    ensures
        r == scan_has_name(scan_models(scan@), name@),
{
    let ghost m = scan_models(scan@);
    let n = scan.len();
    for i in 0..n
        invariant
            n == scan.len(),
            m == scan_models(scan@),
            forall|k: int| 0 <= k < i ==> m[k].name != name@,
    {
        if scan[i].name == *name {
            assert(m[i as int].name == name@);
            return true;
        }
    }
    false
}

/// The sidecar names an `init` pass should create: one for each content file
/// of the scan that has no sidecar-named neighbor yet, in scan order.
pub open spec fn spec_init_plan_upto(scan: Seq<ScanModel>, i: int) -> Seq<Seq<char>>
    decreases i,
{
    if i <= 0 {
        Seq::empty()
    } else {
        let p = spec_init_plan_upto(scan, i - 1);
        let e = scan[i - 1];
        if spec_is_content(e) && !scan_has_name(scan, spec_sidecar_name(e.name)) {
            p.push(spec_sidecar_name(e.name))
        } else {
            p
        }
    }
}

pub open spec fn spec_init_plan(scan: Seq<ScanModel>) -> Seq<Seq<char>> {
    spec_init_plan_upto(scan, scan.len() as int)
}

/// Plans an `init` pass over a directory scan: returns, in scan order, the
/// sidecar name to create for every content file that does not have one yet.
pub fn init_plan(scan: &Vec<ScanEntry>) -> (r: Vec<String>)
    ensures
        r.deep_view() == spec_init_plan(scan_models(scan@)),
{
    let ghost m = scan_models(scan@);
    let mut r: Vec<String> = Vec::new();
    let n = scan.len();
    for i in 0..n
        invariant
            n == scan.len(),
            m == scan_models(scan@),
            r.deep_view() == spec_init_plan_upto(m, i as int),
    {
        let e = &scan[i];
        assert(m[i as int] == e@);
        if is_content(e) {
            let sidecar = sidecar_name_for(e.name.as_str());
            if !scan_contains_name(scan, &sidecar) {
                r.push(sidecar);
                assert(r.deep_view() =~= spec_init_plan_upto(m, i + 1));
            }
        }
    }
    r
}

} // verus!
