use chive::builder::{build, BuildError};
use chive::entry::{Attributes, EntryKind, ScanEntry};
use chive::serve::{read_slice, Namespace};
use chive::session::Session;
use chive::{Chive, FsError, TTL_SECS};

fn file_attrs(size: u64) -> Attributes {
    Attributes {
        ino: 77,
        size,
        blocks: 1,
        atime_secs: 100,
        mtime_secs: 200,
        ctime_secs: 300,
        crtime_secs: 50,
        kind: EntryKind::RegularFile,
        perm: 0o644,
        nlink: 1,
        uid: 1000,
        gid: 1000,
        rdev: 0,
        blksize: 4096,
        flags: 0,
    }
}

fn dir_attrs() -> Attributes {
    Attributes {
        kind: EntryKind::Directory,
        perm: 0o755,
        ..file_attrs(0)
    }
}

fn file(name: &str, tags: Option<Vec<&str>>) -> ScanEntry {
    ScanEntry {
        name: name.to_string(),
        is_regular: true,
        attributes: file_attrs(11),
        tags: tags.map(|ts| Chive::new(ts.into_iter().map(|t| t.to_string()).collect())),
    }
}

fn demo_namespace() -> Namespace {
    // root holds a.txt (tags ["red"]), its sidecar, and b.txt without one
    let scan = vec![
        file("a.txt", Some(vec!["red"])),
        ScanEntry {
            name: ".a.txt.chive".to_string(),
            is_regular: true,
            attributes: file_attrs(12),
            tags: None,
        },
        file("b.txt", None),
    ];
    build(&scan, &dir_attrs()).expect("collision-free scan must build")
}

fn listing_names(ns: &Namespace, ino: u64) -> Vec<String> {
    ns.readdir(ino, 0)
        .expect("directory must list")
        .into_iter()
        .map(|row| row.name)
        .collect()
}

#[test]
fn root_lists_files_and_tag_directory() {
    let ns = demo_namespace();
    assert_eq!(listing_names(&ns, 1), vec!["a.txt", "b.txt", "red"]);
}

#[test]
fn sidecar_file_is_not_exposed() {
    let ns = demo_namespace();
    assert!(!listing_names(&ns, 1).contains(&".a.txt.chive".to_string()));
    assert!(ns.lookup(1, &".a.txt.chive".to_string()).is_err());
}

#[test]
fn tag_directory_lists_exactly_its_members() {
    let ns = demo_namespace();
    let (red, _) = ns.lookup(1, &"red".to_string()).expect("red must resolve");
    assert_eq!(red.kind, EntryKind::Directory);
    assert_eq!(listing_names(&ns, red.ino), vec!["a.txt"]);
}

#[test]
fn untagged_file_appears_only_under_root() {
    let ns = demo_namespace();
    let (red, _) = ns.lookup(1, &"red".to_string()).unwrap();
    assert!(ns.lookup(red.ino, &"b.txt".to_string()).is_err());
}

#[test]
fn lookup_unknown_name_is_not_found() {
    let ns = demo_namespace();
    assert_eq!(
        ns.lookup(1, &"green".to_string()).unwrap_err(),
        FsError::NotFound
    );
}

#[test]
fn lookup_in_non_directory_is_not_found() {
    let ns = demo_namespace();
    let (a, _) = ns.lookup(1, &"a.txt".to_string()).unwrap();
    assert_eq!(
        ns.lookup(a.ino, &"a.txt".to_string()).unwrap_err(),
        FsError::NotFound
    );
}

#[test]
fn lookup_is_idempotent_within_a_generation() {
    let ns = demo_namespace();
    let first = ns.lookup(1, &"a.txt".to_string()).unwrap();
    let second = ns.lookup(1, &"a.txt".to_string()).unwrap();
    assert_eq!(first.0.ino, second.0.ino);
    assert_eq!(first.0.kind, second.0.kind);
    assert_eq!(first.1, second.1);
    assert_eq!(first.1, TTL_SECS);
}

#[test]
fn getattr_reports_the_entry_own_identity() {
    let ns = demo_namespace();
    for ino in 1..=(ns.entry_count() as u64) {
        let (attrs, ttl) = ns.getattr(ino).expect("every table inode resolves");
        assert_eq!(attrs.ino, ino);
        assert_eq!(ttl, TTL_SECS);
    }
    let (root, _) = ns.getattr(1).unwrap();
    assert_eq!(root.kind, EntryKind::Directory);
    let (a, _) = ns.lookup(1, &"a.txt".to_string()).unwrap();
    let (got, _) = ns.getattr(a.ino).unwrap();
    assert_eq!(got.kind, EntryKind::RegularFile);
    assert_eq!(got.size, 11);
}

#[test]
fn getattr_unknown_inode_is_not_found() {
    let ns = demo_namespace();
    assert_eq!(ns.getattr(0).unwrap_err(), FsError::NotFound);
    let beyond = ns.entry_count() as u64 + 1;
    assert_eq!(ns.getattr(beyond).unwrap_err(), FsError::NotFound);
}

#[test]
fn readdir_pagination_walks_the_listing_exactly_once() {
    let ns = demo_namespace();
    let full: Vec<(u64, String)> = ns
        .readdir(1, 0)
        .unwrap()
        .into_iter()
        .map(|r| (r.inode, r.name))
        .collect();
    // take one row per call, resuming at the returned continuation offset
    let mut paged: Vec<(u64, String)> = Vec::new();
    let mut offset = 0u64;
    loop {
        let page = ns.readdir(1, offset).unwrap();
        match page.into_iter().next() {
            Some(row) => {
                offset = row.next_offset;
                paged.push((row.inode, row.name));
            }
            None => break,
        }
    }
    assert_eq!(paged, full);
    let mut inodes: Vec<u64> = paged.iter().map(|p| p.0).collect();
    inodes.sort();
    inodes.dedup();
    assert_eq!(inodes.len(), full.len());
}

#[test]
fn readdir_past_the_end_is_empty() {
    let ns = demo_namespace();
    assert!(ns.readdir(1, 3).unwrap().is_empty());
    assert!(ns.readdir(1, 1000).unwrap().is_empty());
}

#[test]
fn readdir_on_a_file_is_not_found() {
    let ns = demo_namespace();
    let (a, _) = ns.lookup(1, &"a.txt".to_string()).unwrap();
    assert_eq!(ns.readdir(a.ino, 0).unwrap_err(), FsError::NotFound);
    assert_eq!(ns.readdir(99, 0).unwrap_err(), FsError::NotFound);
}

#[test]
fn both_appearances_of_a_file_share_content() {
    let ns = demo_namespace();
    let (a_root, _) = ns.lookup(1, &"a.txt".to_string()).unwrap();
    let (red, _) = ns.lookup(1, &"red".to_string()).unwrap();
    let (a_tagged, _) = ns.lookup(red.ino, &"a.txt".to_string()).unwrap();
    assert_ne!(a_root.ino, a_tagged.ino);
    let ref_root = ns.content_ref_for(a_root.ino).unwrap().clone();
    let ref_tagged = ns.content_ref_for(a_tagged.ino).unwrap().clone();
    assert_eq!(ref_root, ref_tagged);
    assert_eq!(ref_root, "a.txt");
    let data: Vec<u8> = b"hello tag fs".to_vec();
    assert_eq!(read_slice(&data, 0, 100), read_slice(&data, 0, 100));
}

#[test]
fn content_ref_of_a_directory_is_not_found() {
    let ns = demo_namespace();
    assert_eq!(ns.content_ref_for(1).unwrap_err(), FsError::NotFound);
    let (red, _) = ns.lookup(1, &"red".to_string()).unwrap();
    assert_eq!(ns.content_ref_for(red.ino).unwrap_err(), FsError::NotFound);
}

#[test]
fn read_clamps_to_file_length() {
    let data: Vec<u8> = b"hello world".to_vec();
    assert_eq!(read_slice(&data, 0, 5), b"hello".to_vec());
    assert_eq!(read_slice(&data, 0, 100), data);
    assert_eq!(read_slice(&data, 6, 5), b"world".to_vec());
    assert_eq!(read_slice(&data, 6, 100), b"world".to_vec());
}

#[test]
fn read_at_or_past_the_end_returns_zero_bytes() {
    let data: Vec<u8> = b"hello".to_vec();
    assert_eq!(read_slice(&data, 5, 10), Vec::<u8>::new());
    assert_eq!(read_slice(&data, 1000, 10), Vec::<u8>::new());
    assert_eq!(read_slice(&Vec::new(), 0, 10), Vec::<u8>::new());
}

#[test]
fn tag_colliding_with_file_name_fails_the_build() {
    let scan = vec![file("red", None), file("x.txt", Some(vec!["red"]))];
    let err = build(&scan, &dir_attrs()).expect_err("collision must be refused");
    let BuildError::TagCollision { name } = err;
    assert_eq!(name, "red");
}

#[test]
fn empty_scan_builds_a_lone_root() {
    let ns = build(&Vec::new(), &dir_attrs()).unwrap();
    assert_eq!(ns.entry_count(), 1);
    assert!(ns.readdir(1, 0).unwrap().is_empty());
    assert_eq!(ns.getattr(2).unwrap_err(), FsError::NotFound);
}

#[test]
fn empty_tag_list_makes_no_directory() {
    let scan = vec![file("a.txt", Some(vec![]))];
    let ns = build(&scan, &dir_attrs()).unwrap();
    assert_eq!(listing_names(&ns, 1), vec!["a.txt"]);
}

#[test]
fn repeated_tag_in_one_sidecar_counts_once() {
    let scan = vec![file("a.txt", Some(vec!["red", "red"]))];
    let ns = build(&scan, &dir_attrs()).unwrap();
    assert_eq!(listing_names(&ns, 1), vec!["a.txt", "red"]);
    let (red, _) = ns.lookup(1, &"red".to_string()).unwrap();
    assert_eq!(listing_names(&ns, red.ino), vec!["a.txt"]);
}

#[test]
fn shared_tag_lists_all_members_in_scan_order() {
    let scan = vec![
        file("b.txt", Some(vec!["blue", "red"])),
        file("a.txt", Some(vec!["red"])),
    ];
    let ns = build(&scan, &dir_attrs()).unwrap();
    assert_eq!(listing_names(&ns, 1), vec!["b.txt", "a.txt", "blue", "red"]);
    let (red, _) = ns.lookup(1, &"red".to_string()).unwrap();
    assert_eq!(listing_names(&ns, red.ino), vec!["b.txt", "a.txt"]);
    let (blue, _) = ns.lookup(1, &"blue".to_string()).unwrap();
    assert_eq!(listing_names(&ns, blue.ino), vec!["b.txt"]);
}

#[test]
fn tag_directory_attributes_are_synthesized() {
    let ns = demo_namespace();
    let (red, _) = ns.lookup(1, &"red".to_string()).unwrap();
    assert_eq!(red.kind, EntryKind::Directory);
    assert_eq!(red.size, 0);
    assert_eq!(red.perm, 0o555);
}

#[test]
fn session_refresh_swaps_generations_wholesale() {
    let ns1 = demo_namespace();
    let mut session = Session::new(ns1);
    assert_eq!(session.generation(), 0);
    assert_eq!(session.current().entry_count(), 5);
    let ns2 = build(&vec![file("c.txt", None)], &dir_attrs()).unwrap();
    session.refresh(ns2);
    assert_eq!(session.generation(), 1);
    assert_eq!(session.current().entry_count(), 2);
    let names: Vec<String> = session
        .current()
        .readdir(1, 0)
        .unwrap()
        .into_iter()
        .map(|r| r.name)
        .collect();
    assert_eq!(names, vec!["c.txt"]);
}
