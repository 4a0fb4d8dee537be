use chive::entry::{Attributes, EntryKind, ScanEntry};
use chive::sidecar::{init_plan, is_sidecar, sidecar_name_for};
use chive::{chive_clear, chive_exec, Chive, FsError};

fn plain_attrs() -> Attributes {
    Attributes {
        ino: 9,
        size: 3,
        blocks: 1,
        atime_secs: 0,
        mtime_secs: 0,
        ctime_secs: 0,
        crtime_secs: 0,
        kind: EntryKind::RegularFile,
        perm: 0o644,
        nlink: 1,
        uid: 0,
        gid: 0,
        rdev: 0,
        blksize: 512,
        flags: 0,
    }
}

fn scan_file(name: &str, is_regular: bool) -> ScanEntry {
    ScanEntry {
        name: name.to_string(),
        is_regular,
        attributes: plain_attrs(),
        tags: None,
    }
}

#[test]
fn sidecar_name_adds_hidden_prefix_and_extension() {
    assert_eq!(sidecar_name_for("a.txt"), ".a.txt.chive");
    assert_eq!(sidecar_name_for("x"), ".x.chive");
}

#[test]
fn sidecar_naming_round_trips() {
    let sidecar = sidecar_name_for("notes.md");
    assert!(is_sidecar(&sidecar));
    assert!(!is_sidecar("notes.md"));
    assert!(!is_sidecar(".chive"));
    assert!(!is_sidecar("x.chive"));
    assert!(!is_sidecar(".hidden"));
}

#[test]
fn init_plans_sidecars_for_uncovered_content_files() {
    let scan = vec![
        scan_file("a.txt", true),
        scan_file(".a.txt.chive", true),
        scan_file("b.txt", true),
        scan_file("subdir", false),
    ];
    assert_eq!(init_plan(&scan), vec![".b.txt.chive"]);
}

#[test]
fn init_plan_skips_sidecars_and_non_regular_entries() {
    let scan = vec![scan_file(".a.txt.chive", true), scan_file("d", false)];
    assert_eq!(init_plan(&scan), Vec::<String>::new());
}

#[test]
fn default_chive_has_no_tags() {
    let chive = Chive::default();
    assert!(chive.tags().is_empty());
    let tagged = Chive::new(vec!["red".to_string()]);
    assert_eq!(tagged.tags(), &vec!["red".to_string()]);
}

#[test]
fn reserved_commands_report_unsupported() {
    assert_eq!(chive_clear().unwrap_err(), FsError::Unsupported);
    assert_eq!(chive_exec().unwrap_err(), FsError::Unsupported);
}
