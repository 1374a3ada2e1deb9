use cachewipe::scan::size_into;
use cachewipe::scan::{
    data_volume, descends, df_available_bytes, entries_fit, has_sibling, lock_file_names,
    lock_present, now_secs, sibling_paths, size_dir, size_path, visit_named, DirStat, EntryMeta,
    NamedVisit, PathProbe,
};

fn file(len: u64, mtime: Option<u64>) -> EntryMeta {
    EntryMeta { is_symlink: false, is_dir: false, len, mtime }
}

fn dir() -> EntryMeta {
    EntryMeta { is_symlink: false, is_dir: true, len: 4096, mtime: Some(9_999) }
}

fn link() -> EntryMeta {
    EntryMeta { is_symlink: true, is_dir: false, len: 77, mtime: Some(9_999) }
}

#[test]
fn sizing_counts_files_and_links_but_not_dirs() {
    let entries = vec![file(100, Some(5)), dir(), link(), file(23, Some(40)), file(1, None)];
    let s = size_dir(&entries);
    assert_eq!(s.bytes, 124);
    assert_eq!(s.files, 4);
    assert_eq!(s.newest_mtime, 40);
}

#[test]
fn empty_dir_is_zero() {
    let s = size_dir(&vec![]);
    assert_eq!((s.bytes, s.files, s.newest_mtime), (0, 0, 0));
    let n = DirStat::new();
    assert_eq!((n.bytes, n.files, n.newest_mtime), (0, 0, 0));
}

#[test]
fn symlinks_are_never_descended() {
    assert!(descends(&dir()));
    assert!(!descends(&link()));
    assert!(!descends(&file(1, None)));
    let dir_link = EntryMeta { is_symlink: true, is_dir: true, len: 0, mtime: None };
    assert!(!descends(&dir_link));
}

#[test]
fn overflowing_sizes_are_detected() {
    assert!(entries_fit(&vec![file(u64::MAX, None), dir()]));
    assert!(!entries_fit(&vec![file(u64::MAX, None), file(1, None)]));
    assert!(entries_fit(&vec![file(u64::MAX, None), link()]));
}

#[test]
fn single_file_uses_allocated_blocks() {
    let s = size_path(&PathProbe::File { len: 10_000_000, blocks: Some(8), mtime: Some(12) });
    assert_eq!((s.bytes, s.files, s.newest_mtime), (4096, 1, 12));
    let s = size_path(&PathProbe::File { len: 300, blocks: None, mtime: None });
    assert_eq!((s.bytes, s.files, s.newest_mtime), (300, 1, 0));
    let s = size_path(&PathProbe::File { len: 1, blocks: Some(u64::MAX), mtime: None });
    assert_eq!(s.bytes, u64::MAX);
    let s = size_path(&PathProbe::Unreadable);
    assert_eq!((s.bytes, s.files), (0, 0));
    let s = size_path(&PathProbe::Dir(vec![file(7, Some(3))]));
    assert_eq!((s.bytes, s.files, s.newest_mtime), (7, 1, 3));
}

#[test]
fn fresh_lock_means_in_use() {
    assert_eq!(lock_file_names(), vec![".lock", "lock", ".package-lock"]);
    assert!(lock_present(&vec![None, Some(10), None]));
    assert!(!lock_present(&vec![Some(300), None, Some(5000)]));
    assert!(lock_present(&vec![None, None, Some(299)]));
    assert!(!lock_present(&vec![None, None, None]));
}

#[test]
fn siblings_sit_in_the_parent() {
    let names = vec!["Cargo.toml".to_string(), "Cargo.lock".to_string()];
    assert_eq!(
        sibling_paths("/code/app/target", &names),
        Some(vec!["/code/app/Cargo.toml".to_string(), "/code/app/Cargo.lock".to_string()])
    );
    assert_eq!(sibling_paths("/", &names), None);
    assert_eq!(sibling_paths("target", &names), Some(names.clone()));
    assert!(has_sibling("/code/app/target", &names, &vec![false, true]));
    assert!(!has_sibling("/code/app/target", &names, &vec![false, false]));
    assert!(!has_sibling("/", &names, &vec![true, true]));
}

#[test]
fn named_search_prunes_at_match() {
    let none: Vec<String> = vec![];
    let need = vec!["Cargo.toml".to_string()];
    assert_eq!(visit_named("node_modules", true, false, "node_modules", &none, None), NamedVisit::Collect);
    assert_eq!(visit_named("src", true, false, "node_modules", &none, None), NamedVisit::Descend);
    assert_eq!(visit_named("node_modules", false, false, "node_modules", &none, None), NamedVisit::Skip);
    assert_eq!(visit_named("node_modules", true, true, "node_modules", &none, None), NamedVisit::Skip);
    assert_eq!(visit_named("target", true, false, "target", &need, None), NamedVisit::CheckSibling);
    assert_eq!(visit_named("target", true, false, "target", &need, Some(true)), NamedVisit::Collect);
    assert_eq!(visit_named("target", true, false, "target", &need, Some(false)), NamedVisit::Descend);
}

#[test]
fn df_output_gives_available_bytes() {
    let out = "Filesystem 1K-blocks Used Available Use% Mounted on\n/dev/disk3s5 971350180 800000000 171350180 83% /System/Volumes/Data\n";
    assert_eq!(df_available_bytes(out), Some(171_350_180 * 1024));
    assert_eq!(df_available_bytes("a b c 12\r\n"), Some(12 * 1024));
    assert_eq!(df_available_bytes(""), None);
    assert_eq!(df_available_bytes("a b c\n"), None);
    assert_eq!(df_available_bytes("a b c x\n"), None);
    assert_eq!(df_available_bytes("a b c 18446744073709551615"), Some(u64::MAX));
}

#[test]
fn data_volume_prefers_macos_data() {
    assert_eq!(data_volume(true), "/System/Volumes/Data");
    assert_eq!(data_volume(false), "/");
}

#[test]
fn clock_reads_after_2020() {
    assert!(now_secs() > 1_577_836_800);
}

#[test]
fn sizing_onto_a_running_total_adds() {
    let mut acc = DirStat { bytes: 10, files: 2, newest_mtime: 50 };
    size_into(&vec![file(5, Some(20)), link(), dir()], &mut acc);
    assert_eq!((acc.bytes, acc.files, acc.newest_mtime), (15, 4, 50));
    size_into(&vec![file(1, Some(70))], &mut acc);
    assert_eq!((acc.bytes, acc.files, acc.newest_mtime), (16, 5, 70));
}

#[test]
fn target_without_manifest_is_walked_into_not_collected() {
    let need = vec!["Cargo.toml".to_string()];
    assert!(!has_sibling("/r/data/target", &need, &vec![false]));
    assert_eq!(visit_named("target", true, false, "target", &need, Some(false)), NamedVisit::Descend);
}
