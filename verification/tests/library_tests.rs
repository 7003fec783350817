use manga_reel::archive::{FileStamp, Probe};
use manga_reel::library::{
    add_folder, clean_comic_title, cover_file_name, covers_cache_dir, entry_title, folder_label,
    folder_probe, folders_to_walk, fuse_status, refresh_snapshot, gvfs_dir, is_comic_file, key_for, mounts_list_fuse, partition_folders, pick_uid,
    progress_for, recover_folders_from_progress, scan_all, scan_all_opts, scan_folder,
    scan_folder_opts, scan_snapshot, set_progress, state_path, ComicProgress, FolderScan,
    FolderWalk, GvfsFuseStatus, LibraryState, ScanAll, ScanOptions, WalkEntry, DEFAULT_SCAN_CAP,
};

fn file(p: &str) -> WalkEntry {
    WalkEntry { path: p.to_string(), is_file: true }
}

fn dir(p: &str) -> WalkEntry {
    WalkEntry { path: p.to_string(), is_file: false }
}

fn walk(reachable: bool, entries: Vec<WalkEntry>) -> FolderWalk {
    FolderWalk { reachable, entries }
}

#[test]
fn titles_drop_issue_numbers_and_junk() {
    assert_eq!(clean_comic_title("  012 - My_Comic  Title "), "My Comic Title");
    assert_eq!(clean_comic_title("12 Foo"), "Foo");
    assert_eq!(clean_comic_title("1 A"), "1 A");
    assert_eq!(clean_comic_title("2024"), "2024");
    assert_eq!(clean_comic_title("Batman_01"), "Batman 01");
    assert_eq!(clean_comic_title("\t Dylan\u{a0}Dog \n"), "Dylan Dog");
    assert_eq!(clean_comic_title(""), "");
}

#[test]
fn progress_is_read_back_and_others_kept() {
    let mut s = LibraryState::new();
    set_progress(&mut s, "/c/a.cbz", 3, 1, 100);
    set_progress(&mut s, "/c/b.cbz", 7, 0, 200);
    set_progress(&mut s, "/c/a.cbz", 4, 2, 300);
    assert_eq!(progress_for(&s, "/c/a.cbz"), Some(ComicProgress { page_index: 4, panel_index: 2, updated_unix: 300 }));
    assert_eq!(progress_for(&s, "/c/b.cbz"), Some(ComicProgress { page_index: 7, panel_index: 0, updated_unix: 200 }));
    assert_eq!(progress_for(&s, "/c/none.cbz"), None);
    assert_eq!(s.progress.len(), 2);
    assert_eq!(s.last_opened.as_deref(), Some("/c/a.cbz"));
    assert_eq!(key_for("/c/a.cbz"), "/c/a.cbz");
}

#[test]
fn folders_are_added_once_per_path() {
    let mut s = LibraryState::default();
    add_folder(&mut s, "/media/comics".to_string());
    add_folder(&mut s, "/media/comics".to_string());
    add_folder(&mut s, "/media/comics/".to_string());
    add_folder(&mut s, "/media//comics/./".to_string());
    assert_eq!(s.folders, vec!["/media/comics".to_string()]);
    add_folder(&mut s, "/media/other".to_string());
    assert_eq!(s.folders.len(), 2);
}

#[test]
fn folders_recovered_from_progress() {
    let mut s = LibraryState::new();
    for p in ["/a/b/c.cbz", "/a/b/d.cbz", "/e/f.cbz", "g.cbz", "/a/b/sub/h.cbz"] {
        set_progress(&mut s, p, 0, 0, 1);
    }
    let n = recover_folders_from_progress(&mut s);
    assert_eq!(n, 3);
    assert_eq!(s.folders, vec!["/a/b".to_string(), "/e".to_string(), "/a/b/sub".to_string()]);
    // With folders listed already nothing happens.
    assert_eq!(recover_folders_from_progress(&mut s), 0);
    assert_eq!(s.folders.len(), 3);
    // Nor without progress.
    let mut empty = LibraryState::new();
    assert_eq!(recover_folders_from_progress(&mut empty), 0);
    assert!(empty.folders.is_empty());
}

#[test]
fn folder_labels() {
    assert_eq!(folder_label("/run/user/1000/gvfs/sftp:host=stari/media/po/My Passport/x"), "My Passport");
    assert_eq!(folder_label("sftp://po@stari/media/po/My%20Passport"), "My Passport");
    assert_eq!(folder_label("/home/u/Comics/"), "Comics");
    assert_eq!(folder_label("/"), "/");
}

#[test]
fn folders_split_by_reachability() {
    let mut s = LibraryState::new();
    s.folders = vec!["/a".into(), "/b".into(), "/c".into()];
    let (on, off) = partition_folders(&s, &[true, false, true]);
    assert_eq!(on, vec!["/a".to_string(), "/c".to_string()]);
    assert_eq!(off, vec!["/b".to_string()]);
}

#[test]
fn comic_files_by_extension() {
    assert!(is_comic_file("/x/a.CBZ"));
    assert!(is_comic_file("b.cbr"));
    assert!(!is_comic_file("c.zip"));
    assert!(!is_comic_file("cbz"));
    assert!(!is_comic_file("/x/.cbz"));
}

#[test]
fn folder_scan_keeps_comics_in_path_order() {
    let entries = vec![
        dir("/l"),
        file("/l/b.cbz"),
        file("/l/notes.txt"),
        dir("/l/a.cbz"),
        file("/l/a-b/x.cbr"),
        file("/l/a/y.cbz"),
    ];
    // Path order goes by component: "a" before "a-b" before "b.cbz".
    assert_eq!(scan_folder(&entries), vec!["/l/a/y.cbz".to_string(), "/l/a-b/x.cbr".to_string(), "/l/b.cbz".to_string()]);
    // A cap keeps the first comics met in walk order, then sorts them.
    let capped = scan_folder_opts(&entries, ScanOptions { max_entries: 2, max_depth: 0 });
    assert_eq!(capped, vec!["/l/a-b/x.cbr".to_string(), "/l/b.cbz".to_string()]);
}

#[test]
fn folder_scan_stops_at_the_cap() {
    let mut scan = FolderScan::new(1);
    assert!(scan.offer("/x/readme", true));
    assert!(!scan.offer("/x/a.cbz", true));
    assert_eq!(scan.finish(), vec!["/x/a.cbz".to_string()]);
}

#[test]
fn default_scan_options() {
    let o = ScanOptions::default();
    assert_eq!((o.max_entries, o.max_depth), (DEFAULT_SCAN_CAP, 8));
    assert_eq!(DEFAULT_SCAN_CAP, 400);
}

#[test]
fn library_scan_dedups_sorts_and_titles() {
    let mut s = LibraryState::new();
    s.folders = vec!["/one".into(), "/gone".into(), "/two".into()];
    set_progress(&mut s, "/two/zeta.cbz", 5, 1, 9);
    let walks = vec![
        walk(true, vec![file("/one/03 - beta.cbz"), file("/one/Alpha.cbr")]),
        walk(false, vec![file("/gone/ghost.cbz")]),
        walk(true, vec![file("/two/zeta.cbz"), file("/one/Alpha.cbr")]),
    ];
    let (entries, truncated) = scan_all_opts(&s, ScanOptions { max_entries: 0, max_depth: 0 }, &walks);
    assert!(!truncated);
    let titles: Vec<&str> = entries.iter().map(|e| e.title.as_str()).collect();
    assert_eq!(titles, vec!["Alpha", "beta", "zeta"]);
    assert_eq!(entries[2].path, "/two/zeta.cbz");
    assert_eq!(entries[2].progress, Some(ComicProgress { page_index: 5, panel_index: 1, updated_unix: 9 }));
    assert_eq!(entries[0].progress, None);
    assert_eq!(scan_all(&s, &walks).len(), 3);
}

#[test]
fn library_scan_truncates_at_the_cap() {
    let s = LibraryState::new();
    let walks = vec![
        walk(true, vec![file("/a/1.cbz"), file("/a/2.cbz")]),
        walk(true, vec![file("/b/3.cbz")]),
    ];
    let (entries, truncated) = scan_all_opts(&s, ScanOptions { max_entries: 2, max_depth: 0 }, &walks);
    assert!(truncated);
    assert_eq!(entries.len(), 2);
    let (entries, truncated) = scan_all_opts(&s, ScanOptions { max_entries: 3, max_depth: 0 }, &walks);
    assert_eq!(entries.len(), 3);
    assert!(truncated);
    let (entries, truncated) = scan_all_opts(&s, ScanOptions { max_entries: 4, max_depth: 0 }, &walks);
    assert_eq!(entries.len(), 3);
    assert!(!truncated);
}

#[test]
fn scan_machine_budgets() {
    let s = LibraryState::new();
    let mut scan = ScanAll::new(ScanOptions { max_entries: 1, max_depth: 3 });
    let o = scan.begin_folder().unwrap();
    assert_eq!((o.max_entries, o.max_depth), (1, 3));
    scan.add_paths(&s, o.max_entries, &["/a/x.cbz".to_string()]);
    assert!(scan.stopped && scan.truncated);
    assert!(scan.begin_folder().is_none());
    let (entries, truncated) = scan.finish();
    assert_eq!(entries.len(), 1);
    assert!(truncated);
}

#[test]
fn titles_of_entries() {
    assert_eq!(entry_title("/c/07_The_Return.cbz"), "The Return");
    assert_eq!(entry_title("/"), "/");
}

#[test]
fn fuse_mounts_and_status() {
    let mounts = "proc /proc proc rw 0 0\ngvfsd-fuse /run/user/1000/gvfs fuse.gvfsd-fuse rw 0 0\n";
    assert!(mounts_list_fuse(mounts, "/run/user/1000/gvfs"));
    assert!(!mounts_list_fuse(mounts, "/run/user/1001/gvfs"));
    assert!(!mounts_list_fuse("tmpfs /run/user/1000/gvfs tmpfs rw 0 0", "/run/user/1000/gvfs"));
    let dir = "/run/user/1000/gvfs";
    assert_eq!(fuse_status(false, None, dir, false, None), GvfsFuseStatus::Missing);
    assert_eq!(fuse_status(false, None, dir, true, None), GvfsFuseStatus::Available);
    assert_eq!(fuse_status(true, Some(mounts), dir, false, None), GvfsFuseStatus::Available);
    assert_eq!(fuse_status(true, Some("none"), dir, false, Some(true)), GvfsFuseStatus::Available);
    assert_eq!(fuse_status(true, Some("none"), dir, false, Some(false)), GvfsFuseStatus::Missing);
    assert_eq!(fuse_status(true, None, dir, false, None), GvfsFuseStatus::Missing);
}

#[test]
fn user_ids() {
    assert_eq!(pick_uid(Some("1001"), Some("5\n")), "1001");
    assert_eq!(pick_uid(Some(""), Some(" 1002\n")), "1002");
    assert_eq!(pick_uid(None, Some("  ")), "1000");
    assert_eq!(pick_uid(None, None), "1000");
    assert_eq!(gvfs_dir("1000"), "/run/user/1000/gvfs");
}

#[test]
fn snapshot_of_a_refresh() {
    let mut s = LibraryState::new();
    s.folders = vec!["/a".into(), "/b".into()];
    let walks = vec![walk(true, vec![file("/a/x.cbz")]), walk(false, vec![])];
    let (back, snap) = scan_snapshot(s.clone(), ScanOptions::default(), 2, GvfsFuseStatus::Available, &walks);
    assert_eq!(back.folders, s.folders);
    assert_eq!(snap.online, vec!["/a".to_string()]);
    assert_eq!(snap.offline, vec!["/b".to_string()]);
    assert_eq!(snap.entries.len(), 1);
    assert!(!snap.truncated);
    assert_eq!((snap.recovered, snap.folder_count), (2, 2));
    assert_eq!(snap.fuse, GvfsFuseStatus::Available);
}

#[test]
fn cover_paths() {
    let a = cover_file_name("/c/a.cbz", Some(FileStamp { len: 10, modified: Some((5, 7)) }));
    let b = cover_file_name("/c/a.cbz", Some(FileStamp { len: 11, modified: Some((5, 7)) }));
    let c = cover_file_name("/c/a.cbz", Some(FileStamp { len: 10, modified: Some((5, 9)) }));
    assert_eq!(a.len(), 68);
    assert!(a.ends_with(".png"));
    assert!(a[..64].chars().all(|ch| ch.is_ascii_hexdigit() && !ch.is_ascii_uppercase()));
    assert_ne!(a, b);
    // Only whole seconds count for covers.
    assert_eq!(a, c);
    assert!(covers_cache_dir().ends_with("/covers"));
    assert!(state_path().ends_with("/library.json"));
}

#[test]
fn offline_folders_are_kept() {
    let mut st = LibraryState::new();
    for f in ["/a", "/b", "/c"] {
        add_folder(&mut st, f.to_string());
    }
    let (online, offline) = partition_folders(&st, &[true, false, true]);
    assert_eq!(online, vec!["/a".to_string(), "/c".to_string()]);
    assert_eq!(offline, vec!["/b".to_string()]);
    assert_eq!(st.folders, vec!["/a".to_string(), "/b".to_string(), "/c".to_string()]);
}

#[test]
fn library_folders_are_probed() {
    assert_eq!(folder_probe(""), Probe::Skip);
    assert_eq!(folder_probe("/home/u/comics"), Probe::Direct);
    assert_eq!(folder_probe("/mnt/sftp:host=a/comics"), Probe::Timed(3));
    assert_eq!(folder_probe("/run/user/1000/gvfs/x"), Probe::Timed(3));
}

#[test]
fn scanned_paths_sort_by_components() {
    let found = scan_folder(&[file("/x/a-b.cbz"), file("/x/a/z.cbz"), file("/x/a/b.cbr")]);
    assert_eq!(found, vec!["/x/a/b.cbr".to_string(), "/x/a/z.cbz".to_string(), "/x/a-b.cbz".to_string()]);
}

#[test]
fn refresh_recovers_then_snapshots() {
    let mut s = LibraryState::new();
    set_progress(&mut s, "/m/a/x.cbz", 1, 0, 5);
    set_progress(&mut s, "/m/b/y.cbz", 2, 0, 6);
    set_progress(&mut s, "/m/a/z.cbz", 3, 0, 7);
    let to_walk = folders_to_walk(&s);
    assert_eq!(to_walk, vec!["/m/a".to_string(), "/m/b".to_string()]);
    let walks = vec![walk(true, vec![file("/m/a/x.cbz"), file("/m/a/z.cbz")]), walk(false, vec![])];
    let (back, snap) = refresh_snapshot(s.clone(), ScanOptions::default(), GvfsFuseStatus::Missing, &walks);
    assert_eq!(back.folders, to_walk);
    assert_eq!(back.progress, s.progress);
    assert_eq!((snap.recovered, snap.folder_count), (2, 2));
    assert_eq!(snap.online, vec!["/m/a".to_string()]);
    assert_eq!(snap.offline, vec!["/m/b".to_string()]);
    assert_eq!(snap.entries.len(), 2);
    assert_eq!(snap.entries[0].progress.map(|p| p.page_index), Some(1));
    // With folders listed nothing is recovered.
    let (again, snap2) = refresh_snapshot(back.clone(), ScanOptions::default(), GvfsFuseStatus::Available, &walks);
    assert_eq!(again.folders, back.folders);
    assert_eq!(snap2.recovered, 0);
}
