use manga_reel::archive::{
    archive_cache_key, archive_kind_for, choose_local_source, is_image_name, is_remote_or_gvfs,
    is_zip_page, parse_rar_listing, unrar_argv, ArchiveError, ArchiveKind, ComicArchive, FileStamp,
    LocalSource, ZipEntry, archive_cache_paths, archive_cache_root, check_unrar_run, file_probe,
    list_argv, PageSource, Probe, UnrarFailure,
};
use manga_reel::natord::{nat_cmp, sort_pages};
use std::cmp::Ordering;

fn entry(name: &str, is_dir: bool) -> ZipEntry {
    ZipEntry { name: name.to_string(), is_dir }
}

#[test]
fn image_names() {
    assert!(is_image_name("p01.JPG"));
    assert!(is_image_name("a/b.webp"));
    assert!(!is_image_name("notes.txt"));
    assert!(!is_image_name("jpg"));
}

#[test]
fn zip_pages_skip_metadata() {
    assert!(is_zip_page("ch1/001.png", false));
    assert!(!is_zip_page("ch1/", true));
    assert!(!is_zip_page("__MACOSX/._001.png", false));
    assert!(!is_zip_page("ch1/.DS_Store", false));
}

#[test]
fn natural_order() {
    assert_eq!(nat_cmp("page2.jpg", "page10.jpg"), Ordering::Less);
    assert_eq!(nat_cmp("Page10", "page9"), Ordering::Greater);
    assert_eq!(nat_cmp("a01", "a1"), Ordering::Equal);
    assert_eq!(nat_cmp("a", "ab"), Ordering::Less);
    let mut v: Vec<String> = ["10.png", "2.png", "1.png", "B.png", "a.png"].iter().map(|s| s.to_string()).collect();
    sort_pages(&mut v);
    assert_eq!(v, vec!["1.png", "2.png", "10.png", "a.png", "B.png"]);
}

#[test]
fn zip_archive_pages() {
    let a = ComicArchive::from_zip_entries(
        "/c/x.cbz".into(),
        "/c/x.cbz".into(),
        &[entry("p10.jpg", false), entry("p2.jpg", false), entry("info.txt", false), entry("d/", true)],
    )
    .unwrap();
    assert_eq!(a.kind, ArchiveKind::Cbz);
    assert_eq!(a.pages, vec!["p2.jpg".to_string(), "p10.jpg".to_string()]);
    assert_eq!(a.page_count(), 2);
    assert_eq!(a.page_entry(1), Ok("p10.jpg".to_string()));
    assert_eq!(a.page_entry(2), Err(ArchiveError::PageOutOfRange(2)));
    let empty = ComicArchive::from_zip_entries("/c/y.cbz".into(), "/c/y.cbz".into(), &[entry("a.txt", false)]);
    assert_eq!(empty.err(), Some(ArchiveError::NoImages(ArchiveKind::Cbz)));
}

#[test]
fn rar_listing_pages() {
    let listing = "  p3.png\r\np1.png\n__MACOSX/p2.png\n\nreadme.txt\n";
    assert_eq!(parse_rar_listing(listing), vec!["p3.png".to_string(), "p1.png".to_string()]);
    let a = ComicArchive::from_rar_listing("/c/x.cbr".into(), "/tmp/x.cbr".into(), listing).unwrap();
    assert_eq!(a.kind, ArchiveKind::Cbr);
    assert_eq!(a.local_path, "/tmp/x.cbr");
    assert_eq!(a.pages, vec!["p1.png".to_string(), "p3.png".to_string()]);
    let none = ComicArchive::from_rar_listing("/c/y.cbr".into(), "/c/y.cbr".into(), "x.txt\n");
    assert_eq!(none.err(), Some(ArchiveError::NoImages(ArchiveKind::Cbr)));
}

#[test]
fn archive_kinds() {
    assert_eq!(archive_kind_for("/a/b.CBZ"), Ok(ArchiveKind::Cbz));
    assert_eq!(archive_kind_for("b.zip"), Ok(ArchiveKind::Cbz));
    assert_eq!(archive_kind_for("b.rar"), Ok(ArchiveKind::Cbr));
    assert_eq!(archive_kind_for("b.PDF"), Err(ArchiveError::Unsupported("pdf".to_string())));
    assert_eq!(archive_kind_for("noext"), Err(ArchiveError::Unsupported(String::new())));
}

#[test]
fn remote_paths() {
    assert!(is_remote_or_gvfs("/run/user/1000/gvfs/sftp:host=x/a.cbz"));
    assert!(is_remote_or_gvfs("/mnt/sftp:host=x/a.cbz"));
    assert!(!is_remote_or_gvfs("/home/u/a.cbz"));
    assert!(!is_remote_or_gvfs("/home/u/mysftp:x/a.cbz"));
}

#[test]
fn cache_keys() {
    let k = archive_cache_key("/r/x.CBR", Some(FileStamp { len: 3, modified: Some((1, 2)) }));
    assert_eq!(k.len(), 68);
    assert!(k.ends_with(".cbr"));
    let l = archive_cache_key("/r/x.CBR", Some(FileStamp { len: 3, modified: Some((1, 3)) }));
    assert_ne!(k, l);
    assert!(archive_cache_key("/r/noext", None).ends_with(".bin"));
}

#[test]
fn local_sources() {
    assert_eq!(choose_local_source(false, true, Some(1), Some(1)), LocalSource::InPlace);
    assert_eq!(choose_local_source(true, true, Some(5), Some(5)), LocalSource::Cached);
    assert_eq!(choose_local_source(true, true, Some(5), Some(4)), LocalSource::CopyToCache);
    assert_eq!(choose_local_source(true, true, None, Some(4)), LocalSource::CachedSourceOffline);
    assert_eq!(choose_local_source(true, true, None, Some(0)), LocalSource::CopyToCache);
    assert_eq!(choose_local_source(true, false, Some(5), Some(5)), LocalSource::CopyToCache);
}

#[test]
fn unrar_command_lines() {
    assert_eq!(unrar_argv(&["lb"], "/a.cbr", None, 60), vec!["60s", "unrar", "lb", "/a.cbr"]);
    assert_eq!(
        unrar_argv(&["p", "-inul"], "/a.cbr", Some("x.png"), 120),
        vec!["120s", "unrar", "p", "-inul", "/a.cbr", "x.png"]
    );
}

fn archive(kind: ArchiveKind, local: &str) -> ComicArchive {
    ComicArchive {
        path: "/lib/book".to_string(),
        local_path: local.to_string(),
        kind,
        pages: vec!["1.png".to_string(), "2.png".to_string()],
    }
}

#[test]
fn page_sources() {
    let zip = archive(ArchiveKind::Cbz, "/tmp/c.cbz");
    assert_eq!(
        zip.page_source(1),
        Ok(PageSource::ZipEntry { archive: "/tmp/c.cbz".to_string(), name: "2.png".to_string() })
    );
    assert_eq!(zip.page_source(2), Err(ArchiveError::PageOutOfRange(2)));
    let rar = archive(ArchiveKind::Cbr, "/tmp/c.cbr");
    assert_eq!(
        rar.page_source(0),
        Ok(PageSource::Unrar {
            argv: ["120s", "unrar", "p", "-inul", "-p-", "/tmp/c.cbr", "1.png"].iter().map(|s| s.to_string()).collect()
        })
    );
    assert_eq!(
        list_argv("/tmp/c.cbr"),
        ["60s", "unrar", "lb", "-p-", "/tmp/c.cbr"].iter().map(|s| s.to_string()).collect::<Vec<String>>()
    );
}

#[test]
fn unrar_runs_are_judged() {
    assert_eq!(check_unrar_run(Some(124), false, 0, false, 60), Err(UnrarFailure::TimedOut(60)));
    assert_eq!(check_unrar_run(Some(124), true, 9, true, 120), Err(UnrarFailure::TimedOut(120)));
    assert_eq!(check_unrar_run(Some(0), true, 0, true, 120), Err(UnrarFailure::Failed));
    assert_eq!(check_unrar_run(Some(0), true, 5, true, 120), Ok(()));
    assert_eq!(check_unrar_run(Some(0), true, 0, false, 60), Ok(()));
    assert_eq!(check_unrar_run(Some(1), false, 10, false, 60), Err(UnrarFailure::Failed));
    assert_eq!(check_unrar_run(None, false, 0, false, 60), Err(UnrarFailure::Failed));
}

#[test]
fn remote_archives_are_probed_with_a_time_limit() {
    assert_eq!(file_probe("/run/user/1000/gvfs/sftp:host=x/a.cbz"), Probe::Timed(8));
    assert_eq!(file_probe("/home/a.cbz"), Probe::Direct);
}

#[test]
fn archive_cache_copies() {
    let stamp = Some(FileStamp { len: 10, modified: Some((5, 6)) });
    let src = "/run/user/1/gvfs/x/Book.CBZ";
    let (dest, partial) = archive_cache_paths("/cache/archives", src, stamp);
    let key = archive_cache_key(src, stamp);
    assert_eq!(dest, format!("/cache/archives/{key}"));
    assert!(dest.ends_with(".cbz"));
    assert_eq!(partial, format!("/cache/archives/{}.partial", &key[..64]));
    let (_, partial_bin) = archive_cache_paths("/c", "/run/user/1/gvfs/x/Book", None);
    assert!(partial_bin.ends_with(".partial") && !partial_bin.contains(".bin"));
    assert!(archive_cache_root().ends_with("archives"));
}
