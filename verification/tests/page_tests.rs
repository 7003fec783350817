use manga_reel::archive::FileStamp;
use manga_reel::segment::DETECT_VERSION;
use manga_reel::page::{
    archive_content_hash, cache_dir_path, cache_is_current, cached_panels, detect_page_panels,
    load_page_rgba, load_panels_map, merge_page, panel_cache_locations, panel_cache_name,
    panel_cache_targets, panels_of_page, pick_panel_cache, sidecar_path,
    PageError, PagePanels, PanelCacheFile,
};
use manga_reel::panel::PanelRect;

fn panel(x: u32) -> PanelRect {
    PanelRect { x, y: 0, w: 10, h: 10, across: 100, down: 100 }
}

fn page(i: usize, x: u32) -> PagePanels {
    PagePanels { page_index: i, width: 100, height: 100, panels: vec![panel(x)] }
}

fn cache(hash: &str, version: u32, pages: Vec<PagePanels>) -> PanelCacheFile {
    PanelCacheFile { version, archive_hash: hash.to_string(), pages }
}

fn png(w: u32, h: u32, v: u8) -> Vec<u8> {
    let img = image::RgbaImage::from_pixel(w, h, image::Rgba([v, v, v, 255]));
    let mut out = std::io::Cursor::new(Vec::new());
    img.write_to(&mut out, image::ImageFormat::Png).unwrap();
    out.into_inner()
}

#[test]
fn sidecar_and_cache_names() {
    assert_eq!(sidecar_path("/c/x.cbz"), "/c/x.cbz.manga-reel.json");
    assert_eq!(panel_cache_name("/c/My.cbz", "abc"), "My-abc.panels.json");
    assert_eq!(panel_cache_name("/", "abc"), "comic-abc.panels.json");
    assert!(cache_dir_path("/c/My.cbz", "abc").ends_with("/My-abc.panels.json"));
}

#[test]
fn content_hash_depends_on_the_stamp() {
    let a = archive_content_hash("/c/x.cbz", FileStamp { len: 1, modified: None });
    let b = archive_content_hash("/c/x.cbz", FileStamp { len: 2, modified: None });
    assert_eq!(a.len(), 64);
    assert_ne!(a, b);
    assert_ne!(a, "/c/x.cbz");
}

#[test]
fn current_caches() {
    assert!(cache_is_current(&cache("h", DETECT_VERSION, vec![]), "h"));
    assert!(!cache_is_current(&cache("h", 5, vec![]), "h"));
    assert!(!cache_is_current(&cache("g", DETECT_VERSION, vec![]), "h"));
    let picked = pick_panel_cache(
        vec![None, Some(cache("g", DETECT_VERSION, vec![])), Some(cache("h", DETECT_VERSION, vec![page(1, 1)]))],
        "h",
    );
    assert_eq!(picked.unwrap().pages.len(), 1);
    assert!(pick_panel_cache(vec![Some(cache("h", 1, vec![]))], "h").is_none());
}

#[test]
fn merged_page_is_read_back() {
    let old = cache("h", DETECT_VERSION, vec![page(3, 1), page(1, 2), page(5, 3)]);
    let saved = merge_page(Some(old), "h", page(3, 9));
    let idx: Vec<usize> = saved.pages.iter().map(|p| p.page_index).collect();
    assert_eq!(idx, vec![1, 3, 5]);
    assert_eq!(cached_panels(&saved, 3), Some(vec![panel(9)]));
    assert_eq!(cached_panels(&saved, 5), Some(vec![panel(3)]));
    assert_eq!(cached_panels(&saved, 4), None);
    // A stale cache starts over.
    let fresh = merge_page(Some(cache("other", DETECT_VERSION, vec![page(1, 1)])), "h", page(2, 2));
    assert_eq!(fresh.archive_hash, "h");
    assert_eq!(fresh.version, DETECT_VERSION);
    assert_eq!(fresh.pages.len(), 1);
    let none = merge_page(None, "h", page(0, 0));
    assert_eq!(none.pages.len(), 1);
}

#[test]
fn panels_by_page() {
    let m = load_panels_map(Some(cache("h", DETECT_VERSION, vec![page(2, 1), page(4, 2), page(2, 3)])));
    assert_eq!(m.len(), 2);
    assert_eq!(m[&2], vec![panel(3)]);
    assert_eq!(m[&4], vec![panel(2)]);
    assert!(load_panels_map(None).is_empty());
}

#[test]
fn decoding_pages() {
    let (w, h, px) = load_page_rgba(&png(3, 2, 200)).unwrap();
    assert_eq!((w, h, px.len()), (3, 2, 24));
    assert_eq!(&px[..4], &[200, 200, 200, 255]);
    assert_eq!(load_page_rgba(b"not an image"), Err(PageError::Decode));
}

#[test]
fn detecting_a_page_updates_the_cache() {
    let (panels, saved) = detect_page_panels(None, "h", 4, &png(200, 300, 255)).unwrap();
    assert_eq!(panels.len(), 1);
    assert_eq!(saved.pages.len(), 1);
    assert_eq!(saved.pages[0].page_index, 4);
    assert_eq!((saved.pages[0].width, saved.pages[0].height), (200, 300));
    assert_eq!(saved.pages[0].panels, panels);
    assert!(detect_page_panels(None, "h", 0, b"junk").is_err());
}

#[test]
fn panel_cache_places() {
    let at = panel_cache_locations("/c/Book.cbz", "abc");
    assert_eq!(at.len(), 2);
    assert_eq!(at[0], "/c/Book.cbz.manga-reel.json");
    assert_eq!(at[1], cache_dir_path("/c/Book.cbz", "abc"));
    assert!(at[1].ends_with("/Book-abc.panels.json"));
    assert_eq!(panel_cache_targets("/c/Book.cbz", "abc", true), at);
    assert_eq!(panel_cache_targets("/c/Book.cbz", "abc", false), vec![at[1].clone()]);
}

#[test]
fn merge_keeps_one_entry_per_page_in_order() {
    let old = cache("h", DETECT_VERSION, vec![page(7, 1), page(3, 2), page(3, 4), page(0, 3)]);
    let saved = merge_page(Some(old), "h", page(3, 9));
    let idx: Vec<usize> = saved.pages.iter().map(|p| p.page_index).collect();
    assert_eq!(idx, vec![0, 3, 7]);
    assert_eq!(saved.pages[1].panels, vec![panel(9)]);
}

#[test]
fn panels_of_decoded_pixels() {
    let old = cache("h", DETECT_VERSION, vec![page(2, 1)]);
    let white = vec![255u8; 40 * 30 * 4];
    let (panels, saved) = panels_of_page(Some(old), "h", 5, 40, 30, &white);
    assert_eq!(panels, manga_reel::panel::full_page());
    let idx: Vec<usize> = saved.pages.iter().map(|p| p.page_index).collect();
    assert_eq!(idx, vec![2, 5]);
    assert_eq!(saved.pages[1].panels, panels);
    assert_eq!((saved.pages[1].width, saved.pages[1].height), (40, 30));
}
