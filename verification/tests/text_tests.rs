use manga_reel::paths::{components, extension, file_name, file_stem, join, parent, path_eq_exec};
use manga_reel::settings::{settings_path, FitMode, Letterbox, ReadingOrder};
use manga_reel::dirs::{cache_dir, config_dir, data_dir, dir_or_fallback};
use manga_reel::text::{chars_of, collapse_whitespace, string_of, trim};

fn cs(s: &str) -> Vec<char> {
    s.chars().collect()
}

fn st(v: Option<Vec<char>>) -> Option<String> {
    v.map(|c| c.into_iter().collect())
}

#[test]
fn strings_round_trip() {
    assert_eq!(string_of(&chars_of("héllo")), "héllo");
}

#[test]
fn trimming_and_collapsing() {
    assert_eq!(trim(&cs("  a b \n")), cs("a b"));
    assert_eq!(collapse_whitespace(&cs("  a \t b\n\nc ")), cs("a b c"));
    assert_eq!(collapse_whitespace(&cs("   ")), cs(""));
}

#[test]
fn path_parts() {
    assert_eq!(st(file_name(&cs("/a/b.tar.gz"))), Some("b.tar.gz".to_string()));
    assert_eq!(st(extension(&cs("/a/b.tar.gz"))), Some("gz".to_string()));
    assert_eq!(st(file_stem(&cs("/a/b.tar.gz"))), Some("b.tar".to_string()));
    assert_eq!(st(extension(&cs("/a/.hidden"))), None);
    assert_eq!(st(parent(&cs("/a/b/"))), Some("/a".to_string()));
    assert_eq!(st(parent(&cs("b"))), Some(String::new()));
    assert_eq!(st(parent(&cs("/"))), None);
    assert_eq!(join(&cs("/a"), &cs("b")), cs("/a/b"));
    assert_eq!(join(&cs("/a/"), &cs("b")), cs("/a/b"));
}

#[test]
fn path_components_and_order() {
    assert_eq!(components(&cs("/a//b/./c/")).len(), 4);
    assert!(path_eq_exec(&cs("/a//b/./c/"), &cs("/a/b/c")));
    assert!(!path_eq_exec(&cs("a/b"), &cs("/a/b")));
    assert!(path_eq_exec(&cs("./a"), &cs("./a/")));
    assert!(!path_eq_exec(&cs("./a"), &cs("a")));
}

#[test]
fn settings_defaults() {
    assert_eq!(ReadingOrder::default(), ReadingOrder::Ltr);
    assert_eq!(Letterbox::default(), Letterbox::Black);
    assert_eq!(FitMode::default(), FitMode::Width);
    assert!(settings_path().ends_with("settings.json"));
}

#[test]
fn project_directories() {
    let fb: Vec<char> = "./.cache/manga-reel".chars().collect();
    assert_eq!(dir_or_fallback(Some("/home/u/.cache/manga-reel".to_string()), &fb), "/home/u/.cache/manga-reel");
    assert_eq!(dir_or_fallback(None, &fb), "./.cache/manga-reel");
    assert!(cache_dir().ends_with("/manga-reel"));
    assert!(data_dir().ends_with("/manga-reel"));
    if let Some(c) = config_dir() {
        assert!(c.ends_with("/manga-reel"));
    }
}
