use manga_reel::browse::{
    choose_browse_root, library_status, passport_candidates, path_starts_with_exec, uid_from_id_output,
    up_move, visible_subdirs, BrowseRoot, ChildInfo, ParentInfo, UpMove,
};
use manga_reel::shader::{parse_screen_shader, split_words};

fn child(name: &str, is_dir: bool) -> ChildInfo {
    ChildInfo { name: name.to_string(), uri: format!("sftp://h/{name}"), is_dir }
}

fn parent(uri: &str, path: Option<&str>, is_root: bool) -> Option<ParentInfo> {
    Some(ParentInfo { uri: uri.to_string(), path: path.map(|p| p.to_string()), is_root })
}

#[test]
fn passport_candidates_for_a_user() {
    assert_eq!(
        passport_candidates("1000"),
        vec![
            "/run/user/1000/gvfs/sftp:host=stari,user=po/media/po/My Passport".to_string(),
            "/run/user/1000/gvfs/sftp:host=stari,user=po/mnt/passport".to_string(),
        ]
    );
    assert_eq!(uid_from_id_output(" 1001\n"), "1001");
    assert_eq!(uid_from_id_output("\n"), "");
}

#[test]
fn browse_root_decisions() {
    let cands = passport_candidates("1000");
    assert_eq!(
        choose_browse_root(Some("timed out".to_string()), Some("/mnt/p".to_string()), &cands, &[true, true], true),
        Err("My Passport unreachable (timed out). Mount the disk on stari or open a local CBZ/CBR.".to_string())
    );
    assert_eq!(
        choose_browse_root(None, Some("/mnt/p".to_string()), &cands, &[true, true], true),
        Ok(BrowseRoot::Local("/mnt/p".to_string()))
    );
    assert_eq!(
        choose_browse_root(None, None, &cands, &[false, true], true),
        Ok(BrowseRoot::Local(cands[1].clone()))
    );
    assert_eq!(
        choose_browse_root(None, None, &cands, &[false, false], false),
        Err("My Passport not mounted (no local GVFS path). Open Nautilus → stari, or add a local folder.".to_string())
    );
    assert_eq!(choose_browse_root(None, None, &cands, &[false, false], true), Ok(BrowseRoot::Remote));
    assert_eq!(choose_browse_root(None, None, &[], &[], true), Ok(BrowseRoot::Remote));
}

#[test]
fn subdirs_are_visible_directories_by_lowercase_name() {
    let kids = vec![
        child("b", true),
        child(".hidden", true),
        child("A", true),
        child("file.cbz", false),
        child("a", true),
    ];
    let names: Vec<String> = visible_subdirs(&kids).into_iter().map(|(n, _)| n).collect();
    assert_eq!(names, vec!["A", "a", "b"]);
    let pairs = visible_subdirs(&kids);
    assert_eq!(pairs[2], ("b".to_string(), "sftp://h/b".to_string()));
    assert!(visible_subdirs(&[]).is_empty());
}

#[test]
fn up_button_moves() {
    let root = "sftp://h/media";
    assert_eq!(up_move(root, root, &parent("sftp://h", None, false), &None), UpMove::Stay);
    assert_eq!(up_move("sftp://h/media/x", root, &None, &None), UpMove::Stay);
    assert_eq!(up_move("sftp://h/media/x/y", root, &parent("sftp://h/media/x", None, false), &None), UpMove::ToParent);
    assert_eq!(up_move("sftp://h/media/x", root, &parent("sftp://other", None, true), &None), UpMove::ToParent);
    assert_eq!(
        up_move("file:///mnt/p/x/y", "file:///elsewhere", &parent("file:///mnt/p/x", Some("/mnt/p/x"), false), &Some("/mnt/p".to_string())),
        UpMove::ToParent
    );
    assert_eq!(
        up_move("file:///mnt/p", "sftp://h/media", &parent("file:///mnt", Some("/mnt"), false), &Some("/mnt/p".to_string())),
        UpMove::ToRoot
    );
}

#[test]
fn path_prefix_is_by_components() {
    assert!(path_starts_with_exec("/mnt/p/x", "/mnt/p"));
    assert!(path_starts_with_exec("/mnt/p/", "/mnt/p"));
    assert!(path_starts_with_exec("/mnt//p/./x", "/mnt/p"));
    assert!(!path_starts_with_exec("/mnt/px", "/mnt/p"));
    assert!(!path_starts_with_exec("mnt/p", "/mnt/p"));
}

#[test]
fn status_line() {
    assert_eq!(library_status(3, None), "3 comic(s)");
    assert_eq!(library_status(1, Some("offline")), "1 comic(s)");
    assert_eq!(library_status(0, Some("offline")), "offline");
    assert_eq!(
        library_status(0, None),
        "No comics yet — use My Passport to browse stari like Nautilus."
    );
}

#[test]
fn screen_shader_from_hyprctl_output() {
    assert_eq!(
        parse_screen_shader("str: \"/home/u/shaders/warm.frag\"\nset: true\n"),
        Some("/home/u/shaders/warm.frag".to_string())
    );
    assert_eq!(parse_screen_shader("  str:   \"x.frag\"  \r\nset: true"), Some("x.frag".to_string()));
    assert_eq!(parse_screen_shader("str: [[EMPTY]]\nset: false\n"), None);
    assert_eq!(parse_screen_shader("str: \"\"\n"), None);
    assert_eq!(parse_screen_shader("custom: /x/y.frag more\n"), Some("/x/y.frag".to_string()));
    assert_eq!(parse_screen_shader("str: [[EMPTY]]\nold /a/b.frag\n"), Some("/a/b.frag".to_string()));
    assert_eq!(parse_screen_shader(""), None);
    assert_eq!(parse_screen_shader("no shader here\n"), None);
}

#[test]
fn words_split_on_whitespace() {
    let w: Vec<String> = split_words(&"  a b\t c\u{a0}d  ".chars().collect::<Vec<char>>())
        .into_iter()
        .map(|v| v.into_iter().collect())
        .collect();
    assert_eq!(w, vec!["a", "b", "c", "d"]);
    assert!(split_words(&[]).is_empty());
}
