use std::path::{Path, PathBuf};
use swaybg_tui::config::Config;
use swaybg_tui::entries::{arrange_entries, build_preview, expand_tilde, expand_tilde_with_home, is_image, list_directory, DirItem};

#[test]
fn test_expand_tilde_bare() {
    let expanded = expand_tilde("~");
    assert!(Path::new(&expanded).is_absolute());
    assert!(expanded.len() > 1);
}

#[test]
fn test_expand_tilde_with_path() {
    let expanded = expand_tilde("~/.config");
    assert!(Path::new(&expanded).is_absolute());
    assert!(expanded.contains(".config"));
}

#[test]
fn test_expand_tilde_no_tilde() {
    let path = "/absolute/path";
    let expanded = expand_tilde(path);
    assert_eq!(PathBuf::from(expanded), PathBuf::from(path));
}

#[test]
fn expand_tilde_with_given_home() {
    let home = Some("/home/alice".to_string());
    assert_eq!(expand_tilde_with_home("~", home.clone()), "/home/alice");
    assert_eq!(expand_tilde_with_home("~/Pictures", home.clone()), "/home/alice/Pictures");
    assert_eq!(expand_tilde_with_home("~/", home.clone()), "/home/alice/");
    assert_eq!(expand_tilde_with_home("~alice/x", home.clone()), "~alice/x");
    assert_eq!(expand_tilde_with_home("x/~", home.clone()), "x/~");
    assert_eq!(expand_tilde_with_home("~//etc", home.clone()), "/etc");
    assert_eq!(expand_tilde_with_home("~/a", Some("/home/bob/".to_string())), "/home/bob/a");
    assert_eq!(expand_tilde_with_home("~/a", None), "~/a");
    assert_eq!(expand_tilde_with_home("~", None), "~");
}

#[test]
fn expand_tilde_matches_path_join() {
    for (home, rest) in [("/home/u", "a/b"), ("/home/u/", "a"), ("rel", "x"), ("/", "y")] {
        let expected = Path::new(home).join(rest);
        let got = expand_tilde_with_home(&format!("~/{rest}"), Some(home.to_string()));
        assert_eq!(PathBuf::from(got), expected);
    }
}

#[test]
fn test_is_image_supported_formats() {
    assert!(is_image("test.jpg"));
    assert!(is_image("test.jpeg"));
    assert!(is_image("test.png"));
    assert!(is_image("test.gif"));
    assert!(is_image("test.bmp"));
    assert!(is_image("test.webp"));
    assert!(is_image("test.tiff"));
    assert!(is_image("test.tif"));
}

#[test]
fn test_is_image_unsupported_formats() {
    assert!(!is_image("test.txt"));
    assert!(!is_image("test.mp4"));
    assert!(!is_image("test"));
}

#[test]
fn test_is_image_case_insensitive() {
    assert!(is_image("test.JPG"));
    assert!(is_image("test.PNG"));
    assert!(is_image("test.GiF"));
}

#[test]
fn is_image_edge_cases() {
    assert!(!is_image(".png"));
    assert!(is_image(".hidden.png"));
    assert!(is_image("/dir/a.b.PNG"));
    assert!(!is_image("/dir/png"));
    assert!(!is_image("archive.png.gz"));
    assert!(is_image("pics/photo.jpg/"));
    assert!(is_image("pics/photo.jpg/."));
    assert!(!is_image("pics/photo.jpg/.."));
    assert!(!is_image("photo."));
    assert!(!is_image(""));
    assert!(!is_image("/"));
    assert!(!is_image("dir.png/x"));
}

#[test]
fn is_image_matches_std_extension() {
    let samples = [
        "a.png", "a.PNG", ".png", "..png", "a..png", "a/.png", "a.png/", "a.png//", "a.png/.", "a.png/./",
        "./a.jpg", "/a.jpeg", "a.tif.", "a.Tiff", "x/y/z.webp", "x/y/..", "x/y/.", ".", "..", "/", "",
        "a.bmp/..", "noext", "dir.gif/file", "a b.gif", "ü.jpg", "a.jpg.txt",
    ];
    for s in samples {
        let expected = Path::new(s)
            .extension()
            .and_then(|e| e.to_str())
            .map(|e| matches!(e.to_ascii_lowercase().as_str(), "jpg" | "jpeg" | "png" | "gif" | "bmp" | "tiff" | "tif" | "webp"))
            .unwrap_or(false);
        assert_eq!(is_image(s), expected, "{s:?}");
    }
}

#[test]
fn test_config_default_values() {
    let config = Config::default();
    assert!(!config.default_wallpaper_dir.is_empty());
    assert!(!config.omadora_background_path.is_empty());
    assert!(!config.sddm_theme_dir.is_empty());
}

fn item(dir: &str, name: &str, is_dir: bool) -> DirItem {
    DirItem { path: format!("{dir}/{name}"), name: name.to_string(), is_dir, is_file: !is_dir }
}

#[test]
fn test_collect_entries_sorts_correctly() {
    let dir = "/tmp/swaybg_tui_test";
    let listing = vec![
        item(dir, "zebra.png", false),
        item(dir, "alpha.jpg", false),
        item(dir, "dir_beta", true),
        item(dir, "dir_alpha", true),
    ];
    let entries = arrange_entries(Some("/tmp".to_string()), &listing, false);

    let first_file_idx = entries.iter().position(|e| !e.is_dir).unwrap_or(entries.len());
    assert!(entries[..first_file_idx].iter().all(|e| e.is_dir));
    assert!(entries[first_file_idx..].iter().all(|e| !e.is_dir));
}

#[test]
fn arrange_entries_orders_parent_dirs_files() {
    let dir = "/w";
    let listing = vec![
        item(dir, "zebra.png", false),
        item(dir, ".secret.png", false),
        item(dir, "notes.txt", false),
        item(dir, "b_dir", true),
        item(dir, "alpha.jpg", false),
        item(dir, ".cache", true),
        item(dir, "a_dir", true),
        DirItem { path: "/w/socket.png".to_string(), name: "socket.png".to_string(), is_dir: false, is_file: false },
    ];
    let entries = arrange_entries(Some("/".to_string()), &listing, false);
    let got: Vec<(&str, bool)> = entries.iter().map(|e| (e.path.as_str(), e.is_dir)).collect();
    assert_eq!(
        got,
        vec![("/", true), ("/w/a_dir", true), ("/w/b_dir", true), ("/w/alpha.jpg", false), ("/w/zebra.png", false)]
    );

    let with_hidden = arrange_entries(None, &listing, true);
    let got: Vec<(&str, bool)> = with_hidden.iter().map(|e| (e.path.as_str(), e.is_dir)).collect();
    assert_eq!(
        got,
        vec![
            ("/w/.cache", true),
            ("/w/a_dir", true),
            ("/w/b_dir", true),
            ("/w/.secret.png", false),
            ("/w/alpha.jpg", false),
            ("/w/zebra.png", false)
        ]
    );
}

#[test]
fn arrange_entries_sorts_like_paths() {
    let dir = "/d";
    let names = ["b", "a.b", "a", "A", "ä", "a-", "a0", "ab"];
    let listing: Vec<DirItem> = names.iter().map(|n| item(dir, n, true)).collect();
    let entries = arrange_entries(None, &listing, false);
    let mut expected: Vec<PathBuf> = names.iter().map(|n| Path::new(dir).join(n)).collect();
    expected.sort();
    let got: Vec<PathBuf> = entries.iter().map(|e| PathBuf::from(&e.path)).collect();
    assert_eq!(got, expected);
}

#[test]
fn arrange_entries_empty_root() {
    assert!(arrange_entries(None, &Vec::new(), false).is_empty());
}

#[test]
fn build_preview_texts() {
    assert_eq!(
        build_preview(None),
        "Select an image (↑/↓ or j/k), Enter=apply, Shift+S=persist, q/Esc=quit"
    );
    assert_eq!(
        build_preview(Some("/w/a.png")),
        "/w/a.png\n\nEnter=apply  Shift+S=persist  q/Esc=quit"
    );
}

#[test]
fn hidden_entries_only_removed() {
    let dir = "/w";
    let listing = vec![
        item(dir, "b.png", false),
        item(dir, ".a.png", false),
        item(dir, ".d", true),
        item(dir, "c", true),
        item(dir, ".e.txt", false),
    ];
    let with: Vec<(String, bool)> =
        arrange_entries(Some("/".to_string()), &listing, true).into_iter().map(|e| (e.path, e.is_dir)).collect();
    let without: Vec<(String, bool)> =
        arrange_entries(Some("/".to_string()), &listing, false).into_iter().map(|e| (e.path, e.is_dir)).collect();
    let kept: Vec<(String, bool)> =
        with.iter().filter(|(p, _)| !p.rsplit('/').next().unwrap().starts_with('.') || p == "/").cloned().collect();
    assert_eq!(without, kept);
    assert_eq!(with.len(), without.len() + 2);
}

#[test]
fn list_directory_puts_parent_first_except_at_root() {
    let listing = vec![item("/w", "b.png", false), item("/w", "a", true)];
    let got: Vec<(String, bool)> =
        list_directory("/w", &listing, false).into_iter().map(|e| (e.path, e.is_dir)).collect();
    assert_eq!(
        got,
        vec![("/".to_string(), true), ("/w/a".to_string(), true), ("/w/b.png".to_string(), false)]
    );
    let root_listing = vec![DirItem { path: "/etc".to_string(), name: "etc".to_string(), is_dir: true, is_file: false }];
    let at_root = list_directory("/", &root_listing, false);
    assert_eq!(at_root.len(), 1);
    assert_eq!(at_root[0].path, "/etc");
}
