use swaybg_tui::config::Config;
use swaybg_tui::entries::Entry;
use swaybg_tui::render::PreviewImage;
use swaybg_tui::ui::{entry_label, handle_nav, list_title, AppState, Command, KeyCode, KeyPress};

fn config() -> Config {
    Config {
        default_wallpaper_dir: "/w".to_string(),
        omadora_background_path: "/bg".to_string(),
        sddm_theme_dir: "/t".to_string(),
        sddm_theme_conf: "/t/theme.conf".to_string(),
    }
}

fn entry(path: &str, is_dir: bool) -> Entry {
    Entry { path: path.to_string(), is_dir }
}

fn app(cwd: &str, entries: Vec<Entry>) -> AppState {
    AppState {
        entries,
        cursor: 0,
        cwd: cwd.to_string(),
        message: String::new(),
        preview_cache: None,
        preview_image: None,
        last_terminal_size: None,
        sddm_mode: false,
        config: config(),
    }
}

fn key(code: KeyCode) -> KeyPress {
    KeyPress { code, modifiers: 0 }
}

fn sample() -> AppState {
    app("/w", vec![entry("/", true), entry("/w/sub", true), entry("/w/a.png", false), entry("/w/b.jpg", false)])
}

#[test]
fn nav_moves_within_bounds() {
    let mut a = sample();
    handle_nav(&mut a, key(KeyCode::Up));
    assert_eq!(a.cursor, 0);
    handle_nav(&mut a, key(KeyCode::Down));
    handle_nav(&mut a, key(KeyCode::Char('j')));
    assert_eq!(a.cursor, 2);
    handle_nav(&mut a, key(KeyCode::Char('k')));
    assert_eq!(a.cursor, 1);
    handle_nav(&mut a, key(KeyCode::Char('G')));
    assert_eq!(a.cursor, 3);
    handle_nav(&mut a, key(KeyCode::Down));
    assert_eq!(a.cursor, 3);
    handle_nav(&mut a, KeyPress { code: KeyCode::Char('g'), modifiers: 2 });
    assert_eq!(a.cursor, 3);
    handle_nav(&mut a, key(KeyCode::Char('g')));
    assert_eq!(a.cursor, 0);
    handle_nav(&mut a, key(KeyCode::Char('x')));
    assert_eq!(a.cursor, 0);
}

#[test]
fn nav_down_then_up_returns() {
    let mut a = sample();
    a.cursor = 1;
    handle_nav(&mut a, key(KeyCode::Down));
    handle_nav(&mut a, key(KeyCode::Up));
    assert_eq!(a.cursor, 1);
}

#[test]
fn nav_on_empty_list() {
    let mut a = app("/w", vec![]);
    handle_nav(&mut a, key(KeyCode::Char('G')));
    handle_nav(&mut a, key(KeyCode::Down));
    assert_eq!(a.cursor, 0);
    assert!(a.selected().is_none());
    assert!(a.selected_file().is_none());
}

#[test]
fn selection() {
    let mut a = sample();
    assert_eq!(a.selected().map(|e| e.path.as_str()), Some("/"));
    assert!(a.selected_file().is_none());
    a.cursor = 2;
    assert_eq!(a.selected_file().map(|p| p.as_str()), Some("/w/a.png"));
    a.cursor = 9;
    assert!(a.selected().is_none());
}

#[test]
fn keys_give_commands() {
    let mut a = sample();
    assert!(matches!(a.handle_key(key(KeyCode::Char('q'))), Command::Quit));
    assert!(matches!(a.handle_key(key(KeyCode::Esc)), Command::Quit));
    match a.handle_key(key(KeyCode::Enter)) {
        Command::Open { dir, to_parent } => {
            assert_eq!(dir, "/");
            assert!(!to_parent);
        }
        other => panic!("{other:?}"),
    }
    a.cursor = 2;
    match a.handle_key(key(KeyCode::Enter)) {
        Command::Apply { image, persist } => {
            assert_eq!(image, "/w/a.png");
            assert!(!persist);
        }
        other => panic!("{other:?}"),
    }
    match a.handle_key(KeyPress { code: KeyCode::Char('S'), modifiers: 1 }) {
        Command::Apply { image, persist } => {
            assert_eq!(image, "/w/a.png");
            assert!(persist);
        }
        other => panic!("{other:?}"),
    }
    assert!(matches!(a.handle_key(key(KeyCode::Char('S'))), Command::Nothing));
    a.sddm_mode = true;
    match a.handle_key(key(KeyCode::Enter)) {
        Command::ApplySddm { image } => assert_eq!(image, "/w/a.png"),
        other => panic!("{other:?}"),
    }
    match a.handle_key(key(KeyCode::Backspace)) {
        Command::Open { dir, to_parent } => {
            assert_eq!(dir, "/");
            assert!(to_parent);
        }
        other => panic!("{other:?}"),
    }
    assert!(matches!(a.handle_key(key(KeyCode::Down)), Command::Nothing));
    assert_eq!(a.cursor, 3);
}

#[test]
fn parent_key_at_root() {
    let mut a = app("/", vec![entry("/w", true)]);
    assert!(matches!(a.handle_key(key(KeyCode::Char('h'))), Command::Nothing));
    assert_eq!(a.message, "Already at root directory");
}

#[test]
fn finishing_commands() {
    let mut a = sample();
    a.cursor = 2;
    a.message = "old".to_string();
    a.finish_open("/w/sub".to_string(), false, Ok(vec![entry("/w", true)]));
    assert_eq!(a.cwd, "/w/sub");
    assert_eq!(a.entries.len(), 1);
    assert_eq!(a.cursor, 0);
    assert_eq!(a.message, "");
    assert!(a.preview_cache.is_none() && a.preview_image.is_none());

    a.finish_open("/x".to_string(), false, Err("denied".to_string()));
    assert_eq!(a.message, "Error reading directory: denied");
    assert_eq!(a.cwd, "/w/sub");
    a.finish_open("/".to_string(), true, Err("denied".to_string()));
    assert_eq!(a.message, "Error reading parent directory: denied");

    a.finish_apply("/w/a.png", false, false, Ok(()));
    assert_eq!(a.message, "Applied /w/a.png");
    a.finish_apply("/w/a.png", true, false, Ok(()));
    assert_eq!(a.message, "Applied & persisted /w/a.png");
    a.finish_apply("/w/a.png", false, true, Ok(()));
    assert_eq!(a.message, "SDDM wallpaper set to /w/a.png - run 'sudo systemctl restart sddm' to apply");
    a.finish_apply("/w/a.png", false, false, Err("boom".to_string()));
    assert_eq!(a.message, "Error: boom");
}

#[test]
fn frame_and_preview_cache() {
    let mut a = sample();
    a.cursor = 2;
    assert!(a.note_terminal_size(80, 24));
    assert!(!a.note_terminal_size(80, 24));
    assert_eq!(a.preview_to_load().as_deref(), Some("/w/a.png"));
    a.store_preview("/w/a.png".to_string(), Some(PreviewImage { width: 1, height: 1, pixels: vec![1, 2, 3] }));
    assert!(a.preview_to_load().is_none());
    a.store_preview("/w//a.png".to_string(), None);
    assert!(a.preview_to_load().is_none());
    a.cursor = 3;
    assert_eq!(a.preview_to_load().as_deref(), Some("/w/b.jpg"));
    assert!(a.note_terminal_size(100, 24));
    assert!(a.preview_image.is_none() && a.preview_cache.is_none());
    a.cursor = 0;
    assert!(a.preview_to_load().is_none());
}

#[test]
fn labels_and_title() {
    assert_eq!(entry_label(&entry("/", true), "/w"), "../");
    assert_eq!(entry_label(&entry("/w/sub", true), "/w"), "sub/");
    assert_eq!(entry_label(&entry("/w/a.png", false), "/w"), "a.png");
    assert_eq!(entry_label(&entry("/", true), "/"), "/");
    assert_eq!(entry_label(&entry("/w", true), "/w/x/"), "../");
    assert_eq!(list_title("/w", 4), " /w (4 items) ");
    assert_eq!(list_title("/w", 0), " /w (0 items) ");
    assert_eq!(list_title("/w", 1234567), " /w (1234567 items) ");
}
