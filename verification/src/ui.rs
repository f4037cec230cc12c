use vstd::prelude::*;
use crate::config::Config;
use crate::entries::Entry;
use crate::path::{file_name, parent, path_eq, path_file_name, path_parent, same_path};
use crate::text::{decimal, decimal_string, from_chars, to_chars};
use crate::render::PreviewImage;

verus! {

/// The keys the browser reacts to; every other key is `Other`.
#[derive(Clone, Copy, Debug, PartialEq, Eq)]
pub enum KeyCode {
    Up,
    Down,
    Enter,
    Esc,
    Backspace,
    Char(char),
    Other,
}

/// A key press: the key and the modifier bits held with it
/// (shift 1, control 2, alt 4, super 8, hyper 16, meta 32).
#[derive(Clone, Copy, Debug, PartialEq, Eq)]
pub struct KeyPress {
    pub code: KeyCode,
    pub modifiers: u8,
}

impl KeyPress {
    /// Whether no modifier is held.
    pub open spec fn no_modifiers(self) -> bool {
        self.modifiers == 0
    }

    /// Whether shift is held.
    pub open spec fn shift(self) -> bool {
        self.modifiers % 2 == 1
    }

    pub open spec fn is_char(self, c: char) -> bool {
        self.code == KeyCode::Char(c)
    }
}

/// The browser's state.
pub struct AppState {
    pub entries: Vec<Entry>,
    pub cursor: usize,
    pub cwd: String,
    pub message: String,
    /// (path, rendered preview) of the image whose preview is cached
    pub preview_cache: Option<(String, String)>,
    /// cached decoded image for color rendering
    pub preview_image: Option<PreviewImage>,
    /// (width, height) to detect resizes
    pub last_terminal_size: Option<(u16, u16)>,
    /// whether to also set SDDM wallpaper
    pub sddm_mode: bool,
    /// application configuration
    pub config: Config,
}

/// Whether a key moves the cursor down (`↓` or `j`).
pub open spec fn moves_down(key: KeyPress) -> bool {
    key.code == KeyCode::Down || key.is_char('j')
}

/// The cursor after a navigation key, in a list of `len` entries.
pub open spec fn nav_cursor(cursor: usize, len: nat, key: KeyPress) -> usize {
    if key.code == KeyCode::Up || key.is_char('k') {
        if cursor > 0 { (cursor - 1) as usize } else { cursor }
    } else if key.code == KeyCode::Down || key.is_char('j') {
        if cursor + 1 < len { (cursor + 1) as usize } else { cursor }
    } else if key.is_char('g') && key.no_modifiers() {
        0
    } else if key.is_char('G') {
        if len > 0 { (len - 1) as usize } else { cursor }
    } else {
        cursor
    }
}

/// A cursor that points at an entry, or is 0 in an empty list.
pub open spec fn cursor_in_range(cursor: usize, len: nat) -> bool {
    if len == 0 { cursor == 0 } else { cursor < len }
}

impl AppState {
    /// The entry under the cursor, if any.
    pub open spec fn selected_entry(self) -> Option<Entry> {
        if self.cursor < self.entries@.len() {
            Some(self.entries@[self.cursor as int])
        } else {
            None
        }
    }

    /// The image file under the cursor, if the cursor is on one.
    pub open spec fn selected_image(self) -> Option<String> {
        match self.selected_entry() {
            Some(e) => if !e.is_dir { Some(e.path) } else { None },
            None => None,
        }
    }

    pub fn selected(&self) -> (r: Option<&Entry>)
        ensures
            match r {
                Some(e) => self.selected_entry() == Some(*e),
                None => self.selected_entry() is None,
            },
    {
        if self.cursor < self.entries.len() {
            Some(&self.entries[self.cursor])
        } else {
            None
        }
    }

    pub fn selected_file(&self) -> (r: Option<&String>)
        ensures
            match r {
                Some(p) => self.selected_image() == Some(*p),
                None => self.selected_image() is None,
            },
    {
        match self.selected() {
            Some(e) => if !e.is_dir { Some(&e.path) } else { None },
            None => None,
        }
    }
}

/// Moves the cursor: up (`↑`/`k`) and down (`↓`/`j`) within the list,
/// `g` (without modifiers) to the first entry, `G` to the last.
pub fn handle_nav(app: &mut AppState, key: KeyPress)
    requires
        moves_down(key) ==> old(app).cursor < usize::MAX,
    ensures
        final(app).cursor == nav_cursor(old(app).cursor, old(app).entries@.len(), key),
        final(app).entries == old(app).entries,
        final(app).cwd == old(app).cwd,
        final(app).message == old(app).message,
        final(app).preview_cache == old(app).preview_cache,
        final(app).preview_image == old(app).preview_image,
        final(app).last_terminal_size == old(app).last_terminal_size,
        final(app).sddm_mode == old(app).sddm_mode,
        final(app).config == old(app).config,
{
    match key.code {
        KeyCode::Up => {
            if app.cursor > 0 {
                app.cursor = app.cursor - 1;
            }
        },
        KeyCode::Char('k') => {
            if app.cursor > 0 {
                app.cursor = app.cursor - 1;
            }
        },
        KeyCode::Down => {
            if app.cursor + 1 < app.entries.len() {
                app.cursor = app.cursor + 1;
            }
        },
        KeyCode::Char('j') => {
            if app.cursor + 1 < app.entries.len() {
                app.cursor = app.cursor + 1;
            }
        },
        KeyCode::Char('g') if key.modifiers == 0 => app.cursor = 0,
        KeyCode::Char('G') => if app.entries.len() > 0 {
            app.cursor = app.entries.len() - 1;
        },
        _ => {},
    }
}

/// Navigation keeps the cursor on an entry (or at 0 in an empty list).
pub proof fn lemma_nav_keeps_cursor_in_range(cursor: usize, len: nat, key: KeyPress)
    requires
        cursor_in_range(cursor, len),
    ensures
        cursor_in_range(nav_cursor(cursor, len, key), len),
{
}

/// What each navigation key does, whatever else is held unless said
/// otherwise: `G` goes to the last entry of a non-empty list; `g` with no
/// modifier to the first; up (`↑`/`k`) one entry up unless at the top;
/// down (`↓`/`j`) one entry down unless at the bottom. (`len` is the length
/// of a list, so at most `usize::MAX`.)
pub proof fn lemma_nav_keys(cursor: usize, len: nat, key: KeyPress)
    requires
        len <= usize::MAX,
    ensures
        key.code == KeyCode::Char('G') && len > 0 ==> nav_cursor(cursor, len, key) == len - 1,
        key.code == KeyCode::Char('G') && len == 0 ==> nav_cursor(cursor, len, key) == cursor,
        key.code == KeyCode::Char('g') && key.modifiers == 0 ==> nav_cursor(cursor, len, key) == 0,
        key.code == KeyCode::Char('g') && key.modifiers != 0 ==> nav_cursor(cursor, len, key) == cursor,
        (key.code == KeyCode::Up || key.code == KeyCode::Char('k')) ==>
            nav_cursor(cursor, len, key) == if cursor > 0 { cursor - 1 } else { 0 },
        (key.code == KeyCode::Down || key.code == KeyCode::Char('j')) ==>
            nav_cursor(cursor, len, key) == if cursor + 1 < len { cursor + 1 } else { cursor as int },
        !(key.code == KeyCode::Up || key.code == KeyCode::Down || key.code == KeyCode::Char('k')
            || key.code == KeyCode::Char('j') || key.code == KeyCode::Char('g') || key.code == KeyCode::Char('G'))
            ==> nav_cursor(cursor, len, key) == cursor,
{
}

/// Moving down and then up returns to the same entry, whenever the cursor
/// could move down.
pub proof fn lemma_down_then_up(cursor: usize, len: nat)
    requires
        cursor + 1 < len <= usize::MAX,
    ensures
        nav_cursor(
            nav_cursor(cursor, len, KeyPress { code: KeyCode::Down, modifiers: 0 }),
            len,
            KeyPress { code: KeyCode::Up, modifiers: 0 },
        ) == cursor,
{
}

/// Moving up and then down returns to the same entry, whenever the cursor
/// could move up.
pub proof fn lemma_up_then_down(cursor: usize, len: nat)
    requires
        0 < cursor < len,
    ensures
        nav_cursor(
            nav_cursor(cursor, len, KeyPress { code: KeyCode::Up, modifiers: 0 }),
            len,
            KeyPress { code: KeyCode::Down, modifiers: 0 },
        ) == cursor,
{
}

/// What the main loop must do after a key press.
#[derive(Debug)]
pub enum Command {
    /// Leave the program
    Quit,
    /// List the directory `dir` and make it the current one; `to_parent`
    /// marks a move to the parent directory
    Open { dir: String, to_parent: bool },
    /// Make `image` the desktop wallpaper
    Apply { image: String, persist: bool },
    /// Make `image` the SDDM login screen wallpaper
    ApplySddm { image: String },
    /// Nothing more to do
    Nothing,
}

/// Whether a key quits the browser (`q` or Esc).
pub open spec fn quits(key: KeyPress) -> bool {
    key.is_char('q') || key.code == KeyCode::Esc
}

/// Whether a key asks to apply and persist the selection (shift-`S`).
pub open spec fn persists(key: KeyPress) -> bool {
    key.is_char('S') && key.shift()
}

/// Whether a key asks for the parent directory (`h` or Backspace).
pub open spec fn goes_to_parent(key: KeyPress) -> bool {
    key.is_char('h') || key.code == KeyCode::Backspace
}

/// What a command holds, with paths as character sequences.
pub enum CommandView {
    Quit,
    Open { dir: Seq<char>, to_parent: bool },
    Apply { image: Seq<char>, persist: bool },
    ApplySddm { image: Seq<char> },
    Nothing,
}

impl View for Command {
    type V = CommandView;

    open spec fn view(&self) -> CommandView {
        match self {
            Command::Quit => CommandView::Quit,
            Command::Open { dir, to_parent } => CommandView::Open { dir: dir@, to_parent: *to_parent },
            Command::Apply { image, persist } => CommandView::Apply { image: image@, persist: *persist },
            Command::ApplySddm { image } => CommandView::ApplySddm { image: image@ },
            Command::Nothing => CommandView::Nothing,
        }
    }
}

/// The wallpaper command for an image: the SDDM one in SDDM mode.
pub open spec fn apply_command(image: Seq<char>, sddm_mode: bool, persist: bool) -> CommandView {
    if sddm_mode {
        CommandView::ApplySddm { image }
    } else {
        CommandView::Apply { image, persist }
    }
}

/// The command a key press asks for.
pub open spec fn key_command(app: AppState, key: KeyPress) -> CommandView {
    if quits(key) {
        CommandView::Quit
    } else if key.code == KeyCode::Enter {
        match app.selected_entry() {
            Some(e) => if e.is_dir {
                CommandView::Open { dir: e.path@, to_parent: false }
            } else {
                apply_command(e.path@, app.sddm_mode, false)
            },
            None => CommandView::Nothing,
        }
    } else if persists(key) {
        match app.selected_image() {
            Some(p) => apply_command(p@, app.sddm_mode, true),
            None => CommandView::Nothing,
        }
    } else if goes_to_parent(key) {
        match parent(app.cwd@) {
            Some(p) => CommandView::Open { dir: p, to_parent: true },
            None => CommandView::Nothing,
        }
    } else {
        CommandView::Nothing
    }
}

/// Applying the selected image: Enter on an image and shift-`S` on an
/// image set the SDDM login wallpaper in SDDM mode, and otherwise the
/// desktop wallpaper (persisted for shift-`S` only), always for that image;
/// Enter on a directory opens it; with no image selected shift-`S` does nothing.
pub proof fn lemma_apply_keys(app: AppState, key: KeyPress)
    ensures
        key.code == KeyCode::Enter && app.cursor < app.entries@.len() && !app.entries@[app.cursor as int].is_dir ==> (
            key_command(app, key) == (if app.sddm_mode {
                CommandView::ApplySddm { image: app.entries@[app.cursor as int].path@ }
            } else {
                CommandView::Apply { image: app.entries@[app.cursor as int].path@, persist: false }
            })
        ),
        key.code == KeyCode::Enter && app.cursor < app.entries@.len() && app.entries@[app.cursor as int].is_dir ==> (
            key_command(app, key) == (CommandView::Open { dir: app.entries@[app.cursor as int].path@, to_parent: false })
        ),
        key.code == KeyCode::Char('S') && key.modifiers % 2 == 1 && app.cursor < app.entries@.len()
            && !app.entries@[app.cursor as int].is_dir ==> (
            key_command(app, key) == (if app.sddm_mode {
                CommandView::ApplySddm { image: app.entries@[app.cursor as int].path@ }
            } else {
                CommandView::Apply { image: app.entries@[app.cursor as int].path@, persist: true }
            })
        ),
        key.code == KeyCode::Char('S') && key.modifiers % 2 == 1
            && !(app.cursor < app.entries@.len() && !app.entries@[app.cursor as int].is_dir) ==> (
            key_command(app, key) == CommandView::Nothing
        ),
        app.sddm_mode ==> !(key_command(app, key) is Apply),
        !app.sddm_mode ==> !(key_command(app, key) is ApplySddm),
{
}

/// Quitting and going to the parent: `q` and Esc quit; `h` and Backspace
/// open the parent of the current directory, or do nothing at the root.
pub proof fn lemma_other_keys(app: AppState, key: KeyPress)
    ensures
        (key.code == KeyCode::Char('q') || key.code == KeyCode::Esc) ==> key_command(app, key) == CommandView::Quit,
        (key.code == KeyCode::Char('h') || key.code == KeyCode::Backspace) ==> (
            key_command(app, key) == (match parent(app.cwd@) {
                Some(p) => CommandView::Open { dir: p, to_parent: true },
                None => CommandView::Nothing,
            })
        ),
{
}

pub open spec fn root_message() -> Seq<char> {
    "Already at root directory"@
}

impl AppState {
    /// Decides what a key press does. Navigation keys move the cursor here;
    /// `h`/Backspace at the root directory only sets a message. Everything
    /// else is left to the returned command.
    pub fn handle_key(&mut self, key: KeyPress) -> (r: Command)
        requires
            moves_down(key) ==> old(self).cursor < usize::MAX,
        ensures
            r@ == key_command(*old(self), key),
            ({
                let handled = quits(key) || key.code == KeyCode::Enter || persists(key) || goes_to_parent(key);
                &&& final(self).cursor == if handled { old(self).cursor } else {
                    nav_cursor(old(self).cursor, old(self).entries@.len(), key)
                }
                &&& final(self).message@ == if !quits(key) && key.code != KeyCode::Enter && !persists(key)
                    && goes_to_parent(key) && parent(old(self).cwd@) is None {
                    root_message()
                } else {
                    old(self).message@
                }
            }),
            final(self).entries == old(self).entries,
            final(self).cwd == old(self).cwd,
            final(self).preview_cache == old(self).preview_cache,
            final(self).preview_image == old(self).preview_image,
            final(self).last_terminal_size == old(self).last_terminal_size,
            final(self).sddm_mode == old(self).sddm_mode,
            final(self).config == old(self).config,
    {
        let is_q = match key.code { KeyCode::Char('q') => true, KeyCode::Esc => true, _ => false };
        let is_enter = match key.code { KeyCode::Enter => true, _ => false };
        let is_persist = match key.code { KeyCode::Char('S') => key.modifiers % 2 == 1, _ => false };
        let is_up_dir = match key.code { KeyCode::Char('h') => true, KeyCode::Backspace => true, _ => false };
        if is_q {
            assert(Command::Quit@ == key_command(*old(self), key));
            return Command::Quit;
        }
        if is_enter {
            let r = match self.selected() {
                Some(e) => if e.is_dir {
                    Command::Open { dir: e.path.clone(), to_parent: false }
                } else if self.sddm_mode {
                    Command::ApplySddm { image: e.path.clone() }
                } else {
                    Command::Apply { image: e.path.clone(), persist: false }
                },
                None => Command::Nothing,
            };
            assert(r@ == key_command(*old(self), key));
            return r;
        }
        if is_persist {
            let r = match self.selected_file() {
                Some(p) => if self.sddm_mode {
                    Command::ApplySddm { image: p.clone() }
                } else {
                    Command::Apply { image: p.clone(), persist: true }
                },
                None => Command::Nothing,
            };
            assert(r@ == key_command(*old(self), key));
            return r;
        }
        if is_up_dir {
            let p = path_parent(self.cwd.as_str());
            match p {
                Some(dir) => {
                    let r = Command::Open { dir, to_parent: true };
                    assert(r@ == key_command(*old(self), key));
                    return r;
                },
                None => {
                    self.message = String::from_str("Already at root directory");
                    assert(Command::Nothing@ == key_command(*old(self), key));
                    return Command::Nothing;
                },
            }
        }
        handle_nav(self, key);
        assert(Command::Nothing@ == key_command(*old(self), key));
        Command::Nothing
    }
}

pub open spec fn open_error_prefix(to_parent: bool) -> Seq<char> {
    if to_parent {
        "Error reading parent directory: "@
    } else {
        "Error reading directory: "@
    }
}

/// The status message after a wallpaper was set.
pub open spec fn applied_message(image: Seq<char>, persist: bool, sddm: bool) -> Seq<char> {
    if sddm {
        "SDDM wallpaper set to "@ + image + " - run 'sudo systemctl restart sddm' to apply"@
    } else if persist {
        "Applied & persisted "@ + image
    } else {
        "Applied "@ + image
    }
}

/// `a` followed by `b`.
fn concat_str(a: &str, b: &str) -> (r: String)
    ensures
        r@ == a@ + b@,
{
    let mut r = String::from_str(a);
    r.append(b);
    r
}

impl AppState {
    /// Records the listing of a directory the user opened: on success it
    /// becomes the current directory, with the cursor on its first entry, no
    /// cached preview and no message; on failure the error is reported.
    pub fn finish_open(&mut self, dir: String, to_parent: bool, listing: Result<Vec<Entry>, String>)
        ensures
            match listing {
                Ok(es) => {
                    &&& final(self).cwd == dir
                    &&& final(self).entries == es
                    &&& final(self).cursor == 0
                    &&& final(self).preview_cache is None
                    &&& final(self).preview_image is None
                    &&& final(self).message@ == Seq::<char>::empty()
                },
                Err(e) => {
                    &&& final(self).message@ == open_error_prefix(to_parent) + e@
                    &&& final(self).cwd == old(self).cwd
                    &&& final(self).entries == old(self).entries
                    &&& final(self).cursor == old(self).cursor
                    &&& final(self).preview_cache == old(self).preview_cache
                    &&& final(self).preview_image == old(self).preview_image
                },
            },
            final(self).last_terminal_size == old(self).last_terminal_size,
            final(self).sddm_mode == old(self).sddm_mode,
            final(self).config == old(self).config,
    {
        match listing {
            Ok(es) => {
                self.cwd = dir;
                self.entries = es;
                self.cursor = 0;
                self.preview_cache = None;
                self.preview_image = None;
                self.message = String::new();
            },
            Err(e) => {
                if to_parent {
                    self.message = concat_str("Error reading parent directory: ", e.as_str());
                } else {
                    self.message = concat_str("Error reading directory: ", e.as_str());
                }
            },
        }
    }

    /// Reports how setting a wallpaper went.
    pub fn finish_apply(&mut self, image: &str, persist: bool, sddm: bool, result: Result<(), String>)
        ensures
            final(self).message@ == match result {
                Ok(_) => applied_message(image@, persist, sddm),
                Err(e) => "Error: "@ + e@,
            },
            final(self).cwd == old(self).cwd,
            final(self).entries == old(self).entries,
            final(self).cursor == old(self).cursor,
            final(self).preview_cache == old(self).preview_cache,
            final(self).preview_image == old(self).preview_image,
            final(self).last_terminal_size == old(self).last_terminal_size,
            final(self).sddm_mode == old(self).sddm_mode,
            final(self).config == old(self).config,
    {
        match result {
            Ok(_) => {
                if sddm {
                    let m = concat_str("SDDM wallpaper set to ", image);
                    self.message = concat_str(m.as_str(), " - run 'sudo systemctl restart sddm' to apply");
                } else if persist {
                    self.message = concat_str("Applied & persisted ", image);
                } else {
                    self.message = concat_str("Applied ", image);
                }
            },
            Err(e) => {
                self.message = concat_str("Error: ", e.as_str());
            },
        }
    }

    /// Records the terminal size of this frame. A new size (or the first
    /// frame) drops the cached preview, which was scaled for the old size,
    /// and returns `true` so the screen is cleared.
    pub fn note_terminal_size(&mut self, width: u16, height: u16) -> (resized: bool)
        ensures
            resized == (old(self).last_terminal_size != Some((width, height))),
            final(self).last_terminal_size == Some((width, height)),
            resized ==> final(self).preview_image is None && final(self).preview_cache is None,
            !resized ==> final(self).preview_image == old(self).preview_image
                && final(self).preview_cache == old(self).preview_cache,
            final(self).cwd == old(self).cwd,
            final(self).entries == old(self).entries,
            final(self).cursor == old(self).cursor,
            final(self).message == old(self).message,
            final(self).sddm_mode == old(self).sddm_mode,
            final(self).config == old(self).config,
    {
        let resized = match self.last_terminal_size {
            Some((w, h)) => w != width || h != height,
            None => true,
        };
        if resized {
            self.last_terminal_size = Some((width, height));
            self.preview_image = None;
            self.preview_cache = None;
        }
        resized
    }

    /// The selected image whose preview must be loaded: the selection, when
    /// it is an image and not the path whose preview is cached.
    pub fn preview_to_load(&self) -> (r: Option<String>)
        ensures
            match self.selected_image() {
                Some(sel) => match self.preview_cache {
                    Some((cached, _)) => if same_path(sel@, cached@) { r is None } else { r == Some(sel) },
                    None => r == Some(sel),
                },
                None => r is None,
            },
    {
        match self.selected_file() {
            Some(sel) => {
                let needs_reload = match &self.preview_cache {
                    Some((cached, _)) => !path_eq(sel.as_str(), cached.as_str()),
                    None => true,
                };
                if needs_reload {
                    Some(sel.clone())
                } else {
                    None
                }
            },
            None => None,
        }
    }

    /// Caches the preview loaded for `path` (`None` when it could not be decoded).
    pub fn store_preview(&mut self, path: String, image: Option<PreviewImage>)
        ensures
            final(self).preview_image == image,
            final(self).preview_cache matches Some((p, t)) && p == path && t@ == Seq::<char>::empty(),
            final(self).cwd == old(self).cwd,
            final(self).entries == old(self).entries,
            final(self).cursor == old(self).cursor,
            final(self).message == old(self).message,
            final(self).last_terminal_size == old(self).last_terminal_size,
            final(self).sddm_mode == old(self).sddm_mode,
            final(self).config == old(self).config,
    {
        self.preview_image = image;
        self.preview_cache = Some((path, String::new()));
    }
}

/// How the file list shows an entry of the directory `cwd`: the parent
/// directory as `../`, another directory as its name and `/`, a file as its
/// name (an entry without a name shows as empty).
pub open spec fn entry_label_of(path: Seq<char>, is_dir: bool, cwd: Seq<char>) -> Seq<char> {
    let name = match file_name(path) {
        Some(n) => n,
        None => Seq::empty(),
    };
    if is_dir {
        if parent(cwd) matches Some(pp) && same_path(pp, path) {
            "../"@
        } else {
            name + "/"@
        }
    } else {
        name
    }
}

/// The parent directory's entry, as the listing of `cwd` puts it first,
/// shows as `../`.
pub proof fn lemma_parent_entry_label(cwd: Seq<char>)
    requires
        parent(cwd) is Some,
    ensures
        entry_label_of(parent(cwd)->0, true, cwd) == "../"@,
{
}

/// The label of `entry` in the file list of the directory `cwd`.
pub fn entry_label(entry: &Entry, cwd: &str) -> (r: String)
    ensures
        r@ == entry_label_of(entry.path@, entry.is_dir, cwd@),
{
    let name = match path_file_name(&to_chars(entry.path.as_str())) {
        Some(n) => from_chars(&n),
        None => String::new(),
    };
    if entry.is_dir {
        let is_parent = match path_parent(cwd) {
            Some(pp) => path_eq(pp.as_str(), entry.path.as_str()),
            None => false,
        };
        if is_parent {
            String::from_str("../")
        } else {
            concat_str(name.as_str(), "/")
        }
    } else {
        name
    }
}

/// The title of the file list: the directory and how many entries it shows.
pub fn list_title(cwd: &str, count: usize) -> (r: String)
    ensures
        r@ == " "@ + cwd@ + " ("@ + decimal(count as nat) + " items) "@,
{
    let a = concat_str(" ", cwd);
    let b = concat_str(a.as_str(), " (");
    let n = decimal_string(count);
    let c = concat_str(b.as_str(), n.as_str());
    concat_str(c.as_str(), " items) ")
}

} // verus!
