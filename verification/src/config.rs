use vstd::prelude::*;
use crate::path::{join, path_join};

verus! {

/// The user's home directory, as `directories::BaseDirs::new()` and
/// `BaseDirs::home_dir()` determine it (dirs-sys: `$HOME`, else the password
/// database; no user-dirs file is read), converted to text as the program
/// displays paths. The answer depends on the environment, so the contract
/// does not tie it to anything; it only states what dirs-sys guarantees of
/// every answer: a found home directory is never empty.
#[verifier::external_body]
pub(crate) fn user_home_dir() -> (r: Option<String>)
    ensures
        r matches Some(h) ==> h@.len() > 0,
{
    match directories::BaseDirs::new() {
        Some(dirs) => Some(dirs.home_dir().to_string_lossy().into_owned()),
        None => None,
    }
}

/// Application configuration.
#[derive(Debug, Clone)]
pub struct Config {
    /// Default directory to browse for wallpapers
    pub default_wallpaper_dir: String,
    /// Path to omadora background symlink
    pub omadora_background_path: String,
    /// Path to SDDM theme directory
    pub sddm_theme_dir: String,
    /// Path to SDDM theme.conf file
    pub sddm_theme_conf: String,
}

/// Default wallpaper directory for a given home directory.
pub open spec fn wallpaper_dir_for(home: Option<Seq<char>>) -> Seq<char> {
    match home {
        Some(h) => join(h, ".config/omadora/current/theme/backgrounds"@),
        None => "~/Pictures/Wallpapers"@,
    }
}

/// Default omadora background link for a given home directory.
pub open spec fn omadora_background_for(home: Option<Seq<char>>) -> Seq<char> {
    match home {
        Some(h) => join(h, ".config/omadora/current/background"@),
        None => "~/.config/omadora/current/background"@,
    }
}

/// The configuration file for a given home directory.
pub open spec fn config_path_for(home: Option<Seq<char>>) -> Option<Seq<char>> {
    match home {
        Some(h) => Some(join(join(join(h, ".config"@), "swaybg-tui"@), "config.toml"@)),
        None => None,
    }
}

pub open spec fn sddm_theme_dir_default() -> Seq<char> {
    "/usr/share/sddm/themes/simple_sddm_2"@
}

pub open spec fn sddm_theme_conf_default() -> Seq<char> {
    "/usr/share/sddm/themes/simple_sddm_2/theme.conf"@
}

/// The view of an optional string.
pub open spec fn opt_view(o: Option<String>) -> Option<Seq<char>> {
    match o {
        Some(s) => Some(s@),
        None => None,
    }
}

/// A home directory the environment may report: none, or a non-empty path.
pub open spec fn possible_home(h: Option<Seq<char>>) -> bool {
    h matches Some(s) ==> s.len() > 0
}

/// The default wallpaper directory when the home directory is `home`.
pub fn wallpaper_dir_for_home(home: Option<String>) -> (r: String)
    ensures
        r@ == wallpaper_dir_for(opt_view(home)),
{
    match home {
        Some(h) => path_join(&h, ".config/omadora/current/theme/backgrounds"),
        None => String::from_str("~/Pictures/Wallpapers"),
    }
}

/// The default omadora background link when the home directory is `home`.
pub fn omadora_background_for_home(home: Option<String>) -> (r: String)
    ensures
        r@ == omadora_background_for(opt_view(home)),
{
    match home {
        Some(h) => path_join(&h, ".config/omadora/current/background"),
        None => String::from_str("~/.config/omadora/current/background"),
    }
}

/// The configuration file path when the home directory is `home`.
pub fn config_path_for_home(home: Option<String>) -> (r: Option<String>)
    ensures
        opt_view(r) == config_path_for(opt_view(home)),
{
    match home {
        Some(h) => {
            let a = path_join(&h, ".config");
            let b = path_join(&a, "swaybg-tui");
            Some(path_join(&b, "config.toml"))
        },
        None => None,
    }
}

/// Default directory to browse: under the user's home directory when it is known.
pub fn default_wallpaper_dir() -> (r: String)
    ensures
        exists|h: Option<Seq<char>>| possible_home(h) && r@ == wallpaper_dir_for(h),
{
    let home = user_home_dir();
    let r = wallpaper_dir_for_home(home);
    assert(possible_home(opt_view(home)));
    r
}

/// Default omadora background link: under the user's home directory when it is known.
pub fn default_omadora_background_path() -> (r: String)
    ensures
        exists|h: Option<Seq<char>>| possible_home(h) && r@ == omadora_background_for(h),
{
    let home = user_home_dir();
    let r = omadora_background_for_home(home);
    assert(possible_home(opt_view(home)));
    r
}

/// Default SDDM theme directory.
pub fn default_sddm_theme_dir() -> (r: String)
    ensures
        r@ == sddm_theme_dir_default(),
{
    String::from_str("/usr/share/sddm/themes/simple_sddm_2")
}

/// Default SDDM theme.conf path.
pub fn default_sddm_theme_conf() -> (r: String)
    ensures
        r@ == sddm_theme_conf_default(),
{
    String::from_str("/usr/share/sddm/themes/simple_sddm_2/theme.conf")
}

/// Every default path is non-empty, whatever the home directory.
pub proof fn lemma_defaults_nonempty(h: Option<Seq<char>>)
    ensures
        wallpaper_dir_for(h).len() > 0,
        omadora_background_for(h).len() > 0,
        sddm_theme_dir_default().len() > 0,
        sddm_theme_conf_default().len() > 0,
{
    reveal_strlit(".config/omadora/current/theme/backgrounds");
    reveal_strlit("~/Pictures/Wallpapers");
    reveal_strlit(".config/omadora/current/background");
    reveal_strlit("~/.config/omadora/current/background");
    reveal_strlit("/usr/share/sddm/themes/simple_sddm_2");
    reveal_strlit("/usr/share/sddm/themes/simple_sddm_2/theme.conf");
}

impl Default for Config {
    fn default() -> (c: Self)
        ensures
            c.default_wallpaper_dir@.len() > 0,
            c.omadora_background_path@.len() > 0,
            c.sddm_theme_dir@.len() > 0,
            c.sddm_theme_conf@.len() > 0,
            exists|h: Option<Seq<char>>| possible_home(h) && c.default_wallpaper_dir@ == wallpaper_dir_for(h),
            exists|h: Option<Seq<char>>| possible_home(h) && c.omadora_background_path@ == omadora_background_for(h),
            c.sddm_theme_dir@ == sddm_theme_dir_default(),
            c.sddm_theme_conf@ == sddm_theme_conf_default(),
    {
        let c = Config {
            default_wallpaper_dir: default_wallpaper_dir(),
            omadora_background_path: default_omadora_background_path(),
            sddm_theme_dir: default_sddm_theme_dir(),
            sddm_theme_conf: default_sddm_theme_conf(),
        };
        proof {
            let h1 = choose|h: Option<Seq<char>>| possible_home(h) && c.default_wallpaper_dir@ == wallpaper_dir_for(h);
            let h2 = choose|h: Option<Seq<char>>| possible_home(h) && c.omadora_background_path@ == omadora_background_for(h);
            lemma_defaults_nonempty(h1);
            lemma_defaults_nonempty(h2);
        }
        c
    }
}

impl Config {
    /// Get the configuration file path: `~/.config/swaybg-tui/config.toml`,
    /// or `None` when no home directory can be determined.
    pub fn config_path() -> (r: Option<String>)
        ensures
            exists|h: Option<Seq<char>>| possible_home(h) && opt_view(r) == config_path_for(h),
    {
        let home = user_home_dir();
        let r = config_path_for_home(home);
        assert(possible_home(opt_view(home)));
        r
    }

    /// A configuration from the fields a configuration file sets; each field
    /// the file leaves out takes its default.
    pub fn from_fields(
        default_wallpaper_dir: Option<String>,
        omadora_background_path: Option<String>,
        sddm_theme_dir: Option<String>,
        sddm_theme_conf: Option<String>,
    ) -> (c: Self)
        ensures
            default_wallpaper_dir matches Some(s) ==> c.default_wallpaper_dir == s,
            default_wallpaper_dir is None ==> exists|h: Option<Seq<char>>|
                possible_home(h) && c.default_wallpaper_dir@ == wallpaper_dir_for(h),
            omadora_background_path matches Some(s) ==> c.omadora_background_path == s,
            omadora_background_path is None ==> exists|h: Option<Seq<char>>|
                possible_home(h) && c.omadora_background_path@ == omadora_background_for(h),
            sddm_theme_dir matches Some(s) ==> c.sddm_theme_dir == s,
            sddm_theme_dir is None ==> c.sddm_theme_dir@ == sddm_theme_dir_default(),
            sddm_theme_conf matches Some(s) ==> c.sddm_theme_conf == s,
            sddm_theme_conf is None ==> c.sddm_theme_conf@ == sddm_theme_conf_default(),
    {
        Config {
            default_wallpaper_dir: match default_wallpaper_dir {
                Some(s) => s,
                None => crate::config::default_wallpaper_dir(),
            },
            omadora_background_path: match omadora_background_path {
                Some(s) => s,
                None => crate::config::default_omadora_background_path(),
            },
            sddm_theme_dir: match sddm_theme_dir {
                Some(s) => s,
                None => default_sddm_theme_dir(),
            },
            sddm_theme_conf: match sddm_theme_conf {
                Some(s) => s,
                None => default_sddm_theme_conf(),
            },
        }
    }
}

} // verus!
