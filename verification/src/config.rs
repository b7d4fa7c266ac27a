//! The configuration of the tool: the profiles and the global settings.

use crate::text::{lines_view, lemma_lines_push};
use vstd::prelude::*;
use vstd::string::*;

verus! {

/// The name of the configuration file.
pub const CONFIG_FILE_NAME: &'static str = "bn-loader.toml";

/// The variable by which the application is told where its configuration
/// directory is.
pub const ENV_VAR_NAME: &'static str = "BN_USER_DIRECTORY";

/// The name of the application's executable on the given platform.
pub open spec fn executable_name(windows: bool) -> Seq<char> {
    if windows {
        "binaryninja.exe"@
    } else {
        "binaryninja"@
    }
}

/// The name of the application's executable on the given platform.
pub fn default_executable(windows: bool) -> (r: String)
    ensures
        r@ == executable_name(windows),
{
    if windows {
        String::from_str("binaryninja.exe")
    } else {
        String::from_str("binaryninja")
    }
}

/// The user's home directory: what `HOME` holds, else what `USERPROFILE`
/// holds.
pub fn home_dir(home: Option<String>, userprofile: Option<String>) -> (r: Option<String>)
    ensures
        r == (match home {
            Some(h) => Some(h),
            None => userprofile,
        }),
{
    match home {
        Some(h) => Some(h),
        None => userprofile,
    }
}

fn below(home: &str, first: &str, second: &str) -> (r: Vec<String>)
    ensures
        lines_view(r@) == seq![home@, first@, second@],
{
    let mut r: Vec<String> = Vec::new();
    r.push(String::from_str(home));
    r.push(String::from_str(first));
    r.push(String::from_str(second));
    assert(lines_view(r@) =~= seq![home@, first@, second@]);
    r
}

/// The place of the user's configuration file, as the names on the way
/// from the home directory down; nothing without a home directory.
pub fn user_config_path(home: Option<&str>) -> (r: Option<Vec<String>>)
    ensures
        match home {
            Some(h) => r matches Some(parts) && lines_view(parts@) == seq![
                h@,
                ".config"@,
                CONFIG_FILE_NAME@,
            ],
            None => r is None,
        },
{
    match home {
        Some(h) => Some(below(h, ".config", CONFIG_FILE_NAME)),
        None => None,
    }
}

/// The place of the tool's cache directory, as the names on the way from
/// the home directory down; nothing without a home directory.
pub fn cache_dir(home: Option<&str>) -> (r: Option<Vec<String>>)
    ensures
        match home {
            Some(h) => r matches Some(parts) && lines_view(parts@) == seq![
                h@,
                ".cache"@,
                "bn-loader"@,
            ],
            None => r is None,
        },
{
    match home {
        Some(h) => Some(below(h, ".cache", "bn-loader")),
        None => None,
    }
}

/// The built-in exclusion patterns.
pub open spec fn builtin_exclusions() -> Seq<Seq<char>> {
    seq!["license.dat"@, "license.txt"@, "user.id"@, "keychain/"@, "__pycache__/"@, "*.pyc"@]
}

/// The built-in exclusion patterns.
pub fn default_exclusions() -> (r: Vec<String>)
    ensures
        lines_view(r@) == builtin_exclusions(),
{
    let mut r: Vec<String> = Vec::new();
    r.push(String::from_str("license.dat"));
    r.push(String::from_str("license.txt"));
    r.push(String::from_str("user.id"));
    r.push(String::from_str("keychain/"));
    r.push(String::from_str("__pycache__/"));
    r.push(String::from_str("*.pyc"));
    assert(lines_view(r@) =~= builtin_exclusions());
    r
}

/// Whether updates are checked for when the configuration does not say.
pub fn default_true() -> (r: bool)
    ensures
        r,
{
    true
}

/// How many snapshots are kept when the configuration does not say.
pub fn default_backup_retention() -> (r: usize)
    ensures
        r == 5,
{
    5
}

/// When output is coloured.
#[derive(Clone, Copy, Debug, PartialEq, Eq, Structural)]
pub enum ColorMode {
    Auto,
    Always,
    Never,
}

/// The settings that hold for all profiles.
#[derive(Debug, PartialEq, Eq)]
pub struct GlobalConfig {
    /// The profile to launch when none is named.
    pub default_profile: Option<String>,
    pub color: ColorMode,
    /// Whether to check for updates on launch.
    pub check_updates: bool,
    /// How many snapshots to keep for each target; zero keeps all.
    pub backup_retention: usize,
    /// Whether all profiles are launched in debug mode.
    pub debug: bool,
}

impl Default for GlobalConfig {
    fn default() -> (r: GlobalConfig)
        ensures
            r.default_profile is None,
            r.color == ColorMode::Auto,
            !r.check_updates,
            r.backup_retention == 0,
            !r.debug,
    {
        GlobalConfig {
            default_profile: None,
            color: ColorMode::Auto,
            check_updates: false,
            backup_retention: 0,
            debug: false,
        }
    }
}

/// One installation of the application with its own configuration
/// directory.
#[derive(Debug, PartialEq, Eq)]
pub struct Profile {
    pub install_dir: String,
    pub config_dir: String,
    pub executable: String,
    pub debug: bool,
}

impl Profile {
    /// A profile without directories, with the executable of the given
    /// platform.
    pub fn default_for(windows: bool) -> (r: Profile)
        ensures
            r.install_dir@.len() == 0,
            r.config_dir@.len() == 0,
            r.executable@ == executable_name(windows),
            !r.debug,
    {
        Profile {
            install_dir: String::new(),
            config_dir: String::new(),
            executable: default_executable(windows),
            debug: false,
        }
    }
}

/// A profile under its name.
#[derive(Debug, PartialEq, Eq)]
pub struct NamedProfile {
    pub name: String,
    pub profile: Profile,
}

/// The settings of the sync.
#[derive(Debug, PartialEq, Eq)]
pub struct SyncConfig {
    /// Exclusion patterns beside the built-in ones.
    pub exclusions: Vec<String>,
}

/// The whole configuration. No two profiles should have the same name;
/// where two do, the first is the one found.
#[derive(Debug, PartialEq, Eq)]
pub struct Config {
    pub global: GlobalConfig,
    pub profiles: Vec<NamedProfile>,
    pub sync: SyncConfig,
}

/// The names of the profiles, in their order.
pub open spec fn profile_names(profiles: Seq<NamedProfile>) -> Seq<Seq<char>> {
    Seq::new(profiles.len(), |i: int| profiles[i].name@)
}

/// The index of the first of the first `n` names that equals `name`.
pub open spec fn index_of(names: Seq<Seq<char>>, name: Seq<char>, n: nat) -> Option<int>
    decreases n,
{
    if n == 0 || n > names.len() {
        None
    } else {
        match index_of(names, name, (n - 1) as nat) {
            Some(i) => Some(i),
            None => if names[n - 1] == name {
                Some(n - 1)
            } else {
                None
            },
        }
    }
}

proof fn lemma_index_of_more(names: Seq<Seq<char>>, name: Seq<char>, n: nat, m: nat)
    requires
        n <= m <= names.len(),
        index_of(names, name, n) is Some,
    ensures
        index_of(names, name, m) == index_of(names, name, n),
    decreases m,
{
    if m > n {
        lemma_index_of_more(names, name, n, (m - 1) as nat);
    }
}

impl Config {
    /// Finds the profile of the given name.
    pub fn find_profile(&self, name: &str) -> (r: Option<usize>)
        ensures
            match r {
                Some(j) => j < self.profiles@.len() && index_of(
                    profile_names(self.profiles@),
                    name@,
                    self.profiles@.len(),
                ) == Some(j as int),
                None => index_of(profile_names(self.profiles@), name@, self.profiles@.len())
                    is None,
            },
    {
        let wanted = String::from_str(name);
        let mut i: usize = 0;
        while i < self.profiles.len()
            invariant
                i <= self.profiles.len(),
                wanted@ == name@,
                index_of(profile_names(self.profiles@), name@, i as nat) is None,
            decreases self.profiles.len() - i,
        {
            if self.profiles[i].name == wanted {
                proof {
                    lemma_index_of_more(
                        profile_names(self.profiles@),
                        name@,
                        (i + 1) as nat,
                        self.profiles@.len(),
                    );
                }
                return Some(i);
            }
            i += 1;
        }
        None
    }
}

/// Which configuration file to use.
#[derive(Clone, Copy, Debug, PartialEq, Eq, Structural)]
pub enum ConfigChoice {
    /// The file named on the command line.
    Custom,
    /// The file named on the command line does not exist.
    CustomMissing,
    /// The user's configuration file.
    User,
    /// There is no configuration file.
    NotFound,
}

/// Chooses the configuration file: the one named on the command line if
/// one is named, and only that one; else the user's configuration file if
/// it exists.
pub fn find_config_file(custom_given: bool, custom_exists: bool, user_exists: bool) -> (r:
    ConfigChoice)
    ensures
        r == (if custom_given {
            if custom_exists {
                ConfigChoice::Custom
            } else {
                ConfigChoice::CustomMissing
            }
        } else if user_exists {
            ConfigChoice::User
        } else {
            ConfigChoice::NotFound
        }),
{
    if custom_given {
        if custom_exists {
            ConfigChoice::Custom
        } else {
            ConfigChoice::CustomMissing
        }
    } else if user_exists {
        ConfigChoice::User
    } else {
        ConfigChoice::NotFound
    }
}

/// The lines that list the profiles: a heading, then each profile's name
/// and where it is installed.
pub open spec fn profile_lines(profiles: Seq<NamedProfile>, n: nat) -> Seq<Seq<char>>
    decreases n,
{
    if n == 0 || n > profiles.len() {
        seq!["Available profiles:"@]
    } else {
        profile_lines(profiles, (n - 1) as nat).push(
            "  "@ + profiles[n - 1].name@ + " -> "@ + profiles[n - 1].profile.install_dir@,
        )
    }
}

/// Lists the profiles.
pub fn list_profiles_cmd(config: &Config) -> (r: Vec<String>)
    ensures
        lines_view(r@) == profile_lines(config.profiles@, config.profiles@.len()),
{
    let mut r: Vec<String> = Vec::new();
    r.push(String::from_str("Available profiles:"));
    assert(lines_view(r@) =~= profile_lines(config.profiles@, 0));
    let mut i: usize = 0;
    while i < config.profiles.len()
        invariant
            i <= config.profiles.len(),
            lines_view(r@) == profile_lines(config.profiles@, i as nat),
        decreases config.profiles.len() - i,
    {
        let ghost prev = r@;
        let mut text = String::from_str("  ");
        text.append(config.profiles[i].name.as_str());
        text.append(" -> ");
        text.append(config.profiles[i].profile.install_dir.as_str());
        r.push(text);
        proof {
            lemma_lines_push(prev, text);
        }
        i += 1;
    }
    r
}

} // verus!
