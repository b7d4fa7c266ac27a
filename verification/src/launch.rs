//! Launching a profile.

use crate::config::Profile;
use crate::text::{concat2, concat3, decimal, lines_view, opt_view, u64_to_string};
use vstd::prelude::*;
use vstd::string::*;

verus! {

/// The name of the log file of a debug launch, where none is given.
pub const DEBUG_LOG_FILENAME: &'static str = "bn-loader-debug.log";

/// What the command line asks of a launch.
#[derive(Debug, PartialEq, Eq)]
pub struct LaunchOptions {
    pub debug: bool,
    pub log_file: Option<String>,
}

impl Default for LaunchOptions {
    fn default() -> (r: LaunchOptions)
        ensures
            !r.debug,
            r.log_file is None,
    {
        LaunchOptions { debug: false, log_file: None }
    }
}

/// Why a profile cannot be launched.
#[derive(Debug, PartialEq, Eq)]
pub enum LaunchError {
    InstallDirMissing { dir: String },
    ExecutableMissing { path: String },
    ConfigDirMissing { dir: String },
}

/// Mathematical model of a [`LaunchError`].
pub enum LaunchErrorModel {
    InstallDirMissing { dir: Seq<char> },
    ExecutableMissing { path: Seq<char> },
    ConfigDirMissing { dir: Seq<char> },
}

impl View for LaunchError {
    type V = LaunchErrorModel;

    open spec fn view(&self) -> LaunchErrorModel {
        match self {
            LaunchError::InstallDirMissing { dir } => LaunchErrorModel::InstallDirMissing {
                dir: dir@,
            },
            LaunchError::ExecutableMissing { path } => LaunchErrorModel::ExecutableMissing {
                path: path@,
            },
            LaunchError::ConfigDirMissing { dir } => LaunchErrorModel::ConfigDirMissing {
                dir: dir@,
            },
        }
    }
}

impl LaunchError {
    /// The message shown to the operator.
    pub fn message(&self) -> (r: String)
        ensures
            r@ == match self@ {
                LaunchErrorModel::InstallDirMissing { dir } => "Install directory does not exist: "@
                    + dir,
                LaunchErrorModel::ExecutableMissing { path } => "Executable not found: "@ + path,
                LaunchErrorModel::ConfigDirMissing { dir } => "Config directory does not exist: "@
                    + dir,
            },
    {
        match self {
            LaunchError::InstallDirMissing { dir } => concat2(
                "Install directory does not exist: ",
                dir.as_str(),
            ),
            LaunchError::ExecutableMissing { path } => concat2(
                "Executable not found: ",
                path.as_str(),
            ),
            LaunchError::ConfigDirMissing { dir } => concat2(
                "Config directory does not exist: ",
                dir.as_str(),
            ),
        }
    }
}

/// How a profile is launched.
#[derive(Debug, PartialEq, Eq)]
pub struct LaunchPlan {
    /// What is said before the launch.
    pub lines: Vec<String>,
    /// Whether the application is started in debug mode.
    pub debug: bool,
}

/// The error that stops a launch: a missing installation directory comes
/// first, then a missing executable, then a missing configuration
/// directory.
pub open spec fn launch_error(
    profile: Profile,
    exe_path: Seq<char>,
    install_dir_exists: bool,
    exe_exists: bool,
    config_dir_exists: bool,
) -> Option<LaunchErrorModel> {
    if !install_dir_exists {
        Some(LaunchErrorModel::InstallDirMissing { dir: profile.install_dir@ })
    } else if !exe_exists {
        Some(LaunchErrorModel::ExecutableMissing { path: exe_path })
    } else if !config_dir_exists {
        Some(LaunchErrorModel::ConfigDirMissing { dir: profile.config_dir@ })
    } else {
        None
    }
}

/// Plans the launch of a profile, given where its executable is and what
/// exists. The application is started in debug mode if the command line or
/// the profile asks for it.
pub fn launch_profile(
    name: &str,
    profile: &Profile,
    options: &LaunchOptions,
    exe_path: &str,
    install_dir_exists: bool,
    exe_exists: bool,
    config_dir_exists: bool,
) -> (r: Result<LaunchPlan, LaunchError>)
    ensures
        match r {
            Err(e) => launch_error(
                *profile,
                exe_path@,
                install_dir_exists,
                exe_exists,
                config_dir_exists,
            ) == Some(e@),
            Ok(plan) => {
                &&& install_dir_exists && exe_exists && config_dir_exists
                &&& plan.debug == (options.debug || profile.debug)
                &&& lines_view(plan.lines@) == seq![
                    "Launching profile '"@ + name@ + "'..."@,
                    "  Install dir: "@ + profile.install_dir@,
                    "  Config dir:  "@ + profile.config_dir@,
                    "  Executable:  "@ + profile.executable@,
                ]
            },
        },
{
    if !install_dir_exists {
        return Err(LaunchError::InstallDirMissing { dir: profile.install_dir.clone() });
    }
    if !exe_exists {
        return Err(LaunchError::ExecutableMissing { path: String::from_str(exe_path) });
    }
    if !config_dir_exists {
        return Err(LaunchError::ConfigDirMissing { dir: profile.config_dir.clone() });
    }
    let mut lines: Vec<String> = Vec::new();
    lines.push(concat3("Launching profile '", name, "'..."));
    lines.push(concat2("  Install dir: ", profile.install_dir.as_str()));
    lines.push(concat2("  Config dir:  ", profile.config_dir.as_str()));
    lines.push(concat2("  Executable:  ", profile.executable.as_str()));
    assert(lines_view(lines@) =~= seq![
        "Launching profile '"@ + name@ + "'..."@,
        "  Install dir: "@ + profile.install_dir@,
        "  Config dir:  "@ + profile.config_dir@,
        "  Executable:  "@ + profile.executable@,
    ]);
    Ok(LaunchPlan { lines, debug: options.debug || profile.debug })
}

/// A launch in debug mode.
#[derive(Debug, PartialEq, Eq)]
pub struct DebugLaunch {
    /// What is said before the launch.
    pub lines: Vec<String>,
    /// The arguments that the application is started with.
    pub args: Vec<String>,
}

/// Plans a launch in debug mode, with the log written to the given file:
/// the application is told to log, and where.
pub fn launch_debug(log_path: &str) -> (r: DebugLaunch)
    ensures
        lines_view(r.lines@) == seq!["  Debug mode: enabled"@, "  Log file:   "@ + log_path@],
        lines_view(r.args@) == seq!["-d"@, "-l"@, log_path@],
{
    let mut lines: Vec<String> = Vec::new();
    lines.push(String::from_str("  Debug mode: enabled"));
    lines.push(concat2("  Log file:   ", log_path));
    assert(lines_view(lines@) =~= seq!["  Debug mode: enabled"@, "  Log file:   "@ + log_path@]);
    let mut args: Vec<String> = Vec::new();
    args.push(String::from_str("-d"));
    args.push(String::from_str("-l"));
    args.push(String::from_str(log_path));
    assert(lines_view(args@) =~= seq!["-d"@, "-l"@, log_path@]);
    DebugLaunch { lines, args }
}

/// What is said once the application runs in debug mode: its process
/// number, where the log is, and how to follow the log on this platform.
pub fn debug_launched(pid: u32, log_path: &str, windows: bool) -> (r: Vec<String>)
    ensures
        lines_view(r@) == seq![
            "\nBinary Ninja launched (PID: "@ + decimal(pid as nat) + ")."@,
            "Debug logs will be written to: "@ + log_path@,
            if windows {
                "\nTo monitor: Get-Content -Path \""@ + log_path@ + "\" -Wait"@
            } else {
                "\nTo monitor: tail -f \""@ + log_path@ + "\""@
            },
        ],
{
    let number = u64_to_string(pid as u64);
    let mut r: Vec<String> = Vec::new();
    r.push(concat3("\nBinary Ninja launched (PID: ", number.as_str(), ")."));
    r.push(concat2("Debug logs will be written to: ", log_path));
    if windows {
        r.push(concat3("\nTo monitor: Get-Content -Path \"", log_path, "\" -Wait"));
    } else {
        r.push(concat3("\nTo monitor: tail -f \"", log_path, "\""));
    }
    assert(lines_view(r@) =~= seq![
        "\nBinary Ninja launched (PID: "@ + decimal(pid as nat) + ")."@,
        "Debug logs will be written to: "@ + log_path@,
        if windows {
            "\nTo monitor: Get-Content -Path \""@ + log_path@ + "\" -Wait"@
        } else {
            "\nTo monitor: tail -f \""@ + log_path@ + "\""@
        },
    ]);
    r
}

/// The profile to launch: the one named on the command line, else the
/// default profile of the configuration.
pub fn launch_name(named: Option<&str>, default_profile: &Option<String>) -> (r: Option<String>)
    ensures
        opt_view(r) == (match named {
            Some(n) => Some(n@),
            None => opt_view(*default_profile),
        }),
{
    match named {
        Some(n) => Some(String::from_str(n)),
        None => match default_profile {
            Some(d) => Some(d.clone()),
            None => None,
        },
    }
}

} // verus!
