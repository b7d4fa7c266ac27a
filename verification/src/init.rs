//! Creating a new profile from an existing one.

use crate::config::{index_of, profile_names, Config};
use crate::text::{
    alphanumeric, chars_of, concat2, concat3, is_alphanumeric, lemma_lines_push, lines_view,
};
use vstd::prelude::*;
use vstd::string::*;

verus! {

/// The license files that a new profile takes over from its template.
pub open spec fn license_files() -> Seq<Seq<char>> {
    seq!["license.dat"@, "license.txt"@]
}

/// Whether a character may stand in the name of a profile.
pub open spec fn name_char(c: char) -> bool {
    alphanumeric(c) || c == '-' || c == '_'
}

/// Whether a text can name a profile: it is not empty and made of
/// letters, digits, hyphens and underscores only.
pub open spec fn valid_profile_name(name: Seq<char>) -> bool {
    name.len() > 0 && forall|i: int| 0 <= i < name.len() ==> name_char(#[trigger] name[i])
}

/// Whether a text can name a profile.
pub fn is_valid_profile_name(name: &str) -> (r: bool)
    ensures
        r == valid_profile_name(name@),
{
    let chars = chars_of(name);
    if chars.len() == 0 {
        return false;
    }
    let mut i: usize = 0;
    while i < chars.len()
        invariant
            i <= chars.len(),
            chars@ == name@,
            forall|k: int| 0 <= k < i ==> name_char(#[trigger] name@[k]),
        decreases chars.len() - i,
    {
        let c = chars[i];
        if !(is_alphanumeric(c) || c == '-' || c == '_') {
            assert(!name_char(name@[i as int]));
            return false;
        }
        i += 1;
    }
    true
}

/// A text as a TOML string: between quotes, with what needs it escaped,
/// as `toml` writes a string value.
pub uninterp spec fn toml_quoted(s: Seq<char>) -> Seq<char>;

/// The `Display` text of `toml::Value::String`. The contract only names
/// the result, which depends on the text alone.
#[verifier::external_body]
fn toml_string(s: &str) -> (r: String)
    ensures
        r@ == toml_quoted(s@),
{
    toml::Value::String(s.to_string()).to_string()
}

/// Why a profile could not be created.
#[derive(Debug, PartialEq, Eq)]
pub enum InitError {
    TemplateNotFound { name: String },
    ProfileExists { name: String },
    ConfigDirExists { dir: String },
    InvalidName { name: String },
}

/// Mathematical model of an [`InitError`].
pub enum InitErrorModel {
    TemplateNotFound { name: Seq<char> },
    ProfileExists { name: Seq<char> },
    ConfigDirExists { dir: Seq<char> },
    InvalidName { name: Seq<char> },
}

impl View for InitError {
    type V = InitErrorModel;

    open spec fn view(&self) -> InitErrorModel {
        match self {
            InitError::TemplateNotFound { name } => InitErrorModel::TemplateNotFound {
                name: name@,
            },
            InitError::ProfileExists { name } => InitErrorModel::ProfileExists { name: name@ },
            InitError::ConfigDirExists { dir } => InitErrorModel::ConfigDirExists { dir: dir@ },
            InitError::InvalidName { name } => InitErrorModel::InvalidName { name: name@ },
        }
    }
}

impl InitError {
    /// The message shown to the operator.
    pub fn message(&self) -> (r: String)
        ensures
            r@ == match self@ {
                InitErrorModel::TemplateNotFound { name } => "Template profile '"@ + name
                    + "' not found"@,
                InitErrorModel::ProfileExists { name } => "Profile '"@ + name + "' already exists"@,
                InitErrorModel::ConfigDirExists { dir } => "Config directory already exists: "@
                    + dir,
                InitErrorModel::InvalidName { name } => "Invalid profile name '"@ + name
                    + "': must contain only alphanumeric characters, hyphens, and underscores"@,
            },
    {
        match self {
            InitError::TemplateNotFound { name } => concat3(
                "Template profile '",
                name.as_str(),
                "' not found",
            ),
            InitError::ProfileExists { name } => concat3(
                "Profile '",
                name.as_str(),
                "' already exists",
            ),
            InitError::ConfigDirExists { dir } => concat2(
                "Config directory already exists: ",
                dir.as_str(),
            ),
            InitError::InvalidName { name } => concat3(
                "Invalid profile name '",
                name.as_str(),
                "': must contain only alphanumeric characters, hyphens, and underscores",
            ),
        }
    }
}

/// The text that adds a profile to the configuration file.
pub open spec fn profile_entry(name: Seq<char>, install_dir: Seq<char>, config_dir: Seq<char>) -> Seq<
    char,
> {
    "\n[profiles."@ + name + "]\ninstall_dir = "@ + toml_quoted(install_dir) + "\nconfig_dir = "@
        + toml_quoted(config_dir) + "\n"@
}

/// The text that adds a profile to the configuration file, the two
/// directories written as TOML strings. A name that cannot name a profile
/// is refused, so that nothing but a profile can be added.
pub fn append_profile_to_config(name: &str, install_dir: &str, config_dir: &str) -> (r: Result<
    String,
    InitError,
>)
    ensures
        match r {
            Ok(text) => valid_profile_name(name@) && text@ == profile_entry(
                name@,
                install_dir@,
                config_dir@,
            ),
            Err(e) => !valid_profile_name(name@) && e@ == (InitErrorModel::InvalidName {
                name: name@,
            }),
        },
{
    if !is_valid_profile_name(name) {
        return Err(InitError::InvalidName { name: String::from_str(name) });
    }
    let install = toml_string(install_dir);
    let config = toml_string(config_dir);
    let mut text = concat3("\n[profiles.", name, "]\ninstall_dir = ");
    text.append(install.as_str());
    text.append("\nconfig_dir = ");
    text.append(config.as_str());
    text.append("\n");
    Ok(text)
}

/// The license files to copy: those of the two that the template has, in
/// their fixed order.
pub open spec fn license_copies(present: Seq<Seq<char>>, n: nat) -> Seq<Seq<char>>
    decreases n,
{
    if n == 0 || n > license_files().len() {
        Seq::empty()
    } else {
        let before = license_copies(present, (n - 1) as nat);
        if present.contains(license_files()[n - 1]) {
            before.push(license_files()[n - 1])
        } else {
            before
        }
    }
}

/// The names joined by a comma and a space.
pub open spec fn comma_joined(names: Seq<Seq<char>>, n: nat) -> Seq<char>
    decreases n,
{
    if n == 0 || n > names.len() {
        Seq::empty()
    } else if n == 1 {
        names[0]
    } else {
        comma_joined(names, (n - 1) as nat) + ", "@ + names[n - 1]
    }
}

/// What is said once the license files have been copied.
#[derive(Debug, PartialEq, Eq)]
pub enum CopyNote {
    /// A warning: the template has no license file.
    NoneFound(String),
    /// The files that were copied.
    Copied(String),
}

/// How a new profile is created.
#[derive(Debug, PartialEq, Eq)]
pub struct InitPlan {
    /// The index of the template among the profiles.
    pub template: usize,
    /// What is said first.
    pub opening: Vec<String>,
    /// The license files to copy from the template's configuration
    /// directory into the new one, once that has been created.
    pub copies: Vec<String>,
    /// What is said once they have been copied.
    pub note: CopyNote,
    /// The text to add to the configuration file, or why nothing is added.
    pub entry: Result<String, InitError>,
    /// What is said last.
    pub closing: Vec<String>,
}

/// The error that stops the creation of a profile before anything is
/// done: an unknown template comes first, then a name that is taken, then a
/// configuration directory that exists already.
pub open spec fn init_error(
    names: Seq<Seq<char>>,
    name: Seq<char>,
    template: Seq<char>,
    config_dir: Seq<char>,
    config_dir_exists: bool,
) -> Option<InitErrorModel> {
    if index_of(names, template, names.len()) is None {
        Some(InitErrorModel::TemplateNotFound { name: template })
    } else if index_of(names, name, names.len()) is Some {
        Some(InitErrorModel::ProfileExists { name })
    } else if config_dir_exists {
        Some(InitErrorModel::ConfigDirExists { dir: config_dir })
    } else {
        None
    }
}

fn join_names(names: &Vec<String>) -> (r: String)
    ensures
        r@ == comma_joined(lines_view(names@), names@.len()),
{
    let mut r = String::new();
    let mut i: usize = 0;
    while i < names.len()
        invariant
            i <= names.len(),
            r@ == comma_joined(lines_view(names@), i as nat),
        decreases names.len() - i,
    {
        if i > 0 {
            r.append(", ");
        } else {
            assert(r@ + names@[0]@ =~= names@[0]@);
        }
        r.append(names[i].as_str());
        assert(lines_view(names@)[i as int] == names@[i as int]@);
        i += 1;
    }
    r
}

fn contains_name(names: &Vec<String>, name: &str) -> (r: bool)
    ensures
        r == lines_view(names@).contains(name@),
{
    let wanted = String::from_str(name);
    let mut i: usize = 0;
    while i < names.len()
        invariant
            i <= names.len(),
            wanted@ == name@,
            forall|k: int| 0 <= k < i ==> lines_view(names@)[k] != name@,
        decreases names.len() - i,
    {
        if names[i] == wanted {
            assert(lines_view(names@)[i as int] == name@);
            return true;
        }
        i += 1;
    }
    false
}

/// Plans the creation of a profile from a template: the new profile takes
/// the template's installation directory and license files. Nothing is
/// planned where the template is unknown, the name is taken or the new
/// configuration directory exists already.
#[verifier::spinoff_prover]
#[verifier::rlimit(40)]
pub fn run_init(
    config: &Config,
    name: &str,
    template: &str,
    config_dir: &str,
    config_dir_exists: bool,
    present: &Vec<String>,
) -> (r: Result<InitPlan, InitError>)
    ensures
        match r {
            Err(e) => init_error(
                profile_names(config.profiles@),
                name@,
                template@,
                config_dir@,
                config_dir_exists,
            ) == Some(e@),
            Ok(plan) => {
                let install_dir = config.profiles@[plan.template as int].profile.install_dir@;
                let copies = license_copies(lines_view(present@), 2);
                &&& init_error(
                    profile_names(config.profiles@),
                    name@,
                    template@,
                    config_dir@,
                    config_dir_exists,
                ) is None
                &&& index_of(profile_names(config.profiles@), template@, config.profiles@.len())
                    == Some(plan.template as int)
                &&& lines_view(plan.opening@) == seq![
                    "Initializing profile '"@ + name@ + "'..."@,
                    "  Template:    "@ + template@,
                    "  Install dir: "@ + install_dir,
                    "  Config dir:  "@ + config_dir@,
                ]
                &&& lines_view(plan.copies@) == copies
                &&& match plan.note {
                    CopyNote::NoneFound(text) => copies.len() == 0 && text@
                        == "Warning: No license files found in template profile at "@
                        + config.profiles@[plan.template as int].profile.config_dir@,
                    CopyNote::Copied(text) => copies.len() > 0 && text@ == "  Copied:      "@
                        + comma_joined(copies, copies.len()),
                }
                &&& match plan.entry {
                    Ok(text) => valid_profile_name(name@) && text@ == profile_entry(
                        name@,
                        install_dir,
                        config_dir@,
                    ),
                    Err(e) => !valid_profile_name(name@) && e@ == (InitErrorModel::InvalidName {
                        name: name@,
                    }),
                }
                &&& lines_view(plan.closing@) == seq![
                    "\nProfile '"@ + name@ + "' initialized successfully."@,
                    "You can now launch it with: bn-loader "@ + name@,
                ]
            },
        },
{
    let found = match config.find_profile(template) {
        Some(i) => i,
        None => {
            return Err(InitError::TemplateNotFound { name: String::from_str(template) });
        },
    };
    if config.find_profile(name).is_some() {
        return Err(InitError::ProfileExists { name: String::from_str(name) });
    }
    if config_dir_exists {
        return Err(InitError::ConfigDirExists { dir: String::from_str(config_dir) });
    }
    let profile = &config.profiles[found].profile;
    let mut opening: Vec<String> = Vec::new();
    opening.push(concat3("Initializing profile '", name, "'..."));
    opening.push(concat2("  Template:    ", template));
    opening.push(concat2("  Install dir: ", profile.install_dir.as_str()));
    opening.push(concat2("  Config dir:  ", config_dir));
    assert(lines_view(opening@) =~= seq![
        "Initializing profile '"@ + name@ + "'..."@,
        "  Template:    "@ + template@,
        "  Install dir: "@ + profile.install_dir@,
        "  Config dir:  "@ + config_dir@,
    ]);
    let mut copies: Vec<String> = Vec::new();
    assert(lines_view(copies@) =~= license_copies(lines_view(present@), 0));
    if contains_name(present, "license.dat") {
        copies.push(String::from_str("license.dat"));
    }
    assert(lines_view(copies@) =~= license_copies(lines_view(present@), 1));
    if contains_name(present, "license.txt") {
        let ghost prev = copies@;
        let last = String::from_str("license.txt");
        copies.push(last);
        proof {
            lemma_lines_push(prev, last);
        }
    }
    assert(lines_view(copies@) =~= license_copies(lines_view(present@), 2));
    let note = if copies.len() == 0 {
        CopyNote::NoneFound(
            concat2(
                "Warning: No license files found in template profile at ",
                profile.config_dir.as_str(),
            ),
        )
    } else {
        let joined = join_names(&copies);
        CopyNote::Copied(concat2("  Copied:      ", joined.as_str()))
    };
    let entry = append_profile_to_config(name, profile.install_dir.as_str(), config_dir);
    let mut closing: Vec<String> = Vec::new();
    closing.push(concat3("\nProfile '", name, "' initialized successfully."));
    closing.push(concat2("You can now launch it with: bn-loader ", name));
    assert(lines_view(closing@) =~= seq![
        "\nProfile '"@ + name@ + "' initialized successfully."@,
        "You can now launch it with: bn-loader "@ + name@,
    ]);
    Ok(InitPlan { template: found, opening, copies, note, entry, closing })
}

} // verus!
