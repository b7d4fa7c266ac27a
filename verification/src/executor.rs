//! Driving a sync: from the command to the plan, past the operator's
//! consent, through the actions for each target.

use crate::config::{index_of, profile_names, Config, NamedProfile};
use crate::exclude::{
    all_compile, build_glob_set, gives_matcher, glob_compiles, set_builds, PatternError,
};
use crate::fs::{listing_view, FsOp, OpModel, TreeEntry};
use crate::sync::{
    catalog, collect_sync_items, plan_items, Action, ActionModel, Message, MessageModel,
};
use crate::text::{
    chars_of, concat2, concat3, debug_quoted, decimal, lemma_lines_push, lines_view, opt_view,
    str_debug, trim, trimmed, u64_to_string,
};
use vstd::prelude::*;
use vstd::string::*;

verus! {

/// What the command line asks of a sync.
#[derive(Debug, PartialEq, Eq)]
pub struct SyncOptions {
    /// The profile to sync from.
    pub from: String,
    /// The profile to sync to; every other profile where none is named.
    pub to: Option<String>,
    /// Exclusion patterns beside the built-in and the configured ones.
    pub extra_exclusions: Vec<String>,
    /// Only show what would be synced.
    pub dry_run: bool,
    /// Do not ask before syncing.
    pub yes: bool,
    /// How many snapshots to keep for each target; zero keeps all.
    pub backup_retention: usize,
}

/// Why a sync cannot be planned.
#[derive(Debug, PartialEq, Eq)]
pub enum SyncError {
    SourceNotFound { name: String },
    TargetNotFound { name: String },
    NoTargets,
    Pattern(PatternError),
}

impl SyncError {
    /// The message shown to the operator.
    pub fn message(&self) -> (r: String)
        ensures
            match *self {
                SyncError::SourceNotFound { name } => r@ == "Source profile '"@ + name@
                    + "' not found"@,
                SyncError::TargetNotFound { name } => r@ == "Target profile '"@ + name@
                    + "' not found"@,
                SyncError::NoTargets => r@ == "No target profiles to sync to"@,
                SyncError::Pattern(PatternError::Invalid { pattern, detail, .. }) => r@
                    == "Invalid glob pattern '"@ + pattern@ + "': "@ + detail@,
                SyncError::Pattern(PatternError::Build { detail }) => r@
                    == "Failed to build glob set: "@ + detail@,
            },
    {
        match self {
            SyncError::SourceNotFound { name } => concat3(
                "Source profile '",
                name.as_str(),
                "' not found",
            ),
            SyncError::TargetNotFound { name } => concat3(
                "Target profile '",
                name.as_str(),
                "' not found",
            ),
            SyncError::NoTargets => String::from_str("No target profiles to sync to"),
            SyncError::Pattern(e) => e.message(),
        }
    }
}

/// A sync that is asked for: the source and the targets, as indices into
/// the profiles, and the exclusion patterns in force.
#[derive(Debug, PartialEq, Eq)]
pub struct SyncRequest {
    pub source: usize,
    pub targets: Vec<usize>,
    pub exclusions: Vec<String>,
}

/// The indices of the first `n` profiles that are not named `from`.
pub open spec fn others(names: Seq<Seq<char>>, from: Seq<char>, n: nat) -> Seq<usize>
    decreases n,
{
    if n == 0 || n > names.len() {
        Seq::empty()
    } else {
        let before = others(names, from, (n - 1) as nat);
        if names[n - 1] != from {
            before.push((n - 1) as usize)
        } else {
            before
        }
    }
}

/// The targets of a sync: the profile named as target, if one is named,
/// else every profile but the source.
pub open spec fn targets_of(names: Seq<Seq<char>>, from: Seq<char>, to: Option<Seq<char>>) -> Seq<
    usize,
> {
    match to {
        Some(t) => match index_of(names, t, names.len()) {
            Some(j) => seq![j as usize],
            None => Seq::empty(),
        },
        None => others(names, from, names.len()),
    }
}

/// The exclusion patterns in force: the built-in ones, then those of the
/// configuration, then those of the command line.
pub open spec fn exclusions_in_force(configured: Seq<Seq<char>>, given: Seq<Seq<char>>) -> Seq<
    Seq<char>,
> {
    crate::config::builtin_exclusions() + configured + given
}

/// Whether the request is the one that the configuration and the options
/// ask for.
pub open spec fn is_request_for(request: SyncRequest, config: Config, options: SyncOptions) -> bool {
    let names = profile_names(config.profiles@);
    &&& index_of(names, options.from@, names.len()) == Some(request.source as int)
    &&& request.source < names.len()
    &&& request.targets@ == targets_of(names, options.from@, opt_view(options.to))
    &&& request.targets@.len() > 0
    &&& forall|i: int|
        0 <= i < request.targets@.len() ==> (#[trigger] request.targets@[i]) < names.len()
    &&& lines_view(request.exclusions@) == exclusions_in_force(
        lines_view(config.sync.exclusions@),
        lines_view(options.extra_exclusions@),
    )
}

/// Whether the options name a sync that the configuration allows: the
/// source is a profile; so is the target, if one is named; and where none
/// is named there is another profile to sync to.
pub open spec fn resolves(config: Config, options: SyncOptions) -> bool {
    let names = profile_names(config.profiles@);
    &&& index_of(names, options.from@, names.len()) is Some
    &&& match options.to {
        Some(t) => index_of(names, t@, names.len()) is Some,
        None => others(names, options.from@, names.len()).len() > 0,
    }
}

fn append_lines(all: &mut Vec<String>, more: &Vec<String>)
    ensures
        lines_view(final(all)@) == lines_view(old(all)@) + lines_view(more@),
{
    let ghost start = lines_view(all@);
    let mut i: usize = 0;
    assert(lines_view(all@) =~= start + lines_view(more@).take(0));
    while i < more.len()
        invariant
            i <= more.len(),
            lines_view(all@) == start + lines_view(more@).take(i as int),
        decreases more.len() - i,
    {
        let ghost prev = all@;
        let text = more[i].clone();
        all.push(text);
        proof {
            lemma_lines_push(prev, text);
            assert((start + lines_view(more@).take(i as int)).push(text@) =~= start + lines_view(
                more@,
            ).take(i + 1));
        }
        i += 1;
    }
    assert(lines_view(more@).take(more@.len() as int) =~= lines_view(more@));
}

/// Works out what a sync command asks for. The source must be a profile;
/// so must the target, if one is named; and there must be some target: a
/// sync from the only profile has none.
#[verifier::spinoff_prover]
#[verifier::rlimit(40)]
pub fn resolve_sync(config: &Config, options: &SyncOptions) -> (r: Result<SyncRequest, SyncError>)
    ensures
        r is Ok <==> resolves(*config, *options),
        match r {
            Ok(request) => is_request_for(request, *config, *options),
            Err(SyncError::SourceNotFound { name }) => name@ == options.from@ && index_of(
                profile_names(config.profiles@),
                options.from@,
                config.profiles@.len(),
            ) is None,
            Err(SyncError::TargetNotFound { name }) => {
                &&& index_of(
                    profile_names(config.profiles@),
                    options.from@,
                    config.profiles@.len(),
                ) is Some
                &&& options.to matches Some(t) && name@ == t@ && index_of(
                    profile_names(config.profiles@),
                    t@,
                    config.profiles@.len(),
                ) is None
            },
            Err(SyncError::NoTargets) => {
                &&& index_of(
                    profile_names(config.profiles@),
                    options.from@,
                    config.profiles@.len(),
                ) is Some
                &&& options.to is None
                &&& others(
                    profile_names(config.profiles@),
                    options.from@,
                    config.profiles@.len(),
                ).len() == 0
            },
            Err(SyncError::Pattern(_)) => false,
        },
{
    let ghost names = profile_names(config.profiles@);
    let source = match config.find_profile(options.from.as_str()) {
        Some(i) => i,
        None => {
            return Err(SyncError::SourceNotFound { name: options.from.clone() });
        },
    };
    let mut targets: Vec<usize> = Vec::new();
    match &options.to {
        Some(to) => {
            match config.find_profile(to.as_str()) {
                Some(j) => {
                    targets.push(j);
                    assert(targets@ =~= seq![j]);
                },
                None => {
                    return Err(SyncError::TargetNotFound { name: to.clone() });
                },
            }
        },
        None => {
            let mut i: usize = 0;
            assert(targets@ =~= others(names, options.from@, 0));
            while i < config.profiles.len()
                invariant
                    i <= config.profiles.len(),
                    names == profile_names(config.profiles@),
                    targets@ == others(names, options.from@, i as nat),
                    forall|k: int| 0 <= k < targets@.len() ==> (#[trigger] targets@[k]) < i,
                decreases config.profiles.len() - i,
            {
                if config.profiles[i].name != options.from {
                    targets.push(i);
                }
                i += 1;
            }
            if targets.len() == 0 {
                return Err(SyncError::NoTargets);
            }
        },
    }
    let mut exclusions = crate::config::default_exclusions();
    append_lines(&mut exclusions, &config.sync.exclusions);
    append_lines(&mut exclusions, &options.extra_exclusions);
    Ok(SyncRequest { source, targets, exclusions })
}

/// Chooses the items to sync under the exclusions in force: each item of
/// the catalog that the source has and that no pattern matches. There is a
/// plan exactly when the patterns give a matcher; a pattern that is no glob
/// fails the plan and is named in the error.
pub fn plan_sync(exclusions: &Vec<String>, source: &Vec<TreeEntry>) -> (r: Result<
    Vec<String>,
    SyncError,
>)
    ensures
        r is Ok <==> gives_matcher(lines_view(exclusions@)),
        match r {
            Ok(items) => all_compile(lines_view(exclusions@), exclusions@.len() as int)
                && lines_view(items@) == plan_items(
                catalog(),
                listing_view(source@),
                lines_view(exclusions@),
                catalog().len(),
            ),
            Err(SyncError::Pattern(PatternError::Invalid { index, pattern, .. })) => index
                < exclusions@.len() && all_compile(lines_view(exclusions@), index as int)
                && !glob_compiles(exclusions@[index as int]@) && pattern@
                == exclusions@[index as int]@,
            Err(SyncError::Pattern(PatternError::Build { .. })) => all_compile(
                lines_view(exclusions@),
                exclusions@.len() as int,
            ) && !set_builds(lines_view(exclusions@)) && exclusions@.len() > 0,
            Err(_) => false,
        },
{
    match build_glob_set(exclusions) {
        Ok(set) => Ok(collect_sync_items(source, &set)),
        Err(e) => Err(SyncError::Pattern(e)),
    }
}

/// What happens once the plan has been shown.
#[derive(Clone, Copy, Debug, PartialEq, Eq, Structural)]
pub enum Gate {
    /// There is nothing to sync.
    NothingToSync,
    /// This is a dry run: nothing is changed.
    DryRun,
    /// The operator is asked whether to go on.
    Ask,
    /// The sync goes on.
    Proceed,
}

/// What happens once the plan has been shown: an empty plan ends the
/// sync, and so does a dry run; else the operator is asked, unless the
/// command line said yes already.
pub open spec fn gate_of(items: nat, dry_run: bool, yes: bool) -> Gate {
    if items == 0 {
        Gate::NothingToSync
    } else if dry_run {
        Gate::DryRun
    } else if !yes {
        Gate::Ask
    } else {
        Gate::Proceed
    }
}

/// Decides what happens once the plan has been shown.
pub fn sync_gate(items: usize, dry_run: bool, yes: bool) -> (r: Gate)
    ensures
        r == gate_of(items as nat, dry_run, yes),
{
    if items == 0 {
        Gate::NothingToSync
    } else if dry_run {
        Gate::DryRun
    } else if !yes {
        Gate::Ask
    } else {
        Gate::Proceed
    }
}

/// Whether a text, white space at its ends aside, is the letter `y` in
/// either case.
pub open spec fn is_yes(answer: Seq<char>) -> bool {
    trimmed(answer).len() == 1 && (trimmed(answer)[0] == 'y' || trimmed(answer)[0] == 'Y')
}

/// Whether the operator's answer is a yes. Any other answer ends the sync
/// with nothing changed.
pub fn confirmed(answer: &str) -> (r: bool)
    ensures
        r == is_yes(answer@),
{
    let text = trim(answer);
    let chars = chars_of(text.as_str());
    chars.len() == 1 && (chars[0] == 'y' || chars[0] == 'Y')
}

/// Whether the sync to a target goes on after an action: a failure ends
/// it, except that a snapshot that cannot be removed only draws a warning.
pub fn goes_on(action: &Action, succeeded: bool) -> (r: bool)
    ensures
        r == (succeeded || action is Prune),
{
    if succeeded {
        true
    } else {
        match action {
            Action::Prune { .. } => true,
            _ => false,
        }
    }
}

/// The end of a sync to several targets: a failure at one target does not
/// keep the others from being synced, but the sync as a whole has failed.
pub fn sync_succeeded(failed_targets: usize) -> (r: bool)
    ensures
        r == (failed_targets == 0),
{
    failed_targets == 0
}

/// What follows the sync to one target: a failure is counted, and the
/// next target is tried whatever happened to this one.
pub fn after_target(failed: usize, succeeded: bool) -> (r: (usize, bool))
    ensures
        r.1,
        r.0 == (if succeeded || failed == usize::MAX {
            failed
        } else {
            (failed + 1) as usize
        }),
{
    if succeeded || failed == usize::MAX {
        (failed, true)
    } else {
        (failed + 1, true)
    }
}

/// What the operator is told of a target that could not be synced.
pub fn target_failed(target_name: &str, detail: &str) -> (r: String)
    ensures
        r@ == "Error: sync to '"@ + target_name@ + "' failed: "@ + detail@,
{
    let mut r = concat3("Error: sync to '", target_name, "' failed: ");
    r.append(detail);
    r
}

/// How a sync to several targets ends: well if no target failed, else
/// with the number of targets that failed.
pub fn sync_outcome(failed_targets: usize) -> (r: Result<String, String>)
    ensures
        match r {
            Ok(line) => failed_targets == 0 && line@ == "\nSync complete."@,
            Err(line) => failed_targets > 0 && line@ == "Sync failed for "@ + decimal(
                failed_targets as nat,
            ) + " target(s)"@,
        },
{
    if sync_succeeded(failed_targets) {
        Ok(String::from_str("\nSync complete."))
    } else {
        let count = u64_to_string(failed_targets as u64);
        Err(concat3("Sync failed for ", count.as_str(), " target(s)"))
    }
}

/// What is said when an operation of an action fails, given the place of
/// the operation as the operator is to see it and the words of the failure.
pub open spec fn failure_text(
    action: ActionModel,
    op: OpModel,
    place: Seq<char>,
    detail: Seq<char>,
) -> Seq<char> {
    match action {
        ActionModel::Announce(_) => detail,
        ActionModel::MakeBackupDir { .. } => "Failed to create backup directory: "@ + detail,
        ActionModel::Prune { .. } => "  Warning: Failed to remove old backup "@ + place + ": "@
            + detail,
        ActionModel::BackupItem { item, is_dir, .. } => match op {
            OpModel::Clear(_) => "Failed to remove existing directory: "@ + detail,
            OpModel::CreateDirAll(_) => if is_dir {
                "Failed to create directory "@ + place + ": "@ + detail
            } else {
                "Failed to create backup subdirectory: "@ + detail
            },
            OpModel::CopyFile { .. } => if is_dir {
                "Failed to copy file: "@ + detail
            } else {
                "Failed to backup "@ + item + ": "@ + detail
            },
        },
        ActionModel::CopyItem { item, is_dir, .. } => match op {
            OpModel::Clear(_) => "Failed to remove existing directory: "@ + detail,
            OpModel::CreateDirAll(_) => if is_dir {
                "Failed to create directory "@ + place + ": "@ + detail
            } else {
                "Failed to create directory: "@ + detail
            },
            OpModel::CopyFile { .. } => if is_dir {
                "Failed to copy file: "@ + detail
            } else {
                "Failed to copy "@ + item + ": "@ + detail
            },
        },
    }
}

fn failed_op(op: &FsOp, is_dir: bool, item: &str, place: &str, detail: &str, saving: bool) -> (r:
    String)
    ensures
        r@ == (match op@ {
            OpModel::Clear(_) => "Failed to remove existing directory: "@ + detail@,
            OpModel::CreateDirAll(_) => if is_dir {
                "Failed to create directory "@ + place@ + ": "@ + detail@
            } else if saving {
                "Failed to create backup subdirectory: "@ + detail@
            } else {
                "Failed to create directory: "@ + detail@
            },
            OpModel::CopyFile { .. } => if is_dir {
                "Failed to copy file: "@ + detail@
            } else if saving {
                "Failed to backup "@ + item@ + ": "@ + detail@
            } else {
                "Failed to copy "@ + item@ + ": "@ + detail@
            },
        }),
{
    match op {
        FsOp::Clear(_) => concat2("Failed to remove existing directory: ", detail),
        FsOp::CreateDirAll(_) => {
            if is_dir {
                let mut r = concat3("Failed to create directory ", place, ": ");
                r.append(detail);
                r
            } else if saving {
                concat2("Failed to create backup subdirectory: ", detail)
            } else {
                concat2("Failed to create directory: ", detail)
            }
        },
        FsOp::CopyFile { .. } => {
            if is_dir {
                concat2("Failed to copy file: ", detail)
            } else if saving {
                let mut r = concat3("Failed to backup ", item, ": ");
                r.append(detail);
                r
            } else {
                let mut r = concat3("Failed to copy ", item, ": ");
                r.append(detail);
                r
            }
        },
    }
}

/// What is said when an operation of an action fails.
pub fn failure_message(action: &Action, op: &FsOp, place: &str, detail: &str) -> (r: String)
    ensures
        r@ == failure_text(action@, op@, place@, detail@),
{
    match action {
        Action::Announce(_) => String::from_str(detail),
        Action::MakeBackupDir { .. } => concat2("Failed to create backup directory: ", detail),
        Action::Prune { .. } => {
            let mut r = concat3("  Warning: Failed to remove old backup ", place, ": ");
            r.append(detail);
            r
        },
        Action::BackupItem { item, is_dir, .. } => failed_op(
            op,
            *is_dir,
            item.as_str(),
            place,
            detail,
            true,
        ),
        Action::CopyItem { item, is_dir, .. } => failed_op(
            op,
            *is_dir,
            item.as_str(),
            place,
            detail,
            false,
        ),
    }
}

/// The line of a message, the place of a new snapshot shown as `shown`.
pub open spec fn message_text(message: MessageModel, shown: Seq<char>) -> Seq<char> {
    match message {
        MessageModel::Syncing { target } => "\nSyncing to '"@ + target + "'..."@,
        MessageModel::BackupCreated { .. } => "  Backup created: "@ + shown,
        MessageModel::Copied { item } => "  Copied: "@ + item,
    }
}

/// The line of a message. For a new snapshot, `shown` is its place as the
/// operator is to see it.
pub fn announce(message: &Message, shown: &str) -> (r: String)
    ensures
        r@ == message_text(message@, shown@),
{
    match message {
        Message::Syncing { target } => concat3("\nSyncing to '", target.as_str(), "'..."),
        Message::BackupCreated { .. } => concat2("  Backup created: ", shown),
        Message::Copied { item } => concat2("  Copied: ", item.as_str()),
    }
}

/// The texts as a list in brackets, each text quoted, with a comma and a
/// space between them.
pub open spec fn quoted_list(texts: Seq<Seq<char>>, n: nat) -> Seq<char>
    decreases n,
{
    if n == 0 || n > texts.len() {
        "["@
    } else if n == 1 {
        "["@ + str_debug(texts[0])
    } else {
        quoted_list(texts, (n - 1) as nat) + ", "@ + str_debug(texts[n - 1])
    }
}

/// A line for each of the first `n` targets: its name and its
/// configuration directory.
pub open spec fn target_lines(profiles: Seq<NamedProfile>, targets: Seq<usize>, n: nat) -> Seq<
    Seq<char>,
>
    decreases n,
{
    if n == 0 || n > targets.len() {
        Seq::empty()
    } else {
        target_lines(profiles, targets, (n - 1) as nat).push(
            "    - "@ + profiles[targets[n - 1] as int].name@ + " ("@ + profiles[targets[n
                - 1] as int].profile.config_dir@ + ")"@,
        )
    }
}

/// A line for each of the first `n` items.
pub open spec fn item_lines(items: Seq<Seq<char>>, n: nat) -> Seq<Seq<char>>
    decreases n,
{
    if n == 0 || n > items.len() {
        Seq::empty()
    } else {
        item_lines(items, (n - 1) as nat).push("    "@ + items[n - 1])
    }
}

/// The plan as it is shown: the source, the targets, the number of items,
/// the exclusions in force, and then the items, or that there are none.
pub open spec fn preview(
    profiles: Seq<NamedProfile>,
    request: SyncRequest,
    items: Seq<Seq<char>>,
) -> Seq<Seq<char>> {
    let source = profiles[request.source as int];
    seq![
        "Sync Plan:"@,
        "  Source: "@ + source.name@ + " ("@ + source.profile.config_dir@ + ")"@,
        "  Targets:"@,
    ] + target_lines(profiles, request.targets@, request.targets@.len()) + seq![
        "  Items to sync: "@ + decimal(items.len()),
        "  Exclusions: "@ + quoted_list(
            lines_view(request.exclusions@),
            request.exclusions@.len(),
        ) + "]"@,
    ] + (if items.len() == 0 {
        seq!["\nNo items to sync."@]
    } else {
        seq!["\nItems:"@] + item_lines(items, items.len())
    })
}

/// Shows the plan of a sync.
#[verifier::spinoff_prover]
#[verifier::rlimit(40)]
pub fn sync_preview(config: &Config, request: &SyncRequest, items: &Vec<String>) -> (r: Vec<String>)
    requires
        request.source < config.profiles@.len(),
        forall|i: int|
            0 <= i < request.targets@.len() ==> (#[trigger] request.targets@[i])
                < config.profiles@.len(),
    ensures
        lines_view(r@) == preview(config.profiles@, *request, lines_view(items@)),
{
    let ghost profiles = config.profiles@;
    let source = &config.profiles[request.source];
    let mut r: Vec<String> = Vec::new();
    r.push(String::from_str("Sync Plan:"));
    let mut from = concat3("  Source: ", source.name.as_str(), " (");
    from.append(source.profile.config_dir.as_str());
    from.append(")");
    r.push(from);
    r.push(String::from_str("  Targets:"));
    let ghost head = seq!["Sync Plan:"@, from@, "  Targets:"@];
    assert(lines_view(r@) =~= head + target_lines(profiles, request.targets@, 0));
    let mut i: usize = 0;
    while i < request.targets.len()
        invariant
            i <= request.targets.len(),
            profiles == config.profiles@,
            forall|k: int|
                0 <= k < request.targets@.len() ==> (#[trigger] request.targets@[k])
                    < config.profiles@.len(),
            lines_view(r@) == head + target_lines(profiles, request.targets@, i as nat),
        decreases request.targets.len() - i,
    {
        let target = &config.profiles[request.targets[i]];
        let mut text = concat3("    - ", target.name.as_str(), " (");
        text.append(target.profile.config_dir.as_str());
        text.append(")");
        let ghost prev = r@;
        r.push(text);
        proof {
            lemma_lines_push(prev, text);
            assert(lines_view(r@) =~= head + target_lines(
                profiles,
                request.targets@,
                (i + 1) as nat,
            ));
        }
        i += 1;
    }
    let count = u64_to_string(items.len() as u64);
    let counted = concat2("  Items to sync: ", count.as_str());
    let mut list = String::from_str("[");
    let mut k: usize = 0;
    while k < request.exclusions.len()
        invariant
            k <= request.exclusions.len(),
            list@ == quoted_list(lines_view(request.exclusions@), k as nat),
        decreases request.exclusions.len() - k,
    {
        if k > 0 {
            list.append(", ");
        }
        let quoted = debug_quoted(request.exclusions[k].as_str());
        list.append(quoted.as_str());
        assert(lines_view(request.exclusions@)[k as int] == request.exclusions@[k as int]@);
        k += 1;
    }
    let shown = concat3("  Exclusions: ", list.as_str(), "]");
    let ghost mid = lines_view(r@);
    r.push(counted);
    r.push(shown);
    assert(lines_view(r@) =~= mid + seq![counted@, shown@]);
    let ghost top = lines_view(r@);
    if items.len() == 0 {
        r.push(String::from_str("\nNo items to sync."));
        assert(lines_view(r@) =~= top + seq!["\nNo items to sync."@]);
    } else {
        r.push(String::from_str("\nItems:"));
        assert(lines_view(r@) =~= top + (seq!["\nItems:"@] + item_lines(lines_view(items@), 0)));
        let mut j: usize = 0;
        while j < items.len()
            invariant
                j <= items.len(),
                lines_view(r@) == top + (seq!["\nItems:"@] + item_lines(
                    lines_view(items@),
                    j as nat,
                )),
            decreases items.len() - j,
        {
            let text = concat2("    ", items[j].as_str());
            let ghost prev = r@;
            r.push(text);
            proof {
                lemma_lines_push(prev, text);
                assert(lines_view(items@)[j as int] == items@[j as int]@);
                assert(lines_view(r@) =~= top + (seq!["\nItems:"@] + item_lines(
                    lines_view(items@),
                    (j + 1) as nat,
                )));
            }
            j += 1;
        }
    }
    r
}

/// The text of the operator's answer, if there is one.
pub open spec fn answer_view(answer: Option<&str>) -> Option<Seq<char>> {
    match answer {
        Some(a) => Some(a@),
        None => None,
    }
}

/// Whether the sync goes ahead: it does where nothing stands in its way,
/// or where the operator was asked and said yes.
pub open spec fn goes_ahead(gate: Gate, answer: Option<Seq<char>>) -> bool {
    gate == Gate::Proceed || (gate == Gate::Ask && answer is Some && is_yes(answer->0))
}

/// The line that ends a sync before anything is changed: that this was a
/// dry run, or that the operator did not say yes.
pub open spec fn end_note(gate: Gate, answer: Option<Seq<char>>) -> Option<Seq<char>> {
    match gate {
        Gate::DryRun => Some("\n[Dry run] No changes made."@),
        Gate::Ask => match answer {
            Some(a) => if is_yes(a) {
                None
            } else {
                Some("Aborted."@)
            },
            None => None,
        },
        _ => None,
    }
}

/// The course of a sync, from the command to the targets that are synced.
#[derive(Debug, PartialEq, Eq)]
pub struct SyncRun {
    /// What the command asks for.
    pub request: SyncRequest,
    /// The items to sync.
    pub items: Vec<String>,
    /// The plan as it is shown.
    pub preview: Vec<String>,
    /// What happens once the plan has been shown.
    pub gate: Gate,
    /// Whether the operator is yet to be asked.
    pub asks: bool,
    /// Whether the sync goes ahead.
    pub proceeds: bool,
    /// The line that ends the sync where it does not go ahead.
    pub note: Option<String>,
    /// The targets to sync now, in this order: those of the request if
    /// the sync goes ahead, else none.
    pub targets: Vec<usize>,
}

/// Whether the run is the course of the sync that the configuration, the
/// options, the listing of the source and the operator's answer give.
pub open spec fn is_run_for(
    run: SyncRun,
    config: Config,
    options: SyncOptions,
    source: Seq<(Seq<char>, crate::fs::TreeModel)>,
    answer: Option<Seq<char>>,
) -> bool {
    &&& is_request_for(run.request, config, options)
    &&& lines_view(run.items@) == plan_items(
        catalog(),
        source,
        lines_view(run.request.exclusions@),
        catalog().len(),
    )
    &&& lines_view(run.preview@) == preview(config.profiles@, run.request, lines_view(run.items@))
    &&& run.gate == gate_of(run.items@.len(), options.dry_run, options.yes)
    &&& run.asks == (run.gate == Gate::Ask && answer is None)
    &&& run.proceeds == goes_ahead(run.gate, answer)
    &&& opt_view(run.note) == end_note(run.gate, answer)
    &&& run.targets@ == (if run.proceeds {
        run.request.targets@
    } else {
        Seq::empty()
    })
}

/// Holds the course of a sync. The command is resolved first, then the
/// items are planned under the exclusions in force, so that an unknown
/// profile or a pattern that is no glob ends the sync before any target is
/// named. On an empty plan and on a dry run no target is synced and no
/// answer is needed; where the operator is to be asked, the targets are
/// named only once the answer is given and is a yes.
#[verifier::spinoff_prover]
#[verifier::rlimit(40)]
pub fn run_sync(
    config: &Config,
    options: &SyncOptions,
    source: &Vec<TreeEntry>,
    answer: Option<&str>,
) -> (r: Result<SyncRun, SyncError>)
    ensures
        r is Ok <==> resolves(*config, *options) && gives_matcher(
            exclusions_in_force(
                lines_view(config.sync.exclusions@),
                lines_view(options.extra_exclusions@),
            ),
        ),
        match r {
            Ok(run) => is_run_for(
                run,
                *config,
                *options,
                listing_view(source@),
                answer_view(answer),
            ),
            Err(SyncError::SourceNotFound { name }) => name@ == options.from@ && index_of(
                profile_names(config.profiles@),
                options.from@,
                config.profiles@.len(),
            ) is None,
            Err(SyncError::TargetNotFound { name }) => {
                &&& index_of(
                    profile_names(config.profiles@),
                    options.from@,
                    config.profiles@.len(),
                ) is Some
                &&& options.to matches Some(t) && name@ == t@ && index_of(
                    profile_names(config.profiles@),
                    t@,
                    config.profiles@.len(),
                ) is None
            },
            Err(SyncError::NoTargets) => {
                &&& index_of(
                    profile_names(config.profiles@),
                    options.from@,
                    config.profiles@.len(),
                ) is Some
                &&& options.to is None
                &&& others(
                    profile_names(config.profiles@),
                    options.from@,
                    config.profiles@.len(),
                ).len() == 0
            },
            Err(SyncError::Pattern(PatternError::Invalid { index, pattern, .. })) => {
                let patterns = exclusions_in_force(
                    lines_view(config.sync.exclusions@),
                    lines_view(options.extra_exclusions@),
                );
                &&& resolves(*config, *options)
                &&& index < patterns.len()
                &&& all_compile(patterns, index as int)
                &&& !glob_compiles(patterns[index as int])
                &&& pattern@ == patterns[index as int]
            },
            Err(SyncError::Pattern(PatternError::Build { .. })) => {
                let patterns = exclusions_in_force(
                    lines_view(config.sync.exclusions@),
                    lines_view(options.extra_exclusions@),
                );
                &&& resolves(*config, *options)
                &&& all_compile(patterns, patterns.len() as int)
                &&& !set_builds(patterns)
            },
        },
{
    let request = match resolve_sync(config, options) {
        Ok(request) => request,
        Err(e) => {
            return Err(e);
        },
    };
    let items = match plan_sync(&request.exclusions, source) {
        Ok(items) => items,
        Err(e) => {
            proof {
                match e {
                    SyncError::Pattern(PatternError::Invalid { index, .. }) => {
                        assert(lines_view(request.exclusions@)[index as int]
                            == request.exclusions@[index as int]@);
                    },
                    _ => {},
                }
            }
            return Err(e);
        },
    };
    let preview = sync_preview(config, &request, &items);
    let gate = sync_gate(items.len(), options.dry_run, options.yes);
    let yes = match answer {
        Some(a) => confirmed(a),
        None => false,
    };
    let asks = gate == Gate::Ask && answer.is_none();
    let proceeds = gate == Gate::Proceed || (gate == Gate::Ask && yes);
    let note = match gate {
        Gate::DryRun => Some(String::from_str("\n[Dry run] No changes made.")),
        Gate::Ask => {
            if answer.is_some() && !yes {
                Some(String::from_str("Aborted."))
            } else {
                None
            }
        },
        _ => None,
    };
    let mut targets: Vec<usize> = Vec::new();
    if proceeds {
        let mut i: usize = 0;
        while i < request.targets.len()
            invariant
                i <= request.targets.len(),
                targets@ == request.targets@.take(i as int),
            decreases request.targets.len() - i,
        {
            targets.push(request.targets[i]);
            assert(targets@ =~= request.targets@.take(i + 1));
            i += 1;
        }
        assert(request.targets@.take(request.targets@.len() as int) =~= request.targets@);
    }
    Ok(SyncRun { request, items, preview, gate, asks, proceeds, note, targets })
}

} // verus!
