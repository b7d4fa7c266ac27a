//! Planning a sync: which items go from the source to a target, what is
//! saved before it is overwritten, and which old snapshots then leave.

use crate::assoc::{find_key, has_key, lemma_find_key_has_key};
use crate::backup::{
    backup_name, cleanup_old_backups, dir_view, prune_list, snapshot_name, DirEntry,
};
use crate::exclude::{excluded, is_excluded, set_patterns};
use crate::fs::{
    copy_dir_recursive, find_entry, lemma_dir_view, listing_view, mirror_ops, ops_view, FsOp,
    LocModel, Location, OpModel, Root, Tree, TreeEntry, TreeModel,
};
use crate::text::{lemma_lines_push, lines_view};
use vstd::prelude::*;
use vstd::string::*;

verus! {

/// The names of the items that can be synced, in the order in which they
/// are planned, saved and copied.
pub open spec fn catalog() -> Seq<Seq<char>> {
    seq![
        "plugins"@,
        "repositories"@,
        "signatures"@,
        "themes"@,
        "snippets"@,
        "types"@,
        "settings.json"@,
        "startup.py"@,
        "keybindings.json"@,
    ]
}

/// The catalog of items that can be synced.
pub fn sync_items() -> (items: Vec<String>)
    ensures
        lines_view(items@) == catalog(),
{
    let mut items: Vec<String> = Vec::new();
    items.push(String::from_str("plugins"));
    items.push(String::from_str("repositories"));
    items.push(String::from_str("signatures"));
    items.push(String::from_str("themes"));
    items.push(String::from_str("snippets"));
    items.push(String::from_str("types"));
    items.push(String::from_str("settings.json"));
    items.push(String::from_str("startup.py"));
    items.push(String::from_str("keybindings.json"));
    assert(lines_view(items@) =~= catalog());
    items
}

/// The plan over the first `n` names of `names`: those that the source
/// has and that no pattern matches, in the order of `names`.
pub open spec fn plan_items(
    names: Seq<Seq<char>>,
    source: Seq<(Seq<char>, TreeModel)>,
    patterns: Seq<Seq<char>>,
    n: nat,
) -> Seq<Seq<char>>
    decreases n,
{
    if n == 0 || n > names.len() {
        Seq::empty()
    } else {
        let before = plan_items(names, source, patterns, (n - 1) as nat);
        if has_key(source, names[n - 1]) && !excluded(patterns, names[n - 1]) {
            before.push(names[n - 1])
        } else {
            before
        }
    }
}

/// Chooses the items to sync: each item of the catalog that exists in the
/// source and that the exclusions do not match, in catalog order.
pub fn collect_sync_items(source: &Vec<TreeEntry>, exclusions: &globset::GlobSet) -> (items: Vec<
    String,
>)
    ensures
        lines_view(items@) == plan_items(
            catalog(),
            listing_view(source@),
            set_patterns(*exclusions),
            catalog().len(),
        ),
{
    let names = sync_items();
    let mut items: Vec<String> = Vec::new();
    let mut i: usize = 0;
    let ghost listing = listing_view(source@);
    let ghost patterns = set_patterns(*exclusions);
    assert(lines_view(items@) =~= plan_items(catalog(), listing, patterns, 0));
    while i < names.len()
        invariant
            i <= names.len(),
            lines_view(names@) == catalog(),
            listing == listing_view(source@),
            patterns == set_patterns(*exclusions),
            lines_view(items@) == plan_items(catalog(), listing, patterns, i as nat),
        decreases names.len() - i,
    {
        let found = find_entry(source, &names[i]);
        proof {
            lemma_find_key_has_key(listing, names@[i as int]@);
            assert(lines_view(names@)[i as int] == names@[i as int]@);
        }
        if found.is_some() && !is_excluded(exclusions, names[i].as_str()) {
            let ghost prev = items@;
            let name = names[i].clone();
            items.push(name);
            proof {
                lemma_lines_push(prev, name);
            }
        }
        i += 1;
    }
    items
}

/// The plan is the list of names, in its order, without the names that
/// the source lacks and those that a pattern matches.
pub proof fn lemma_plan_keeps_order(
    names: Seq<Seq<char>>,
    source: Seq<(Seq<char>, TreeModel)>,
    patterns: Seq<Seq<char>>,
    n: nat,
)
    requires
        n <= names.len(),
    ensures
        plan_items(names, source, patterns, n) == names.take(n as int).filter(
            |name: Seq<char>| has_key(source, name) && !excluded(patterns, name),
        ),
    decreases n,
{
    reveal(Seq::filter);
    let wanted = |name: Seq<char>| has_key(source, name) && !excluded(patterns, name);
    if n > 0 {
        lemma_plan_keeps_order(names, source, patterns, (n - 1) as nat);
        assert(names.take(n as int).drop_last() =~= names.take(n - 1));
        assert(names.take(n as int).last() == names[n - 1]);
    } else {
        assert(names.take(0).len() == 0);
    }
}

/// What the plan holds: a name is planned exactly when it is among the
/// first `n` names, exists in the source and is not excluded.
#[verifier::spinoff_prover]
#[verifier::rlimit(40)]
pub proof fn lemma_plan_items(
    names: Seq<Seq<char>>,
    source: Seq<(Seq<char>, TreeModel)>,
    patterns: Seq<Seq<char>>,
    n: nat,
    name: Seq<char>,
)
    requires
        n <= names.len(),
    ensures
        plan_items(names, source, patterns, n).contains(name) <==> names.take(n as int).contains(
            name,
        ) && has_key(source, name) && !excluded(patterns, name),
    decreases n,
{
    if n > 0 {
        let m = (n - 1) as nat;
        lemma_plan_items(names, source, patterns, m, name);
        let before = plan_items(names, source, patterns, m);
        let all = plan_items(names, source, patterns, n);
        assert(names.take(n as int) =~= names.take(m as int).push(names[n - 1]));
        if names.take(m as int).contains(name) {
            let k = choose|k: int| 0 <= k < m && names.take(m as int)[k] == name;
            assert(names.take(n as int)[k] == name);
        }
        if names.take(n as int).contains(name) && !names.take(m as int).contains(name) {
            let k = choose|k: int| 0 <= k < n && names.take(n as int)[k] == name;
            if k < m {
                assert(names.take(m as int)[k] == name);
            }
            assert(name == names[n - 1]);
        }
        if before.contains(name) {
            let k = choose|k: int| 0 <= k < before.len() && before[k] == name;
            if all.len() > before.len() {
                assert(all[k] == name);
            }
        }
        if all.len() > before.len() {
            assert(all =~= before.push(names[n - 1]));
            assert(all[all.len() - 1] == names[n - 1]);
            if all.contains(name) && !before.contains(name) {
                let k = choose|k: int| 0 <= k < all.len() && all[k] == name;
                if k < before.len() {
                    assert(before[k] == name);
                }
            }
            assert(names.take(n as int)[n - 1] == names[n - 1]);
        }
    } else {
        assert(names.take(0) =~= Seq::<Seq<char>>::empty());
    }
}

/// A name that one of the built-in patterns matches is never planned,
/// whatever patterns the configuration and the command line add.
pub proof fn lemma_default_exclusion_holds(
    defaults: Seq<Seq<char>>,
    configured: Seq<Seq<char>>,
    given: Seq<Seq<char>>,
    source: Seq<(Seq<char>, TreeModel)>,
    name: Seq<char>,
)
    requires
        excluded(defaults, name),
    ensures
        !plan_items(catalog(), source, defaults + configured + given, catalog().len()).contains(
            name,
        ),
{
    crate::exclude::lemma_exclusion_survives_layers(
        Seq::empty(),
        defaults,
        configured + given,
        name,
    );
    assert(Seq::<Seq<char>>::empty() + defaults + (configured + given) =~= defaults + configured
        + given);
    lemma_plan_items(catalog(), source, defaults + configured + given, catalog().len(), name);
}

/// A line of progress for the operator.
#[derive(Debug, PartialEq, Eq)]
pub enum Message {
    Syncing { target: String },
    BackupCreated { name: String },
    Copied { item: String },
}

/// Mathematical model of a [`Message`].
pub enum MessageModel {
    Syncing { target: Seq<char> },
    BackupCreated { name: Seq<char> },
    Copied { item: Seq<char> },
}

impl View for Message {
    type V = MessageModel;

    open spec fn view(&self) -> MessageModel {
        match self {
            Message::Syncing { target } => MessageModel::Syncing { target: target@ },
            Message::BackupCreated { name } => MessageModel::BackupCreated { name: name@ },
            Message::Copied { item } => MessageModel::Copied { item: item@ },
        }
    }
}

/// One step of a sync to one target, with the file operations that carry
/// it out. A failed operation ends the sync to this target, except in
/// `Prune`, where it only draws a warning.
#[derive(Debug, PartialEq, Eq)]
pub enum Action {
    /// Tell the operator something.
    Announce(Message),
    /// Create the snapshot directory.
    MakeBackupDir { name: String, ops: Vec<FsOp> },
    /// Save one item of the target into the snapshot.
    BackupItem { backup: String, item: String, is_dir: bool, ops: Vec<FsOp> },
    /// Replace one item of the target by the source's.
    CopyItem { item: String, is_dir: bool, ops: Vec<FsOp> },
    /// Remove an old snapshot.
    Prune { name: String, ops: Vec<FsOp> },
}

/// Mathematical model of an [`Action`].
pub enum ActionModel {
    Announce(MessageModel),
    MakeBackupDir { name: Seq<char>, ops: Seq<OpModel> },
    BackupItem { backup: Seq<char>, item: Seq<char>, is_dir: bool, ops: Seq<OpModel> },
    CopyItem { item: Seq<char>, is_dir: bool, ops: Seq<OpModel> },
    Prune { name: Seq<char>, ops: Seq<OpModel> },
}

impl View for Action {
    type V = ActionModel;

    open spec fn view(&self) -> ActionModel {
        match self {
            Action::Announce(m) => ActionModel::Announce(m@),
            Action::MakeBackupDir { name, ops } => ActionModel::MakeBackupDir {
                name: name@,
                ops: ops_view(ops@),
            },
            Action::BackupItem { backup, item, is_dir, ops } => ActionModel::BackupItem {
                backup: backup@,
                item: item@,
                is_dir: *is_dir,
                ops: ops_view(ops@),
            },
            Action::CopyItem { item, is_dir, ops } => ActionModel::CopyItem {
                item: item@,
                is_dir: *is_dir,
                ops: ops_view(ops@),
            },
            Action::Prune { name, ops } => ActionModel::Prune { name: name@, ops: ops_view(ops@) },
        }
    }
}

/// The models of a sequence of actions.
pub open spec fn actions_view(actions: Seq<Action>) -> Seq<ActionModel> {
    Seq::new(actions.len(), |i: int| actions[i]@)
}

/// The place of a top-level name in one of the two directories.
pub open spec fn top(root: Root, name: Seq<char>) -> LocModel {
    LocModel { root, parts: seq![name] }
}

/// One of the two directories itself.
pub open spec fn root_dir(root: Root) -> LocModel {
    LocModel { root, parts: Seq::empty() }
}

/// The operations that copy one item from `from` to `to`. A directory is
/// mirrored; anything else is copied as a file, after the directory that
/// is to hold it has been created.
pub open spec fn item_ops(from: LocModel, to: LocModel, holder: LocModel, shape: TreeModel) -> Seq<
    OpModel,
> {
    match shape {
        TreeModel::Dir(_) => mirror_ops(from, to, shape),
        TreeModel::File => seq![OpModel::CreateDirAll(holder), OpModel::CopyFile { from, to }],
    }
}

/// The saving of the first `n` items: one action for each item that the
/// target has, in the order of the items.
pub open spec fn backup_actions(
    target: Seq<(Seq<char>, TreeModel)>,
    items: Seq<Seq<char>>,
    backup: Seq<char>,
    n: nat,
) -> Seq<ActionModel>
    decreases n,
{
    if n == 0 || n > items.len() {
        Seq::empty()
    } else {
        let before = backup_actions(target, items, backup, (n - 1) as nat);
        let item = items[n - 1];
        match find_key(target, item, target.len()) {
            Some(j) => before.push(
                ActionModel::BackupItem {
                    backup,
                    item,
                    is_dir: target[j].1 is Dir,
                    ops: item_ops(
                        top(Root::Target, item),
                        top(Root::Target, backup).child(item),
                        top(Root::Target, backup),
                        target[j].1,
                    ),
                },
            ),
            None => before,
        }
    }
}

/// The plan of a snapshot: nothing where the target has none of the
/// items; else the creation of the snapshot directory, named after the
/// time, and the saving of each item that the target has.
pub open spec fn backup_plan(
    target: Seq<(Seq<char>, TreeModel)>,
    items: Seq<Seq<char>>,
    timestamp: u64,
) -> Option<Seq<ActionModel>> {
    let name = backup_name(timestamp);
    let saved = backup_actions(target, items, name, items.len());
    if saved.len() == 0 {
        None
    } else {
        Some(
            seq![
                ActionModel::MakeBackupDir {
                    name,
                    ops: seq![OpModel::CreateDirAll(top(Root::Target, name))],
                },
            ] + saved,
        )
    }
}

/// A snapshot about to be taken: its name and the actions that take it.
#[derive(Debug, PartialEq, Eq)]
pub struct BackupPlan {
    pub name: String,
    pub actions: Vec<Action>,
}

fn plan_item_ops(from: Location, to: Location, holder: Location, shape: &Tree) -> (ops: Vec<FsOp>)
    ensures
        ops_view(ops@) == item_ops(from@, to@, holder@, shape@),
{
    match shape {
        Tree::Dir(entries) => {
            proof {
                lemma_dir_view(shape);
            }
            copy_dir_recursive(&from, &to, entries)
        },
        Tree::File => {
            let mut ops: Vec<FsOp> = Vec::new();
            let first = FsOp::CreateDirAll(holder);
            let second = FsOp::CopyFile { from, to };
            ops.push(first);
            ops.push(second);
            assert(ops_view(ops@) =~= seq![first@, second@]);
            ops
        },
    }
}

fn is_dir(shape: &Tree) -> (r: bool)
    ensures
        r == (shape@ is Dir),
{
    match shape {
        Tree::Dir(_) => true,
        Tree::File => false,
    }
}

/// Something is saved exactly when the target has one of the items.
pub proof fn lemma_backup_actions_len(
    listing: Seq<(Seq<char>, TreeModel)>,
    items: Seq<Seq<char>>,
    backup: Seq<char>,
    n: nat,
)
    requires
        n <= items.len(),
    ensures
        backup_actions(listing, items, backup, n).len() > 0 <==> exists|i: int|
            0 <= i < n && has_key(listing, #[trigger] items[i]),
    decreases n,
{
    if n > 0 {
        lemma_backup_actions_len(listing, items, backup, (n - 1) as nat);
        lemma_find_key_has_key(listing, items[n - 1]);
        if exists|i: int| 0 <= i < n && has_key(listing, #[trigger] items[i]) {
            let i = choose|i: int| 0 <= i < n && has_key(listing, #[trigger] items[i]);
            if i < n - 1 {
                assert(has_key(listing, items[i]));
            }
        }
        if backup_actions(listing, items, backup, (n - 1) as nat).len() > 0 {
            let i = choose|i: int| 0 <= i < n - 1 && has_key(listing, #[trigger] items[i]);
            assert(has_key(listing, items[i]));
        }
        if has_key(listing, items[n - 1]) {
            assert(has_key(listing, items[n - 1]));
        }
    }
}

/// Whether a sync of the items takes a snapshot of the target: it does
/// exactly when the target has one of the items, at whatever time the sync
/// is made.
pub fn snapshot_due(target: &Vec<TreeEntry>, items: &Vec<String>) -> (r: bool)
    ensures
        forall|timestamp: u64|
            r == (#[trigger] backup_plan(listing_view(target@), lines_view(items@), timestamp)
                is Some),
{
    let ghost listing = listing_view(target@);
    let ghost wanted = lines_view(items@);
    let mut i: usize = 0;
    let mut due = false;
    while i < items.len()
        invariant
            i <= items.len(),
            listing == listing_view(target@),
            wanted == lines_view(items@),
            due == (exists|k: int| 0 <= k < i && has_key(listing, #[trigger] wanted[k])),
        decreases items.len() - i,
    {
        let found = find_entry(target, &items[i]);
        proof {
            lemma_find_key_has_key(listing, wanted[i as int]);
            if found is Some {
                assert(has_key(listing, wanted[i as int]));
            }
        }
        if found.is_some() {
            due = true;
        }
        i += 1;
    }
    proof {
        assert forall|timestamp: u64|
            due == (#[trigger] backup_plan(listing, wanted, timestamp) is Some) by {
            lemma_backup_actions_len(listing, wanted, backup_name(timestamp), wanted.len());
        }
    }
    due
}

/// Plans the snapshot that precedes a sync. Only the items that the
/// target already has are saved; where it has none, there is no snapshot.
#[verifier::spinoff_prover]
#[verifier::rlimit(40)]
pub fn create_backup(target: &Vec<TreeEntry>, items: &Vec<String>, timestamp: u64) -> (r: Option<
    BackupPlan,
>)
    ensures
        match r {
            Some(plan) => plan.name@ == backup_name(timestamp) && backup_plan(
                listing_view(target@),
                lines_view(items@),
                timestamp,
            ) == Some(actions_view(plan.actions@)),
            None => backup_plan(listing_view(target@), lines_view(items@), timestamp) is None,
        },
{
    let name = snapshot_name(timestamp);
    let ghost listing = listing_view(target@);
    let ghost wanted = lines_view(items@);
    let mut saved: Vec<Action> = Vec::new();
    let mut i: usize = 0;
    assert(actions_view(saved@) =~= backup_actions(listing, wanted, name@, 0));
    while i < items.len()
        invariant
            i <= items.len(),
            listing == listing_view(target@),
            wanted == lines_view(items@),
            name@ == backup_name(timestamp),
            actions_view(saved@) == backup_actions(listing, wanted, name@, i as nat),
        decreases items.len() - i,
    {
        let item = &items[i];
        match find_entry(target, item) {
            Some(j) => {
                let shape = &target[j].node;
                let holder = Location::top(Root::Target, &name);
                let to = holder.child(item);
                let ops = plan_item_ops(Location::top(Root::Target, item), to, holder, shape);
                let action = Action::BackupItem {
                    backup: name.clone(),
                    item: item.clone(),
                    is_dir: is_dir(shape),
                    ops,
                };
                let ghost prev = saved@;
                saved.push(action);
                assert(actions_view(saved@) =~= actions_view(prev).push(action@));
            },
            None => {},
        }
        i += 1;
    }
    if saved.len() == 0 {
        return None;
    }
    let mut actions: Vec<Action> = Vec::new();
    let mut ops: Vec<FsOp> = Vec::new();
    let op = FsOp::CreateDirAll(Location::top(Root::Target, &name));
    ops.push(op);
    assert(ops_view(ops@) =~= seq![op@]);
    let first = Action::MakeBackupDir { name: name.clone(), ops };
    actions.push(first);
    let ghost tail = saved@;
    actions.append(&mut saved);
    assert(actions_view(actions@) =~= seq![first@] + actions_view(tail));
    Some(BackupPlan { name, actions })
}

/// The copying of the first `n` items, each followed by its line of
/// progress. An item that the source lacks is planned as a file.
pub open spec fn copy_actions(source: Seq<(Seq<char>, TreeModel)>, items: Seq<Seq<char>>, n: nat) -> Seq<
    ActionModel,
>
    decreases n,
{
    if n == 0 || n > items.len() {
        Seq::empty()
    } else {
        let item = items[n - 1];
        let shape = match find_key(source, item, source.len()) {
            Some(j) => source[j].1,
            None => TreeModel::File,
        };
        copy_actions(source, items, (n - 1) as nat).push(
            ActionModel::CopyItem {
                item,
                is_dir: shape is Dir,
                ops: item_ops(
                    top(Root::Source, item),
                    top(Root::Target, item),
                    root_dir(Root::Target),
                    shape,
                ),
            },
        ).push(ActionModel::Announce(MessageModel::Copied { item }))
    }
}

/// The removal of the first `n` of the named snapshots.
pub open spec fn prune_actions(names: Seq<Seq<char>>, n: nat) -> Seq<ActionModel>
    decreases n,
{
    if n == 0 || n > names.len() {
        Seq::empty()
    } else {
        prune_actions(names, (n - 1) as nat).push(
            ActionModel::Prune {
                name: names[n - 1],
                ops: seq![OpModel::Clear(top(Root::Target, names[n - 1]))],
            },
        )
    }
}

/// The names of a listing's entries, each with whether it is a directory.
pub open spec fn shallow(listing: Seq<(Seq<char>, TreeModel)>) -> Seq<(Seq<char>, bool)> {
    Seq::new(listing.len(), |i: int| (listing[i].0, listing[i].1 is Dir))
}

/// The entries of the target once the snapshot, if any, has been taken:
/// a new snapshot directory is listed last.
pub open spec fn listing_after_backup(
    target: Seq<(Seq<char>, TreeModel)>,
    items: Seq<Seq<char>>,
    timestamp: u64,
) -> Seq<(Seq<char>, bool)> {
    if backup_plan(target, items, timestamp) is Some && !has_key(target, backup_name(timestamp)) {
        shallow(target).push((backup_name(timestamp), true))
    } else {
        shallow(target)
    }
}

fn shallow_listing(entries: &Vec<TreeEntry>) -> (r: Vec<DirEntry>)
    ensures
        dir_view(r@) == shallow(listing_view(entries@)),
{
    let mut r: Vec<DirEntry> = Vec::new();
    let mut i: usize = 0;
    assert(dir_view(r@) =~= shallow(listing_view(entries@)).take(0));
    while i < entries.len()
        invariant
            i <= entries.len(),
            dir_view(r@) == shallow(listing_view(entries@)).take(i as int),
        decreases entries.len() - i,
    {
        let ghost prev = r@;
        let entry = DirEntry { name: entries[i].name.clone(), is_dir: is_dir(&entries[i].node) };
        r.push(entry);
        assert(dir_view(r@) =~= dir_view(prev).push(entry@));
        assert(dir_view(r@) =~= shallow(listing_view(entries@)).take(i + 1));
        i += 1;
    }
    assert(shallow(listing_view(entries@)).take(entries@.len() as int) =~= shallow(
        listing_view(entries@),
    ));
    r
}

/// The whole sync to one target: the announcement; the snapshot, if the
/// target has any of the items; the copying of each item; and, last, the
/// removal of the snapshots beyond the retention limit.
pub open spec fn sync_plan(
    source: Seq<(Seq<char>, TreeModel)>,
    target: Seq<(Seq<char>, TreeModel)>,
    items: Seq<Seq<char>>,
    target_name: Seq<char>,
    timestamp: u64,
    retention: nat,
) -> Seq<ActionModel> {
    let start = seq![ActionModel::Announce(MessageModel::Syncing { target: target_name })];
    let saved = match backup_plan(target, items, timestamp) {
        Some(actions) => actions.push(
            ActionModel::Announce(MessageModel::BackupCreated { name: backup_name(timestamp) }),
        ),
        None => Seq::empty(),
    };
    let doomed = prune_list(listing_after_backup(target, items, timestamp), retention);
    start + saved + copy_actions(source, items, items.len()) + prune_actions(doomed, doomed.len())
}

#[verifier::spinoff_prover]
#[verifier::rlimit(40)]
fn plan_copies(source: &Vec<TreeEntry>, items: &Vec<String>) -> (actions: Vec<Action>)
    ensures
        actions_view(actions@) == copy_actions(
            listing_view(source@),
            lines_view(items@),
            items@.len(),
        ),
{
    let ghost listing = listing_view(source@);
    let ghost wanted = lines_view(items@);
    let mut actions: Vec<Action> = Vec::new();
    let mut i: usize = 0;
    assert(actions_view(actions@) =~= copy_actions(listing, wanted, 0));
    while i < items.len()
        invariant
            i <= items.len(),
            listing == listing_view(source@),
            wanted == lines_view(items@),
            actions_view(actions@) == copy_actions(listing, wanted, i as nat),
        decreases items.len() - i,
    {
        let item = &items[i];
        let from = Location::top(Root::Source, item);
        let to = Location::top(Root::Target, item);
        let holder = Location { root: Root::Target, parts: Vec::new() };
        assert(holder@.parts =~= Seq::<Seq<char>>::empty());
        let file = Tree::File;
        let found = find_entry(source, item);
        let shape = match found {
            Some(j) => &source[j].node,
            None => &file,
        };
        let ops = plan_item_ops(from, to, holder, shape);
        let copy = Action::CopyItem { item: item.clone(), is_dir: is_dir(shape), ops };
        let told = Action::Announce(Message::Copied { item: item.clone() });
        let ghost prev = actions@;
        actions.push(copy);
        actions.push(told);
        assert(actions_view(actions@) =~= actions_view(prev).push(copy@).push(told@));
        i += 1;
    }
    actions
}

fn plan_prunes(names: &Vec<String>) -> (actions: Vec<Action>)
    ensures
        actions_view(actions@) == prune_actions(lines_view(names@), names@.len()),
{
    let mut actions: Vec<Action> = Vec::new();
    let mut i: usize = 0;
    assert(actions_view(actions@) =~= prune_actions(lines_view(names@), 0));
    while i < names.len()
        invariant
            i <= names.len(),
            actions_view(actions@) == prune_actions(lines_view(names@), i as nat),
        decreases names.len() - i,
    {
        let mut ops: Vec<FsOp> = Vec::new();
        let op = FsOp::Clear(Location::top(Root::Target, &names[i]));
        ops.push(op);
        assert(ops_view(ops@) =~= seq![op@]);
        let action = Action::Prune { name: names[i].clone(), ops };
        let ghost prev = actions@;
        actions.push(action);
        assert(actions_view(actions@) =~= actions_view(prev).push(action@));
        i += 1;
    }
    actions
}

/// Plans the sync of the items to one target, from listings of the source
/// and of the target taken beforehand, the name of the target, the time
/// and the retention limit: first the snapshot of what will be overwritten,
/// then the copies, then the removal of old snapshots.
#[verifier::spinoff_prover]
#[verifier::rlimit(40)]
pub fn sync_to_target(
    source: &Vec<TreeEntry>,
    target: &Vec<TreeEntry>,
    items: &Vec<String>,
    target_name: &str,
    timestamp: u64,
    backup_retention: usize,
) -> (actions: Vec<Action>)
    ensures
        actions_view(actions@) == sync_plan(
            listing_view(source@),
            listing_view(target@),
            lines_view(items@),
            target_name@,
            timestamp,
            backup_retention as nat,
        ),
{
    let ghost src = listing_view(source@);
    let ghost tgt = listing_view(target@);
    let ghost wanted = lines_view(items@);
    let mut actions: Vec<Action> = Vec::new();
    let start = Action::Announce(Message::Syncing { target: String::from_str(target_name) });
    actions.push(start);
    assert(actions_view(actions@) =~= seq![start@]);
    let mut entries = shallow_listing(target);
    match create_backup(target, items, timestamp) {
        Some(plan) => {
            let BackupPlan { name, actions: mut saved } = plan;
            let ghost added = saved@;
            let told = Action::Announce(Message::BackupCreated { name: name.clone() });
            actions.append(&mut saved);
            actions.push(told);
            assert(actions_view(actions@) =~= seq![start@] + actions_view(added).push(told@));
            proof {
                lemma_find_key_has_key(tgt, name@);
            }
            if find_entry(target, &name).is_none() {
                let ghost before_push = entries@;
                let entry = DirEntry { name, is_dir: true };
                entries.push(entry);
                assert(dir_view(entries@) =~= dir_view(before_push).push(entry@));
            }
        },
        None => {
            assert(actions_view(actions@) =~= seq![start@] + Seq::<ActionModel>::empty());
        },
    }
    let doomed = cleanup_old_backups(&entries, backup_retention);
    let mut copies = plan_copies(source, items);
    let mut prunes = plan_prunes(&doomed);
    let ghost first = actions@;
    let ghost second = copies@;
    let ghost third = prunes@;
    actions.append(&mut copies);
    actions.append(&mut prunes);
    assert(actions_view(actions@) =~= actions_view(first) + actions_view(second) + actions_view(
        third,
    ));
    actions
}

} // verus!
