//! What a planned sync does to the target directory, stated over a model
//! of the two directories. The laws here hold of every run in which each
//! planned operation succeeds.

use crate::assoc::{find_key, has_key, lemma_find_key_has_key};
use crate::backup::{backup_name, backup_timestamp, lemma_backup_name_round_trip, prune_list};
use crate::fs::TreeModel;
use crate::sync::{
    backup_actions, backup_plan, copy_actions, lemma_backup_actions_len, listing_after_backup,
    prune_actions, shallow, sync_plan, ActionModel, MessageModel,
};
use vstd::prelude::*;

verus! {

/// What lies at a name: a file with its contents, or a directory with
/// what lies at each name in it.
pub enum Node {
    File(Seq<u8>),
    Dir(Map<Seq<char>, Node>),
}

/// Whether a listing describes a directory: it names each entry of the
/// directory once and nothing else, and tells files from directories.
pub open spec fn describes(listing: Seq<(Seq<char>, TreeModel)>, dir: Map<Seq<char>, Node>) -> bool {
    &&& forall|name: Seq<char>| has_key(listing, name) <==> dir.contains_key(name)
    &&& forall|i: int|
        0 <= i < listing.len() ==> ((#[trigger] listing[i]).1 is Dir <==> dir[listing[i].0] is Dir)
    &&& forall|i: int, j: int|
        0 <= i < j < listing.len() ==> (#[trigger] listing[i]).0 != (#[trigger] listing[j]).0
}

/// The target after one action, given the source. An action that cannot
/// be carried out leaves the target as it is.
pub open spec fn apply(
    source: Map<Seq<char>, Node>,
    target: Map<Seq<char>, Node>,
    action: ActionModel,
) -> Map<Seq<char>, Node> {
    match action {
        ActionModel::Announce(_) => target,
        ActionModel::MakeBackupDir { name, .. } => if target.contains_key(name) {
            target
        } else {
            target.insert(name, Node::Dir(Map::empty()))
        },
        ActionModel::BackupItem { backup, item, .. } => if target.contains_key(item)
            && target.contains_key(backup) {
            match target[backup] {
                Node::Dir(saved) => target.insert(backup, Node::Dir(saved.insert(item, target[item]))),
                Node::File(_) => target,
            }
        } else {
            target
        },
        ActionModel::CopyItem { item, .. } => if source.contains_key(item) {
            target.insert(item, source[item])
        } else {
            target
        },
        ActionModel::Prune { name, .. } => target.remove(name),
    }
}

/// The target after the first `n` actions.
pub open spec fn run(
    source: Map<Seq<char>, Node>,
    target: Map<Seq<char>, Node>,
    actions: Seq<ActionModel>,
    n: nat,
) -> Map<Seq<char>, Node>
    decreases n,
{
    if n == 0 || n > actions.len() {
        target
    } else {
        apply(source, run(source, target, actions, (n - 1) as nat), actions[n - 1])
    }
}

/// The target after all the actions.
pub open spec fn run_all(
    source: Map<Seq<char>, Node>,
    target: Map<Seq<char>, Node>,
    actions: Seq<ActionModel>,
) -> Map<Seq<char>, Node> {
    run(source, target, actions, actions.len())
}

proof fn lemma_run_prefix(
    source: Map<Seq<char>, Node>,
    target: Map<Seq<char>, Node>,
    a: Seq<ActionModel>,
    b: Seq<ActionModel>,
    n: nat,
)
    requires
        n <= a.len(),
    ensures
        run(source, target, a + b, n) == run(source, target, a, n),
    decreases n,
{
    if n > 0 {
        lemma_run_prefix(source, target, a, b, (n - 1) as nat);
        assert((a + b)[n - 1] == a[n - 1]);
    }
}

/// Running two plans one after the other is running their concatenation.
pub proof fn lemma_run_concat(
    source: Map<Seq<char>, Node>,
    target: Map<Seq<char>, Node>,
    a: Seq<ActionModel>,
    b: Seq<ActionModel>,
    n: nat,
)
    requires
        n <= b.len(),
    ensures
        run(source, target, a + b, a.len() + n) == run(source, run_all(source, target, a), b, n),
    decreases n,
{
    if n == 0 {
        lemma_run_prefix(source, target, a, b, a.len());
    } else {
        lemma_run_concat(source, target, a, b, (n - 1) as nat);
        assert((a + b)[a.len() + n - 1] == b[n - 1]);
    }
}

pub(crate) proof fn lemma_run_push(
    source: Map<Seq<char>, Node>,
    target: Map<Seq<char>, Node>,
    a: Seq<ActionModel>,
    x: ActionModel,
)
    ensures
        run_all(source, target, a.push(x)) == apply(source, run_all(source, target, a), x),
{
    assert(a.push(x) =~= a + seq![x]);
    lemma_run_prefix(source, target, a, seq![x], a.len());
}

/// Whether `key` is one of the first `n` names.
pub open spec fn among(names: Seq<Seq<char>>, key: Seq<char>, n: nat) -> bool {
    exists|i: int| 0 <= i < n && i < names.len() && #[trigger] names[i] == key
}

pub(crate) proof fn lemma_among_step(names: Seq<Seq<char>>, key: Seq<char>, n: nat)
    requires
        0 < n <= names.len(),
    ensures
        among(names, key, n) <==> among(names, key, (n - 1) as nat) || key == names[n - 1],
{
    let m = (n - 1) as nat;
    if among(names, key, n) {
        let i = choose|i: int| 0 <= i < n && i < names.len() && #[trigger] names[i] == key;
        if i < m {
            assert(among(names, key, m));
        }
    }
    if among(names, key, m) {
        let i = choose|i: int| 0 <= i < m && i < names.len() && #[trigger] names[i] == key;
        assert(names[i] == key);
    }
    if key == names[n - 1] {
        assert(names[n - 1] == key);
    }
}

/// The saving of items touches nothing but the snapshot directory.
#[verifier::spinoff_prover]
#[verifier::rlimit(40)]
pub(crate) proof fn lemma_backup_frame(
    source: Map<Seq<char>, Node>,
    target: Map<Seq<char>, Node>,
    listing: Seq<(Seq<char>, TreeModel)>,
    items: Seq<Seq<char>>,
    backup: Seq<char>,
    n: nat,
)
    requires
        n <= items.len(),
    ensures
        ({
            let after = run_all(source, target, backup_actions(listing, items, backup, n));
            &&& after.dom() == target.dom()
            &&& forall|key: Seq<char>| key != backup ==> #[trigger] after[key] == target[key]
            &&& after[backup] is Dir == target[backup] is Dir
        }),
    decreases n,
{
    if n > 0 {
        let m = (n - 1) as nat;
        lemma_backup_frame(source, target, listing, items, backup, m);
        let before = backup_actions(listing, items, backup, m);
        let mid = run_all(source, target, before);
        match find_key(listing, items[n - 1], listing.len()) {
            Some(j) => {
                let action = backup_actions(listing, items, backup, n).last();
                assert(backup_actions(listing, items, backup, n) =~= before.push(action));
                lemma_run_push(source, target, before, action);
                let after = apply(source, mid, action);
                assert(after.dom() =~= target.dom());
            },
            None => {},
        }
    }
}

/// What the saving of items puts into the snapshot directory: each of
/// the first `n` items that the target has, as the target has it, beside
/// whatever else the directory held.
#[verifier::spinoff_prover]
#[verifier::rlimit(40)]
pub(crate) proof fn lemma_backup_effect(
    source: Map<Seq<char>, Node>,
    target: Map<Seq<char>, Node>,
    listing: Seq<(Seq<char>, TreeModel)>,
    items: Seq<Seq<char>>,
    backup: Seq<char>,
    n: nat,
)
    requires
        n <= items.len(),
        forall|name: Seq<char>|
            items.contains(name) ==> (has_key(listing, name) <==> target.contains_key(name)),
        !items.contains(backup),
        target.contains_key(backup),
        target[backup] is Dir,
    ensures
        ({
            let after = run_all(source, target, backup_actions(listing, items, backup, n));
            let held = target[backup]->Dir_0;
            &&& after[backup] is Dir
            &&& forall|key: Seq<char>|
                among(items, key, n) && target.contains_key(key) ==> (
                #[trigger] after[backup]->Dir_0.contains_key(key)) && after[backup]->Dir_0[key]
                    == target[key]
            &&& forall|key: Seq<char>|
                !(among(items, key, n) && target.contains_key(key)) ==> (
                #[trigger] after[backup]->Dir_0.contains_key(key)) == held.contains_key(key)
                    && after[backup]->Dir_0[key] == held[key]
        }),
    decreases n,
{
    if n > 0 {
        let m = (n - 1) as nat;
        lemma_backup_effect(source, target, listing, items, backup, m);
        lemma_backup_frame(source, target, listing, items, backup, m);
        let before = backup_actions(listing, items, backup, m);
        let mid = run_all(source, target, before);
        let item = items[n - 1];
        assert(items.contains(item));
        lemma_find_key_has_key(listing, item);
        let held = target[backup]->Dir_0;
        let after = run_all(source, target, backup_actions(listing, items, backup, n));
        match find_key(listing, item, listing.len()) {
            Some(j) => {
                let action = backup_actions(listing, items, backup, n).last();
                assert(backup_actions(listing, items, backup, n) =~= before.push(action));
                lemma_run_push(source, target, before, action);
                assert(after == apply(source, mid, action));
                assert(mid.contains_key(item) && mid.contains_key(backup));
                assert(mid[item] == target[item]);
                let kept = mid[backup]->Dir_0;
                assert(after[backup] == Node::Dir(kept.insert(item, target[item])));
            },
            None => {
                assert(after == mid);
            },
        }
        assert forall|key: Seq<char>|
            among(items, key, n) && target.contains_key(key) implies (
        #[trigger] after[backup]->Dir_0.contains_key(key)) && after[backup]->Dir_0[key]
            == target[key] by {
            lemma_among_step(items, key, n);
            if key != item {
                assert(mid[backup]->Dir_0.contains_key(key));
            }
        }
        assert forall|key: Seq<char>|
            !(among(items, key, n) && target.contains_key(key)) implies (
        #[trigger] after[backup]->Dir_0.contains_key(key)) == held.contains_key(key)
            && after[backup]->Dir_0[key] == held[key] by {
            lemma_among_step(items, key, n);
            assert(mid[backup]->Dir_0.contains_key(key) == held.contains_key(key));
        }
    }
}

/// What the copying of items does: each of the first `n` items that the
/// source has is in the target as the source has it; nothing else changes.
#[verifier::spinoff_prover]
#[verifier::rlimit(40)]
pub(crate) proof fn lemma_copy_effect(
    source: Map<Seq<char>, Node>,
    target: Map<Seq<char>, Node>,
    listing: Seq<(Seq<char>, TreeModel)>,
    items: Seq<Seq<char>>,
    n: nat,
)
    requires
        n <= items.len(),
    ensures
        ({
            let after = run_all(source, target, copy_actions(listing, items, n));
            &&& forall|key: Seq<char>|
                among(items, key, n) && source.contains_key(key) ==> (#[trigger] after.contains_key(
                    key,
                )) && after[key] == source[key]
            &&& forall|key: Seq<char>|
                !(among(items, key, n) && source.contains_key(key)) ==> (
                #[trigger] after.contains_key(key)) == target.contains_key(key) && after[key]
                    == target[key]
        }),
    decreases n,
{
    if n > 0 {
        let m = (n - 1) as nat;
        lemma_copy_effect(source, target, listing, items, m);
        let before = copy_actions(listing, items, m);
        let all = copy_actions(listing, items, n);
        let item = items[n - 1];
        let copy = all[all.len() - 2];
        let told = all[all.len() - 1];
        assert(all =~= before.push(copy).push(told));
        lemma_run_push(source, target, before.push(copy), told);
        lemma_run_push(source, target, before, copy);
        let mid = run_all(source, target, before);
        let after = run_all(source, target, all);
        assert(copy is CopyItem && copy->CopyItem_item == item);
        assert(told is Announce);
        assert(after == apply(source, mid, copy));
        assert forall|key: Seq<char>|
            among(items, key, n) && source.contains_key(key) implies (#[trigger] after.contains_key(
            key,
        )) && after[key] == source[key] by {
            lemma_among_step(items, key, n);
            if key != item {
                assert(mid.contains_key(key));
            }
        }
        assert forall|key: Seq<char>|
            !(among(items, key, n) && source.contains_key(key)) implies (
        #[trigger] after.contains_key(key)) == target.contains_key(key) && after[key]
            == target[key] by {
            lemma_among_step(items, key, n);
            assert(mid.contains_key(key) == target.contains_key(key));
        }
        assert forall|key: Seq<char>| among(items, key, n) <==> among(items, key, m) || key
            == item by {
            lemma_among_step(items, key, n);
        }
    }
}

/// What the removal of snapshots does: the first `n` names are gone;
/// nothing else changes.
#[verifier::spinoff_prover]
#[verifier::rlimit(40)]
pub(crate) proof fn lemma_prune_effect(
    source: Map<Seq<char>, Node>,
    target: Map<Seq<char>, Node>,
    names: Seq<Seq<char>>,
    n: nat,
)
    requires
        n <= names.len(),
    ensures
        ({
            let after = run_all(source, target, prune_actions(names, n));
            &&& forall|key: Seq<char>| among(names, key, n) ==> !(#[trigger] after.contains_key(key))
            &&& forall|key: Seq<char>|
                !among(names, key, n) ==> (#[trigger] after.contains_key(key))
                    == target.contains_key(key) && after[key] == target[key]
        }),
    decreases n,
{
    if n > 0 {
        let m = (n - 1) as nat;
        lemma_prune_effect(source, target, names, m);
        let before = prune_actions(names, m);
        let action = prune_actions(names, n).last();
        assert(prune_actions(names, n) =~= before.push(action));
        lemma_run_push(source, target, before, action);
        let name = names[n - 1];
        assert forall|key: Seq<char>| among(names, key, n) <==> among(names, key, m) || key
            == name by {
            lemma_among_step(names, key, n);
        }
    }
}

/// The target once the snapshot, if one is planned, has been taken.
pub open spec fn after_backup(
    target: Map<Seq<char>, Node>,
    listing: Seq<(Seq<char>, TreeModel)>,
    items: Seq<Seq<char>>,
    timestamp: u64,
) -> Map<Seq<char>, Node> {
    let name = backup_name(timestamp);
    if backup_plan(listing, items, timestamp) is Some {
        let made = if target.contains_key(name) {
            target
        } else {
            target.insert(name, Node::Dir(Map::empty()))
        };
        run_all(Map::empty(), made, backup_actions(listing, items, name, items.len()))
    } else {
        target
    }
}

/// The target after a whole sync.
pub open spec fn synced(
    source: Map<Seq<char>, Node>,
    target: Map<Seq<char>, Node>,
    source_listing: Seq<(Seq<char>, TreeModel)>,
    target_listing: Seq<(Seq<char>, TreeModel)>,
    items: Seq<Seq<char>>,
    target_name: Seq<char>,
    timestamp: u64,
    retention: nat,
) -> Map<Seq<char>, Node> {
    run_all(
        source,
        target,
        sync_plan(source_listing, target_listing, items, target_name, timestamp, retention),
    )
}

pub(crate) proof fn lemma_backup_ignores_source(
    source: Map<Seq<char>, Node>,
    other: Map<Seq<char>, Node>,
    target: Map<Seq<char>, Node>,
    listing: Seq<(Seq<char>, TreeModel)>,
    items: Seq<Seq<char>>,
    backup: Seq<char>,
    n: nat,
)
    requires
        n <= items.len(),
    ensures
        run_all(source, target, backup_actions(listing, items, backup, n)) == run_all(
            other,
            target,
            backup_actions(listing, items, backup, n),
        ),
    decreases n,
{
    if n > 0 {
        let m = (n - 1) as nat;
        lemma_backup_ignores_source(source, other, target, listing, items, backup, m);
        let before = backup_actions(listing, items, backup, m);
        match find_key(listing, items[n - 1], listing.len()) {
            Some(j) => {
                let action = backup_actions(listing, items, backup, n).last();
                assert(backup_actions(listing, items, backup, n) =~= before.push(action));
                lemma_run_push(source, target, before, action);
                lemma_run_push(other, target, before, action);
            },
            None => {},
        }
    }
}

/// A sync runs in three phases: the snapshot, the copies, the removals.
#[verifier::spinoff_prover]
#[verifier::rlimit(40)]
pub(crate) proof fn lemma_sync_phases(
    source: Map<Seq<char>, Node>,
    target: Map<Seq<char>, Node>,
    source_listing: Seq<(Seq<char>, TreeModel)>,
    target_listing: Seq<(Seq<char>, TreeModel)>,
    items: Seq<Seq<char>>,
    target_name: Seq<char>,
    timestamp: u64,
    retention: nat,
)
    ensures
        ({
            let saved = after_backup(target, target_listing, items, timestamp);
            let copied = run_all(source, saved, copy_actions(source_listing, items, items.len()));
            let doomed = prune_list(
                listing_after_backup(target_listing, items, timestamp),
                retention,
            );
            synced(
                source,
                target,
                source_listing,
                target_listing,
                items,
                target_name,
                timestamp,
                retention,
            ) == run_all(source, copied, prune_actions(doomed, doomed.len()))
        }),
{
    let name = backup_name(timestamp);
    let start = seq![ActionModel::Announce(MessageModel::Syncing { target: target_name })];
    let told = ActionModel::Announce(MessageModel::BackupCreated { name });
    let save = match backup_plan(target_listing, items, timestamp) {
        Some(actions) => actions.push(told),
        None => Seq::empty(),
    };
    let copies = copy_actions(source_listing, items, items.len());
    let doomed = prune_list(listing_after_backup(target_listing, items, timestamp), retention);
    let prunes = prune_actions(doomed, doomed.len());
    lemma_run_concat(source, target, start + save + copies, prunes, prunes.len());
    lemma_run_concat(source, target, start + save, copies, copies.len());
    lemma_run_concat(source, target, start, save, save.len());
    assert(run_all(source, target, start) == target) by {
        assert(run(source, target, start, 0) == target);
    }
    match backup_plan(target_listing, items, timestamp) {
        Some(actions) => {
            let made = ActionModel::MakeBackupDir {
                name,
                ops: seq![
                    crate::fs::OpModel::CreateDirAll(crate::sync::top(crate::fs::Root::Target, name)),
                ],
            };
            let each = backup_actions(target_listing, items, name, items.len());
            assert(actions == seq![made] + each);
            lemma_run_push(source, target, actions, told);
            lemma_run_concat(source, target, seq![made], each, each.len());
            assert(run_all(source, target, seq![made]) == apply(source, target, made)) by {
                assert(run(source, target, seq![made], 0) == target);
            }
            lemma_backup_ignores_source(
                source,
                Map::empty(),
                apply(source, target, made),
                target_listing,
                items,
                name,
                items.len(),
            );
        },
        None => {},
    }
}

/// Whether the name could be that of a snapshot.
pub open spec fn snapshot_like(name: Seq<char>) -> bool {
    backup_timestamp(name) is Some
}

proof fn lemma_doomed_are_snapshots(entries: Seq<(Seq<char>, bool)>, retention: nat, key: Seq<char>)
    requires
        !snapshot_like(key),
    ensures
        !among(prune_list(entries, retention), key, prune_list(entries, retention).len()),
{
    let doomed = prune_list(entries, retention);
    if among(doomed, key, doomed.len()) {
        let i = choose|i: int| 0 <= i < doomed.len() && i < doomed.len() && #[trigger] doomed[i] == key;
        assert(doomed.contains(key));
        crate::backup::lemma_prune_list_members(entries, retention, key);
    }
}

/// No item of the catalog is named like a snapshot.
#[verifier::spinoff_prover]
#[verifier::rlimit(40)]
pub proof fn lemma_catalog_is_plain(name: Seq<char>)
    requires
        crate::sync::catalog().contains(name),
    ensures
        !snapshot_like(name),
{
    reveal_strlit(".bn-loader-backup-");
    reveal_strlit("plugins");
    reveal_strlit("repositories");
    reveal_strlit("signatures");
    reveal_strlit("themes");
    reveal_strlit("snippets");
    reveal_strlit("types");
    reveal_strlit("settings.json");
    reveal_strlit("startup.py");
    reveal_strlit("keybindings.json");
    let names = crate::sync::catalog();
    let i = choose|i: int| 0 <= i < names.len() && names[i] == name;
    assert(names.len() == 9);
    assert(name[0] != '.');
    let prefix = crate::backup::BACKUP_PREFIX@;
    assert(prefix[0] == '.');
    if name.len() >= prefix.len() {
        assert(name.take(prefix.len() as int)[0] == name[0]);
    }
}

/// What is planned can be synced: each planned name is an item of the
/// catalog that the listing of the source has and that no pattern matches,
/// and it is not named like a snapshot.
pub proof fn lemma_planned_items(
    source: Seq<(Seq<char>, TreeModel)>,
    patterns: Seq<Seq<char>>,
    name: Seq<char>,
)
    requires
        crate::sync::plan_items(
            crate::sync::catalog(),
            source,
            patterns,
            crate::sync::catalog().len(),
        ).contains(name),
    ensures
        crate::sync::catalog().contains(name),
        has_key(source, name),
        !crate::exclude::excluded(patterns, name),
        !snapshot_like(name),
{
    let names = crate::sync::catalog();
    crate::sync::lemma_plan_items(names, source, patterns, names.len(), name);
    assert(names.take(names.len() as int) =~= names);
    lemma_catalog_is_plain(name);
}

/// After a sync, each item that the source has is in the target exactly
/// as the source has it.
#[verifier::spinoff_prover]
#[verifier::rlimit(40)]
pub proof fn lemma_sync_copies_items(
    source: Map<Seq<char>, Node>,
    target: Map<Seq<char>, Node>,
    source_listing: Seq<(Seq<char>, TreeModel)>,
    target_listing: Seq<(Seq<char>, TreeModel)>,
    items: Seq<Seq<char>>,
    target_name: Seq<char>,
    timestamp: u64,
    retention: nat,
    item: Seq<char>,
)
    requires
        items.contains(item),
        source.contains_key(item),
        !snapshot_like(item),
    ensures
        ({
            let after = synced(
                source,
                target,
                source_listing,
                target_listing,
                items,
                target_name,
                timestamp,
                retention,
            );
            after.contains_key(item) && after[item] == source[item]
        }),
{
    lemma_sync_phases(
        source,
        target,
        source_listing,
        target_listing,
        items,
        target_name,
        timestamp,
        retention,
    );
    let saved = after_backup(target, target_listing, items, timestamp);
    lemma_copy_effect(source, saved, source_listing, items, items.len());
    let copied = run_all(source, saved, copy_actions(source_listing, items, items.len()));
    let entries = listing_after_backup(target_listing, items, timestamp);
    let doomed = prune_list(entries, retention);
    lemma_prune_effect(source, copied, doomed, doomed.len());
    lemma_doomed_are_snapshots(entries, retention, item);
    let i = choose|i: int| 0 <= i < items.len() && items[i] == item;
    assert(among(items, item, items.len()));
    assert(copied.contains_key(item));
    let after = run_all(source, copied, prune_actions(doomed, doomed.len()));
    assert(after.contains_key(item));
}

/// A sync leaves alone whatever is neither one of the items nor named
/// like a snapshot.
#[verifier::spinoff_prover]
#[verifier::rlimit(40)]
pub proof fn lemma_sync_leaves_the_rest(
    source: Map<Seq<char>, Node>,
    target: Map<Seq<char>, Node>,
    source_listing: Seq<(Seq<char>, TreeModel)>,
    target_listing: Seq<(Seq<char>, TreeModel)>,
    items: Seq<Seq<char>>,
    target_name: Seq<char>,
    timestamp: u64,
    retention: nat,
    name: Seq<char>,
)
    requires
        !items.contains(name),
        !snapshot_like(name),
    ensures
        ({
            let after = synced(
                source,
                target,
                source_listing,
                target_listing,
                items,
                target_name,
                timestamp,
                retention,
            );
            after.contains_key(name) == target.contains_key(name) && (target.contains_key(name)
                ==> after[name] == target[name])
        }),
{
    lemma_sync_phases(
        source,
        target,
        source_listing,
        target_listing,
        items,
        target_name,
        timestamp,
        retention,
    );
    let backup = backup_name(timestamp);
    lemma_backup_name_round_trip(timestamp);
    let saved = after_backup(target, target_listing, items, timestamp);
    if backup_plan(target_listing, items, timestamp) is Some {
        let made = if target.contains_key(backup) {
            target
        } else {
            target.insert(backup, Node::Dir(Map::empty()))
        };
        lemma_backup_frame(Map::empty(), made, target_listing, items, backup, items.len());
        assert(saved.dom() == made.dom());
        assert(saved[name] == made[name]);
    }
    assert(saved.contains_key(name) == target.contains_key(name));
    lemma_copy_effect(source, saved, source_listing, items, items.len());
    let copied = run_all(source, saved, copy_actions(source_listing, items, items.len()));
    if among(items, name, items.len()) {
        let i = choose|i: int| 0 <= i < items.len() && i < items.len() && #[trigger] items[i] == name;
        assert(items.contains(name));
    }
    assert(copied.contains_key(name) == saved.contains_key(name));
    let entries = listing_after_backup(target_listing, items, timestamp);
    let doomed = prune_list(entries, retention);
    lemma_prune_effect(source, copied, doomed, doomed.len());
    lemma_doomed_are_snapshots(entries, retention, name);
    let after = run_all(source, copied, prune_actions(doomed, doomed.len()));
    assert(after.contains_key(name) == copied.contains_key(name));
}

/// Before a sync overwrites anything, it saves it: where the target has
/// any of the items, the snapshot directory named after the time of the
/// sync holds each item that the target had, exactly as the target had it;
/// and a snapshot directory that is new holds nothing else.
#[verifier::spinoff_prover]
#[verifier::rlimit(40)]
pub proof fn lemma_sync_saves_what_it_overwrites(
    source: Map<Seq<char>, Node>,
    target: Map<Seq<char>, Node>,
    source_listing: Seq<(Seq<char>, TreeModel)>,
    target_listing: Seq<(Seq<char>, TreeModel)>,
    items: Seq<Seq<char>>,
    target_name: Seq<char>,
    timestamp: u64,
    retention: nat,
)
    requires
        describes(target_listing, target),
        forall|i: int| 0 <= i < items.len() ==> !snapshot_like(#[trigger] items[i]),
        exists|i: int| 0 <= i < items.len() && target.contains_key(#[trigger] items[i]),
        target.contains_key(backup_name(timestamp)) ==> target[backup_name(timestamp)] is Dir,
        !prune_list(listing_after_backup(target_listing, items, timestamp), retention).contains(
            backup_name(timestamp),
        ),
    ensures
        ({
            let after = synced(
                source,
                target,
                source_listing,
                target_listing,
                items,
                target_name,
                timestamp,
                retention,
            );
            let backup = backup_name(timestamp);
            &&& after.contains_key(backup)
            &&& after[backup] is Dir
            &&& forall|item: Seq<char>|
                items.contains(item) && target.contains_key(item) ==> (
                #[trigger] after[backup]->Dir_0.contains_key(item)) && after[backup]->Dir_0[item]
                    == target[item]
            &&& !target.contains_key(backup) ==> forall|key: Seq<char>|
                (#[trigger] after[backup]->Dir_0.contains_key(key)) ==> items.contains(key)
                    && target.contains_key(key)
        }),
{
    lemma_sync_phases(
        source,
        target,
        source_listing,
        target_listing,
        items,
        target_name,
        timestamp,
        retention,
    );
    let backup = backup_name(timestamp);
    lemma_backup_name_round_trip(timestamp);
    assert(!items.contains(backup)) by {
        if items.contains(backup) {
            let i = choose|i: int| 0 <= i < items.len() && items[i] == backup;
            assert(!snapshot_like(items[i]));
        }
    }
    lemma_backup_actions_len(target_listing, items, backup, items.len());
    let w = choose|i: int| 0 <= i < items.len() && target.contains_key(#[trigger] items[i]);
    assert(has_key(target_listing, items[w]));
    assert(backup_plan(target_listing, items, timestamp) is Some);
    let made = if target.contains_key(backup) {
        target
    } else {
        target.insert(backup, Node::Dir(Map::empty()))
    };
    assert forall|name: Seq<char>| items.contains(name) implies (has_key(target_listing, name)
        <==> made.contains_key(name)) by {}
    lemma_backup_effect(Map::empty(), made, target_listing, items, backup, items.len());
    lemma_backup_frame(Map::empty(), made, target_listing, items, backup, items.len());
    let saved = after_backup(target, target_listing, items, timestamp);
    assert(saved.contains_key(backup));
    let copied = run_all(source, saved, copy_actions(source_listing, items, items.len()));
    assert(copied.contains_key(backup) && copied[backup] == saved[backup]) by {
        lemma_copy_effect(source, saved, source_listing, items, items.len());
        if among(items, backup, items.len()) {
            let i = choose|i: int|
                0 <= i < items.len() && i < items.len() && #[trigger] items[i] == backup;
            assert(items.contains(backup));
        }
        assert(!(among(items, backup, items.len()) && source.contains_key(backup)));
        assert(copied.contains_key(backup) == saved.contains_key(backup));
    }
    let entries = listing_after_backup(target_listing, items, timestamp);
    let doomed = prune_list(entries, retention);
    let after = run_all(source, copied, prune_actions(doomed, doomed.len()));
    assert(after.contains_key(backup) && after[backup] == copied[backup]) by {
        lemma_prune_effect(source, copied, doomed, doomed.len());
        if among(doomed, backup, doomed.len()) {
            let i = choose|i: int|
                0 <= i < doomed.len() && i < doomed.len() && #[trigger] doomed[i] == backup;
            assert(doomed.contains(backup));
        }
        assert(!among(doomed, backup, doomed.len()));
        assert(after.contains_key(backup) == copied.contains_key(backup));
    }
    assert(after[backup] == saved[backup]);
    assert forall|item: Seq<char>| items.contains(item) && target.contains_key(item) implies (
    #[trigger] after[backup]->Dir_0.contains_key(item)) && after[backup]->Dir_0[item]
        == target[item] by {
        let i = choose|i: int| 0 <= i < items.len() && items[i] == item;
        assert(among(items, item, items.len()));
        assert(made.contains_key(item) && made[item] == target[item]);
    }
    if !target.contains_key(backup) {
        assert forall|key: Seq<char>|
            (#[trigger] after[backup]->Dir_0.contains_key(key)) implies items.contains(key)
            && target.contains_key(key) by {
            if !(among(items, key, items.len()) && made.contains_key(key)) {
                assert(saved[backup]->Dir_0.contains_key(key) == made[backup]->Dir_0.contains_key(
                    key,
                ));
                assert(made[backup]->Dir_0 =~= Map::<Seq<char>, Node>::empty());
            } else {
                let i = choose|i: int|
                    0 <= i < items.len() && i < items.len() && #[trigger] items[i] == key;
                assert(items.contains(key));
            }
        }
    }
}

/// Where the target has none of the items, a sync takes no snapshot: it
/// adds nothing to the target but the items themselves.
#[verifier::spinoff_prover]
#[verifier::rlimit(40)]
pub proof fn lemma_sync_without_snapshot(
    source: Map<Seq<char>, Node>,
    target: Map<Seq<char>, Node>,
    source_listing: Seq<(Seq<char>, TreeModel)>,
    target_listing: Seq<(Seq<char>, TreeModel)>,
    items: Seq<Seq<char>>,
    target_name: Seq<char>,
    timestamp: u64,
    retention: nat,
    key: Seq<char>,
)
    requires
        describes(target_listing, target),
        forall|i: int| 0 <= i < items.len() ==> !target.contains_key(#[trigger] items[i]),
        synced(
            source,
            target,
            source_listing,
            target_listing,
            items,
            target_name,
            timestamp,
            retention,
        ).contains_key(key),
    ensures
        target.contains_key(key) || items.contains(key),
{
    lemma_sync_phases(
        source,
        target,
        source_listing,
        target_listing,
        items,
        target_name,
        timestamp,
        retention,
    );
    let backup = backup_name(timestamp);
    lemma_backup_actions_len(target_listing, items, backup, items.len());
    if backup_plan(target_listing, items, timestamp) is Some {
        let i = choose|i: int| 0 <= i < items.len() && has_key(target_listing, #[trigger] items[i]);
        assert(target.contains_key(items[i]));
    }
    let saved = after_backup(target, target_listing, items, timestamp);
    assert(saved == target);
    lemma_copy_effect(source, saved, source_listing, items, items.len());
    let copied = run_all(source, saved, copy_actions(source_listing, items, items.len()));
    let entries = listing_after_backup(target_listing, items, timestamp);
    let doomed = prune_list(entries, retention);
    lemma_prune_effect(source, copied, doomed, doomed.len());
    let after = run_all(source, copied, prune_actions(doomed, doomed.len()));
    assert(copied.contains_key(key));
    if among(items, key, items.len()) {
        let i = choose|i: int| 0 <= i < items.len() && i < items.len() && #[trigger] items[i] == key;
        assert(items.contains(key));
    }
}

/// A snapshot taken at a time later than that of every snapshot in the
/// target is not removed by the sync that takes it.
#[verifier::spinoff_prover]
#[verifier::rlimit(40)]
pub proof fn lemma_fresh_snapshot_survives(
    target: Map<Seq<char>, Node>,
    target_listing: Seq<(Seq<char>, TreeModel)>,
    items: Seq<Seq<char>>,
    timestamp: u64,
    retention: nat,
)
    requires
        describes(target_listing, target),
        forall|name: Seq<char>|
            #[trigger] target.contains_key(name) && backup_timestamp(name) is Some
                ==> backup_timestamp(name)->0 < timestamp,
    ensures
        !prune_list(listing_after_backup(target_listing, items, timestamp), retention).contains(
            backup_name(timestamp),
        ),
{
    let name = backup_name(timestamp);
    lemma_backup_name_round_trip(timestamp);
    let old = shallow(target_listing);
    assert(!has_key(target_listing, name)) by {
        if has_key(target_listing, name) {
            assert(target.contains_key(name));
        }
    }
    assert forall|i: int| 0 <= i < old.len() implies (#[trigger] old[i]).0 != name by {
        assert(target_listing[i].0 == old[i].0);
    }
    assert forall|i: int|
        0 <= i < old.len() && (#[trigger] old[i]).1 && backup_timestamp(
            old[i].0,
        ) is Some implies backup_timestamp(old[i].0)->0 < timestamp by {
        assert(target_listing[i].0 == old[i].0);
        assert(has_key(target_listing, old[i].0));
        assert(target.contains_key(old[i].0));
    }
    let entries = listing_after_backup(target_listing, items, timestamp);
    if retention == 0 {
    } else if backup_plan(target_listing, items, timestamp) is Some {
        crate::backup::lemma_new_snapshot_is_kept(old, timestamp, retention);
    } else {
        if prune_list(entries, retention).contains(name) {
            crate::backup::lemma_prune_list_members(entries, retention, name);
            let i = choose|i: int| 0 <= i < old.len() && old[i] == (name, true);
            assert(old[i].0 == name);
        }
    }
}

/// Syncing again changes nothing. After a first sync, let the same items
/// be synced from the same source at a later time. Then the second
/// snapshot holds the items exactly as the first sync left them, and
/// nothing else; the items in the target are as they were after the first
/// sync; and so is everything else that is not named like a snapshot.
#[verifier::spinoff_prover]
#[verifier::rlimit(40)]
pub proof fn lemma_resync_is_idempotent(
    source: Map<Seq<char>, Node>,
    target: Map<Seq<char>, Node>,
    source_listing: Seq<(Seq<char>, TreeModel)>,
    first_listing: Seq<(Seq<char>, TreeModel)>,
    second_listing: Seq<(Seq<char>, TreeModel)>,
    items: Seq<Seq<char>>,
    target_name: Seq<char>,
    first_time: u64,
    second_time: u64,
    retention: nat,
)
    requires
        items.len() > 0,
        forall|i: int|
            0 <= i < items.len() ==> source.contains_key(#[trigger] items[i]) && !snapshot_like(
                items[i],
            ),
        describes(
            second_listing,
            synced(
                source,
                target,
                source_listing,
                first_listing,
                items,
                target_name,
                first_time,
                retention,
            ),
        ),
        forall|name: Seq<char>|
            #[trigger] synced(
                source,
                target,
                source_listing,
                first_listing,
                items,
                target_name,
                first_time,
                retention,
            ).contains_key(name) && backup_timestamp(name) is Some ==> backup_timestamp(name)->0
                < second_time,
    ensures
        ({
            let once = synced(
                source,
                target,
                source_listing,
                first_listing,
                items,
                target_name,
                first_time,
                retention,
            );
            let twice = synced(
                source,
                once,
                source_listing,
                second_listing,
                items,
                target_name,
                second_time,
                retention,
            );
            let backup = backup_name(second_time);
            &&& twice.contains_key(backup)
            &&& twice[backup] is Dir
            &&& forall|key: Seq<char>|
                (#[trigger] twice[backup]->Dir_0.contains_key(key)) <==> items.contains(key)
            &&& forall|key: Seq<char>|
                items.contains(key) ==> #[trigger] twice[backup]->Dir_0[key] == once[key]
            &&& forall|key: Seq<char>|
                items.contains(key) ==> (#[trigger] twice.contains_key(key)) && twice[key]
                    == once[key]
            &&& forall|key: Seq<char>|
                !snapshot_like(key) ==> (#[trigger] twice.contains_key(key)) == once.contains_key(
                    key,
                ) && (once.contains_key(key) ==> twice[key] == once[key])
        }),
{
    let once = synced(
        source,
        target,
        source_listing,
        first_listing,
        items,
        target_name,
        first_time,
        retention,
    );
    let twice = synced(
        source,
        once,
        source_listing,
        second_listing,
        items,
        target_name,
        second_time,
        retention,
    );
    let backup = backup_name(second_time);
    lemma_backup_name_round_trip(second_time);
    assert forall|key: Seq<char>| #[trigger] items.contains(key) implies once.contains_key(key)
        && once[key] == source[key] && twice.contains_key(key) && twice[key] == source[key] by {
        let i = choose|i: int| 0 <= i < items.len() && items[i] == key;
        lemma_sync_copies_items(
            source,
            target,
            source_listing,
            first_listing,
            items,
            target_name,
            first_time,
            retention,
            key,
        );
        lemma_sync_copies_items(
            source,
            once,
            source_listing,
            second_listing,
            items,
            target_name,
            second_time,
            retention,
            key,
        );
    }
    assert(items.contains(items[0]));
    assert(once.contains_key(items[0]));
    lemma_fresh_snapshot_survives(once, second_listing, items, second_time, retention);
    assert(!once.contains_key(backup));
    lemma_sync_saves_what_it_overwrites(
        source,
        once,
        source_listing,
        second_listing,
        items,
        target_name,
        second_time,
        retention,
    );
    assert forall|key: Seq<char>| !snapshot_like(key) implies (#[trigger] twice.contains_key(key))
        == once.contains_key(key) && (once.contains_key(key) ==> twice[key] == once[key]) by {
        if items.contains(key) {
        } else {
            lemma_sync_leaves_the_rest(
                source,
                once,
                source_listing,
                second_listing,
                items,
                target_name,
                second_time,
                retention,
                key,
            );
        }
    }
    assert forall|key: Seq<char>|
        (#[trigger] twice[backup]->Dir_0.contains_key(key)) <==> items.contains(key) by {
        if items.contains(key) {
            assert(once.contains_key(key));
        }
    }
    assert forall|key: Seq<char>| items.contains(key) implies #[trigger] twice[backup]->Dir_0[key]
        == once[key] by {
        assert(once.contains_key(key));
        assert(twice[backup]->Dir_0.contains_key(key));
    }
    assert forall|key: Seq<char>| items.contains(key) implies (#[trigger] twice.contains_key(key))
        && twice[key] == once[key] by {}
}

/// Which snapshots a sync leaves in the target: those that were there and
/// the new one, if one was taken, less those that retention removes; and
/// each one that was there before is left as it was.
#[verifier::spinoff_prover]
#[verifier::rlimit(40)]
pub proof fn lemma_sync_snapshots(
    source: Map<Seq<char>, Node>,
    target: Map<Seq<char>, Node>,
    source_listing: Seq<(Seq<char>, TreeModel)>,
    target_listing: Seq<(Seq<char>, TreeModel)>,
    items: Seq<Seq<char>>,
    target_name: Seq<char>,
    timestamp: u64,
    retention: nat,
    name: Seq<char>,
)
    requires
        forall|i: int| 0 <= i < items.len() ==> !snapshot_like(#[trigger] items[i]),
        snapshot_like(name),
    ensures
        ({
            let after = synced(
                source,
                target,
                source_listing,
                target_listing,
                items,
                target_name,
                timestamp,
                retention,
            );
            let doomed = prune_list(
                listing_after_backup(target_listing, items, timestamp),
                retention,
            );
            let taken = backup_plan(target_listing, items, timestamp) is Some;
            &&& after.contains_key(name) <==> (target.contains_key(name) || (taken && name
                == backup_name(timestamp))) && !doomed.contains(name)
            &&& after.contains_key(name) && target.contains_key(name) ==> after[name] is Dir
                == target[name] is Dir
            &&& after.contains_key(name) && !target.contains_key(name) ==> after[name] is Dir
        }),
{
    lemma_sync_phases(
        source,
        target,
        source_listing,
        target_listing,
        items,
        target_name,
        timestamp,
        retention,
    );
    let backup = backup_name(timestamp);
    let saved = after_backup(target, target_listing, items, timestamp);
    if backup_plan(target_listing, items, timestamp) is Some {
        let made = if target.contains_key(backup) {
            target
        } else {
            target.insert(backup, Node::Dir(Map::empty()))
        };
        lemma_backup_frame(Map::empty(), made, target_listing, items, backup, items.len());
        assert(saved.dom() == made.dom());
        assert(name != backup ==> saved[name] == made[name]);
    }
    lemma_copy_effect(source, saved, source_listing, items, items.len());
    let copied = run_all(source, saved, copy_actions(source_listing, items, items.len()));
    if among(items, name, items.len()) {
        let i = choose|i: int| 0 <= i < items.len() && i < items.len() && #[trigger] items[i] == name;
        assert(!snapshot_like(items[i]));
    }
    assert(copied.contains_key(name) == saved.contains_key(name));
    assert(copied[name] == saved[name]);
    let entries = listing_after_backup(target_listing, items, timestamp);
    let doomed = prune_list(entries, retention);
    lemma_prune_effect(source, copied, doomed, doomed.len());
    let after = run_all(source, copied, prune_actions(doomed, doomed.len()));
    if among(doomed, name, doomed.len()) {
        let i = choose|i: int|
            0 <= i < doomed.len() && i < doomed.len() && #[trigger] doomed[i] == name;
        assert(doomed.contains(name));
        assert(!after.contains_key(name));
    } else {
        if doomed.contains(name) {
            let i = choose|i: int| 0 <= i < doomed.len() && doomed[i] == name;
            assert(among(doomed, name, doomed.len()));
        }
        assert(after.contains_key(name) == copied.contains_key(name));
    }
}

/// The target after the first `n` of a series of syncs of the same items
/// from the same source, the sync at each time planned from a listing of
/// the target as the sync before left it.
pub open spec fn resynced(
    source: Map<Seq<char>, Node>,
    target: Map<Seq<char>, Node>,
    source_listing: Seq<(Seq<char>, TreeModel)>,
    listings: Seq<Seq<(Seq<char>, TreeModel)>>,
    items: Seq<Seq<char>>,
    target_name: Seq<char>,
    times: Seq<u64>,
    retention: nat,
    n: nat,
) -> Map<Seq<char>, Node>
    decreases n,
{
    if n == 0 || n > times.len() || n > listings.len() {
        target
    } else {
        synced(
            source,
            resynced(
                source,
                target,
                source_listing,
                listings,
                items,
                target_name,
                times,
                retention,
                (n - 1) as nat,
            ),
            source_listing,
            listings[n - 1],
            items,
            target_name,
            times[n - 1],
            retention,
        )
    }
}

/// The position of the oldest snapshot that is left after `n` syncs:
/// the first sync takes none where the target held none of the items, and
/// no more than `retention` are kept.
pub open spec fn oldest_kept(first: int, n: int, retention: nat) -> int {
    if n - retention > first {
        n - retention
    } else {
        first
    }
}

/// Whether the name is that of a snapshot directory in the target.
pub open spec fn is_snapshot(now: Map<Seq<char>, Node>, name: Seq<char>) -> bool {
    now.contains_key(name) && now[name] is Dir && snapshot_like(name)
}

/// Whether every name in the target that is like a snapshot's holds a
/// time before `bound`.
pub open spec fn all_older(now: Map<Seq<char>, Node>, bound: u64) -> bool {
    forall|name: Seq<char>|
        #[trigger] now.contains_key(name) && snapshot_like(name) ==> backup_timestamp(name)->0
            < bound
}

/// Whether the snapshots in the target are those taken at the times from
/// position `lo` up to, but not including, position `hi`, and, as long as
/// these are fewer than the retention limit, snapshots that were there
/// from the start.
pub open spec fn holds_run(
    now: Map<Seq<char>, Node>,
    origin: Map<Seq<char>, Node>,
    times: Seq<u64>,
    lo: int,
    hi: int,
    retention: nat,
) -> bool {
    &&& forall|j: int| lo <= j < hi ==> is_snapshot(now, backup_name(#[trigger] times[j]))
    &&& forall|name: Seq<char>| #[trigger]
        is_snapshot(now, name) ==> (exists|j: int|
            lo <= j < hi && name == backup_name(#[trigger] times[j])) || (hi - lo < retention
            && is_snapshot(origin, name))
}

/// What a listing of a target that holds a run of snapshots says.
#[verifier::spinoff_prover]
#[verifier::rlimit(40)]
proof fn lemma_listed_run(
    before: Map<Seq<char>, Node>,
    origin: Map<Seq<char>, Node>,
    listing: Seq<(Seq<char>, TreeModel)>,
    times: Seq<u64>,
    retention: nat,
    lo: int,
    m: int,
)
    requires
        0 <= lo <= m < times.len(),
        forall|i: int, j: int| 0 <= i < j < times.len() ==> times[i] < times[j],
        describes(listing, before),
        holds_run(before, origin, times, lo, m, retention),
        all_older(before, times[m]),
        all_older(origin, times[0]),
    ensures
        crate::backup::ordered_snapshots(shallow(listing)).len() >= m - lo,
        forall|i: int|
            0 <= i < m - lo ==> #[trigger] crate::backup::ordered_snapshots(shallow(listing))[i]
                == crate::backup::recent(times, lo, m)[i],
        crate::backup::ordered_snapshots(shallow(listing)).no_duplicates(),
        forall|i: int|
            0 <= i < listing.len() ==> (#[trigger] shallow(listing)[i]).0 != backup_name(times[m]),
        forall|i: int|
            0 <= i < listing.len() && (#[trigger] shallow(listing)[i]).1 && backup_timestamp(
                shallow(listing)[i].0,
            ) is Some ==> backup_timestamp(shallow(listing)[i].0)->0 < times[m],
        !has_key(listing, backup_name(times[m])),
        forall|name: Seq<char>| #[trigger]
            is_snapshot(before, name) ==> crate::backup::ordered_snapshots(
                shallow(listing),
            ).contains((name, backup_timestamp(name)->0)),
        forall|p: int|
            0 <= p < crate::backup::ordered_snapshots(shallow(listing)).len() ==> is_snapshot(
                before,
                (#[trigger] crate::backup::ordered_snapshots(shallow(listing))[p]).0,
            ) && backup_timestamp(crate::backup::ordered_snapshots(shallow(listing))[p].0) == Some(
                crate::backup::ordered_snapshots(shallow(listing))[p].1,
            ),
{
    let old = shallow(listing);
    let backup = backup_name(times[m]);
    let prev = crate::backup::ordered_snapshots(old);
    lemma_backup_name_round_trip(times[m]);
    assert(crate::backup::distinct_names(old)) by {
        assert forall|i: int, j: int| 0 <= i < j < old.len() implies (#[trigger] old[i]).0 != (
        #[trigger] old[j]).0 by {
            assert(listing[i].0 != listing[j].0);
        }
    }
    assert forall|j: int| lo <= j < m implies old.contains(
        (backup_name(#[trigger] times[j]), true),
    ) by {
        let name = backup_name(times[j]);
        assert(is_snapshot(before, name));
        assert(has_key(listing, name));
        let i = choose|i: int| 0 <= i < listing.len() && (#[trigger] listing[i]).0 == name;
        assert(before[listing[i].0] is Dir);
        assert(old[i] == (name, true));
    }
    assert forall|i: int|
        0 <= i < old.len() && (#[trigger] old[i]).1 && backup_timestamp(
            old[i].0,
        ) is Some implies (exists|j: int| lo <= j < m && old[i].0 == backup_name(times[j]))
        || backup_timestamp(old[i].0)->0 < times[lo] by {
        assert(listing[i].0 == old[i].0);
        assert(has_key(listing, old[i].0));
        assert(is_snapshot(before, old[i].0));
        if !(exists|j: int| lo <= j < m && old[i].0 == backup_name(#[trigger] times[j])) {
            assert(is_snapshot(origin, old[i].0));
            assert(origin.contains_key(old[i].0));
            if 0 < lo {
                assert(times[0] < times[lo]);
            }
        } else {
            let j = choose|j: int| lo <= j < m && old[i].0 == backup_name(#[trigger] times[j]);
            assert(lo <= j < m && old[i].0 == backup_name(times[j]));
        }
    }
    crate::backup::lemma_ordered_starts_with_recent(old, times, lo, m, (m - lo) as nat);
    crate::backup::lemma_ordered_no_duplicates(old);
    assert forall|i: int| 0 <= i < old.len() implies (#[trigger] old[i]).0 != backup by {
        if old[i].0 == backup {
            assert(listing[i].0 == backup);
            assert(has_key(listing, backup));
            assert(before.contains_key(backup) && snapshot_like(backup));
        }
    }
    assert forall|i: int|
        0 <= i < old.len() && (#[trigger] old[i]).1 && backup_timestamp(
            old[i].0,
        ) is Some implies backup_timestamp(old[i].0)->0 < times[m] by {
        assert(listing[i].0 == old[i].0);
        assert(has_key(listing, old[i].0));
        assert(before.contains_key(old[i].0) && snapshot_like(old[i].0));
    }
    assert(!has_key(listing, backup)) by {
        if has_key(listing, backup) {
            let i = choose|i: int| 0 <= i < listing.len() && (#[trigger] listing[i]).0 == backup;
            assert(old[i].0 == backup);
        }
    }
    assert forall|name: Seq<char>| #[trigger] is_snapshot(before, name) implies prev.contains(
        (name, backup_timestamp(name)->0),
    ) by {
        assert(has_key(listing, name));
        let i = choose|i: int| 0 <= i < listing.len() && (#[trigger] listing[i]).0 == name;
        assert(before[listing[i].0] is Dir);
        assert(old[i] == (name, true));
        crate::backup::lemma_ordered_complete(old, i);
    }
    assert forall|p: int| 0 <= p < prev.len() implies is_snapshot(before, (#[trigger] prev[p]).0)
        && backup_timestamp(prev[p].0) == Some(prev[p].1) by {
        crate::backup::lemma_ordered_members(old, p);
        let e = choose|e: int| 0 <= e < old.len() && old[e] == (prev[p].0, true);
        assert(listing[e].0 == prev[p].0);
        assert(has_key(listing, prev[p].0));
        assert(before[listing[e].0] is Dir);
    }
}

/// What retention removes in a sync that takes a snapshot newer than all
/// in the target: the snapshots that, ordered from newest to oldest, come
/// at or after the place before the limit.
#[verifier::spinoff_prover]
#[verifier::rlimit(40)]
proof fn lemma_step_doomed(
    before: Map<Seq<char>, Node>,
    origin: Map<Seq<char>, Node>,
    listing: Seq<(Seq<char>, TreeModel)>,
    items: Seq<Seq<char>>,
    times: Seq<u64>,
    retention: nat,
    lo: int,
    m: int,
    name: Seq<char>,
)
    requires
        retention > 0,
        0 <= lo <= m < times.len(),
        forall|i: int, j: int| 0 <= i < j < times.len() ==> times[i] < times[j],
        describes(listing, before),
        holds_run(before, origin, times, lo, m, retention),
        all_older(before, times[m]),
        all_older(origin, times[0]),
        backup_plan(listing, items, times[m]) is Some,
    ensures
        prune_list(listing_after_backup(listing, items, times[m]), retention).contains(name)
            <==> exists|p: int|
            retention - 1 <= p < crate::backup::ordered_snapshots(shallow(listing)).len() && (
            #[trigger] crate::backup::ordered_snapshots(shallow(listing))[p]).0 == name,
{
    let old = shallow(listing);
    let ts = times[m];
    lemma_listed_run(before, origin, listing, times, retention, lo, m);
    let prev = crate::backup::ordered_snapshots(old);
    let entries = listing_after_backup(listing, items, ts);
    assert(entries == old.push((backup_name(ts), true)));
    crate::backup::lemma_new_snapshot_is_kept(old, ts, retention);
    let doomed = prune_list(entries, retention);
    if retention <= prev.len() {
        let tail = prev.skip(retention - 1);
        if doomed.contains(name) {
            let i = choose|i: int| 0 <= i < doomed.len() && doomed[i] == name;
            assert(tail[i] == prev[retention - 1 + i]);
            assert(prev[retention - 1 + i].0 == name);
        }
        if exists|p: int| retention - 1 <= p < prev.len() && (#[trigger] prev[p]).0 == name {
            let p = choose|p: int| retention - 1 <= p < prev.len() && (#[trigger] prev[p]).0 == name;
            assert(tail[p - (retention - 1)] == prev[p]);
            assert(doomed[p - (retention - 1)] == name);
        }
    } else {
        if doomed.contains(name) {
            let i = choose|i: int| 0 <= i < doomed.len() && doomed[i] == name;
        }
    }
}

/// What a sync that takes a snapshot newer than all in the target starts
/// from: a true listing of a target that holds a run of snapshots, all
/// older than the time of the sync.
pub open spec fn step_ready(
    before: Map<Seq<char>, Node>,
    origin: Map<Seq<char>, Node>,
    listing: Seq<(Seq<char>, TreeModel)>,
    items: Seq<Seq<char>>,
    times: Seq<u64>,
    retention: nat,
    lo: int,
    m: int,
) -> bool {
    &&& retention > 0
    &&& 0 <= lo <= m < times.len()
    &&& m - lo <= retention
    &&& forall|i: int| 0 <= i < items.len() ==> !snapshot_like(#[trigger] items[i])
    &&& forall|i: int, j: int| 0 <= i < j < times.len() ==> times[i] < times[j]
    &&& describes(listing, before)
    &&& holds_run(before, origin, times, lo, m, retention)
    &&& all_older(before, times[m])
    &&& all_older(origin, times[0])
    &&& backup_plan(listing, items, times[m]) is Some
}

/// Each snapshot of the run that the sync moves on to is left.
#[verifier::spinoff_prover]
#[verifier::rlimit(40)]
proof fn lemma_run_is_left(
    source: Map<Seq<char>, Node>,
    before: Map<Seq<char>, Node>,
    origin: Map<Seq<char>, Node>,
    source_listing: Seq<(Seq<char>, TreeModel)>,
    listing: Seq<(Seq<char>, TreeModel)>,
    items: Seq<Seq<char>>,
    target_name: Seq<char>,
    times: Seq<u64>,
    retention: nat,
    lo: int,
    m: int,
    name: Seq<char>,
)
    requires
        step_ready(before, origin, listing, items, times, retention, lo, m),
        exists|j: int|
            (if m - lo == retention {
                lo + 1
            } else {
                lo
            }) <= j < m + 1 && name == backup_name(#[trigger] times[j]),
    ensures
        is_snapshot(
            synced(
                source,
                before,
                source_listing,
                listing,
                items,
                target_name,
                times[m],
                retention,
            ),
            name,
        ),
{
    let ts = times[m];
    let backup = backup_name(ts);
    let now = synced(source, before, source_listing, listing, items, target_name, ts, retention);
    let entries = listing_after_backup(listing, items, ts);
    let doomed = prune_list(entries, retention);
    let full = m - lo == retention;
    let next = if full {
        lo + 1
    } else {
        lo
    };
    let prev = crate::backup::ordered_snapshots(shallow(listing));
    let want = crate::backup::recent(times, lo, m);
    lemma_listed_run(before, origin, listing, times, retention, lo, m);
    lemma_step_doomed(before, origin, listing, items, times, retention, lo, m, name);
    lemma_backup_name_round_trip(ts);
    if snapshot_like(name) {
        lemma_sync_snapshots(
            source,
            before,
            source_listing,
            listing,
            items,
            target_name,
            ts,
            retention,
            name,
        );
    }
    assert(!before.contains_key(backup));
    let j = choose|j: int| next <= j < m + 1 && name == backup_name(#[trigger] times[j]);
    lemma_backup_name_round_trip(times[j]);
    if j < m {
        assert(is_snapshot(before, backup_name(times[j])));
        let q = m - 1 - j;
        assert(prev[q] == want[q]);
        assert(prev[q].0 == name);
        if doomed.contains(name) {
            let p = choose|p: int|
                retention - 1 <= p < prev.len() && (#[trigger] prev[p]).0 == name;
            assert(backup_timestamp(prev[p].0) == Some(prev[p].1));
            assert(backup_timestamp(prev[q].0) == Some(prev[q].1));
            assert(prev[p] == prev[q]);
            assert(q < retention - 1);
            assert(false);
        }
    } else {
        if doomed.contains(name) {
            let p = choose|p: int|
                retention - 1 <= p < prev.len() && (#[trigger] prev[p]).0 == name;
            assert(is_snapshot(before, prev[p].0));
            assert(false);
        }
    }
}

/// Whatever snapshot is left is of the run that the sync moves on to, or
/// was there from the start.
#[verifier::spinoff_prover]
#[verifier::rlimit(40)]
proof fn lemma_left_is_of_run(
    source: Map<Seq<char>, Node>,
    before: Map<Seq<char>, Node>,
    origin: Map<Seq<char>, Node>,
    source_listing: Seq<(Seq<char>, TreeModel)>,
    listing: Seq<(Seq<char>, TreeModel)>,
    items: Seq<Seq<char>>,
    target_name: Seq<char>,
    times: Seq<u64>,
    retention: nat,
    lo: int,
    m: int,
    name: Seq<char>,
)
    requires
        step_ready(before, origin, listing, items, times, retention, lo, m),
        is_snapshot(
            synced(
                source,
                before,
                source_listing,
                listing,
                items,
                target_name,
                times[m],
                retention,
            ),
            name,
        ),
    ensures
        ({
            let next = if m - lo == retention {
                lo + 1
            } else {
                lo
            };
            (exists|j: int| next <= j < m + 1 && name == backup_name(#[trigger] times[j])) || (m
                + 1 - next < retention && is_snapshot(origin, name))
        }),
{
    let ts = times[m];
    let backup = backup_name(ts);
    let now = synced(source, before, source_listing, listing, items, target_name, ts, retention);
    let entries = listing_after_backup(listing, items, ts);
    let doomed = prune_list(entries, retention);
    let full = m - lo == retention;
    let next = if full {
        lo + 1
    } else {
        lo
    };
    let prev = crate::backup::ordered_snapshots(shallow(listing));
    let want = crate::backup::recent(times, lo, m);
    lemma_listed_run(before, origin, listing, times, retention, lo, m);
    lemma_step_doomed(before, origin, listing, items, times, retention, lo, m, name);
    lemma_backup_name_round_trip(ts);
    if snapshot_like(name) {
        lemma_sync_snapshots(
            source,
            before,
            source_listing,
            listing,
            items,
            target_name,
            ts,
            retention,
            name,
        );
    }
    assert(!before.contains_key(backup));
    if name == backup {
        assert(next <= m < m + 1 && name == backup_name(times[m]));
    } else {
        assert(is_snapshot(before, name));
        assert(prev.contains((name, backup_timestamp(name)->0)));
        let p = choose|p: int| 0 <= p < prev.len() && prev[p] == (name, backup_timestamp(name)->0);
        assert(prev[p].0 == name);
        assert(p < retention - 1);
        if exists|j: int| lo <= j < m && name == backup_name(#[trigger] times[j]) {
            let j = choose|j: int| lo <= j < m && name == backup_name(#[trigger] times[j]);
            lemma_backup_name_round_trip(times[j]);
            let q = m - 1 - j;
            assert(prev[q] == want[q]);
            assert(prev[q] == prev[p]);
            assert(q == p);
            assert(next <= j < m + 1 && name == backup_name(times[j]));
        } else {
            assert(is_snapshot(origin, name));
            assert(m - lo <= p) by {
                if p < m - lo {
                    assert(prev[p] == want[p]);
                    let j = m - 1 - p;
                    assert(lo <= j < m && name == backup_name(times[j]));
                }
            }
        }
    }
}

/// Whatever is named like a snapshot after the sync holds a time no later
/// than that of the sync.
#[verifier::spinoff_prover]
#[verifier::rlimit(40)]
proof fn lemma_left_is_older(
    source: Map<Seq<char>, Node>,
    before: Map<Seq<char>, Node>,
    origin: Map<Seq<char>, Node>,
    source_listing: Seq<(Seq<char>, TreeModel)>,
    listing: Seq<(Seq<char>, TreeModel)>,
    items: Seq<Seq<char>>,
    target_name: Seq<char>,
    times: Seq<u64>,
    retention: nat,
    lo: int,
    m: int,
    name: Seq<char>,
)
    requires
        step_ready(before, origin, listing, items, times, retention, lo, m),
    ensures
        ({
            let now = synced(
                source,
                before,
                source_listing,
                listing,
                items,
                target_name,
                times[m],
                retention,
            );
            let next = if m - lo == retention {
                lo + 1
            } else {
                lo
            };
            now.contains_key(name) && snapshot_like(name) ==> backup_timestamp(name)->0 <= times[m]
        }),
{
    let ts = times[m];
    let backup = backup_name(ts);
    let now = synced(source, before, source_listing, listing, items, target_name, ts, retention);
    lemma_backup_name_round_trip(ts);
    if snapshot_like(name) {
        lemma_sync_snapshots(
            source,
            before,
            source_listing,
            listing,
            items,
            target_name,
            ts,
            retention,
            name,
        );
    }
    if now.contains_key(name) && snapshot_like(name) {
        if name != backup {
            assert(before.contains_key(name) && snapshot_like(name));
        }
    }
}

/// Which snapshots are left after a sync that takes a snapshot newer than
/// all in the target.
#[verifier::spinoff_prover]
#[verifier::rlimit(40)]
proof fn lemma_kept_after_step(
    source: Map<Seq<char>, Node>,
    before: Map<Seq<char>, Node>,
    origin: Map<Seq<char>, Node>,
    source_listing: Seq<(Seq<char>, TreeModel)>,
    listing: Seq<(Seq<char>, TreeModel)>,
    items: Seq<Seq<char>>,
    target_name: Seq<char>,
    times: Seq<u64>,
    retention: nat,
    lo: int,
    m: int,
    name: Seq<char>,
)
    requires
        step_ready(before, origin, listing, items, times, retention, lo, m),
    ensures
        ({
            let now = synced(
                source,
                before,
                source_listing,
                listing,
                items,
                target_name,
                times[m],
                retention,
            );
            let next = if m - lo == retention {
                lo + 1
            } else {
                lo
            };
            &&& (exists|j: int| next <= j < m + 1 && name == backup_name(#[trigger] times[j]))
                ==> is_snapshot(now, name)
            &&& is_snapshot(now, name) ==> (exists|j: int|
                next <= j < m + 1 && name == backup_name(#[trigger] times[j])) || (m + 1 - next
                < retention && is_snapshot(origin, name))
            &&& now.contains_key(name) && snapshot_like(name) ==> backup_timestamp(name)->0
                <= times[m]
        }),
{
    let now = synced(
        source,
        before,
        source_listing,
        listing,
        items,
        target_name,
        times[m],
        retention,
    );
    let next = if m - lo == retention {
        lo + 1
    } else {
        lo
    };
    if exists|j: int| next <= j < m + 1 && name == backup_name(#[trigger] times[j]) {
        lemma_run_is_left(source, before, origin, source_listing, listing, items, target_name, times, retention, lo, m, name);
    }
    if is_snapshot(now, name) {
        lemma_left_is_of_run(source, before, origin, source_listing, listing, items, target_name, times, retention, lo, m, name);
    }
    lemma_left_is_older(source, before, origin, source_listing, listing, items, target_name, times, retention, lo, m, name);
}

/// One sync that takes a snapshot moves the run of kept snapshots on by
/// one time, and drops the oldest where the limit was reached.
#[verifier::spinoff_prover]
#[verifier::rlimit(40)]
proof fn lemma_retention_step(
    source: Map<Seq<char>, Node>,
    before: Map<Seq<char>, Node>,
    origin: Map<Seq<char>, Node>,
    source_listing: Seq<(Seq<char>, TreeModel)>,
    listing: Seq<(Seq<char>, TreeModel)>,
    items: Seq<Seq<char>>,
    target_name: Seq<char>,
    times: Seq<u64>,
    retention: nat,
    lo: int,
    m: int,
)
    requires
        retention > 0,
        0 <= lo <= m < times.len(),
        m - lo <= retention,
        forall|i: int| 0 <= i < items.len() ==> !snapshot_like(#[trigger] items[i]),
        forall|i: int, j: int| 0 <= i < j < times.len() ==> times[i] < times[j],
        describes(listing, before),
        holds_run(before, origin, times, lo, m, retention),
        all_older(before, times[m]),
        all_older(origin, times[0]),
        backup_plan(listing, items, times[m]) is Some,
    ensures
        ({
            let now = synced(
                source,
                before,
                source_listing,
                listing,
                items,
                target_name,
                times[m],
                retention,
            );
            &&& holds_run(
                now,
                origin,
                times,
                if m - lo == retention {
                    lo + 1
                } else {
                    lo
                },
                m + 1,
                retention,
            )
            &&& forall|name: Seq<char>|
                #[trigger] now.contains_key(name) && snapshot_like(name) ==> backup_timestamp(
                    name,
                )->0 <= times[m]
        }),
{
    let now = synced(
        source,
        before,
        source_listing,
        listing,
        items,
        target_name,
        times[m],
        retention,
    );
    let next = if m - lo == retention {
        lo + 1
    } else {
        lo
    };
    assert forall|j: int| next <= j < m + 1 implies is_snapshot(
        now,
        backup_name(#[trigger] times[j]),
    ) by {
        lemma_kept_after_step(
            source,
            before,
            origin,
            source_listing,
            listing,
            items,
            target_name,
            times,
            retention,
            lo,
            m,
            backup_name(times[j]),
        );
    }
    assert forall|name: Seq<char>| #[trigger] is_snapshot(now, name) implies (exists|j: int|
        next <= j < m + 1 && name == backup_name(#[trigger] times[j])) || (m + 1 - next < retention
        && is_snapshot(origin, name)) by {
        lemma_kept_after_step(
            source,
            before,
            origin,
            source_listing,
            listing,
            items,
            target_name,
            times,
            retention,
            lo,
            m,
            name,
        );
    }
    assert forall|name: Seq<char>|
        #[trigger] now.contains_key(name) && snapshot_like(name) implies backup_timestamp(name)->0
        <= times[m] by {
        lemma_kept_after_step(
            source,
            before,
            origin,
            source_listing,
            listing,
            items,
            target_name,
            times,
            retention,
            lo,
            m,
            name,
        );
    }
}

#[verifier::spinoff_prover]
#[verifier::rlimit(40)]
proof fn lemma_retention_invariant(
    source: Map<Seq<char>, Node>,
    target: Map<Seq<char>, Node>,
    source_listing: Seq<(Seq<char>, TreeModel)>,
    listings: Seq<Seq<(Seq<char>, TreeModel)>>,
    items: Seq<Seq<char>>,
    target_name: Seq<char>,
    times: Seq<u64>,
    retention: nat,
    first: int,
    n: nat,
)
    requires
        retention > 0,
        n <= times.len(),
        listings.len() == times.len(),
        items.len() > 0,
        forall|i: int|
            0 <= i < items.len() ==> source.contains_key(#[trigger] items[i]) && !snapshot_like(
                items[i],
            ),
        times.len() > 0 ==> all_older(target, times[0]),
        forall|i: int, j: int| 0 <= i < j < times.len() ==> times[i] < times[j],
        forall|m: int|
            0 <= m < times.len() ==> describes(
                #[trigger] listings[m],
                resynced(
                    source,
                    target,
                    source_listing,
                    listings,
                    items,
                    target_name,
                    times,
                    retention,
                    m as nat,
                ),
            ),
        first == (if exists|i: int| 0 <= i < items.len() && target.contains_key(#[trigger] items[i]) {
            0int
        } else {
            1int
        }),
    ensures
        ({
            let now = resynced(
                source,
                target,
                source_listing,
                listings,
                items,
                target_name,
                times,
                retention,
                n,
            );
            &&& holds_run(
                now,
                target,
                times,
                oldest_kept(first, n as int, retention),
                n as int,
                retention,
            )
            &&& n < times.len() ==> all_older(now, times[n as int])
            &&& n >= 1 ==> forall|i: int| 0 <= i < items.len() ==> now.contains_key(#[trigger] items[i])
        }),
    decreases n,
{
    if n == 0 {
    } else {
        let m = (n - 1) as nat;
        lemma_retention_invariant(
            source,
            target,
            source_listing,
            listings,
            items,
            target_name,
            times,
            retention,
            first,
            m,
        );
        let before = resynced(
            source,
            target,
            source_listing,
            listings,
            items,
            target_name,
            times,
            retention,
            m,
        );
        let listing = listings[m as int];
        let ts = times[m as int];
        let backup = backup_name(ts);
        let now = synced(
            source,
            before,
            source_listing,
            listing,
            items,
            target_name,
            ts,
            retention,
        );
        let lo0 = oldest_kept(first, m as int, retention);
        let taken = backup_plan(listing, items, ts) is Some;
        assert(describes(listing, before));
        assert(all_older(target, times[0]));
        lemma_backup_actions_len(listing, items, backup, items.len());
        assert(taken <==> (m >= 1 || first == 0)) by {
            if taken {
                let i = choose|i: int| 0 <= i < items.len() && has_key(listing, #[trigger] items[i]);
                assert(before.contains_key(items[i]));
            }
            if m >= 1 {
                assert(before.contains_key(items[0]));
                assert(has_key(listing, items[0]));
            }
            if m == 0 && first == 0 {
                let i = choose|i: int| 0 <= i < items.len() && target.contains_key(#[trigger] items[i]);
                assert(has_key(listing, items[i]));
            }
        }
        if taken {
            lemma_retention_step(
                source,
                before,
                target,
                source_listing,
                listing,
                items,
                target_name,
                times,
                retention,
                lo0,
                m as int,
            );
            if n < times.len() {
                assert(times[m as int] < times[n as int]);
            }
        } else {
            assert forall|name: Seq<char>|
                snapshot_like(name) && #[trigger] now.contains_key(
                    name,
                ) implies before.contains_key(name) && (now[name] is Dir == before[name] is Dir) by {
                lemma_sync_snapshots(
                    source,
                    before,
                    source_listing,
                    listing,
                    items,
                    target_name,
                    ts,
                    retention,
                    name,
                );
            }
            assert forall|name: Seq<char>| #[trigger] is_snapshot(now, name) implies is_snapshot(
                target,
                name,
            ) by {}
            if n < times.len() {
                assert(times[0] < times[n as int]);
                assert forall|name: Seq<char>|
                    #[trigger] now.contains_key(name) && snapshot_like(
                        name,
                    ) implies backup_timestamp(name)->0 < times[n as int] by {
                    assert(before.contains_key(name) && snapshot_like(name));
                }
            }
        }
        assert forall|i: int| 0 <= i < items.len() implies now.contains_key(#[trigger] items[i]) by {
            assert(items.contains(items[i]));
            lemma_sync_copies_items(
                source,
                before,
                source_listing,
                listing,
                items,
                target_name,
                ts,
                retention,
                items[i],
            );
        }
    }
}

/// The retention bound. Let the same items be synced from the same source
/// to a target at a series of rising times that is longer than the
/// retention limit, each sync planned from a listing of the target as it
/// then is, the first at a time later than that of any snapshot the target
/// holds. Then the snapshot directories in the target at the end are
/// exactly those taken at the last `retention` times, and these are
/// `retention` different directories.
#[verifier::spinoff_prover]
#[verifier::rlimit(40)]
pub proof fn lemma_retention_bound(
    source: Map<Seq<char>, Node>,
    target: Map<Seq<char>, Node>,
    source_listing: Seq<(Seq<char>, TreeModel)>,
    listings: Seq<Seq<(Seq<char>, TreeModel)>>,
    items: Seq<Seq<char>>,
    target_name: Seq<char>,
    times: Seq<u64>,
    retention: nat,
)
    requires
        0 < retention < times.len(),
        listings.len() == times.len(),
        items.len() > 0,
        forall|i: int|
            0 <= i < items.len() ==> source.contains_key(#[trigger] items[i]) && !snapshot_like(
                items[i],
            ),
        all_older(target, times[0]),
        forall|i: int, j: int| 0 <= i < j < times.len() ==> times[i] < times[j],
        forall|m: int|
            0 <= m < times.len() ==> describes(
                #[trigger] listings[m],
                resynced(
                    source,
                    target,
                    source_listing,
                    listings,
                    items,
                    target_name,
                    times,
                    retention,
                    m as nat,
                ),
            ),
    ensures
        ({
            let last = resynced(
                source,
                target,
                source_listing,
                listings,
                items,
                target_name,
                times,
                retention,
                times.len(),
            );
            &&& forall|name: Seq<char>| #[trigger]
                is_snapshot(last, name) <==> exists|j: int|
                    times.len() - retention <= j < times.len() && name == backup_name(
                        #[trigger] times[j],
                    )
            &&& forall|i: int, j: int|
                0 <= i < j < times.len() ==> backup_name(times[i]) != backup_name(times[j])
        }),
{
    let first = if exists|i: int| 0 <= i < items.len() && target.contains_key(#[trigger] items[i]) {
        0int
    } else {
        1int
    };
    lemma_retention_invariant(
        source,
        target,
        source_listing,
        listings,
        items,
        target_name,
        times,
        retention,
        first,
        times.len(),
    );
    let last = resynced(
        source,
        target,
        source_listing,
        listings,
        items,
        target_name,
        times,
        retention,
        times.len(),
    );
    let lo = times.len() - retention;
    assert(oldest_kept(first, times.len() as int, retention) == lo);
    assert forall|name: Seq<char>| #[trigger] is_snapshot(last, name) <==> exists|j: int|
        lo <= j < times.len() && name == backup_name(#[trigger] times[j]) by {
        if exists|j: int| lo <= j < times.len() && name == backup_name(#[trigger] times[j]) {
            let j = choose|j: int| lo <= j < times.len() && name == backup_name(#[trigger] times[j]);
            assert(is_snapshot(last, backup_name(times[j])));
        }
    }
    assert forall|i: int, j: int| 0 <= i < j < times.len() implies backup_name(times[i])
        != backup_name(times[j]) by {
        lemma_backup_name_round_trip(times[i]);
        lemma_backup_name_round_trip(times[j]);
    }
}

} // verus!
