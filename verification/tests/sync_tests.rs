use bn_loader::backup::{cleanup_old_backups, snapshot_name, DirEntry, BACKUP_PREFIX};
use bn_loader::config::default_exclusions;
use bn_loader::exclude::{build_glob_set, is_excluded, PatternError};
use bn_loader::fs::{copy_dir_recursive, find_entry, FsOp, Location, Root, Tree, TreeEntry};
use bn_loader::report::{diff_settings, Segment, Style};
use bn_loader::sync::{
    collect_sync_items, create_backup, snapshot_due, sync_items, sync_to_target, Action, Message,
};
use std::collections::BTreeMap;

// A directory tree held in memory, on which planned operations are carried out.
#[derive(Clone, Debug, PartialEq)]
enum Node {
    File(String),
    Dir(BTreeMap<String, Node>),
}

fn file(content: &str) -> Node {
    Node::File(content.to_string())
}

fn dir(entries: Vec<(&str, Node)>) -> Node {
    Node::Dir(entries.into_iter().map(|(k, v)| (k.to_string(), v)).collect())
}

fn shape(node: &Node) -> Tree {
    match node {
        Node::File(_) => Tree::File,
        Node::Dir(entries) => Tree::Dir(listing(entries)),
    }
}

fn listing(entries: &BTreeMap<String, Node>) -> Vec<TreeEntry> {
    entries.iter().map(|(k, v)| TreeEntry { name: k.clone(), node: shape(v) }).collect()
}

fn listing_of(node: &Node) -> Vec<TreeEntry> {
    match node {
        Node::Dir(entries) => listing(entries),
        Node::File(_) => panic!("not a directory"),
    }
}

fn get<'a>(node: &'a Node, parts: &[String]) -> Option<&'a Node> {
    match parts.split_first() {
        None => Some(node),
        Some((first, rest)) => match node {
            Node::Dir(entries) => entries.get(first).and_then(|n| get(n, rest)),
            Node::File(_) => None,
        },
    }
}

fn get_mut<'a>(node: &'a mut Node, parts: &[String]) -> Option<&'a mut Node> {
    match parts.split_first() {
        None => Some(node),
        Some((first, rest)) => match node {
            Node::Dir(entries) => entries.get_mut(first).and_then(|n| get_mut(n, rest)),
            Node::File(_) => None,
        },
    }
}

fn create_dir_all(node: &mut Node, parts: &[String]) -> Result<(), String> {
    match parts.split_first() {
        None => match node {
            Node::Dir(_) => Ok(()),
            Node::File(_) => Err("a file is in the way".to_string()),
        },
        Some((first, rest)) => match node {
            Node::Dir(entries) => {
                let next = entries.entry(first.clone()).or_insert_with(|| Node::Dir(BTreeMap::new()));
                create_dir_all(next, rest)
            }
            Node::File(_) => Err("a file is in the way".to_string()),
        },
    }
}

fn carry_out(op: &FsOp, source: &Node, target: &mut Node) -> Result<(), String> {
    match op {
        FsOp::Clear(at) => {
            assert_eq!(at.root, Root::Target);
            let (last, holder) = at.parts.split_last().unwrap();
            if let Some(Node::Dir(entries)) = get_mut(target, holder) {
                if let Some(found) = entries.get(last) {
                    if let Node::File(_) = found {
                        return Err("not a directory".to_string());
                    }
                    entries.remove(last);
                }
            }
            Ok(())
        }
        FsOp::CreateDirAll(at) => {
            assert_eq!(at.root, Root::Target);
            create_dir_all(target, &at.parts)
        }
        FsOp::CopyFile { from, to } => {
            assert_eq!(to.root, Root::Target);
            let found = match from.root {
                Root::Source => get(source, &from.parts).cloned(),
                Root::Target => get(target, &from.parts).cloned(),
            };
            let content = match found {
                Some(Node::File(c)) => c,
                _ => return Err("no such file".to_string()),
            };
            let (last, holder) = to.parts.split_last().unwrap();
            match get_mut(target, holder) {
                Some(Node::Dir(entries)) => {
                    if let Some(Node::Dir(_)) = entries.get(last) {
                        return Err("a directory is in the way".to_string());
                    }
                    entries.insert(last.clone(), Node::File(content));
                    Ok(())
                }
                _ => Err("no such directory".to_string()),
            }
        }
    }
}

fn ops_of(action: &Action) -> &[FsOp] {
    match action {
        Action::Announce(_) => &[],
        Action::MakeBackupDir { ops, .. } => ops,
        Action::BackupItem { ops, .. } => ops,
        Action::CopyItem { ops, .. } => ops,
        Action::Prune { ops, .. } => ops,
    }
}

fn run(actions: &[Action], source: &Node, target: &mut Node) {
    for action in actions {
        for op in ops_of(action) {
            carry_out(op, source, target).unwrap();
        }
    }
}

fn sync(source: &Node, target: &mut Node, items: &Vec<String>, time: u64, retention: usize) {
    let actions =
        sync_to_target(&listing_of(source), &listing_of(target), items, "work", time, retention);
    run(&actions, source, target);
}

fn snapshots_in(target: &Node) -> Vec<String> {
    match target {
        Node::Dir(entries) => {
            entries.keys().filter(|k| k.starts_with(BACKUP_PREFIX)).cloned().collect()
        }
        Node::File(_) => vec![],
    }
}

fn strings(names: &[&str]) -> Vec<String> {
    names.iter().map(|s| s.to_string()).collect()
}

fn at(root: Root, parts: &[&str]) -> Location {
    Location { root, parts: strings(parts) }
}

fn source_profile() -> Node {
    dir(vec![
        (
            "plugins",
            dir(vec![
                ("alpha", dir(vec![("plugin.json", file("{\"name\": \"Alpha\"}")), ("main.py", file("a"))])),
                ("loose.py", file("l")),
            ]),
        ),
        ("settings.json", file("{\"theme\": \"dark\", \"font\": 12}")),
        ("license.dat", file("secret")),
        ("notes.txt", file("n")),
    ])
}

#[test]
fn the_catalog_is_fixed_and_ordered() {
    assert_eq!(
        sync_items(),
        strings(&[
            "plugins",
            "repositories",
            "signatures",
            "themes",
            "snippets",
            "types",
            "settings.json",
            "startup.py",
            "keybindings.json"
        ])
    );
}

#[test]
fn the_plan_keeps_catalog_order() {
    let source = dir(vec![
        ("keybindings.json", file("k")),
        ("settings.json", file("s")),
        ("themes", dir(vec![])),
        ("plugins", dir(vec![])),
        ("unknown", file("u")),
    ]);
    let set = build_glob_set(&default_exclusions()).unwrap();
    let items = collect_sync_items(&listing_of(&source), &set);
    assert_eq!(items, strings(&["plugins", "themes", "settings.json", "keybindings.json"]));
}

#[test]
fn an_excluded_item_is_never_planned() {
    let source = source_profile();
    let set = build_glob_set(&default_exclusions()).unwrap();
    assert!(is_excluded(&set, "license.dat"));
    assert!(is_excluded(&set, "cache.pyc"));
    assert!(!is_excluded(&set, "plugins"));
    let items = collect_sync_items(&listing_of(&source), &set);
    assert_eq!(items, strings(&["plugins", "settings.json"]));
    let mut patterns = default_exclusions();
    patterns.push("settings.*".to_string());
    patterns.push("nothing".to_string());
    let set = build_glob_set(&patterns).unwrap();
    let items = collect_sync_items(&listing_of(&source), &set);
    assert_eq!(items, strings(&["plugins"]));
    assert!(is_excluded(&set, "license.dat"));
    let set = build_glob_set(&strings(&["plug?ns", "[st]hemes"])).unwrap();
    assert!(is_excluded(&set, "plugins"));
    assert!(is_excluded(&set, "themes"));
    assert!(!is_excluded(&set, "hemes"));
}

#[test]
fn an_empty_pattern_list_excludes_nothing() {
    let set = build_glob_set(&vec![]).unwrap();
    assert!(!is_excluded(&set, "plugins"));
    assert!(!is_excluded(&set, ""));
}

#[test]
fn a_malformed_pattern_fails_the_build() {
    let patterns = strings(&["*.pyc", "[abc", "{a,b"]);
    match build_glob_set(&patterns) {
        Err(e) => {
            match &e {
                PatternError::Invalid { index, pattern, .. } => {
                    assert_eq!(*index, 1);
                    assert_eq!(pattern, "[abc");
                }
                other => panic!("unexpected error {:?}", other),
            }
            assert!(e.message().starts_with("Invalid glob pattern '[abc': "));
        }
        Ok(_) => panic!("the pattern should not compile"),
    }
}

#[test]
fn mirroring_clears_creates_and_copies_in_depth() {
    let tree = match shape(source_profile().get_plugins()) {
        Tree::Dir(entries) => entries,
        Tree::File => panic!("not a directory"),
    };
    let ops = copy_dir_recursive(&at(Root::Source, &["plugins"]), &at(Root::Target, &["plugins"]), &tree);
    assert_eq!(
        ops,
        vec![
            FsOp::Clear(at(Root::Target, &["plugins"])),
            FsOp::CreateDirAll(at(Root::Target, &["plugins"])),
            FsOp::Clear(at(Root::Target, &["plugins", "alpha"])),
            FsOp::CreateDirAll(at(Root::Target, &["plugins", "alpha"])),
            FsOp::CopyFile {
                from: at(Root::Source, &["plugins", "alpha", "main.py"]),
                to: at(Root::Target, &["plugins", "alpha", "main.py"]),
            },
            FsOp::CopyFile {
                from: at(Root::Source, &["plugins", "alpha", "plugin.json"]),
                to: at(Root::Target, &["plugins", "alpha", "plugin.json"]),
            },
            FsOp::CopyFile {
                from: at(Root::Source, &["plugins", "loose.py"]),
                to: at(Root::Target, &["plugins", "loose.py"]),
            },
        ]
    );
}

trait Plugins {
    fn get_plugins(&self) -> &Node;
}

impl Plugins for Node {
    fn get_plugins(&self) -> &Node {
        get(self, &["plugins".to_string()]).unwrap()
    }
}

#[test]
fn mirroring_leaves_no_stale_files() {
    let source = dir(vec![("plugins", dir(vec![("new.py", file("n"))]))]);
    let mut target = dir(vec![("plugins", dir(vec![("old.py", file("o")), ("new.py", file("x"))]))]);
    sync(&source, &mut target, &strings(&["plugins"]), 10, 0);
    assert_eq!(target.get_plugins(), source.get_plugins());
}

#[test]
fn entries_are_found_by_name() {
    let entries = listing_of(&source_profile());
    let i = find_entry(&entries, &"settings.json".to_string()).unwrap();
    assert_eq!(entries[i].name, "settings.json");
    assert_eq!(find_entry(&entries, &"absent".to_string()), None);
}

#[test]
fn a_snapshot_is_named_after_its_time() {
    assert_eq!(BACKUP_PREFIX, ".bn-loader-backup-");
    assert_eq!(snapshot_name(0), ".bn-loader-backup-0");
    assert_eq!(snapshot_name(1700000000), ".bn-loader-backup-1700000000");
    assert_eq!(snapshot_name(u64::MAX), ".bn-loader-backup-18446744073709551615");
}

fn entry(name: &str, is_dir: bool) -> DirEntry {
    DirEntry { name: name.to_string(), is_dir }
}

#[test]
fn retention_removes_the_oldest_snapshots() {
    let entries = vec![
        entry(".bn-loader-backup-300", true),
        entry("plugins", true),
        entry(".bn-loader-backup-100", true),
        entry(".bn-loader-backup-500", true),
        entry(".bn-loader-backup-200", true),
        entry(".bn-loader-backup-400", true),
    ];
    assert_eq!(
        cleanup_old_backups(&entries, 2),
        strings(&[".bn-loader-backup-300", ".bn-loader-backup-200", ".bn-loader-backup-100"])
    );
    assert_eq!(cleanup_old_backups(&entries, 4), strings(&[".bn-loader-backup-100"]));
    assert!(cleanup_old_backups(&entries, 5).is_empty());
    assert!(cleanup_old_backups(&entries, 9).is_empty());
}

#[test]
fn a_retention_of_zero_keeps_every_snapshot() {
    let entries = vec![entry(".bn-loader-backup-1", true), entry(".bn-loader-backup-2", true)];
    assert!(cleanup_old_backups(&entries, 0).is_empty());
}

#[test]
fn only_snapshot_directories_count() {
    let entries = vec![
        entry(".bn-loader-backup-10", false),
        entry(".bn-loader-backup-", true),
        entry(".bn-loader-backup-abc", true),
        entry(".bn-loader-backup-12x", true),
        entry(".bn-loader-backup--5", true),
        entry("x.bn-loader-backup-7", true),
        entry(".bn-loader-backup-99999999999999999999999", true),
        entry(".bn-loader-backup-5", true),
        entry(".bn-loader-backup-+6", true),
        entry(".bn-loader-backup-007", true),
    ];
    assert_eq!(
        cleanup_old_backups(&entries, 1),
        strings(&[".bn-loader-backup-+6", ".bn-loader-backup-5"])
    );
}

#[test]
fn snapshots_of_the_same_time_keep_their_order() {
    let entries = vec![
        entry(".bn-loader-backup-5", true),
        entry(".bn-loader-backup-05", true),
        entry(".bn-loader-backup-9", true),
        entry(".bn-loader-backup-005", true),
    ];
    assert_eq!(
        cleanup_old_backups(&entries, 1),
        strings(&[".bn-loader-backup-5", ".bn-loader-backup-05", ".bn-loader-backup-005"])
    );
}

#[test]
fn nothing_is_saved_from_an_empty_target() {
    let target = dir(vec![("other", file("o"))]);
    let plan = create_backup(&listing_of(&target), &strings(&["plugins", "settings.json"]), 7);
    assert_eq!(plan, None);
}

#[test]
fn a_snapshot_is_due_when_the_target_has_an_item() {
    let items = strings(&["plugins", "settings.json"]);
    assert!(!snapshot_due(&listing_of(&dir(vec![("other", file("o"))])), &items));
    assert!(snapshot_due(&listing_of(&dir(vec![("settings.json", file("o"))])), &items));
    assert!(!snapshot_due(&listing_of(&dir(vec![("settings.json", file("o"))])), &vec![]));
}

#[test]
fn only_what_the_target_has_is_saved() {
    let target = dir(vec![("settings.json", file("old"))]);
    let plan = create_backup(&listing_of(&target), &strings(&["plugins", "settings.json"]), 7)
        .unwrap();
    assert_eq!(plan.name, ".bn-loader-backup-7");
    assert_eq!(
        plan.actions,
        vec![
            Action::MakeBackupDir {
                name: ".bn-loader-backup-7".to_string(),
                ops: vec![FsOp::CreateDirAll(at(Root::Target, &[".bn-loader-backup-7"]))],
            },
            Action::BackupItem {
                backup: ".bn-loader-backup-7".to_string(),
                item: "settings.json".to_string(),
                is_dir: false,
                ops: vec![
                    FsOp::CreateDirAll(at(Root::Target, &[".bn-loader-backup-7"])),
                    FsOp::CopyFile {
                        from: at(Root::Target, &["settings.json"]),
                        to: at(Root::Target, &[".bn-loader-backup-7", "settings.json"]),
                    },
                ],
            },
        ]
    );
}

#[test]
fn a_sync_saves_copies_and_then_prunes() {
    let source = dir(vec![("settings.json", file("new"))]);
    let target = dir(vec![
        ("settings.json", file("old")),
        (".bn-loader-backup-1", dir(vec![])),
        (".bn-loader-backup-2", dir(vec![])),
    ]);
    let actions = sync_to_target(
        &listing_of(&source),
        &listing_of(&target),
        &strings(&["settings.json"]),
        "work",
        3,
        2,
    );
    let kinds: Vec<String> = actions
        .iter()
        .map(|a| match a {
            Action::Announce(Message::Syncing { target }) => format!("syncing {}", target),
            Action::Announce(Message::BackupCreated { name }) => format!("created {}", name),
            Action::Announce(Message::Copied { item }) => format!("copied {}", item),
            Action::MakeBackupDir { name, .. } => format!("mkdir {}", name),
            Action::BackupItem { item, .. } => format!("save {}", item),
            Action::CopyItem { item, .. } => format!("copy {}", item),
            Action::Prune { name, .. } => format!("prune {}", name),
        })
        .collect();
    assert_eq!(
        kinds,
        vec![
            "syncing work",
            "mkdir .bn-loader-backup-3",
            "save settings.json",
            "created .bn-loader-backup-3",
            "copy settings.json",
            "copied settings.json",
            "prune .bn-loader-backup-1",
        ]
    );
    assert_eq!(
        actions[4],
        Action::CopyItem {
            item: "settings.json".to_string(),
            is_dir: false,
            ops: vec![
                FsOp::CreateDirAll(at(Root::Target, &[])),
                FsOp::CopyFile {
                    from: at(Root::Source, &["settings.json"]),
                    to: at(Root::Target, &["settings.json"]),
                },
            ],
        }
    );
    assert_eq!(
        actions[6],
        Action::Prune {
            name: ".bn-loader-backup-1".to_string(),
            ops: vec![FsOp::Clear(at(Root::Target, &[".bn-loader-backup-1"]))],
        }
    );
}

#[test]
fn end_to_end_sync_of_plugins_and_settings() {
    let source = source_profile();
    let before = "{\"theme\": \"light\", \"font\": 12, \"extra\": true}";
    let mut target = dir(vec![("settings.json", file(before)), ("user.id", file("me"))]);
    let set = build_glob_set(&default_exclusions()).unwrap();
    let items = collect_sync_items(&listing_of(&source), &set);
    assert_eq!(items, strings(&["plugins", "settings.json"]));
    sync(&source, &mut target, &items, 1000, 5);
    let backup = get(&target, &strings(&[".bn-loader-backup-1000"])).unwrap();
    assert_eq!(backup, &dir(vec![("settings.json", file(before))]));
    for item in &items {
        assert_eq!(get(&target, &[item.clone()]), get(&source, &[item.clone()]));
    }
    assert_eq!(get(&target, &strings(&["user.id"])), Some(&file("me")));
    assert_eq!(get(&target, &strings(&["license.dat"])), None);
    let after = match get(&target, &strings(&["settings.json"])).unwrap() {
        Node::File(content) => content.clone(),
        Node::Dir(_) => panic!("not a file"),
    };
    let source_settings = "{\"theme\": \"dark\", \"font\": 12}";
    assert_eq!(
        diff_settings("before", Some(before), "after", Some(&after)),
        diff_settings("before", Some(before), "after", Some(source_settings))
    );
    assert_eq!(
        diff_settings("before", Some(before), "after", Some(&after)),
        vec![
            Segment { style: Style::Bold, text: "=== Settings ===".to_string(), ends_line: true },
            Segment {
                style: Style::Plain,
                text: "  2 differences found:\n".to_string(),
                ends_line: true
            },
            Segment {
                style: Style::Removed,
                text: "  - extra (only in first)".to_string(),
                ends_line: true
            },
            Segment {
                style: Style::Changed,
                text: "  ~ theme : \"light\" -> \"dark\"".to_string(),
                ends_line: true
            },
        ]
    );
}

#[test]
fn syncing_twice_changes_nothing() {
    let source = source_profile();
    let mut target = dir(vec![("settings.json", file("{}")), ("keep", file("k"))]);
    let items = strings(&["plugins", "settings.json"]);
    sync(&source, &mut target, &items, 1000, 5);
    let once = target.clone();
    sync(&source, &mut target, &items, 2000, 5);
    let second = get(&target, &strings(&[".bn-loader-backup-2000"])).unwrap();
    let expected: BTreeMap<String, Node> = items
        .iter()
        .map(|item| (item.clone(), get(&once, &[item.clone()]).unwrap().clone()))
        .collect();
    assert_eq!(second, &Node::Dir(expected));
    for item in &items {
        assert_eq!(get(&target, &[item.clone()]), get(&once, &[item.clone()]));
    }
    assert_eq!(get(&target, &strings(&["keep"])), Some(&file("k")));
    assert_eq!(
        get(&target, &strings(&[".bn-loader-backup-1000"])),
        get(&once, &strings(&[".bn-loader-backup-1000"]))
    );
}

#[test]
fn retention_bounds_the_snapshots_after_many_syncs() {
    let source = source_profile();
    let mut target = dir(vec![("settings.json", file("{}"))]);
    let items = strings(&["plugins", "settings.json"]);
    for time in [100u64, 200, 300, 400, 500] {
        sync(&source, &mut target, &items, time, 2);
    }
    assert_eq!(
        snapshots_in(&target),
        strings(&[".bn-loader-backup-400", ".bn-loader-backup-500"])
    );
    let mut fresh = dir(vec![]);
    for time in [100u64, 200, 300, 400] {
        sync(&source, &mut fresh, &items, time, 3);
    }
    assert_eq!(
        snapshots_in(&fresh),
        strings(&[".bn-loader-backup-200", ".bn-loader-backup-300", ".bn-loader-backup-400"])
    );
    let mut unlimited = dir(vec![("settings.json", file("{}"))]);
    for time in [1u64, 2, 3, 4] {
        sync(&source, &mut unlimited, &items, time, 0);
    }
    assert_eq!(snapshots_in(&unlimited).len(), 4);
}
