use bn_loader::plugins::{
    list_plugins, read_manual_plugins, read_plugin_metadata, read_repo_plugins, sort_plugins,
    Manifest, PluginDir, PluginError, PluginInfo, PluginMeta, PluginSource, PluginsDir, RepoPlugin,
    Repository, INSTALLED_BIT,
};
use bn_loader::report::{diff_plugins, diff_profiles, print_plugin_line, print_plugins, Segment, Style};

fn record(name: &str, path: &str, status: u32) -> RepoPlugin {
    RepoPlugin {
        name: Some(name.to_string()),
        version: Some("1.0".to_string()),
        author: None,
        path: Some(path.to_string()),
        plugin_status: status,
    }
}

fn plugin(dir: &str, name: Option<&str>, version: Option<&str>, source: PluginSource) -> PluginInfo {
    PluginInfo {
        dir_name: dir.to_string(),
        name: name.map(|s| s.to_string()),
        version: version.map(|s| s.to_string()),
        author: None,
        source,
    }
}

fn names(plugins: &[PluginInfo]) -> Vec<String> {
    plugins.iter().map(|p| p.name.clone().unwrap_or(p.dir_name.clone())).collect()
}

fn plain(text: &str) -> Segment {
    Segment { style: Style::Plain, text: text.to_string(), ends_line: true }
}

fn styled(style: Style, text: &str) -> Segment {
    Segment { style, text: text.to_string(), ends_line: true }
}

#[test]
fn the_installed_bit_decides() {
    assert_eq!(INSTALLED_BIT, 2);
    let repos = vec![Repository {
        plugins: vec![
            record("three", "dir3", 3),
            record("one", "dir1", 1),
            record("two", "dir2", 2),
            record("zero", "dir0", 0),
            record("four", "dir4", 4),
            record("six", "dir6", 6),
            record("all", "pall", u32::MAX),
            record("all_but", "pallbut", u32::MAX - 2),
        ],
    }];
    let found = read_repo_plugins(&repos);
    assert_eq!(names(&found), vec!["three", "two", "six", "all"]);
}

#[test]
fn the_first_repository_is_official() {
    let repos = vec![
        Repository { plugins: vec![record("a", "pa", 2)] },
        Repository { plugins: vec![record("b", "pb", 2)] },
        Repository { plugins: vec![record("c", "pc", 2), record("d", "pd", 1)] },
    ];
    let found = read_repo_plugins(&repos);
    assert_eq!(found.len(), 3);
    assert_eq!(found[0].source, PluginSource::Official);
    assert_eq!(found[1].source, PluginSource::Community);
    assert_eq!(found[2].source, PluginSource::Community);
    assert_eq!(found[0].dir_name, "pa");
    assert_eq!(found[0].version, Some("1.0".to_string()));
}

#[test]
fn a_record_without_a_path_has_an_empty_directory() {
    let repos = vec![Repository {
        plugins: vec![RepoPlugin {
            name: None,
            version: None,
            author: None,
            path: None,
            plugin_status: 2,
        }],
    }];
    let found = read_repo_plugins(&repos);
    assert_eq!(found[0].dir_name, "");
    assert_eq!(found[0].name, None);
}

#[test]
fn metadata_fills_a_manual_plugin() {
    let meta = PluginMeta {
        name: Some("Nice".to_string()),
        version: Some("2.1".to_string()),
        author: Some("Me".to_string()),
    };
    let p = read_plugin_metadata("dir", Some(&meta));
    assert_eq!(p.dir_name, "dir");
    assert_eq!(p.name, Some("Nice".to_string()));
    assert_eq!(p.version, Some("2.1".to_string()));
    assert_eq!(p.author, Some("Me".to_string()));
    assert_eq!(p.source, PluginSource::Manual);
    let bare = read_plugin_metadata("dir", None);
    assert_eq!(bare, plugin("dir", None, None, PluginSource::Manual));
}

#[test]
fn only_directories_are_manual_plugins() {
    let dirs = vec![
        PluginDir { dir_name: "a".to_string(), is_dir: true, meta: None },
        PluginDir { dir_name: "readme.txt".to_string(), is_dir: false, meta: None },
        PluginDir { dir_name: "b".to_string(), is_dir: true, meta: None },
    ];
    let found = read_manual_plugins(&dirs);
    assert_eq!(names(&found), vec!["a", "b"]);
}

#[test]
fn plugins_are_ordered_by_name_without_regard_to_case() {
    let plugins = vec![
        plugin("z", Some("zeta"), None, PluginSource::Manual),
        plugin("b", Some("Beta"), None, PluginSource::Manual),
        plugin("alpha", None, None, PluginSource::Manual),
        plugin("g", Some("GAMMA"), None, PluginSource::Official),
        plugin("b2", Some("beta"), None, PluginSource::Community),
        plugin("b3", Some("BETA"), None, PluginSource::Community),
    ];
    let sorted = sort_plugins(&plugins);
    assert_eq!(names(&sorted), vec!["alpha", "Beta", "beta", "BETA", "GAMMA", "zeta"]);
    let dirs: Vec<&str> = sorted.iter().map(|p| p.dir_name.as_str()).collect();
    assert_eq!(dirs, vec!["alpha", "b", "b2", "b3", "g", "z"]);
}

#[test]
fn the_inventory_joins_and_orders_both_sources() {
    let dir = PluginsDir::Listed(vec![
        PluginDir { dir_name: "mine".to_string(), is_dir: true, meta: None },
        PluginDir {
            dir_name: "other".to_string(),
            is_dir: true,
            meta: Some(PluginMeta { name: Some("Aardvark".to_string()), version: None, author: None }),
        },
    ]);
    let manifest = Manifest::Parsed(vec![Repository {
        plugins: vec![record("Cat", "cat", 3), record("Dog", "dog", 1)],
    }]);
    let found = list_plugins(&dir, &manifest).unwrap();
    assert_eq!(names(&found), vec!["Aardvark", "Cat", "mine"]);
    let none = list_plugins(&PluginsDir::Absent, &Manifest::Absent).unwrap();
    assert!(none.is_empty());
}

#[test]
fn a_failure_stops_the_listing() {
    let listed = PluginsDir::Listed(vec![]);
    let parsed = Manifest::Parsed(vec![]);
    let bad_manifest = Manifest::Malformed { detail: "expected value".to_string() };
    let unread_manifest = Manifest::Unreadable { detail: "denied".to_string() };
    let bad_dir = PluginsDir::Unreadable { detail: "denied".to_string() };
    let bad_entry = PluginsDir::EntryUnreadable { detail: "io".to_string() };
    let e = list_plugins(&listed, &bad_manifest).unwrap_err();
    assert_eq!(e, PluginError::ParseManifest { detail: "expected value".to_string() });
    assert_eq!(e.message(), "Failed to parse plugin_status.json: expected value");
    let e = list_plugins(&listed, &unread_manifest).unwrap_err();
    assert_eq!(e.message(), "Failed to read plugin_status.json: denied");
    let e = list_plugins(&bad_dir, &bad_manifest).unwrap_err();
    assert_eq!(e.message(), "Failed to read plugins directory: denied");
    let e = list_plugins(&bad_entry, &parsed).unwrap_err();
    assert_eq!(e.message(), "Failed to read entry: io");
}

#[test]
fn a_plugin_line_names_version_and_author() {
    let mut p = plugin("dir", Some("Nice"), Some("1.2"), PluginSource::Manual);
    assert_eq!(print_plugin_line(&p), "    Nice v1.2");
    p.author = Some("Me".to_string());
    assert_eq!(print_plugin_line(&p), "    Nice v1.2 by Me");
    let bare = plugin("dir", None, None, PluginSource::Manual);
    assert_eq!(print_plugin_line(&bare), "    dir v?");
}

#[test]
fn the_plugin_report_has_a_section_for_each_source() {
    assert_eq!(print_plugins("work", &vec![]), vec!["No plugins installed for profile 'work'"]);
    let plugins = vec![
        plugin("m", Some("Manual One"), Some("1"), PluginSource::Manual),
        plugin("o", Some("Official One"), Some("2"), PluginSource::Official),
        plugin("o2", Some("Official Two"), None, PluginSource::Official),
    ];
    assert_eq!(
        print_plugins("work", &plugins),
        vec![
            "Plugins for profile 'work' (3 total):",
            "\n  [Official Repository] (2):",
            "    Official One v2",
            "    Official Two v?",
            "\n  [Manual] (1):",
            "    Manual One v1",
        ]
    );
    let community = vec![plugin("c", None, None, PluginSource::Community)];
    assert_eq!(
        print_plugins("p", &community),
        vec!["Plugins for profile 'p' (1 total):", "\n  [Community Repository] (1):", "    c v?"]
    );
}

#[test]
fn plugin_sets_are_compared_by_directory() {
    let one = vec![
        plugin("a", Some("A"), Some("1"), PluginSource::Manual),
        plugin("b", Some("B"), Some("1"), PluginSource::Manual),
        plugin("c", None, None, PluginSource::Manual),
    ];
    let two = vec![
        plugin("b", Some("B"), Some("2"), PluginSource::Manual),
        plugin("c", None, None, PluginSource::Manual),
        plugin("d", Some("D"), None, PluginSource::Manual),
    ];
    assert_eq!(
        diff_plugins("one", &one, "two", &two),
        vec![
            styled(Style::Bold, "=== Plugins ==="),
            plain("  one has 3 plugins, two has 3 plugins"),
            plain("\n  Only in 'one':"),
            styled(Style::Added, "    + A"),
            plain("\n  Only in 'two':"),
            styled(Style::Removed, "    - D"),
            plain("\n  Version differences:"),
            styled(Style::Changed, "    ~ B : 1 -> 2"),
        ]
    );
    assert_eq!(
        diff_plugins("one", &one, "two", &one),
        vec![
            styled(Style::Bold, "=== Plugins ==="),
            plain("  one has 3 plugins, two has 3 plugins"),
            plain("  (no differences)"),
        ]
    );
}

#[test]
fn a_missing_version_is_shown_as_unknown() {
    let one = vec![plugin("a", None, Some("1"), PluginSource::Manual)];
    let two = vec![plugin("a", None, None, PluginSource::Manual)];
    let report = diff_plugins("one", &one, "two", &two);
    assert_eq!(report[3], styled(Style::Changed, "    ~ a : 1 -> ?"));
}

#[test]
fn two_profiles_are_compared_whole() {
    let one = vec![plugin("a", None, None, PluginSource::Manual)];
    let report = diff_profiles("one", &one, Some("{}"), "two", &one, None);
    assert_eq!(
        report,
        vec![
            Segment {
                style: Style::Bold,
                text: "Comparing profiles: ".to_string(),
                ends_line: false
            },
            plain("'one' vs 'two'\n"),
            styled(Style::Bold, "=== Plugins ==="),
            plain("  one has 1 plugins, two has 1 plugins"),
            plain("  (no differences)"),
            plain(""),
            styled(Style::Bold, "=== Settings ==="),
            plain("  Only 'one' has settings.json"),
        ]
    );
}
