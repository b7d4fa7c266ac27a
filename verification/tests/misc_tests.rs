use bn_loader::completions::{print_instructions, ShellType};
use bn_loader::config::{
    cache_dir, default_backup_retention, default_executable, default_exclusions, default_true,
    find_config_file, home_dir, list_profiles_cmd, user_config_path, ColorMode, Config,
    ConfigChoice, GlobalConfig, NamedProfile, Profile, SyncConfig, CONFIG_FILE_NAME, ENV_VAR_NAME,
};
use bn_loader::executor::{
    after_target, announce, confirmed, failure_message, goes_on, plan_sync, resolve_sync,
    run_sync, sync_gate, sync_outcome, sync_preview, sync_succeeded, target_failed, Gate,
    SyncError, SyncOptions,
};
use bn_loader::exclude::{finish_glob_set, PatternError};
use bn_loader::fs::{FsOp, Location, Root, Tree, TreeEntry};
use bn_loader::init::{
    append_profile_to_config, is_valid_profile_name, run_init, CopyNote, InitError,
};
use bn_loader::launch::{
    debug_launched, launch_debug, launch_name, launch_profile, LaunchError, LaunchOptions,
    DEBUG_LOG_FILENAME,
};
use bn_loader::sync::{Action, Message};
use bn_loader::text::{pad_right, parse_u64_from, starts_with, text_less, u64_to_string};
use bn_loader::update::{
    cache_path, check_cached_update, check_for_updates, check_for_updates_forced,
    compare_versions, print_update_notice, should_check, update_from_versions, Release,
    UpdateCache, UpdateInfo, UpdateStep, Version, CHECK_INTERVAL_SECS,
};

fn strings(names: &[&str]) -> Vec<String> {
    names.iter().map(|s| s.to_string()).collect()
}

fn profile(install: &str, config: &str) -> Profile {
    Profile {
        install_dir: install.to_string(),
        config_dir: config.to_string(),
        executable: "binaryninja".to_string(),
        debug: false,
    }
}

fn config(names: &[&str]) -> Config {
    Config {
        global: GlobalConfig::default(),
        profiles: names
            .iter()
            .map(|n| NamedProfile {
                name: n.to_string(),
                profile: profile(&format!("/opt/{}", n), &format!("/home/u/.{}", n)),
            })
            .collect(),
        sync: SyncConfig { exclusions: strings(&["*.bak"]) },
    }
}

fn options(from: &str, to: Option<&str>) -> SyncOptions {
    SyncOptions {
        from: from.to_string(),
        to: to.map(|s| s.to_string()),
        extra_exclusions: strings(&["tmp*"]),
        dry_run: false,
        yes: false,
        backup_retention: 5,
    }
}

fn chars(s: &str) -> Vec<char> {
    s.chars().collect()
}

#[test]
fn numbers_are_written_in_decimal() {
    assert_eq!(u64_to_string(0), "0");
    assert_eq!(u64_to_string(9), "9");
    assert_eq!(u64_to_string(10), "10");
    assert_eq!(u64_to_string(1234567890), "1234567890");
    assert_eq!(u64_to_string(u64::MAX), u64::MAX.to_string());
}

#[test]
fn numbers_are_read_as_std_reads_them() {
    for text in ["0", "7", "+7", "007", "18446744073709551615", "18446744073709551616", "", "+",
        "-1", "1a", " 1", "1 ", "++1", "٣"]
    {
        assert_eq!(parse_u64_from(&chars(text), 0), text.parse::<u64>().ok(), "{:?}", text);
    }
    assert_eq!(parse_u64_from(&chars("ab12"), 2), Some(12));
    assert_eq!(parse_u64_from(&chars("ab"), 2), None);
}

#[test]
fn texts_are_ordered_as_strings_are() {
    let words = ["", "a", "A", "ab", "b", "é", "z", "日本", "aa", "a\u{10FFFF}"];
    for x in words {
        for y in words {
            assert_eq!(text_less(&chars(x), &chars(y)), x < y, "{:?} {:?}", x, y);
        }
    }
    assert!(starts_with(&chars("prefix-rest"), &chars("prefix-")));
    assert!(starts_with(&chars("same"), &chars("same")));
    assert!(!starts_with(&chars("pre"), &chars("prefix")));
    assert!(!starts_with(&chars("xrefix-"), &chars("prefix-")));
}

#[test]
fn padding_fills_to_the_width() {
    assert_eq!(pad_right("ab", 5), "ab   ");
    assert_eq!(pad_right("abcdef", 5), "abcdef");
    assert_eq!(pad_right("é", 3), "é  ");
    assert_eq!(pad_right("", 0), "");
}

#[test]
fn the_defaults_are_as_documented() {
    assert_eq!(default_executable(false), "binaryninja");
    assert_eq!(default_executable(true), "binaryninja.exe");
    assert_eq!(
        default_exclusions(),
        strings(&["license.dat", "license.txt", "user.id", "keychain/", "__pycache__/", "*.pyc"])
    );
    assert!(default_true());
    assert_eq!(default_backup_retention(), 5);
    assert_eq!(CONFIG_FILE_NAME, "bn-loader.toml");
    assert_eq!(ENV_VAR_NAME, "BN_USER_DIRECTORY");
    let global = GlobalConfig::default();
    assert_eq!(global.color, ColorMode::Auto);
    assert_eq!(global.default_profile, None);
    assert!(!global.check_updates);
    assert_eq!(global.backup_retention, 0);
    assert!(!global.debug);
}

#[test]
fn a_default_profile_has_only_its_executable() {
    let p = Profile::default_for(false);
    assert_eq!(
        p,
        Profile {
            install_dir: String::new(),
            config_dir: String::new(),
            executable: "binaryninja".to_string(),
            debug: false
        }
    );
    assert_eq!(Profile::default_for(true).executable, "binaryninja.exe");
}

#[test]
fn paths_start_at_the_home_directory() {
    assert_eq!(home_dir(Some("/h".into()), Some("/u".into())), Some("/h".to_string()));
    assert_eq!(home_dir(None, Some("/u".into())), Some("/u".to_string()));
    assert_eq!(home_dir(None, None), None);
    assert_eq!(user_config_path(Some("/h")), Some(strings(&["/h", ".config", "bn-loader.toml"])));
    assert_eq!(user_config_path(None), None);
    assert_eq!(cache_dir(Some("/h")), Some(strings(&["/h", ".cache", "bn-loader"])));
    assert_eq!(cache_dir(None), None);
    assert_eq!(
        cache_path(Some("/h")),
        Some(strings(&["/h", ".cache", "bn-loader", "update-check.json"]))
    );
    assert_eq!(cache_path(None), None);
}

#[test]
fn the_configuration_file_is_chosen_in_order() {
    assert_eq!(find_config_file(true, true, true), ConfigChoice::Custom);
    assert_eq!(find_config_file(true, false, true), ConfigChoice::CustomMissing);
    assert_eq!(find_config_file(false, false, true), ConfigChoice::User);
    assert_eq!(find_config_file(false, true, false), ConfigChoice::NotFound);
}

#[test]
fn profiles_are_found_and_listed() {
    let c = config(&["work", "play"]);
    assert_eq!(c.find_profile("work"), Some(0));
    assert_eq!(c.find_profile("play"), Some(1));
    assert_eq!(c.find_profile("rest"), None);
    assert_eq!(
        list_profiles_cmd(&c),
        vec!["Available profiles:", "  work -> /opt/work", "  play -> /opt/play"]
    );
}

#[test]
fn shell_instructions_name_the_shell() {
    assert_eq!(
        print_instructions(ShellType::Bash),
        vec!["# Add this to your ~/.bashrc:", "source <(COMPLETE=bash bn-loader)"]
    );
    assert_eq!(
        print_instructions(ShellType::Zsh),
        vec!["# Add this to your ~/.zshrc:", "source <(COMPLETE=zsh bn-loader)"]
    );
    assert_eq!(
        print_instructions(ShellType::Fish),
        vec!["# Add this to ~/.config/fish/config.fish:", "COMPLETE=fish bn-loader | source"]
    );
    assert_eq!(
        print_instructions(ShellType::Powershell),
        vec![
            "# Add this to your $PROFILE:",
            "$env:COMPLETE = 'powershell'",
            "bn-loader | Out-String | Invoke-Expression",
            "Remove-Item Env:COMPLETE"
        ]
    );
}

#[test]
fn profile_names_are_letters_digits_hyphens_and_underscores() {
    assert!(is_valid_profile_name("work"));
    assert!(is_valid_profile_name("work-2_b"));
    assert!(is_valid_profile_name("é1"));
    assert!(!is_valid_profile_name(""));
    assert!(!is_valid_profile_name("a b"));
    assert!(!is_valid_profile_name("a.b"));
    assert!(!is_valid_profile_name("a]\n[x"));
}

#[test]
fn a_profile_entry_quotes_its_directories() {
    let text = append_profile_to_config("new", "C:\\Program Files\\bn", "/home/u/\"x\"").unwrap();
    assert_eq!(
        text,
        format!(
            "\n[profiles.new]\ninstall_dir = {}\nconfig_dir = {}\n",
            toml::Value::String("C:\\Program Files\\bn".to_string()),
            toml::Value::String("/home/u/\"x\"".to_string())
        )
    );
    assert!(text.contains("install_dir = 'C:\\Program Files\\bn'")
        || text.contains("install_dir = \"C:\\\\Program Files\\\\bn\""));
    let e = append_profile_to_config("bad name", "/a", "/b").unwrap_err();
    assert_eq!(e, InitError::InvalidName { name: "bad name".to_string() });
    assert_eq!(
        e.message(),
        "Invalid profile name 'bad name': must contain only alphanumeric characters, hyphens, and underscores"
    );
}

#[test]
fn a_new_profile_is_planned_from_its_template() {
    let c = config(&["work", "play"]);
    let plan = run_init(&c, "fresh", "play", "/home/u/.fresh", false, &strings(&["license.txt"]))
        .unwrap();
    assert_eq!(plan.template, 1);
    assert_eq!(
        plan.opening,
        vec![
            "Initializing profile 'fresh'...",
            "  Template:    play",
            "  Install dir: /opt/play",
            "  Config dir:  /home/u/.fresh"
        ]
    );
    assert_eq!(plan.copies, strings(&["license.txt"]));
    assert_eq!(plan.note, CopyNote::Copied("  Copied:      license.txt".to_string()));
    assert!(plan.entry.unwrap().starts_with("\n[profiles.fresh]\ninstall_dir = "));
    assert_eq!(
        plan.closing,
        vec![
            "\nProfile 'fresh' initialized successfully.",
            "You can now launch it with: bn-loader fresh"
        ]
    );
    let both = strings(&["license.txt", "other", "license.dat"]);
    let plan = run_init(&c, "fresh", "work", "/d", false, &both).unwrap();
    assert_eq!(plan.copies, strings(&["license.dat", "license.txt"]));
    assert_eq!(plan.note, CopyNote::Copied("  Copied:      license.dat, license.txt".to_string()));
    let plan = run_init(&c, "bad name", "work", "/d", false, &vec![]).unwrap();
    assert!(plan.copies.is_empty());
    assert_eq!(
        plan.note,
        CopyNote::NoneFound(
            "Warning: No license files found in template profile at /home/u/.work".to_string()
        )
    );
    assert_eq!(plan.entry, Err(InitError::InvalidName { name: "bad name".to_string() }));
}

#[test]
fn a_new_profile_needs_a_template_a_free_name_and_a_free_directory() {
    let c = config(&["work", "play"]);
    let e = run_init(&c, "work", "none", "/d", true, &vec![]).unwrap_err();
    assert_eq!(e.message(), "Template profile 'none' not found");
    let e = run_init(&c, "work", "play", "/d", true, &vec![]).unwrap_err();
    assert_eq!(e.message(), "Profile 'work' already exists");
    let e = run_init(&c, "fresh", "play", "/d", true, &vec![]).unwrap_err();
    assert_eq!(e.message(), "Config directory already exists: /d");
}

#[test]
fn a_launch_needs_its_directories_and_its_executable() {
    let p = profile("/opt/bn", "/home/u/.bn");
    let o = LaunchOptions::default();
    let e = launch_profile("w", &p, &o, "/opt/bn/binaryninja", false, false, false).unwrap_err();
    assert_eq!(e, LaunchError::InstallDirMissing { dir: "/opt/bn".to_string() });
    assert_eq!(e.message(), "Install directory does not exist: /opt/bn");
    let e = launch_profile("w", &p, &o, "/opt/bn/binaryninja", true, false, false).unwrap_err();
    assert_eq!(e.message(), "Executable not found: /opt/bn/binaryninja");
    let e = launch_profile("w", &p, &o, "/opt/bn/binaryninja", true, true, false).unwrap_err();
    assert_eq!(e.message(), "Config directory does not exist: /home/u/.bn");
    let plan = launch_profile("w", &p, &o, "/opt/bn/binaryninja", true, true, true).unwrap();
    assert!(!plan.debug);
    assert_eq!(
        plan.lines,
        vec![
            "Launching profile 'w'...",
            "  Install dir: /opt/bn",
            "  Config dir:  /home/u/.bn",
            "  Executable:  binaryninja"
        ]
    );
}

#[test]
fn debug_mode_comes_from_the_options_or_the_profile() {
    let mut p = profile("/opt/bn", "/home/u/.bn");
    let asked = LaunchOptions { debug: true, log_file: None };
    assert!(launch_profile("w", &p, &asked, "x", true, true, true).unwrap().debug);
    p.debug = true;
    let quiet = LaunchOptions::default();
    assert!(launch_profile("w", &p, &quiet, "x", true, true, true).unwrap().debug);
    assert_eq!(DEBUG_LOG_FILENAME, "bn-loader-debug.log");
    let d = launch_debug("/tmp/log");
    assert_eq!(d.lines, vec!["  Debug mode: enabled", "  Log file:   /tmp/log"]);
    assert_eq!(d.args, strings(&["-d", "-l", "/tmp/log"]));
    assert_eq!(
        debug_launched(4242, "/tmp/log", false),
        vec![
            "\nBinary Ninja launched (PID: 4242).",
            "Debug logs will be written to: /tmp/log",
            "\nTo monitor: tail -f \"/tmp/log\""
        ]
    );
    assert_eq!(
        debug_launched(1, "C:\\log", true)[2],
        "\nTo monitor: Get-Content -Path \"C:\\log\" -Wait"
    );
}

#[test]
fn the_profile_to_launch_is_the_named_or_the_default_one() {
    assert_eq!(launch_name(Some("a"), &Some("b".to_string())), Some("a".to_string()));
    assert_eq!(launch_name(None, &Some("b".to_string())), Some("b".to_string()));
    assert_eq!(launch_name(None, &None), None);
}

#[test]
fn a_check_is_due_after_a_day() {
    assert_eq!(CHECK_INTERVAL_SECS, 24 * 60 * 60);
    let cache = UpdateCache { last_check: 1000, latest_version: None, release_url: None };
    assert!(!should_check(&cache, 1000));
    assert!(!should_check(&cache, 1000 + 86400));
    assert!(should_check(&cache, 1000 + 86401));
    assert!(!should_check(&cache, 0));
    assert!(should_check(&UpdateCache::default(), 86401));
}

#[test]
fn versions_are_compared_by_precedence() {
    let info = compare_versions("v1.2.3", "http://r", "1.2.2").unwrap();
    assert_eq!(
        info,
        UpdateInfo {
            current: "1.2.2".to_string(),
            latest: "1.2.3".to_string(),
            url: "http://r".to_string()
        }
    );
    assert!(compare_versions("1.10.0", "u", "1.9.9").is_some());
    assert!(compare_versions("2.0.0", "u", "1.99.99").is_some());
    assert!(compare_versions("1.2.3", "u", "1.2.3").is_none());
    assert!(compare_versions("1.2.2", "u", "1.2.3").is_none());
    assert!(compare_versions("1.2.3", "u", "1.2.3-rc.1").is_some());
    assert!(compare_versions("1.2.3-rc.1", "u", "1.2.3").is_none());
    assert!(compare_versions("1.2.3-rc.2", "u", "1.2.3-rc.1").is_some());
    assert!(compare_versions("1.2.3-rc.10", "u", "1.2.3-rc.9").is_some());
    assert!(compare_versions("1.2.3+b2", "u", "1.2.3+b1").is_some());
    assert!(compare_versions("not a version", "u", "1.2.3").is_none());
    assert!(compare_versions("1.2.4", "u", "unknown").is_none());
    assert!(compare_versions("vv1.2.4", "u", "1.2.3").is_none());
    assert!(compare_versions("", "u", "1.2.3").is_none());
}

#[test]
fn a_fresh_check_answers_from_memory() {
    let cache = UpdateCache {
        last_check: 5000,
        latest_version: Some("v2.0.0".to_string()),
        release_url: Some("http://r".to_string()),
    };
    assert_eq!(check_cached_update(&cache, "1.0.0").unwrap().latest, "2.0.0");
    assert_eq!(check_cached_update(&cache, "2.0.0"), None);
    let half = UpdateCache { release_url: None, ..UpdateCache::default() };
    assert_eq!(check_cached_update(&half, "1.0.0"), None);
    match check_for_updates(&cache, 6000, "1.0.0") {
        UpdateStep::Known(Some(info)) => assert_eq!(info.url, "http://r"),
        other => panic!("unexpected step {:?}", other),
    }
    assert_eq!(check_for_updates(&cache, 5000 + 86401, "1.0.0"), UpdateStep::Fetch);
}

#[test]
fn a_fetched_release_is_remembered() {
    let release = Release { tag_name: "v3.1.0".to_string(), html_url: "http://r".to_string() };
    let fetched = check_for_updates_forced(Some(&release), 777, "3.0.0");
    assert_eq!(
        fetched.remember,
        Some(UpdateCache {
            last_check: 777,
            latest_version: Some("v3.1.0".to_string()),
            release_url: Some("http://r".to_string())
        })
    );
    assert_eq!(fetched.update.unwrap().latest, "3.1.0");
    let none = check_for_updates_forced(None, 777, "3.0.0");
    assert_eq!(none.remember, None);
    assert_eq!(none.update, None);
}

#[test]
fn the_update_notice_is_a_box() {
    let info = UpdateInfo {
        current: "1.0.0".to_string(),
        latest: "1.1.0".to_string(),
        url: "https://example.org/r".to_string(),
    };
    assert_eq!(
        print_update_notice(&info),
        vec![
            "".to_string(),
            "  +-------------------------------------------------+".to_string(),
            format!("  |  Update available: v{} -> v{:<16} |", "1.0.0", "1.1.0"),
            format!("  |  {:<47}  |", "https://example.org/r"),
            "  +-------------------------------------------------+".to_string(),
            "".to_string(),
        ]
    );
}

#[test]
fn a_sync_needs_a_source_and_a_target() {
    let c = config(&["work", "play", "rest"]);
    let r = resolve_sync(&c, &options("work", None)).unwrap();
    assert_eq!(r.source, 0);
    assert_eq!(r.targets, vec![1, 2]);
    assert_eq!(
        r.exclusions,
        strings(&[
            "license.dat",
            "license.txt",
            "user.id",
            "keychain/",
            "__pycache__/",
            "*.pyc",
            "*.bak",
            "tmp*"
        ])
    );
    let r = resolve_sync(&c, &options("play", Some("work"))).unwrap();
    assert_eq!((r.source, r.targets), (1, vec![0]));
    let r = resolve_sync(&c, &options("play", Some("play"))).unwrap();
    assert_eq!((r.source, r.targets), (1, vec![1]));
    let e = resolve_sync(&c, &options("none", Some("alsonone"))).unwrap_err();
    assert_eq!(e.message(), "Source profile 'none' not found");
    let e = resolve_sync(&c, &options("work", Some("none"))).unwrap_err();
    assert_eq!(e.message(), "Target profile 'none' not found");
    let e = resolve_sync(&config(&["only"]), &options("only", None)).unwrap_err();
    assert_eq!(e, SyncError::NoTargets);
    assert_eq!(e.message(), "No target profiles to sync to");
}

#[test]
fn a_plan_fails_on_a_malformed_pattern() {
    let source = vec![TreeEntry { name: "plugins".to_string(), node: Tree::Dir(vec![]) }];
    assert_eq!(plan_sync(&strings(&["*.pyc"]), &source), Ok(strings(&["plugins"])));
    assert_eq!(plan_sync(&strings(&["plug*"]), &source), Ok(vec![]));
    match plan_sync(&strings(&["ok", "a{b"]), &source) {
        Err(SyncError::Pattern(PatternError::Invalid { index, pattern, .. })) => {
            assert_eq!((index, pattern.as_str()), (1, "a{b"));
        }
        other => panic!("unexpected result {:?}", other),
    }
}

#[test]
fn the_gate_stops_empty_and_dry_runs_and_asks() {
    assert_eq!(sync_gate(0, false, true), Gate::NothingToSync);
    assert_eq!(sync_gate(0, true, false), Gate::NothingToSync);
    assert_eq!(sync_gate(2, true, true), Gate::DryRun);
    assert_eq!(sync_gate(2, false, false), Gate::Ask);
    assert_eq!(sync_gate(2, false, true), Gate::Proceed);
}

#[test]
fn only_a_yes_confirms() {
    for yes in ["y", "Y", " y\n", "\ty  ", "Y\r\n"] {
        assert!(confirmed(yes), "{:?}", yes);
    }
    for no in ["", "n", "yes", "yy", "\n", "y y", "ý"] {
        assert!(!confirmed(no), "{:?}", no);
    }
}

#[test]
fn a_failure_ends_the_target_unless_it_is_a_prune() {
    let copy = Action::CopyItem { item: "a".to_string(), is_dir: false, ops: vec![] };
    let prune = Action::Prune { name: "b".to_string(), ops: vec![] };
    let told = Action::Announce(Message::Copied { item: "a".to_string() });
    assert!(goes_on(&copy, true));
    assert!(!goes_on(&copy, false));
    assert!(goes_on(&prune, false));
    assert!(goes_on(&prune, true));
    assert!(!goes_on(&told, false));
    assert!(sync_succeeded(0));
    assert!(!sync_succeeded(1));
}

#[test]
fn messages_are_lines_of_progress() {
    assert_eq!(
        announce(&Message::Syncing { target: "work".to_string() }, ""),
        "\nSyncing to 'work'..."
    );
    assert_eq!(
        announce(&Message::BackupCreated { name: "b".to_string() }, "/t/b"),
        "  Backup created: /t/b"
    );
    assert_eq!(announce(&Message::Copied { item: "plugins".to_string() }, ""), "  Copied: plugins");
}

#[test]
fn the_plan_is_shown_before_anything_is_done() {
    let c = config(&["work", "play", "rest"]);
    let request = resolve_sync(&c, &options("work", None)).unwrap();
    let lines = sync_preview(&c, &request, &strings(&["plugins", "settings.json"]));
    assert_eq!(
        lines,
        vec![
            "Sync Plan:".to_string(),
            "  Source: work (/home/u/.work)".to_string(),
            "  Targets:".to_string(),
            "    - play (/home/u/.play)".to_string(),
            "    - rest (/home/u/.rest)".to_string(),
            "  Items to sync: 2".to_string(),
            format!("  Exclusions: {:?}", request.exclusions),
            "\nItems:".to_string(),
            "    plugins".to_string(),
            "    settings.json".to_string(),
        ]
    );
    let lines = sync_preview(&c, &request, &vec![]);
    assert_eq!(lines[5], "  Items to sync: 0");
    assert_eq!(lines[7], "\nNo items to sync.");
    assert_eq!(lines.len(), 8);
}

#[test]
fn a_failure_is_told_by_what_failed() {
    let at = Location { root: Root::Target, parts: strings(&["plugins"]) };
    let clear = FsOp::Clear(Location { root: Root::Target, parts: strings(&["plugins"]) });
    let create = FsOp::CreateDirAll(Location { root: Root::Target, parts: strings(&["plugins"]) });
    let copy_op = FsOp::CopyFile {
        from: Location { root: Root::Source, parts: strings(&["a"]) },
        to: at,
    };
    let dir_item = Action::CopyItem { item: "plugins".to_string(), is_dir: true, ops: vec![] };
    let file_item = Action::CopyItem { item: "s.json".to_string(), is_dir: false, ops: vec![] };
    let dir_save = Action::BackupItem {
        backup: "b".to_string(),
        item: "plugins".to_string(),
        is_dir: true,
        ops: vec![],
    };
    let file_save = Action::BackupItem {
        backup: "b".to_string(),
        item: "s.json".to_string(),
        is_dir: false,
        ops: vec![],
    };
    let mkdir = Action::MakeBackupDir { name: "b".to_string(), ops: vec![] };
    let prune = Action::Prune { name: "b".to_string(), ops: vec![] };
    let told = Action::Announce(Message::Copied { item: "a".to_string() });
    let m = |action: &Action, op: &FsOp| failure_message(action, op, "/t/p", "denied");
    assert_eq!(m(&dir_item, &clear), "Failed to remove existing directory: denied");
    assert_eq!(m(&dir_item, &create), "Failed to create directory /t/p: denied");
    assert_eq!(m(&dir_item, &copy_op), "Failed to copy file: denied");
    assert_eq!(m(&file_item, &create), "Failed to create directory: denied");
    assert_eq!(m(&file_item, &copy_op), "Failed to copy s.json: denied");
    assert_eq!(m(&dir_save, &create), "Failed to create directory /t/p: denied");
    assert_eq!(m(&dir_save, &copy_op), "Failed to copy file: denied");
    assert_eq!(m(&file_save, &clear), "Failed to remove existing directory: denied");
    assert_eq!(m(&file_save, &create), "Failed to create backup subdirectory: denied");
    assert_eq!(m(&file_save, &copy_op), "Failed to backup s.json: denied");
    assert_eq!(m(&mkdir, &create), "Failed to create backup directory: denied");
    assert_eq!(m(&prune, &clear), "  Warning: Failed to remove old backup /t/p: denied");
    assert_eq!(m(&told, &clear), "denied");
}

#[test]
fn a_set_that_cannot_be_built_is_an_error() {
    let failure = globset::Glob::new("[").unwrap_err();
    let detail = failure.to_string();
    match finish_glob_set(Err(failure)) {
        Err(e) => {
            assert_eq!(e, PatternError::Build { detail: detail.clone() });
            assert_eq!(e.message(), format!("Failed to build glob set: {}", detail));
        }
        Ok(_) => panic!("an error should stay an error"),
    }
    let built = globset::GlobSetBuilder::new().build();
    assert!(finish_glob_set(built).is_ok());
}

#[test]
fn an_update_is_a_later_version() {
    let version = |major, minor, patch, pre: &str| Version {
        major,
        minor,
        patch,
        pre: pre.to_string(),
        build: String::new(),
    };
    let old = version(1, 2, 3, "");
    let new = version(1, 3, 0, "");
    let info = update_from_versions(Some(&new), Some(&old), "1.2.3", "1.3.0", "u").unwrap();
    assert_eq!(info.current, "1.2.3");
    assert_eq!(info.latest, "1.3.0");
    assert_eq!(update_from_versions(Some(&old), Some(&new), "a", "b", "u"), None);
    assert_eq!(update_from_versions(Some(&old), Some(&old), "a", "b", "u"), None);
    assert_eq!(update_from_versions(None, Some(&old), "a", "b", "u"), None);
    assert_eq!(update_from_versions(Some(&new), None, "a", "b", "u"), None);
    let candidate = version(1, 3, 0, "rc.1");
    assert!(update_from_versions(Some(&new), Some(&candidate), "a", "b", "u").is_some());
    assert!(update_from_versions(Some(&candidate), Some(&new), "a", "b", "u").is_none());
    assert!(update_from_versions(Some(&candidate), Some(&old), "a", "b", "u").is_some());
}

fn source_listing() -> Vec<TreeEntry> {
    vec![
        TreeEntry { name: "plugins".to_string(), node: Tree::Dir(vec![]) },
        TreeEntry { name: "settings.json".to_string(), node: Tree::File },
    ]
}

#[test]
fn a_dry_run_names_no_target_and_asks_nothing() {
    let c = config(&["work", "play", "rest"]);
    let mut o = options("work", None);
    o.dry_run = true;
    let run = run_sync(&c, &o, &source_listing(), None).unwrap();
    assert_eq!(run.items, strings(&["plugins", "settings.json"]));
    assert_eq!(run.gate, Gate::DryRun);
    assert!(!run.asks);
    assert!(!run.proceeds);
    assert!(run.targets.is_empty());
    assert_eq!(run.note, Some("\n[Dry run] No changes made.".to_string()));
    assert_eq!(run.preview, sync_preview(&c, &run.request, &run.items));
    o.yes = true;
    let run = run_sync(&c, &o, &source_listing(), Some("y")).unwrap();
    assert!(!run.proceeds);
    assert!(run.targets.is_empty());
}

#[test]
fn the_operator_is_asked_and_only_a_yes_goes_ahead() {
    let c = config(&["work", "play", "rest"]);
    let o = options("work", None);
    let first = run_sync(&c, &o, &source_listing(), None).unwrap();
    assert_eq!(first.gate, Gate::Ask);
    assert!(first.asks);
    assert!(!first.proceeds);
    assert!(first.targets.is_empty());
    assert_eq!(first.note, None);
    for no in ["", "n", "yes", "\n"] {
        let run = run_sync(&c, &o, &source_listing(), Some(no)).unwrap();
        assert!(!run.asks);
        assert!(!run.proceeds);
        assert!(run.targets.is_empty());
        assert_eq!(run.note, Some("Aborted.".to_string()));
    }
    let run = run_sync(&c, &o, &source_listing(), Some(" Y\n")).unwrap();
    assert!(run.proceeds);
    assert_eq!(run.targets, vec![1, 2]);
    assert_eq!(run.note, None);
}

#[test]
fn a_yes_on_the_command_line_goes_ahead_unasked() {
    let c = config(&["work", "play"]);
    let mut o = options("work", Some("play"));
    o.yes = true;
    let run = run_sync(&c, &o, &source_listing(), None).unwrap();
    assert_eq!(run.gate, Gate::Proceed);
    assert!(!run.asks);
    assert!(run.proceeds);
    assert_eq!(run.targets, vec![1]);
    let run = run_sync(&c, &o, &vec![], None).unwrap();
    assert_eq!(run.gate, Gate::NothingToSync);
    assert!(!run.proceeds);
    assert!(run.targets.is_empty());
    assert_eq!(run.note, None);
    assert_eq!(run.preview.last().unwrap(), "\nNo items to sync.");
}

#[test]
fn a_malformed_pattern_ends_the_sync_before_any_target_is_named() {
    let c = config(&["work", "play"]);
    let mut o = options("work", None);
    o.yes = true;
    o.extra_exclusions = strings(&["["]);
    match run_sync(&c, &o, &source_listing(), None) {
        Err(e) => {
            match &e {
                SyncError::Pattern(PatternError::Invalid { index, pattern, .. }) => {
                    assert_eq!(*index, 7);
                    assert_eq!(pattern, "[");
                }
                other => panic!("unexpected error {:?}", other),
            }
            assert!(e.message().starts_with("Invalid glob pattern '[': "));
        }
        Ok(run) => panic!("unexpected run {:?}", run),
    }
    let e = run_sync(&c, &options("none", None), &source_listing(), None).unwrap_err();
    assert_eq!(e.message(), "Source profile 'none' not found");
    o.from = "none".to_string();
    let e = run_sync(&c, &o, &source_listing(), None).unwrap_err();
    assert_eq!(e.message(), "Source profile 'none' not found");
}

#[test]
fn a_failed_target_is_counted_and_the_next_is_tried() {
    assert_eq!(after_target(0, true), (0, true));
    assert_eq!(after_target(0, false), (1, true));
    assert_eq!(after_target(3, false), (4, true));
    assert_eq!(after_target(usize::MAX, false), (usize::MAX, true));
    assert_eq!(target_failed("play", "denied"), "Error: sync to 'play' failed: denied");
    assert_eq!(sync_outcome(0), Ok("\nSync complete.".to_string()));
    assert_eq!(sync_outcome(2), Err("Sync failed for 2 target(s)".to_string()));
}
