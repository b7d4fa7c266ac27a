//! The reports shown to the operator: the plugins of a profile, and the
//! comparison of two profiles.

use crate::assoc::{find_key, has_key, lemma_find_key_has_key, lemma_find_key_more};
use crate::diff::{diff_json_objects, diff_spec, entries_view, DiffEntryModel, DiffKind};
use crate::json::{json_parse, parse_json, JsonModel, JsonValue};
use crate::plugins::{
    display_name, plugins_view, PluginInfo, PluginModel, PluginSource,
};
use crate::text::{
    concat2, concat3, decimal, lemma_lines_push, lines_view, opt_view, u64_to_string,
};
use vstd::prelude::*;
use vstd::string::*;

verus! {

/// How many differences between two settings files are shown.
pub const MAX_DIFF_DISPLAY: usize = 20;

/// How a piece of a report is set off.
#[derive(Clone, Copy, Debug, PartialEq, Eq, Structural)]
pub enum Style {
    Plain,
    Bold,
    /// Something only the first profile has, or that was added.
    Added,
    /// Something only the second profile has, or that was removed.
    Removed,
    /// Something that differs.
    Changed,
}

/// A piece of a report: text in one style, which ends its line or not.
#[derive(Debug, PartialEq, Eq)]
pub struct Segment {
    pub style: Style,
    pub text: String,
    pub ends_line: bool,
}

/// Mathematical model of a [`Segment`].
pub struct SegmentModel {
    pub style: Style,
    pub text: Seq<char>,
    pub ends_line: bool,
}

impl View for Segment {
    type V = SegmentModel;

    open spec fn view(&self) -> SegmentModel {
        SegmentModel { style: self.style, text: self.text@, ends_line: self.ends_line }
    }
}

/// The models of the pieces of a report.
pub open spec fn report_view(report: Seq<Segment>) -> Seq<SegmentModel> {
    Seq::new(report.len(), |i: int| report[i]@)
}

/// A whole line in one style.
pub open spec fn line(style: Style, text: Seq<char>) -> SegmentModel {
    SegmentModel { style, text, ends_line: true }
}

fn push_line(report: &mut Vec<Segment>, style: Style, text: String)
    ensures
        report_view(final(report)@) == report_view(old(report)@).push(line(style, text@)),
{
    let ghost prev = report@;
    let segment = Segment { style, text, ends_line: true };
    report.push(segment);
    assert(report_view(report@) =~= report_view(prev).push(segment@));
}

fn append_report(report: &mut Vec<Segment>, more: Vec<Segment>)
    ensures
        report_view(final(report)@) == report_view(old(report)@) + report_view(more@),
{
    let ghost prev = report@;
    let mut more = more;
    let ghost added = more@;
    report.append(&mut more);
    assert(report_view(report@) =~= report_view(prev) + report_view(added));
}

/// The text of an optional string, or a question mark.
pub open spec fn or_unknown(o: Option<Seq<char>>) -> Seq<char> {
    match o {
        Some(s) => s,
        None => "?"@,
    }
}

/// The line that shows one plugin: its name, its version, and its author
/// if it declares one.
pub open spec fn plugin_line(p: PluginModel) -> Seq<char> {
    "    "@ + display_name(p) + " v"@ + or_unknown(p.version) + match p.author {
        Some(a) => " by "@ + a,
        None => Seq::empty(),
    }
}

/// The lines of the plugins of one source among the first `n`.
pub open spec fn source_lines(plugins: Seq<PluginModel>, source: PluginSource, n: nat) -> Seq<
    Seq<char>,
>
    decreases n,
{
    if n == 0 || n > plugins.len() {
        Seq::empty()
    } else {
        let before = source_lines(plugins, source, (n - 1) as nat);
        if plugins[n - 1].source == source {
            before.push(plugin_line(plugins[n - 1]))
        } else {
            before
        }
    }
}

/// The heading of a source's section, up to the count.
pub open spec fn section_title(source: PluginSource) -> Seq<char> {
    match source {
        PluginSource::Official => "\n  [Official Repository] ("@,
        PluginSource::Community => "\n  [Community Repository] ("@,
        PluginSource::Manual => "\n  [Manual] ("@,
    }
}

/// The section of one source: nothing where the source has no plugins,
/// else a heading with their number and a line for each.
pub open spec fn section(plugins: Seq<PluginModel>, source: PluginSource) -> Seq<Seq<char>> {
    let lines = source_lines(plugins, source, plugins.len());
    if lines.len() == 0 {
        Seq::empty()
    } else {
        seq![section_title(source) + decimal(lines.len()) + "):"@] + lines
    }
}

/// The report of a profile's plugins: a heading with their number, then
/// the official, the community and the manual plugins, each in a section of
/// its own.
pub open spec fn plugins_report(profile_name: Seq<char>, plugins: Seq<PluginModel>) -> Seq<
    Seq<char>,
> {
    if plugins.len() == 0 {
        seq!["No plugins installed for profile '"@ + profile_name + "'"@]
    } else {
        seq![
            "Plugins for profile '"@ + profile_name + "' ("@ + decimal(plugins.len())
                + " total):"@,
        ] + section(plugins, PluginSource::Official) + section(plugins, PluginSource::Community)
            + section(plugins, PluginSource::Manual)
    }
}

fn shown_name(p: &PluginInfo) -> (r: &str)
    ensures
        r@ == display_name(p@),
{
    match &p.name {
        Some(n) => n.as_str(),
        None => p.dir_name.as_str(),
    }
}

fn shown_version(p: &PluginInfo) -> (r: &str)
    ensures
        r@ == or_unknown(p@.version),
{
    match &p.version {
        Some(v) => v.as_str(),
        None => "?",
    }
}

/// The line that shows one plugin.
pub fn print_plugin_line(plugin: &PluginInfo) -> (r: String)
    ensures
        r@ == plugin_line(plugin@),
{
    let mut r = concat3("    ", shown_name(plugin), " v");
    r.append(shown_version(plugin));
    match &plugin.author {
        Some(a) => {
            r.append(" by ");
            r.append(a.as_str());
        },
        None => {
            assert(r@ + Seq::<char>::empty() =~= r@);
        },
    }
    r
}

fn print_section(plugins: &Vec<PluginInfo>, source: PluginSource) -> (r: Vec<String>)
    ensures
        lines_view(r@) == section(plugins_view(plugins@), source),
{
    let ghost models = plugins_view(plugins@);
    let mut lines: Vec<String> = Vec::new();
    let mut i: usize = 0;
    assert(lines_view(lines@) =~= source_lines(models, source, 0));
    while i < plugins.len()
        invariant
            i <= plugins.len(),
            models == plugins_view(plugins@),
            lines_view(lines@) == source_lines(models, source, i as nat),
        decreases plugins.len() - i,
    {
        if plugins[i].source == source {
            let ghost prev = lines@;
            let text = print_plugin_line(&plugins[i]);
            lines.push(text);
            proof {
                lemma_lines_push(prev, text);
            }
        }
        i += 1;
    }
    let mut r: Vec<String> = Vec::new();
    if lines.len() == 0 {
        assert(lines_view(r@) =~= Seq::<Seq<char>>::empty());
        return r;
    }
    let count = u64_to_string(lines.len() as u64);
    let title = match source {
        PluginSource::Official => concat3("\n  [Official Repository] (", count.as_str(), "):"),
        PluginSource::Community => concat3("\n  [Community Repository] (", count.as_str(), "):"),
        PluginSource::Manual => concat3("\n  [Manual] (", count.as_str(), "):"),
    };
    r.push(title);
    let ghost body = lines@;
    r.append(&mut lines);
    assert(lines_view(r@) =~= seq![title@] + lines_view(body));
    r
}

/// The report of a profile's plugins, line by line.
#[verifier::spinoff_prover]
#[verifier::rlimit(40)]
pub fn print_plugins(profile_name: &str, plugins: &Vec<PluginInfo>) -> (r: Vec<String>)
    ensures
        lines_view(r@) == plugins_report(profile_name@, plugins_view(plugins@)),
{
    let mut r: Vec<String> = Vec::new();
    if plugins.len() == 0 {
        let text = concat3("No plugins installed for profile '", profile_name, "'");
        r.push(text);
        assert(lines_view(r@) =~= seq![text@]);
        return r;
    }
    let count = u64_to_string(plugins.len() as u64);
    let mut head = concat3("Plugins for profile '", profile_name, "' (");
    head.append(count.as_str());
    head.append(" total):");
    r.push(head);
    let mut official = print_section(plugins, PluginSource::Official);
    let mut community = print_section(plugins, PluginSource::Community);
    let mut manual = print_section(plugins, PluginSource::Manual);
    let ghost a = official@;
    let ghost b = community@;
    let ghost c = manual@;
    r.append(&mut official);
    r.append(&mut community);
    r.append(&mut manual);
    assert(lines_view(r@) =~= seq![head@] + lines_view(a) + lines_view(b) + lines_view(c));
    r
}

/// The plugins as pairs of the name of the directory and the plugin.
pub open spec fn by_dir(plugins: Seq<PluginModel>) -> Seq<(Seq<char>, PluginModel)> {
    Seq::new(plugins.len(), |i: int| (plugins[i].dir_name, plugins[i]))
}

/// A line for each of the first `n` plugins of `here` whose directory
/// `there` lacks: the given mark and the plugin's name.
pub open spec fn only_lines(
    here: Seq<PluginModel>,
    there: Seq<PluginModel>,
    style: Style,
    mark: Seq<char>,
    n: nat,
) -> Seq<SegmentModel>
    decreases n,
{
    if n == 0 || n > here.len() {
        Seq::empty()
    } else {
        let before = only_lines(here, there, style, mark, (n - 1) as nat);
        if has_key(by_dir(there), here[n - 1].dir_name) {
            before
        } else {
            before.push(line(style, mark + display_name(here[n - 1])))
        }
    }
}

/// A line for each of the first `n` plugins of `here` that `there` has
/// too, in another version: the plugin's name and the two versions.
pub open spec fn version_lines(here: Seq<PluginModel>, there: Seq<PluginModel>, n: nat) -> Seq<
    SegmentModel,
>
    decreases n,
{
    if n == 0 || n > here.len() {
        Seq::empty()
    } else {
        let before = version_lines(here, there, (n - 1) as nat);
        let mine = here[n - 1];
        match find_key(by_dir(there), mine.dir_name, there.len()) {
            Some(j) => if mine.version != there[j].version {
                before.push(
                    line(
                        Style::Changed,
                        "    ~ "@ + display_name(mine) + " : "@ + or_unknown(mine.version) + " -> "@
                            + or_unknown(there[j].version),
                    ),
                )
            } else {
                before
            },
            None => before,
        }
    }
}

/// A heading before a group of lines, nothing where the group is empty.
pub open spec fn titled(title: Seq<char>, lines: Seq<SegmentModel>) -> Seq<SegmentModel> {
    if lines.len() == 0 {
        Seq::empty()
    } else {
        seq![line(Style::Plain, title)] + lines
    }
}

/// The comparison of the plugins of two profiles: how many each has, the
/// plugins only the first has, those only the second has, and those both
/// have in different versions.
pub open spec fn plugins_diff(
    name1: Seq<char>,
    plugins1: Seq<PluginModel>,
    name2: Seq<char>,
    plugins2: Seq<PluginModel>,
) -> Seq<SegmentModel> {
    let only1 = only_lines(plugins1, plugins2, Style::Added, "    + "@, plugins1.len());
    let only2 = only_lines(plugins2, plugins1, Style::Removed, "    - "@, plugins2.len());
    let versions = version_lines(plugins1, plugins2, plugins1.len());
    seq![
        line(Style::Bold, "=== Plugins ==="@),
        line(
            Style::Plain,
            "  "@ + name1 + " has "@ + decimal(plugins1.len()) + " plugins, "@ + name2 + " has "@
                + decimal(plugins2.len()) + " plugins"@,
        ),
    ] + titled("\n  Only in '"@ + name1 + "':"@, only1) + titled(
        "\n  Only in '"@ + name2 + "':"@,
        only2,
    ) + titled("\n  Version differences:"@, versions) + (if only1.len() == 0 && only2.len() == 0
        && versions.len() == 0 {
        seq![line(Style::Plain, "  (no differences)"@)]
    } else {
        Seq::empty()
    })
}

fn find_plugin(plugins: &Vec<PluginInfo>, dir_name: &String) -> (r: Option<usize>)
    ensures
        match r {
            Some(j) => j < plugins@.len() && find_key(
                by_dir(plugins_view(plugins@)),
                dir_name@,
                plugins@.len(),
            ) == Some(j as int),
            None => find_key(by_dir(plugins_view(plugins@)), dir_name@, plugins@.len()) is None,
        },
{
    let mut i: usize = 0;
    while i < plugins.len()
        invariant
            i <= plugins.len(),
            find_key(by_dir(plugins_view(plugins@)), dir_name@, i as nat) is None,
        decreases plugins.len() - i,
    {
        if plugins[i].dir_name == *dir_name {
            proof {
                lemma_find_key_more(
                    by_dir(plugins_view(plugins@)),
                    dir_name@,
                    (i + 1) as nat,
                    plugins@.len(),
                );
            }
            return Some(i);
        }
        i += 1;
    }
    None
}

fn collect_only(here: &Vec<PluginInfo>, there: &Vec<PluginInfo>, style: Style, mark: &str) -> (r: Vec<
    Segment,
>)
    ensures
        report_view(r@) == only_lines(
            plugins_view(here@),
            plugins_view(there@),
            style,
            mark@,
            here@.len(),
        ),
{
    let ghost a = plugins_view(here@);
    let ghost b = plugins_view(there@);
    let mut r: Vec<Segment> = Vec::new();
    let mut i: usize = 0;
    assert(report_view(r@) =~= only_lines(a, b, style, mark@, 0));
    while i < here.len()
        invariant
            i <= here.len(),
            a == plugins_view(here@),
            b == plugins_view(there@),
            report_view(r@) == only_lines(a, b, style, mark@, i as nat),
        decreases here.len() - i,
    {
        let found = find_plugin(there, &here[i].dir_name);
        proof {
            lemma_find_key_has_key(by_dir(b), a[i as int].dir_name);
        }
        if found.is_none() {
            push_line(&mut r, style, concat2(mark, shown_name(&here[i])));
        }
        i += 1;
    }
    r
}

fn same_text(a: &Option<String>, b: &Option<String>) -> (r: bool)
    ensures
        r == (opt_view(*a) == opt_view(*b)),
{
    match a {
        Some(x) => match b {
            Some(y) => *x == *y,
            None => false,
        },
        None => match b {
            Some(_) => false,
            None => true,
        },
    }
}

fn collect_versions(here: &Vec<PluginInfo>, there: &Vec<PluginInfo>) -> (r: Vec<Segment>)
    ensures
        report_view(r@) == version_lines(plugins_view(here@), plugins_view(there@), here@.len()),
{
    let ghost a = plugins_view(here@);
    let ghost b = plugins_view(there@);
    let mut r: Vec<Segment> = Vec::new();
    let mut i: usize = 0;
    assert(report_view(r@) =~= version_lines(a, b, 0));
    while i < here.len()
        invariant
            i <= here.len(),
            a == plugins_view(here@),
            b == plugins_view(there@),
            report_view(r@) == version_lines(a, b, i as nat),
        decreases here.len() - i,
    {
        let mine = &here[i];
        match find_plugin(there, &mine.dir_name) {
            Some(j) => {
                let theirs = &there[j];
                if !same_text(&mine.version, &theirs.version) {
                    let mut text = concat3("    ~ ", shown_name(mine), " : ");
                    text.append(shown_version(mine));
                    text.append(" -> ");
                    text.append(shown_version(theirs));
                    push_line(&mut r, Style::Changed, text);
                }
            },
            None => {},
        }
        i += 1;
    }
    r
}

fn push_titled(report: &mut Vec<Segment>, title: String, lines: Vec<Segment>)
    ensures
        report_view(final(report)@) == report_view(old(report)@) + titled(
            title@,
            report_view(lines@),
        ),
{
    if lines.len() > 0 {
        let ghost start = report_view(report@);
        push_line(report, Style::Plain, title);
        append_report(report, lines);
        assert(report_view(report@) =~= start + (seq![line(Style::Plain, title@)] + report_view(
            lines@,
        )));
    } else {
        assert(report_view(report@) + Seq::<SegmentModel>::empty() =~= report_view(report@));
    }
}

/// Compares the plugins of two profiles.
#[verifier::spinoff_prover]
#[verifier::rlimit(40)]
pub fn diff_plugins(
    name1: &str,
    plugins1: &Vec<PluginInfo>,
    name2: &str,
    plugins2: &Vec<PluginInfo>,
) -> (r: Vec<Segment>)
    ensures
        report_view(r@) == plugins_diff(
            name1@,
            plugins_view(plugins1@),
            name2@,
            plugins_view(plugins2@),
        ),
{
    let only1 = collect_only(plugins1, plugins2, Style::Added, "    + ");
    let only2 = collect_only(plugins2, plugins1, Style::Removed, "    - ");
    let versions = collect_versions(plugins1, plugins2);
    let none = only1.len() == 0 && only2.len() == 0 && versions.len() == 0;
    let mut r: Vec<Segment> = Vec::new();
    assert(report_view(r@) =~= Seq::<SegmentModel>::empty());
    push_line(&mut r, Style::Bold, String::from_str("=== Plugins ==="));
    let count1 = u64_to_string(plugins1.len() as u64);
    let count2 = u64_to_string(plugins2.len() as u64);
    let mut counts = concat3("  ", name1, " has ");
    counts.append(count1.as_str());
    counts.append(" plugins, ");
    counts.append(name2);
    counts.append(" has ");
    counts.append(count2.as_str());
    counts.append(" plugins");
    push_line(&mut r, Style::Plain, counts);
    assert(report_view(r@) =~= seq![
        line(Style::Bold, "=== Plugins ==="@),
        line(Style::Plain, counts@),
    ]);
    push_titled(&mut r, concat3("\n  Only in '", name1, "':"), only1);
    push_titled(&mut r, concat3("\n  Only in '", name2, "':"), only2);
    push_titled(&mut r, String::from_str("\n  Version differences:"), versions);
    if none {
        push_line(&mut r, Style::Plain, String::from_str("  (no differences)"));
        assert(report_view(r@) =~= plugins_diff(
            name1@,
            plugins_view(plugins1@),
            name2@,
            plugins_view(plugins2@),
        ));
    } else {
        assert(report_view(r@) =~= plugins_diff(
            name1@,
            plugins_view(plugins1@),
            name2@,
            plugins_view(plugins2@),
        ));
    }
    r
}

/// The style in which a difference is shown.
pub open spec fn style_of(kind: DiffKind) -> Style {
    match kind {
        DiffKind::Added => Style::Added,
        DiffKind::Removed => Style::Removed,
        DiffKind::Changed => Style::Changed,
    }
}

/// A line for each of the first `n` differences.
pub open spec fn entry_lines(entries: Seq<DiffEntryModel>, n: nat) -> Seq<SegmentModel>
    decreases n,
{
    if n == 0 || n > entries.len() {
        Seq::empty()
    } else {
        entry_lines(entries, (n - 1) as nat).push(
            line(style_of(entries[n - 1].kind), "  "@ + entries[n - 1].text),
        )
    }
}

/// The comparison of two settings trees, of which either may be missing:
/// which profile has one; else their differences, of which no more than
/// twenty are shown and the rest counted.
pub open spec fn settings_diff(
    name1: Seq<char>,
    settings1: Option<JsonModel>,
    name2: Seq<char>,
    settings2: Option<JsonModel>,
) -> Seq<SegmentModel> {
    seq![line(Style::Bold, "=== Settings ==="@)] + match (settings1, settings2) {
        (None, None) => seq![line(Style::Plain, "  Neither profile has settings.json"@)],
        (Some(_), None) => seq![
            line(Style::Plain, "  Only '"@ + name1 + "' has settings.json"@),
        ],
        (None, Some(_)) => seq![
            line(Style::Plain, "  Only '"@ + name2 + "' has settings.json"@),
        ],
        (Some(v1), Some(v2)) => {
            let diffs = diff_spec(v1, v2, Seq::empty());
            if diffs.len() == 0 {
                seq![line(Style::Plain, "  (no differences)"@)]
            } else if diffs.len() <= MAX_DIFF_DISPLAY {
                seq![line(Style::Plain, "  "@ + decimal(diffs.len()) + " differences found:\n"@)]
                    + entry_lines(diffs, diffs.len())
            } else {
                (seq![line(Style::Plain, "  "@ + decimal(diffs.len()) + " differences found:\n"@)]
                    + entry_lines(diffs, MAX_DIFF_DISPLAY as nat)).push(
                    line(
                        Style::Plain,
                        "  ... and "@ + decimal((diffs.len() - MAX_DIFF_DISPLAY) as nat) + " more"@,
                    ),
                )
            }
        },
    }
}

fn style_for(kind: DiffKind) -> (r: Style)
    ensures
        r == style_of(kind),
{
    match kind {
        DiffKind::Added => Style::Added,
        DiffKind::Removed => Style::Removed,
        DiffKind::Changed => Style::Changed,
    }
}

/// Reports the comparison of two settings trees, of which either may be
/// missing.
#[verifier::spinoff_prover]
#[verifier::rlimit(40)]
pub fn settings_report(
    name1: &str,
    settings1: Option<&JsonValue>,
    name2: &str,
    settings2: Option<&JsonValue>,
) -> (r: Vec<Segment>)
    requires
        settings1 matches Some(v) ==> v@.wf(),
        settings2 matches Some(v) ==> v@.wf(),
    ensures
        report_view(r@) == settings_diff(
            name1@,
            match settings1 {
                Some(v) => Some(v@),
                None => None,
            },
            name2@,
            match settings2 {
                Some(v) => Some(v@),
                None => None,
            },
        ),
{
    let mut r: Vec<Segment> = Vec::new();
    assert(report_view(r@) =~= Seq::<SegmentModel>::empty());
    push_line(&mut r, Style::Bold, String::from_str("=== Settings ==="));
    let ghost head = seq![line(Style::Bold, "=== Settings ==="@)];
    assert(report_view(r@) =~= head);
    match settings1 {
        None => match settings2 {
            None => {
                push_line(
                    &mut r,
                    Style::Plain,
                    String::from_str("  Neither profile has settings.json"),
                );
                assert(report_view(r@) =~= head + seq![
                    line(Style::Plain, "  Neither profile has settings.json"@),
                ]);
            },
            Some(_) => {
                let text = concat3("  Only '", name2, "' has settings.json");
                push_line(&mut r, Style::Plain, text);
                assert(report_view(r@) =~= head + seq![line(Style::Plain, text@)]);
            },
        },
        Some(v1) => match settings2 {
            None => {
                let text = concat3("  Only '", name1, "' has settings.json");
                push_line(&mut r, Style::Plain, text);
                assert(report_view(r@) =~= head + seq![line(Style::Plain, text@)]);
            },
            Some(v2) => {
                let empty = String::new();
                let diffs = diff_json_objects(v1, v2, empty.as_str());
                let ghost models = entries_view(diffs@);
                if diffs.len() == 0 {
                    push_line(&mut r, Style::Plain, String::from_str("  (no differences)"));
                    assert(report_view(r@) =~= head + seq![
                        line(Style::Plain, "  (no differences)"@),
                    ]);
                } else {
                    let count = u64_to_string(diffs.len() as u64);
                    let found = concat3("  ", count.as_str(), " differences found:\n");
                    push_line(&mut r, Style::Plain, found);
                    let ghost start = head + seq![line(Style::Plain, found@)];
                    assert(report_view(r@) =~= start + entry_lines(models, 0));
                    let shown = if diffs.len() <= MAX_DIFF_DISPLAY {
                        diffs.len()
                    } else {
                        MAX_DIFF_DISPLAY
                    };
                    let mut i: usize = 0;
                    while i < shown
                        invariant
                            i <= shown <= diffs.len(),
                            models == entries_view(diffs@),
                            report_view(r@) == start + entry_lines(models, i as nat),
                        decreases shown - i,
                    {
                        let text = concat2("  ", diffs[i].text.as_str());
                        push_line(&mut r, style_for(diffs[i].kind), text);
                        assert(report_view(r@) =~= start + entry_lines(models, (i + 1) as nat));
                        i += 1;
                    }
                    if diffs.len() > MAX_DIFF_DISPLAY {
                        let rest = u64_to_string((diffs.len() - MAX_DIFF_DISPLAY) as u64);
                        let more = concat3("  ... and ", rest.as_str(), " more");
                        push_line(&mut r, Style::Plain, more);
                        assert(report_view(r@) =~= head + (seq![line(Style::Plain, found@)]
                            + entry_lines(models, MAX_DIFF_DISPLAY as nat)).push(
                            line(Style::Plain, more@),
                        ));
                    } else {
                        assert(report_view(r@) =~= head + (seq![line(Style::Plain, found@)]
                            + entry_lines(models, models.len())));
                    }
                }
            },
        },
    }
    r
}

/// The settings tree that a settings file holds, if there is a file and
/// it can be parsed.
pub open spec fn parsed_settings(text: Option<Seq<char>>) -> Option<JsonModel> {
    match text {
        Some(t) => json_parse(t),
        None => None,
    }
}

/// Compares the settings files of two profiles from their texts. A file
/// that is missing or cannot be parsed counts as no settings.
pub fn diff_settings(name1: &str, text1: Option<&str>, name2: &str, text2: Option<&str>) -> (r: Vec<
    Segment,
>)
    ensures
        report_view(r@) == settings_diff(
            name1@,
            parsed_settings(
                match text1 {
                    Some(t) => Some(t@),
                    None => None,
                },
            ),
            name2@,
            parsed_settings(
                match text2 {
                    Some(t) => Some(t@),
                    None => None,
                },
            ),
        ),
{
    let settings1 = match text1 {
        Some(t) => parse_json(t),
        None => None,
    };
    let settings2 = match text2 {
        Some(t) => parse_json(t),
        None => None,
    };
    settings_report(name1, settings1.as_ref(), name2, settings2.as_ref())
}

/// The whole comparison of two profiles: a heading, the plugins, an empty
/// line, the settings.
pub open spec fn profiles_diff(
    name1: Seq<char>,
    plugins1: Seq<PluginModel>,
    settings1: Option<JsonModel>,
    name2: Seq<char>,
    plugins2: Seq<PluginModel>,
    settings2: Option<JsonModel>,
) -> Seq<SegmentModel> {
    seq![
        SegmentModel { style: Style::Bold, text: "Comparing profiles: "@, ends_line: false },
        line(Style::Plain, "'"@ + name1 + "' vs '"@ + name2 + "'\n"@),
    ] + plugins_diff(name1, plugins1, name2, plugins2) + seq![line(Style::Plain, Seq::empty())]
        + settings_diff(name1, settings1, name2, settings2)
}

/// Compares two profiles: their plugins and their settings files.
pub fn diff_profiles(
    name1: &str,
    plugins1: &Vec<PluginInfo>,
    text1: Option<&str>,
    name2: &str,
    plugins2: &Vec<PluginInfo>,
    text2: Option<&str>,
) -> (r: Vec<Segment>)
    ensures
        report_view(r@) == profiles_diff(
            name1@,
            plugins_view(plugins1@),
            parsed_settings(
                match text1 {
                    Some(t) => Some(t@),
                    None => None,
                },
            ),
            name2@,
            plugins_view(plugins2@),
            parsed_settings(
                match text2 {
                    Some(t) => Some(t@),
                    None => None,
                },
            ),
        ),
{
    let mut r: Vec<Segment> = Vec::new();
    let first = Segment {
        style: Style::Bold,
        text: String::from_str("Comparing profiles: "),
        ends_line: false,
    };
    r.push(first);
    assert(report_view(r@) =~= seq![first@]);
    let mut names = concat3("'", name1, "' vs '");
    names.append(name2);
    names.append("'\n");
    push_line(&mut r, Style::Plain, names);
    let ghost head = report_view(r@);
    append_report(&mut r, diff_plugins(name1, plugins1, name2, plugins2));
    push_line(&mut r, Style::Plain, String::new());
    append_report(&mut r, diff_settings(name1, text1, name2, text2));
    assert(head =~= seq![first@, line(Style::Plain, names@)]);
    r
}

} // verus!
