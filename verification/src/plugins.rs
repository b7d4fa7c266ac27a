//! The inventory of a profile's plugins: those installed by hand, found
//! as directories, and those that a repository manifest marks as installed.

use crate::text::{chars_of, concat2, lemma_lex_transitive, lex_lt, opt_view, text_less};
use vstd::prelude::*;
use vstd::seq_lib::to_multiset_insert;
use vstd::string::*;

verus! {

/// The bit of a plugin's status that marks it as installed.
pub const INSTALLED_BIT: u32 = 2;

/// Where a plugin comes from.
#[derive(Clone, Copy, Debug, PartialEq, Eq, Structural)]
pub enum PluginSource {
    Manual,
    Official,
    Community,
}

/// One installed plugin.
#[derive(Debug, PartialEq, Eq)]
pub struct PluginInfo {
    /// The plugin's directory, or its path within its repository.
    pub dir_name: String,
    pub name: Option<String>,
    pub version: Option<String>,
    pub author: Option<String>,
    pub source: PluginSource,
}

/// Mathematical model of a [`PluginInfo`].
pub struct PluginModel {
    pub dir_name: Seq<char>,
    pub name: Option<Seq<char>>,
    pub version: Option<Seq<char>>,
    pub author: Option<Seq<char>>,
    pub source: PluginSource,
}

impl View for PluginInfo {
    type V = PluginModel;

    open spec fn view(&self) -> PluginModel {
        PluginModel {
            dir_name: self.dir_name@,
            name: opt_view(self.name),
            version: opt_view(self.version),
            author: opt_view(self.author),
            source: self.source,
        }
    }
}

/// The models of a sequence of plugins.
pub open spec fn plugins_view(plugins: Seq<PluginInfo>) -> Seq<PluginModel> {
    Seq::new(plugins.len(), |i: int| plugins[i]@)
}

/// What a plugin's own metadata file declares.
#[derive(Debug, PartialEq, Eq)]
pub struct PluginMeta {
    pub name: Option<String>,
    pub version: Option<String>,
    pub author: Option<String>,
}

/// One entry of the plugins directory: its name, whether it is a
/// directory, and its metadata if it has a metadata file that can be read.
#[derive(Debug, PartialEq, Eq)]
pub struct PluginDir {
    pub dir_name: String,
    pub is_dir: bool,
    pub meta: Option<PluginMeta>,
}

/// Mathematical model of a [`PluginDir`].
pub struct PluginDirModel {
    pub dir_name: Seq<char>,
    pub is_dir: bool,
    pub meta: Option<(Option<Seq<char>>, Option<Seq<char>>, Option<Seq<char>>)>,
}

impl View for PluginDir {
    type V = PluginDirModel;

    open spec fn view(&self) -> PluginDirModel {
        PluginDirModel {
            dir_name: self.dir_name@,
            is_dir: self.is_dir,
            meta: match self.meta {
                Some(m) => Some((opt_view(m.name), opt_view(m.version), opt_view(m.author))),
                None => None,
            },
        }
    }
}

/// The models of the entries of the plugins directory.
pub open spec fn dirs_view(dirs: Seq<PluginDir>) -> Seq<PluginDirModel> {
    Seq::new(dirs.len(), |i: int| dirs[i]@)
}

/// One plugin record of a repository manifest.
#[derive(Debug, PartialEq, Eq)]
pub struct RepoPlugin {
    pub name: Option<String>,
    pub version: Option<String>,
    pub author: Option<String>,
    pub path: Option<String>,
    pub plugin_status: u32,
}

/// Mathematical model of a [`RepoPlugin`].
pub struct RepoPluginModel {
    pub name: Option<Seq<char>>,
    pub version: Option<Seq<char>>,
    pub author: Option<Seq<char>>,
    pub path: Option<Seq<char>>,
    pub plugin_status: u32,
}

impl View for RepoPlugin {
    type V = RepoPluginModel;

    open spec fn view(&self) -> RepoPluginModel {
        RepoPluginModel {
            name: opt_view(self.name),
            version: opt_view(self.version),
            author: opt_view(self.author),
            path: opt_view(self.path),
            plugin_status: self.plugin_status,
        }
    }
}

/// One repository of the manifest.
#[derive(Debug, PartialEq, Eq)]
pub struct Repository {
    pub plugins: Vec<RepoPlugin>,
}

impl View for Repository {
    type V = Seq<RepoPluginModel>;

    open spec fn view(&self) -> Seq<RepoPluginModel> {
        Seq::new(self.plugins@.len(), |i: int| self.plugins@[i]@)
    }
}

/// The models of the repositories of a manifest.
pub open spec fn repos_view(repos: Seq<Repository>) -> Seq<Seq<RepoPluginModel>> {
    Seq::new(repos.len(), |i: int| repos[i]@)
}

/// Whether a status marks its plugin as installed.
pub open spec fn installed(status: u32) -> bool {
    status & INSTALLED_BIT != 0
}

/// The installed bit alone decides. A status of three is installed, a
/// status of one is not, and changing any other bits changes nothing.
pub proof fn lemma_installed_bit(status: u32, others: u32)
    ensures
        installed(3),
        !installed(1),
        installed(status) == installed(status ^ (others & !INSTALLED_BIT)),
        installed(status) == installed(status & INSTALLED_BIT),
{
    assert(3u32 & 2u32 != 0) by (bit_vector);
    assert(1u32 & 2u32 == 0) by (bit_vector);
    assert((status & 2u32 != 0) == ((status ^ (others & !2u32)) & 2u32 != 0)) by (bit_vector);
    assert((status & 2u32 != 0) == ((status & 2u32) & 2u32 != 0)) by (bit_vector);
}

/// The plugin that a directory of the plugins directory stands for: its
/// declared fields where it has metadata, else only its directory name.
pub open spec fn manual_plugin(dir: PluginDirModel) -> PluginModel {
    match dir.meta {
        Some(meta) => PluginModel {
            dir_name: dir.dir_name,
            name: meta.0,
            version: meta.1,
            author: meta.2,
            source: PluginSource::Manual,
        },
        None => PluginModel {
            dir_name: dir.dir_name,
            name: None,
            version: None,
            author: None,
            source: PluginSource::Manual,
        },
    }
}

/// The plugins installed by hand among the first `n` entries: one for
/// each directory.
pub open spec fn manual_plugins(dirs: Seq<PluginDirModel>, n: nat) -> Seq<PluginModel>
    decreases n,
{
    if n == 0 || n > dirs.len() {
        Seq::empty()
    } else {
        let before = manual_plugins(dirs, (n - 1) as nat);
        if dirs[n - 1].is_dir {
            before.push(manual_plugin(dirs[n - 1]))
        } else {
            before
        }
    }
}

/// The plugin that an installed record of a repository stands for.
pub open spec fn repo_plugin(record: RepoPluginModel, source: PluginSource) -> PluginModel {
    PluginModel {
        dir_name: match record.path {
            Some(p) => p,
            None => Seq::empty(),
        },
        name: record.name,
        version: record.version,
        author: record.author,
        source,
    }
}

/// The installed plugins among the first `n` records of one repository.
pub open spec fn installed_plugins(records: Seq<RepoPluginModel>, source: PluginSource, n: nat) -> Seq<
    PluginModel,
>
    decreases n,
{
    if n == 0 || n > records.len() {
        Seq::empty()
    } else {
        let before = installed_plugins(records, source, (n - 1) as nat);
        if installed(records[n - 1].plugin_status) {
            before.push(repo_plugin(records[n - 1], source))
        } else {
            before
        }
    }
}

/// How a repository is classed: the first of the manifest is the official
/// one, every other a community repository.
pub open spec fn source_at(index: int) -> PluginSource {
    if index == 0 {
        PluginSource::Official
    } else {
        PluginSource::Community
    }
}

/// The installed plugins of the first `n` repositories, in their order.
pub open spec fn repo_plugins(repos: Seq<Seq<RepoPluginModel>>, n: nat) -> Seq<PluginModel>
    decreases n,
{
    if n == 0 || n > repos.len() {
        Seq::empty()
    } else {
        repo_plugins(repos, (n - 1) as nat) + installed_plugins(
            repos[n - 1],
            source_at(n - 1),
            repos[n - 1].len(),
        )
    }
}

/// The name a plugin is shown and ordered by: the name it declares, else
/// its directory or path.
pub open spec fn display_name(p: PluginModel) -> Seq<char> {
    match p.name {
        Some(n) => n,
        None => p.dir_name,
    }
}

/// The lower-case form of a text, as std's `str::to_lowercase` gives it.
pub uninterp spec fn lowercase(s: Seq<char>) -> Seq<char>;

/// `str::to_lowercase`: the lower-case form of the text. The contract only
/// names the result, which depends on the text alone.
#[verifier::external_body]
fn to_lowercase(s: &str) -> (r: String)
    ensures
        r@ == lowercase(s@),
{
    s.to_lowercase()
}

/// The key a plugin is ordered by.
pub open spec fn sort_key(p: PluginModel) -> Seq<char> {
    lowercase(display_name(p))
}

/// Where a plugin with the given key goes into a sequence ordered by key:
/// before the first plugin at or after `from` whose key comes later, and so
/// behind every plugin of the same key.
pub open spec fn place(sorted: Seq<PluginModel>, key: Seq<char>, from: nat) -> nat
    decreases sorted.len() - from,
{
    if from >= sorted.len() {
        sorted.len()
    } else if lex_lt(key, sort_key(sorted[from as int])) {
        from
    } else {
        place(sorted, key, from + 1)
    }
}

/// The first `n` plugins ordered by their keys; plugins of the same key
/// keep their order.
pub open spec fn sorted_by_name(plugins: Seq<PluginModel>, n: nat) -> Seq<PluginModel>
    decreases n,
{
    if n == 0 || n > plugins.len() {
        Seq::empty()
    } else {
        let before = sorted_by_name(plugins, (n - 1) as nat);
        before.insert(place(before, sort_key(plugins[n - 1]), 0) as int, plugins[n - 1])
    }
}

/// Whether no plugin comes before one whose key is earlier.
pub open spec fn ascending(plugins: Seq<PluginModel>) -> bool {
    forall|i: int, j: int|
        0 <= i < j < plugins.len() ==> !lex_lt(
            sort_key(#[trigger] plugins[j]),
            sort_key(#[trigger] plugins[i]),
        )
}

proof fn lemma_place(sorted: Seq<PluginModel>, key: Seq<char>, from: nat)
    requires
        from <= sorted.len(),
    ensures
        from <= place(sorted, key, from) <= sorted.len(),
        forall|i: int|
            from <= i < place(sorted, key, from) ==> !lex_lt(key, sort_key(#[trigger] sorted[i])),
        place(sorted, key, from) < sorted.len() ==> lex_lt(
            key,
            sort_key(sorted[place(sorted, key, from) as int]),
        ),
    decreases sorted.len() - from,
{
    if from < sorted.len() && !lex_lt(key, sort_key(sorted[from as int])) {
        lemma_place(sorted, key, from + 1);
    }
}

/// Ordering the plugins loses none and adds none, and the result is in
/// ascending order of the keys.
#[verifier::spinoff_prover]
#[verifier::rlimit(40)]
pub proof fn lemma_sorted_by_name(plugins: Seq<PluginModel>, n: nat)
    requires
        n <= plugins.len(),
    ensures
        sorted_by_name(plugins, n).len() == n,
        ascending(sorted_by_name(plugins, n)),
        sorted_by_name(plugins, n).to_multiset() == plugins.take(n as int).to_multiset(),
    decreases n,
{
    if n == 0 {
        assert(plugins.take(0) =~= Seq::empty());
    } else {
        let before = sorted_by_name(plugins, (n - 1) as nat);
        lemma_sorted_by_name(plugins, (n - 1) as nat);
        let x = plugins[n - 1];
        let key = sort_key(x);
        let at = place(before, key, 0) as int;
        lemma_place(before, key, 0);
        let after = before.insert(at, x);
        assert forall|i: int, j: int| 0 <= i < j < after.len() implies !lex_lt(
            sort_key(#[trigger] after[j]),
            sort_key(#[trigger] after[i]),
        ) by {
            if j < at {
                assert(after[i] == before[i] && after[j] == before[j]);
            } else if j == at {
                assert(after[i] == before[i]);
            } else if i < at {
                assert(after[i] == before[i] && after[j] == before[j - 1]);
            } else if i == at {
                assert(after[j] == before[j - 1]);
                let kj = sort_key(before[j - 1]);
                let ka = sort_key(before[at]);
                if lex_lt(kj, key) {
                    lemma_lex_transitive(kj, key, ka);
                    if j - 1 > at {
                        assert(!lex_lt(sort_key(before[j - 1]), sort_key(before[at])));
                    } else {
                        crate::text::lemma_lex_irreflexive(ka);
                    }
                }
            } else {
                assert(after[i] == before[i - 1] && after[j] == before[j - 1]);
            }
        }
        to_multiset_insert(before, at, x);
        assert(plugins.take(n as int) =~= plugins.take(n - 1).push(x));
        vstd::seq_lib::to_multiset_build(plugins.take(n - 1), x);
    }
}

/// The whole inventory: the plugins installed by hand, then those of the
/// repositories, ordered by name without regard to case.
pub open spec fn inventory(dirs: Seq<PluginDirModel>, repos: Seq<Seq<RepoPluginModel>>) -> Seq<
    PluginModel,
> {
    let all = manual_plugins(dirs, dirs.len()) + repo_plugins(repos, repos.len());
    sorted_by_name(all, all.len())
}

/// A copy of an optional string.
pub fn clone_opt(o: &Option<String>) -> (r: Option<String>)
    ensures
        opt_view(r) == opt_view(*o),
{
    match o {
        Some(s) => Some(s.clone()),
        None => None,
    }
}

/// A copy of a plugin.
pub fn clone_plugin(p: &PluginInfo) -> (r: PluginInfo)
    ensures
        r@ == p@,
{
    PluginInfo {
        dir_name: p.dir_name.clone(),
        name: clone_opt(&p.name),
        version: clone_opt(&p.version),
        author: clone_opt(&p.author),
        source: p.source,
    }
}

/// The plugin that a directory stands for, from its metadata if it has
/// any. Missing metadata is no error: the plugin is then known by its
/// directory alone.
pub fn read_plugin_metadata(dir_name: &str, meta: Option<&PluginMeta>) -> (r: PluginInfo)
    ensures
        r@ == manual_plugin(
            PluginDirModel {
                dir_name: dir_name@,
                is_dir: true,
                meta: match meta {
                    Some(m) => Some((opt_view(m.name), opt_view(m.version), opt_view(m.author))),
                    None => None,
                },
            },
        ),
{
    match meta {
        Some(m) => PluginInfo {
            dir_name: String::from_str(dir_name),
            name: clone_opt(&m.name),
            version: clone_opt(&m.version),
            author: clone_opt(&m.author),
            source: PluginSource::Manual,
        },
        None => PluginInfo {
            dir_name: String::from_str(dir_name),
            name: None,
            version: None,
            author: None,
            source: PluginSource::Manual,
        },
    }
}

/// The plugins installed by hand: one for each directory among the
/// entries of the plugins directory, in their order.
pub fn read_manual_plugins(dirs: &Vec<PluginDir>) -> (plugins: Vec<PluginInfo>)
    ensures
        plugins_view(plugins@) == manual_plugins(dirs_view(dirs@), dirs@.len()),
{
    let mut plugins: Vec<PluginInfo> = Vec::new();
    let mut i: usize = 0;
    assert(plugins_view(plugins@) =~= manual_plugins(dirs_view(dirs@), 0));
    while i < dirs.len()
        invariant
            i <= dirs.len(),
            plugins_view(plugins@) == manual_plugins(dirs_view(dirs@), i as nat),
        decreases dirs.len() - i,
    {
        if dirs[i].is_dir {
            let ghost prev = plugins@;
            let plugin = read_plugin_metadata(dirs[i].dir_name.as_str(), dirs[i].meta.as_ref());
            plugins.push(plugin);
            assert(plugin@ == manual_plugin(dirs_view(dirs@)[i as int]));
            assert(plugins_view(plugins@) =~= plugins_view(prev).push(plugin@));
        }
        i += 1;
    }
    plugins
}

/// How the repository at the given place of the manifest is classed.
pub fn classify_repository(index: usize) -> (r: PluginSource)
    ensures
        r == source_at(index as int),
{
    if index == 0 {
        PluginSource::Official
    } else {
        PluginSource::Community
    }
}

fn read_one_repo(records: &Vec<RepoPlugin>, source: PluginSource, plugins: &mut Vec<PluginInfo>)
    ensures
        plugins_view(final(plugins)@) == plugins_view(old(plugins)@) + installed_plugins(
            Seq::new(records@.len(), |i: int| records@[i]@),
            source,
            records@.len(),
        ),
{
    let ghost before = plugins_view(plugins@);
    let ghost models = Seq::new(records@.len(), |i: int| records@[i]@);
    let mut i: usize = 0;
    assert(plugins_view(plugins@) =~= before + installed_plugins(models, source, 0));
    while i < records.len()
        invariant
            i <= records.len(),
            models == Seq::new(records@.len(), |i: int| records@[i]@),
            plugins_view(plugins@) == before + installed_plugins(models, source, i as nat),
        decreases records.len() - i,
    {
        let record = &records[i];
        if record.plugin_status & INSTALLED_BIT != 0 {
            let ghost prev = plugins@;
            let plugin = PluginInfo {
                dir_name: match &record.path {
                    Some(p) => p.clone(),
                    None => String::new(),
                },
                name: clone_opt(&record.name),
                version: clone_opt(&record.version),
                author: clone_opt(&record.author),
                source,
            };
            plugins.push(plugin);
            assert(plugin@ == repo_plugin(models[i as int], source));
            assert(plugins_view(plugins@) =~= plugins_view(prev).push(plugin@));
            assert(before + installed_plugins(models, source, (i + 1) as nat) =~= (before
                + installed_plugins(models, source, i as nat)).push(plugin@));
        }
        i += 1;
    }
}

/// The plugins that the manifest marks as installed: a record counts
/// exactly when the installed bit of its status is set. The plugins of the
/// first repository are classed as official, all others as community.
pub fn read_repo_plugins(repos: &Vec<Repository>) -> (plugins: Vec<PluginInfo>)
    ensures
        plugins_view(plugins@) == repo_plugins(repos_view(repos@), repos@.len()),
{
    let mut plugins: Vec<PluginInfo> = Vec::new();
    let mut idx: usize = 0;
    assert(plugins_view(plugins@) =~= repo_plugins(repos_view(repos@), 0));
    while idx < repos.len()
        invariant
            idx <= repos.len(),
            plugins_view(plugins@) == repo_plugins(repos_view(repos@), idx as nat),
        decreases repos.len() - idx,
    {
        read_one_repo(&repos[idx].plugins, classify_repository(idx), &mut plugins);
        assert(repos_view(repos@)[idx as int] == repos@[idx as int]@);
        idx += 1;
    }
    plugins
}

fn key_of(p: &PluginInfo) -> (key: Vec<char>)
    ensures
        key@ == sort_key(p@),
{
    let lower = match &p.name {
        Some(n) => to_lowercase(n.as_str()),
        None => to_lowercase(p.dir_name.as_str()),
    };
    chars_of(lower.as_str())
}

fn find_place(keys: &Vec<Vec<char>>, sorted: Ghost<Seq<PluginModel>>, key: &Vec<char>) -> (at: usize)
    requires
        keys@.len() == sorted@.len(),
        forall|i: int| 0 <= i < keys@.len() ==> (#[trigger] keys@[i])@ == sort_key(sorted@[i]),
    ensures
        at == place(sorted@, key@, 0),
        at <= keys@.len(),
{
    let mut at: usize = 0;
    while at < keys.len() && !text_less(key, &keys[at])
        invariant
            at <= keys.len(),
            keys@.len() == sorted@.len(),
            forall|i: int| 0 <= i < keys@.len() ==> (#[trigger] keys@[i])@ == sort_key(sorted@[i]),
            place(sorted@, key@, 0) == place(sorted@, key@, at as nat),
        decreases keys.len() - at,
    {
        at += 1;
    }
    at
}

/// Orders plugins by the name they are shown by, without regard to case;
/// plugins of the same name keep their order.
#[verifier::spinoff_prover]
#[verifier::rlimit(40)]
pub fn sort_plugins(plugins: &Vec<PluginInfo>) -> (sorted: Vec<PluginInfo>)
    ensures
        plugins_view(sorted@) == sorted_by_name(plugins_view(plugins@), plugins@.len()),
{
    let mut sorted: Vec<PluginInfo> = Vec::new();
    let mut keys: Vec<Vec<char>> = Vec::new();
    let mut i: usize = 0;
    assert(plugins_view(sorted@) =~= sorted_by_name(plugins_view(plugins@), 0));
    while i < plugins.len()
        invariant
            i <= plugins.len(),
            keys@.len() == sorted@.len(),
            forall|k: int|
                0 <= k < keys@.len() ==> (#[trigger] keys@[k])@ == sort_key(
                    plugins_view(sorted@)[k],
                ),
            plugins_view(sorted@) == sorted_by_name(plugins_view(plugins@), i as nat),
        decreases plugins.len() - i,
    {
        let ghost prev = sorted@;
        let ghost prev_keys = keys@;
        let plugin = clone_plugin(&plugins[i]);
        let key = key_of(&plugin);
        let at = find_place(&keys, Ghost(plugins_view(sorted@)), &key);
        sorted.insert(at, plugin);
        keys.insert(at, key);
        assert(plugins_view(sorted@) =~= plugins_view(prev).insert(at as int, plugin@));
        assert forall|k: int| 0 <= k < keys@.len() implies (#[trigger] keys@[k])@ == sort_key(
            plugins_view(sorted@)[k],
        ) by {
            if k < at {
                assert(keys@[k] == prev_keys[k]);
                assert(plugins_view(sorted@)[k] == plugins_view(prev)[k]);
            } else if k > at {
                assert(keys@[k] == prev_keys[k - 1]);
                assert(plugins_view(sorted@)[k] == plugins_view(prev)[k - 1]);
            }
        }
        i += 1;
    }
    sorted
}

/// The plugins directory as it was found.
#[derive(Debug, PartialEq, Eq)]
pub enum PluginsDir {
    /// There is no plugins directory.
    Absent,
    /// The directory could not be read.
    Unreadable { detail: String },
    /// An entry of the directory could not be read.
    EntryUnreadable { detail: String },
    Listed(Vec<PluginDir>),
}

/// The repository manifest as it was found.
#[derive(Debug, PartialEq, Eq)]
pub enum Manifest {
    /// There is no manifest.
    Absent,
    /// The manifest could not be read.
    Unreadable { detail: String },
    /// The manifest is not of the expected form.
    Malformed { detail: String },
    Parsed(Vec<Repository>),
}

/// Why the plugins could not be listed.
#[derive(Debug, PartialEq, Eq)]
pub enum PluginError {
    ReadDir { detail: String },
    ReadEntry { detail: String },
    ReadManifest { detail: String },
    ParseManifest { detail: String },
}

/// Mathematical model of a [`PluginError`].
pub enum PluginErrorModel {
    ReadDir { detail: Seq<char> },
    ReadEntry { detail: Seq<char> },
    ReadManifest { detail: Seq<char> },
    ParseManifest { detail: Seq<char> },
}

impl View for PluginError {
    type V = PluginErrorModel;

    open spec fn view(&self) -> PluginErrorModel {
        match self {
            PluginError::ReadDir { detail } => PluginErrorModel::ReadDir { detail: detail@ },
            PluginError::ReadEntry { detail } => PluginErrorModel::ReadEntry { detail: detail@ },
            PluginError::ReadManifest { detail } => PluginErrorModel::ReadManifest {
                detail: detail@,
            },
            PluginError::ParseManifest { detail } => PluginErrorModel::ParseManifest {
                detail: detail@,
            },
        }
    }
}

impl PluginError {
    /// The message shown to the operator.
    pub fn message(&self) -> (r: String)
        ensures
            r@ == match self@ {
                PluginErrorModel::ReadDir { detail } => "Failed to read plugins directory: "@
                    + detail,
                PluginErrorModel::ReadEntry { detail } => "Failed to read entry: "@ + detail,
                PluginErrorModel::ReadManifest { detail } => "Failed to read plugin_status.json: "@
                    + detail,
                PluginErrorModel::ParseManifest { detail } => "Failed to parse plugin_status.json: "@
                    + detail,
            },
    {
        match self {
            PluginError::ReadDir { detail } => concat2(
                "Failed to read plugins directory: ",
                detail.as_str(),
            ),
            PluginError::ReadEntry { detail } => concat2("Failed to read entry: ", detail.as_str()),
            PluginError::ReadManifest { detail } => concat2(
                "Failed to read plugin_status.json: ",
                detail.as_str(),
            ),
            PluginError::ParseManifest { detail } => concat2(
                "Failed to parse plugin_status.json: ",
                detail.as_str(),
            ),
        }
    }
}

/// The entries of the plugins directory, none where there is no directory.
pub open spec fn listed_dirs(dir: PluginsDir) -> Seq<PluginDirModel> {
    match dir {
        PluginsDir::Listed(dirs) => dirs_view(dirs@),
        _ => Seq::empty(),
    }
}

/// The repositories of the manifest, none where there is no manifest.
pub open spec fn parsed_repos(manifest: Manifest) -> Seq<Seq<RepoPluginModel>> {
    match manifest {
        Manifest::Parsed(repos) => repos_view(repos@),
        _ => Seq::empty(),
    }
}

/// The error that stops the listing, if any: a failure reading the
/// plugins directory comes first, then a failure reading or parsing the
/// manifest.
pub open spec fn listing_error(dir: PluginsDir, manifest: Manifest) -> Option<PluginErrorModel> {
    match dir {
        PluginsDir::Unreadable { detail } => Some(PluginErrorModel::ReadDir { detail: detail@ }),
        PluginsDir::EntryUnreadable { detail } => Some(
            PluginErrorModel::ReadEntry { detail: detail@ },
        ),
        _ => match manifest {
            Manifest::Unreadable { detail } => Some(
                PluginErrorModel::ReadManifest { detail: detail@ },
            ),
            Manifest::Malformed { detail } => Some(
                PluginErrorModel::ParseManifest { detail: detail@ },
            ),
            _ => None,
        },
    }
}

/// Lists the plugins of a profile: those installed by hand and those that
/// the manifest marks as installed, ordered by name without regard to case.
/// A plugins directory or a manifest that cannot be read, or a manifest
/// that cannot be parsed, fails the whole listing.
#[verifier::spinoff_prover]
#[verifier::rlimit(40)]
pub fn list_plugins(dir: &PluginsDir, manifest: &Manifest) -> (r: Result<Vec<PluginInfo>, PluginError>)
    ensures
        match r {
            Ok(plugins) => listing_error(*dir, *manifest) is None && plugins_view(plugins@)
                == inventory(listed_dirs(*dir), parsed_repos(*manifest)),
            Err(e) => listing_error(*dir, *manifest) == Some(e@),
        },
{
    let mut plugins: Vec<PluginInfo> = Vec::new();
    match dir {
        PluginsDir::Absent => {
            assert(plugins_view(plugins@) =~= manual_plugins(listed_dirs(*dir), 0));
        },
        PluginsDir::Unreadable { detail } => {
            return Err(PluginError::ReadDir { detail: detail.clone() });
        },
        PluginsDir::EntryUnreadable { detail } => {
            return Err(PluginError::ReadEntry { detail: detail.clone() });
        },
        PluginsDir::Listed(dirs) => {
            plugins = read_manual_plugins(dirs);
        },
    }
    let ghost manual = plugins@;
    match manifest {
        Manifest::Absent => {
            assert(plugins_view(plugins@) =~= plugins_view(manual) + repo_plugins(
                parsed_repos(*manifest),
                0,
            ));
        },
        Manifest::Unreadable { detail } => {
            return Err(PluginError::ReadManifest { detail: detail.clone() });
        },
        Manifest::Malformed { detail } => {
            return Err(PluginError::ParseManifest { detail: detail.clone() });
        },
        Manifest::Parsed(repos) => {
            let mut found = read_repo_plugins(repos);
            let ghost added = found@;
            plugins.append(&mut found);
            assert(plugins_view(plugins@) =~= plugins_view(manual) + plugins_view(added));
        },
    }
    Ok(sort_plugins(&plugins))
}

} // verus!
