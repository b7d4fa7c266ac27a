//! Deciding whether a newer release is available.

use crate::text::{chars_of, concat3, lines_view, opt_view, pad_right, padded, string_of};
use vstd::prelude::*;
use vstd::string::*;

verus! {

/// How long a check stays fresh, in seconds: one day.
pub const CHECK_INTERVAL_SECS: u64 = 86400;

/// The name of the file that remembers the last check.
pub const CACHE_FILE: &'static str = "update-check.json";

/// What the last check found.
#[derive(Debug, PartialEq, Eq)]
pub struct UpdateCache {
    /// When the last check was made, in seconds since the Unix epoch.
    pub last_check: u64,
    pub latest_version: Option<String>,
    pub release_url: Option<String>,
}

impl Default for UpdateCache {
    fn default() -> (r: UpdateCache)
        ensures
            r.last_check == 0,
            r.latest_version is None,
            r.release_url is None,
    {
        UpdateCache { last_check: 0, latest_version: None, release_url: None }
    }
}

/// A release newer than the running one.
#[derive(Debug, PartialEq, Eq)]
pub struct UpdateInfo {
    pub current: String,
    pub latest: String,
    pub url: String,
}

/// Mathematical model of an [`UpdateInfo`].
pub struct UpdateModel {
    pub current: Seq<char>,
    pub latest: Seq<char>,
    pub url: Seq<char>,
}

impl View for UpdateInfo {
    type V = UpdateModel;

    open spec fn view(&self) -> UpdateModel {
        UpdateModel { current: self.current@, latest: self.latest@, url: self.url@ }
    }
}

/// A version number taken apart: the three numbers, the pre-release tag
/// and the build tag, the tags empty where the version has none.
#[derive(Debug, PartialEq, Eq)]
pub struct Version {
    pub major: u64,
    pub minor: u64,
    pub patch: u64,
    pub pre: String,
    pub build: String,
}

/// Mathematical model of a [`Version`].
pub struct VersionModel {
    pub major: u64,
    pub minor: u64,
    pub patch: u64,
    pub pre: Seq<char>,
    pub build: Seq<char>,
}

impl View for Version {
    type V = VersionModel;

    open spec fn view(&self) -> VersionModel {
        VersionModel {
            major: self.major,
            minor: self.minor,
            patch: self.patch,
            pre: self.pre@,
            build: self.build@,
        }
    }
}

/// What `semver` reads from a text: the version that the text denotes, or
/// nothing where the text is no version.
pub uninterp spec fn semver_parse(text: Seq<char>) -> Option<VersionModel>;

/// How `semver` orders two versions of the same three numbers by their
/// pre-release and build tags: whether the first comes after the second.
pub uninterp spec fn tags_after(
    pre: Seq<char>,
    build: Seq<char>,
    other_pre: Seq<char>,
    other_build: Seq<char>,
) -> bool;

/// Whether version `a` comes after version `b`: by the major, then the
/// minor, then the patch number, and among equals by their tags.
pub open spec fn version_after(a: VersionModel, b: VersionModel) -> bool {
    if a.major != b.major {
        a.major > b.major
    } else if a.minor != b.minor {
        a.minor > b.minor
    } else if a.patch != b.patch {
        a.patch > b.patch
    } else {
        tags_after(a.pre, a.build, b.pre, b.build)
    }
}

/// `semver::Version::parse`, with the error dropped and the fields of the
/// version moved into the library's type. The contract names the result,
/// which depends on the text alone.
#[verifier::external_body]
fn parse_version(text: &str) -> (r: Option<Version>)
    ensures
        match r {
            Some(v) => semver_parse(text@) == Some(v@),
            None => semver_parse(text@) is None,
        },
{
    match semver::Version::parse(text) {
        Ok(v) => Some(
            Version {
                major: v.major,
                minor: v.minor,
                patch: v.patch,
                pre: v.pre.as_str().to_string(),
                build: v.build.as_str().to_string(),
            },
        ),
        Err(_) => None,
    }
}

/// The order of `semver::Version` (its derived `Ord`), asked of two
/// versions rebuilt from their parts; a tag that `semver` does not accept
/// counts as empty. The order goes by the major, the minor and the patch
/// number, in this order, and then by the tags; of the order by tags the
/// contract only names the result.
#[verifier::external_body]
fn version_greater(a: &Version, b: &Version) -> (r: bool)
    ensures
        r == (if a.major != b.major {
            a.major > b.major
        } else if a.minor != b.minor {
            a.minor > b.minor
        } else if a.patch != b.patch {
            a.patch > b.patch
        } else {
            tags_after(a.pre@, a.build@, b.pre@, b.build@)
        }),
{
    let mut x = semver::Version::new(a.major, a.minor, a.patch);
    x.pre = semver::Prerelease::new(&a.pre).unwrap_or_default();
    x.build = semver::BuildMetadata::new(&a.build).unwrap_or_default();
    let mut y = semver::Version::new(b.major, b.minor, b.patch);
    y.pre = semver::Prerelease::new(&b.pre).unwrap_or_default();
    y.build = semver::BuildMetadata::new(&b.build).unwrap_or_default();
    x > y
}

/// A release tag without the `v` it may begin with.
pub open spec fn without_v(tag: Seq<char>) -> Seq<char> {
    if tag.len() > 0 && tag[0] == 'v' {
        tag.drop_first()
    } else {
        tag
    }
}

/// Whether enough time has passed since the last check: more than a day.
/// A clock that runs behind the last check counts as no time passed.
pub fn should_check(cache: &UpdateCache, now: u64) -> (r: bool)
    ensures
        r == (now > cache.last_check && now - cache.last_check > CHECK_INTERVAL_SECS),
{
    if now > cache.last_check {
        now - cache.last_check > CHECK_INTERVAL_SECS
    } else {
        false
    }
}

/// The update that two parsed versions amount to: one where the latest
/// comes after the current, none otherwise or where either is no version.
pub open spec fn update_between(
    latest: Option<VersionModel>,
    current: Option<VersionModel>,
    info: UpdateModel,
) -> Option<UpdateModel> {
    match (current, latest) {
        (Some(c), Some(l)) => if version_after(l, c) {
            Some(info)
        } else {
            None
        },
        _ => None,
    }
}

/// Decides from two parsed versions whether there is an update, and
/// describes it by the given texts.
pub fn update_from_versions(
    latest: Option<&Version>,
    current: Option<&Version>,
    current_text: &str,
    latest_text: &str,
    url: &str,
) -> (r: Option<UpdateInfo>)
    ensures
        (match r {
            Some(info) => Some(info@),
            None => None,
        }) == update_between(
            match latest {
                Some(v) => Some(v@),
                None => None,
            },
            match current {
                Some(v) => Some(v@),
                None => None,
            },
            UpdateModel { current: current_text@, latest: latest_text@, url: url@ },
        ),
{
    match current {
        Some(c) => match latest {
            Some(l) => {
                if version_greater(l, c) {
                    Some(
                        UpdateInfo {
                            current: String::from_str(current_text),
                            latest: String::from_str(latest_text),
                            url: String::from_str(url),
                        },
                    )
                } else {
                    None
                }
            },
            None => None,
        },
        None => None,
    }
}

/// Compares the latest release with the running version. There is an
/// update exactly when both are versions and the latest, read without the
/// `v` it may begin with, comes after the running one.
pub fn compare_versions(latest: &str, url: &str, current: &str) -> (r: Option<UpdateInfo>)
    ensures
        (match r {
            Some(info) => Some(info@),
            None => None,
        }) == update_between(
            semver_parse(without_v(latest@)),
            semver_parse(current@),
            UpdateModel { current: current@, latest: without_v(latest@), url: url@ },
        ),
{
    let chars = chars_of(latest);
    let clean = if chars.len() > 0 && chars[0] == 'v' {
        let mut rest: Vec<char> = Vec::new();
        let mut i: usize = 1;
        while i < chars.len()
            invariant
                1 <= i <= chars.len(),
                rest@ == chars@.subrange(1, i as int),
            decreases chars.len() - i,
        {
            rest.push(chars[i]);
            i += 1;
        }
        assert(rest@ =~= chars@.drop_first());
        string_of(&rest)
    } else {
        String::from_str(latest)
    };
    let current_version = parse_version(current);
    let latest_version = parse_version(clean.as_str());
    update_from_versions(
        latest_version.as_ref(),
        current_version.as_ref(),
        current,
        clean.as_str(),
        url,
    )
}

/// The update that the remembered check amounts to: none unless it
/// remembers both a version and where to get it.
pub fn check_cached_update(cache: &UpdateCache, current: &str) -> (r: Option<UpdateInfo>)
    ensures
        (match r {
            Some(info) => Some(info@),
            None => None,
        }) == (match (cache.latest_version, cache.release_url) {
            (Some(latest), Some(url)) => update_between(
                semver_parse(without_v(latest@)),
                semver_parse(current@),
                UpdateModel { current: current@, latest: without_v(latest@), url: url@ },
            ),
            _ => None,
        }),
{
    match &cache.latest_version {
        Some(latest) => match &cache.release_url {
            Some(url) => compare_versions(latest.as_str(), url.as_str(), current),
            None => None,
        },
        None => None,
    }
}

/// What to do about updates on launch.
#[derive(Debug, PartialEq, Eq)]
pub enum UpdateStep {
    /// The last check is fresh: this is its answer.
    Known(Option<UpdateInfo>),
    /// Ask for the latest release.
    Fetch,
}

/// Decides what to do about updates on launch: where the last check is
/// no more than a day old, its answer stands; else the latest release is
/// to be fetched.
pub fn check_for_updates(cache: &UpdateCache, now: u64, current: &str) -> (r: UpdateStep)
    ensures
        match r {
            UpdateStep::Fetch => now > cache.last_check && now - cache.last_check
                > CHECK_INTERVAL_SECS,
            UpdateStep::Known(known) => !(now > cache.last_check && now - cache.last_check
                > CHECK_INTERVAL_SECS) && (match known {
                Some(info) => Some(info@),
                None => None,
            }) == (match (cache.latest_version, cache.release_url) {
                (Some(latest), Some(url)) => update_between(
                    semver_parse(without_v(latest@)),
                    semver_parse(current@),
                    UpdateModel { current: current@, latest: without_v(latest@), url: url@ },
                ),
                _ => None,
            }),
        },
{
    if should_check(cache, now) {
        UpdateStep::Fetch
    } else {
        UpdateStep::Known(check_cached_update(cache, current))
    }
}

/// The latest release as it was fetched: its tag and where to get it.
#[derive(Debug, PartialEq, Eq)]
pub struct Release {
    pub tag_name: String,
    pub html_url: String,
}

/// What follows from an attempt to fetch the latest release: what to
/// remember, and the update if there is one.
#[derive(Debug, PartialEq, Eq)]
pub struct Fetched {
    pub remember: Option<UpdateCache>,
    pub update: Option<UpdateInfo>,
}

/// Takes in the latest release. A release that was fetched is remembered
/// with the time of the check, and compared with the running version; a
/// failed fetch changes nothing and shows no update.
pub fn check_for_updates_forced(release: Option<&Release>, now: u64, current: &str) -> (r: Fetched)
    ensures
        match release {
            Some(rel) => {
                &&& r.remember is Some
                &&& r.remember->0.last_check == now
                &&& opt_view(r.remember->0.latest_version) == Some(rel.tag_name@)
                &&& opt_view(r.remember->0.release_url) == Some(rel.html_url@)
                &&& (match r.update {
                    Some(info) => Some(info@),
                    None => None,
                }) == update_between(
                    semver_parse(without_v(rel.tag_name@)),
                    semver_parse(current@),
                    UpdateModel {
                        current: current@,
                        latest: without_v(rel.tag_name@),
                        url: rel.html_url@,
                    },
                )
            },
            None => r.remember is None && r.update is None,
        },
{
    match release {
        Some(rel) => Fetched {
            remember: Some(
                UpdateCache {
                    last_check: now,
                    latest_version: Some(rel.tag_name.clone()),
                    release_url: Some(rel.html_url.clone()),
                },
            ),
            update: compare_versions(rel.tag_name.as_str(), rel.html_url.as_str(), current),
        },
        None => Fetched { remember: None, update: None },
    }
}

/// The place of the file that remembers the last check, as the names on
/// the way from the home directory down; nothing without a home directory.
pub fn cache_path(home: Option<&str>) -> (r: Option<Vec<String>>)
    ensures
        match home {
            Some(h) => r matches Some(parts) && lines_view(parts@) == seq![
                h@,
                ".cache"@,
                "bn-loader"@,
                CACHE_FILE@,
            ],
            None => r is None,
        },
{
    match crate::config::cache_dir(home) {
        Some(dir) => {
            let mut parts = dir;
            let ghost prev = parts@;
            let last = String::from_str(CACHE_FILE);
            parts.push(last);
            proof {
                crate::text::lemma_lines_push(prev, last);
            }
            assert(lines_view(parts@) =~= seq![home->0@, ".cache"@, "bn-loader"@, CACHE_FILE@]);
            Some(parts)
        },
        None => None,
    }
}

/// The notice of an update: a box between two empty lines that names the two versions and where to get the new one.
pub open spec fn update_notice(info: UpdateModel) -> Seq<Seq<char>> {
    seq![
        Seq::empty(),
        "  +-------------------------------------------------+"@,
        "  |  Update available: v"@ + info.current + " -> v"@ + padded(info.latest, 16) + " |"@,
        "  |  "@ + padded(info.url, 47) + "  |"@,
        "  +-------------------------------------------------+"@,
        Seq::empty(),
    ]
}

/// The notice of an update, line by line.
pub fn print_update_notice(info: &UpdateInfo) -> (r: Vec<String>)
    ensures
        lines_view(r@) == update_notice(info@),
{
    let mut r: Vec<String> = Vec::new();
    r.push(String::new());
    r.push(String::from_str("  +-------------------------------------------------+"));
    let latest = pad_right(info.latest.as_str(), 16);
    let mut versions = concat3("  |  Update available: v", info.current.as_str(), " -> v");
    versions.append(latest.as_str());
    versions.append(" |");
    r.push(versions);
    let url = pad_right(info.url.as_str(), 47);
    r.push(concat3("  |  ", url.as_str(), "  |"));
    r.push(String::from_str("  +-------------------------------------------------+"));
    r.push(String::new());
    assert(lines_view(r@) =~= update_notice(info@));
    r
}

} // verus!
