//! Exclusion patterns: shell-style globs that keep items out of a sync.

use crate::text::{concat2, concat3, lines_view};
use vstd::prelude::*;
use vstd::string::*;

verus! {

/// A compiled glob of `globset`. Nothing inside it is visible to contracts.
#[verifier::external_type_specification]
#[verifier::external_body]
pub struct ExGlob(globset::Glob);

/// A set of compiled globs of `globset`. Nothing inside it is visible to contracts.
#[verifier::external_type_specification]
#[verifier::external_body]
pub struct ExGlobSet(globset::GlobSet);

/// The builder of a glob set of `globset`. Nothing inside it is visible to contracts.
#[verifier::external_type_specification]
#[verifier::external_body]
pub struct ExGlobSetBuilder(globset::GlobSetBuilder);

/// The error of `globset`. Nothing inside it is visible to contracts.
#[verifier::external_type_specification]
#[verifier::external_body]
pub struct ExGlobError(globset::Error);

/// Whether `globset` accepts the text as a glob. Backslash escapes follow
/// the path conventions of the platform the crate is built for.
pub uninterp spec fn glob_compiles(pattern: Seq<char>) -> bool;

/// Whether the glob compiled from `pattern` matches `name`.
pub uninterp spec fn glob_matches(pattern: Seq<char>, name: Seq<char>) -> bool;

/// Whether `globset` builds a set from these patterns, each of them a
/// glob. Building fails where the combined matcher grows beyond the fixed
/// size limits; the empty list always builds.
pub uninterp spec fn set_builds(patterns: Seq<Seq<char>>) -> bool;

/// The patterns added to a builder so far, in the order of their addition.
pub uninterp spec fn builder_patterns(builder: globset::GlobSetBuilder) -> Seq<Seq<char>>;

/// The patterns that a set was built from.
pub uninterp spec fn set_patterns(set: globset::GlobSet) -> Seq<Seq<char>>;

/// A glob together with the text it was compiled from.
pub struct CompiledPattern {
    text: String,
    glob: globset::Glob,
}

impl CompiledPattern {
    /// The text the glob was compiled from.
    pub closed spec fn source(&self) -> Seq<char> {
        self.text@
    }
}

/// Whether any of the patterns matches the name.
pub open spec fn excluded(patterns: Seq<Seq<char>>, name: Seq<char>) -> bool {
    exists|i: int| 0 <= i < patterns.len() && glob_matches(#[trigger] patterns[i], name)
}

/// `globset::Glob::new`: parses one pattern. It succeeds exactly on the
/// texts that are globs; the compiled glob is kept beside its text.
#[verifier::external_body]
fn compile_glob(pattern: &str) -> (r: Result<CompiledPattern, globset::Error>)
    ensures
        r is Ok <==> glob_compiles(pattern@),
        r matches Ok(p) ==> p.source() == pattern@,
{
    match globset::Glob::new(pattern) {
        Ok(glob) => Ok(CompiledPattern { text: pattern.to_string(), glob }),
        Err(e) => Err(e),
    }
}

/// `globset::GlobSetBuilder::new`: a builder without patterns.
#[verifier::external_body]
fn new_builder() -> (b: globset::GlobSetBuilder)
    ensures
        builder_patterns(b) == Seq::<Seq<char>>::empty(),
{
    globset::GlobSetBuilder::new()
}

/// `globset::GlobSetBuilder::add`: appends one compiled pattern.
#[verifier::external_body]
fn builder_add(b: &mut globset::GlobSetBuilder, pattern: CompiledPattern)
    ensures
        builder_patterns(*final(b)) == builder_patterns(*old(b)).push(pattern.source()),
{
    b.add(pattern.glob);
}

/// `globset::GlobSetBuilder::build`: a set of the patterns added so far.
/// Whether building succeeds depends on the patterns alone (the combined
/// matcher must stay within fixed size limits), so the contract names it; a
/// builder without patterns always gives the empty set.
#[verifier::external_body]
fn builder_build(b: &globset::GlobSetBuilder) -> (r: Result<globset::GlobSet, globset::Error>)
    ensures
        r is Ok <==> set_builds(builder_patterns(*b)),
        r matches Ok(set) ==> set_patterns(set) == builder_patterns(*b),
        builder_patterns(*b).len() == 0 ==> r is Ok,
{
    b.build()
}

/// `globset::GlobSet::is_match`: true if any glob in the set matches.
#[verifier::external_body]
fn set_is_match(set: &globset::GlobSet, name: &str) -> (r: bool)
    ensures
        r == (exists|i: int|
            0 <= i < set_patterns(*set).len() && glob_matches(
                #[trigger] set_patterns(*set)[i],
                name@,
            )),
{
    set.is_match(name)
}

/// The `Display` text of a `globset::Error`.
#[verifier::external_body]
fn glob_error_text(e: &globset::Error) -> String {
    e.to_string()
}

/// Why a list of patterns gave no matcher.
#[derive(Debug, PartialEq, Eq)]
pub enum PatternError {
    /// The pattern at `index` is not a glob.
    Invalid { index: usize, pattern: String, detail: String },
    /// Every pattern is a glob, but the set could not be built.
    Build { detail: String },
}

impl PatternError {
    /// The message shown to the operator.
    pub fn message(&self) -> (r: String)
        ensures
            r@ == match *self {
                PatternError::Invalid { pattern, detail, .. } => "Invalid glob pattern '"@
                    + pattern@ + "': "@ + detail@,
                PatternError::Build { detail } => "Failed to build glob set: "@ + detail@,
            },
    {
        match self {
            PatternError::Invalid { pattern, detail, .. } => {
                let mut r = concat3("Invalid glob pattern '", pattern.as_str(), "': ");
                r.append(detail.as_str());
                r
            },
            PatternError::Build { detail } => concat2("Failed to build glob set: ", detail.as_str()),
        }
    }
}

/// Whether each of the first `n` patterns is a glob.
pub open spec fn all_compile(patterns: Seq<Seq<char>>, n: int) -> bool {
    forall|i: int| 0 <= i < n && i < patterns.len() ==> glob_compiles(#[trigger] patterns[i])
}

/// Turns the outcome of building the set into the library's result.
pub fn finish_glob_set(built: Result<globset::GlobSet, globset::Error>) -> (r: Result<
    globset::GlobSet,
    PatternError,
>)
    ensures
        match built {
            Ok(set) => r == Ok::<globset::GlobSet, PatternError>(set),
            Err(_) => r matches Err(PatternError::Build { .. }),
        },
{
    match built {
        Ok(set) => Ok(set),
        Err(e) => Err(PatternError::Build { detail: glob_error_text(&e) }),
    }
}

/// Whether the patterns give a matcher: each is a glob, and the set of
/// them builds.
pub open spec fn gives_matcher(patterns: Seq<Seq<char>>) -> bool {
    all_compile(patterns, patterns.len() as int) && set_builds(patterns)
}

/// Compiles the patterns into one matcher. There is a matcher exactly
/// when each pattern is a glob and the set of them builds, and it holds
/// exactly these patterns. The first pattern that is not a glob fails the
/// whole build and is named in the error; an empty list always gives a
/// matcher.
pub fn build_glob_set(patterns: &Vec<String>) -> (r: Result<globset::GlobSet, PatternError>)
    ensures
        r is Ok <==> gives_matcher(lines_view(patterns@)),
        match r {
            Ok(set) => all_compile(lines_view(patterns@), patterns@.len() as int) && set_patterns(
                set,
            ) == lines_view(patterns@),
            Err(PatternError::Invalid { index, pattern, .. }) => index < patterns@.len()
                && all_compile(lines_view(patterns@), index as int) && !glob_compiles(
                patterns@[index as int]@,
            ) && pattern@ == patterns@[index as int]@,
            Err(PatternError::Build { .. }) => all_compile(
                lines_view(patterns@),
                patterns@.len() as int,
            ) && !set_builds(lines_view(patterns@)) && patterns@.len() > 0,
        },
{
    let mut builder = new_builder();
    let mut i: usize = 0;
    while i < patterns.len()
        invariant
            i <= patterns.len(),
            all_compile(lines_view(patterns@), i as int),
            builder_patterns(builder) == lines_view(patterns@).take(i as int),
        decreases patterns.len() - i,
    {
        match compile_glob(patterns[i].as_str()) {
            Ok(glob) => {
                builder_add(&mut builder, glob);
                assert(lines_view(patterns@).take(i as int).push(patterns@[i as int]@)
                    =~= lines_view(patterns@).take(i + 1));
            },
            Err(e) => {
                assert(!glob_compiles(lines_view(patterns@)[i as int]));
                return Err(
                    PatternError::Invalid {
                        index: i,
                        pattern: patterns[i].clone(),
                        detail: glob_error_text(&e),
                    },
                );
            },
        }
        i += 1;
    }
    assert(lines_view(patterns@).take(patterns@.len() as int) =~= lines_view(patterns@));
    finish_glob_set(builder_build(&builder))
}

/// Whether the matcher excludes the name: whether any of its patterns
/// matches it.
pub fn is_excluded(set: &globset::GlobSet, name: &str) -> (r: bool)
    ensures
        r == excluded(set_patterns(*set), name@),
{
    set_is_match(set, name)
}

/// A name that some pattern matches stays excluded whatever patterns are
/// put before or after: later layers add to the exclusions and never take
/// one away.
pub proof fn lemma_exclusion_survives_layers(
    before: Seq<Seq<char>>,
    patterns: Seq<Seq<char>>,
    after: Seq<Seq<char>>,
    name: Seq<char>,
)
    requires
        excluded(patterns, name),
    ensures
        excluded(before + patterns + after, name),
{
    let i = choose|i: int| 0 <= i < patterns.len() && glob_matches(#[trigger] patterns[i], name);
    let all = before + patterns + after;
    assert(all[before.len() + i] == patterns[i]);
}

} // verus!
