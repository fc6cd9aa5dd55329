//! What this library takes on trust from `globset`.
//!
//! Nothing in this file is proved: each contract restates what `globset`
//! documents of the function that it names.
//!
//! Every glob here is made by `Glob::new`, that is with `globset`'s default
//! options, so what a glob matches is decided by its text and by the text of
//! the path. That holds on one kind of platform at a time: where `/` is not
//! the only path separator, `globset` reads `\` in a glob as itself and
//! turns the other separators of a path into `/` before it matches.
//!
//! A builder or a set reaches the functions of this file only from the
//! functions of this file: none is taken from a caller of the library.
use globset::{Glob, GlobSet, GlobSetBuilder};
use vstd::prelude::*;

verus! {

/// `globset::Error`: why a glob or a set was refused.
#[verifier::external_type_specification]
#[verifier::external_body]
pub struct ExGlobError(globset::Error);

/// `globset::GlobSetBuilder`: the globs of a set that is yet to be built.
#[verifier::external_type_specification]
#[verifier::external_body]
pub struct ExGlobSetBuilder(GlobSetBuilder);

/// `globset::GlobSet`: globs that are matched against a path together.
#[verifier::external_type_specification]
#[verifier::external_body]
pub struct ExGlobSet(GlobSet);

/// Whether `Glob::new` accepts `pattern`.
pub uninterp spec fn glob_compiles(pattern: Seq<char>) -> bool;

/// Whether the glob made from `pattern` matches `path`.
pub uninterp spec fn glob_matches(pattern: Seq<char>, path: Seq<char>) -> bool;

/// The texts of the globs that a builder holds, in the order in which they were added.
pub uninterp spec fn builder_patterns(builder: GlobSetBuilder) -> Seq<Seq<char>>;

/// The texts of the globs that a set was built from, by sequence number.
pub uninterp spec fn set_patterns(set: GlobSet) -> Seq<Seq<char>>;

/// Whether `GlobSetBuilder::build` succeeds on globs with these texts.
pub uninterp spec fn set_builds(patterns: Seq<Seq<char>>) -> bool;

/// Whether `hits` is in ascending order and holds no index twice.
pub open spec fn strictly_ascending(hits: Seq<usize>) -> bool {
    forall|i: int, j: int| 0 <= i < j < hits.len() ==> hits[i] < hits[j]
}

/// `GlobSetBuilder::new`: a builder that holds no glob.
#[verifier::external_body]
pub(crate) fn builder_new() -> (builder: GlobSetBuilder)
    ensures
        builder_patterns(builder) == Seq::<Seq<char>>::empty(),
{
    GlobSetBuilder::new()
}

/// `Glob::new`, then `GlobSetBuilder::add`: parses `pattern` with the default
/// options and, where it parses, appends the glob to those that the builder
/// holds; where it does not, the builder is left as it was. The builder keeps
/// its globs in a `Vec`, so their number fits a `usize`.
#[verifier::external_body]
pub(crate) fn builder_add(builder: &mut GlobSetBuilder, pattern: &str) -> (res: Result<
    (),
    globset::Error,
>)
    ensures
        res.is_ok() == glob_compiles(pattern@),
        builder_patterns(*final(builder)) == (if glob_compiles(pattern@) {
            builder_patterns(*old(builder)).push(pattern@)
        } else {
            builder_patterns(*old(builder))
        }),
        builder_patterns(*final(builder)).len() <= usize::MAX,
{
    builder.add(Glob::new(pattern)?);
    Ok(())
}

/// `GlobSetBuilder::build`: a set of the globs added so far, numbered in the
/// order in which they were added, or the error of the regex engine.
#[verifier::external_body]
pub(crate) fn builder_build(builder: &GlobSetBuilder) -> (res: Result<GlobSet, globset::Error>)
    ensures
        res.is_ok() == set_builds(builder_patterns(*builder)),
        res matches Ok(set) ==> set_patterns(set) == builder_patterns(*builder),
{
    builder.build()
}

/// `GlobSet::matches`: the sequence number of every glob of the set that
/// matches `path`, in ascending order.
#[verifier::external_body]
pub(crate) fn set_matches(set: &GlobSet, path: &str) -> (hits: Vec<usize>)
    ensures
        strictly_ascending(hits@),
        forall|i: int| 0 <= i < hits@.len() ==> hits@[i] < set_patterns(*set).len(),
        forall|k: usize|
            k < set_patterns(*set).len() ==> hits@.contains(k) == glob_matches(
                set_patterns(*set)[k as int],
                path@,
            ),
{
    set.matches(path)
}

/// The message of a `globset::Error`, as its `Display` writes it.
#[verifier::external_body]
pub(crate) fn error_message(error: &globset::Error) -> (message: String) {
    format!("{}", error)
}

} // verus!
