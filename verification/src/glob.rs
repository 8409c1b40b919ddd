//! Ignore-pattern matching, delegated to the `globset` crate.
//!
//! Everything here is trusted: each item states what `globset`'s source and
//! documentation show of the function it calls.

use vstd::prelude::*;
use globset::Error as GlobError;

verus! {

#[verifier::external_type_specification]
#[verifier::external_body]
pub struct ExGlob(globset::Glob);

#[verifier::external_type_specification]
#[verifier::external_body]
pub struct ExGlobSet(globset::GlobSet);

#[verifier::external_type_specification]
#[verifier::external_body]
pub struct ExGlobSetBuilder(globset::GlobSetBuilder);

#[verifier::external_type_specification]
#[verifier::external_body]
pub struct ExGlobError(GlobError);

/// Whether `globset` accepts `pattern` as a glob (`GlobBuilder::build`
/// succeeds with `literal_separator` set); a function of the pattern alone.
pub uninterp spec fn glob_accepts(pattern: Seq<char>) -> bool;

/// The pattern text a compiled `Glob` was made from (what `Glob::glob`
/// returns).
pub uninterp spec fn glob_source(g: globset::Glob) -> Seq<char>;

/// Whether the glob `pattern`, compiled by `GlobBuilder` with
/// `literal_separator` set (so `*` and `?` never match `/`, while `**` spans
/// segments), matches `path`; a function of the two texts alone. On targets
/// other than Unix `globset` first turns `\\` in the path into `/` before
/// matching, so this names one function per target.
pub uninterp spec fn glob_matches(pattern: Seq<char>, path: Seq<char>) -> bool;

/// The patterns added to a builder so far, in order.
pub uninterp spec fn builder_patterns(b: globset::GlobSetBuilder) -> Seq<Seq<char>>;

/// The patterns a glob set was built from, in order.
pub uninterp spec fn set_patterns(s: globset::GlobSet) -> Seq<Seq<char>>;

/// Whether `GlobSetBuilder::build` succeeds for these patterns (it can fail
/// when the combined matcher exceeds the regex engine's limits); a function of
/// the patterns alone.
pub uninterp spec fn set_builds(patterns: Seq<Seq<char>>) -> bool;

/// `GlobBuilder::new(pattern).literal_separator(true).build()`: compiles a
/// pattern in which `*` stays within one path segment. It succeeds exactly
/// when the pattern is accepted, and the glob remembers its source text
/// (`Glob::glob`). Every glob this library matches with is made here.
#[verifier::external_body]
pub(crate) fn glob_new(pattern: &str) -> (r: Result<globset::Glob, GlobError>)
    ensures
        r is Ok <==> glob_accepts(pattern@),
        r matches Ok(g) ==> glob_source(g) == pattern@,
{
    globset::GlobBuilder::new(pattern).literal_separator(true).build()
}

/// `GlobSetBuilder::new`: a builder holding no pattern.
#[verifier::external_body]
pub(crate) fn builder_new() -> (r: globset::GlobSetBuilder)
    ensures
        builder_patterns(r) == Seq::<Seq<char>>::empty(),
{
    globset::GlobSetBuilder::new()
}

/// `GlobSetBuilder::add`: appends a glob to the builder.
#[verifier::external_body]
pub(crate) fn builder_add(b: &mut globset::GlobSetBuilder, g: globset::Glob)
    ensures
        builder_patterns(*final(b)) == builder_patterns(*old(b)).push(glob_source(g)),
{
    b.add(g);
}

/// `GlobSetBuilder::build`: a set of the builder's patterns, or an error when
/// they cannot be combined.
#[verifier::external_body]
pub(crate) fn builder_build(b: &globset::GlobSetBuilder) -> (r: Result<globset::GlobSet, GlobError>)
    ensures
        r is Ok <==> set_builds(builder_patterns(*b)),
        r matches Ok(s) ==> set_patterns(s) == builder_patterns(*b),
{
    b.build()
}

/// `GlobSet::is_match`: whether any glob of the set matches `path`. The
/// sets passed here are those `builder_build` made from `glob_new` globs,
/// which `DiffOptions` keeps in a private field.
#[verifier::external_body]
pub(crate) fn set_is_match(s: &globset::GlobSet, path: &str) -> (r: bool)
    ensures
        r == (exists|i: int|
            0 <= i < set_patterns(*s).len() && glob_matches(#[trigger] set_patterns(*s)[i], path@)),
{
    s.is_match(path)
}

} // verus!
