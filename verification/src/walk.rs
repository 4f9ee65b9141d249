//! The scan's filters: exclude globs (from the `globset` crate), symlink
//! handling and the minimum size. Walking the directories is the caller's
//! work; these decide which walked entries become scanned files.
use vstd::prelude::*;
use globset::{Glob, GlobSet, GlobSetBuilder};
use crate::model::strs;

verus! {

#[verifier::external_type_specification]
#[verifier::external_body]
pub struct ExGlob(globset::Glob);

#[verifier::external_type_specification]
#[verifier::external_body]
pub struct ExGlobSet(globset::GlobSet);

#[verifier::external_type_specification]
#[verifier::external_body]
pub struct ExGlobSetBuilder(globset::GlobSetBuilder);

#[verifier::external_type_specification]
#[verifier::external_body]
pub struct ExGlobError(globset::Error);

/// The pattern text a glob was built from.
pub uninterp spec fn glob_source(g: Glob) -> Seq<char>;

/// Does the text parse as a glob?
pub uninterp spec fn glob_parses(pattern: Seq<char>) -> bool;

/// The patterns added to a builder so far, in order.
pub uninterp spec fn builder_patterns(b: GlobSetBuilder) -> Seq<Seq<char>>;

/// The patterns a glob set was built from, in order.
pub uninterp spec fn globset_patterns(s: GlobSet) -> Seq<Seq<char>>;

/// Do the patterns compile into a glob set?
pub uninterp spec fn globset_builds(patterns: Seq<Seq<char>>) -> bool;

/// Does a path match any of the globs built from the patterns?
pub uninterp spec fn globset_matches(patterns: Seq<Seq<char>>, path: Seq<char>) -> bool;

/// `Glob::new`: parses a pattern; the glob keeps the pattern text.
#[verifier::external_body]
fn glob_new(pattern: &str) -> (r: Result<Glob, globset::Error>)
    ensures
        r is Ok <==> glob_parses(pattern@),
        r matches Ok(g) ==> glob_source(g) == pattern@,
{
    Glob::new(pattern)
}

/// `GlobSetBuilder::new`: a builder with no patterns.
#[verifier::external_body]
fn builder_new() -> (b: GlobSetBuilder)
    ensures
        builder_patterns(b) == Seq::<Seq<char>>::empty(),
{
    GlobSetBuilder::new()
}

/// `GlobSetBuilder::add`: appends a glob.
#[verifier::external_body]
fn builder_add(b: &mut GlobSetBuilder, g: Glob)
    ensures
        builder_patterns(*final(b)) == builder_patterns(*old(b)).push(glob_source(g)),
{
    b.add(g);
}

/// `GlobSetBuilder::build`: compiles the added globs into one set.
#[verifier::external_body]
fn builder_build(b: &GlobSetBuilder) -> (r: Result<GlobSet, globset::Error>)
    ensures
        r is Ok <==> globset_builds(builder_patterns(*b)),
        r matches Ok(s) ==> globset_patterns(s) == builder_patterns(*b),
{
    b.build()
}

/// `GlobSet::is_match`: does the path match any glob of the set?
#[verifier::external_body]
fn globset_is_match(s: &GlobSet, path: &str) -> (r: bool)
    ensures
        r == globset_matches(globset_patterns(*s), path@),
{
    s.is_match(path)
}

/// Compiled exclude-glob set plus the other scan filters.
pub struct ScanOptions {
    pub min_size: u64,
    pub follow_symlinks: bool,
    pub excludes: GlobSet,
}

impl ScanOptions {
    /// Build a `ScanOptions`, compiling the exclude glob patterns. Fails
    /// with the first pattern that does not parse, or if the set does not
    /// compile.
    pub fn new(min_size: u64, follow_symlinks: bool, exclude_patterns: &Vec<String>) -> (r: Result<ScanOptions, globset::Error>)
        ensures
            r is Ok <==> ((forall|i: int| 0 <= i < exclude_patterns@.len() ==> glob_parses(#[trigger] exclude_patterns@[i]@))
                && globset_builds(strs(exclude_patterns@))),
            r matches Ok(o) ==> o.min_size == min_size && o.follow_symlinks == follow_symlinks
                && globset_patterns(o.excludes) == strs(exclude_patterns@),
    {
        let mut builder = builder_new();
        let mut i: usize = 0;
        while i < exclude_patterns.len()
            invariant
                i <= exclude_patterns@.len(),
                forall|q: int| 0 <= q < i ==> glob_parses(#[trigger] exclude_patterns@[q]@),
                builder_patterns(builder) == strs(exclude_patterns@).take(i as int),
            decreases exclude_patterns@.len() - i,
        {
            match glob_new(exclude_patterns[i].as_str()) {
                Ok(g) => {
                    builder_add(&mut builder, g);
                    proof {
                        assert(strs(exclude_patterns@).take(i + 1) =~= strs(exclude_patterns@).take(i as int).push(exclude_patterns@[i as int]@));
                    }
                },
                Err(e) => {
                    return Err(e);
                },
            }
            i = i + 1;
        }
        proof {
            assert(strs(exclude_patterns@).take(i as int) =~= strs(exclude_patterns@));
        }
        match builder_build(&builder) {
            Ok(excludes) => Ok(ScanOptions { min_size, follow_symlinks, excludes }),
            Err(e) => Err(e),
        }
    }

    /// Is the path excluded by a glob?
    pub fn is_excluded(&self, path: &str) -> (r: bool)
        ensures
            r == globset_matches(globset_patterns(self.excludes), path@),
    {
        globset_is_match(&self.excludes, path)
    }

    /// Should a walked entry be looked at further (for its size)? Not if
    /// excluded, not if a symlink that is not followed, not if no regular file.
    pub fn admits_entry(&self, path: &str, is_symlink: bool, is_file: bool) -> (r: bool)
        ensures
            r == (!globset_matches(globset_patterns(self.excludes), path@)
                && !(is_symlink && !self.follow_symlinks) && is_file),
    {
        if self.is_excluded(path) {
            return false;
        }
        if is_symlink && !self.follow_symlinks {
            return false;
        }
        is_file
    }

    /// Is a file of this size large enough to scan?
    pub fn admits_size(&self, size: u64) -> (r: bool)
        ensures
            r == (size >= self.min_size),
    {
        size >= self.min_size
    }
}

} // verus!
