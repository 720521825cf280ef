//! What this library relies on from the `ignore` crate: the pattern matcher
//! that is compiled from the lines of an ignore file. Nothing in this file is
//! proved; each contract says what the crate's source shows, on a system
//! whose paths are separated by `/`.

use vstd::prelude::*;
use ignore::gitignore::Gitignore;
use ignore::gitignore::GitignoreBuilder;
use ignore::Match;

verus! {

/// `ignore::gitignore::Gitignore`, a compiled set of patterns. Opaque here.
#[verifier::external_type_specification]
#[verifier::external_body]
pub struct ExGitignore(ignore::gitignore::Gitignore);

/// `ignore::gitignore::GitignoreBuilder`, which collects pattern lines. Opaque
/// here.
#[verifier::external_type_specification]
#[verifier::external_body]
pub struct ExGitignoreBuilder(ignore::gitignore::GitignoreBuilder);

/// `ignore::Error`. Opaque here.
#[verifier::external_type_specification]
#[verifier::external_body]
pub struct ExIgnoreError(ignore::Error);

/// What a set of patterns says of one path.
#[derive(Clone, Copy, Debug, PartialEq, Eq, Structural)]
pub enum PatternMatch {
    /// No pattern matches.
    NoMatch,
    /// The pattern of highest precedence that matches excludes the path.
    Ignore,
    /// The pattern of highest precedence that matches includes the path again.
    Whitelist,
}

/// What `GitignoreBuilder::add_line` makes of a line.
pub enum LineEffect {
    /// The line is no pattern that the crate can parse: the call fails.
    Refused,
    /// The line is a comment or holds nothing: the call succeeds and keeps
    /// nothing.
    Skipped,
    /// The line is a pattern: the call succeeds and keeps a pattern with
    /// this text, the line without what the crate trims off its end.
    Pattern(Seq<char>),
}

/// The directory that a builder holds, as text.
pub uninterp spec fn builder_root(builder: GitignoreBuilder) -> Seq<char>;

/// The text of each pattern that a builder holds, in the order in which they
/// came.
pub uninterp spec fn builder_globs(builder: GitignoreBuilder) -> Seq<Seq<char>>;

/// The directory that a matcher holds, as text.
pub uninterp spec fn matcher_root(matcher: Gitignore) -> Seq<char>;

/// The text of each pattern that a matcher holds, in the order in which they
/// came.
pub uninterp spec fn matcher_globs(matcher: Gitignore) -> Seq<Seq<char>>;

/// What `GitignoreBuilder::add_line` makes of a line, on a builder with the
/// options that `GitignoreBuilder::new` sets.
pub uninterp spec fn line_effect(line: Seq<char>) -> LineEffect;

/// Whether `GitignoreBuilder::build` succeeds on a builder that holds
/// patterns with these texts.
pub uninterp spec fn globs_compile(globs: Seq<Seq<char>>) -> bool;

/// What `Gitignore::matched` answers for a path, from a matcher that holds
/// the directory `root` and patterns with the texts `globs`.
pub uninterp spec fn verdict(
    root: Seq<char>,
    globs: Seq<Seq<char>>,
    path: Seq<char>,
    is_dir: bool,
) -> PatternMatch;

/// The directory that a builder keeps of the one it is given: the same text
/// without one leading `./`.
pub open spec fn root_kept(root: Seq<char>) -> Seq<char> {
    if root.len() >= 2 && root[0] == '.' && root[1] == '/' {
        root.skip(2)
    } else {
        root
    }
}

/// Whether a line holds nothing or begins as a comment does.
pub open spec fn is_remark(line: Seq<char>) -> bool {
    line.len() == 0 || line[0] == '#'
}

/// Calls `GitignoreBuilder::new`: a builder that holds no pattern, for the
/// given directory, of which the crate strips one leading `./`.
#[verifier::external_body]
pub(crate) fn builder_new(root: &str) -> (builder: GitignoreBuilder)
    ensures
        builder_root(builder) == root_kept(root@),
        builder_globs(builder) == Seq::<Seq<char>>::empty(),
{
    GitignoreBuilder::new(root)
}

/// Calls `GitignoreBuilder::add_line` with no source file. The crate parses
/// the line; on a builder that `builder_new` made, what it makes of the line
/// depends on the line alone. A line that it refuses leaves the builder as it
/// was, and so does a line that it skips; of a pattern it keeps the text. A
/// line that holds nothing, and a line that begins with `#`, are always
/// skipped.
#[verifier::external_body]
pub(crate) fn builder_add_line(builder: &mut GitignoreBuilder, line: &str) -> (r: Result<
    (),
    ignore::Error,
>)
    ensures
        r is Err == (line_effect(line@) is Refused),
        builder_root(*final(builder)) == builder_root(*old(builder)),
        builder_globs(*final(builder)) == match line_effect(line@) {
            LineEffect::Pattern(text) => builder_globs(*old(builder)).push(text),
            _ => builder_globs(*old(builder)),
        },
        is_remark(line@) ==> r is Ok && builder_globs(*final(builder)) == builder_globs(
            *old(builder),
        ),
{
    match builder.add_line(None, line) {
        Ok(_) => Ok(()),
        Err(e) => Err(e),
    }
}

/// Calls `GitignoreBuilder::build`: compiles the patterns of the builder into
/// a matcher that holds the same directory and the same patterns. Whether
/// that succeeds depends on the patterns alone.
#[verifier::external_body]
pub(crate) fn builder_build(builder: &GitignoreBuilder) -> (r: Result<Gitignore, ignore::Error>)
    ensures
        r is Ok == globs_compile(builder_globs(*builder)),
        r matches Ok(matcher) ==> matcher_root(matcher) == builder_root(*builder) && matcher_globs(
            matcher,
        ) == builder_globs(*builder),
{
    builder.build()
}

/// Calls `Gitignore::matched`, which does not panic: the answer depends on
/// the directory and the patterns of the matcher, on the path, and on whether
/// the path is said to be a directory. The pattern that matched is dropped.
#[verifier::external_body]
pub(crate) fn matcher_verdict(matcher: &Gitignore, path: &str, is_dir: bool) -> (m: PatternMatch)
    ensures
        m == verdict(matcher_root(*matcher), matcher_globs(*matcher), path@, is_dir),
{
    match matcher.matched(path, is_dir) {
        Match::None => PatternMatch::NoMatch,
        Match::Ignore(_) => PatternMatch::Ignore,
        Match::Whitelist(_) => PatternMatch::Whitelist,
    }
}

/// Calls `Gitignore::len`: the number of patterns that the matcher holds.
#[verifier::external_body]
pub(crate) fn matcher_len(matcher: &Gitignore) -> (n: usize)
    ensures
        n == matcher_globs(*matcher).len(),
{
    matcher.len()
}

/// The text of an `ignore::Error`, as its `Display` writes it. Nothing is
/// claimed of the text.
#[verifier::external_body]
pub(crate) fn error_text(error: &ignore::Error) -> String {
    error.to_string()
}

} // verus!
