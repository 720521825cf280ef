//! The ignore rules of a watched tree: which paths are left out of the
//! mirror.

use vstd::prelude::*;
use crate::errors::ErrorKind;
use crate::errors::SyncError;
use crate::matcher::LineEffect;
use crate::matcher::PatternMatch;
use crate::matcher::builder_add_line;
use crate::matcher::builder_build;
use crate::matcher::builder_globs;
use crate::matcher::builder_new;
use crate::matcher::builder_root;
use crate::matcher::error_text;
use crate::matcher::globs_compile;
use crate::matcher::is_remark;
use crate::matcher::line_effect;
use crate::matcher::matcher_globs;
use crate::matcher::matcher_len;
use crate::matcher::matcher_root;
use crate::matcher::matcher_verdict;
use crate::matcher::root_kept;
use crate::matcher::verdict;
use crate::paths::canonical;
use crate::paths::climbs;
use crate::paths::climbs_out;
use crate::paths::has_root;
use crate::paths::inside;
use crate::paths::is_absolute;
use crate::paths::lemma_canonical_begins_plainly;
use crate::paths::lemma_climb_add;
use crate::paths::lemma_inside_transitive;
use crate::paths::normalize;
use crate::paths::relative_tail;
use crate::paths::render;
use crate::paths::rendered;
use crate::paths::segments;
use crate::paths::split_segments;
use crate::paths::tail_segments;
use crate::text::lemma_texts_push;
use crate::text::pieces;
use crate::text::split;
use crate::text::text_chars;
use crate::text::text_of;
use crate::text::texts;
use ignore::gitignore::Gitignore;

verus! {

/// The character that ends a line of a pattern source.
pub const LINE_FEED: char = '\n';

/// The mark that may stand at the head of a text to tell its byte order.
pub const BYTE_ORDER_MARK: char = '\u{feff}';

/// The strongest of a sequence of answers: an exclusion where one of them is
/// one; otherwise an inclusion where one of them is one; otherwise none.
pub open spec fn strongest(answers: Seq<PatternMatch>) -> PatternMatch {
    if answers.contains(PatternMatch::Ignore) {
        PatternMatch::Ignore
    } else if answers.contains(PatternMatch::Whitelist) {
        PatternMatch::Whitelist
    } else {
        PatternMatch::NoMatch
    }
}

/// The text of the ancestor of a path that lies `depth` segments below the
/// root; the path itself where `depth` is the length of `tail`.
pub open spec fn ancestor_text(root: Seq<char>, tail: Seq<Seq<char>>, depth: int) -> Seq<char> {
    rendered(is_absolute(root), segments(root) + tail.take(depth))
}

/// What the patterns answer for each ancestor of a path below the root, from
/// the nearest to the root down to the path itself. Each is asked as a
/// directory.
pub open spec fn verdicts_along(
    root: Seq<char>,
    patterns: Seq<Seq<char>>,
    tail: Seq<Seq<char>>,
) -> Seq<PatternMatch> {
    Seq::new(tail.len(), |i: int| verdict(root, patterns, ancestor_text(root, tail, i + 1), true))
}

/// The segments of a path below the root: what follows the root in a path
/// that lies inside it; all of a relative path that does not, which is then
/// read from the root, unless it climbs above it. Any other path has none.
pub open spec fn tail_below(root: Seq<char>, path: Seq<char>) -> Option<Seq<Seq<char>>> {
    if inside(path, root) {
        Some(relative_tail(path, root))
    } else if !is_absolute(path) && !climbs_out(segments(path)) {
        Some(segments(path))
    } else {
        None
    }
}

/// What the patterns, bound to `root`, say of a path: nothing where there is
/// no pattern or the path has no segments below the root; otherwise the
/// strongest answer over the path and its ancestors below the root.
pub open spec fn match_of(root: Seq<char>, patterns: Seq<Seq<char>>, path: Seq<char>) -> PatternMatch {
    if patterns.len() == 0 {
        PatternMatch::NoMatch
    } else {
        match tail_below(root, path) {
            Some(tail) => strongest(verdicts_along(root, patterns, tail)),
            None => PatternMatch::NoMatch,
        }
    }
}

/// Whether the patterns exclude a path: the path or one of its ancestors
/// below the root is excluded.
pub open spec fn blocks(root: Seq<char>, patterns: Seq<Seq<char>>, path: Seq<char>) -> bool {
    match_of(root, patterns, path) == PatternMatch::Ignore
}

/// A text without the byte-order marks at its head.
pub open spec fn without_marks(text: Seq<char>) -> Seq<char>
    decreases text.len(),
{
    if text.len() > 0 && text[0] == BYTE_ORDER_MARK {
        without_marks(text.skip(1))
    } else {
        text
    }
}

/// The lines of a pattern source: the pieces between the line feeds of its
/// text, once byte-order marks at its head are dropped. A missing source has
/// none.
pub open spec fn source_lines(source: Option<Seq<char>>) -> Seq<Seq<char>> {
    match source {
        Some(text) => pieces(without_marks(text), LINE_FEED),
        None => Seq::empty(),
    }
}

/// The text of a source that may be missing.
pub open spec fn source_text(source: Option<&str>) -> Option<Seq<char>> {
    match source {
        Some(text) => Some(text@),
        None => None,
    }
}

/// Whether the matcher takes a line: as a pattern, or as a line to skip.
pub open spec fn line_accepted(line: Seq<char>) -> bool {
    !(line_effect(line) is Refused)
}

/// Whether the matcher takes every line.
pub open spec fn all_accepted(lines: Seq<Seq<char>>) -> bool {
    forall|i: int| 0 <= i < lines.len() ==> line_accepted(#[trigger] lines[i])
}

/// Whether `at` is the place of the first line that the matcher refuses.
pub open spec fn first_refused(lines: Seq<Seq<char>>, at: int) -> bool {
    &&& 0 <= at < lines.len()
    &&& !line_accepted(lines[at])
    &&& forall|j: int| 0 <= j < at ==> line_accepted(#[trigger] lines[j])
}

/// The text of the pattern that the matcher keeps of a line: none of a line
/// that it skips or refuses.
pub open spec fn kept_text(line: Seq<char>) -> Option<Seq<char>> {
    match line_effect(line) {
        LineEffect::Pattern(text) => Some(text),
        _ => None,
    }
}

/// The texts of the patterns that the matcher keeps of some lines, in order.
pub open spec fn patterns_of(lines: Seq<Seq<char>>) -> Seq<Seq<char>> {
    lines.filter_map(|line: Seq<char>| kept_text(line))
}

/// Whether the matcher is known to skip every line that holds nothing and
/// every line that begins as a comment does.
pub open spec fn remarks_skipped(lines: Seq<Seq<char>>) -> bool {
    forall|i: int|
        0 <= i < lines.len() && is_remark(#[trigger] lines[i]) ==> line_effect(lines[i])
            is Skipped
}

/// Exclusion passes down the tree: where a directory is excluded, so is every
/// path inside it, whatever the patterns are. The root is a watched root,
/// which starts at the root of the file system.
pub proof fn lemma_blocked_under_blocked_directory(
    root: Seq<char>,
    patterns: Seq<Seq<char>>,
    directory: Seq<char>,
    path: Seq<char>,
)
    requires
        is_absolute(root),
        blocks(root, patterns, directory),
        inside(path, directory),
    ensures
        blocks(root, patterns, path),
{
    let upper = tail_below(root, directory).unwrap();
    let lower = tail_below(root, path).unwrap();
    let ds = segments(directory);
    let ps = segments(path);
    assert(ds =~= ps.subrange(0, ds.len() as int));
    if is_absolute(directory) {
        lemma_inside_transitive(path, directory, root);
    } else {
        assert(ps =~= ds + relative_tail(path, directory));
        lemma_climb_add(ds, relative_tail(path, directory));
    }
    assert(upper.len() <= lower.len());
    let high = verdicts_along(root, patterns, upper);
    let low = verdicts_along(root, patterns, lower);
    let i = choose|i: int| 0 <= i < high.len() && high[i] == PatternMatch::Ignore;
    assert(upper.take(i + 1) =~= lower.take(i + 1));
    assert(low[i] == PatternMatch::Ignore);
}

/// Lines that hold nothing and comments give no pattern: a source of nothing
/// else excludes no path.
pub proof fn lemma_remarks_block_nothing(root: Seq<char>, lines: Seq<Seq<char>>, path: Seq<char>)
    requires
        remarks_skipped(lines),
        forall|i: int| 0 <= i < lines.len() ==> is_remark(#[trigger] lines[i]),
    ensures
        patterns_of(lines) == Seq::<Seq<char>>::empty(),
        !blocks(root, patterns_of(lines), path),
    decreases lines.len(),
{
    if lines.len() > 0 {
        let front = lines.drop_last();
        assert(remarks_skipped(front)) by {
            assert forall|i: int| 0 <= i < front.len() && is_remark(
                #[trigger] front[i],
            ) implies line_effect(front[i]) is Skipped by {
                assert(front[i] == lines[i]);
            }
        }
        assert forall|i: int| 0 <= i < front.len() implies is_remark(#[trigger] front[i]) by {
            assert(front[i] == lines[i]);
        }
        lemma_remarks_block_nothing(root, front, path);
        assert(is_remark(lines[lines.len() - 1]));
    }
}

/// The strongest of the given answers.
pub fn strongest_of(answers: &Vec<PatternMatch>) -> (m: PatternMatch)
    ensures
        m == strongest(answers@),
{
    let mut m = PatternMatch::NoMatch;
    let mut i: usize = 0;
    while i < answers.len()
        invariant
            i <= answers.len(),
            m == strongest(answers@.take(i as int)),
        decreases answers.len() - i,
    {
        let ghost before = answers@.take(i as int);
        let ghost after = answers@.take(i + 1);
        let a = answers[i];
        proof {
            assert(after =~= before.push(a));
            assert forall|x: PatternMatch| after.contains(x) <==> (before.contains(x) || x
                == a) by {
                if before.contains(x) {
                    let k = choose|k: int| 0 <= k < before.len() && before[k] == x;
                    assert(after[k] == x);
                }
                if x == a {
                    assert(after[i as int] == x);
                }
            }
        }
        if a == PatternMatch::Ignore {
            m = PatternMatch::Ignore;
        } else if a == PatternMatch::Whitelist && m == PatternMatch::NoMatch {
            m = PatternMatch::Whitelist;
        }
        i = i + 1;
    }
    assert(answers@.take(i as int) =~= answers@);
    m
}

/// The ignore rules of a watched tree: the patterns of one source, bound to
/// the root of the tree. A missing source gives a list that permits all.
#[derive(Debug)]
pub struct FileBlockList {
    root: String,
    blocklist: Option<Gitignore>,
}

/// A text without the byte-order marks at its head.
fn drop_marks(text: &str) -> (out: String)
    ensures
        out@ == without_marks(text@),
{
    let chars = text_chars(text);
    let mut start: usize = 0;
    assert(text@.skip(0) =~= text@);
    while start < chars.len() && chars[start] == BYTE_ORDER_MARK
        invariant
            start <= chars.len(),
            chars@ == text@,
            without_marks(text@) == without_marks(text@.skip(start as int)),
        decreases chars.len() - start,
    {
        assert(text@.skip(start as int).skip(1) =~= text@.skip(start + 1));
        start = start + 1;
    }
    let mut rest: Vec<char> = Vec::new();
    let mut i: usize = start;
    assert(rest@ =~= text@.subrange(start as int, i as int));
    while i < chars.len()
        invariant
            start <= i <= chars.len(),
            chars@ == text@,
            rest@ == text@.subrange(start as int, i as int),
        decreases chars.len() - i,
    {
        rest.push(chars[i]);
        assert(rest@ =~= text@.subrange(start as int, i + 1));
        i = i + 1;
    }
    assert(rest@ =~= text@.skip(start as int));
    text_of(&rest)
}

impl FileBlockList {
    /// The root that the patterns are bound to.
    pub closed spec fn root(&self) -> Seq<char> {
        self.root@
    }

    /// The texts of the patterns that the list holds, in order.
    pub closed spec fn patterns(&self) -> Seq<Seq<char>> {
        match self.blocklist {
            Some(matcher) => matcher_globs(matcher),
            None => Seq::empty(),
        }
    }

    /// What every list keeps: its matcher is bound to its root.
    pub closed spec fn wf(&self) -> bool {
        self.blocklist matches Some(matcher) ==> matcher_root(matcher) == self.root@
    }

    /// Compiles the ignore rules of a tree from the text of its pattern
    /// source, one pattern to a line; byte-order marks at the head of the
    /// text are dropped. A missing source gives a list without patterns. The
    /// first line that the matcher refuses gives the error
    /// `BlockListLoadError`, with what the matcher said of it and the line as
    /// its causes; patterns that it cannot compile give the same error, with
    /// what the matcher said as its cause.
    pub fn new(gitignore_root_path: &str, source: Option<&str>) -> (r: Result<
        FileBlockList,
        SyncError,
    >)
        ensures
            match r {
                Ok(list) => {
                    &&& list.wf()
                    &&& list.root() == canonical(gitignore_root_path@)
                    &&& list.patterns() == patterns_of(source_lines(source_text(source)))
                    &&& all_accepted(source_lines(source_text(source)))
                    &&& remarks_skipped(source_lines(source_text(source)))
                    &&& source is Some ==> globs_compile(list.patterns())
                },
                Err(e) => {
                    &&& e.spec_kind() == ErrorKind::BlockListLoadError
                    &&& source is Some
                    &&& {
                        ||| exists|at: int| #[trigger]
                            first_refused(source_lines(source_text(source)), at)
                                && e.causes().len() == 2 && e.causes()[1] == source_lines(
                                source_text(source),
                            )[at]
                        ||| all_accepted(source_lines(source_text(source))) && !globs_compile(
                            patterns_of(source_lines(source_text(source))),
                        ) && e.causes().len() == 1
                    }
                },
            },
    {
        let root = normalize(gitignore_root_path);
        let given = match source {
            Some(given) => given,
            None => {
                let list = FileBlockList { root, blocklist: None };
                assert(patterns_of(Seq::<Seq<char>>::empty()) =~= Seq::<Seq<char>>::empty());
                return Ok(list);
            },
        };
        let text = drop_marks(given);
        let lines = split(text.as_str(), LINE_FEED);
        let ghost wanted = source_lines(source_text(source));
        let mut builder = builder_new(root.as_str());
        proof {
            lemma_canonical_begins_plainly(gitignore_root_path@);
            assert(root_kept(root@) == root@);
        }
        let mut i: usize = 0;
        assert(wanted.take(0) =~= Seq::<Seq<char>>::empty());
        assert(patterns_of(wanted.take(0)) =~= Seq::<Seq<char>>::empty());
        while i < lines.len()
            invariant
                i <= lines.len(),
                source is Some,
                texts(lines@) == wanted,
                wanted == source_lines(source_text(source)),
                builder_root(builder) == root@,
                builder_globs(builder) == patterns_of(wanted.take(i as int)),
                forall|j: int| 0 <= j < i ==> line_accepted(#[trigger] wanted[j]),
                forall|j: int|
                    0 <= j < i && is_remark(#[trigger] wanted[j]) ==> line_effect(wanted[j])
                        is Skipped,
            decreases lines.len() - i,
        {
            let ghost line = wanted[i as int];
            let ghost before = builder_globs(builder);
            proof {
                assert(line == lines@[i as int]@);
                assert(wanted.take(i + 1).drop_last() =~= wanted.take(i as int));
                assert(wanted.take(i + 1).last() == line);
            }
            match builder_add_line(&mut builder, lines[i].as_str()) {
                Ok(_) => {
                    proof {
                        match line_effect(line) {
                            LineEffect::Pattern(kept) => {
                                assert(before.push(kept) =~= before + seq![kept]);
                                if is_remark(line) {
                                    assert(before.push(kept).len() == before.len() + 1);
                                }
                            },
                            _ => {},
                        }
                    }
                },
                Err(e) => {
                    assert(first_refused(wanted, i as int));
                    let error = SyncError::new(ErrorKind::BlockListLoadError, error_text(&e)).wrap(
                        lines[i].clone(),
                    );
                    return Err(error);
                },
            }
            i = i + 1;
        }
        assert(wanted.take(i as int) =~= wanted);
        match builder_build(&builder) {
            Ok(matcher) => Ok(FileBlockList { root, blocklist: Some(matcher) }),
            Err(e) => Err(SyncError::new(ErrorKind::BlockListLoadError, error_text(&e))),
        }
    }

    /// What the patterns say of a path: the strongest answer over the path
    /// and its ancestors below the root.
    pub fn any_match(&self, path: &str) -> (m: PatternMatch)
        requires
            self.wf(),
        ensures
            m == match_of(self.root(), self.patterns(), path@),
    {
        let matcher = match &self.blocklist {
            Some(matcher) => matcher,
            None => {
                return PatternMatch::NoMatch;
            },
        };
        if matcher_len(matcher) == 0 {
            return PatternMatch::NoMatch;
        }
        let tail = match tail_segments(path, self.root.as_str()) {
            Some(tail) => tail,
            None => {
                if has_root(path) {
                    return PatternMatch::NoMatch;
                }
                let segs = split_segments(path);
                if climbs(&segs) {
                    return PatternMatch::NoMatch;
                }
                segs
            },
        };
        let absolute = has_root(self.root.as_str());
        let mut ancestor = split_segments(self.root.as_str());
        let mut answers: Vec<PatternMatch> = Vec::new();
        let ghost below = texts(tail@);
        let ghost wanted = verdicts_along(self.root@, matcher_globs(*matcher), below);
        let mut depth: usize = 0;
        assert(segments(self.root@) + below.take(0) =~= segments(self.root@));
        while depth < tail.len()
            invariant
                depth <= tail.len(),
                below == texts(tail@),
                absolute == is_absolute(self.root@),
                matcher_root(*matcher) == self.root@,
                wanted == verdicts_along(self.root@, matcher_globs(*matcher), below),
                texts(ancestor@) == segments(self.root@) + below.take(depth as int),
                answers@ == wanted.take(depth as int),
            decreases tail.len() - depth,
        {
            let word = tail[depth].clone();
            proof {
                lemma_texts_push(ancestor@, word);
                assert(below[depth as int] == tail@[depth as int]@);
                assert((segments(self.root@) + below.take(depth as int)).push(below[depth as int])
                    =~= segments(self.root@) + below.take(depth + 1));
            }
            ancestor.push(word);
            let text = render(absolute, &ancestor);
            let answer = matcher_verdict(matcher, text.as_str(), true);
            answers.push(answer);
            assert(answers@ =~= wanted.take(depth + 1));
            depth = depth + 1;
        }
        assert(wanted.take(depth as int) =~= wanted);
        strongest_of(&answers)
    }

    /// Whether the list excludes a path: the path or one of its ancestors
    /// below the root is excluded.
    pub fn is_blocked(&self, path: &str) -> (r: bool)
        requires
            self.wf(),
        ensures
            r == blocks(self.root(), self.patterns(), path@),
    {
        self.any_match(path) == PatternMatch::Ignore
    }

    /// The number of patterns in the list.
    pub fn len(&self) -> (n: usize)
        requires
            self.wf(),
        ensures
            n == self.patterns().len(),
    {
        match &self.blocklist {
            Some(matcher) => matcher_len(matcher),
            None => 0,
        }
    }

    /// Whether the list holds no pattern.
    pub fn is_empty(&self) -> (r: bool)
        requires
            self.wf(),
        ensures
            r == (self.patterns().len() == 0),
    {
        self.len() == 0
    }
}

} // verus!
