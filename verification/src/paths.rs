//! Lexical path translation between the watched tree and the remote tree.
//!
//! A path is a text. Its meaning is whether it starts at the root, and the
//! sequence of its segments: the pieces between separators, without the empty
//! piece and without the piece `.`. The segment `..` is kept as it stands.

use vstd::prelude::*;
use vstd::string::StringExecFns;
use vstd::string::StrSliceExecFns;
use crate::errors::ErrorKind;
use crate::errors::SyncError;
use crate::text::lemma_pieces_nonempty;
use crate::text::lemma_texts_push;
use crate::text::pieces;
use crate::text::text_chars;
use crate::text::text_of;
use crate::text::texts;
use crate::types::LocalPathBuf;
use crate::types::PathMap;
use crate::types::RemotePathBuf;

verus! {

/// The character that separates the segments of a path.
pub const SEPARATOR: char = '/';

/// Whether a piece between two separators counts as a segment: the empty
/// piece does not, and neither does the piece `.`.
pub open spec fn counts(piece: Seq<char>) -> bool {
    piece.len() > 0 && piece != seq!['.']
}

/// The segments of a path: the pieces between its separators that count.
pub open spec fn segments(text: Seq<char>) -> Seq<Seq<char>> {
    pieces(text, SEPARATOR).filter(|piece: Seq<char>| counts(piece))
}

/// The segments completed so far, with the piece that a separator just closed.
pub open spec fn close(done: Seq<Seq<char>>, piece: Seq<char>) -> Seq<Seq<char>> {
    if counts(piece) {
        done.push(piece)
    } else {
        done
    }
}

/// A text read from the left: the segments that separators have closed, and
/// the piece after the last separator.
pub open spec fn scan(text: Seq<char>) -> (Seq<Seq<char>>, Seq<char>)
    decreases text.len(),
{
    if text.len() == 0 {
        (Seq::empty(), Seq::empty())
    } else {
        let before = scan(text.drop_last());
        if text.last() == SEPARATOR {
            (close(before.0, before.1), Seq::empty())
        } else {
            (before.0, before.1.push(text.last()))
        }
    }
}

/// Reading a text from the left finds its pieces: the pieces before the last
/// that count, and the last piece.
pub proof fn lemma_scan_pieces(text: Seq<char>)
    ensures
        pieces(text, SEPARATOR).len() > 0,
        scan(text).0 == pieces(text, SEPARATOR).drop_last().filter(
            |piece: Seq<char>| counts(piece),
        ),
        scan(text).1 == pieces(text, SEPARATOR).last(),
        segments(text) == close(scan(text).0, scan(text).1),
    decreases text.len(),
{
    reveal(Seq::filter);
    let keep = |piece: Seq<char>| counts(piece);
    let here = pieces(text, SEPARATOR);
    lemma_pieces_nonempty(text, SEPARATOR);
    if text.len() == 0 {
        assert(here.drop_last() =~= Seq::<Seq<char>>::empty());
    } else {
        let before = pieces(text.drop_last(), SEPARATOR);
        lemma_scan_pieces(text.drop_last());
        if text.last() == SEPARATOR {
            assert(here.drop_last() =~= before);
        } else {
            assert(here.drop_last() =~= before.drop_last());
        }
    }
}

/// Whether a path starts at the root.
pub open spec fn is_absolute(text: Seq<char>) -> bool {
    text.len() > 0 && text[0] == SEPARATOR
}

/// Whether a text can be one segment of a path.
pub open spec fn is_segment(piece: Seq<char>) -> bool {
    counts(piece) && forall|i: int| 0 <= i < piece.len() ==> piece[i] != SEPARATOR
}

/// Whether every text of a sequence can be a segment.
pub open spec fn all_segments(segs: Seq<Seq<char>>) -> bool {
    forall|i: int| 0 <= i < segs.len() ==> is_segment(#[trigger] segs[i])
}

/// The segments written one after another, a separator between two of them.
pub open spec fn joined(segs: Seq<Seq<char>>) -> Seq<char>
    decreases segs.len(),
{
    if segs.len() == 0 {
        Seq::empty()
    } else if segs.len() == 1 {
        segs[0]
    } else {
        joined(segs.drop_last()) + seq![SEPARATOR] + segs.last()
    }
}

/// The plain text of a path: a leading separator if it starts at the root,
/// then its segments.
pub open spec fn rendered(absolute: bool, segs: Seq<Seq<char>>) -> Seq<char> {
    if absolute {
        seq![SEPARATOR] + joined(segs)
    } else {
        joined(segs)
    }
}

/// The plain text of the path that a text names.
pub open spec fn canonical(text: Seq<char>) -> Seq<char> {
    rendered(is_absolute(text), segments(text))
}

/// Whether two texts name the same path.
pub open spec fn same_path(a: Seq<char>, b: Seq<char>) -> bool {
    is_absolute(a) == is_absolute(b) && segments(a) == segments(b)
}

/// The segments of `file` that follow those of `directory`.
pub open spec fn relative_tail(file: Seq<char>, directory: Seq<char>) -> Seq<Seq<char>> {
    segments(file).skip(segments(directory).len() as int)
}

/// Whether a segment names the directory above.
pub open spec fn is_up(segment: Seq<char>) -> bool {
    segment == seq!['.', '.']
}

/// How far below its start a run of segments ends: the segment `..` leads
/// one step up, every other segment one step down.
pub open spec fn depth(segs: Seq<Seq<char>>) -> int
    decreases segs.len(),
{
    if segs.len() == 0 {
        0
    } else if is_up(segs.last()) {
        depth(segs.drop_last()) - 1
    } else {
        depth(segs.drop_last()) + 1
    }
}

/// Whether a run of segments climbs above its start: some beginning of it
/// holds more `..` segments than others.
pub open spec fn climbs_out(segs: Seq<Seq<char>>) -> bool {
    exists|k: int| 0 <= k <= segs.len() && depth(#[trigger] segs.take(k)) < 0
}

/// Whether `file` lies lexically inside `directory`: both start at the root or
/// neither does, the segments of `directory` begin those of `file`, and what
/// follows them in `file` never climbs above `directory`. Nothing is resolved:
/// a path that leaves the directory and comes back is outside it.
pub open spec fn inside(file: Seq<char>, directory: Seq<char>) -> bool {
    &&& is_absolute(file) == is_absolute(directory)
    &&& segments(directory).is_prefix_of(segments(file))
    &&& !climbs_out(relative_tail(file, directory))
}

/// The plain text of each path of a sequence.
pub open spec fn plain_texts(paths: Seq<Seq<char>>) -> Seq<Seq<char>> {
    Seq::new(paths.len(), |i: int| canonical(paths[i]))
}

/// The path `relative` taken from `base`. A `relative` that starts at the root
/// stands for itself.
pub open spec fn joined_path(base: Seq<char>, relative: Seq<char>) -> Seq<char> {
    if is_absolute(relative) {
        rendered(true, segments(relative))
    } else {
        rendered(is_absolute(base), segments(base) + segments(relative))
    }
}

/// The remote counterpart of `file`: the remote root, then what follows the
/// watched root in `file`.
pub open spec fn remote_of(file: Seq<char>, directory: Seq<char>, remote: Seq<char>) -> Seq<
    char,
> {
    rendered(is_absolute(remote), segments(remote) + relative_tail(file, directory))
}

/// Reading one more character: a separator closes the open piece, any other
/// character extends it.
pub proof fn lemma_scan_push(text: Seq<char>, c: char)
    ensures
        scan(text.push(c)) == if c == SEPARATOR {
            (close(scan(text).0, scan(text).1), Seq::<char>::empty())
        } else {
            (scan(text).0, scan(text).1.push(c))
        },
{
    assert(text.push(c).drop_last() =~= text);
}

/// Reading a word without separators extends the open piece by that word.
pub proof fn lemma_scan_word(text: Seq<char>, word: Seq<char>)
    requires
        forall|i: int| 0 <= i < word.len() ==> word[i] != SEPARATOR,
    ensures
        scan(text + word) == (scan(text).0, scan(text).1 + word),
    decreases word.len(),
{
    if word.len() == 0 {
        assert(text + word =~= text);
        assert(scan(text).1 + word =~= scan(text).1);
    } else {
        let shorter = word.drop_last();
        lemma_scan_word(text, shorter);
        lemma_scan_push(text + shorter, word.last());
        assert((text + shorter).push(word.last()) =~= text + word);
        assert((scan(text).1 + shorter).push(word.last()) =~= scan(text).1 + word);
    }
}

/// Every segment that reading a text yields can be a segment, and the open
/// piece holds no separator.
pub proof fn lemma_scan_valid(text: Seq<char>)
    ensures
        all_segments(scan(text).0),
        forall|i: int| 0 <= i < scan(text).1.len() ==> scan(text).1[i] != SEPARATOR,
        all_segments(segments(text)),
    decreases text.len(),
{
    lemma_scan_pieces(text);
    if text.len() > 0 {
        lemma_scan_valid(text.drop_last());
    }
}

/// Reading the segments of a path after a text that ends in a separator, or
/// after nothing: all but the last are closed, the last is open.
pub proof fn lemma_scan_joined(text: Seq<char>, segs: Seq<Seq<char>>)
    requires
        scan(text).1.len() == 0,
        all_segments(segs),
        segs.len() > 0,
    ensures
        scan(text + joined(segs)) == (scan(text).0 + segs.drop_last(), segs.last()),
    decreases segs.len(),
{
    if segs.len() == 1 {
        lemma_scan_word(text, segs[0]);
        assert(scan(text).1 + segs[0] =~= segs[0]);
        assert(scan(text).0 + segs.drop_last() =~= scan(text).0);
    } else {
        let front = segs.drop_last();
        assert(all_segments(front)) by {
            assert forall|i: int| 0 <= i < front.len() implies is_segment(#[trigger] front[i]) by {
                assert(front[i] == segs[i]);
            }
        }
        lemma_scan_joined(text, front);
        let upto = text + joined(front);
        lemma_scan_push(upto, SEPARATOR);
        let after = upto.push(SEPARATOR);
        assert(is_segment(front.last())) by {
            assert(front.last() == segs[segs.len() - 2]);
        }
        assert(scan(after).0 =~= scan(text).0 + front) by {
            assert((scan(text).0 + front.drop_last()).push(front.last()) =~= scan(text).0 + front);
        }
        assert(is_segment(segs.last())) by {
            assert(segs.last() == segs[segs.len() - 1]);
        }
        lemma_scan_word(after, segs.last());
        assert(after + segs.last() =~= text + joined(segs));
        assert(Seq::<char>::empty() + segs.last() =~= segs.last());
    }
}

/// Writing a path down and reading it again gives the same path.
pub proof fn lemma_segments_of_rendered(absolute: bool, segs: Seq<Seq<char>>)
    requires
        all_segments(segs),
    ensures
        segments(rendered(absolute, segs)) == segs,
        is_absolute(rendered(absolute, segs)) == absolute,
{
    let lead: Seq<char> = if absolute {
        seq![SEPARATOR]
    } else {
        Seq::empty()
    };
    assert(scan(lead) == (Seq::<Seq<char>>::empty(), Seq::<char>::empty())) by {
        if absolute {
            lemma_scan_push(Seq::empty(), SEPARATOR);
            assert(Seq::<char>::empty().push(SEPARATOR) =~= lead);
        }
    }
    lemma_scan_pieces(rendered(absolute, segs));
    if segs.len() == 0 {
        assert(rendered(absolute, segs) =~= lead);
    } else {
        lemma_scan_joined(lead, segs);
        assert(lead + joined(segs) =~= rendered(absolute, segs));
        assert(is_segment(segs.last())) by {
            assert(segs.last() == segs[segs.len() - 1]);
        }
        assert((Seq::<Seq<char>>::empty() + segs.drop_last()).push(segs.last()) =~= segs);
        lemma_joined_starts_in_segment(segs);
    }
}

/// The text of one or more segments begins inside its first segment.
pub proof fn lemma_joined_starts_in_segment(segs: Seq<Seq<char>>)
    requires
        all_segments(segs),
        segs.len() > 0,
    ensures
        joined(segs).len() > 0,
        joined(segs)[0] == segs[0][0],
        joined(segs)[0] != SEPARATOR,
    decreases segs.len(),
{
    assert(is_segment(segs[0]));
    if segs.len() > 1 {
        let front = segs.drop_last();
        assert(all_segments(front)) by {
            assert forall|i: int| 0 <= i < front.len() implies is_segment(#[trigger] front[i]) by {
                assert(front[i] == segs[i]);
            }
        }
        lemma_joined_starts_in_segment(front);
        assert(front[0] == segs[0]);
    }
}

/// The text of one or more segments begins with its first segment, and a
/// separator follows where there are more.
pub proof fn lemma_joined_begins(segs: Seq<Seq<char>>)
    requires
        segs.len() > 0,
    ensures
        segs[0].is_prefix_of(joined(segs)),
        segs.len() > 1 ==> joined(segs).len() > segs[0].len() && joined(segs)[segs[0].len() as int]
            == SEPARATOR,
        segs.len() == 1 ==> joined(segs) == segs[0],
    decreases segs.len(),
{
    if segs.len() == 1 {
        assert(segs[0] =~= joined(segs).subrange(0, segs[0].len() as int));
    } else {
        let front = segs.drop_last();
        lemma_joined_begins(front);
        assert(front[0] == segs[0]);
        let whole = joined(segs);
        assert(segs[0] =~= whole.subrange(0, segs[0].len() as int)) by {
            assert(segs[0] =~= joined(front).subrange(0, segs[0].len() as int));
        }
    }
}

/// The plain text of a path never begins with a segment `.`.
pub proof fn lemma_canonical_begins_plainly(text: Seq<char>)
    ensures
        !(canonical(text).len() >= 2 && canonical(text)[0] == '.' && canonical(text)[1]
            == SEPARATOR),
{
    lemma_scan_valid(text);
    let segs = segments(text);
    let plain = canonical(text);
    if plain.len() >= 2 && plain[0] == '.' && plain[1] == SEPARATOR {
        assert(!is_absolute(text));
        assert(segs.len() > 0);
        lemma_joined_begins(segs);
        let first = segs[0];
        assert(is_segment(first));
        assert(first =~= plain.subrange(0, first.len() as int));
        assert(first[0] == plain[0]);
        if first.len() >= 2 {
            assert(first[1] == plain.subrange(0, first.len() as int)[1]);
        } else {
            assert(first =~= seq!['.']);
        }
    }
}

/// The plain text of a path names the same path.
pub proof fn lemma_canonical(text: Seq<char>)
    ensures
        is_absolute(canonical(text)) == is_absolute(text),
        segments(canonical(text)) == segments(text),
        canonical(canonical(text)) == canonical(text),
{
    lemma_scan_valid(text);
    lemma_segments_of_rendered(is_absolute(text), segments(text));
}

/// The depth of two runs of segments, one after the other, is the sum of
/// their depths.
pub proof fn lemma_depth_add(a: Seq<Seq<char>>, b: Seq<Seq<char>>)
    ensures
        depth(a + b) == depth(a) + depth(b),
    decreases b.len(),
{
    if b.len() == 0 {
        assert(a + b =~= a);
    } else {
        lemma_depth_add(a, b.drop_last());
        assert((a + b).drop_last() =~= a + b.drop_last());
        assert((a + b).last() == b.last());
    }
}

/// Two runs of segments that do not climb above their starts do not climb
/// above the start of the first when one follows the other.
pub proof fn lemma_climb_add(a: Seq<Seq<char>>, b: Seq<Seq<char>>)
    requires
        !climbs_out(a),
        !climbs_out(b),
    ensures
        !climbs_out(a + b),
{
    assert forall|k: int| 0 <= k <= (a + b).len() implies depth(#[trigger] (a + b).take(k))
        >= 0 by {
        if k <= a.len() {
            assert((a + b).take(k) =~= a.take(k));
        } else {
            assert((a + b).take(k) =~= a + b.take(k - a.len()));
            lemma_depth_add(a, b.take(k - a.len()));
            assert(a.take(a.len() as int) =~= a);
            assert(depth(a.take(a.len() as int)) >= 0);
            assert(depth(b.take(k - a.len())) >= 0);
        }
    }
}

/// What lies inside a directory lies inside whatever that directory lies
/// inside, and its tail there is the directory's tail followed by its own.
pub proof fn lemma_inside_transitive(path: Seq<char>, directory: Seq<char>, root: Seq<char>)
    requires
        inside(path, directory),
        inside(directory, root),
    ensures
        inside(path, root),
        relative_tail(path, root) == relative_tail(directory, root) + relative_tail(
            path,
            directory,
        ),
{
    let rs = segments(root);
    let ds = segments(directory);
    let ps = segments(path);
    assert(ds =~= ps.subrange(0, ds.len() as int));
    assert(rs =~= ds.subrange(0, rs.len() as int));
    assert(rs =~= ps.subrange(0, rs.len() as int));
    assert(relative_tail(path, root) =~= relative_tail(directory, root) + relative_tail(
        path,
        directory,
    ));
    lemma_climb_add(relative_tail(directory, root), relative_tail(path, directory));
}

/// Whether a path starts at the root.
pub fn has_root(path: &str) -> (r: bool)
    ensures
        r == is_absolute(path@),
{
    if path.is_empty() {
        false
    } else {
        path.get_char(0) == SEPARATOR
    }
}

/// Whether the characters of a piece make a segment.
fn piece_counts(piece: &Vec<char>) -> (r: bool)
    ensures
        r == counts(piece@),
{
    if piece.len() == 0 {
        false
    } else if piece.len() == 1 && piece[0] == '.' {
        assert(piece@ =~= seq!['.']);
        false
    } else {
        assert(piece@ != seq!['.']) by {
            if piece@.len() == 1 {
                assert(seq!['.'][0] == '.');
            } else {
                assert(seq!['.'].len() == 1);
            }
        }
        true
    }
}

/// The segments of a path, in order.
pub fn split_segments(path: &str) -> (segs: Vec<String>)
    ensures
        texts(segs@) == segments(path@),
        all_segments(texts(segs@)),
{
    let chars = text_chars(path);
    let mut done: Vec<String> = Vec::new();
    let mut piece: Vec<char> = Vec::new();
    let mut i: usize = 0;
    assert(texts(done@) =~= Seq::<Seq<char>>::empty());
    assert(path@.take(0) =~= Seq::<char>::empty());
    while i < chars.len()
        invariant
            i <= chars.len(),
            chars@ == path@,
            (texts(done@), piece@) == scan(path@.take(i as int)),
        decreases chars.len() - i,
    {
        let c = chars[i];
        proof {
            lemma_scan_push(path@.take(i as int), c);
            assert(path@.take(i as int).push(c) =~= path@.take(i + 1));
        }
        if c == SEPARATOR {
            if piece_counts(&piece) {
                let word = text_of(&piece);
                proof {
                    lemma_texts_push(done@, word);
                }
                done.push(word);
            }
            piece = Vec::new();
            assert(piece@ =~= Seq::<char>::empty());
        } else {
            piece.push(c);
        }
        i = i + 1;
    }
    assert(path@.take(i as int) =~= path@);
    if piece_counts(&piece) {
        let word = text_of(&piece);
        proof {
            lemma_texts_push(done@, word);
        }
        done.push(word);
    }
    proof {
        lemma_scan_pieces(path@);
        lemma_scan_valid(path@);
    }
    done
}

/// Writes a path down: a leading separator if it starts at the root, then the
/// segments with a separator between two of them.
pub fn render(absolute: bool, segs: &Vec<String>) -> (path: String)
    ensures
        path@ == rendered(absolute, texts(segs@)),
{
    let mut path = String::new();
    if absolute {
        path.push(SEPARATOR);
    }
    let mut i: usize = 0;
    assert(texts(segs@).take(0) =~= Seq::<Seq<char>>::empty());
    assert(path@ =~= rendered(absolute, texts(segs@).take(0)));
    while i < segs.len()
        invariant
            i <= segs.len(),
            path@ == rendered(absolute, texts(segs@).take(i as int)),
        decreases segs.len() - i,
    {
        let ghost before = texts(segs@).take(i as int);
        let ghost after = texts(segs@).take(i + 1);
        proof {
            assert(after.drop_last() =~= before);
            assert(after.last() == segs@[i as int]@);
        }
        if i > 0 {
            path.push(SEPARATOR);
        }
        path.append(segs[i].as_str());
        proof {
            if i > 0 {
                assert(joined(after) =~= joined(before) + seq![SEPARATOR] + segs@[i as int]@);
            } else {
                assert(joined(before) =~= Seq::<char>::empty());
                assert(joined(after) =~= segs@[i as int]@);
            }
            assert(path@ =~= rendered(absolute, after));
        }
        i = i + 1;
    }
    assert(texts(segs@).take(i as int) =~= texts(segs@));
    path
}

/// Whether a run of segments climbs above its start.
pub fn climbs(segs: &Vec<String>) -> (r: bool)
    ensures
        r == climbs_out(texts(segs@)),
{
    let up = "..".to_owned();
    proof {
        reveal_strlit("..");
        assert(up@ =~= seq!['.', '.']);
    }
    let ghost all = texts(segs@);
    let mut level: usize = 0;
    let mut i: usize = 0;
    assert(all.take(0) =~= Seq::<Seq<char>>::empty());
    while i < segs.len()
        invariant
            i <= segs.len(),
            all == texts(segs@),
            up@ == seq!['.', '.'],
            level <= i,
            level == depth(all.take(i as int)),
            forall|k: int| 0 <= k <= i ==> depth(#[trigger] all.take(k)) >= 0,
        decreases segs.len() - i,
    {
        proof {
            assert(all.take(i + 1).drop_last() =~= all.take(i as int));
            assert(all.take(i + 1).last() == segs@[i as int]@);
        }
        if segs[i] == up {
            if level == 0 {
                assert(depth(all.take(i + 1)) < 0);
                return true;
            }
            level = level - 1;
        } else {
            level = level + 1;
        }
        i = i + 1;
    }
    false
}

/// The segments of `file` that follow those of `directory`, where `file` lies
/// lexically inside it.
pub fn tail_segments(file: &str, directory: &str) -> (r: Option<Vec<String>>)
    ensures
        match r {
            Some(tail) => inside(file@, directory@) && texts(tail@) == relative_tail(
                file@,
                directory@,
            ),
            None => !inside(file@, directory@),
        },
{
    let file_segs = split_segments(file);
    let dir_segs = split_segments(directory);
    let ghost fs = segments(file@);
    let ghost ds = segments(directory@);
    if has_root(file) != has_root(directory) || dir_segs.len() > file_segs.len() {
        return None;
    }
    let mut i: usize = 0;
    while i < dir_segs.len()
        invariant
            i <= dir_segs.len() <= file_segs.len(),
            fs == segments(file@),
            ds == segments(directory@),
            texts(file_segs@) == fs,
            texts(dir_segs@) == ds,
            forall|j: int| 0 <= j < i ==> ds[j] == fs[j],
        decreases dir_segs.len() - i,
    {
        assert(texts(file_segs@)[i as int] == file_segs@[i as int]@);
        assert(texts(dir_segs@)[i as int] == dir_segs@[i as int]@);
        if !(dir_segs[i] == file_segs[i]) {
            assert(ds[i as int] != fs[i as int]);
            assert(!ds.is_prefix_of(fs)) by {
                if ds.is_prefix_of(fs) {
                    assert(ds[i as int] == fs.subrange(0, ds.len() as int)[i as int]);
                }
            }
            return None;
        }
        i = i + 1;
    }
    assert(ds =~= fs.subrange(0, ds.len() as int));
    let mut tail: Vec<String> = Vec::new();
    let mut k: usize = dir_segs.len();
    assert(texts(tail@) =~= fs.subrange(ds.len() as int, k as int));
    while k < file_segs.len()
        invariant
            dir_segs.len() <= k <= file_segs.len(),
            texts(file_segs@) == fs,
            ds.len() == dir_segs.len(),
            texts(tail@) == fs.subrange(ds.len() as int, k as int),
        decreases file_segs.len() - k,
    {
        let word = file_segs[k].clone();
        proof {
            lemma_texts_push(tail@, word);
            assert(texts(file_segs@)[k as int] == file_segs@[k as int]@);
            assert(fs.subrange(ds.len() as int, k as int).push(fs[k as int]) =~= fs.subrange(
                ds.len() as int,
                k + 1,
            ));
        }
        tail.push(word);
        k = k + 1;
    }
    assert(fs.subrange(ds.len() as int, fs.len() as int) =~= fs.skip(ds.len() as int));
    if climbs(&tail) {
        return None;
    }
    Some(tail)
}

/// The path of `file` relative to `directory`, where `file` lies lexically
/// inside it; otherwise the error `PathNotContained`, with `file` as its cause.
pub fn strip_prefix(file: &str, directory: &str) -> (r: Result<String, SyncError>)
    ensures
        match r {
            Ok(tail) => inside(file@, directory@) && tail@ == rendered(
                false,
                relative_tail(file@, directory@),
            ),
            Err(e) => !inside(file@, directory@) && e.spec_kind() == ErrorKind::PathNotContained
                && e.causes() == seq![file@],
        },
{
    match tail_segments(file, directory) {
        Some(tail) => Ok(render(false, &tail)),
        None => Err(SyncError::new(ErrorKind::PathNotContained, file.to_owned())),
    }
}

/// The plain text of the path that a text names.
pub fn normalize(path: &str) -> (out: String)
    ensures
        out@ == canonical(path@),
{
    render(has_root(path), &split_segments(path))
}

/// The path `file` taken from `remote_directory`.
pub fn generate_remote_path(file: String, remote_directory: &str) -> (path: RemotePathBuf)
    ensures
        path@ == joined_path(remote_directory@, file@),
{
    let mut segs = split_segments(file.as_str());
    if has_root(file.as_str()) {
        return render(true, &segs);
    }
    let mut all = split_segments(remote_directory);
    let ghost base = texts(all@);
    let ghost rest = texts(segs@);
    let mut i: usize = 0;
    assert(rest.take(0) =~= Seq::<Seq<char>>::empty());
    assert(base + rest.take(0) =~= base);
    while i < segs.len()
        invariant
            i <= segs.len(),
            rest == texts(segs@),
            texts(all@) == base + rest.take(i as int),
        decreases segs.len() - i,
    {
        let word = segs[i].clone();
        proof {
            lemma_texts_push(all@, word);
            assert(rest[i as int] == segs@[i as int]@);
            assert((base + rest.take(i as int)).push(rest[i as int]) =~= base + rest.take(i + 1));
        }
        all.push(word);
        i = i + 1;
    }
    assert(rest.take(i as int) =~= rest);
    render(has_root(remote_directory), &all)
}

/// In a path written down from segments, the first segment decides whether
/// the path starts at the root, and reading finds those segments again.
pub proof fn lemma_joined_path_of_tail(base: Seq<char>, tail: Seq<Seq<char>>)
    requires
        all_segments(tail),
    ensures
        joined_path(base, rendered(false, tail)) == rendered(
            is_absolute(base),
            segments(base) + tail,
        ),
{
    lemma_segments_of_rendered(false, tail);
}

/// The remote counterpart of `file`, for paths given as string slices.
fn translate(file: &str, directory: &str, remote: &str) -> (r: Result<String, SyncError>)
    ensures
        match r {
            Ok(path) => inside(file@, directory@) && path@ == remote_of(
                file@,
                directory@,
                remote@,
            ),
            Err(e) => !inside(file@, directory@) && e.spec_kind() == ErrorKind::PathNotContained
                && e.causes() == seq![file@],
        },
{
    match strip_prefix(file, directory) {
        Ok(relative_file) => {
            proof {
                lemma_scan_valid(file@);
                lemma_tail_valid(segments(file@), segments(directory@).len());
                lemma_joined_path_of_tail(remote@, relative_tail(file@, directory@));
            }
            Ok(generate_remote_path(relative_file, remote))
        },
        Err(e) => Err(e),
    }
}

/// The remote counterpart of `file`, where `file` lies lexically inside the
/// watched `directory`; otherwise the error `PathNotContained`, with `file` as
/// its cause.
pub fn make_remote_path(
    file: &LocalPathBuf,
    directory: &LocalPathBuf,
    remote: &RemotePathBuf,
) -> (r: Result<RemotePathBuf, SyncError>)
    ensures
        match r {
            Ok(path) => inside(file@, directory@) && path@ == remote_of(
                file@,
                directory@,
                remote@,
            ),
            Err(e) => !inside(file@, directory@) && e.spec_kind() == ErrorKind::PathNotContained
                && e.causes() == seq![file@],
        },
{
    translate(file.as_str(), directory.as_str(), remote.as_str())
}

/// The table that pairs each of the given files, in its plain text, with its
/// remote counterpart: two spellings of one path make one pair.
pub open spec fn zipped(files: Seq<Seq<char>>, directory: Seq<char>, remote: Seq<char>) -> Map<
    Seq<char>,
    Seq<char>,
> {
    Map::new(
        |file: Seq<char>| plain_texts(files).contains(file),
        |file: Seq<char>| remote_of(file, directory, remote),
    )
}

/// Whether `at` is the place of the first file that does not lie inside
/// `directory`.
pub open spec fn first_outside(files: Seq<Seq<char>>, directory: Seq<char>, at: int) -> bool {
    &&& 0 <= at < files.len()
    &&& !inside(files[at], directory)
    &&& forall|j: int| 0 <= j < at ==> inside(#[trigger] files[j], directory)
}

/// Whether no two local paths of a table share their remote path.
pub open spec fn one_to_one(map: Map<Seq<char>, Seq<char>>) -> bool {
    forall|a: Seq<char>, b: Seq<char>|
        #![trigger map[a], map[b]]
        map.contains_key(a) && map.contains_key(b) && a != b ==> map[a] != map[b]
}

/// Two paths inside the watched root that are not the same path have remote
/// counterparts that differ.
pub proof fn lemma_remote_paths_differ(
    a: Seq<char>,
    b: Seq<char>,
    directory: Seq<char>,
    remote: Seq<char>,
)
    requires
        inside(a, directory),
        inside(b, directory),
        !same_path(a, b),
    ensures
        remote_of(a, directory, remote) != remote_of(b, directory, remote),
{
    let ta = relative_tail(a, directory);
    let tb = relative_tail(b, directory);
    let rs = segments(remote);
    lemma_scan_valid(a);
    lemma_scan_valid(b);
    lemma_scan_valid(remote);
    lemma_tail_valid(segments(a), segments(directory).len());
    lemma_tail_valid(segments(b), segments(directory).len());
    lemma_segments_joined_valid(rs, ta);
    lemma_segments_joined_valid(rs, tb);
    lemma_segments_of_rendered(is_absolute(remote), rs + ta);
    lemma_segments_of_rendered(is_absolute(remote), rs + tb);
    if remote_of(a, directory, remote) == remote_of(b, directory, remote) {
        assert(rs + ta == rs + tb);
        assert(ta =~= (rs + ta).skip(rs.len() as int));
        assert(tb =~= (rs + tb).skip(rs.len() as int));
        assert(segments(a) =~= segments(directory) + ta);
        assert(segments(b) =~= segments(directory) + tb);
        assert(false);
    }
}

/// Segments after segments are segments.
pub proof fn lemma_segments_joined_valid(a: Seq<Seq<char>>, b: Seq<Seq<char>>)
    requires
        all_segments(a),
        all_segments(b),
    ensures
        all_segments(a + b),
{
    assert forall|i: int| 0 <= i < (a + b).len() implies is_segment(#[trigger] (a + b)[i]) by {
        if i < a.len() {
            assert((a + b)[i] == a[i]);
        } else {
            assert((a + b)[i] == b[i - a.len()]);
        }
    }
}

/// Pairs every file, in its plain text, with its remote counterpart: two
/// spellings of one path make one pair, and no two pairs share their remote
/// path. The first file that does not lie inside `directory` ends the work
/// with the error `PathNotContained`, that file as its cause.
pub fn zip_local_and_remote(files: Vec<LocalPathBuf>, directory: &str, remote: &str) -> (r: Result<
    PathMap,
    SyncError,
>)
    ensures
        match r {
            Ok(map) => {
                &&& map.wf()
                &&& forall|i: int| 0 <= i < files.len() ==> inside(#[trigger] files[i]@, directory@)
                &&& map@ == zipped(texts(files@), directory@, remote@)
                &&& one_to_one(map@)
            },
            Err(e) => {
                &&& e.spec_kind() == ErrorKind::PathNotContained
                &&& exists|at: int| #[trigger]
                    first_outside(texts(files@), directory@, at) && e.causes() == seq![
                        files[at]@,
                    ]
            },
        },
{
    let mut map = PathMap::new();
    let ghost names = texts(files@);
    let mut i: usize = 0;
    assert(plain_texts(names.take(0)) =~= Seq::<Seq<char>>::empty());
    assert(map@ =~= zipped(names.take(0), directory@, remote@));
    while i < files.len()
        invariant
            i <= files.len(),
            names == texts(files@),
            map.wf(),
            forall|j: int| 0 <= j < i ==> inside(#[trigger] files[j]@, directory@),
            map@ == zipped(names.take(i as int), directory@, remote@),
        decreases files.len() - i,
    {
        assert(names[i as int] == files[i as int]@);
        match translate(files[i].as_str(), directory, remote) {
            Ok(remote_path) => {
                let key = normalize(files[i].as_str());
                let ghost plain = canonical(names[i as int]);
                let ghost earlier = map@;
                proof {
                    lemma_canonical(names[i as int]);
                    assert(key@ == plain);
                    assert(relative_tail(plain, directory@) == relative_tail(
                        names[i as int],
                        directory@,
                    ));
                    assert(remote_path@ == remote_of(plain, directory@, remote@));
                }
                map.insert(key, remote_path);
                proof {
                    assert(map@ == earlier.insert(plain, remote_of(plain, directory@, remote@)));
                    let before = plain_texts(names.take(i as int));
                    let after = plain_texts(names.take(i + 1));
                    assert(after =~= before.push(canonical(names[i as int])));
                    assert forall|file: Seq<char>| after.contains(file) <==> (before.contains(file)
                        || file == canonical(names[i as int])) by {
                        if before.contains(file) {
                            let p = choose|p: int| 0 <= p < before.len() && before[p] == file;
                            assert(after[p] == file);
                        }
                        if file == canonical(names[i as int]) {
                            assert(after[i as int] == file);
                        }
                    }
                    assert(map@ =~= zipped(names.take(i + 1), directory@, remote@));
                }
            },
            Err(e) => {
                proof {
                    assert forall|j: int| 0 <= j < i implies inside(
                        #[trigger] names[j],
                        directory@,
                    ) by {
                        assert(names[j] == files[j]@);
                    }
                    assert(first_outside(names, directory@, i as int));
                }
                return Err(e);
            },
        }
        i = i + 1;
    }
    assert(names.take(i as int) =~= names);
    proof {
        lemma_zipped_one_to_one(names, directory@, remote@);
    }
    Ok(map)
}

/// In the table of files that all lie inside the watched root, no two local
/// paths share their remote path.
pub proof fn lemma_zipped_one_to_one(files: Seq<Seq<char>>, directory: Seq<char>, remote: Seq<char>)
    requires
        forall|i: int| 0 <= i < files.len() ==> inside(#[trigger] files[i], directory),
    ensures
        one_to_one(zipped(files, directory, remote)),
{
    let map = zipped(files, directory, remote);
    let plain = plain_texts(files);
    assert forall|a: Seq<char>, b: Seq<char>|
        #![trigger map[a], map[b]]
        map.contains_key(a) && map.contains_key(b) && a != b implies map[a] != map[b] by {
        let i = choose|i: int| 0 <= i < plain.len() && plain[i] == a;
        let j = choose|j: int| 0 <= j < plain.len() && plain[j] == b;
        lemma_canonical(files[i]);
        lemma_canonical(files[j]);
        assert(inside(files[i], directory));
        assert(inside(files[j], directory));
        lemma_remote_paths_differ(a, b, directory, remote);
    }
}

/// What is left of a sequence of segments after some of them is one.
pub proof fn lemma_tail_valid(segs: Seq<Seq<char>>, n: nat)
    requires
        all_segments(segs),
        n <= segs.len(),
    ensures
        all_segments(segs.skip(n as int)),
{
    assert forall|i: int| 0 <= i < segs.skip(n as int).len() implies is_segment(
        #[trigger] segs.skip(n as int)[i],
    ) by {
        assert(segs.skip(n as int)[i] == segs[i + n]);
    }
}

/// A path inside the watched root is sent to a path inside the remote root
/// with the same tail, and taking that tail from the watched root leads back
/// to the path.
pub proof fn lemma_remote_round_trip(file: Seq<char>, directory: Seq<char>, remote: Seq<char>)
    requires
        inside(file, directory),
    ensures
        inside(remote_of(file, directory, remote), remote),
        relative_tail(remote_of(file, directory, remote), remote) == relative_tail(
            file,
            directory,
        ),
        same_path(
            joined_path(
                directory,
                rendered(false, relative_tail(remote_of(file, directory, remote), remote)),
            ),
            file,
        ),
{
    let tail = relative_tail(file, directory);
    let there = remote_of(file, directory, remote);
    lemma_scan_valid(file);
    lemma_scan_valid(directory);
    lemma_scan_valid(remote);
    lemma_tail_valid(segments(file), segments(directory).len());
    let all = segments(remote) + tail;
    assert(all_segments(all)) by {
        assert forall|i: int| 0 <= i < all.len() implies is_segment(#[trigger] all[i]) by {
            if i < segments(remote).len() {
                assert(all[i] == segments(remote)[i]);
            } else {
                assert(all[i] == tail[i - segments(remote).len()]);
            }
        }
    }
    lemma_segments_of_rendered(is_absolute(remote), all);
    assert(all.subrange(0, segments(remote).len() as int) =~= segments(remote));
    assert(all.skip(segments(remote).len() as int) =~= tail);
    lemma_joined_path_of_tail(directory, tail);
    assert(segments(directory) + tail =~= segments(file));
    lemma_segments_of_rendered(is_absolute(directory), segments(file));
}

} // verus!
