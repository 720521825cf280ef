//! The local side: the connection target, and the walk over the watched
//! tree.

use vstd::prelude::*;
use vstd::string::StringExecFns;
use crate::blocklist::FileBlockList;
use crate::blocklist::blocks;
use crate::text::lemma_texts_push;
use crate::text::text_of;
use crate::text::texts;

verus! {

/// The character that stands for a digit.
pub open spec fn digit_char(d: int) -> char {
    if d == 0 {
        '0'
    } else if d == 1 {
        '1'
    } else if d == 2 {
        '2'
    } else if d == 3 {
        '3'
    } else if d == 4 {
        '4'
    } else if d == 5 {
        '5'
    } else if d == 6 {
        '6'
    } else if d == 7 {
        '7'
    } else if d == 8 {
        '8'
    } else {
        '9'
    }
}

/// The decimal digits of a natural number, the most significant first,
/// without leading zeros.
pub open spec fn digits(n: nat) -> Seq<char>
    decreases n,
{
    if n < 10 {
        seq![digit_char(n as int)]
    } else {
        digits(n / 10).push(digit_char((n % 10) as int))
    }
}

/// An integer written in decimal, with a minus sign in front if it is negative.
pub open spec fn decimal(n: int) -> Seq<char> {
    if n < 0 {
        seq!['-'] + digits((-n) as nat)
    } else {
        digits(n as nat)
    }
}

/// The connection target for a host and a port: the host, a colon, the port
/// in decimal.
pub open spec fn host_string(host: Seq<char>, port: int) -> Seq<char> {
    host + seq![':'] + decimal(port)
}

fn digit_of(d: u64) -> (c: char)
    requires
        d < 10,
    ensures
        c == digit_char(d as int),
{
    if d == 0 {
        '0'
    } else if d == 1 {
        '1'
    } else if d == 2 {
        '2'
    } else if d == 3 {
        '3'
    } else if d == 4 {
        '4'
    } else if d == 5 {
        '5'
    } else if d == 6 {
        '6'
    } else if d == 7 {
        '7'
    } else if d == 8 {
        '8'
    } else {
        '9'
    }
}

/// The decimal digits of a number.
fn digits_of(n: u64) -> (out: Vec<char>)
    ensures
        out@ == digits(n as nat),
{
    let mut out: Vec<char> = Vec::new();
    out.push(digit_of(n % 10));
    let mut rest: u64 = n / 10;
    assert(out@ =~= seq![digit_char((n % 10) as int)]);
    assert(Seq::<char>::empty() + out@ =~= out@);
    while rest > 0
        invariant
            digits(n as nat) == (if rest > 0 {
                digits(rest as nat)
            } else {
                Seq::<char>::empty()
            }) + out@,
        decreases rest,
    {
        let ghost before = out@;
        let d = digit_of(rest % 10);
        out.insert(0, d);
        proof {
            let lead = if rest / 10 > 0 {
                digits((rest / 10) as nat)
            } else {
                Seq::<char>::empty()
            };
            assert(digits(rest as nat) =~= lead.push(d));
            assert(lead.push(d) + before =~= lead + out@);
        }
        rest = rest / 10;
    }
    out
}

/// The connection target for a host and a port: the host, a colon, the port
/// in decimal.
pub fn format_host_string(host: &str, port: i64) -> (target: String)
    ensures
        target@ == host_string(host@, port as int),
{
    let mut target = host.to_owned();
    target.push(':');
    let magnitude: u64 = if port < 0 {
        target.push('-');
        (-(port as i128)) as u64
    } else {
        port as u64
    };
    let number = text_of(&digits_of(magnitude));
    target.append(number.as_str());
    assert(target@ =~= host_string(host@, port as int));
    target
}

/// One entry that a walk over the watched tree came upon.
#[derive(Clone, Debug, PartialEq, Eq)]
pub enum WalkEntry {
    /// A path, and whether it is a regular file.
    Found { path: String, is_file: bool },
    /// An entry that could not be read: a permission, a cycle of links.
    Unreadable(String),
}

/// The path of an entry of the walk that is a file to synchronise: a regular
/// file that the ignore rules do not exclude.
pub open spec fn wanted_path(root: Seq<char>, patterns: Seq<Seq<char>>, entry: WalkEntry) -> Option<
    Seq<char>,
> {
    match entry {
        WalkEntry::Found { path, is_file } => if is_file && !blocks(root, patterns, path@) {
            Some(path@)
        } else {
            None
        },
        WalkEntry::Unreadable(_) => None,
    }
}

/// The files to synchronise among the entries of a walk, in the order of the
/// walk.
pub open spec fn walked(root: Seq<char>, patterns: Seq<Seq<char>>, entries: Seq<WalkEntry>) -> Seq<
    Seq<char>,
> {
    entries.filter_map(|entry: WalkEntry| wanted_path(root, patterns, entry))
}

/// The files to synchronise among the entries of a walk over the watched
/// tree: the regular files that the ignore rules do not exclude. Directories
/// are passed over, and so are entries that could not be read.
pub fn visit_dirs(entries: &Vec<WalkEntry>, blocklist: &FileBlockList) -> (files: Vec<String>)
    requires
        blocklist.wf(),
    ensures
        texts(files@) == walked(blocklist.root(), blocklist.patterns(), entries@),
{
    let mut files: Vec<String> = Vec::new();
    let mut i: usize = 0;
    assert(entries@.take(0) =~= Seq::<WalkEntry>::empty());
    assert(texts(files@) =~= Seq::<Seq<char>>::empty());
    while i < entries.len()
        invariant
            i <= entries.len(),
            blocklist.wf(),
            texts(files@) == walked(blocklist.root(), blocklist.patterns(), entries@.take(i as int)),
        decreases entries.len() - i,
    {
        proof {
            assert(entries@.take(i + 1).drop_last() =~= entries@.take(i as int));
            assert(entries@.take(i + 1).last() == entries@[i as int]);
        }
        match &entries[i] {
            WalkEntry::Found { path, is_file } => {
                if *is_file && !blocklist.is_blocked(path.as_str()) {
                    let file = path.clone();
                    proof {
                        lemma_texts_push(files@, file);
                        assert(texts(files@).push(file@) =~= texts(files@) + seq![file@]);
                    }
                    files.push(file);
                }
            },
            WalkEntry::Unreadable(_) => {},
        }
        i = i + 1;
    }
    assert(entries@.take(i as int) =~= entries@);
    files
}

} // verus!
