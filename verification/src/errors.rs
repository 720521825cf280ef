//! The kinds of failure and the error value that carries one with its causes.

use vstd::prelude::*;
use vstd::string::StringExecFns;
use crate::text::texts;
use crate::text::lemma_texts_push;

verus! {

/// What went wrong, by kind.
#[derive(Clone, Copy, Debug, PartialEq, Eq, Structural, Hash)]
pub enum ErrorKind {
    /// A required value of the environment could not be read.
    EnvironmentRead,
    /// The remote host refused the connection or could not be reached.
    HostConnection,
    /// The remote host rejected the user.
    UserAuthentication,
    /// A local path does not lie inside the watched root.
    PathNotContained,
    /// The ignore patterns could not be loaded.
    BlockListLoadError,
    /// A remote directory could not be created.
    DirectoryError,
    /// A file could not be written to the remote side.
    TransferError,
    /// A remote rename failed.
    RenameError,
    /// The change notifier can no longer vouch for what it reports.
    WatchFatal,
}

/// What an error of a kind is called.
pub open spec fn label(kind: ErrorKind) -> Seq<char> {
    match kind {
        ErrorKind::EnvironmentRead => "Failed to read environment variable"@,
        ErrorKind::HostConnection => "Failed to connect to host"@,
        ErrorKind::UserAuthentication => "Failed to authenticate user with host"@,
        ErrorKind::PathNotContained => "Path is not inside the watched directory"@,
        ErrorKind::BlockListLoadError => "Failed to load the ignore patterns"@,
        ErrorKind::DirectoryError => "Failed to create directory"@,
        ErrorKind::TransferError => "Failed to transfer file"@,
        ErrorKind::RenameError => "Failed to rename"@,
        ErrorKind::WatchFatal => "The watch cannot go on"@,
    }
}

/// What stands between the parts of a message.
pub open spec fn joint() -> Seq<char> {
    ": "@
}

/// The causes of a chain, the outermost first, each after a joint.
pub open spec fn trail(causes: Seq<Seq<char>>) -> Seq<char>
    decreases causes.len(),
{
    if causes.len() == 0 {
        Seq::empty()
    } else {
        joint() + causes.last() + trail(causes.drop_last())
    }
}

/// The message of an error: what its kind is called, then its causes from
/// the outermost to the first.
pub open spec fn message_of(error: ErrorView) -> Seq<char> {
    label(error.kind) + trail(error.causes)
}

/// What an error of a kind is called.
pub fn label_for(kind: ErrorKind) -> (text: &'static str)
    ensures
        text@ == label(kind),
{
    match kind {
        ErrorKind::EnvironmentRead => "Failed to read environment variable",
        ErrorKind::HostConnection => "Failed to connect to host",
        ErrorKind::UserAuthentication => "Failed to authenticate user with host",
        ErrorKind::PathNotContained => "Path is not inside the watched directory",
        ErrorKind::BlockListLoadError => "Failed to load the ignore patterns",
        ErrorKind::DirectoryError => "Failed to create directory",
        ErrorKind::TransferError => "Failed to transfer file",
        ErrorKind::RenameError => "Failed to rename",
        ErrorKind::WatchFatal => "The watch cannot go on",
    }
}

/// An error: its kind, and the chain of its causes, from the first one outwards.
#[derive(Clone, Debug, PartialEq, Eq)]
pub struct SyncError {
    kind: ErrorKind,
    chain: Vec<String>,
}

/// What an error says, in contracts.
pub struct ErrorView {
    /// The kind of the error.
    pub kind: ErrorKind,
    /// The chain of causes, the first cause first.
    pub causes: Seq<Seq<char>>,
}

impl View for SyncError {
    type V = ErrorView;

    closed spec fn view(&self) -> ErrorView {
        ErrorView { kind: self.kind, causes: texts(self.chain@) }
    }
}

impl SyncError {
    /// The kind of this error, in contracts.
    pub open spec fn spec_kind(&self) -> ErrorKind {
        self@.kind
    }

    /// The chain of causes, the first cause first, in contracts.
    pub open spec fn causes(&self) -> Seq<Seq<char>> {
        self@.causes
    }

    /// An error of the given kind with its first cause.
    pub fn new(kind: ErrorKind, cause: String) -> (e: SyncError)
        ensures
            e.spec_kind() == kind,
            e.causes() == seq![cause@],
    {
        let mut chain: Vec<String> = Vec::new();
        chain.push(cause);
        let e = SyncError { kind, chain };
        assert(e.causes() =~= seq![cause@]);
        e
    }

    /// Wraps the error in one more layer of context; the kind and every
    /// earlier cause are kept.
    pub fn wrap(self, context: String) -> (e: SyncError)
        ensures
            e.spec_kind() == self.spec_kind(),
            e.causes() == self.causes().push(context@),
    {
        let mut chain = self.chain;
        proof {
            lemma_texts_push(chain@, context);
        }
        chain.push(context);
        SyncError { kind: self.kind, chain }
    }

    /// The kind of this error.
    #[verifier::when_used_as_spec(spec_kind)]
    pub fn kind(&self) -> (k: ErrorKind)
        ensures
            k == self.spec_kind(),
    {
        self.kind
    }

    /// The chain of causes, the first cause first.
    pub fn chain(&self) -> (c: &Vec<String>)
        ensures
            texts(c@) == self.causes(),
    {
        &self.chain
    }

    /// A second error that says the same.
    pub fn duplicate(&self) -> (e: SyncError)
        ensures
            e@ == self@,
    {
        let mut chain: Vec<String> = Vec::new();
        let mut i: usize = 0;
        assert(texts(chain@) =~= texts(self.chain@).take(0));
        while i < self.chain.len()
            invariant
                i <= self.chain.len(),
                texts(chain@) == texts(self.chain@).take(i as int),
            decreases self.chain.len() - i,
        {
            let cause = self.chain[i].clone();
            proof {
                lemma_texts_push(chain@, cause);
                assert(texts(self.chain@).take(i as int).push(self.chain@[i as int]@) =~= texts(
                    self.chain@,
                ).take(i + 1));
            }
            chain.push(cause);
            i = i + 1;
        }
        assert(texts(self.chain@).take(i as int) =~= texts(self.chain@));
        SyncError { kind: self.kind, chain }
    }

    /// The message of the error, for a log or for the user: what its kind is
    /// called, then its causes from the outermost to the first.
    pub fn message(&self) -> (text: String)
        ensures
            text@ == message_of(self@),
    {
        let mut text = label_for(self.kind).to_owned();
        let ghost causes = texts(self.chain@);
        let mut i: usize = self.chain.len();
        assert(causes.skip(i as int) =~= Seq::<Seq<char>>::empty());
        assert(text@ + trail(causes.take(i as int)) =~= message_of(self@)) by {
            assert(causes.take(i as int) =~= causes);
        }
        while i > 0
            invariant
                i <= self.chain.len(),
                causes == texts(self.chain@),
                text@ + trail(causes.take(i as int)) == message_of(self@),
            decreases i,
        {
            let ghost before = text@;
            i = i - 1;
            text.append(": ");
            text.append(self.chain[i].as_str());
            proof {
                let upto = causes.take(i + 1);
                assert(upto.last() == self.chain@[i as int]@);
                assert(upto.drop_last() =~= causes.take(i as int));
                assert(text@ + trail(causes.take(i as int)) =~= before + trail(upto));
            }
        }
        assert(trail(causes.take(0)) =~= Seq::<char>::empty());
        assert(text@ + Seq::<char>::empty() =~= text@);
        text
    }

    /// Whether the error ends the watch: only `WatchFatal` does.
    pub fn is_fatal(&self) -> (r: bool)
        ensures
            r == (self.spec_kind() == ErrorKind::WatchFatal),
    {
        self.kind == ErrorKind::WatchFatal
    }
}

} // verus!
