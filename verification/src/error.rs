//! What can go wrong, as values the library hands back.

use vstd::prelude::*;
use crate::text::{append_str, chars_of, dec, push_char, push_dec};

verus! {

/// A refused request, with what the refusal is about.
#[derive(Debug, PartialEq, Eq)]
pub enum LoreError {
    /// No object is stored under this id.
    NoSuchObject(String),
    /// The object under this id is an entry where a commit was needed.
    NotACommit(String),
    /// The object under this id is a commit where an entry was needed.
    NotAnEntry(String),
    /// HEAD does not name a branch; holds HEAD's text.
    MalformedHead(String),
    /// The intent to record is blank.
    EmptyIntent,
    /// A commit was asked for with nothing staged.
    NothingStaged,
    /// A branch of this name exists already.
    BranchExists(String),
    /// A branch was asked for before the first commit.
    NoCommitsToBranch,
    /// No branch of this name exists.
    NoSuchBranch(String),
    /// The branch to merge has no commits.
    NothingToMerge(String),
    /// `HEAD` was named before the first commit.
    HeadHasNoCommits,
    /// The reference names nothing.
    UnknownRef(String),
    /// The reference is a prefix of this many commit ids.
    AmbiguousRef(String, usize),
    /// Received bytes for `expected` hash to `actual`.
    IdMismatch { expected: String, actual: String },
    /// Received bytes for this id are not an object.
    InvalidObject(String),
    /// No remote of this name is configured.
    NoSuchRemote(String),
    /// The branch to push has no commits.
    NothingToPush(String),
    /// The remote's branch holds commits the local branch lacks.
    NonFastForward { remote: String, branch: String },
    /// The remote advertises no such branch.
    RemoteHasNoBranch { remote: String, branch: String },
    /// A config key other than `user.name` and `user.email`.
    UnknownConfigKey(String),
    /// The ref name is a directory of the ref store, not a ref file.
    RefIsDirectory(String),
    /// The branch name needs a directory the ref store does not have.
    NoRefDirectory(String),
    /// A command line that does not parse; holds why.
    Usage(String),
}

/// The mathematical value of a [`LoreError`].
pub enum SpecError {
    NoSuchObject(Seq<char>),
    NotACommit(Seq<char>),
    NotAnEntry(Seq<char>),
    MalformedHead(Seq<char>),
    EmptyIntent,
    NothingStaged,
    BranchExists(Seq<char>),
    NoCommitsToBranch,
    NoSuchBranch(Seq<char>),
    NothingToMerge(Seq<char>),
    HeadHasNoCommits,
    UnknownRef(Seq<char>),
    AmbiguousRef(Seq<char>, usize),
    IdMismatch { expected: Seq<char>, actual: Seq<char> },
    InvalidObject(Seq<char>),
    NoSuchRemote(Seq<char>),
    NothingToPush(Seq<char>),
    NonFastForward { remote: Seq<char>, branch: Seq<char> },
    RemoteHasNoBranch { remote: Seq<char>, branch: Seq<char> },
    UnknownConfigKey(Seq<char>),
    RefIsDirectory(Seq<char>),
    NoRefDirectory(Seq<char>),
    Usage(Seq<char>),
}

impl View for LoreError {
    type V = SpecError;

    open spec fn view(&self) -> SpecError {
        match self {
            LoreError::NoSuchObject(s) => SpecError::NoSuchObject(s@),
            LoreError::NotACommit(s) => SpecError::NotACommit(s@),
            LoreError::NotAnEntry(s) => SpecError::NotAnEntry(s@),
            LoreError::MalformedHead(s) => SpecError::MalformedHead(s@),
            LoreError::EmptyIntent => SpecError::EmptyIntent,
            LoreError::NothingStaged => SpecError::NothingStaged,
            LoreError::BranchExists(s) => SpecError::BranchExists(s@),
            LoreError::NoCommitsToBranch => SpecError::NoCommitsToBranch,
            LoreError::NoSuchBranch(s) => SpecError::NoSuchBranch(s@),
            LoreError::NothingToMerge(s) => SpecError::NothingToMerge(s@),
            LoreError::HeadHasNoCommits => SpecError::HeadHasNoCommits,
            LoreError::UnknownRef(s) => SpecError::UnknownRef(s@),
            LoreError::AmbiguousRef(s, n) => SpecError::AmbiguousRef(s@, *n),
            LoreError::IdMismatch { expected, actual } => SpecError::IdMismatch {
                expected: expected@,
                actual: actual@,
            },
            LoreError::InvalidObject(s) => SpecError::InvalidObject(s@),
            LoreError::NoSuchRemote(s) => SpecError::NoSuchRemote(s@),
            LoreError::NothingToPush(s) => SpecError::NothingToPush(s@),
            LoreError::NonFastForward { remote, branch } => SpecError::NonFastForward {
                remote: remote@,
                branch: branch@,
            },
            LoreError::RemoteHasNoBranch { remote, branch } => SpecError::RemoteHasNoBranch {
                remote: remote@,
                branch: branch@,
            },
            LoreError::UnknownConfigKey(s) => SpecError::UnknownConfigKey(s@),
            LoreError::RefIsDirectory(s) => SpecError::RefIsDirectory(s@),
            LoreError::NoRefDirectory(s) => SpecError::NoRefDirectory(s@),
            LoreError::Usage(s) => SpecError::Usage(s@),
        }
    }
}

/// The characters of an optional string.
pub open spec fn opt_str(o: Option<String>) -> Option<Seq<char>> {
    match o {
        Some(s) => Some(s@),
        None => None,
    }
}

/// How one character of HEAD's text is shown between double quotes: a quote,
/// a backslash, a newline, a carriage return and a tab get a backslash.
pub open spec fn quoted_char(c: char) -> Seq<char> {
    if c == '"' {
        seq!['\\', '"']
    } else if c == '\\' {
        seq!['\\', '\\']
    } else if c == '\n' {
        seq!['\\', 'n']
    } else if c == '\r' {
        seq!['\\', 'r']
    } else if c == '\t' {
        seq!['\\', 't']
    } else {
        seq![c]
    }
}

/// The characters of `s`, each shown by [`quoted_char`].
pub open spec fn quoted_body(s: Seq<char>) -> Seq<char>
    decreases s.len(),
{
    if s.len() == 0 {
        Seq::empty()
    } else {
        quoted_body(s.drop_last()) + quoted_char(s.last())
    }
}

/// `s` between double quotes, with its special characters escaped.
pub open spec fn quoted(s: Seq<char>) -> Seq<char> {
    seq!['"'] + quoted_body(s) + seq!['"']
}

/// The sentence that tells a person what went wrong.
pub open spec fn error_text(e: SpecError) -> Seq<char> {
    match e {
        SpecError::NoSuchObject(id) => "no such object: "@ + id,
        SpecError::NotACommit(id) => id + " is not a commit"@,
        SpecError::NotAnEntry(id) => id + " is not an entry"@,
        SpecError::MalformedHead(h) => "malformed HEAD: "@ + quoted(h),
        SpecError::EmptyIntent => "refusing to record empty intent"@,
        SpecError::NothingStaged => "nothing staged to commit"@,
        SpecError::BranchExists(n) => "branch '"@ + n + "' already exists"@,
        SpecError::NoCommitsToBranch => "cannot branch with no commits yet"@,
        SpecError::NoSuchBranch(n) => "branch '"@ + n + "' does not exist"@,
        SpecError::NothingToMerge(n) => "branch '"@ + n + "' has no commits to merge"@,
        SpecError::HeadHasNoCommits => "HEAD has no commits yet"@,
        SpecError::UnknownRef(r) => "unknown ref: "@ + r,
        SpecError::AmbiguousRef(r, n) => "ambiguous ref '"@ + r + "' matches "@ + dec(n as nat)
            + " commits"@,
        SpecError::IdMismatch { expected, actual } => "object id mismatch: bytes for "@ + expected
            + " hash to "@ + actual,
        SpecError::InvalidObject(id) => "invalid object "@ + id,
        SpecError::NoSuchRemote(r) => "no such remote: "@ + r,
        SpecError::NothingToPush(b) => "branch '"@ + b + "' has no commits to push"@,
        SpecError::NonFastForward { remote, branch } => "non-fast-forward push to "@ + remote
            + "/"@ + branch + "; fetch and merge first"@,
        SpecError::RemoteHasNoBranch { remote, branch } => "remote '"@ + remote
            + "' has no branch '"@ + branch + "'"@,
        SpecError::RefIsDirectory(n) => "cannot read ref '"@ + n + "': Is a directory"@,
        SpecError::NoRefDirectory(n) => "cannot write ref '"@ + n + "': No such file or directory"@,
        SpecError::UnknownConfigKey(k) => "unknown config key: "@ + k
            + " (use user.name or user.email)"@,
        SpecError::Usage(why) => why,
    }
}

/// Appends `h` between double quotes, escaped as [`quoted`] says.
fn push_quoted(s: &mut String, h: &str)
    ensures
        final(s)@ == old(s)@ + quoted(h@),
{
    push_char(s, '"');
    let cs = chars_of(h);
    let ghost start = s@;
    let mut i: usize = 0;
    while i < cs.len()
        invariant
            i <= cs.len(),
            cs@ == h@,
            s@ == start + quoted_body(h@.take(i as int)),
        decreases cs.len() - i,
    {
        let c = cs[i];
        if c == '"' {
            push_char(s, '\\');
            push_char(s, '"');
        } else if c == '\\' {
            push_char(s, '\\');
            push_char(s, '\\');
        } else if c == '\n' {
            push_char(s, '\\');
            push_char(s, 'n');
        } else if c == '\r' {
            push_char(s, '\\');
            push_char(s, 'r');
        } else if c == '\t' {
            push_char(s, '\\');
            push_char(s, 't');
        } else {
            push_char(s, c);
        }
        assert(h@.take((i + 1) as int).drop_last() == h@.take(i as int));
        i = i + 1;
    }
    assert(h@.take(i as int) == h@);
    push_char(s, '"');
}

impl LoreError {
    /// What went wrong, in a sentence.
    pub fn message(&self) -> (m: String)
        ensures
            m@ == error_text(self@),
    {
        let mut s = String::new();
        match self {
            LoreError::NoSuchObject(id) => {
                append_str(&mut s, "no such object: ");
                append_str(&mut s, id.as_str());
            },
            LoreError::NotACommit(id) => {
                append_str(&mut s, id.as_str());
                append_str(&mut s, " is not a commit");
            },
            LoreError::NotAnEntry(id) => {
                append_str(&mut s, id.as_str());
                append_str(&mut s, " is not an entry");
            },
            LoreError::MalformedHead(h) => {
                append_str(&mut s, "malformed HEAD: ");
                push_quoted(&mut s, h.as_str());
            },
            LoreError::EmptyIntent => {
                append_str(&mut s, "refusing to record empty intent");
            },
            LoreError::NothingStaged => {
                append_str(&mut s, "nothing staged to commit");
            },
            LoreError::BranchExists(n) => {
                append_str(&mut s, "branch '");
                append_str(&mut s, n.as_str());
                append_str(&mut s, "' already exists");
            },
            LoreError::NoCommitsToBranch => {
                append_str(&mut s, "cannot branch with no commits yet");
            },
            LoreError::NoSuchBranch(n) => {
                append_str(&mut s, "branch '");
                append_str(&mut s, n.as_str());
                append_str(&mut s, "' does not exist");
            },
            LoreError::NothingToMerge(n) => {
                append_str(&mut s, "branch '");
                append_str(&mut s, n.as_str());
                append_str(&mut s, "' has no commits to merge");
            },
            LoreError::HeadHasNoCommits => {
                append_str(&mut s, "HEAD has no commits yet");
            },
            LoreError::UnknownRef(r) => {
                append_str(&mut s, "unknown ref: ");
                append_str(&mut s, r.as_str());
            },
            LoreError::AmbiguousRef(r, n) => {
                append_str(&mut s, "ambiguous ref '");
                append_str(&mut s, r.as_str());
                append_str(&mut s, "' matches ");
                push_dec(&mut s, *n as u64);
                append_str(&mut s, " commits");
            },
            LoreError::IdMismatch { expected, actual } => {
                append_str(&mut s, "object id mismatch: bytes for ");
                append_str(&mut s, expected.as_str());
                append_str(&mut s, " hash to ");
                append_str(&mut s, actual.as_str());
            },
            LoreError::InvalidObject(id) => {
                append_str(&mut s, "invalid object ");
                append_str(&mut s, id.as_str());
            },
            LoreError::NoSuchRemote(r) => {
                append_str(&mut s, "no such remote: ");
                append_str(&mut s, r.as_str());
            },
            LoreError::NothingToPush(b) => {
                append_str(&mut s, "branch '");
                append_str(&mut s, b.as_str());
                append_str(&mut s, "' has no commits to push");
            },
            LoreError::NonFastForward { remote, branch } => {
                append_str(&mut s, "non-fast-forward push to ");
                append_str(&mut s, remote.as_str());
                append_str(&mut s, "/");
                append_str(&mut s, branch.as_str());
                append_str(&mut s, "; fetch and merge first");
            },
            LoreError::RemoteHasNoBranch { remote, branch } => {
                append_str(&mut s, "remote '");
                append_str(&mut s, remote.as_str());
                append_str(&mut s, "' has no branch '");
                append_str(&mut s, branch.as_str());
                append_str(&mut s, "'");
            },
            LoreError::RefIsDirectory(n) => {
                append_str(&mut s, "cannot read ref '");
                append_str(&mut s, n.as_str());
                append_str(&mut s, "': Is a directory");
            },
            LoreError::NoRefDirectory(n) => {
                append_str(&mut s, "cannot write ref '");
                append_str(&mut s, n.as_str());
                append_str(&mut s, "': No such file or directory");
            },
            LoreError::UnknownConfigKey(k) => {
                append_str(&mut s, "unknown config key: ");
                append_str(&mut s, k.as_str());
                append_str(&mut s, " (use user.name or user.email)");
            },
            LoreError::Usage(why) => {
                append_str(&mut s, why.as_str());
            },
        }
        s
    }
}

} // verus!
