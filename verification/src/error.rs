use vstd::prelude::*;

verus! {

/// The error kinds that the core reports.
#[derive(Debug, Clone, PartialEq, Eq)]
pub enum GitError {
    /// No repository in the directory or any of its ancestors.
    RepoNotFound,
    /// The repository's `config` is missing, unreadable or names a format
    /// version other than 0.
    CorruptRepo,
    /// No object is stored at the address.
    ObjectNotFound,
    /// Bad framing, bad size, a failed inflate, a bad header block or a bad
    /// tree entry.
    CorruptObject,
    /// The name resolves to no candidate.
    UnknownReference,
    /// The name resolves to more than one candidate; they are listed in the
    /// order in which they were found.
    AmbiguousReference(Vec<Vec<u8>>),
    /// A kind was demanded that the chain of objects does not lead to.
    WrongObjectKind,
    /// The index header names a version other than 2.
    UnsupportedIndexVersion,
    /// A tree entry's mode is none of regular file, symlink, directory, gitlink,
    /// or is one that checkout does not materialise.
    UnsupportedMode,
    /// The checkout target exists and is not empty.
    DestinationNotEmpty,
    /// An ignore check was given an absolute path.
    MustBeRelative,
    /// The file system failed.
    IoError,
}

impl GitError {
    /// A short English name for the kind.
    pub fn name(&self) -> (s: &'static str)
        ensures
            s@ == self.spec_name(),
    {
        match self {
            GitError::RepoNotFound => "repository not found",
            GitError::CorruptRepo => "corrupt repository",
            GitError::ObjectNotFound => "object not found",
            GitError::CorruptObject => "corrupt object",
            GitError::UnknownReference => "unknown reference",
            GitError::AmbiguousReference(_) => "ambiguous reference",
            GitError::WrongObjectKind => "wrong object kind",
            GitError::UnsupportedIndexVersion => "unsupported index version",
            GitError::UnsupportedMode => "unsupported mode",
            GitError::DestinationNotEmpty => "destination not empty",
            GitError::MustBeRelative => "path must be relative",
            GitError::IoError => "i/o error",
        }
    }

    /// The name of the kind, as `name` gives it.
    pub open spec fn spec_name(&self) -> Seq<char> {
        match self {
            GitError::RepoNotFound => "repository not found"@,
            GitError::CorruptRepo => "corrupt repository"@,
            GitError::ObjectNotFound => "object not found"@,
            GitError::CorruptObject => "corrupt object"@,
            GitError::UnknownReference => "unknown reference"@,
            GitError::AmbiguousReference(_) => "ambiguous reference"@,
            GitError::WrongObjectKind => "wrong object kind"@,
            GitError::UnsupportedIndexVersion => "unsupported index version"@,
            GitError::UnsupportedMode => "unsupported mode"@,
            GitError::DestinationNotEmpty => "destination not empty"@,
            GitError::MustBeRelative => "path must be relative"@,
            GitError::IoError => "i/o error"@,
        }
    }
}

} // verus!
