use vstd::prelude::*;

verus! {

/// Every way in which an operation of the library can be refused.
#[derive(Debug, Clone, Copy, PartialEq, Eq, Structural)]
pub enum VikError {
    /// No directory on the way up from the start holds a repository.
    NotInRepository,
    /// An object id shorter than three bytes.
    InvalidObjectId,
    /// A stored object without the NUL byte that ends its header.
    MissingHeaderSeparator,
    /// A stored object whose header is not UTF-8.
    HeaderNotUtf8,
    /// A stored object whose header holds no space before the size.
    MissingObjectSize,
    /// A stored object whose size field is not a decimal number that fits.
    InvalidObjectSize,
    /// A stored object whose content length differs from its header.
    SizeMismatch,
    /// Text that should be UTF-8 and is not.
    NotUtf8,
    /// An index line without a tab between path and blob id.
    InvalidIndexEntry,
    /// A tree line with fewer than four space-separated fields.
    InvalidTreeEntry,
    /// An object read as a tree that is of another kind.
    NotATree,
    /// An object read as a commit that is of another kind.
    NotACommit,
    /// An object read as a blob that is of another kind.
    NotABlob,
    /// A commit without a `tree ` line.
    CommitMissingTree,
    /// A HEAD file that does not start with `ref: `.
    HeadNotSymbolic,
    /// A branch name holding a slash or a space.
    InvalidBranchName,
    /// A path with no components to file a blob under.
    EmptyPath,
    /// `cat-file` asked for none of type, size or content.
    NoCatFileMode,
    /// A path that does not lie below the repository root.
    PathOutsideRepository,
    /// `add` given no files.
    NoFilesProvided,
    /// `commit` with an empty index.
    NothingToCommit,
}

} // verus!
