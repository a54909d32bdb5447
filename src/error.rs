use vstd::prelude::*;

verus! {

/// Everything that can go wrong in the repository core.
#[derive(Debug, Clone, Copy, PartialEq, Eq, Structural)]
pub enum RepoError {
    /// No repository marker was found.
    NotInitialized,
    /// No object is stored under the requested id.
    ObjectNotFound,
    /// A stored object could not be decoded, or is not of the expected kind.
    CorruptObject,
    /// A name resolves to neither a branch nor a stored commit.
    RefNotFound,
    /// A branch or tag of that name exists already.
    AlreadyExists,
    /// The active branch has no commit yet.
    NoCommitsYet,
    /// Nothing is staged.
    EmptyStagingArea,
    /// A commit names a parent that is not stored.
    CorruptHistory,
    /// Compression of an object could not complete.
    Codec,
    /// HEAD is detached, so there is no branch to advance.
    DetachedHead,
    /// A path or ref name is empty or holds whitespace or control bytes.
    InvalidName,
}

} // verus!
