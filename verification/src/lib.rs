use vstd::prelude::*;

pub mod bytes;
pub mod commit;
pub mod delta;
pub mod hash;
pub mod object;
pub mod pack;
pub mod pkt;
pub mod refs;
pub mod repo;
pub mod store;
pub mod tree;
pub mod zlib;

verus! {

/// The failure kinds a repository operation can report.
#[derive(Clone, Copy, PartialEq, Eq, Structural, Debug)]
pub enum GitError {
    /// A filesystem or network operation failed (raised by unverified callers).
    IoError,
    /// An object or ref is absent.
    NotFound,
    /// A stored object's header or payload is inconsistent, or its type is unknown.
    CorruptObject,
    /// A pack stream has a bad signature, a bad version, or is truncated.
    BadPack,
    /// A delta instruction stream is malformed or its sizes disagree.
    CorruptDelta,
    /// A delta names a base that is still absent after full resolution.
    MissingBase,
    /// The stream uses a feature outside this core, such as an offset delta.
    Unsupported,
    /// The command-line surface was misused.
    BadArgs,
}

} // verus!
