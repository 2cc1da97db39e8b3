//! A content-addressable object store in the canonical loose-object format:
//! blobs, trees and commits, each identified by the cryptographic hash of its
//! serialized form and kept zlib-compressed on disk. The codec, the hashing
//! write path, the canonical tree ordering and the tree traversal carry full
//! functional contracts.

pub mod bytes;
pub mod clock;
pub mod commit;
pub mod hashing;
pub mod header;
pub mod kind;
pub mod object;
pub mod tree;
pub mod tree_entry;
pub mod zlib;

use vstd::prelude::*;

verus! {

/// The failures that reading, decoding or building an object can produce.
#[derive(Clone, Copy, Debug, PartialEq, Eq, Structural)]
pub enum GitError {
    /// No object file exists at the path derived from the requested hash.
    NotFound,
    /// The object file's bytes do not decompress, or the stream is truncated.
    Corrupt,
    /// The decompressed header does not have the form `<kind> <size>\0`.
    MalformedHeader,
    /// The object is well formed but not of the kind the caller required.
    WrongKind,
    /// A tree entry's mode token is not one of the four recognized values.
    UnknownMode,
    /// A commit was requested over a hash that does not resolve to a tree.
    NotATree,
    /// An ordinary input/output or environment failure, surfaced unchanged.
    Io,
}

} // verus!
