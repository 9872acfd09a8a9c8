//! A minimal distributed version-control engine.
//!
//! A [`data::Repository`] holds a content-addressed object store and a
//! namespace of references, both as plain in-memory values; reading them
//! from a disk and writing them back is left to the caller. On top of the
//! repository stand the tree and commit model ([`base`]), traversal of the
//! commit graph ([`graph`]), the comparison and three-way merge of trees
//! and of texts ([`diff`], [`text`]), the exchange of objects between two
//! repositories ([`remote`]), and what the looking commands show
//! ([`inspect`]).
//!
//! Every function states what it computes in its contract, over
//! mathematical maps and sequences of bytes. What holds of several
//! functions together, such as that a stored object is read back as it was
//! put, stands beside them as proof functions.

use vstd::prelude::*;

pub mod assoc;
pub mod base;
pub mod bytes;
pub mod data;
pub mod diff;
pub mod error;
pub mod graph;
pub mod inspect;
pub mod oid;
pub mod remote;
pub mod text;

verus! {

/// The name of the directory that holds a repository's metadata.
pub const DEFAULT_REPO: &'static str = ".ugit";

/// A commit: the tree it records, the commits it follows, and its message.
/// The first parent is the one that the commit advanced from; a second one
/// is the commit that was merged in.
#[derive(Debug, Clone, PartialEq, Eq)]
pub struct Commit {
    pub tree: Vec<u8>,
    pub parents: Vec<Vec<u8>>,
    pub message: Vec<u8>,
}

/// A [`Commit`] as a mathematical value.
pub struct CommitView {
    pub tree: Seq<u8>,
    pub parents: Seq<Seq<u8>>,
    pub message: Seq<u8>,
}

impl View for Commit {
    type V = CommitView;

    open spec fn view(&self) -> CommitView {
        CommitView {
            tree: self.tree@,
            parents: bytes::views(self.parents@),
            message: self.message@,
        }
    }
}

} // verus!
