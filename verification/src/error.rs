use vstd::prelude::*;

verus! {

/// The ways in which an operation on a repository fails.
#[derive(Debug, Clone, Copy, PartialEq, Eq, Structural)]
pub enum Error {
    /// No object is stored under the identifier.
    ObjectNotFound,
    /// The stored object's type tag is not the one that was asked for.
    TypeMismatch,
    /// The stored bytes hold no separator between type tag and payload.
    MalformedObject,
    /// A commit lacks its tree header or has a header line of an unknown kind.
    MalformedCommit,
    /// A tree entry is incomplete, of an unknown kind or names an illegal path,
    /// or trees are nested more deeply than the store holds objects.
    MalformedTree,
    /// A name is neither a reference nor an object identifier.
    UnknownRevision,
    /// The metadata directory is missing where one is required.
    NotARepository,
    /// Reading, writing or copying failed underneath.
    IoFailure,
    /// Symbolic references lead back to one of themselves.
    RefCycle,
    /// Two commits that are to be merged share no ancestor.
    NoCommonAncestor,
}

impl Error {
    /// A short description of the error.
    pub fn message(&self) -> (r: String)
        ensures
            r@ == self.message_text(),
    {
        match self {
            Error::ObjectNotFound => "object not found".to_owned(),
            Error::TypeMismatch => "object has another type".to_owned(),
            Error::MalformedObject => "object has no type separator".to_owned(),
            Error::MalformedCommit => "malformed commit".to_owned(),
            Error::MalformedTree => "malformed tree".to_owned(),
            Error::UnknownRevision => "unknown revision".to_owned(),
            Error::NotARepository => "not a repository".to_owned(),
            Error::IoFailure => "input or output failed".to_owned(),
            Error::RefCycle => "symbolic references form a cycle".to_owned(),
            Error::NoCommonAncestor => "no common ancestor".to_owned(),
        }
    }

    /// The text of [`Error::message`].
    pub open spec fn message_text(&self) -> Seq<char> {
        match self {
            Error::ObjectNotFound => "object not found"@,
            Error::TypeMismatch => "object has another type"@,
            Error::MalformedObject => "object has no type separator"@,
            Error::MalformedCommit => "malformed commit"@,
            Error::MalformedTree => "malformed tree"@,
            Error::UnknownRevision => "unknown revision"@,
            Error::NotARepository => "not a repository"@,
            Error::IoFailure => "input or output failed"@,
            Error::RefCycle => "symbolic references form a cycle"@,
            Error::NoCommonAncestor => "no common ancestor"@,
        }
    }
}

} // verus!
