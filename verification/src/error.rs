//! The single error taxonomy that every part of the store surfaces.

use vstd::prelude::*;

verus! {

/// The failure classes the store distinguishes.
#[derive(Clone, Copy, Debug, PartialEq, Eq, Structural)]
pub enum ErrorKind {
    /// A remove was asked of a key that is absent.
    NotFound,
    /// The segment catalog is not in a state the store can trust:
    /// an id gap, a truncated record, or an interrupted compaction.
    CorruptState,
    /// A filesystem or socket failure reported by the surrounding program.
    IoError,
    /// A record or envelope did not encode or decode.
    CodecError,
    /// A peer spoke the wire protocol wrongly.
    ProtocolError,
    /// The engine chosen at startup differs from the one recorded for the
    /// directory.
    ConfigMismatch,
}

/// An error carrying its [`ErrorKind`].
#[derive(Clone, Copy, Debug, PartialEq, Eq, Structural)]
pub struct Error {
    /// The failure class this error reports.
    pub kind: ErrorKind,
}

/// The description [`Error::message`] gives each kind.
pub open spec fn spec_message(k: ErrorKind) -> Seq<char> {
    match k {
        ErrorKind::NotFound => "Key not found"@,
        ErrorKind::CorruptState => "Corrupt segment catalog"@,
        ErrorKind::IoError => "I/O failure"@,
        ErrorKind::CodecError => "Record or envelope codec failure"@,
        ErrorKind::ProtocolError => "Wire protocol violation"@,
        ErrorKind::ConfigMismatch => "Engine differs from the recorded one"@,
    }
}

impl Error {
    /// Wrap a kind as an error.
    pub fn new(kind: ErrorKind) -> (r: Error)
        ensures
            r.kind == kind,
    {
        Error { kind }
    }

    /// The kind of this error.
    pub fn kind(&self) -> (r: ErrorKind)
        ensures
            r == self.kind,
    {
        self.kind
    }

    /// A short human-readable description, in place of `Display`.
    pub fn message(&self) -> (r: &'static str)
        ensures
            r@ == spec_message(self.kind),
    {
        match self.kind {
            ErrorKind::NotFound => "Key not found",
            ErrorKind::CorruptState => "Corrupt segment catalog",
            ErrorKind::IoError => "I/O failure",
            ErrorKind::CodecError => "Record or envelope codec failure",
            ErrorKind::ProtocolError => "Wire protocol violation",
            ErrorKind::ConfigMismatch => "Engine differs from the recorded one",
        }
    }
}

} // verus!
