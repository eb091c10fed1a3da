//! The ways in which an operation on the ring can fail.

use vstd::prelude::*;

verus! {

/// Why an operation on the ring was refused. A refused operation leaves the
/// ring as it was.
#[derive(Debug, Clone, Copy, PartialEq, Eq, Structural)]
pub enum RingError {
    /// An argument is malformed: an empty key, or a count that is out of range.
    InvalidArgument,
    /// A server with this key is registered already.
    DuplicateServer,
    /// No server with this key is registered.
    ServerNotFound,
    /// The ring holds no virtual node, so no key has a server.
    EmptyRing,
}

impl RingError {
    /// The text of [`RingError::message`].
    pub open spec fn text(self) -> Seq<char> {
        match self {
            RingError::InvalidArgument => "invalid argument"@,
            RingError::DuplicateServer => "server already existed"@,
            RingError::ServerNotFound => "server doesn't exist"@,
            RingError::EmptyRing => "ring is empty"@,
        }
    }

    /// A short description of the error.
    pub fn message(&self) -> (r: &'static str)
        ensures
            r@ == self.text(),
    {
        match self {
            RingError::InvalidArgument => "invalid argument",
            RingError::DuplicateServer => "server already existed",
            RingError::ServerNotFound => "server doesn't exist",
            RingError::EmptyRing => "ring is empty",
        }
    }
}

} // verus!
