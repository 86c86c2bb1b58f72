//! Error taxonomy of the transport layer.

use vstd::prelude::*;

verus! {

/// Everything that can go wrong inside the protocol core or in the shells
/// around it. All fallible operations return one of these explicitly; the
/// core never panics on malformed network input.
#[derive(Clone, Copy, PartialEq, Eq, Structural, Debug)]
pub enum NetworkError {
    /// A lock guarding the connection registry or a single connection was
    /// poisoned and is unusable; fatal for that operation only.
    AddConnectionToManagerFailed,
    /// A fragment was malformed, a duplicate, mismatched with the stored
    /// reassembly state, or out of the accepted window; the datagram is
    /// discarded and connection state is otherwise untouched.
    FragmentInvalid,
    /// Header bytes were truncated or malformed; the datagram is discarded.
    HeaderParsingFailed,
    /// The underlying transport failed to write a datagram.
    SendFailed,
}

impl NetworkError {
    /// A human-readable description of the error.
    pub fn message(&self) -> (r: &'static str)
        ensures
            r@ =~= self.message_spec(),
    {
        match self {
            NetworkError::AddConnectionToManagerFailed => "Lock poisoned",
            NetworkError::FragmentInvalid => "The fragment of a packet is invalid",
            NetworkError::HeaderParsingFailed => "The parsing of the header went wrong",
            NetworkError::SendFailed => "Something went wrong when sending",
        }
    }

    /// What `message` returns, as a sequence of characters.
    pub open spec fn message_spec(&self) -> Seq<char> {
        match self {
            NetworkError::AddConnectionToManagerFailed => "Lock poisoned"@,
            NetworkError::FragmentInvalid => "The fragment of a packet is invalid"@,
            NetworkError::HeaderParsingFailed => "The parsing of the header went wrong"@,
            NetworkError::SendFailed => "Something went wrong when sending"@,
        }
    }
}

} // verus!
