//! Errors of sending voice over the network.

use vstd::prelude::*;

verus! {

#[verifier::external_type_specification]
#[verifier::external_body]
pub struct ExIoError(std::io::Error);

/// Why a datagram could not be sent.
#[derive(Debug)]
pub enum SendError {
    /// The socket reported an error.
    Io(std::io::Error),
    /// The socket is not ready; sending would block.
    WouldBlock,
}

impl SendError {
    /// The send failed only because the socket was not ready.
    pub fn is_would_block(&self) -> (b: bool)
        ensures
            b == (self is WouldBlock),
    {
        match self {
            SendError::WouldBlock => true,
            SendError::Io(_) => false,
        }
    }
}

} // verus!
