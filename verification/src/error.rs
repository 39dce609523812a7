//! Why a read or a write on a connection came to nothing.

use vstd::prelude::*;

verus! {

/// The failures that the tunnel tells apart.
#[derive(Clone, Copy, Debug, PartialEq, Eq, Structural)]
pub enum Error {
    /// The socket is not ready: try again later.
    WouldBlock,
    /// A read gave no byte: the peer is gone.
    ReadZero,
    /// A frame or a message that makes no sense (`EINVAL`).
    Invalid,
    /// Any other failure of the socket, with the system's number for it.
    Io(i32),
    /// A failure that the system has no number for.
    Other,
}

} // verus!
