//! What can go wrong.

use vstd::prelude::*;

verus! {

/// Declares [`std::io::Error`], which is passed on without being looked into.
#[verifier::external_type_specification]
#[verifier::external_body]
pub struct ExIoError(std::io::Error);

/// Why an operation failed.
#[derive(Debug)]
pub enum Error {
    /// The socket has no datagram at the moment.
    WouldBlock,
    /// The bytes to write do not fit into the room that is left.
    WriteZero,
    /// The bytes end in the middle of what is to be read.
    UnexpectedEof,
    /// The socket claims to have received this many bytes: too few for a
    /// header, or so many that the header would begin behind the buffer.
    BadDatagram(usize),
    /// The socket delivered more datagrams than one call goes through, and none
    /// of them held a message to hand out. The call may be repeated.
    Interrupted,
    /// The socket failed in another way.
    Io(std::io::Error),
}

} // verus!
