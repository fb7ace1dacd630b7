//! The ways in which a packet leaves a pipeline without being transmitted.

use vstd::prelude::*;
use crate::mbuf::Mbuf;

verus! {

/// A diagnostic value of the `failure` crate, carried through the pipeline
/// unread. Nothing is claimed of what it holds.
#[verifier::external_type_specification]
#[verifier::external_body]
pub struct ExError(failure::Error);

/// Why a packet is not processed any further. Either way the error owns the
/// buffer of the packet it replaced.
#[derive(Debug)]
pub enum PacketError {
    /// The packet is intentionally dropped.
    Drop(Mbuf),
    /// The packet is aborted because processing it failed.
    Abort(Mbuf, failure::Error),
}

impl PacketError {
    /// The buffer the error owns.
    pub open spec fn buffer(&self) -> Mbuf {
        match *self {
            PacketError::Drop(buffer) => buffer,
            PacketError::Abort(buffer, _) => buffer,
        }
    }

    /// Gives up the buffer, forgetting why the packet failed.
    pub fn into_mbuf(self) -> (buffer: Mbuf)
        ensures
            buffer == self.buffer(),
    {
        match self {
            PacketError::Drop(buffer) => buffer,
            PacketError::Abort(buffer, _) => buffer,
        }
    }
}

/// The failure of a transform. A transform consumes the packet it is given, so
/// its failure hands the buffer back together with the reason.
#[derive(Debug)]
pub struct Fault {
    /// The buffer of the packet that could not be transformed.
    pub buffer: Mbuf,
    /// What went wrong.
    pub cause: failure::Error,
}

} // verus!
