//! The errors an operation of the driver can end with.
use vstd::prelude::*;
use crate::reply::ReplyData;

verus! {

/// A failure reported by the byte transport.
#[derive(Debug, Clone, Copy, PartialEq, Eq, Structural)]
pub enum TransportError {
    /// The stream ended: a read delivered no byte.
    EndOfStream,
    /// The link reported a fault, identified by a code the transport chose.
    Fault(u32),
}

/// The closed set of failures of a driver operation.
#[derive(Debug)]
pub enum GenericEspAtError {
    /// The transport failed to read or write.
    Transport(TransportError),
    /// The co-processor answered with `ERROR`; holds the bytes before it.
    ATError(ReplyData),
    /// The reply did not end within the buffer's capacity; holds the bytes
    /// collected so far. The buffer is too small or the firmware misbehaves.
    ATResponseTooLong(ReplyData),
    /// A value did not fit the room it is given, or the reply was malformed.
    ATResponseInvalid,
}

} // verus!
