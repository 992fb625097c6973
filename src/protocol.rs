use vstd::prelude::*;

use crate::input::GameInput;

verus! {

/// A message between the two peers; one per datagram.
#[derive(Clone, Copy, Debug, PartialEq, Eq, Structural)]
pub enum NetworkMessage {
    /// Empty message, used to test the connection.
    Idle,
    RelayRequestId,
    RelayIdAssigned(u64),
    RelayConnectTo(u64),
    RelayConnected,
    /// One player's input for one simulation frame.
    Input { frame: u64, input: GameInput },
}

/// Size of the buffer a datagram is received into.
pub const DATAGRAM_BUFFER: usize = 256;

/// Why an encoded message cannot travel as one datagram.
#[derive(Clone, Copy, Debug, PartialEq, Eq, Structural)]
pub enum DatagramError {
    /// The encoding does not leave the receive buffer room to tell it from a
    /// truncated one.
    Oversized { len: usize },
}

/// Checks, before it is sent or after it was received, that an encoded
/// message of `len` bytes fits a datagram: a full receive buffer could hold a
/// truncated message, so the largest accepted length is one byte short of it.
pub fn check_datagram(len: usize) -> (r: Result<(), DatagramError>)
    ensures
        r is Ok <==> len < DATAGRAM_BUFFER,
        r is Err ==> r == Err::<(), DatagramError>(DatagramError::Oversized { len }),
{
    if len < DATAGRAM_BUFFER {
        Ok(())
    } else {
        Err(DatagramError::Oversized { len })
    }
}

} // verus!
