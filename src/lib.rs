//! Delayed-lockstep input synchronization for a two-player, fixed-step
//! simulation: the input type, the per-frame input ledger, the wire messages
//! and the synchronizer that decides when the simulation may advance.
pub mod input;
pub mod ledger;
pub mod peers;
pub mod protocol;
pub mod sync;

pub use input::GameInput;
pub use ledger::{FrameLedger, FrameSlot};
pub use protocol::{check_datagram, DatagramError, NetworkMessage, DATAGRAM_BUFFER};
pub use sync::{NetworkGame, TickOutput, CONSTANT_DELAY};
