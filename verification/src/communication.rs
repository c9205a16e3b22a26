//! What a session needs of a transport.
use vstd::prelude::*;
use crate::Result;

verus! {

/// The longest message that a transport takes.
pub const MAX_MESSAGE_SIZE: usize = 65535;

/// Sends messages to the agent.
pub trait Transmitter {
    type Ok;

    /// Sends one message of at most `MAX_MESSAGE_SIZE` bytes.
    fn send_msg(&mut self, buf: &[u8]) -> Result<Self::Ok>
        requires
            buf@.len() <= MAX_MESSAGE_SIZE,
    ;
}

/// Receives messages from the agent.
pub trait Receiver {
    /// Waits up to `timeout` milliseconds for a message. The message
    /// stays in the receiver until the next call.
    fn receive_msg(&mut self, timeout: i32) -> Result<&[u8]>;
}

} // verus!
