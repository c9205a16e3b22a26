//! Transport over a serial link.
use vstd::prelude::*;
use crate::Result;

pub mod crc;
pub mod framing;
pub mod transport;

verus! {

/// What the transport needs of the platform: a serial link and a clock.
pub trait SerialPlatformOps {
    /// Sends bytes from the start of `buf` and says how many it sent. It
    /// may send fewer than all.
    fn write_serial_data(&mut self, buf: &[u8]) -> Result<usize>;

    /// Waits up to `timeout` milliseconds for bytes, puts at most `len` of
    /// them at the start of `buf` and says how many.
    fn read_serial_data(&mut self, buf: &mut [u8], len: usize, timeout: i32) -> Result<usize>;

    /// Milliseconds since some moment in the past.
    fn millis(&mut self) -> i32;
}

} // verus!
