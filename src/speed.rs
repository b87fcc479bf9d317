//! Changing the serial speed in the middle of a session.

use vstd::prelude::*;
use crate::command::{Command, ProtocolError, RamCommand};

verus! {

/// Milliseconds that the stub waits before it switches its own speed.
pub const BAUD_SWITCH_DELAY_MS: u32 = 500;

/// The command that tells the stub to change to `speed`.
pub fn speed_command(speed: u32) -> (c: Command)
    ensures
        c == (Command::SetBaud { baud: speed, delay: BAUD_SWITCH_DELAY_MS }),
{
    Command::SetBaud { baud: speed, delay: BAUD_SWITCH_DELAY_MS }
}

pub trait SpeedTrait: RamCommand {
    /// Switches the host side of the serial line to `baud`.
    fn set_baud_rate(&mut self, baud: u32) -> Result<(), ProtocolError>;

    /// Sends `speed_command(speed)`, then follows on the host side; in the
    /// other order the command would go out at a speed the stub no longer reads.
    fn set_speed(&mut self, speed: u32) -> Result<(), ProtocolError> {
        match self.command(speed_command(speed)) {
            Ok(_) => self.set_baud_rate(speed),
            Err(e) => Err(e),
        }
    }
}

} // verus!
