//! Returning the target to its normal firmware.

use vstd::prelude::*;
use crate::command::{Command, ProtocolError, RamCommand};

verus! {

/// The command that reboots the target.
pub fn reset_command() -> (c: Command)
    ensures
        c == Command::SoftReset,
{
    Command::SoftReset
}

pub trait Reset: RamCommand {
    /// Asks the stub to reboot the target: sends `reset_command()`.
    fn soft_reset(&mut self) -> Result<(), ProtocolError> {
        match self.command(reset_command()) {
            Ok(_) => Ok(()),
            Err(e) => Err(e),
        }
    }
}

} // verus!
