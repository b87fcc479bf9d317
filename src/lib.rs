//! Flashing engine for SiFli microcontrollers: image normalization, the burn
//! protocol codec, RAM stub bootstrap planning and the flash write sequencer.

pub mod checksum;
pub mod command;
pub mod elf;
pub mod hex;
pub mod image;
pub mod number;
pub mod order;
pub mod ram_stub;
pub mod reply;
pub mod reset;
pub mod speed;
pub mod write_flash;

use vstd::prelude::*;

verus! {

/// How to reach the target and what it is.
#[derive(Clone, Debug)]
pub struct SifliToolBase {
    pub port_name: String,
    pub chip: String,
    pub memory_type: String,
    pub baud: u32,
    pub connect_attempts: i8,
    pub compat: bool,
    pub quiet: bool,
}

/// What to write, and how.
#[derive(Clone, Debug)]
pub struct WriteFlashParams {
    pub file_path: Vec<String>,
    pub verify: bool,
    pub no_compress: bool,
    pub erase_all: bool,
}

} // verus!
