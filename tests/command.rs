use sftool_lib::command::{Command, DEFAULT_TIMEOUT_MS, ERASE_ALL_TIMEOUT_MS};

fn wire(c: Command) -> String {
    String::from_utf8(c.to_wire()).unwrap()
}

#[test]
fn erase_all_line() {
    assert_eq!(wire(Command::EraseAll { address: 0x1200_0000 }), "burn_erase_all 0x12000000\r");
}

#[test]
fn verify_line() {
    let c = Command::Verify { address: 0x1000_0000, len: 10, crc: 0xdead_beef };
    assert_eq!(wire(c), "burn_verify 0x10000000 0x0000000a 0xdeadbeef\r");
}

#[test]
fn write_lines() {
    let c = Command::WriteAndErase { address: 0x1200_1000, len: 0x20000 };
    assert_eq!(wire(c), "burn_erase_write 0x12001000 0x00020000\r");
    let c = Command::Write { address: 0, len: 0xffff_ffff };
    assert_eq!(wire(c), "burn_write 0x00000000 0xffffffff\r");
}

#[test]
fn reset_and_speed_lines() {
    assert_eq!(wire(Command::SoftReset), "burn_reset\r");
    assert_eq!(wire(Command::SetBaud { baud: 3_000_000, delay: 500 }), "burn_speed 3000000 500\r");
    assert_eq!(wire(Command::SetBaud { baud: 0, delay: 9 }), "burn_speed 0 9\r");
}

#[test]
fn timeouts() {
    assert_eq!(Command::EraseAll { address: 0 }.timeout_ms(), ERASE_ALL_TIMEOUT_MS);
    assert_eq!(ERASE_ALL_TIMEOUT_MS, 30000);
    assert_eq!(Command::SoftReset.timeout_ms(), DEFAULT_TIMEOUT_MS);
    assert_eq!(DEFAULT_TIMEOUT_MS, 4000);
    assert_eq!(Command::Verify { address: 0, len: 1, crc: 2 }.timeout_ms(), 4000);
}

#[test]
fn replies_awaited() {
    assert!(!Command::SetBaud { baud: 1, delay: 2 }.expects_reply());
    assert!(!Command::Write { address: 1, len: 2 }.expects_reply());
    assert!(Command::WriteAndErase { address: 1, len: 2 }.expects_reply());
    assert!(Command::SoftReset.expects_reply());
}
