use std::collections::VecDeque;

use sftool_lib::command::{Command, ProtocolError, RamCommand, Response};
use sftool_lib::image::{make_chunk, FlashChunk};
use sftool_lib::reset::{reset_command, Reset};
use sftool_lib::speed::{speed_command, SpeedTrait};
use sftool_lib::write_flash::{
    chunks_ready, writer_for, FlashError, FlashWriter, Step, WriteFlashTrait, COMPAT_PACKET,
};
use sftool_lib::WriteFlashParams;

#[derive(Debug, Clone, PartialEq)]
enum Sent {
    Cmd(Command),
    Data(usize),
    Baud(u32),
}

/// A stub that answers from a script; commands that get no reply on the
/// wire are answered without using the script.
struct FakeStub {
    replies: VecDeque<Result<Response, ProtocolError>>,
    log: Vec<Sent>,
}

impl FakeStub {
    fn new(replies: &[Response]) -> Self {
        FakeStub { replies: replies.iter().map(|r| Ok(*r)).collect(), log: Vec::new() }
    }

    fn next(&mut self) -> Result<Response, ProtocolError> {
        self.replies.pop_front().unwrap_or(Err(ProtocolError::Timeout))
    }

    fn commands(&self) -> Vec<Command> {
        self.log
            .iter()
            .filter_map(|s| match s {
                Sent::Cmd(c) => Some(*c),
                _ => None,
            })
            .collect()
    }

    fn payloads(&self) -> Vec<usize> {
        self.log
            .iter()
            .filter_map(|s| match s {
                Sent::Data(n) => Some(*n),
                _ => None,
            })
            .collect()
    }
}

impl RamCommand for FakeStub {
    fn command(&mut self, cmd: Command) -> Result<Response, ProtocolError> {
        self.log.push(Sent::Cmd(cmd));
        if cmd.expects_reply() {
            self.next()
        } else {
            Ok(Response::Okay)
        }
    }

    fn send_data(&mut self, data: &[u8]) -> Result<Response, ProtocolError> {
        self.log.push(Sent::Data(data.len()));
        self.next()
    }
}

impl WriteFlashTrait for FakeStub {}

impl Reset for FakeStub {}

impl SpeedTrait for FakeStub {
    fn set_baud_rate(&mut self, baud: u32) -> Result<(), ProtocolError> {
        self.log.push(Sent::Baud(baud));
        Ok(())
    }
}

fn params(verify: bool, erase_all: bool) -> WriteFlashParams {
    WriteFlashParams { file_path: vec![], verify, no_compress: false, erase_all }
}

fn flash(dev: &mut FakeStub, chunks: &Vec<FlashChunk>, p: WriteFlashParams, compat: bool) -> Result<(), FlashError> {
    let mut w = writer_for(chunks, &p, compat);
    dev.write_flash(&mut w, chunks)
}

fn chunk(address: u32, len: usize) -> FlashChunk {
    make_chunk(address, vec![0x5A; len])
}

#[test]
fn matching_chunk_is_skipped() {
    let chunks = vec![chunk(0x1200_0000, 100)];
    let mut dev = FakeStub::new(&[Response::Okay]);
    assert_eq!(flash(&mut dev, &chunks, params(true, false), false), Ok(()));
    let c = &chunks[0];
    assert_eq!(dev.commands(), vec![Command::Verify { address: c.address, len: 100, crc: c.crc32 }]);
    assert!(dev.payloads().is_empty());
}

#[test]
fn rx_wait_until_last_piece_completes_once() {
    let chunks = vec![chunk(0x1000_0000, 600), chunk(0x1200_0000, 4)];
    let mut dev = FakeStub::new(&[
        Response::Fail,
        Response::RxWait,
        Response::RxWait,
        Response::RxWait,
        Response::Okay,
        Response::Okay,
    ]);
    assert_eq!(flash(&mut dev, &chunks, params(false, false), true), Ok(()));
    assert_eq!(dev.payloads(), vec![COMPAT_PACKET, COMPAT_PACKET, 600 - 2 * COMPAT_PACKET]);
    let cmds = dev.commands();
    assert_eq!(cmds.len(), 3);
    assert_eq!(cmds[1], Command::WriteAndErase { address: 0x1000_0000, len: 600 });
    assert!(matches!(cmds[2], Command::Verify { address: 0x1200_0000, .. }));
}

#[test]
fn ok_ends_a_chunk_early() {
    let chunks = vec![chunk(0x1000_0000, 600)];
    let mut dev = FakeStub::new(&[Response::Fail, Response::RxWait, Response::Okay]);
    assert_eq!(flash(&mut dev, &chunks, params(false, false), true), Ok(()));
    assert_eq!(dev.payloads(), vec![COMPAT_PACKET]);
}

#[test]
fn sequencer_steps_through_backpressure() {
    let chunks = vec![chunk(0x1000_0000, 600)];
    let mut w = FlashWriter::new(&chunks, false, false, true);
    assert!(matches!(w.step(), Step::Send(Command::Verify { .. })));
    assert!(matches!(w.on_reply(Response::Fail), Step::Send(Command::WriteAndErase { .. })));
    assert_eq!(
        w.on_reply(Response::RxWait),
        Step::Payload { chunk: 0, start: 0, end: 256, preamble: None }
    );
    assert_eq!(
        w.on_reply(Response::RxWait),
        Step::Payload { chunk: 0, start: 256, end: 512, preamble: None }
    );
    assert_eq!(
        w.on_reply(Response::RxWait),
        Step::Payload { chunk: 0, start: 512, end: 600, preamble: None }
    );
    assert_eq!(w.on_reply(Response::Okay), Step::Done);
}

#[test]
fn erase_all_once_per_bank() {
    let chunks = vec![chunk(0x1000_0000, 8), chunk(0x1200_0000, 8), chunk(0x1201_0000, 8)];
    let mut dev = FakeStub::new(&[Response::Okay; 5]);
    assert_eq!(flash(&mut dev, &chunks, params(false, true), false), Ok(()));
    assert!(dev.commands().iter().all(|c| !matches!(c, Command::Verify { .. } | Command::WriteAndErase { .. })));
    let erases: Vec<Command> =
        dev.commands().into_iter().filter(|c| matches!(c, Command::EraseAll { .. })).collect();
    assert_eq!(
        erases,
        vec![Command::EraseAll { address: 0x1000_0000 }, Command::EraseAll { address: 0x1200_0000 }]
    );
}

#[test]
fn erase_all_mode_writes_with_plain_write() {
    let chunks = vec![chunk(0x1000_0000, 600)];
    let mut dev = FakeStub::new(&[Response::Okay, Response::RxWait, Response::RxWait, Response::Okay]);
    assert_eq!(flash(&mut dev, &chunks, params(false, true), true), Ok(()));
    assert_eq!(
        dev.log,
        vec![
            Sent::Cmd(Command::EraseAll { address: 0x1000_0000 }),
            Sent::Cmd(Command::Write { address: 0x1000_0000, len: 600 }),
            Sent::Data(256),
            Sent::Data(256),
            Sent::Data(88),
        ]
    );
}

#[test]
fn refused_bulk_erase_stops_the_session() {
    let chunks = vec![chunk(0x1000_0000, 8), chunk(0x1200_0000, 8)];
    let mut dev = FakeStub::new(&[Response::Fail, Response::Okay, Response::Okay]);
    let r = flash(&mut dev, &chunks, params(false, true), false);
    assert_eq!(r, Err(FlashError::EraseFailed { address: 0x1000_0000 }));
    assert_eq!(dev.log, vec![Sent::Cmd(Command::EraseAll { address: 0x1000_0000 })]);
}

#[test]
fn first_bytes_sent_for_a_raw_binary() {
    let chunks = vec![make_chunk(0x1200_0000, vec![0xAB; 10])];
    let mut dev = FakeStub::new(&[Response::Okay]);
    assert_eq!(flash(&mut dev, &chunks, params(false, false), false), Ok(()));
    let first = match dev.log[0] {
        Sent::Cmd(c) => String::from_utf8(c.to_wire()).unwrap(),
        _ => panic!("payload before any command"),
    };
    assert_eq!(first, format!("burn_verify 0x12000000 0x0000000a 0x{:08x}\r", chunks[0].crc32));
}

#[test]
fn verify_failure_stops_the_session() {
    let chunks = vec![chunk(0x1000_0000, 8), chunk(0x1200_0000, 8)];
    let mut dev = FakeStub::new(&[Response::Fail, Response::RxWait, Response::Okay, Response::Fail]);
    let r = flash(&mut dev, &chunks, params(true, false), false);
    assert_eq!(r, Err(FlashError::VerifyMismatch { address: 0x1000_0000 }));
    assert!(dev
        .commands()
        .iter()
        .all(|c| !matches!(c, Command::Verify { address: 0x1200_0000, .. })));
    assert_eq!(dev.replies.len(), 0);
}

#[test]
fn refused_write_is_an_error() {
    let chunks = vec![chunk(0x1000_0000, 8)];
    let mut dev = FakeStub::new(&[Response::Fail, Response::Fail]);
    let r = flash(&mut dev, &chunks, params(false, false), false);
    assert_eq!(r, Err(FlashError::WriteFailed { address: 0x1000_0000 }));
    let mut dev = FakeStub::new(&[Response::Fail, Response::RxWait, Response::Fail]);
    let r = flash(&mut dev, &chunks, params(false, false), false);
    assert_eq!(r, Err(FlashError::WriteFailed { address: 0x1000_0000 }));
}

#[test]
fn silent_stub_is_a_timeout() {
    let chunks = vec![chunk(0x1000_0000, 8)];
    let mut dev = FakeStub::new(&[]);
    let r = flash(&mut dev, &chunks, params(false, false), false);
    assert_eq!(r, Err(FlashError::Protocol(ProtocolError::Timeout)));
}

#[test]
fn nothing_to_write() {
    let mut dev = FakeStub::new(&[]);
    assert_eq!(flash(&mut dev, &vec![], params(true, true), false), Ok(()));
    assert!(dev.log.is_empty());
}

#[test]
fn readiness_check() {
    assert!(chunks_ready(&vec![chunk(0x1000, 4)]));
    assert!(!chunks_ready(&vec![chunk(0x1000, 0)]));
    assert!(!chunks_ready(&vec![chunk(0xffff_fffe, 4)]));
}

#[test]
fn reset_and_speed_commands() {
    assert_eq!(reset_command(), Command::SoftReset);
    assert_eq!(speed_command(921_600), Command::SetBaud { baud: 921_600, delay: 500 });
}

#[test]
fn soft_reset_command() {
    let mut dev = FakeStub::new(&[Response::Okay]);
    assert_eq!(dev.soft_reset(), Ok(()));
    assert_eq!(dev.log, vec![Sent::Cmd(Command::SoftReset)]);
}

#[test]
fn speed_change_order() {
    let mut dev = FakeStub::new(&[]);
    assert_eq!(dev.set_speed(3_000_000), Ok(()));
    assert_eq!(
        dev.log,
        vec![Sent::Cmd(Command::SetBaud { baud: 3_000_000, delay: 500 }), Sent::Baud(3_000_000)]
    );
}
