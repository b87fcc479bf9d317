//! The burn protocol: commands rendered as ASCII lines, and the replies that
//! the RAM stub sends back, recognised by the tokens they contain.

use vstd::prelude::*;
use vstd::string::StringSliceAdditionalSpecFns;

verus! {

/// A request to the RAM stub.
#[derive(Clone, Copy, Debug, PartialEq, Eq, Structural)]
pub enum Command {
    EraseAll { address: u32 },
    Verify { address: u32, len: u32, crc: u32 },
    WriteAndErase { address: u32, len: u32 },
    Write { address: u32, len: u32 },
    SoftReset,
    SetBaud { baud: u32, delay: u32 },
}

/// What the RAM stub answers.
#[derive(Clone, Copy, Debug, PartialEq, Eq, Structural)]
pub enum Response {
    /// The token `OK`.
    Okay,
    /// The token `Fail`.
    Fail,
    /// The token `RX_WAIT`: ready for (more) payload bytes.
    RxWait,
}

/// Why an exchange with the RAM stub produced no reply.
#[derive(Clone, Copy, Debug, PartialEq, Eq, Structural)]
pub enum ProtocolError {
    /// No reply token arrived before the deadline.
    Timeout,
    /// The serial transport reported an error.
    Transport,
}

/// Reply deadline in milliseconds for an ordinary command.
pub const DEFAULT_TIMEOUT_MS: u32 = 4000;

/// Reply deadline in milliseconds for a bulk erase, which is slow.
pub const ERASE_ALL_TIMEOUT_MS: u32 = 30000;

/// Bytes per write of a payload in compatibility mode.
pub const COMPAT_PIECE_SIZE: usize = 256;

/// Milliseconds between payload writes in compatibility mode.
pub const COMPAT_PIECE_DELAY_MS: u32 = 10;

/// The exchange with the stub: a command, or a run of raw payload bytes,
/// answered by one reply.
pub trait RamCommand {
    fn command(&mut self, cmd: Command) -> Result<Response, ProtocolError>;

    fn send_data(&mut self, data: &[u8]) -> Result<Response, ProtocolError>;
}

/// The ASCII digit of a nibble, lower case.
pub open spec fn hex_char(d: u32) -> u8 {
    if d < 10 {
        (0x30 + d) as u8
    } else {
        (0x61 + d - 10) as u8
    }
}

/// `x` as eight lower-case hexadecimal digits, most significant first.
pub open spec fn hex8(x: u32) -> Seq<u8> {
    Seq::new(8, |i: int| hex_char((x >> ((28 - 4 * i) as u32)) & 0xf))
}

/// `x` in decimal without leading zeros.
pub open spec fn decimal(x: nat) -> Seq<u8>
    decreases x,
{
    if x < 10 {
        seq![(0x30 + x) as u8]
    } else {
        decimal(x / 10).push((0x30 + x % 10) as u8)
    }
}

/// `0x` followed by eight hexadecimal digits.
pub open spec fn hex_field(x: u32) -> Seq<u8> {
    "0x".spec_bytes() + hex8(x)
}

/// The line that carries `cmd` on the wire, ending in a carriage return.
pub open spec fn wire(cmd: Command) -> Seq<u8> {
    let sp = " ".spec_bytes();
    let cr = "\r".spec_bytes();
    match cmd {
        Command::EraseAll { address } => "burn_erase_all ".spec_bytes() + hex_field(address) + cr,
        Command::Verify { address, len, crc } => "burn_verify ".spec_bytes() + hex_field(address)
            + sp + hex_field(len) + sp + hex_field(crc) + cr,
        Command::WriteAndErase { address, len } => "burn_erase_write ".spec_bytes() + hex_field(
            address,
        ) + sp + hex_field(len) + cr,
        Command::Write { address, len } => "burn_write ".spec_bytes() + hex_field(address) + sp
            + hex_field(len) + cr,
        Command::SoftReset => "burn_reset".spec_bytes() + cr,
        Command::SetBaud { baud, delay } => "burn_speed ".spec_bytes() + decimal(baud as nat) + sp
            + decimal(delay as nat) + cr,
    }
}

/// Reply deadline of a command in milliseconds.
pub open spec fn timeout_of(cmd: Command) -> u32 {
    match cmd {
        Command::EraseAll { .. } => ERASE_ALL_TIMEOUT_MS,
        _ => DEFAULT_TIMEOUT_MS,
    }
}

/// Commands after which the stub sends no reply of their own: a baud change
/// takes effect at once, and a plain write is answered after its payload.
pub open spec fn expects_reply(cmd: Command) -> bool {
    !(cmd is SetBaud || cmd is Write)
}

pub(crate) fn push_bytes(out: &mut Vec<u8>, b: &[u8])
    ensures
        final(out)@ == old(out)@ + b@,
{
    let mut i: usize = 0;
    while i < b.len()
        invariant
            i <= b@.len(),
            out@ == old(out)@ + b@.take(i as int),
        decreases b@.len() - i,
    {
        out.push(b[i]);
        i = i + 1;
        assert(out@ =~= old(out)@ + b@.take(i as int));
    }
    assert(b@.take(b@.len() as int) =~= b@);
}

fn push_hex_field(out: &mut Vec<u8>, x: u32)
    ensures
        final(out)@ == old(out)@ + hex_field(x),
{
    push_bytes(out, "0x".as_bytes());
    let ghost mid = out@;
    let mut i: u32 = 0;
    while i < 8
        invariant
            i <= 8,
            out@ == mid + hex8(x).take(i as int),
        decreases 8 - i,
    {
        let shift: u32 = 28 - 4 * i;
        let y: u32 = x >> shift;
        let d: u32 = y & 0xf;
        assert(d < 16) by (bit_vector)
            requires
                d == y & 0xf,
        ;
        let c: u8 = if d < 10 {
            (0x30 + d) as u8
        } else {
            (0x61 + d - 10) as u8
        };
        out.push(c);
        i = i + 1;
        assert(out@ =~= mid + hex8(x).take(i as int));
    }
    assert(hex8(x).take(8) =~= hex8(x));
}

fn push_decimal(out: &mut Vec<u8>, x: u32)
    ensures
        final(out)@ == old(out)@ + decimal(x as nat),
    decreases x,
{
    if x >= 10 {
        push_decimal(out, x / 10);
    }
    let c: u8 = (0x30 + x % 10) as u8;
    out.push(c);
    assert(out@ =~= old(out)@ + decimal(x as nat));
}

impl Command {
    /// The bytes that carry this command on the wire.
    pub fn to_wire(&self) -> (r: Vec<u8>)
        ensures
            r@ == wire(*self),
    {
        let mut out: Vec<u8> = Vec::new();
        match *self {
            Command::EraseAll { address } => {
                push_bytes(&mut out, "burn_erase_all ".as_bytes());
                push_hex_field(&mut out, address);
            },
            Command::Verify { address, len, crc } => {
                push_bytes(&mut out, "burn_verify ".as_bytes());
                push_hex_field(&mut out, address);
                push_bytes(&mut out, " ".as_bytes());
                push_hex_field(&mut out, len);
                push_bytes(&mut out, " ".as_bytes());
                push_hex_field(&mut out, crc);
            },
            Command::WriteAndErase { address, len } => {
                push_bytes(&mut out, "burn_erase_write ".as_bytes());
                push_hex_field(&mut out, address);
                push_bytes(&mut out, " ".as_bytes());
                push_hex_field(&mut out, len);
            },
            Command::Write { address, len } => {
                push_bytes(&mut out, "burn_write ".as_bytes());
                push_hex_field(&mut out, address);
                push_bytes(&mut out, " ".as_bytes());
                push_hex_field(&mut out, len);
            },
            Command::SoftReset => {
                push_bytes(&mut out, "burn_reset".as_bytes());
            },
            Command::SetBaud { baud, delay } => {
                push_bytes(&mut out, "burn_speed ".as_bytes());
                push_decimal(&mut out, baud);
                push_bytes(&mut out, " ".as_bytes());
                push_decimal(&mut out, delay);
            },
        }
        push_bytes(&mut out, "\r".as_bytes());
        out
    }

    /// Milliseconds to wait for the reply to this command.
    pub fn timeout_ms(&self) -> (r: u32)
        ensures
            r == timeout_of(*self),
    {
        match self {
            Command::EraseAll { .. } => ERASE_ALL_TIMEOUT_MS,
            _ => DEFAULT_TIMEOUT_MS,
        }
    }

    /// Whether the stub answers this command before anything else is sent.
    pub fn expects_reply(&self) -> (r: bool)
        ensures
            r == expects_reply(*self),
    {
        match self {
            Command::SetBaud { .. } | Command::Write { .. } => false,
            _ => true,
        }
    }
}

} // verus!
