//! Planning the RAM stub bootstrap: which stub image a chip and memory type
//! need, how it is copied into target RAM, and where it starts.

use vstd::prelude::*;
use vstd::string::StringSliceAdditionalSpecFns;
use crate::command::push_bytes;

verus! {

/// Where the stub image is loaded in target RAM.
pub const STUB_LOAD_ADDRESS: u64 = 0x2005_A000;

/// Bytes per memory write of the stub image in compatibility mode.
pub const COMPAT_STUB_PACKET: usize = 256;

/// Bytes per memory write of the stub image otherwise.
pub const STUB_PACKET: usize = 0x10000;

/// Milliseconds the stub needs to start listening after the core resumes.
pub const STUB_SETTLE_MS: u32 = 500;

/// The lookup key of a chip and memory type: `chip_memory`.
pub open spec fn stub_key(chip: Seq<u8>, memory: Seq<u8>) -> Seq<u8> {
    chip + "_".spec_bytes() + memory
}

/// The stub image for a lookup key; `None` for an unsupported combination.
pub open spec fn stub_name_of(key: Seq<u8>) -> Option<Seq<char>> {
    if key == "sf32lb52_nor".spec_bytes() {
        Some("ram_patch_52X.bin"@)
    } else if key == "sf32lb52_nand".spec_bytes() {
        Some("ram_patch_52X_NAND.bin"@)
    } else if key == "sf32lb52_sd".spec_bytes() {
        Some("ram_patch_52X_SD.bin"@)
    } else {
        None
    }
}

fn bytes_equal(a: &[u8], b: &[u8]) -> (r: bool)
    ensures
        r == (a@ == b@),
{
    if a.len() != b.len() {
        return false;
    }
    let mut i: usize = 0;
    while i < a.len()
        invariant
            a@.len() == b@.len(),
            i <= a@.len(),
            forall|j: int| 0 <= j < i ==> a@[j] == b@[j],
        decreases a@.len() - i,
    {
        if a[i] != b[i] {
            return false;
        }
        i = i + 1;
    }
    assert(a@ =~= b@);
    true
}

/// The file name of the stub image for `chip` and `memory`.
pub fn stub_file_name(chip: &str, memory: &str) -> (r: Option<&'static str>)
    ensures
        match r {
            Some(n) => stub_name_of(stub_key(chip.spec_bytes(), memory.spec_bytes())) == Some(n@),
            None => stub_name_of(stub_key(chip.spec_bytes(), memory.spec_bytes())) is None,
        },
{
    let mut key: Vec<u8> = Vec::new();
    push_bytes(&mut key, chip.as_bytes());
    push_bytes(&mut key, "_".as_bytes());
    push_bytes(&mut key, memory.as_bytes());
    if bytes_equal(key.as_slice(), "sf32lb52_nor".as_bytes()) {
        Some("ram_patch_52X.bin")
    } else if bytes_equal(key.as_slice(), "sf32lb52_nand".as_bytes()) {
        Some("ram_patch_52X_NAND.bin")
    } else if bytes_equal(key.as_slice(), "sf32lb52_sd".as_bytes()) {
        Some("ram_patch_52X_SD.bin")
    } else {
        None
    }
}

/// A memory write of part of the stub image.
#[derive(Clone, Copy, Debug, PartialEq, Eq, Structural)]
pub struct StubPacket {
    pub address: u64,
    pub start: usize,
    pub end: usize,
}

/// A write of the image bytes `start..end`, at most `size` long, at the load
/// address plus its offset.
pub open spec fn packet_ok(p: StubPacket, size: int) -> bool {
    p.start < p.end <= p.start + size && p.address == STUB_LOAD_ADDRESS + p.start
}

/// Each write but the last is `size` long and the next one begins where it ends.
pub open spec fn packets_linked(ps: Seq<StubPacket>, size: int) -> bool {
    forall|k: int| 0 <= k < ps.len() - 1 ==> (#[trigger] ps[k]).end == ps[k].start + size && ps[k + 1].start == ps[k].end
}

/// The writes that copy an image of `len` bytes: consecutive pieces of
/// `size` bytes (the last one possibly shorter) from the start to the end.
pub open spec fn packets_ok(ps: Seq<StubPacket>, len: int, size: int) -> bool {
    &&& (len == 0 <==> ps.len() == 0)
    &&& ps.len() > 0 ==> ps[0].start == 0 && ps.last().end == len
    &&& forall|k: int| 0 <= k < ps.len() ==> packet_ok(#[trigger] ps[k], size)
    &&& packets_linked(ps, size)
}

/// How the stub image of `len` bytes is written into RAM.
pub fn stub_packets(len: usize, compat: bool) -> (r: Vec<StubPacket>)
    requires
        len <= u32::MAX,
    ensures
        packets_ok(r@, len as int, (if compat { COMPAT_STUB_PACKET } else { STUB_PACKET }) as int),
{
    let size: usize = if compat { COMPAT_STUB_PACKET } else { STUB_PACKET };
    let mut r: Vec<StubPacket> = Vec::new();
    let mut start: usize = 0;
    while start < len
        invariant
            start <= len <= u32::MAX,
            size == (if compat { COMPAT_STUB_PACKET } else { STUB_PACKET }),
            r@.len() == 0 <==> start == 0,
            r@.len() > 0 ==> r@[0].start == 0 && r@.last().end == start,
            r@.len() > 0 && start < len ==> r@.last().end == r@.last().start + size,
            forall|k: int| 0 <= k < r@.len() ==> packet_ok(#[trigger] r@[k], size as int),
            packets_linked(r@, size as int),
        decreases len - start,
    {
        let end = if len - start <= size { len } else { start + size };
        let ghost before = r@;
        r.push(StubPacket { address: STUB_LOAD_ADDRESS + start as u64, start, end });
        assert forall|k: int| 0 <= k < r@.len() - 1 implies (#[trigger] r@[k]).end == r@[k].start + size
            && r@[k + 1].start == r@[k].end by {
            assert(r@[k] == before[k]);
        }
        assert forall|k: int| 0 <= k < r@.len() implies packet_ok(#[trigger] r@[k], size as int) by {
            if k < before.len() {
                assert(r@[k] == before[k]);
            }
        }
        start = end;
    }
    r
}

/// A little-endian 32-bit word of `b` at `at`.
pub open spec fn le_u32(b: Seq<u8>, at: int) -> u32 {
    (b[at] + b[at + 1] * 0x100 + b[at + 2] * 0x1_0000 + b[at + 3] * 0x100_0000) as u32
}

/// The initial stack pointer and entry address that begin a stub image
/// (words at offsets 0 and 4); `None` for an image shorter than 8 bytes.
pub fn stub_entry(image: &[u8]) -> (r: Option<(u32, u32)>)
    ensures
        image@.len() >= 8 ==> r == Some((le_u32(image@, 0), le_u32(image@, 4))),
        image@.len() < 8 ==> r is None,
{
    if image.len() < 8 {
        return None;
    }
    let sp: u32 = image[0] as u32 + image[1] as u32 * 0x100 + image[2] as u32 * 0x1_0000 + image[3] as u32
        * 0x100_0000;
    let pc: u32 = image[4] as u32 + image[5] as u32 * 0x100 + image[6] as u32 * 0x1_0000 + image[7] as u32
        * 0x100_0000;
    Some((sp, pc))
}

/// The bytes sent on the serial line before the bootstrap so that a debug
/// console running there lets go of it.
pub open spec fn console_release() -> Seq<u8> {
    seq![0x7eu8, 0x79, 0x08, 0x00, 0x10, 0x00, 0x41, 0x54, 0x53, 0x46, 0x33, 0x32, 0x18, 0x21, 0x0d, 0x0a]
}

/// The console release sequence.
pub fn console_release_sequence() -> (r: Vec<u8>)
    ensures
        r@ == console_release(),
{
    let r = vec![0x7eu8, 0x79, 0x08, 0x00, 0x10, 0x00, 0x41, 0x54, 0x53, 0x46, 0x33, 0x32, 0x18, 0x21, 0x0d, 0x0a];
    assert(r@ =~= console_release());
    r
}

} // verus!
