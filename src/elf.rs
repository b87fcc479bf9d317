//! ELF input: flash-destined `PT_LOAD` segments, in order of physical
//! address, are gathered into chunks that start on 4 KiB sector boundaries;
//! gaps inside a chunk hold the erased value 0xFF.

use vstd::prelude::*;
use crate::hex::{pad_to, write_at, lemma_write_at_append};
use crate::image::{FlashChunk, ImageError, Piece, make_chunk, models, checksums_hold};
use crate::order::{sort_by, lemma_insert_by_at, lemma_filter_step};

verus! {

/// The fields of a program header that the chunking reads.
#[derive(Clone, Copy, Debug, PartialEq, Eq, Structural)]
pub struct ProgramHeaderInfo {
    pub p_type: u32,
    pub paddr: u64,
    pub offset: u64,
    pub filesz: u64,
}

/// The program headers of an ELF file in the order it lists them; `None`
/// when the file cannot be parsed as ELF.
pub uninterp spec fn elf_program_headers(file: Seq<u8>) -> Option<Seq<ProgramHeaderInfo>>;

/// Relies on `goblin::elf::Elf::parse`: the parsed file's `program_headers`,
/// in file order, or an error for input it cannot parse.
#[verifier::external_body]
fn program_headers(file: &[u8]) -> (r: Option<Vec<ProgramHeaderInfo>>)
    ensures
        match r {
            Some(v) => elf_program_headers(file@) == Some(v@),
            None => elf_program_headers(file@) is None,
        },
{
    let elf = goblin::elf::Elf::parse(file).ok()?;
    Some(
        elf.program_headers.iter().map(
            |ph| ProgramHeaderInfo { p_type: ph.p_type, paddr: ph.p_paddr, offset: ph.p_offset, filesz: ph.p_filesz },
        ).collect(),
    )
}

/// Segment type of a loadable segment.
pub const PT_LOAD: u32 = 1;

/// Start of on-chip RAM: segments at or above it are not flashed.
pub const RAM_START: u64 = 0x2000_0000;

/// Size of a flash sector; chunks start on its multiples.
pub const SECTOR_SIZE: u32 = 0x1000;

/// A loadable segment whose physical address lies in flash.
pub open spec fn flash_segment(h: ProgramHeaderInfo) -> bool {
    h.p_type == PT_LOAD && h.paddr < RAM_START
}

pub open spec fn flash_filter() -> spec_fn(ProgramHeaderInfo) -> bool {
    |h: ProgramHeaderInfo| flash_segment(h)
}

pub open spec fn paddr_key() -> spec_fn(ProgramHeaderInfo) -> int {
    |h: ProgramHeaderInfo| h.paddr as int
}

/// The start of the sector that holds `a`.
pub open spec fn sector_base(a: u32) -> u32 {
    (a - a % SECTOR_SIZE) as u32
}

/// Chunks finished so far, and the one being assembled at `base`.
pub struct ElfState {
    pub base: u32,
    pub buf: Seq<u8>,
    pub pieces: Seq<Piece>,
}

pub open spec fn elf_flushed(st: ElfState) -> Seq<Piece> {
    if st.buf.len() > 0 {
        st.pieces.push((st.base, st.buf))
    } else {
        st.pieces
    }
}

/// Adds one segment: a segment without bytes changes nothing; otherwise a new
/// chunk begins when the segment's sector starts beyond the current chunk's
/// end, the gap up to the segment is erased bytes, and a segment that reaches
/// back into bytes already placed is an overlap.
pub open spec fn elf_place(st: Result<ElfState, ImageError>, h: ProgramHeaderInfo, file: Seq<u8>) -> Result<ElfState, ImageError> {
    match st {
        Err(e) => Err(e),
        Ok(s) => if h.filesz == 0 {
            Ok(s)
        } else if h.offset + h.filesz > file.len() {
            Err(ImageError::MalformedElf)
        } else {
            let vaddr = h.paddr as u32;
            let data = file.subrange(h.offset as int, h.offset + h.filesz);
            let sb = sector_base(vaddr);
            let s1 = if s.buf.len() == 0 || sb > s.base + s.buf.len() {
                ElfState { base: sb, buf: Seq::empty(), pieces: elf_flushed(s) }
            } else {
                s
            };
            if vaddr < s1.base || vaddr - s1.base < s1.buf.len() {
                Err(ImageError::Overlap)
            } else {
                Ok(ElfState { base: s1.base, buf: write_at(s1.buf, vaddr - s1.base, data), pieces: s1.pieces })
            }
        },
    }
}

/// The state after placing `segs` in order.
pub open spec fn elf_run(segs: Seq<ProgramHeaderInfo>, file: Seq<u8>) -> Result<ElfState, ImageError>
    decreases segs.len(),
{
    if segs.len() == 0 {
        Ok(ElfState { base: 0, buf: Seq::empty(), pieces: Seq::empty() })
    } else {
        elf_place(elf_run(segs.drop_last(), file), segs.last(), file)
    }
}

/// The chunks that the program headers `hs` of `file` give: flash segments
/// in order of physical address, placed one after another.
pub open spec fn elf_segment_pieces(hs: Seq<ProgramHeaderInfo>, file: Seq<u8>) -> Result<Seq<Piece>, ImageError> {
    let segs = sort_by(hs.filter(flash_filter()), paddr_key());
    match elf_run(segs, file) {
        Err(e) => Err(e),
        Ok(st) => Ok(elf_flushed(st)),
    }
}

/// The chunks of an ELF file.
pub open spec fn elf_pieces(file: Seq<u8>) -> Result<Seq<Piece>, ImageError> {
    match elf_program_headers(file) {
        None => Err(ImageError::MalformedElf),
        Some(hs) => elf_segment_pieces(hs, file),
    }
}

fn flash_segments_sorted(hs: &Vec<ProgramHeaderInfo>) -> (r: Vec<ProgramHeaderInfo>)
    ensures
        r@ == sort_by(hs@.filter(flash_filter()), paddr_key()),
{
    let mut sel: Vec<ProgramHeaderInfo> = Vec::new();
    let mut i: usize = 0;
    while i < hs.len()
        invariant
            i <= hs@.len(),
            sel@ == hs@.take(i as int).filter(flash_filter()),
        decreases hs@.len() - i,
    {
        let h = hs[i];
        proof {
            lemma_filter_step(hs@, i as int, flash_filter());
        }
        if h.p_type == PT_LOAD && h.paddr < RAM_START {
            sel.push(h);
        }
        i = i + 1;
    }
    assert(hs@.take(hs@.len() as int) =~= hs@);
    let mut out: Vec<ProgramHeaderInfo> = Vec::new();
    let mut k: usize = 0;
    while k < sel.len()
        invariant
            k <= sel@.len(),
            out@ == sort_by(sel@.take(k as int), paddr_key()),
        decreases sel@.len() - k,
    {
        let x = sel[k];
        let mut p: usize = 0;
        while p < out.len() && out[p].paddr <= x.paddr
            invariant
                p <= out@.len(),
                forall|j: int| 0 <= j < p ==> out@[j].paddr <= x.paddr,
            decreases out@.len() - p,
        {
            p = p + 1;
        }
        proof {
            lemma_insert_by_at(out@, x, paddr_key(), p as int);
            assert(sel@.take(k + 1).drop_last() =~= sel@.take(k as int));
        }
        out.insert(p, x);
        k = k + 1;
    }
    assert(sel@.take(sel@.len() as int) =~= sel@);
    out
}

/// The chunks of an ELF file, given its contents.
pub fn elf_to_chunks(file: &[u8]) -> (r: Result<Vec<FlashChunk>, ImageError>)
    ensures
        match r {
            Ok(cs) => elf_pieces(file@) == Ok::<Seq<Piece>, ImageError>(models(cs@)) && checksums_hold(cs@),
            Err(e) => elf_pieces(file@) == Err::<Seq<Piece>, ImageError>(e),
        },
{
    match program_headers(file) {
        Some(hs) => elf_segments_to_chunks(&hs, file),
        None => Err(ImageError::MalformedElf),
    }
}

/// The chunks that the program headers `hs` of `file` give.
pub fn elf_segments_to_chunks(hs: &Vec<ProgramHeaderInfo>, file: &[u8]) -> (r: Result<Vec<FlashChunk>, ImageError>)
    ensures
        match r {
            Ok(cs) => elf_segment_pieces(hs@, file@) == Ok::<Seq<Piece>, ImageError>(models(cs@)) && checksums_hold(cs@),
            Err(e) => elf_segment_pieces(hs@, file@) == Err::<Seq<Piece>, ImageError>(e),
        },
{
    let segs = flash_segments_sorted(hs);
    let mut chunks: Vec<FlashChunk> = Vec::new();
    let mut base: u32 = 0;
    let mut buf: Vec<u8> = Vec::new();
    let mut i: usize = 0;
    assert(models(chunks@) =~= Seq::<Piece>::empty());
    while i < segs.len()
        invariant
            i <= segs@.len(),
            segs@ == sort_by(hs@.filter(flash_filter()), paddr_key()),
            elf_run(segs@.take(i as int), file@) == Ok::<ElfState, ImageError>(
                ElfState { base, buf: buf@, pieces: models(chunks@) },
            ),
            checksums_hold(chunks@),
        decreases segs@.len() - i,
    {
        let h = segs[i];
        let ghost st0 = ElfState { base, buf: buf@, pieces: models(chunks@) };
        assert(segs@.take(i + 1).drop_last() =~= segs@.take(i as int));
        assert(segs@.take(i + 1).last() == h);
        assert(elf_run(segs@.take(i + 1), file@) == elf_place(Ok(st0), h, file@));
        if h.filesz == 0 {
            i = i + 1;
            continue;
        }
        if h.filesz > file.len() as u64 || h.offset > file.len() as u64 - h.filesz {
            proof {
                lemma_elf_run_err(segs@, file@, i as int + 1, ImageError::MalformedElf);
                assert(segs@.take(segs@.len() as int) =~= segs@);
            }
            return Err(ImageError::MalformedElf);
        }
        let vaddr: u32 = #[verifier::truncate] (h.paddr as u32);
        let sb: u32 = vaddr - vaddr % SECTOR_SIZE;
        if buf.len() == 0 || (sb > base && ((sb - base) as usize) > buf.len()) {
            if buf.len() > 0 {
                let mut data: Vec<u8> = Vec::new();
                std::mem::swap(&mut data, &mut buf);
                let ghost before = chunks@;
                let c = make_chunk(base, data);
                chunks.push(c);
                assert(models(chunks@) =~= models(before).push((base, c.data@)));
            }
            assert(buf@ =~= Seq::<u8>::empty());
            base = sb;
        }
        let ghost s1 = ElfState { base, buf: buf@, pieces: models(chunks@) };
        assert(s1 == (if st0.buf.len() == 0 || sector_base(vaddr) > st0.base + st0.buf.len() {
            ElfState { base: sector_base(vaddr), buf: Seq::empty(), pieces: elf_flushed(st0) }
        } else {
            st0
        }));
        if vaddr < base || ((vaddr - base) as u64) < buf.len() as u64 {
            proof {
                lemma_elf_run_err(segs@, file@, i as int + 1, ImageError::Overlap);
                assert(segs@.take(segs@.len() as int) =~= segs@);
            }
            return Err(ImageError::Overlap);
        }
        let rel: usize = (vaddr - base) as usize;
        let ghost b0 = buf@;
        while buf.len() < rel
            invariant
                buf@.len() <= rel,
                buf@.len() >= b0.len(),
                buf@.subrange(0, b0.len() as int) == b0,
                forall|j: int| b0.len() <= j < buf@.len() ==> buf@[j] == 0xffu8,
            decreases rel - buf@.len(),
        {
            buf.push(0xff);
            assert(buf@.subrange(0, b0.len() as int) =~= b0);
        }
        assert(buf@ =~= pad_to(b0, rel as int));
        proof {
            lemma_write_at_append(b0, rel as int, file@.subrange(h.offset as int, h.offset + h.filesz));
        }
        let ghost b1 = buf@;
        let start: usize = h.offset as usize;
        let end: usize = (h.offset + h.filesz) as usize;
        let mut k: usize = start;
        while k < end
            invariant
                start <= k <= end <= file@.len(),
                buf@ == b1 + file@.subrange(start as int, k as int),
            decreases end - k,
        {
            buf.push(file[k]);
            k = k + 1;
            assert(buf@ =~= b1 + file@.subrange(start as int, k as int));
        }
        i = i + 1;
    }
    assert(segs@.take(segs@.len() as int) =~= segs@);
    if buf.len() > 0 {
        let ghost before = chunks@;
        let c = make_chunk(base, buf);
        chunks.push(c);
        assert(models(chunks@) =~= models(before).push((base, c.data@)));
    }
    Ok(chunks)
}

/// Once placing a segment fails, the whole run fails the same way.
proof fn lemma_elf_run_err(segs: Seq<ProgramHeaderInfo>, file: Seq<u8>, n: int, e: ImageError)
    requires
        0 <= n <= segs.len(),
        elf_run(segs.take(n), file) == Err::<ElfState, ImageError>(e),
    ensures
        elf_run(segs, file) == Err::<ElfState, ImageError>(e),
    decreases segs.len() - n,
{
    if n < segs.len() {
        assert(segs.take(n + 1).drop_last() =~= segs.take(n));
        lemma_elf_run_err(segs, file, n + 1, e);
    } else {
        assert(segs.take(n) =~= segs);
    }
}

} // verus!
