//! Turning input files into addressed, checksummed flash chunks.

use vstd::prelude::*;
use vstd::string::StringSliceAdditionalSpecFns;
use crate::checksum::{crc32, crc32_of};
use crate::number::{literal_value, parse_literal};
use crate::hex::{hex_pieces, hex_to_chunks};
use crate::elf::{elf_pieces, elf_to_chunks};
use crate::order::{sort_by, lemma_insert_by_at, lemma_filter_step};

verus! {

/// Why a set of input files yields no chunks.
#[derive(Clone, Copy, Debug, PartialEq, Eq, Structural)]
pub enum ImageError {
    /// The text after `@` is not an address literal.
    InvalidAddress,
    /// A file could not be read.
    Unreadable,
    /// Neither the extension nor the first bytes say what the file is.
    UnrecognizedType,
    /// A raw binary was given without `@address`.
    MissingAddress,
    /// A line of an Intel HEX file is not a valid record.
    MalformedHex,
    /// An ELF file could not be parsed, or a segment lies outside it.
    MalformedElf,
    /// A chunk would reach past the 32-bit address space.
    AddressOverflow,
    /// Two chunks, or two segments of one ELF file, share addresses.
    Overlap,
}

/// The formats that an input file can have.
#[derive(Clone, Copy, Debug, PartialEq, Eq, Structural)]
pub enum FileType {
    Bin,
    Hex,
    Elf,
}

/// Bytes destined for flash at `address`, with their checksum.
#[derive(Clone, Debug)]
pub struct FlashChunk {
    pub address: u32,
    pub data: Vec<u8>,
    pub crc32: u32,
}

/// A chunk as an address and its bytes.
pub type Piece = (u32, Seq<u8>);

/// The address and bytes of a chunk.
pub open spec fn model(c: FlashChunk) -> Piece {
    (c.address, c.data@)
}

pub open spec fn models(cs: Seq<FlashChunk>) -> Seq<Piece> {
    cs.map_values(|c: FlashChunk| model(c))
}

/// Each chunk carries the checksum of its bytes.
pub open spec fn checksums_hold(cs: Seq<FlashChunk>) -> bool {
    forall|i: int| 0 <= i < cs.len() ==> (#[trigger] cs[i]).crc32 == crc32_of(cs[i].data@)
}

/// One past the last address of a piece.
pub open spec fn piece_end(p: Piece) -> int {
    p.0 + p.1.len()
}

/// Pieces in strictly ascending order, none overlapping the next ones.
pub open spec fn disjoint_ascending(s: Seq<Piece>) -> bool {
    forall|i: int, j: int| 0 <= i < j < s.len() ==> piece_end(#[trigger] s[i]) <= (#[trigger] s[j]).0
}

/// Builds the chunk for `data` at `address`.
pub fn make_chunk(address: u32, data: Vec<u8>) -> (c: FlashChunk)
    ensures
        model(c) == (address, data@),
        c.crc32 == crc32_of(data@),
{
    let crc = crc32(data.as_slice());
    FlashChunk { address, data, crc32: crc }
}

/// An input argument: a path, and the address given after `@`, if any.
#[derive(Clone, Debug)]
pub struct FileArg {
    pub path: Vec<u8>,
    pub address: Option<u32>,
}

/// Index of the first `b` in `s`, or its length.
pub open spec fn first_index(s: Seq<u8>, b: u8) -> int
    decreases s.len(),
{
    if s.len() == 0 {
        0
    } else if s[0] == b {
        0
    } else {
        1 + first_index(s.drop_first(), b)
    }
}

/// Index of the last `b` in `s`, or -1.
pub open spec fn last_index(s: Seq<u8>, b: u8) -> int
    decreases s.len(),
{
    if s.len() == 0 {
        -1
    } else if s.last() == b {
        s.len() - 1
    } else {
        last_index(s.drop_last(), b)
    }
}

proof fn lemma_first_index(s: Seq<u8>, b: u8, p: int)
    requires
        0 <= p <= s.len(),
        forall|j: int| 0 <= j < p ==> s[j] != b,
        p < s.len() ==> s[p] == b,
    ensures
        first_index(s, b) == p,
    decreases s.len(),
{
    if s.len() > 0 && p > 0 {
        let t = s.drop_first();
        assert forall|j: int| 0 <= j < p - 1 implies t[j] != b by {
            assert(t[j] == s[j + 1]);
        }
        lemma_first_index(t, b, p - 1);
    }
}

proof fn lemma_last_index(s: Seq<u8>, b: u8, p: int)
    requires
        -1 <= p < s.len(),
        forall|j: int| p < j < s.len() ==> s[j] != b,
        p >= 0 ==> s[p] == b,
    ensures
        last_index(s, b) == p,
    decreases s.len(),
{
    if s.len() > 0 && p < s.len() - 1 {
        let t = s.drop_last();
        lemma_last_index(t, b, p);
    }
}

/// What `s` says as an argument: the path before the first `@`, and, where
/// exactly one `@` occurs, the address literal after it.
pub open spec fn file_arg_of(s: Seq<u8>) -> Result<(Seq<u8>, Option<u32>), ImageError> {
    let p = first_index(s, 0x40);
    if p < s.len() && first_index(s.skip(p + 1), 0x40) == s.len() - p - 1 {
        match literal_value(s.skip(p + 1)) {
            Some(a) => Ok((s.take(p), Some(a))),
            None => Err(ImageError::InvalidAddress),
        }
    } else {
        Ok((s.take(p), None))
    }
}

fn find_first(s: &[u8], start: usize, b: u8) -> (p: usize)
    requires
        start <= s@.len(),
    ensures
        start <= p <= s@.len(),
        p - start == first_index(s@.skip(start as int), b),
{
    let mut i: usize = start;
    while i < s.len() && s[i] != b
        invariant
            start <= i <= s@.len(),
            forall|j: int| start <= j < i ==> s@[j] != b,
        decreases s@.len() - i,
    {
        i = i + 1;
    }
    proof {
        let t = s@.skip(start as int);
        assert forall|j: int| 0 <= j < i - start implies t[j] != b by {
            assert(t[j] == s@[start + j]);
        }
        lemma_first_index(t, b, i - start);
    }
    i
}

fn copy_range(s: &[u8], from: usize, to: usize) -> (r: Vec<u8>)
    requires
        from <= to <= s@.len(),
    ensures
        r@ == s@.subrange(from as int, to as int),
{
    let mut r: Vec<u8> = Vec::new();
    let mut i: usize = from;
    while i < to
        invariant
            from <= i <= to <= s@.len(),
            r@ == s@.subrange(from as int, i as int),
        decreases to - i,
    {
        r.push(s[i]);
        i = i + 1;
        assert(r@ =~= s@.subrange(from as int, i as int));
    }
    r
}

/// Splits an input argument into its path and `@address`.
pub fn parse_file_arg(arg: &str) -> (r: Result<FileArg, ImageError>)
    ensures
        match r {
            Ok(fa) => file_arg_of(arg.spec_bytes()) == Ok::<(Seq<u8>, Option<u32>), ImageError>(
                (fa.path@, fa.address),
            ),
            Err(e) => file_arg_of(arg.spec_bytes()) == Err::<(Seq<u8>, Option<u32>), ImageError>(e),
        },
{
    let s = arg.as_bytes();
    let p = find_first(s, 0, 0x40);
    assert(s@.skip(0) =~= s@);
    let path = copy_range(s, 0, p);
    assert(path@ =~= s@.take(p as int));
    if p < s.len() {
        let q = find_first(s, p + 1, 0x40);
        if q == s.len() {
            let rest = copy_range(s, p + 1, s.len());
            assert(rest@ =~= s@.skip(p + 1));
            match parse_literal(rest.as_slice()) {
                Some(a) => Ok(FileArg { path, address: Some(a) }),
                None => Err(ImageError::InvalidAddress),
            }
        } else {
            Ok(FileArg { path, address: None })
        }
    } else {
        Ok(FileArg { path, address: None })
    }
}

/// ASCII lower case of a byte.
pub open spec fn lower(c: u8) -> u8 {
    if 0x41 <= c <= 0x5a { (c + 0x20) as u8 } else { c }
}

/// `s` equals the lower-case word `w` ignoring ASCII case.
pub open spec fn equals_ignoring_case(s: Seq<u8>, w: Seq<u8>) -> bool {
    s.len() == w.len() && forall|i: int| 0 <= i < s.len() ==> lower(#[trigger] s[i]) == w[i]
}

/// The extension of a path: what follows the last `.` of its last
/// component, where that `.` does not begin the component.
pub open spec fn extension(path: Seq<u8>) -> Option<Seq<u8>> {
    let name = path.skip(last_index(path, 0x2f) + 1);
    let d = last_index(name, 0x2e);
    if d <= 0 {
        None
    } else {
        Some(name.skip(d + 1))
    }
}

/// The ELF magic number `7F 45 4C 46`.
pub open spec fn elf_magic() -> Seq<u8> {
    seq![0x7fu8, 0x45, 0x4c, 0x46]
}

/// The type of a file: `bin`, `hex`, `elf` or `axf` extension in any case,
/// else ELF if its first bytes are the ELF magic number.
pub open spec fn file_type_of(path: Seq<u8>, head: Seq<u8>) -> Result<FileType, ImageError> {
    let recognized = match extension(path) {
        Some(e) => if equals_ignoring_case(e, seq![0x62u8, 0x69, 0x6e]) {
            Some(FileType::Bin)
        } else if equals_ignoring_case(e, seq![0x68u8, 0x65, 0x78]) {
            Some(FileType::Hex)
        } else if equals_ignoring_case(e, seq![0x65u8, 0x6c, 0x66]) || equals_ignoring_case(
            e,
            seq![0x61u8, 0x78, 0x66],
        ) {
            Some(FileType::Elf)
        } else {
            None
        },
        None => None,
    };
    match recognized {
        Some(t) => Ok(t),
        None => if head.len() >= 4 && head.take(4) == elf_magic() {
            Ok(FileType::Elf)
        } else {
            Err(ImageError::UnrecognizedType)
        },
    }
}

fn find_last(s: &[u8], start: usize, b: u8) -> (p: Option<usize>)
    requires
        start <= s@.len(),
    ensures
        s@.len() <= usize::MAX,
        match p {
            Some(i) => start <= i < s@.len() && i - start == last_index(s@.skip(start as int), b),
            None => last_index(s@.skip(start as int), b) == -1,
        },
{
    let mut i: usize = s.len();
    while i > start && s[i - 1] != b
        invariant
            start <= i <= s@.len(),
            forall|j: int| i <= j < s@.len() ==> s@[j] != b,
        decreases i,
    {
        i = i - 1;
    }
    let ghost t = s@.skip(start as int);
    if i > start {
        proof {
            assert forall|j: int| i - 1 - start < j < t.len() implies t[j] != b by {
                assert(t[j] == s@[start + j]);
            }
            lemma_last_index(t, b, i - 1 - start);
        }
        Some(i - 1)
    } else {
        proof {
            assert forall|j: int| -1 < j < t.len() implies t[j] != b by {
                assert(t[j] == s@[start + j]);
            }
            lemma_last_index(t, b, -1);
        }
        None
    }
}

fn lower_byte(c: u8) -> (r: u8)
    ensures
        r == lower(c),
{
    if 0x41 <= c && c <= 0x5a {
        c + 0x20
    } else {
        c
    }
}

fn ext_is(s: &[u8], from: usize, w: &[u8]) -> (b: bool)
    requires
        from <= s@.len(),
    ensures
        b == equals_ignoring_case(s@.skip(from as int), w@),
{
    if s.len() - from != w.len() {
        return false;
    }
    let mut i: usize = 0;
    while i < w.len()
        invariant
            from + w@.len() == s@.len(),
            s@.len() <= usize::MAX,
            i <= w@.len(),
            forall|j: int| 0 <= j < i ==> lower(s@[from + j]) == w@[j],
        decreases w@.len() - i,
    {
        if lower_byte(s[from + i]) != w[i] {
            assert(s@.skip(from as int)[i as int] == s@[from + i]);
            return false;
        }
        i = i + 1;
    }
    assert forall|j: int| 0 <= j < w@.len() implies lower(#[trigger] s@.skip(from as int)[j])
        == w@[j] by {
        assert(s@.skip(from as int)[j] == s@[from + j]);
    }
    true
}

/// Decides the type of a file from its path and its first bytes.
pub fn detect_file_type(path: &[u8], head: &[u8]) -> (r: Result<FileType, ImageError>)
    ensures
        r == file_type_of(path@, head@),
{
    let name_start: usize = match find_last(path, 0, 0x2f) {
        Some(i) => i + 1,
        None => 0,
    };
    assert(path@.skip(0) =~= path@);
    let ghost name = path@.skip(name_start as int);
    let mut recognized: Option<FileType> = None;
    match find_last(path, name_start, 0x2e) {
        Some(d) => {
            assert(path@.skip(name_start as int).skip(d - name_start + 1) =~= path@.skip(d + 1));
            if d > name_start {
                if ext_is(path, d + 1, &[0x62u8, 0x69, 0x6e]) {
                    recognized = Some(FileType::Bin);
                } else if ext_is(path, d + 1, &[0x68u8, 0x65, 0x78]) {
                    recognized = Some(FileType::Hex);
                } else if ext_is(path, d + 1, &[0x65u8, 0x6c, 0x66]) || ext_is(
                    path,
                    d + 1,
                    &[0x61u8, 0x78, 0x66],
                ) {
                    recognized = Some(FileType::Elf);
                }
            }
        },
        None => {},
    }
    match recognized {
        Some(t) => Ok(t),
        None => {
            if head.len() >= 4 && head[0] == 0x7f && head[1] == 0x45 && head[2] == 0x4c && head[3]
                == 0x46 {
                assert(head@.take(4) =~= elf_magic());
                Ok(FileType::Elf)
            } else {
                assert(head@.len() >= 4 ==> head@.take(4)[0] == head@[0] && head@.take(4)[1]
                    == head@[1] && head@.take(4)[2] == head@[2] && head@.take(4)[3] == head@[3]);
                Err(ImageError::UnrecognizedType)
            }
        },
    }
}

/// An input file: its argument and its contents.
#[derive(Clone, Debug)]
pub struct ImageInput {
    pub file: FileArg,
    pub contents: Vec<u8>,
}

/// The chunks of one input file: one for a raw binary given with `@address`;
/// otherwise as its type says, where a raw binary without address is an error.
pub open spec fn file_pieces(input: ImageInput) -> Result<Seq<Piece>, ImageError> {
    match input.file.address {
        Some(a) => Ok(seq![(a, input.contents@)]),
        None => match file_type_of(input.file.path@, input.contents@) {
            Err(e) => Err(e),
            Ok(FileType::Bin) => Err(ImageError::MissingAddress),
            Ok(FileType::Hex) => hex_pieces(input.contents@),
            Ok(FileType::Elf) => elf_pieces(input.contents@),
        },
    }
}

/// The chunks of all inputs in order; the first failing input decides the error.
pub open spec fn input_pieces(inputs: Seq<ImageInput>) -> Result<Seq<Piece>, ImageError>
    decreases inputs.len(),
{
    if inputs.len() == 0 {
        Ok(Seq::empty())
    } else {
        match input_pieces(inputs.drop_last()) {
            Err(e) => Err(e),
            Ok(ps) => match file_pieces(inputs.last()) {
                Err(e) => Err(e),
                Ok(qs) => Ok(ps + qs),
            },
        }
    }
}

pub open spec fn nonempty() -> spec_fn(Piece) -> bool {
    |p: Piece| p.1.len() > 0
}

pub open spec fn address_key() -> spec_fn(Piece) -> int {
    |p: Piece| p.0 as int
}

/// The piece ends within the 32-bit address space, and its length fits in 32 bits.
pub open spec fn fits(p: Piece) -> bool {
    piece_end(p) <= 0x1_0000_0000 && p.1.len() <= u32::MAX
}

/// The chunks to flash for `inputs`: empty ones dropped, every one within the
/// address space, ordered by address, none overlapping another.
pub open spec fn normalized(inputs: Seq<ImageInput>) -> Result<Seq<Piece>, ImageError> {
    match input_pieces(inputs) {
        Err(e) => Err(e),
        Ok(ps) => {
            if exists|i: int| 0 <= i < ps.len() && !fits(#[trigger] ps[i]) {
                Err(ImageError::AddressOverflow)
            } else {
                let s = sort_by(ps.filter(nonempty()), address_key());
                if disjoint_ascending(s) {
                    Ok(s)
                } else {
                    Err(ImageError::Overlap)
                }
            }
        },
    }
}

/// The chunks of one input file.
pub fn normalize_file(input: &ImageInput) -> (r: Result<Vec<FlashChunk>, ImageError>)
    ensures
        match r {
            Ok(cs) => file_pieces(*input) == Ok::<Seq<Piece>, ImageError>(models(cs@)) && checksums_hold(cs@),
            Err(e) => file_pieces(*input) == Err::<Seq<Piece>, ImageError>(e),
        },
{
    match input.file.address {
        Some(a) => {
            let data = copy_range(input.contents.as_slice(), 0, input.contents.len());
            assert(data@ =~= input.contents@);
            let c = make_chunk(a, data);
            let mut v: Vec<FlashChunk> = Vec::new();
            v.push(c);
            assert(models(v@) =~= seq![(a, input.contents@)]);
            Ok(v)
        },
        None => match detect_file_type(input.file.path.as_slice(), input.contents.as_slice()) {
            Err(e) => Err(e),
            Ok(FileType::Bin) => Err(ImageError::MissingAddress),
            Ok(FileType::Hex) => hex_to_chunks(input.contents.as_slice()),
            Ok(FileType::Elf) => elf_to_chunks(input.contents.as_slice()),
        },
    }
}

proof fn lemma_input_pieces_err(inputs: Seq<ImageInput>, n: int, e: ImageError)
    requires
        0 <= n <= inputs.len(),
        input_pieces(inputs.take(n)) == Err::<Seq<Piece>, ImageError>(e),
    ensures
        input_pieces(inputs) == Err::<Seq<Piece>, ImageError>(e),
    decreases inputs.len() - n,
{
    if n < inputs.len() {
        assert(inputs.take(n + 1).drop_last() =~= inputs.take(n));
        lemma_input_pieces_err(inputs, n + 1, e);
    } else {
        assert(inputs.take(n) =~= inputs);
    }
}

fn chunk_fits(c: &FlashChunk) -> (b: bool)
    ensures
        b == fits(model(*c)),
{
    let room: u64 = 0x1_0000_0000u64 - c.address as u64;
    c.data.len() as u64 <= room && c.data.len() as u64 <= 0xffff_ffff
}

/// Normalizes a set of input files into the chunks to flash: all of them or,
/// on the first problem, none.
pub fn normalize(inputs: &Vec<ImageInput>) -> (r: Result<Vec<FlashChunk>, ImageError>)
    ensures
        match r {
            Ok(cs) => {
                &&& normalized(inputs@) == Ok::<Seq<Piece>, ImageError>(models(cs@))
                &&& checksums_hold(cs@)
                &&& disjoint_ascending(models(cs@))
                &&& forall|i: int| 0 <= i < cs@.len() ==> (#[trigger] cs@[i]).data@.len() > 0 && fits(model(cs@[i]))
            },
            Err(e) => normalized(inputs@) == Err::<Seq<Piece>, ImageError>(e),
        },
{
    let mut all: Vec<FlashChunk> = Vec::new();
    let mut i: usize = 0;
    assert(models(all@) =~= Seq::<Piece>::empty());
    while i < inputs.len()
        invariant
            i <= inputs@.len(),
            input_pieces(inputs@.take(i as int)) == Ok::<Seq<Piece>, ImageError>(models(all@)),
            checksums_hold(all@),
        decreases inputs@.len() - i,
    {
        assert(inputs@.take(i + 1).drop_last() =~= inputs@.take(i as int));
        assert(inputs@.take(i + 1).last() == inputs@[i as int]);
        match normalize_file(&inputs[i]) {
            Err(e) => {
                proof {
                    lemma_input_pieces_err(inputs@, i + 1, e);
                }
                return Err(e);
            },
            Ok(cs) => {
                let ghost before = all@;
                let ghost added = cs@;
                let mut cs = cs;
                all.append(&mut cs);
                assert(models(all@) =~= models(before) + models(added));
                assert forall|j: int| 0 <= j < all@.len() implies (#[trigger] all@[j]).crc32 == crc32_of(
                    all@[j].data@,
                ) by {
                    if j >= before.len() {
                        assert(all@[j] == added[j - before.len()]);
                    }
                }
            },
        }
        i = i + 1;
    }
    assert(inputs@.take(inputs@.len() as int) =~= inputs@);
    let ghost ps = models(all@);
    let ghost orig = all@;
    let total = all.len();
    let mut out: Vec<FlashChunk> = Vec::new();
    let mut k: usize = 0;
    assert(models(out@) =~= sort_by(ps.take(0).filter(nonempty()), address_key())) by {
        reveal(Seq::filter);
        assert(ps.take(0).filter(nonempty()) =~= Seq::<Piece>::empty());
    }
    while all.len() > 0
        invariant
            k + all@.len() == orig.len(),
            orig.len() == total,
            input_pieces(inputs@) == Ok::<Seq<Piece>, ImageError>(ps),
            all@ == orig.skip(k as int),
            ps == models(orig),
            checksums_hold(orig),
            checksums_hold(out@),
            models(out@) == sort_by(ps.take(k as int).filter(nonempty()), address_key()),
            forall|j: int| 0 <= j < k ==> fits(#[trigger] ps[j]),
            forall|j: int| 0 <= j < out@.len() ==> (#[trigger] out@[j]).data@.len() > 0 && fits(model(out@[j])),
        decreases all@.len(),
    {
        let c = all.remove(0);
        assert(c == orig[k as int]);
        assert(ps[k as int] == model(c));
        if !chunk_fits(&c) {
            assert(!fits(ps[k as int]));
            return Err(ImageError::AddressOverflow);
        }
        proof {
            lemma_filter_step(ps, k as int, nonempty());
            assert(ps.take(k + 1).drop_last() =~= ps.take(k as int));
        }
        if c.data.len() > 0 {
            let mut p: usize = 0;
            while p < out.len() && out[p].address <= c.address
                invariant
                    p <= out@.len(),
                    forall|j: int| 0 <= j < p ==> out@[j].address <= c.address,
                decreases out@.len() - p,
            {
                p = p + 1;
            }
            proof {
                let m = models(out@);
                assert forall|j: int| 0 <= j < p implies address_key()(m[j]) <= address_key()(model(c)) by {}
                lemma_insert_by_at(m, model(c), address_key(), p as int);
                assert(ps.take(k + 1).filter(nonempty()) == ps.take(k as int).filter(nonempty()).push(ps[k as int]));
                let f1 = ps.take(k + 1).filter(nonempty());
                assert(f1.drop_last() =~= ps.take(k as int).filter(nonempty()));
            }
            let ghost before = out@;
            out.insert(p, c);
            assert(models(out@) =~= models(before).insert(p as int, model(c)));
            assert forall|j: int| 0 <= j < out@.len() implies (#[trigger] out@[j]).data@.len() > 0 && fits(model(out@[j])) && out@[j].crc32 == crc32_of(out@[j].data@) by {
                if j < p {
                    assert(out@[j] == before[j]);
                } else if j > p {
                    assert(out@[j] == before[j - 1]);
                }
            }
        }
        k = k + 1;
    }
    assert(ps.take(k as int) =~= ps);
    let ghost s = models(out@);
    let n = out.len();
    let mut a: usize = 0;
    while a < n
        invariant
            n == out@.len(),
            s == models(out@),
            input_pieces(inputs@) == Ok::<Seq<Piece>, ImageError>(ps),
            forall|j: int| 0 <= j < ps.len() ==> fits(#[trigger] ps[j]),
            s == sort_by(ps.filter(nonempty()), address_key()),
            checksums_hold(out@),
            a <= n,
            forall|i: int, j: int| 0 <= i < j < n && i < a ==> piece_end(#[trigger] s[i]) <= (#[trigger] s[j]).0,
            forall|j: int| 0 <= j < out@.len() ==> (#[trigger] out@[j]).data@.len() > 0 && fits(model(out@[j])),
        decreases n - a,
    {
        let end_a: u64 = out[a].address as u64 + out[a].data.len() as u64;
        let mut b: usize = a + 1;
        while b < n
            invariant
                n == out@.len(),
                s == models(out@),
                input_pieces(inputs@) == Ok::<Seq<Piece>, ImageError>(ps),
                forall|j: int| 0 <= j < ps.len() ==> fits(#[trigger] ps[j]),
                s == sort_by(ps.filter(nonempty()), address_key()),
                a < n,
                a + 1 <= b <= n,
                end_a == piece_end(s[a as int]),
                forall|i: int, j: int| 0 <= i < j < n && i < a ==> piece_end(#[trigger] s[i]) <= (#[trigger] s[j]).0,
                forall|j: int| a < j < b ==> piece_end(s[a as int]) <= (#[trigger] s[j]).0,
            decreases n - b,
        {
            if end_a > out[b].address as u64 {
                assert(s[b as int] == model(out@[b as int]));
                assert(piece_end(s[a as int]) > s[b as int].0);
                assert(!disjoint_ascending(s));
                return Err(ImageError::Overlap);
            }
            b = b + 1;
        }
        a = a + 1;
    }
    Ok(out)
}

/// Round trip: the checksum stored with a chunk that `normalize` returns is
/// what recomputing it over the chunk's bytes gives.
pub proof fn lemma_checksum_round_trip(cs: Seq<FlashChunk>, i: int, recomputed: u32)
    requires
        checksums_hold(cs),
        0 <= i < cs.len(),
        recomputed == crc32_of(cs[i].data@),
    ensures
        recomputed == cs[i].crc32,
{
}

} // verus!
