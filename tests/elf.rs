use sftool_lib::elf::{elf_segments_to_chunks, elf_to_chunks, ProgramHeaderInfo};
use sftool_lib::image::{normalize, parse_file_arg, ImageError, ImageInput};

/// A little-endian ELF32 file whose program headers are `segs`
/// (type, physical address, bytes), the bytes stored after the headers.
fn elf32(segs: &[(u32, u32, Vec<u8>)]) -> Vec<u8> {
    let n = segs.len() as u32;
    let mut f: Vec<u8> = vec![0x7f, b'E', b'L', b'F', 1, 1, 1, 0, 0, 0, 0, 0, 0, 0, 0, 0];
    let put16 = |f: &mut Vec<u8>, v: u16| f.extend_from_slice(&v.to_le_bytes());
    let put32 = |f: &mut Vec<u8>, v: u32| f.extend_from_slice(&v.to_le_bytes());
    put16(&mut f, 2);
    put16(&mut f, 40);
    put32(&mut f, 1);
    put32(&mut f, 0);
    put32(&mut f, 52);
    put32(&mut f, 0);
    put32(&mut f, 0);
    put16(&mut f, 52);
    put16(&mut f, 32);
    put16(&mut f, n as u16);
    put16(&mut f, 40);
    put16(&mut f, 0);
    put16(&mut f, 0);
    let mut offset = 52 + 32 * n;
    for (t, paddr, data) in segs {
        put32(&mut f, *t);
        put32(&mut f, offset);
        put32(&mut f, *paddr);
        put32(&mut f, *paddr);
        put32(&mut f, data.len() as u32);
        put32(&mut f, data.len() as u32);
        put32(&mut f, 5);
        put32(&mut f, 4);
        offset += data.len() as u32;
    }
    for (_, _, data) in segs {
        f.extend_from_slice(data);
    }
    f
}

#[test]
fn segments_coalesce_by_sector() {
    let file = elf32(&[
        (1, 0x1200_2000, vec![0xf0, 0xf1]),
        (1, 0x1200_0000, vec![0xd0, 0xd1, 0xd2, 0xd3]),
        (1, 0x2000_0000, vec![0x99; 8]),
        (1, 0x1200_0010, vec![0xe0, 0xe1]),
        (4, 0x1100_0000, vec![0x77; 4]),
    ]);
    let chunks = elf_to_chunks(&file).unwrap();
    assert_eq!(chunks.len(), 2);
    assert_eq!(chunks[0].address, 0x1200_0000);
    let mut expected = vec![0xd0, 0xd1, 0xd2, 0xd3];
    expected.extend_from_slice(&[0xFF; 12]);
    expected.extend_from_slice(&[0xe0, 0xe1]);
    assert_eq!(chunks[0].data, expected);
    assert_eq!(chunks[1].address, 0x1200_2000);
    assert_eq!(chunks[1].data, vec![0xf0, 0xf1]);
}

#[test]
fn chunk_starts_on_sector_boundary() {
    let file = elf32(&[(1, 0x1000_0104, vec![1, 2])]);
    let chunks = elf_to_chunks(&file).unwrap();
    assert_eq!(chunks.len(), 1);
    assert_eq!(chunks[0].address, 0x1000_0000);
    assert_eq!(chunks[0].data.len(), 0x106);
    assert!(chunks[0].data[..0x104].iter().all(|b| *b == 0xFF));
    assert_eq!(&chunks[0].data[0x104..], &[1, 2]);
}

#[test]
fn segment_in_next_sector_but_contiguous_joins() {
    let file = elf32(&[(1, 0x1000_0000, vec![7; 0x1000]), (1, 0x1000_1000, vec![8; 4])]);
    let chunks = elf_to_chunks(&file).unwrap();
    assert_eq!(chunks.len(), 1);
    assert_eq!(chunks[0].data.len(), 0x1004);
}

#[test]
fn only_ram_segments_give_no_chunk() {
    let file = elf32(&[(1, 0x2000_1000, vec![1, 2, 3])]);
    assert!(elf_to_chunks(&file).unwrap().is_empty());
}

#[test]
fn overlapping_segments_are_refused() {
    let file = elf32(&[(1, 0x1000_0000, vec![1, 2, 3, 4]), (1, 0x1000_0002, vec![5, 6])]);
    assert_eq!(elf_to_chunks(&file).unwrap_err(), ImageError::Overlap);
}

#[test]
fn segment_outside_file_is_malformed() {
    let mut file = elf32(&[(1, 0x1000_0000, vec![1, 2, 3, 4])]);
    file.truncate(file.len() - 2);
    assert_eq!(elf_to_chunks(&file).unwrap_err(), ImageError::MalformedElf);
}

#[test]
fn elf_through_normalize() {
    let file = elf32(&[(1, 0x1200_0000, vec![1, 2, 3])]);
    let input = ImageInput { file: parse_file_arg("app.axf").unwrap(), contents: file };
    let chunks = normalize(&vec![input]).unwrap();
    assert_eq!(chunks.len(), 1);
    assert_eq!(chunks[0].address, 0x1200_0000);
    assert_eq!(chunks[0].data, vec![1, 2, 3]);
}

#[test]
fn empty_segment_is_no_overlap() {
    let file = elf32(&[(1, 0x1000_0000, vec![1, 2, 3, 4]), (1, 0x1000_0002, vec![])]);
    let chunks = elf_to_chunks(&file).unwrap();
    assert_eq!(chunks.len(), 1);
    assert_eq!(chunks[0].data, vec![1, 2, 3, 4]);
}

#[test]
fn chunks_from_given_headers() {
    let file = vec![9u8, 8, 7, 6, 5, 4];
    let hs = vec![
        ProgramHeaderInfo { p_type: 1, paddr: 0x1000_2002, offset: 4, filesz: 2 },
        ProgramHeaderInfo { p_type: 1, paddr: 0x1000_0000, offset: 0, filesz: 3 },
        ProgramHeaderInfo { p_type: 2, paddr: 0x1000_0100, offset: 0, filesz: 6 },
    ];
    let chunks = elf_segments_to_chunks(&hs, &file).unwrap();
    assert_eq!(chunks.len(), 2);
    assert_eq!((chunks[0].address, chunks[0].data.clone()), (0x1000_0000, vec![9, 8, 7]));
    assert_eq!((chunks[1].address, chunks[1].data.clone()), (0x1000_2000, vec![0xFF, 0xFF, 5, 4]));
    let bad = vec![ProgramHeaderInfo { p_type: 1, paddr: 0, offset: 5, filesz: 2 }];
    assert_eq!(elf_segments_to_chunks(&bad, &file).unwrap_err(), ImageError::MalformedElf);
}
