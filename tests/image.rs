use sftool_lib::checksum::crc32;
use sftool_lib::image::{
    detect_file_type, normalize, parse_file_arg, FileArg, FileType, FlashChunk, ImageError, ImageInput,
};

fn input(arg: &str, contents: Vec<u8>) -> ImageInput {
    ImageInput { file: parse_file_arg(arg).unwrap(), contents }
}

fn reference_crc(data: &[u8]) -> u32 {
    let mut crc: u32 = 0;
    for b in data {
        crc ^= *b as u32;
        for _ in 0..8 {
            crc = if crc & 1 != 0 { (crc >> 1) ^ 0xEDB8_8320 } else { crc >> 1 };
        }
    }
    crc
}

#[test]
fn raw_binary_with_address() {
    let data = vec![0xABu8; 10];
    let chunks = normalize(&vec![input("fw.bin@0x12000000", data.clone())]).unwrap();
    assert_eq!(chunks.len(), 1);
    assert_eq!(chunks[0].address, 0x1200_0000);
    assert_eq!(chunks[0].data.len(), 10);
    assert_eq!(chunks[0].data, data);
    assert_eq!(chunks[0].crc32, reference_crc(&data));
}

#[test]
fn stored_checksum_matches_recomputed() {
    let data: Vec<u8> = (0..200u8).collect();
    let chunks = normalize(&vec![input("a.bin@4096", data)]).unwrap();
    for c in &chunks {
        assert_eq!(c.crc32, crc32(&c.data));
    }
}

#[test]
fn file_argument_split() {
    let fa: FileArg = parse_file_arg("dir/fw.bin@0x12000000").unwrap();
    assert_eq!(fa.path, b"dir/fw.bin".to_vec());
    assert_eq!(fa.address, Some(0x1200_0000));
    let fa = parse_file_arg("image.hex").unwrap();
    assert_eq!(fa.path, b"image.hex".to_vec());
    assert_eq!(fa.address, None);
    let fa = parse_file_arg("a@b@c").unwrap();
    assert_eq!(fa.path, b"a".to_vec());
    assert_eq!(fa.address, None);
    assert_eq!(parse_file_arg("fw.bin@0xZZ").unwrap_err(), ImageError::InvalidAddress);
    assert_eq!(parse_file_arg("fw.bin@").unwrap_err(), ImageError::InvalidAddress);
}

#[test]
fn file_types() {
    assert_eq!(detect_file_type(b"fw.bin", b""), Ok(FileType::Bin));
    assert_eq!(detect_file_type(b"fw.HEX", b""), Ok(FileType::Hex));
    assert_eq!(detect_file_type(b"out/app.Elf", b""), Ok(FileType::Elf));
    assert_eq!(detect_file_type(b"app.axf", b""), Ok(FileType::Elf));
    assert_eq!(detect_file_type(b"firmware", b"\x7fELF\x01"), Ok(FileType::Elf));
    assert_eq!(detect_file_type(b"fw.img", b"\x7fELF"), Ok(FileType::Elf));
    assert_eq!(detect_file_type(b"fw.img", b"\x7fEL"), Err(ImageError::UnrecognizedType));
    assert_eq!(detect_file_type(b".hex", b"xxxx"), Err(ImageError::UnrecognizedType));
    assert_eq!(detect_file_type(b"a.hex/fw", b"xxxx"), Err(ImageError::UnrecognizedType));
}

#[test]
fn binary_without_address_is_refused() {
    let r = normalize(&vec![input("fw.bin", vec![1, 2, 3])]);
    assert_eq!(r.unwrap_err(), ImageError::MissingAddress);
}

#[test]
fn unrecognized_file_is_refused() {
    let r = normalize(&vec![input("notes.txt", b"hello".to_vec())]);
    assert_eq!(r.unwrap_err(), ImageError::UnrecognizedType);
}

#[test]
fn garbage_with_elf_magic_is_malformed() {
    let r = normalize(&vec![input("firmware", b"\x7fELFgarbage".to_vec())]);
    assert_eq!(r.unwrap_err(), ImageError::MalformedElf);
}

#[test]
fn chunks_come_out_in_address_order() {
    let r = normalize(&vec![
        input("b.bin@0x12000000", vec![2; 4]),
        input("a.bin@0x10000000", vec![1; 4]),
        input("c.bin@0x11000000", vec![3; 4]),
    ])
    .unwrap();
    let addrs: Vec<u32> = r.iter().map(|c: &FlashChunk| c.address).collect();
    assert_eq!(addrs, vec![0x1000_0000, 0x1100_0000, 0x1200_0000]);
    for w in r.windows(2) {
        assert!(w[0].address as u64 + w[0].data.len() as u64 <= w[1].address as u64);
    }
}

#[test]
fn overlapping_chunks_are_refused() {
    let r = normalize(&vec![input("a.bin@0x1000", vec![0; 16]), input("b.bin@0x100f", vec![0; 4])]);
    assert_eq!(r.unwrap_err(), ImageError::Overlap);
}

#[test]
fn adjacent_chunks_are_accepted() {
    let r = normalize(&vec![input("a.bin@0x1000", vec![0; 16]), input("b.bin@0x1010", vec![0; 4])]);
    assert_eq!(r.unwrap().len(), 2);
}

#[test]
fn chunk_past_address_space_is_refused() {
    let r = normalize(&vec![input("a.bin@0xfffffff0", vec![0; 32])]);
    assert_eq!(r.unwrap_err(), ImageError::AddressOverflow);
    let r = normalize(&vec![input("a.bin@0xfffffff0", vec![0; 16])]);
    assert_eq!(r.unwrap().len(), 1);
}

#[test]
fn empty_binary_gives_no_chunk() {
    let r = normalize(&vec![input("a.bin@0x1000", vec![])]).unwrap();
    assert!(r.is_empty());
}

#[test]
fn first_failing_file_decides() {
    let r = normalize(&vec![input("x.txt", vec![0; 4]), input("y.bin", vec![0; 4])]);
    assert_eq!(r.unwrap_err(), ImageError::UnrecognizedType);
}
