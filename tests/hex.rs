use sftool_lib::hex::{hex_records_to_chunks, hex_to_chunks, HexRecord};
use sftool_lib::image::{normalize, parse_file_arg, ImageError, ImageInput};

fn hex_input(text: &str) -> ImageInput {
    ImageInput { file: parse_file_arg("fw.hex").unwrap(), contents: text.as_bytes().to_vec() }
}

const TWO_BASES: &str = ":020000041200E8\n:0400000001020304F2\n:020000041000EA\n:02000000AABB99\n:00000001FF\n";

#[test]
fn linear_address_switch_gives_two_chunks() {
    let chunks = hex_to_chunks(TWO_BASES.as_bytes()).unwrap();
    assert_eq!(chunks.len(), 2);
    assert_eq!(chunks[0].address, 0x1200_0000);
    assert_eq!(chunks[0].data, vec![1, 2, 3, 4]);
    assert_eq!(chunks[1].address, 0x1000_0000);
    assert_eq!(chunks[1].data, vec![0xAA, 0xBB]);
}

#[test]
fn normalized_hex_is_sorted() {
    let chunks = normalize(&vec![hex_input(TWO_BASES)]).unwrap();
    assert_eq!(chunks.len(), 2);
    assert_eq!(chunks[0].address, 0x1000_0000);
    assert_eq!(chunks[1].address, 0x1200_0000);
    assert_ne!(chunks[0].crc32, chunks[1].crc32);
}

#[test]
fn gaps_are_erased_bytes() {
    let text = ":02000000AABB99\r\n:01000400CC2F\r\n:00000001FF\r\n";
    let chunks = hex_to_chunks(text.as_bytes()).unwrap();
    assert_eq!(chunks.len(), 1);
    assert_eq!(chunks[0].address, 0);
    assert_eq!(chunks[0].data, vec![0xAA, 0xBB, 0xFF, 0xFF, 0xCC]);
}

#[test]
fn leading_gap_is_erased_bytes() {
    let text = ":01000400CC2F\n:00000001FF";
    let chunks = hex_to_chunks(text.as_bytes()).unwrap();
    assert_eq!(chunks[0].data, vec![0xFF, 0xFF, 0xFF, 0xFF, 0xCC]);
}

#[test]
fn later_record_overwrites() {
    let text = ":0400000001020304F2\n:02000100AABB98\n:00000001FF\n";
    let chunks = hex_to_chunks(text.as_bytes()).unwrap();
    assert_eq!(chunks[0].data, vec![1, 0xAA, 0xBB, 4]);
}

#[test]
fn same_linear_address_keeps_one_chunk() {
    let text = ":020000041200E8\n:0400000001020304F2\n:020000041200E8\n:02000400AABB95\n:00000001FF\n";
    let chunks = hex_to_chunks(text.as_bytes()).unwrap();
    assert_eq!(chunks.len(), 1);
    assert_eq!(chunks[0].data, vec![1, 2, 3, 4, 0xAA, 0xBB]);
}

#[test]
fn bad_checksum_is_malformed() {
    let text = ":0400000001020304F3\n:00000001FF\n";
    assert_eq!(hex_to_chunks(text.as_bytes()).unwrap_err(), ImageError::MalformedHex);
    assert_eq!(normalize(&vec![hex_input(text)]).unwrap_err(), ImageError::MalformedHex);
}

#[test]
fn non_record_line_is_malformed() {
    let text = ":00000001FF\nhello\n";
    assert_eq!(hex_to_chunks(text.as_bytes()).unwrap_err(), ImageError::MalformedHex);
}

#[test]
fn blank_lines_are_skipped() {
    let text = "\n:0400000001020304F2\n\n:00000001FF\n\n";
    let chunks = hex_to_chunks(text.as_bytes()).unwrap();
    assert_eq!(chunks.len(), 1);
}

#[test]
fn data_without_end_record_gives_no_chunk() {
    let text = ":0400000001020304F2\n";
    assert!(hex_to_chunks(text.as_bytes()).unwrap().is_empty());
}

#[test]
fn chunks_from_given_records() {
    let recs = vec![
        HexRecord::ExtendedLinearAddress(0x1200),
        HexRecord::Data { offset: 2, value: vec![1, 2] },
        HexRecord::StartLinearAddress(0x1200_0000),
        HexRecord::ExtendedLinearAddress(0x1000),
        HexRecord::Data { offset: 0, value: vec![7] },
        HexRecord::EndOfFile,
    ];
    let chunks = hex_records_to_chunks(&recs).unwrap();
    assert_eq!(chunks.len(), 2);
    assert_eq!((chunks[0].address, chunks[0].data.clone()), (0x1200_0000, vec![0xFF, 0xFF, 1, 2]));
    assert_eq!((chunks[1].address, chunks[1].data.clone()), (0x1000_0000, vec![7]));
}

#[test]
fn oversized_data_record_is_malformed() {
    let recs = vec![HexRecord::Data { offset: 0, value: vec![0; 256] }, HexRecord::EndOfFile];
    assert_eq!(hex_records_to_chunks(&recs).unwrap_err(), ImageError::MalformedHex);
}
