use sftool_lib::checksum::crc32;

fn reference_crc(data: &[u8]) -> u32 {
    let mut crc: u32 = 0;
    for b in data {
        crc ^= *b as u32;
        for _ in 0..8 {
            crc = if crc & 1 != 0 { (crc >> 1) ^ 0xEDB8_8320 } else { crc >> 1 };
        }
    }
    crc
}

#[test]
fn check_value() {
    assert_eq!(crc32(b"123456789"), 0x2DFD_2D88);
}

#[test]
fn empty_input() {
    assert_eq!(crc32(b""), 0);
}

#[test]
fn agrees_with_bitwise_definition() {
    let data = [0xABu8; 10];
    assert_eq!(crc32(&data), reference_crc(&data));
    let ramp: Vec<u8> = (0..=255u8).collect();
    assert_eq!(crc32(&ramp), reference_crc(&ramp));
    assert_ne!(crc32(&data), 0);
}
