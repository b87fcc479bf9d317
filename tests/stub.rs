use sftool_lib::ram_stub::{
    console_release_sequence, stub_entry, stub_file_name, stub_packets, COMPAT_STUB_PACKET,
    STUB_LOAD_ADDRESS, STUB_PACKET,
};

#[test]
fn stub_names() {
    assert_eq!(stub_file_name("sf32lb52", "nor"), Some("ram_patch_52X.bin"));
    assert_eq!(stub_file_name("sf32lb52", "nand"), Some("ram_patch_52X_NAND.bin"));
    assert_eq!(stub_file_name("sf32lb52", "sd"), Some("ram_patch_52X_SD.bin"));
}

#[test]
fn unsupported_combination_has_no_stub() {
    assert_eq!(stub_file_name("sf32lb52", "emmc"), None);
    assert_eq!(stub_file_name("sf32lb56", "nor"), None);
    assert_eq!(stub_file_name("SF32LB52", "nor"), None);
}

#[test]
fn entry_registers() {
    let image = [0x00, 0x10, 0x06, 0x20, 0x41, 0xA1, 0x05, 0x20, 0xff];
    assert_eq!(stub_entry(&image), Some((0x2006_1000, 0x2005_A141)));
    assert_eq!(stub_entry(&image[..7]), None);
}

#[test]
fn load_packets() {
    let ps = stub_packets(600, true);
    assert_eq!(ps.len(), 3);
    assert_eq!((ps[0].start, ps[0].end, ps[0].address), (0, 256, STUB_LOAD_ADDRESS));
    assert_eq!((ps[1].start, ps[1].end, ps[1].address), (256, 512, STUB_LOAD_ADDRESS + 256));
    assert_eq!((ps[2].start, ps[2].end), (512, 600));
    assert_eq!(COMPAT_STUB_PACKET, 256);
    let ps = stub_packets(STUB_PACKET * 2, false);
    assert_eq!(ps.len(), 2);
    assert!(stub_packets(0, false).is_empty());
}

#[test]
fn console_release_bytes() {
    let b = console_release_sequence();
    assert_eq!(b.len(), 16);
    assert_eq!(&b[..6], &[0x7E, 0x79, 0x08, 0x00, 0x10, 0x00]);
    assert_eq!(&b[6..12], b"ATSF32");
    assert_eq!(&b[14..], b"\r\n");
}
