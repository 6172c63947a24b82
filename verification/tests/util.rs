use super_metroid::util::RomReader;

#[test]
fn rom_reader() {
    let data = [
        0x0, 0x1, 0x2, 0x3, 0x4, 0x5, 0x6, 0x7, 0x8, 0x9, 0xa, 0xb, 0xc, 0xd, 0xe, 0xf,
    ];

    let mut r = RomReader::new(&data, 0x4);
    assert_eq!(r.cur_address(), 0x4);

    let rdata = r.read(4);
    assert_eq!(rdata.len(), 4);
    assert_eq!(rdata, [0x4, 0x5, 0x6, 0x7]);
    assert_eq!(r.cur_address(), 0x8);
}

#[test]
fn rom_reader_typed_reads() {
    let data = [0x34, 0x12, 0x56, 0x34, 0x12, 0xff];
    let mut r = RomReader::new(&data, 0);
    assert_eq!(r.read_u16_le().unwrap(), 0x1234);
    assert_eq!(r.read_u24_le().unwrap(), 0x123456);
    assert_eq!(r.read_u8().unwrap(), 0xff);
    assert!(r.read_u8().is_err());
    assert_eq!(r.cur_address(), 6);
}

#[test]
fn rom_reader_seek_and_skip() {
    let data = [0u8, 1, 2, 3, 4, 5];
    let mut r = RomReader::new(&data, 0);
    r.seek(4);
    assert_eq!(r.read_u8().unwrap(), 4);
    r.seek(1);
    r.skip(2);
    assert_eq!(r.read_u8().unwrap(), 3);
}
