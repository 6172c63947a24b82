use super_metroid::rommap;

#[test]
fn rom_addr_macro_works() {
    assert_eq!(rommap::rom_addr(0x8f, 0x93fe), 0x793fe);
}

#[test]
fn fixed_locations() {
    assert_eq!(rommap::ROOM_MDB_START, rommap::rom_addr(0x8f, 0x91f8));
    assert_eq!(
        rommap::TILESET_POINTER_TABLE,
        rommap::rom_addr(0x8f, 0xe7a7)
    );
    assert_eq!(rommap::CRE_TILES, rommap::rom_addr(0xb9, 0x8000));
    assert_eq!(rommap::CRE_TILE_TABLE, rommap::rom_addr(0xb9, 0xa09d));
}

#[test]
fn snes16_round_trip() {
    // Any legal in-bank offset survives the trip through a flat offset.
    assert_eq!(
        rommap::rom_addr_to_snes16(rommap::rom_addr(0x8f, 0xabcd)),
        0xabcd
    );
    assert_eq!(
        rommap::rom_addr_to_snes16(rommap::rom_addr(0x80, 0x8000)),
        0x8000
    );
    assert_eq!(
        rommap::rom_addr_to_snes16(rommap::rom_addr(0xff, 0xffff)),
        0xffff
    );
}

#[test]
fn snes_of_fixed_locations() {
    assert_eq!(rommap::rom_addr_to_snes(rommap::CRE_TILES), 0xb98000);
    assert_eq!(rommap::rom_addr_to_snes(rommap::CRE_TILE_TABLE), 0xb9a09d);
}

#[test]
fn banked_pointer_checks() {
    assert!(rommap::banked_valid(0xc28000));
    assert!(!rommap::banked_valid(0xc27fff));
    assert!(!rommap::banked_valid(0x7f8000));
    assert_eq!(rommap::snes_to_rom_addr(0xc28000), 0x210000);
    assert_eq!(rommap::snes_to_rom_addr(0x8f91f8), rommap::ROOM_MDB_START);
}
