use super_metroid::load_door_data;
use super_metroid::load_plm_list;
use super_metroid::load_room_data;
use super_metroid::load_room_mdb_header;
use super_metroid::load_state_data;
use super_metroid::Area;
use super_metroid::BlockType;
use super_metroid::SmError;
use super_metroid::StateCondition;
use super_metroid::SuperMetroidData;
use super_metroid::TileSet;

fn le16(v: u16) -> [u8; 2] {
    [v as u8, (v >> 8) as u8]
}

fn put(rom: &mut Vec<u8>, off: usize, bytes: &[u8]) {
    for (i, b) in bytes.iter().enumerate() {
        rom[off + i] = *b;
    }
}

/// A minimal conforming image: one seed room with a Default state, a door
/// list of zeroed doors, an empty placement list, and one artifact stream
/// shared by all 29 tilesets.  `level_data` is the compressed level stream;
/// `door_dest` is the destination every door record carries.
fn seed_rom(level_data: &[u8], door_dest: u16) -> Vec<u8> {
    let mut rom = vec![0u8; 0x300000];
    let h = 0x791f8;
    rom[h] = 0; // room index
    rom[h + 1] = 0; // area: Crateria
    rom[h + 4] = 1; // width in screens
    rom[h + 5] = 1; // height in screens
    put(&mut rom, h + 9, &le16(0xa000)); // door list pointer
    put(&mut rom, h + 11, &le16(0xe5e6)); // the Default condition ends the list
    let sd = h + 13; // its state data follows immediately
    put(&mut rom, sd, &[0x00, 0x80, 0xc2]); // level data at 0xC28000
    rom[sd + 3] = 0; // tileset 0
    put(&mut rom, sd + 20, &le16(0x9000)); // placement list (empty: zeros)
    put(&mut rom, 0x210000, level_data); // 0xC28000 in flat offsets
    for j in 0..4 {
        put(&mut rom, 0x7a000 + 2 * j, &le16(0x8000)); // door slots
    }
    put(&mut rom, 0x18000, &le16(door_dest)); // the shared door record
    for j in 0..29 {
        put(&mut rom, 0x7e7a7 + 2 * j, &le16(0xe800)); // tileset table
    }
    // one tileset entry: tile table, tiles and palette all at 0xC29000
    put(
        &mut rom,
        0x7e800,
        &[0x00, 0x90, 0xc2, 0x00, 0x90, 0xc2, 0x00, 0x90, 0xc2],
    );
    // a 256-byte artifact stream (extended byte fill of zeros)
    put(&mut rom, 0x211000, &[0xe4, 0xff, 0x00, 0xff]);
    put(&mut rom, 0x1c8000, &[0xe4, 0xff, 0x00, 0xff]); // CRE tiles
    put(&mut rom, 0x1ca09d, &[0x22, 0x01, 0xff]); // CRE tile table
    rom
}

/// A compressed level stream of one air block: direct copy of the five
/// decompressed bytes (size word 2, one block word, one behaviour byte).
fn one_block_level() -> Vec<u8> {
    vec![0x04, 0x02, 0x00, 0x00, 0x00, 0x00, 0xff]
}

/// A compressed level stream of four blocks, two of them doors with
/// behaviour bytes 0 and 3.
fn four_block_level() -> Vec<u8> {
    let decompressed = [
        0x08, 0x00, // size word: eight bytes of first-layer data
        0x00, 0x90, 0x00, 0x90, 0x00, 0x00, 0x00, 0x00, // two doors, two air
        0x00, 0x03, 0x00, 0x00, // behaviour bytes
    ];
    let mut c = vec![0x0d]; // direct copy of 14 bytes
    c.extend_from_slice(&decompressed);
    c.push(0xff);
    c
}

#[test]
fn wrong_size_is_rejected() {
    assert!(matches!(
        SuperMetroidData::new(&[0u8; 10]),
        Err(SmError::WrongRomSize)
    ));
    let rom = vec![0u8; 0x300001];
    assert!(matches!(
        SuperMetroidData::new(&rom),
        Err(SmError::WrongRomSize)
    ));
}

#[test]
fn zeroed_rom_fails_to_load() {
    // The seed room's header parses but its first state condition is the
    // zero selector, which is unknown.
    let rom = vec![0u8; 0x300000];
    let r = SuperMetroidData::new(&rom);
    assert!(matches!(r, Err(SmError::UnknownEnumTag { .. })));
}

#[test]
fn seed_room_only_rom_loads() {
    let rom = seed_rom(&one_block_level(), 0);
    let sm = SuperMetroidData::new(&rom).unwrap();
    assert_eq!(sm.room_mdb.len(), 1);
    let room = sm.room_mdb.get(&0x91f8).unwrap();
    assert_eq!(room.states.len(), 1);
    assert_eq!(room.states[0].condition, StateCondition::Default);
    assert_eq!(room.states[0].data.level_data, 0xc28000);
    assert_eq!(room.states[0].data.tile_set, TileSet::UpperCrateria);
    assert_eq!(room.states[0].data.plm_ptr, 0x9000);
    // the placement list exists and is empty
    assert_eq!(sm.plm_population.get(&0x9000).unwrap().len(), 0);
    // no door with a destination: all slots were zeroed
    assert_eq!(room.door_list.len(), 0);
    // one air block of level data, one implied door slot
    let ld = sm.level_data.get(&0xc28000).unwrap();
    assert_eq!(ld.layer_1.len(), 1);
    assert_eq!(ld.bts, vec![0]);
    assert!(ld.layer_2.is_none());
    assert_eq!(ld.num_doors, 1);
}

#[test]
fn tile_sets_and_caches_are_complete() {
    let rom = seed_rom(&one_block_level(), 0);
    let sm = SuperMetroidData::new(&rom).unwrap();
    // the tileset list is full and its pointers are cached
    assert_eq!(sm.tile_sets.len(), 29);
    for set in &sm.tile_sets {
        assert!(sm.tiles.contains_key(&set.tiles_ptr));
        assert!(sm.tile_tables.contains_key(&set.tile_table_ptr));
        assert!(sm.palettes.contains_key(&set.palette_ptr));
    }
    // the fixed common graphics are cached too
    assert!(sm.tiles.contains_key(&0xb98000));
    assert!(sm.tile_tables.contains_key(&0xb9a09d));
    // every tile blob holds whole tiles; every palette holds 128 upshifted
    // colours
    for t in sm.tiles.values() {
        assert_eq!(t.data.len() % 32, 0);
    }
    for p in sm.palettes.values() {
        assert_eq!(p.colors.len(), 128);
        for c in &p.colors {
            assert_eq!(c.r & 7, 0);
            assert_eq!(c.g & 7, 0);
            assert_eq!(c.b & 7, 0);
        }
    }
}

#[test]
fn two_door_blocks_imply_four_door_slots() {
    let rom = seed_rom(&four_block_level(), 0);
    let sm = SuperMetroidData::new(&rom).unwrap();
    let ld = sm.level_data.get(&0xc28000).unwrap();
    assert_eq!(ld.layer_1.len(), 4);
    assert_eq!(ld.layer_1[0].ty, BlockType::DoorBlock);
    assert_eq!(ld.layer_1[1].ty, BlockType::DoorBlock);
    assert_eq!(ld.bts, vec![0, 3, 0, 0]);
    assert_eq!(ld.num_doors, 4);
    // all four parsed slots carried a zero destination and were dropped
    let room = sm.room_mdb.get(&0x91f8).unwrap();
    assert_eq!(room.door_list.len(), 0);
}

#[test]
fn doors_lead_to_loaded_rooms() {
    // Every door record points back at the seed room itself.
    let rom = seed_rom(&four_block_level(), 0x91f8);
    let sm = SuperMetroidData::new(&rom).unwrap();
    let room = sm.room_mdb.get(&0x91f8).unwrap();
    assert_eq!(room.door_list.len(), 4);
    for d in &room.door_list {
        assert_ne!(d.dest_room_ptr, 0);
        assert!(sm.room_mdb.contains_key(&d.dest_room_ptr));
    }
}

#[test]
fn room_header_parses() {
    let rom = seed_rom(&one_block_level(), 0);
    let m = load_room_mdb_header(&rom, 0x791f8).unwrap();
    assert_eq!(m.area, Area::Crateria);
    assert_eq!(m.width, 1);
    assert_eq!(m.height, 1);
    assert_eq!(m.door_list_ptr, 0xa000);
    // an unknown area byte is rejected
    let mut bad = rom.clone();
    bad[0x791f8 + 1] = 0x55;
    assert!(matches!(
        load_room_mdb_header(&bad, 0x791f8),
        Err(SmError::UnknownEnumTag { .. })
    ));
}

#[test]
fn state_data_parses() {
    let rom = seed_rom(&one_block_level(), 0);
    let d = load_state_data(&rom, 0x791f8 + 13).unwrap();
    assert_eq!(d.level_data, 0xc28000);
    assert_eq!(d.tile_set, TileSet::UpperCrateria);
    assert_eq!(d.plm_ptr, 0x9000);
    assert_eq!(d.fx_ptr, 0);
}

#[test]
fn door_data_parses() {
    let mut rom = vec![0u8; 64];
    put(
        &mut rom,
        8,
        &[
            0xf8, 0x91, // destination room
            0x01, // elevator properties
            0x02, // orientation
            0x34, 0x56, 0x12, 0x00, // x and y, split bytes
            0x78, 0x00, // spawn distance
            0xcd, 0xab, // door code pointer
        ],
    );
    let d = load_door_data(&rom, 8).unwrap();
    assert_eq!(d.dest_room_ptr, 0x91f8);
    assert_eq!(d.elevator_props, 1);
    assert_eq!(d.orientation, 2);
    assert_eq!(d.x, 0x1234);
    assert_eq!(d.y, 0x0056);
    assert_eq!(d.spawn_dist, 0x78);
    assert_eq!(d.asm_ptr, 0xabcd);
    assert!(load_door_data(&rom, 60).is_err());
}

#[test]
fn plm_list_parses() {
    let mut rom = vec![0u8; 32];
    put(&mut rom, 0, &[0xd7, 0xee, 5, 7, 0x34, 0x12, 0xdb, 0xee, 1, 2, 0, 0, 0, 0]);
    let l = load_plm_list(&rom, 0).unwrap();
    assert_eq!(l.len(), 2);
    assert_eq!((l[0].id, l[0].x, l[0].y, l[0].param), (0xeed7, 5, 7, 0x1234));
    assert_eq!((l[1].id, l[1].x, l[1].y, l[1].param), (0xeedb, 1, 2, 0));
}

#[test]
fn room_data_size_is_checked() {
    // one block declared, but only the first layer present: 2 + 2 bytes
    let bad = [0x02, 0x00, 0x00, 0x00];
    assert!(matches!(
        load_room_data(&bad),
        Err(SmError::WrongSizedRoomData)
    ));
    // one block with both layers and the behaviour byte
    let good = [0x02, 0x00, 0x00, 0x90, 0x07, 0x04, 0x00];
    let rd = load_room_data(&good).unwrap();
    assert_eq!(rd.layer_1.len(), 1);
    assert_eq!(rd.layer_1[0].ty, BlockType::DoorBlock);
    assert_eq!(rd.bts, vec![0x07]);
    let l2 = rd.layer_2.unwrap();
    assert_eq!(l2.len(), 1);
    assert_eq!(l2[0].tile_index, 4);
    assert_eq!(rd.num_doors, 8);
}

#[test]
fn block_info_reads_through_cursor() {
    let data = [0xa5, 0xb4, 0x00, 0x90];
    let mut r = super_metroid::util::RomReader::new(&data, 0);
    let b = super_metroid::load_block_info(&mut r).unwrap();
    assert_eq!(b.tile_index, 0x0a5);
    assert_eq!(b.ty, BlockType::SpecialBlock);
    let b = super_metroid::load_block_info(&mut r).unwrap();
    assert_eq!(b.ty, BlockType::DoorBlock);
    assert!(super_metroid::load_block_info(&mut r).is_err());
}

#[test]
fn state_list_parses_in_wire_order() {
    // Two conditions: a boss check with its explicit data pointer, then the
    // Default condition whose data follows the list immediately.
    let rom = {
        let mut rom = seed_rom(&one_block_level(), 0);
        let h = 0x791f8;
        put(&mut rom, h + 11, &le16(0xe5ff)); // MainAreaBossDead
        put(&mut rom, h + 13, &le16(0x9300)); // its state data pointer
        put(&mut rom, h + 15, &le16(0xe5e6)); // Default ends the list
        // Default data sits at h + 17; the boss state reuses the same
        // level data and placement list at flat offset 0x71300
        let sd = h + 17;
        put(&mut rom, sd, &[0x00, 0x80, 0xc2]);
        put(&mut rom, sd + 20, &le16(0x9000));
        let sd2 = 0x79300;
        put(&mut rom, sd2, &[0x00, 0x80, 0xc2]);
        put(&mut rom, sd2 + 20, &le16(0x9000));
        rom
    };
    let sm = SuperMetroidData::new(&rom).unwrap();
    let room = sm.room_mdb.get(&0x91f8).unwrap();
    assert_eq!(room.states.len(), 2);
    assert_eq!(room.states[0].condition, StateCondition::MainAreaBossDead);
    assert_eq!(room.states[1].condition, StateCondition::Default);
    assert_eq!(room.states[0].data.level_data, 0xc28000);
}

#[test]
fn artifact_failure_aborts_load() {
    // A conforming image except that the shared artifact stream decompresses
    // to fewer than the 256 bytes a palette needs.
    let mut rom = seed_rom(&one_block_level(), 0);
    put(&mut rom, 0x211000, &[0x22, 0x01, 0xff, 0x00]);
    assert!(SuperMetroidData::new(&rom).is_err());
}
