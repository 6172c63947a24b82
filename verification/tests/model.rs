use super_metroid::Area;
use super_metroid::BlockInfo;
use super_metroid::BlockType;
use super_metroid::Color;
use super_metroid::Event;
use super_metroid::PlmItemId;
use super_metroid::StateConditionValue;
use super_metroid::TileSet;
use super_metroid::TileTableEntry;

#[test]
fn it_works() {
    assert_eq!(2 + 2, 4);
}

#[test]
fn block_info_decoding() {
    // The documented example: type 0xB, the horizontal flip bit set, the
    // vertical flip bit (bit 11 of 0xB4A5) clear, tile index 0x0A5.
    let b = BlockInfo::from_u16(0xb4a5);
    assert_eq!(b.ty, BlockType::SpecialBlock);
    assert!(b.x_flip);
    assert!(!b.y_flip);
    assert_eq!(b.tile_index, 0x0a5);
    let b = BlockInfo::from_u16(0x0c00);
    assert!(b.x_flip);
    assert!(b.y_flip);

    let b = BlockInfo::from_u16(0x9000);
    assert_eq!(b.ty, BlockType::DoorBlock);
    assert!(!b.x_flip);
    assert!(!b.y_flip);
    assert_eq!(b.tile_index, 0);
}

#[test]
fn tile_table_entry_decoding() {
    let e = TileTableEntry::from_u16(0xffff);
    assert_eq!(e.index, 0x3ff);
    assert_eq!(e.palette, 7);
    assert!(e.priority);
    assert!(e.flip_h);
    assert!(e.flip_v);

    let e = TileTableEntry::from_u16(0x0401);
    assert_eq!(e.index, 1);
    assert_eq!(e.palette, 1);
    assert!(!e.priority);
    assert!(!e.flip_h);
    assert!(!e.flip_v);
}

#[test]
fn color_decoding() {
    // BGR5: each 5-bit channel shifted up by three bits.
    let c = Color::from_u16(0x7fff);
    assert_eq!((c.r, c.g, c.b), (0xf8, 0xf8, 0xf8));
    let c = Color::from_u16(0x001f);
    assert_eq!((c.r, c.g, c.b), (0xf8, 0, 0));
    let c = Color::from_u16(0x03e0);
    assert_eq!((c.r, c.g, c.b), (0, 0xf8, 0));
    let c = Color::from_u16(0x7c00);
    assert_eq!((c.r, c.g, c.b), (0, 0, 0xf8));
    // The low three bits of every channel are always clear.
    for v in [0u16, 1, 0x1234, 0x7fff, 0xffff] {
        let c = Color::from_u16(v);
        assert_eq!(c.r & 7, 0);
        assert_eq!(c.g & 7, 0);
        assert_eq!(c.b & 7, 0);
    }
}

#[test]
fn enum_decodings() {
    assert_eq!(Area::from_u8(0x00), Some(Area::Crateria));
    assert_eq!(Area::from_u8(0x07), Some(Area::Debug));
    assert_eq!(Area::from_u8(0x08), None);

    assert_eq!(Event::from_u8(0x00), Some(Event::ZebesAwake));
    assert_eq!(Event::from_u8(0x15), Some(Event::OutranSpeedBoosterLavaQuake));
    assert_eq!(Event::from_u8(0x16), None);

    assert_eq!(TileSet::from_u8(0x00), Some(TileSet::UpperCrateria));
    assert_eq!(TileSet::from_u8(0x1c), Some(TileSet::DraygonRoom));
    assert_eq!(TileSet::from_u8(0x1d), None);

    assert_eq!(
        StateConditionValue::from_u16(0xe5e6),
        Some(StateConditionValue::Default)
    );
    assert_eq!(
        StateConditionValue::from_u16(0xe678),
        Some(StateConditionValue::HasSpeedBooster)
    );
    assert_eq!(StateConditionValue::from_u16(0x1234), None);

    assert_eq!(BlockType::from_u8(0x9), Some(BlockType::DoorBlock));
    assert_eq!(BlockType::from_u8(0xf), Some(BlockType::BombableBlock));
    assert_eq!(BlockType::from_u8(0x10), None);

    assert_eq!(PlmItemId::from_u16(0xeed7), Some(PlmItemId::ETank));
    assert_eq!(PlmItemId::from_u16(0xefcf), Some(PlmItemId::ReserveHidden));
    assert_eq!(PlmItemId::from_u16(0x0000), None);
}
