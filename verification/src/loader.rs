//! Parsing of the fixed-layout records and the breadth-first loader that
//! chases pointers from the seed room until the model is complete.
//!
//! Every record has a spec-level parse function (or matching predicate) over
//! the cartridge bytes; each executable parser is proved to return exactly
//! what the spec parse yields, and to fail exactly when it rejects.

use crate::compression::{decompress, spec_decompress};
use crate::graphics::{de_planar_tiles, tile_pixels_match};
use crate::model::Area;
use crate::model::BlockInfo;
use crate::model::BlockType;
use crate::model::DoorData;
use crate::model::EnumKind;
use crate::model::Event;
use crate::model::PlmPopulation;
use crate::model::RangeKind;
use crate::model::RoomData;
use crate::model::RoomMdb;
use crate::model::SmError;
use crate::model::State;
use crate::model::StateCondition;
use crate::model::StateConditionValue;
use crate::model::StateData;
use crate::model::Color;
use crate::model::Palette;
use crate::model::PALETTE_ENTRIES;
use crate::model::SuperMetroidData;
use crate::model::TileSet;
use crate::model::TileSetEntry;
use crate::model::TileTable;
use crate::model::TileTableEntry;
use crate::model::Tiles;
use crate::rommap::banked_valid;
use crate::rommap::rom_addr;
use crate::rommap::rom_addr_to_snes;
use crate::rommap::rom_addr_to_snes16;
use crate::rommap::snes_to_rom_addr;
use crate::rommap::spec_banked_valid;
use crate::rommap::spec_rom_addr;
use crate::rommap::spec_snes;
use crate::rommap::spec_snes16;
use crate::rommap::spec_snes_to_rom;
use crate::rommap::CRE_TILES;
use crate::rommap::CRE_TILE_TABLE;
use crate::rommap::ROOM_MDB_START;
use crate::rommap::TILESET_ENTRY_BANK;
use crate::rommap::TILESET_POINTER_TABLE;
use crate::rommap::TILESET_POINTER_TABLE_COUNT;
use crate::util::{le16, le24, RomReader};
use std::collections::HashMap;
use vstd::prelude::*;
use vstd::relations::injective_on;
use vstd::set_lib::{lemma_int_range, lemma_len_subset, lemma_map_size, set_int_range};
use vstd::slice::slice_subrange;

verus! {

broadcast use vstd::std_specs::hash::group_hash_axioms;

/// Whether an 11-byte room header parses at offset `off`.
pub open spec fn room_header_ok(rom: Seq<u8>, off: int) -> bool {
    &&& 0 <= off
    &&& off + 11 <= rom.len()
    &&& Area::spec_from_u8(rom[off + 1]) is Some
}

/// The header fields of `m` are the eleven bytes at offset `off`.
pub open spec fn room_header_matches(rom: Seq<u8>, off: int, m: RoomMdb) -> bool {
    &&& m.index == rom[off]
    &&& Some(m.area) == Area::spec_from_u8(rom[off + 1])
    &&& m.x == rom[off + 2]
    &&& m.y == rom[off + 3]
    &&& m.width == rom[off + 4]
    &&& m.height == rom[off + 5]
    &&& m.up_scroller == rom[off + 6]
    &&& m.down_scroller == rom[off + 7]
    &&& m.graphics_flags == rom[off + 8]
    &&& m.door_list_ptr == le16(rom, off + 9)
}

/// The 26-byte state data record at offset `off`, or `None` when it does not
/// fit or names an unknown tileset.
pub open spec fn spec_state_data(rom: Seq<u8>, off: int) -> Option<StateData> {
    if off < 0 || off + 26 > rom.len() {
        None
    } else {
        match TileSet::spec_from_u8(rom[off + 3]) {
            None => None,
            Some(ts) => Some(
                StateData {
                    level_data: le24(rom, off) as u32,
                    tile_set: ts,
                    music_data_index: rom[off + 4],
                    music_track: rom[off + 5],
                    fx_ptr: le16(rom, off + 6) as u16,
                    enemy_population: le16(rom, off + 8) as u16,
                    enemy_set: le16(rom, off + 10) as u16,
                    layer_2_scroll_x: rom[off + 12],
                    layer_2_scroll_y: rom[off + 13],
                    scroll_ptr: le16(rom, off + 14) as u16,
                    x_ray_block_ptr: le16(rom, off + 16) as u16,
                    main_asm_ptr: le16(rom, off + 18) as u16,
                    plm_ptr: le16(rom, off + 20) as u16,
                    bg_ptr: le16(rom, off + 22) as u16,
                    setup_asm_ptr: le16(rom, off + 24) as u16,
                },
            ),
        }
    }
}

/// The state condition introduced at offset `off` together with the offset
/// just past it, or `None` when the selector is unknown or the record does
/// not fit.
pub open spec fn spec_state_condition(rom: Seq<u8>, off: int) -> Option<(StateCondition, int)> {
    if off < 0 || off + 2 > rom.len() {
        None
    } else {
        let tag = le16(rom, off);
        if tag == 0xe5e6 {
            Some((StateCondition::Default, off + 2))
        } else if tag == 0xe5eb {
            if off + 4 > rom.len() {
                None
            } else {
                Some((StateCondition::DoorPointerIs { value: le16(rom, off + 2) as u16 }, off + 4))
            }
        } else if tag == 0xe5ff {
            Some((StateCondition::MainAreaBossDead, off + 2))
        } else if tag == 0xe612 {
            if off + 3 > rom.len() {
                None
            } else {
                match Event::spec_from_u8(rom[off + 2]) {
                    None => None,
                    Some(e) => Some((StateCondition::EventSet { event: e }, off + 3)),
                }
            }
        } else if tag == 0xe629 {
            if off + 3 > rom.len() {
                None
            } else {
                Some((StateCondition::AreaBossesDead { bosses: rom[off + 2] }, off + 3))
            }
        } else if tag == 0xe640 {
            Some((StateCondition::HasMorphBall, off + 2))
        } else if tag == 0xe652 {
            Some((StateCondition::HasMorphBallAndMissiles, off + 2))
        } else if tag == 0xe669 {
            Some((StateCondition::HasPowerBombs, off + 2))
        } else if tag == 0xe678 {
            Some((StateCondition::HasSpeedBooster, off + 2))
        } else {
            None
        }
    }
}

/// The state list that starts at offset `off`.  Every non-default condition
/// is followed by a 16-bit pointer (bank 0x8F) to its data; the default
/// condition ends the list and its data sits immediately after it.
pub open spec fn spec_states(rom: Seq<u8>, off: int) -> Option<Seq<State>>
    decreases rom.len() - off,
{
    match spec_state_condition(rom, off) {
        None => None,
        Some((cond, off2)) => {
            if cond is Default {
                match spec_state_data(rom, spec_rom_addr(0x8f, spec_snes16(off2))) {
                    None => None,
                    Some(d) => Some(seq![State { condition: cond, data: d }]),
                }
            } else {
                if off2 + 2 > rom.len() {
                    None
                } else {
                    let p = le16(rom, off2);
                    if p < 0x8000 {
                        None
                    } else {
                        match spec_state_data(rom, spec_rom_addr(0x8f, p)) {
                            None => None,
                            Some(d) => match spec_states(rom, off2 + 2) {
                                None => None,
                                Some(rest) => Some(
                                    seq![State { condition: cond, data: d }] + rest,
                                ),
                            },
                        }
                    }
                }
            }
        },
    }
}

/// `rest` with `acc` already parsed in front of it.
pub open spec fn states_result(acc: Seq<State>, rest: Option<Seq<State>>) -> Option<Seq<State>> {
    match rest {
        None => None,
        Some(s) => Some(acc + s),
    }
}

/// The 12-byte door record at offset `off`.
pub open spec fn spec_door_data(rom: Seq<u8>, off: int) -> DoorData {
    DoorData {
        dest_room_ptr: le16(rom, off) as u16,
        elevator_props: rom[off + 2],
        orientation: rom[off + 3],
        x: (rom[off + 4] + 0x100 * rom[off + 6]) as u16,
        y: (rom[off + 5] + 0x100 * rom[off + 7]) as u16,
        spawn_dist: le16(rom, off + 8) as u16,
        asm_ptr: le16(rom, off + 10) as u16,
    }
}

/// The placement list that starts at offset `off`: 6-byte records up to the
/// first identifier of zero.
pub open spec fn spec_plm_list(rom: Seq<u8>, off: int) -> Option<Seq<PlmPopulation>>
    decreases rom.len() - off,
{
    if off < 0 || off + 2 > rom.len() {
        None
    } else {
        let id = le16(rom, off);
        if id == 0 {
            Some(Seq::empty())
        } else if off + 6 > rom.len() {
            None
        } else {
            match spec_plm_list(rom, off + 6) {
                None => None,
                Some(rest) => Some(
                    seq![
                        PlmPopulation {
                            id: id as u16,
                            x: rom[off + 2],
                            y: rom[off + 3],
                            param: le16(rom, off + 4) as u16,
                        },
                    ] + rest,
                ),
            }
        }
    }
}

/// `rest` with `acc` already parsed in front of it.
pub open spec fn plms_result(acc: Seq<PlmPopulation>, rest: Option<Seq<PlmPopulation>>) -> Option<
    Seq<PlmPopulation>,
> {
    match rest {
        None => None,
        Some(s) => Some(acc + s),
    }
}

/// Number of blocks a decompressed level-data blob declares: its leading
/// 16-bit size of the first layer in bytes, two bytes per block.
pub open spec fn spec_num_blocks(d: Seq<u8>) -> int {
    le16(d, 0) / 2
}

/// Whether a decompressed level-data blob has a consistent size: one layer
/// plus one behaviour byte per block, or two layers plus one byte per block.
pub open spec fn spec_room_data_ok(d: Seq<u8>) -> bool {
    &&& d.len() >= 2
    &&& {
        let nb = spec_num_blocks(d);
        d.len() - 2 == nb * 3 || d.len() - 2 == nb * 5
    }
}

/// Largest behaviour byte among the first `i` cells whose block is a door.
pub open spec fn spec_max_door_index(d: Seq<u8>, nb: int, i: int) -> int
    decreases i,
{
    if i <= 0 {
        0
    } else {
        let prev = spec_max_door_index(d, nb, i - 1);
        let cell = BlockInfo::spec_from_u16(le16(d, 2 + 2 * (i - 1)) as u16);
        if cell.ty == BlockType::DoorBlock && d[2 + 2 * nb + (i - 1)] > prev {
            d[2 + 2 * nb + (i - 1)] as int
        } else {
            prev
        }
    }
}

/// The door count a level-data blob implies: the largest behaviour byte of a
/// door cell, plus one.
pub open spec fn spec_num_doors(d: Seq<u8>) -> int {
    spec_max_door_index(d, spec_num_blocks(d), spec_num_blocks(d)) + 1
}

/// The parsed level grid `rd` is exactly the decoding of the blob `d`.
pub open spec fn room_data_matches(d: Seq<u8>, rd: RoomData) -> bool {
    let nb = spec_num_blocks(d);
    &&& spec_room_data_ok(d)
    &&& rd.layer_1@.len() == nb
    &&& forall|i: int|
        0 <= i < nb ==> rd.layer_1@[i] == BlockInfo::spec_from_u16(le16(d, 2 + 2 * i) as u16)
    &&& rd.bts@.len() == nb
    &&& forall|i: int| 0 <= i < nb ==> rd.bts@[i] == d[2 + 2 * nb + i]
    &&& (rd.layer_2 is Some) == (d.len() - 2 == nb * 5)
    &&& (rd.layer_2 matches Some(l2) ==> l2@.len() == nb && forall|i: int|
        0 <= i < nb ==> l2@[i] == BlockInfo::spec_from_u16(le16(d, 2 + 3 * nb + 2 * i) as u16))
    &&& rd.num_doors == spec_num_doors(d)
    &&& rd.num_doors <= 256
}

/// Parse the 11-byte room header at `offset`, with empty state and door
/// lists.  Succeeds exactly when the header fits and names a known area.
pub fn load_room_mdb_header(rom: &[u8], offset: usize) -> (res: Result<RoomMdb, SmError>)
    ensures
        res is Ok <==> room_header_ok(rom@, offset as int),
        res matches Ok(m) ==> {
            &&& room_header_matches(rom@, offset as int, m)
            &&& m.states@ == Seq::<State>::empty()
            &&& m.door_list@ == Seq::<DoorData>::empty()
        },
        res matches Err(e) ==> e is ShortRead || e is UnknownEnumTag,
{
    if rom.len() < 11 || offset > rom.len() - 11 {
        return Err(SmError::ShortRead { needed: 11, got: 0 });
    }
    let area_raw = rom[offset + 1];
    let area = match Area::from_u8(area_raw) {
        Some(a) => a,
        None => {
            return Err(
                SmError::UnknownEnumTag {
                    kind: EnumKind::Area,
                    value: area_raw as u32,
                    addr: offset + 1,
                },
            );
        },
    };
    let m = RoomMdb {
        index: rom[offset],
        area,
        x: rom[offset + 2],
        y: rom[offset + 3],
        width: rom[offset + 4],
        height: rom[offset + 5],
        up_scroller: rom[offset + 6],
        down_scroller: rom[offset + 7],
        graphics_flags: rom[offset + 8],
        door_list_ptr: rom[offset + 9] as u16 + 0x100 * rom[offset + 10] as u16,
        states: Vec::new(),
        door_list: Vec::new(),
    };
    Ok(m)
}

/// Parse the state condition at the cursor.  Succeeds exactly when the spec
/// parse does, and leaves the cursor just past the condition.
pub fn load_state_condition(r: &mut RomReader) -> (res: Result<StateCondition, SmError>)
    requires
        old(r).wf(),
    ensures
        final(r).bytes() == old(r).bytes(),
        final(r).wf(),
        match res {
            Ok(c) => spec_state_condition(old(r).bytes(), old(r).pos()) == Some(
                (c, final(r).pos()),
            ),
            Err(e) => spec_state_condition(old(r).bytes(), old(r).pos()) is None && (
            e is ShortRead || e is UnknownEnumTag),
        },
{
    let tag = match r.read_u16_le() {
        Ok(v) => v,
        Err(e) => {
            return Err(e);
        },
    };
    let value = match StateConditionValue::from_u16(tag) {
        Some(v) => v,
        None => {
            return Err(
                SmError::UnknownEnumTag {
                    kind: EnumKind::StateConditionValue,
                    value: tag as u32,
                    addr: r.cur_address(),
                },
            );
        },
    };
    match value {
        StateConditionValue::Default => Ok(StateCondition::Default),
        StateConditionValue::DoorPointerIs => {
            let v = match r.read_u16_le() {
                Ok(v) => v,
                Err(e) => {
                    return Err(e);
                },
            };
            Ok(StateCondition::DoorPointerIs { value: v })
        },
        StateConditionValue::MainAreaBossDead => Ok(StateCondition::MainAreaBossDead),
        StateConditionValue::EventSet => {
            let b = match r.read_u8() {
                Ok(v) => v,
                Err(e) => {
                    return Err(e);
                },
            };
            match Event::from_u8(b) {
                Some(e) => Ok(StateCondition::EventSet { event: e }),
                None => Err(
                    SmError::UnknownEnumTag {
                        kind: EnumKind::Event,
                        value: b as u32,
                        addr: r.cur_address(),
                    },
                ),
            }
        },
        StateConditionValue::AreaBossesDead => {
            let b = match r.read_u8() {
                Ok(v) => v,
                Err(e) => {
                    return Err(e);
                },
            };
            Ok(StateCondition::AreaBossesDead { bosses: b })
        },
        StateConditionValue::HasMorphBall => Ok(StateCondition::HasMorphBall),
        StateConditionValue::HasMorphBallAndMissiles => Ok(
            StateCondition::HasMorphBallAndMissiles,
        ),
        StateConditionValue::HasPowerBombs => Ok(StateCondition::HasPowerBombs),
        StateConditionValue::HasSpeedBooster => Ok(StateCondition::HasSpeedBooster),
    }
}

/// Parse the 26-byte state data record at `offset`.  Succeeds exactly when
/// the spec parse does.
pub fn load_state_data(rom: &[u8], offset: usize) -> (res: Result<StateData, SmError>)
    ensures
        match res {
            Ok(d) => spec_state_data(rom@, offset as int) == Some(d),
            Err(e) => spec_state_data(rom@, offset as int) is None && (e is ShortRead
                || e is UnknownEnumTag),
        },
{
    if rom.len() < 26 || offset > rom.len() - 26 {
        return Err(SmError::ShortRead { needed: 26, got: 0 });
    }
    let mut r = RomReader::new(rom, offset);
    let level_data = match r.read_u24_le() {
        Ok(v) => v,
        Err(e) => {
            return Err(e);
        },
    };
    let tile_set_raw = match r.read_u8() {
        Ok(v) => v,
        Err(e) => {
            return Err(e);
        },
    };
    let tile_set = match TileSet::from_u8(tile_set_raw) {
        Some(t) => t,
        None => {
            return Err(
                SmError::UnknownEnumTag {
                    kind: EnumKind::TileSetId,
                    value: tile_set_raw as u32,
                    addr: offset + 3,
                },
            );
        },
    };
    let music_data_index = match r.read_u8() {
        Ok(v) => v,
        Err(e) => {
            return Err(e);
        },
    };
    let music_track = match r.read_u8() {
        Ok(v) => v,
        Err(e) => {
            return Err(e);
        },
    };
    let fx_ptr = match r.read_u16_le() {
        Ok(v) => v,
        Err(e) => {
            return Err(e);
        },
    };
    let enemy_population = match r.read_u16_le() {
        Ok(v) => v,
        Err(e) => {
            return Err(e);
        },
    };
    let enemy_set = match r.read_u16_le() {
        Ok(v) => v,
        Err(e) => {
            return Err(e);
        },
    };
    let layer_2_scroll_x = match r.read_u8() {
        Ok(v) => v,
        Err(e) => {
            return Err(e);
        },
    };
    let layer_2_scroll_y = match r.read_u8() {
        Ok(v) => v,
        Err(e) => {
            return Err(e);
        },
    };
    let scroll_ptr = match r.read_u16_le() {
        Ok(v) => v,
        Err(e) => {
            return Err(e);
        },
    };
    let x_ray_block_ptr = match r.read_u16_le() {
        Ok(v) => v,
        Err(e) => {
            return Err(e);
        },
    };
    let main_asm_ptr = match r.read_u16_le() {
        Ok(v) => v,
        Err(e) => {
            return Err(e);
        },
    };
    let plm_ptr = match r.read_u16_le() {
        Ok(v) => v,
        Err(e) => {
            return Err(e);
        },
    };
    let bg_ptr = match r.read_u16_le() {
        Ok(v) => v,
        Err(e) => {
            return Err(e);
        },
    };
    let setup_asm_ptr = match r.read_u16_le() {
        Ok(v) => v,
        Err(e) => {
            return Err(e);
        },
    };
    Ok(
        StateData {
            level_data,
            tile_set,
            music_data_index,
            music_track,
            fx_ptr,
            enemy_population,
            enemy_set,
            layer_2_scroll_x,
            layer_2_scroll_y,
            scroll_ptr,
            x_ray_block_ptr,
            main_asm_ptr,
            plm_ptr,
            bg_ptr,
            setup_asm_ptr,
        },
    )
}

/// Parse the state list that starts at `state_offset` into `states`.
/// Succeeds exactly when the spec parse does, and then `states` holds
/// exactly its value.
pub fn load_states(rom: &[u8], state_offset: usize, states: &mut Vec<State>) -> (res: Result<
    (),
    SmError,
>)
    requires
        old(states)@.len() == 0,
        state_offset <= rom@.len(),
    ensures
        match res {
            Ok(_) => spec_states(rom@, state_offset as int) == Some(final(states)@),
            Err(e) => spec_states(rom@, state_offset as int) is None && (e is ShortRead
                || e is UnknownEnumTag || e is OutOfRange),
        },
{
    let mut r = RomReader::new(rom, state_offset);
    loop
        invariant
            r.wf(),
            r.bytes() == rom@,
            states_result(states@, spec_states(rom@, r.pos())) == spec_states(
                rom@,
                state_offset as int,
            ),
        decreases rom@.len() - r.pos(),
    {
        let ghost pos0 = r.pos();
        let ghost states0 = states@;
        let condition = match load_state_condition(&mut r) {
            Ok(c) => c,
            Err(e) => {
                return Err(e);
            },
        };
        let ghost pos1 = r.pos();
        match condition {
            StateCondition::Default => {
                let data_ptr = rom_addr_to_snes16(r.cur_address());
                proof {
                    assert(data_ptr >= 0x8000);
                }
                let data_offset = rom_addr(0x8f, data_ptr as usize);
                let data = match load_state_data(rom, data_offset) {
                    Ok(d) => d,
                    Err(e) => {
                        return Err(e);
                    },
                };
                states.push(State { condition, data });
                proof {
                    assert(spec_states(rom@, pos0) == Some(
                        seq![State { condition, data }],
                    ));
                    assert(states@ =~= states0 + seq![State { condition, data }]);
                    assert(states0 + seq![State { condition, data }] =~= states@);
                    assert(spec_states(rom@, state_offset as int) == Some(states@));
                }
                return Ok(());
            },
            _ => {
                let data_ptr = match r.read_u16_le() {
                    Ok(v) => v,
                    Err(e) => {
                        return Err(e);
                    },
                };
                if data_ptr < 0x8000 {
                    return Err(
                        SmError::OutOfRange {
                            entity: RangeKind::Pointer,
                            index: data_ptr as usize,
                        },
                    );
                }
                let data_offset = rom_addr(0x8f, data_ptr as usize);
                let data = match load_state_data(rom, data_offset) {
                    Ok(d) => d,
                    Err(e) => {
                        return Err(e);
                    },
                };
                states.push(State { condition, data });
                proof {
                    assert(!(condition is Default));
                    let rest = spec_states(rom@, r.pos());
                    assert(spec_states(rom@, pos0) == states_result(
                        seq![State { condition, data }],
                        rest,
                    ));
                    if rest is Some {
                        assert((states0 + seq![State { condition, data }]) + rest->Some_0
                            =~= states0 + (seq![State { condition, data }] + rest->Some_0));
                        assert(states@ =~= states0 + seq![State { condition, data }]);
                    }
                }
            },
        }
    }
}

/// Parse a room: the header at `offset` and the state list 11 bytes later.
pub fn load_room_mdb(rom: &[u8], offset: usize) -> (res: Result<RoomMdb, SmError>)
    ensures
        res matches Ok(m) ==> {
            &&& room_header_ok(rom@, offset as int)
            &&& room_header_matches(rom@, offset as int, m)
            &&& spec_states(rom@, offset + 11) == Some(m.states@)
            &&& m.door_list@ == Seq::<DoorData>::empty()
        },
        res is Err ==> !room_header_ok(rom@, offset as int) || spec_states(rom@, offset + 11)
            is None,
        res matches Err(e) ==> e is ShortRead || e is UnknownEnumTag || e is OutOfRange,
{
    let mut mdb = match load_room_mdb_header(rom, offset) {
        Ok(m) => m,
        Err(e) => {
            return Err(e);
        },
    };
    proof {
        assert(rom.len() == rom@.len());
    }
    let mut states: Vec<State> = Vec::new();
    match load_states(rom, offset + 11, &mut states) {
        Ok(_) => {},
        Err(e) => {
            return Err(e);
        },
    }
    mdb.states = states;
    Ok(mdb)
}

/// Parse the block at the cursor: one 16-bit word.
pub fn load_block_info(r: &mut RomReader) -> (res: Result<BlockInfo, SmError>)
    requires
        old(r).wf(),
    ensures
        final(r).bytes() == old(r).bytes(),
        final(r).wf(),
        old(r).pos() + 2 <= old(r).bytes().len() ==> {
            &&& res matches Ok(b) && b == BlockInfo::spec_from_u16(
                le16(old(r).bytes(), old(r).pos()) as u16,
            )
            &&& final(r).pos() == old(r).pos() + 2
        },
        old(r).pos() + 2 > old(r).bytes().len() ==> (res matches Err(e) && e is ShortRead)
            && final(r).pos() == old(r).pos(),
{
    let v = match r.read_u16_le() {
        Ok(v) => v,
        Err(e) => {
            return Err(e);
        },
    };
    Ok(BlockInfo::from_u16(v))
}

/// Parse a decompressed level-data blob: the declared first layer, one
/// behaviour byte per block, and an optional second layer.  Succeeds exactly
/// when the blob's size is consistent; the door count is the largest
/// behaviour byte of a door cell plus one.
pub fn load_room_data(data: &[u8]) -> (res: Result<RoomData, SmError>)
    ensures
        res matches Ok(rd) ==> room_data_matches(data@, rd),
        res is Ok <==> spec_room_data_ok(data@),
        data@.len() < 2 ==> res == Err::<RoomData, SmError>(
            SmError::ShortRead { needed: 2, got: data@.len() as usize },
        ),
        res is Err && data@.len() >= 2 ==> res == Err::<RoomData, SmError>(
            SmError::WrongSizedRoomData,
        ),
{
    if data.len() < 2 {
        return Err(SmError::ShortRead { needed: 2, got: data.len() });
    }
    let size_word = data[0] as usize + 0x100 * data[1] as usize;
    let num_blocks = size_word / 2;
    let data_len = data.len() - 2;
    if data_len != num_blocks * 3 && data_len != num_blocks * 5 {
        return Err(SmError::WrongSizedRoomData);
    }
    let has_layer2 = data_len == num_blocks * 5;
    proof {
        assert(num_blocks == spec_num_blocks(data@));
        assert(spec_room_data_ok(data@));
    }
    let mut layer_1: Vec<BlockInfo> = Vec::new();
    let mut i: usize = 0;
    while i < num_blocks
        invariant
            spec_room_data_ok(data@),
            num_blocks == spec_num_blocks(data@),
            2 + 2 * num_blocks <= data@.len() <= usize::MAX,
            i <= num_blocks,
            layer_1@.len() == i,
            forall|j: int|
                0 <= j < i ==> layer_1@[j] == BlockInfo::spec_from_u16(
                    le16(data@, 2 + 2 * j) as u16,
                ),
        decreases num_blocks - i,
    {
        let v = data[2 + 2 * i] as u16 + 0x100 * data[2 + 2 * i + 1] as u16;
        layer_1.push(BlockInfo::from_u16(v));
        i = i + 1;
    }
    let mut bts: Vec<u8> = Vec::new();
    let mut max_door_index: usize = 0;
    let mut i: usize = 0;
    while i < num_blocks
        invariant
            spec_room_data_ok(data@),
            num_blocks == spec_num_blocks(data@),
            2 + 3 * num_blocks <= data@.len() <= usize::MAX,
            i <= num_blocks,
            bts@.len() == i,
            forall|j: int| 0 <= j < i ==> bts@[j] == data@[2 + 2 * num_blocks + j],
            layer_1@.len() == num_blocks,
            forall|j: int|
                0 <= j < num_blocks ==> layer_1@[j] == BlockInfo::spec_from_u16(
                    le16(data@, 2 + 2 * j) as u16,
                ),
            max_door_index <= 255,
            max_door_index == spec_max_door_index(data@, num_blocks as int, i as int),
        decreases num_blocks - i,
    {
        let b = data[2 + 2 * num_blocks + i];
        bts.push(b);
        if matches!(layer_1[i].ty, BlockType::DoorBlock) {
            if b as usize > max_door_index {
                max_door_index = b as usize;
            }
        }
        i = i + 1;
    }
    let layer_2 = if has_layer2 {
        let mut l2: Vec<BlockInfo> = Vec::new();
        let mut i: usize = 0;
        while i < num_blocks
            invariant
                spec_room_data_ok(data@),
                num_blocks == spec_num_blocks(data@),
                data@.len() - 2 == num_blocks * 5,
                2 + 5 * num_blocks <= data@.len() <= usize::MAX,
                i <= num_blocks,
                l2@.len() == i,
                forall|j: int|
                    0 <= j < i ==> l2@[j] == BlockInfo::spec_from_u16(
                        le16(data@, 2 + 3 * num_blocks + 2 * j) as u16,
                    ),
            decreases num_blocks - i,
        {
            let v = data[2 + 3 * num_blocks + 2 * i] as u16 + 0x100 * data[2 + 3 * num_blocks + 2
                * i + 1] as u16;
            l2.push(BlockInfo::from_u16(v));
            i = i + 1;
        }
        Some(l2)
    } else {
        None
    };
    Ok(RoomData { layer_1, bts, layer_2, num_doors: max_door_index + 1 })
}

/// Parse the 12-byte door record at `offset`.  Succeeds exactly when it
/// fits.
pub fn load_door_data(rom: &[u8], offset: usize) -> (res: Result<DoorData, SmError>)
    ensures
        res is Ok <==> offset + 12 <= rom@.len(),
        res matches Ok(d) ==> d == spec_door_data(rom@, offset as int),
        res matches Err(e) ==> e is ShortRead,
{
    if rom.len() < 12 || offset > rom.len() - 12 {
        return Err(SmError::ShortRead { needed: 12, got: 0 });
    }
    let dest_room_ptr = rom[offset] as u16 + 0x100 * rom[offset + 1] as u16;
    let elevator_props = rom[offset + 2];
    let orientation = rom[offset + 3];
    let x0 = rom[offset + 4];
    let y0 = rom[offset + 5];
    let x1 = rom[offset + 6];
    let y1 = rom[offset + 7];
    let spawn_dist = rom[offset + 8] as u16 + 0x100 * rom[offset + 9] as u16;
    let asm_ptr = rom[offset + 10] as u16 + 0x100 * rom[offset + 11] as u16;
    Ok(
        DoorData {
            dest_room_ptr,
            elevator_props,
            orientation,
            x: x0 as u16 + 0x100 * x1 as u16,
            y: y0 as u16 + 0x100 * y1 as u16,
            spawn_dist,
            asm_ptr,
        },
    )
}

/// Parse the placement list at `offset`: 6-byte records up to the first
/// identifier of zero.  Succeeds exactly when the spec parse does.
pub fn load_plm_list(rom: &[u8], offset: usize) -> (res: Result<Vec<PlmPopulation>, SmError>)
    requires
        offset <= rom@.len(),
    ensures
        match res {
            Ok(l) => spec_plm_list(rom@, offset as int) == Some(l@),
            Err(e) => spec_plm_list(rom@, offset as int) is None && e is ShortRead,
        },
{
    let mut r = RomReader::new(rom, offset);
    let mut plms: Vec<PlmPopulation> = Vec::new();
    loop
        invariant
            r.wf(),
            r.bytes() == rom@,
            plms_result(plms@, spec_plm_list(rom@, r.pos())) == spec_plm_list(
                rom@,
                offset as int,
            ),
        decreases rom@.len() - r.pos(),
    {
        let ghost pos0 = r.pos();
        let ghost plms0 = plms@;
        let id = match r.read_u16_le() {
            Ok(v) => v,
            Err(e) => {
                return Err(e);
            },
        };
        if id == 0 {
            proof {
                assert(spec_plm_list(rom@, pos0) == Some(Seq::<PlmPopulation>::empty()));
                assert(plms0 + Seq::<PlmPopulation>::empty() =~= plms0);
            }
            return Ok(plms);
        }
        let x = match r.read_u8() {
            Ok(v) => v,
            Err(e) => {
                return Err(e);
            },
        };
        let y = match r.read_u8() {
            Ok(v) => v,
            Err(e) => {
                return Err(e);
            },
        };
        let param = match r.read_u16_le() {
            Ok(v) => v,
            Err(e) => {
                return Err(e);
            },
        };
        let plm = PlmPopulation { id, x, y, param };
        plms.push(plm);
        proof {
            let rest = spec_plm_list(rom@, r.pos());
            assert(spec_plm_list(rom@, pos0) == plms_result(seq![plm], rest));
            if rest is Some {
                assert((plms0 + seq![plm]) + rest->Some_0 =~= plms0 + (seq![plm] + rest->Some_0));
                assert(plms@ =~= plms0 + seq![plm]);
            }
        }
    }
}

/// The decompressor's output for the stream that starts at flat offset
/// `off`, or `None` when the offset is outside the image or the stream is
/// malformed.
pub open spec fn spec_decomp_at(rom: Seq<u8>, off: int) -> Option<Seq<u8>> {
    if 0 <= off <= rom.len() {
        spec_decompress(rom.subrange(off, rom.len() as int))
    } else {
        None
    }
}

/// A level-data pointer decodes: valid bank, decompresses, consistent size.
pub open spec fn level_loadable(rom: Seq<u8>, k: u32) -> bool {
    &&& spec_banked_valid(k as int)
    &&& spec_decomp_at(rom, spec_snes_to_rom(k as int)) matches Some(d) && spec_room_data_ok(d)
}

/// The cached level grid at key `k` is the decoding of the cartridge bytes.
pub open spec fn level_binding(rom: Seq<u8>, k: u32, rd: RoomData) -> bool {
    &&& level_loadable(rom, k)
    &&& room_data_matches(spec_decomp_at(rom, spec_snes_to_rom(k as int))->Some_0, rd)
}

/// A placement-list pointer decodes.
pub open spec fn plm_loadable(rom: Seq<u8>, p: u16) -> bool {
    &&& p >= 0x8000
    &&& spec_plm_list(rom, spec_rom_addr(0x8f, p as int)) is Some
}

/// The cached placement list at key `p` is the decoding of the cartridge
/// bytes.
pub open spec fn plm_binding(rom: Seq<u8>, p: u16, l: Seq<PlmPopulation>) -> bool {
    &&& p >= 0x8000
    &&& spec_plm_list(rom, spec_rom_addr(0x8f, p as int)) == Some(l)
}

/// A tile or tile-table pointer decompresses.
pub open spec fn tiles_loadable(rom: Seq<u8>, k: u32) -> bool {
    &&& spec_banked_valid(k as int)
    &&& spec_decomp_at(rom, spec_snes_to_rom(k as int)) is Some
}

/// The cached tile blob at key `k` is the de-planarised decompression of the
/// cartridge bytes, truncated to whole tiles.
pub open spec fn tiles_binding(rom: Seq<u8>, k: u32, t: Tiles) -> bool {
    &&& tiles_loadable(rom, k)
    &&& {
        let d = spec_decomp_at(rom, spec_snes_to_rom(k as int))->Some_0;
        &&& t.data@.len() == d.len() / 32 * 32
        &&& t.wf()
        &&& forall|t0: int| 0 <= t0 < d.len() / 32 ==> #[trigger] tile_pixels_match(d, t.data@, t0)
    }
}

/// The cached tile table at key `k` is the decoding of the cartridge bytes:
/// one entry per 16-bit word of the decompression.
pub open spec fn table_binding(rom: Seq<u8>, k: u32, t: TileTable) -> bool {
    &&& tiles_loadable(rom, k)
    &&& {
        let d = spec_decomp_at(rom, spec_snes_to_rom(k as int))->Some_0;
        &&& t.entries@.len() == d.len() / 2
        &&& forall|i: int|
            0 <= i < d.len() / 2 ==> t.entries@[i] == TileTableEntry::spec_from_u16(
                le16(d, 2 * i) as u16,
            )
    }
}

/// A palette pointer decompresses to at least 128 colour words.
pub open spec fn palette_loadable(rom: Seq<u8>, k: u32) -> bool {
    &&& spec_banked_valid(k as int)
    &&& spec_decomp_at(rom, spec_snes_to_rom(k as int)) matches Some(d) && d.len() >= 256
}

/// The cached palette at key `k` is the decoding of the first 128 BGR5 words
/// of the decompression of the cartridge bytes.
pub open spec fn palette_binding(rom: Seq<u8>, k: u32, p: Palette) -> bool {
    &&& palette_loadable(rom, k)
    &&& p.wf()
    &&& p.upshifted()
    &&& {
        let d = spec_decomp_at(rom, spec_snes_to_rom(k as int))->Some_0;
        forall|i: int|
            0 <= i < 128 ==> p.colors@[i] == Color::spec_from_u16(le16(d, 2 * i) as u16)
    }
}

/// The number of doors the level data behind pointer `k` implies.
pub open spec fn spec_level_num_doors(rom: Seq<u8>, k: u32) -> int {
    spec_num_doors(spec_decomp_at(rom, spec_snes_to_rom(k as int))->Some_0)
}

/// Largest door count over the level data of the first `i` states.
pub open spec fn spec_room_doors_count(rom: Seq<u8>, states: Seq<State>, i: int) -> int
    decreases i,
{
    if i <= 0 {
        0
    } else {
        let prev = spec_room_doors_count(rom, states, i - 1);
        let nd = spec_level_num_doors(rom, states[i - 1].data.level_data);
        if nd > prev {
            nd
        } else {
            prev
        }
    }
}

/// The doors parsed from the first `nd` slots of the door list at
/// `list_off`, skipping those whose destination pointer is zero; `None` when
/// a slot or a door record does not parse.
pub open spec fn spec_door_list(rom: Seq<u8>, list_off: int, nd: int) -> Option<Seq<DoorData>>
    decreases nd,
{
    if nd <= 0 {
        Some(Seq::empty())
    } else {
        match spec_door_list(rom, list_off, nd - 1) {
            None => None,
            Some(pre) => {
                if list_off < 0 || list_off + 2 * nd > rom.len() {
                    None
                } else {
                    let dp = le16(rom, list_off + 2 * (nd - 1));
                    if dp < 0x8000 {
                        None
                    } else {
                        let doff = spec_rom_addr(0x83, dp);
                        if doff + 12 > rom.len() {
                            None
                        } else {
                            let d = spec_door_data(rom, doff);
                            if d.dest_room_ptr == 0 {
                                Some(pre)
                            } else {
                                Some(pre.push(d))
                            }
                        }
                    }
                }
            },
        }
    }
}

/// The room value at key `p` is the full decoding of the cartridge bytes:
/// header, state list, and filtered door list.
pub open spec fn room_matches(rom: Seq<u8>, p: u16, m: RoomMdb) -> bool {
    let off = spec_rom_addr(0x8f, p as int);
    &&& p >= 0x8000
    &&& room_header_ok(rom, off)
    &&& room_header_matches(rom, off, m)
    &&& spec_states(rom, off + 11) == Some(m.states@)
    &&& m.door_list_ptr >= 0x8000
    &&& spec_door_list(
        rom,
        spec_rom_addr(0x8f, m.door_list_ptr as int),
        spec_room_doors_count(rom, m.states@, m.states@.len() as int),
    ) == Some(m.door_list@)
}

/// Every entity of `sm` is bound to the cartridge bytes it was parsed from.
pub open spec fn sm_bound_to_rom(rom: Seq<u8>, sm: SuperMetroidData) -> bool {
    &&& forall|k: u32|
        #[trigger] sm.level_data@.contains_key(k) ==> level_binding(rom, k, sm.level_data@[k])
    &&& forall|p: u16|
        #[trigger] sm.plm_population@.contains_key(p) ==> plm_binding(
            rom,
            p,
            sm.plm_population@[p]@,
        )
    &&& forall|p: u16|
        #[trigger] sm.room_mdb@.contains_key(p) ==> room_matches(rom, p, sm.room_mdb@[p])
    &&& forall|k: u32| #[trigger] sm.tiles@.contains_key(k) ==> tiles_binding(rom, k, sm.tiles@[k])
    &&& forall|k: u32|
        #[trigger] sm.tile_tables@.contains_key(k) ==> table_binding(rom, k, sm.tile_tables@[k])
    &&& forall|k: u32|
        #[trigger] sm.palettes@.contains_key(k) ==> palette_binding(rom, k, sm.palettes@[k])
    &&& forall|i: int|
        0 <= i < sm.tile_sets@.len() ==> Some(#[trigger] sm.tile_sets@[i]) == spec_tileset_entry(
            rom,
            i,
        )
}

/// The 9-byte tileset entry behind slot `i` of the tileset pointer table.
pub open spec fn spec_tileset_entry(rom: Seq<u8>, i: int) -> Option<TileSetEntry> {
    if i < 0 || TILESET_POINTER_TABLE + 2 * i + 2 > rom.len() {
        None
    } else {
        let p = le16(rom, TILESET_POINTER_TABLE + 2 * i);
        if p < 0x8000 {
            None
        } else {
            let off = spec_rom_addr(0x8f, p);
            if off + 9 > rom.len() {
                None
            } else {
                Some(
                    TileSetEntry {
                        tile_table_ptr: le24(rom, off) as u32,
                        tiles_ptr: le24(rom, off + 3) as u32,
                        palette_ptr: le24(rom, off + 6) as u32,
                    },
                )
            }
        }
    }
}

/// The room at pointer `p` fully decodes: the header, the state list, every
/// state's level data and placement list, and the door list the level data
/// implies.
#[verifier::opaque]
pub open spec fn spec_room_ok(rom: Seq<u8>, p: u16) -> bool {
    let off = spec_rom_addr(0x8f, p as int);
    &&& p >= 0x8000
    &&& room_header_ok(rom, off)
    &&& spec_states(rom, off + 11) is Some
    &&& {
        let states = spec_states(rom, off + 11)->Some_0;
        &&& forall|j: int|
            0 <= j < states.len() ==> level_loadable(rom, (#[trigger] states[j]).data.level_data)
                && plm_loadable(rom, states[j].data.plm_ptr)
        &&& le16(rom, off + 9) >= 0x8000
        &&& spec_door_list(
            rom,
            spec_rom_addr(0x8f, le16(rom, off + 9)),
            spec_room_doors_count(rom, states, states.len() as int),
        ) is Some
    }
}

/// `q` is the destination of one of the doors of the room at `p` (doors
/// with a zero destination are never kept).
pub open spec fn spec_room_dest(rom: Seq<u8>, p: u16, q: u16) -> bool {
    &&& spec_room_ok(rom, p)
    &&& {
        let off = spec_rom_addr(0x8f, p as int);
        let states = spec_states(rom, off + 11)->Some_0;
        let doors = spec_door_list(
            rom,
            spec_rom_addr(0x8f, le16(rom, off + 9)),
            spec_room_doors_count(rom, states, states.len() as int),
        )->Some_0;
        exists|j: int| 0 <= j < doors.len() && (#[trigger] doors[j]).dest_room_ptr == q
    }
}

/// `q` is visited by the traversal within `n` door steps: it is the seed, or
/// a door destination of a visited room that decodes.
pub open spec fn spec_reachable_n(rom: Seq<u8>, q: u16, n: nat) -> bool
    decreases n,
{
    if q == 0x91f8 {
        true
    } else if n == 0 {
        false
    } else {
        exists|p: u16|
            spec_reachable_n(rom, p, (n - 1) as nat) && #[trigger] spec_room_dest(rom, p, q)
    }
}

/// `q` is a room pointer the traversal visits.
pub open spec fn spec_reachable(rom: Seq<u8>, q: u16) -> bool {
    exists|n: nat| spec_reachable_n(rom, q, n)
}

/// Every room the traversal visits decodes.
pub open spec fn spec_rooms_loadable(rom: Seq<u8>) -> bool {
    forall|q: u16| #[trigger] spec_reachable(rom, q) ==> spec_room_ok(rom, q)
}

/// All 29 tileset entries parse, every artifact they name decompresses (the
/// palettes to at least 128 colour words), and so do the fixed common tiles
/// and tile table.
pub open spec fn spec_artifacts_loadable(rom: Seq<u8>) -> bool {
    &&& forall|i: int| 0 <= i < 29 ==> #[trigger] spec_tileset_entry(rom, i) is Some
    &&& forall|i: int|
        0 <= i < 29 ==> {
            let e = (#[trigger] spec_tileset_entry(rom, i))->Some_0;
            &&& tiles_loadable(rom, e.tiles_ptr)
            &&& tiles_loadable(rom, e.tile_table_ptr)
            &&& palette_loadable(rom, e.palette_ptr)
        }
    &&& tiles_loadable(rom, spec_snes(CRE_TILES as int) as u32)
    &&& tiles_loadable(rom, spec_snes(CRE_TILE_TABLE as int) as u32)
}

/// A cartridge image the loader accepts: every visited room and every named
/// artifact decodes.
pub open spec fn spec_loadable(rom: Seq<u8>) -> bool {
    spec_rooms_loadable(rom) && spec_artifacts_loadable(rom)
}

/// A door step from a visited room visits its destination.
proof fn lemma_reachable_step(rom: Seq<u8>, p: u16, q: u16)
    requires
        spec_reachable(rom, p),
        spec_room_dest(rom, p, q),
    ensures
        spec_reachable(rom, q),
{
    let n = choose|n: nat| spec_reachable_n(rom, p, n);
    assert(spec_reachable_n(rom, q, n + 1));
}

/// Every visited room pointer is a key of a model that holds the seed, whose
/// rooms decode from the bytes, and whose doors are resolved.
proof fn lemma_reachable_in_map(rom: Seq<u8>, sm: SuperMetroidData, q: u16, n: nat)
    requires
        sm.room_mdb@.contains_key(0x91f8u16),
        forall|p: u16|
            #[trigger] sm.room_mdb@.contains_key(p) ==> room_matches(rom, p, sm.room_mdb@[p]),
        sm.doors_resolved(),
        spec_reachable_n(rom, q, n),
    ensures
        sm.room_mdb@.contains_key(q),
    decreases n,
{
    if q != 0x91f8 {
        let p = choose|p: u16|
            spec_reachable_n(rom, p, (n - 1) as nat) && #[trigger] spec_room_dest(rom, p, q);
        lemma_reachable_in_map(rom, sm, p, (n - 1) as nat);
        let room = sm.room_mdb@[p];
        let off = spec_rom_addr(0x8f, p as int);
        assert(room_matches(rom, p, room));
        assert(room.door_list_ptr == le16(rom, off + 9));
        assert(room.states@ == spec_states(rom, off + 11)->Some_0);
        let doors = spec_door_list(
            rom,
            spec_rom_addr(0x8f, le16(rom, off + 9)),
            spec_room_doors_count(
                rom,
                spec_states(rom, off + 11)->Some_0,
                spec_states(rom, off + 11)->Some_0.len() as int,
            ),
        )->Some_0;
        assert(doors == room.door_list@);
        let j = choose|j: int| 0 <= j < doors.len() && (#[trigger] doors[j]).dest_room_ptr == q;
        assert(room.door_list@[j].dest_room_ptr == q);
    }
}

/// A map with 16-bit keys has at most 0x10000 entries.
proof fn lemma_u16_map_len<V>(m: Map<u16, V>)
    requires
        m.dom().finite(),
    ensures
        m.len() <= 0x10000,
{
    let f = |k: u16| k as int;
    let si = m.dom().map(f);
    assert(injective_on(f, m.dom()));
    lemma_map_size(m.dom(), si, f);
    lemma_int_range(0, 0x10000);
    assert forall|x: int| #[trigger] si.contains(x) implies set_int_range(0, 0x10000).contains(
        x,
    ) by {
        let k = choose|k: u16| m.dom().contains(k) && f(k) == x;
        assert(0 <= k < 0x10000);
    }
    lemma_len_subset(si, set_int_range(0, 0x10000));
}

/// A pushed sequence keeps what the old one held.
proof fn lemma_push_contains<T>(s: Seq<T>, x: T, y: T)
    requires
        s.contains(y),
    ensures
        s.push(x).contains(y),
{
    let i = choose|i: int| 0 <= i < s.len() && s[i] == y;
    assert(s.push(x)[i] == y);
}

/// Popping one value keeps every other value the old sequence held.
proof fn lemma_pop_contains<T>(s: Seq<T>, y: T)
    requires
        s.len() > 0,
        s.contains(y),
        y != s[s.len() - 1],
    ensures
        s.subrange(0, s.len() - 1).contains(y),
{
    let i = choose|i: int| 0 <= i < s.len() && s[i] == y;
    assert(s.subrange(0, s.len() - 1)[i] == y);
}

/// Every door of every loaded room of `sm` leads to a loaded room or to one
/// that `frontier` still holds.
pub open spec fn sm_rooms_closed(sm: SuperMetroidData, frontier: Seq<u16>) -> bool {
    forall|p: u16|
        #[trigger] sm.room_mdb@.contains_key(p) ==> {
            let room = sm.room_mdb@[p];
            forall|j: int|
                0 <= j < room.door_list@.len() ==> {
                    &&& (#[trigger] room.door_list@[j]).dest_room_ptr != 0
                    &&& (sm.room_mdb@.contains_key(room.door_list@[j].dest_room_ptr)
                        || frontier.contains(room.door_list@[j].dest_room_ptr))
                }
        }
}

/// A value found in a pushed sequence is the pushed value or was already
/// there.
proof fn lemma_push_contains_inv<T>(s: Seq<T>, x: T, y: T)
    requires
        s.push(x).contains(y),
    ensures
        y == x || s.contains(y),
{
    let i = choose|i: int| 0 <= i < s.push(x).len() && s.push(x)[i] == y;
    if i < s.len() {
        assert(s[i] == y);
    }
}

/// Popping a room pointer that is already loaded keeps the doors closed.
proof fn lemma_bfs_skip(sm: SuperMetroidData, f_pre: Seq<u16>, p: u16)
    requires
        sm_rooms_closed(sm, f_pre),
        f_pre.len() > 0,
        f_pre[f_pre.len() - 1] == p,
        sm.room_mdb@.contains_key(p),
    ensures
        sm_rooms_closed(sm, f_pre.subrange(0, f_pre.len() - 1)),
{
    let f2 = f_pre.subrange(0, f_pre.len() - 1);
    assert forall|q: u16| #[trigger] sm.room_mdb@.contains_key(q) implies {
        let room = sm.room_mdb@[q];
        forall|j: int|
            0 <= j < room.door_list@.len() ==> {
                &&& (#[trigger] room.door_list@[j]).dest_room_ptr != 0
                &&& (sm.room_mdb@.contains_key(room.door_list@[j].dest_room_ptr) || f2.contains(
                    room.door_list@[j].dest_room_ptr,
                ))
            }
    } by {
        let room = sm.room_mdb@[q];
        assert forall|j: int| 0 <= j < room.door_list@.len() implies {
            &&& (#[trigger] room.door_list@[j]).dest_room_ptr != 0
            &&& (sm.room_mdb@.contains_key(room.door_list@[j].dest_room_ptr) || f2.contains(
                room.door_list@[j].dest_room_ptr,
            ))
        } by {
            let dest = room.door_list@[j].dest_room_ptr;
            if !sm.room_mdb@.contains_key(dest) {
                assert(f_pre.contains(dest));
                assert(dest != p);
                lemma_pop_contains(f_pre, dest);
            }
        }
    }
}

/// A room whose header, states and door list decode, and whose states'
/// pointers are all cached in a model bound to the bytes, decodes in full.
proof fn lemma_room_ok_assembled(rom: Seq<u8>, p: u16, m: RoomMdb, sm: SuperMetroidData)
    requires
        p >= 0x8000,
        room_header_ok(rom, spec_rom_addr(0x8f, p as int)),
        room_header_matches(rom, spec_rom_addr(0x8f, p as int), m),
        spec_states(rom, spec_rom_addr(0x8f, p as int) + 11) == Some(m.states@),
        m.door_list_ptr >= 0x8000,
        spec_door_list(
            rom,
            spec_rom_addr(0x8f, m.door_list_ptr as int),
            spec_room_doors_count(rom, m.states@, m.states@.len() as int),
        ) is Some,
        sm_bound_to_rom(rom, sm),
        forall|j: int|
            0 <= j < m.states@.len() ==> sm.level_data@.contains_key(
                (#[trigger] m.states@[j]).data.level_data,
            ) && sm.plm_population@.contains_key(m.states@[j].data.plm_ptr),
    ensures
        spec_room_ok(rom, p),
{
    reveal(spec_room_ok);
    let off = spec_rom_addr(0x8f, p as int);
    assert(m.door_list_ptr == le16(rom, off + 9));
    assert forall|j: int|
        0 <= j < spec_states(rom, off + 11)->Some_0.len() implies level_loadable(
        rom,
        (#[trigger] spec_states(rom, off + 11)->Some_0[j]).data.level_data,
    ) && plm_loadable(rom, spec_states(rom, off + 11)->Some_0[j].data.plm_ptr) by {
        assert(spec_states(rom, off + 11)->Some_0[j] == m.states@[j]);
        let k = m.states@[j].data.level_data;
        assert(sm.level_data@.contains_key(k));
        assert(level_binding(rom, k, sm.level_data@[k]));
        let q = m.states@[j].data.plm_ptr;
        assert(sm.plm_population@.contains_key(q));
        assert(plm_binding(rom, q, sm.plm_population@[q]@));
    }
}

/// Each kept door's destination is a spec-level door destination of the
/// room.
proof fn lemma_room_dest_of(rom: Seq<u8>, p: u16, m: RoomMdb, y: u16)
    requires
        spec_room_ok(rom, p),
        room_header_matches(rom, spec_rom_addr(0x8f, p as int), m),
        spec_states(rom, spec_rom_addr(0x8f, p as int) + 11) == Some(m.states@),
        m.door_list_ptr >= 0x8000,
        spec_door_list(
            rom,
            spec_rom_addr(0x8f, m.door_list_ptr as int),
            spec_room_doors_count(rom, m.states@, m.states@.len() as int),
        ) == Some(m.door_list@),
        exists|j: int|
            0 <= j < m.door_list@.len() && (#[trigger] m.door_list@[j]).dest_room_ptr == y,
    ensures
        spec_room_dest(rom, p, y),
{
    reveal(spec_room_ok);
    let off = spec_rom_addr(0x8f, p as int);
    let doors = spec_door_list(
        rom,
        spec_rom_addr(0x8f, le16(rom, off + 9)),
        spec_room_doors_count(
            rom,
            spec_states(rom, off + 11)->Some_0,
            spec_states(rom, off + 11)->Some_0.len() as int,
        ),
    )->Some_0;
    assert(doors == m.door_list@);
    let j = choose|j: int|
        0 <= j < m.door_list@.len() && (#[trigger] m.door_list@[j]).dest_room_ptr == y;
    assert(doors[j].dest_room_ptr == y);
}

/// In a model that holds the seed, is bound to the bytes, has its states
/// cached and its doors resolved, every visited room is a key and decodes.
proof fn lemma_model_rooms_loadable(rom: Seq<u8>, sm: SuperMetroidData)
    requires
        sm.room_mdb@.contains_key(0x91f8u16),
        sm_bound_to_rom(rom, sm),
        sm.states_cached(),
        sm.doors_resolved(),
    ensures
        spec_rooms_loadable(rom),
        forall|q: u16| #[trigger] spec_reachable(rom, q) ==> sm.room_mdb@.contains_key(q),
{
    assert forall|q: u16| #[trigger] spec_reachable(rom, q) implies sm.room_mdb@.contains_key(
        q,
    ) by {
        let n = choose|n: nat| spec_reachable_n(rom, q, n);
        lemma_reachable_in_map(rom, sm, q, n);
    }
    assert forall|q: u16| #[trigger] spec_reachable(rom, q) implies spec_room_ok(rom, q) by {
        assert(sm.room_mdb@.contains_key(q));
        let room = sm.room_mdb@[q];
        assert(room_matches(rom, q, room));
        assert forall|j: int|
            0 <= j < room.states@.len() implies sm.level_data@.contains_key(
            (#[trigger] room.states@[j]).data.level_data,
        ) && sm.plm_population@.contains_key(room.states@[j].data.plm_ptr) by {}
        lemma_room_ok_assembled(rom, q, room, sm);
    }
}

/// The level-data and placement caches hold exactly the pointers the
/// loaded rooms' states reference.
#[verifier::opaque]
pub open spec fn sm_level_keys_referenced(sm: SuperMetroidData) -> bool {
    &&& forall|k: u32|
        #[trigger] sm.level_data@.contains_key(k) <==> (exists|p: u16, j: int|
            sm.room_mdb@.contains_key(p) && 0 <= j < sm.room_mdb@[p].states@.len() && (
            #[trigger] sm.room_mdb@[p].states@[j]).data.level_data == k)
    &&& forall|q2: u16|
        #[trigger] sm.plm_population@.contains_key(q2) <==> (exists|p: u16, j: int|
            sm.room_mdb@.contains_key(p) && 0 <= j < sm.room_mdb@[p].states@.len() && (
            #[trigger] sm.room_mdb@[p].states@[j]).data.plm_ptr == q2)
}

/// Which pointers the caches hold depends only on the three maps involved.
proof fn lemma_keys_referenced_congruence(sm1: SuperMetroidData, sm2: SuperMetroidData)
    requires
        sm_level_keys_referenced(sm1),
        sm1.room_mdb@ == sm2.room_mdb@,
        sm1.level_data@ == sm2.level_data@,
        sm1.plm_population@ == sm2.plm_population@,
    ensures
        sm_level_keys_referenced(sm2),
{
    reveal(sm_level_keys_referenced);
}

/// Inserting a room whose state pointers are exactly what the caches gained
/// keeps the caches referenced.
proof fn lemma_keys_referenced_insert(
    pre: SuperMetroidData,
    post: SuperMetroidData,
    p: u16,
    m: RoomMdb,
)
    requires
        sm_level_keys_referenced(pre),
        !pre.room_mdb@.contains_key(p),
        post.room_mdb@ == pre.room_mdb@.insert(p, m),
        forall|k: u32|
            #[trigger] post.level_data@.contains_key(k) <==> (pre.level_data@.contains_key(k) || (
            exists|j: int|
                0 <= j < m.states@.len() && (#[trigger] m.states@[j]).data.level_data == k)),
        forall|q2: u16|
            #[trigger] post.plm_population@.contains_key(q2) <==> (
            pre.plm_population@.contains_key(q2) || (exists|j: int|
                0 <= j < m.states@.len() && (#[trigger] m.states@[j]).data.plm_ptr == q2)),
    ensures
        sm_level_keys_referenced(post),
{
    reveal(sm_level_keys_referenced);
    assert forall|k: u32| #[trigger] post.level_data@.contains_key(k) <==> (exists|p2: u16, j: int|
        post.room_mdb@.contains_key(p2) && 0 <= j < post.room_mdb@[p2].states@.len() && (
        #[trigger] post.room_mdb@[p2].states@[j]).data.level_data == k) by {
        if post.level_data@.contains_key(k) {
            if pre.level_data@.contains_key(k) {
                let (p2, j) = choose|p2: u16, j: int|
                    pre.room_mdb@.contains_key(p2) && 0 <= j < pre.room_mdb@[p2].states@.len() && (
                    #[trigger] pre.room_mdb@[p2].states@[j]).data.level_data == k;
                assert(post.room_mdb@[p2] == pre.room_mdb@[p2]);
                assert((post.room_mdb@[p2].states@[j]).data.level_data == k);
            } else {
                let j = choose|j: int|
                    0 <= j < m.states@.len() && (#[trigger] m.states@[j]).data.level_data == k;
                assert(post.room_mdb@[p] == m);
                assert((post.room_mdb@[p].states@[j]).data.level_data == k);
            }
        } else {
            if exists|p2: u16, j: int|
                post.room_mdb@.contains_key(p2) && 0 <= j < post.room_mdb@[p2].states@.len() && (
                #[trigger] post.room_mdb@[p2].states@[j]).data.level_data == k {
                let (p2, j) = choose|p2: u16, j: int|
                    post.room_mdb@.contains_key(p2) && 0 <= j
                        < post.room_mdb@[p2].states@.len() && (
                    #[trigger] post.room_mdb@[p2].states@[j]).data.level_data == k;
                if p2 == p {
                    assert(m.states@[j].data.level_data == k);
                } else {
                    assert(pre.room_mdb@.contains_key(p2));
                    assert((pre.room_mdb@[p2].states@[j]).data.level_data == k);
                    assert(pre.level_data@.contains_key(k));
                }
                assert(false);
            }
        }
    }
    assert forall|q2: u16| #[trigger] post.plm_population@.contains_key(q2) <==> (exists|
        p2: u16,
        j: int,
    |
        post.room_mdb@.contains_key(p2) && 0 <= j < post.room_mdb@[p2].states@.len() && (
        #[trigger] post.room_mdb@[p2].states@[j]).data.plm_ptr == q2) by {
        if post.plm_population@.contains_key(q2) {
            if pre.plm_population@.contains_key(q2) {
                let (p2, j) = choose|p2: u16, j: int|
                    pre.room_mdb@.contains_key(p2) && 0 <= j < pre.room_mdb@[p2].states@.len() && (
                    #[trigger] pre.room_mdb@[p2].states@[j]).data.plm_ptr == q2;
                assert(post.room_mdb@[p2] == pre.room_mdb@[p2]);
                assert((post.room_mdb@[p2].states@[j]).data.plm_ptr == q2);
            } else {
                let j = choose|j: int|
                    0 <= j < m.states@.len() && (#[trigger] m.states@[j]).data.plm_ptr == q2;
                assert(post.room_mdb@[p] == m);
                assert((post.room_mdb@[p].states@[j]).data.plm_ptr == q2);
            }
        } else {
            if exists|p2: u16, j: int|
                post.room_mdb@.contains_key(p2) && 0 <= j < post.room_mdb@[p2].states@.len() && (
                #[trigger] post.room_mdb@[p2].states@[j]).data.plm_ptr == q2 {
                let (p2, j) = choose|p2: u16, j: int|
                    post.room_mdb@.contains_key(p2) && 0 <= j
                        < post.room_mdb@[p2].states@.len() && (
                    #[trigger] post.room_mdb@[p2].states@[j]).data.plm_ptr == q2;
                if p2 == p {
                    assert(m.states@[j].data.plm_ptr == q2);
                } else {
                    assert(pre.room_mdb@.contains_key(p2));
                    assert((pre.room_mdb@[p2].states@[j]).data.plm_ptr == q2);
                    assert(pre.plm_population@.contains_key(q2));
                }
                assert(false);
            }
        }
    }
}

/// Door closure depends only on the room map and the frontier.
proof fn lemma_rooms_closed_congruence(sm1: SuperMetroidData, sm2: SuperMetroidData, f: Seq<u16>)
    requires
        sm1.room_mdb@ == sm2.room_mdb@,
        sm_rooms_closed(sm1, f),
    ensures
        sm_rooms_closed(sm2, f),
{
    assert forall|p: u16| #[trigger] sm2.room_mdb@.contains_key(p) implies {
        let room = sm2.room_mdb@[p];
        forall|j: int|
            0 <= j < room.door_list@.len() ==> {
                &&& (#[trigger] room.door_list@[j]).dest_room_ptr != 0
                &&& (sm2.room_mdb@.contains_key(room.door_list@[j].dest_room_ptr) || f.contains(
                    room.door_list@[j].dest_room_ptr,
                ))
            }
    } by {
        assert(sm1.room_mdb@.contains_key(p));
        assert(sm1.room_mdb@[p] == sm2.room_mdb@[p]);
    }
}

/// Inserting a fully decoded room whose states are cached and whose doors
/// are closed preserves the loader's invariant.
proof fn lemma_bfs_insert(
    rom: Seq<u8>,
    mid: SuperMetroidData,
    f_pop: Seq<u16>,
    f_fin: Seq<u16>,
    p: u16,
    m: RoomMdb,
    sm2: SuperMetroidData,
)
    requires
        sm_bound_to_rom(rom, mid),
        mid.states_cached(),
        sm_rooms_closed(mid, f_pop.push(p)),
        forall|y: u16| f_pop.contains(y) ==> #[trigger] f_fin.contains(y),
        room_matches(rom, p, m),
        forall|i: int|
            0 <= i < m.states@.len() ==> {
                &&& mid.level_data@.contains_key((#[trigger] m.states@[i]).data.level_data)
                &&& mid.plm_population@.contains_key(m.states@[i].data.plm_ptr)
            },
        forall|j: int|
            0 <= j < m.door_list@.len() ==> {
                &&& (#[trigger] m.door_list@[j]).dest_room_ptr != 0
                &&& (mid.room_mdb@.contains_key(m.door_list@[j].dest_room_ptr) || f_fin.contains(
                    m.door_list@[j].dest_room_ptr,
                ))
            },
        sm2.room_mdb@ == mid.room_mdb@.insert(p, m),
        sm2.level_data@ == mid.level_data@,
        sm2.plm_population@ == mid.plm_population@,
        sm2.tiles@ == mid.tiles@,
        sm2.tile_tables@ == mid.tile_tables@,
        sm2.palettes@ == mid.palettes@,
        sm2.tile_sets@ == mid.tile_sets@,
    ensures
        sm_bound_to_rom(rom, sm2),
        sm2.states_cached(),
        sm_rooms_closed(sm2, f_fin),
{
    assert forall|q: u16| #[trigger] sm2.room_mdb@.contains_key(q) implies room_matches(
        rom,
        q,
        sm2.room_mdb@[q],
    ) by {
        if q != p {
            assert(mid.room_mdb@.contains_key(q));
            assert(sm2.room_mdb@[q] == mid.room_mdb@[q]);
        }
    }
    assert forall|q: u16| #[trigger] sm2.room_mdb@.contains_key(q) implies {
        let room = sm2.room_mdb@[q];
        forall|i: int|
            0 <= i < room.states@.len() ==> {
                &&& sm2.level_data@.contains_key((#[trigger] room.states@[i]).data.level_data)
                &&& sm2.plm_population@.contains_key(room.states@[i].data.plm_ptr)
            }
    } by {
        if q != p {
            assert(mid.room_mdb@.contains_key(q));
            assert(sm2.room_mdb@[q] == mid.room_mdb@[q]);
        } else {
            assert(sm2.room_mdb@[q] == m);
        }
    }
    assert forall|q: u16| #[trigger] sm2.room_mdb@.contains_key(q) implies {
        let room = sm2.room_mdb@[q];
        forall|j: int|
            0 <= j < room.door_list@.len() ==> {
                &&& (#[trigger] room.door_list@[j]).dest_room_ptr != 0
                &&& (sm2.room_mdb@.contains_key(room.door_list@[j].dest_room_ptr)
                    || f_fin.contains(room.door_list@[j].dest_room_ptr))
            }
    } by {
        let room = sm2.room_mdb@[q];
        if q == p {
            assert(room == m);
        } else {
            assert(mid.room_mdb@.contains_key(q));
            assert(room == mid.room_mdb@[q]);
            assert forall|j: int| 0 <= j < room.door_list@.len() implies {
                &&& (#[trigger] room.door_list@[j]).dest_room_ptr != 0
                &&& (sm2.room_mdb@.contains_key(room.door_list@[j].dest_room_ptr)
                    || f_fin.contains(room.door_list@[j].dest_room_ptr))
            } by {
                let dest = room.door_list@[j].dest_room_ptr;
                assert(mid.room_mdb@.contains_key(dest) || f_pop.push(p).contains(dest));
                if !mid.room_mdb@.contains_key(dest) {
                    lemma_push_contains_inv(f_pop, p, dest);
                    if dest == p {
                        assert(sm2.room_mdb@.contains_key(dest));
                    } else {
                        assert(f_pop.contains(dest));
                        assert(f_fin.contains(dest));
                    }
                }
            }
        }
    }
}

/// The breadth-first loader: the cartridge bytes, the frontier of room
/// pointers still to visit, and the model built so far.
pub struct Loader<'a> {
    rom_data: &'a [u8],
    rooms_to_check: Vec<u16>,
    sm: SuperMetroidData,
}

impl<'a> Loader<'a> {
    /// The cartridge bytes the loader reads.
    pub closed spec fn rom(self) -> Seq<u8> {
        self.rom_data@
    }

    /// The room pointers still to visit.
    pub closed spec fn frontier(self) -> Seq<u16> {
        self.rooms_to_check@
    }

    /// The model built so far.
    pub closed spec fn model(self) -> SuperMetroidData {
        self.sm
    }

    /// Every door of every loaded room leads to a loaded room or to one the
    /// frontier still holds.
    pub open spec fn rooms_closed(self) -> bool {
        sm_rooms_closed(self.model(), self.frontier())
    }

    /// Everything loaded so far is bound to the cartridge bytes and loaded
    /// rooms have their states cached.
    pub open spec fn inv_caches(self) -> bool {
        &&& sm_bound_to_rom(self.rom(), self.model())
        &&& self.model().states_cached()
    }

    /// The loader's invariant: the caches are bound to the cartridge bytes
    /// and the doors of loaded rooms are closed over the model and the
    /// frontier.
    pub open spec fn inv(self) -> bool {
        &&& self.inv_caches()
        &&& self.rooms_closed()
    }

    /// A fresh loader: an empty model and the seed room on the frontier.
    pub fn new(rom_data: &'a [u8]) -> (r: Loader<'a>)
        ensures
            r.rom() == rom_data@,
            r.frontier() == seq![0x91f8u16],
            r.model().room_mdb@ == Map::<u16, RoomMdb>::empty(),
            r.model().level_data@ == Map::<u32, RoomData>::empty(),
            r.model().plm_population@ == Map::<u16, Vec<PlmPopulation>>::empty(),
            r.model().tiles@ == Map::<u32, Tiles>::empty(),
            r.model().tile_tables@ == Map::<u32, TileTable>::empty(),
            r.model().palettes@ == Map::<u32, Palette>::empty(),
            r.model().tile_sets@ == Seq::<TileSetEntry>::empty(),
            r.inv(),
    {
        let mut rooms_to_check: Vec<u16> = Vec::new();
        let seed = rom_addr_to_snes16(ROOM_MDB_START);
        proof {
            assert(spec_snes16(ROOM_MDB_START as int) == 0x91f8);
        }
        rooms_to_check.push(seed);
        let loader = Loader {
            rom_data,
            rooms_to_check,
            sm: SuperMetroidData {
                room_mdb: HashMap::new(),
                level_data: HashMap::new(),
                plm_population: HashMap::new(),
                tile_sets: Vec::new(),
                tiles: HashMap::new(),
                tile_tables: HashMap::new(),
                palettes: HashMap::new(),
            },
        };
        proof {
            assert(loader.frontier() =~= seq![0x91f8u16]);
        }
        loader
    }

    /// Decompress the stream at flat offset `off` of the cartridge.
    fn decompress_at(&self, off: usize) -> (res: Result<Vec<u8>, SmError>)
        ensures
            match res {
                Ok(d) => spec_decomp_at(self.rom(), off as int) == Some(d@),
                Err(e) => spec_decomp_at(self.rom(), off as int) is None && (e is ShortRead
                    || e is MalformedCompression),
            },
    {
        if off > self.rom_data.len() {
            return Err(SmError::ShortRead { needed: off, got: self.rom_data.len() });
        }
        let tail = slice_subrange(self.rom_data, off, self.rom_data.len());
        decompress(tail)
    }

    /// Ensure the level data behind `level_data_ptr` is cached, decompressing
    /// and decoding it if it is not.  Succeeds exactly when it is already
    /// cached or decodes.
    fn get_or_load_level_data(&mut self, level_data_ptr: u32) -> (res: Result<(), SmError>)
        requires
            old(self).inv_caches(),
        ensures
            final(self).inv_caches(),
            final(self).rom() == old(self).rom(),
            final(self).frontier() == old(self).frontier(),
            final(self).model().room_mdb@ == old(self).model().room_mdb@,
            final(self).model().plm_population@ == old(self).model().plm_population@,
            final(self).model().tiles@ == old(self).model().tiles@,
            final(self).model().tile_tables@ == old(self).model().tile_tables@,
            final(self).model().palettes@ == old(self).model().palettes@,
            final(self).model().tile_sets@ == old(self).model().tile_sets@,
            old(self).model().level_data@.submap_of(final(self).model().level_data@),
            old(self).model().level_data@.contains_key(level_data_ptr) ==> final(self).model().level_data@ == old(self).model().level_data@,
            res is Ok <==> old(self).model().level_data@.contains_key(level_data_ptr)
                || level_loadable(old(self).rom(), level_data_ptr),
            res is Ok ==> final(self).model().level_data@.dom() == old(
                self,
            ).model().level_data@.dom().insert(level_data_ptr),
            res is Err ==> final(self).model().level_data@ == old(self).model().level_data@,
            res matches Err(e) ==> e is OutOfRange || e is ShortRead || e is MalformedCompression
                || e is WrongSizedRoomData,
    {
        if self.sm.level_data.contains_key(&level_data_ptr) {
            proof {
                assert(self.sm.level_data@.dom() =~= self.sm.level_data@.dom().insert(
                    level_data_ptr,
                ));
            }
            return Ok(());
        }
        if !banked_valid(level_data_ptr) {
            return Err(
                SmError::OutOfRange { entity: RangeKind::Pointer, index: level_data_ptr as usize },
            );
        }
        let off = snes_to_rom_addr(level_data_ptr);
        let data = match self.decompress_at(off) {
            Ok(d) => d,
            Err(e) => {
                return Err(e);
            },
        };
        let rd = match load_room_data(data.as_slice()) {
            Ok(rd) => rd,
            Err(e) => {
                return Err(e);
            },
        };
        self.sm.level_data.insert(level_data_ptr, rd);
        proof {
            assert(self.sm.level_data@.dom() =~= old(self).model().level_data@.dom().insert(
                level_data_ptr,
            ));
            assert(level_binding(self.rom(), level_data_ptr, self.sm.level_data@[level_data_ptr]));
            assert forall|k: u32| #[trigger] self.sm.level_data@.contains_key(k) implies level_binding(
                self.rom(),
                k,
                self.sm.level_data@[k],
            ) by {
                if k != level_data_ptr {
                    assert(old(self).model().level_data@.contains_key(k));
                    assert(self.sm.level_data@[k] == old(self).model().level_data@[k]);
                }
            }
        }
        Ok(())
    }

    /// Ensure the placement list behind `plm_ptr` is cached, decoding it if
    /// it is not.  Succeeds exactly when it is already cached or decodes.
    fn get_or_load_plm_list(&mut self, plm_ptr: u16) -> (res: Result<(), SmError>)
        requires
            old(self).inv_caches(),
        ensures
            final(self).inv_caches(),
            final(self).rom() == old(self).rom(),
            final(self).frontier() == old(self).frontier(),
            final(self).model().room_mdb@ == old(self).model().room_mdb@,
            final(self).model().level_data@ == old(self).model().level_data@,
            final(self).model().tiles@ == old(self).model().tiles@,
            final(self).model().tile_tables@ == old(self).model().tile_tables@,
            final(self).model().palettes@ == old(self).model().palettes@,
            final(self).model().tile_sets@ == old(self).model().tile_sets@,
            old(self).model().plm_population@.submap_of(final(self).model().plm_population@),
            old(self).model().plm_population@.contains_key(plm_ptr) ==> final(self).model().plm_population@ == old(self).model().plm_population@,
            res is Ok <==> old(self).model().plm_population@.contains_key(plm_ptr)
                || plm_loadable(old(self).rom(), plm_ptr),
            res is Ok ==> final(self).model().plm_population@.dom() == old(
                self,
            ).model().plm_population@.dom().insert(plm_ptr),
            res is Err ==> final(self).model().plm_population@ == old(
                self,
            ).model().plm_population@,
            res matches Err(e) ==> e is OutOfRange || e is ShortRead,
    {
        if self.sm.plm_population.contains_key(&plm_ptr) {
            proof {
                assert(self.sm.plm_population@.dom() =~= self.sm.plm_population@.dom().insert(
                    plm_ptr,
                ));
            }
            return Ok(());
        }
        if plm_ptr < 0x8000 {
            return Err(SmError::OutOfRange { entity: RangeKind::Pointer, index: plm_ptr as usize });
        }
        let off = rom_addr(0x8f, plm_ptr as usize);
        if off > self.rom_data.len() {
            return Err(SmError::ShortRead { needed: off, got: self.rom_data.len() });
        }
        let plms = match load_plm_list(self.rom_data, off) {
            Ok(l) => l,
            Err(e) => {
                return Err(e);
            },
        };
        self.sm.plm_population.insert(plm_ptr, plms);
        proof {
            assert(self.sm.plm_population@.dom() =~= old(
                self,
            ).model().plm_population@.dom().insert(plm_ptr));
            assert(plm_binding(self.rom(), plm_ptr, self.sm.plm_population@[plm_ptr]@));
            assert forall|p: u16| #[trigger] self.sm.plm_population@.contains_key(p) implies plm_binding(
                self.rom(),
                p,
                self.sm.plm_population@[p]@,
            ) by {
                if p != plm_ptr {
                    assert(old(self).model().plm_population@.contains_key(p));
                    assert(self.sm.plm_population@[p] == old(self).model().plm_population@[p]);
                }
            }
        }
        Ok(())
    }
}

/// Once a door-list prefix fails to parse, every longer prefix fails too.
proof fn lemma_door_list_none(rom: Seq<u8>, list_off: int, j: int, nd: int)
    requires
        spec_door_list(rom, list_off, j) is None,
        j <= nd,
    ensures
        spec_door_list(rom, list_off, nd) is None,
    decreases nd - j,
{
    if j < nd {
        lemma_door_list_none(rom, list_off, j, nd - 1);
    }
}

impl<'a> Loader<'a> {
    /// Ensure every state of `mdb` has its level data and placement list
    /// cached, and compute the room's door count: the largest door count any
    /// of its states' level data implies.
    fn load_level_data(&mut self, mdb: &RoomMdb) -> (res: Result<usize, SmError>)
        requires
            old(self).inv_caches(),
        ensures
            final(self).inv_caches(),
            final(self).rom() == old(self).rom(),
            final(self).frontier() == old(self).frontier(),
            final(self).model().room_mdb@ == old(self).model().room_mdb@,
            final(self).model().tiles@ == old(self).model().tiles@,
            final(self).model().tile_tables@ == old(self).model().tile_tables@,
            final(self).model().palettes@ == old(self).model().palettes@,
            final(self).model().tile_sets@ == old(self).model().tile_sets@,
            old(self).model().level_data@.submap_of(final(self).model().level_data@),
            old(self).model().plm_population@.submap_of(final(self).model().plm_population@),
            res matches Ok(nd) ==> {
                &&& nd == spec_room_doors_count(
                    old(self).rom(),
                    mdb.states@,
                    mdb.states@.len() as int,
                )
                &&& nd <= 256
                &&& forall|j: int|
                    0 <= j < mdb.states@.len() ==> {
                        &&& final(self).model().level_data@.contains_key(
                            (#[trigger] mdb.states@[j]).data.level_data,
                        )
                        &&& final(self).model().plm_population@.contains_key(
                            mdb.states@[j].data.plm_ptr,
                        )
                    }
            },
            res matches Err(e) ==> !(e is WrongRomSize),
            res is Err ==> exists|j: int|
                0 <= j < mdb.states@.len() && (!level_loadable(
                    old(self).rom(),
                    (#[trigger] mdb.states@[j]).data.level_data,
                ) || !plm_loadable(old(self).rom(), mdb.states@[j].data.plm_ptr)),
            res is Ok ==> forall|k: u32|
                #[trigger] final(self).model().level_data@.contains_key(k) <==> (old(
                    self,
                ).model().level_data@.contains_key(k) || (exists|j: int|
                    0 <= j < mdb.states@.len() && (#[trigger] mdb.states@[j]).data.level_data
                        == k)),
            res is Ok ==> forall|q2: u16|
                #[trigger] final(self).model().plm_population@.contains_key(q2) <==> (old(
                    self,
                ).model().plm_population@.contains_key(q2) || (exists|j: int|
                    0 <= j < mdb.states@.len() && (#[trigger] mdb.states@[j]).data.plm_ptr == q2)),
    {
        let mut num_doors: usize = 0;
        let mut i: usize = 0;
        while i < mdb.states.len()
            invariant
                self.inv_caches(),
                self.rom() == old(self).rom(),
                self.frontier() == old(self).frontier(),
                self.model().room_mdb@ == old(self).model().room_mdb@,
                self.model().tiles@ == old(self).model().tiles@,
                self.model().tile_tables@ == old(self).model().tile_tables@,
                self.model().palettes@ == old(self).model().palettes@,
                self.model().tile_sets@ == old(self).model().tile_sets@,
                old(self).model().level_data@.submap_of(self.model().level_data@),
                old(self).model().plm_population@.submap_of(self.model().plm_population@),
                i <= mdb.states@.len(),
                num_doors <= 256,
                num_doors == spec_room_doors_count(self.rom(), mdb.states@, i as int),
                forall|j: int|
                    0 <= j < i ==> {
                        &&& self.model().level_data@.contains_key(
                            (#[trigger] mdb.states@[j]).data.level_data,
                        )
                        &&& self.model().plm_population@.contains_key(mdb.states@[j].data.plm_ptr)
                    },
                forall|k: u32|
                    #[trigger] self.model().level_data@.contains_key(k) <==> (old(
                        self,
                    ).model().level_data@.contains_key(k) || (exists|j: int|
                        0 <= j < i && (#[trigger] mdb.states@[j]).data.level_data == k)),
                forall|q2: u16|
                    #[trigger] self.model().plm_population@.contains_key(q2) <==> (old(
                        self,
                    ).model().plm_population@.contains_key(q2) || (exists|j: int|
                        0 <= j < i && (#[trigger] mdb.states@[j]).data.plm_ptr == q2))
            decreases mdb.states@.len() - i,
        {
            let s = mdb.states[i];
            let ghost pre = *self;
            match self.get_or_load_level_data(s.data.level_data) {
                Ok(_) => {},
                Err(e) => {
                    proof {
                        vstd::map_lib::lemma_submap_of_trans(
                            old(self).model().level_data@,
                            pre.model().level_data@,
                            self.model().level_data@,
                        );
                        assert(!level_loadable(old(self).rom(), s.data.level_data));
                        assert(0 <= i < mdb.states@.len() && !level_loadable(
                            old(self).rom(),
                            mdb.states@[i as int].data.level_data,
                        ));
                    }
                    return Err(e);
                },
            }
            let rd_nd: usize = match self.sm.level_data.get(&s.data.level_data) {
                Some(rd) => rd.num_doors,
                None => {
                    proof {
                        assert(false);
                    }
                    0
                },
            };
            proof {
                assert(level_binding(
                    self.rom(),
                    s.data.level_data,
                    self.model().level_data@[s.data.level_data],
                ));
                assert(rd_nd == spec_level_num_doors(self.rom(), s.data.level_data));
            }
            if rd_nd > num_doors {
                num_doors = rd_nd;
            }
            let ghost mid = *self;
            match self.get_or_load_plm_list(s.data.plm_ptr) {
                Ok(_) => {},
                Err(e) => {
                    proof {
                        vstd::map_lib::lemma_submap_of_trans(
                            old(self).model().level_data@,
                            pre.model().level_data@,
                            self.model().level_data@,
                        );
                        vstd::map_lib::lemma_submap_of_trans(
                            old(self).model().plm_population@,
                            mid.model().plm_population@,
                            self.model().plm_population@,
                        );
                        assert(!plm_loadable(old(self).rom(), s.data.plm_ptr));
                        assert(0 <= i < mdb.states@.len() && !plm_loadable(
                            old(self).rom(),
                            mdb.states@[i as int].data.plm_ptr,
                        ));
                    }
                    return Err(e);
                },
            }
            i = i + 1;
            proof {
                vstd::map_lib::lemma_submap_of_trans(
                    pre.model().level_data@,
                    mid.model().level_data@,
                    self.model().level_data@,
                );
                vstd::map_lib::lemma_submap_of_trans(
                    old(self).model().level_data@,
                    pre.model().level_data@,
                    self.model().level_data@,
                );
                vstd::map_lib::lemma_submap_of_trans(
                    pre.model().plm_population@,
                    mid.model().plm_population@,
                    self.model().plm_population@,
                );
                vstd::map_lib::lemma_submap_of_trans(
                    old(self).model().plm_population@,
                    pre.model().plm_population@,
                    self.model().plm_population@,
                );
                assert(num_doors == spec_room_doors_count(self.rom(), mdb.states@, i as int));
                // the two caches grew by exactly this state's pointers
                let iprev = i - 1;
                assert(mid.model().level_data@.dom() == pre.model().level_data@.dom().insert(
                    s.data.level_data,
                ));
                assert(self.model().level_data@ == mid.model().level_data@);
                assert(self.model().plm_population@.dom()
                    == mid.model().plm_population@.dom().insert(s.data.plm_ptr));
                assert forall|k: u32| #[trigger] self.model().level_data@.contains_key(k) <==> (
                old(self).model().level_data@.contains_key(k) || (exists|j: int|
                    0 <= j < i && (#[trigger] mdb.states@[j]).data.level_data == k)) by {
                    if self.model().level_data@.contains_key(k) {
                        if !pre.model().level_data@.contains_key(k) {
                            assert(mdb.states@[iprev].data.level_data == k);
                        }
                    } else {
                        assert(!pre.model().level_data@.contains_key(k));
                        if exists|j: int|
                            0 <= j < i && (#[trigger] mdb.states@[j]).data.level_data == k {
                            let j = choose|j: int|
                                0 <= j < i && (#[trigger] mdb.states@[j]).data.level_data == k;
                            if j < iprev {
                                assert(pre.model().level_data@.contains_key(k));
                            }
                            assert(false);
                        }
                    }
                }
                assert forall|q2: u16| #[trigger] self.model().plm_population@.contains_key(q2)
                    <==> (old(self).model().plm_population@.contains_key(q2) || (exists|j: int|
                    0 <= j < i && (#[trigger] mdb.states@[j]).data.plm_ptr == q2)) by {
                    if self.model().plm_population@.contains_key(q2) {
                        if !mid.model().plm_population@.contains_key(q2) {
                            assert(mdb.states@[iprev].data.plm_ptr == q2);
                        } else {
                            assert(pre.model().plm_population@.contains_key(q2));
                        }
                    } else {
                        assert(!mid.model().plm_population@.contains_key(q2));
                        assert(!pre.model().plm_population@.contains_key(q2));
                        if exists|j: int|
                            0 <= j < i && (#[trigger] mdb.states@[j]).data.plm_ptr == q2 {
                            let j = choose|j: int|
                                0 <= j < i && (#[trigger] mdb.states@[j]).data.plm_ptr == q2;
                            if j < iprev {
                                assert(pre.model().plm_population@.contains_key(q2));
                            }
                            assert(false);
                        }
                    }
                }
            }
        }
        Ok(num_doors)
    }

    /// Parse `num_doors` slots of the room's door list, keep the doors whose
    /// destination is set, and put every destination that is not yet loaded
    /// on the frontier.
    fn load_door_list(&mut self, mdb: &mut RoomMdb, num_doors: usize) -> (res: Result<(), SmError>)
        requires
            old(self).inv_caches(),
            old(mdb).door_list@.len() == 0,
            num_doors <= 256,
        ensures
            final(self).inv_caches(),
            final(self).rom() == old(self).rom(),
            final(self).model().room_mdb@ == old(self).model().room_mdb@,
            final(self).model().level_data@ == old(self).model().level_data@,
            final(self).model().plm_population@ == old(self).model().plm_population@,
            final(self).model().tiles@ == old(self).model().tiles@,
            final(self).model().tile_tables@ == old(self).model().tile_tables@,
            final(self).model().palettes@ == old(self).model().palettes@,
            final(self).model().tile_sets@ == old(self).model().tile_sets@,
            forall|y: u16|
                old(self).frontier().contains(y) ==> #[trigger] final(self).frontier().contains(y),
            (*final(mdb) == (RoomMdb { door_list: final(mdb).door_list, ..*old(mdb) })),
            res is Ok ==> {
                &&& old(mdb).door_list_ptr >= 0x8000
                &&& spec_door_list(
                    old(self).rom(),
                    spec_rom_addr(0x8f, old(mdb).door_list_ptr as int),
                    num_doors as int,
                ) == Some(final(mdb).door_list@)
                &&& forall|j: int|
                    0 <= j < final(mdb).door_list@.len() ==> {
                        &&& (#[trigger] final(mdb).door_list@[j]).dest_room_ptr != 0
                        &&& (final(self).model().room_mdb@.contains_key(
                            final(mdb).door_list@[j].dest_room_ptr,
                        ) || final(self).frontier().contains(
                            final(mdb).door_list@[j].dest_room_ptr,
                        ))
                    }
            },
            res is Err ==> old(mdb).door_list_ptr < 0x8000 || spec_door_list(
                old(self).rom(),
                spec_rom_addr(0x8f, old(mdb).door_list_ptr as int),
                num_doors as int,
            ) is None,
            res matches Err(e) ==> e is ShortRead || e is OutOfRange,
            res is Ok ==> forall|y: u16|
                #[trigger] final(self).frontier().contains(y) ==> old(self).frontier().contains(y) || (exists|j: int|
                    0 <= j < final(mdb).door_list@.len() && (#[trigger] final(mdb).door_list@[j]).dest_room_ptr == y),
    {
        if mdb.door_list_ptr < 0x8000 {
            return Err(
                SmError::OutOfRange {
                    entity: RangeKind::Pointer,
                    index: mdb.door_list_ptr as usize,
                },
            );
        }
        let list_off = rom_addr(0x8f, mdb.door_list_ptr as usize);
        let mut j: usize = 0;
        while j < num_doors
            invariant
                self.inv_caches(),
                num_doors <= 256,
                self.rom() == old(self).rom(),
                self.model().room_mdb@ == old(self).model().room_mdb@,
                self.model().level_data@ == old(self).model().level_data@,
                self.model().plm_population@ == old(self).model().plm_population@,
                self.model().tiles@ == old(self).model().tiles@,
                self.model().tile_tables@ == old(self).model().tile_tables@,
                self.model().palettes@ == old(self).model().palettes@,
                self.model().tile_sets@ == old(self).model().tile_sets@,
                forall|y: u16|
                    old(self).frontier().contains(y) ==> #[trigger] self.frontier().contains(y),
                forall|y: u16|
                    #[trigger] self.frontier().contains(y) ==> old(self).frontier().contains(y)
                        || (exists|jj: int|
                        0 <= jj < mdb.door_list@.len() && (#[trigger] mdb.door_list@[jj]).dest_room_ptr
                            == y),
                (*mdb == (RoomMdb { door_list: mdb.door_list, ..*old(mdb) })),
                old(mdb).door_list_ptr >= 0x8000,
                list_off == spec_rom_addr(0x8f, old(mdb).door_list_ptr as int),
                list_off < 0x800000,
                j <= num_doors,
                spec_door_list(self.rom(), list_off as int, j as int) == Some(mdb.door_list@),
                forall|jj: int|
                    0 <= jj < mdb.door_list@.len() ==> {
                        &&& (#[trigger] mdb.door_list@[jj]).dest_room_ptr != 0
                        &&& (self.model().room_mdb@.contains_key(mdb.door_list@[jj].dest_room_ptr)
                            || self.frontier().contains(mdb.door_list@[jj].dest_room_ptr))
                    }
            decreases num_doors - j,
        {
            let slot_off = list_off + 2 * j;
            if slot_off + 2 > self.rom_data.len() {
                proof {
                    assert(spec_door_list(self.rom(), list_off as int, j + 1) is None);
                    lemma_door_list_none(self.rom(), list_off as int, j + 1, num_doors as int);
                }
                return Err(
                    SmError::ShortRead { needed: slot_off + 2, got: self.rom_data.len() },
                );
            }
            let dp = self.rom_data[slot_off] as u16 + 0x100 * self.rom_data[slot_off + 1] as u16;
            if dp < 0x8000 {
                proof {
                    assert(spec_door_list(self.rom(), list_off as int, j + 1) is None);
                    lemma_door_list_none(self.rom(), list_off as int, j + 1, num_doors as int);
                }
                return Err(SmError::OutOfRange { entity: RangeKind::Pointer, index: dp as usize });
            }
            let door_off = rom_addr(0x83, dp as usize);
            let door = match load_door_data(self.rom_data, door_off) {
                Ok(d) => d,
                Err(e) => {
                    proof {
                        assert(door_off + 12 > self.rom().len());
                        assert(spec_door_list(self.rom(), list_off as int, j + 1) is None);
                        lemma_door_list_none(self.rom(), list_off as int, j + 1, num_doors as int);
                    }
                    return Err(e);
                },
            };
            let ghost doors0 = mdb.door_list@;
            let ghost frontier0 = self.frontier();
            if door.dest_room_ptr != 0 {
                mdb.door_list.push(door);
                if !self.sm.room_mdb.contains_key(&door.dest_room_ptr) {
                    self.rooms_to_check.push(door.dest_room_ptr);
                    proof {
                        assert(self.frontier() == frontier0.push(door.dest_room_ptr));
                        assert(self.frontier()[frontier0.len() as int] == door.dest_room_ptr);
                        assert(self.frontier().contains(door.dest_room_ptr));
                        assert forall|y: u16| frontier0.contains(y) implies #[trigger] self.frontier().contains(y) by {
                            lemma_push_contains(frontier0, door.dest_room_ptr, y);
                        }
                    }
                }
            }
            j = j + 1;
            proof {
                assert(door == spec_door_data(self.rom(), door_off as int));
                assert(le16(self.rom(), list_off + 2 * (j - 1)) == dp);
                assert(spec_door_list(self.rom(), list_off as int, j as int) == Some(
                    mdb.door_list@,
                ));
                // every frontier element is an old one or some kept door's
                // destination
                assert forall|y: u16| #[trigger] self.frontier().contains(y) implies old(self).frontier().contains(y) || (exists|jj: int|
                    0 <= jj < mdb.door_list@.len() && (#[trigger] mdb.door_list@[jj]).dest_room_ptr
                        == y) by {
                    if frontier0.contains(y) {
                        if !old(self).frontier().contains(y) {
                            let jj = choose|jj: int|
                                0 <= jj < doors0.len() && (#[trigger] doors0[jj]).dest_room_ptr
                                    == y;
                            assert(mdb.door_list@[jj].dest_room_ptr == y);
                        }
                    } else {
                        lemma_push_contains_inv(frontier0, door.dest_room_ptr, y);
                        assert(y == door.dest_room_ptr);
                        assert(mdb.door_list@[mdb.door_list@.len() - 1].dest_room_ptr == y);
                    }
                }
            }
        }
        Ok(())
    }
}

impl<'a> Loader<'a> {
    /// Parse the 29 slots of the tileset pointer table.  Succeeds exactly
    /// when every slot and its 9-byte entry parse.
    fn load_tileset_table(&mut self) -> (res: Result<(), SmError>)
        requires
            old(self).inv_caches(),
            old(self).model().tile_sets@.len() == 0,
        ensures
            final(self).inv_caches(),
            final(self).rom() == old(self).rom(),
            final(self).frontier() == old(self).frontier(),
            final(self).model().room_mdb@ == old(self).model().room_mdb@,
            final(self).model().level_data@ == old(self).model().level_data@,
            final(self).model().plm_population@ == old(self).model().plm_population@,
            final(self).model().tiles@ == old(self).model().tiles@,
            final(self).model().tile_tables@ == old(self).model().tile_tables@,
            final(self).model().palettes@ == old(self).model().palettes@,
            res is Ok ==> final(self).model().tile_sets@.len() == 29,
            res is Err ==> exists|i: int|
                0 <= i < 29 && spec_tileset_entry(old(self).rom(), i) is None,
            res matches Err(e) ==> e is ShortRead || e is OutOfRange,
    {
        let mut i: usize = 0;
        while i < TILESET_POINTER_TABLE_COUNT
            invariant
                self.inv_caches(),
                self.rom() == old(self).rom(),
                self.frontier() == old(self).frontier(),
                self.model().room_mdb@ == old(self).model().room_mdb@,
                self.model().level_data@ == old(self).model().level_data@,
                self.model().plm_population@ == old(self).model().plm_population@,
                self.model().tiles@ == old(self).model().tiles@,
                self.model().tile_tables@ == old(self).model().tile_tables@,
                self.model().palettes@ == old(self).model().palettes@,
                i <= 29,
                self.model().tile_sets@.len() == i,
            decreases 29 - i,
        {
            let slot_off = TILESET_POINTER_TABLE + 2 * i;
            if slot_off + 2 > self.rom_data.len() {
            proof {
                assert(spec_tileset_entry(self.rom(), i as int) is None);
                assert(exists|ii: int|
                    0 <= ii < 29 && spec_tileset_entry(self.rom(), ii) is None);
            }
                return Err(
                    SmError::ShortRead { needed: slot_off + 2, got: self.rom_data.len() },
                );
            }
            let p = self.rom_data[slot_off] as u16 + 0x100 * self.rom_data[slot_off + 1] as u16;
            if p < 0x8000 {
            proof {
                assert(spec_tileset_entry(self.rom(), i as int) is None);
                assert(exists|ii: int|
                    0 <= ii < 29 && spec_tileset_entry(self.rom(), ii) is None);
            }
                return Err(SmError::OutOfRange { entity: RangeKind::Pointer, index: p as usize });
            }
            let entry_off = rom_addr(TILESET_ENTRY_BANK, p as usize);
            if entry_off + 9 > self.rom_data.len() {
            proof {
                assert(spec_tileset_entry(self.rom(), i as int) is None);
                assert(exists|ii: int|
                    0 <= ii < 29 && spec_tileset_entry(self.rom(), ii) is None);
            }
                return Err(
                    SmError::ShortRead { needed: entry_off + 9, got: self.rom_data.len() },
                );
            }
            let tile_table_ptr = self.rom_data[entry_off] as u32 + 0x100 * self.rom_data[entry_off
                + 1] as u32 + 0x10000 * self.rom_data[entry_off + 2] as u32;
            let tiles_ptr = self.rom_data[entry_off + 3] as u32 + 0x100 * self.rom_data[entry_off
                + 4] as u32 + 0x10000 * self.rom_data[entry_off + 5] as u32;
            let palette_ptr = self.rom_data[entry_off + 6] as u32 + 0x100 * self.rom_data[entry_off
                + 7] as u32 + 0x10000 * self.rom_data[entry_off + 8] as u32;
            let entry = TileSetEntry { tile_table_ptr, tiles_ptr, palette_ptr };
            self.sm.tile_sets.push(entry);
            i = i + 1;
            proof {
                assert(Some(entry) == spec_tileset_entry(self.rom(), i - 1));
            }
        }
        Ok(())
    }

    /// Ensure the tile graphics behind `addr` are cached: decompressed,
    /// truncated to whole tiles, and de-planarised.  Succeeds exactly when
    /// they are already cached or the stream decodes.
    fn load_tiles(&mut self, addr: u32) -> (res: Result<(), SmError>)
        requires
            old(self).inv_caches(),
        ensures
            final(self).inv_caches(),
            final(self).rom() == old(self).rom(),
            final(self).frontier() == old(self).frontier(),
            final(self).model().room_mdb@ == old(self).model().room_mdb@,
            final(self).model().level_data@ == old(self).model().level_data@,
            final(self).model().plm_population@ == old(self).model().plm_population@,
            final(self).model().tile_tables@ == old(self).model().tile_tables@,
            final(self).model().palettes@ == old(self).model().palettes@,
            final(self).model().tile_sets@ == old(self).model().tile_sets@,
            old(self).model().tiles@.submap_of(final(self).model().tiles@),
            old(self).model().tiles@.contains_key(addr) ==> final(self).model().tiles@
                == old(self).model().tiles@,
            res is Ok ==> final(self).model().tiles@.dom() == old(
                self,
            ).model().tiles@.dom().insert(addr),
            res is Ok <==> old(self).model().tiles@.contains_key(addr) || tiles_loadable(
                old(self).rom(),
                addr,
            ),
            res is Ok ==> final(self).model().tiles@.contains_key(addr),
            res is Err ==> final(self).model().tiles@ == old(self).model().tiles@,
            res matches Err(e) ==> e is OutOfRange || e is ShortRead
                || e is MalformedCompression,
    {
        if self.sm.tiles.contains_key(&addr) {
            proof {
                assert(self.sm.tiles@.dom() =~= self.sm.tiles@.dom().insert(addr));
            }
            return Ok(());
        }
        if !banked_valid(addr) {
            return Err(SmError::OutOfRange { entity: RangeKind::Pointer, index: addr as usize });
        }
        let off = snes_to_rom_addr(addr);
        let mut data = match self.decompress_at(off) {
            Ok(d) => d,
            Err(e) => {
                return Err(e);
            },
        };
        let ghost d0 = data@;
        let keep = data.len() / 32 * 32;
        data.truncate(keep);
        let ghost trunc = data@;
        de_planar_tiles(&mut data);
        proof {
            assert(trunc =~= d0.subrange(0, keep as int));
            assert(keep as int == d0.len() / 32 * 32);
            assert(trunc.len() / 32 == d0.len() / 32);
            assert forall|t0: int| 0 <= t0 < d0.len() / 32 implies #[trigger] tile_pixels_match(
                d0,
                data@,
                t0,
            ) by {
                assert(tile_pixels_match(trunc, data@, t0));
                assert forall|x: int, y: int| 0 <= x < 8 && 0 <= y < 8 implies #[trigger] crate::graphics::spec_packed_pixel(
                    data@,
                    32 * t0,
                    x,
                    y,
                ) == crate::graphics::spec_planar_pixel(d0, 32 * t0, x, y) by {
                    assert(crate::graphics::spec_packed_pixel(data@, 32 * t0, x, y)
                        == crate::graphics::spec_planar_pixel(trunc, 32 * t0, x, y));
                    assert(32 * t0 + 32 <= trunc.len());
                    assert(trunc[32 * t0 + 2 * y] == d0[32 * t0 + 2 * y]);
                    assert(trunc[32 * t0 + 2 * y + 1] == d0[32 * t0 + 2 * y + 1]);
                    assert(trunc[32 * t0 + 2 * y + 16] == d0[32 * t0 + 2 * y + 16]);
                    assert(trunc[32 * t0 + 2 * y + 17] == d0[32 * t0 + 2 * y + 17]);
                }
            }
        }
        let tiles = Tiles { data };
        self.sm.tiles.insert(addr, tiles);
        proof {
            assert(self.sm.tiles@.dom() =~= old(self).model().tiles@.dom().insert(addr));
            assert(tiles_binding(self.rom(), addr, self.sm.tiles@[addr]));
            assert forall|k: u32| #[trigger] self.sm.tiles@.contains_key(k) implies tiles_binding(
                self.rom(),
                k,
                self.sm.tiles@[k],
            ) by {
                if k != addr {
                    assert(old(self).model().tiles@.contains_key(k));
                    assert(self.sm.tiles@[k] == old(self).model().tiles@[k]);
                }
            }
        }
        Ok(())
    }

    /// Ensure the tile table behind `addr` is cached: one entry per 16-bit
    /// word of the decompression.  Succeeds exactly when it is already
    /// cached or the stream decodes.
    fn load_tile_table(&mut self, addr: u32) -> (res: Result<(), SmError>)
        requires
            old(self).inv_caches(),
        ensures
            final(self).inv_caches(),
            final(self).rom() == old(self).rom(),
            final(self).frontier() == old(self).frontier(),
            final(self).model().room_mdb@ == old(self).model().room_mdb@,
            final(self).model().level_data@ == old(self).model().level_data@,
            final(self).model().plm_population@ == old(self).model().plm_population@,
            final(self).model().tiles@ == old(self).model().tiles@,
            final(self).model().palettes@ == old(self).model().palettes@,
            final(self).model().tile_sets@ == old(self).model().tile_sets@,
            old(self).model().tile_tables@.submap_of(final(self).model().tile_tables@),
            old(self).model().tile_tables@.contains_key(addr) ==> final(self).model().tile_tables@
                == old(self).model().tile_tables@,
            res is Ok ==> final(self).model().tile_tables@.dom() == old(
                self,
            ).model().tile_tables@.dom().insert(addr),
            res is Ok <==> old(self).model().tile_tables@.contains_key(addr) || tiles_loadable(
                old(self).rom(),
                addr,
            ),
            res is Ok ==> final(self).model().tile_tables@.contains_key(addr),
            res is Err ==> final(self).model().tile_tables@ == old(self).model().tile_tables@,
            res matches Err(e) ==> e is OutOfRange || e is ShortRead
                || e is MalformedCompression,
    {
        if self.sm.tile_tables.contains_key(&addr) {
            proof {
                assert(self.sm.tile_tables@.dom() =~= self.sm.tile_tables@.dom().insert(addr));
            }
            return Ok(());
        }
        if !banked_valid(addr) {
            return Err(SmError::OutOfRange { entity: RangeKind::Pointer, index: addr as usize });
        }
        let off = snes_to_rom_addr(addr);
        let data = match self.decompress_at(off) {
            Ok(d) => d,
            Err(e) => {
                return Err(e);
            },
        };
        let num_entries = data.len() / 2;
        let mut entries: Vec<TileTableEntry> = Vec::new();
        let mut i: usize = 0;
        while i < num_entries
            invariant
                num_entries == data@.len() / 2,
                2 * num_entries <= data@.len() <= usize::MAX,
                i <= num_entries,
                entries@.len() == i,
                forall|j: int|
                    0 <= j < i ==> entries@[j] == TileTableEntry::spec_from_u16(
                        le16(data@, 2 * j) as u16,
                    ),
            decreases num_entries - i,
        {
            let v = data[2 * i] as u16 + 0x100 * data[2 * i + 1] as u16;
            entries.push(TileTableEntry::from_u16(v));
            i = i + 1;
        }
        let table = TileTable { entries };
        self.sm.tile_tables.insert(addr, table);
        proof {
            assert(self.sm.tile_tables@.dom() =~= old(self).model().tile_tables@.dom().insert(
                addr,
            ));
            assert(table_binding(self.rom(), addr, self.sm.tile_tables@[addr]));
            assert forall|k: u32| #[trigger] self.sm.tile_tables@.contains_key(k) implies table_binding(
                self.rom(),
                k,
                self.sm.tile_tables@[k],
            ) by {
                if k != addr {
                    assert(old(self).model().tile_tables@.contains_key(k));
                    assert(self.sm.tile_tables@[k] == old(self).model().tile_tables@[k]);
                }
            }
        }
        Ok(())
    }

    /// Ensure the palette behind `addr` is cached: the first 128 BGR5 words
    /// of the decompression, upshifted to 8-bit channels.  Succeeds exactly
    /// when it is already cached or the stream decodes to at least 128
    /// words.
    fn load_palette(&mut self, addr: u32) -> (res: Result<(), SmError>)
        requires
            old(self).inv_caches(),
        ensures
            final(self).inv_caches(),
            final(self).rom() == old(self).rom(),
            final(self).frontier() == old(self).frontier(),
            final(self).model().room_mdb@ == old(self).model().room_mdb@,
            final(self).model().level_data@ == old(self).model().level_data@,
            final(self).model().plm_population@ == old(self).model().plm_population@,
            final(self).model().tiles@ == old(self).model().tiles@,
            final(self).model().tile_tables@ == old(self).model().tile_tables@,
            final(self).model().tile_sets@ == old(self).model().tile_sets@,
            old(self).model().palettes@.submap_of(final(self).model().palettes@),
            old(self).model().palettes@.contains_key(addr) ==> final(self).model().palettes@
                == old(self).model().palettes@,
            res is Ok ==> final(self).model().palettes@.dom() == old(
                self,
            ).model().palettes@.dom().insert(addr),
            res is Ok <==> old(self).model().palettes@.contains_key(addr) || palette_loadable(
                old(self).rom(),
                addr,
            ),
            res is Ok ==> final(self).model().palettes@.contains_key(addr),
            res is Err ==> final(self).model().palettes@ == old(self).model().palettes@,
            res matches Err(e) ==> e is OutOfRange || e is ShortRead
                || e is MalformedCompression,
    {
        if self.sm.palettes.contains_key(&addr) {
            proof {
                assert(self.sm.palettes@.dom() =~= self.sm.palettes@.dom().insert(addr));
            }
            return Ok(());
        }
        if !banked_valid(addr) {
            return Err(SmError::OutOfRange { entity: RangeKind::Pointer, index: addr as usize });
        }
        let off = snes_to_rom_addr(addr);
        let data = match self.decompress_at(off) {
            Ok(d) => d,
            Err(e) => {
                return Err(e);
            },
        };
        if data.len() < 256 {
            return Err(SmError::ShortRead { needed: 256, got: data.len() });
        }
        let mut colors: Vec<Color> = Vec::new();
        let mut i: usize = 0;
        while i < PALETTE_ENTRIES
            invariant
                data@.len() >= 256,
                data@.len() <= usize::MAX,
                i <= 128,
                colors@.len() == i,
                forall|j: int|
                    0 <= j < i ==> (#[trigger] colors@[j]) == Color::spec_from_u16(
                        le16(data@, 2 * j) as u16,
                    ) && colors@[j].upshifted(),
            decreases 128 - i,
        {
            let v = data[2 * i] as u16 + 0x100 * data[2 * i + 1] as u16;
            colors.push(Color::from_u16(v));
            i = i + 1;
        }
        let palette = Palette { colors };
        self.sm.palettes.insert(addr, palette);
        proof {
            assert(self.sm.palettes@.dom() =~= old(self).model().palettes@.dom().insert(addr));
            assert(palette_binding(self.rom(), addr, self.sm.palettes@[addr]));
            assert forall|k: u32| #[trigger] self.sm.palettes@.contains_key(k) implies palette_binding(
                self.rom(),
                k,
                self.sm.palettes@[k],
            ) by {
                if k != addr {
                    assert(old(self).model().palettes@.contains_key(k));
                    assert(self.sm.palettes@[k] == old(self).model().palettes@[k]);
                }
            }
        }
        Ok(())
    }
}

impl<'a> Loader<'a> {

    /// Parse one room: its header and states, cache its level data and
    /// placement lists, and read its door list, putting unseen destinations
    /// on the frontier.  Succeeds exactly when the room decodes in full.
    #[verifier::rlimit(100)]
    #[verifier::spinoff_prover]
    fn visit_room(&mut self, p: u16) -> (res: Result<RoomMdb, SmError>)
        requires
            old(self).inv_caches(),
        ensures
            final(self).inv_caches(),
            final(self).rom() == old(self).rom(),
            final(self).model().room_mdb@ == old(self).model().room_mdb@,
            final(self).model().tile_sets@ == old(self).model().tile_sets@,
            final(self).model().tiles@ == old(self).model().tiles@,
            final(self).model().tile_tables@ == old(self).model().tile_tables@,
            final(self).model().palettes@ == old(self).model().palettes@,
            forall|y: u16|
                old(self).frontier().contains(y) ==> #[trigger] final(self).frontier().contains(y),
            res matches Err(e) ==> !(e is WrongRomSize),
            res is Err ==> !spec_room_ok(old(self).rom(), p),
            res matches Ok(m) ==> {
                &&& spec_room_ok(old(self).rom(), p)
                &&& room_matches(old(self).rom(), p, m)
                &&& forall|j: int|
                    0 <= j < m.states@.len() ==> final(self).model().level_data@.contains_key(
                        (#[trigger] m.states@[j]).data.level_data,
                    ) && final(self).model().plm_population@.contains_key(
                        m.states@[j].data.plm_ptr,
                    )
                &&& forall|j: int|
                    0 <= j < m.door_list@.len() ==> (#[trigger] m.door_list@[j]).dest_room_ptr != 0
                        && (final(self).model().room_mdb@.contains_key(
                        m.door_list@[j].dest_room_ptr,
                    ) || final(self).frontier().contains(m.door_list@[j].dest_room_ptr))
                &&& forall|y: u16|
                    #[trigger] final(self).frontier().contains(y) ==> old(
                        self,
                    ).frontier().contains(y) || spec_room_dest(old(self).rom(), p, y)
                &&& forall|k: u32|
                    #[trigger] final(self).model().level_data@.contains_key(k) <==> (old(
                        self,
                    ).model().level_data@.contains_key(k) || (exists|j: int|
                        0 <= j < m.states@.len() && (#[trigger] m.states@[j]).data.level_data
                            == k))
                &&& forall|q2: u16|
                    #[trigger] final(self).model().plm_population@.contains_key(q2) <==> (old(
                        self,
                    ).model().plm_population@.contains_key(q2) || (exists|j: int|
                        0 <= j < m.states@.len() && (#[trigger] m.states@[j]).data.plm_ptr == q2))
            },
    {
        if p < 0x8000 {
            proof {
                reveal(spec_room_ok);
            }
            return Err(SmError::OutOfRange { entity: RangeKind::Pointer, index: p as usize });
        }
        let rom_off = rom_addr(0x8f, p as usize);
        let mut mdb = match load_room_mdb(self.rom_data, rom_off) {
            Ok(m) => m,
            Err(e) => {
                proof {
                    reveal(spec_room_ok);
                }
                return Err(e);
            },
        };
        let num_doors = match self.load_level_data(&mdb) {
            Ok(n) => n,
            Err(e) => {
                proof {
                    let rom0 = old(self).rom();
                    let off = spec_rom_addr(0x8f, p as int);
                    assert(spec_states(rom0, off + 11) == Some(mdb.states@));
                    let j = choose|j: int|
                        0 <= j < mdb.states@.len() && (!level_loadable(
                            rom0,
                            (#[trigger] mdb.states@[j]).data.level_data,
                        ) || !plm_loadable(rom0, mdb.states@[j].data.plm_ptr));
                    reveal(spec_room_ok);
                    if spec_room_ok(rom0, p) {
                        assert(spec_states(rom0, off + 11)->Some_0[j] == mdb.states@[j]);
                        assert(false);
                    }
                }
                return Err(e);
            },
        };
        let ghost mid = *self;
        match self.load_door_list(&mut mdb, num_doors) {
            Ok(_) => {},
            Err(e) => {
                proof {
                    let rom0 = old(self).rom();
                    let off = spec_rom_addr(0x8f, p as int);
                    assert(mdb.door_list_ptr == le16(rom0, off + 9));
                    assert(spec_states(rom0, off + 11) == Some(mdb.states@));
                    assert(num_doors == spec_room_doors_count(
                        rom0,
                        mdb.states@,
                        mdb.states@.len() as int,
                    ));
                    reveal(spec_room_ok);
                    assert(!spec_room_ok(rom0, p));
                }
                return Err(e);
            },
        }
        proof {
            let rom0 = old(self).rom();
            assert(self.model().level_data@ == mid.model().level_data@);
            assert(self.model().plm_population@ == mid.model().plm_population@);
            assert forall|k: u32| #[trigger] self.model().level_data@.contains_key(k) <==> (old(
                self,
            ).model().level_data@.contains_key(k) || (exists|j: int|
                0 <= j < mdb.states@.len() && (#[trigger] mdb.states@[j]).data.level_data
                    == k)) by {
                assert(mid.model().level_data@.contains_key(k)
                    <==> self.model().level_data@.contains_key(k));
            }
            assert forall|q2: u16| #[trigger] self.model().plm_population@.contains_key(q2) <==> (
            old(self).model().plm_population@.contains_key(q2) || (exists|j: int|
                0 <= j < mdb.states@.len() && (#[trigger] mdb.states@[j]).data.plm_ptr == q2)) by {
                assert(mid.model().plm_population@.contains_key(q2)
                    <==> self.model().plm_population@.contains_key(q2));
            }
            assert forall|j: int|
                0 <= j < mdb.states@.len() implies self.sm.level_data@.contains_key(
                (#[trigger] mdb.states@[j]).data.level_data,
            ) && self.sm.plm_population@.contains_key(mdb.states@[j].data.plm_ptr) by {}
            lemma_room_ok_assembled(rom0, p, mdb, self.model());
            assert(room_matches(rom0, p, mdb));
            assert forall|y: u16| #[trigger] self.frontier().contains(y) implies old(
                self,
            ).frontier().contains(y) || spec_room_dest(rom0, p, y) by {
                if !old(self).frontier().contains(y) {
                    assert(mid.frontier() == old(self).frontier());
                    lemma_room_dest_of(rom0, p, mdb, y);
                }
            }
        }
        Ok(mdb)
    }

    /// Visit one room pointer: parse it whole and insert it into the model,
    /// putting unseen destinations on the frontier.
    #[verifier::rlimit(100)]
    #[verifier::spinoff_prover]
    fn load_one_room(&mut self, p: u16) -> (res: Result<(), SmError>)
        requires
            old(self).inv_caches(),
            !old(self).model().room_mdb@.contains_key(p),
            sm_rooms_closed(old(self).model(), old(self).frontier().push(p)),
        ensures
            final(self).inv_caches(),
            final(self).rom() == old(self).rom(),
            final(self).model().tile_sets@ == old(self).model().tile_sets@,
            final(self).model().tiles@ == old(self).model().tiles@,
            final(self).model().tile_tables@ == old(self).model().tile_tables@,
            final(self).model().palettes@ == old(self).model().palettes@,
            forall|y: u16|
                old(self).frontier().contains(y) ==> #[trigger] final(self).frontier().contains(y),
            res is Ok ==> {
                &&& final(self).model().room_mdb@.contains_key(p)
                &&& final(self).model().room_mdb@.dom() == old(
                    self,
                ).model().room_mdb@.dom().insert(p)
                &&& final(self).model().room_mdb@ == old(self).model().room_mdb@.insert(
                    p,
                    final(self).model().room_mdb@[p],
                )
                &&& sm_rooms_closed(final(self).model(), final(self).frontier())
                &&& forall|k: u32|
                    #[trigger] final(self).model().level_data@.contains_key(k) <==> (old(
                        self,
                    ).model().level_data@.contains_key(k) || (exists|j: int|
                        0 <= j < final(self).model().room_mdb@[p].states@.len() && (
                        #[trigger] final(self).model().room_mdb@[p].states@[j]).data.level_data
                            == k))
                &&& forall|q2: u16|
                    #[trigger] final(self).model().plm_population@.contains_key(q2) <==> (old(
                        self,
                    ).model().plm_population@.contains_key(q2) || (exists|j: int|
                        0 <= j < final(self).model().room_mdb@[p].states@.len() && (
                        #[trigger] final(self).model().room_mdb@[p].states@[j]).data.plm_ptr
                            == q2))
            },
            res is Err ==> final(self).model().room_mdb@ == old(self).model().room_mdb@,
            res matches Err(e) ==> !(e is WrongRomSize),
            res is Ok ==> spec_room_ok(old(self).rom(), p),
            res is Err ==> !spec_room_ok(old(self).rom(), p),
            res is Ok ==> forall|y: u16|
                #[trigger] final(self).frontier().contains(y) ==> old(self).frontier().contains(y)
                    || spec_room_dest(old(self).rom(), p, y),
    {
        let mdb = match self.visit_room(p) {
            Ok(m) => m,
            Err(e) => {
                return Err(e);
            },
        };
        let ghost mdb_snap = mdb;
        let ghost before_insert = *self;
        self.sm.room_mdb.insert(p, mdb);
        proof {
            lemma_rooms_closed_congruence(
                old(self).model(),
                before_insert.model(),
                old(self).frontier().push(p),
            );
            assert(self.frontier() == before_insert.frontier());
            assert forall|y: u16| old(self).frontier().contains(
                y,
            ) implies #[trigger] self.frontier().contains(y) by {
                assert(before_insert.frontier().contains(y));
            }
            assert forall|y: u16| #[trigger] self.frontier().contains(y) implies old(
                self,
            ).frontier().contains(y) || spec_room_dest(old(self).rom(), p, y) by {
                assert(before_insert.frontier().contains(y));
            }
            lemma_bfs_insert(
                old(self).rom(),
                before_insert.model(),
                old(self).frontier(),
                self.frontier(),
                p,
                mdb_snap,
                self.model(),
            );
            assert(self.sm.room_mdb@.dom() =~= old(self).model().room_mdb@.dom().insert(p));
            assert(self.sm.room_mdb@ =~= old(self).model().room_mdb@.insert(p, mdb_snap));
            assert(self.sm.room_mdb@[p] == mdb_snap);
            // the caches grew by exactly this room's state pointers
            assert(self.model().level_data@ == before_insert.model().level_data@);
            assert(self.model().plm_population@ == before_insert.model().plm_population@);
            assert forall|k: u32| #[trigger] self.model().level_data@.contains_key(k) <==> (old(
                self,
            ).model().level_data@.contains_key(k) || (exists|j: int|
                0 <= j < self.model().room_mdb@[p].states@.len() && (
                #[trigger] self.model().room_mdb@[p].states@[j]).data.level_data == k)) by {
                assert(before_insert.model().level_data@.contains_key(k)
                    <==> self.model().level_data@.contains_key(k));
                if self.model().level_data@.contains_key(k) && !old(
                    self,
                ).model().level_data@.contains_key(k) {
                    let j = choose|j: int|
                        0 <= j < mdb_snap.states@.len() && (#[trigger] mdb_snap.states@[j]).data.level_data
                            == k;
                    assert((self.model().room_mdb@[p].states@[j]).data.level_data == k);
                }
                if exists|j: int|
                    0 <= j < self.model().room_mdb@[p].states@.len() && (
                    #[trigger] self.model().room_mdb@[p].states@[j]).data.level_data == k {
                    let j = choose|j: int|
                        0 <= j < self.model().room_mdb@[p].states@.len() && (
                        #[trigger] self.model().room_mdb@[p].states@[j]).data.level_data == k;
                    assert((mdb_snap.states@[j]).data.level_data == k);
                }
            }
            assert forall|q2: u16| #[trigger] self.model().plm_population@.contains_key(q2) <==> (
            old(self).model().plm_population@.contains_key(q2) || (exists|j: int|
                0 <= j < self.model().room_mdb@[p].states@.len() && (
                #[trigger] self.model().room_mdb@[p].states@[j]).data.plm_ptr == q2)) by {
                assert(before_insert.model().plm_population@.contains_key(q2)
                    <==> self.model().plm_population@.contains_key(q2));
                if self.model().plm_population@.contains_key(q2) && !old(
                    self,
                ).model().plm_population@.contains_key(q2) {
                    let j = choose|j: int|
                        0 <= j < mdb_snap.states@.len() && (#[trigger] mdb_snap.states@[j]).data.plm_ptr
                            == q2;
                    assert((self.model().room_mdb@[p].states@[j]).data.plm_ptr == q2);
                }
                if exists|j: int|
                    0 <= j < self.model().room_mdb@[p].states@.len() && (
                    #[trigger] self.model().room_mdb@[p].states@[j]).data.plm_ptr == q2 {
                    let j = choose|j: int|
                        0 <= j < self.model().room_mdb@[p].states@.len() && (
                        #[trigger] self.model().room_mdb@[p].states@[j]).data.plm_ptr == q2;
                    assert((mdb_snap.states@[j]).data.plm_ptr == q2);
                }
            }
        }
        Ok(())
    }

    /// Visit rooms until the frontier empties, starting from whatever the
    /// frontier holds.
    #[verifier::rlimit(100)]
    #[verifier::spinoff_prover]
    fn load_rooms(&mut self) -> (res: Result<(), SmError>)
        requires
            old(self).inv_caches(),
            sm_rooms_closed(old(self).model(), old(self).frontier()),
            old(self).model().room_mdb@.contains_key(0x91f8u16) || old(self).frontier().contains(0x91f8u16),
            forall|y: u16|
                #[trigger] old(self).frontier().contains(y) ==> spec_reachable(
                    old(self).rom(),
                    y,
                ),
            forall|q: u16|
                #[trigger] old(self).model().room_mdb@.contains_key(q) ==> spec_reachable(
                    old(self).rom(),
                    q,
                ),
            sm_level_keys_referenced(old(self).model()),
        ensures
            final(self).inv_caches(),
            final(self).rom() == old(self).rom(),
            final(self).model().tile_sets@ == old(self).model().tile_sets@,
            final(self).model().tiles@ == old(self).model().tiles@,
            final(self).model().tile_tables@ == old(self).model().tile_tables@,
            final(self).model().palettes@ == old(self).model().palettes@,
            res is Ok ==> {
                &&& final(self).frontier().len() == 0
                &&& sm_rooms_closed(final(self).model(), final(self).frontier())
                &&& final(self).model().room_mdb@.contains_key(0x91f8u16)
                &&& forall|q: u16|
                    #[trigger] final(self).model().room_mdb@.contains_key(q) ==> spec_reachable(
                        old(self).rom(),
                        q,
                    )
                &&& sm_level_keys_referenced(final(self).model())
            },
            res matches Err(e) ==> !(e is WrongRomSize),
            res is Err ==> !spec_rooms_loadable(old(self).rom()),
    {
        proof {
            lemma_u16_map_len(self.model().room_mdb@);
        }
        while self.rooms_to_check.len() != 0
            invariant
                self.inv_caches(),
                sm_rooms_closed(self.model(), self.frontier()),
                self.rom() == old(self).rom(),
                self.model().tile_sets@ == old(self).model().tile_sets@,
                self.model().room_mdb@.dom().len() <= 0x10000,
                self.model().room_mdb@.contains_key(0x91f8u16) || self.frontier().contains(
                    0x91f8u16,
                ),
                self.model().tiles@ == old(self).model().tiles@,
                self.model().tile_tables@ == old(self).model().tile_tables@,
                self.model().palettes@ == old(self).model().palettes@,
                forall|y: u16|
                    #[trigger] self.frontier().contains(y) ==> spec_reachable(old(self).rom(), y),
                forall|q: u16|
                    #[trigger] self.model().room_mdb@.contains_key(q) ==> spec_reachable(
                        old(self).rom(),
                        q,
                    ),
                sm_level_keys_referenced(self.model()),
            decreases 0x10000 - self.model().room_mdb@.dom().len(), self.frontier().len(),
        {
            let ghost frontier_pre = self.frontier();
            let p = self.rooms_to_check.pop().unwrap();
            proof {
                assert(p == frontier_pre[frontier_pre.len() - 1]);
                assert(frontier_pre =~= self.frontier().push(p));
                assert forall|y: u16|
                    frontier_pre.contains(y) && y != p implies #[trigger] self.frontier().contains(
                    y,
                ) by {
                    lemma_pop_contains(frontier_pre, y);
                }
                assert forall|y: u16| #[trigger] self.frontier().contains(
                    y,
                ) implies frontier_pre.contains(y) by {
                    let i = choose|i: int|
                        0 <= i < self.frontier().len() && self.frontier()[i] == y;
                    assert(frontier_pre[i] == y);
                }
                assert(frontier_pre[frontier_pre.len() - 1] == p);
                assert(frontier_pre.contains(p));
                assert(spec_reachable(old(self).rom(), p));
            }
            if self.sm.room_mdb.contains_key(&p) {
                proof {
                    lemma_bfs_skip(self.model(), frontier_pre, p);
                    assert(self.frontier() =~= frontier_pre.subrange(
                        0,
                        frontier_pre.len() - 1,
                    ));
                }
                continue;
            }
            let ghost pre_room = *self;
            match self.load_one_room(p) {
                Ok(_) => {},
                Err(e) => {
                    proof {
                        assert(spec_reachable(old(self).rom(), p) && !spec_room_ok(
                            old(self).rom(),
                            p,
                        ));
                        assert(!spec_rooms_loadable(old(self).rom()));
                    }
                    return Err(e);
                },
            }
            proof {
                lemma_u16_map_len(self.sm.room_mdb@);
                if !pre_room.model().room_mdb@.contains_key(0x91f8u16) {
                    if p != 0x91f8u16 {
                        assert(pre_room.frontier().contains(0x91f8u16));
                        assert(self.frontier().contains(0x91f8u16));
                    }
                }
                // everything on the frontier and in the map stays visited
                assert forall|y: u16| #[trigger] self.frontier().contains(y) implies spec_reachable(
                    old(self).rom(),
                    y,
                ) by {
                    if !pre_room.frontier().contains(y) {
                        lemma_reachable_step(old(self).rom(), p, y);
                    }
                }
                assert forall|q: u16| #[trigger] self.sm.room_mdb@.contains_key(
                    q,
                ) implies spec_reachable(old(self).rom(), q) by {
                    assert(self.sm.room_mdb@.dom() == pre_room.model().room_mdb@.dom().insert(p));
                    if q != p {
                        assert(pre_room.model().room_mdb@.dom().contains(q));
                        assert(pre_room.model().room_mdb@.contains_key(q));
                    }
                }
                lemma_keys_referenced_insert(
                    pre_room.model(),
                    self.model(),
                    p,
                    self.model().room_mdb@[p],
                );
            }
        }
        Ok(())
    }

    /// Load the tileset table, the artifacts of all 29 tilesets, and the
    /// common tiles and tile table.
    #[verifier::rlimit(100)]
    #[verifier::spinoff_prover]
    fn load_artifacts(&mut self) -> (res: Result<(), SmError>)
        requires
            old(self).inv_caches(),
            old(self).model().tile_sets@.len() == 0,
        ensures
            final(self).inv_caches(),
            final(self).rom() == old(self).rom(),
            final(self).frontier() == old(self).frontier(),
            final(self).model().room_mdb@ == old(self).model().room_mdb@,
            final(self).model().level_data@ == old(self).model().level_data@,
            final(self).model().plm_population@ == old(self).model().plm_population@,
            res is Ok ==> {
                &&& final(self).model().tile_sets@.len() == 29
                &&& forall|j: int|
                    0 <= j < 29 ==> {
                        &&& final(self).model().tiles@.contains_key(
                            (#[trigger] final(self).model().tile_sets@[j]).tiles_ptr,
                        )
                        &&& final(self).model().tile_tables@.contains_key(
                            final(self).model().tile_sets@[j].tile_table_ptr,
                        )
                        &&& final(self).model().palettes@.contains_key(
                            final(self).model().tile_sets@[j].palette_ptr,
                        )
                    }
                &&& final(self).model().tiles@.contains_key(spec_snes(CRE_TILES as int) as u32)
                &&& final(self).model().tile_tables@.contains_key(
                    spec_snes(CRE_TILE_TABLE as int) as u32,
                )
            },
            res matches Err(e) ==> !(e is WrongRomSize),
            res is Ok ==> spec_artifacts_loadable(old(self).rom()),
            res is Err ==> !spec_artifacts_loadable(old(self).rom()),
            res is Ok ==> forall|k: u32|
                #[trigger] final(self).model().tiles@.contains_key(k) <==> (old(
                    self,
                ).model().tiles@.contains_key(k) || (exists|i: int|
                    0 <= i < 29 && (#[trigger] final(self).model().tile_sets@[i]).tiles_ptr == k)
                    || k == spec_snes(CRE_TILES as int) as u32),
            res is Ok ==> forall|k: u32|
                #[trigger] final(self).model().tile_tables@.contains_key(k) <==> (old(
                    self,
                ).model().tile_tables@.contains_key(k) || (exists|i: int|
                    0 <= i < 29 && (#[trigger] final(self).model().tile_sets@[i]).tile_table_ptr
                        == k) || k == spec_snes(CRE_TILE_TABLE as int) as u32),
            res is Ok ==> forall|k: u32|
                #[trigger] final(self).model().palettes@.contains_key(k) <==> (old(
                    self,
                ).model().palettes@.contains_key(k) || (exists|i: int|
                    0 <= i < 29 && (#[trigger] final(self).model().tile_sets@[i]).palette_ptr
                        == k)),
    {
        let ghost rom0 = self.rom();
        match self.load_tileset_table() {
            Ok(_) => {},
            Err(e) => {
                proof {
                    assert(!spec_artifacts_loadable(rom0));
                }
                return Err(e);
            },
        }
        let ghost after_rooms = *self;
        let mut i: usize = 0;
        while i < TILESET_POINTER_TABLE_COUNT
            invariant
                self.inv_caches(),
                self.rom() == rom0,
                self.rom() == old(self).rom(),
                self.frontier() == old(self).frontier(),
                self.model().tile_sets@.len() == 29,
                self.model().tile_sets@ == after_rooms.model().tile_sets@,
                self.model().room_mdb@ == old(self).model().room_mdb@,
                self.model().level_data@ == old(self).model().level_data@,
                self.model().plm_population@ == old(self).model().plm_population@,
                i <= 29,
                forall|j: int|
                    0 <= j < i ==> {
                        &&& self.model().tiles@.contains_key(
                            (#[trigger] self.model().tile_sets@[j]).tiles_ptr,
                        )
                        &&& self.model().tile_tables@.contains_key(
                            self.model().tile_sets@[j].tile_table_ptr,
                        )
                        &&& self.model().palettes@.contains_key(
                            self.model().tile_sets@[j].palette_ptr,
                        )
                    },
                forall|k: u32|
                    #[trigger] self.model().tiles@.contains_key(k) <==> (old(
                        self,
                    ).model().tiles@.contains_key(k) || (exists|j: int|
                        0 <= j < i && (#[trigger] self.model().tile_sets@[j]).tiles_ptr == k)),
                forall|k: u32|
                    #[trigger] self.model().tile_tables@.contains_key(k) <==> (old(
                        self,
                    ).model().tile_tables@.contains_key(k) || (exists|j: int|
                        0 <= j < i && (#[trigger] self.model().tile_sets@[j]).tile_table_ptr
                            == k)),
                forall|k: u32|
                    #[trigger] self.model().palettes@.contains_key(k) <==> (old(
                        self,
                    ).model().palettes@.contains_key(k) || (exists|j: int|
                        0 <= j < i && (#[trigger] self.model().tile_sets@[j]).palette_ptr == k)),
            decreases 29 - i,
        {
            let entry = self.sm.tile_sets[i];
            let ghost s0 = *self;
            match self.load_tiles(entry.tiles_ptr) {
                Ok(_) => {},
                Err(e) => {
                    proof {
                        assert(Some(entry) == spec_tileset_entry(rom0, i as int));
                        assert(!tiles_loadable(rom0, entry.tiles_ptr));
                        assert(!spec_artifacts_loadable(rom0));
                    }
                    return Err(e);
                },
            }
            let ghost s1 = *self;
            match self.load_tile_table(entry.tile_table_ptr) {
                Ok(_) => {},
                Err(e) => {
                    proof {
                        assert(Some(entry) == spec_tileset_entry(rom0, i as int));
                        assert(!tiles_loadable(rom0, entry.tile_table_ptr));
                        assert(!spec_artifacts_loadable(rom0));
                    }
                    return Err(e);
                },
            }
            let ghost s2 = *self;
            match self.load_palette(entry.palette_ptr) {
                Ok(_) => {},
                Err(e) => {
                    proof {
                        assert(Some(entry) == spec_tileset_entry(rom0, i as int));
                        assert(!palette_loadable(rom0, entry.palette_ptr));
                        assert(!spec_artifacts_loadable(rom0));
                    }
                    return Err(e);
                },
            }
            i = i + 1;
            proof {
                assert(self.model().tiles@.contains_key(entry.tiles_ptr));
                assert(self.model().tile_tables@.contains_key(entry.tile_table_ptr));
                assert(self.model().palettes@.contains_key(entry.palette_ptr));
                assert forall|j: int| 0 <= j < i implies {
                    &&& self.model().tiles@.contains_key(
                        (#[trigger] self.model().tile_sets@[j]).tiles_ptr,
                    )
                    &&& self.model().tile_tables@.contains_key(
                        self.model().tile_sets@[j].tile_table_ptr,
                    )
                    &&& self.model().palettes@.contains_key(
                        self.model().tile_sets@[j].palette_ptr,
                    )
                } by {
                    if j < i - 1 {
                        assert(s0.model().tiles@.contains_key(s0.model().tile_sets@[j].tiles_ptr));
                        assert(s0.model().tiles@.submap_of(s1.model().tiles@));
                        assert(s1.model().tiles@ == s2.model().tiles@);
                        assert(s2.model().tiles@ == self.model().tiles@);
                        assert(s0.model().tile_tables@.contains_key(
                            s0.model().tile_sets@[j].tile_table_ptr,
                        ));
                        assert(s0.model().palettes@.contains_key(
                            s0.model().tile_sets@[j].palette_ptr,
                        ));
                    } else {
                        assert(self.model().tile_sets@[j] == entry);
                    }
                }
                // the caches hold exactly the pointers of the entries done
                let iprev = i - 1;
                assert(self.model().tiles@.dom() == s0.model().tiles@.dom().insert(
                    entry.tiles_ptr,
                ));
                assert(self.model().tile_tables@.dom() == s1.model().tile_tables@.dom().insert(
                    entry.tile_table_ptr,
                ));
                assert(self.model().palettes@.dom() == s2.model().palettes@.dom().insert(
                    entry.palette_ptr,
                ));
                assert forall|k: u32| #[trigger] self.model().tiles@.contains_key(k) <==> (old(
                    self,
                ).model().tiles@.contains_key(k) || (exists|j: int|
                    0 <= j < i && (#[trigger] self.model().tile_sets@[j]).tiles_ptr == k)) by {
                    if self.model().tiles@.contains_key(k) {
                        if !s0.model().tiles@.contains_key(k) {
                            assert(self.model().tile_sets@[iprev].tiles_ptr == k);
                        }
                    } else {
                        assert(!s0.model().tiles@.contains_key(k));
                        if exists|j: int|
                            0 <= j < i && (#[trigger] self.model().tile_sets@[j]).tiles_ptr == k {
                            let j = choose|j: int|
                                0 <= j < i && (#[trigger] self.model().tile_sets@[j]).tiles_ptr
                                    == k;
                            assert(false);
                        }
                    }
                }
                assert forall|k: u32| #[trigger] self.model().tile_tables@.contains_key(k) <==> (
                old(self).model().tile_tables@.contains_key(k) || (exists|j: int|
                    0 <= j < i && (#[trigger] self.model().tile_sets@[j]).tile_table_ptr
                        == k)) by {
                    if self.model().tile_tables@.contains_key(k) {
                        if !s1.model().tile_tables@.contains_key(k) {
                            assert(self.model().tile_sets@[iprev].tile_table_ptr == k);
                        } else {
                            assert(s0.model().tile_tables@.contains_key(k));
                        }
                    } else {
                        assert(!s1.model().tile_tables@.contains_key(k));
                        assert(!s0.model().tile_tables@.contains_key(k));
                        if exists|j: int|
                            0 <= j < i && (#[trigger] self.model().tile_sets@[j]).tile_table_ptr
                                == k {
                            let j = choose|j: int|
                                0 <= j < i && (#[trigger] self.model().tile_sets@[j]).tile_table_ptr
                                    == k;
                            assert(false);
                        }
                    }
                }
                assert forall|k: u32| #[trigger] self.model().palettes@.contains_key(k) <==> (old(
                    self,
                ).model().palettes@.contains_key(k) || (exists|j: int|
                    0 <= j < i && (#[trigger] self.model().tile_sets@[j]).palette_ptr == k)) by {
                    if self.model().palettes@.contains_key(k) {
                        if !s2.model().palettes@.contains_key(k) {
                            assert(self.model().tile_sets@[iprev].palette_ptr == k);
                        } else {
                            assert(s0.model().palettes@.contains_key(k));
                        }
                    } else {
                        assert(!s2.model().palettes@.contains_key(k));
                        assert(!s0.model().palettes@.contains_key(k));
                        if exists|j: int|
                            0 <= j < i && (#[trigger] self.model().tile_sets@[j]).palette_ptr
                                == k {
                            let j = choose|j: int|
                                0 <= j < i && (#[trigger] self.model().tile_sets@[j]).palette_ptr
                                    == k;
                            assert(false);
                        }
                    }
                }
            }
        }
        let ghost after_sets = *self;
        let cre_tiles_addr = rom_addr_to_snes(CRE_TILES);
        match self.load_tiles(cre_tiles_addr) {
            Ok(_) => {},
            Err(e) => {
                proof {
                    assert(!tiles_loadable(rom0, spec_snes(CRE_TILES as int) as u32));
                    assert(!spec_artifacts_loadable(rom0));
                }
                return Err(e);
            },
        }
        let ghost after_cre = *self;
        let cre_table_addr = rom_addr_to_snes(CRE_TILE_TABLE);
        match self.load_tile_table(cre_table_addr) {
            Ok(_) => {},
            Err(e) => {
                proof {
                    assert(!tiles_loadable(rom0, spec_snes(CRE_TILE_TABLE as int) as u32));
                    assert(!spec_artifacts_loadable(rom0));
                }
                return Err(e);
            },
        }
        proof {
            // the per-tileset cache keys survive the last two loads
            assert forall|j: int| 0 <= j < 29 implies {
                &&& self.model().tiles@.contains_key(
                    (#[trigger] self.model().tile_sets@[j]).tiles_ptr,
                )
                &&& self.model().tile_tables@.contains_key(
                    self.model().tile_sets@[j].tile_table_ptr,
                )
                &&& self.model().palettes@.contains_key(self.model().tile_sets@[j].palette_ptr)
            } by {
                assert(after_sets.model().tiles@.contains_key(
                    after_sets.model().tile_sets@[j].tiles_ptr,
                ));
                assert(after_sets.model().tiles@.submap_of(after_cre.model().tiles@));
                assert(after_cre.model().tiles@ == self.model().tiles@);
                assert(after_sets.model().tile_tables@ == after_cre.model().tile_tables@);
                assert(after_cre.model().tile_tables@.submap_of(self.model().tile_tables@));
                assert(after_sets.model().palettes@ == self.model().palettes@);
            }
            assert(self.model().tiles@.contains_key(cre_tiles_addr)) by {
                assert(after_cre.model().tiles@.contains_key(cre_tiles_addr));
                assert(after_cre.model().tiles@ == self.model().tiles@);
            }
            // everything the tileset table names decodes
            assert forall|i: int| 0 <= i < 29 implies #[trigger] spec_tileset_entry(
                rom0,
                i,
            ) is Some by {
                assert(Some(self.sm.tile_sets@[i]) == spec_tileset_entry(rom0, i));
            }
            assert forall|i: int| 0 <= i < 29 implies {
                let e = (#[trigger] spec_tileset_entry(rom0, i))->Some_0;
                &&& tiles_loadable(rom0, e.tiles_ptr)
                &&& tiles_loadable(rom0, e.tile_table_ptr)
                &&& palette_loadable(rom0, e.palette_ptr)
            } by {
                assert(Some(self.sm.tile_sets@[i]) == spec_tileset_entry(rom0, i));
                let e = self.sm.tile_sets@[i];
                assert(self.sm.tiles@.contains_key(e.tiles_ptr));
                assert(tiles_binding(rom0, e.tiles_ptr, self.sm.tiles@[e.tiles_ptr]));
                assert(self.sm.tile_tables@.contains_key(e.tile_table_ptr));
                assert(table_binding(rom0, e.tile_table_ptr, self.sm.tile_tables@[e.tile_table_ptr]));
                assert(self.sm.palettes@.contains_key(e.palette_ptr));
                assert(palette_binding(rom0, e.palette_ptr, self.sm.palettes@[e.palette_ptr]));
            }
            assert(tiles_binding(
                rom0,
                cre_tiles_addr,
                self.sm.tiles@[spec_snes(CRE_TILES as int) as u32],
            ));
            assert(self.sm.tile_tables@.contains_key(spec_snes(CRE_TILE_TABLE as int) as u32));
            assert(table_binding(
                rom0,
                spec_snes(CRE_TILE_TABLE as int) as u32,
                self.sm.tile_tables@[spec_snes(CRE_TILE_TABLE as int) as u32],
            ));
            assert(spec_artifacts_loadable(rom0));
            // the final key sets: the 29 entries' pointers, plus the fixed
            // common graphics
            assert(after_cre.model().tiles@.dom() == after_sets.model().tiles@.dom().insert(
                cre_tiles_addr,
            ));
            assert(self.model().tile_tables@.dom()
                == after_cre.model().tile_tables@.dom().insert(cre_table_addr));
            assert forall|k: u32| #[trigger] self.model().tiles@.contains_key(k) <==> (old(
                self,
            ).model().tiles@.contains_key(k) || (exists|i: int|
                0 <= i < 29 && (#[trigger] self.model().tile_sets@[i]).tiles_ptr == k) || k
                == spec_snes(CRE_TILES as int) as u32) by {
                assert(self.model().tiles@ == after_cre.model().tiles@);
                assert(self.model().tile_sets@ == after_sets.model().tile_sets@);
                if self.model().tiles@.contains_key(k) && k != cre_tiles_addr {
                    assert(after_sets.model().tiles@.contains_key(k));
                }
                if !self.model().tiles@.contains_key(k) {
                    assert(!after_sets.model().tiles@.contains_key(k));
                }
            }
            assert forall|k: u32| #[trigger] self.model().tile_tables@.contains_key(k) <==> (old(
                self,
            ).model().tile_tables@.contains_key(k) || (exists|i: int|
                0 <= i < 29 && (#[trigger] self.model().tile_sets@[i]).tile_table_ptr == k) || k
                == spec_snes(CRE_TILE_TABLE as int) as u32) by {
                assert(after_sets.model().tile_tables@ == after_cre.model().tile_tables@);
                assert(self.model().tile_sets@ == after_sets.model().tile_sets@);
                if self.model().tile_tables@.contains_key(k) && k != cre_table_addr {
                    assert(after_sets.model().tile_tables@.contains_key(k));
                }
                if !self.model().tile_tables@.contains_key(k) {
                    assert(!after_sets.model().tile_tables@.contains_key(k));
                }
            }
            assert forall|k: u32| #[trigger] self.model().palettes@.contains_key(k) <==> (old(
                self,
            ).model().palettes@.contains_key(k) || (exists|i: int|
                0 <= i < 29 && (#[trigger] self.model().tile_sets@[i]).palette_ptr == k)) by {
                assert(self.model().palettes@ == after_sets.model().palettes@);
                assert(self.model().tile_sets@ == after_sets.model().tile_sets@);
            }
        }
        Ok(())
    }

    /// Drive the load: visit rooms until the frontier empties, then load the
    /// tileset table, every tileset's artifacts, and the common tiles and
    /// tile table.
    #[verifier::rlimit(100)]
    #[verifier::spinoff_prover]
    pub fn load(self) -> (res: Result<SuperMetroidData, SmError>)
        requires
            self.inv(),
            self.model().room_mdb@ == Map::<u16, RoomMdb>::empty(),
            self.model().level_data@ == Map::<u32, RoomData>::empty(),
            self.model().plm_population@ == Map::<u16, Vec<PlmPopulation>>::empty(),
            self.model().tiles@ == Map::<u32, Tiles>::empty(),
            self.model().tile_tables@ == Map::<u32, TileTable>::empty(),
            self.model().palettes@ == Map::<u32, Palette>::empty(),
            self.model().tile_sets@.len() == 0,
            self.frontier() == seq![0x91f8u16],
        ensures
            res matches Ok(sm) ==> {
                &&& sm_bound_to_rom(self.rom(), sm)
                &&& sm.states_cached()
                &&& sm.doors_resolved()
                &&& sm.tile_sets_cached()
                &&& sm.tiles_wf()
                &&& sm.palettes_wf()
                &&& sm.room_mdb@.contains_key(0x91f8)
                &&& sm.tiles@.contains_key(spec_snes(CRE_TILES as int) as u32)
                &&& sm.tile_tables@.contains_key(spec_snes(CRE_TILE_TABLE as int) as u32)
            },
            res matches Err(e) ==> !(e is WrongRomSize),
            res is Ok <==> spec_loadable(self.rom()),
            res matches Ok(sm) ==> forall|q: u16|
                #[trigger] sm.room_mdb@.contains_key(q) ==> spec_reachable(self.rom(), q),
            res matches Ok(sm) ==> forall|q: u16|
                #[trigger] spec_reachable(self.rom(), q) ==> sm.room_mdb@.contains_key(q),
            res matches Ok(sm) ==> forall|k: u32|
                #[trigger] sm.tiles@.contains_key(k) <==> ((exists|i: int|
                    0 <= i < 29 && (#[trigger] sm.tile_sets@[i]).tiles_ptr == k) || k == spec_snes(
                    CRE_TILES as int,
                ) as u32),
            res matches Ok(sm) ==> forall|k: u32|
                #[trigger] sm.tile_tables@.contains_key(k) <==> ((exists|i: int|
                    0 <= i < 29 && (#[trigger] sm.tile_sets@[i]).tile_table_ptr == k) || k
                    == spec_snes(CRE_TILE_TABLE as int) as u32),
            res matches Ok(sm) ==> forall|k: u32|
                #[trigger] sm.palettes@.contains_key(k) <==> (exists|i: int|
                    0 <= i < 29 && (#[trigger] sm.tile_sets@[i]).palette_ptr == k),
            res matches Ok(sm) ==> sm_level_keys_referenced(sm),
    {
        let mut this = self;
        let ghost rom0 = this.rom();
        proof {
            assert(this.frontier().contains(0x91f8u16)) by {
                assert(this.frontier()[0] == 0x91f8u16);
            }
        }
        proof {
            assert forall|y: u16| #[trigger] this.frontier().contains(y) implies spec_reachable(
                rom0,
                y,
            ) by {
                assert(y == 0x91f8u16);
                assert(spec_reachable_n(rom0, y, 0));
            }
            assert forall|q: u16| #[trigger] this.model().room_mdb@.contains_key(
                q,
            ) implies spec_reachable(rom0, q) by {
                assert(false);
            }
            reveal(sm_level_keys_referenced);
            assert(sm_level_keys_referenced(this.model()));
        }
        match this.load_rooms() {
            Ok(_) => {},
            Err(e) => {
                proof {
                    assert(!spec_rooms_loadable(rom0));
                }
                return Err(e);
            },
        }
        let ghost after_bfs = this;
        match this.load_artifacts() {
            Ok(_) => {},
            Err(e) => {
                proof {
                    assert(!spec_artifacts_loadable(rom0));
                }
                return Err(e);
            },
        }
        proof {
            // the doors stay closed through the artifact phase, and with an
            // empty frontier closure is over the model alone
            assert(sm_rooms_closed(this.model(), this.frontier()));
            assert(this.frontier().len() == 0);
            assert forall|q: u16| #[trigger] this.sm.room_mdb@.contains_key(q) implies {
                let room = this.sm.room_mdb@[q];
                forall|j: int|
                    0 <= j < room.door_list@.len() ==> {
                        &&& (#[trigger] room.door_list@[j]).dest_room_ptr != 0
                        &&& this.sm.room_mdb@.contains_key(room.door_list@[j].dest_room_ptr)
                    }
            } by {
                let room = this.sm.room_mdb@[q];
                assert forall|j: int| 0 <= j < room.door_list@.len() implies {
                    &&& (#[trigger] room.door_list@[j]).dest_room_ptr != 0
                    &&& this.sm.room_mdb@.contains_key(room.door_list@[j].dest_room_ptr)
                } by {
                    assert(!this.frontier().contains(room.door_list@[j].dest_room_ptr));
                }
            }
            // well-formedness of every cached blob follows from its binding
            assert forall|k: u32| #[trigger] this.sm.tiles@.contains_key(
                k,
            ) implies this.sm.tiles@[k].wf() by {
                assert(tiles_binding(rom0, k, this.sm.tiles@[k]));
            }
            assert forall|k: u32| #[trigger] this.sm.palettes@.contains_key(
                k,
            ) implies this.sm.palettes@[k].wf() && this.sm.palettes@[k].upshifted() by {
                assert(palette_binding(rom0, k, this.sm.palettes@[k]));
            }
            // the room map holds exactly the visited rooms, and every
            // visited room and named artifact decodes
            assert(this.sm.doors_resolved());
            assert forall|q: u16| #[trigger] this.sm.room_mdb@.contains_key(
                q,
            ) implies spec_reachable(rom0, q) by {
                assert(after_bfs.model().room_mdb@.contains_key(q));
            }
            lemma_model_rooms_loadable(rom0, this.sm);
            assert(spec_loadable(rom0));
            // the artifact caches hold exactly the named pointers
            assert(after_bfs.model().tiles@ == Map::<u32, Tiles>::empty());
            assert(after_bfs.model().tile_tables@ == Map::<u32, TileTable>::empty());
            assert(after_bfs.model().palettes@ == Map::<u32, Palette>::empty());
            assert forall|k: u32| #[trigger] this.sm.tiles@.contains_key(k) <==> ((exists|i: int|
                0 <= i < 29 && (#[trigger] this.sm.tile_sets@[i]).tiles_ptr == k) || k
                == spec_snes(CRE_TILES as int) as u32) by {
                assert(!after_bfs.model().tiles@.contains_key(k));
            }
            assert forall|k: u32| #[trigger] this.sm.tile_tables@.contains_key(k) <==> ((exists|
                i: int,
            |
                0 <= i < 29 && (#[trigger] this.sm.tile_sets@[i]).tile_table_ptr == k) || k
                == spec_snes(CRE_TILE_TABLE as int) as u32) by {
                assert(!after_bfs.model().tile_tables@.contains_key(k));
            }
            assert forall|k: u32| #[trigger] this.sm.palettes@.contains_key(k) <==> (exists|i: int|
                0 <= i < 29 && (#[trigger] this.sm.tile_sets@[i]).palette_ptr == k) by {
                assert(!after_bfs.model().palettes@.contains_key(k));
            }
            lemma_keys_referenced_congruence(after_bfs.model(), this.model());
        }
        Ok(this.sm)
    }
}

impl SuperMetroidData {
    /// Load the full model from a cartridge image.  The image must be
    /// exactly 0x300000 bytes; any parse failure, unknown tag, short read,
    /// malformed compression stream or stray pointer aborts the whole load.
    pub fn new(rom_data: &[u8]) -> (res: Result<SuperMetroidData, SmError>)
        ensures
            res == Err::<SuperMetroidData, SmError>(SmError::WrongRomSize) <==> rom_data@.len()
                != 0x300000,
            res matches Ok(sm) ==> {
                &&& rom_data@.len() == 0x300000
                &&& sm_bound_to_rom(rom_data@, sm)
                &&& sm.states_cached()
                &&& sm.doors_resolved()
                &&& sm.tile_sets_cached()
                &&& sm.tiles_wf()
                &&& sm.palettes_wf()
                &&& sm.room_mdb@.contains_key(0x91f8)
                &&& sm.tiles@.contains_key(spec_snes(CRE_TILES as int) as u32)
                &&& sm.tile_tables@.contains_key(spec_snes(CRE_TILE_TABLE as int) as u32)
            },
            res is Ok <==> rom_data@.len() == 0x300000 && spec_loadable(rom_data@),
            res matches Ok(sm) ==> forall|q: u16|
                #[trigger] sm.room_mdb@.contains_key(q) ==> spec_reachable(rom_data@, q),
            res matches Ok(sm) ==> forall|q: u16|
                #[trigger] spec_reachable(rom_data@, q) ==> sm.room_mdb@.contains_key(q),
            res matches Ok(sm) ==> forall|k: u32|
                #[trigger] sm.tiles@.contains_key(k) <==> ((exists|i: int|
                    0 <= i < 29 && (#[trigger] sm.tile_sets@[i]).tiles_ptr == k) || k == spec_snes(
                    CRE_TILES as int,
                ) as u32),
            res matches Ok(sm) ==> forall|k: u32|
                #[trigger] sm.tile_tables@.contains_key(k) <==> ((exists|i: int|
                    0 <= i < 29 && (#[trigger] sm.tile_sets@[i]).tile_table_ptr == k) || k
                    == spec_snes(CRE_TILE_TABLE as int) as u32),
            res matches Ok(sm) ==> forall|k: u32|
                #[trigger] sm.palettes@.contains_key(k) <==> (exists|i: int|
                    0 <= i < 29 && (#[trigger] sm.tile_sets@[i]).palette_ptr == k),
            res matches Ok(sm) ==> sm_level_keys_referenced(sm),
    {
        if rom_data.len() != 0x300000 {
            return Err(SmError::WrongRomSize);
        }
        let loader = Loader::new(rom_data);
        loader.load()
    }
}

} // verus!
