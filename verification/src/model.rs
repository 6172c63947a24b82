//! The in-memory model: every record parsed out of the cartridge, the
//! aggregate returned by the loader, and the error values a failed load or
//! render reports.

use std::collections::HashMap;
use vstd::prelude::*;

verus! {

/// Which enumeration a wire value failed to decode into.
#[derive(Clone, Copy, Debug, PartialEq, Eq)]
pub enum EnumKind {
    Area,
    Event,
    StateConditionValue,
    BlockType,
    TileSetId,
    Op,
}

/// Which entity an out-of-range index or pointer pointed into.
#[derive(Clone, Copy, Debug, PartialEq, Eq)]
pub enum RangeKind {
    Tile,
    Block,
    Pointer,
}

/// Why a load or a render failed, with the offending value or byte position.
#[derive(Clone, Copy, Debug, PartialEq, Eq)]
pub enum SmError {
    WrongRomSize,
    UnknownEnumTag { kind: EnumKind, value: u32, addr: usize },
    ShortRead { needed: usize, got: usize },
    MalformedCompression { pos: usize },
    OutOfRange { entity: RangeKind, index: usize },
    WrongSizedRoomData,
}

/// The region of the map a room belongs to.
#[derive(Clone, Copy, Debug, PartialEq, Eq)]
pub enum Area {
    Crateria,
    Brinstar,
    Norfair,
    WreckedShip,
    Maridia,
    Tourian,
    Ceres,
    Debug,
}

impl Area {
    /// Decoding of the wire byte: 0x00..=0x07 name the eight regions.
    pub open spec fn spec_from_u8(v: u8) -> Option<Area> {
        if v == 0x00 {
            Some(Area::Crateria)
        } else if v == 0x01 {
            Some(Area::Brinstar)
        } else if v == 0x02 {
            Some(Area::Norfair)
        } else if v == 0x03 {
            Some(Area::WreckedShip)
        } else if v == 0x04 {
            Some(Area::Maridia)
        } else if v == 0x05 {
            Some(Area::Tourian)
        } else if v == 0x06 {
            Some(Area::Ceres)
        } else if v == 0x07 {
            Some(Area::Debug)
        } else {
            None
        }
    }

    pub fn from_u8(v: u8) -> (r: Option<Area>)
        ensures
            r == Self::spec_from_u8(v),
    {
        match v {
            0x00 => Some(Area::Crateria),
            0x01 => Some(Area::Brinstar),
            0x02 => Some(Area::Norfair),
            0x03 => Some(Area::WreckedShip),
            0x04 => Some(Area::Maridia),
            0x05 => Some(Area::Tourian),
            0x06 => Some(Area::Ceres),
            0x07 => Some(Area::Debug),
            _ => None,
        }
    }
}

/// A story flag a room state can be conditioned on.
#[derive(Clone, Copy, Debug, PartialEq, Eq)]
pub enum Event {
    ZebesAwake,
    SuperMetroidAteSideHopper,
    MotherBrainGlassBroken,
    Zebetite1Destroyed,
    Zebetite2Destroyed,
    Zebetite3Destroyed,
    PhantoonStatueGrey,
    RidleyStatueGrey,
    DraygonStatueGrey,
    KraidStatueGrey,
    TourianUnlocked,
    MaridiaTubeBroken,
    LowerNorfairAcidLowered,
    ShaktoolPathClear,
    ZebesTimeBombSet,
    AnimalsSaved,
    FirstMetroidHallClear,
    FirstMetroidShaftClear,
    SecondMetroidHallClear,
    SecondMetroidShaftClear,
    Unused,
    OutranSpeedBoosterLavaQuake,
}

impl Event {
    /// Decoding of the wire byte: 0x00..=0x15 name the story flags.
    pub open spec fn spec_from_u8(v: u8) -> Option<Event> {
        if v == 0x00 {
            Some(Event::ZebesAwake)
        } else if v == 0x01 {
            Some(Event::SuperMetroidAteSideHopper)
        } else if v == 0x02 {
            Some(Event::MotherBrainGlassBroken)
        } else if v == 0x03 {
            Some(Event::Zebetite1Destroyed)
        } else if v == 0x04 {
            Some(Event::Zebetite2Destroyed)
        } else if v == 0x05 {
            Some(Event::Zebetite3Destroyed)
        } else if v == 0x06 {
            Some(Event::PhantoonStatueGrey)
        } else if v == 0x07 {
            Some(Event::RidleyStatueGrey)
        } else if v == 0x08 {
            Some(Event::DraygonStatueGrey)
        } else if v == 0x09 {
            Some(Event::KraidStatueGrey)
        } else if v == 0x0a {
            Some(Event::TourianUnlocked)
        } else if v == 0x0b {
            Some(Event::MaridiaTubeBroken)
        } else if v == 0x0c {
            Some(Event::LowerNorfairAcidLowered)
        } else if v == 0x0d {
            Some(Event::ShaktoolPathClear)
        } else if v == 0x0e {
            Some(Event::ZebesTimeBombSet)
        } else if v == 0x0f {
            Some(Event::AnimalsSaved)
        } else if v == 0x10 {
            Some(Event::FirstMetroidHallClear)
        } else if v == 0x11 {
            Some(Event::FirstMetroidShaftClear)
        } else if v == 0x12 {
            Some(Event::SecondMetroidHallClear)
        } else if v == 0x13 {
            Some(Event::SecondMetroidShaftClear)
        } else if v == 0x14 {
            Some(Event::Unused)
        } else if v == 0x15 {
            Some(Event::OutranSpeedBoosterLavaQuake)
        } else {
            None
        }
    }

    pub fn from_u8(v: u8) -> (r: Option<Event>)
        ensures
            r == Self::spec_from_u8(v),
    {
        match v {
            0x00 => Some(Event::ZebesAwake),
            0x01 => Some(Event::SuperMetroidAteSideHopper),
            0x02 => Some(Event::MotherBrainGlassBroken),
            0x03 => Some(Event::Zebetite1Destroyed),
            0x04 => Some(Event::Zebetite2Destroyed),
            0x05 => Some(Event::Zebetite3Destroyed),
            0x06 => Some(Event::PhantoonStatueGrey),
            0x07 => Some(Event::RidleyStatueGrey),
            0x08 => Some(Event::DraygonStatueGrey),
            0x09 => Some(Event::KraidStatueGrey),
            0x0a => Some(Event::TourianUnlocked),
            0x0b => Some(Event::MaridiaTubeBroken),
            0x0c => Some(Event::LowerNorfairAcidLowered),
            0x0d => Some(Event::ShaktoolPathClear),
            0x0e => Some(Event::ZebesTimeBombSet),
            0x0f => Some(Event::AnimalsSaved),
            0x10 => Some(Event::FirstMetroidHallClear),
            0x11 => Some(Event::FirstMetroidShaftClear),
            0x12 => Some(Event::SecondMetroidHallClear),
            0x13 => Some(Event::SecondMetroidShaftClear),
            0x14 => Some(Event::Unused),
            0x15 => Some(Event::OutranSpeedBoosterLavaQuake),
            _ => None,
        }
    }
}

/// The 16-bit selector that introduces a state condition on the wire.
#[derive(Clone, Copy, Debug, PartialEq, Eq)]
pub enum StateConditionValue {
    Default,
    DoorPointerIs,
    MainAreaBossDead,
    EventSet,
    AreaBossesDead,
    HasMorphBall,
    HasMorphBallAndMissiles,
    HasPowerBombs,
    HasSpeedBooster,
}

impl StateConditionValue {
    /// Decoding of the wire selector: a closed set of nine 16-bit tags.
    pub open spec fn spec_from_u16(v: u16) -> Option<StateConditionValue> {
        if v == 0xe5e6 {
            Some(StateConditionValue::Default)
        } else if v == 0xe5eb {
            Some(StateConditionValue::DoorPointerIs)
        } else if v == 0xe5ff {
            Some(StateConditionValue::MainAreaBossDead)
        } else if v == 0xe612 {
            Some(StateConditionValue::EventSet)
        } else if v == 0xe629 {
            Some(StateConditionValue::AreaBossesDead)
        } else if v == 0xe640 {
            Some(StateConditionValue::HasMorphBall)
        } else if v == 0xe652 {
            Some(StateConditionValue::HasMorphBallAndMissiles)
        } else if v == 0xe669 {
            Some(StateConditionValue::HasPowerBombs)
        } else if v == 0xe678 {
            Some(StateConditionValue::HasSpeedBooster)
        } else {
            None
        }
    }

    pub fn from_u16(v: u16) -> (r: Option<StateConditionValue>)
        ensures
            r == Self::spec_from_u16(v),
    {
        match v {
            0xe5e6 => Some(StateConditionValue::Default),
            0xe5eb => Some(StateConditionValue::DoorPointerIs),
            0xe5ff => Some(StateConditionValue::MainAreaBossDead),
            0xe612 => Some(StateConditionValue::EventSet),
            0xe629 => Some(StateConditionValue::AreaBossesDead),
            0xe640 => Some(StateConditionValue::HasMorphBall),
            0xe652 => Some(StateConditionValue::HasMorphBallAndMissiles),
            0xe669 => Some(StateConditionValue::HasPowerBombs),
            0xe678 => Some(StateConditionValue::HasSpeedBooster),
            _ => None,
        }
    }
}

/// A decoded state condition, with its payload where the selector carries one.
#[derive(Clone, Copy, Debug, PartialEq, Eq)]
pub enum StateCondition {
    Default,
    DoorPointerIs { value: u16 },
    MainAreaBossDead,
    EventSet { event: Event },
    /// 0x1 == main boss, 0x2 == mini boss, 0x4 == torizo.
    AreaBossesDead { bosses: u8 },
    HasMorphBall,
    HasMorphBallAndMissiles,
    HasPowerBombs,
    HasSpeedBooster,
}

/// A tileset the cartridge names by index.
#[derive(Clone, Copy, Debug, PartialEq, Eq)]
pub enum TileSet {
    UpperCrateria,
    RedCrateria,
    LowerCrateria,
    OldTourian,
    WreckedShipOff,
    WreckedShipOn,
    GreenBlueBrinstart,
    RedBrinstar,
    PreTourian,
    HeatedNorfair,
    UnheatedNorfiar,
    SandlessMaridia,
    SandyMaridia,
    Tourian,
    MotherBrainRoom,
    BlueCeres,
    WhiteCeres,
    BlueCeresElevator,
    WhiteCeresElevator,
    BlueCeresRidley,
    WhiteCeresRidley,
    MapRoom,
    WreckedShipMapRoomOff,
    BlueRefillRoom,
    YellowRefillRoom,
    SaveRoom,
    KraidRoom,
    CrocomireRoom,
    DraygonRoom,
}

impl TileSet {
    /// Decoding of the wire byte: 0x00..=0x1C name the tilesets.
    pub open spec fn spec_from_u8(v: u8) -> Option<TileSet> {
        if v == 0x00 {
            Some(TileSet::UpperCrateria)
        } else if v == 0x01 {
            Some(TileSet::RedCrateria)
        } else if v == 0x02 {
            Some(TileSet::LowerCrateria)
        } else if v == 0x03 {
            Some(TileSet::OldTourian)
        } else if v == 0x04 {
            Some(TileSet::WreckedShipOff)
        } else if v == 0x05 {
            Some(TileSet::WreckedShipOn)
        } else if v == 0x06 {
            Some(TileSet::GreenBlueBrinstart)
        } else if v == 0x07 {
            Some(TileSet::RedBrinstar)
        } else if v == 0x08 {
            Some(TileSet::PreTourian)
        } else if v == 0x09 {
            Some(TileSet::HeatedNorfair)
        } else if v == 0x0a {
            Some(TileSet::UnheatedNorfiar)
        } else if v == 0x0b {
            Some(TileSet::SandlessMaridia)
        } else if v == 0x0c {
            Some(TileSet::SandyMaridia)
        } else if v == 0x0d {
            Some(TileSet::Tourian)
        } else if v == 0x0e {
            Some(TileSet::MotherBrainRoom)
        } else if v == 0x0f {
            Some(TileSet::BlueCeres)
        } else if v == 0x10 {
            Some(TileSet::WhiteCeres)
        } else if v == 0x11 {
            Some(TileSet::BlueCeresElevator)
        } else if v == 0x12 {
            Some(TileSet::WhiteCeresElevator)
        } else if v == 0x13 {
            Some(TileSet::BlueCeresRidley)
        } else if v == 0x14 {
            Some(TileSet::WhiteCeresRidley)
        } else if v == 0x15 {
            Some(TileSet::MapRoom)
        } else if v == 0x16 {
            Some(TileSet::WreckedShipMapRoomOff)
        } else if v == 0x17 {
            Some(TileSet::BlueRefillRoom)
        } else if v == 0x18 {
            Some(TileSet::YellowRefillRoom)
        } else if v == 0x19 {
            Some(TileSet::SaveRoom)
        } else if v == 0x1a {
            Some(TileSet::KraidRoom)
        } else if v == 0x1b {
            Some(TileSet::CrocomireRoom)
        } else if v == 0x1c {
            Some(TileSet::DraygonRoom)
        } else {
            None
        }
    }

    pub fn from_u8(v: u8) -> (r: Option<TileSet>)
        ensures
            r == Self::spec_from_u8(v),
    {
        match v {
            0x00 => Some(TileSet::UpperCrateria),
            0x01 => Some(TileSet::RedCrateria),
            0x02 => Some(TileSet::LowerCrateria),
            0x03 => Some(TileSet::OldTourian),
            0x04 => Some(TileSet::WreckedShipOff),
            0x05 => Some(TileSet::WreckedShipOn),
            0x06 => Some(TileSet::GreenBlueBrinstart),
            0x07 => Some(TileSet::RedBrinstar),
            0x08 => Some(TileSet::PreTourian),
            0x09 => Some(TileSet::HeatedNorfair),
            0x0a => Some(TileSet::UnheatedNorfiar),
            0x0b => Some(TileSet::SandlessMaridia),
            0x0c => Some(TileSet::SandyMaridia),
            0x0d => Some(TileSet::Tourian),
            0x0e => Some(TileSet::MotherBrainRoom),
            0x0f => Some(TileSet::BlueCeres),
            0x10 => Some(TileSet::WhiteCeres),
            0x11 => Some(TileSet::BlueCeresElevator),
            0x12 => Some(TileSet::WhiteCeresElevator),
            0x13 => Some(TileSet::BlueCeresRidley),
            0x14 => Some(TileSet::WhiteCeresRidley),
            0x15 => Some(TileSet::MapRoom),
            0x16 => Some(TileSet::WreckedShipMapRoomOff),
            0x17 => Some(TileSet::BlueRefillRoom),
            0x18 => Some(TileSet::YellowRefillRoom),
            0x19 => Some(TileSet::SaveRoom),
            0x1a => Some(TileSet::KraidRoom),
            0x1b => Some(TileSet::CrocomireRoom),
            0x1c => Some(TileSet::DraygonRoom),
            _ => None,
        }
    }
}

/// The fixed 26-byte record behind a state: pointers into the banks that hold
/// the room's level data, effects, enemies, scrolling and code hooks.
#[derive(Clone, Copy, Debug, PartialEq, Eq)]
pub struct StateData {
    pub level_data: u32,
    pub tile_set: TileSet,
    pub music_data_index: u8,
    pub music_track: u8,
    pub fx_ptr: u16,
    pub enemy_population: u16,
    pub enemy_set: u16,
    pub layer_2_scroll_x: u8,
    pub layer_2_scroll_y: u8,
    pub scroll_ptr: u16,
    pub x_ray_block_ptr: u16,
    pub main_asm_ptr: u16,
    pub plm_ptr: u16,
    pub bg_ptr: u16,
    pub setup_asm_ptr: u16,
}

/// One alternative presentation of a room: a condition and its data record.
#[derive(Clone, Copy, Debug, PartialEq, Eq)]
pub struct State {
    pub condition: StateCondition,
    pub data: StateData,
}

/// Terrain semantics of one block, the high four bits of its wire word.
#[derive(Clone, Copy, Debug, PartialEq, Eq)]
pub enum BlockType {
    Air,
    Slope,
    SpikeAir,
    SpecialAir,
    ShootableAir,
    HorizontalExtension,
    UnusedAir,
    BombableAir,
    SolidBlock,
    DoorBlock,
    SpikeBlock,
    SpecialBlock,
    ShootableBlock,
    VerticalExtension,
    GrappleBlock,
    BombableBlock,
}

impl BlockType {
    /// Decoding of the four-bit wire value; every value 0x0..=0xF is named.
    pub open spec fn spec_from_u8(v: u8) -> Option<BlockType> {
        if v == 0x0 {
            Some(BlockType::Air)
        } else if v == 0x1 {
            Some(BlockType::Slope)
        } else if v == 0x2 {
            Some(BlockType::SpikeAir)
        } else if v == 0x3 {
            Some(BlockType::SpecialAir)
        } else if v == 0x4 {
            Some(BlockType::ShootableAir)
        } else if v == 0x5 {
            Some(BlockType::HorizontalExtension)
        } else if v == 0x6 {
            Some(BlockType::UnusedAir)
        } else if v == 0x7 {
            Some(BlockType::BombableAir)
        } else if v == 0x8 {
            Some(BlockType::SolidBlock)
        } else if v == 0x9 {
            Some(BlockType::DoorBlock)
        } else if v == 0xa {
            Some(BlockType::SpikeBlock)
        } else if v == 0xb {
            Some(BlockType::SpecialBlock)
        } else if v == 0xc {
            Some(BlockType::ShootableBlock)
        } else if v == 0xd {
            Some(BlockType::VerticalExtension)
        } else if v == 0xe {
            Some(BlockType::GrappleBlock)
        } else if v == 0xf {
            Some(BlockType::BombableBlock)
        } else {
            None
        }
    }

    pub fn from_u8(v: u8) -> (r: Option<BlockType>)
        ensures
            r == Self::spec_from_u8(v),
    {
        match v {
            0x0 => Some(BlockType::Air),
            0x1 => Some(BlockType::Slope),
            0x2 => Some(BlockType::SpikeAir),
            0x3 => Some(BlockType::SpecialAir),
            0x4 => Some(BlockType::ShootableAir),
            0x5 => Some(BlockType::HorizontalExtension),
            0x6 => Some(BlockType::UnusedAir),
            0x7 => Some(BlockType::BombableAir),
            0x8 => Some(BlockType::SolidBlock),
            0x9 => Some(BlockType::DoorBlock),
            0xa => Some(BlockType::SpikeBlock),
            0xb => Some(BlockType::SpecialBlock),
            0xc => Some(BlockType::ShootableBlock),
            0xd => Some(BlockType::VerticalExtension),
            0xe => Some(BlockType::GrappleBlock),
            0xf => Some(BlockType::BombableBlock),
            _ => None,
        }
    }
}

/// One cell of a room's level grid, decoded from a 16-bit wire word.
#[derive(Clone, Copy, Debug, PartialEq, Eq)]
pub struct BlockInfo {
    pub ty: BlockType,
    pub x_flip: bool,
    pub y_flip: bool,
    pub tile_index: u16,
}

impl BlockInfo {
    /// Decoding of the wire word: low 10 bits the tile index, bit 10 the
    /// horizontal flip, bit 11 the vertical flip, the high 4 bits the type.
    pub open spec fn spec_from_u16(v: u16) -> BlockInfo {
        BlockInfo {
            ty: BlockType::spec_from_u8(((v >> 12) & 0xf) as u8)->Some_0,
            x_flip: v & 0x400 == 0x400,
            y_flip: v & 0x800 == 0x800,
            tile_index: v & 0x3ff,
        }
    }

    pub fn from_u16(v: u16) -> (r: BlockInfo)
        ensures
            r == Self::spec_from_u16(v),
    {
        proof {
            assert((v >> 12u16) & 0xf < 0x10) by (bit_vector);
        }
        let ty = match BlockType::from_u8(((v >> 12u16) & 0xf) as u8) {
            Some(t) => t,
            None => BlockType::Air,
        };
        BlockInfo { ty, x_flip: v & 0x400 == 0x400, y_flip: v & 0x800 == 0x800, tile_index: v & 0x3ff }
    }
}

/// The decoded level grid of one room: one block and one behaviour byte per
/// cell, an optional second layer, and the door count the grid implies.
#[derive(Clone, Debug)]
pub struct RoomData {
    pub layer_1: Vec<BlockInfo>,
    pub bts: Vec<u8>,
    pub layer_2: Option<Vec<BlockInfo>>,
    pub num_doors: usize,
}

/// One door: destination room, placement, and spawn information.
#[derive(Clone, Copy, Debug, PartialEq, Eq)]
pub struct DoorData {
    pub dest_room_ptr: u16,
    pub elevator_props: u8,
    pub orientation: u8,
    pub x: u16,
    pub y: u16,
    pub spawn_dist: u16,
    pub asm_ptr: u16,
}

/// A room: the 11-byte header, the alternative states, and the door list.
#[derive(Clone, Debug)]
pub struct RoomMdb {
    pub index: u8,
    pub area: Area,
    pub x: u8,
    pub y: u8,
    pub width: u8,
    pub height: u8,
    pub up_scroller: u8,
    pub down_scroller: u8,
    pub graphics_flags: u8,
    pub door_list_ptr: u16,
    pub states: Vec<State>,
    pub door_list: Vec<DoorData>,
}

/// One interactive placement stamped into a room at load time.
#[derive(Clone, Copy, Debug, PartialEq, Eq)]
pub struct PlmPopulation {
    pub id: u16,
    pub x: u8,
    pub y: u8,
    pub param: u16,
}

/// The placement identifiers that stand for collectable items.
#[derive(Clone, Copy, Debug, PartialEq, Eq)]
pub enum PlmItemId {
    ETank,
    Missile,
    SuperMissile,
    PowerBomb,
    Bomb,
    Charge,
    Ice,
    HiJump,
    SpeedBooster,
    Wave,
    Spazer,
    SpringBall,
    Varia,
    Gravity,
    Plasma,
    XRayScope,
    Grapple,
    SpaceJump,
    ScrewAttack,
    Morph,
    Reserve,
    ETankChozo,
    MissileChozo,
    SuperMissileChozo,
    PowerBombChozo,
    BombChozo,
    ChargeChozo,
    HiJumpChozo,
    SpeedBoosterChozo,
    IceChozo,
    WaveChozo,
    SpazerChozo,
    SpringBallChozo,
    VariaChozo,
    GravityChozo,
    XRayScopeChozo,
    PlasmaChozo,
    GrappleChozo,
    SpaceJumpChozo,
    ScrewAttackChozo,
    MorphChozo,
    ReserveChozo,
    ETankHidden,
    MissileHidden,
    SuperMissileHidden,
    PowerBombHidden,
    BombHidden,
    ChargeHidden,
    IceHidden,
    HiJumpHidden,
    SpeedBoosterHidden,
    WaveHidden,
    SpazerHidden,
    SpringBallHidden,
    VariaHidden,
    GravityHidden,
    XRayScopeHidden,
    PlasmaHidden,
    GrappleHidden,
    SpaceJumpHidden,
    ScrewAttackHidden,
    MorphHidden,
    ReserveHidden,
}

impl PlmItemId {
    /// Decoding of the 16-bit placement identifier for collectable items.
    pub open spec fn spec_from_u16(v: u16) -> Option<PlmItemId> {
        if v == 0xeed7 {
            Some(PlmItemId::ETank)
        } else if v == 0xeedb {
            Some(PlmItemId::Missile)
        } else if v == 0xeedf {
            Some(PlmItemId::SuperMissile)
        } else if v == 0xeee3 {
            Some(PlmItemId::PowerBomb)
        } else if v == 0xeee7 {
            Some(PlmItemId::Bomb)
        } else if v == 0xeeeb {
            Some(PlmItemId::Charge)
        } else if v == 0xeeef {
            Some(PlmItemId::Ice)
        } else if v == 0xeef3 {
            Some(PlmItemId::HiJump)
        } else if v == 0xeef7 {
            Some(PlmItemId::SpeedBooster)
        } else if v == 0xeefb {
            Some(PlmItemId::Wave)
        } else if v == 0xeeff {
            Some(PlmItemId::Spazer)
        } else if v == 0xef03 {
            Some(PlmItemId::SpringBall)
        } else if v == 0xef07 {
            Some(PlmItemId::Varia)
        } else if v == 0xef0b {
            Some(PlmItemId::Gravity)
        } else if v == 0xef13 {
            Some(PlmItemId::Plasma)
        } else if v == 0xef0f {
            Some(PlmItemId::XRayScope)
        } else if v == 0xef17 {
            Some(PlmItemId::Grapple)
        } else if v == 0xef1b {
            Some(PlmItemId::SpaceJump)
        } else if v == 0xef1f {
            Some(PlmItemId::ScrewAttack)
        } else if v == 0xef23 {
            Some(PlmItemId::Morph)
        } else if v == 0xef27 {
            Some(PlmItemId::Reserve)
        } else if v == 0xef2b {
            Some(PlmItemId::ETankChozo)
        } else if v == 0xef2f {
            Some(PlmItemId::MissileChozo)
        } else if v == 0xef33 {
            Some(PlmItemId::SuperMissileChozo)
        } else if v == 0xef37 {
            Some(PlmItemId::PowerBombChozo)
        } else if v == 0xef3b {
            Some(PlmItemId::BombChozo)
        } else if v == 0xef3f {
            Some(PlmItemId::ChargeChozo)
        } else if v == 0xef47 {
            Some(PlmItemId::HiJumpChozo)
        } else if v == 0xef4b {
            Some(PlmItemId::SpeedBoosterChozo)
        } else if v == 0xef4e {
            Some(PlmItemId::IceChozo)
        } else if v == 0xef4f {
            Some(PlmItemId::WaveChozo)
        } else if v == 0xef53 {
            Some(PlmItemId::SpazerChozo)
        } else if v == 0xef57 {
            Some(PlmItemId::SpringBallChozo)
        } else if v == 0xef5b {
            Some(PlmItemId::VariaChozo)
        } else if v == 0xef5f {
            Some(PlmItemId::GravityChozo)
        } else if v == 0xef63 {
            Some(PlmItemId::XRayScopeChozo)
        } else if v == 0xef67 {
            Some(PlmItemId::PlasmaChozo)
        } else if v == 0xef6b {
            Some(PlmItemId::GrappleChozo)
        } else if v == 0xef6f {
            Some(PlmItemId::SpaceJumpChozo)
        } else if v == 0xef73 {
            Some(PlmItemId::ScrewAttackChozo)
        } else if v == 0xef77 {
            Some(PlmItemId::MorphChozo)
        } else if v == 0xef7b {
            Some(PlmItemId::ReserveChozo)
        } else if v == 0xef7f {
            Some(PlmItemId::ETankHidden)
        } else if v == 0xef83 {
            Some(PlmItemId::MissileHidden)
        } else if v == 0xef87 {
            Some(PlmItemId::SuperMissileHidden)
        } else if v == 0xef8b {
            Some(PlmItemId::PowerBombHidden)
        } else if v == 0xef8f {
            Some(PlmItemId::BombHidden)
        } else if v == 0xef93 {
            Some(PlmItemId::ChargeHidden)
        } else if v == 0xef97 {
            Some(PlmItemId::IceHidden)
        } else if v == 0xef9b {
            Some(PlmItemId::HiJumpHidden)
        } else if v == 0xef9f {
            Some(PlmItemId::SpeedBoosterHidden)
        } else if v == 0xefa3 {
            Some(PlmItemId::WaveHidden)
        } else if v == 0xefa7 {
            Some(PlmItemId::SpazerHidden)
        } else if v == 0xefab {
            Some(PlmItemId::SpringBallHidden)
        } else if v == 0xefaf {
            Some(PlmItemId::VariaHidden)
        } else if v == 0xefb3 {
            Some(PlmItemId::GravityHidden)
        } else if v == 0xefb7 {
            Some(PlmItemId::XRayScopeHidden)
        } else if v == 0xefbb {
            Some(PlmItemId::PlasmaHidden)
        } else if v == 0xefbf {
            Some(PlmItemId::GrappleHidden)
        } else if v == 0xefc3 {
            Some(PlmItemId::SpaceJumpHidden)
        } else if v == 0xefc7 {
            Some(PlmItemId::ScrewAttackHidden)
        } else if v == 0xefcb {
            Some(PlmItemId::MorphHidden)
        } else if v == 0xefcf {
            Some(PlmItemId::ReserveHidden)
        } else {
            None
        }
    }

    pub fn from_u16(v: u16) -> (r: Option<PlmItemId>)
        ensures
            r == Self::spec_from_u16(v),
    {
        match v {
            0xeed7 => Some(PlmItemId::ETank),
            0xeedb => Some(PlmItemId::Missile),
            0xeedf => Some(PlmItemId::SuperMissile),
            0xeee3 => Some(PlmItemId::PowerBomb),
            0xeee7 => Some(PlmItemId::Bomb),
            0xeeeb => Some(PlmItemId::Charge),
            0xeeef => Some(PlmItemId::Ice),
            0xeef3 => Some(PlmItemId::HiJump),
            0xeef7 => Some(PlmItemId::SpeedBooster),
            0xeefb => Some(PlmItemId::Wave),
            0xeeff => Some(PlmItemId::Spazer),
            0xef03 => Some(PlmItemId::SpringBall),
            0xef07 => Some(PlmItemId::Varia),
            0xef0b => Some(PlmItemId::Gravity),
            0xef13 => Some(PlmItemId::Plasma),
            0xef0f => Some(PlmItemId::XRayScope),
            0xef17 => Some(PlmItemId::Grapple),
            0xef1b => Some(PlmItemId::SpaceJump),
            0xef1f => Some(PlmItemId::ScrewAttack),
            0xef23 => Some(PlmItemId::Morph),
            0xef27 => Some(PlmItemId::Reserve),
            0xef2b => Some(PlmItemId::ETankChozo),
            0xef2f => Some(PlmItemId::MissileChozo),
            0xef33 => Some(PlmItemId::SuperMissileChozo),
            0xef37 => Some(PlmItemId::PowerBombChozo),
            0xef3b => Some(PlmItemId::BombChozo),
            0xef3f => Some(PlmItemId::ChargeChozo),
            0xef47 => Some(PlmItemId::HiJumpChozo),
            0xef4b => Some(PlmItemId::SpeedBoosterChozo),
            0xef4e => Some(PlmItemId::IceChozo),
            0xef4f => Some(PlmItemId::WaveChozo),
            0xef53 => Some(PlmItemId::SpazerChozo),
            0xef57 => Some(PlmItemId::SpringBallChozo),
            0xef5b => Some(PlmItemId::VariaChozo),
            0xef5f => Some(PlmItemId::GravityChozo),
            0xef63 => Some(PlmItemId::XRayScopeChozo),
            0xef67 => Some(PlmItemId::PlasmaChozo),
            0xef6b => Some(PlmItemId::GrappleChozo),
            0xef6f => Some(PlmItemId::SpaceJumpChozo),
            0xef73 => Some(PlmItemId::ScrewAttackChozo),
            0xef77 => Some(PlmItemId::MorphChozo),
            0xef7b => Some(PlmItemId::ReserveChozo),
            0xef7f => Some(PlmItemId::ETankHidden),
            0xef83 => Some(PlmItemId::MissileHidden),
            0xef87 => Some(PlmItemId::SuperMissileHidden),
            0xef8b => Some(PlmItemId::PowerBombHidden),
            0xef8f => Some(PlmItemId::BombHidden),
            0xef93 => Some(PlmItemId::ChargeHidden),
            0xef97 => Some(PlmItemId::IceHidden),
            0xef9b => Some(PlmItemId::HiJumpHidden),
            0xef9f => Some(PlmItemId::SpeedBoosterHidden),
            0xefa3 => Some(PlmItemId::WaveHidden),
            0xefa7 => Some(PlmItemId::SpazerHidden),
            0xefab => Some(PlmItemId::SpringBallHidden),
            0xefaf => Some(PlmItemId::VariaHidden),
            0xefb3 => Some(PlmItemId::GravityHidden),
            0xefb7 => Some(PlmItemId::XRayScopeHidden),
            0xefbb => Some(PlmItemId::PlasmaHidden),
            0xefbf => Some(PlmItemId::GrappleHidden),
            0xefc3 => Some(PlmItemId::SpaceJumpHidden),
            0xefc7 => Some(PlmItemId::ScrewAttackHidden),
            0xefcb => Some(PlmItemId::MorphHidden),
            0xefcf => Some(PlmItemId::ReserveHidden),
            _ => None,
        }
    }
}

/// One tileset: three 24-bit pointers naming its tile table, its tile
/// graphics, and its palette.
#[derive(Clone, Copy, Debug, PartialEq, Eq)]
pub struct TileSetEntry {
    pub tile_table_ptr: u32,
    pub tiles_ptr: u32,
    pub palette_ptr: u32,
}

/// Tile graphics, de-planarised and stored packed: two 4-bit pixels per byte,
/// the low nibble the even column; 32 bytes per 8 x 8 tile.
#[derive(Clone, Debug)]
pub struct Tiles {
    pub data: Vec<u8>,
}

impl Tiles {
    /// Tile data always holds whole 32-byte tiles.
    pub open spec fn wf(self) -> bool {
        self.data@.len() % 32 == 0
    }
}

/// One quarter of a 16 x 16 block: a tile index with palette group, priority
/// and flips, decoded from a 16-bit wire word.
#[derive(Clone, Copy, Debug, PartialEq, Eq)]
pub struct TileTableEntry {
    pub index: u16,
    pub palette: u8,
    pub priority: bool,
    pub flip_h: bool,
    pub flip_v: bool,
}

impl TileTableEntry {
    /// Decoding of the wire word: low 10 bits the tile index, bits 10..=12
    /// the palette group, bit 13 the priority, bit 14 and 15 the flips.
    pub open spec fn spec_from_u16(v: u16) -> TileTableEntry {
        TileTableEntry {
            index: v & 0x3ff,
            palette: ((v >> 10) & 0x7) as u8,
            priority: v & 0x2000 != 0,
            flip_h: v & 0x4000 != 0,
            flip_v: v & 0x8000 != 0,
        }
    }

    pub fn from_u16(v: u16) -> (r: TileTableEntry)
        ensures
            r == Self::spec_from_u16(v),
    {
        proof {
            assert((v >> 10u16) & 0x7 < 0x100) by (bit_vector);
        }
        TileTableEntry {
            index: v & 0x3ff,
            palette: ((v >> 10u16) & 0x7) as u8,
            priority: v & 0x2000 != 0,
            flip_h: v & 0x4000 != 0,
            flip_v: v & 0x8000 != 0,
        }
    }
}

/// The 16-bit words of a tile table, consumed in groups of four to form
/// 16 x 16 blocks.
#[derive(Clone, Debug)]
pub struct TileTable {
    pub entries: Vec<TileTableEntry>,
}

/// An 8-bit-per-channel colour decoded from a BGR5 wire word.
#[derive(Clone, Copy, Debug, PartialEq, Eq)]
pub struct Color {
    pub r: u8,
    pub g: u8,
    pub b: u8,
}

impl Color {
    /// Decoding of the BGR5 wire word: each 5-bit channel shifted up by 3.
    pub open spec fn spec_from_u16(v: u16) -> Color {
        Color {
            r: ((v & 0x1f) << 3) as u8,
            g: (((v >> 5) & 0x1f) << 3) as u8,
            b: (((v >> 10) & 0x1f) << 3) as u8,
        }
    }

    /// Every channel of a decoded colour has its low three bits clear.
    pub open spec fn upshifted(self) -> bool {
        self.r % 8 == 0 && self.g % 8 == 0 && self.b % 8 == 0
    }

    pub fn from_u16(v: u16) -> (r: Color)
        ensures
            r == Self::spec_from_u16(v),
            r.upshifted(),
    {
        proof {
            assert((v & 0x1f) << 3u16 < 0x100 && ((v & 0x1f) << 3u16) % 8 == 0) by (bit_vector);
            assert(((v >> 5u16) & 0x1f) << 3u16 < 0x100 && (((v >> 5u16) & 0x1f) << 3u16) % 8 == 0)
                by (bit_vector);
            assert(((v >> 10u16) & 0x1f) << 3u16 < 0x100 && (((v >> 10u16) & 0x1f) << 3u16) % 8 == 0)
                by (bit_vector);
        }
        Color {
            r: ((v & 0x1f) << 3u16) as u8,
            g: (((v >> 5u16) & 0x1f) << 3u16) as u8,
            b: (((v >> 10u16) & 0x1f) << 3u16) as u8,
        }
    }
}

/// Number of colours in a palette: sixteen colours in each of eight groups.
pub const PALETTE_ENTRIES: usize = 128;

/// A decoded palette of exactly [`PALETTE_ENTRIES`] colours.
#[derive(Clone, Debug)]
pub struct Palette {
    pub colors: Vec<Color>,
}

impl Palette {
    /// A palette always holds exactly [`PALETTE_ENTRIES`] colours.
    pub open spec fn wf(self) -> bool {
        self.colors@.len() == PALETTE_ENTRIES
    }

    /// Every colour came from a BGR5 word: all channels have the low three
    /// bits clear.
    pub open spec fn upshifted(self) -> bool {
        forall|i: int| 0 <= i < self.colors@.len() ==> (#[trigger] self.colors@[i]).upshifted()
    }
}

/// Everything extracted from the cartridge, keyed by the pointer each entity
/// lives at.
#[derive(Debug)]
pub struct SuperMetroidData {
    pub room_mdb: HashMap<u16, RoomMdb>,
    pub level_data: HashMap<u32, RoomData>,
    pub plm_population: HashMap<u16, Vec<PlmPopulation>>,
    pub tile_sets: Vec<TileSetEntry>,
    pub tiles: HashMap<u32, Tiles>,
    pub tile_tables: HashMap<u32, TileTable>,
    pub palettes: HashMap<u32, Palette>,
}

impl SuperMetroidData {
    /// The tileset list is full and every entry's three pointers are keys of
    /// their caches.
    pub open spec fn tile_sets_cached(self) -> bool {
        &&& self.tile_sets@.len() == 29
        &&& forall|i: int| 0 <= i < self.tile_sets@.len() ==> {
            &&& self.tiles@.contains_key((#[trigger] self.tile_sets@[i]).tiles_ptr)
            &&& self.tile_tables@.contains_key(self.tile_sets@[i].tile_table_ptr)
            &&& self.palettes@.contains_key(self.tile_sets@[i].palette_ptr)
        }
    }

    /// Every state of every room has its level data and its placement list in
    /// the caches.
    pub open spec fn states_cached(self) -> bool {
        forall|p: u16|
            #[trigger] self.room_mdb@.contains_key(p) ==> {
                let room = self.room_mdb@[p];
                forall|i: int| 0 <= i < room.states@.len() ==> {
                    &&& self.level_data@.contains_key((#[trigger] room.states@[i]).data.level_data)
                    &&& self.plm_population@.contains_key(room.states@[i].data.plm_ptr)
                }
            }
    }

    /// Every door kept in a room's door list points at a room of the model.
    pub open spec fn doors_resolved(self) -> bool {
        forall|p: u16|
            #[trigger] self.room_mdb@.contains_key(p) ==> {
                let room = self.room_mdb@[p];
                forall|i: int| 0 <= i < room.door_list@.len() ==> {
                    &&& (#[trigger] room.door_list@[i]).dest_room_ptr != 0
                    &&& self.room_mdb@.contains_key(room.door_list@[i].dest_room_ptr)
                }
            }
    }

    /// Every cached tile blob holds whole 32-byte tiles.
    pub open spec fn tiles_wf(self) -> bool {
        forall|p: u32| #[trigger] self.tiles@.contains_key(p) ==> self.tiles@[p].wf()
    }

    /// Every cached palette holds exactly 128 upshifted colours.
    pub open spec fn palettes_wf(self) -> bool {
        forall|p: u32|
            #[trigger] self.palettes@.contains_key(p) ==> self.palettes@[p].wf()
                && self.palettes@[p].upshifted()
    }
}

} // verus!
