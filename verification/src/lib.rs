//! A verified reader for a 3 MiB Super Metroid cartridge image.
//!
//! The library decompresses the cartridge's LZ-variant streams, follows the
//! pointer graph of rooms starting from a fixed seed, parses the fixed-layout
//! records (room headers, states, doors, object populations, tilesets,
//! palettes), and rasterises tiles, blocks and whole rooms into plain RGBA
//! buffers.  Every function is specified by `requires`/`ensures` contracts
//! over mathematical models of the byte formats.

pub mod compression;
pub mod graphics;
pub mod rommap;
pub mod util;

mod loader;
mod model;

pub use loader::load_block_info;
pub use loader::load_door_data;
pub use loader::load_plm_list;
pub use loader::load_room_data;
pub use loader::load_room_mdb;
pub use loader::load_room_mdb_header;
pub use loader::load_state_condition;
pub use loader::load_state_data;
pub use loader::load_states;
pub use loader::Loader;

pub use model::Area;
pub use model::BlockInfo;
pub use model::BlockType;
pub use model::Color;
pub use model::DoorData;
pub use model::EnumKind;
pub use model::Event;
pub use model::Palette;
pub use model::PlmItemId;
pub use model::PlmPopulation;
pub use model::RangeKind;
pub use model::RoomData;
pub use model::RoomMdb;
pub use model::SmError;
pub use model::State;
pub use model::StateCondition;
pub use model::StateConditionValue;
pub use model::StateData;
pub use model::SuperMetroidData;
pub use model::TileSet;
pub use model::TileSetEntry;
pub use model::TileTable;
pub use model::TileTableEntry;
pub use model::Tiles;
pub use model::PALETTE_ENTRIES;
