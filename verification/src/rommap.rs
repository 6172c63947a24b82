//! Conversions between flat cartridge offsets and the 24-bit banked pointer
//! space, together with the fixed table locations used by the loader.
//!
//! A banked pointer is a pair of a bank byte `b` (`0x80..=0xFF`) and a 16-bit
//! offset `o` (`0x8000..=0xFFFF`); the flat cartridge offset of such a pair is
//! `(b - 0x80) * 0x8000 + (o - 0x8000)`.

use vstd::arithmetic::div_mod::{lemma_mod_multiples_vanish, lemma_small_mod};
use vstd::prelude::*;

verus! {

/// Flat cartridge offset of the banked pointer `(bank, offset)`.
pub open spec fn spec_rom_addr(bank: int, offset: int) -> int {
    (bank - 0x80) * 0x8000 + (offset - 0x8000)
}

/// 16-bit in-bank pointer of the flat cartridge offset `addr`.
pub open spec fn spec_snes16(addr: int) -> int {
    addr % 0x8000 + 0x8000
}

/// Full 24-bit banked pointer of the flat cartridge offset `addr`.
pub open spec fn spec_snes(addr: int) -> int {
    0x800000 + (addr / 0x8000 % 0x100) * 0x10000 + (addr % 0x8000 + 0x8000)
}

/// Bank byte packed into the 24-bit pointer `addr`.
pub open spec fn spec_banked_bank(addr: int) -> int {
    addr / 0x10000 % 0x100
}

/// 16-bit offset packed into the 24-bit pointer `addr`.
pub open spec fn spec_banked_offset(addr: int) -> int {
    addr % 0x10000
}

/// A 24-bit pointer addresses cartridge bytes only when its bank byte is at
/// least 0x80 and its offset is in the upper half of the bank.
pub open spec fn spec_banked_valid(addr: int) -> bool {
    spec_banked_bank(addr) >= 0x80 && spec_banked_offset(addr) >= 0x8000
}

/// Flat cartridge offset of the packed 24-bit pointer `addr`.
pub open spec fn spec_snes_to_rom(addr: int) -> int {
    spec_rom_addr(spec_banked_bank(addr), spec_banked_offset(addr))
}

/// Flat offset of the seed room header (banked pointer (0x8F, 0x91F8)).
pub const ROOM_MDB_START: usize = 0x791f8;

/// Flat offset of the table of 16-bit tileset entry pointers.
pub const TILESET_POINTER_TABLE: usize = 0x7e7a7;

/// Number of entries in the tileset pointer table.
pub const TILESET_POINTER_TABLE_COUNT: usize = 29;

/// Bank that holds the tileset entries themselves.
pub const TILESET_ENTRY_BANK: usize = 0x8f;

/// Flat offset of the common (CRE) tile graphics.
pub const CRE_TILES: usize = 0x1c8000;

/// Flat offset of the common (CRE) tile table.
pub const CRE_TILE_TABLE: usize = 0x1ca09d;

/// The fixed table locations are the banked pointers the loader dereferences.
pub proof fn lemma_fixed_locations()
    ensures
        ROOM_MDB_START == spec_rom_addr(0x8f, 0x91f8),
        TILESET_POINTER_TABLE == spec_rom_addr(0x8f, 0xe7a7),
        CRE_TILES == spec_rom_addr(0xb9, 0x8000),
        CRE_TILE_TABLE == spec_rom_addr(0xb9, 0xa09d),
{
}

/// Flat cartridge offset of the banked pointer `(bank, offset)`.
pub fn rom_addr(bank: usize, offset: usize) -> (r: usize)
    requires
        0x80 <= bank < 0x100,
        0x8000 <= offset < 0x10000,
    ensures
        r == spec_rom_addr(bank as int, offset as int),
        r < 0x800000,
{
    (bank - 0x80) * 0x8000 + (offset - 0x8000)
}

/// 16-bit in-bank pointer of the flat cartridge offset `addr`.
pub fn rom_addr_to_snes16(addr: usize) -> (r: u16)
    ensures
        r == spec_snes16(addr as int),
{
    proof {
        assert(addr & 0x7fff == addr % 0x8000) by (bit_vector);
    }
    ((addr & 0x7fff) + 0x8000) as u16
}

/// Full 24-bit banked pointer of the flat cartridge offset `addr`.
pub fn rom_addr_to_snes(addr: usize) -> (r: u32)
    ensures
        r == spec_snes(addr as int),
{
    proof {
        assert((addr << 1usize) & 0xff_0000 == addr / 0x8000 % 0x100 * 0x10000) by (bit_vector);
        assert(addr & 0x7fff == addr % 0x8000) by (bit_vector);
    }
    (0x80_0000 + ((addr << 1usize) & 0xff_0000) + ((addr & 0x7fff) + 0x8000)) as u32
}

/// Whether the packed 24-bit pointer `addr` addresses cartridge bytes.
pub fn banked_valid(addr: u32) -> (r: bool)
    ensures
        r == spec_banked_valid(addr as int),
{
    proof {
        assert((addr >> 16u32) & 0xff == addr / 0x10000 % 0x100) by (bit_vector);
        assert(addr & 0xffff == addr % 0x10000) by (bit_vector);
    }
    ((addr >> 16u32) & 0xff) >= 0x80 && (addr & 0xffff) >= 0x8000
}

/// Flat cartridge offset of the packed 24-bit pointer `addr`.
pub fn snes_to_rom_addr(addr: u32) -> (r: usize)
    requires
        spec_banked_valid(addr as int),
    ensures
        r == spec_snes_to_rom(addr as int),
        r < 0x800000,
{
    proof {
        assert((addr >> 16u32) & 0xff == addr / 0x10000 % 0x100) by (bit_vector);
        assert(addr & 0xffff == addr % 0x10000) by (bit_vector);
        assert(addr / 0x10000 % 0x100 < 0x100);
        assert(addr % 0x10000 < 0x10000);
    }
    let bank = ((addr >> 16u32) & 0xff) as usize;
    let offset = (addr & 0xffff) as usize;
    rom_addr(bank, offset)
}

/// Law: the 16-bit in-bank pointer reconstructed from a flat offset recovers
/// the offset the flat address was built from, for every bank and every legal
/// in-bank offset.
pub proof fn lemma_snes16_round_trip(bank: int, offset: int)
    requires
        0x80 <= bank < 0x100,
        0x8000 <= offset < 0x10000,
    ensures
        spec_snes16(spec_rom_addr(bank, offset)) == offset,
{
    let m = offset - 0x8000;
    lemma_mod_multiples_vanish(bank - 0x80, m, 0x8000);
    lemma_small_mod(m as nat, 0x8000);
}

} // verus!
