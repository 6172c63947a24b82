use super_metroid::graphics::de_planar_tiles;
use super_metroid::graphics::get_pixel;
use super_metroid::graphics::get_tile;
use super_metroid::graphics::render_graphics;
use super_metroid::graphics::render_tile;
use super_metroid::graphics::Image;
use super_metroid::graphics::TileRenderer;
use super_metroid::graphics::BYTES_PER_TILE;
use super_metroid::graphics::CRE_INDEX_START;
use super_metroid::Area;
use super_metroid::Color;
use super_metroid::Palette;
use super_metroid::RoomData;
use super_metroid::RoomMdb;
use super_metroid::SmError;
use super_metroid::TileTable;
use super_metroid::TileTableEntry;
use super_metroid::Tiles;

/// The planar pixel computed straight from the wire layout: bit `7 - x` of
/// the four plane bytes at `y*2 + (k & 1) + (k >> 1)*16`.
fn planar_pixel(tile: &[u8], x: usize, y: usize) -> u8 {
    let mut v = 0u8;
    for k in 0..4 {
        let off = y * 2 + (k & 1) + (k >> 1) * 16;
        if tile[off] & (1 << (7 - x)) != 0 {
            v |= 1 << k;
        }
    }
    v
}

fn test_palette() -> Palette {
    let mut colors = Vec::new();
    for i in 0..128u16 {
        colors.push(Color::from_u16(i * 37));
    }
    Palette { colors }
}

fn empty_table() -> TileTable {
    TileTable { entries: Vec::new() }
}

#[test]
fn de_planarisation_matches_planar_reading() {
    // An arbitrary planar tile; after re-packing, every pixel read through
    // the packed accessor equals the planar pixel of the original bytes.
    let mut data: Vec<u8> = (0u8..64).map(|i| i.wrapping_mul(37).wrapping_add(11)).collect();
    let original = data.clone();
    de_planar_tiles(&mut data);
    assert_eq!(data.len(), original.len());
    for t in 0..2 {
        for y in 0..8 {
            for x in 0..8 {
                assert_eq!(
                    get_pixel(&data[t * 32..], x, y),
                    planar_pixel(&original[t * 32..], x, y),
                    "pixel ({}, {}) of tile {}",
                    x,
                    y,
                    t
                );
            }
        }
    }
}

#[test]
fn de_planarisation_keeps_partial_tail() {
    let mut data = vec![0xabu8; 40];
    de_planar_tiles(&mut data);
    assert_eq!(data.len(), 40);
    // the trailing partial tile is untouched
    assert!(data[32..].iter().all(|&b| b == 0xab));
}

#[test]
fn packed_pixel_accessor() {
    // Byte 0 holds pixels (0,0) and (1,0): low nibble the even column.
    let mut tile = vec![0u8; 32];
    tile[0] = 0x5a;
    assert_eq!(get_pixel(&tile, 0, 0), 0xa);
    assert_eq!(get_pixel(&tile, 1, 0), 0x5);
    tile[4 * 7 + 3] = 0x21;
    assert_eq!(get_pixel(&tile, 6, 7), 0x1);
    assert_eq!(get_pixel(&tile, 7, 7), 0x2);
}

#[test]
fn render_tile_colors_and_transparency() {
    // A tile whose first row is pixel value 1, everything else 0.
    let mut tile = vec![0u8; 32];
    tile[0] = 0x11;
    tile[1] = 0x11;
    tile[2] = 0x11;
    tile[3] = 0x11;
    let mut colors = Vec::new();
    for i in 0..16u16 {
        colors.push(Color { r: i as u8, g: 0, b: 0 });
    }
    let mut img = Image::new_image(8, 8);
    render_tile(&tile, &mut img, &colors, 0, 0, false, false);
    // value 1 is opaque colour 1, value 0 transparent
    assert_eq!(img.pixel(0, 0), (1, 0, 0, 0xff));
    assert_eq!(img.pixel(7, 0), (1, 0, 0, 0xff));
    assert_eq!(img.pixel(0, 1), (0, 0, 0, 0x00));
    // vertical flip moves the drawn row to the bottom
    let mut img = Image::new_image(8, 8);
    render_tile(&tile, &mut img, &colors, 0, 0, false, true);
    assert_eq!(img.pixel(0, 7), (1, 0, 0, 0xff));
    assert_eq!(img.pixel(0, 0), (0, 0, 0, 0x00));
}

#[test]
fn get_tile_bounds() {
    let data = vec![0u8; 96];
    assert!(get_tile(0, &data).is_ok());
    assert!(get_tile(2, &data).is_ok());
    assert!(matches!(
        get_tile(3, &data),
        Err(SmError::OutOfRange { .. })
    ));
    assert_eq!(get_tile(1, &data).unwrap().len(), 64);
}

#[test]
fn renderer_sheet_layout() {
    // The scene tiles sit at index 0, the common tiles at CRE_INDEX_START.
    let cre = Tiles { data: vec![0x11u8; 32] };
    let sce = Tiles { data: vec![0x22u8; 64] };
    let palette = test_palette();
    let cre_table = empty_table();
    let sce_table = empty_table();
    let r = TileRenderer::new(&cre, &sce, &palette, &cre_table, &sce_table).unwrap();
    let sce_tile = r.get_tile(0).unwrap();
    assert_eq!(sce_tile[0], 0x22);
    let cre_tile = r.get_tile(CRE_INDEX_START).unwrap();
    assert_eq!(cre_tile[0], 0x11);
    let gap_tile = r.get_tile(2).unwrap();
    assert_eq!(gap_tile[0], 0x00);
    // one common tile: indices past 0x280 + 1 are out of range
    assert!(r.get_tile(CRE_INDEX_START + 1).is_err());
    assert_eq!(BYTES_PER_TILE, 32);
}

#[test]
fn render_block_out_of_range_keeps_renderer_usable() {
    // A table of one block; any index beyond it is rejected, and the
    // renderer still renders afterwards.
    let cre = Tiles { data: vec![0u8; 32] };
    let sce = Tiles { data: vec![0u8; 32] };
    let palette = test_palette();
    let mut entries = Vec::new();
    for _ in 0..4 {
        entries.push(TileTableEntry::from_u16(0));
    }
    let cre_table = TileTable { entries };
    let sce_table = empty_table();
    let r = TileRenderer::new(&cre, &sce, &palette, &cre_table, &sce_table).unwrap();
    let mut img = Image::new_image(16, 16);
    assert!(r.render_block(&mut img, 0, 0, 0, false, false).is_ok());
    assert!(matches!(
        r.render_block(&mut img, 1, 0, 0, false, false),
        Err(SmError::OutOfRange { .. })
    ));
    // other renderers remain usable
    let img = r.render_palette().unwrap();
    assert_eq!((img.width, img.height), (256, 128));
}

#[test]
fn render_room_dimensions() {
    // A room of 2 x 1 screens renders to exactly 512 x 256 RGBA pixels.
    let cre = Tiles { data: vec![0u8; 32] };
    let sce = Tiles { data: vec![0u8; 32] };
    let palette = test_palette();
    let cre_table = empty_table();
    let sce_table = empty_table();
    let r = TileRenderer::new(&cre, &sce, &palette, &cre_table, &sce_table).unwrap();
    let mdb = RoomMdb {
        index: 0,
        area: Area::Crateria,
        x: 0,
        y: 0,
        width: 2,
        height: 1,
        up_scroller: 0,
        down_scroller: 0,
        graphics_flags: 0,
        door_list_ptr: 0x8000,
        states: Vec::new(),
        door_list: Vec::new(),
    };
    let data = RoomData { layer_1: Vec::new(), bts: Vec::new(), layer_2: None, num_doors: 1 };
    let img = r.render_room(0, &mdb, &data).unwrap();
    assert_eq!(img.width, 512);
    assert_eq!(img.height, 256);
    assert_eq!(img.data.len(), 512 * 256 * 4);
    // nothing was drawn: the buffer is fully transparent
    assert!(img.data.iter().all(|&b| b == 0));
}

#[test]
fn render_graphics_grid() {
    // 32 tiles of packed value 0x11 render two full rows of grey pixels.
    let data = vec![0x11u8; 32 * 32];
    let img = render_graphics(&data).unwrap();
    assert_eq!(img.width, 128);
    assert_eq!(img.height, 16);
    // every pixel has palette value 1: grey 16, opaque
    assert_eq!(img.pixel(0, 0), (16, 16, 16, 0xff));
    assert_eq!(img.pixel(127, 15), (16, 16, 16, 0xff));
}

#[test]
fn render_graphics_sheet_layout() {
    let cre = Tiles { data: vec![0x11u8; 32] };
    let sce = Tiles { data: vec![0x22u8; 64] };
    let palette = test_palette();
    let cre_table = empty_table();
    let sce_table = empty_table();
    let r = TileRenderer::new(&cre, &sce, &palette, &cre_table, &sce_table).unwrap();
    let img = r.render_graphics_sheet().unwrap();
    // 0x281 tiles round down to 0x28 full rows of 16 tiles
    assert_eq!(img.width, 128);
    assert_eq!(img.height, 0x28 * 8);
    // the scene tile is drawn at the top left: value 2 is grey 32
    assert_eq!(img.pixel(0, 0), (32, 32, 32, 0xff));
    assert_eq!(img.pixel(8, 0), (32, 32, 32, 0xff));
    // the gap between scene and common tiles stays transparent
    assert_eq!(img.pixel(16, 0), (0, 0, 0, 0));
}

#[test]
fn render_tile_table_grid() {
    // 128 common entries, all naming tile 0 with palette group 0: two full
    // rows of 8-pixel cells.
    let cre = Tiles { data: vec![0u8; 32] };
    let sce = Tiles { data: vec![0x11u8; 32] };
    let palette = test_palette();
    let mut entries = Vec::new();
    for _ in 0..128 {
        entries.push(TileTableEntry::from_u16(0));
    }
    let cre_table = TileTable { entries };
    let sce_table = empty_table();
    let r = TileRenderer::new(&cre, &sce, &palette, &cre_table, &sce_table).unwrap();
    let img = r.render_tile_table().unwrap();
    assert_eq!(img.width, 512);
    assert_eq!(img.height, 16);
    // tile 0 is the scene tile: packed value 1 everywhere, colour 1 of the
    // palette
    let c = Color::from_u16(37);
    assert_eq!(img.pixel(0, 0), (c.r, c.g, c.b, 0xff));
    assert_eq!(img.pixel(511, 15), (c.r, c.g, c.b, 0xff));
}

#[test]
fn render_tile_table_rejects_bad_entry() {
    let cre = Tiles { data: vec![0u8; 32] };
    let sce = Tiles { data: vec![0u8; 32] };
    let palette = test_palette();
    let mut entries = Vec::new();
    for _ in 0..64 {
        // tile index 0x3ff is far outside a sheet of 0x281 tiles
        entries.push(TileTableEntry::from_u16(0x03ff));
    }
    let cre_table = TileTable { entries };
    let sce_table = empty_table();
    let r = TileRenderer::new(&cre, &sce, &palette, &cre_table, &sce_table).unwrap();
    assert!(matches!(
        r.render_tile_table(),
        Err(SmError::OutOfRange { .. })
    ));
}
