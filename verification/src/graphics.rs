//! Tile graphics: de-planarisation of the wire tile format and rasterisation
//! of tiles, blocks and whole rooms into plain RGBA buffers.
//!
//! An 8 x 8 tile occupies 32 bytes in both of its forms.  On the wire the
//! four bit-planes of a row are interleaved: bit `7 - x` of the byte at
//! offset `y*2 + (k & 1) + (k >> 1)*16` is bit `k` of pixel `(x, y)`.  In
//! the stored form two 4-bit pixels share a byte: pixel `(x, y)` is the low
//! nibble of the byte at offset `y*4 + x/2` for even `x`, the high nibble
//! for odd `x`.

use crate::model::BlockInfo;
use crate::model::Color;
use crate::model::Palette;
use crate::model::RangeKind;
use crate::model::RoomData;
use crate::model::RoomMdb;
use crate::model::SmError;
use crate::model::TileTable;
use crate::model::TileTableEntry;
use crate::model::Tiles;
use vstd::prelude::*;
use vstd::slice::slice_subrange;

verus! {

/// First sheet index of the common (CRE) tiles; scene tiles sit below it.
pub const CRE_INDEX_START: u16 = 0x280;

/// Height of a tile in pixels.
pub const TILE_H: usize = 8;

/// Width of a tile in pixels.
pub const TILE_W: usize = 8;

/// Bytes a tile occupies, in both the wire and the stored form: an 8 x 8
/// tile at 4 bits per pixel.
pub const BYTES_PER_TILE: usize = 32;

/// Bit `7 - x` of the plane byte `b`, as 0 or 1.
pub open spec fn spec_plane_bit(b: u8, x: int) -> u8 {
    (b >> ((7 - x) as u8)) & 1
}

/// Pixel `(x, y)` of the planar wire tile whose 32 bytes start at `base`.
pub open spec fn spec_planar_pixel(d: Seq<u8>, base: int, x: int, y: int) -> u8 {
    (spec_plane_bit(d[base + 2 * y], x) + 2 * spec_plane_bit(d[base + 2 * y + 1], x) + 4
        * spec_plane_bit(d[base + 2 * y + 16], x) + 8 * spec_plane_bit(
        d[base + 2 * y + 17],
        x,
    )) as u8
}

/// Pixel `(x, y)` of the packed stored tile whose 32 bytes start at `base`.
pub open spec fn spec_packed_pixel(d: Seq<u8>, base: int, x: int, y: int) -> u8 {
    let b = d[base + 4 * y + x / 2];
    if x % 2 == 1 {
        b >> 4
    } else {
        b & 0xf
    }
}

/// The packed byte at tile offset `j` (`j = y*4 + x/2`) that the wire tile
/// starting at `base` de-planarises to.
pub open spec fn spec_packed_byte(wire: Seq<u8>, base: int, j: int) -> u8 {
    (spec_planar_pixel(wire, base, 2 * (j % 4), j / 4) + 16 * spec_planar_pixel(
        wire,
        base,
        2 * (j % 4) + 1,
        j / 4,
    )) as u8
}

/// Every pixel of the whole tile `t` of `packed` equals the corresponding
/// planar pixel of `wire`.
pub open spec fn tile_pixels_match(wire: Seq<u8>, packed: Seq<u8>, t: int) -> bool {
    forall|x: int, y: int|
        0 <= x < 8 && 0 <= y < 8 ==> #[trigger] spec_packed_pixel(packed, 32 * t, x, y)
            == spec_planar_pixel(wire, 32 * t, x, y)
}

/// `packed` is the de-planarisation of `wire`: same length, every pixel of
/// every whole tile re-packed, and any trailing partial tile left as it was.
pub open spec fn de_planar_matches(wire: Seq<u8>, packed: Seq<u8>) -> bool {
    &&& packed.len() == wire.len()
    &&& forall|t: int| 0 <= t < wire.len() / 32 ==> #[trigger] tile_pixels_match(wire, packed, t)
    &&& forall|i: int| wire.len() / 32 * 32 <= i < wire.len() ==> packed[i] == wire[i]
}

/// Byte `j` of tile `t` of `packed` is the de-planarisation of tile `t` of
/// `wire`.
pub open spec fn packed_tile_byte_ok(wire: Seq<u8>, packed: Seq<u8>, t: int, j: int) -> bool {
    packed[32 * t + j] == spec_packed_byte(wire, 32 * t, j)
}

/// A plane bit is 0 or 1.
proof fn lemma_plane_bit_le(b: u8, s: u8)
    ensures
        (b >> s) & 1 <= 1,
{
    assert((b >> s) & 1 <= 1) by (bit_vector);
}

/// Every planar pixel is a 4-bit value.
pub proof fn lemma_planar_pixel_bound(d: Seq<u8>, base: int, x: int, y: int)
    ensures
        spec_planar_pixel(d, base, x, y) <= 15,
{
    lemma_plane_bit_le(d[base + 2 * y], (7 - x) as u8);
    lemma_plane_bit_le(d[base + 2 * y + 1], (7 - x) as u8);
    lemma_plane_bit_le(d[base + 2 * y + 16], (7 - x) as u8);
    lemma_plane_bit_le(d[base + 2 * y + 17], (7 - x) as u8);
}

/// The two nibbles of a packed byte recover the two pixels it holds.
proof fn lemma_nibbles(lo: u8, hi: u8)
    requires
        lo < 16,
        hi < 16,
    ensures
        ((lo + 16 * hi) as u8) & 0xf == lo,
        ((lo + 16 * hi) as u8) >> 4 == hi,
{
    assert(lo < 16 && hi < 16 ==> ((lo + 16 * hi) as u8) & 0xf == lo && ((lo + 16 * hi) as u8) >> 4
        == hi) by (bit_vector);
}

/// One bit of one plane byte of the wire tile starting at `base`.
fn plane_bit(data: &[u8], idx: usize, x: usize) -> (r: u8)
    requires
        idx < data@.len(),
        x < 8,
    ensures
        r == spec_plane_bit(data@[idx as int], x as int),
        r <= 1,
{
    let b = data[idx];
    let s = (7 - x) as u8;
    proof {
        lemma_plane_bit_le(b, s);
    }
    (b >> s) & 1
}

/// Pixel `(x, y)` of the planar wire tile whose 32 bytes start at `base`.
fn planar_pixel_at(data: &[u8], base: usize, x: usize, y: usize) -> (r: u8)
    requires
        x < 8,
        y < 8,
        base + 32 <= data@.len(),
    ensures
        r == spec_planar_pixel(data@, base as int, x as int, y as int),
        r <= 15,
{
    proof {
        assert(data.len() == data@.len());
    }
    let b0 = plane_bit(data, base + 2 * y, x);
    let b1 = plane_bit(data, base + 2 * y + 1, x);
    let b2 = plane_bit(data, base + 2 * y + 16, x);
    let b3 = plane_bit(data, base + 2 * y + 17, x);
    b0 + 2 * b1 + 4 * b2 + 8 * b3
}

/// Pixel `(x, y)` of a packed stored tile.  The tile's 32 bytes start the
/// slice; the low nibble of a byte is the even column.
pub fn get_pixel(data: &[u8], x: usize, y: usize) -> (r: u8)
    requires
        x < 8,
        y < 8,
        data@.len() >= 32,
    ensures
        r == spec_packed_pixel(data@, 0, x as int, y as int),
        r <= 15,
{
    let b = data[y * 4 + x / 2];
    proof {
        assert(x % 2 == (x & 0x1)) by (bit_vector);
        assert(b & 0xf <= 15 && b >> 4 <= 15) by (bit_vector);
    }
    if x & 0x1 == 0x1 {
        b >> 4u8
    } else {
        b & 0xf
    }
}

/// Re-pack every whole 32-byte tile of `data` from the planar wire form to
/// the packed stored form, in place.  A trailing partial tile is left as it
/// was.
pub fn de_planar_tiles(data: &mut Vec<u8>)
    ensures
        de_planar_matches(old(data)@, final(data)@),
{
    let num_tiles = data.len() / BYTES_PER_TILE;
    let mut t: usize = 0;
    while t < num_tiles
        invariant
            num_tiles == old(data)@.len() / 32,
            t <= num_tiles,
            data@.len() == old(data)@.len(),
            data@.len() <= usize::MAX,
            forall|i: int| 32 * t <= i < data@.len() ==> data@[i] == old(data)@[i],
            forall|t0: int, j: int|
                0 <= t0 < t && 0 <= j < 32 ==> #[trigger] packed_tile_byte_ok(
                    old(data)@,
                    data@,
                    t0,
                    j,
                ),
        decreases num_tiles - t,
    {
        let base = t * BYTES_PER_TILE;
        // keep the original planar bytes of this tile while it is overwritten
        let mut tmp: Vec<u8> = Vec::new();
        let mut k: usize = 0;
        while k < 32
            invariant
                base + 32 <= data@.len() <= usize::MAX,
                k <= 32,
                tmp@.len() == k,
                forall|i: int| 0 <= i < k ==> tmp@[i] == data@[base + i],
            decreases 32 - k,
        {
            tmp.push(data[base + k]);
            k = k + 1;
        }
        let ghost data1 = data@;
        let mut j: usize = 0;
        while j < 32
            invariant
                base + 32 <= data@.len() <= usize::MAX,
                base == 32 * t,
                j <= 32,
                data@.len() == data1.len(),
                tmp@.len() == 32,
                forall|i: int| 0 <= i < 32 ==> tmp@[i] == data1[base + i],
                forall|i: int| 0 <= i < data@.len() && !(base <= i < base + j) ==> data@[i]
                    == data1[i],
                forall|j0: int|
                    0 <= j0 < j ==> data@[base + j0] == spec_packed_byte(tmp@, 0, j0),
            decreases 32 - j,
        {
            let y = j / 4;
            let xb = j % 4;
            let lo = planar_pixel_at(tmp.as_slice(), 0, 2 * xb, y);
            let hi = planar_pixel_at(tmp.as_slice(), 0, 2 * xb + 1, y);
            data[base + j] = lo + 16 * hi;
            j = j + 1;
        }
        t = t + 1;
        proof {
            assert forall|t0: int, j0: int| 0 <= t0 < t && 0 <= j0 < 32 implies #[trigger] packed_tile_byte_ok(
                old(data)@,
                data@,
                t0,
                j0,
            ) by {
                if t0 + 1 < t {
                    assert(packed_tile_byte_ok(old(data)@, data1, t0, j0));
                    assert(data@[32 * t0 + j0] == data1[32 * t0 + j0]);
                } else {
                    assert(t0 == t - 1 && base == 32 * t0);
                    assert(data@[base + j0] == spec_packed_byte(tmp@, 0, j0));
                    assert(spec_packed_byte(tmp@, 0, j0) == spec_packed_byte(
                        old(data)@,
                        32 * t0,
                        j0,
                    ));
                }
            }
        }
    }
    proof {
        assert forall|t0: int| 0 <= t0 < old(data)@.len() / 32 implies #[trigger] tile_pixels_match(
            old(data)@,
            data@,
            t0,
        ) by {
            assert forall|x: int, y: int| 0 <= x < 8 && 0 <= y < 8 implies #[trigger] spec_packed_pixel(
                data@,
                32 * t0,
                x,
                y,
            ) == spec_planar_pixel(old(data)@, 32 * t0, x, y) by {
                let j = 4 * y + x / 2;
                assert(packed_tile_byte_ok(old(data)@, data@, t0, j));
                assert(data@[32 * t0 + j] == spec_packed_byte(old(data)@, 32 * t0, j));
                let lo = spec_planar_pixel(old(data)@, 32 * t0, 2 * (j % 4), j / 4);
                let hi = spec_planar_pixel(old(data)@, 32 * t0, 2 * (j % 4) + 1, j / 4);
                lemma_planar_pixel_bound(old(data)@, 32 * t0, 2 * (j % 4), j / 4);
                lemma_planar_pixel_bound(old(data)@, 32 * t0, 2 * (j % 4) + 1, j / 4);
                lemma_nibbles(lo, hi);
                assert(j / 4 == y && j % 4 == x / 2);
                if x % 2 == 1 {
                    assert(2 * (j % 4) + 1 == x);
                } else {
                    assert(2 * (j % 4) == x);
                }
            }
        }
    }
}

/// A plain RGBA image: four bytes per pixel, rows in order, top to bottom.
pub struct Image {
    pub width: usize,
    pub height: usize,
    pub data: Vec<u8>,
}

/// Pixel offsets stay inside a `width * height` RGBA buffer.
proof fn lemma_pixel_offset(w: int, h: int, x: int, y: int)
    requires
        0 <= x < w,
        0 <= y < h,
    ensures
        0 <= 4 * (y * w + x),
        4 * (y * w + x) + 4 <= w * h * 4,
{
    assert(0 <= x < w && 0 <= y < h ==> 0 <= 4 * (y * w + x) && 4 * (y * w + x) + 4 <= w * h * 4)
        by (nonlinear_arith);
}

/// Distinct pixels of one image have distinct offsets.
proof fn lemma_pixel_offset_ne(w: int, x: int, y: int, x2: int, y2: int)
    requires
        0 <= x < w,
        0 <= x2 < w,
        0 <= y,
        0 <= y2,
        !(x == x2 && y == y2),
    ensures
        y * w + x != y2 * w + x2,
{
    assert((0 <= x < w && 0 <= x2 < w && 0 <= y && 0 <= y2 && !(x == x2 && y == y2)) ==> y * w + x
        != y2 * w + x2) by (nonlinear_arith);
}

impl Image {
    /// The buffer holds exactly four bytes per pixel.
    pub open spec fn wf(self) -> bool {
        self.data@.len() == self.width * self.height * 4
    }

    /// The RGBA bytes of pixel `(x, y)`.
    pub open spec fn spec_pixel(self, x: int, y: int) -> (u8, u8, u8, u8) {
        let o = 4 * (y * self.width + x);
        (self.data@[o], self.data@[o + 1], self.data@[o + 2], self.data@[o + 3])
    }

    /// A fully transparent image of the given size.
    pub fn new_image(width: usize, height: usize) -> (r: Image)
        requires
            width * height * 4 <= usize::MAX,
        ensures
            r.wf(),
            r.width == width,
            r.height == height,
            forall|x: int, y: int|
                0 <= x < width && 0 <= y < height ==> #[trigger] r.spec_pixel(x, y) == (
                    0u8,
                    0u8,
                    0u8,
                    0u8,
                ),
    {
        let n = width * height * 4;
        let mut data: Vec<u8> = Vec::new();
        while data.len() < n
            invariant
                data@.len() <= n,
                forall|i: int| 0 <= i < data@.len() ==> data@[i] == 0u8,
            decreases n - data@.len(),
        {
            data.push(0u8);
        }
        let img = Image { width, height, data };
        proof {
            assert forall|x: int, y: int| 0 <= x < width && 0 <= y < height implies #[trigger] img.spec_pixel(
                x,
                y,
            ) == (0u8, 0u8, 0u8, 0u8) by {
                lemma_pixel_offset(width as int, height as int, x, y);
            }
        }
        img
    }

    /// Write one pixel.
    pub fn put_pixel(&mut self, x: usize, y: usize, red: u8, green: u8, blue: u8, alpha: u8)
        requires
            old(self).wf(),
            x < old(self).width,
            y < old(self).height,
        ensures
            final(self).wf(),
            final(self).width == old(self).width,
            final(self).height == old(self).height,
            final(self).spec_pixel(x as int, y as int) == (red, green, blue, alpha),
            forall|x2: int, y2: int|
                0 <= x2 < old(self).width && 0 <= y2 < old(self).height && !(x2 == x && y2 == y)
                    ==> #[trigger] final(self).spec_pixel(x2, y2) == old(self).spec_pixel(x2, y2),
    {
        proof {
            lemma_pixel_offset(self.width as int, self.height as int, x as int, y as int);
            assert(self.data.len() == self.data@.len());
        }
        let o = 4 * (y * self.width + x);
        self.data[o] = red;
        self.data[o + 1] = green;
        self.data[o + 2] = blue;
        self.data[o + 3] = alpha;
        proof {
            assert forall|x2: int, y2: int|
                0 <= x2 < old(self).width && 0 <= y2 < old(self).height && !(x2 == x && y2 == y)
                    implies #[trigger] self.spec_pixel(x2, y2) == old(self).spec_pixel(x2, y2) by {
                lemma_pixel_offset(self.width as int, self.height as int, x2, y2);
                lemma_pixel_offset_ne(self.width as int, x as int, y as int, x2, y2);
            }
        }
    }

    /// Read one pixel back as its RGBA bytes.
    pub fn pixel(&self, x: usize, y: usize) -> (r: (u8, u8, u8, u8))
        requires
            self.wf(),
            x < self.width,
            y < self.height,
        ensures
            r == self.spec_pixel(x as int, y as int),
    {
        proof {
            lemma_pixel_offset(self.width as int, self.height as int, x as int, y as int);
            assert(self.data.len() == self.data@.len());
        }
        let o = 4 * (y * self.width + x);
        (self.data[o], self.data[o + 1], self.data[o + 2], self.data[o + 3])
    }
}

/// The RGBA bytes tile pixel `(x1, y1)` renders to: the packed tile pixel
/// (after flips) looked up in the first sixteen colours, with palette index
/// zero transparent.
pub open spec fn spec_tile_pixel(
    tile: Seq<u8>,
    colors: Seq<Color>,
    x1: int,
    y1: int,
    flip_h: bool,
    flip_v: bool,
) -> (u8, u8, u8, u8) {
    let sx = if flip_h {
        7 - x1
    } else {
        x1
    };
    let sy = if flip_v {
        7 - y1
    } else {
        y1
    };
    let v = spec_packed_pixel(tile, 0, sx, sy);
    (
        colors[v as int].r,
        colors[v as int].g,
        colors[v as int].b,
        if v == 0 {
            0u8
        } else {
            0xffu8
        },
    )
}

/// Draw one 8 x 8 packed tile into `img` at `(x, y)`, optionally flipped.
/// Palette index zero is transparent, every other index opaque.
pub fn render_tile(
    tile: &[u8],
    img: &mut Image,
    colors: &[Color],
    x: usize,
    y: usize,
    flip_h: bool,
    flip_v: bool,
)
    requires
        old(img).wf(),
        tile@.len() >= 32,
        colors@.len() >= 16,
        x + 8 <= old(img).width,
        y + 8 <= old(img).height,
    ensures
        final(img).wf(),
        final(img).width == old(img).width,
        final(img).height == old(img).height,
        forall|x1: int, y1: int|
            0 <= x1 < 8 && 0 <= y1 < 8 ==> #[trigger] final(img).spec_pixel(x + x1, y + y1)
                == spec_tile_pixel(tile@, colors@, x1, y1, flip_h, flip_v),
        forall|x2: int, y2: int|
            0 <= x2 < old(img).width && 0 <= y2 < old(img).height && !(x <= x2 < x + 8 && y <= y2
                < y + 8) ==> #[trigger] final(img).spec_pixel(x2, y2) == old(img).spec_pixel(
                x2,
                y2,
            ),
{
    let mut y1: usize = 0;
    while y1 < 8
        invariant
            img.wf(),
            img.width == old(img).width,
            img.height == old(img).height,
            tile@.len() >= 32,
            colors@.len() >= 16,
            x + 8 <= img.width,
            y + 8 <= img.height,
            y1 <= 8,
            forall|a: int, b: int|
                0 <= a < 8 && 0 <= b < y1 ==> #[trigger] img.spec_pixel(x + a, y + b)
                    == spec_tile_pixel(tile@, colors@, a, b, flip_h, flip_v),
            forall|x2: int, y2: int|
                0 <= x2 < img.width && 0 <= y2 < img.height && !(x <= x2 < x + 8 && y <= y2 < y
                    + y1) ==> #[trigger] img.spec_pixel(x2, y2) == old(img).spec_pixel(x2, y2),
        decreases 8 - y1,
    {
        let mut x1: usize = 0;
        while x1 < 8
            invariant
                img.wf(),
                img.width == old(img).width,
                img.height == old(img).height,
                tile@.len() >= 32,
                colors@.len() >= 16,
                x + 8 <= img.width,
                y + 8 <= img.height,
                y1 < 8,
                x1 <= 8,
                forall|a: int, b: int|
                    0 <= a < 8 && 0 <= b < y1 ==> #[trigger] img.spec_pixel(x + a, y + b)
                        == spec_tile_pixel(tile@, colors@, a, b, flip_h, flip_v),
                forall|a: int|
                    0 <= a < x1 ==> #[trigger] img.spec_pixel(x + a, y + y1) == spec_tile_pixel(
                        tile@,
                        colors@,
                        a,
                        y1 as int,
                        flip_h,
                        flip_v,
                    ),
                forall|x2: int, y2: int|
                    0 <= x2 < img.width && 0 <= y2 < img.height && !(x <= x2 < x + 8 && y <= y2 < y
                        + y1) && !(x <= x2 < x + x1 && y2 == y + y1) ==> #[trigger] img.spec_pixel(
                        x2,
                        y2,
                    ) == old(img).spec_pixel(x2, y2),
            decreases 8 - x1,
        {
            let src_x = if flip_h {
                7 - x1
            } else {
                x1
            };
            let src_y = if flip_v {
                7 - y1
            } else {
                y1
            };
            let val = get_pixel(tile, src_x, src_y);
            let color = colors[val as usize];
            img.put_pixel(
                x + x1,
                y + y1,
                color.r,
                color.g,
                color.b,
                if val == 0 {
                    0x0
                } else {
                    0xff
                },
            );
            x1 = x1 + 1;
        }
        y1 = y1 + 1;
    }
}

/// Every packed pixel is a 4-bit value.
pub proof fn lemma_packed_pixel_bound(d: Seq<u8>, base: int, x: int, y: int)
    ensures
        spec_packed_pixel(d, base, x, y) <= 15,
{
    let b = d[base + 4 * y + x / 2];
    assert(b >> 4 <= 15 && b & 0xf <= 15) by (bit_vector);
}

/// The byte at sheet position `i`: the common (CRE) tiles overlay the sheet
/// from index 0x280 onward, the scene (SCE) tiles fill it from the start,
/// and the rest is zero.
pub open spec fn spec_sheet_byte(cre: Seq<u8>, sce: Seq<u8>, i: int) -> u8 {
    if 0x5000 <= i < 0x5000 + cre.len() {
        cre[i - 0x5000]
    } else if i < sce.len() {
        sce[i]
    } else {
        0u8
    }
}

/// The RGBA bytes pixel `(x1, y1)` of the sheet tile at byte offset `tbase`
/// renders to, using palette group `pal`.
pub open spec fn spec_sheet_tile_pixel(
    sheet: Seq<u8>,
    tbase: int,
    colors: Seq<Color>,
    pal: int,
    x1: int,
    y1: int,
    flip_h: bool,
    flip_v: bool,
) -> (u8, u8, u8, u8) {
    let sx = if flip_h {
        7 - x1
    } else {
        x1
    };
    let sy = if flip_v {
        7 - y1
    } else {
        y1
    };
    let v = spec_packed_pixel(sheet, tbase, sx, sy);
    (
        colors[pal * 16 + v].r,
        colors[pal * 16 + v].g,
        colors[pal * 16 + v].b,
        if v == 0 {
            0u8
        } else {
            0xffu8
        },
    )
}

/// A rasteriser over one unified graphics sheet: the scene tiles at index 0,
/// the common tiles from index 0x280, one palette, and the two tile tables
/// whose concatenation defines the 16 x 16 blocks.
pub struct TileRenderer<'a> {
    num_tiles: usize,
    cre_tiles: usize,
    sce_tiles: usize,
    graphics_sheet: Vec<u8>,
    palette: &'a Palette,
    cre_table: &'a TileTable,
    sce_table: &'a TileTable,
}

impl<'a> TileRenderer<'a> {
    /// The unified, packed graphics sheet.
    pub closed spec fn sheet(self) -> Seq<u8> {
        self.graphics_sheet@
    }

    /// Number of tile slots in the sheet.
    pub closed spec fn spec_num_tiles(self) -> int {
        self.num_tiles as int
    }

    /// Number of common tiles.
    pub closed spec fn spec_cre_tiles(self) -> int {
        self.cre_tiles as int
    }

    /// Number of scene tiles.
    pub closed spec fn spec_sce_tiles(self) -> int {
        self.sce_tiles as int
    }

    /// The palette the renderer draws with.
    pub closed spec fn spec_palette(self) -> Palette {
        *self.palette
    }

    /// The common tile table.
    pub closed spec fn spec_cre_table(self) -> Seq<TileTableEntry> {
        self.cre_table.entries@
    }

    /// The scene tile table.
    pub closed spec fn spec_sce_table(self) -> Seq<TileTableEntry> {
        self.sce_table.entries@
    }

    /// The sheet holds whole tiles for every slot, the scene tiles fit in
    /// the sheet, and the palette is full.
    pub open spec fn wf(self) -> bool {
        &&& self.sheet().len() == self.spec_num_tiles() * 32
        &&& self.spec_num_tiles() == 0x280 + self.spec_cre_tiles()
        &&& self.spec_sce_tiles() <= self.spec_num_tiles()
        &&& self.spec_palette().wf()
    }

    /// Build the unified sheet from the common and scene tiles.  Fails
    /// exactly when the scene tiles do not fit under the sheet size implied
    /// by the common tiles.
    pub fn new(
        cre: &Tiles,
        sce: &Tiles,
        palette: &'a Palette,
        cre_table: &'a TileTable,
        sce_table: &'a TileTable,
    ) -> (res: Result<TileRenderer<'a>, SmError>)
        requires
            cre.wf(),
            sce.wf(),
            palette.wf(),
            0x5000 + cre.data@.len() <= usize::MAX,
        ensures
            res is Ok <==> sce.data@.len() <= 0x5000 + cre.data@.len(),
            res matches Ok(r) ==> {
                &&& r.wf()
                &&& r.spec_num_tiles() == 0x280 + cre.data@.len() / 32
                &&& r.spec_cre_tiles() == cre.data@.len() / 32
                &&& r.spec_sce_tiles() == sce.data@.len() / 32
                &&& r.spec_palette() == *palette
                &&& r.spec_cre_table() == cre_table.entries@
                &&& r.spec_sce_table() == sce_table.entries@
                &&& forall|i: int|
                    0 <= i < r.sheet().len() ==> r.sheet()[i] == spec_sheet_byte(
                        cre.data@,
                        sce.data@,
                        i,
                    )
            },
    {
        let cre_tiles = cre.data.len() / BYTES_PER_TILE;
        let sce_tiles = sce.data.len() / BYTES_PER_TILE;
        let num_tiles = 0x280 + cre_tiles;
        let sheet_len = 0x5000 + cre.data.len();
        if sce.data.len() > sheet_len {
            return Err(
                SmError::OutOfRange { entity: RangeKind::Tile, index: sce.data.len() },
            );
        }
        proof {
            assert(num_tiles * 32 == 0x5000 + cre.data@.len() / 32 * 32) by (nonlinear_arith)
                requires
                    num_tiles == 0x280 + cre.data@.len() / 32,
            ;
            assert(cre.data@.len() / 32 * 32 == cre.data@.len());
        }
        let mut graphics_sheet: Vec<u8> = Vec::new();
        let mut i: usize = 0;
        while i < sheet_len
            invariant
                sheet_len == 0x5000 + cre.data@.len(),
                sce.data@.len() <= sheet_len,
                i <= sheet_len,
                graphics_sheet@.len() == i,
                forall|j: int|
                    0 <= j < i ==> graphics_sheet@[j] == spec_sheet_byte(
                        cre.data@,
                        sce.data@,
                        j,
                    ),
            decreases sheet_len - i,
        {
            let b = if i >= 0x5000 {
                cre.data[i - 0x5000]
            } else if i < sce.data.len() {
                sce.data[i]
            } else {
                0u8
            };
            graphics_sheet.push(b);
            i = i + 1;
        }
        Ok(
            TileRenderer {
                num_tiles,
                cre_tiles,
                sce_tiles,
                graphics_sheet,
                palette,
                cre_table,
                sce_table,
            },
        )
    }

    /// The sheet bytes from tile `index` to the end of the sheet.  Fails
    /// exactly when the index is outside the sheet.
    pub fn get_tile(&self, index: u16) -> (res: Result<&[u8], SmError>)
        requires
            self.wf(),
        ensures
            res is Ok <==> index < self.spec_num_tiles(),
            res matches Ok(t) ==> t@ == self.sheet().subrange(
                index as int * 32,
                self.sheet().len() as int,
            ),
    {
        if index as usize >= self.num_tiles {
            return Err(SmError::OutOfRange { entity: RangeKind::Tile, index: index as usize });
        }
        proof {
            assert(index as int * 32 + 32 <= self.num_tiles * 32) by (nonlinear_arith)
                requires
                    index < self.num_tiles,
            ;
            assert(self.graphics_sheet.len() == self.sheet().len());
        }
        Ok(
            slice_subrange(
                self.graphics_sheet.as_slice(),
                index as usize * 32,
                self.graphics_sheet.len(),
            ),
        )
    }

    /// Draw one 8 x 8 packed tile into `img` at `(x, y)`, optionally
    /// flipped; palette index zero is transparent.
    pub fn render_tile(
        tile: &[u8],
        img: &mut Image,
        colors: &[Color],
        x: usize,
        y: usize,
        flip_h: bool,
        flip_v: bool,
    )
        requires
            old(img).wf(),
            tile@.len() >= 32,
            colors@.len() >= 16,
            x + 8 <= old(img).width,
            y + 8 <= old(img).height,
        ensures
            final(img).wf(),
            final(img).width == old(img).width,
            final(img).height == old(img).height,
            forall|x1: int, y1: int|
                0 <= x1 < 8 && 0 <= y1 < 8 ==> #[trigger] final(img).spec_pixel(x + x1, y + y1)
                    == spec_tile_pixel(tile@, colors@, x1, y1, flip_h, flip_v),
            forall|x2: int, y2: int|
                0 <= x2 < old(img).width && 0 <= y2 < old(img).height && !(x <= x2 < x + 8 && y
                    <= y2 < y + 8) ==> #[trigger] final(img).spec_pixel(x2, y2) == old(
                    img,
                ).spec_pixel(x2, y2),
    {
        render_tile(tile, img, colors, x, y, flip_h, flip_v)
    }

    /// Pixel `(x, y)` of a packed stored tile.
    pub fn get_pixel(data: &[u8], x: usize, y: usize) -> (r: u8)
        requires
            x < 8,
            y < 8,
            data@.len() >= 32,
        ensures
            r == spec_packed_pixel(data@, 0, x as int, y as int),
            r <= 15,
    {
        get_pixel(data, x, y)
    }

    /// Entry `k` of the four entries behind block `index` of the
    /// concatenated tables.
    pub open spec fn spec_block_entry_at(self, index: int, k: int) -> TileTableEntry {
        let ti = 4 * index + k;
        if ti < self.spec_cre_table().len() {
            self.spec_cre_table()[ti]
        } else {
            self.spec_sce_table()[ti - self.spec_cre_table().len()]
        }
    }

    /// A block index selects four entries that sit whole inside one of the
    /// two tables, each naming a palette group of the palette.
    pub open spec fn spec_block_selectable(self, index: int) -> bool {
        let ti = 4 * index;
        let cl = self.spec_cre_table().len();
        let sl = self.spec_sce_table().len();
        &&& (ti + 4 <= cl || (cl <= ti && ti + 4 <= cl + sl))
        &&& forall|k: int|
            0 <= k < 4 ==> (#[trigger] self.spec_block_entry_at(index, k)).palette < 8
    }

    /// A block index is drawable: its four entries sit whole inside one of
    /// the two tables, and each names a tile of the sheet and a palette
    /// group of the palette.
    pub open spec fn spec_block_ok(self, index: int) -> bool {
        let ti = 4 * index;
        let cl = self.spec_cre_table().len();
        let sl = self.spec_sce_table().len();
        &&& (ti + 4 <= cl || (cl <= ti && ti + 4 <= cl + sl))
        &&& forall|k: int|
            0 <= k < 4 ==> (#[trigger] self.spec_block_entry_at(index, k)).index
                < self.spec_num_tiles() && self.spec_block_entry_at(index, k).palette < 8
    }

    /// The RGBA bytes pixel `(bx, by)` of block `index` renders to, with the
    /// block flips applied on top of each entry's own.
    pub open spec fn spec_block_pixel(
        self,
        index: int,
        bx: int,
        by: int,
        flip_h: bool,
        flip_v: bool,
    ) -> (u8, u8, u8, u8) {
        let qx = bx / 8;
        let qy = by / 8;
        let k = (if flip_v {
            1 - qy
        } else {
            qy
        }) * 2 + (if flip_h {
            1 - qx
        } else {
            qx
        });
        let e = self.spec_block_entry_at(index, k);
        spec_sheet_tile_pixel(
            self.sheet(),
            e.index as int * 32,
            self.spec_palette().colors@,
            e.palette as int,
            bx % 8,
            by % 8,
            e.flip_h != flip_h,
            e.flip_v != flip_v,
        )
    }

    /// The four table entries behind block `index`, in order.  Fails exactly
    /// when the block straddles or leaves the concatenated tables.
    fn get_block_data(&self, index: u16) -> (res: Result<
        (TileTableEntry, TileTableEntry, TileTableEntry, TileTableEntry),
        SmError,
    >)
        ensures
            res is Ok <==> {
                let ti = 4 * (index as int);
                let cl = self.spec_cre_table().len();
                let sl = self.spec_sce_table().len();
                ti + 4 <= cl || (cl <= ti && ti + 4 <= cl + sl)
            },
            res matches Ok(e) ==> {
                &&& e.0 == self.spec_block_entry_at(index as int, 0)
                &&& e.1 == self.spec_block_entry_at(index as int, 1)
                &&& e.2 == self.spec_block_entry_at(index as int, 2)
                &&& e.3 == self.spec_block_entry_at(index as int, 3)
            },
    {
        let ti = index as usize * 4;
        let cre_entries = self.cre_table.entries.len();
        let sce_entries = self.sce_table.entries.len();
        if ti < cre_entries {
            if ti + 4 > cre_entries {
                return Err(SmError::OutOfRange { entity: RangeKind::Block, index: ti });
            }
            Ok(
                (
                    self.cre_table.entries[ti],
                    self.cre_table.entries[ti + 1],
                    self.cre_table.entries[ti + 2],
                    self.cre_table.entries[ti + 3],
                ),
            )
        } else if ti + 4 - cre_entries <= sce_entries {
            let si = ti - cre_entries;
            Ok(
                (
                    self.sce_table.entries[si],
                    self.sce_table.entries[si + 1],
                    self.sce_table.entries[si + 2],
                    self.sce_table.entries[si + 3],
                ),
            )
        } else {
            Err(SmError::OutOfRange { entity: RangeKind::Block, index: ti })
        }
    }
}

impl<'a> TileRenderer<'a> {
    /// Draw the tile of one table entry at `(dx, dy)`, the entry's flips
    /// combined with the caller's.  Fails exactly when the entry's tile
    /// index is outside the sheet, and then leaves the image untouched.
    fn render_entry_tile(
        &self,
        img: &mut Image,
        e: TileTableEntry,
        dx: usize,
        dy: usize,
        flip_h: bool,
        flip_v: bool,
    ) -> (res: Result<(), SmError>)
        requires
            self.wf(),
            old(img).wf(),
            dx + 8 <= old(img).width,
            dy + 8 <= old(img).height,
            e.palette < 8,
        ensures
            final(img).wf(),
            final(img).width == old(img).width,
            final(img).height == old(img).height,
            res is Ok <==> e.index < self.spec_num_tiles(),
            res is Ok ==> forall|x1: int, y1: int|
                0 <= x1 < 8 && 0 <= y1 < 8 ==> #[trigger] final(img).spec_pixel(dx + x1, dy + y1)
                    == spec_sheet_tile_pixel(
                    self.sheet(),
                    e.index as int * 32,
                    self.spec_palette().colors@,
                    e.palette as int,
                    x1,
                    y1,
                    e.flip_h != flip_h,
                    e.flip_v != flip_v,
                ),
            forall|x2: int, y2: int|
                0 <= x2 < old(img).width && 0 <= y2 < old(img).height && !(dx <= x2 < dx + 8 && dy
                    <= y2 < dy + 8) ==> #[trigger] final(img).spec_pixel(x2, y2) == old(
                    img,
                ).spec_pixel(x2, y2),
            res is Err ==> final(img).data@ == old(img).data@,
    {
        let tile = match self.get_tile(e.index) {
            Ok(t) => t,
            Err(er) => {
                return Err(er);
            },
        };
        proof {
            assert(e.index as int * 32 + 32 <= self.spec_num_tiles() * 32) by (nonlinear_arith)
                requires
                    e.index < self.spec_num_tiles(),
            ;
            assert(self.palette.colors.len() == self.spec_palette().colors@.len());
        }
        let colors = slice_subrange(
            self.palette.colors.as_slice(),
            e.palette as usize * 16,
            self.palette.colors.len(),
        );
        let fh = e.flip_h ^ flip_h;
        let fv = e.flip_v ^ flip_v;
        render_tile(tile, img, colors, dx, dy, fh, fv);
        proof {
            let sheet = self.sheet();
            let tb = e.index as int * 32;
            let pal = e.palette as int;
            let pcolors = self.spec_palette().colors@;
            assert forall|x1: int, y1: int| 0 <= x1 < 8 && 0 <= y1 < 8 implies #[trigger] img.spec_pixel(
                dx + x1,
                dy + y1,
            ) == spec_sheet_tile_pixel(sheet, tb, pcolors, pal, x1, y1, fh, fv) by {
                let sx = if fh {
                    7 - x1
                } else {
                    x1
                };
                let sy = if fv {
                    7 - y1
                } else {
                    y1
                };
                assert(tile@[4 * sy + sx / 2] == sheet[tb + 4 * sy + sx / 2]);
                assert(spec_packed_pixel(tile@, 0, sx, sy) == spec_packed_pixel(sheet, tb, sx, sy));
                let v = spec_packed_pixel(sheet, tb, sx, sy);
                lemma_packed_pixel_bound(sheet, tb, sx, sy);
                assert(colors@[v as int] == pcolors[pal * 16 + v]);
            }
        }
        Ok(())
    }

    /// Draw one 16 x 16 block at `(x, y)`: the block's four table entries as
    /// 2 x 2 tiles, mirrored as a whole by the requested flips.  Fails
    /// exactly when the block is not drawable; pixels outside the block's
    /// square are never touched.
    #[verifier::rlimit(100)]
    #[verifier::spinoff_prover]
    pub fn render_block(
        &self,
        img: &mut Image,
        index: u16,
        x: usize,
        y: usize,
        flip_h: bool,
        flip_v: bool,
    ) -> (res: Result<(), SmError>)
        requires
            self.wf(),
            old(img).wf(),
            x + 16 <= old(img).width,
            y + 16 <= old(img).height,
        ensures
            final(img).wf(),
            final(img).width == old(img).width,
            final(img).height == old(img).height,
            res is Ok <==> self.spec_block_ok(index as int),
            res is Ok ==> forall|bx: int, by: int|
                0 <= bx < 16 && 0 <= by < 16 ==> #[trigger] final(img).spec_pixel(x + bx, y + by)
                    == self.spec_block_pixel(index as int, bx, by, flip_h, flip_v),
            forall|x2: int, y2: int|
                0 <= x2 < old(img).width && 0 <= y2 < old(img).height && !(x <= x2 < x + 16 && y
                    <= y2 < y + 16) ==> #[trigger] final(img).spec_pixel(x2, y2) == old(
                    img,
                ).spec_pixel(x2, y2),
            !self.spec_block_selectable(index as int) ==> final(img).data@ == old(img).data@,
    {
        let (e0, e1, e2, e3) = match self.get_block_data(index) {
            Ok(e) => e,
            Err(er) => {
                return Err(er);
            },
        };
        if e0.palette >= 8 || e1.palette >= 8 || e2.palette >= 8 || e3.palette >= 8 {
            return Err(
                SmError::OutOfRange { entity: RangeKind::Block, index: index as usize },
            );
        }
        let xo: usize = if flip_h {
            8
        } else {
            0
        };
        let yo: usize = if flip_v {
            8
        } else {
            0
        };
        let ghost img0 = *img;
        match self.render_entry_tile(img, e0, x + xo, y + yo, flip_h, flip_v) {
            Ok(_) => {},
            Err(er) => {
                return Err(er);
            },
        }
        let ghost img1 = *img;
        match self.render_entry_tile(img, e1, x + (8 - xo), y + yo, flip_h, flip_v) {
            Ok(_) => {},
            Err(er) => {
                return Err(er);
            },
        }
        let ghost img2 = *img;
        match self.render_entry_tile(img, e2, x + xo, y + (8 - yo), flip_h, flip_v) {
            Ok(_) => {},
            Err(er) => {
                return Err(er);
            },
        }
        let ghost img3 = *img;
        match self.render_entry_tile(img, e3, x + (8 - xo), y + (8 - yo), flip_h, flip_v) {
            Ok(_) => {},
            Err(er) => {
                return Err(er);
            },
        }
        proof {
            assert forall|bx: int, by: int| 0 <= bx < 16 && 0 <= by < 16 implies #[trigger] img.spec_pixel(
                x + bx,
                y + by,
            ) == self.spec_block_pixel(index as int, bx, by, flip_h, flip_v) by {
                let qx = bx / 8;
                let qy = by / 8;
                let x1 = bx % 8;
                let y1 = by % 8;
                assert(0 <= qx <= 1 && 0 <= qy <= 1);
                assert(bx == qx * 8 + x1 && by == qy * 8 + y1);
                let k = (if flip_v {
                    1 - qy
                } else {
                    qy
                }) * 2 + (if flip_h {
                    1 - qx
                } else {
                    qx
                });
                let px = x + bx;
                let py = y + by;
                if k == 0 {
                    assert(qx * 8 == xo as int && qy * 8 == yo as int);
                    assert(px == (x + xo) + x1 && py == (y + yo) + y1);
                    assert(img1.spec_pixel((x + xo) + x1, (y + yo) + y1) == spec_sheet_tile_pixel(
                        self.sheet(),
                        e0.index as int * 32,
                        self.spec_palette().colors@,
                        e0.palette as int,
                        x1,
                        y1,
                        e0.flip_h != flip_h,
                        e0.flip_v != flip_v,
                    ));
                    assert(img2.spec_pixel(px, py) == img1.spec_pixel(px, py));
                    assert(img3.spec_pixel(px, py) == img2.spec_pixel(px, py));
                    assert(img.spec_pixel(px, py) == img3.spec_pixel(px, py));
                } else if k == 1 {
                    assert(qx * 8 == 8 - xo as int && qy * 8 == yo as int);
                    assert(px == (x + (8 - xo)) + x1 && py == (y + yo) + y1);
                    assert(img2.spec_pixel((x + (8 - xo)) + x1, (y + yo) + y1) == spec_sheet_tile_pixel(
                        self.sheet(),
                        e1.index as int * 32,
                        self.spec_palette().colors@,
                        e1.palette as int,
                        x1,
                        y1,
                        e1.flip_h != flip_h,
                        e1.flip_v != flip_v,
                    ));
                    assert(img3.spec_pixel(px, py) == img2.spec_pixel(px, py));
                    assert(img.spec_pixel(px, py) == img3.spec_pixel(px, py));
                } else if k == 2 {
                    assert(qx * 8 == xo as int && qy * 8 == 8 - yo as int);
                    assert(px == (x + xo) + x1 && py == (y + (8 - yo)) + y1);
                    assert(img3.spec_pixel((x + xo) + x1, (y + (8 - yo)) + y1) == spec_sheet_tile_pixel(
                        self.sheet(),
                        e2.index as int * 32,
                        self.spec_palette().colors@,
                        e2.palette as int,
                        x1,
                        y1,
                        e2.flip_h != flip_h,
                        e2.flip_v != flip_v,
                    ));
                    assert(img.spec_pixel(px, py) == img3.spec_pixel(px, py));
                } else {
                    assert(k == 3);
                    assert(qx * 8 == 8 - xo as int && qy * 8 == 8 - yo as int);
                    assert(px == (x + (8 - xo)) + x1 && py == (y + (8 - yo)) + y1);
                    assert(img.spec_pixel((x + (8 - xo)) + x1, (y + (8 - yo)) + y1) == spec_sheet_tile_pixel(
                        self.sheet(),
                        e3.index as int * 32,
                        self.spec_palette().colors@,
                        e3.palette as int,
                        x1,
                        y1,
                        e3.flip_h != flip_h,
                        e3.flip_v != flip_v,
                    ));
                }
            }
        }
        Ok(())
    }
}

/// Horizontal pixel position of column `bx` of cell `i` of a grid
/// `w_blocks` cells wide.
pub open spec fn cell_px(w_blocks: int, i: int, bx: int) -> int {
    (i % w_blocks) * 16 + bx
}

/// Vertical pixel position of row `by` of cell `i` of a grid `w_blocks`
/// cells wide.
pub open spec fn cell_py(w_blocks: int, i: int, by: int) -> int {
    (i / w_blocks) * 16 + by
}

impl<'a> TileRenderer<'a> {
    /// Cell `i` of the room image shows exactly the block its grid entry
    /// names, with the entry's flips.
    pub open spec fn room_cell_rendered(
        self,
        img: Image,
        w_blocks: int,
        layer: Seq<BlockInfo>,
        i: int,
    ) -> bool {
        forall|bx: int, by: int|
            0 <= bx < 16 && 0 <= by < 16 ==> #[trigger] img.spec_pixel(
                cell_px(w_blocks, i, bx),
                cell_py(w_blocks, i, by),
            ) == self.spec_block_pixel(
                layer[i].tile_index as int,
                bx,
                by,
                layer[i].x_flip,
                layer[i].y_flip,
            )
    }

    /// Compose a room image from its level grid: `width * height` screens of
    /// 16 x 16 blocks, cells in row order, grid data past the room's last
    /// row ignored; cells the grid does not reach stay transparent black.
    /// Fails exactly when a drawn cell names an undrawable block.
    #[verifier::rlimit(100)]
    #[verifier::spinoff_prover]
    #[allow(unused_variables)]
    pub fn render_room(&self, state: usize, mdb: &RoomMdb, data: &RoomData) -> (res: Result<
        Image,
        SmError,
    >)
        requires
            self.wf(),
            (mdb.width as int) * (mdb.height as int) * 0x40000 <= usize::MAX,
        ensures
            ({
                let wb = mdb.width as int * 16;
                let hb = mdb.height as int * 16;
                let count = if data.layer_1@.len() <= wb * hb {
                    data.layer_1@.len() as int
                } else {
                    wb * hb
                };
                &&& (res is Ok <==> forall|i: int|
                    0 <= i < count ==> self.spec_block_ok(
                        (#[trigger] data.layer_1@[i]).tile_index as int,
                    ))
                &&& (res matches Ok(img) ==> {
                    &&& img.wf()
                    &&& img.width == mdb.width as int * 256
                    &&& img.height == mdb.height as int * 256
                    &&& forall|i: int|
                        0 <= i < count ==> #[trigger] self.room_cell_rendered(
                            img,
                            wb,
                            data.layer_1@,
                            i,
                        )
                    &&& forall|px: int, py: int|
                        0 <= px < img.width && 0 <= py < img.height && (py / 16) * wb + px / 16
                            >= count ==> #[trigger] img.spec_pixel(px, py) == (0u8, 0u8, 0u8, 0u8)
                })
            }),
    {
        let w = mdb.width as usize;
        let h = mdb.height as usize;
        let wb = w * 16;
        let hb = h * 16;
        let img_w = w * 256;
        let img_h = h * 256;
        proof {
            assert(img_w * img_h * 4 == w * h * 0x40000) by (nonlinear_arith)
                requires
                    img_w == w * 256 && img_h == h * 256,
            ;
            assert(wb * 16 == img_w && hb * 16 == img_h) by (nonlinear_arith)
                requires
                    wb == w * 16 && hb == h * 16 && img_w == w * 256 && img_h == h * 256,
            ;
        }
        let mut img = Image::new_image(img_w, img_h);
        proof {
            assert(wb * hb <= 16646400) by (nonlinear_arith)
                requires
                    0 <= wb <= 4080 && 0 <= hb <= 4080,
            ;
        }
        let total = wb * hb;
        let n = if data.layer_1.len() < total {
            data.layer_1.len()
        } else {
            total
        };
        let mut i: usize = 0;
        while i < n
            invariant
                self.wf(),
                img.wf(),
                img.width == img_w,
                img.height == img_h,
                wb == mdb.width as int * 16,
                hb == mdb.height as int * 16,
                img_w == wb * 16,
                img_h == hb * 16,
                total == wb * hb,
                n <= data.layer_1@.len(),
                n <= total,
                n == data.layer_1@.len() || n == total,
                i <= n,
                forall|j: int|
                    0 <= j < i ==> self.spec_block_ok(
                        (#[trigger] data.layer_1@[j]).tile_index as int,
                    ),
                forall|j: int|
                    0 <= j < i ==> #[trigger] self.room_cell_rendered(
                        img,
                        wb as int,
                        data.layer_1@,
                        j,
                    ),
                forall|px: int, py: int|
                    0 <= px < img_w && 0 <= py < img_h && (py / 16) * (wb as int) + px / 16 >= i
                        ==> #[trigger] img.spec_pixel(px, py) == (0u8, 0u8, 0u8, 0u8),
            decreases n - i,
        {
            let block = data.layer_1[i];
            proof {
                assert(wb > 0) by (nonlinear_arith)
                    requires
                        total == wb * hb && i < n && n <= total,
                ;
                assert(i / wb < hb && i % wb < wb) by (nonlinear_arith)
                    requires
                        wb > 0 && total == wb * hb && i < total,
                ;
                assert((i % wb) * 16 + 16 <= wb * 16 && (i / wb) * 16 + 16 <= hb * 16)
                    by (nonlinear_arith)
                    requires
                        i / wb < hb && i % wb < wb,
                ;
            }
            let bx = (i % wb) * 16;
            let by = (i / wb) * 16;
            let ghost img_pre = img;
            match self.render_block(&mut img, block.tile_index, bx, by, block.x_flip, block.y_flip
            ) {
                Ok(_) => {},
                Err(e) => {
                    proof {
                        assert(!self.spec_block_ok(data.layer_1@[i as int].tile_index as int));
                    }
                    return Err(e);
                },
            }
            i = i + 1;
            proof {
                let layer = data.layer_1@;
                let iprev = i - 1;
                let wbi = wb as int;
                let bxi = bx as int;
                let byi = by as int;
                let cxi = iprev % wbi;
                let cyi = iprev / wbi;
                assert(bxi == cxi * 16 && byi == cyi * 16);
                // the cell just drawn
                assert forall|a: int, b: int| 0 <= a < 16 && 0 <= b < 16 implies #[trigger] img.spec_pixel(
                    cell_px(wbi, iprev, a),
                    cell_py(wbi, iprev, b),
                ) == self.spec_block_pixel(
                    layer[iprev].tile_index as int,
                    a,
                    b,
                    layer[iprev].x_flip,
                    layer[iprev].y_flip,
                ) by {
                    assert(img.spec_pixel(bxi + a, byi + b) == self.spec_block_pixel(
                        block.tile_index as int,
                        a,
                        b,
                        block.x_flip,
                        block.y_flip,
                    ));
                    assert(cell_px(wbi, iprev, a) == bxi + a && cell_py(wbi, iprev, b) == byi + b);
                }
                assert(self.room_cell_rendered(img, wbi, layer, iprev));
                // earlier cells keep their pixels
                assert forall|j: int| 0 <= j < iprev implies #[trigger] self.room_cell_rendered(
                    img,
                    wbi,
                    layer,
                    j,
                ) by {
                    let jcx = j % wbi;
                    let jcy = j / wbi;
                    vstd::arithmetic::div_mod::lemma_fundamental_div_mod(j, wbi);
                    vstd::arithmetic::div_mod::lemma_mod_bound(j, wbi);
                    vstd::arithmetic::div_mod::lemma_fundamental_div_mod(iprev, wbi);
                    vstd::arithmetic::div_mod::lemma_mod_bound(iprev, wbi);
                    assert(!(jcx == cxi && jcy == cyi));
                    assert forall|a: int, b: int| 0 <= a < 16 && 0 <= b < 16 implies #[trigger] img.spec_pixel(
                        cell_px(wbi, j, a),
                        cell_py(wbi, j, b),
                    ) == self.spec_block_pixel(
                        layer[j].tile_index as int,
                        a,
                        b,
                        layer[j].x_flip,
                        layer[j].y_flip,
                    ) by {
                        let px = cell_px(wbi, j, a);
                        let py = cell_py(wbi, j, b);
                        assert(px == jcx * 16 + a && py == jcy * 16 + b);
                        assert(jcy < hb as int) by (nonlinear_arith)
                            requires
                                j == jcy * wbi + jcx && 0 <= jcx && 0 <= jcy && wbi > 0 && j < wbi
                                    * (hb as int),
                        ;
                        assert(px < img_w && py < img_h) by (nonlinear_arith)
                            requires
                                px == jcx * 16 + a && py == jcy * 16 + b && a < 16 && b < 16 && jcx
                                    < wbi && jcy < hb as int && img_w == wbi * 16 && img_h == (
                                hb as int) * 16,
                        ;
                        assert(0 <= px < img_w && 0 <= py < img_h);
                        assert(!(bxi <= px < bxi + 16 && byi <= py < byi + 16))
                            by (nonlinear_arith)
                            requires
                                px == jcx * 16 + a && py == jcy * 16 + b && 0 <= a < 16 && 0 <= b
                                    < 16 && bxi == cxi * 16 && byi == cyi * 16 && !(jcx == cxi
                                    && jcy == cyi),
                        ;
                        assert(img.spec_pixel(px, py) == img_pre.spec_pixel(px, py));
                        assert(self.room_cell_rendered(img_pre, wbi, layer, j));
                        assert(img_pre.spec_pixel(cell_px(wbi, j, a), cell_py(wbi, j, b))
                            == self.spec_block_pixel(
                            layer[j].tile_index as int,
                            a,
                            b,
                            layer[j].x_flip,
                            layer[j].y_flip,
                        ));
                    }
                }
                // pixels past the drawn cells stay transparent
                assert forall|px: int, py: int|
                    0 <= px < img_w && 0 <= py < img_h && (py / 16) * wbi + px / 16 >= i
                    implies #[trigger] img.spec_pixel(px, py) == (0u8, 0u8, 0u8, 0u8) by {
                    let cx = px / 16;
                    let cy = py / 16;
                    if bxi <= px < bxi + 16 && byi <= py < byi + 16 {
                        assert(cx == cxi && cy == cyi) by (nonlinear_arith)
                            requires
                                cx == px / 16 && cy == py / 16 && bxi == cxi * 16 && byi == cyi
                                    * 16 && bxi <= px < bxi + 16 && byi <= py < byi + 16,
                        ;
                        vstd::arithmetic::div_mod::lemma_fundamental_div_mod(iprev, wbi);
                        vstd::arithmetic::div_mod::lemma_mod_bound(iprev, wbi);
                        assert(cy * wbi + cx == iprev) by (nonlinear_arith)
                            requires
                                cy == cyi && cx == cxi && iprev == wbi * cyi + cxi,
                        ;
                        assert(false);
                    } else {
                        assert(img.spec_pixel(px, py) == img_pre.spec_pixel(px, py));
                    }
                }
            }
        }
        Ok(img)
    }
}

/// Horizontal pixel position of column `dx` of 8-pixel cell `i` of a grid
/// `tw` cells wide.
pub open spec fn tile_cell_px(tw: int, i: int, dx: int) -> int {
    (i % tw) * 8 + dx
}

/// Vertical pixel position of row `dy` of 8-pixel cell `i` of a grid `tw`
/// cells wide.
pub open spec fn tile_cell_py(tw: int, i: int, dy: int) -> int {
    (i / tw) * 8 + dy
}

/// The sixteen grey colours the tile-sheet renderers draw with: palette
/// index `v` becomes intensity `16 * v`.
pub open spec fn grey_colors() -> Seq<Color> {
    Seq::new(16, |v: int| Color { r: (16 * v) as u8, g: (16 * v) as u8, b: (16 * v) as u8 })
}

/// Fill one 16 x 16 square with an opaque colour.
fn fill_square(img: &mut Image, x: usize, y: usize, c: Color)
    requires
        old(img).wf(),
        x + 16 <= old(img).width,
        y + 16 <= old(img).height,
    ensures
        final(img).wf(),
        final(img).width == old(img).width,
        final(img).height == old(img).height,
        forall|dx: int, dy: int|
            0 <= dx < 16 && 0 <= dy < 16 ==> #[trigger] final(img).spec_pixel(x + dx, y + dy) == (
                c.r,
                c.g,
                c.b,
                0xffu8,
            ),
        forall|x2: int, y2: int|
            0 <= x2 < old(img).width && 0 <= y2 < old(img).height && !(x <= x2 < x + 16 && y <= y2
                < y + 16) ==> #[trigger] final(img).spec_pixel(x2, y2) == old(img).spec_pixel(
                x2,
                y2,
            ),
{
    let mut dy: usize = 0;
    while dy < 16
        invariant
            img.wf(),
            img.width == old(img).width,
            img.height == old(img).height,
            x + 16 <= img.width,
            y + 16 <= img.height,
            dy <= 16,
            forall|a: int, b: int|
                0 <= a < 16 && 0 <= b < dy ==> #[trigger] img.spec_pixel(x + a, y + b) == (
                    c.r,
                    c.g,
                    c.b,
                    0xffu8,
                ),
            forall|x2: int, y2: int|
                0 <= x2 < img.width && 0 <= y2 < img.height && !(x <= x2 < x + 16 && y <= y2 < y
                    + dy) ==> #[trigger] img.spec_pixel(x2, y2) == old(img).spec_pixel(x2, y2),
        decreases 16 - dy,
    {
        let mut dx: usize = 0;
        while dx < 16
            invariant
                img.wf(),
                img.width == old(img).width,
                img.height == old(img).height,
                x + 16 <= img.width,
                y + 16 <= img.height,
                dy < 16,
                dx <= 16,
                forall|a: int, b: int|
                    0 <= a < 16 && 0 <= b < dy ==> #[trigger] img.spec_pixel(x + a, y + b) == (
                        c.r,
                        c.g,
                        c.b,
                        0xffu8,
                    ),
                forall|a: int|
                    0 <= a < dx ==> #[trigger] img.spec_pixel(x + a, y + dy) == (
                        c.r,
                        c.g,
                        c.b,
                        0xffu8,
                    ),
                forall|x2: int, y2: int|
                    0 <= x2 < img.width && 0 <= y2 < img.height && !(x <= x2 < x + 16 && y <= y2
                        < y + dy) && !(x <= x2 < x + dx && y2 == y + dy) ==> #[trigger] img.spec_pixel(
                        x2,
                        y2,
                    ) == old(img).spec_pixel(x2, y2),
            decreases 16 - dx,
        {
            img.put_pixel(x + dx, y + dy, c.r, c.g, c.b, 0xff);
            dx = dx + 1;
        }
        dy = dy + 1;
    }
}

impl<'a> TileRenderer<'a> {
    /// Draw the palette as a 16 x 8 grid of 16-pixel swatches: entry `e`
    /// fills the square at column `e % 16`, row `e / 16`, fully opaque.
    #[verifier::rlimit(30)]
    pub fn render_palette(&self) -> (res: Result<Image, SmError>)
        requires
            self.wf(),
        ensures
            res is Ok,
            res matches Ok(img) ==> {
                &&& img.wf()
                &&& img.width == 256
                &&& img.height == 128
                &&& forall|e: int, dx: int, dy: int|
                    0 <= e < 128 && 0 <= dx < 16 && 0 <= dy < 16 ==> #[trigger] img.spec_pixel(
                        cell_px(16, e, dx),
                        cell_py(16, e, dy),
                    ) == (
                        self.spec_palette().colors@[e].r,
                        self.spec_palette().colors@[e].g,
                        self.spec_palette().colors@[e].b,
                        0xffu8,
                    )
            },
    {
        let mut img = Image::new_image(256, 128);
        let mut e: usize = 0;
        while e < 128
            invariant
                self.wf(),
                img.wf(),
                img.width == 256,
                img.height == 128,
                e <= 128,
                forall|j: int, dx: int, dy: int|
                    0 <= j < e && 0 <= dx < 16 && 0 <= dy < 16 ==> #[trigger] img.spec_pixel(
                        cell_px(16, j, dx),
                        cell_py(16, j, dy),
                    ) == (
                        self.spec_palette().colors@[j].r,
                        self.spec_palette().colors@[j].g,
                        self.spec_palette().colors@[j].b,
                        0xffu8,
                    ),
            decreases 128 - e,
        {
            let c = self.palette.colors[e];
            let x = (e % 16) * 16;
            let y = (e / 16) * 16;
            let ghost img_pre = img;
            fill_square(&mut img, x, y, c);
            e = e + 1;
            proof {
                let eprev = e - 1;
                assert forall|j: int, dx: int, dy: int|
                    0 <= j < e && 0 <= dx < 16 && 0 <= dy < 16 implies #[trigger] img.spec_pixel(
                    cell_px(16, j, dx),
                    cell_py(16, j, dy),
                ) == (
                    self.spec_palette().colors@[j].r,
                    self.spec_palette().colors@[j].g,
                    self.spec_palette().colors@[j].b,
                    0xffu8,
                ) by {
                    let px = cell_px(16, j, dx);
                    let py = cell_py(16, j, dy);
                    assert(0 <= j % 16 < 16 && j / 16 < 8 && px == (j % 16) * 16 + dx && py == (j
                        / 16) * 16 + dy && 0 <= px < 256 && 0 <= py < 128) by (nonlinear_arith)
                        requires
                            0 <= j < 128 && 0 <= dx < 16 && 0 <= dy < 16 && px == cell_px(
                                16,
                                j,
                                dx,
                            ) && py == cell_py(16, j, dy),
                    ;
                    if j == eprev {
                        assert(img.spec_pixel(x as int + dx, y as int + dy) == (
                            c.r,
                            c.g,
                            c.b,
                            0xffu8,
                        ));
                        assert(px == x as int + dx && py == y as int + dy);
                    } else {
                        assert(!(x <= px < x + 16 && y <= py < y + 16)) by (nonlinear_arith)
                            requires
                                px == (j % 16) * 16 + dx && py == (j / 16) * 16 + dy && 0 <= dx
                                    < 16 && 0 <= dy < 16 && x == (eprev % 16) * 16 && y == (eprev
                                    / 16) * 16 && j != eprev && 0 <= j < 128 && 0 <= eprev < 128
                                    && j % 16 == j - 16 * (j / 16) && eprev % 16 == eprev - 16 * (
                                eprev / 16),
                        ;
                        assert(img.spec_pixel(px, py) == img_pre.spec_pixel(px, py));
                        assert(img_pre.spec_pixel(cell_px(16, j, dx), cell_py(16, j, dy)) == (
                            self.spec_palette().colors@[j].r,
                            self.spec_palette().colors@[j].g,
                            self.spec_palette().colors@[j].b,
                            0xffu8,
                        ));
                    }
                }
            }
        }
        Ok(img)
    }
}

/// The sixteen grey colours, as a vector.
fn make_grey_colors() -> (r: Vec<Color>)
    ensures
        r@ == grey_colors(),
{
    let mut greys: Vec<Color> = Vec::new();
    let mut v: usize = 0;
    while v < 16
        invariant
            v <= 16,
            greys@.len() == v,
            forall|j: int| 0 <= j < v ==> greys@[j] == grey_colors()[j],
        decreases 16 - v,
    {
        let c = (16 * v) as u8;
        greys.push(Color { r: c, g: c, b: c });
        v = v + 1;
    }
    proof {
        assert(greys@ =~= grey_colors());
    }
    greys
}

/// The bytes of packed tile `index` of a raw blob, to the end of the blob.
/// Fails exactly when the blob has no such whole tile.
pub fn get_tile(index: u16, data: &[u8]) -> (res: Result<&[u8], SmError>)
    ensures
        res is Ok <==> index < data@.len() / 32,
        res matches Ok(t) ==> t@ == data@.subrange(index as int * 32, data@.len() as int),
{
    let num_tiles = data.len() / BYTES_PER_TILE;
    if index as usize >= num_tiles {
        return Err(SmError::OutOfRange { entity: RangeKind::Tile, index: index as usize });
    }
    proof {
        assert(index as int * 32 + 32 <= data@.len() / 32 * 32) by (nonlinear_arith)
            requires
                index < data@.len() / 32,
        ;
        assert(data@.len() / 32 * 32 <= data@.len());
        assert(data.len() == data@.len());
    }
    Ok(slice_subrange(data, index as usize * 32, data.len()))
}

/// Draw a raw packed tile blob as a 16-wide grid of greyscale tiles; rows
/// that the blob only partly fills are left out.
#[verifier::rlimit(60)]
#[verifier::spinoff_prover]
pub fn render_graphics(data: &[u8]) -> (res: Result<Image, SmError>)
    requires
        data@.len() <= usize::MAX / 8,
    ensures
        res is Ok,
        res matches Ok(img) ==> {
            &&& img.wf()
            &&& img.width == 128
            &&& img.height == data@.len() / 32 / 16 * 8
            &&& forall|i: int, dx: int, dy: int|
                0 <= i < data@.len() / 32 / 16 * 16 && 0 <= dx < 8 && 0 <= dy < 8
                    ==> #[trigger] img.spec_pixel(tile_cell_px(16, i, dx), tile_cell_py(16, i, dy))
                    == spec_sheet_tile_pixel(data@, 32 * i, grey_colors(), 0, dx, dy, false, false)
        },
{
    let num_tiles = data.len() / BYTES_PER_TILE;
    let rows = num_tiles / 16;
    let mut img = Image::new_image(128, rows * 8);
    proof {
        assert(128 * (rows * 8) * 4 <= usize::MAX) by (nonlinear_arith)
            requires
                rows <= data@.len() / 32 / 16 && data@.len() <= usize::MAX / 8,
        ;
    }
    let greys = make_grey_colors();
    let n = rows * 16;
    let mut i: usize = 0;
    while i < n
        invariant
            img.wf(),
            img.width == 128,
            img.height == rows * 8,
            num_tiles == data@.len() / 32,
            rows == num_tiles / 16,
            n == rows * 16,
            greys@ == grey_colors(),
            i <= n,
            forall|j: int, dx: int, dy: int|
                0 <= j < i && 0 <= dx < 8 && 0 <= dy < 8 ==> #[trigger] img.spec_pixel(
                    tile_cell_px(16, j, dx),
                    tile_cell_py(16, j, dy),
                ) == spec_sheet_tile_pixel(data@, 32 * j, grey_colors(), 0, dx, dy, false, false),
        decreases n - i,
    {
        proof {
            assert(i < num_tiles && i / 16 < rows && i % 16 < 16) by (nonlinear_arith)
                requires
                    i < n && n == rows * 16 && rows == num_tiles / 16 && num_tiles >= 0,
            ;
            assert(i * 32 + 32 <= num_tiles * 32 && num_tiles * 32 <= data@.len())
                by (nonlinear_arith)
                requires
                    i < num_tiles && num_tiles == data@.len() / 32,
            ;
            assert(data.len() == data@.len());
            assert((i % 16) * 8 + 8 <= 128 && (i / 16) * 8 + 8 <= rows * 8) by (nonlinear_arith)
                requires
                    i % 16 < 16 && i / 16 < rows,
            ;
        }
        let tile = slice_subrange(data, i * 32, data.len());
        let x = (i % 16) * 8;
        let y = (i / 16) * 8;
        let ghost img_pre = img;
        render_tile(tile, &mut img, greys.as_slice(), x, y, false, false);
        i = i + 1;
        proof {
            let iprev = i - 1;
            assert forall|j: int, dx: int, dy: int|
                0 <= j < i && 0 <= dx < 8 && 0 <= dy < 8 implies #[trigger] img.spec_pixel(
                tile_cell_px(16, j, dx),
                tile_cell_py(16, j, dy),
            ) == spec_sheet_tile_pixel(data@, 32 * j, grey_colors(), 0, dx, dy, false, false) by {
                let px = tile_cell_px(16, j, dx);
                let py = tile_cell_py(16, j, dy);
                assert(px == (j % 16) * 8 + dx && py == (j / 16) * 8 + dy);
                assert(0 <= j % 16 < 16 && 0 <= j / 16 < rows && 0 <= px < 128 && 0 <= py < rows
                    * 8) by (nonlinear_arith)
                    requires
                        0 <= j < rows * 16 && 0 <= dx < 8 && 0 <= dy < 8 && px == (j % 16) * 8 + dx
                            && py == (j / 16) * 8 + dy,
                ;
                if j == iprev {
                    assert(img.spec_pixel(x as int + dx, y as int + dy) == spec_tile_pixel(
                        tile@,
                        greys@,
                        dx,
                        dy,
                        false,
                        false,
                    ));
                    assert(px == x as int + dx && py == y as int + dy);
                    assert(tile@[4 * dy + dx / 2] == data@[32 * j + 4 * dy + dx / 2]);
                    assert(spec_packed_pixel(tile@, 0, dx, dy) == spec_packed_pixel(
                        data@,
                        32 * j,
                        dx,
                        dy,
                    ));
                    lemma_packed_pixel_bound(data@, 32 * j, dx, dy);
                } else {
                    assert(!(x <= px < x + 8 && y <= py < y + 8)) by (nonlinear_arith)
                        requires
                            px == (j % 16) * 8 + dx && py == (j / 16) * 8 + dy && 0 <= dx < 8 && 0
                                <= dy < 8 && x == (iprev % 16) * 8 && y == (iprev / 16) * 8 && j
                                != iprev && 0 <= j && 0 <= iprev && j % 16 == j - 16 * (j / 16)
                                && iprev % 16 == iprev - 16 * (iprev / 16),
                    ;
                    assert(img.spec_pixel(px, py) == img_pre.spec_pixel(px, py));
                    assert(img_pre.spec_pixel(tile_cell_px(16, j, dx), tile_cell_py(16, j, dy))
                        == spec_sheet_tile_pixel(
                        data@,
                        32 * j,
                        grey_colors(),
                        0,
                        dx,
                        dy,
                        false,
                        false,
                    ));
                }
            }
        }
    }
    Ok(img)
}

impl<'a> TileRenderer<'a> {
    /// Whether the sheet grid draws tile slot `i`: the slot holds a scene
    /// tile or a common tile; the empty space between them stays blank.
    pub open spec fn sheet_slot_drawn(self, i: int) -> bool {
        i < self.spec_sce_tiles() || 0x280 <= i
    }

    /// Draw the unified sheet as a 16-wide grid of greyscale tiles: scene
    /// tiles first, common tiles at their sheet positions, the space between
    /// them transparent black; rows the sheet only partly fills are left
    /// out.
    #[verifier::rlimit(100)]
    #[verifier::spinoff_prover]
    pub fn render_graphics_sheet(&self) -> (res: Result<Image, SmError>)
        requires
            self.wf(),
            self.spec_num_tiles() * 256 <= usize::MAX,
        ensures
            res is Ok,
            res matches Ok(img) ==> {
                &&& img.wf()
                &&& img.width == 128
                &&& img.height == self.spec_num_tiles() / 16 * 8
                &&& forall|i: int, dx: int, dy: int|
                    0 <= i < self.spec_num_tiles() / 16 * 16 && 0 <= dx < 8 && 0 <= dy < 8
                        ==> #[trigger] img.spec_pixel(
                        tile_cell_px(16, i, dx),
                        tile_cell_py(16, i, dy),
                    ) == if self.sheet_slot_drawn(i) {
                        spec_sheet_tile_pixel(
                            self.sheet(),
                            32 * i,
                            grey_colors(),
                            0,
                            dx,
                            dy,
                            false,
                            false,
                        )
                    } else {
                        (0u8, 0u8, 0u8, 0u8)
                    }
            },
    {
        let num_tiles = self.num_tiles;
        let rows = num_tiles / 16;
        let mut img = Image::new_image(128, rows * 8);
        proof {
            assert(128 * (rows * 8) * 4 <= usize::MAX && rows * 16 <= num_tiles)
                by (nonlinear_arith)
                requires
                    rows == num_tiles / 16 && num_tiles * 256 <= usize::MAX && num_tiles >= 0,
            ;
        }
        let greys = make_grey_colors();
        let n = rows * 16;
        let mut i: usize = 0;
        while i < n
            invariant
                self.wf(),
                img.wf(),
                img.width == 128,
                img.height == rows * 8,
                num_tiles == self.spec_num_tiles(),
                rows == num_tiles / 16,
                n == rows * 16,
                n <= num_tiles,
                greys@ == grey_colors(),
                i <= n,
                forall|j: int, dx: int, dy: int|
                    0 <= j < n && 0 <= dx < 8 && 0 <= dy < 8 ==> #[trigger] img.spec_pixel(
                        tile_cell_px(16, j, dx),
                        tile_cell_py(16, j, dy),
                    ) == if j < i && self.sheet_slot_drawn(j) {
                        spec_sheet_tile_pixel(
                            self.sheet(),
                            32 * j,
                            grey_colors(),
                            0,
                            dx,
                            dy,
                            false,
                            false,
                        )
                    } else {
                        (0u8, 0u8, 0u8, 0u8)
                    },
            decreases n - i,
        {
            proof {
                assert(i / 16 < rows && i % 16 < 16) by (nonlinear_arith)
                    requires
                        i < n && n == rows * 16 && rows >= 0,
                ;
                assert(i * 32 + 32 <= num_tiles * 32) by (nonlinear_arith)
                    requires
                        i < n && n <= num_tiles,
                ;
                assert((i % 16) * 8 + 8 <= 128 && (i / 16) * 8 + 8 <= rows * 8)
                    by (nonlinear_arith)
                    requires
                        i % 16 < 16 && i / 16 < rows,
                ;
                assert(self.graphics_sheet.len() == self.sheet().len());
            }
            let ghost img_pre = img;
            let ghost drew = self.sheet_slot_drawn(i as int);
            if i < self.sce_tiles || i >= 0x280 {
                let tile = slice_subrange(
                    self.graphics_sheet.as_slice(),
                    i * 32,
                    self.graphics_sheet.len(),
                );
                let x = (i % 16) * 8;
                let y = (i / 16) * 8;
                render_tile(tile, &mut img, greys.as_slice(), x, y, false, false);
                proof {
                    assert forall|dx: int, dy: int| 0 <= dx < 8 && 0 <= dy < 8 implies #[trigger] img.spec_pixel(
                        tile_cell_px(16, i as int, dx),
                        tile_cell_py(16, i as int, dy),
                    ) == spec_sheet_tile_pixel(
                        self.sheet(),
                        32 * (i as int),
                        grey_colors(),
                        0,
                        dx,
                        dy,
                        false,
                        false,
                    ) by {
                        assert(img.spec_pixel(x as int + dx, y as int + dy) == spec_tile_pixel(
                            tile@,
                            greys@,
                            dx,
                            dy,
                            false,
                            false,
                        ));
                        assert(tile_cell_px(16, i as int, dx) == x as int + dx
                            && tile_cell_py(16, i as int, dy) == y as int + dy);
                        assert(tile@[4 * dy + dx / 2] == self.sheet()[32 * (i as int) + 4 * dy + dx
                            / 2]);
                        assert(spec_packed_pixel(tile@, 0, dx, dy) == spec_packed_pixel(
                            self.sheet(),
                            32 * (i as int),
                            dx,
                            dy,
                        ));
                        lemma_packed_pixel_bound(self.sheet(), 32 * (i as int), dx, dy);
                    }
                }
            }
            i = i + 1;
            proof {
                let iprev = i - 1;
                let x = (iprev % (16 as int)) * 8;
                let y = (iprev / (16 as int)) * 8;
                assert forall|j: int, dx: int, dy: int|
                    0 <= j < n && 0 <= dx < 8 && 0 <= dy < 8 implies #[trigger] img.spec_pixel(
                    tile_cell_px(16, j, dx),
                    tile_cell_py(16, j, dy),
                ) == if j < i && self.sheet_slot_drawn(j) {
                    spec_sheet_tile_pixel(
                        self.sheet(),
                        32 * j,
                        grey_colors(),
                        0,
                        dx,
                        dy,
                        false,
                        false,
                    )
                } else {
                    (0u8, 0u8, 0u8, 0u8)
                } by {
                    let px = tile_cell_px(16, j, dx);
                    let py = tile_cell_py(16, j, dy);
                    assert(px == (j % 16) * 8 + dx && py == (j / 16) * 8 + dy);
                    assert(0 <= j % 16 < 16 && 0 <= j / 16 < rows && 0 <= px < 128 && 0 <= py
                        < rows * 8) by (nonlinear_arith)
                        requires
                            0 <= j < rows * 16 && 0 <= dx < 8 && 0 <= dy < 8 && px == (j % 16) * 8
                                + dx && py == (j / 16) * 8 + dy,
                    ;
                    if j != iprev {
                        assert(!(x <= px < x + 8 && y <= py < y + 8)) by (nonlinear_arith)
                            requires
                                px == (j % 16) * 8 + dx && py == (j / 16) * 8 + dy && 0 <= dx < 8
                                    && 0 <= dy < 8 && x == (iprev % (16 as int)) * 8 && y == (iprev
                                    / (16 as int)) * 8 && j != iprev && 0 <= j && 0 <= iprev && j
                                    % 16 == j - 16 * (j / 16) && iprev % 16 == iprev - 16 * (iprev
                                    / 16),
                        ;
                        assert(img.spec_pixel(px, py) == img_pre.spec_pixel(px, py));
                        assert(img_pre.spec_pixel(tile_cell_px(16, j, dx), tile_cell_py(16, j, dy))
                            == if j < iprev && self.sheet_slot_drawn(j) {
                            spec_sheet_tile_pixel(
                                self.sheet(),
                                32 * j,
                                grey_colors(),
                                0,
                                dx,
                                dy,
                                false,
                                false,
                            )
                        } else {
                            (0u8, 0u8, 0u8, 0u8)
                        });
                    } else {
                        if !drew {
                            assert(img.spec_pixel(px, py) == img_pre.spec_pixel(px, py));
                        }
                    }
                }
            }
        }
        Ok(img)
    }
}

/// Column of the 8-pixel cell table entry `e` is drawn in: entries form
/// 2 x 2 super-tiles, 32 super-tiles to a row.
pub open spec fn table_cell_col(e: int) -> int {
    (e / 4 % 32) * 2 + e % 2
}

/// Row of the 8-pixel cell table entry `e` is drawn in.
pub open spec fn table_cell_row(e: int) -> int {
    (e / 4 / 32) * 2 + e / 2 % 2
}

/// Distinct table entries are drawn in distinct cells.
proof fn lemma_table_cell_injective(e: int, e2: int)
    requires
        0 <= e,
        0 <= e2,
        e != e2,
    ensures
        table_cell_col(e) != table_cell_col(e2) || table_cell_row(e) != table_cell_row(e2),
{
    lemma_table_cell_decomp(e);
    lemma_table_cell_decomp(e2);
    if table_cell_col(e) == table_cell_col(e2) && table_cell_row(e) == table_cell_row(e2) {
        let c = table_cell_col(e);
        let r = table_cell_row(e);
        assert(e == ((r / 2) * 32 + c / 2) * 4 + (r % 2) * 2 + c % 2);
        assert(e2 == ((r / 2) * 32 + c / 2) * 4 + (r % 2) * 2 + c % 2);
    }
}

/// An entry index is recovered from the cell it is drawn in.
proof fn lemma_table_cell_decomp(e: int)
    requires
        0 <= e,
    ensures
        e == ((table_cell_row(e) / 2) * 32 + table_cell_col(e) / 2) * 4 + (table_cell_row(e) % 2)
            * 2 + table_cell_col(e) % 2,
        0 <= table_cell_col(e) < 64,
        0 <= table_cell_row(e),
{
    let sup = e / 4;
    let sc = sup % 32;
    let sr = sup / 32;
    let sx = e % 2;
    let sy = e / 2 % 2;
    assert(0 <= sx < 2 && 0 <= sy < 2 && 0 <= sc < 32 && 0 <= sr);
    assert(table_cell_col(e) == sc * 2 + sx && table_cell_row(e) == sr * 2 + sy);
    assert((sc * 2 + sx) / 2 == sc && (sc * 2 + sx) % 2 == sx && (sr * 2 + sy) / 2 == sr && (sr * 2
        + sy) % 2 == sy) by (nonlinear_arith)
        requires
            0 <= sx < 2 && 0 <= sy < 2 && 0 <= sc && 0 <= sr,
    ;
    assert(e == 4 * sup + e % 4);
    assert(e % 4 == sy * 2 + sx) by (nonlinear_arith)
        requires
            0 <= e && sx == e % 2 && sy == e / 2 % 2,
    ;
    assert(sup == sr * 32 + sc);
    assert((sr * 32 + sc) * 4 + sy * 2 + sx == 4 * sup + sy * 2 + sx) by (nonlinear_arith)
        requires
            sup == sr * 32 + sc,
    ;
    assert(0 <= sc * 2 + sx < 64) by (nonlinear_arith)
        requires
            0 <= sc < 32 && 0 <= sx < 2,
    ;
}

impl<'a> TileRenderer<'a> {
    /// Whether entry `e` of a table drawn with vertical offset `oy` fits a
    /// grid image of height `img_h`.
    pub open spec fn table_entry_fits(e: int, oy: int, img_h: int) -> bool {
        oy + table_cell_row(e) * 8 + 8 <= img_h
    }

    /// Whether the cell of entry `e`, drawn with vertical offset `oy`,
    /// covers the pixel `(x2, y2)`.
    pub open spec fn table_cell_covers(e: int, oy: int, x2: int, y2: int) -> bool {
        &&& table_cell_col(e) * 8 <= x2 < table_cell_col(e) * 8 + 8
        &&& oy + table_cell_row(e) * 8 <= y2 < oy + table_cell_row(e) * 8 + 8
    }

    /// Draw one table as a 64-wide grid of 8-pixel cells, 2 x 2 cells per
    /// entry group, starting `offset_y` pixels down; entries whose cell does
    /// not fit the image are left out.  Fails exactly when a drawn entry
    /// names a tile outside the sheet or a palette group past the palette;
    /// pixels above `offset_y` are never touched.
    #[verifier::rlimit(100)]
    #[verifier::spinoff_prover]
    fn render_sub_table(&self, img: &mut Image, table: &TileTable, offset_y: usize) -> (res:
        Result<(), SmError>)
        requires
            self.wf(),
            old(img).wf(),
            old(img).width == 512,
        ensures
            final(img).wf(),
            final(img).width == old(img).width,
            final(img).height == old(img).height,
            res is Ok <==> forall|e: int|
                0 <= e < table.entries@.len() && Self::table_entry_fits(
                    e,
                    offset_y as int,
                    old(img).height as int,
                ) ==> (#[trigger] table.entries@[e]).index < self.spec_num_tiles()
                    && table.entries@[e].palette < 8,
            res is Ok ==> forall|e: int, dx: int, dy: int|
                0 <= e < table.entries@.len() && Self::table_entry_fits(
                    e,
                    offset_y as int,
                    old(img).height as int,
                ) && 0 <= dx < 8 && 0 <= dy < 8 ==> #[trigger] final(img).spec_pixel(
                    table_cell_col(e) * 8 + dx,
                    offset_y + table_cell_row(e) * 8 + dy,
                ) == spec_sheet_tile_pixel(
                    self.sheet(),
                    table.entries@[e].index as int * 32,
                    self.spec_palette().colors@,
                    table.entries@[e].palette as int,
                    dx,
                    dy,
                    table.entries@[e].flip_h,
                    table.entries@[e].flip_v,
                ),
            forall|x2: int, y2: int|
                0 <= x2 < old(img).width && 0 <= y2 < offset_y && y2 < old(img).height
                    ==> #[trigger] final(img).spec_pixel(x2, y2) == old(img).spec_pixel(x2, y2),
            forall|x2: int, y2: int|
                0 <= x2 < old(img).width && 0 <= y2 < old(img).height && !(exists|e: int|
                    0 <= e < table.entries@.len() && Self::table_entry_fits(
                        e,
                        offset_y as int,
                        old(img).height as int,
                    ) && #[trigger] Self::table_cell_covers(e, offset_y as int, x2, y2))
                    ==> #[trigger] final(img).spec_pixel(x2, y2) == old(img).spec_pixel(x2, y2),
    {
        let mut i: usize = 0;
        while i < table.entries.len()
            invariant
                self.wf(),
                img.wf(),
                img.width == old(img).width,
                img.height == old(img).height,
                old(img).width == 512,
                i <= table.entries@.len(),
                forall|e: int|
                    0 <= e < i && Self::table_entry_fits(
                        e,
                        offset_y as int,
                        old(img).height as int,
                    ) ==> (#[trigger] table.entries@[e]).index < self.spec_num_tiles()
                        && table.entries@[e].palette < 8,
                forall|e: int, dx: int, dy: int|
                    0 <= e < i && Self::table_entry_fits(
                        e,
                        offset_y as int,
                        old(img).height as int,
                    ) && 0 <= dx < 8 && 0 <= dy < 8 ==> #[trigger] img.spec_pixel(
                        table_cell_col(e) * 8 + dx,
                        offset_y + table_cell_row(e) * 8 + dy,
                    ) == spec_sheet_tile_pixel(
                        self.sheet(),
                        table.entries@[e].index as int * 32,
                        self.spec_palette().colors@,
                        table.entries@[e].palette as int,
                        dx,
                        dy,
                        table.entries@[e].flip_h,
                        table.entries@[e].flip_v,
                    ),
                forall|x2: int, y2: int|
                    0 <= x2 < old(img).width && 0 <= y2 < offset_y && y2 < old(img).height
                        ==> #[trigger] img.spec_pixel(x2, y2) == old(img).spec_pixel(x2, y2),
                forall|x2: int, y2: int|
                    0 <= x2 < old(img).width && 0 <= y2 < old(img).height && !(exists|e: int|
                        0 <= e < i && Self::table_entry_fits(
                            e,
                            offset_y as int,
                            old(img).height as int,
                        ) && #[trigger] Self::table_cell_covers(e, offset_y as int, x2, y2))
                        ==> #[trigger] img.spec_pixel(x2, y2) == old(img).spec_pixel(x2, y2),
            decreases table.entries@.len() - i,
        {
            let entry = table.entries[i];
            let super_i = i / 4;
            let col = (super_i % 32) * 2 + i % 2;
            let row = (super_i / 32) * 2 + (i / 2) % 2;
            proof {
                lemma_table_cell_decomp(i as int);
                assert(col == table_cell_col(i as int) && row == table_cell_row(i as int));
            }
            // row * 8 can overflow only past the image, where the cell is
            // skipped anyway
            if row > usize::MAX / 8 || offset_y > usize::MAX - row * 8 - 8 || offset_y + row * 8
                + 8 > img.height {
                proof {
                    assert(!Self::table_entry_fits(
                        i as int,
                        offset_y as int,
                        old(img).height as int,
                    ));
                    let inext = i + 1;
                    assert forall|x2: int, y2: int|
                        0 <= x2 < old(img).width && 0 <= y2 < old(img).height && !(exists|e: int|
                            0 <= e < inext && Self::table_entry_fits(
                                e,
                                offset_y as int,
                                old(img).height as int,
                            ) && #[trigger] Self::table_cell_covers(e, offset_y as int, x2, y2))
                        implies #[trigger] img.spec_pixel(x2, y2) == old(img).spec_pixel(
                        x2,
                        y2,
                    ) by {
                        if exists|e: int|
                            0 <= e < i && Self::table_entry_fits(
                                e,
                                offset_y as int,
                                old(img).height as int,
                            ) && #[trigger] Self::table_cell_covers(e, offset_y as int, x2, y2) {
                            let e = choose|e: int|
                                0 <= e < i && Self::table_entry_fits(
                                    e,
                                    offset_y as int,
                                    old(img).height as int,
                                ) && #[trigger] Self::table_cell_covers(
                                    e,
                                    offset_y as int,
                                    x2,
                                    y2,
                                );
                            assert(false);
                        }
                    }
                }
                i = i + 1;
                continue;
            }
            if entry.palette >= 8 {
                proof {
                    assert forall|x2: int, y2: int|
                        0 <= x2 < old(img).width && 0 <= y2 < old(img).height && !(exists|e: int|
                            0 <= e < table.entries@.len() && Self::table_entry_fits(
                                e,
                                offset_y as int,
                                old(img).height as int,
                            ) && #[trigger] Self::table_cell_covers(e, offset_y as int, x2, y2))
                        implies #[trigger] img.spec_pixel(x2, y2) == old(img).spec_pixel(
                        x2,
                        y2,
                    ) by {
                        if exists|e: int|
                            0 <= e < i && Self::table_entry_fits(
                                e,
                                offset_y as int,
                                old(img).height as int,
                            ) && #[trigger] Self::table_cell_covers(e, offset_y as int, x2, y2) {
                            let e = choose|e: int|
                                0 <= e < i && Self::table_entry_fits(
                                    e,
                                    offset_y as int,
                                    old(img).height as int,
                                ) && #[trigger] Self::table_cell_covers(
                                    e,
                                    offset_y as int,
                                    x2,
                                    y2,
                                );
                            assert(false);
                        }
                    }
                }
                return Err(
                    SmError::OutOfRange { entity: RangeKind::Block, index: i },
                );
            }
            let ghost img_pre = img;
            let x = col * 8;
            let y = offset_y + row * 8;
            match self.render_entry_tile(img, entry, x, y, false, false) {
                Ok(_) => {},
                Err(e) => {
                    proof {
                        assert(!(entry.index < self.spec_num_tiles()));
                        assert(img.data@ == img_pre.data@);
                    assert forall|x2: int, y2: int|
                        0 <= x2 < old(img).width && 0 <= y2 < old(img).height && !(exists|e: int|
                            0 <= e < table.entries@.len() && Self::table_entry_fits(
                                e,
                                offset_y as int,
                                old(img).height as int,
                            ) && #[trigger] Self::table_cell_covers(e, offset_y as int, x2, y2))
                        implies #[trigger] img.spec_pixel(x2, y2) == old(img).spec_pixel(
                        x2,
                        y2,
                    ) by {
                        assert(img.spec_pixel(x2, y2) == img_pre.spec_pixel(x2, y2));
                        if exists|e: int|
                            0 <= e < i && Self::table_entry_fits(
                                e,
                                offset_y as int,
                                old(img).height as int,
                            ) && #[trigger] Self::table_cell_covers(e, offset_y as int, x2, y2) {
                            let e = choose|e: int|
                                0 <= e < i && Self::table_entry_fits(
                                    e,
                                    offset_y as int,
                                    old(img).height as int,
                                ) && #[trigger] Self::table_cell_covers(
                                    e,
                                    offset_y as int,
                                    x2,
                                    y2,
                                );
                            assert(false);
                        }
                        assert(img_pre.spec_pixel(x2, y2) == old(img).spec_pixel(x2, y2));
                    }
                    }
                    return Err(e);
                },
            }
            i = i + 1;
            proof {
                assert(entry.flip_h != false == entry.flip_h && entry.flip_v != false
                    == entry.flip_v);
                let iprev = i - 1;
                assert forall|e: int, dx: int, dy: int|
                    0 <= e < i && Self::table_entry_fits(
                        e,
                        offset_y as int,
                        old(img).height as int,
                    ) && 0 <= dx < 8 && 0 <= dy < 8 implies #[trigger] img.spec_pixel(
                    table_cell_col(e) * 8 + dx,
                    offset_y + table_cell_row(e) * 8 + dy,
                ) == spec_sheet_tile_pixel(
                    self.sheet(),
                    table.entries@[e].index as int * 32,
                    self.spec_palette().colors@,
                    table.entries@[e].palette as int,
                    dx,
                    dy,
                    table.entries@[e].flip_h,
                    table.entries@[e].flip_v,
                ) by {
                    let px = table_cell_col(e) * 8 + dx;
                    let py = offset_y + table_cell_row(e) * 8 + dy;
                    let oih = old(img).height as int;
                    lemma_table_cell_decomp(e);
                    if e == iprev {
                        assert(img.spec_pixel(x as int + dx, y as int + dy)
                            == spec_sheet_tile_pixel(
                            self.sheet(),
                            entry.index as int * 32,
                            self.spec_palette().colors@,
                            entry.palette as int,
                            dx,
                            dy,
                            entry.flip_h,
                            entry.flip_v,
                        ));
                        assert(px == x as int + dx && py == y as int + dy);
                    } else {
                        lemma_table_cell_injective(e, iprev);
                        assert(!(x <= px < x + 8 && y <= py < y + 8)) by (nonlinear_arith)
                            requires
                                px == table_cell_col(e) * 8 + dx && py == offset_y
                                    + table_cell_row(e) * 8 + dy && 0 <= dx < 8 && 0 <= dy < 8
                                    && x == table_cell_col(iprev as int) * 8 && y == offset_y
                                    + table_cell_row(iprev as int) * 8 && (table_cell_col(e)
                                    != table_cell_col(iprev as int) || table_cell_row(e)
                                    != table_cell_row(iprev as int)),
                        ;
                        assert(0 <= px < 512 && 0 <= py < oih) by (nonlinear_arith)
                            requires
                                px == table_cell_col(e) * 8 + dx && py == offset_y
                                    + table_cell_row(e) * 8 + dy && 0 <= dx < 8 && 0 <= dy < 8 && 0
                                    <= table_cell_col(e) < 64 && 0 <= table_cell_row(e) && 0
                                    <= offset_y && offset_y + table_cell_row(e) * 8 + 8 <= oih,
                        ;
                        assert(img.spec_pixel(px, py) == img_pre.spec_pixel(px, py));
                    }
                }
                // pixels in no drawn cell are still untouched
                assert forall|x2: int, y2: int|
                    0 <= x2 < old(img).width && 0 <= y2 < old(img).height && !(exists|e: int|
                        0 <= e < i && Self::table_entry_fits(
                            e,
                            offset_y as int,
                            old(img).height as int,
                        ) && #[trigger] Self::table_cell_covers(e, offset_y as int, x2, y2))
                    implies #[trigger] img.spec_pixel(x2, y2) == old(img).spec_pixel(x2, y2) by {
                    assert(!Self::table_cell_covers(iprev, offset_y as int, x2, y2));
                    assert(!(x <= x2 < x + 8 && y <= y2 < y + 8));
                    assert(img.spec_pixel(x2, y2) == img_pre.spec_pixel(x2, y2));
                    if exists|e: int|
                        0 <= e < iprev && Self::table_entry_fits(
                            e,
                            offset_y as int,
                            old(img).height as int,
                        ) && #[trigger] Self::table_cell_covers(e, offset_y as int, x2, y2) {
                        let e = choose|e: int|
                            0 <= e < iprev && Self::table_entry_fits(
                                e,
                                offset_y as int,
                                old(img).height as int,
                            ) && #[trigger] Self::table_cell_covers(e, offset_y as int, x2, y2);
                        assert(false);
                    }
                    assert(img_pre.spec_pixel(x2, y2) == old(img).spec_pixel(x2, y2));
                }
            }
        }
        Ok(())
    }

    /// Draw the two tile tables as one 64-wide grid of 8-pixel cells: the
    /// common table at the top, the scene table below it, each entry drawn
    /// with its own tile, palette group and flips; rows the tables only
    /// partly fill are left out.  Fails exactly when a drawn entry of either
    /// table is undrawable.
    #[verifier::rlimit(100)]
    #[verifier::spinoff_prover]
    pub fn render_tile_table(&self) -> (res: Result<Image, SmError>)
        requires
            self.wf(),
            self.spec_cre_table().len() + self.spec_sce_table().len() <= usize::MAX / 256,
        ensures
            ({
                let img_h = ((self.spec_cre_table().len() + self.spec_sce_table().len()) / 64
                    * 8) as int;
                let oy = (self.spec_cre_table().len() / 64 * 8) as int;
                &&& (res is Ok <==> (forall|e: int|
                    0 <= e < self.spec_cre_table().len() && Self::table_entry_fits(e, 0, img_h)
                        ==> (#[trigger] self.spec_cre_table()[e]).index < self.spec_num_tiles()
                        && self.spec_cre_table()[e].palette < 8) && (forall|e: int|
                    0 <= e < self.spec_sce_table().len() && Self::table_entry_fits(e, oy, img_h)
                        ==> (#[trigger] self.spec_sce_table()[e]).index < self.spec_num_tiles()
                        && self.spec_sce_table()[e].palette < 8))
                &&& (res matches Ok(img) ==> {
                    &&& img.wf()
                    &&& img.width == 512
                    &&& img.height == img_h
                    // scene entries, drawn last, are all exact
                    &&& forall|e: int, dx: int, dy: int|
                        0 <= e < self.spec_sce_table().len() && Self::table_entry_fits(
                            e,
                            oy,
                            img_h,
                        ) && 0 <= dx < 8 && 0 <= dy < 8 ==> #[trigger] img.spec_pixel(
                            table_cell_col(e) * 8 + dx,
                            oy + table_cell_row(e) * 8 + dy,
                        ) == spec_sheet_tile_pixel(
                            self.sheet(),
                            self.spec_sce_table()[e].index as int * 32,
                            self.spec_palette().colors@,
                            self.spec_sce_table()[e].palette as int,
                            dx,
                            dy,
                            self.spec_sce_table()[e].flip_h,
                            self.spec_sce_table()[e].flip_v,
                        )
                    // a common entry's pixels survive wherever no drawn
                    // scene cell lands on the same spot
                    &&& forall|e: int, dx: int, dy: int|
                        0 <= e < self.spec_cre_table().len() && Self::table_entry_fits(
                            e,
                            0,
                            img_h,
                        ) && 0 <= dx < 8 && 0 <= dy < 8 && !(exists|e2: int|
                            0 <= e2 < self.spec_sce_table().len() && Self::table_entry_fits(
                                e2,
                                oy,
                                img_h,
                            ) && #[trigger] Self::table_cell_covers(
                                e2,
                                oy,
                                table_cell_col(e) * 8 + dx,
                                table_cell_row(e) * 8 + dy,
                            )) ==> #[trigger] img.spec_pixel(
                            table_cell_col(e) * 8 + dx,
                            table_cell_row(e) * 8 + dy,
                        ) == spec_sheet_tile_pixel(
                            self.sheet(),
                            self.spec_cre_table()[e].index as int * 32,
                            self.spec_palette().colors@,
                            self.spec_cre_table()[e].palette as int,
                            dx,
                            dy,
                            self.spec_cre_table()[e].flip_h,
                            self.spec_cre_table()[e].flip_v,
                        )
                })
            }),
    {
        let num_entries = self.cre_table.entries.len() + self.sce_table.entries.len();
        let rows = num_entries / 64;
        proof {
            assert(512 * (rows * 8) * 4 <= usize::MAX && rows * 8 <= usize::MAX)
                by (nonlinear_arith)
                requires
                    rows == num_entries / 64 && num_entries <= usize::MAX / 256 && 0
                        <= num_entries,
            ;
        }
        let mut img = Image::new_image(512, rows * 8);
        let offset_y = self.cre_table.entries.len() / 64 * 8;
        match self.render_sub_table(&mut img, self.cre_table, 0) {
            Ok(_) => {},
            Err(e) => {
                return Err(e);
            },
        }
        let ghost img_mid = img;
        match self.render_sub_table(&mut img, self.sce_table, offset_y) {
            Ok(_) => {},
            Err(e) => {
                return Err(e);
            },
        }
        proof {
            let oy = offset_y as int;
            let img_h = img.height as int;
            assert forall|e: int, dx: int, dy: int|
                0 <= e < self.spec_cre_table().len() && Self::table_entry_fits(e, 0, img_h) && 0
                    <= dx < 8 && 0 <= dy < 8 && !(exists|e2: int|
                    0 <= e2 < self.spec_sce_table().len() && Self::table_entry_fits(
                        e2,
                        oy,
                        img_h,
                    ) && #[trigger] Self::table_cell_covers(
                        e2,
                        oy,
                        table_cell_col(e) * 8 + dx,
                        table_cell_row(e) * 8 + dy,
                    )) implies #[trigger] img.spec_pixel(
                table_cell_col(e) * 8 + dx,
                table_cell_row(e) * 8 + dy,
            ) == spec_sheet_tile_pixel(
                self.sheet(),
                self.spec_cre_table()[e].index as int * 32,
                self.spec_palette().colors@,
                self.spec_cre_table()[e].palette as int,
                dx,
                dy,
                self.spec_cre_table()[e].flip_h,
                self.spec_cre_table()[e].flip_v,
            ) by {
                let px = table_cell_col(e) * 8 + dx;
                let py = table_cell_row(e) * 8 + dy;
                lemma_table_cell_decomp(e);
                assert(0 <= px < 512 && 0 <= py < img_h) by (nonlinear_arith)
                    requires
                        px == table_cell_col(e) * 8 + dx && py == table_cell_row(e) * 8 + dy && 0
                            <= dx < 8 && 0 <= dy < 8 && 0 <= table_cell_col(e) < 64 && 0
                            <= table_cell_row(e) && table_cell_row(e) * 8 + 8 <= img_h,
                ;
                assert(img.spec_pixel(px, py) == img_mid.spec_pixel(px, py));
                assert(img_mid.spec_pixel(table_cell_col(e) * 8 + dx, 0 + table_cell_row(e) * 8
                    + dy) == spec_sheet_tile_pixel(
                    self.sheet(),
                    self.spec_cre_table()[e].index as int * 32,
                    self.spec_palette().colors@,
                    self.spec_cre_table()[e].palette as int,
                    dx,
                    dy,
                    self.spec_cre_table()[e].flip_h,
                    self.spec_cre_table()[e].flip_v,
                ));
            }
        }
        Ok(img)
    }
}

} // verus!
