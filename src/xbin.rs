use vstd::prelude::*;

use crate::block::{BlockError, Chunk};
use crate::palette::Color;

verus! {

/// Length of the fixed part of the file: header, palette and glyph table.
pub const BLOCK_DATA_OFFSET: usize = 315;

/// Channel `k` (0 red, 1 green, 2 blue) of a colour.
pub open spec fn channel(c: Color, k: int) -> u8 {
    if k == 0 {
        c.r
    } else if k == 1 {
        c.g
    } else {
        c.b
    }
}

/// The palette as red, green, blue bytes, colour after colour.
pub open spec fn palette_bytes(p: Seq<Color>) -> Seq<u8> {
    Seq::new(3 * p.len(), |i: int| channel(p[i / 3], i % 3))
}

/// The colour pair of a chunk: `bg` in the high nibble, `fg` in the low one.
pub open spec fn color_pair(c: Chunk) -> u8 {
    (c.bg * 16 + c.fg) as u8
}

/// Two bytes per chunk: its codepoint, then its colour pair.
pub open spec fn chunk_bytes(cs: Seq<Chunk>) -> Seq<u8> {
    Seq::new(2 * cs.len(), |i: int| if i % 2 == 0 { cs[i / 2].codepoint } else { color_pair(cs[i / 2]) })
}

/// The glyph table: every byte value once, in order.
pub open spec fn font_bytes() -> Seq<u8> {
    Seq::new(256, |i: int| i as u8)
}

/// The 11-byte header: the signature `XBIN` and 0x1a, the columns and rows as
/// little-endian 16-bit values, and the flags (palette and font present, a
/// 16-line font, no compression).
pub open spec fn header_bytes(columns: int, rows: int) -> Seq<u8> {
    seq![
        0x58u8,
        0x42u8,
        0x49u8,
        0x4eu8,
        0x1au8,
        (columns % 256) as u8,
        (columns / 256) as u8,
        (rows % 256) as u8,
        (rows / 256) as u8,
        0x01u8,
        0x0bu8,
    ]
}

/// The whole file for an image of `width` by `height` pixels.
pub open spec fn xbin_layout(width: int, height: int, palette: Seq<Color>, chunks: Seq<Chunk>) -> Seq<u8> {
    header_bytes(width / 8, height) + palette_bytes(palette) + font_bytes() + chunk_bytes(chunks)
}

/// A little-endian 16-bit value read at `at`.
pub open spec fn read_u16_le(b: Seq<u8>, at: int) -> int {
    b[at] + 256 * b[at + 1]
}

/// Lays the palette out as red, green, blue bytes, colour after colour.
pub fn palette_to_bytes(palette: &[Color]) -> (r: Vec<u8>)
    ensures
        r@ == palette_bytes(palette@),
{
    let mut bytes: Vec<u8> = Vec::new();
    let mut i: usize = 0;
    while i < palette.len()
        invariant
            i <= palette@.len(),
            bytes@ =~= palette_bytes(palette@.subrange(0, i as int)),
        decreases palette@.len() - i,
    {
        let c = palette[i];
        bytes.push(c.r);
        bytes.push(c.g);
        bytes.push(c.b);
        i = i + 1;
        assert(bytes@ =~= palette_bytes(palette@.subrange(0, i as int)));
    }
    assert(palette@.subrange(0, i as int) =~= palette@);
    bytes
}

/// Lays the chunks out as two bytes each: the codepoint, then the colour pair.
pub fn chunks_to_bytes(chunks: &[Chunk]) -> (r: Vec<u8>)
    requires
        forall|k: int| 0 <= k < chunks@.len() ==> #[trigger] chunks@[k].bg < 16 && chunks@[k].fg < 16,
    ensures
        r@ == chunk_bytes(chunks@),
{
    let mut bytes: Vec<u8> = Vec::new();
    let mut i: usize = 0;
    while i < chunks.len()
        invariant
            i <= chunks@.len(),
            forall|k: int| 0 <= k < chunks@.len() ==> #[trigger] chunks@[k].bg < 16 && chunks@[k].fg < 16,
            bytes@ =~= chunk_bytes(chunks@.subrange(0, i as int)),
        decreases chunks@.len() - i,
    {
        let c = chunks[i];
        let bg = c.bg;
        assert((bg << 4) == bg * 16) by (bit_vector)
            requires
                bg < 16,
        ;
        bytes.push(c.codepoint);
        bytes.push((bg << 4) + c.fg);
        i = i + 1;
        assert(bytes@ =~= chunk_bytes(chunks@.subrange(0, i as int)));
    }
    assert(chunks@.subrange(0, i as int) =~= chunks@);
    bytes
}

/// The whole file for an image of `width` by `height` pixels with the given
/// hardware palette and chunks. An image width that is not a multiple of 8 is
/// refused before any byte is laid out.
pub fn xbin_bytes(width: u32, height: u32, palette: &[Color], chunks: &[Chunk]) -> (r: Result<
    Vec<u8>,
    BlockError,
>)
    requires
        palette@.len() == 16,
        width / 8 <= 0xffff,
        height <= 0xffff,
        width % 8 == 0 ==> chunks@.len() == (width / 8) as int * height as int,
        forall|k: int| 0 <= k < chunks@.len() ==> #[trigger] chunks@[k].bg < 16 && chunks@[k].fg < 16,
    ensures
        r is Err <==> width % 8 != 0,
        r is Err ==> r->Err_0 == BlockError::InvalidBlockLength,
        r is Ok ==> r->Ok_0@ == xbin_layout(width as int, height as int, palette@, chunks@),
{
    if width % 8 != 0 {
        return Err(BlockError::InvalidBlockLength);
    }
    let columns = width / 8;
    let mut bytes: Vec<u8> = Vec::new();
    bytes.push(0x58);
    bytes.push(0x42);
    bytes.push(0x49);
    bytes.push(0x4e);
    bytes.push(0x1a);
    bytes.push((columns % 256) as u8);
    bytes.push((columns / 256) as u8);
    bytes.push((height % 256) as u8);
    bytes.push((height / 256) as u8);
    bytes.push(0x01);
    bytes.push(0x0b);
    assert(bytes@ =~= header_bytes(columns as int, height as int));
    let mut palette_part = palette_to_bytes(palette);
    bytes.append(&mut palette_part);
    let mut glyph: u32 = 0;
    let ghost fixed = bytes@;
    while glyph < 256
        invariant
            glyph <= 256,
            bytes@ =~= fixed + Seq::new(glyph as nat, |i: int| i as u8),
        decreases 256 - glyph,
    {
        bytes.push(glyph as u8);
        glyph = glyph + 1;
    }
    assert(Seq::new(256, |i: int| i as u8) =~= font_bytes());
    let mut chunk_part = chunks_to_bytes(chunks);
    bytes.append(&mut chunk_part);
    assert(bytes@ =~= xbin_layout(width as int, height as int, palette@, chunks@));
    Ok(bytes)
}

/// Reading the header of a laid-out file back gives the columns, the rows and
/// the palette it was made from, and the block data that follows the fixed part
/// holds two bytes for each of the columns times rows blocks.
pub proof fn lemma_header_round_trip(width: u32, height: u32, palette: Seq<Color>, chunks: Seq<Chunk>)
    requires
        palette.len() == 16,
        width % 8 == 0,
        width / 8 <= 0xffff,
        height <= 0xffff,
        chunks.len() == (width / 8) as int * height as int,
    ensures
        ({
            let b = xbin_layout(width as int, height as int, palette, chunks);
            &&& read_u16_le(b, 5) == width / 8
            &&& read_u16_le(b, 7) == height
            &&& forall|i: int, k: int|
                0 <= i < 16 && 0 <= k < 3 ==> b[11 + 3 * i + k] == #[trigger] channel(palette[i], k)
            &&& forall|i: int| 0 <= i < 256 ==> #[trigger] b[59 + i] == i
            &&& b.len() == BLOCK_DATA_OFFSET + 2 * ((width / 8) as int * height as int)
        }),
{
    let b = xbin_layout(width as int, height as int, palette, chunks);
    let cols = (width / 8) as int;
    let h = height as int;
    assert(b[5] == (cols % 256) as u8 && b[6] == (cols / 256) as u8);
    assert(b[7] == (h % 256) as u8 && b[8] == (h / 256) as u8);
    assert forall|i: int, k: int| 0 <= i < 16 && 0 <= k < 3 implies b[11 + 3 * i + k] == #[trigger] channel(
        palette[i],
        k,
    ) by {
        assert((3 * i + k) / 3 == i && (3 * i + k) % 3 == k) by (nonlinear_arith)
            requires
                0 <= k < 3,
        ;
    }
}

} // verus!
