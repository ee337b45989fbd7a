//! Reading the handful of `.tga` files among the game's textures.

use super::dds::modelled;
use super::error::TextureError;
use super::format::{MipLevel, TextureFormat};
use super::texture::{Texture, TextureModel};
use crate::bytes::{le16, read_le16};
use vstd::prelude::*;

verus! {

/// Fixed-size header before the optional id block.
pub const HEADER: usize = 18;

/// Width of the image.
pub open spec fn tga_width(b: Seq<u8>) -> nat {
    le16(b, 12) as nat
}

/// Height of the image.
pub open spec fn tga_height(b: Seq<u8>) -> nat {
    le16(b, 14) as nat
}

/// Bytes each stored texel occupies.
pub open spec fn tga_depth(b: Seq<u8>) -> nat {
    (b[16] / 8) as nat
}

/// Where the pixels start: after the header and the id block.
pub open spec fn tga_start(b: Seq<u8>) -> nat {
    (HEADER + b[0]) as nat
}

/// Where the pixels end, which is how long the file has to be.
pub open spec fn tga_end(b: Seq<u8>) -> nat {
    tga_start(b) + tga_width(b) * tga_height(b) * tga_depth(b)
}

/// Whether the first row stored is the top one.
pub open spec fn tga_top_first(b: Seq<u8>) -> bool {
    (b[17] / 32) % 2 == 1
}

/// Whether the image is uncompressed true colour without a colour map, 24 or 32 bits deep.
pub open spec fn tga_supported(b: Seq<u8>) -> bool {
    b[2] == 2 && b[1] == 0 && (b[16] == 24 || b[16] == 32)
}

/// Whether the header describes an image that is read.
pub open spec fn tga_readable(b: Seq<u8>) -> bool {
    b.len() >= HEADER && tga_supported(b) && tga_width(b) != 0 && tga_height(b) != 0
}

/// Whether the pixels a readable header describes can be addressed on this machine.
pub open spec fn tga_addressable(b: Seq<u8>) -> bool {
    tga_readable(b) ==> {
        &&& tga_end(b) <= usize::MAX
        &&& tga_width(b) * tga_height(b) * 4 <= usize::MAX
    }
}

/// The stored row that becomes row `y`, counted from the top of the image.
pub open spec fn tga_source_row(b: Seq<u8>, y: int) -> int {
    if tga_top_first(b) {
        y
    } else {
        tga_height(b) - 1 - y
    }
}

/// Where the stored texel for (`x`, `y`) begins in the file.
pub open spec fn tga_texel_at(b: Seq<u8>, x: int, y: int) -> int {
    tga_start(b) + (tga_source_row(b, y) * tga_width(b) + x) * tga_depth(b)
}

/// Channel `c` of the texel at (`x`, `y`): red, green, blue, alpha out of stored blue, green, red
/// and the alpha that only a 32-bit image has.
pub open spec fn tga_channel(b: Seq<u8>, x: int, y: int, c: int) -> u8 {
    let at = tga_texel_at(b, x, y);
    if c == 0 {
        b[at + 2]
    } else if c == 1 {
        b[at + 1]
    } else if c == 2 {
        b[at]
    } else if tga_depth(b) == 4 {
        b[at + 3]
    } else {
        0xFF
    }
}

/// The decoded pixels, four bytes a texel, top row first.
pub open spec fn tga_pixels(b: Seq<u8>) -> Seq<u8> {
    Seq::new(
        tga_width(b) * tga_height(b) * 4,
        |i: int|
            tga_channel(b, (i / 4) % (tga_width(b) as int), (i / 4) / (tga_width(b) as int), i % 4),
    )
}

/// What a TGA image decodes to.
///
/// The first of these that applies: a file shorter than its header, an image type or depth that is
/// not read, an image with no texels, a file shorter than its pixels, and otherwise a single-level
/// `Rgba8` texture.
pub open spec fn tga_decodes_to(b: Seq<u8>, r: Result<TextureModel, TextureError>) -> bool {
    if b.len() < HEADER {
        r == Err::<TextureModel, TextureError>(
            TextureError::Truncated { wanted: HEADER, available: b.len() as usize },
        )
    } else if !tga_supported(b) {
        r == Err::<TextureModel, TextureError>(
            TextureError::UnsupportedTga { image_type: b[2], bits: b[16] },
        )
    } else if tga_width(b) == 0 || tga_height(b) == 0 {
        r == Err::<TextureModel, TextureError>(
            TextureError::EmptyImage { width: tga_width(b) as u32, height: tga_height(b) as u32 },
        )
    } else if b.len() < tga_end(b) {
        r == Err::<TextureModel, TextureError>(
            TextureError::Truncated { wanted: tga_end(b) as usize, available: b.len() as usize },
        )
    } else {
        &&& r matches Ok(texture)
        &&& texture.format == TextureFormat::Rgba8
        &&& texture.data == tga_pixels(b)
        &&& texture.levels == seq![
            MipLevel {
                offset: 0,
                size: ((tga_width(b) * tga_height(b) * 4) % 0x1_0000_0000) as u32,
                width: tga_width(b) as u32,
                height: tga_height(b) as u32,
            },
        ]
    }
}

/// A texel inside the image is stored inside the file.
pub proof fn lemma_texel_in_file(b: Seq<u8>, x: int, y: int)
    requires
        tga_readable(b),
        tga_end(b) <= b.len(),
        0 <= x < tga_width(b),
        0 <= y < tga_height(b),
    ensures
        0 <= (tga_source_row(b, y) * tga_width(b) + x) * tga_depth(b),
        tga_start(b) <= tga_texel_at(b, x, y),
        tga_texel_at(b, x, y) + tga_depth(b) <= b.len(),
        tga_source_row(b, y) * tga_width(b) + x < tga_width(b) * tga_height(b),
{
    let row = tga_source_row(b, y);
    let (w, h, d) = (tga_width(b) as int, tga_height(b) as int, tga_depth(b) as int);
    let index = row * w + x;
    assert(0 <= index && index + 1 <= w * h) by (nonlinear_arith)
        requires
            index == row * w + x,
            0 <= row < h,
            0 <= x < w,
    ;
    assert(0 <= index * d && (index + 1) * d <= w * h * d && (index + 1) * d == index * d + d)
        by (nonlinear_arith)
        requires
            0 <= index,
            index + 1 <= w * h,
            d >= 0,
    ;
}

/// Decodes a TGA, expanding to `Rgba8`.
///
/// Run-length encoding and colour maps are rejected rather than guessed at.
pub fn decode(bytes: &[u8]) -> (r: Result<Texture, TextureError>)
    requires
        tga_addressable(bytes@),
    ensures
        tga_decodes_to(bytes@, modelled(r)),
        r matches Ok(texture) ==> texture@.wf(),
{
    if bytes.len() < HEADER {
        return Err(TextureError::Truncated { wanted: HEADER, available: bytes.len() });
    }
    let image_type: u8 = bytes[2];
    let bits: u8 = bytes[16];
    if image_type != 2 || bytes[1] != 0 || (bits != 24 && bits != 32) {
        return Err(TextureError::UnsupportedTga { image_type, bits });
    }
    let width: u16 = read_le16(bytes, 12);
    let height: u16 = read_le16(bytes, 14);
    if width == 0 || height == 0 {
        return Err(TextureError::EmptyImage { width: width as u32, height: height as u32 });
    }
    let wanted: u64 = end_of_pixels(bytes[0], width, height, bits);
    assert(wanted == tga_end(bytes@));
    if (bytes.len() as u64) < wanted {
        return Err(TextureError::Truncated { wanted: wanted as usize, available: bytes.len() });
    }
    let data: Vec<u8> = pixels(bytes);
    let size: u32 = (data.len() as u64 % 0x1_0000_0000) as u32;
    assert(data@.len() == tga_width(bytes@) * tga_height(bytes@) * 4);
    let levels: Vec<MipLevel> = vec![
        MipLevel { offset: 0, size, width: width as u32, height: height as u32 },
    ];
    assert(levels@ =~= seq![
        MipLevel { offset: 0, size, width: width as u32, height: height as u32 },
    ]);
    Texture::new(TextureFormat::Rgba8, data, levels)
}

/// Where the pixels of an image end in its file.
fn end_of_pixels(id_length: u8, width: u16, height: u16, bits: u8) -> (r: u64)
    requires
        bits == 24 || bits == 32,
    ensures
        r == HEADER + id_length + width * height * (bits / 8),
{
    let (w, h, d): (u64, u64, u64) = (width as u64, height as u64, (bits / 8) as u64);
    assert(w * h <= 0xFFFF * 0xFFFF && 0 <= w * h * d <= 0xFFFF * 0xFFFF * 4) by (nonlinear_arith)
        requires
            w <= 0xFFFF,
            h <= 0xFFFF,
            d <= 4,
    ;
    HEADER as u64 + id_length as u64 + w * h * d
}

/// The decoded pixels of an image whose file holds all of them.
fn pixels(bytes: &[u8]) -> (data: Vec<u8>)
    requires
        tga_readable(bytes@),
        tga_addressable(bytes@),
        tga_end(bytes@) <= bytes@.len(),
    ensures
        data@ == tga_pixels(bytes@),
{
    let width: usize = read_le16(bytes, 12) as usize;
    let height: usize = read_le16(bytes, 14) as usize;
    let depth: usize = (bytes[16] / 8) as usize;
    let start: usize = HEADER + bytes[0] as usize;
    let top_first: bool = (bytes[17] / 32) % 2 == 1;
    proof {
        assert(0 <= width * height && width * height * 4 == (width * height) * 4)
            by (nonlinear_arith);
    }
    let texels: usize = width * height;
    let mut data: Vec<u8> = Vec::with_capacity(texels * 4);
    let mut t: usize = 0;
    while t < texels
        invariant
            tga_readable(bytes@),
            tga_end(bytes@) <= bytes@.len(),
            width == tga_width(bytes@),
            height == tga_height(bytes@),
            depth == tga_depth(bytes@),
            start == tga_start(bytes@),
            top_first == tga_top_first(bytes@),
            texels == width * height,
            texels * 4 <= usize::MAX,
            t <= texels,
            data@.len() == 4 * t,
            forall|i: int| 0 <= i < data@.len() ==> data@[i] == tga_pixels(bytes@)[i],
        decreases texels - t,
    {
        let x: usize = t % width;
        let y: usize = t / width;
        proof {
            assert(y < height) by (nonlinear_arith)
                requires
                    y == t / width,
                    t < width * height,
                    width > 0,
            ;
            lemma_texel_in_file(bytes@, x as int, y as int);
        }
        let row: usize = if top_first { y } else { height - 1 - y };
        assert(bytes@.len() == bytes.len());
        assert(row == tga_source_row(bytes@, y as int));
        proof {
            assert(0 <= row * width <= row * width + x) by (nonlinear_arith)
                requires
                    row >= 0,
                    width >= 0,
                    x >= 0,
            ;
        }
        let at: usize = start + (row * width + x) * depth;
        assert(at == tga_texel_at(bytes@, x as int, y as int));
        let ghost before = data@;
        data.push(bytes[at + 2]);
        data.push(bytes[at + 1]);
        data.push(bytes[at]);
        data.push(
            if depth == 4 {
                bytes[at + 3]
            } else {
                0xFF
            },
        );
        proof {
            assert forall|i: int| 0 <= i < data@.len() implies data@[i] == tga_pixels(
                bytes@,
            )[i] by {
                if i < before.len() {
                    assert(data@[i] == before[i]);
                } else {
                    assert(i / 4 == t);
                    let c = i - 4 * t;
                    assert(i % 4 == c);
                    assert(data@[i] == tga_channel(bytes@, x as int, y as int, c));
                }
            }
        }
        t = t + 1;
    }
    assert(data@ =~= tga_pixels(bytes@));
    data
}

/// Whether the pixels a TGA header describes can be addressed on this machine.
pub fn addressable(bytes: &[u8]) -> (r: bool)
    ensures
        r == tga_addressable(bytes@),
{
    if bytes.len() < HEADER {
        return true;
    }
    let bits: u8 = bytes[16];
    if bytes[2] != 2 || bytes[1] != 0 || (bits != 24 && bits != 32) {
        return true;
    }
    let width: u16 = read_le16(bytes, 12);
    let height: u16 = read_le16(bytes, 14);
    if width == 0 || height == 0 {
        return true;
    }
    let end: u64 = end_of_pixels(bytes[0], width, height, bits);
    assert(end == tga_end(bytes@));
    let (w, h): (u64, u64) = (width as u64, height as u64);
    assert(w * h * 4 <= 0xFFFF * 0xFFFF * 4 && 0 <= w * h <= 0xFFFF * 0xFFFF) by (nonlinear_arith)
        requires
            w <= 0xFFFF,
            h <= 0xFFFF,
    ;
    end <= usize::MAX as u64 && w * h * 4 <= usize::MAX as u64
}

} // verus!
