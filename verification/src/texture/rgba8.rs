//! Expanding a texture to plain bytes, for something that has to look at it rather than sample it.

use super::format::{units, TextureFormat};
use super::texture::{Texture, TextureModel};
use crate::bytes::{le16, read_le16};
use vstd::prelude::*;

verus! {

/// The red, green and blue of a 5-6-5 colour as eight bits each, scaled so that all-ones reaches
/// 255 rather than the 248 a bare shift would give.
pub open spec fn spread(packed: int, channel: int) -> u8 {
    if channel == 0 {
        (((packed / 2048) * 255 + 15) / 31) as u8
    } else if channel == 1 {
        ((((packed / 32) % 64) * 255 + 31) / 63) as u8
    } else {
        (((packed % 32) * 255 + 15) / 31) as u8
    }
}

/// `b`'s share of `numerator / denominator` mixed into `a`, rounded down.
pub open spec fn mixed(a: int, b: int, numerator: int, denominator: int) -> u8 {
    ((a * (denominator - numerator) + b * numerator) / denominator) as u8
}

/// Whether a colour block's fourth entry is a colour: it is transparent unless the first endpoint
/// sorts above the second or the format carries alpha of its own.
pub open spec fn four_colours(block: Seq<u8>, always_opaque: bool) -> bool {
    always_opaque || le16(block, 0) > le16(block, 2)
}

/// One channel of one of the four colours a BC1 block's texels choose between.
///
/// The endpoints' order is the mode: with four colours the last two are thirds between the
/// endpoints, and otherwise they are the midpoint and black.
pub open spec fn palette_channel(
    block: Seq<u8>,
    always_opaque: bool,
    choice: int,
    channel: int,
) -> u8 {
    let a = spread(le16(block, 0), channel);
    let b = spread(le16(block, 2), channel);
    if choice == 0 {
        a
    } else if choice == 1 {
        b
    } else if choice == 2 {
        if four_colours(block, always_opaque) {
            mixed(a as int, b as int, 1, 3)
        } else {
            mixed(a as int, b as int, 1, 2)
        }
    } else if four_colours(block, always_opaque) {
        mixed(a as int, b as int, 2, 3)
    } else {
        0
    }
}

/// Four to the power of a texel's place in its row, which is how far its two bits are shifted.
pub open spec fn place(texel: int) -> int {
    if texel % 4 == 0 {
        1
    } else if texel % 4 == 1 {
        4
    } else if texel % 4 == 2 {
        16
    } else {
        64
    }
}

/// Which of the four colours texel `texel` of a colour block chooses: two bits each, low first.
pub open spec fn choice(block: Seq<u8>, texel: int) -> int {
    (block[4 + texel / 4] as int / place(texel)) % 4
}

/// The alpha of texel `texel` of an alpha block: four bits each, low first, spread over a byte.
pub open spec fn stored_alpha(block: Seq<u8>, texel: int) -> u8 {
    let packed = block[texel / 2];
    if texel % 2 == 0 {
        ((packed % 16) * 17) as u8
    } else {
        ((packed / 16) * 17) as u8
    }
}

/// Channel `c` of texel `texel` of one compressed block.
pub open spec fn block_channel(format: TextureFormat, block: Seq<u8>, texel: int, c: int) -> u8 {
    let explicit = format == TextureFormat::Bc2;
    let colour = if explicit {
        block.subrange(8, 16)
    } else {
        block.subrange(0, 8)
    };
    let chosen = choice(colour, texel);
    if c < 3 {
        palette_channel(colour, explicit, chosen, c)
    } else if explicit {
        stored_alpha(block, texel)
    } else if four_colours(colour, false) || chosen != 3 {
        255
    } else {
        0
    }
}

/// Channel `c` of one uncompressed texel.
pub open spec fn plain_channel(format: TextureFormat, texel: Seq<u8>, c: int) -> u8 {
    if format == TextureFormat::Bgra8 && c == 0 {
        texel[2]
    } else if format == TextureFormat::Bgra8 && c == 2 {
        texel[0]
    } else {
        texel[c]
    }
}

/// The unit of `level` numbered `index`, for a format of `size` bytes a unit.
pub open spec fn unit_of(level: Seq<u8>, size: int, index: int) -> Seq<u8> {
    level.subrange(index * size, index * size + size)
}

/// Channel `c` of the texel at (`x`, `y`) of a level `width` texels wide, and zero where the level
/// holds no unit for it.
pub open spec fn texel_channel(
    format: TextureFormat,
    level: Seq<u8>,
    width: nat,
    x: int,
    y: int,
    c: int,
) -> u8 {
    let size = format.bytes_per_unit() as int;
    let extent = format.texels_per_unit() as int;
    let index = (y / extent) * units(width, extent as nat) + x / extent;
    if (index + 1) * size > level.len() {
        0
    } else if extent == 4 {
        block_channel(format, unit_of(level, size, index), (y % 4) * 4 + x % 4, c)
    } else {
        plain_channel(format, unit_of(level, size, index), c)
    }
}

/// A texture's largest extent as it is expanded: never less than one texel.
pub open spec fn at_least_one(extent: u32) -> nat {
    if extent == 0 {
        1
    } else {
        extent as nat
    }
}

/// The top level as red, green, blue and alpha bytes, whatever the texture is stored as.
pub open spec fn expanded(texture: TextureModel) -> Seq<u8> {
    let width = at_least_one(texture.width());
    let height = at_least_one(texture.height());
    Seq::new(
        width * height * 4,
        |i: int|
            texel_channel(
                texture.format,
                texture.level(0),
                width,
                (i / 4) % (width as int),
                (i / 4) / (width as int),
                i % 4,
            ),
    )
}

/// A 5-6-5 endpoint as eight bits per channel.
pub fn endpoint(packed: u16) -> (r: [u8; 3])
    ensures
        forall|c: int| 0 <= c < 3 ==> r@[c] == spread(packed as int, c),
{
    let (r, g, b): (u16, u16, u16) = (packed / 2048, (packed / 32) % 64, packed % 32);
    [((r * 255 + 15) / 31) as u8, ((g * 255 + 31) / 63) as u8, ((b * 255 + 15) / 31) as u8]
}

/// One channel of [`lerp`].
fn mix(x: u8, y: u8, numerator: u16, denominator: u16) -> (r: u8)
    requires
        0 < denominator <= 257,
        numerator <= denominator,
    ensures
        r == mixed(x as int, y as int, numerator as int, denominator as int),
{
    let rest: u16 = denominator - numerator;
    proof {
        let (a, b, n, d) = (x as int, y as int, numerator as int, denominator as int);
        assert(0 <= a * (d - n) && 0 <= b * n && a * (d - n) + b * n <= 255 * d)
            by (nonlinear_arith)
            requires
                0 <= a <= 255,
                0 <= b <= 255,
                0 <= n <= d,
        ;
        let sum = a * (d - n) + b * n;
        assert(0 <= sum / d <= 255) by (nonlinear_arith)
            requires
                0 <= sum <= 255 * d,
                d > 0,
        ;
    }
    ((x as u16 * rest + y as u16 * numerator) / denominator) as u8
}

/// `b`'s share of `numerator / denominator` mixed into `a`, channel by channel.
pub fn lerp(a: [u8; 3], b: [u8; 3], numerator: u16, denominator: u16) -> (r: [u8; 3])
    requires
        0 < denominator <= 257,
        numerator <= denominator,
    ensures
        forall|c: int|
            0 <= c < 3 ==> r@[c] == mixed(
                a@[c] as int,
                b@[c] as int,
                numerator as int,
                denominator as int,
            ),
{
    [
        mix(a[0], b[0], numerator, denominator),
        mix(a[1], b[1], numerator, denominator),
        mix(a[2], b[2], numerator, denominator),
    ]
}

/// The four colours a BC1 block's texels choose between, and whether the fourth is transparent.
///
/// **The endpoints' order is the mode bit.** With the first above the second there are four opaque
/// colours; otherwise the third is their midpoint and the fourth is transparent black, which is how
/// BC1 spells one-bit alpha.
pub fn palette(block: &[u8], always_opaque: bool) -> (r: ([[u8; 3]; 4], bool))
    requires
        block@.len() >= 4,
    ensures
        r.1 == !four_colours(block@, always_opaque),
        forall|k: int, c: int|
            0 <= k < 4 && 0 <= c < 3 ==> #[trigger] r.0@[k]@[c] == palette_channel(
                block@,
                always_opaque,
                k,
                c,
            ),
{
    let first: u16 = read_le16(block, 0);
    let second: u16 = read_le16(block, 2);
    let a: [u8; 3] = endpoint(first);
    let b: [u8; 3] = endpoint(second);
    if always_opaque || first > second {
        ([a, b, lerp(a, b, 1, 3), lerp(a, b, 2, 3)], false)
    } else {
        ([a, b, lerp(a, b, 1, 2), [0, 0, 0]], true)
    }
}

/// The colour a texel of a colour block chooses.
fn chosen(colour: &[u8], texel: usize) -> (r: usize)
    requires
        colour@.len() == 8,
        texel < 16,
    ensures
        r == choice(colour@, texel as int),
        r < 4,
{
    let row: u8 = colour[4 + texel / 4];
    let shifted: u8 = if texel % 4 == 0 {
        row
    } else if texel % 4 == 1 {
        row / 4
    } else if texel % 4 == 2 {
        row / 16
    } else {
        row / 64
    };
    (shifted % 4) as usize
}

/// One texel of a compressed block.
fn block_texel(format: TextureFormat, block: &[u8], texel: usize) -> (r: [u8; 4])
    requires
        format.texels_per_unit() == 4,
        block@.len() == format.bytes_per_unit(),
        texel < 16,
    ensures
        forall|c: int| 0 <= c < 4 ==> r@[c] == block_channel(format, block@, texel as int, c),
{
    let explicit: bool = match format {
        TextureFormat::Bc2 => true,
        _ => false,
    };
    let colour: &[u8] = if explicit {
        vstd::slice::slice_subrange(block, 8, 16)
    } else {
        vstd::slice::slice_subrange(block, 0, 8)
    };
    let (colours, transparent): ([[u8; 3]; 4], bool) = palette(colour, explicit);
    let k: usize = chosen(colour, texel);
    let rgb: [u8; 3] = colours[k];
    assert(forall|c: int|
        0 <= c < 3 ==> rgb@[c] == palette_channel(colour@, explicit, k as int, c)) by {
        assert(rgb == colours@[k as int]);
    }
    let alpha: u8 = if explicit {
        let packed: u8 = block[texel / 2];
        let nibble: u8 = if texel % 2 == 0 { packed % 16 } else { packed / 16 };
        nibble * 17
    } else if !transparent || k != 3 {
        255
    } else {
        0
    };
    [rgb[0], rgb[1], rgb[2], alpha]
}

/// One uncompressed texel, red first.
fn plain_texel(format: TextureFormat, texel: &[u8]) -> (r: [u8; 4])
    requires
        format.texels_per_unit() == 1,
        texel@.len() == 4,
    ensures
        forall|c: int| 0 <= c < 4 ==> r@[c] == plain_channel(format, texel@, c),
{
    match format {
        TextureFormat::Bgra8 => [texel[2], texel[1], texel[0], texel[3]],
        _ => [texel[0], texel[1], texel[2], texel[3]],
    }
}

/// The texel at (`x`, `y`) of a level, and zero where the level holds no unit for it.
fn texel(format: TextureFormat, level: &[u8], width: u32, x: u32, y: u32) -> (r: [u8; 4])
    requires
        x < width,
    ensures
        forall|c: int|
            0 <= c < 4 ==> r@[c] == texel_channel(
                format,
                level@,
                width as nat,
                x as int,
                y as int,
                c,
            ),
{
    let size: u64 = format.unit_size() as u64;
    let extent: u64 = format.unit_extent() as u64;
    let across: u64 = (width as u64 + extent - 1) / extent;
    let row: u64 = y as u64 / extent;
    proof {
        assert(0 <= row * across <= 0xFFFF_FFFF * 0xFFFF_FFFF) by (nonlinear_arith)
            requires
                0 <= row <= 0xFFFF_FFFF,
                0 <= across <= 0xFFFF_FFFF,
        ;
    }
    let index: u64 = row * across + x as u64 / extent;
    let held: u64 = level.len() as u64 / size;
    proof {
        assert((index + 1) * size > level@.len() <==> index >= held) by (nonlinear_arith)
            requires
                held == level@.len() as int / size as int,
                size > 0,
        ;
        assert(index < held ==> index * size + size <= level@.len()) by (nonlinear_arith)
            requires
                held == level@.len() as int / size as int,
                size > 0,
        ;
        assert(index * size >= 0) by (nonlinear_arith)
            requires
                index >= 0,
                size >= 0,
        ;
    }
    if index >= held {
        return [0, 0, 0, 0];
    }
    assert(level@.len() == level.len());
    let start: usize = (index * size) as usize;
    let end: usize = start + size as usize;
    let unit: &[u8] = vstd::slice::slice_subrange(level, start, end);
    if extent == 4 {
        block_texel(format, unit, ((y % 4) * 4 + x % 4) as usize)
    } else {
        plain_texel(format, unit)
    }
}

/// The top level as `RGBA8`, whatever the texture is stored as.
pub fn expand(texture: &Texture) -> (out: Vec<u8>)
    requires
        texture@.wf(),
        texture@.holds(0),
        at_least_one(texture@.width()) * at_least_one(texture@.height()) * 4 <= u32::MAX,
    ensures
        out@ == expanded(texture@),
{
    let width: u32 = if texture.width() == 0 { 1 } else { texture.width() };
    let height: u32 = if texture.height() == 0 { 1 } else { texture.height() };
    let level: &[u8] = texture.level_data(0);
    let format: TextureFormat = texture.format();
    assert(0 <= width * height && width * height * 4 == (width * height) * 4)
        by (nonlinear_arith);
    let texels: u32 = width * height;
    let mut out: Vec<u8> = Vec::with_capacity((texels * 4) as usize);
    let mut t: u32 = 0;
    while t < texels
        invariant
            width == at_least_one(texture@.width()),
            height == at_least_one(texture@.height()),
            width > 0,
            texels == width * height,
            format == texture@.format,
            level@ == texture@.level(0),
            t <= texels,
            texels * 4 <= u32::MAX,
            out@.len() == 4 * t,
            forall|i: int| 0 <= i < out@.len() ==> out@[i] == expanded(texture@)[i],
        decreases texels - t,
    {
        let rgba: [u8; 4] = texel(format, level, width, t % width, t / width);
        let ghost before = out@;
        out.push(rgba[0]);
        out.push(rgba[1]);
        out.push(rgba[2]);
        out.push(rgba[3]);
        proof {
            assert forall|i: int| 0 <= i < out@.len() implies out@[i] == expanded(texture@)[i] by {
                if i < before.len() {
                    assert(out@[i] == before[i]);
                } else {
                    let c = i - 4 * t;
                    assert(i / 4 == t && i % 4 == c);
                    assert(out@[i] == rgba@[c]);
                }
            }
        }
        t = t + 1;
    }
    assert(out@ =~= expanded(texture@));
    out
}

} // verus!
