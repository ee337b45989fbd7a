//! What holds of every file that is decoded or refused: which are read, why the others are not, and
//! how much of a file is kept.

use super::dds;
use super::error::TextureError;
use super::format::{
    chain_bytes, chain_level_bytes, halved, is_chain, law_full_chain_ends_in_one_texel,
    law_halving_is_a_power_of_two, lemma_plain_bytes, level_bytes, MipLevel, TextureFormat,
};
use super::rgba8::{choice, spread, unit_of};
use super::shading_map::{
    cell_of, grey_pixels, is_sample, sample_count, SampledColour, ShadingSample,
};
use super::texture::{decodes_to, is_full, is_mipped, lacks_mips, takes_mips, TextureModel};
use super::tga;
use vstd::arithmetic::power2::{
    lemma2_to64, lemma_pow2_pos, lemma_pow2_strictly_increases, lemma_pow2_unfold, pow2,
};
use vstd::prelude::*;

verus! {

/// Four bytes of a file as a number, the lowest first.
pub open spec fn four_at(b: Seq<u8>, i: int) -> int {
    b[i] + 0x100 * b[i + 1] + 0x1_0000 * b[i + 2] + 0x100_0000 * b[i + 3]
}

/// Two bytes of a file as a number, the lowest first.
pub open spec fn two_at(b: Seq<u8>, i: int) -> int {
    b[i] + 0x100 * b[i + 1]
}

/// **A DDS that is refused says why**: how much of it is missing, that it has no texels, or what it
/// is stored as.
pub proof fn law_a_refused_dds_says_why(b: Seq<u8>, error: TextureError)
    requires
        dds::dds_decodes_to(b, Err(error)),
        dds::dds_describable(b),
        b.len() <= usize::MAX,
    ensures
        match error {
            TextureError::Truncated { wanted, available } => {
                &&& wanted > available
                &&& b.len() < 128 ==> wanted == 128 && available == b.len()
                &&& b.len() >= 128 ==> available == b.len() - 128
            },
            TextureError::EmptyImage { width, height } => {
                &&& width == four_at(b, 16)
                &&& height == four_at(b, 12)
                &&& width == 0 || height == 0
            },
            TextureError::UnsupportedFourCc(code) => {
                &&& (b[80] / 4) % 2 == 1
                &&& forall|i: int| 0 <= i < 4 ==> #[trigger] code@[i] == b[84 + i]
                &&& code@ != seq![0x44u8, 0x58, 0x54, 0x31]
                &&& code@ != seq![0x44u8, 0x58, 0x54, 0x33]
            },
            TextureError::UnsupportedPixelFormat { bit_count, masks } => {
                &&& (b[80] / 4) % 2 == 0
                &&& bit_count == four_at(b, 88)
                &&& masks@[0] == four_at(b, 92)
                &&& masks@[1] == four_at(b, 96)
                &&& masks@[2] == four_at(b, 100)
                &&& masks@[3] == four_at(b, 104)
            },
            TextureError::UnsupportedTga { .. } => false,
        },
{
    if b.len() >= 128 {
        let flags = four_at(b, 80);
        assert((flags / 4) % 2 == (b[80] / 4) % 2);
        let code = b.subrange(84, 88);
        assert(code[0] == b[84] && code[1] == b[85] && code[2] == b[86] && code[3] == b[87]);
        if dds::dds_readable(b) {
            let (w, h) = (dds::dds_width(b) as nat, dds::dds_height(b) as nat);
            lemma_first_level_fits(dds::dds_format(b)->0, w, h, dds::dds_mips(b));
        }
    }
}

/// The first level of a chain is no larger than the chain.
proof fn lemma_first_level_fits(format: TextureFormat, width: nat, height: nat, count: nat)
    requires
        count >= 1,
    ensures
        level_bytes(format, width, height) <= chain_bytes(format, width, height, count),
    decreases count,
{
    if count > 1 {
        lemma_first_level_fits(format, width, height, (count - 1) as nat);
    } else {
        reveal_with_fuel(chain_bytes, 2);
        assert(halved(width, 0) == width && halved(height, 0) == height);
    }
}

/// **A whole DDS in a format that is read is not refused.**
pub proof fn law_a_whole_dds_is_read(b: Seq<u8>, r: Result<TextureModel, TextureError>)
    requires
        dds::dds_decodes_to(b, r),
        b.len() >= 128,
        four_at(b, 12) != 0,
        four_at(b, 16) != 0,
        ({
            let units = |n: int| (n + 3) / 4;
            let blocks = units(four_at(b, 16)) * units(four_at(b, 12));
            let scheme = b.subrange(84, 88);
            ||| (b[80] / 4) % 2 == 1 && scheme == seq![0x44u8, 0x58, 0x54, 0x31] && 128 + blocks * 8
                <= b.len()
            ||| (b[80] / 4) % 2 == 1 && scheme == seq![0x44u8, 0x58, 0x54, 0x33] && 128 + blocks
                * 16 <= b.len()
            ||| (b[80] / 4) % 2 == 0 && four_at(b, 88) == 32 && four_at(b, 92) == 0x00FF_0000
                && four_at(b, 96) == 0x0000_FF00 && four_at(b, 100) == 0x0000_00FF && four_at(b, 104)
                == 0xFF00_0000 && 128 + four_at(b, 16) * four_at(b, 12) * 4 <= b.len()
        }),
    ensures
        r is Ok,
{
    let flags = four_at(b, 80);
    assert((flags / 4) % 2 == (b[80] / 4) % 2);
    let code = b.subrange(84, 88);
    assert(code[0] == b[84] && code[1] == b[85] && code[2] == b[86] && code[3] == b[87]);
    assert(dds::dds_width(b) == four_at(b, 16) && dds::dds_height(b) == four_at(b, 12));
    let (w, h) = (dds::dds_width(b) as nat, dds::dds_height(b) as nat);
    assert(w + 1 - 1 == w && w / 1 == w && h / 1 == h);
    assert(level_bytes(TextureFormat::Bgra8, w, h) == w * h * 4);
}

/// **A DDS keeps every level of its chain that is there in full**: the last it keeps is there, and
/// where it declares another, the rest of the file is too short for it.
pub proof fn law_a_dds_keeps_what_is_there(b: Seq<u8>, texture: TextureModel)
    requires
        dds::dds_decodes_to(b, Ok(texture)),
        dds::dds_describable(b),
    ensures
        ({
            let last = texture.levels.last();
            let end = last.offset + last.size;
            let declared = if four_at(b, 28) == 0 {
                1
            } else {
                four_at(b, 28)
            };
            let half = |n: u32| if n < 2 {
                1nat
            } else {
                n as nat / 2
            };
            &&& 128 + end <= b.len()
            &&& texture.levels.len() < declared ==> 128 + end + level_bytes(
                texture.format,
                half(last.width),
                half(last.height),
            ) > b.len()
        }),
{
    let n = texture.levels.len();
    let (w, h) = (dds::dds_width(b) as nat, dds::dds_height(b) as nat);
    let last = texture.levels[n - 1];
    reveal_with_fuel(chain_bytes, 2);
    assert(last.offset + last.size == chain_bytes(texture.format, w, h, n));
    assert(chain_bytes(texture.format, w, h, n + 1) == chain_bytes(texture.format, w, h, n)
        + chain_level_bytes(texture.format, w, h, n));
    if n == 1 {
        assert(halved(w, 0) == w && halved(h, 0) == h);
        assert(chain_bytes(texture.format, w, h, 1) == level_bytes(texture.format, w, h));
    }
}

/// **A TGA that is refused says why**: what it is stored as, that it has no texels, or how much of it
/// is missing.
pub proof fn law_a_refused_tga_says_why(b: Seq<u8>, error: TextureError)
    requires
        tga::tga_decodes_to(b, Err(error)),
        tga::tga_addressable(b),
        b.len() <= usize::MAX,
    ensures
        match error {
            TextureError::Truncated { wanted, available } => {
                &&& available == b.len()
                &&& wanted > available
                &&& b.len() < 18 ==> wanted == 18
                &&& b.len() >= 18 ==> wanted == 18 + b[0] + two_at(b, 12) * two_at(b, 14) * (
                b[16] as int / 8)
            },
            TextureError::UnsupportedTga { image_type, bits } => {
                &&& image_type == b[2]
                &&& bits == b[16]
                &&& !(b[2] == 2 && b[1] == 0 && (b[16] == 24 || b[16] == 32))
            },
            TextureError::EmptyImage { width, height } => {
                &&& width == two_at(b, 12)
                &&& height == two_at(b, 14)
                &&& width == 0 || height == 0
            },
            _ => false,
        },
{
}

/// **A whole TGA of true colour is not refused.**
pub proof fn law_a_whole_tga_is_read(b: Seq<u8>, r: Result<TextureModel, TextureError>)
    requires
        tga::tga_decodes_to(b, r),
        b.len() >= 18,
        b[1] == 0,
        b[2] == 2,
        b[16] == 24 || b[16] == 32,
        two_at(b, 12) != 0,
        two_at(b, 14) != 0,
        18 + b[0] + two_at(b, 12) * two_at(b, 14) * (b[16] as int / 8) <= b.len(),
    ensures
        r matches Ok(texture) && texture.format == TextureFormat::Rgba8,
{
}

/// **What a file is goes by its first four bytes, not by its name.**
pub proof fn law_a_container_is_told_by_its_first_bytes(
    b: Seq<u8>,
    r: Result<TextureModel, TextureError>,
)
    ensures
        b.len() >= 4 && b[0] == 0x44 && b[1] == 0x44 && b[2] == 0x53 && b[3] == 0x20 ==> (decodes_to(
            b,
            r,
        ) <==> dds::dds_decodes_to(b, r)),
        b.len() < 4 || b[0] != 0x44 || b[1] != 0x44 || b[2] != 0x53 || b[3] != 0x20 ==> (decodes_to(
            b,
            r,
        ) <==> tga::tga_decodes_to(b, r)),
{
}

/// A full chain's extents: one texel at its end, and more than one before it.
proof fn lemma_full_extents(w: u32, h: u32, n: nat)
    requires
        w >= 1,
        h >= 1,
        is_full(w, h, n),
    ensures
        n >= 1,
        halved(w as nat, (n - 1) as nat) == 1,
        halved(h as nat, (n - 1) as nat) == 1,
        n >= 2 ==> halved(w as nat, (n - 2) as nat) > 1 || halved(h as nat, (n - 2) as nat) > 1,
{
    law_full_chain_ends_in_one_texel(w as nat, h as nat, n);
    if n >= 2 {
        let k = (n - 2) as nat;
        let side = if w >= h {
            w as nat
        } else {
            h as nat
        };
        law_halving_is_a_power_of_two(side, k);
        lemma_pow2_unfold((n - 1) as nat);
        lemma_pow2_pos(k);
        let p = pow2(k) as int;
        assert(side as int / p >= 2) by (nonlinear_arith)
            requires
                2 * p <= side,
                p > 0,
        ;
    }
}

/// **A chain goes down to a single texel and no further**: its last level is one by one, and the one
/// above it is not. Its first is as large as the texture.
pub proof fn law_a_chain_goes_down_to_one_texel(texture: TextureModel, mipped: TextureModel)
    requires
        texture.levels.len() == 1,
        texture.format == TextureFormat::Rgba8 || texture.format == TextureFormat::Bgra8,
        texture.levels[0].width >= 1,
        texture.levels[0].height >= 1,
        is_mipped(texture, mipped),
    ensures
        ({
            let n = mipped.levels.len();
            &&& n >= 1
            &&& mipped.format == texture.format
            &&& mipped.levels[0].width == texture.levels[0].width
            &&& mipped.levels[0].height == texture.levels[0].height
            &&& mipped.levels[n - 1].width == 1
            &&& mipped.levels[n - 1].height == 1
            &&& n >= 2 ==> mipped.levels[n - 2].width > 1 || mipped.levels[n - 2].height > 1
        }),
{
    assert(lacks_mips(texture));
    let (w, h) = (texture.levels[0].width, texture.levels[0].height);
    let n = mipped.levels.len();
    lemma_full_extents(w, h, n);
    lemma_chain_extents(mipped.format, w as nat, h as nat, mipped.levels, 0);
    lemma_chain_extents(mipped.format, w as nat, h as nat, mipped.levels, n - 1);
    if n >= 2 {
        lemma_chain_extents(mipped.format, w as nat, h as nat, mipped.levels, n - 2);
    }
}

/// A level of a chain is as large as the first one halved that often.
proof fn lemma_chain_extents(
    format: TextureFormat,
    w: nat,
    h: nat,
    levels: Seq<MipLevel>,
    i: int,
)
    requires
        is_chain(format, w, h, levels),
        0 <= i < levels.len(),
    ensures
        levels[i].width == halved(w, i as nat),
        levels[i].height == halved(h, i as nat),
        i == 0 ==> levels[i].width == w && levels[i].height == h,
{
}

/// **A chain begins with the texture's own texels.**
pub proof fn law_a_chain_begins_with_the_texture(
    texture: TextureModel,
    mipped: TextureModel,
    i: int,
)
    requires
        texture.levels.len() == 1,
        texture.format == TextureFormat::Rgba8 || texture.format == TextureFormat::Bgra8,
        is_mipped(texture, mipped),
        0 <= i < texture.levels[0].width * texture.levels[0].height * 4,
        texture.levels[0].width * texture.levels[0].height * 4 <= texture.data.len(),
    ensures
        mipped.data[i] == texture.data[i],
{
    let (w, h) = (texture.levels[0].width as nat, texture.levels[0].height as nat);
    let first = level_bytes(texture.format, w, h) as int;
    assert(w / 1 == w && h / 1 == h);
    assert(first == w * h * 4);
    lemma_first_level_fits(texture.format, w, h, mipped.levels.len());
    assert(mipped.data.subrange(0, first)[i] == mipped.data[i]);
    assert(texture.data.subrange(0, first)[i] == texture.data[i]);
}

/// **A block is sampled as its two colours and the choice each of its texels makes**, out of the last
/// eight bytes of it, in the cell its first texel lies in.
pub proof fn law_a_block_is_sampled_as_it_chooses(
    texture: TextureModel,
    index: int,
    sample: ShadingSample,
    first_byte: int,
)
    requires
        is_sample(texture, index, sample),
        texture.width() >= 1,
        texture.height() >= 1,
        0 <= index,
        texture.format == TextureFormat::Bc1 && first_byte == 8 * index || texture.format
            == TextureFormat::Bc2 && first_byte == 16 * index + 8,
        first_byte + 8 <= texture.level(0).len(),
    ensures
        ({
            let level = texture.level(0);
            let across = (texture.width() + 3) / 4;
            let (one, two) = (two_at(level, first_byte), two_at(level, first_byte + 2));
            &&& sample.cell == cell_of(
                (index % across) * 4,
                (index / across) * 4,
                texture.width() as int,
                texture.height() as int,
            )
            &&& sample.colour matches SampledColour::Block {
                first,
                second,
                four_colours,
                choices,
            }
            &&& forall|c: int| 0 <= c < 3 ==> #[trigger] first@[c] == spread(one, c)
            &&& forall|c: int| 0 <= c < 3 ==> #[trigger] second@[c] == spread(two, c)
            &&& four_colours <==> one > two
            &&& forall|row: int|
                0 <= row < 4 ==> {
                    let byte = #[trigger] level[first_byte + 4 + row] as int;
                    &&& choices@[4 * row] == byte % 4
                    &&& choices@[4 * row + 1] == (byte / 4) % 4
                    &&& choices@[4 * row + 2] == (byte / 16) % 4
                    &&& choices@[4 * row + 3] == (byte / 64) % 4
                }
        }),
{
    let level = texture.level(0);
    let size = texture.format.bytes_per_unit() as int;
    let unit = unit_of(level, size, index);
    let block = unit.subrange(size - 8, size);
    assert forall|k: int| 0 <= k < 8 implies #[trigger] block[k] == level[first_byte + k] by {
        assert(unit[size - 8 + k] == level[index * size + size - 8 + k]);
    }
    assert(block[0] == level[first_byte] && block[1] == level[first_byte + 1] && block[2]
        == level[first_byte + 2] && block[3] == level[first_byte + 3]);
    match sample.colour {
        SampledColour::Block { first, second, four_colours, choices } => {
            assert forall|row: int| 0 <= row < 4 implies ({
                let byte = #[trigger] level[first_byte + 4 + row] as int;
                &&& choices@[4 * row] == byte % 4
                &&& choices@[4 * row + 1] == (byte / 4) % 4
                &&& choices@[4 * row + 2] == (byte / 16) % 4
                &&& choices@[4 * row + 3] == (byte / 64) % 4
            }) by {
                let byte = level[first_byte + 4 + row] as int;
                assert(block[4 + row] == byte);
                assert(choices@[4 * row] == choice(block, 4 * row));
                assert(choices@[4 * row + 1] == choice(block, 4 * row + 1));
                assert(choices@[4 * row + 2] == choice(block, 4 * row + 2));
                assert(choices@[4 * row + 3] == choice(block, 4 * row + 3));
            }
        },
        _ => {},
    }
}

/// **A finished map is opaque grey**: every cell a texel of its own byte three times over.
pub proof fn law_a_finished_map_is_opaque_grey(encoded: Seq<u8>, cell: int)
    requires
        0 <= cell < encoded.len(),
    ensures
        grey_pixels(encoded).len() == 4 * encoded.len(),
        grey_pixels(encoded)[4 * cell] == encoded[cell],
        grey_pixels(encoded)[4 * cell + 1] == encoded[cell],
        grey_pixels(encoded)[4 * cell + 2] == encoded[cell],
        grey_pixels(encoded)[4 * cell + 3] == 0xFF,
{
}

/// **As many units are sampled as the top level has whole**, and of plain texels no more than the image
/// has.
pub proof fn law_every_whole_unit_is_sampled(texture: TextureModel)
    requires
        texture.width() >= 1,
        texture.height() >= 1,
    ensures
        ({
            let bytes = texture.level(0).len() as int;
            let texels = texture.width() * texture.height();
            let count = sample_count(texture);
            &&& texture.format == TextureFormat::Bc1 ==> count == bytes / 8
            &&& texture.format == TextureFormat::Bc2 ==> count == bytes / 16
            &&& texture.format == TextureFormat::Rgba8 || texture.format == TextureFormat::Bgra8 ==> {
                &&& bytes >= 4 * texels ==> count == texels
                &&& bytes < 4 * texels ==> count == bytes / 4
            }
        }),
{
}

/// **Only a DDS with texels, in a format that is known, with its first level whole, is read.**
pub proof fn law_only_a_known_dds_is_read(b: Seq<u8>, texture: TextureModel)
    requires
        dds::dds_decodes_to(b, Ok(texture)),
    ensures
        b.len() >= 128,
        four_at(b, 12) != 0,
        four_at(b, 16) != 0,
        ({
            let units = |n: int| (n + 3) / 4;
            let blocks = units(four_at(b, 16)) * units(four_at(b, 12));
            let scheme = b.subrange(84, 88);
            ||| (b[80] / 4) % 2 == 1 && scheme == seq![0x44u8, 0x58, 0x54, 0x31] && 128 + blocks * 8
                <= b.len()
            ||| (b[80] / 4) % 2 == 1 && scheme == seq![0x44u8, 0x58, 0x54, 0x33] && 128 + blocks
                * 16 <= b.len()
            ||| (b[80] / 4) % 2 == 0 && four_at(b, 88) == 32 && four_at(b, 92) == 0x00FF_0000
                && four_at(b, 96) == 0x0000_FF00 && four_at(b, 100) == 0x0000_00FF && four_at(b, 104)
                == 0xFF00_0000 && 128 + four_at(b, 16) * four_at(b, 12) * 4 <= b.len()
        }),
{
    let flags = four_at(b, 80);
    assert((flags / 4) % 2 == (b[80] / 4) % 2);
    let scheme = b.subrange(84, 88);
    if dds::is_dxt1(b) {
        assert(scheme =~= seq![0x44u8, 0x58, 0x54, 0x31]);
    }
    if dds::is_dxt3(b) {
        assert(scheme =~= seq![0x44u8, 0x58, 0x54, 0x33]);
    }
    assert(dds::dds_width(b) == four_at(b, 16) && dds::dds_height(b) == four_at(b, 12));
    let (w, h) = (dds::dds_width(b) as nat, dds::dds_height(b) as nat);
    assert(w / 1 == w && h / 1 == h);
    assert(level_bytes(TextureFormat::Bgra8, w, h) == w * h * 4);
}

/// **Only a TGA of true colour without a colour map, with texels and all of them there, is read.**
pub proof fn law_only_a_known_tga_is_read(b: Seq<u8>, texture: TextureModel)
    requires
        tga::tga_decodes_to(b, Ok(texture)),
    ensures
        b.len() >= 18,
        b[1] == 0,
        b[2] == 2,
        b[16] == 24 || b[16] == 32,
        two_at(b, 12) != 0,
        two_at(b, 14) != 0,
        18 + b[0] + two_at(b, 12) * two_at(b, 14) * (b[16] as int / 8) <= b.len(),
        texture.format == TextureFormat::Rgba8,
        texture.levels.len() == 1,
        texture.levels[0].width == two_at(b, 12),
        texture.levels[0].height == two_at(b, 14),
        texture.levels[0].offset == 0,
        two_at(b, 12) * two_at(b, 14) * 4 <= u32::MAX ==> texture.levels[0].size == two_at(b, 12)
            * two_at(b, 14) * 4,
{
    let (w, h) = (two_at(b, 12), two_at(b, 14));
    assert(0 <= w * h * 4) by (nonlinear_arith)
        requires
            w >= 0,
            h >= 0,
    ;
}

/// Halving makes nothing larger.
proof fn lemma_halved_is_no_larger(extent: nat, level: nat)
    requires
        extent >= 1,
    ensures
        1 <= halved(extent, level) <= extent,
    decreases level,
{
    if level > 0 {
        lemma_halved_is_no_larger(extent, (level - 1) as nat);
    }
}

/// No level of a chain is larger than the first.
proof fn lemma_chain_is_bounded(format: TextureFormat, width: nat, height: nat, count: nat)
    requires
        1 <= width <= 8192,
        1 <= height <= 8192,
        format is Rgba8 || format is Bgra8,
    ensures
        chain_bytes(format, width, height, count) <= count * 0x1000_0000,
    decreases count,
{
    if count > 0 {
        let level = (count - 1) as nat;
        lemma_chain_is_bounded(format, width, height, level);
        lemma_halved_is_no_larger(width, level);
        lemma_halved_is_no_larger(height, level);
        let (w, h) = (halved(width, level), halved(height, level));
        lemma_plain_bytes(format, w, h);
        assert(w * h * 4 <= 0x1000_0000) by (nonlinear_arith)
            requires
                1 <= w <= 8192,
                1 <= h <= 8192,
        ;
        assert(count * 0x1000_0000 == level * 0x1000_0000 + 0x1000_0000) by (nonlinear_arith)
            requires
                count == level + 1,
        ;
    }
}

/// **Every picture of up to 8192 texels a side takes a chain**, all of its own level being there.
pub proof fn law_a_chain_fits_under_a_picture(texture: TextureModel)
    requires
        texture.levels.len() == 1,
        texture.format is Rgba8 || texture.format is Bgra8,
        1 <= texture.levels[0].width <= 8192,
        1 <= texture.levels[0].height <= 8192,
        texture.levels[0].width * texture.levels[0].height * 4 <= texture.data.len(),
    ensures
        takes_mips(texture),
{
    let (w, h) = (texture.width() as nat, texture.height() as nat);
    lemma_plain_bytes(texture.format, w, h);
    assert forall|count: nat|
        is_full(texture.width(), texture.height(), count) implies #[trigger] chain_bytes(
        texture.format,
        w,
        h,
        count,
    ) <= u32::MAX by {
        if count >= 15 {
            lemma2_to64();
            if count > 15 {
                lemma_pow2_strictly_increases(14, (count - 1) as nat);
            }
            assert(pow2((count - 1) as nat) >= pow2(14));
            assert(pow2(14) == 16384);
        }
        lemma_chain_is_bounded(texture.format, w, h, count);
        assert(count * 0x1000_0000 <= 14 * 0x1000_0000) by (nonlinear_arith)
            requires
                count <= 14,
        ;
    }
}

} // verus!
