//! What the colours of a texture are, said of the bytes they are stored in.

use super::format::{level_bytes, units, MipLevel, TextureFormat};
use super::mips::box_filtered;
use super::rgba8::{
    at_least_one, block_channel, choice, expanded, four_colours, palette_channel, plain_channel,
    spread, stored_alpha, texel_channel, unit_of,
};
use super::shading_map::{along, cell_of, is_near, is_sample, SampledColour, ShadingSample};
use super::texture::TextureModel;
use super::{dds, tga};
use vstd::prelude::*;

verus! {

/// **Five, six and five bits are red, green and blue**: each channel of an endpoint is the byte
/// nearest to what its own bits are of full scale, and the other two have no say in it.
pub proof fn law_an_endpoint_is_red_green_and_blue(red: int, green: int, blue: int)
    requires
        0 <= red < 32,
        0 <= green < 64,
        0 <= blue < 32,
    ensures
        ({
            let packed = red * 2048 + green * 32 + blue;
            &&& -31 <= 2 * (31 * spread(packed, 0) - 255 * red) <= 31
            &&& -63 <= 2 * (63 * spread(packed, 1) - 255 * green) <= 63
            &&& -31 <= 2 * (31 * spread(packed, 2) - 255 * blue) <= 31
        }),
{
    let packed = red * 2048 + green * 32 + blue;
    assert(packed / 2048 == red);
    assert((packed / 32) % 64 == green);
    assert(packed % 32 == blue);
}

/// **A colour block's first four bytes are its two endpoints, and the other two colours lie between
/// them**: at one and two thirds of the way where there are four colours, and otherwise in the middle,
/// with black after it. There are four where the first endpoint is the larger, or where the block
/// carries no alpha.
pub proof fn law_a_palette_lies_between_its_endpoints(
    block: Seq<u8>,
    always_opaque: bool,
    channel: int,
)
    requires
        block.len() >= 4,
        0 <= channel < 3,
    ensures
        ({
            let (first, second) = (block[0] + 256 * block[1], block[2] + 256 * block[3]);
            let a = palette_channel(block, always_opaque, 0, channel);
            let b = palette_channel(block, always_opaque, 1, channel);
            let c = palette_channel(block, always_opaque, 2, channel);
            let d = palette_channel(block, always_opaque, 3, channel);
            &&& a == spread(first, channel)
            &&& b == spread(second, channel)
            &&& four_colours(block, always_opaque) == (always_opaque || first > second)
            &&& if always_opaque || first > second {
                &&& 3 * c <= 2 * a + b < 3 * c + 3
                &&& 3 * d <= a + 2 * b < 3 * d + 3
            } else {
                &&& 2 * c <= a + b < 2 * c + 2
                &&& d == 0
            }
        }),
{
}

/// **Each texel of a block chooses by two bits of its own row, the leftmost by the lowest**: the four
/// choices of a row spell its byte.
pub proof fn law_choices_spell_their_row(block: Seq<u8>, row: int)
    requires
        block.len() >= 8,
        0 <= row < 4,
    ensures
        forall|x: int| 0 <= x < 4 ==> 0 <= #[trigger] choice(block, row * 4 + x) < 4,
        choice(block, row * 4) + 4 * choice(block, row * 4 + 1) + 16 * choice(block, row * 4 + 2)
            + 64 * choice(block, row * 4 + 3) == block[4 + row],
{
    let b = block[4 + row] as int;
    assert((row * 4) / 4 == row && (row * 4) % 4 == 0);
    assert((row * 4 + 1) / 4 == row && (row * 4 + 1) % 4 == 1);
    assert((row * 4 + 2) / 4 == row && (row * 4 + 2) % 4 == 2);
    assert((row * 4 + 3) / 4 == row && (row * 4 + 3) % 4 == 3);
    assert(choice(block, row * 4) == b % 4);
    assert(choice(block, row * 4 + 1) == (b / 4) % 4);
    assert(choice(block, row * 4 + 2) == (b / 16) % 4);
    assert(choice(block, row * 4 + 3) == (b / 64) % 4);
    assert forall|x: int| 0 <= x < 4 implies 0 <= #[trigger] choice(block, row * 4 + x) < 4 by {
        assert(x == 0 || x == 1 || x == 2 || x == 3);
    }
}

/// **Two texels share a byte of alpha, the left one its low half**: each half is spread over a whole
/// byte, so that all bits set is full alpha.
pub proof fn law_alphas_spell_their_byte(block: Seq<u8>, i: int)
    requires
        block.len() >= 8,
        0 <= i < 8,
    ensures
        stored_alpha(block, 2 * i) % 17 == 0,
        stored_alpha(block, 2 * i + 1) % 17 == 0,
        stored_alpha(block, 2 * i) + 16 * stored_alpha(block, 2 * i + 1) == 17 * block[i],
{
    assert((2 * i) / 2 == i && (2 * i) % 2 == 0);
    assert((2 * i + 1) / 2 == i && (2 * i + 1) % 2 == 1);
    let b = block[i] as int;
    assert(b == 16 * (b / 16) + b % 16);
}

/// **A block of colour is the colours its texels choose**, and a texel that chooses the fourth where
/// that is no colour is not there at all.
pub proof fn law_a_colour_block_is_what_its_texels_choose(block: Seq<u8>, texel: int, c: int)
    requires
        block.len() == 8,
        0 <= texel < 16,
        0 <= c < 3,
    ensures
        block_channel(TextureFormat::Bc1, block, texel, c) == palette_channel(
            block,
            false,
            choice(block, texel),
            c,
        ),
        block_channel(TextureFormat::Bc1, block, texel, 3) == (if choice(block, texel) == 3
            && block[0] + 256 * block[1] <= block[2] + 256 * block[3] {
            0u8
        } else {
            255u8
        }),
{
    assert(block.subrange(0, 8) =~= block);
}

/// **A block with alpha of its own holds that first and its colours after**: the first half alone is
/// its alpha and the second alone its colours, which are always four.
pub proof fn law_alpha_comes_before_colour(alpha: Seq<u8>, colour: Seq<u8>, texel: int, c: int)
    requires
        alpha.len() == 8,
        colour.len() == 8,
        0 <= texel < 16,
        0 <= c < 3,
    ensures
        block_channel(TextureFormat::Bc2, alpha + colour, texel, c) == palette_channel(
            colour,
            true,
            choice(colour, texel),
            c,
        ),
        block_channel(TextureFormat::Bc2, alpha + colour, texel, 3) == stored_alpha(alpha, texel),
{
    assert((alpha + colour).subrange(8, 16) =~= colour);
}

/// **A texel is in the block it lies in**: blocks are four texels on a side, row by row from the top
/// left, and so are the texels within one.
pub proof fn law_a_texel_is_in_its_block(
    format: TextureFormat,
    level: Seq<u8>,
    width: nat,
    x: int,
    y: int,
    c: int,
)
    requires
        format == TextureFormat::Bc1 || format == TextureFormat::Bc2,
        0 <= x < width,
        0 <= y,
        0 <= c < 4,
    ensures
        ({
            let size = if format == TextureFormat::Bc1 {
                8int
            } else {
                16int
            };
            let at = size * ((y / 4) * ((width + 3) / 4) + x / 4);
            texel_channel(format, level, width, x, y, c) == if at + size <= level.len() {
                block_channel(format, level.subrange(at, at + size), 4 * (y % 4) + x % 4, c)
            } else {
                0
            }
        }),
{
    let size = if format == TextureFormat::Bc1 {
        8int
    } else {
        16int
    };
    let index = (y / 4) * ((width + 3) / 4) + x / 4;
    assert(units(width, 4) == (width + 3) / 4);
    assert(size * index == index * size && (index + 1) * size == index * size + size)
        by (nonlinear_arith);
}

/// **A plain texel is its four bytes**, red first, or blue first where the format says so.
pub proof fn law_a_plain_texel_is_its_bytes(level: Seq<u8>, width: nat, x: int, y: int)
    requires
        0 <= x < width,
        0 <= y,
        4 * (y * width + x) + 4 <= level.len(),
    ensures
        ({
            let at = 4 * (y * width + x);
            let (rgba, bgra) = (TextureFormat::Rgba8, TextureFormat::Bgra8);
            &&& texel_channel(rgba, level, width, x, y, 0) == level[at]
            &&& texel_channel(rgba, level, width, x, y, 1) == level[at + 1]
            &&& texel_channel(rgba, level, width, x, y, 2) == level[at + 2]
            &&& texel_channel(rgba, level, width, x, y, 3) == level[at + 3]
            &&& texel_channel(bgra, level, width, x, y, 0) == level[at + 2]
            &&& texel_channel(bgra, level, width, x, y, 1) == level[at + 1]
            &&& texel_channel(bgra, level, width, x, y, 2) == level[at]
            &&& texel_channel(bgra, level, width, x, y, 3) == level[at + 3]
        }),
{
    let index = y * width + x;
    assert(units(width, 1) == width);
    assert(y / 1 == y && x / 1 == x);
    assert((y / 1) * units(width, 1) + x / 1 == index);
    assert(index >= 0) by (nonlinear_arith)
        requires
            index == y * width + x,
            x >= 0,
            y >= 0,
    ;
    let unit = unit_of(level, 4, index);
    assert(unit[0] == level[4 * index] && unit[1] == level[4 * index + 1] && unit[2] == level[4
        * index + 2] && unit[3] == level[4 * index + 3]);
}

/// **An expanded texture is its texels row by row from the top left**, four bytes each; a side
/// without texels counts as one.
pub proof fn law_texels_come_row_by_row(texture: TextureModel, x: int, y: int, c: int)
    requires
        0 <= x < texture.levels[0].width || (x == 0 && texture.levels[0].width == 0),
        0 <= y < texture.levels[0].height || (y == 0 && texture.levels[0].height == 0),
        0 <= c < 4,
    ensures
        ({
            let (across, down) = (texture.levels[0].width, texture.levels[0].height);
            let width = if across == 0 { 1 } else { across as nat };
            let height = if down == 0 { 1 } else { down as nat };
            let at = (y * width + x) * 4 + c;
            &&& expanded(texture).len() == width * height * 4
            &&& 0 <= at < expanded(texture).len()
            &&& expanded(texture)[at] == texel_channel(
                texture.format,
                texture.level(0),
                width,
                x,
                y,
                c,
            )
        }),
{
    let (w, h) = (at_least_one(texture.width()) as int, at_least_one(texture.height()) as int);
    let t = y * w + x;
    assert(0 <= t && t < w * h) by (nonlinear_arith)
        requires
            t == y * w + x,
            0 <= x < w,
            0 <= y < h,
    ;
    assert((t * 4 + c) / 4 == t && (t * 4 + c) % 4 == c);
    vstd::arithmetic::div_mod::lemma_fundamental_div_mod_converse(t, w, y, x);
}

/// **A level is whole blocks**: a block format rounds each side up to a multiple of four, at eight
/// bytes a block or sixteen, and a plain one takes four bytes a texel.
pub proof fn law_a_level_is_whole_blocks(width: nat, height: nat, across: nat, down: nat)
    requires
        4 * across < width + 4 <= 4 * across + 4,
        4 * down < height + 4 <= 4 * down + 4,
    ensures
        level_bytes(TextureFormat::Bc1, width, height) == across * down * 8,
        level_bytes(TextureFormat::Bc2, width, height) == across * down * 16,
        level_bytes(TextureFormat::Rgba8, width, height) == width * height * 4,
        level_bytes(TextureFormat::Bgra8, width, height) == width * height * 4,
{
    assert(units(width, 4) == across && units(height, 4) == down);
    assert(units(width, 1) == width && units(height, 1) == height);
}

/// **A mip texel is nearest to the mean of the four it covers**, channel by channel, where the level
/// above is at least two texels across either way.
pub proof fn law_a_mip_texel_is_nearest_to_the_mean(
    data: Seq<u8>,
    levels: Seq<MipLevel>,
    k: int,
    x: int,
    y: int,
    c: int,
)
    requires
        box_filtered(data, levels),
        1 <= k < levels.len(),
        levels[k].size == levels[k].width * levels[k].height * 4,
        0 <= x < levels[k].width,
        0 <= y < levels[k].height,
        0 <= c < 4,
        2 * x + 1 < levels[k - 1].width,
        2 * y + 1 < levels[k - 1].height,
    ensures
        ({
            let (above, level) = (levels[k - 1], levels[k]);
            let w = above.width as int;
            let from = above.offset + c;
            let sum = data[from + (2 * y * w + 2 * x) * 4] + data[from + (2 * y * w + 2 * x + 1) * 4]
                + data[from + ((2 * y + 1) * w + 2 * x) * 4] + data[from + ((2 * y + 1) * w + 2 * x
                + 1) * 4];
            -2 <= 4 * data[level.offset + (y * level.width + x) * 4 + c] - sum <= 2
        }),
{
    super::mips::law_mip_texel_is_the_mean_of_four(data, levels, k, x, y, c);
    let above = levels[k - 1];
    let w = above.width as int;
    assert((2 * y) * w == 2 * y * w);
    let (a, b, d, e) = (
        super::mips::stored(data, above, 2 * x, 2 * y, c),
        super::mips::stored(data, above, 2 * x + 1, 2 * y, c),
        super::mips::stored(data, above, 2 * x, 2 * y + 1, c),
        super::mips::stored(data, above, 2 * x + 1, 2 * y + 1, c),
    );
    assert(super::mips::mean_of_four(data, above, x, y, c) == (a + b + d + e + 2) / 4);
}

/// **A decoded DDS is as wide, as high and in the format its header says, and its bytes are those
/// that follow the header.**
pub proof fn law_a_dds_says_what_it_holds(b: Seq<u8>, texture: TextureModel)
    requires
        dds::dds_decodes_to(b, Ok(texture)),
        dds::dds_describable(b),
    ensures
        texture.levels[0].height == b[12] + 0x100 * b[13] + 0x1_0000 * b[14] + 0x100_0000 * b[15],
        texture.levels[0].width == b[16] + 0x100 * b[17] + 0x1_0000 * b[18] + 0x100_0000 * b[19],
        texture.levels.len() <= if b[28] + 0x100 * b[29] + 0x1_0000 * b[30] + 0x100_0000 * b[31]
            == 0 {
            1
        } else {
            b[28] + 0x100 * b[29] + 0x1_0000 * b[30] + 0x100_0000 * b[31]
        },
        (b[80] / 4) % 2 == 1 && b.subrange(84, 88) == seq![0x44u8, 0x58, 0x54, 0x31] ==> texture.format
            == TextureFormat::Bc1,
        (b[80] / 4) % 2 == 1 && b.subrange(84, 88) == seq![0x44u8, 0x58, 0x54, 0x33] ==> texture.format
            == TextureFormat::Bc2,
        (b[80] / 4) % 2 == 0 ==> texture.format == TextureFormat::Bgra8,
        forall|i: int| 0 <= i < texture.data.len() ==> #[trigger] texture.data[i] == b[128 + i],
{
    super::laws::law_decoded_levels_cover_the_data(b, texture);
    let four = b.subrange(84, 88);
    assert(four[0] == b[84] && four[1] == b[85] && four[2] == b[86] && four[3] == b[87]);
    assert(texture.levels[0].width == super::format::halved(dds::dds_width(b) as nat, 0));
    assert(texture.levels[0].height == super::format::halved(dds::dds_height(b) as nat, 0));
    let flags = b[80] + 0x100 * b[81] + 0x1_0000 * b[82] + 0x100_0000 * b[83];
    assert((flags / 4) % 2 == (b[80] / 4) % 2);
}

/// **A decoded TGA is its texels from the top left, out of blue, green and red**: the rows are stored
/// bottom first unless the header says otherwise, and an image without alpha is all there.
pub proof fn law_a_tga_texel_is_blue_green_and_red(
    b: Seq<u8>,
    texture: TextureModel,
    x: int,
    y: int,
)
    requires
        tga::tga_decodes_to(b, Ok(texture)),
        0 <= x < b[12] + 256 * b[13],
        0 <= y < b[14] + 256 * b[15],
    ensures
        ({
            let (width, height) = (b[12] + 256 * b[13], b[14] + 256 * b[15]);
            let depth = b[16] as int / 8;
            let row = if (b[17] / 32) % 2 == 1 {
                y
            } else {
                height - 1 - y
            };
            let from = 18 + b[0] + depth * (row * width + x);
            let to = 4 * (y * width + x);
            &&& texture.format == TextureFormat::Rgba8
            &&& texture.levels.len() == 1
            &&& texture.levels[0].width == width
            &&& texture.levels[0].height == height
            &&& texture.data.len() == 4 * width * height
            &&& texture.data[to] == b[from + 2]
            &&& texture.data[to + 1] == b[from + 1]
            &&& texture.data[to + 2] == b[from]
            &&& texture.data[to + 3] == (if depth == 4 {
                b[from + 3]
            } else {
                255u8
            })
        }),
{
    let (width, height) = (b[12] + 256 * b[13], b[14] + 256 * b[15]);
    let t = y * width + x;
    assert(0 <= t && t < width * height) by (nonlinear_arith)
        requires
            t == y * width + x,
            0 <= x < width,
            0 <= y < height,
    ;
    vstd::arithmetic::div_mod::lemma_fundamental_div_mod_converse(t, width, y, x);
    let row = tga::tga_source_row(b, y);
    let depth = b[16] as int / 8;
    assert(depth * (row * width + x) == (row * width + x) * depth) by (nonlinear_arith);
    let to = 4 * t;
    assert(to / 4 == t && to % 4 == 0);
    assert((to + 1) / 4 == t && (to + 1) % 4 == 1);
    assert((to + 2) / 4 == t && (to + 2) % 4 == 2);
    assert((to + 3) / 4 == t && (to + 3) % 4 == 3);
    assert(4 * width * height == width * height * 4) by (nonlinear_arith);
}

/// **A cell of the shading grid is as far across an image as the texels that land in it.**
pub proof fn law_a_shading_cell_is_where_its_texels_are(x: int, y: int, width: int, height: int)
    requires
        0 <= x < width,
        0 <= y < height,
    ensures
        ({
            let cell = cell_of(x, y, width, height);
            let (column, row) = (cell % 32, cell / 32);
            &&& 0 <= cell < 1024
            &&& column * width <= 32 * x < (column + 1) * width
            &&& row * height <= 32 * y < (row + 1) * height
        }),
{
    lemma_along(x, width);
    lemma_along(y, height);
    let (column, row) = (along(x, width), along(y, height));
    assert((row * 32 + column) % 32 == column && (row * 32 + column) / 32 == row);
}

/// An index along the grid is the part of the extent a coordinate has gone.
proof fn lemma_along(at: int, extent: int)
    requires
        0 <= at < extent,
    ensures
        0 <= along(at, extent) < 32,
        along(at, extent) * extent <= 32 * at < (along(at, extent) + 1) * extent,
{
    let part = at * 32 / extent;
    assert(0 <= part < 32 && part * extent <= 32 * at && 32 * at < (part + 1) * extent)
        by (nonlinear_arith)
        requires
            part == at * 32 / extent,
            0 <= at < extent,
    ;
}

/// **A plain texel is sampled as the colour it is, in the cell it lies in.**
pub proof fn law_a_sample_is_its_texel(texture: TextureModel, index: int, sample: ShadingSample)
    requires
        is_sample(texture, index, sample),
        texture.format == TextureFormat::Rgba8 || texture.format == TextureFormat::Bgra8,
        texture.width() >= 1,
        texture.height() >= 1,
        0 <= index,
        4 * index + 4 <= texture.level(0).len(),
    ensures
        ({
            let (width, at) = (texture.width() as int, 4 * index);
            let level = texture.level(0);
            let blue_first = texture.format == TextureFormat::Bgra8;
            &&& sample.cell == cell_of(
                index % width,
                index / width,
                width,
                texture.height() as int,
            )
            &&& sample.colour matches SampledColour::Texel(rgb)
            &&& rgb@[0] == level[if blue_first {
                at + 2
            } else {
                at
            }]
            &&& rgb@[1] == level[at + 1]
            &&& rgb@[2] == level[if blue_first {
                at
            } else {
                at + 2
            }]
        }),
{
    let unit = unit_of(texture.level(0), 4, index);
    let level = texture.level(0);
    assert(unit[0] == level[4 * index] && unit[1] == level[4 * index + 1] && unit[2] == level[4
        * index + 2]);
    match sample.colour {
        SampledColour::Texel(rgb) => {
            assert(rgb@[0] == plain_channel(texture.format, unit, 0));
            assert(rgb@[1] == plain_channel(texture.format, unit, 1));
            assert(rgb@[2] == plain_channel(texture.format, unit, 2));
        },
        _ => {},
    }
}

/// **A cell is averaged with the eight round it**: those no more than one row and one column away, of
/// thirty-two cells a row.
pub proof fn law_near_cells_border_on_each_other(x: int, y: int, across: int, down: int)
    requires
        0 <= x < 32,
        0 <= across < 32,
        0 <= y < 32,
        0 <= down < 32,
    ensures
        is_near(y * 32 + x, down * 32 + across) <==> -1 <= x - across <= 1 && -1 <= y - down <= 1,
{
    assert((y * 32 + x) / 32 == y && (y * 32 + x) % 32 == x);
    assert((down * 32 + across) / 32 == down && (down * 32 + across) % 32 == across);
}

} // verus!
