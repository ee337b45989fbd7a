//! What holds of textures whatever file they came from.

use super::dds;
use super::format::{chain_bytes, halved, is_chain, lemma_chain_grows, MipLevel, TextureFormat};
use super::rgba8::{expanded, texel_channel, unit_of};
use super::texture::{is_full, is_mipped, lacks_mips, lemma_one_full_count, TextureModel};
use super::tga;
use vstd::prelude::*;

verus! {

/// **A chain packs end to end**: each level begins where the one above it ends, and the first at
/// the start of the buffer.
pub proof fn law_levels_pack_end_to_end(
    format: TextureFormat,
    width: nat,
    height: nat,
    levels: Seq<MipLevel>,
    i: int,
)
    requires
        is_chain(format, width, height, levels),
        0 <= i < levels.len(),
    ensures
        i == 0 ==> levels[i].offset == 0,
        i > 0 ==> levels[i].offset == levels[i - 1].offset + levels[i - 1].size,
{
    if i > 0 {
        assert(levels[i - 1].offset == chain_bytes(format, width, height, (i - 1) as nat));
    }
}

/// **A chain never grows on the way down**, in either direction.
pub proof fn law_levels_shrink(
    format: TextureFormat,
    width: nat,
    height: nat,
    levels: Seq<MipLevel>,
    i: int,
)
    requires
        width >= 1,
        height >= 1,
        is_chain(format, width, height, levels),
        0 < i < levels.len(),
    ensures
        levels[i].width <= levels[i - 1].width,
        levels[i].height <= levels[i - 1].height,
{
    super::format::lemma_halved_positive(width, (i - 1) as nat);
    super::format::lemma_halved_positive(height, (i - 1) as nat);
    assert(levels[i].width == halved(width, i as nat));
    assert(levels[i - 1].width == halved(width, (i - 1) as nat));
    assert(levels[i].height == halved(height, i as nat));
    assert(levels[i - 1].height == halved(height, (i - 1) as nat));
}

/// **Every level of a texture laid out as a chain can be read**, not only the last.
pub proof fn law_every_level_is_held(texture: TextureModel, width: nat, height: nat, i: int)
    requires
        texture.wf(),
        is_chain(texture.format, width, height, texture.levels),
        0 <= i < texture.levels.len(),
    ensures
        texture.holds(i),
{
    let (format, count) = (texture.format, texture.levels.len());
    lemma_chain_grows(format, width, height, (i + 1) as nat, count);
    let (level, last) = (texture.levels[i], texture.levels[count - 1]);
    assert(texture.levels.last() == last);
    assert(chain_bytes(format, width, height, (i + 1) as nat) == level.offset + level.size);
    assert(chain_bytes(format, width, height, count) == last.offset + last.size);
}

/// **A decoded DDS is its levels and nothing else**: they start at the start of its buffer, the last
/// ends at its end, and each can be read.
pub proof fn law_decoded_levels_cover_the_data(b: Seq<u8>, texture: TextureModel)
    requires
        dds::dds_decodes_to(b, Ok(texture)),
        dds::dds_describable(b),
    ensures
        texture.wf(),
        texture.levels[0].offset == 0,
        texture.levels.last().offset + texture.levels.last().size == texture.data.len(),
        forall|i: int| 0 <= i < texture.levels.len() ==> #[trigger] texture.holds(i),
{
    let format = texture.format;
    let (w, h) = (dds::dds_width(b) as nat, dds::dds_height(b) as nat);
    let count = texture.levels.len();
    assert(dds::dds_readable(b));
    let last = texture.levels[count - 1];
    reveal_with_fuel(chain_bytes, 2);
    assert(last.offset + last.size == chain_bytes(format, w, h, count));
    assert(texture.levels[0].offset == 0);
    assert forall|i: int| 0 <= i < count implies #[trigger] texture.holds(i) by {
        law_every_level_is_held(texture, w, h, i);
    }
}

/// A channel of a plain level is the byte that stands there.
proof fn lemma_plain_byte(level: Seq<u8>, w: int, t: int, c: int)
    requires
        w >= 1,
        0 <= t,
        0 <= c < 4,
        (t + 1) * 4 <= level.len(),
    ensures
        texel_channel(TextureFormat::Rgba8, level, w as nat, t % w, t / w, c) == level[t * 4 + c],
{
    let (x, y) = (t % w, t / w);
    vstd::arithmetic::div_mod::lemma_fundamental_div_mod(t, w);
    assert(w * y == y * w) by (nonlinear_arith);
    assert(super::format::units(w as nat, 1) == w);
    assert(y / 1 == y && x / 1 == x);
    assert((y / 1) * super::format::units(w as nat, 1) + x / 1 == t);
    assert(unit_of(level, 4, t)[c] == level[t * 4 + c]);
}

/// **An uncompressed texture comes back as it went in**: `Rgba8` byte for byte.
pub proof fn law_rgba8_comes_back(texture: TextureModel)
    requires
        texture.wf(),
        texture.holds(0),
        texture.format == TextureFormat::Rgba8,
        texture.width() >= 1,
        texture.height() >= 1,
        texture.level(0).len() == texture.width() * texture.height() * 4,
    ensures
        expanded(texture) == texture.level(0),
{
    let (w, h) = (texture.width() as int, texture.height() as int);
    let level = texture.level(0);
    assert forall|i: int| 0 <= i < expanded(texture).len() implies expanded(texture)[i]
        == level[i] by {
        lemma_plain_byte(level, w, i / 4, i % 4);
    }
    assert(expanded(texture) =~= level);
}

/// **Where the origin bit says the bottom row comes first, the rows come back the other way up**:
/// two files alike but for that bit decode to images that are each other's mirror.
pub proof fn law_tga_origin_flips_the_rows(top: Seq<u8>, bottom: Seq<u8>, x: int, y: int, c: int)
    requires
        tga::tga_readable(top),
        tga::tga_top_first(top),
        !tga::tga_top_first(bottom),
        top.len() == bottom.len(),
        tga::tga_end(top) <= top.len(),
        forall|i: int| 0 <= i < top.len() && i != 17 ==> top[i] == bottom[i],
        0 <= x < tga::tga_width(top),
        0 <= y < tga::tga_height(top),
        0 <= c < 4,
    ensures
        tga::tga_channel(bottom, x, y, c) == tga::tga_channel(
            top,
            x,
            tga::tga_height(top) - 1 - y,
            c,
        ),
{
    tga::lemma_texel_in_file(top, x, tga::tga_height(top) - 1 - y);
}

/// **A chain is built once**: building one under a texture that was just given its own changes
/// nothing.
pub proof fn law_a_chain_is_built_once(texture: TextureModel, once: TextureModel, twice: TextureModel)
    requires
        texture.levels.len() > 0,
        is_mipped(texture, once),
        is_mipped(once, twice),
    ensures
        twice == once,
{
    if lacks_mips(texture) && lacks_mips(once) {
        let (w, h) = (texture.width(), texture.height());
        assert(once.levels[0].width == halved(w as nat, 0) && once.levels[0].height == halved(
            h as nat,
            0,
        ));
        assert(is_full(w, h, once.levels.len()));
        lemma_one_full_count(w, h, once.levels.len(), twice.levels.len());
        assert(twice.levels.len() == 1);
        assert(twice.levels[0] == once.levels[0]);
        assert(twice.levels =~= once.levels);
        reveal_with_fuel(chain_bytes, 2);
        assert(once.data =~= once.data.subrange(0, once.data.len() as int));
        assert(twice.data =~= twice.data.subrange(0, twice.data.len() as int));
    }
}

} // verus!
