//! Building the mip chain of a texture that came without one.

use super::format::{
    chain_bytes, chain_level_bytes, describe_levels, halved, is_chain, lemma_chain_grows,
    lemma_halved_positive, level_bytes, MipLevel, TextureFormat,
};
use vstd::prelude::*;

verus! {

/// The smaller of two.
pub open spec fn at_most(n: int, limit: int) -> int {
    if n <= limit {
        n
    } else {
        limit
    }
}

/// Channel `c` of the texel at (`x`, `y`) of an uncompressed level.
pub open spec fn stored(data: Seq<u8>, level: MipLevel, x: int, y: int, c: int) -> u8 {
    data[level.offset + (y * level.width + x) * 4 + c]
}

/// Channel `c` of the texel that stands for (`x`, `y`) one level below `above`: the mean of the
/// four it covers, rounded to nearest, clamped where `above` is one texel across.
pub open spec fn mean_of_four(data: Seq<u8>, above: MipLevel, x: int, y: int, c: int) -> int {
    let sx = at_most(2 * x, above.width - 1);
    let sy = at_most(2 * y, above.height - 1);
    let ox = at_most(sx + 1, above.width - 1);
    let oy = at_most(sy + 1, above.height - 1);
    (stored(data, above, sx, sy, c) + stored(data, above, ox, sy, c) + stored(
        data,
        above,
        sx,
        oy,
        c,
    ) + stored(data, above, ox, oy, c) + 2) / 4
}

/// Whether the first `n` bytes of `level` are the means of what they cover in `above`.
pub open spec fn filtered(data: Seq<u8>, above: MipLevel, level: MipLevel, n: int) -> bool {
    forall|i: int| #![trigger data[level.offset + i]]
        0 <= i < n ==> data[level.offset + i] == mean_of_four(
            data,
            above,
            (i / 4) % (level.width as int),
            (i / 4) / (level.width as int),
            i % 4,
        )
}

/// Whether every level after the first and before level `end` is box-filtered out of the one above.
pub open spec fn filtered_below(data: Seq<u8>, levels: Seq<MipLevel>, end: int) -> bool {
    forall|k: int| #![trigger levels[k]]
        1 <= k < end ==> filtered(data, levels[k - 1], levels[k], levels[k].size as int)
}

/// Whether every level after the first is box-filtered out of the one above it.
pub open spec fn box_filtered(data: Seq<u8>, levels: Seq<MipLevel>) -> bool {
    filtered_below(data, levels, levels.len() as int)
}

/// Whether `level` is an uncompressed level of at least one texel, inside `available` bytes.
pub open spec fn is_plain(level: MipLevel, available: int) -> bool {
    &&& level.width >= 1
    &&& level.height >= 1
    &&& level.size == level.width * level.height * 4
    &&& level.offset + level.size <= available
}

/// A channel of a texel inside a level is stored inside that level.
proof fn lemma_stored_inside(level: MipLevel, x: int, y: int, c: int)
    requires
        level.size == level.width * level.height * 4,
        0 <= x < level.width,
        0 <= y < level.height,
        0 <= c < 4,
    ensures
        0 <= (y * level.width + x) * 4 + c < level.size,
        0 <= y * level.width,
        y * level.width + x < level.width * level.height,
{
    let (w, h) = (level.width as int, level.height as int);
    assert(0 <= y * w && y * w + x < w * h) by (nonlinear_arith)
        requires
            0 <= x < w,
            0 <= y < h,
    ;
}

/// Bytes added past a level leave its means what they were.
proof fn lemma_filtered_extends(
    data: Seq<u8>,
    more: Seq<u8>,
    above: MipLevel,
    level: MipLevel,
    n: int,
)
    requires
        data.len() <= more.len(),
        forall|j: int| 0 <= j < data.len() ==> data[j] == more[j],
        is_plain(above, data.len() as int),
        level.width >= 1,
        level.height >= 1,
        level.offset + n <= data.len(),
        0 <= n <= level.width * level.height * 4,
        filtered(data, above, level, n),
    ensures
        filtered(more, above, level, n),
{
    assert forall|i: int| #![trigger more[level.offset + i]] 0 <= i < n implies more[level.offset
        + i] == mean_of_four(
        more,
        above,
        (i / 4) % (level.width as int),
        (i / 4) / (level.width as int),
        i % 4,
    ) by {
        let (x, y, c) = (
            (i / 4) % (level.width as int),
            (i / 4) / (level.width as int),
            i % 4,
        );
        assert(0 <= y) by (nonlinear_arith)
            requires
                y == (i / 4) / (level.width as int),
                i >= 0,
                level.width >= 1,
        ;
        lemma_mean_inside(data, more, above, x, y, c);
        assert(data[level.offset + i] == more[level.offset + i]);
    }
}

/// A mean depends only on the level it is taken from.
proof fn lemma_mean_inside(
    data: Seq<u8>,
    more: Seq<u8>,
    above: MipLevel,
    x: int,
    y: int,
    c: int,
)
    requires
        data.len() <= more.len(),
        forall|j: int| 0 <= j < data.len() ==> data[j] == more[j],
        is_plain(above, data.len() as int),
        0 <= x,
        0 <= y,
        0 <= c < 4,
    ensures
        mean_of_four(data, above, x, y, c) == mean_of_four(more, above, x, y, c),
{
    let sx = at_most(2 * x, above.width - 1);
    let sy = at_most(2 * y, above.height - 1);
    let ox = at_most(sx + 1, above.width - 1);
    let oy = at_most(sy + 1, above.height - 1);
    lemma_stored_inside(above, sx, sy, c);
    lemma_stored_inside(above, ox, sy, c);
    lemma_stored_inside(above, sx, oy, c);
    lemma_stored_inside(above, ox, oy, c);
}

/// Reads one channel of one texel of a level.
fn channel(data: &Vec<u8>, level: MipLevel, x: u32, y: u32, c: u32) -> (r: u32)
    requires
        is_plain(level, data@.len() as int),
        x < level.width,
        y < level.height,
        c < 4,
    ensures
        r == stored(data@, level, x as int, y as int, c as int),
        r <= 255,
{
    proof {
        lemma_stored_inside(level, x as int, y as int, c as int);
    }
    assert(data@.len() == data.len());
    let within: u32 = (y * level.width + x) * 4 + c;
    data[level.offset as usize + within as usize] as u32
}

/// Reads one channel of the mean of four texels of the level above.
fn mean(data: &Vec<u8>, above: MipLevel, x: u32, y: u32, c: u32) -> (r: u8)
    requires
        is_plain(above, data@.len() as int),
        x < 0x4000_0000,
        y < 0x4000_0000,
        c < 4,
    ensures
        r == mean_of_four(data@, above, x as int, y as int, c as int),
{
    let sx: u32 = if 2 * x <= above.width - 1 { 2 * x } else { above.width - 1 };
    let sy: u32 = if 2 * y <= above.height - 1 { 2 * y } else { above.height - 1 };
    let ox: u32 = if sx < above.width - 1 { sx + 1 } else { above.width - 1 };
    let oy: u32 = if sy < above.height - 1 { sy + 1 } else { above.height - 1 };
    let sum: u32 = channel(data, above, sx, sy, c) + channel(data, above, ox, sy, c) + channel(
        data,
        above,
        sx,
        oy,
        c,
    ) + channel(data, above, ox, oy, c);
    ((sum + 2) / 4) as u8
}

/// Appends one level to a chain that ends where the level begins.
fn push_level(data: &mut Vec<u8>, above: MipLevel, level: MipLevel)
    requires
        is_plain(above, old(data)@.len() as int),
        level.offset == old(data)@.len(),
        level.width >= 1,
        level.height >= 1,
        level.size == level.width * level.height * 4,
        level.offset + level.size <= u32::MAX,
    ensures
        final(data)@.len() == level.offset + level.size,
        forall|j: int| 0 <= j < old(data)@.len() ==> final(data)@[j] == old(data)@[j],
        filtered(final(data)@, above, level, level.size as int),
{
    let ghost start = data@;
    let mut i: u32 = 0;
    while i < level.size
        invariant
            start == old(data)@,
            i <= level.size,
            is_plain(above, start.len() as int),
            level.offset == start.len(),
            level.width >= 1,
            level.height >= 1,
            level.size == level.width * level.height * 4,
            level.offset + level.size <= u32::MAX,
            data@.len() == level.offset + i,
            forall|j: int| 0 <= j < start.len() ==> data@[j] == start[j],
            filtered(data@, above, level, i as int),
        decreases level.size - i,
    {
        let t: u32 = i / 4;
        let x: u32 = t % level.width;
        let y: u32 = t / level.width;
        proof {
            assert(x <= t && y <= t) by (nonlinear_arith)
                requires
                    x == t % level.width,
                    y == t / level.width,
                    level.width >= 1,
            ;
        }
        let ghost before = data@;
        let byte: u8 = mean(data, above, x, y, i % 4);
        data.push(byte);
        proof {
            lemma_filtered_extends(before, data@, above, level, i as int);
            lemma_mean_inside(before, data@, above, x as int, y as int, (i % 4) as int);
            assert forall|k: int| #![trigger data@[level.offset + k]]
                0 <= k < i + 1 implies data@[level.offset + k] == mean_of_four(
                data@,
                above,
                (k / 4) % (level.width as int),
                (k / 4) / (level.width as int),
                k % 4,
            ) by {
                if k == i {
                    assert(data@[level.offset + k] == byte);
                }
            }
        }
        i = i + 1;
    }
}

/// A chain filtered up to level `k` is filtered up to `k + 1` once that level is appended.
proof fn lemma_chain_extends(
    before: Seq<u8>,
    after: Seq<u8>,
    format: TextureFormat,
    width: nat,
    height: nat,
    levels: Seq<MipLevel>,
    k: int,
)
    requires
        format.texels_per_unit() == 1,
        width >= 1,
        height >= 1,
        1 <= k < levels.len(),
        is_chain(format, width, height, levels),
        before.len() == chain_bytes(format, width, height, k as nat),
        before.len() <= after.len(),
        forall|j: int| 0 <= j < before.len() ==> before[j] == after[j],
        filtered_below(before, levels, k),
        filtered(after, levels[k - 1], levels[k], levels[k].size as int),
    ensures
        filtered_below(after, levels, k + 1),
{
    assert forall|m: int| #![trigger levels[m]] 1 <= m < k + 1 implies filtered(
        after,
        levels[m - 1],
        levels[m],
        levels[m].size as int,
    ) by {
        if m < k {
            let up = levels[m - 1];
            lemma_plain(format, width, height, (m - 1) as nat);
            lemma_plain(format, width, height, m as nat);
            lemma_chain_grows(format, width, height, m as nat, k as nat);
            lemma_chain_grows(format, width, height, (m + 1) as nat, k as nat);
            assert(chain_bytes(format, width, height, m as nat) == up.offset + up.size);
            assert(chain_bytes(format, width, height, (m + 1) as nat) == levels[m].offset
                + levels[m].size);
            lemma_filtered_extends(before, after, up, levels[m], levels[m].size as int);
        }
    }
}

/// Box-filters a whole chain out of its first level.
pub fn filter_chain(first: &[u8], format: TextureFormat, width: u32, height: u32, count: u32) -> (r:
    (Vec<u8>, Vec<MipLevel>))
    requires
        format.texels_per_unit() == 1,
        count >= 1,
        width >= 1 && height >= 1 || count == 1,
        chain_bytes(format, width as nat, height as nat, count as nat) <= u32::MAX,
        first@.len() == level_bytes(format, width as nat, height as nat),
    ensures
        r.1@.len() == count,
        is_chain(format, width as nat, height as nat, r.1@),
        r.0@.len() == chain_bytes(format, width as nat, height as nat, count as nat),
        r.0@.subrange(0, first@.len() as int) == first@,
        box_filtered(r.0@, r.1@),
{
    let levels: Vec<MipLevel> = describe_levels(format, width, height, count);
    let ghost (w, h) = (width as nat, height as nat);
    let mut data: Vec<u8> = Vec::new();
    data.extend_from_slice(first);
    proof {
        reveal_with_fuel(chain_bytes, 2);
        assert(data@ =~= first@);
        assert(chain_bytes(format, w, h, 1) == first@.len());
    }
    let mut k: usize = 1;
    while k < levels.len()
        invariant
            1 <= k <= levels@.len(),
            levels@.len() == count,
            w == width,
            h == height,
            format.texels_per_unit() == 1,
            format.bytes_per_unit() == 4,
            width >= 1 && height >= 1 || count == 1,
            chain_bytes(format, w, h, count as nat) <= u32::MAX,
            first@.len() == level_bytes(format, w, h),
            first@.len() <= data@.len(),
            is_chain(format, w, h, levels@),
            data@.len() == chain_bytes(format, w, h, k as nat),
            data@.subrange(0, first@.len() as int) == first@,
            filtered_below(data@, levels@, k as int),
        decreases levels@.len() - k,
    {
        let above: MipLevel = levels[k - 1];
        let level: MipLevel = levels[k];
        let ghost before = data@;
        proof {
            lemma_chain_grows(format, w, h, (k + 1) as nat, count as nat);
            lemma_plain(format, w, h, (k - 1) as nat);
            lemma_plain(format, w, h, k as nat);
            assert(chain_bytes(format, w, h, k as nat) == above.offset + above.size);
            assert(chain_bytes(format, w, h, (k + 1) as nat) == level.offset + level.size);
        }
        push_level(&mut data, above, level);
        proof {
            assert(data@.subrange(0, first@.len() as int) =~= before.subrange(
                0,
                first@.len() as int,
            ));
            lemma_chain_extends(before, data@, format, w, h, levels@, k as int);
        }
        k = k + 1;
    }
    (data, levels)
}

/// What one level of an uncompressed chain measures.
proof fn lemma_plain(format: TextureFormat, width: nat, height: nat, level: nat)
    requires
        format.texels_per_unit() == 1,
        width >= 1,
        height >= 1,
    ensures
        chain_level_bytes(format, width, height, level) == halved(width, level) * halved(
            height,
            level,
        ) * 4,
        halved(width, level) >= 1,
        halved(height, level) >= 1,
{
    lemma_halved_positive(width, level);
    lemma_halved_positive(height, level);
}

/// **A texel below the first level is the mean of the four it covers.**
pub proof fn law_mip_texel_is_the_mean_of_four(
    data: Seq<u8>,
    levels: Seq<MipLevel>,
    k: int,
    x: int,
    y: int,
    c: int,
)
    requires
        box_filtered(data, levels),
        1 <= k < levels.len(),
        levels[k].size == levels[k].width * levels[k].height * 4,
        0 <= x < levels[k].width,
        0 <= y < levels[k].height,
        0 <= c < 4,
    ensures
        stored(data, levels[k], x, y, c) == mean_of_four(data, levels[k - 1], x, y, c),
{
    let level = levels[k];
    lemma_stored_inside(level, x, y, c);
    let i = (y * level.width + x) * 4 + c;
    assert(filtered(data, levels[k - 1], level, level.size as int));
    assert(data[level.offset + i] == stored(data, level, x, y, c));
    assert(i % 4 == c && i / 4 == y * level.width + x);
    vstd::arithmetic::div_mod::lemma_fundamental_div_mod_converse(
        i / 4,
        level.width as int,
        y,
        x,
    );
}

} // verus!
