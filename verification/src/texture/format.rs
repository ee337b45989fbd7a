//! Pixel formats and the mip chains they are laid out in.

use vstd::arithmetic::power2::pow2;
use vstd::prelude::*;

verus! {

/// How a texture's bytes are encoded.
///
/// It says nothing about the colour space: the same bytes may be albedo in one file and a normal
/// map in another, and the consumer is the one who knows.
#[derive(Debug, Clone, Copy, PartialEq, Eq, Structural)]
pub enum TextureFormat {
    /// DXT1. Eight bytes per 4x4 block, RGB with an optional one-bit alpha.
    Bc1,
    /// DXT3. Sixteen bytes per 4x4 block: explicit four-bit alpha, then a BC1 colour block.
    Bc2,
    /// Uncompressed, blue-green-red-alpha byte order.
    Bgra8,
    /// Uncompressed, red-green-blue-alpha byte order.
    Rgba8,
}

/// Where one mip level sits inside a texture's single data buffer.
#[derive(Debug, Clone, Copy, PartialEq, Eq, Structural)]
pub struct MipLevel {
    pub offset: u32,
    pub size: u32,
    pub width: u32,
    pub height: u32,
}

/// How many units of `extent` texels cover `texels`, rounding up.
pub open spec fn units(texels: nat, extent: nat) -> nat {
    (texels + extent - 1) as nat / extent
}

/// Bytes one mip level of `width` x `height` occupies: whole units in each direction.
pub open spec fn level_bytes(format: TextureFormat, width: nat, height: nat) -> nat {
    units(width, format.texels_per_unit()) * units(height, format.texels_per_unit())
        * format.bytes_per_unit()
}

/// The extent of the mip level `level` steps below one of `extent` texels.
pub open spec fn halved(extent: nat, level: nat) -> nat
    decreases level,
{
    if level == 0 {
        extent
    } else {
        let above = halved(extent, (level - 1) as nat);
        if above < 2 {
            1
        } else {
            above / 2
        }
    }
}

/// Bytes the level `level` steps down a chain from `width` x `height` occupies.
pub open spec fn chain_level_bytes(
    format: TextureFormat,
    width: nat,
    height: nat,
    level: nat,
) -> nat {
    level_bytes(format, halved(width, level), halved(height, level))
}

/// Bytes the first `count` levels of a chain from `width` x `height` occupy, packed end to end.
pub open spec fn chain_bytes(format: TextureFormat, width: nat, height: nat, count: nat) -> nat
    decreases count,
{
    if count == 0 {
        0
    } else {
        chain_bytes(format, width, height, (count - 1) as nat) + chain_level_bytes(
            format,
            width,
            height,
            (count - 1) as nat,
        )
    }
}

/// Whether `levels` is the start of the chain from `width` x `height`, packed end to end.
pub open spec fn is_chain(
    format: TextureFormat,
    width: nat,
    height: nat,
    levels: Seq<MipLevel>,
) -> bool {
    forall|i: int| #![trigger levels[i]]
        0 <= i < levels.len() ==> {
            &&& levels[i].offset == chain_bytes(format, width, height, i as nat)
            &&& levels[i].size == chain_level_bytes(format, width, height, i as nat)
            &&& levels[i].width == halved(width, i as nat)
            &&& levels[i].height == halved(height, i as nat)
        }
}

impl TextureFormat {
    /// Bytes each unit of the format occupies: one 4x4 block, or one texel.
    pub open spec fn bytes_per_unit(self) -> nat {
        match self {
            TextureFormat::Bc1 => 8,
            TextureFormat::Bc2 => 16,
            TextureFormat::Bgra8 => 4,
            TextureFormat::Rgba8 => 4,
        }
    }

    /// Texels along each axis of one unit.
    pub open spec fn texels_per_unit(self) -> nat {
        match self {
            TextureFormat::Bc1 => 4,
            TextureFormat::Bc2 => 4,
            TextureFormat::Bgra8 => 1,
            TextureFormat::Rgba8 => 1,
        }
    }

    /// Bytes each unit of the format occupies: one 4x4 block, or one texel.
    pub fn unit_size(self) -> (r: u32)
        ensures
            r == self.bytes_per_unit(),
    {
        match self {
            TextureFormat::Bc1 => 8,
            TextureFormat::Bc2 => 16,
            TextureFormat::Bgra8 => 4,
            TextureFormat::Rgba8 => 4,
        }
    }

    /// Texels along each axis of one unit: four for block formats, one otherwise.
    pub fn unit_extent(self) -> (r: u32)
        ensures
            r == self.texels_per_unit(),
    {
        match self {
            TextureFormat::Bc1 => 4,
            TextureFormat::Bc2 => 4,
            TextureFormat::Bgra8 => 1,
            TextureFormat::Rgba8 => 1,
        }
    }

    /// Bytes one mip level of `width` x `height` occupies.
    ///
    /// Block formats round up, so a 2x2 mip of a BC1 chain still costs a whole 8-byte block. Losing
    /// that rounding truncates every level below 4x4 and desynchronises the rest of the chain.
    pub fn level_size(self, width: u32, height: u32) -> (r: u32)
        requires
            level_bytes(self, width as nat, height as nat) <= u32::MAX,
        ensures
            r == level_bytes(self, width as nat, height as nat),
    {
        let unit: u32 = self.unit_extent();
        let across: u32 = units_covering(width, unit);
        let down: u32 = units_covering(height, unit);
        let each: u32 = self.unit_size();
        proof {
            let cells: int = across * down;
            assert(cells >= 0 && cells <= cells * each) by (nonlinear_arith)
                requires
                    cells == across * down,
                    each >= 1,
            ;
        }
        across * down * each
    }

    /// [`TextureFormat::level_size`] where the level may be too large for its own table entry.
    pub fn checked_level_size(self, width: u32, height: u32) -> (r: Option<u32>)
        ensures
            level_bytes(self, width as nat, height as nat) <= u32::MAX ==> r == Some(
                level_bytes(self, width as nat, height as nat) as u32,
            ),
            level_bytes(self, width as nat, height as nat) > u32::MAX ==> r is None,
    {
        let unit: u32 = self.unit_extent();
        let across: u32 = units_covering(width, unit);
        let down: u32 = units_covering(height, unit);
        let each: u32 = self.unit_size();
        proof {
            let cells: int = across * down;
            assert(cells >= 0 && cells <= cells * each) by (nonlinear_arith)
                requires
                    cells == across * down,
                    each >= 1,
            ;
        }
        match across.checked_mul(down) {
            Some(cells) => cells.checked_mul(each),
            None => None,
        }
    }
}

/// How many units of `extent` texels cover `texels`, rounding up.
fn units_covering(texels: u32, extent: u32) -> (r: u32)
    requires
        extent == 1 || extent == 4,
    ensures
        r == units(texels as nat, extent as nat),
{
    let whole: u32 = texels / extent;
    if texels % extent == 0 {
        whole
    } else {
        whole + 1
    }
}

/// How many levels a full chain from `width` x `height` has, down to a single texel.
pub fn mip_count(width: u32, height: u32) -> (r: u32)
    ensures
        1 <= r <= 32,
        ({
            let larger = if width >= height { width } else { height };
            let side = if larger >= 1 { larger as nat } else { 1 };
            pow2((r - 1) as nat) <= side < pow2(r as nat)
        }),
{
    let larger: u32 = if width >= height { width } else { height };
    let side: u32 = if larger >= 1 { larger } else { 1 };
    let mut left: u32 = side;
    let mut count: u32 = 0;
    proof {
        vstd::arithmetic::power2::lemma2_to64();
    }
    while left > 1
        invariant
            1 <= left,
            side >= 1,
            count <= 31,
            left * pow2(count as nat) <= side < (left + 1) * pow2(count as nat),
        decreases left,
    {
        proof {
            let p = pow2(count as nat) as int;
            vstd::arithmetic::power2::lemma_pow2_unfold((count + 1) as nat);
            vstd::arithmetic::power2::lemma2_to64();
            let half: int = left as int / 2;
            assert(half * (2 * p) <= side && side < (half + 1) * (2 * p)) by (nonlinear_arith)
                requires
                    left * p <= side,
                    side < (left + 1) * p,
                    half * 2 <= left,
                    left + 1 <= (half + 1) * 2,
                    p >= 0,
            ;
            if count == 31 {
                assert(left * p >= 2 * p) by (nonlinear_arith)
                    requires
                        left >= 2,
                        p >= 0,
                ;
            }
        }
        left = left / 2;
        count = count + 1;
    }
    proof {
        vstd::arithmetic::power2::lemma_pow2_unfold((count + 1) as nat);
    }
    count + 1
}

/// The chain of `count` levels starting at `width` x `height`.
///
/// Each level halves, floored at one texel, which is the convention every mipped format uses.
pub fn describe_levels(format: TextureFormat, width: u32, height: u32, count: u32) -> (levels: Vec<
    MipLevel,
>)
    requires
        chain_bytes(format, width as nat, height as nat, count as nat) <= u32::MAX,
    ensures
        levels@.len() == count,
        is_chain(format, width as nat, height as nat, levels@),
{
    let mut levels: Vec<MipLevel> = Vec::with_capacity(count as usize);
    let mut offset: u32 = 0;
    let mut w: u32 = width;
    let mut h: u32 = height;
    let mut at: u32 = 0;
    while at < count
        invariant
            at <= count,
            levels@.len() == at,
            chain_bytes(format, width as nat, height as nat, count as nat) <= u32::MAX,
            offset == chain_bytes(format, width as nat, height as nat, at as nat),
            w == halved(width as nat, at as nat),
            h == halved(height as nat, at as nat),
            is_chain(format, width as nat, height as nat, levels@),
        decreases count - at,
    {
        proof {
            lemma_chain_grows(format, width as nat, height as nat, (at + 1) as nat, count as nat);
        }
        let size: u32 = format.level_size(w, h);
        levels.push(MipLevel { offset, size, width: w, height: h });
        offset = offset + size;
        w = if w < 2 { 1 } else { w / 2 };
        h = if h < 2 { 1 } else { h / 2 };
        at = at + 1;
    }
    levels
}

/// Whether the chain of `count` levels starting at `width` x `height` ends within 32 bits.
pub fn chain_fits(format: TextureFormat, width: u32, height: u32, count: u32) -> (r: bool)
    ensures
        r == (chain_bytes(format, width as nat, height as nat, count as nat) <= u32::MAX),
{
    let mut offset: u32 = 0;
    let mut w: u32 = width;
    let mut h: u32 = height;
    let mut at: u32 = 0;
    while at < count
        invariant
            at <= count,
            offset == chain_bytes(format, width as nat, height as nat, at as nat),
            w == halved(width as nat, at as nat),
            h == halved(height as nat, at as nat),
        decreases count - at,
    {
        proof {
            lemma_chain_grows(format, width as nat, height as nat, (at + 1) as nat, count as nat);
        }
        let size: u32 = match format.checked_level_size(w, h) {
            Some(size) => size,
            None => return false,
        };
        offset = match offset.checked_add(size) {
            Some(end) => end,
            None => return false,
        };
        w = if w < 2 { 1 } else { w / 2 };
        h = if h < 2 { 1 } else { h / 2 };
        at = at + 1;
    }
    true
}

/// An uncompressed level is four bytes a texel.
pub proof fn lemma_plain_bytes(format: TextureFormat, width: nat, height: nat)
    requires
        format.texels_per_unit() == 1,
    ensures
        level_bytes(format, width, height) == width * height * 4,
{
    assert(units(width, 1) == width);
    assert(units(height, 1) == height);
}

/// A longer chain never occupies less.
pub proof fn lemma_chain_grows(
    format: TextureFormat,
    width: nat,
    height: nat,
    shorter: nat,
    longer: nat,
)
    requires
        shorter <= longer,
    ensures
        chain_bytes(format, width, height, shorter) <= chain_bytes(format, width, height, longer),
    decreases longer - shorter,
{
    if shorter < longer {
        lemma_chain_grows(format, width, height, shorter, (longer - 1) as nat);
    }
}

/// A level below the first is never empty, and the first is empty only where it has no texels.
pub proof fn lemma_halved_positive(extent: nat, level: nat)
    requires
        extent > 0 || level > 0,
    ensures
        halved(extent, level) >= 1,
    decreases level,
{
    if level > 1 {
        lemma_halved_positive(extent, (level - 1) as nat);
    }
}

/// **Halving by levels is dividing by a power of two**, floored at one texel.
pub proof fn law_halving_is_a_power_of_two(extent: nat, level: nat)
    requires
        extent >= 1,
    ensures
        halved(extent, level) == (if extent / pow2(level) >= 1 {
            extent / pow2(level)
        } else {
            1
        }),
    decreases level,
{
    vstd::arithmetic::power2::lemma2_to64();
    if level > 0 {
        let up = (level - 1) as nat;
        law_halving_is_a_power_of_two(extent, up);
        vstd::arithmetic::power2::lemma_pow2_unfold(level);
        vstd::arithmetic::power2::lemma_pow2_pos(up);
        vstd::arithmetic::power2::lemma_pow2_pos(level);
        vstd::arithmetic::div_mod::lemma_div_denominator(extent as int, pow2(up) as int, 2);
        assert(pow2(level) as int == pow2(up) as int * 2);
        assert(extent / pow2(level) == (extent / pow2(up)) / 2);
    } else {
        vstd::arithmetic::div_mod::lemma_div_basics(extent as int);
        assert(pow2(0) == 1);
    }
}

/// **A full chain ends in a single texel**: the last of `count` levels is one by one, where `count`
/// is the number of binary digits of the larger side.
pub proof fn law_full_chain_ends_in_one_texel(width: nat, height: nat, count: nat)
    requires
        width >= 1,
        height >= 1,
        count >= 1,
        width < pow2(count),
        height < pow2(count),
    ensures
        halved(width, (count - 1) as nat) == 1,
        halved(height, (count - 1) as nat) == 1,
{
    let last = (count - 1) as nat;
    law_halving_is_a_power_of_two(width, last);
    law_halving_is_a_power_of_two(height, last);
    vstd::arithmetic::power2::lemma_pow2_unfold(count);
    vstd::arithmetic::power2::lemma_pow2_pos(last);
    let p = pow2(last) as int;
    assert(width as int / p < 2) by (nonlinear_arith)
        requires
            width < 2 * p,
            p > 0,
    ;
    assert(height as int / p < 2) by (nonlinear_arith)
        requires
            height < 2 * p,
            p > 0,
    ;
}

} // verus!
