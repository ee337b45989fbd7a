//! Sampling a texture for the lighting it was painted with, and framing the map that comes of it.
//!
//! The estimate itself is a floating-point average and blur over a coarse grid. What is here is
//! everything around it: which texels land in which cell of the grid, what colours they have, and
//! the texture a finished map travels in.

use super::format::TextureFormat;
use super::rgba8::{at_least_one, choice, endpoint, plain_channel, spread, unit_of};
use super::texture::{Texture, TextureModel};
use crate::bytes::{le16, read_le16};
use vstd::prelude::*;

verus! {

/// Side of the grid, in cells.
///
/// Small on purpose: painted shading varies over the whole texture rather than between neighbouring
/// texels, and anything finer starts describing the painted detail instead.
pub const SIDE: u32 = 32;

/// What a full-scale byte of a map multiplies a texel by.
pub const SHADING_SCALE: u32 = 2;

/// The byte of a map that multiplies a texel by one: half of full scale, through the sRGB transfer.
pub const NEUTRAL: u8 = 188;

/// One thing sampled into the grid, and the cell it lands in.
#[derive(Debug, Clone, Copy)]
pub struct ShadingSample {
    pub cell: u32,
    pub colour: SampledColour,
}

/// What a sample has to say about the colour there.
#[derive(Debug, Clone, Copy)]
pub enum SampledColour {
    /// One texel's red, green and blue.
    Texel([u8; 3]),
    /// A compressed block: its two endpoints, whether the first sorts above the second, and which
    /// of the four colours each of its texels chooses.
    Block { first: [u8; 3], second: [u8; 3], four_colours: bool, choices: [u8; 16] },
}

/// The index along one side of the grid that coordinate `at` of `extent` falls in.
pub open spec fn along(at: int, extent: int) -> int {
    if at * SIDE / extent < SIDE {
        at * SIDE / extent
    } else {
        SIDE - 1
    }
}

/// The cell of the grid the texel at (`x`, `y`) falls in.
pub open spec fn cell_of(x: int, y: int, width: int, height: int) -> int {
    along(y, height) * SIDE + along(x, width)
}

/// How many units of the top level are sampled: every whole block, and every whole texel inside the
/// image.
pub open spec fn sample_count(texture: TextureModel) -> int {
    let whole = texture.level(0).len() as int / texture.format.bytes_per_unit() as int;
    if texture.format.texels_per_unit() == 4 {
        whole
    } else {
        let texels = at_least_one(texture.width()) * at_least_one(texture.height());
        if whole < texels {
            whole
        } else {
            texels as int
        }
    }
}

/// Whether `sample` is what unit `index` of the top level contributes.
pub open spec fn is_sample(texture: TextureModel, index: int, sample: ShadingSample) -> bool {
    let width = at_least_one(texture.width()) as int;
    let height = at_least_one(texture.height()) as int;
    let size = texture.format.bytes_per_unit() as int;
    let unit = unit_of(texture.level(0), size, index);
    if texture.format.texels_per_unit() == 4 {
        let across = (width + 3) / 4;
        let block = unit.subrange(size - 8, size);
        &&& sample.cell == cell_of((index % across) * 4, (index / across) * 4, width, height)
        &&& sample.colour matches SampledColour::Block { first, second, four_colours, choices }
        &&& forall|c: int| 0 <= c < 3 ==> first@[c] == spread(le16(block, 0), c)
        &&& forall|c: int| 0 <= c < 3 ==> second@[c] == spread(le16(block, 2), c)
        &&& four_colours == (le16(block, 0) > le16(block, 2))
        &&& forall|t: int| 0 <= t < 16 ==> choices@[t] == choice(block, t)
    } else {
        &&& sample.cell == cell_of(index % width, index / width, width, height)
        &&& sample.colour matches SampledColour::Texel(rgb)
        &&& forall|c: int| 0 <= c < 3 ==> rgb@[c] == plain_channel(texture.format, unit, c)
    }
}

/// The index along one side of the grid that a coordinate falls in.
fn index_along(at: u64, extent: u32) -> (r: u32)
    requires
        extent >= 1,
        at <= 0x4_0000_0000,
    ensures
        r == along(at as int, extent as int),
        r < SIDE,
{
    let scaled: u64 = at * SIDE as u64 / extent as u64;
    proof {
        assert(at * SIDE as int / extent as int >= 0) by (nonlinear_arith)
            requires
                at >= 0,
                extent >= 1,
        ;
    }
    if scaled < SIDE as u64 {
        scaled as u32
    } else {
        SIDE - 1
    }
}

/// The cell of the grid a texel falls in.
fn cell(x: u64, y: u64, width: u32, height: u32) -> (r: u32)
    requires
        width >= 1,
        height >= 1,
        x <= 0x4_0000_0000,
        y <= 0x4_0000_0000,
    ensures
        r == cell_of(x as int, y as int, width as int, height as int),
        r < SIDE * SIDE,
{
    let row: u32 = index_along(y, height);
    let column: u32 = index_along(x, width);
    row * SIDE + column
}

/// Which of the four colours each of a block's texels chooses.
fn choices_of(block: &[u8]) -> (r: [u8; 16])
    requires
        block@.len() == 8,
    ensures
        forall|t: int| 0 <= t < 16 ==> r@[t] == choice(block@, t),
{
    let (a, b, c, d): (u8, u8, u8, u8) = (block[4], block[5], block[6], block[7]);
    [
        a % 4,
        (a / 4) % 4,
        (a / 16) % 4,
        (a / 64) % 4,
        b % 4,
        (b / 4) % 4,
        (b / 16) % 4,
        (b / 64) % 4,
        c % 4,
        (c / 4) % 4,
        (c / 16) % 4,
        (c / 64) % 4,
        d % 4,
        (d / 4) % 4,
        (d / 16) % 4,
        (d / 64) % 4,
    ]
}

/// What one unit of a texture's top level contributes to the grid.
fn sample(texture: &Texture, level: &[u8], index: u32) -> (r: ShadingSample)
    requires
        texture@.wf(),
        level@ == texture@.level(0),
        level@.len() <= u32::MAX,
        (index + 1) * texture@.format.bytes_per_unit() <= level@.len(),
    ensures
        is_sample(texture@, index as int, r),
        r.cell < SIDE * SIDE,
{
    let width: u32 = if texture.width() == 0 { 1 } else { texture.width() };
    let height: u32 = if texture.height() == 0 { 1 } else { texture.height() };
    let format: TextureFormat = texture.format();
    let size: u32 = format.unit_size();
    assert(level@.len() == level.len());
    assert(index * size >= 0 && (index + 1) * size == index * size + size) by (nonlinear_arith)
        requires
            index >= 0,
            size >= 0,
    ;
    let start: usize = (index * size) as usize;
    let unit: &[u8] = vstd::slice::slice_subrange(level, start, start + size as usize);
    if format.unit_extent() == 4 {
        let across: u64 = (width as u64 + 3) / 4;
        let x: u64 = (index as u64 % across) * 4;
        let y: u64 = (index as u64 / across) * 4;
        assert(index as u64 % across <= index && index as u64 / across <= index)
            by (nonlinear_arith)
            requires
                across >= 1,
        ;
        let block: &[u8] = vstd::slice::slice_subrange(unit, size as usize - 8, size as usize);
        let one: u16 = read_le16(block, 0);
        let two: u16 = read_le16(block, 2);
        ShadingSample {
            cell: cell(x, y, width, height),
            colour: SampledColour::Block {
                first: endpoint(one),
                second: endpoint(two),
                four_colours: one > two,
                choices: choices_of(block),
            },
        }
    } else {
        let x: u32 = index % width;
        let y: u32 = index / width;
        let rgb: [u8; 3] = match format {
            TextureFormat::Bgra8 => [unit[2], unit[1], unit[0]],
            _ => [unit[0], unit[1], unit[2]],
        };
        assert(x <= u32::MAX && y <= index) by (nonlinear_arith)
            requires
                y == index / width,
                width >= 1,
                x <= u32::MAX,
        ;
        ShadingSample {
            cell: cell(x as u64, y as u64, width, height),
            colour: SampledColour::Texel(rgb),
        }
    }
}

/// Everything in a texture's top level that says something about how light it is, in file order,
/// with the grid cell each lands in.
pub fn samples(texture: &Texture) -> (r: Vec<ShadingSample>)
    requires
        texture@.wf(),
        texture@.holds(0),
    ensures
        r@.len() == sample_count(texture@),
        forall|i: int| #![trigger r@[i]]
            0 <= i < r@.len() ==> is_sample(texture@, i, r@[i]) && r@[i].cell < SIDE * SIDE,
{
    let level: &[u8] = texture.level_data(0);
    let width: u32 = if texture.width() == 0 { 1 } else { texture.width() };
    let height: u32 = if texture.height() == 0 { 1 } else { texture.height() };
    let size: u32 = texture.format().unit_size();
    let whole: u32 = level.len() as u32 / size;
    assert(0 <= width as u64 * height as u64 <= 0xFFFF_FFFF * 0xFFFF_FFFF) by (nonlinear_arith)
        requires
            width <= 0xFFFF_FFFF,
            height <= 0xFFFF_FFFF,
    ;
    let texels: u64 = width as u64 * height as u64;
    let count: u32 = if texture.format().unit_extent() == 4 || (whole as u64) < texels {
        whole
    } else {
        texels as u32
    };
    assert(whole * size <= level@.len()) by (nonlinear_arith)
        requires
            whole == level@.len() as int / size as int,
            size >= 1,
    ;
    let mut r: Vec<ShadingSample> = Vec::new();
    let mut i: u32 = 0;
    while i < count
        invariant
            texture@.wf(),
            texture@.holds(0),
            level@ == texture@.level(0),
            level@.len() <= u32::MAX,
            size == texture@.format.bytes_per_unit(),
            count == sample_count(texture@),
            count <= whole,
            whole * size <= level@.len(),
            i <= count,
            r@.len() == i,
            forall|k: int| #![trigger r@[k]]
                0 <= k < r@.len() ==> is_sample(texture@, k, r@[k]) && r@[k].cell < SIDE * SIDE,
        decreases count - i,
    {
        assert((i + 1) * size <= whole * size) by (nonlinear_arith)
            requires
                i + 1 <= whole,
                size >= 0,
        ;
        r.push(sample(texture, level, i));
        i = i + 1;
    }
    r
}

/// Whether one cell is the other or borders on it, along a side or at a corner.
pub open spec fn is_near(a: int, b: int) -> bool {
    &&& -1 <= a / SIDE as int - b / SIDE as int <= 1
    &&& -1 <= a % SIDE as int - b % SIDE as int <= 1
}

/// The cells a box filter averages about `cell`: itself and those that border on it, in order.
///
/// Cells past the edge of the grid are left out rather than counted as dark.
pub fn neighbours(cell: u32) -> (r: Vec<u32>)
    requires
        cell < SIDE * SIDE,
    ensures
        forall|i: int, j: int| 0 <= i < j < r@.len() ==> r@[i] < r@[j],
        forall|c: u32| r@.contains(c) <==> c < SIDE * SIDE && is_near(c as int, cell as int),
{
    let row: u32 = cell / SIDE;
    let column: u32 = cell % SIDE;
    let top: u32 = if row == 0 { 0 } else { row - 1 };
    let bottom: u32 = if row == SIDE - 1 { row } else { row + 1 };
    let left: u32 = if column == 0 { 0 } else { column - 1 };
    let right: u32 = if column == SIDE - 1 { column } else { column + 1 };
    let mut r: Vec<u32> = Vec::new();
    let mut y: u32 = top;
    while y <= bottom
        invariant
            top <= y <= bottom + 1,
            bottom < SIDE,
            left <= right < SIDE,
            forall|i: int, j: int| 0 <= i < j < r@.len() ==> r@[i] < r@[j],
            forall|c: u32|
                r@.contains(c) <==> top <= c / SIDE < y && left <= c % SIDE <= right,
        decreases bottom + 1 - y,
    {
        let mut x: u32 = left;
        while x <= right
            invariant
                top <= y <= bottom < SIDE,
                left <= x <= right + 1,
                right < SIDE,
                forall|i: int, j: int| 0 <= i < j < r@.len() ==> r@[i] < r@[j],
                forall|c: u32|
                    r@.contains(c) <==> left <= c % SIDE <= right && (top <= c / SIDE < y || (c
                        / SIDE == y && c % SIDE < x)),
            decreases right + 1 - x,
        {
            let next: u32 = y * SIDE + x;
            let ghost before = r@;
            assert(next / SIDE == y && next % SIDE == x);
            r.push(next);
            proof {
                assert forall|i: int, j: int| 0 <= i < j < r@.len() implies r@[i] < r@[j] by {
                    if j == before.len() {
                        assert(before.contains(r@[i]));
                    }
                }
                assert forall|c: u32|
                    #![trigger r@.contains(c)]
                    r@.contains(c) <==> before.contains(c) || c == next by {
                    if before.contains(c) {
                        let k = choose|k: int| 0 <= k < before.len() && before[k] == c;
                        assert(r@[k] == c);
                    }
                    if c == next {
                        assert(r@[before.len() as int] == c);
                    }
                }
                assert forall|c: u32|
                    #![trigger r@.contains(c)]
                    c / SIDE == y && c % SIDE == x implies c == next by {}
            }
            x = x + 1;
        }
        y = y + 1;
    }
    r
}

/// **A cell's neighbours are those it is a neighbour of**, so a box filter takes from every cell as
/// often as it gives to it.
pub proof fn law_neighbours_are_mutual(a: int, b: int)
    ensures
        is_near(a, b) == is_near(b, a),
        is_near(a, a),
{
}

/// The pixels a finished map travels in: each cell's byte as an opaque grey.
pub open spec fn grey_pixels(encoded: Seq<u8>) -> Seq<u8> {
    Seq::new(
        encoded.len() * 4,
        |i: int|
            if i % 4 == 3 {
                255
            } else {
                encoded[i / 4]
            },
    )
}

/// Each byte as an opaque grey texel.
pub fn grey(encoded: &[u8]) -> (r: Vec<u8>)
    requires
        encoded@.len() * 4 <= usize::MAX,
    ensures
        r@ == grey_pixels(encoded@),
{
    let mut r: Vec<u8> = Vec::with_capacity(encoded.len() * 4);
    let mut t: usize = 0;
    while t < encoded.len()
        invariant
            t <= encoded@.len(),
            r@.len() == 4 * t,
            forall|i: int| 0 <= i < r@.len() ==> r@[i] == grey_pixels(encoded@)[i],
        decreases encoded@.len() - t,
    {
        let byte: u8 = encoded[t];
        let ghost before = r@;
        r.push(byte);
        r.push(byte);
        r.push(byte);
        r.push(255);
        proof {
            assert forall|i: int| 0 <= i < r@.len() implies r@[i] == grey_pixels(encoded@)[i] by {
                if i < before.len() {
                    assert(r@[i] == before[i]);
                } else {
                    assert(i / 4 == t && i % 4 == i - 4 * t);
                }
            }
        }
        t = t + 1;
    }
    assert(r@ =~= grey_pixels(encoded@));
    r
}

} // verus!
