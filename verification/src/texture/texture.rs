//! A decoded texture: pixel data plus the shape needed to upload it.

use super::error::TextureError;
use super::format::{
    chain_bytes, chain_fits, is_chain, lemma_chain_grows, lemma_plain_bytes, level_bytes, mip_count, MipLevel,
    TextureFormat,
};
use super::mips::{box_filtered, filter_chain};
use super::rgba8::{at_least_one, expand, expanded};
use super::shading_map::{grey, grey_pixels, NEUTRAL, SIDE};
use super::{dds, tga};
use vstd::arithmetic::power2::pow2;
use vstd::prelude::*;

verus! {

/// One decoded texture and its whole mip chain.
///
/// The levels share one buffer with a range table beside it, which is also the shape an upload
/// wants: one staging buffer and one copy region per level.
#[derive(Debug, Clone)]
pub struct Texture {
    format: TextureFormat,
    data: Vec<u8>,
    levels: Vec<MipLevel>,
}

/// What a [`Texture`] is: a format, a buffer and a table of levels into the buffer.
#[verifier::ext_equal]
pub struct TextureModel {
    pub format: TextureFormat,
    pub data: Seq<u8>,
    pub levels: Seq<MipLevel>,
}

impl TextureModel {
    /// A texture has at least one level, and its last one lies inside the buffer.
    pub open spec fn wf(self) -> bool {
        &&& self.levels.len() > 0
        &&& self.levels.last().offset + self.levels.last().size <= self.data.len()
    }

    /// Whether `level` is in the table and its bytes are in the buffer.
    pub open spec fn holds(self, level: int) -> bool {
        &&& 0 <= level < self.levels.len()
        &&& self.levels[level].offset + self.levels[level].size <= self.data.len()
    }

    /// The bytes of one level.
    pub open spec fn level(self, level: int) -> Seq<u8> {
        self.data.subrange(
            self.levels[level].offset as int,
            self.levels[level].offset + self.levels[level].size,
        )
    }

    /// Width of the largest level.
    pub open spec fn width(self) -> u32 {
        self.levels[0].width
    }

    /// Height of the largest level.
    pub open spec fn height(self) -> u32 {
        self.levels[0].height
    }
}

/// Whether `count` levels take a `width` x `height` image down to a single texel and no further.
pub open spec fn is_full(width: u32, height: u32, count: nat) -> bool {
    let larger = if width >= height {
        width
    } else {
        height
    };
    let side = if larger >= 1 {
        larger as nat
    } else {
        1
    };
    count >= 1 && pow2((count - 1) as nat) <= side < pow2(count)
}

/// Whether a texture is one a chain can be built under: uncompressed, with a single level.
pub open spec fn lacks_mips(texture: TextureModel) -> bool {
    texture.levels.len() == 1 && texture.format.texels_per_unit() == 1
}

/// Whether a chain can be built under a texture that lacks one: its own level is all there, and the
/// full chain ends within thirty-two bits.
pub open spec fn takes_mips(texture: TextureModel) -> bool {
    lacks_mips(texture) ==> {
        let (w, h) = (texture.width(), texture.height());
        &&& w >= 1 && h >= 1 || w <= 1 && h <= 1
        &&& level_bytes(texture.format, w as nat, h as nat) <= texture.data.len()
        &&& forall|count: nat|
            is_full(w, h, count) ==> #[trigger] chain_bytes(
                texture.format,
                w as nat,
                h as nat,
                count,
            ) <= u32::MAX
    }
}

/// Whether `r` is a texture with the full chain under it: the same level, and each one below it
/// filtered out of the one above. One that has a chain, or cannot be filtered, is left as it is.
pub open spec fn is_mipped(texture: TextureModel, r: TextureModel) -> bool {
    if lacks_mips(texture) {
        let (w, h) = (texture.width(), texture.height());
        let first = level_bytes(texture.format, w as nat, h as nat) as int;
        &&& r.format == texture.format
        &&& is_full(w, h, r.levels.len())
        &&& is_chain(r.format, w as nat, h as nat, r.levels)
        &&& r.data.len() == chain_bytes(r.format, w as nat, h as nat, r.levels.len())
        &&& r.data.subrange(0, first) == texture.data.subrange(0, first)
        &&& box_filtered(r.data, r.levels)
    } else {
        r == texture
    }
}

/// Only one number of levels takes an image down to a single texel and no further.
pub proof fn lemma_one_full_count(width: u32, height: u32, a: nat, b: nat)
    requires
        is_full(width, height, a),
        is_full(width, height, b),
    ensures
        a == b,
{
    if a < b {
        if a < b - 1 {
            vstd::arithmetic::power2::lemma_pow2_strictly_increases(a, (b - 1) as nat);
        }
    } else if b < a {
        if b < a - 1 {
            vstd::arithmetic::power2::lemma_pow2_strictly_increases(b, (a - 1) as nat);
        }
    }
}

/// Whether the file `b` describes an image that can be laid out in memory.
pub open spec fn decodable(b: Seq<u8>) -> bool {
    if dds::has_magic(b) {
        dds::dds_describable(b)
    } else {
        tga::tga_addressable(b)
    }
}

/// What a texture file decodes to, the container chosen by what is inside it.
pub open spec fn decodes_to(b: Seq<u8>, r: Result<TextureModel, TextureError>) -> bool {
    if dds::has_magic(b) {
        dds::dds_decodes_to(b, r)
    } else {
        tga::tga_decodes_to(b, r)
    }
}

impl View for Texture {
    type V = TextureModel;

    closed spec fn view(&self) -> TextureModel {
        TextureModel { format: self.format, data: self.data@, levels: self.levels@ }
    }
}

impl Texture {
    /// Builds a texture from already-decoded bytes and its level table.
    ///
    /// A buffer shorter than the last level is an error.
    pub fn new(format: TextureFormat, data: Vec<u8>, levels: Vec<MipLevel>) -> (r: Result<
        Texture,
        TextureError,
    >)
        requires
            levels@.len() > 0,
            levels@.last().offset + levels@.last().size <= usize::MAX,
        ensures
            ({
                let end = levels@.last().offset + levels@.last().size;
                match r {
                    Ok(texture) => {
                        &&& end <= data@.len()
                        &&& texture@ == (TextureModel { format, data: data@, levels: levels@ })
                        &&& texture@.wf()
                    },
                    Err(error) => {
                        &&& end > data@.len()
                        &&& error == (TextureError::Truncated {
                            wanted: end as usize,
                            available: data@.len() as usize,
                        })
                    },
                }
            }),
    {
        let last: MipLevel = levels[levels.len() - 1];
        let end: usize = last.offset as usize + last.size as usize;
        if end > data.len() {
            return Err(TextureError::Truncated { wanted: end, available: data.len() });
        }
        Ok(Texture { format, data, levels })
    }

    /// Builds a single-level texture from pixels held in memory.
    pub fn from_pixels(format: TextureFormat, width: u32, height: u32, data: Vec<u8>) -> (r:
        Texture)
        requires
            level_bytes(format, width as nat, height as nat) <= u32::MAX,
            level_bytes(format, width as nat, height as nat) <= data@.len(),
        ensures
            r@.wf(),
            r@.format == format,
            r@.data == data@,
            r@.levels == seq![
                MipLevel {
                    offset: 0,
                    size: level_bytes(format, width as nat, height as nat) as u32,
                    width,
                    height,
                },
            ],
    {
        let size: u32 = format.level_size(width, height);
        let levels: Vec<MipLevel> = vec![MipLevel { offset: 0, size, width, height }];
        Texture { format, data, levels }
    }

    /// Decodes a texture from file bytes, choosing the container by content rather than by name.
    ///
    /// A file's name routinely disagrees with what is inside it, so the name is not asked.
    pub fn decode(bytes: &[u8]) -> (r: Result<Texture, TextureError>)
        requires
            decodable(bytes@),
        ensures
            decodes_to(bytes@, dds::modelled(r)),
            r matches Ok(texture) ==> texture@.wf(),
    {
        if dds::starts_with_magic(bytes) {
            dds::decode(bytes)
        } else {
            tga::decode(bytes)
        }
    }

    /// Whether a file describes an image that can be laid out in memory.
    pub fn is_decodable(bytes: &[u8]) -> (r: bool)
        ensures
            r == decodable(bytes@),
    {
        if dds::starts_with_magic(bytes) {
            dds::describable(bytes)
        } else {
            tga::addressable(bytes)
        }
    }

    /// Whether a chain can be built under this, where it lacks one.
    pub fn takes_mips(&self) -> (r: bool)
        requires
            self@.wf(),
        ensures
            r == takes_mips(self@),
    {
        if self.levels.len() > 1 || self.format.unit_extent() != 1 {
            return true;
        }
        let width: u32 = self.width();
        let height: u32 = self.height();
        let count: u32 = mip_count(width, height);
        assert(is_full(width, height, count as nat));
        proof {
            assert forall|n: nat| is_full(width, height, n) implies n == count by {
                lemma_one_full_count(width, height, n, count as nat);
            }
            vstd::arithmetic::power2::lemma2_to64();
            if count > 1 {
                vstd::arithmetic::power2::lemma_pow2_pos((count - 1) as nat);
            }
            lemma_chain_grows(self.format, width as nat, height as nat, 1, count as nat);
            reveal_with_fuel(chain_bytes, 2);
        }
        if !((width >= 1 && height >= 1) || (width <= 1 && height <= 1)) {
            return false;
        }
        if !chain_fits(self.format, width, height, count) {
            return false;
        }
        assert(self.data@.len() == self.data.len());
        self.format.level_size(width, height) as usize <= self.data.len()
    }

    /// The same texture with a full mip chain built under it, for one that came without.
    ///
    /// Each level is the average of four texels of the one above. A texture that already has a
    /// chain, or whose format is compressed, comes back unchanged.
    pub fn with_mips(self) -> (r: Texture)
        requires
            self@.wf(),
            takes_mips(self@),
        ensures
            r@.wf(),
            is_mipped(self@, r@),
    {
        if self.levels.len() > 1 || self.format.unit_extent() != 1 {
            return self;
        }
        let width: u32 = self.width();
        let height: u32 = self.height();
        let count: u32 = mip_count(width, height);
        proof {
            assert(is_full(width, height, count as nat));
            vstd::arithmetic::power2::lemma2_to64();
            if width <= 1 && height <= 1 && count > 1 {
                vstd::arithmetic::power2::lemma_pow2_unfold((count - 1) as nat);
                vstd::arithmetic::power2::lemma_pow2_pos((count - 2) as nat);
            }
            lemma_chain_grows(
                self.format,
                width as nat,
                height as nat,
                1,
                count as nat,
            );
            reveal_with_fuel(chain_bytes, 2);
        }
        let size: u32 = self.format.level_size(width, height);
        let first: &[u8] = vstd::slice::slice_subrange(self.data.as_slice(), 0, size as usize);
        let (data, levels): (Vec<u8>, Vec<MipLevel>) = filter_chain(
            first,
            self.format,
            width,
            height,
            count,
        );
        assert(levels@.last() == levels@[count - 1]);
        Texture { format: self.format, data, levels }
    }

    /// The top level as `RGBA8`, whatever this is stored as.
    ///
    /// For inspection, not for rendering: every target samples the compressed formats natively.
    pub fn to_rgba8(&self) -> (r: Vec<u8>)
        requires
            self@.wf(),
            self@.holds(0),
            at_least_one(self@.width()) * at_least_one(self@.height()) * 4 <= u32::MAX,
        ensures
            r@ == expanded(self@),
    {
        expand(self)
    }

    /// The texture a finished shading map travels in, one encoded byte for each cell of its grid.
    ///
    /// A texture because that is how it reaches the renderer: an array that takes one per entry
    /// needs no binding, no format and no upload path of its own for a map.
    pub fn shading_map(encoded: &[u8]) -> (r: Texture)
        requires
            encoded@.len() == SIDE * SIDE,
        ensures
            r@.wf(),
            r@.format == TextureFormat::Rgba8,
            r@.data == grey_pixels(encoded@),
            r@.levels == seq![
                MipLevel { offset: 0, size: (SIDE * SIDE * 4) as u32, width: SIDE, height: SIDE },
            ],
    {
        proof {
            lemma_plain_bytes(TextureFormat::Rgba8, SIDE as nat, SIDE as nat);
        }
        Texture::from_pixels(TextureFormat::Rgba8, SIDE, SIDE, grey(encoded))
    }

    /// A shading map that changes nothing, for a material whose texture never loaded.
    ///
    /// Not the fallback an empty slot would hold, whose red channel is the top of the range: every
    /// untextured surface would be divided by two.
    pub fn neutral_shading() -> (r: Texture)
        ensures
            r@.wf(),
            r@.format == TextureFormat::Rgba8,
            r@.data == seq![NEUTRAL, NEUTRAL, NEUTRAL, 255u8],
            r@.levels == seq![MipLevel { offset: 0, size: 4, width: 1, height: 1 }],
    {
        let data: Vec<u8> = vec![NEUTRAL, NEUTRAL, NEUTRAL, 255];
        proof {
            lemma_plain_bytes(TextureFormat::Rgba8, 1, 1);
        }
        Texture::from_pixels(TextureFormat::Rgba8, 1, 1, data)
    }

    /// How the bytes are encoded.
    pub fn format(&self) -> (r: TextureFormat)
        ensures
            r == self@.format,
    {
        self.format
    }

    /// Width of the largest level.
    pub fn width(&self) -> (r: u32)
        requires
            self@.wf(),
        ensures
            r == self@.width(),
    {
        self.levels[0].width
    }

    /// Height of the largest level.
    pub fn height(&self) -> (r: u32)
        requires
            self@.wf(),
        ensures
            r == self@.height(),
    {
        self.levels[0].height
    }

    /// Every mip level, largest first.
    pub fn levels(&self) -> (r: &[MipLevel])
        ensures
            r@ == self@.levels,
    {
        self.levels.as_slice()
    }

    /// The whole chain's bytes, which the level table indexes into.
    pub fn data(&self) -> (r: &[u8])
        ensures
            r@ == self@.data,
    {
        self.data.as_slice()
    }

    /// The bytes of one level.
    pub fn level_data(&self, level: usize) -> (r: &[u8])
        requires
            self@.holds(level as int),
        ensures
            r@ == self@.level(level as int),
    {
        let level: MipLevel = self.levels[level];
        let start: usize = level.offset as usize;
        assert(self.data@.len() == self.data.len());
        let end: usize = start + level.size as usize;
        vstd::slice::slice_subrange(self.data.as_slice(), start, end)
    }
}

} // verus!
