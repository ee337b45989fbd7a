//! Reading Direct3D 9 `.dds` files, which is nearly everything the game ships.

use super::error::TextureError;
use super::format::{
    chain_bytes, describe_levels, is_chain, lemma_chain_grows, level_bytes, MipLevel, TextureFormat,
};
use super::texture::{Texture, TextureModel};
use crate::bytes::{le32, read_le32};
use vstd::prelude::*;

verus! {

/// Magic plus a 124-byte header; pixel data follows immediately.
pub const DATA_START: usize = 128;

/// Whether `b` starts with the four bytes every DDS starts with.
pub open spec fn has_magic(b: Seq<u8>) -> bool {
    &&& b.len() >= 4
    &&& b[0] == 0x44
    &&& b[1] == 0x44
    &&& b[2] == 0x53
    &&& b[3] == 0x20
}

/// Whether a file starts with the four bytes every DDS starts with.
pub fn starts_with_magic(bytes: &[u8]) -> (r: bool)
    ensures
        r == has_magic(bytes@),
{
    bytes.len() >= 4 && bytes[0] == 0x44 && bytes[1] == 0x44 && bytes[2] == 0x53 && bytes[3] == 0x20
}

/// Height of the largest level.
pub open spec fn dds_height(b: Seq<u8>) -> u32 {
    le32(b, 12) as u32
}

/// Width of the largest level.
pub open spec fn dds_width(b: Seq<u8>) -> u32 {
    le32(b, 16) as u32
}

/// How many levels the header declares; none declared is one level rather than none.
pub open spec fn dds_mips(b: Seq<u8>) -> nat {
    if le32(b, 28) == 0 {
        1
    } else {
        le32(b, 28) as nat
    }
}

/// Whether the pixel format names a compression scheme rather than channel masks.
pub open spec fn names_scheme(b: Seq<u8>) -> bool {
    (le32(b, 80) / 4) % 2 == 1
}

/// Whether the scheme named is `DXT1`.
pub open spec fn is_dxt1(b: Seq<u8>) -> bool {
    b[84] == 0x44 && b[85] == 0x58 && b[86] == 0x54 && b[87] == 0x31
}

/// Whether the scheme named is `DXT3`.
pub open spec fn is_dxt3(b: Seq<u8>) -> bool {
    b[84] == 0x44 && b[85] == 0x58 && b[86] == 0x54 && b[87] == 0x33
}

/// Whether the masks describe 32-bit `A8R8G8B8`, the one uncompressed layout that is read.
pub open spec fn is_argb(b: Seq<u8>) -> bool {
    &&& le32(b, 88) == 32
    &&& le32(b, 92) == 0x00FF_0000
    &&& le32(b, 96) == 0x0000_FF00
    &&& le32(b, 100) == 0x0000_00FF
    &&& le32(b, 104) == 0xFF00_0000
}

/// The format a header describes, where it is one that is read.
pub open spec fn dds_format(b: Seq<u8>) -> Option<TextureFormat> {
    if names_scheme(b) {
        if is_dxt1(b) {
            Some(TextureFormat::Bc1)
        } else if is_dxt3(b) {
            Some(TextureFormat::Bc2)
        } else {
            None
        }
    } else if is_argb(b) {
        Some(TextureFormat::Bgra8)
    } else {
        None
    }
}

/// Whether the header describes an image that is read: whole, not empty, in a known format.
pub open spec fn dds_readable(b: Seq<u8>) -> bool {
    &&& b.len() >= DATA_START
    &&& dds_width(b) != 0
    &&& dds_height(b) != 0
    &&& dds_format(b) is Some
}

/// Whether the chain a readable header declares can be described in a 32-bit level table.
pub open spec fn dds_describable(b: Seq<u8>) -> bool {
    dds_readable(b) ==> chain_bytes(
        dds_format(b)->0,
        dds_width(b) as nat,
        dds_height(b) as nat,
        dds_mips(b),
    ) <= u32::MAX
}

/// Whether `kept` of the `declared` levels is what `available` bytes leave of a chain: as many as
/// are there in full, and the first one in any case.
pub open spec fn is_kept(
    format: TextureFormat,
    width: nat,
    height: nat,
    declared: nat,
    available: nat,
    kept: nat,
) -> bool {
    &&& 1 <= kept <= declared
    &&& kept == 1 || chain_bytes(format, width, height, kept) <= available
    &&& kept < declared ==> chain_bytes(format, width, height, kept + 1) > available
}

/// What a DDS image decodes to.
///
/// The first of these that applies: a file shorter than its header, an image with no texels, a
/// compression scheme or a channel layout that is not read, a file that does not hold even its first
/// level, and otherwise the texture made of every level the file holds in full.
pub open spec fn dds_decodes_to(b: Seq<u8>, r: Result<TextureModel, TextureError>) -> bool {
    if b.len() < DATA_START {
        r == Err::<TextureModel, TextureError>(
            TextureError::Truncated { wanted: DATA_START, available: b.len() as usize },
        )
    } else if dds_width(b) == 0 || dds_height(b) == 0 {
        r == Err::<TextureModel, TextureError>(
            TextureError::EmptyImage { width: dds_width(b), height: dds_height(b) },
        )
    } else if dds_format(b) is None {
        if names_scheme(b) {
            &&& r matches Err(TextureError::UnsupportedFourCc(code))
            &&& code@ == b.subrange(84, 88)
        } else {
            &&& r matches Err(TextureError::UnsupportedPixelFormat { bit_count, masks })
            &&& bit_count == le32(b, 88)
            &&& masks@ == seq![
                le32(b, 92) as u32,
                le32(b, 96) as u32,
                le32(b, 100) as u32,
                le32(b, 104) as u32,
            ]
        }
    } else {
        let format = dds_format(b)->0;
        let width = dds_width(b) as nat;
        let height = dds_height(b) as nat;
        let available = (b.len() - DATA_START) as nat;
        if level_bytes(format, width, height) > available {
            r == Err::<TextureModel, TextureError>(
                TextureError::Truncated {
                    wanted: level_bytes(format, width, height) as usize,
                    available: available as usize,
                },
            )
        } else {
            &&& r matches Ok(texture)
            &&& texture.format == format
            &&& is_kept(format, width, height, dds_mips(b), available, texture.levels.len())
            &&& is_chain(format, width, height, texture.levels)
            &&& texture.data == b.subrange(
                DATA_START as int,
                DATA_START + chain_bytes(format, width, height, texture.levels.len()),
            )
        }
    }
}

/// The model of a decoded texture, or the error in its place.
pub open spec fn modelled(r: Result<Texture, TextureError>) -> Result<TextureModel, TextureError> {
    match r {
        Ok(texture) => Ok(texture@),
        Err(error) => Err(error),
    }
}

/// The first `count` bytes of `b` from `start`, as a buffer of their own.
fn copied(b: &[u8], start: usize, count: usize) -> (r: Vec<u8>)
    requires
        start + count <= b@.len(),
    ensures
        r@ == b@.subrange(start as int, start + count),
{
    let mut r: Vec<u8> = Vec::with_capacity(count);
    assert(b@.len() == b.len());
    r.extend_from_slice(vstd::slice::slice_subrange(b, start, start + count));
    r
}

/// The format a header describes, or why it is not read.
fn header_format(bytes: &[u8]) -> (r: Result<TextureFormat, TextureError>)
    requires
        bytes@.len() >= DATA_START,
    ensures
        match r {
            Ok(format) => dds_format(bytes@) == Some(format),
            Err(error) => {
                &&& dds_format(bytes@) is None
                &&& if names_scheme(bytes@) {
                    &&& error matches TextureError::UnsupportedFourCc(code)
                    &&& code@ == bytes@.subrange(84, 88)
                } else {
                    &&& error matches TextureError::UnsupportedPixelFormat { bit_count, masks }
                    &&& bit_count == le32(bytes@, 88)
                    &&& masks@ == seq![
                        le32(bytes@, 92) as u32,
                        le32(bytes@, 96) as u32,
                        le32(bytes@, 100) as u32,
                        le32(bytes@, 104) as u32,
                    ]
                }
            },
        },
{
    let flags: u32 = read_le32(bytes, 80);
    if (flags / 4) % 2 == 1 {
        let code: [u8; 4] = [bytes[84], bytes[85], bytes[86], bytes[87]];
        if code[0] == 0x44 && code[1] == 0x58 && code[2] == 0x54 && code[3] == 0x31 {
            Ok(TextureFormat::Bc1)
        } else if code[0] == 0x44 && code[1] == 0x58 && code[2] == 0x54 && code[3] == 0x33 {
            Ok(TextureFormat::Bc2)
        } else {
            assert(code@ =~= bytes@.subrange(84, 88));
            Err(TextureError::UnsupportedFourCc(code))
        }
    } else {
        let bit_count: u32 = read_le32(bytes, 88);
        let red: u32 = read_le32(bytes, 92);
        let green: u32 = read_le32(bytes, 96);
        let blue: u32 = read_le32(bytes, 100);
        let alpha: u32 = read_le32(bytes, 104);
        if bit_count != 32 || red != 0x00FF_0000 || green != 0x0000_FF00 || blue != 0x0000_00FF
            || alpha != 0xFF00_0000 {
            let masks: [u32; 4] = [red, green, blue, alpha];
            assert(masks@ =~= seq![red, green, blue, alpha]);
            Err(TextureError::UnsupportedPixelFormat { bit_count, masks })
        } else {
            Ok(TextureFormat::Bgra8)
        }
    }
}

/// The levels of a declared chain that `available` bytes leave.
fn kept_levels(
    format: TextureFormat,
    width: u32,
    height: u32,
    declared: u32,
    available: usize,
) -> (levels: Vec<MipLevel>)
    requires
        declared >= 1,
        chain_bytes(format, width as nat, height as nat, declared as nat) <= u32::MAX,
    ensures
        is_chain(format, width as nat, height as nat, levels@),
        is_kept(
            format,
            width as nat,
            height as nat,
            declared as nat,
            available as nat,
            levels@.len(),
        ),
{
    let mut levels: Vec<MipLevel> = describe_levels(format, width, height, declared);
    while levels.len() > 1 && levels[levels.len() - 1].offset as u64 + levels[levels.len()
        - 1].size as u64 > available as u64
        invariant
            1 <= levels@.len() <= declared,
            is_chain(format, width as nat, height as nat, levels@),
            levels@.len() < declared ==> chain_bytes(
                format,
                width as nat,
                height as nat,
                levels@.len() + 1,
            ) > available,
        decreases levels@.len(),
    {
        levels.pop();
    }
    levels
}

/// Reads the levels of a known chain out of a file, leaving out those it does not hold in full.
fn decode_chain(
    bytes: &[u8],
    format: TextureFormat,
    width: u32,
    height: u32,
    declared: u32,
) -> (r: Result<Texture, TextureError>)
    requires
        bytes@.len() >= DATA_START,
        declared >= 1,
        chain_bytes(format, width as nat, height as nat, declared as nat) <= u32::MAX,
    ensures
        ({
            let (w, h) = (width as nat, height as nat);
            let available = (bytes@.len() - DATA_START) as nat;
            if level_bytes(format, w, h) > available {
                r == Err::<Texture, TextureError>(
                    TextureError::Truncated {
                        wanted: level_bytes(format, w, h) as usize,
                        available: available as usize,
                    },
                )
            } else {
                &&& r matches Ok(texture)
                &&& texture@.format == format
                &&& is_kept(format, w, h, declared as nat, available, texture@.levels.len())
                &&& is_chain(format, w, h, texture@.levels)
                &&& texture@.data == bytes@.subrange(
                    DATA_START as int,
                    DATA_START + chain_bytes(format, w, h, texture@.levels.len()),
                )
                &&& texture@.wf()
            }
        }),
{
    let available: usize = bytes.len() - DATA_START;
    let levels: Vec<MipLevel> = kept_levels(format, width, height, declared, available);
    let ghost (w, h) = (width as nat, height as nat);
    let ghost kept = levels@.len();
    proof {
        lemma_chain_grows(format, w, h, kept, declared as nat);
        lemma_chain_grows(format, w, h, 1, kept);
        lemma_first_level(format, w, h);
    }
    let last: MipLevel = levels[levels.len() - 1];
    assert(last.offset + last.size == chain_bytes(format, w, h, kept));
    let end: u32 = last.offset + last.size;
    let held: usize = if end as u64 <= available as u64 { end as usize } else { available };
    let data: Vec<u8> = copied(bytes, DATA_START, held);
    Texture::new(format, data, levels)
}

/// A chain of one level is that level.
proof fn lemma_first_level(format: TextureFormat, width: nat, height: nat)
    ensures
        chain_bytes(format, width, height, 1) == level_bytes(format, width, height),
{
    reveal_with_fuel(chain_bytes, 2);
}

/// Decodes a DDS into its whole mip chain.
///
/// Only the Direct3D 9 header is read. A file may hold fewer levels than it declares; the ones it
/// does not hold in full are left out, and one that does not hold its first level is an error.
pub fn decode(bytes: &[u8]) -> (r: Result<Texture, TextureError>)
    requires
        dds_describable(bytes@),
    ensures
        dds_decodes_to(bytes@, modelled(r)),
        r matches Ok(texture) ==> texture@.wf(),
{
    if bytes.len() < DATA_START {
        return Err(TextureError::Truncated { wanted: DATA_START, available: bytes.len() });
    }
    let height: u32 = read_le32(bytes, 12);
    let width: u32 = read_le32(bytes, 16);
    let stored_mips: u32 = read_le32(bytes, 28);
    let declared: u32 = if stored_mips == 0 { 1 } else { stored_mips };
    if width == 0 || height == 0 {
        return Err(TextureError::EmptyImage { width, height });
    }
    let format: TextureFormat = match header_format(bytes) {
        Ok(format) => format,
        Err(error) => return Err(error),
    };
    assert(dds_readable(bytes@));
    decode_chain(bytes, format, width, height, declared)
}

/// Whether the chain a DDS header declares can be described in a 32-bit level table.
pub fn describable(bytes: &[u8]) -> (r: bool)
    ensures
        r == dds_describable(bytes@),
{
    if bytes.len() < DATA_START {
        return true;
    }
    let height: u32 = read_le32(bytes, 12);
    let width: u32 = read_le32(bytes, 16);
    let stored_mips: u32 = read_le32(bytes, 28);
    let declared: u32 = if stored_mips == 0 { 1 } else { stored_mips };
    if width == 0 || height == 0 {
        return true;
    }
    let format: TextureFormat = match header_format(bytes) {
        Ok(format) => format,
        Err(_) => return true,
    };
    super::format::chain_fits(format, width, height, declared)
}

} // verus!
