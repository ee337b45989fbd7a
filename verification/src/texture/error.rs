//! What can go wrong turning file bytes into a texture.

use vstd::prelude::*;

verus! {

/// Anything that can go wrong turning file bytes into a texture.
#[derive(Debug)]
pub enum TextureError {
    /// The file ends before the header or pixel data it declares.
    Truncated { wanted: usize, available: usize },
    /// A DDS compression scheme this decoder does not handle.
    UnsupportedFourCc([u8; 4]),
    /// An uncompressed DDS layout other than `A8R8G8B8`, with its red, green, blue and alpha masks.
    UnsupportedPixelFormat { bit_count: u32, masks: [u32; 4] },
    /// A TGA image type or depth this decoder does not handle.
    UnsupportedTga { image_type: u8, bits: u8 },
    /// A header declaring no pixels at all.
    EmptyImage { width: u32, height: u32 },
}

} // verus!
