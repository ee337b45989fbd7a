use rtxmw::texture::tga::{addressable, decode, HEADER};
use rtxmw::texture::{Texture, TextureError, TextureFormat};

const TOP_ORIGIN: u8 = 0x20;

/// A `width` x `height` uncompressed TGA whose texels are blue-green-red as stored.
fn tga(width: u16, height: u16, descriptor: u8, texels: &[[u8; 3]]) -> Vec<u8> {
    let mut bytes = vec![0u8; HEADER];
    bytes[2] = 2;
    bytes[12..14].copy_from_slice(&width.to_le_bytes());
    bytes[14..16].copy_from_slice(&height.to_le_bytes());
    bytes[16] = 24;
    bytes[17] = descriptor;
    for texel in texels {
        bytes.extend_from_slice(texel);
    }
    bytes
}

#[test]
fn stored_bgr_comes_out_rgba_with_opaque_alpha() {
    // One texel stored blue=1, green=2, red=3.
    let texture = decode(&tga(1, 1, TOP_ORIGIN, &[[1, 2, 3]])).expect("should decode");
    assert_eq!(texture.format(), TextureFormat::Rgba8);
    assert_eq!(texture.data(), &[3, 2, 1, 255]);
}

#[test]
fn a_bottom_origin_image_is_flipped_to_top_first() {
    // Two rows of one texel: red then green as stored, bottom row first.
    let bottom_first = tga(1, 2, 0, &[[0, 0, 0xFF], [0, 0xFF, 0]]);
    let texture = decode(&bottom_first).expect("should decode");
    // Row zero of the result must be the *last* row stored.
    assert_eq!(&texture.data()[..4], &[0, 0xFF, 0, 255]);
    assert_eq!(&texture.data()[4..], &[0xFF, 0, 0, 255]);

    // The same texels declared top-first must come back in the order they were written.
    let top_first = tga(1, 2, TOP_ORIGIN, &[[0, 0, 0xFF], [0, 0xFF, 0]]);
    let texture = decode(&top_first).expect("should decode");
    assert_eq!(&texture.data()[..4], &[0xFF, 0, 0, 255]);
}

#[test]
fn run_length_encoding_is_rejected_rather_than_misread() {
    let mut bytes = tga(1, 1, TOP_ORIGIN, &[[1, 2, 3]]);
    bytes[2] = 10; // RLE true colour.
    let error = decode(&bytes).expect_err("should reject");
    assert!(matches!(
        error,
        TextureError::UnsupportedTga {
            image_type: 10,
            bits: 24
        }
    ));
}

#[test]
fn a_short_pixel_block_is_rejected() {
    let mut bytes = tga(4, 4, TOP_ORIGIN, &[]);
    bytes.extend_from_slice(&[0u8; 8]);
    let error = decode(&bytes).expect_err("should reject");
    assert!(matches!(error, TextureError::Truncated { wanted: 66, .. }));
}

#[test]
fn a_short_header_is_rejected() {
    let error = decode(&[0u8; 17]).expect_err("should reject");
    assert!(matches!(
        error,
        TextureError::Truncated {
            wanted: 18,
            available: 17
        }
    ));
}

#[test]
fn a_colour_map_and_an_odd_depth_are_rejected() {
    let mut mapped = tga(1, 1, 0, &[[1, 2, 3]]);
    mapped[1] = 1;
    assert!(matches!(
        decode(&mapped),
        Err(TextureError::UnsupportedTga {
            image_type: 2,
            bits: 24
        })
    ));
    let mut shallow = tga(1, 1, 0, &[[1, 2, 3]]);
    shallow[16] = 16;
    assert!(matches!(
        decode(&shallow),
        Err(TextureError::UnsupportedTga {
            image_type: 2,
            bits: 16
        })
    ));
}

#[test]
fn an_image_with_no_rows_is_empty() {
    assert!(matches!(
        decode(&tga(3, 0, 0, &[])),
        Err(TextureError::EmptyImage {
            width: 3,
            height: 0
        })
    ));
}

#[test]
fn a_thirty_two_bit_image_keeps_its_alpha_and_skips_its_id() {
    let mut bytes = tga(1, 1, TOP_ORIGIN, &[]);
    bytes[0] = 2;
    bytes[16] = 32;
    bytes.extend_from_slice(&[9, 9, 1, 2, 3, 4]);
    let texture = decode(&bytes).expect("should decode");
    assert_eq!(texture.data(), &[3, 2, 1, 4]);
    assert_eq!(texture.levels()[0].size, 4);
}

#[test]
fn a_file_without_the_dds_magic_is_read_as_a_tga() {
    let bytes = tga(1, 1, TOP_ORIGIN, &[[1, 2, 3]]);
    assert!(addressable(&bytes) && Texture::is_decodable(&bytes));
    let texture = Texture::decode(&bytes).expect("should decode");
    assert_eq!(texture.data(), &[3, 2, 1, 255]);
}
