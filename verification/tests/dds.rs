use rtxmw::texture::dds::{decode, describable, DATA_START};
use rtxmw::texture::{Texture, TextureError, TextureFormat};

/// Builds a minimal Direct3D 9 DDS around `payload`.
fn dds(width: u32, height: u32, mips: u32, fourcc: &[u8; 4], payload: &[u8]) -> Vec<u8> {
    let mut bytes = vec![0u8; DATA_START];
    bytes[..4].copy_from_slice(b"DDS ");
    bytes[4..8].copy_from_slice(&124u32.to_le_bytes());
    bytes[12..16].copy_from_slice(&height.to_le_bytes());
    bytes[16..20].copy_from_slice(&width.to_le_bytes());
    bytes[28..32].copy_from_slice(&mips.to_le_bytes());
    bytes[80..84].copy_from_slice(&4u32.to_le_bytes());
    bytes[84..88].copy_from_slice(fourcc);
    bytes.extend_from_slice(payload);
    bytes
}

/// The same around an uncompressed payload with the given masks.
fn plain(width: u32, height: u32, bits: u32, masks: [u32; 4], payload: &[u8]) -> Vec<u8> {
    let mut bytes = dds(width, height, 1, &[0; 4], payload);
    bytes[80..84].copy_from_slice(&0x41u32.to_le_bytes());
    bytes[88..92].copy_from_slice(&bits.to_le_bytes());
    for (index, mask) in masks.iter().enumerate() {
        let at = 92 + index * 4;
        bytes[at..at + 4].copy_from_slice(&mask.to_le_bytes());
    }
    bytes
}

const ARGB: [u32; 4] = [0x00FF_0000, 0x0000_FF00, 0x0000_00FF, 0xFF00_0000];

#[test]
fn a_dxt1_file_decodes_to_bc1_with_its_whole_chain() {
    // 8x8 then 4x4 then 2x2 then 1x1: 32 + 8 + 8 + 8 bytes.
    let payload = vec![0xABu8; 56];
    let texture = decode(&dds(8, 8, 4, b"DXT1", &payload)).expect("should decode");

    assert_eq!(texture.format(), TextureFormat::Bc1);
    assert_eq!((texture.width(), texture.height()), (8, 8));
    assert_eq!(texture.levels().len(), 4);
    assert_eq!(texture.level_data(0).len(), 32);
    assert_eq!(texture.level_data(3).len(), 8);
    assert_eq!(texture.data(), payload.as_slice());
}

#[test]
fn dxt3_is_bc2_and_costs_twice_as_much_per_block() {
    let texture = decode(&dds(4, 4, 1, b"DXT3", &[0u8; 16])).expect("should decode");
    assert_eq!(texture.format(), TextureFormat::Bc2);
    assert_eq!(texture.level_data(0).len(), 16);
}

#[test]
fn a_missing_mip_count_means_one_level_not_none() {
    // The game ships 364 files with the count left at zero.
    let texture = decode(&dds(4, 4, 0, b"DXT1", &[0u8; 8])).expect("should decode");
    assert_eq!(texture.levels().len(), 1);
}

#[test]
fn a_chain_longer_than_the_file_is_trimmed_rather_than_read_past() {
    // Declares four levels but only carries the first two.
    let texture = decode(&dds(8, 8, 4, b"DXT1", &[0u8; 40])).expect("should decode");
    assert_eq!(texture.levels().len(), 2);
    assert_eq!(texture.data().len(), 40);
}

#[test]
fn an_unknown_compression_scheme_names_itself() {
    let error = decode(&dds(4, 4, 1, b"DXT5", &[0u8; 16])).expect_err("should reject");
    assert!(matches!(error, TextureError::UnsupportedFourCc(f) if &f == b"DXT5"));
}

#[test]
fn a_truncated_header_is_rejected_before_any_field_is_read() {
    let error = decode(&[0u8; 64]).expect_err("should reject");
    assert!(matches!(
        error,
        TextureError::Truncated {
            wanted: 128,
            available: 64
        }
    ));
}

#[test]
fn a_file_without_its_first_level_is_truncated() {
    let error = decode(&dds(8, 8, 4, b"DXT1", &[0u8; 31])).expect_err("should reject");
    assert!(matches!(
        error,
        TextureError::Truncated {
            wanted: 32,
            available: 31
        }
    ));
}

#[test]
fn an_image_without_texels_is_rejected_whatever_its_format() {
    let error = decode(&dds(0, 8, 1, b"DXT5", &[])).expect_err("should reject");
    assert!(matches!(
        error,
        TextureError::EmptyImage {
            width: 0,
            height: 8
        }
    ));
}

#[test]
fn the_one_uncompressed_layout_is_blue_first() {
    let texture = decode(&plain(1, 1, 32, ARGB, &[1, 2, 3, 4])).expect("should decode");
    assert_eq!(texture.format(), TextureFormat::Bgra8);
    assert_eq!(texture.data(), &[1, 2, 3, 4]);
}

#[test]
fn another_channel_layout_reports_its_masks() {
    let masks = [0xF800, 0x07E0, 0x001F, 0];
    let error = decode(&plain(1, 1, 16, masks, &[1, 2])).expect_err("should reject");
    match error {
        TextureError::UnsupportedPixelFormat {
            bit_count,
            masks: found,
        } => {
            assert_eq!(bit_count, 16);
            assert_eq!(found, masks);
        }
        other => panic!("expected UnsupportedPixelFormat, got {other:?}"),
    }
}

#[test]
fn a_chain_past_thirty_two_bits_cannot_be_described() {
    assert!(describable(&dds(8, 8, 4, b"DXT1", &[])));
    assert!(!describable(&dds(u32::MAX, u32::MAX, 1, b"DXT1", &[])));
    assert!(!Texture::is_decodable(&dds(u32::MAX, u32::MAX, 1, b"DXT1", &[])));
}

#[test]
fn the_levels_of_a_decoded_file_cover_its_data() {
    let texture = Texture::decode(&dds(16, 4, 5, b"DXT1", &[7u8; 80])).expect("should decode");
    let mut cursor = 0;
    for level in texture.levels() {
        assert_eq!(level.offset, cursor);
        cursor += level.size;
    }
    assert_eq!(cursor as usize, texture.data().len());
}
