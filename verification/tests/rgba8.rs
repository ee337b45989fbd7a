use rtxmw::texture::rgba8::{endpoint, lerp, palette};
use rtxmw::texture::{Texture, TextureFormat};

/// One BC1 block: white and black endpoints, one texel of each palette entry per row.
fn block(first: u16, second: u16) -> Vec<u8> {
    let mut bytes = vec![
        (first & 0xFF) as u8,
        (first >> 8) as u8,
        (second & 0xFF) as u8,
        (second >> 8) as u8,
    ];
    // 0b11_10_01_00: indices 0, 1, 2, 3 across each row of four.
    bytes.extend([0b11_10_01_00u8; 4]);
    bytes
}

#[test]
fn a_bc1_block_expands_to_its_palette_in_order() {
    // White above black, so the four-colour palette: the endpoints and two thirds between them.
    let texture = Texture::from_pixels(TextureFormat::Bc1, 4, 4, block(0xFFFF, 0x0000));
    let rgba = texture.to_rgba8();
    let red = |texel: usize| rgba[texel * 4];
    assert_eq!(
        [red(0), red(1), red(2), red(3)],
        [255, 0, 170, 85],
        "the palette should run white, black, two thirds, one third"
    );
    assert!(
        rgba.chunks_exact(4).all(|t| t[3] == 255),
        "the four-colour mode has no transparent entry"
    );
    // Every row of the block chose the same indices, so every row expands the same way.
    assert_eq!(red(4), 255, "the second row should repeat the first");
}

#[test]
fn the_three_colour_mode_spells_alpha_with_its_fourth_entry() {
    // Black *below* white this time, which is the mode bit: the third entry becomes the
    // midpoint and the fourth is transparent rather than an interpolant.
    let texture = Texture::from_pixels(TextureFormat::Bc1, 4, 4, block(0x0000, 0xFFFF));
    let rgba = texture.to_rgba8();
    assert_eq!(
        [rgba[0], rgba[4], rgba[8]],
        [0, 255, 127],
        "the palette should run black, white, their midpoint"
    );
    assert_eq!(rgba[3 * 4 + 3], 0, "the fourth entry is transparent");
    assert_eq!(rgba[7], 255, "and the others are not");
}

#[test]
fn an_uncompressed_texture_comes_back_as_it_went_in() {
    // `Bgra8` is how a `.dds` stores it, and the swap is the only thing this does to it.
    let texture = Texture::from_pixels(TextureFormat::Bgra8, 1, 1, vec![10, 20, 30, 40]);
    assert_eq!(texture.to_rgba8(), vec![30, 20, 10, 40]);
    let texture = Texture::from_pixels(TextureFormat::Rgba8, 1, 1, vec![10, 20, 30, 40]);
    assert_eq!(texture.to_rgba8(), vec![10, 20, 30, 40]);
}

#[test]
fn a_bc2_block_carries_alpha_of_its_own() {
    let mut bytes = vec![0x10, 0x32, 0, 0, 0, 0, 0, 0xF0];
    bytes.extend(block(0x0000, 0xFFFF));
    let texture = Texture::from_pixels(TextureFormat::Bc2, 4, 4, bytes);
    let rgba = texture.to_rgba8();
    let alpha = |texel: usize| rgba[texel * 4 + 3];
    assert_eq!([alpha(0), alpha(1), alpha(2), alpha(3)], [0, 17, 34, 51]);
    assert_eq!(alpha(15), 255);
    // Its colour block never spends a slot on transparency, so the last entries are thirds.
    assert_eq!([rgba[0], rgba[4], rgba[8], rgba[12]], [0, 255, 85, 170]);
}

#[test]
fn a_level_that_is_not_whole_blocks_keeps_only_its_own_texels() {
    let mut bytes = block(0xFFFF, 0x0000);
    bytes.extend(block(0x0000, 0x0000));
    let texture = Texture::from_pixels(TextureFormat::Bc1, 5, 1, bytes);
    let rgba = texture.to_rgba8();
    assert_eq!(rgba.len(), 20);
    assert_eq!([rgba[0], rgba[4], rgba[8], rgba[12], rgba[16]], [255, 0, 170, 85, 0]);
}

#[test]
fn an_endpoint_reaches_full_scale_in_every_channel() {
    assert_eq!(endpoint(0xFFFF), [255, 255, 255]);
    assert_eq!(endpoint(0), [0, 0, 0]);
    assert_eq!(endpoint(1 << 11 | 1 << 5 | 1), [8, 4, 8]);
    assert_eq!(lerp([0, 90, 255], [255, 90, 0], 1, 3), [85, 90, 170]);
}

#[test]
fn a_palette_says_whether_its_fourth_colour_is_transparent() {
    assert!(!palette(&block(1, 0), false).1);
    assert!(palette(&block(0, 1), false).1);
    assert!(!palette(&block(0, 1), true).1);
    let (colours, transparent) = palette(&block(0, 0xFFFF), false);
    assert_eq!(colours, [[0, 0, 0], [255, 255, 255], [127, 127, 127], [0, 0, 0]]);
    assert!(transparent);
    let (colours, transparent) = palette(&block(0, 0xFFFF), true);
    assert_eq!(colours, [[0, 0, 0], [255, 255, 255], [85, 85, 85], [170, 170, 170]]);
    assert!(!transparent);
}
