use rtxmw::texture::format::{describe_levels, mip_count};
use rtxmw::texture::shading_map::{neighbours, samples, SampledColour, SHADING_SCALE, SIDE};
use rtxmw::texture::{MipLevel, Texture, TextureError, TextureFormat};

#[test]
fn block_formats_round_a_level_up_to_whole_blocks() {
    // 4x4 is exactly one block; anything smaller still costs a whole one.
    assert_eq!(TextureFormat::Bc1.level_size(4, 4), 8);
    assert_eq!(TextureFormat::Bc1.level_size(2, 2), 8);
    assert_eq!(TextureFormat::Bc1.level_size(1, 1), 8);
    // 256x256 is 64x64 blocks at 8 bytes each.
    assert_eq!(TextureFormat::Bc1.level_size(256, 256), 64 * 64 * 8);
    // BC2 is the same block count at twice the size.
    assert_eq!(TextureFormat::Bc2.level_size(256, 256), 64 * 64 * 16);
    // Non-multiples round up: 5 texels need two blocks.
    assert_eq!(TextureFormat::Bc1.level_size(5, 5), 2 * 2 * 8);

    // Uncompressed is one unit per texel.
    assert_eq!(TextureFormat::Bgra8.level_size(5, 5), 100);
}

#[test]
fn a_sheet_with_no_chain_gets_a_box_filtered_one() {
    // **Four texels averaging to one**, checked on a pattern whose answer is arithmetic: a 2x2
    // of 0, 100, 200 and 255 in every channel comes to 139 — `(555 + 2) / 4`.
    let pixels: Vec<u8> = [0u8, 100, 200, 255]
        .iter()
        .flat_map(|&v| [v, v, v, v])
        .collect();
    let flat = Texture::from_pixels(TextureFormat::Rgba8, 2, 2, pixels);
    assert_eq!(flat.levels().len(), 1, "the fixture starts with no chain");

    let mipped = flat.with_mips();
    assert_eq!(mipped.levels().len(), 2, "2x2 has one level under it");
    let one = mipped.levels()[1];
    assert_eq!((one.width, one.height), (1, 1));
    assert_eq!(&mipped.level_data(1)[..4], &[139, 139, 139, 139]);
    // The top level is untouched, which is the half a caller can least afford to lose.
    assert_eq!(&mipped.level_data(0)[..4], &[0, 0, 0, 0]);

    // **A chain that already exists is left alone**, and so is a block format, which would have
    // to be decoded and re-encoded to filter.
    assert_eq!(mipped.clone().with_mips().levels().len(), 2);
    let block = Texture::from_pixels(TextureFormat::Bc1, 4, 4, vec![0; 8]);
    assert_eq!(block.with_mips().levels().len(), 1);
}

#[test]
fn a_mip_chain_halves_to_one_texel_and_packs_end_to_end() {
    let levels = describe_levels(TextureFormat::Bgra8, 8, 4, 4);

    // 8x4, 4x2, 2x1, 1x1 — height floors at one and stays there while width keeps halving.
    assert_eq!(
        levels,
        vec![
            MipLevel {
                offset: 0,
                size: 128,
                width: 8,
                height: 4
            },
            MipLevel {
                offset: 128,
                size: 32,
                width: 4,
                height: 2
            },
            MipLevel {
                offset: 160,
                size: 8,
                width: 2,
                height: 1
            },
            MipLevel {
                offset: 168,
                size: 4,
                width: 1,
                height: 1
            },
        ]
    );
}

#[test]
fn a_texture_shorter_than_its_level_table_is_rejected() {
    let levels = describe_levels(TextureFormat::Bc1, 8, 8, 2);
    // 8x8 is 32 bytes, 4x4 is 8: the chain wants 40.
    assert_eq!(levels.iter().map(|l| l.size).sum::<u32>(), 40);

    let short = Texture::new(TextureFormat::Bc1, vec![0; 39], levels.clone());
    assert!(matches!(
        short,
        Err(TextureError::Truncated {
            wanted: 40,
            available: 39
        })
    ));
    let whole = Texture::new(TextureFormat::Bc1, vec![0; 40], levels).expect("fits");
    // The size comes from level zero rather than being carried alongside it, so the two cannot
    // drift apart.
    assert_eq!((whole.width(), whole.height()), (8, 8));
}

#[test]
fn a_full_chain_has_as_many_levels_as_the_longer_side_has_binary_digits() {
    assert_eq!(mip_count(0, 0), 1);
    assert_eq!(mip_count(1, 1), 1);
    assert_eq!(mip_count(2, 1), 2);
    assert_eq!(mip_count(255, 256), 9);
    assert_eq!(mip_count(u32::MAX, 1), 32);
}

#[test]
fn a_level_one_texel_across_is_filtered_against_its_own_edge() {
    // Three by one: the second texel of the level below covers the third texel twice over.
    let pixels = vec![10, 0, 0, 0, 20, 0, 0, 0, 41, 0, 0, 0];
    let mipped = Texture::from_pixels(TextureFormat::Rgba8, 3, 1, pixels).with_mips();
    assert_eq!(mipped.levels().len(), 2);
    assert_eq!(mipped.level_data(1), &[15, 0, 0, 0]);
}

/// Its inverse of the transfer a map is encoded through, which is what a sampler applies.
fn to_linear(encoded: f32) -> f32 {
    if encoded <= 0.040_45 {
        encoded / 12.92
    } else {
        ((encoded + 0.055) / 1.055).powf(2.4)
    }
}

#[test]
fn the_shader_scales_a_map_by_the_same_number_this_does() {
    // The shader spells this out, because it cannot see a host constant.
    assert_eq!(SHADING_SCALE as f32, 2.0);
}

#[test]
fn a_missing_texture_gets_a_map_that_changes_nothing() {
    // The array's own stand-in is magenta, whose red channel is the top of the range — so a
    // slot left empty would divide the surface by two rather than leave it alone.
    let values: Vec<f32> = Texture::neutral_shading()
        .data()
        .chunks_exact(4)
        .map(|texel| to_linear(f32::from(texel[0]) / 255.0) * SHADING_SCALE as f32)
        .collect();
    assert!(
        values.iter().all(|v| (v - 1.0).abs() < 0.01),
        "the neutral map is not neutral: {values:?}"
    );
}

#[test]
fn a_finished_map_is_an_opaque_grey_for_each_cell() {
    let mut encoded = vec![188u8; (SIDE * SIDE) as usize];
    encoded[33] = 7;
    let map = Texture::shading_map(&encoded);
    assert_eq!((map.width(), map.height()), (32, 32));
    assert_eq!(&map.data()[33 * 4..34 * 4], &[7, 7, 7, 255]);
    assert_eq!(&map.data()[..4], &[188, 188, 188, 255]);
}

#[test]
fn texels_are_sampled_into_the_cell_they_fall_in() {
    // Sixty-four across, so two texels to a cell in each direction.
    let mut data = vec![0u8; 64 * 64 * 4];
    let at = (3 * 64 + 5) * 4;
    data[at..at + 4].copy_from_slice(&[1, 2, 3, 4]);
    let texture = Texture::from_pixels(TextureFormat::Bgra8, 64, 64, data);
    let sampled = samples(&texture);
    assert_eq!(sampled.len(), 64 * 64);
    assert_eq!(sampled[3 * 64 + 5].cell, 32 + 2);
    assert!(matches!(
        sampled[3 * 64 + 5].colour,
        SampledColour::Texel([3, 2, 1])
    ));
}

#[test]
fn a_block_is_sampled_by_its_endpoints_and_choices() {
    let mut data = vec![0xFF, 0xFF, 0x00, 0x00];
    data.extend([0b11_10_01_00u8; 4]);
    data.extend([0u8; 8]);
    let texture = Texture::from_pixels(TextureFormat::Bc1, 8, 4, data);
    let sampled = samples(&texture);
    assert_eq!(sampled.len(), 2);
    assert_eq!((sampled[0].cell, sampled[1].cell), (0, 16));
    match sampled[0].colour {
        SampledColour::Block {
            first,
            second,
            four_colours,
            choices,
        } => {
            assert_eq!((first, second), ([255; 3], [0; 3]));
            assert!(four_colours);
            assert_eq!(&choices[..5], &[0, 1, 2, 3, 0]);
        }
        SampledColour::Texel(_) => panic!("a block is not a texel"),
    }
}

fn luminance(rgb: [u8; 3]) -> f32 {
    (0.2126 * f32::from(rgb[0]) + 0.7152 * f32::from(rgb[1]) + 0.0722 * f32::from(rgb[2])) / 255.0
}

/// How light one sample is.
fn lightness(colour: SampledColour) -> f32 {
    match colour {
        SampledColour::Texel(rgb) => luminance(rgb),
        SampledColour::Block {
            first,
            second,
            four_colours,
            choices,
        } => {
            let (a, b) = (luminance(first), luminance(second));
            let palette = if four_colours {
                [a, b, (2.0 * a + b) / 3.0, (a + 2.0 * b) / 3.0]
            } else {
                [a, b, (a + b) / 2.0, 0.0]
            };
            choices.iter().map(|c| palette[*c as usize]).sum::<f32>() / 16.0
        }
    }
}

/// The map a texture is de-lit with.
fn estimate(texture: &Texture) -> Texture {
    let cells = (SIDE * SIDE) as usize;
    let (mut total, mut count) = (vec![0.0f32; cells], vec![0u32; cells]);
    for sample in samples(texture) {
        total[sample.cell as usize] += lightness(sample.colour);
        count[sample.cell as usize] += 1;
    }
    let filled: Vec<f32> = (0..cells)
        .filter(|c| count[*c] > 0)
        .map(|c| total[c] / count[c] as f32)
        .collect();
    let mean = filled.iter().sum::<f32>() / filled.len().max(1) as f32;
    let mut grid: Vec<f32> = (0..cells)
        .map(|c| if count[c] == 0 { mean } else { total[c] / count[c] as f32 })
        .collect();
    for _ in 0..3 {
        grid = (0..cells)
            .map(|c| {
                let near = neighbours(c as u32);
                near.iter().map(|n| grid[*n as usize]).sum::<f32>() / near.len() as f32
            })
            .collect();
    }
    let mean = grid.iter().sum::<f32>() / cells as f32;
    let encoded: Vec<u8> = grid
        .iter()
        .map(|value| {
            let shading = if mean > 1e-4 { (value / mean).clamp(0.5, 2.0) } else { 1.0 };
            let linear = shading / SHADING_SCALE as f32;
            let srgb = if linear <= 0.003_130_8 {
                linear * 12.92
            } else {
                1.055 * linear.powf(1.0 / 2.4) - 0.055
            };
            (srgb * 255.0).round().clamp(0.0, 255.0) as u8
        })
        .collect();
    Texture::shading_map(&encoded)
}

/// A texture whose grey level at each texel is `shade(x, y)` on `0..1`.
fn grey(side: u32, shade: impl Fn(f32, f32) -> f32) -> Texture {
    let mut data = Vec::with_capacity((side * side * 4) as usize);
    for y in 0..side {
        for x in 0..side {
            let level = (shade(x as f32 / side as f32, y as f32 / side as f32) * 255.0)
                .clamp(0.0, 255.0) as u8;
            data.extend([level, level, level, 255]);
        }
    }
    Texture::from_pixels(TextureFormat::Rgba8, side, side, data)
}

/// The map's values as the multipliers they encode, decoded the way the sampler will.
fn shading(map: &Texture) -> Vec<f32> {
    map.data()
        .chunks_exact(4)
        .map(|texel| to_linear(f32::from(texel[0]) / 255.0) * SHADING_SCALE as f32)
        .collect()
}

fn furthest_from_neutral(texture: &Texture) -> f32 {
    shading(&estimate(texture))
        .iter()
        .map(|v| (v - 1.0).abs())
        .fold(0.0f32, f32::max)
}

#[test]
fn a_flat_texture_has_no_shading_to_remove() {
    for level in [0.05, 0.5, 0.95] {
        let worst = furthest_from_neutral(&grey(64, |_, _| level));
        assert!(worst < 0.01, "at {level}, up to {worst:.3} away from neutral");
    }
}

#[test]
fn a_painted_gradient_is_recovered_and_averages_to_neutral() {
    let values = shading(&estimate(&grey(64, |x, _| 0.25 + 0.5 * x)));
    let mean = values.iter().sum::<f32>() / values.len() as f32;
    assert!((mean - 1.0).abs() < 0.02, "the estimate averages {mean:.3}");
    let row = SIDE as usize / 2 * SIDE as usize;
    let (left, right) = (values[row + 2], values[row + SIDE as usize - 3]);
    assert!(right / left > 1.8, "recovered as {left:.3} to {right:.3}");
}

#[test]
fn painted_detail_is_left_alone() {
    let worst = furthest_from_neutral(&grey(64, |x, y| {
        let cell = |v: f32| (v * 32.0) as u32 % 2;
        if cell(x) == cell(y) {
            0.2
        } else {
            0.8
        }
    }));
    assert!(worst < 0.05, "up to {worst:.3} from neutral");
}

#[test]
fn a_texture_too_small_to_resolve_shading_comes_back_neutral() {
    for side in [1, 2, 8] {
        let worst = furthest_from_neutral(&grey(side, |_, _| 0.6));
        assert!(worst < 0.01, "{side}x{side}: up to {worst:.3} from neutral");
    }
}

#[test]
fn a_compressed_block_averages_its_palette() {
    let block_luminance = |block: Vec<u8>| {
        let texture = Texture::from_pixels(TextureFormat::Bc1, 4, 4, block);
        lightness(samples(&texture)[0].colour)
    };
    // Endpoints white and black, with the first above the second so the palette is the four-colour
    // one, and each index four times.
    let mut block = vec![0xFF, 0xFF, 0x00, 0x00];
    block.extend([0b11_10_01_00u8; 4]);
    let expected = (1.0 + 0.0 + 2.0 / 3.0 + 1.0 / 3.0) / 4.0;
    assert!((block_luminance(block) - expected).abs() < 0.01);

    // And the three-colour palette, where the fourth entry is transparent black.
    let mut cutout = vec![0x00, 0x00, 0xFF, 0xFF];
    cutout.extend([0b11_10_01_00u8; 4]);
    let expected = (0.0 + 1.0 + 0.5 + 0.0) / 4.0;
    assert!((block_luminance(cutout) - expected).abs() < 0.01);
}

#[test]
fn a_cell_is_averaged_with_those_about_it() {
    assert_eq!(neighbours(0), vec![0, 1, 32, 33]);
    assert_eq!(neighbours(33), vec![0, 1, 2, 32, 33, 34, 64, 65, 66]);
    assert_eq!(neighbours(31), vec![30, 31, 62, 63]);
    assert_eq!(neighbours(1023), vec![990, 991, 1022, 1023]);
}
