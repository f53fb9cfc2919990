use image_atlas::atlas::{block_texcoords, padded_texcoords, page_count};
use image_atlas::buffer::blit;
use image_atlas::dilate::{resample, source_coord};
use image_atlas::math::{ilog2, is_power_of_two};
use image_atlas::texcoords_by_key;
use image_atlas::{
    create_atlas, Atlas, AtlasDescriptor, AtlasEntry, AtlasEntryMipOption, AtlasError,
    AtlasMipFilter, AtlasMipOption, RgbImage, Texcoord, Texture,
};

fn solid(width: u32, height: u32, pixel: [u8; 3], mip: AtlasEntryMipOption) -> AtlasEntry {
    AtlasEntry {
        texture: RgbImage::from_pixel(width, height, pixel),
        mip,
    }
}

fn patterned(width: u32, height: u32, seed: u8) -> RgbImage {
    let mut pixels = Vec::new();
    for y in 0..height {
        for x in 0..width {
            pixels.push([seed, x as u8 * 10, y as u8 * 20]);
        }
    }
    RgbImage::from_raw(width, height, pixels).unwrap()
}

fn build(max_page_count: u32, size: u32, mip: AtlasMipOption, entries: &[AtlasEntry]) -> Result<Atlas, AtlasError> {
    create_atlas(&AtlasDescriptor {
        max_page_count,
        size,
        mip,
        entries,
    })
}

fn live_region(atlas: &Atlas, i: usize) -> Vec<[u8; 3]> {
    let t = atlas.texcoords[i];
    let image = &atlas.textures[t.page as usize].mip_maps[0];
    let mut pixels = Vec::new();
    for y in t.min_y..t.max_y {
        for x in t.min_x..t.max_x {
            pixels.push(image.get_pixel(x, y));
        }
    }
    pixels
}

#[test]
fn zero_max_page_count_comes_first() {
    let entries = [solid(4, 4, [1, 2, 3], AtlasEntryMipOption::Clamp)];
    let r = build(0, 100, AtlasMipOption::MipWithBlock(AtlasMipFilter::Nearest, 3), &entries);
    assert!(matches!(r, Err(AtlasError::ZeroMaxPageCount)));
}

#[test]
fn invalid_size_for_mip_chains() {
    let entries = [solid(4, 4, [1, 2, 3], AtlasEntryMipOption::Clamp)];
    let r = build(1, 100, AtlasMipOption::Mip(AtlasMipFilter::Nearest), &entries);
    assert!(matches!(r, Err(AtlasError::InvalidSize(100))));
    let r = build(1, 100, AtlasMipOption::MipWithBlock(AtlasMipFilter::Nearest, 3), &entries);
    assert!(matches!(r, Err(AtlasError::InvalidSize(100))));
    let r = build(1, 100, AtlasMipOption::NoMipWithPadding(2), &entries);
    assert!(r.is_ok());
}

#[test]
fn invalid_block_size() {
    let entries = [solid(4, 4, [1, 2, 3], AtlasEntryMipOption::Clamp)];
    let r = build(1, 128, AtlasMipOption::MipWithBlock(AtlasMipFilter::Nearest, 24), &entries);
    assert!(matches!(r, Err(AtlasError::InvalidBlockSize(24))));
    let r = build(1, 128, AtlasMipOption::MipWithBlock(AtlasMipFilter::Nearest, 0), &entries);
    assert!(matches!(r, Err(AtlasError::InvalidBlockSize(0))));
}

#[test]
fn zero_entry() {
    let r = build(1, 128, AtlasMipOption::NoMip, &[]);
    assert!(matches!(r, Err(AtlasError::ZeroEntry)));
}

#[test]
fn packing_fails_when_pages_run_out() {
    let entries = [
        solid(64, 64, [1, 0, 0], AtlasEntryMipOption::Clamp),
        solid(64, 64, [2, 0, 0], AtlasEntryMipOption::Clamp),
        solid(64, 64, [3, 0, 0], AtlasEntryMipOption::Clamp),
    ];
    let r = build(2, 64, AtlasMipOption::NoMip, &entries);
    assert!(matches!(r, Err(AtlasError::Packing(_))));
    let atlas = build(3, 64, AtlasMipOption::NoMip, &entries).unwrap();
    assert_eq!(atlas.page_count, 3);
    let too_big = [solid(65, 1, [1, 0, 0], AtlasEntryMipOption::Clamp)];
    assert!(matches!(build(8, 64, AtlasMipOption::NoMip, &too_big), Err(AtlasError::Packing(_))));
}

#[test]
fn mip_level_counts_follow_the_layout() {
    let entries = [solid(8, 8, [1, 2, 3], AtlasEntryMipOption::Repeat)];
    let count = |mip| build(1, 256, mip, &entries).unwrap().mip_level_count;
    assert_eq!(count(AtlasMipOption::NoMip), 1);
    assert_eq!(count(AtlasMipOption::NoMipWithPadding(4)), 1);
    assert_eq!(count(AtlasMipOption::Mip(AtlasMipFilter::Linear)), 9);
    assert_eq!(count(AtlasMipOption::MipWithPadding(AtlasMipFilter::Cubic, 4)), 9);
    assert_eq!(count(AtlasMipOption::MipWithBlock(AtlasMipFilter::Gaussian, 16)), 5);
    assert_eq!(count(AtlasMipOption::MipWithBlock(AtlasMipFilter::Gaussian, 1)), 1);
}

#[test]
fn textures_have_halving_levels() {
    let entries = [solid(8, 8, [9, 9, 9], AtlasEntryMipOption::Clamp)];
    let atlas = build(1, 64, AtlasMipOption::Mip(AtlasMipFilter::Nearest), &entries).unwrap();
    let texture = &atlas.textures[0];
    assert_eq!(texture.mip_level_count, 7);
    for (l, level) in texture.mip_maps.iter().enumerate() {
        assert_eq!(level.width, 64 >> l);
        assert_eq!(level.height, 64 >> l);
        assert_eq!(level.pixels.len(), (64 >> l) * (64 >> l));
    }
    let t = Texture::new(8, 4);
    let sizes: Vec<u32> = t.mip_maps.iter().map(|m| m.width).collect();
    assert_eq!(sizes, vec![8, 4, 2, 1]);
    assert!(t.mip_maps.iter().all(|m| m.pixels.iter().all(|p| *p == [0, 0, 0])));
}

#[test]
fn whole_page_chain_is_resampled() {
    let entries = [solid(64, 64, [200, 100, 50], AtlasEntryMipOption::Clamp)];
    let atlas = build(1, 64, AtlasMipOption::Mip(AtlasMipFilter::Nearest), &entries).unwrap();
    let level1 = &atlas.textures[0].mip_maps[1];
    assert_eq!(level1.pixels.len(), 32 * 32);
    assert!(level1.pixels.iter().all(|p| *p == [200, 100, 50]));
}

#[test]
fn block_chain_is_resampled_per_entry() {
    let entries = [solid(8, 8, [10, 20, 30], AtlasEntryMipOption::Repeat)];
    let atlas = build(1, 64, AtlasMipOption::MipWithBlock(AtlasMipFilter::Nearest, 8), &entries).unwrap();
    assert_eq!(atlas.mip_level_count, 4);
    // The entry takes 2x2 cells of 8: 16x16 pixels at level 0, 8x8 at level 1.
    let level1 = &atlas.textures[0].mip_maps[1];
    assert_eq!(level1.width, 32);
    for y in 0..32 {
        for x in 0..32 {
            let expected = if x < 8 && y < 8 { [10, 20, 30] } else { [0, 0, 0] };
            assert_eq!(level1.get_pixel(x, y), expected);
        }
    }
}

#[test]
fn padded_texcoord_trims_padding() {
    let entries = [solid(10, 20, [1, 1, 1], AtlasEntryMipOption::Clamp)];
    let atlas = build(1, 64, AtlasMipOption::NoMipWithPadding(4), &entries).unwrap();
    assert_eq!(
        atlas.texcoords[0],
        Texcoord { page: 0, min_x: 4, min_y: 4, max_x: 14, max_y: 24, size: 64 }
    );
    let placed = padded_texcoords(&entries, &vec![(2, 30, 7)], 4, 64);
    assert_eq!(
        placed[0],
        Texcoord { page: 2, min_x: 34, min_y: 11, max_x: 44, max_y: 31, size: 64 }
    );
}

#[test]
fn block_texcoord_uses_the_entry_size() {
    let entries = [solid(8, 8, [1, 1, 1], AtlasEntryMipOption::Clamp)];
    let atlas = build(1, 256, AtlasMipOption::MipWithBlock(AtlasMipFilter::Lanczos3, 32), &entries).unwrap();
    assert_eq!(
        atlas.texcoords[0],
        Texcoord { page: 0, min_x: 16, min_y: 16, max_x: 24, max_y: 24, size: 256 }
    );
    let placed = block_texcoords(&entries, &vec![(1, 3, 5)], 32, 256);
    assert_eq!(
        placed[0],
        Texcoord { page: 1, min_x: 112, min_y: 176, max_x: 120, max_y: 184, size: 256 }
    );
}

#[test]
fn page_count_is_one_past_the_highest_page() {
    assert_eq!(page_count(&vec![(0, 0, 0), (2, 5, 5), (1, 9, 9)]), 3);
    assert_eq!(page_count(&vec![]), 0);
}

#[test]
fn texcoords_lie_inside_their_pages() {
    let entries = [
        solid(40, 30, [1, 0, 0], AtlasEntryMipOption::Clamp),
        solid(33, 17, [2, 0, 0], AtlasEntryMipOption::Repeat),
        solid(5, 60, [3, 0, 0], AtlasEntryMipOption::Mirror),
    ];
    for mip in [
        AtlasMipOption::NoMip,
        AtlasMipOption::NoMipWithPadding(2),
        AtlasMipOption::Mip(AtlasMipFilter::Nearest),
        AtlasMipOption::MipWithPadding(AtlasMipFilter::Linear, 1),
        AtlasMipOption::MipWithBlock(AtlasMipFilter::Nearest, 4),
    ] {
        let atlas = build(3, 64, mip, &entries).unwrap();
        assert!(atlas.page_count >= 1 && atlas.page_count <= 3);
        assert_eq!(atlas.texcoords.len(), 3);
        for (t, e) in atlas.texcoords.iter().zip(entries.iter()) {
            assert!(t.page < atlas.page_count);
            assert!(t.min_x < t.max_x && t.max_x <= 64);
            assert!(t.min_y < t.max_y && t.max_y <= 64);
            assert_eq!(t.max_x - t.min_x, e.texture.width);
            assert_eq!(t.max_y - t.min_y, e.texture.height);
        }
    }
}

#[test]
fn level0_is_the_same_under_every_layout() {
    let entries = [
        AtlasEntry { texture: patterned(5, 7, 1), mip: AtlasEntryMipOption::Clamp },
        AtlasEntry { texture: patterned(9, 3, 2), mip: AtlasEntryMipOption::Repeat },
        AtlasEntry { texture: patterned(4, 4, 3), mip: AtlasEntryMipOption::Mirror },
    ];
    let layouts = [
        AtlasMipOption::NoMip,
        AtlasMipOption::NoMipWithPadding(3),
        AtlasMipOption::Mip(AtlasMipFilter::Linear),
        AtlasMipOption::MipWithPadding(AtlasMipFilter::Cubic, 2),
        AtlasMipOption::MipWithBlock(AtlasMipFilter::Gaussian, 8),
    ];
    for mip in layouts {
        let atlas = build(1, 64, mip, &entries).unwrap();
        assert_eq!(live_region(&atlas, 0), entries[0].texture.pixels);
        assert_eq!(live_region(&atlas, 1), entries[1].texture.pixels);
        // Mirror reflects tile 0, so the entry shows reflected on both axes.
        let mut mirrored = Vec::new();
        for y in 0..4 {
            for x in 0..4 {
                mirrored.push(entries[2].texture.get_pixel(3 - x, 3 - y));
            }
        }
        assert_eq!(live_region(&atlas, 2), mirrored);
    }
}

#[test]
fn building_twice_gives_the_same_atlas() {
    let entries = [
        AtlasEntry { texture: patterned(12, 7, 1), mip: AtlasEntryMipOption::Repeat },
        AtlasEntry { texture: patterned(6, 9, 2), mip: AtlasEntryMipOption::Mirror },
    ];
    let mip = AtlasMipOption::MipWithBlock(AtlasMipFilter::Lanczos3, 8);
    let a = build(2, 64, mip, &entries).unwrap();
    let b = build(2, 64, mip, &entries).unwrap();
    assert_eq!(a.page_count, b.page_count);
    assert_eq!(a.mip_level_count, b.mip_level_count);
    assert_eq!(a.texcoords, b.texcoords);
    for (ta, tb) in a.textures.iter().zip(b.textures.iter()) {
        assert_eq!(ta.mip_maps, tb.mip_maps);
    }
}

#[test]
fn repeat_dilation_wraps_euclidean() {
    let src = patterned(3, 2, 7);
    let out = resample(&src, AtlasEntryMipOption::Repeat, 2, 2, 7, 6);
    assert_eq!(out.width, 7);
    assert_eq!(out.height, 6);
    for y in 0..6i32 {
        for x in 0..7i32 {
            let sx = (x - 2).rem_euclid(3) as u32;
            let sy = (y - 2).rem_euclid(2) as u32;
            assert_eq!(out.get_pixel(x as u32, y as u32), src.get_pixel(sx, sy));
        }
    }
    assert_eq!(out.get_pixel(0, 0), src.get_pixel(1, 0));
}

#[test]
fn mirror_dilation_reflects_even_tiles() {
    // dim 4, margin 4: tile -1 covers 0..4, tile 0 covers 4..8, tile 1 covers 8..12.
    let coords: Vec<u32> = (0..12).map(|c| source_coord(AtlasEntryMipOption::Mirror, c, 4, 4)).collect();
    assert_eq!(coords, vec![0, 1, 2, 3, 3, 2, 1, 0, 0, 1, 2, 3]);
    let src = patterned(2, 1, 5);
    let out = resample(&src, AtlasEntryMipOption::Mirror, 2, 0, 6, 1);
    let expected: Vec<[u8; 3]> = [0, 1, 1, 0, 0, 1].iter().map(|&x| src.get_pixel(x, 0)).collect();
    assert_eq!(out.pixels, expected);
}

#[test]
fn clamp_dilation_repeats_edges() {
    let coords: Vec<u32> = (0..8).map(|c| source_coord(AtlasEntryMipOption::Clamp, c, 2, 3)).collect();
    assert_eq!(coords, vec![0, 0, 0, 1, 2, 2, 2, 2]);
}

#[test]
fn blit_overwrites_only_its_rectangle() {
    let mut target = RgbImage::new(4, 4);
    let src = RgbImage::from_pixel(2, 3, [255, 255, 255]);
    blit(&mut target, &src, 1, 1);
    for y in 0..4 {
        for x in 0..4 {
            let inside = (1..3).contains(&x) && (1..4).contains(&y);
            let expected = if inside { [255, 255, 255] } else { [0, 0, 0] };
            assert_eq!(target.get_pixel(x, y), expected);
        }
    }
}

#[test]
fn powers_of_two_and_logarithms() {
    assert!(is_power_of_two(1));
    assert!(is_power_of_two(2048));
    assert!(!is_power_of_two(0));
    assert!(!is_power_of_two(24));
    assert_eq!(ilog2(1), 0);
    assert_eq!(ilog2(2048), 11);
    assert_eq!(ilog2(2049), 11);
    assert_eq!(ilog2(u32::MAX), 31);
}

#[test]
fn raw_images_need_one_pixel_per_position() {
    assert!(RgbImage::from_raw(2, 2, vec![[0, 0, 0]; 3]).is_none());
    let image = RgbImage::from_raw(2, 1, vec![[1, 2, 3], [4, 5, 6]]).unwrap();
    assert_eq!(image.get_pixel(1, 0), [4, 5, 6]);
}

#[test]
fn texcoords_can_be_looked_up_by_key() {
    let entries = [
        solid(4, 4, [1, 0, 0], AtlasEntryMipOption::Clamp),
        solid(6, 2, [2, 0, 0], AtlasEntryMipOption::Clamp),
    ];
    let atlas = build(1, 64, AtlasMipOption::NoMip, &entries).unwrap();
    let map = texcoords_by_key(&[70, 12], &atlas.texcoords);
    assert_eq!(map.len(), 2);
    assert_eq!(map[&70], atlas.texcoords[0]);
    assert_eq!(map[&12], atlas.texcoords[1]);
    let shared = texcoords_by_key(&[5, 5], &atlas.texcoords);
    assert_eq!(shared.len(), 1);
    assert_eq!(shared[&5], atlas.texcoords[1]);
}
