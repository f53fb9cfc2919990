use image_atlas::{
    create_atlas, Atlas, AtlasDescriptor, AtlasEntry, AtlasEntryMipOption, AtlasError,
    AtlasMipFilter, AtlasMipOption, RgbImage, Texcoord,
};

fn entry(width: u32, height: u32, pixel: [u8; 3], mip: AtlasEntryMipOption) -> AtlasEntry {
    AtlasEntry {
        texture: RgbImage::from_pixel(width, height, pixel),
        mip,
    }
}

fn six_entries() -> Vec<AtlasEntry> {
    vec![
        entry(512, 512, [255, 0, 0], AtlasEntryMipOption::Repeat),
        entry(512, 256, [0, 255, 0], AtlasEntryMipOption::Repeat),
        entry(32, 32, [0, 0, 255], AtlasEntryMipOption::Repeat),
        entry(8, 8, [0, 255, 255], AtlasEntryMipOption::Clamp),
        entry(8, 8, [255, 0, 255], AtlasEntryMipOption::Repeat),
        entry(8, 8, [255, 255, 0], AtlasEntryMipOption::Mirror),
    ]
}

fn extract_view(atlas: &Atlas) -> Vec<Vec<[u8; 3]>> {
    atlas
        .texcoords
        .iter()
        .map(|texcoord| {
            let image = &atlas.textures[texcoord.page as usize].mip_maps[0];
            let mut pixels = Vec::new();
            for y in texcoord.min_y..texcoord.max_y {
                for x in texcoord.min_x..texcoord.max_x {
                    pixels.push(image.get_pixel(x, y));
                }
            }
            pixels
        })
        .collect()
}

#[test]
fn usage() {
    let atlas = create_atlas(&AtlasDescriptor {
        max_page_count: 2,
        size: 2048,
        mip: AtlasMipOption::MipWithBlock(AtlasMipFilter::Lanczos3, 32),
        entries: &[
            AtlasEntry {
                texture: RgbImage::new(512, 512),
                mip: AtlasEntryMipOption::Clamp,
            },
            AtlasEntry {
                texture: RgbImage::new(512, 256),
                mip: AtlasEntryMipOption::Clamp,
            },
        ],
    })
    .unwrap();

    assert_eq!(atlas.texcoords.len(), 2);
    println!("{:?}", atlas.texcoords[0]);
    println!("{:?}", atlas.texcoords[1]);

    assert_eq!(atlas.page_count, 1);
    assert_eq!(atlas.size, 2048);
    assert_eq!(atlas.mip_level_count, 6);
}

#[test]
fn result_equality() {
    let entries = &six_entries()[..];

    let atlas0 = create_atlas(&AtlasDescriptor {
        max_page_count: 2,
        size: 2048,
        mip: AtlasMipOption::NoMip,
        entries,
    })
    .unwrap();

    let atlas1 = create_atlas(&AtlasDescriptor {
        max_page_count: 2,
        size: 2048,
        mip: AtlasMipOption::NoMipWithPadding(8),
        entries,
    })
    .unwrap();

    let atlas2 = create_atlas(&AtlasDescriptor {
        max_page_count: 2,
        size: 2048,
        mip: AtlasMipOption::Mip(AtlasMipFilter::Nearest),
        entries,
    })
    .unwrap();

    let atlas3 = create_atlas(&AtlasDescriptor {
        max_page_count: 2,
        size: 2048,
        mip: AtlasMipOption::MipWithPadding(AtlasMipFilter::Nearest, 8),
        entries,
    })
    .unwrap();

    let atlas4 = create_atlas(&AtlasDescriptor {
        max_page_count: 2,
        size: 2048,
        mip: AtlasMipOption::MipWithBlock(AtlasMipFilter::Lanczos3, 32),
        entries,
    })
    .unwrap();

    let views0 = extract_view(&atlas0);
    let views1 = extract_view(&atlas1);
    let views2 = extract_view(&atlas2);
    let views3 = extract_view(&atlas3);
    let views4 = extract_view(&atlas4);

    for i in 0..entries.len() {
        assert!(views0[i] == views1[i]);
        assert!(views0[i] == views2[i]);
        assert!(views0[i] == views3[i]);
        assert!(views0[i] == views4[i]);
    }
}

#[test]
fn page_minimizing() {
    let atlas = create_atlas(&AtlasDescriptor {
        max_page_count: 2,
        size: 2048,
        mip: AtlasMipOption::MipWithBlock(AtlasMipFilter::Lanczos3, 32),
        entries: &six_entries(),
    })
    .unwrap();

    assert_eq!(atlas.page_count, 1);
}

#[test]
fn page_additional() {
    let atlas = create_atlas(&AtlasDescriptor {
        max_page_count: 2,
        size: 1024,
        mip: AtlasMipOption::MipWithBlock(AtlasMipFilter::Lanczos3, 32),
        entries: &[
            entry(512, 512, [255, 0, 0], AtlasEntryMipOption::Repeat),
            entry(512, 256, [0, 255, 0], AtlasEntryMipOption::Repeat),
            entry(512, 256, [0, 255, 0], AtlasEntryMipOption::Repeat),
            entry(32, 32, [0, 0, 255], AtlasEntryMipOption::Repeat),
            entry(8, 8, [0, 255, 255], AtlasEntryMipOption::Clamp),
            entry(8, 8, [255, 0, 255], AtlasEntryMipOption::Repeat),
            entry(8, 8, [255, 255, 0], AtlasEntryMipOption::Mirror),
        ],
    })
    .unwrap();

    assert_eq!(atlas.page_count, 2);
}
