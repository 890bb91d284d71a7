use tile_atlas::atlas::{pack, PackError, PackedAtlas};
use tile_atlas::cache::{AtlasHandle, TilesetCache};
use tile_atlas::geometry::{copy_region, Rect};
use tile_atlas::prefab::{IndexOutOfRange, LoadStep, TileGid, TileSetPrefab};
use tile_atlas::set::{find_then_pack, LoadError};
use tile_atlas::tileset::{
    extract, DecodedImage, ExtractError, ImageSource, TilePixels, TilesetDescription,
};

fn image(w: u32, h: u32) -> DecodedImage {
    let mut pixels = Vec::new();
    for y in 0..h {
        for x in 0..w {
            pixels.extend_from_slice(&[x as u8, y as u8, (x + y) as u8, 255]);
        }
    }
    DecodedImage { width: w, height: h, pixels }
}

fn description(name: &str, w: u32, h: u32, tile: u32, margin: u32, spacing: u32) -> TilesetDescription {
    TilesetDescription {
        name: name.to_string(),
        images: vec![ImageSource { source: format!("{}.png", name), width: w, height: h }],
        tile_width: tile,
        tile_height: tile,
        margin,
        spacing,
    }
}

fn grass() -> TilesetDescription {
    description("grass", 68, 36, 32, 2, 0)
}

fn region_of(atlas: &PackedAtlas, r: Rect) -> Vec<u8> {
    copy_region(&atlas.pixels, atlas.layout.width, atlas.layout.height, r)
}

fn overlap(a: Rect, b: Rect) -> bool {
    a.x < b.x + b.width && b.x < a.x + a.width && a.y < b.y + b.height && b.y < a.y + a.height
}

#[test]
fn grass_extracts_two_tiles() {
    let tiles = extract(&grass(), &vec![Some(image(68, 36))]).unwrap();
    assert_eq!(tiles.len(), 2);
    for t in &tiles {
        assert_eq!((t.width, t.height), (32, 32));
        assert_eq!(t.bytes.len(), 32 * 32 * 4);
    }
    // first tile starts at (2, 2), the second at (34, 2)
    assert_eq!(&tiles[0].bytes[0..4], &[2, 2, 4, 255]);
    assert_eq!(&tiles[1].bytes[0..4], &[34, 2, 36, 255]);
    // last pixel of the second tile is (65, 33)
    assert_eq!(&tiles[1].bytes[32 * 32 * 4 - 4..], &[65, 33, 98, 255]);
}

#[test]
fn grass_packs_into_one_atlas() {
    let src = image(68, 36);
    let atlas = find_then_pack(&grass(), &vec![Some(src.clone())]).unwrap();
    let l = &atlas.layout;
    assert_eq!(l.rects.len(), 2);
    assert!((l.width as u64) * (l.height as u64) >= 2 * 32 * 32);
    assert!(!overlap(l.rects[0], l.rects[1]));
    assert_eq!(atlas.pixels.len(), (l.width * l.height * 4) as usize);
    let tiles = extract(&grass(), &vec![Some(src)]).unwrap();
    for i in 0..2 {
        let r = TileGid::from(i).resolve(l).unwrap();
        assert_eq!(region_of(&atlas, r), tiles[i].bytes);
    }
}

#[test]
fn grass_second_request_reuses_handle() {
    let mut cache = TilesetCache::new();
    let mut first = TileSetPrefab::from(grass());
    assert_eq!(first.load_sub_assets(&cache), LoadStep::NeedsPacking);
    let set = match &first {
        TileSetPrefab::TileSet(set) => set.clone(),
        TileSetPrefab::Handle(_) => panic!("not loaded yet"),
    };
    assert!(find_then_pack(&set, &vec![Some(image(68, 36))]).is_ok());
    assert_eq!(first.finish_load(&mut cache, AtlasHandle { id: 7 }), (AtlasHandle { id: 7 }, true));
    let mut second = TileSetPrefab::from(grass());
    assert_eq!(second.load_sub_assets(&cache), LoadStep::Complete);
    assert_eq!(second.add_to_entity(), AtlasHandle { id: 7 });
    assert_eq!(first.add_to_entity(), AtlasHandle { id: 7 });
}

#[test]
fn many_requests_converge() {
    let mut cache = TilesetCache::new();
    let mut packed = 0;
    let mut handles = Vec::new();
    for n in 0..5u64 {
        let mut p = TileSetPrefab::from(grass());
        if p.load_sub_assets(&cache) == LoadStep::NeedsPacking {
            packed += 1;
            p.finish_load(&mut cache, AtlasHandle { id: 100 + n });
        }
        handles.push(p.add_to_entity());
    }
    assert_eq!(packed, 1);
    assert!(handles.iter().all(|h| *h == AtlasHandle { id: 100 }));
    assert_eq!(cache.get(&"grass".to_string()), Some(AtlasHandle { id: 100 }));
}

#[test]
fn late_insert_keeps_first_handle() {
    let mut cache = TilesetCache::new();
    let mut a = TileSetPrefab::from(grass());
    let mut b = TileSetPrefab::from(grass());
    assert_eq!(a.load_sub_assets(&cache), LoadStep::NeedsPacking);
    assert_eq!(b.load_sub_assets(&cache), LoadStep::NeedsPacking);
    assert_eq!(a.finish_load(&mut cache, AtlasHandle { id: 1 }), (AtlasHandle { id: 1 }, true));
    assert_eq!(b.finish_load(&mut cache, AtlasHandle { id: 2 }), (AtlasHandle { id: 1 }, false));
    assert_eq!(b.add_to_entity(), AtlasHandle { id: 1 });
}

#[test]
fn resolved_prefab_stays_resolved() {
    let mut cache = TilesetCache::new();
    cache.insert("grass".to_string(), AtlasHandle { id: 3 });
    let mut p = TileSetPrefab::Handle(AtlasHandle { id: 9 });
    for _ in 0..3 {
        assert_eq!(p.load_sub_assets(&cache), LoadStep::Complete);
        assert_eq!(p.add_to_entity(), AtlasHandle { id: 9 });
    }
    assert_eq!(cache.get(&"grass".to_string()), Some(AtlasHandle { id: 3 }));
    assert_eq!(cache.get(&"dirt".to_string()), None);
}

#[test]
fn exact_fit_gives_one_tile() {
    let d = description("one", 20, 20, 16, 2, 0);
    let atlas = find_then_pack(&d, &vec![Some(image(20, 20))]).unwrap();
    assert_eq!(atlas.layout.rects.len(), 1);
    assert_eq!(atlas.layout.rects[0], Rect { x: 0, y: 0, width: 16, height: 16 });
    assert_eq!((atlas.layout.width, atlas.layout.height), (16, 16));
    let tiles = extract(&d, &vec![Some(image(20, 20))]).unwrap();
    assert_eq!(atlas.pixels, tiles[0].bytes);
}

#[test]
fn partial_tiles_are_dropped() {
    // 2 + 8 + 1 + 8 + 1 + 8 = 28 pixels hold three columns with one left over
    let d = description("stride", 31, 12, 8, 2, 1);
    let tiles = extract(&d, &vec![Some(image(31, 12))]).unwrap();
    assert_eq!(tiles.len(), 3);
}

#[test]
fn tiles_go_column_by_column() {
    let d = description("order", 2, 2, 1, 0, 0);
    let tiles = extract(&d, &vec![Some(image(2, 2))]).unwrap();
    let origins: Vec<(u8, u8)> = tiles.iter().map(|t| (t.bytes[0], t.bytes[1])).collect();
    assert_eq!(origins, vec![(0, 0), (0, 1), (1, 0), (1, 1)]);
}

#[test]
fn tiles_of_several_images_follow_declaration_order() {
    let mut d = description("two", 2, 1, 1, 0, 0);
    d.images.push(ImageSource { source: "b.png".to_string(), width: 1, height: 3 });
    let tiles = extract(&d, &vec![Some(image(2, 1)), Some(image(1, 3))]).unwrap();
    let origins: Vec<(u8, u8)> = tiles.iter().map(|t| (t.bytes[0], t.bytes[1])).collect();
    assert_eq!(origins, vec![(0, 0), (1, 0), (0, 0), (0, 1), (0, 2)]);
}

#[test]
fn packing_is_deterministic() {
    let tiles = extract(&grass(), &vec![Some(image(68, 36))]).unwrap();
    let a = pack(&tiles).unwrap();
    let b = pack(&tiles).unwrap();
    assert_eq!(a.pixels, b.pixels);
    assert_eq!((a.layout.width, a.layout.height), (b.layout.width, b.layout.height));
    assert_eq!(a.layout.rects, b.layout.rects);
}

#[test]
fn packing_mixed_sizes_keeps_input_order() {
    let tiles = vec![
        TilePixels { width: 1, height: 1, bytes: vec![1, 2, 3, 4] },
        TilePixels { width: 2, height: 2, bytes: (0..16).collect() },
        TilePixels { width: 2, height: 1, bytes: vec![9; 8] },
    ];
    let atlas = pack(&tiles).unwrap();
    assert_eq!(atlas.layout.rects.len(), 3);
    for i in 0..3 {
        let r = atlas.layout.rects[i];
        assert_eq!((r.width, r.height), (tiles[i].width, tiles[i].height));
        assert_eq!(region_of(&atlas, r), tiles[i].bytes);
        for j in 0..i {
            assert!(!overlap(r, atlas.layout.rects[j]));
        }
    }
    // the largest tile goes first, at the origin
    assert_eq!((atlas.layout.rects[1].x, atlas.layout.rects[1].y), (0, 0));
}

#[test]
fn unused_atlas_area_is_transparent() {
    let tiles = vec![
        TilePixels { width: 2, height: 2, bytes: vec![255; 16] },
        TilePixels { width: 1, height: 1, bytes: vec![255; 4] },
    ];
    let atlas = pack(&tiles).unwrap();
    let covered: u64 = atlas.layout.rects.iter().map(|r| (r.width * r.height) as u64).sum();
    let opaque = atlas.pixels.chunks(4).filter(|p| p[3] == 255).count() as u64;
    assert_eq!(opaque, covered);
    assert!(atlas.pixels.chunks(4).all(|p| p == [255, 255, 255, 255] || p == [0, 0, 0, 0]));
}

#[test]
fn missing_image_is_a_decode_error() {
    assert_eq!(extract(&grass(), &vec![None]).err(), Some(ExtractError::ImageDecode(0)));
    assert_eq!(extract(&grass(), &vec![]).err(), Some(ExtractError::ImageDecode(0)));
    assert_eq!(
        find_then_pack(&grass(), &vec![None]).err(),
        Some(LoadError::Extract(ExtractError::ImageDecode(0)))
    );
}

#[test]
fn wrong_size_is_a_dimension_error() {
    assert_eq!(extract(&grass(), &vec![Some(image(64, 36))]).err(), Some(ExtractError::Dimension(0)));
    let mut short = image(68, 36);
    short.pixels.pop();
    assert_eq!(extract(&grass(), &vec![Some(short)]).err(), Some(ExtractError::Dimension(0)));
}

#[test]
fn no_whole_tile_is_empty_input() {
    let d = description("small", 10, 10, 32, 0, 0);
    assert_eq!(extract(&d, &vec![Some(image(10, 10))]).unwrap().len(), 0);
    assert_eq!(
        find_then_pack(&d, &vec![Some(image(10, 10))]).err(),
        Some(LoadError::Pack(PackError::EmptyInput))
    );
    assert_eq!(pack(&vec![]).err(), Some(PackError::EmptyInput));
}

#[test]
fn too_wide_is_packing_overflow() {
    let tiles = vec![
        TilePixels { width: 20000, height: 1, bytes: vec![0; 80000] },
        TilePixels { width: 20000, height: 1, bytes: vec![0; 80000] },
    ];
    assert_eq!(pack(&tiles).err(), Some(PackError::PackingOverflow));
}

#[test]
fn grid_index_resolves_within_layout() {
    let atlas = find_then_pack(&grass(), &vec![Some(image(68, 36))]).unwrap();
    assert_eq!(TileGid::from(1).resolve(&atlas.layout), Ok(atlas.layout.rects[1]));
    assert_eq!(
        TileGid::from(2).resolve(&atlas.layout),
        Err(IndexOutOfRange { index: 2, len: 2 })
    );
    assert_eq!(TileGid::from(5).sprite(), Some(5));
    assert_eq!(TileGid::default(), TileGid(0));
}
