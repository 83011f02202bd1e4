use tilemap_chunks::{
    convert_atlas_to_array, convert_images_to_array, ImageBuffer, TilesetError,
};

/// Builds a synthetic atlas whose byte at linear position `i` is `i mod 251`,
/// so every byte of every tile is distinguishable.
fn synthetic_atlas(width: u32, height: u32, pixel_size: u32) -> ImageBuffer {
    let len = (width * height * pixel_size) as usize;
    let data: Vec<u8> = (0..len).map(|i| (i % 251) as u8).collect();
    ImageBuffer { width, height, pixel_size, data }
}

#[test]
fn atlas_round_trip_reproduces_every_tile() {
    // 2 rows x 3 columns of 4x4 RGBA tiles
    let (tw, th, ps) = (4u32, 4u32, 4u32);
    let atlas = synthetic_atlas(12, 8, ps);
    let out = convert_atlas_to_array(&atlas, tw, th).unwrap();
    assert_eq!(out.width, tw);
    assert_eq!(out.height, th);
    assert_eq!(out.layers, 6);
    assert_eq!(out.pixel_size, ps);
    assert_eq!(out.data.len(), (6 * tw * th * ps) as usize);

    let src_pitch = (12 * ps) as usize;
    let row_bytes = (tw * ps) as usize;
    let tile_bytes = (tw * th * ps) as usize;
    for row in 0..2usize {
        for col in 0..3usize {
            let layer = row * 3 + col;
            for y in 0..th as usize {
                let src = row * th as usize * src_pitch + col * row_bytes + y * src_pitch;
                let dst = layer * tile_bytes + y * row_bytes;
                assert_eq!(
                    &out.data[dst..dst + row_bytes],
                    &atlas.data[src..src + row_bytes],
                    "layer {} row {}",
                    layer,
                    y
                );
            }
        }
    }
}

#[test]
fn atlas_single_tile_is_identity() {
    let atlas = synthetic_atlas(4, 4, 1);
    let out = convert_atlas_to_array(&atlas, 4, 4).unwrap();
    assert_eq!(out.layers, 1);
    assert_eq!(out.data, atlas.data);
}

#[test]
fn atlas_rejects_zero_tile_size() {
    let atlas = synthetic_atlas(8, 8, 1);
    assert_eq!(
        convert_atlas_to_array(&atlas, 0, 4).err(),
        Some(TilesetError::ZeroTileSize)
    );
    assert_eq!(
        convert_atlas_to_array(&atlas, 4, 0).err(),
        Some(TilesetError::ZeroTileSize)
    );
}

#[test]
fn atlas_rejects_non_divisible_dimensions() {
    // tile size does not evenly divide the atlas: error, no output
    let atlas = synthetic_atlas(10, 10, 1);
    assert_eq!(
        convert_atlas_to_array(&atlas, 4, 4).err(),
        Some(TilesetError::NonDivisibleAtlas)
    );
    let atlas2 = synthetic_atlas(8, 10, 1);
    assert_eq!(
        convert_atlas_to_array(&atlas2, 4, 4).err(),
        Some(TilesetError::NonDivisibleAtlas)
    );
}

#[test]
fn atlas_reports_first_out_of_bounds_row() {
    // a truncated 8x8 single-byte atlas: the first source range past the
    // 60 available bytes is row 3 of layer 3
    let mut atlas = synthetic_atlas(8, 8, 1);
    atlas.data.truncate(60);
    assert_eq!(
        convert_atlas_to_array(&atlas, 4, 4).err(),
        Some(TilesetError::SourceBounds { layer: 3, row: 3 })
    );
    // an empty buffer fails on the very first row
    let mut empty = synthetic_atlas(8, 8, 1);
    empty.data.clear();
    assert_eq!(
        convert_atlas_to_array(&empty, 4, 4).err(),
        Some(TilesetError::SourceBounds { layer: 0, row: 0 })
    );
}

#[test]
fn atlas_with_zero_dimension_yields_no_layers() {
    let atlas = ImageBuffer { width: 0, height: 8, pixel_size: 1, data: Vec::new() };
    let out = convert_atlas_to_array(&atlas, 4, 4).unwrap();
    assert_eq!(out.layers, 0);
    assert!(out.data.is_empty());
}

#[test]
fn image_list_stacks_buffers_in_order() {
    let a = ImageBuffer { width: 2, height: 2, pixel_size: 1, data: vec![1, 2, 3, 4] };
    let b = ImageBuffer { width: 2, height: 2, pixel_size: 1, data: vec![5, 6, 7, 8] };
    let out = convert_images_to_array(&vec![a, b]).unwrap();
    assert_eq!(out.width, 2);
    assert_eq!(out.height, 2);
    assert_eq!(out.layers, 2);
    assert_eq!(out.pixel_size, 1);
    assert_eq!(out.data, vec![1, 2, 3, 4, 5, 6, 7, 8]);
}

#[test]
fn empty_image_list_is_rejected() {
    // zero images: an error and no output buffer
    let r = convert_images_to_array(&Vec::new());
    assert_eq!(r.err(), Some(TilesetError::EmptyImageList));
}

#[test]
fn mismatched_image_is_rejected_by_index() {
    let a = ImageBuffer { width: 2, height: 2, pixel_size: 1, data: vec![1, 2, 3, 4] };
    let wrong_size = ImageBuffer { width: 4, height: 2, pixel_size: 1, data: vec![0; 8] };
    assert_eq!(
        convert_images_to_array(&vec![a.clone(), wrong_size]).err(),
        Some(TilesetError::ImageMismatch { index: 1 })
    );
    let wrong_format = ImageBuffer { width: 2, height: 2, pixel_size: 4, data: vec![0; 16] };
    assert_eq!(
        convert_images_to_array(&vec![a.clone(), wrong_format]).err(),
        Some(TilesetError::ImageMismatch { index: 1 })
    );
    let truncated = ImageBuffer { width: 2, height: 2, pixel_size: 1, data: vec![1, 2, 3] };
    assert_eq!(
        convert_images_to_array(&vec![truncated]).err(),
        Some(TilesetError::ImageMismatch { index: 0 })
    );
    assert!(convert_images_to_array(&vec![a]).is_ok());
}
