use tilemap_chunks::{
    Tilemap, TilemapChunkPosition, TilemapError, TilemapTiles, TilePosition, TileTextureIndex,
    DEFAULT_CHUNK_SIZE, DEFAULT_TILE_SIZE, MAX_CHUNK_SIZE,
};

#[test]
fn construction_validates_configuration() {
    assert!(Tilemap::new(16, 64).is_ok());
    assert_eq!(Tilemap::new(0, 64).err(), Some(TilemapError::InvalidTileSize));
    assert_eq!(Tilemap::new(16, 0).err(), Some(TilemapError::InvalidChunkSize));
    assert_eq!(
        Tilemap::new(16, MAX_CHUNK_SIZE + 1).err(),
        Some(TilemapError::InvalidChunkSize)
    );
    let m = Tilemap::from_tile_size(32).unwrap();
    assert_eq!(m.tile_size(), 32);
    assert_eq!(m.chunk_size(), DEFAULT_CHUNK_SIZE);
    let d = Tilemap::default();
    assert_eq!(d.tile_size(), DEFAULT_TILE_SIZE);
    assert_eq!(d.chunk_size(), DEFAULT_CHUNK_SIZE);
}

#[test]
fn single_tile_fills_exactly_one_slot() {
    // insert one tile into an empty tilemap, run one pass: the owning
    // chunk's buffer shows its texture at its slot and "empty" elsewhere
    let mut m = Tilemap::new(8, 4).unwrap();
    let p = TilePosition { x: -1, y: -1 };
    m.insert_tile(42, p, TileTextureIndex(9));
    m.update_chunks();

    let cp = p.chunk_position(4);
    assert_eq!((cp.x, cp.y), (-1, -1));
    let chunk = m.chunk_at(cp).expect("owning chunk was created");
    assert_eq!(chunk.indices.len(), 16);
    let slot = p.index_in_chunk(4);
    for i in 0..16 {
        if i == slot {
            assert_eq!(chunk.indices[i], Some(9));
        } else {
            assert_eq!(chunk.indices[i], None);
        }
    }
    assert!(chunk.render_dirty);
    assert_eq!(m.chunk_entities().len(), 1);
    assert_eq!(m.get_tile(p), Some(42));
}

#[test]
fn moving_a_tile_between_chunks_clears_the_old_slot() {
    let mut m = Tilemap::new(8, 2).unwrap();
    let a = TilePosition { x: 0, y: 0 };
    let b = TilePosition { x: 5, y: 5 };
    m.insert_tile(7, a, TileTextureIndex(3));
    m.update_chunks();
    m.move_tile(7, b);
    m.update_chunks();

    // chunk A's former slot became "empty"
    let chunk_a = m.chunk_at(a.chunk_position(2)).unwrap();
    assert_eq!(chunk_a.indices[a.index_in_chunk(2)], None);
    assert!(chunk_a.indices.iter().all(|s| s.is_none()));
    // chunk B's slot shows the tile's texture, and only that slot
    let chunk_b = m.chunk_at(b.chunk_position(2)).unwrap();
    let slot_b = b.index_in_chunk(2);
    for i in 0..4 {
        if i == slot_b {
            assert_eq!(chunk_b.indices[i], Some(3));
        } else {
            assert_eq!(chunk_b.indices[i], None);
        }
    }
    assert_eq!(m.get_tile(a), None);
    assert_eq!(m.get_tile(b), Some(7));
}

#[test]
fn moving_within_one_chunk_keeps_one_live_slot() {
    let mut m = Tilemap::new(8, 4).unwrap();
    let a = TilePosition { x: 0, y: 0 };
    let b = TilePosition { x: 1, y: 2 };
    m.insert_tile(1, a, TileTextureIndex(5));
    m.update_chunks();
    m.move_tile(1, b);
    m.update_chunks();
    let chunk = m.chunk_at(a.chunk_position(4)).unwrap();
    assert_eq!(chunk.indices[a.index_in_chunk(4)], None);
    assert_eq!(chunk.indices[b.index_in_chunk(4)], Some(5));
    assert_eq!(chunk.indices.iter().filter(|s| s.is_some()).count(), 1);
}

#[test]
fn removed_tile_leaves_empty_slot_and_index() {
    let mut m = Tilemap::new(8, 4).unwrap();
    let p = TilePosition { x: 3, y: 2 };
    m.insert_tile(11, p, TileTextureIndex(4));
    m.update_chunks();
    m.remove_tile(11);
    m.update_chunks();
    // former slot is "empty"; the tile is absent from the spatial index
    let chunk = m.chunk_at(p.chunk_position(4)).unwrap();
    assert_eq!(chunk.indices[p.index_in_chunk(4)], None);
    assert_eq!(m.get_tile(p), None);
    assert_eq!(m.get_tile_record(11), None);
    assert!(m.tile_entities().is_empty());
    // the emptied chunk record is kept alive
    assert_eq!(m.chunk_entities().len(), 1);
}

#[test]
fn dirtied_then_removed_tile_is_a_removal() {
    let mut m = Tilemap::new(8, 4).unwrap();
    let p = TilePosition { x: 1, y: 1 };
    m.insert_tile(5, p, TileTextureIndex(2));
    m.update_chunks();
    m.set_tile_texture(5, TileTextureIndex(8));
    m.remove_tile(5);
    m.update_chunks();
    let chunk = m.chunk_at(p.chunk_position(4)).unwrap();
    assert!(chunk.indices.iter().all(|s| s.is_none()));
    assert_eq!(m.get_tile(p), None);
}

#[test]
fn retextured_tile_slot_is_rewritten() {
    let mut m = Tilemap::new(8, 4).unwrap();
    let p = TilePosition { x: 2, y: 0 };
    m.insert_tile(9, p, TileTextureIndex(1));
    m.update_chunks();
    m.set_tile_texture(9, TileTextureIndex(6));
    m.update_chunks();
    let chunk = m.chunk_at(p.chunk_position(4)).unwrap();
    assert_eq!(chunk.indices[p.index_in_chunk(4)], Some(6));
    assert_eq!(
        m.get_tile_record(9).unwrap().texture,
        TileTextureIndex(6)
    );
}

#[test]
fn four_tiles_fill_one_chunk() {
    // chunk_size 2, tile_size 8: tiles at (0,0), (1,0), (0,1), (1,1) all in
    // chunk (0,0); the 4-slot buffer holds their textures at the computed
    // indices and the chunk map has exactly one entry
    let mut m = Tilemap::new(8, 2).unwrap();
    m.insert_tile(100, TilePosition { x: 0, y: 0 }, TileTextureIndex(1));
    m.insert_tile(101, TilePosition { x: 1, y: 0 }, TileTextureIndex(2));
    m.insert_tile(102, TilePosition { x: 0, y: 1 }, TileTextureIndex(3));
    m.insert_tile(103, TilePosition { x: 1, y: 1 }, TileTextureIndex(4));
    m.update_chunks();

    assert_eq!(m.chunk_entities().len(), 1);
    let chunk = m.chunk_at(TilemapChunkPosition { x: 0, y: 0 }).unwrap();
    assert_eq!(chunk.indices.len(), 4);
    // index = u + (1 - v) * 2
    assert_eq!(TilePosition { x: 0, y: 0 }.index_in_chunk(2), 2);
    assert_eq!(TilePosition { x: 1, y: 0 }.index_in_chunk(2), 3);
    assert_eq!(TilePosition { x: 0, y: 1 }.index_in_chunk(2), 0);
    assert_eq!(TilePosition { x: 1, y: 1 }.index_in_chunk(2), 1);
    assert_eq!(chunk.indices, vec![Some(3), Some(4), Some(1), Some(2)]);
    assert_eq!((chunk.position.x, chunk.position.y), (0, 0));
}

#[test]
fn renderer_consumes_the_dirty_flag() {
    let mut m = Tilemap::new(8, 2).unwrap();
    let p = TilePosition { x: 0, y: 0 };
    m.insert_tile(1, p, TileTextureIndex(1));
    m.update_chunks();
    let cp = p.chunk_position(2);
    assert!(m.chunk_at(cp).unwrap().render_dirty);
    m.mark_chunk_clean(cp);
    assert!(!m.chunk_at(cp).unwrap().render_dirty);
    // an untouched pass re-marks nothing
    m.update_chunks();
    assert!(!m.chunk_at(cp).unwrap().render_dirty);
    // a new write re-marks the chunk
    m.set_tile_texture(1, TileTextureIndex(2));
    m.update_chunks();
    assert!(m.chunk_at(cp).unwrap().render_dirty);
}

#[test]
fn entity_collections_keep_insertion_order() {
    let mut m = Tilemap::new(8, 2).unwrap();
    m.insert_tile(30, TilePosition { x: 0, y: 0 }, TileTextureIndex(0));
    m.insert_tile(10, TilePosition { x: 9, y: 0 }, TileTextureIndex(0));
    m.insert_tile(20, TilePosition { x: -9, y: 0 }, TileTextureIndex(0));
    assert_eq!(m.tile_entities(), &vec![30, 10, 20]);
    m.remove_tile(10);
    assert_eq!(m.tile_entities(), &vec![30, 20]);
    m.update_chunks();
    // chunk identities are handed out in creation order
    assert_eq!(m.chunk_entities(), &vec![0, 1]);
}

#[test]
fn chunks_persist_and_grow_across_passes() {
    let mut m = Tilemap::new(8, 2).unwrap();
    m.insert_tile(1, TilePosition { x: 0, y: 0 }, TileTextureIndex(1));
    m.update_chunks();
    assert_eq!(m.chunk_entities().len(), 1);
    m.insert_tile(2, TilePosition { x: 4, y: 0 }, TileTextureIndex(2));
    m.update_chunks();
    assert_eq!(m.chunk_entities().len(), 2);
    // first chunk is reused, not re-created
    let first = m.chunk_at(TilemapChunkPosition { x: 0, y: 0 }).unwrap();
    assert_eq!(first.entity, 0);
}

#[test]
fn spatial_index_overwrites_last_write_wins() {
    let mut t = TilemapTiles::new();
    let p = TilePosition { x: 3, y: -7 };
    assert_eq!(t.insert(p, 1), None);
    assert_eq!(t.get(p), Some(1));
    // inserting over an existing key replaces it
    assert_eq!(t.insert(p, 2), Some(1));
    assert_eq!(t.get(p), Some(2));
    assert_eq!(t.remove(p), Some(2));
    assert_eq!(t.get(p), None);
    assert_eq!(t.remove(p), None);
}

#[test]
fn tiles_spread_over_four_chunks() {
    let mut m = Tilemap::new(8, 2).unwrap();
    let positions = [
        (TilePosition { x: 0, y: 0 }, 1u16),
        (TilePosition { x: 2, y: 0 }, 2u16),
        (TilePosition { x: -1, y: 0 }, 3u16),
        (TilePosition { x: 0, y: -2 }, 4u16),
    ];
    for (k, (p, tex)) in positions.iter().enumerate() {
        m.insert_tile(k as u64, *p, TileTextureIndex(*tex));
    }
    m.update_chunks();
    assert_eq!(m.chunk_entities().len(), 4);
    for (p, tex) in positions.iter() {
        let chunk = m.chunk_at(p.chunk_position(2)).unwrap();
        assert_eq!(chunk.indices[p.index_in_chunk(2)], Some(*tex));
        assert_eq!(chunk.indices.iter().filter(|s| s.is_some()).count(), 1);
    }
}
