use tilemap_chunks::{div_mod_euclid, TilePosition, TileTextureIndex};

#[test]
fn euclid_division_rounds_toward_negative_infinity() {
    assert_eq!(div_mod_euclid(7, 8), (0, 7));
    assert_eq!(div_mod_euclid(8, 8), (1, 0));
    assert_eq!(div_mod_euclid(-1, 8), (-1, 7));
    assert_eq!(div_mod_euclid(-8, 8), (-1, 0));
    assert_eq!(div_mod_euclid(-9, 8), (-2, 7));
    assert_eq!(div_mod_euclid(0, 1), (0, 0));
    assert_eq!(div_mod_euclid(-5, 1), (-5, 0));
}

#[test]
fn euclid_division_extreme_values() {
    assert_eq!(div_mod_euclid(i32::MAX, 1), (i32::MAX, 0));
    assert_eq!(div_mod_euclid(i32::MIN, 1), (i32::MIN, 0));
    assert_eq!(div_mod_euclid(i32::MIN, 8), (-268435456, 0));
    // -2147483648 == 3 * -715827883 + 1
    assert_eq!(div_mod_euclid(i32::MIN, 3), (-715827883, 1));
    assert_eq!(div_mod_euclid(i32::MAX, 3), (715827882, 1));
}

#[test]
fn chunk_position_of_negative_tile() {
    // floor division, not truncation: (-1, -1) with chunk size 8 belongs to
    // chunk (-1, -1), not (0, 0)
    let p = TilePosition { x: -1, y: -1 };
    let cp = p.chunk_position(8);
    assert_eq!((cp.x, cp.y), (-1, -1));
    let q = TilePosition { x: 1, y: 1 };
    let cq = q.chunk_position(8);
    assert_eq!((cq.x, cq.y), (0, 0));
    let r = TilePosition { x: -16, y: 15 };
    let cr = r.chunk_position(8);
    assert_eq!((cr.x, cr.y), (-2, 1));
}

#[test]
fn position_in_chunk_is_euclidean_remainder() {
    let p = TilePosition { x: -1, y: -1 };
    assert_eq!(p.position_in_chunk(8), (7, 7));
    let q = TilePosition { x: 10, y: 3 };
    assert_eq!(q.position_in_chunk(8), (2, 3));
}

#[test]
fn index_in_chunk_row_major_with_flipped_v() {
    // index = u + (chunk_size - 1 - v) * chunk_size
    let p = TilePosition { x: 3, y: 1 };
    assert_eq!(p.index_in_chunk(8), 3 + (8 - 1 - 1) * 8);
    let origin = TilePosition { x: 0, y: 0 };
    assert_eq!(origin.index_in_chunk(8), 56);
    let top = TilePosition { x: 0, y: 7 };
    assert_eq!(top.index_in_chunk(8), 0);
    let neg = TilePosition { x: -1, y: -1 };
    assert_eq!(neg.index_in_chunk(8), 7);
}

#[test]
fn index_in_chunk_injective_over_one_chunk() {
    // every in-chunk position of a 4x4 chunk gets its own buffer slot
    let c = 4u32;
    let mut seen = vec![false; (c * c) as usize];
    for x in 0..c as i32 {
        for y in 0..c as i32 {
            let i = TilePosition { x, y }.index_in_chunk(c);
            assert!(i < (c * c) as usize);
            assert!(!seen[i], "slot {} hit twice", i);
            seen[i] = true;
        }
    }
    assert!(seen.iter().all(|&b| b));
}

#[test]
fn cardinal_neighbors_of_a_position() {
    let p = TilePosition { x: 2, y: -3 };
    let ns = p.cardinal_neighbors();
    assert_eq!(ns[0], TilePosition { x: 2, y: -2 });
    assert_eq!(ns[1], TilePosition { x: 2, y: -4 });
    assert_eq!(ns[2], TilePosition { x: 3, y: -3 });
    assert_eq!(ns[3], TilePosition { x: 1, y: -3 });
}

#[test]
fn texture_index_is_a_plain_value() {
    let t = TileTextureIndex(7);
    assert_eq!(t.0, 7);
    assert_eq!(TileTextureIndex::default(), TileTextureIndex(0));
}
