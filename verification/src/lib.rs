//! Spatial chunking and incremental synchronization for large sparse 2-D
//! tilemaps.
//!
//! The library partitions an unbounded signed tile-coordinate space into
//! fixed-size square chunks, tracks which tile belongs to which chunk, lazily
//! creates chunk records with packed per-slot texture buffers, and rewrites
//! only the touched slots of those buffers when tiles are added, moved,
//! re-textured, or removed.  It also provides the one-shot conversion of a
//! texture atlas (or a list of equally sized images) into a single layered
//! image suitable for array-texture sampling.

mod chunk;
mod tile;
mod tilemap;
mod tileset;

pub use chunk::{TilemapChunk, TilemapChunkPosition};
pub use tilemap::{
    in_i32_range, lemma_synced_single_tile_buffer, lemma_synced_tile_in_one_slot,
    lemma_synced_tile_shown, lemma_synced_vacant_slot_empty, TileRecord, Tilemap, TilemapChunks,
    TilemapError, TilemapTiles, TilemapView, DEFAULT_CHUNK_SIZE, DEFAULT_TILE_SIZE,
};
pub use tile::{
    chunk_coord, chunk_of, in_chunk_coord, div_mod_euclid, linear_slot, slot_of, slot_position,
    lemma_chunk_contains_position, lemma_linear_slot_injective, lemma_slot_of_bounds,
    lemma_slot_of_injective, lemma_slot_position_roundtrip, lemma_slot_roundtrip,
    TilePosition, TileTextureIndex, MAX_CHUNK_SIZE,
};
pub use tileset::{
    atlas_src, convert_atlas_to_array, convert_images_to_array, image_matches_first, layer_byte,
    stacked_byte, tile_bytes, tile_row_bytes, ImageBuffer, LayeredImage, TilesetError,
};
