//! Chunk positions and the per-chunk aggregate record: a stable identity, the
//! packed per-slot texture buffer, and the render-dirty flag.

use vstd::prelude::*;

verus! {

/// Position of a chunk in the tilemap, in chunk coordinates (not pixel or
/// tile coordinates).
#[derive(Clone, Copy, Debug, Default, PartialEq, Eq, Structural, Hash)]
pub struct TilemapChunkPosition {
    pub x: i32,
    pub y: i32,
}

impl View for TilemapChunkPosition {
    type V = (int, int);

    open spec fn view(&self) -> (int, int) {
        (self.x as int, self.y as int)
    }
}

/// One chunk's aggregate record.
///
/// A chunk is created the first time any tile maps into its position and is
/// kept alive afterwards, even when all of its tiles are removed.  Slot `i` of
/// `indices` holds the texture index of the tile occupying the corresponding
/// position, or `None` for "empty".  `render_dirty` is set by a
/// synchronization pass whenever the record is created or a slot is written,
/// and is cleared by the renderer after it uploads the buffer.
pub struct TilemapChunk {
    /// Stable opaque identity of the chunk.
    pub entity: u64,
    /// The chunk's position in chunk coordinates.
    pub position: TilemapChunkPosition,
    /// Packed tile-index buffer of length `chunk_size * chunk_size`.
    pub indices: Vec<Option<u16>>,
    /// Whether the buffer changed since the renderer last consumed it.
    pub render_dirty: bool,
}

impl TilemapChunk {
    /// Reads one slot of the packed index buffer.
    pub fn slot(&self, i: usize) -> (t: Option<u16>)
        requires
            i < self.indices@.len(),
        ensures
            t == self.indices@[i as int],
    {
        self.indices[i]
    }
}

} // verus!
