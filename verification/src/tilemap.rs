//! The tilemap: configuration, the two spatial indexes (tile position to tile
//! entity and chunk position to chunk record), the dirty set of changed
//! tiles, and the incremental synchronization pass that keeps every chunk's
//! packed index buffer consistent with the tile index.

use std::collections::HashMap;
use vstd::prelude::*;

use crate::chunk::{TilemapChunk, TilemapChunkPosition};
use crate::tile::{
    chunk_of, lemma_slot_of_bounds, lemma_slot_of_injective, lemma_slot_position_roundtrip,
    lemma_slot_roundtrip, slot_of, slot_position, TilePosition, TileTextureIndex, MAX_CHUNK_SIZE,
};

verus! {

broadcast use vstd::std_specs::hash::group_hash_axioms;

/// Default size of a chunk in tiles.
pub const DEFAULT_CHUNK_SIZE: u32 = 64;

/// Default size of a tile in pixels.
pub const DEFAULT_TILE_SIZE: u32 = 16;

/// Configuration errors reported when a tilemap is constructed.
#[derive(Clone, Copy, Debug, PartialEq, Eq, Structural)]
pub enum TilemapError {
    /// The tile size (pixels per tile edge) is zero.
    InvalidTileSize,
    /// The chunk size (tiles per chunk edge) is zero or too large for chunk
    /// buffers to be indexed with 32-bit arithmetic.
    InvalidChunkSize,
}

/// One tile's record: its current position and its texture index.
#[derive(Clone, Copy, Debug, PartialEq, Eq, Structural)]
pub struct TileRecord {
    /// The tile's position, in tile coordinates.
    pub position: TilePosition,
    /// The texture drawn for this tile.
    pub texture: TileTextureIndex,
}

/// One entry of the dirty set: a tile whose position or texture changed since
/// the last synchronization pass, together with the position it previously
/// occupied when it moved or was removed.
#[derive(Clone, Copy)]
struct DirtyEntry {
    entity: u64,
    old_position: Option<TilePosition>,
}

/// True when the mathematical pair `p` is the view of an `i32` pair.
pub open spec fn in_i32_range(p: (int, int)) -> bool {
    i32::MIN <= p.0 <= i32::MAX && i32::MIN <= p.1 <= i32::MAX
}

/// Packs a signed 2-D coordinate into one 64-bit lookup key (high half x,
/// low half y); injective over the whole `i32` domain.
closed spec fn coord_key(x: i32, y: i32) -> u64 {
    (((x as u32) as u64) * 0x1_0000_0000 + ((y as u32) as u64)) as u64
}

/// The lookup key of a mathematical coordinate pair in `i32` range.
closed spec fn key_at(p: (int, int)) -> u64 {
    coord_key(p.0 as i32, p.1 as i32)
}

proof fn lemma_coord_key_injective(x1: i32, y1: i32, x2: i32, y2: i32)
    requires
        coord_key(x1, y1) == coord_key(x2, y2),
    ensures
        x1 == x2,
        y1 == y2,
{
    let a1 = (x1 as u32) as u64;
    let b1 = (y1 as u32) as u64;
    let a2 = (x2 as u32) as u64;
    let b2 = (y2 as u32) as u64;
    assert(a1 == a2 && b1 == b2) by (nonlinear_arith)
        requires
            a1 * 0x1_0000_0000 + b1 == a2 * 0x1_0000_0000 + b2,
            a1 < 0x1_0000_0000,
            b1 < 0x1_0000_0000,
            a2 < 0x1_0000_0000,
            b2 < 0x1_0000_0000,
    ;
    assert(x1 as u32 == x2 as u32 ==> x1 == x2) by (bit_vector);
    assert(y1 as u32 == y2 as u32 ==> y1 == y2) by (bit_vector);
}

/// Computes the packed lookup key of a coordinate.
fn coord_key_exec(x: i32, y: i32) -> (k: u64)
    ensures
        k == coord_key(x, y),
{
    let xu = x as u32;
    let yu = y as u32;
    proof {
        assert(((xu as u64) << 32u64) | (yu as u64) == (xu as u64) * 0x1_0000_0000 + (
        yu as u64)) by (bit_vector);
    }
    ((xu as u64) << 32u64) | (yu as u64)
}

/// Stores all tiles in a tilemap: the lookup map from tile position to tile
/// entity, and the ordered collection of all owned tile entities in insertion
/// order, kept alongside the map for full-iteration use.
pub struct TilemapTiles {
    entities: Vec<u64>,
    lookup: HashMap<u64, u64>,
}

impl View for TilemapTiles {
    type V = Map<(int, int), u64>;

    closed spec fn view(&self) -> Map<(int, int), u64> {
        Map::new(
            |p: (int, int)| in_i32_range(p) && self.lookup@.contains_key(key_at(p)),
            |p: (int, int)| self.lookup@[key_at(p)],
        )
    }
}

impl TilemapTiles {
    /// The tilemap's tile entities, in insertion order.
    pub closed spec fn order(&self) -> Seq<u64> {
        self.entities@
    }

    /// Creates an empty tile index.
    pub fn new() -> (t: TilemapTiles)
        ensures
            t@ == Map::<(int, int), u64>::empty(),
            t.order() == Seq::<u64>::empty(),
    {
        let t = TilemapTiles { entities: Vec::new(), lookup: HashMap::new() };
        proof {
            assert(t@ =~= Map::<(int, int), u64>::empty());
        }
        t
    }

    /// The ordered collection of tile entities, for full iteration.
    pub fn entities_vec(&self) -> (r: &Vec<u64>)
        ensures
            r@ == self.order(),
    {
        &self.entities
    }

    /// Looks up the tile entity at a position.
    pub fn get(&self, position: TilePosition) -> (r: Option<u64>)
        ensures
            r == if self@.contains_key(position@) {
                Some(self@[position@])
            } else {
                None::<u64>
            },
    {
        let k = coord_key_exec(position.x, position.y);
        match self.lookup.get(&k) {
            Some(e) => Some(*e),
            None => None,
        }
    }

    /// Inserts or overwrites the entity registered at a position
    /// (last-write-wins), returning the entity it replaced, if any.  The
    /// ordered entity collection is not touched.
    pub fn insert(&mut self, position: TilePosition, entity: u64) -> (prev: Option<u64>)
        ensures
            final(self)@ == old(self)@.insert(position@, entity),
            final(self).order() == old(self).order(),
            prev == if old(self)@.contains_key(position@) {
                Some(old(self)@[position@])
            } else {
                None::<u64>
            },
    {
        let k = coord_key_exec(position.x, position.y);
        let prev = self.lookup.insert(k, entity);
        proof {
            assert forall|q: (int, int)|
                #[trigger] old(self)@.insert(position@, entity).contains_key(q)
                    == self@.contains_key(q) && (self@.contains_key(q) ==> self@[q] == old(
                self,
            )@.insert(position@, entity)[q]) by {
                if in_i32_range(q) && key_at(q) == key_at(position@) {
                    lemma_coord_key_injective(q.0 as i32, q.1 as i32, position.x, position.y);
                }
            }
            assert(self@ =~= old(self)@.insert(position@, entity));
        }
        prev
    }

    /// Removes the entity registered at a position, returning it if there was
    /// one.  The ordered entity collection is not touched.
    pub fn remove(&mut self, position: TilePosition) -> (prev: Option<u64>)
        ensures
            final(self)@ == old(self)@.remove(position@),
            final(self).order() == old(self).order(),
            prev == if old(self)@.contains_key(position@) {
                Some(old(self)@[position@])
            } else {
                None::<u64>
            },
    {
        let k = coord_key_exec(position.x, position.y);
        let prev = self.lookup.remove(&k);
        proof {
            assert forall|q: (int, int)|
                #[trigger] old(self)@.remove(position@).contains_key(q) == self@.contains_key(q)
                    && (self@.contains_key(q) ==> self@[q] == old(self)@.remove(position@)[q]) by {
                if in_i32_range(q) && key_at(q) == key_at(position@) {
                    lemma_coord_key_injective(q.0 as i32, q.1 as i32, position.x, position.y);
                }
            }
            assert(self@ =~= old(self)@.remove(position@));
        }
        prev
    }

    /// Records a newly attached tile entity in the ordered collection.
    pub fn attach(&mut self, entity: u64)
        ensures
            final(self)@ == old(self)@,
            final(self).order() == old(self).order().push(entity),
    {
        self.entities.push(entity);
    }

    /// Removes a detached tile entity's first occurrence from the ordered
    /// collection.
    pub fn detach(&mut self, entity: u64)
        requires
            old(self).order().contains(entity),
        ensures
            final(self)@ == old(self)@,
            final(self).order() == old(self).order().remove_value(entity),
    {
        proof {
            old(self).order().index_of_first_ensures(entity);
        }
        let mut j: usize = 0;
        while j < self.entities.len() && self.entities[j] != entity
            invariant
                self == old(self),
                0 <= j <= self.entities@.len(),
                forall|i: int| 0 <= i < j ==> self.entities@[i] != entity,
                self.entities@.contains(entity),
            decreases self.entities@.len() - j,
        {
            j += 1;
        }
        proof {
            assert(j < self.entities@.len());
            assert(self.order().index_of_first(entity) == Some(j as int));
        }
        self.entities.remove(j);
    }
}

/// Stores all chunks in a tilemap: the lookup map from chunk position to the
/// chunk's aggregate record, and the ordered collection of chunk entities in
/// creation order.
pub struct TilemapChunks {
    entities: Vec<u64>,
    lookup: HashMap<u64, TilemapChunk>,
}

impl View for TilemapChunks {
    type V = Map<(int, int), TilemapChunk>;

    closed spec fn view(&self) -> Map<(int, int), TilemapChunk> {
        Map::new(
            |p: (int, int)| in_i32_range(p) && self.lookup@.contains_key(key_at(p)),
            |p: (int, int)| self.lookup@[key_at(p)],
        )
    }
}

impl TilemapChunks {
    /// The tilemap's chunk entities, in creation order.
    pub closed spec fn order(&self) -> Seq<u64> {
        self.entities@
    }

    /// Creates an empty chunk index.
    pub fn new() -> (t: TilemapChunks)
        ensures
            t@ == Map::<(int, int), TilemapChunk>::empty(),
            t.order() == Seq::<u64>::empty(),
    {
        let t = TilemapChunks { entities: Vec::new(), lookup: HashMap::new() };
        proof {
            assert(t@ =~= Map::<(int, int), TilemapChunk>::empty());
        }
        t
    }

    /// The ordered collection of chunk entities, for full iteration.
    pub fn entities_vec(&self) -> (r: &Vec<u64>)
        ensures
            r@ == self.order(),
    {
        &self.entities
    }

    /// The number of chunks created so far.
    pub fn count(&self) -> (n: usize)
        ensures
            n == self.order().len(),
    {
        self.entities.len()
    }

    /// Looks up the chunk record at a chunk position.
    pub fn get(&self, position: TilemapChunkPosition) -> (r: Option<&TilemapChunk>)
        ensures
            match r {
                Some(ch) => self@.contains_key(position@) && *ch == self@[position@],
                None => !self@.contains_key(position@),
            },
    {
        let k = coord_key_exec(position.x, position.y);
        self.lookup.get(&k)
    }

    /// Whether a chunk record exists at a chunk position.
    pub fn contains(&self, position: TilemapChunkPosition) -> (r: bool)
        ensures
            r == self@.contains_key(position@),
    {
        let k = coord_key_exec(position.x, position.y);
        self.lookup.contains_key(&k)
    }

    /// Registers a freshly created chunk record under its position and
    /// appends its entity to the ordered collection.  The lookup-or-create
    /// step of a synchronization pass calls this at most once per position.
    pub fn insert(&mut self, position: TilemapChunkPosition, chunk: TilemapChunk)
        requires
            !old(self)@.contains_key(position@),
        ensures
            final(self)@ == old(self)@.insert(position@, chunk),
            final(self).order() == old(self).order().push(chunk.entity),
    {
        let entity = chunk.entity;
        let k = coord_key_exec(position.x, position.y);
        self.entities.push(entity);
        self.lookup.insert(k, chunk);
        proof {
            assert forall|q: (int, int)|
                #[trigger] old(self)@.insert(position@, chunk).contains_key(q) == self@.contains_key(
                    q,
                ) && (self@.contains_key(q) ==> self@[q] == old(self)@.insert(position@, chunk)[q]) by {
                if in_i32_range(q) && key_at(q) == key_at(position@) {
                    lemma_coord_key_injective(q.0 as i32, q.1 as i32, position.x, position.y);
                }
            }
            assert(self@ =~= old(self)@.insert(position@, chunk));
        }
    }

    /// Writes one slot of the chunk at `position` and marks the chunk
    /// render-dirty.
    pub fn write_slot(&mut self, position: TilemapChunkPosition, i: usize, t: Option<u16>)
        requires
            old(self)@.contains_key(position@),
            i < old(self)@[position@].indices@.len(),
        ensures
            final(self)@.dom() == old(self)@.dom(),
            forall|q: (int, int)|
                #[trigger] final(self)@.contains_key(q) && q != position@ ==> final(self)@[q]
                    == old(self)@[q],
            final(self)@[position@].entity == old(self)@[position@].entity,
            final(self)@[position@].position == old(self)@[position@].position,
            final(self)@[position@].indices@ == old(self)@[position@].indices@.update(i as int, t),
            final(self)@[position@].render_dirty == true,
            final(self).order() == old(self).order(),
    {
        let k = coord_key_exec(position.x, position.y);
        let mut ch = match self.lookup.remove(&k) {
            Some(c) => c,
            None => vstd::pervasive::unreached(),
        };
        ch.indices[i] = t;
        ch.render_dirty = true;
        self.lookup.insert(k, ch);
        proof {
            assert forall|q: (int, int)| #[trigger]
                self@.contains_key(q) == old(self)@.contains_key(q) by {
                if in_i32_range(q) && key_at(q) == key_at(position@) {
                    lemma_coord_key_injective(q.0 as i32, q.1 as i32, position.x, position.y);
                }
            }
            assert(self@.dom() =~= old(self)@.dom());
            assert forall|q: (int, int)| #[trigger]
                self@.contains_key(q) && q != position@ implies self@[q] == old(self)@[q] by {
                if in_i32_range(q) && key_at(q) == key_at(position@) {
                    lemma_coord_key_injective(q.0 as i32, q.1 as i32, position.x, position.y);
                }
            }
        }
    }

    /// Clears the render-dirty flag of the chunk at `position`; the renderer
    /// calls this after uploading the chunk's buffer.
    pub fn clear_dirty(&mut self, position: TilemapChunkPosition)
        requires
            old(self)@.contains_key(position@),
        ensures
            final(self)@.dom() == old(self)@.dom(),
            forall|q: (int, int)|
                #[trigger] final(self)@.contains_key(q) && q != position@ ==> final(self)@[q]
                    == old(self)@[q],
            final(self)@[position@].entity == old(self)@[position@].entity,
            final(self)@[position@].position == old(self)@[position@].position,
            final(self)@[position@].indices@ == old(self)@[position@].indices@,
            final(self)@[position@].render_dirty == false,
            final(self).order() == old(self).order(),
    {
        let k = coord_key_exec(position.x, position.y);
        let mut ch = match self.lookup.remove(&k) {
            Some(c) => c,
            None => vstd::pervasive::unreached(),
        };
        ch.render_dirty = false;
        self.lookup.insert(k, ch);
        proof {
            assert forall|q: (int, int)| #[trigger]
                self@.contains_key(q) == old(self)@.contains_key(q) by {
                if in_i32_range(q) && key_at(q) == key_at(position@) {
                    lemma_coord_key_injective(q.0 as i32, q.1 as i32, position.x, position.y);
                }
            }
            assert(self@.dom() =~= old(self)@.dom());
            assert forall|q: (int, int)| #[trigger]
                self@.contains_key(q) && q != position@ implies self@[q] == old(self)@[q] by {
                if in_i32_range(q) && key_at(q) == key_at(position@) {
                    lemma_coord_key_injective(q.0 as i32, q.1 as i32, position.x, position.y);
                }
            }
        }
    }
}


/// Ghost projection of a whole tilemap: its configuration, the tile records
/// by entity, the two spatial indexes, and the two ordered entity
/// collections.
pub struct TilemapView {
    /// The size of each tile in pixels.
    pub tile_size: u32,
    /// The size of each chunk in tiles.
    pub chunk_size: u32,
    /// Every live tile's record, keyed by its entity.
    pub tiles: Map<u64, TileRecord>,
    /// The spatial index: tile position to tile entity.
    pub index: Map<(int, int), u64>,
    /// The chunk index: chunk position to chunk record.
    pub chunks: Map<(int, int), TilemapChunk>,
    /// Tile entities in insertion order.
    pub tile_order: Seq<u64>,
    /// Chunk entities in creation order.
    pub chunk_order: Seq<u64>,
}

impl TilemapView {
    /// The texture that the source-of-truth spatial index assigns to position
    /// `p`: the occupying tile's texture, or `None` when `p` is vacant.
    pub open spec fn tex_at(self, p: (int, int)) -> Option<u16> {
        if self.index.contains_key(p) && self.tiles.contains_key(self.index[p]) {
            Some(self.tiles[self.index[p]].texture.0)
        } else {
            None
        }
    }

    /// The two directions of the spatial index agree: every tile record is
    /// registered under exactly its current position, and every index entry
    /// points back to a live tile at that position.
    pub open spec fn index_consistent(self) -> bool {
        &&& forall|e: u64| #[trigger] self.tiles.contains_key(e) ==> {
            &&& self.index.contains_key(self.tiles[e].position@)
            &&& self.index[self.tiles[e].position@] == e
        }
        &&& forall|p: (int, int)| #[trigger] self.index.contains_key(p) ==> {
            &&& in_i32_range(p)
            &&& self.tiles.contains_key(self.index[p])
            &&& self.tiles[self.index[p]].position@ == p
        }
    }

    /// Structural well-formedness of the chunk store: a valid configuration,
    /// and every chunk record keyed by its own position with a buffer of
    /// length `chunk_size * chunk_size`.
    pub open spec fn chunks_wf(self) -> bool {
        &&& 1 <= self.chunk_size <= MAX_CHUNK_SIZE
        &&& 1 <= self.tile_size
        &&& forall|cp: (int, int)| #[trigger] self.chunks.contains_key(cp) ==> {
            &&& in_i32_range(cp)
            &&& self.chunks[cp].indices@.len() == self.chunk_size * self.chunk_size
            &&& self.chunks[cp].position@ == cp
        }
    }

    /// Slot `i` of the chunk at `cp` shows exactly what the spatial index
    /// holds at the corresponding tile position.
    pub open spec fn chunk_slot_ok(self, cp: (int, int), i: int) -> bool {
        self.chunks[cp].indices@[i] == self.tex_at(slot_position(cp, i, self.chunk_size as int))
    }

    /// Full synchronization: every indexed tile's chunk exists, and every
    /// slot of every chunk buffer shows the index's truth — the occupying
    /// tile's texture, or "empty".
    pub open spec fn synced(self) -> bool {
        &&& forall|p: (int, int)| #[trigger] self.index.contains_key(p)
            ==> self.chunks.contains_key(chunk_of(p, self.chunk_size as int))
        &&& forall|cp: (int, int), i: int|
            self.chunks.contains_key(cp) && 0 <= i < self.chunk_size * self.chunk_size
                ==> #[trigger] self.chunk_slot_ok(cp, i)
    }
}

/// Whether one dirty entry obliges the synchronization pass to rewrite the
/// slot of position `p`: it is the entry's recorded previous position, or the
/// current position of the entry's still-live tile.
spec fn entry_covers(v: TilemapView, en: DirtyEntry, p: (int, int)) -> bool {
    ||| (en.old_position matches Some(q) && q@ == p)
    ||| (v.tiles.contains_key(en.entity) && v.tiles[en.entity].position@ == p)
}

/// Whether any dirty entry at position `from` or later covers position `p`.
spec fn pending_at(v: TilemapView, entries: Seq<DirtyEntry>, from: int, p: (int, int)) -> bool {
    exists|j: int| from <= j < entries.len() && entry_covers(v, #[trigger] entries[j], p)
}

/// Whether any dirty entry at position `from` or later mentions tile `e`.
spec fn covers_tile(entries: Seq<DirtyEntry>, from: int, e: u64) -> bool {
    exists|j: int| from <= j < entries.len() && (#[trigger] entries[j]).entity == e
}

/// Tile `e`'s owning chunk exists and shows `e`'s texture at `e`'s slot.
spec fn tile_placed(v: TilemapView, e: u64) -> bool {
    let c = v.chunk_size as int;
    let p = v.tiles[e].position@;
    &&& v.chunks.contains_key(chunk_of(p, c))
    &&& v.chunks[chunk_of(p, c)].indices@[slot_of(p, c)] == Some(v.tiles[e].texture.0)
}

/// Every live tile that no remaining dirty entry mentions is already placed
/// in its chunk's buffer.
spec fn clean_tiles_placed(v: TilemapView, entries: Seq<DirtyEntry>, from: int) -> bool {
    forall|e: u64| #[trigger] v.tiles.contains_key(e) && !covers_tile(entries, from, e)
        ==> tile_placed(v, e)
}

/// Every chunk slot whose position no remaining dirty entry covers already
/// shows the index's truth.
spec fn quiet_slots_ok(v: TilemapView, entries: Seq<DirtyEntry>, from: int) -> bool {
    forall|cp: (int, int), i: int|
        v.chunks.contains_key(cp) && 0 <= i < v.chunk_size * v.chunk_size && !pending_at(
            v,
            entries,
            from,
            slot_position(cp, i, v.chunk_size as int),
        ) ==> #[trigger] v.chunk_slot_ok(cp, i)
}

/// Tile entities are listed once each, and exactly the live tiles are
/// listed.
spec fn tile_ids_wf(v: TilemapView) -> bool {
    &&& forall|i: int, j: int|
        0 <= i < j < v.tile_order.len() ==> #[trigger] v.tile_order[i] != #[trigger] v.tile_order[j]
    &&& forall|i: int|
        0 <= i < v.tile_order.len() ==> v.tiles.contains_key(#[trigger] v.tile_order[i])
    &&& forall|e: u64| #[trigger] v.tiles.contains_key(e) ==> v.tile_order.contains(e)
}

/// Chunk entities are consecutive creation numbers, and every chunk's
/// identity was handed out before the next one.
spec fn chunk_ids_wf(v: TilemapView) -> bool {
    &&& forall|j: int| 0 <= j < v.chunk_order.len() ==> #[trigger] v.chunk_order[j] == j as u64
    &&& forall|cp: (int, int)| #[trigger] v.chunks.contains_key(cp)
        ==> v.chunks[cp].entity < v.chunk_order.len()
}

/// A tilemap: its configuration, the tile records, the two spatial indexes,
/// and the dirty set drained by the next synchronization pass.
pub struct Tilemap {
    tile_size: u32,
    chunk_size: u32,
    tiles: TilemapTiles,
    chunks: TilemapChunks,
    records: HashMap<u64, TileRecord>,
    dirty: Vec<DirtyEntry>,
}

impl View for Tilemap {
    type V = TilemapView;

    closed spec fn view(&self) -> TilemapView {
        TilemapView {
            tile_size: self.tile_size,
            chunk_size: self.chunk_size,
            tiles: self.records@,
            index: self.tiles@,
            chunks: self.chunks@,
            tile_order: self.tiles.order(),
            chunk_order: self.chunks.order(),
        }
    }
}

impl Tilemap {
    /// The tilemap's internal invariant with only the dirty entries from
    /// position `from` onward still outstanding.
    spec fn inv_from(&self, from: int) -> bool {
        &&& self@.index_consistent()
        &&& self@.chunks_wf()
        &&& tile_ids_wf(self@)
        &&& chunk_ids_wf(self@)
        &&& clean_tiles_placed(self@, self.dirty@, from)
        &&& quiet_slots_ok(self@, self.dirty@, from)
    }

    /// The tilemap's internal invariant: the spatial index is bidirectionally
    /// consistent, chunk records are well-formed, and every part of the state
    /// that no dirty entry covers is already synchronized.
    pub closed spec fn inv(&self) -> bool {
        self.inv_from(0)
    }

    /// Creates an empty, synchronized tilemap with a validated
    /// configuration.
    fn empty(tile_size: u32, chunk_size: u32) -> (m: Tilemap)
        requires
            1 <= tile_size,
            1 <= chunk_size <= MAX_CHUNK_SIZE,
        ensures
            m.inv(),
            m@.index_consistent(),
            m@.chunks_wf(),
            m@.tile_size == tile_size,
            m@.chunk_size == chunk_size,
            m@.tiles == Map::<u64, TileRecord>::empty(),
            m@.index == Map::<(int, int), u64>::empty(),
            m@.chunks == Map::<(int, int), TilemapChunk>::empty(),
            m@.tile_order == Seq::<u64>::empty(),
            m@.chunk_order == Seq::<u64>::empty(),
            m@.synced(),
    {
        let m = Tilemap {
            tile_size,
            chunk_size,
            tiles: TilemapTiles::new(),
            chunks: TilemapChunks::new(),
            records: HashMap::new(),
            dirty: Vec::new(),
        };
        proof {
            assert(m@.tiles =~= Map::<u64, TileRecord>::empty());
        }
        m
    }

    /// Creates a tilemap with the given tile size (pixels per tile edge) and
    /// chunk size (tiles per chunk edge).  A zero tile size, a zero chunk
    /// size, or a chunk size too large for 32-bit buffer indexing is a
    /// configuration error.
    pub fn new(tile_size: u32, chunk_size: u32) -> (r: Result<Tilemap, TilemapError>)
        ensures
            match r {
                Ok(m) => {
                    &&& 1 <= tile_size
                    &&& 1 <= chunk_size <= MAX_CHUNK_SIZE
                    &&& m.inv()
                    &&& m@.index_consistent()
                    &&& m@.chunks_wf()
                    &&& m@.tile_size == tile_size
                    &&& m@.chunk_size == chunk_size
                    &&& m@.tiles == Map::<u64, TileRecord>::empty()
                    &&& m@.index == Map::<(int, int), u64>::empty()
                    &&& m@.chunks == Map::<(int, int), TilemapChunk>::empty()
                    &&& m@.tile_order == Seq::<u64>::empty()
                    &&& m@.chunk_order == Seq::<u64>::empty()
                    &&& m@.synced()
                },
                Err(e) => {
                    &&& !(1 <= tile_size && 1 <= chunk_size <= MAX_CHUNK_SIZE)
                    &&& e == (if tile_size == 0 {
                        TilemapError::InvalidTileSize
                    } else {
                        TilemapError::InvalidChunkSize
                    })
                },
            },
    {
        if tile_size == 0 {
            Err(TilemapError::InvalidTileSize)
        } else if chunk_size == 0 || chunk_size > MAX_CHUNK_SIZE {
            Err(TilemapError::InvalidChunkSize)
        } else {
            Ok(Self::empty(tile_size, chunk_size))
        }
    }

    /// Creates a tilemap with the given tile size and the default chunk
    /// size.
    pub fn from_tile_size(tile_size: u32) -> (r: Result<Tilemap, TilemapError>)
        ensures
            match r {
                Ok(m) => {
                    &&& 1 <= tile_size
                    &&& m.inv()
                    &&& m@.index_consistent()
                    &&& m@.chunks_wf()
                    &&& m@.tile_size == tile_size
                    &&& m@.chunk_size == DEFAULT_CHUNK_SIZE
                    &&& m@.tiles == Map::<u64, TileRecord>::empty()
                    &&& m@.index == Map::<(int, int), u64>::empty()
                    &&& m@.chunks == Map::<(int, int), TilemapChunk>::empty()
                    &&& m@.tile_order == Seq::<u64>::empty()
                    &&& m@.chunk_order == Seq::<u64>::empty()
                    &&& m@.synced()
                },
                Err(e) => tile_size == 0 && e == TilemapError::InvalidTileSize,
            },
    {
        Self::new(tile_size, DEFAULT_CHUNK_SIZE)
    }

    /// The size of each tile in pixels.
    pub fn tile_size(&self) -> (s: u32)
        ensures
            s == self@.tile_size,
    {
        self.tile_size
    }

    /// The size of each chunk in tiles.
    pub fn chunk_size(&self) -> (s: u32)
        ensures
            s == self@.chunk_size,
    {
        self.chunk_size
    }

    /// Looks up the tile entity at a position.
    pub fn get_tile(&self, position: TilePosition) -> (r: Option<u64>)
        ensures
            r == if self@.index.contains_key(position@) {
                Some(self@.index[position@])
            } else {
                None::<u64>
            },
    {
        self.tiles.get(position)
    }

    /// Looks up a live tile's record by its entity.
    pub fn get_tile_record(&self, entity: u64) -> (r: Option<TileRecord>)
        ensures
            r == if self@.tiles.contains_key(entity) {
                Some(self@.tiles[entity])
            } else {
                None::<TileRecord>
            },
    {
        match self.records.get(&entity) {
            Some(t) => Some(*t),
            None => None,
        }
    }

    /// Looks up the chunk record at a chunk position.
    pub fn chunk_at(&self, position: TilemapChunkPosition) -> (r: Option<&TilemapChunk>)
        ensures
            match r {
                Some(ch) => self@.chunks.contains_key(position@) && *ch == self@.chunks[position@],
                None => !self@.chunks.contains_key(position@),
            },
    {
        self.chunks.get(position)
    }

    /// All tile entities of the tilemap, in insertion order.
    pub fn tile_entities(&self) -> (r: &Vec<u64>)
        ensures
            r@ == self@.tile_order,
    {
        self.tiles.entities_vec()
    }

    /// All chunk entities of the tilemap, in creation order.
    pub fn chunk_entities(&self) -> (r: &Vec<u64>)
        ensures
            r@ == self@.chunk_order,
    {
        self.chunks.entities_vec()
    }

    /// Attaches a new tile at a free position with the given texture and
    /// marks it dirty for the next synchronization pass.  The entity is the
    /// host's opaque handle for the tile; per the spatial-index contract the
    /// caller keeps handles unique and clears a removed tile's position
    /// before reusing either.
    pub fn insert_tile(&mut self, entity: u64, position: TilePosition, texture: TileTextureIndex)
        requires
            old(self).inv(),
            !old(self)@.tiles.contains_key(entity),
            !old(self)@.index.contains_key(position@),
        ensures
            final(self).inv(),
            final(self)@.index_consistent(),
            final(self)@.chunks_wf(),
            final(self)@.tiles == old(self)@.tiles.insert(
                entity,
                (TileRecord { position, texture }),
            ),
            final(self)@.index == old(self)@.index.insert(position@, entity),
            final(self)@.chunks == old(self)@.chunks,
            final(self)@.tile_order == old(self)@.tile_order.push(entity),
            final(self)@.chunk_order == old(self)@.chunk_order,
            final(self)@.tile_size == old(self)@.tile_size,
            final(self)@.chunk_size == old(self)@.chunk_size,
    {
        self.records.insert(entity, TileRecord { position, texture });
        self.tiles.insert(position, entity);
        self.tiles.attach(entity);
        self.dirty.push(DirtyEntry { entity, old_position: None });
        proof {
            let v0 = old(self)@;
            let v = self@;
            let entries0 = old(self).dirty@;
            let en = DirtyEntry { entity, old_position: None };
            let entries = entries0.push(en);
            assert(self.dirty@ == entries);
            assert(v.chunks == v0.chunks);
            assert(v.chunk_order == v0.chunk_order);
            assert(v.chunk_size == v0.chunk_size);
            assert(v.tile_size == v0.tile_size);
            assert(entries[entries0.len() as int].entity == entity);
            assert(covers_tile(entries, 0, entity));
            assert forall|e2: u64| #[trigger] v.tiles.contains_key(e2) implies (
            v.index.contains_key(v.tiles[e2].position@) && v.index[v.tiles[e2].position@]
                == e2) by {
                if e2 != entity {
                    assert(v0.tiles.contains_key(e2));
                    assert(v0.tiles[e2].position@ != position@);
                }
            }
            assert forall|p: (int, int)| #[trigger] v.index.contains_key(p) implies (in_i32_range(p)
                && v.tiles.contains_key(v.index[p]) && v.tiles[v.index[p]].position@ == p) by {
                if p != position@ {
                    assert(v0.index.contains_key(p));
                    assert(v0.tiles.contains_key(v0.index[p]));
                }
            }
            assert(v.index_consistent());
            assert(v.chunks_wf());
            assert forall|i: int, j: int| 0 <= i < j < v.tile_order.len() implies #[trigger] v
                .tile_order[i] != #[trigger] v.tile_order[j] by {
                if j == v0.tile_order.len() {
                    assert(v0.tiles.contains_key(v0.tile_order[i]));
                }
            }
            assert forall|i: int| 0 <= i < v.tile_order.len() implies v.tiles.contains_key(
                #[trigger] v.tile_order[i],
            ) by {
                if i < v0.tile_order.len() {
                    assert(v0.tiles.contains_key(v0.tile_order[i]));
                }
            }
            assert forall|e2: u64| #[trigger] v.tiles.contains_key(e2) implies v.tile_order.contains(
                e2,
            ) by {
                if e2 == entity {
                    assert(v.tile_order[v0.tile_order.len() as int] == e2);
                } else {
                    let i = choose|i: int|
                        0 <= i < v0.tile_order.len() && v0.tile_order[i] == e2;
                    assert(v.tile_order[i] == e2);
                }
            }
            assert(tile_ids_wf(v));
            assert(chunk_ids_wf(v));
            assert forall|p: (int, int)| #[trigger] pending_at(v0, entries0, 0, p) implies pending_at(
                v,
                entries,
                0,
                p,
            ) by {
                let j = choose|j: int|
                    0 <= j < entries0.len() && entry_covers(v0, entries0[j], p);
                assert(entries[j] == entries0[j]);
                if v0.tiles.contains_key(entries0[j].entity) && v0.tiles[entries0[j].entity].position@
                    == p {
                    assert(entries0[j].entity != entity);
                    assert(v.tiles[entries[j].entity].position@ == p);
                }
                assert(entry_covers(v, entries[j], p));
            }
            assert forall|p: (int, int)| !pending_at(v, entries, 0, p) implies #[trigger] v.tex_at(p)
                == v0.tex_at(p) by {
                assert(v.tiles[entity].position@ == position@);
                assert(entry_covers(v, entries[entries0.len() as int], position@));
                assert(pending_at(v, entries, 0, position@));
                assert(p != position@);
                if v0.index.contains_key(p) {
                    assert(v0.tiles.contains_key(v0.index[p]));
                    assert(v0.index[p] != entity);
                }
            }
            lemma_dirty_extension(v0, v, entries0, en);
        }
    }

    /// Changes a live tile's texture and marks it dirty for the next
    /// synchronization pass.
    pub fn set_tile_texture(&mut self, entity: u64, texture: TileTextureIndex)
        requires
            old(self).inv(),
            old(self)@.tiles.contains_key(entity),
        ensures
            final(self).inv(),
            final(self)@.index_consistent(),
            final(self)@.chunks_wf(),
            final(self)@.tiles == old(self)@.tiles.insert(
                entity,
                (TileRecord { position: old(self)@.tiles[entity].position, texture }),
            ),
            final(self)@.index == old(self)@.index,
            final(self)@.chunks == old(self)@.chunks,
            final(self)@.tile_order == old(self)@.tile_order,
            final(self)@.chunk_order == old(self)@.chunk_order,
            final(self)@.tile_size == old(self)@.tile_size,
            final(self)@.chunk_size == old(self)@.chunk_size,
    {
        let rec = match self.records.get(&entity) {
            Some(t) => *t,
            None => vstd::pervasive::unreached(),
        };
        self.records.insert(entity, TileRecord { position: rec.position, texture });
        self.dirty.push(DirtyEntry { entity, old_position: None });
        proof {
            let v0 = old(self)@;
            let v = self@;
            let entries0 = old(self).dirty@;
            let en = DirtyEntry { entity, old_position: None };
            let entries = entries0.push(en);
            assert(self.dirty@ == entries);
            assert(v.chunks == v0.chunks);
            assert(v.chunk_order == v0.chunk_order);
            assert(v.chunk_size == v0.chunk_size);
            assert(v.tile_size == v0.tile_size);
            assert(v.index == v0.index);
            assert(v.tile_order == v0.tile_order);
            assert(entries[entries0.len() as int].entity == entity);
            assert(covers_tile(entries, 0, entity));
            assert forall|e2: u64| #[trigger] v.tiles.contains_key(e2) implies (
            v.index.contains_key(v.tiles[e2].position@) && v.index[v.tiles[e2].position@]
                == e2) by {
                assert(v0.tiles.contains_key(e2));
            }
            assert(v.index_consistent());
            assert(v.chunks_wf());
            assert forall|i: int| 0 <= i < v.tile_order.len() implies v.tiles.contains_key(
                #[trigger] v.tile_order[i],
            ) by {
                assert(v0.tiles.contains_key(v0.tile_order[i]));
            }
            assert forall|e2: u64| #[trigger] v.tiles.contains_key(e2) implies v.tile_order.contains(
                e2,
            ) by {
                assert(v0.tiles.contains_key(e2));
            }
            assert(tile_ids_wf(v));
            assert(chunk_ids_wf(v));
            assert forall|p: (int, int)| #[trigger] pending_at(v0, entries0, 0, p) implies pending_at(
                v,
                entries,
                0,
                p,
            ) by {
                let j = choose|j: int|
                    0 <= j < entries0.len() && entry_covers(v0, entries0[j], p);
                assert(entries[j] == entries0[j]);
                if v0.tiles.contains_key(entries0[j].entity) && v0.tiles[entries0[j].entity].position@
                    == p {
                    assert(v.tiles.contains_key(entries[j].entity));
                    assert(v.tiles[entries[j].entity].position@ == p);
                }
                assert(entry_covers(v, entries[j], p));
            }
            assert forall|p: (int, int)| !pending_at(v, entries, 0, p) implies #[trigger] v.tex_at(p)
                == v0.tex_at(p) by {
                assert(v.tiles[entity].position@ == v0.tiles[entity].position@);
                assert(entry_covers(v, entries[entries0.len() as int], v.tiles[entity].position@));
                assert(pending_at(v, entries, 0, v.tiles[entity].position@));
                assert(p != v.tiles[entity].position@);
                if v0.index.contains_key(p) {
                    assert(v0.tiles.contains_key(v0.index[p]));
                    assert(v0.tiles[v0.index[p]].position@ == p);
                    assert(v0.index[p] != entity);
                }
            }
            lemma_dirty_extension(v0, v, entries0, en);
        }
    }

    /// Moves a live tile to a new position (which must be free, or the
    /// tile's own), re-registers it in the spatial index, and records the
    /// vacated position so the next synchronization pass clears its old
    /// slot.  A tile never stays live in two chunks.
    pub fn move_tile(&mut self, entity: u64, new_position: TilePosition)
        requires
            old(self).inv(),
            old(self)@.tiles.contains_key(entity),
            !old(self)@.index.contains_key(new_position@) || old(self)@.index[new_position@]
                == entity,
        ensures
            final(self).inv(),
            final(self)@.index_consistent(),
            final(self)@.chunks_wf(),
            final(self)@.tiles == old(self)@.tiles.insert(
                entity,
                (TileRecord {
                    position: new_position,
                    texture: old(self)@.tiles[entity].texture,
                }),
            ),
            final(self)@.index == old(self)@.index.remove(
                old(self)@.tiles[entity].position@,
            ).insert(new_position@, entity),
            final(self)@.chunks == old(self)@.chunks,
            final(self)@.tile_order == old(self)@.tile_order,
            final(self)@.chunk_order == old(self)@.chunk_order,
            final(self)@.tile_size == old(self)@.tile_size,
            final(self)@.chunk_size == old(self)@.chunk_size,
    {
        let rec = match self.records.get(&entity) {
            Some(t) => *t,
            None => vstd::pervasive::unreached(),
        };
        self.tiles.remove(rec.position);
        self.tiles.insert(new_position, entity);
        self.records.insert(entity, TileRecord { position: new_position, texture: rec.texture });
        self.dirty.push(DirtyEntry { entity, old_position: Some(rec.position) });
        proof {
            let v0 = old(self)@;
            let v = self@;
            let p1 = v0.tiles[entity].position@;
            let p2 = new_position@;
            let entries0 = old(self).dirty@;
            let en = DirtyEntry { entity, old_position: Some(rec.position) };
            let entries = entries0.push(en);
            assert(self.dirty@ == entries);
            assert(entries[entries0.len() as int].entity == entity);
            assert(covers_tile(entries, 0, entity));
            assert(v0.index.contains_key(p1) && v0.index[p1] == entity);
            assert forall|e2: u64| #[trigger] v.tiles.contains_key(e2) implies (
            v.index.contains_key(v.tiles[e2].position@) && v.index[v.tiles[e2].position@]
                == e2) by {
                if e2 != entity {
                    assert(v0.tiles.contains_key(e2));
                    let pe = v0.tiles[e2].position@;
                    assert(v0.index.contains_key(pe) && v0.index[pe] == e2);
                    assert(pe != p1);
                    assert(pe != p2);
                }
            }
            assert forall|p: (int, int)| #[trigger] v.index.contains_key(p) implies (in_i32_range(p)
                && v.tiles.contains_key(v.index[p]) && v.tiles[v.index[p]].position@ == p) by {
                if p != p2 {
                    assert(p != p1);
                    assert(v0.index.contains_key(p));
                    assert(v0.tiles.contains_key(v0.index[p]));
                    assert(v0.tiles[v0.index[p]].position@ == p);
                    assert(v0.index[p] != entity);
                }
            }
            assert(v.index_consistent());
            assert(v.chunks == v0.chunks);
            assert(v.chunk_order == v0.chunk_order);
            assert(v.tile_order == v0.tile_order);
            assert(v.chunk_size == v0.chunk_size);
            assert(v.tile_size == v0.tile_size);
            assert(v.chunks_wf());
            assert forall|i: int| 0 <= i < v.tile_order.len() implies v.tiles.contains_key(
                #[trigger] v.tile_order[i],
            ) by {
                assert(v0.tiles.contains_key(v0.tile_order[i]));
            }
            assert forall|e2: u64| #[trigger] v.tiles.contains_key(e2) implies v.tile_order.contains(
                e2,
            ) by {
                assert(v0.tiles.contains_key(e2));
            }
            assert(tile_ids_wf(v));
            assert(chunk_ids_wf(v));
            assert forall|p: (int, int)| #[trigger] pending_at(v0, entries0, 0, p) implies pending_at(
                v,
                entries,
                0,
                p,
            ) by {
                let j = choose|j: int|
                    0 <= j < entries0.len() && entry_covers(v0, entries0[j], p);
                assert(entries[j] == entries0[j]);
                if !(entries0[j].old_position matches Some(q) && q@ == p) {
                    // the old entry covered p through its tile's position
                    if entries0[j].entity == entity {
                        assert(p == p1);
                        assert(en.old_position matches Some(q) && q@ == p);
                        assert(entry_covers(v, entries[entries0.len() as int], p));
                    } else {
                        assert(v.tiles.contains_key(entries[j].entity));
                        assert(v.tiles[entries[j].entity].position@ == p);
                        assert(entry_covers(v, entries[j], p));
                    }
                } else {
                    assert(entry_covers(v, entries[j], p));
                }
            }
            assert forall|p: (int, int)| !pending_at(v, entries, 0, p) implies #[trigger] v.tex_at(p)
                == v0.tex_at(p) by {
                assert(en.old_position matches Some(q) && q@ == p1);
                assert(entry_covers(v, entries[entries0.len() as int], p1));
                assert(pending_at(v, entries, 0, p1));
                assert(v.tiles[entity].position@ == p2);
                assert(entry_covers(v, entries[entries0.len() as int], p2));
                assert(pending_at(v, entries, 0, p2));
                assert(p != p1 && p != p2);
                if v0.index.contains_key(p) {
                    assert(v0.tiles.contains_key(v0.index[p]));
                    assert(v0.tiles[v0.index[p]].position@ == p);
                    assert(v0.index[p] != entity);
                }
            }
            lemma_dirty_extension(v0, v, entries0, en);
        }
    }

    /// Detaches a live tile: removes it from the spatial index and from the
    /// ordered entity collection, and records its vacated position so the
    /// next synchronization pass clears its slot.
    pub fn remove_tile(&mut self, entity: u64)
        requires
            old(self).inv(),
            old(self)@.tiles.contains_key(entity),
        ensures
            final(self).inv(),
            final(self)@.index_consistent(),
            final(self)@.chunks_wf(),
            final(self)@.tiles == old(self)@.tiles.remove(entity),
            final(self)@.index == old(self)@.index.remove(old(self)@.tiles[entity].position@),
            final(self)@.chunks == old(self)@.chunks,
            final(self)@.tile_order == old(self)@.tile_order.remove_value(entity),
            final(self)@.chunk_order == old(self)@.chunk_order,
            final(self)@.tile_size == old(self)@.tile_size,
            final(self)@.chunk_size == old(self)@.chunk_size,
    {
        let rec = match self.records.get(&entity) {
            Some(t) => *t,
            None => vstd::pervasive::unreached(),
        };
        self.records.remove(&entity);
        self.tiles.remove(rec.position);
        proof {
            assert(old(self)@.tile_order.contains(entity));
        }
        self.tiles.detach(entity);
        self.dirty.push(DirtyEntry { entity, old_position: Some(rec.position) });
        proof {
            let v0 = old(self)@;
            let v = self@;
            let p1 = v0.tiles[entity].position@;
            let entries0 = old(self).dirty@;
            let en = DirtyEntry { entity, old_position: Some(rec.position) };
            let entries = entries0.push(en);
            assert(self.dirty@ == entries);
            assert(v.chunks == v0.chunks);
            assert(v.chunk_order == v0.chunk_order);
            assert(v.chunk_size == v0.chunk_size);
            assert(v.tile_size == v0.tile_size);
            assert(v0.index.contains_key(p1) && v0.index[p1] == entity);
            assert forall|e2: u64| #[trigger] v.tiles.contains_key(e2) implies (
            v.index.contains_key(v.tiles[e2].position@) && v.index[v.tiles[e2].position@]
                == e2) by {
                assert(e2 != entity);
                assert(v0.tiles.contains_key(e2));
                let pe = v0.tiles[e2].position@;
                assert(v0.index.contains_key(pe) && v0.index[pe] == e2);
                assert(pe != p1);
            }
            assert forall|p: (int, int)| #[trigger] v.index.contains_key(p) implies (in_i32_range(p)
                && v.tiles.contains_key(v.index[p]) && v.tiles[v.index[p]].position@ == p) by {
                assert(p != p1);
                assert(v0.index.contains_key(p));
                assert(v0.tiles.contains_key(v0.index[p]));
                assert(v0.tiles[v0.index[p]].position@ == p);
                assert(v0.index[p] != entity);
            }
            assert(v.index_consistent());
            assert(v.chunks_wf());
            // the ordered collection: removing the single occurrence of the
            // detached entity
            let ord0 = v0.tile_order;
            ord0.index_of_first_ensures(entity);
            let f = ord0.index_of_first(entity).unwrap();
            ord0.remove_ensures(f);
            assert(v.tile_order == ord0.remove(f));
            assert forall|i: int, j: int| 0 <= i < j < v.tile_order.len() implies #[trigger] v
                .tile_order[i] != #[trigger] v.tile_order[j] by {
                let i0: int = if i < f { i } else { i + 1 };
                let j0: int = if j < f { j } else { j + 1 };
                assert(v.tile_order[i] == ord0[i0]);
                assert(v.tile_order[j] == ord0[j0]);
            }
            assert forall|i: int| 0 <= i < v.tile_order.len() implies v.tiles.contains_key(
                #[trigger] v.tile_order[i],
            ) by {
                let i0: int = if i < f { i } else { i + 1 };
                assert(v.tile_order[i] == ord0[i0]);
                assert(v0.tiles.contains_key(ord0[i0]));
                assert(ord0[i0] != entity);
            }
            assert forall|e2: u64| #[trigger] v.tiles.contains_key(e2) implies v.tile_order.contains(
                e2,
            ) by {
                assert(e2 != entity);
                assert(v0.tiles.contains_key(e2));
                assert(ord0.contains(e2));
                let i0 = choose|i0: int| 0 <= i0 < ord0.len() && ord0[i0] == e2;
                let i: int = if i0 < f { i0 } else { i0 - 1 };
                assert(i0 != f);
                assert(v.tile_order[i] == ord0[i0]);
            }
            assert(tile_ids_wf(v));
            assert(chunk_ids_wf(v));
            assert forall|p: (int, int)| #[trigger] pending_at(v0, entries0, 0, p) implies pending_at(
                v,
                entries,
                0,
                p,
            ) by {
                let j = choose|j: int|
                    0 <= j < entries0.len() && entry_covers(v0, entries0[j], p);
                assert(entries[j] == entries0[j]);
                if !(entries0[j].old_position matches Some(q) && q@ == p) {
                    if entries0[j].entity == entity {
                        assert(p == p1);
                        assert(en.old_position matches Some(q) && q@ == p);
                        assert(entry_covers(v, entries[entries0.len() as int], p));
                    } else {
                        assert(v.tiles.contains_key(entries[j].entity));
                        assert(v.tiles[entries[j].entity].position@ == p);
                        assert(entry_covers(v, entries[j], p));
                    }
                } else {
                    assert(entry_covers(v, entries[j], p));
                }
            }
            assert forall|p: (int, int)| !pending_at(v, entries, 0, p) implies #[trigger] v.tex_at(p)
                == v0.tex_at(p) by {
                assert(en.old_position matches Some(q) && q@ == p1);
                assert(entry_covers(v, entries[entries0.len() as int], p1));
                assert(pending_at(v, entries, 0, p1));
                assert(p != p1);
                if v0.index.contains_key(p) {
                    assert(v0.tiles.contains_key(v0.index[p]));
                    assert(v0.tiles[v0.index[p]].position@ == p);
                    assert(v0.index[p] != entity);
                }
            }
            lemma_dirty_extension(v0, v, entries0, en);
        }
    }

    /// Clears the render-dirty flag of the chunk at `position`; the renderer
    /// calls this after consuming (uploading) the chunk's buffer.
    pub fn mark_chunk_clean(&mut self, position: TilemapChunkPosition)
        requires
            old(self).inv(),
            old(self)@.chunks.contains_key(position@),
        ensures
            final(self).inv(),
            final(self)@.index_consistent(),
            final(self)@.chunks_wf(),
            final(self)@.tiles == old(self)@.tiles,
            final(self)@.index == old(self)@.index,
            final(self)@.tile_order == old(self)@.tile_order,
            final(self)@.chunk_order == old(self)@.chunk_order,
            final(self)@.tile_size == old(self)@.tile_size,
            final(self)@.chunk_size == old(self)@.chunk_size,
            final(self)@.chunks.dom() == old(self)@.chunks.dom(),
            forall|q: (int, int)|
                #[trigger] final(self)@.chunks.contains_key(q) && q != position@ ==> final(self)@.chunks[q] == old(self)@.chunks[q],
            final(self)@.chunks[position@].entity == old(self)@.chunks[position@].entity,
            final(self)@.chunks[position@].position == old(self)@.chunks[position@].position,
            final(self)@.chunks[position@].indices@ == old(self)@.chunks[position@].indices@,
            final(self)@.chunks[position@].render_dirty == false,
    {
        self.chunks.clear_dirty(position);
        proof {
            let v0 = old(self)@;
            let v = self@;
            assert(v.tiles == v0.tiles);
            assert(v.index == v0.index);
            assert(v.tile_order == v0.tile_order);
            assert(v.chunk_order == v0.chunk_order);
            assert(v.chunk_size == v0.chunk_size);
            assert(v.tile_size == v0.tile_size);
            assert(v.index_consistent());
            assert forall|cp: (int, int)| #[trigger] v.chunks.contains_key(cp) implies (in_i32_range(
                cp,
            ) && v.chunks[cp].indices@.len() == v.chunk_size * v.chunk_size && v.chunks[cp].position@
                == cp) by {
                assert(v0.chunks.contains_key(cp));
                if cp != position@ {
                    assert(v.chunks[cp] == v0.chunks[cp]);
                }
            }
            assert(v.chunks_wf());
            assert(tile_ids_wf(v));
            assert forall|cp: (int, int)| #[trigger] v.chunks.contains_key(cp) implies v.chunks[cp].entity
                < v.chunk_order.len() by {
                assert(v0.chunks.contains_key(cp));
                if cp != position@ {
                    assert(v.chunks[cp] == v0.chunks[cp]);
                }
            }
            assert(chunk_ids_wf(v));
            assert forall|e: u64|
                #[trigger] v.tiles.contains_key(e) && !covers_tile(self.dirty@, 0, e) implies tile_placed(
                v,
                e,
            ) by {
                assert(tile_placed(v0, e));
                let cp = chunk_of(v0.tiles[e].position@, v0.chunk_size as int);
                if cp != position@ {
                    assert(v.chunks[cp] == v0.chunks[cp]);
                }
            }
            assert forall|cp: (int, int), i: int|
                v.chunks.contains_key(cp) && 0 <= i < v.chunk_size * v.chunk_size && !pending_at(
                    v,
                    self.dirty@,
                    0,
                    slot_position(cp, i, v.chunk_size as int),
                ) implies #[trigger] v.chunk_slot_ok(cp, i) by {
                assert(v0.chunks.contains_key(cp));
                assert(pending_at(v0, self.dirty@, 0, slot_position(cp, i, v0.chunk_size as int))
                    == pending_at(v, self.dirty@, 0, slot_position(cp, i, v.chunk_size as int)));
                assert(v0.chunk_slot_ok(cp, i));
                if cp != position@ {
                    assert(v.chunks[cp] == v0.chunks[cp]);
                }
            }
        }
    }
}


/// After a mutation pushed one dirty entry: every live tile the new dirty
/// suffix does not mention, and every chunk slot whose position it does not
/// cover, is still synchronized.
proof fn lemma_dirty_extension(
    v0: TilemapView,
    v: TilemapView,
    entries0: Seq<DirtyEntry>,
    en: DirtyEntry,
)
    requires
        clean_tiles_placed(v0, entries0, 0),
        quiet_slots_ok(v0, entries0, 0),
        v.chunks == v0.chunks,
        v.chunk_size == v0.chunk_size,
        forall|e: u64|
            #[trigger] v.tiles.contains_key(e) && !covers_tile(entries0.push(en), 0, e)
                ==> v0.tiles.contains_key(e) && v.tiles[e] == v0.tiles[e],
        forall|p: (int, int)|
            #[trigger] pending_at(v0, entries0, 0, p) ==> pending_at(v, entries0.push(en), 0, p),
        forall|p: (int, int)|
            !pending_at(v, entries0.push(en), 0, p) ==> #[trigger] v.tex_at(p) == v0.tex_at(p),
    ensures
        clean_tiles_placed(v, entries0.push(en), 0),
        quiet_slots_ok(v, entries0.push(en), 0),
{
    let entries = entries0.push(en);
    assert forall|e: u64|
        #[trigger] v.tiles.contains_key(e) && !covers_tile(entries, 0, e) implies tile_placed(
        v,
        e,
    ) by {
        if covers_tile(entries0, 0, e) {
            let j = choose|j: int| 0 <= j < entries0.len() && entries0[j].entity == e;
            assert(entries[j].entity == e);
        }
        assert(v0.tiles.contains_key(e));
        assert(tile_placed(v0, e));
    }
    assert forall|cp: (int, int), i: int|
        v.chunks.contains_key(cp) && 0 <= i < v.chunk_size * v.chunk_size && !pending_at(
            v,
            entries,
            0,
            slot_position(cp, i, v.chunk_size as int),
        ) implies #[trigger] v.chunk_slot_ok(cp, i) by {
        let sp = slot_position(cp, i, v.chunk_size as int);
        assert(!pending_at(v0, entries0, 0, sp));
        assert(v0.chunk_slot_ok(cp, i));
        assert(v.tex_at(sp) == v0.tex_at(sp));
    }
}


impl Default for Tilemap {
    /// An empty, synchronized tilemap with the default tile size (16 pixels)
    /// and chunk size (64 tiles).
    fn default() -> (m: Tilemap)
        ensures
            m.inv(),
            m@.index_consistent(),
            m@.chunks_wf(),
            m@.tile_size == DEFAULT_TILE_SIZE,
            m@.chunk_size == DEFAULT_CHUNK_SIZE,
            m@.tiles == Map::<u64, TileRecord>::empty(),
            m@.index == Map::<(int, int), u64>::empty(),
            m@.chunks == Map::<(int, int), TilemapChunk>::empty(),
            m@.tile_order == Seq::<u64>::empty(),
            m@.chunk_order == Seq::<u64>::empty(),
            m@.synced(),
    {
        Tilemap::empty(DEFAULT_TILE_SIZE, DEFAULT_CHUNK_SIZE)
    }
}

/// A freshly allocated all-"empty" chunk buffer of length `n`.
fn empty_buffer(n: usize) -> (v: Vec<Option<u16>>)
    ensures
        v@.len() == n,
        forall|i: int| 0 <= i < n ==> v@[i] == None::<u16>,
{
    let mut v: Vec<Option<u16>> = Vec::new();
    let mut z: usize = 0;
    while z < n
        invariant
            z <= n,
            v@.len() == z,
            forall|i: int| 0 <= i < z ==> v@[i] == None::<u16>,
        decreases n - z,
    {
        v.push(None);
        z += 1;
    }
    v
}

impl Tilemap {
    /// Rewrites the buffer slot of position `q` — when `q`'s owning chunk
    /// exists — with what the spatial index currently holds at `q`, and
    /// marks that chunk render-dirty.  Absent chunks are left absent: slots
    /// are only cleared, never allocated, for vacated positions.
    fn write_truth_at(&mut self, q: TilePosition)
        requires
            old(self)@.index_consistent(),
            old(self)@.chunks_wf(),
            chunk_ids_wf(old(self)@),
        ensures
            final(self)@.tiles == old(self)@.tiles,
            final(self)@.index == old(self)@.index,
            final(self)@.tile_order == old(self)@.tile_order,
            final(self)@.chunk_order == old(self)@.chunk_order,
            final(self)@.tile_size == old(self)@.tile_size,
            final(self)@.chunk_size == old(self)@.chunk_size,
            final(self).dirty@ == old(self).dirty@,
            final(self)@.index_consistent(),
            final(self)@.chunks_wf(),
            chunk_ids_wf(final(self)@),
            final(self)@.chunks.dom() == old(self)@.chunks.dom(),
            forall|cp: (int, int)|
                #[trigger] final(self)@.chunks.contains_key(cp) && cp != chunk_of(
                    q@,
                    old(self)@.chunk_size as int,
                ) ==> final(self)@.chunks[cp] == old(self)@.chunks[cp],
            old(self)@.chunks.contains_key(chunk_of(q@, old(self)@.chunk_size as int)) ==> ({
                let c = old(self)@.chunk_size as int;
                let cq = chunk_of(q@, c);
                &&& final(self)@.chunks[cq].entity == old(self)@.chunks[cq].entity
                &&& final(self)@.chunks[cq].position == old(self)@.chunks[cq].position
                &&& final(self)@.chunks[cq].indices@ == old(self)@.chunks[cq].indices@.update(
                    slot_of(q@, c),
                    old(self)@.tex_at(q@),
                )
                &&& final(self)@.chunks[cq].render_dirty == true
            }),
            !old(self)@.chunks.contains_key(chunk_of(q@, old(self)@.chunk_size as int))
                ==> final(self)@.chunks == old(self)@.chunks,
    {
        let cq = q.chunk_position(self.chunk_size);
        if self.chunks.contains(cq) {
            let i = q.index_in_chunk(self.chunk_size);
            let t = match self.tiles.get(q) {
                Some(e2) => match self.records.get(&e2) {
                    Some(r) => Some(r.texture.0),
                    None => None,
                },
                None => None,
            };
            proof {
                lemma_slot_of_bounds(q@, self.chunk_size as int);
                assert(t == self@.tex_at(q@));
                assert(self@.chunks.contains_key(cq@));
                assert(self@.chunks[cq@].indices@.len() == self@.chunk_size * self@.chunk_size);
            }
            self.chunks.write_slot(cq, i, t);
            proof {
                let v0 = old(self)@;
                let v = self@;
                assert(v.tiles == v0.tiles);
                assert(v.index == v0.index);
                assert(v.index_consistent());
                assert(v.chunk_order == v0.chunk_order);
                assert forall|cp: (int, int)| #[trigger] v.chunks.contains_key(cp) implies (
                in_i32_range(cp) && v.chunks[cp].indices@.len() == v.chunk_size * v.chunk_size
                    && v.chunks[cp].position@ == cp && v.chunks[cp].entity
                    < v.chunk_order.len()) by {
                    assert(v0.chunks.contains_key(cp));
                    if cp != cq@ {
                        assert(v.chunks[cp] == v0.chunks[cp]);
                    }
                }
                assert(v.chunks_wf());
                assert(chunk_ids_wf(v));
            }
        }
    }

    /// Resolves the chunk at `cq`, creating it on first touch with a fresh
    /// identity, an all-"empty" index buffer of length
    /// `chunk_size * chunk_size`, and the render-dirty flag set.
    fn ensure_chunk(&mut self, cq: TilemapChunkPosition)
        requires
            old(self)@.chunks_wf(),
            chunk_ids_wf(old(self)@),
        ensures
            final(self)@.tiles == old(self)@.tiles,
            final(self)@.index == old(self)@.index,
            final(self)@.tile_order == old(self)@.tile_order,
            final(self)@.tile_size == old(self)@.tile_size,
            final(self)@.chunk_size == old(self)@.chunk_size,
            final(self).dirty@ == old(self).dirty@,
            final(self)@.chunks_wf(),
            chunk_ids_wf(final(self)@),
            final(self)@.chunks.contains_key(cq@),
            old(self)@.chunks.contains_key(cq@) ==> (final(self)@.chunks == old(self)@.chunks
                && final(self)@.chunk_order == old(self)@.chunk_order),
            !old(self)@.chunks.contains_key(cq@) ==> ({
                let c = old(self)@.chunk_size as int;
                &&& final(self)@.chunks.dom() == old(self)@.chunks.dom().insert(cq@)
                &&& forall|cp: (int, int)|
                    #[trigger] final(self)@.chunks.contains_key(cp) && cp != cq@
                        ==> final(self)@.chunks[cp] == old(self)@.chunks[cp]
                &&& final(self)@.chunks[cq@].entity == old(self)@.chunk_order.len()
                &&& final(self)@.chunks[cq@].position == cq
                &&& final(self)@.chunks[cq@].indices@.len() == c * c
                &&& (forall|i: int|
                    0 <= i < c * c ==> final(self)@.chunks[cq@].indices@[i] == None::<u16>)
                &&& final(self)@.chunks[cq@].render_dirty == true
                &&& final(self)@.chunk_order == old(self)@.chunk_order.push(
                    (old(self)@.chunk_order.len() as u64),
                )
            }),
    {
        if !self.chunks.contains(cq) {
            let c = self.chunk_size;
            proof {
                assert((c as usize as int) * (c as usize as int) <= 32768 * 32768) by (
                nonlinear_arith)
                    requires
                        c as usize as int <= 32768,
                ;
            }
            let n = (c as usize) * (c as usize);
            let buf = empty_buffer(n);
            let entity = self.chunks.count() as u64;
            self.chunks.insert(
                cq,
                TilemapChunk { entity, position: cq, indices: buf, render_dirty: true },
            );
            proof {
                let v0 = old(self)@;
                let v = self@;
                assert(v.chunks.dom() =~= v0.chunks.dom().insert(cq@));
                assert forall|cp: (int, int)| #[trigger] v.chunks.contains_key(cp) implies (
                in_i32_range(cp) && v.chunks[cp].indices@.len() == v.chunk_size * v.chunk_size
                    && v.chunks[cp].position@ == cp && v.chunks[cp].entity
                    < v.chunk_order.len()) by {
                    if cp != cq@ {
                        assert(v0.chunks.contains_key(cp));
                        assert(v.chunks[cp] == v0.chunks[cp]);
                    }
                }
                assert(v.chunks_wf());
                assert forall|j: int| 0 <= j < v.chunk_order.len() implies #[trigger] v
                    .chunk_order[j] == j as u64 by {
                    if j < v0.chunk_order.len() {
                        assert(v0.chunk_order[j] == j as u64);
                    }
                }
                assert(chunk_ids_wf(v));
            }
        }
    }

    /// One synchronization pass over the dirty set.
    ///
    /// Groups and processing are driven by the recorded entries: for each
    /// dirtied tile the pass clears the slot of the position the tile
    /// vacated (in its old chunk, which is never allocated just for the
    /// clear), resolves or lazily creates the tile's current owning chunk,
    /// and writes the tile's texture into its slot there.  Only touched
    /// slots are rewritten, and a touched chunk is marked render-dirty once.
    /// When the pass returns, every chunk buffer shows exactly what the
    /// spatial index holds, and the dirty set is empty.
    #[verifier::rlimit(100)]
    pub fn update_chunks(&mut self)
        requires
            old(self).inv(),
        ensures
            final(self).inv(),
            final(self)@.index_consistent(),
            final(self)@.chunks_wf(),
            final(self)@.tiles == old(self)@.tiles,
            final(self)@.index == old(self)@.index,
            final(self)@.tile_order == old(self)@.tile_order,
            final(self)@.tile_size == old(self)@.tile_size,
            final(self)@.chunk_size == old(self)@.chunk_size,
            final(self)@.synced(),
            forall|cp: (int, int)| #[trigger] old(self)@.chunks.contains_key(cp) ==> {
                &&& final(self)@.chunks.contains_key(cp)
                &&& final(self)@.chunks[cp].entity == old(self)@.chunks[cp].entity
                &&& final(self)@.chunks[cp].position == old(self)@.chunks[cp].position
                &&& (final(self)@.chunks[cp].indices@ == old(self)@.chunks[cp].indices@
                    && final(self)@.chunks[cp].render_dirty == old(self)@.chunks[
                    cp].render_dirty || final(self)@.chunks[cp].render_dirty == true)
            },
            forall|cp: (int, int)| #[trigger] final(self)@.chunks.contains_key(cp)
                ==> old(self)@.chunks.contains_key(cp) || (final(self)@.chunks[cp].render_dirty
                    == true && exists|e: u64|
                    #[trigger] final(self)@.tiles.contains_key(e) && chunk_of(
                        final(self)@.tiles[e].position@,
                        final(self)@.chunk_size as int,
                    ) == cp),
            old(self)@.chunk_order.is_prefix_of(final(self)@.chunk_order),
    {
        let ghost orig = self@;
        let ghost entries = self.dirty@;
        let n = self.dirty.len();
        let mut k: usize = 0;
        while k < n
            invariant
                self.inv_from(k as int),
                k <= n,
                n == self.dirty@.len(),
                self.dirty@ == entries,
                self@.tiles == orig.tiles,
                self@.index == orig.index,
                self@.tile_order == orig.tile_order,
                self@.tile_size == orig.tile_size,
                self@.chunk_size == orig.chunk_size,
                forall|cp: (int, int)| #[trigger] orig.chunks.contains_key(cp) ==> {
                    &&& self@.chunks.contains_key(cp)
                    &&& self@.chunks[cp].entity == orig.chunks[cp].entity
                    &&& self@.chunks[cp].position == orig.chunks[cp].position
                    &&& (self@.chunks[cp].indices@ == orig.chunks[cp].indices@
                        && self@.chunks[cp].render_dirty == orig.chunks[cp].render_dirty
                        || self@.chunks[cp].render_dirty == true)
                },
                forall|cp: (int, int)| #[trigger] self@.chunks.contains_key(cp)
                    ==> orig.chunks.contains_key(cp) || (self@.chunks[cp].render_dirty == true
                        && exists|e: u64|
                        #[trigger] self@.tiles.contains_key(e) && chunk_of(
                            self@.tiles[e].position@,
                            self@.chunk_size as int,
                        ) == cp),
                orig.chunk_order.is_prefix_of(self@.chunk_order),
            decreases n - k,
        {
            let entry = self.dirty[k];
            let ghost vpre = self@;
            let ghost kk = k as int;
            let ghost c = self@.chunk_size as int;
            proof {
                assert(entry == entries[kk]);
            }
            match entry.old_position {
                Some(q) => {
                    proof {
                        assert(q == entry.old_position->Some_0);
                    }
                    self.write_truth_at(q);
                },
                None => (),
            }
            let ghost vmid = self@;
            let ghost mut vmid2 = self@;
            let rec_opt = match self.records.get(&entry.entity) {
                Some(t) => Some(*t),
                None => None,
            };
            match rec_opt {
                Some(rec) => {
                    proof {
                        assert(rec == rec_opt->Some_0);
                        assert(vmid.tiles.contains_key(entry.entity));
                        assert(rec == vmid.tiles[entry.entity]);
                    }
                    let cq = rec.position.chunk_position(self.chunk_size);
                    self.ensure_chunk(cq);
                    proof {
                        vmid2 = self@;
                    }
                    self.write_truth_at(rec.position);
                },
                None => (),
            }
            proof {
                let v = self@;
                let len = entries.len() as int;
                assert(v.tiles == vpre.tiles);
                assert(v.index == vpre.index);
                assert(v.tile_order == vpre.tile_order);
                assert(v.chunk_order.len() >= vpre.chunk_order.len());
                assert(v.index_consistent());
                assert(v.chunks_wf());
                assert(tile_ids_wf(v));
                assert(chunk_ids_wf(v));
                // which positions the processed entry covered
                let oldp = entry.old_position;
                let hasq = oldp is Some;
                let qv: (int, int) = if hasq {
                    oldp->Some_0@
                } else {
                    (0, 0)
                };
                let hasrec = rec_opt is Some;
                let pv: (int, int) = if hasrec {
                    rec_opt->Some_0.position@
                } else {
                    (0, 0)
                };
                assert(hasrec == vpre.tiles.contains_key(entry.entity));
                assert(hasrec ==> rec_opt->Some_0 == vpre.tiles[entry.entity]);
                // slot values of the final state for the two touched positions
                if hasq {
                    lemma_slot_roundtrip(qv, c);
                    lemma_slot_of_bounds(qv, c);
                }
                if hasrec {
                    lemma_slot_roundtrip(pv, c);
                    lemma_slot_of_bounds(pv, c);
                    assert(v.chunks.contains_key(chunk_of(pv, c)));
                    assert(v.tex_at(pv) == Some(vpre.tiles[entry.entity].texture.0));
                    assert(v.chunks[chunk_of(pv, c)].indices@[slot_of(pv, c)] == v.tex_at(pv));
                }
                if hasq {
                    if v.chunks.contains_key(chunk_of(qv, c)) {
                        if !(hasrec && chunk_of(pv, c) == chunk_of(qv, c) && slot_of(pv, c)
                            == slot_of(qv, c)) {
                            if vpre.chunks.contains_key(chunk_of(qv, c)) {
                                assert(v.chunks[chunk_of(qv, c)].indices@[slot_of(qv, c)]
                                    == v.tex_at(qv));
                            }
                        } else {
                            assert(pv == qv) by {
                                lemma_slot_of_injective(pv, qv, c);
                            }
                            assert(v.chunks[chunk_of(qv, c)].indices@[slot_of(qv, c)]
                                == v.tex_at(qv));
                        }
                    }
                }
                // every slot not pending after this entry shows the truth
                assert forall|cp: (int, int), i: int|
                    v.chunks.contains_key(cp) && 0 <= i < v.chunk_size * v.chunk_size
                        && !pending_at(v, entries, kk + 1, slot_position(cp, i, c)) implies
                    #[trigger] v.chunk_slot_ok(cp, i) by {
                    let sp = slot_position(cp, i, c);
                    lemma_slot_position_roundtrip(cp, i, c);
                    lemma_slot_of_bounds(sp, c);
                    let covered_q = hasq && qv == sp;
                    let covered_p = hasrec && pv == sp;
                    if covered_p {
                        // the pass wrote this tile's slot last
                        assert(cp == chunk_of(pv, c) && i == slot_of(pv, c));
                        assert(v.chunk_slot_ok(cp, i));
                    } else if covered_q {
                        assert(cp == chunk_of(qv, c) && i == slot_of(qv, c));
                        if vpre.chunks.contains_key(cp) {
                            assert(v.chunk_slot_ok(cp, i));
                        } else {
                            // the chunk appeared only for the tile's current
                            // position; this slot still shows "empty"
                            assert(hasrec && chunk_of(pv, c) == cp);
                            assert(slot_of(pv, c) != i);
                            assert(v.chunks[cp].indices@[i] == None::<u16>);
                            assert(v.tex_at(sp) == None::<u16>) by {
                                if v.index.contains_key(sp) {
                                    let e3 = v.index[sp];
                                    assert(vpre.tiles.contains_key(e3));
                                    assert(vpre.tiles[e3].position@ == sp);
                                    assert(e3 != entry.entity);
                                    assert(!covers_tile(entries, kk, e3)) by {
                                        if covers_tile(entries, kk, e3) {
                                            let j = choose|j: int|
                                                kk <= j < entries.len() && entries[j].entity
                                                    == e3;
                                            assert(j != kk);
                                            assert(entry_covers(v, entries[j], sp));
                                            assert(pending_at(v, entries, kk + 1, sp));
                                        }
                                    }
                                    assert(tile_placed(vpre, e3));
                                    assert(vpre.chunks.contains_key(cp));
                                }
                            }
                            assert(v.chunk_slot_ok(cp, i));
                        }
                    } else {
                        // untouched by this entry: it was already quiet
                        assert(!pending_at(vpre, entries, kk, sp)) by {
                            if pending_at(vpre, entries, kk, sp) {
                                let j = choose|j: int|
                                    kk <= j < entries.len() && entry_covers(
                                        vpre,
                                        entries[j],
                                        sp,
                                    );
                                if j == kk {
                                    assert(entry_covers(vpre, entries[kk], sp));
                                    assert(false);
                                } else {
                                    assert(entry_covers(v, entries[j], sp));
                                    assert(pending_at(v, entries, kk + 1, sp));
                                    assert(false);
                                }
                            }
                        }
                        if vpre.chunks.contains_key(cp) {
                            assert(vpre.chunk_slot_ok(cp, i));
                            // neither write hit this slot
                            if hasq && chunk_of(qv, c) == cp && slot_of(qv, c) == i {
                                assert(qv == sp) by {
                                    lemma_slot_roundtrip(qv, c);
                                }
                                assert(false);
                            }
                            if hasrec && chunk_of(pv, c) == cp && slot_of(pv, c) == i {
                                assert(pv == sp) by {
                                    lemma_slot_roundtrip(pv, c);
                                }
                                assert(false);
                            }
                            assert(v.chunks[cp].indices@[i] == vpre.chunks[cp].indices@[i]);
                            assert(v.tex_at(sp) == vpre.tex_at(sp));
                            assert(v.chunk_slot_ok(cp, i));
                        } else {
                            // freshly created chunk: this slot shows "empty"
                            assert(hasrec && chunk_of(pv, c) == cp);
                            assert(slot_of(pv, c) != i);
                            assert(v.chunks[cp].indices@[i] == None::<u16>);
                            assert(v.tex_at(sp) == None::<u16>) by {
                                if v.index.contains_key(sp) {
                                    let e3 = v.index[sp];
                                    assert(vpre.tiles.contains_key(e3));
                                    assert(vpre.tiles[e3].position@ == sp);
                                    assert(!covers_tile(entries, kk, e3)) by {
                                        if covers_tile(entries, kk, e3) {
                                            let j = choose|j: int|
                                                kk <= j < entries.len() && entries[j].entity
                                                    == e3;
                                            if j == kk {
                                                assert(vpre.tiles[entry.entity].position@
                                                    == sp);
                                                assert(pv == sp);
                                                assert(false);
                                            } else {
                                                assert(entry_covers(v, entries[j], sp));
                                                assert(pending_at(v, entries, kk + 1, sp));
                                                assert(false);
                                            }
                                        }
                                    }
                                    assert(tile_placed(vpre, e3));
                                    assert(vpre.chunks.contains_key(cp));
                                }
                            }
                            assert(v.chunk_slot_ok(cp, i));
                        }
                    }
                }
                // every clean tile is placed
                assert forall|e: u64|
                    #[trigger] v.tiles.contains_key(e) && !covers_tile(entries, kk + 1, e) implies
                    tile_placed(v, e) by {
                    let pe = v.tiles[e].position@;
                    let cpe = chunk_of(pe, c);
                    let ie = slot_of(pe, c);
                    lemma_slot_roundtrip(pe, c);
                    lemma_slot_of_bounds(pe, c);
                    if e == entry.entity {
                        assert(hasrec);
                        assert(pv == pe);
                        assert(tile_placed(v, e));
                    } else {
                        assert(!covers_tile(entries, kk, e)) by {
                            if covers_tile(entries, kk, e) {
                                let j = choose|j: int|
                                    kk <= j < entries.len() && entries[j].entity == e;
                                assert(j != kk);
                                assert(covers_tile(entries, kk + 1, e));
                            }
                        }
                        assert(tile_placed(vpre, e));
                        assert(vpre.tex_at(pe) == Some(vpre.tiles[e].texture.0));
                        assert(v.tex_at(pe) == vpre.tex_at(pe));
                        if hasq && chunk_of(qv, c) == cpe && slot_of(qv, c) == ie {
                            assert(qv == pe) by {
                                lemma_slot_of_injective(qv, pe, c);
                            }
                            assert(v.chunks[cpe].indices@[ie] == v.tex_at(pe));
                        } else if hasrec && chunk_of(pv, c) == cpe && slot_of(pv, c) == ie {
                            assert(pv == pe) by {
                                lemma_slot_of_injective(pv, pe, c);
                            }
                            assert(v.chunks[cpe].indices@[ie] == v.tex_at(pe));
                        } else {
                            assert(v.chunks.contains_key(cpe));
                            assert(v.chunks[cpe].indices@[ie] == vpre.chunks[cpe].indices@[ie]);
                        }
                        assert(tile_placed(v, e));
                    }
                }
                // chunk bookkeeping for the public contract
                assert forall|cp: (int, int)| #[trigger] orig.chunks.contains_key(cp) implies (
                v.chunks.contains_key(cp) && v.chunks[cp].entity == orig.chunks[cp].entity
                    && v.chunks[cp].position == orig.chunks[cp].position && (v.chunks[
                cp].indices@ == orig.chunks[cp].indices@ && v.chunks[cp].render_dirty
                    == orig.chunks[cp].render_dirty || v.chunks[cp].render_dirty == true)) by {
                    assert(vpre.chunks.contains_key(cp));
                    if (!hasq || chunk_of(qv, c) != cp) && (!hasrec || chunk_of(pv, c) != cp) {
                        assert(vmid.chunks.contains_key(cp));
                        assert(vmid.chunks[cp] == vpre.chunks[cp]);
                        assert(vmid2.chunks.contains_key(cp));
                        assert(vmid2.chunks[cp] == vmid.chunks[cp]);
                        assert(v.chunks[cp] == vmid2.chunks[cp]);
                    }
                }
                assert forall|cp: (int, int)| #[trigger] v.chunks.contains_key(cp) implies (
                orig.chunks.contains_key(cp) || (v.chunks[cp].render_dirty == true && exists|
                    e: u64,
                |
                    #[trigger] v.tiles.contains_key(e) && chunk_of(
                        v.tiles[e].position@,
                        v.chunk_size as int,
                    ) == cp)) by {
                    if vpre.chunks.contains_key(cp) {
                        if !orig.chunks.contains_key(cp) {
                            assert(vpre.chunks[cp].render_dirty == true);
                            if (!hasq || chunk_of(qv, c) != cp) && (!hasrec || chunk_of(pv, c)
                                != cp) {
                                assert(vmid.chunks.contains_key(cp));
                                assert(vmid.chunks[cp] == vpre.chunks[cp]);
                                assert(vmid2.chunks.contains_key(cp));
                                assert(vmid2.chunks[cp] == vmid.chunks[cp]);
                                assert(v.chunks[cp] == vmid2.chunks[cp]);
                            }
                            let e = choose|e: u64|
                                #[trigger] vpre.tiles.contains_key(e) && chunk_of(
                                    vpre.tiles[e].position@,
                                    vpre.chunk_size as int,
                                ) == cp;
                            assert(v.tiles.contains_key(e) && chunk_of(
                                v.tiles[e].position@,
                                v.chunk_size as int,
                            ) == cp);
                        }
                    } else {
                        // created this iteration, for the entry's live tile
                        assert(hasrec && chunk_of(pv, c) == cp);
                        let e = entry.entity;
                        assert(v.tiles.contains_key(e) && chunk_of(
                            v.tiles[e].position@,
                            v.chunk_size as int,
                        ) == cp);
                    }
                }
                assert(orig.chunk_order.is_prefix_of(v.chunk_order)) by {
                    if vpre.chunk_order != v.chunk_order {
                        assert(v.chunk_order == vpre.chunk_order.push(
                            (vpre.chunk_order.len() as u64),
                        ));
                        assert forall|idx: int| 0 <= idx < orig.chunk_order.len() implies
                            orig.chunk_order[idx] == v.chunk_order[idx] by {
                            assert(orig.chunk_order[idx] == vpre.chunk_order[idx]);
                        }
                        assert(orig.chunk_order =~= v.chunk_order.subrange(
                            0,
                            orig.chunk_order.len() as int,
                        ));
                    }
                }
            }
            k = k + 1;
        }
        proof {
            let v = self@;
            assert forall|p: (int, int)| #[trigger] v.index.contains_key(p) implies
                v.chunks.contains_key(chunk_of(p, v.chunk_size as int)) by {
                let e = v.index[p];
                assert(v.tiles.contains_key(e));
                assert(v.tiles[e].position@ == p);
                assert(!covers_tile(self.dirty@, n as int, e));
                assert(tile_placed(v, e));
            }
            assert forall|cp: (int, int), i: int|
                v.chunks.contains_key(cp) && 0 <= i < v.chunk_size * v.chunk_size implies
                #[trigger] v.chunk_slot_ok(cp, i) by {
                assert(!pending_at(v, self.dirty@, n as int, slot_position(
                    cp,
                    i,
                    v.chunk_size as int,
                )));
            }
            assert(v.synced());
        }
        self.dirty.clear();
        proof {
            let v = self@;
            assert(v.index_consistent());
            assert(v.chunks_wf());
            assert(tile_ids_wf(v));
            assert(chunk_ids_wf(v));
            assert forall|e: u64|
                #[trigger] v.tiles.contains_key(e) && !covers_tile(self.dirty@, 0, e) implies
                tile_placed(v, e) by {
                assert(!covers_tile(entries, n as int, e));
            }
            assert forall|cp: (int, int), i: int|
                v.chunks.contains_key(cp) && 0 <= i < v.chunk_size * v.chunk_size && !pending_at(
                    v,
                    self.dirty@,
                    0,
                    slot_position(cp, i, v.chunk_size as int),
                ) implies #[trigger] v.chunk_slot_ok(cp, i) by {
                assert(v.synced());
            }
        }
    }
}


/// Law: a synchronized tilemap shows every live tile's texture at exactly
/// its slot in its owning chunk — for instance the tile just inserted, or
/// the destination of a move, once a pass has run.
pub proof fn lemma_synced_tile_shown(v: TilemapView, e: u64)
    requires
        v.index_consistent(),
        v.chunks_wf(),
        v.synced(),
        v.tiles.contains_key(e),
    ensures
        ({
            let c = v.chunk_size as int;
            let p = v.tiles[e].position@;
            &&& v.chunks.contains_key(chunk_of(p, c))
            &&& v.chunks[chunk_of(p, c)].indices@[slot_of(p, c)] == Some(v.tiles[e].texture.0)
        }),
{
    let c = v.chunk_size as int;
    let p = v.tiles[e].position@;
    assert(v.index.contains_key(p) && v.index[p] == e);
    assert(v.chunks.contains_key(chunk_of(p, c)));
    lemma_slot_of_bounds(p, c);
    lemma_slot_roundtrip(p, c);
    assert(v.chunk_slot_ok(chunk_of(p, c), slot_of(p, c)));
}

/// Law: in a synchronized tilemap a vacant position's slot shows "empty" —
/// in particular, the slot a tile vacated by moving or being removed, once a
/// pass has run.
pub proof fn lemma_synced_vacant_slot_empty(v: TilemapView, p: (int, int))
    requires
        v.index_consistent(),
        v.chunks_wf(),
        v.synced(),
        !v.index.contains_key(p),
        v.chunks.contains_key(chunk_of(p, v.chunk_size as int)),
    ensures
        v.chunks[chunk_of(p, v.chunk_size as int)].indices@[slot_of(p, v.chunk_size as int)]
            == None::<u16>,
{
    let c = v.chunk_size as int;
    lemma_slot_of_bounds(p, c);
    lemma_slot_roundtrip(p, c);
    assert(v.chunk_slot_ok(chunk_of(p, c), slot_of(p, c)));
}

/// Law: a live tile appears in exactly one slot of one chunk.  Whenever a
/// slot of a synchronized tilemap shows the tile registered at that slot's
/// position, that slot is the one determined by the tile's own position, so
/// no tile is ever live in two chunks.
pub proof fn lemma_synced_tile_in_one_slot(v: TilemapView, cp: (int, int), i: int, e: u64)
    requires
        v.index_consistent(),
        v.chunks_wf(),
        v.synced(),
        v.chunks.contains_key(cp),
        0 <= i < v.chunk_size * v.chunk_size,
        v.index.contains_key(slot_position(cp, i, v.chunk_size as int)),
        v.index[slot_position(cp, i, v.chunk_size as int)] == e,
    ensures
        v.tiles.contains_key(e),
        cp == chunk_of(v.tiles[e].position@, v.chunk_size as int),
        i == slot_of(v.tiles[e].position@, v.chunk_size as int),
        v.chunks[cp].indices@[i] == Some(v.tiles[e].texture.0),
{
    let c = v.chunk_size as int;
    let sp = slot_position(cp, i, c);
    lemma_slot_position_roundtrip(cp, i, c);
    assert(v.tiles.contains_key(e) && v.tiles[e].position@ == sp);
    assert(v.chunk_slot_ok(cp, i));
}

/// Law: when a synchronized tilemap holds exactly one tile, every chunk
/// slot other than that tile's shows "empty".
pub proof fn lemma_synced_single_tile_buffer(v: TilemapView, p: (int, int), cp: (int, int), i: int)
    requires
        v.index_consistent(),
        v.chunks_wf(),
        v.synced(),
        forall|q: (int, int)| #[trigger] v.index.contains_key(q) <==> q == p,
        v.chunks.contains_key(cp),
        0 <= i < v.chunk_size * v.chunk_size,
        !(cp == chunk_of(p, v.chunk_size as int) && i == slot_of(p, v.chunk_size as int)),
    ensures
        v.chunks[cp].indices@[i] == None::<u16>,
{
    let c = v.chunk_size as int;
    let sp = slot_position(cp, i, c);
    lemma_slot_position_roundtrip(cp, i, c);
    assert(v.chunk_slot_ok(cp, i));
    if v.index.contains_key(sp) {
        assert(sp == p);
        assert(false);
    }
}

} // verus!
