//! The atlas-to-array converter: one-shot batch transforms that turn a
//! texture atlas (one image holding a grid of equally sized tiles), or a
//! list of separate equally sized images, into a single layered image whose
//! layer `i` is tile `i`, laid out for indexed/array-texture sampling.

use vstd::prelude::*;

verus! {

/// A rectangular pixel image: its declared dimensions, its pixel format
/// given as bytes per pixel, and its raw byte buffer in row-major order.
#[derive(Clone, Debug)]
pub struct ImageBuffer {
    /// Width in pixels.
    pub width: u32,
    /// Height in pixels.
    pub height: u32,
    /// Bytes per pixel.
    pub pixel_size: u32,
    /// Raw pixel bytes, rows first.
    pub data: Vec<u8>,
}

/// A layered image: `layers` stacked images, each `width` by `height`
/// pixels, stored back to back in one buffer.
#[derive(Clone, Debug)]
pub struct LayeredImage {
    /// Width of each layer in pixels.
    pub width: u32,
    /// Height of each layer in pixels.
    pub height: u32,
    /// Number of layers.
    pub layers: u32,
    /// Bytes per pixel.
    pub pixel_size: u32,
    /// Raw pixel bytes: layer 0 first, then layer 1, and so on.
    pub data: Vec<u8>,
}

/// Errors reported by the converters.  Conversion is all or nothing: on any
/// error no output buffer is produced.
#[derive(Clone, Copy, Debug, PartialEq, Eq, Structural)]
pub enum TilesetError {
    /// The list-based converter was given zero images.
    EmptyImageList,
    /// Image `index` differs from image 0 in dimensions or pixel format, or
    /// its buffer does not hold exactly `width * height * pixel_size` bytes.
    ImageMismatch {
        /// Index of the first offending image.
        index: usize,
    },
    /// The declared tile size has a zero component.
    ZeroTileSize,
    /// The tile size does not evenly divide the atlas dimensions.
    NonDivisibleAtlas,
    /// The converted image would have more layers than a layered texture can
    /// address.
    TooManyLayers,
    /// A computed source byte range exceeds the atlas buffer: the source
    /// image is truncated.  Reports the first offending layer and row.
    SourceBounds {
        /// The layer whose pixels are missing.
        layer: u32,
        /// The row within that layer.
        row: u32,
    },
}

/// Number of bytes in one row of one tile.
pub open spec fn tile_row_bytes(tw: int, ps: int) -> int {
    tw * ps
}

/// Number of bytes in one whole tile (one output layer).
pub open spec fn tile_bytes(tw: int, th: int, ps: int) -> int {
    tw * (th * ps)
}

/// Byte position of byte `o` of row `y` of layer `l` in a layered buffer.
pub open spec fn layer_byte(tw: int, th: int, ps: int, l: int, y: int, o: int) -> int {
    l * tile_bytes(tw, th, ps) + y * tile_row_bytes(tw, ps) + o
}

/// Byte position of byte `o` of a stacked image `i` whose layers are `lb`
/// bytes long.
pub open spec fn stacked_byte(lb: int, i: int, o: int) -> int {
    i * lb + o
}

/// Byte position `o` bytes past `b`; names the sum so that quantified
/// invariants over freshly appended bytes have a trigger.
spec fn shifted(b: int, o: int) -> int {
    b + o
}

/// Source byte position in an atlas of width `w` (pixels) for byte `o` of
/// row `y` of tile `l`, with tiles ordered row-major over a grid of `cols`
/// columns of `tw` by `th` tiles.
pub open spec fn atlas_src(
    w: int,
    tw: int,
    th: int,
    ps: int,
    cols: int,
    l: int,
    y: int,
    o: int,
) -> int {
    (l / cols) * (th * (w * ps)) + (l % cols) * (tw * ps) + y * (w * ps) + o
}

/// Whether image `i` of a list agrees with image 0 in dimensions and pixel
/// format and holds exactly the bytes its dimensions declare.
pub open spec fn image_matches_first(imgs: Seq<ImageBuffer>, i: int) -> bool {
    &&& imgs[i].width == imgs[0].width
    &&& imgs[i].height == imgs[0].height
    &&& imgs[i].pixel_size == imgs[0].pixel_size
    &&& imgs[i].data@.len() == imgs[i].width * (imgs[i].height * imgs[i].pixel_size)
}

/// Every byte of a layer before `lmax` lies below `lmax` whole layers.
proof fn lemma_layer_byte_bound(tw: int, th: int, ps: int, l: int, lmax: int, y: int, o: int)
    requires
        0 <= l < lmax,
        0 <= y < th,
        0 <= o < tile_row_bytes(tw, ps),
        1 <= tw,
        1 <= th,
        0 <= ps,
    ensures
        0 <= layer_byte(tw, th, ps, l, y, o),
        layer_byte(tw, th, ps, l, y, o) < lmax * tile_bytes(tw, th, ps),
{
    assert(0 <= l * (tw * (th * ps)) + y * (tw * ps) + o && l * (tw * (th * ps)) + y * (tw * ps)
        + o < lmax * (tw * (th * ps))) by (nonlinear_arith)
        requires
            0 <= l < lmax,
            0 <= y < th,
            0 <= o < tw * ps,
            1 <= tw,
            1 <= th,
            0 <= ps,
    ;
}

/// Every byte of a row before `y` lies below `y` whole rows.
proof fn lemma_row_prefix_bound(rb: int, y2: int, y: int, o: int)
    requires
        0 <= y2 < y,
        0 <= o < rb,
    ensures
        0 <= y2 * rb + o < y * rb,
{
    assert(0 <= y2 * rb + o && y2 * rb + o < y * rb) by (nonlinear_arith)
        requires
            0 <= y2 < y,
            0 <= o < rb,
    ;
}

/// Every byte of a stacked image before `jmax` lies below `jmax` whole
/// layers.
proof fn lemma_stacked_byte_bound(lb: int, j: int, jmax: int, o: int)
    requires
        0 <= j < jmax,
        0 <= o < lb,
    ensures
        0 <= stacked_byte(lb, j, o),
        stacked_byte(lb, j, o) < jmax * lb,
{
    assert(0 <= j * lb + o && j * lb + o < jmax * lb) by (nonlinear_arith)
        requires
            0 <= j < jmax,
            0 <= o < lb,
    ;
}

/// Converts an atlas — one image interpretable as a grid of
/// `atlas.width / tile_width` columns and `atlas.height / tile_height` rows
/// of tiles — into a layered image whose layer `l` (row-major: row 0 left to
/// right, then row 1, and so on) holds exactly the bytes of tile `l`.
///
/// A zero tile size, a tile size that does not evenly divide the atlas
/// dimensions, or an atlas buffer too short for a computed source range is
/// rejected with no output.
pub fn convert_atlas_to_array(atlas: &ImageBuffer, tile_width: u32, tile_height: u32) -> (r:
    Result<LayeredImage, TilesetError>)
    ensures
        ({
            let w = atlas.width as int;
            let h = atlas.height as int;
            let ps = atlas.pixel_size as int;
            let tw = tile_width as int;
            let th = tile_height as int;
            let cols = w / tw;
            let rows = h / th;
            match r {
                Ok(out) => {
                    &&& tw >= 1 && th >= 1
                    &&& w % tw == 0 && h % th == 0
                    &&& cols * rows <= u32::MAX
                    &&& w * (h * ps) <= atlas.data@.len()
                    &&& out.width == tile_width
                    &&& out.height == tile_height
                    &&& out.pixel_size == atlas.pixel_size
                    &&& out.layers == cols * rows
                    &&& out.data@.len() == (cols * rows) * tile_bytes(tw, th, ps)
                    &&& forall|l: int, y: int, o: int|
                        0 <= l < cols * rows && 0 <= y < th && 0 <= o < tile_row_bytes(tw, ps)
                            ==> out.data@[#[trigger] layer_byte(tw, th, ps, l, y, o)]
                            == atlas.data@[atlas_src(w, tw, th, ps, cols, l, y, o)]
                },
                Err(e) => {
                    &&& e == (if tw == 0 || th == 0 {
                        TilesetError::ZeroTileSize
                    } else if w % tw != 0 || h % th != 0 {
                        TilesetError::NonDivisibleAtlas
                    } else if cols * rows > u32::MAX {
                        TilesetError::TooManyLayers
                    } else {
                        e
                    })
                    &&& (e matches TilesetError::SourceBounds { layer, row } ==> {
                        &&& tw >= 1 && th >= 1 && w % tw == 0 && h % th == 0
                        &&& w * (h * ps) > atlas.data@.len()
                        &&& 0 <= layer < cols * rows
                        &&& 0 <= row < th
                        &&& atlas_src(w, tw, th, ps, cols, layer as int, row as int, 0)
                            + tile_row_bytes(tw, ps) > atlas.data@.len()
                    })
                    &&& (tw >= 1 && th >= 1 && w % tw == 0 && h % th == 0 && cols * rows
                        <= u32::MAX ==> (e matches TilesetError::SourceBounds { layer, row }))
                    &&& (e matches TilesetError::SourceBounds { layer, row } ==> cols * rows
                        <= u32::MAX)
                },
            }
        }),
{
    let w = atlas.width;
    let h = atlas.height;
    let ps = atlas.pixel_size;
    if tile_width == 0 || tile_height == 0 {
        return Err(TilesetError::ZeroTileSize);
    }
    if w % tile_width != 0 || h % tile_height != 0 {
        return Err(TilesetError::NonDivisibleAtlas);
    }
    let cols = w / tile_width;
    let rows = h / tile_height;
    let ghost wi = w as int;
    let ghost hi = h as int;
    let ghost psi = ps as int;
    let ghost twi = tile_width as int;
    let ghost thi = tile_height as int;
    let ghost colsi = cols as int;
    let ghost rowsi = rows as int;
    let ghost rbi = tile_row_bytes(twi, psi);
    let ghost tbi = tile_bytes(twi, thi, psi);
    proof {
        assert((cols as int) * (rows as int) < 0x1_0000_0000_0000_0000) by (nonlinear_arith)
            requires
                (cols as int) < 0x1_0000_0000,
                (rows as int) < 0x1_0000_0000,
        ;
    }
    if (cols as u64) * (rows as u64) > u32::MAX as u64 {
        return Err(TilesetError::TooManyLayers);
    }
    proof {
        assert(colsi * rowsi <= 0xffff_ffff) by (nonlinear_arith)
            requires
                ((cols as u64) as int) * ((rows as u64) as int) <= 0xffff_ffff,
                (cols as u64) as int == colsi,
                (rows as u64) as int == rowsi,
        ;
    }
    let layers = cols * rows;
    let len128 = atlas.data.len() as u128;
    proof {
        vstd::arithmetic::div_mod::lemma_fundamental_div_mod(wi, twi);
        vstd::arithmetic::div_mod::lemma_fundamental_div_mod(hi, thi);
        assert(colsi * twi == wi && rowsi * thi == hi) by (nonlinear_arith)
            requires
                twi >= 1,
                thi >= 1,
                colsi == wi / twi,
                rowsi == hi / thi,
                wi % twi == 0,
                hi % thi == 0,
                wi == twi * (wi / twi) + wi % twi,
                hi == thi * (hi / thi) + hi % thi,
        ;
        assert(((w as u128) as int) * ((ps as u128) as int)
            < 0x1_0000_0000_0000_0000) by (nonlinear_arith)
            requires
                ((w as u128) as int) < 0x1_0000_0000,
                ((ps as u128) as int) < 0x1_0000_0000,
                0 <= ((w as u128) as int),
                0 <= ((ps as u128) as int),
        ;
        assert(((w as u128) as int) * ((ps as u128) as int) == wi * psi) by (nonlinear_arith)
            requires
                (w as u128) as int == wi,
                (ps as u128) as int == psi,
        ;
    }
    let pitch: u128 = (w as u128) * (ps as u128);
    let mut data: Vec<u8> = Vec::new();
    let mut layer: u32 = 0;
    while layer < layers
        invariant
            layers as int == colsi * rowsi,
            wi == atlas.width as int,
            hi == atlas.height as int,
            psi == atlas.pixel_size as int,
            twi == tile_width as int,
            thi == tile_height as int,
            colsi == cols as int,
            rowsi == rows as int,
            rbi == tile_row_bytes(twi, psi),
            tbi == tile_bytes(twi, thi, psi),
            1 <= twi,
            1 <= thi,
            colsi * twi == wi,
            rowsi * thi == hi,
            colsi == wi / twi,
            rowsi == hi / thi,
            colsi * rowsi <= 0xffff_ffff,
            wi % twi == 0,
            hi % thi == 0,
            atlas.data@.len() <= usize::MAX,
            pitch as int == wi * psi,
            (pitch as int) < 0x1_0000_0000_0000_0000,
            w == atlas.width,
            h == atlas.height,
            ps == atlas.pixel_size,
            len128 == atlas.data@.len(),
            0 <= layer <= layers,
            data@.len() == layer * tbi,
            forall|l: int, y: int, o: int|
                0 <= l < layer && 0 <= y < thi && 0 <= o < rbi ==> data@[#[trigger] layer_byte(
                    twi,
                    thi,
                    psi,
                    l,
                    y,
                    o,
                )] == atlas.data@[atlas_src(wi, twi, thi, psi, colsi, l, y, o)],
            forall|l: int, y: int|
                0 <= l < layer && 0 <= y < thi ==> #[trigger] atlas_src(
                    wi,
                    twi,
                    thi,
                    psi,
                    colsi,
                    l,
                    y,
                    0,
                ) + rbi <= atlas.data@.len(),
        decreases layers - layer,
    {
        let row_idx = layer / cols;
        let col_idx = layer % cols;
        proof {
            let li = layer as int;
            assert(colsi >= 1 && rowsi >= 1) by (nonlinear_arith)
                requires
                    colsi * rowsi > li,
                    0 <= li,
                    colsi >= 0,
                    rowsi >= 0,
            ;
            vstd::arithmetic::div_mod::lemma_fundamental_div_mod(li, colsi);
            vstd::arithmetic::div_mod::lemma_mod_division_less_than_divisor(li, colsi);
            vstd::arithmetic::div_mod::lemma_div_pos_is_pos(li, colsi);
            let ri = row_idx as int;
            let ci = col_idx as int;
            assert(ri < rowsi) by (nonlinear_arith)
                requires
                    li == colsi * ri + ci,
                    0 <= ci,
                    ci < colsi,
                    li < colsi * rowsi,
                    colsi >= 1,
                    ri >= 0,
            ;
            assert((ci + 1) * twi <= wi && ci * twi + twi == (ci + 1) * twi) by (nonlinear_arith)
                requires
                    0 <= ci,
                    ci < colsi,
                    colsi * twi == wi,
                    twi >= 1,
            ;
            assert((ri + 1) * thi <= hi && ri * thi + thi == (ri + 1) * thi) by (nonlinear_arith)
                requires
                    0 <= ri,
                    ri < rowsi,
                    rowsi * thi == hi,
                    thi >= 1,
            ;
        }
        let colx = col_idx * tile_width;
        proof {
            assert(((colx as u128) as int) * ((ps as u128) as int)
                < 0x1_0000_0000_0000_0000) by (nonlinear_arith)
                requires
                    ((colx as u128) as int) < 0x1_0000_0000,
                    ((ps as u128) as int) < 0x1_0000_0000,
                    0 <= ((colx as u128) as int),
                    0 <= ((ps as u128) as int),
            ;
        }
        let tile_x: u128 = (colx as u128) * (ps as u128);
        proof {
            assert(tile_x as int == ((col_idx as int) * twi) * psi) by (nonlinear_arith)
                requires
                    tile_x as int == ((colx as u128) as int) * ((ps as u128) as int),
                    (colx as u128) as int == colx as int,
                    colx as int == (col_idx as int) * (tile_width as int),
                    (ps as u128) as int == ps as int,
                    twi == tile_width as int,
                    psi == ps as int,
            ;
        }
        let mut y: u32 = 0;
        while y < tile_height
            invariant
                layers as int == colsi * rowsi,
                wi == atlas.width as int,
                hi == atlas.height as int,
                psi == atlas.pixel_size as int,
                twi == tile_width as int,
                thi == tile_height as int,
                colsi == cols as int,
                rowsi == rows as int,
                rbi == tile_row_bytes(twi, psi),
                tbi == tile_bytes(twi, thi, psi),
                1 <= twi,
                1 <= thi,
                colsi >= 1,
                rowsi >= 1,
                colsi * twi == wi,
                rowsi * thi == hi,
                colsi == wi / twi,
                rowsi == hi / thi,
                colsi * rowsi <= 0xffff_ffff,
                wi % twi == 0,
                hi % thi == 0,
                atlas.data@.len() <= usize::MAX,
                pitch as int == wi * psi,
                (pitch as int) < 0x1_0000_0000_0000_0000,
                w == atlas.width,
                h == atlas.height,
                ps == atlas.pixel_size,
                len128 == atlas.data@.len(),
                layer < layers,
                row_idx as int == (layer as int) / colsi,
                col_idx as int == (layer as int) % colsi,
                0 <= row_idx as int,
                (row_idx as int) < rowsi,
                0 <= col_idx as int,
                (col_idx as int) < colsi,
                colx as int == (col_idx as int) * twi,
                (col_idx as int) * twi + twi <= wi,
                (row_idx as int) * thi + thi <= hi,
                tile_x as int == ((col_idx as int) * twi) * psi,
                (tile_x as int) < 0x1_0000_0000_0000_0000,
                0 <= y <= tile_height,
                data@.len() == (layer as int) * tbi + (y as int) * rbi,
                forall|l: int, y2: int, o: int|
                    0 <= l < layer && 0 <= y2 < thi && 0 <= o < rbi ==> data@[#[trigger] layer_byte(
                        twi,
                        thi,
                        psi,
                        l,
                        y2,
                        o,
                    )] == atlas.data@[atlas_src(wi, twi, thi, psi, colsi, l, y2, o)],
                forall|y2: int, o: int|
                    0 <= y2 < y && 0 <= o < rbi ==> data@[#[trigger] layer_byte(
                        twi,
                        thi,
                        psi,
                        layer as int,
                        y2,
                        o,
                    )] == atlas.data@[atlas_src(wi, twi, thi, psi, colsi, layer as int, y2, o)],
                forall|l: int, y2: int|
                    0 <= l < layer && 0 <= y2 < thi ==> #[trigger] atlas_src(
                        wi,
                        twi,
                        thi,
                        psi,
                        colsi,
                        l,
                        y2,
                        0,
                    ) + rbi <= atlas.data@.len(),
                forall|y2: int|
                    0 <= y2 < y ==> #[trigger] atlas_src(
                        wi,
                        twi,
                        thi,
                        psi,
                        colsi,
                        layer as int,
                        y2,
                        0,
                    ) + rbi <= atlas.data@.len(),
            decreases tile_height - y,
        {
            proof {
                let ri = row_idx as int;
                let yi = y as int;
                assert(ri * thi + yi < hi);
            }
            let lines: u32 = row_idx * tile_height + y;
            proof {
                assert(((lines as u128) as int) * (pitch as int)
                    < 0x1_0000_0000_0000_0000_0000_0000) by (nonlinear_arith)
                    requires
                        ((lines as u128) as int) < 0x1_0000_0000,
                        (pitch as int) < 0x1_0000_0000_0000_0000,
                        0 <= ((lines as u128) as int),
                        0 <= (pitch as int),
                ;
                assert(((tile_width as u128) as int) * ((ps as u128) as int)
                    < 0x1_0000_0000_0000_0000) by (nonlinear_arith)
                    requires
                        ((tile_width as u128) as int) < 0x1_0000_0000,
                        ((ps as u128) as int) < 0x1_0000_0000,
                        0 <= ((tile_width as u128) as int),
                        0 <= ((ps as u128) as int),
                ;
            }
            let src128: u128 = (lines as u128) * pitch + tile_x;
            let row_bytes: u128 = (tile_width as u128) * (ps as u128);
            let ghost li = layer as int;
            let ghost yi = y as int;
            proof {
                assert(src128 as int == (li / colsi) * (thi * (wi * psi)) + (li % colsi) * (twi
                    * psi) + yi * (wi * psi)) by (nonlinear_arith)
                    requires
                        src128 as int == ((lines as u128) as int) * (pitch as int) + (
                        tile_x as int),
                        (lines as u128) as int == lines as int,
                        lines as int == (row_idx as int) * (tile_height as int) + (y as int),
                        pitch as int == wi * psi,
                        tile_x as int == ((col_idx as int) * twi) * psi,
                        thi == tile_height as int,
                        yi == y as int,
                        row_idx as int == li / colsi,
                        col_idx as int == li % colsi,
                ;
                assert(src128 as int == atlas_src(wi, twi, thi, psi, colsi, li, yi, 0));
                assert(row_bytes as int == rbi) by (nonlinear_arith)
                    requires
                        row_bytes as int == ((tile_width as u128) as int) * ((ps as u128) as int),
                        (tile_width as u128) as int == twi,
                        (ps as u128) as int == psi,
                        rbi == twi * psi,
                ;
                assert(atlas_src(wi, twi, thi, psi, colsi, li, yi, 0) + rbi <= wi * (hi * psi))
                    by (nonlinear_arith)
                    requires
                        atlas_src(wi, twi, thi, psi, colsi, li, yi, 0) == (li / colsi) * (thi * (
                        wi * psi)) + (li % colsi) * (twi * psi) + yi * (wi * psi),
                        rbi == twi * psi,
                        0 <= li / colsi,
                        (li / colsi) * thi + thi <= hi,
                        0 <= li % colsi,
                        (li % colsi) * twi + twi <= wi,
                        0 <= yi,
                        yi < thi,
                        psi >= 0,
                        twi >= 1,
                        thi >= 1,
                        wi >= 0,
                ;
            }
            if src128 + row_bytes > len128 {
                return Err(TilesetError::SourceBounds { layer, row: y });
            }
            let start = src128 as usize;
            let rb = row_bytes as usize;
            let ghost base = data@;
            let mut o: usize = 0;
            while o < rb
                invariant
                    start as int == atlas_src(wi, twi, thi, psi, colsi, li, yi, 0),
                    rb as int == rbi,
                    start as int + rb as int <= atlas.data@.len(),
                    atlas.data@.len() <= usize::MAX,
                    0 <= o <= rb,
                    data@.len() == base.len() + o,
                    forall|idx: int| 0 <= idx < base.len() ==> data@[idx] == base[idx],
                    forall|o2: int|
                        0 <= o2 < o ==> data@[#[trigger] shifted(base.len() as int, o2)]
                            == atlas.data@[shifted(start as int, o2)],
                decreases rb - o,
            {
                data.push(atlas.data[start + o]);
                o += 1;
            }
            proof {
                assert(base.len() == li * tbi + yi * rbi);
                assert((yi + 1) * rbi == yi * rbi + rbi) by (nonlinear_arith);
                // rows already copied keep their bytes
                assert forall|l: int, y2: int, o2: int|
                    0 <= l < li && 0 <= y2 < thi && 0 <= o2 < rbi implies data@[
                #[trigger] layer_byte(twi, thi, psi, l, y2, o2)] == atlas.data@[atlas_src(
                    wi,
                    twi,
                    thi,
                    psi,
                    colsi,
                    l,
                    y2,
                    o2,
                )] by {
                    lemma_layer_byte_bound(twi, thi, psi, l, li, y2, o2);
                    vstd::arithmetic::mul::lemma_mul_nonnegative(yi, rbi);
                    assert(layer_byte(twi, thi, psi, l, y2, o2) < base.len());
                }
                assert forall|y2: int, o2: int|
                    0 <= y2 < yi && 0 <= o2 < rbi implies data@[#[trigger] layer_byte(
                    twi,
                    thi,
                    psi,
                    li,
                    y2,
                    o2,
                )] == atlas.data@[atlas_src(wi, twi, thi, psi, colsi, li, y2, o2)] by {
                    lemma_row_prefix_bound(rbi, y2, yi, o2);
                    assert(layer_byte(twi, thi, psi, li, y2, o2) < base.len());
                }
                // the freshly copied row
                assert forall|o2: int| 0 <= o2 < rbi implies data@[#[trigger] layer_byte(
                    twi,
                    thi,
                    psi,
                    li,
                    yi,
                    o2,
                )] == atlas.data@[atlas_src(wi, twi, thi, psi, colsi, li, yi, o2)] by {
                    assert(layer_byte(twi, thi, psi, li, yi, o2) == shifted(
                        base.len() as int,
                        o2,
                    ));
                    assert(atlas_src(wi, twi, thi, psi, colsi, li, yi, o2) == shifted(
                        start as int,
                        o2,
                    ));
                    assert(data@[shifted(base.len() as int, o2)] == atlas.data@[shifted(
                        start as int,
                        o2,
                    )]);
                }
            }
            y += 1;
        }
        proof {
            let li = layer as int;
            assert(li * tbi + thi * rbi == (li + 1) * tbi) by (nonlinear_arith)
                requires
                    tbi == twi * (thi * psi),
                    rbi == twi * psi,
            ;
        }
        layer += 1;
    }
    proof {
        assert(data@.len() == (colsi * rowsi) * tbi);
        if colsi * rowsi > 0 {
            assert(colsi >= 1 && rowsi >= 1) by (nonlinear_arith)
                requires
                    colsi * rowsi > 0,
                    colsi >= 0,
                    rowsi >= 0,
            ;
            assert((colsi * rowsi - 1) / colsi == rowsi - 1 && (colsi * rowsi - 1) % colsi == colsi
                - 1) by {
                assert(colsi * rowsi - 1 == (rowsi - 1) * colsi + (colsi - 1)) by (
                nonlinear_arith);
                vstd::arithmetic::div_mod::lemma_fundamental_div_mod_converse(
                    colsi * rowsi - 1,
                    colsi,
                    rowsi - 1,
                    colsi - 1,
                );
            }
            assert(atlas_src(wi, twi, thi, psi, colsi, colsi * rowsi - 1, thi - 1, 0) + rbi
                <= atlas.data@.len());
            assert(atlas_src(wi, twi, thi, psi, colsi, colsi * rowsi - 1, thi - 1, 0) + rbi == wi
                * (hi * psi)) by (nonlinear_arith)
                requires
                    colsi >= 1,
                    rowsi >= 1,
                    thi >= 1,
                    twi >= 1,
                    psi >= 0,
                    colsi * twi == wi,
                    rowsi * thi == hi,
                    rbi == twi * psi,
                    (colsi * rowsi - 1) / colsi == rowsi - 1,
                    (colsi * rowsi - 1) % colsi == colsi - 1,
                    atlas_src(wi, twi, thi, psi, colsi, colsi * rowsi - 1, thi - 1, 0) == ((colsi
                        * rowsi - 1) / colsi) * (thi * (wi * psi)) + ((colsi * rowsi - 1) % colsi)
                        * (twi * psi) + (thi - 1) * (wi * psi),
            ;
        } else {
            assert(wi * (hi * psi) == 0) by (nonlinear_arith)
                requires
                    colsi * rowsi <= 0,
                    colsi >= 0,
                    rowsi >= 0,
                    colsi * twi == wi,
                    rowsi * thi == hi,
                    twi >= 1,
                    thi >= 1,
                    psi >= 0,
            ;
        }
    }
    Ok(LayeredImage { width: tile_width, height: tile_height, layers, pixel_size: ps, data })
}

/// Converts a list of images — all sharing one size and pixel format — into
/// a layered image by stacking their byte buffers in input order; the layer
/// size is taken from image 0.  An empty list, or an image that differs
/// from image 0 or does not hold exactly the bytes its dimensions declare,
/// is rejected with no output.
pub fn convert_images_to_array(images: &Vec<ImageBuffer>) -> (r: Result<
    LayeredImage,
    TilesetError,
>)
    ensures
        ({
            let n = images@.len() as int;
            match r {
                Ok(out) => {
                    &&& n >= 1
                    &&& n <= u32::MAX
                    &&& forall|i: int| 0 <= i < n ==> #[trigger] image_matches_first(images@, i)
                    &&& out.width == images@[0].width
                    &&& out.height == images@[0].height
                    &&& out.pixel_size == images@[0].pixel_size
                    &&& out.layers == n
                    &&& out.data@.len() == n * (images@[0].width as int * (images@[0].height as int
                        * images@[0].pixel_size as int))
                    &&& forall|i: int, o: int|
                        0 <= i < n && 0 <= o < images@[0].width as int * (images@[0].height as int
                            * images@[0].pixel_size as int) ==> out.data@[#[trigger] stacked_byte(
                            images@[0].width as int * (images@[0].height as int
                                * images@[0].pixel_size as int),
                            i,
                            o,
                        )] == images@[i].data@[o]
                },
                Err(e) => {
                    &&& (e == TilesetError::EmptyImageList <==> n == 0)
                    &&& (e matches TilesetError::ImageMismatch { index } ==> {
                        &&& 0 <= index < n
                        &&& !image_matches_first(images@, index as int)
                        &&& forall|j: int|
                            0 <= j < index ==> #[trigger] image_matches_first(images@, j)
                    })
                    &&& (e == TilesetError::TooManyLayers ==> n > u32::MAX)
                    &&& ((n >= 1 && n <= u32::MAX && forall|i: int|
                        0 <= i < n ==> #[trigger] image_matches_first(images@, i)) ==> false)
                },
            }
        }),
{
    let n = images.len();
    if n == 0 {
        return Err(TilesetError::EmptyImageList);
    }
    if n as u64 > u32::MAX as u64 {
        return Err(TilesetError::TooManyLayers);
    }
    let w = images[0].width;
    let h = images[0].height;
    let ps = images[0].pixel_size;
    let ghost lb = w as int * (h as int * ps as int);
    proof {
        assert((w as int) * (h as int) < 0x1_0000_0000_0000_0000) by (nonlinear_arith)
            requires
                (w as int) < 0x1_0000_0000,
                (h as int) < 0x1_0000_0000,
                0 <= w as int,
                0 <= h as int,
        ;
        assert(((w as int) * (h as int)) * (ps as int)
            < 0x1_0000_0000_0000_0000_0000_0000) by (nonlinear_arith)
            requires
                (w as int) * (h as int) < 0x1_0000_0000_0000_0000,
                (ps as int) < 0x1_0000_0000,
                0 <= (w as int) * (h as int),
                0 <= ps as int,
        ;
    }
    let need: u128 = (w as u128) * (h as u128) * (ps as u128);
    proof {
        assert(need as int == lb) by (nonlinear_arith)
            requires
                need as int == ((w as int) * (h as int)) * (ps as int),
                lb == w as int * (h as int * ps as int),
        ;
    }
    let mut i: usize = 0;
    while i < n
        invariant
            n == images@.len(),
            1 <= n,
            w == images@[0].width,
            h == images@[0].height,
            ps == images@[0].pixel_size,
            need as int == lb,
            lb == w as int * (h as int * ps as int),
            0 <= i <= n,
            forall|j: int| 0 <= j < i ==> #[trigger] image_matches_first(images@, j),
        decreases n - i,
    {
        let img = &images[i];
        if img.width != w || img.height != h || img.pixel_size != ps || (img.data.len() as u128)
            != need {
            proof {
                if image_matches_first(images@, i as int) {
                    assert(images@[i as int].data@.len() == lb) by (nonlinear_arith)
                        requires
                            images@[i as int].data@.len() == images@[i as int].width as int * (
                            images@[i as int].height as int * images@[i as int].pixel_size
                                as int),
                            images@[i as int].width == images@[0].width,
                            images@[i as int].height == images@[0].height,
                            images@[i as int].pixel_size == images@[0].pixel_size,
                            w == images@[0].width,
                            h == images@[0].height,
                            ps == images@[0].pixel_size,
                            lb == w as int * (h as int * ps as int),
                    ;
                    assert(false);
                }
            }
            return Err(TilesetError::ImageMismatch { index: i });
        }
        i += 1;
    }
    let mut data: Vec<u8> = Vec::new();
    let mut i: usize = 0;
    while i < n
        invariant
            n == images@.len(),
            1 <= n <= u32::MAX,
            w == images@[0].width,
            h == images@[0].height,
            ps == images@[0].pixel_size,
            lb == w as int * (h as int * ps as int),
            forall|j: int| 0 <= j < n ==> #[trigger] image_matches_first(images@, j),
            0 <= i <= n,
            data@.len() == i * lb,
            forall|j: int, o: int|
                0 <= j < i && 0 <= o < lb ==> data@[#[trigger] stacked_byte(lb, j, o)]
                    == images@[j].data@[o],
        decreases n - i,
    {
        let img = &images[i];
        proof {
            assert(image_matches_first(images@, i as int));
        }
        let m = img.data.len();
        proof {
            assert(m == lb);
        }
        let ghost base = data@;
        let mut o: usize = 0;
        while o < m
            invariant
                n == images@.len(),
                i < n,
                img.data@ == images@[i as int].data@,
                m == images@[i as int].data@.len(),
                m == lb,
                0 <= o <= m,
                data@.len() == base.len() + o,
                forall|idx: int| 0 <= idx < base.len() ==> data@[idx] == base[idx],
                forall|o2: int|
                    0 <= o2 < o ==> data@[#[trigger] shifted(base.len() as int, o2)]
                        == images@[i as int].data@[o2],
            decreases m - o,
        {
            data.push(img.data[o]);
            o += 1;
        }
        proof {
            let ii = i as int;
            assert(base.len() == ii * lb);
            assert forall|j: int, o2: int|
                0 <= j < ii && 0 <= o2 < lb implies data@[#[trigger] stacked_byte(lb, j, o2)]
                == images@[j].data@[o2] by {
                lemma_stacked_byte_bound(lb, j, ii, o2);
                assert(stacked_byte(lb, j, o2) < base.len());
            }
            assert forall|o2: int| 0 <= o2 < lb implies data@[#[trigger] stacked_byte(
                lb,
                ii,
                o2,
            )] == images@[ii].data@[o2] by {
                assert(stacked_byte(lb, ii, o2) == shifted(base.len() as int, o2));
                assert(data@[shifted(base.len() as int, o2)] == images@[ii].data@[o2]);
            }
            assert(ii * lb + lb == (ii + 1) * lb) by (nonlinear_arith);
        }
        i += 1;
    }
    proof {
        let ni = images@.len() as int;
        let lbx = images@[0].width as int * (images@[0].height as int
            * images@[0].pixel_size as int);
        assert(lbx == lb);
        assert(data@.len() == ni * lbx) by (nonlinear_arith)
            requires
                data@.len() == ni * lb,
                lbx == lb,
        ;
        assert forall|j: int, o: int| 0 <= j < ni && 0 <= o < lbx implies data@[
        #[trigger] stacked_byte(lbx, j, o)] == images@[j].data@[o] by {
            assert(stacked_byte(lbx, j, o) == stacked_byte(lb, j, o));
            assert(data@[stacked_byte(lb, j, o)] == images@[j].data@[o]);
        }
    }
    Ok(LayeredImage { width: w, height: h, layers: n as u32, pixel_size: ps, data })
}

} // verus!
