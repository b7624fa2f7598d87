//! Tile layout description for streaming face data.

use crate::types::Res;
use crate::utils::{lemma_grid, lemma_scaled};
use vstd::arithmetic::power2::pow2;
use vstd::prelude::*;

verus! {

/// How a face's pixel data is laid out at a given resolution.
///
/// Every face has a tiling at every resolution.  A face that is *not* split
/// into tiles on disk (a constant face, a zipped or difference-encoded
/// face, or a resolution that has to be computed by reduction) reports a
/// single tile covering the whole face, so a renderer needs only one code
/// path.
///
/// Tiles are numbered in v-major order, `tile = tile_v * ntilesu + tile_u`,
/// with tile 0 at the origin of the face.  Ptex always subdivides a face by
/// powers of two, so every tile has exactly [`TileLayout::tile_res`] and
/// there are no partial tiles along the edges.
#[derive(Debug, Clone, Copy, PartialEq, Eq, Structural)]
pub struct TileLayout {
    /// Resolution of the face at this level.
    pub res: Res,
    /// Resolution of a single tile; equal to `res` when the face is not
    /// tiled.
    pub tile_res: Res,
    /// Number of tiles in the u direction (at least 1).
    pub ntilesu: usize,
    /// Number of tiles in the v direction (at least 1).
    pub ntilesv: usize,
    /// True if the face really is stored as separate tiles in the file.
    ///
    /// When false, the single reported tile is the whole face and reading it
    /// is equivalent to [`crate::PtexReader::get_data_at_res`].
    pub is_tiled: bool,
    /// True if the whole face is a single constant value at this resolution.
    pub is_constant: bool,
    /// True if this resolution is stored in the file and can be streamed
    /// tile by tile.
    ///
    /// When false the resolution is produced by reducing a larger stored
    /// resolution, so reading its single tile reads and reduces the whole
    /// face.
    pub is_stored: bool,
}

impl TileLayout {
    /// Number of tiles.
    pub open spec fn spec_ntiles(self) -> nat {
        self.ntilesu as nat * self.ntilesv as nat
    }

    /// Index of the tile that holds the texel at (`u`, `v`).
    pub open spec fn spec_tile_index(self, u: int, v: int) -> int {
        (v / pow2(self.tile_res.vlog2 as nat) as int) * self.ntilesu + u / pow2(
            self.tile_res.ulog2 as nat,
        ) as int
    }

    /// Texel at the origin of a tile.
    pub open spec fn spec_tile_origin(self, tile: int) -> (int, int) {
        (
            tile % self.ntilesu as int * pow2(self.tile_res.ulog2 as nat),
            tile / self.ntilesu as int * pow2(self.tile_res.vlog2 as nat),
        )
    }

    /// The tiles are a grid that covers the face exactly.
    pub open spec fn covers_face(self) -> bool {
        &&& 0 <= self.tile_res.ulog2 < 32
        &&& 0 <= self.tile_res.vlog2 < 32
        &&& self.ntilesu * self.tile_res.spec_u() == self.res.spec_u()
        &&& self.ntilesv * self.tile_res.spec_v() == self.res.spec_v()
        &&& self.spec_ntiles() <= usize::MAX
    }

    /// The layout of a face that is not split into tiles.
    pub open spec fn spec_untiled(res: Res, is_constant: bool, is_stored: bool) -> TileLayout {
        TileLayout {
            res,
            tile_res: res,
            ntilesu: 1,
            ntilesv: 1,
            is_tiled: false,
            is_constant,
            is_stored,
        }
    }

    /// Total number of tiles, always at least 1.
    pub fn ntiles(&self) -> (n: usize)
        requires
            self.spec_ntiles() <= usize::MAX,
        ensures
            n == self.spec_ntiles(),
    {
        self.ntilesu * self.ntilesv
    }

    /// Index of the tile containing the face texel at (`u`, `v`).
    ///
    /// The coordinates must lie inside the face
    /// (`u < res.u()`, `v < res.v()`).
    pub fn tile_index(&self, u: usize, v: usize) -> (tile: usize)
        requires
            u < self.res.spec_u(),
            v < self.res.spec_v(),
            0 <= self.tile_res.ulog2 < usize::BITS,
            0 <= self.tile_res.vlog2 < usize::BITS,
            self.covers_face() || self.spec_tile_index(u as int, v as int) <= usize::MAX,
        ensures
            tile == self.spec_tile_index(u as int, v as int),
    {
        let ulog2: usize = self.tile_res.ulog2 as usize;
        let vlog2: usize = self.tile_res.vlog2 as usize;
        proof {
            vstd::bits::lemma_usize_shr_is_div(u, ulog2);
            vstd::bits::lemma_usize_shr_is_div(v, vlog2);
            lemma_scaled(0, (v >> vlog2) as int, self.ntilesu as int);
            if self.covers_face() {
                texel_lies_in_its_tile(*self, u as int, v as int);
            }
        }
        (v >> vlog2) * self.ntilesu + (u >> ulog2)
    }

    /// Tile coordinates (`tile_u`, `tile_v`) of a linear tile index.
    ///
    /// The index must be less than [`TileLayout::ntiles`].
    pub fn tile_coords(&self, tile: usize) -> (r: (usize, usize))
        requires
            tile < self.spec_ntiles(),
        ensures
            r.0 == tile as int % self.ntilesu as int,
            r.1 == tile as int / self.ntilesu as int,
    {
        assert(self.ntilesu > 0) by (nonlinear_arith)
            requires
                self.ntilesu * self.ntilesv > 0,
                self.ntilesu >= 0,
        ;
        (tile % self.ntilesu, tile / self.ntilesu)
    }

    /// Origin of a tile in face texel coordinates, as (`u`, `v`).
    ///
    /// The index must be less than [`TileLayout::ntiles`].
    pub fn tile_origin(&self, tile: usize) -> (r: (usize, usize))
        requires
            tile < self.spec_ntiles(),
            0 <= self.tile_res.ulog2 < usize::BITS,
            0 <= self.tile_res.vlog2 < usize::BITS,
            self.covers_face() || (self.spec_tile_origin(tile as int).0 <= usize::MAX
                && self.spec_tile_origin(tile as int).1 <= usize::MAX),
        ensures
            (r.0 as int, r.1 as int) == self.spec_tile_origin(tile as int),
    {
        let (tu, tv) = self.tile_coords(tile);
        let ulog2: usize = self.tile_res.ulog2 as usize;
        let vlog2: usize = self.tile_res.vlog2 as usize;
        proof {
            if self.covers_face() {
                tile_at_its_origin(*self, tile as int);
                crate::types::lemma_dims(self.res);
            }
            vstd::bits::lemma_usize_shl_is_mul(tu, ulog2);
            vstd::bits::lemma_usize_shl_is_mul(tv, vlog2);
        }
        (tu << ulog2, tv << vlog2)
    }

    /// Number of bytes a fully unpacked tile occupies for the given pixel
    /// size (see [`crate::PtexReader::pixel_size`]).
    pub fn tile_size_bytes(&self, pixel_size: usize) -> (n: usize)
        requires
            self.tile_res.spec_size() * pixel_size <= usize::MAX,
        ensures
            n == self.tile_res.spec_size() * pixel_size,
    {
        crate::decode::packed_size(self.tile_res, pixel_size)
    }

    /// Build the descriptor for a face that is not split into tiles.
    pub(crate) fn untiled(res: Res, is_constant: bool, is_stored: bool) -> (r: TileLayout)
        ensures
            r == TileLayout::spec_untiled(res, is_constant, is_stored),
    {
        TileLayout {
            res,
            tile_res: res,
            ntilesu: 1,
            ntilesv: 1,
            is_tiled: false,
            is_constant,
            is_stored,
        }
    }
}

/// Facts about a single tile that can be answered from the tile directory
/// alone, without reading or decompressing the tile's pixels.
#[derive(Debug, Clone, Copy, PartialEq, Eq)]
pub struct TileInfo {
    /// Resolution of this tile.
    pub res: Res,
    /// Origin of the tile in face texel coordinates, as (`u`, `v`).
    pub origin: (usize, usize),
    /// True if the tile is stored as a single constant value.
    ///
    /// Reading it still expands the value over the whole tile; a renderer
    /// that only needs the colour can shortcut on this flag.
    pub is_constant: bool,
    /// Compressed size of the tile's data block in the file, in bytes.
    ///
    /// Zero when the tile has no block of its own: a constant *face*, whose
    /// value lives once in the file's constant-data block, or a resolution
    /// that is computed rather than stored.
    pub compressed_size: u64,
    /// Absolute offset of the tile's data block in the file, or `None` when
    /// the tile has no block (see [`TileInfo::compressed_size`]).
    ///
    /// Useful for ordering reads by file position when prefetching.
    pub file_offset: Option<u64>,
}

/// Every texel of a face lies in the tile that the layout names for it, and
/// in no other: the tile exists, and its origin is at most one tile away.
pub proof fn texel_lies_in_its_tile(layout: TileLayout, u: int, v: int)
    requires
        layout.covers_face(),
        0 <= u < layout.res.spec_u(),
        0 <= v < layout.res.spec_v(),
    ensures
        ({
            let tile = layout.spec_tile_index(u, v);
            let (ou, ov) = layout.spec_tile_origin(tile);
            &&& 0 <= tile < layout.spec_ntiles()
            &&& ou <= u < ou + layout.tile_res.spec_u()
            &&& ov <= v < ov + layout.tile_res.spec_v()
        }),
{
    let tu = layout.tile_res.spec_u() as int;
    let tv = layout.tile_res.spec_v() as int;
    vstd::arithmetic::power2::lemma_pow2_pos(layout.tile_res.ulog2 as nat);
    vstd::arithmetic::power2::lemma_pow2_pos(layout.tile_res.vlog2 as nat);
    let j = u / tu;
    let i = v / tv;
    vstd::arithmetic::div_mod::lemma_fundamental_div_mod(u, tu);
    vstd::arithmetic::div_mod::lemma_fundamental_div_mod(v, tv);
    vstd::arithmetic::div_mod::lemma_mod_bound(u, tu);
    vstd::arithmetic::div_mod::lemma_mod_bound(v, tv);
    assert(0 <= j < layout.ntilesu) by (nonlinear_arith)
        requires
            0 <= u < layout.ntilesu * tu,
            0 < tu,
            j == u / tu,
    ;
    assert(0 <= i < layout.ntilesv) by (nonlinear_arith)
        requires
            0 <= v < layout.ntilesv * tv,
            0 < tv,
            i == v / tv,
    ;
    lemma_grid(i, j, layout.ntilesv as int, layout.ntilesu as int);
    assert(layout.ntilesv * layout.ntilesu == layout.ntilesu * layout.ntilesv)
        by (nonlinear_arith);
    assert(j * tu == tu * j && i * tv == tv * i) by (nonlinear_arith);
}

/// Tiles are numbered in v-major order, and the tile at whose origin a texel
/// lies is the one that the layout names for it.
pub proof fn tile_at_its_origin(layout: TileLayout, tile: int)
    requires
        layout.covers_face(),
        0 <= tile < layout.spec_ntiles(),
    ensures
        ({
            let (ou, ov) = layout.spec_tile_origin(tile);
            &&& tile == (tile / layout.ntilesu as int) * layout.ntilesu + tile
                % layout.ntilesu as int
            &&& 0 <= ou < layout.res.spec_u()
            &&& 0 <= ov < layout.res.spec_v()
            &&& layout.spec_tile_index(ou, ov) == tile
        }),
{
    let tu = layout.tile_res.spec_u() as int;
    let tv = layout.tile_res.spec_v() as int;
    let n = layout.ntilesu as int;
    vstd::arithmetic::power2::lemma_pow2_pos(layout.tile_res.ulog2 as nat);
    vstd::arithmetic::power2::lemma_pow2_pos(layout.tile_res.vlog2 as nat);
    assert(n > 0) by (nonlinear_arith)
        requires
            n * layout.ntilesv > 0,
            n >= 0,
    ;
    let j = tile % n;
    let i = tile / n;
    vstd::arithmetic::div_mod::lemma_fundamental_div_mod(tile, n);
    vstd::arithmetic::div_mod::lemma_mod_bound(tile, n);
    assert(n * i == i * n) by (nonlinear_arith);
    assert(0 <= i < layout.ntilesv) by (nonlinear_arith)
        requires
            0 <= tile < n * layout.ntilesv,
            0 < n,
            i == tile / n,
    ;
    lemma_grid(j, 0, n, tu);
    lemma_grid(i, 0, layout.ntilesv as int, tv);
}

} // verus!
