//! What reading a file yields: the index structures and images that follow
//! from the contents of the stream.

use crate::decode::{
    constant_pixel, face_data_headers, face_offsets, is_allocatable, num_large, packed_image,
    reduced_image, tile_dir_of, tile_header, tiles_fit, DirView, LevelView,
};
use crate::error::ErrorView;
use crate::file_info::{FaceSource, InfoView, ReduceKind};
use crate::format::{FaceDataHeader, FACE_DATA_HEADER_SIZE};
use crate::open::{bad_offset, zip_at};
use crate::stream::{raw_at, Stream};
use crate::texel::{elem, Arith};
use crate::tile::{TileInfo, TileLayout};
use crate::types::Res;
use crate::utils::repeated;
use vstd::prelude::*;

verus! {

/// Size of the header of a tiled block.
pub const TILE_HEADER_SIZE: usize = 6;

/// The 64-bit sizes of the large faces of a level, at `base`.
pub open spec fn large_table_of(f: Stream, fdh: Seq<FaceDataHeader>, base: u64) -> Result<
    Seq<u8>,
    ErrorView,
> {
    let n = 8 * num_large(fdh, fdh.len());
    if n == 0 {
        Ok(Seq::empty())
    } else if n > usize::MAX {
        Err(ErrorView::Corrupt("large face table out of range"@))
    } else {
        raw_at(f, base, n as usize)
    }
}

/// Index of a level.
#[verifier::opaque]
pub open spec fn level_of(f: Stream, info: InfoView, levelid: int) -> Result<
    LevelView,
    ErrorView,
> {
    let li = info.levels[levelid];
    let base = info.level_pos[levelid];
    match zip_at(
        f,
        base,
        li.levelheadersize as usize,
        FACE_DATA_HEADER_SIZE as nat * li.nfaces as nat,
    ) {
        Ok(buf) => {
            let fdh = face_data_headers(buf);
            let data_base = base + li.levelheadersize;
            if data_base > u64::MAX {
                Err(bad_offset())
            } else {
                match large_table_of(f, fdh, data_base as u64) {
                    Ok(table) => match face_offsets(fdh, data_base, table) {
                        Ok(offsets) => Ok(LevelView { fdh, offsets }),
                        Err(e) => Err(e),
                    },
                    Err(e) => Err(e),
                }
            }
        },
        Err(e) => Err(e),
    }
}

/// Header and absolute file offset of a face within a level.
pub open spec fn entry_of(f: Stream, info: InfoView, levelid: int, facepos: int) -> Result<
    (FaceDataHeader, u64),
    ErrorView,
> {
    match level_of(f, info, levelid) {
        Ok(level) => if facepos < level.fdh.len() {
            Ok((level.fdh[facepos], level.offsets[facepos]))
        } else {
            Err(ErrorView::Corrupt("face missing from level"@))
        },
        Err(e) => Err(e),
    }
}

/// Tile directory of the tiled block at `pos`.
#[verifier::opaque]
pub open spec fn dir_of(f: Stream, pos: u64, res: Res) -> Result<DirView, ErrorView> {
    match raw_at(f, pos, TILE_HEADER_SIZE) {
        Ok(head) => match tile_header(head, res) {
            Ok((tile_res, size)) => {
                let ntiles = res.spec_ntiles(tile_res);
                let base = pos + TILE_HEADER_SIZE + size;
                if base > u64::MAX {
                    Err(bad_offset())
                } else if !tiles_fit(res, tile_res) || FACE_DATA_HEADER_SIZE * ntiles > u64::MAX {
                    Err(ErrorView::Corrupt("tile directory size mismatch"@))
                } else {
                    match zip_at(
                        f,
                        (pos + TILE_HEADER_SIZE) as u64,
                        size,
                        FACE_DATA_HEADER_SIZE as nat * ntiles,
                    ) {
                        Ok(dir) => tile_dir_of(dir, tile_res, res, base),
                        Err(e) => Err(e),
                    }
                }
            },
            Err(e) => Err(e),
        },
        Err(e) => Err(e),
    }
}

/// Error for an image that no buffer can hold.
pub open spec fn too_large() -> ErrorView {
    ErrorView::Unsupported("buffer too small for requested res"@)
}

/// An image of a single color.
pub open spec fn solid_image(pixel: Seq<u8>, res: Res) -> Seq<u8> {
    repeated(pixel, res.spec_size())
}

/// Pixel in the constant block at `pos`.
///
/// A constant block carries one pixel; a block that is shorter does not hold
/// its own value.
pub open spec fn constant_block_of(
    f: Stream,
    m: Arith,
    info: InfoView,
    pos: u64,
    fdh: FaceDataHeader,
    levelid: int,
) -> Result<Seq<u8>, ErrorView> {
    if fdh.spec_blocksize() < info.pixel_size {
        Err(ErrorView::Corrupt("constant block shorter than a pixel"@))
    } else {
        match raw_at(f, pos, info.pixel_size as usize) {
            Ok(raw) => Ok(constant_pixel(m, info, raw, levelid)),
            Err(e) => Err(e),
        }
    }
}

/// Image in the data block at `pos`, which must not be a tiled one.
#[verifier::opaque]
pub open spec fn block_of(
    f: Stream,
    m: Arith,
    info: InfoView,
    pos: u64,
    fdh: FaceDataHeader,
    res: Res,
    levelid: int,
) -> Result<Seq<u8>, ErrorView> {
    if fdh.spec_encoding() is Tiled {
        Err(ErrorView::Corrupt("nested tiled face data"@))
    } else if fdh.spec_encoding() is Constant {
        match constant_block_of(f, m, info, pos, fdh, levelid) {
            Ok(pixel) => if is_allocatable(info, res) {
                Ok(solid_image(pixel, res))
            } else {
                Err(too_large())
            },
            Err(e) => Err(e),
        }
    } else if fdh.spec_is_large_face() {
        Err(ErrorView::Corrupt("non-tiled large face"@))
    } else {
        match raw_at(f, pos, fdh.spec_blocksize() as usize) {
            Ok(raw) => if is_allocatable(info, res) {
                packed_image(m, info, raw, res, fdh.spec_encoding(), levelid)
            } else {
                Err(too_large())
            },
            Err(e) => Err(e),
        }
    }
}

/// Image of tile `t` of a tiled block.
pub open spec fn tile_image(
    f: Stream,
    m: Arith,
    info: InfoView,
    dir: DirView,
    levelid: int,
    t: int,
) -> Result<Seq<u8>, ErrorView> {
    block_of(f, m, info, dir.offsets[t], dir.fdh[t], dir.tile_res, levelid)
}

/// Tile `t` ends inside the packed image of the face.
pub open spec fn tile_inside(t: int, res: Res, tile_res: Res, ps: nat) -> bool {
    let ntu = res.spec_ntilesu(tile_res) as int;
    let tu = tile_res.spec_u();
    let tv = tile_res.spec_v();
    ps == 0 || ((t / ntu) * tv + tv - 1) * res.spec_u() + (t % ntu) * tu + tu <= res.spec_size()
}

/// What reading tile `t` into the image of the face gives.
pub open spec fn tile_in_face(
    f: Stream,
    m: Arith,
    info: InfoView,
    dir: DirView,
    levelid: int,
    res: Res,
    t: int,
) -> Result<Seq<u8>, ErrorView> {
    if tile_inside(t, res, dir.tile_res, info.pixel_size) {
        tile_image(f, m, info, dir, levelid, t)
    } else {
        Err(ErrorView::Corrupt("tile outside the face"@))
    }
}

/// The first error among the first `n` tiles of a tiled block.
pub open spec fn first_tile_error(
    f: Stream,
    m: Arith,
    info: InfoView,
    dir: DirView,
    levelid: int,
    res: Res,
    n: nat,
) -> Option<ErrorView>
    decreases n,
{
    if n == 0 {
        None
    } else {
        match first_tile_error(f, m, info, dir, levelid, res, (n - 1) as nat) {
            Some(e) => Some(e),
            None => match tile_in_face(f, m, info, dir, levelid, res, n - 1) {
                Ok(_) => None,
                Err(e) => Some(e),
            },
        }
    }
}

/// Byte `k` of the image that a grid of tiles makes up.
pub open spec fn assembled_byte(
    tiles: spec_fn(int) -> Seq<u8>,
    res: Res,
    tile_res: Res,
    ps: nat,
    k: int,
) -> u8 {
    let rowlen = (res.spec_u() * ps) as int;
    let tilerow = (tile_res.spec_u() * ps) as int;
    let tv = tile_res.spec_v() as int;
    let y = k / rowlen;
    let x = k % rowlen;
    let t = (y / tv) * res.spec_ntilesu(tile_res) + x / tilerow;
    tiles(t)[(y % tv) * tilerow + x % tilerow]
}

/// The image that a grid of tiles makes up: every texel is that of the tile
/// that covers it.
pub open spec fn assembled(
    tiles: spec_fn(int) -> Seq<u8>,
    res: Res,
    tile_res: Res,
    ps: nat,
) -> Seq<u8> {
    Seq::new(res.spec_size() * ps, |k: int| assembled_byte(tiles, res, tile_res, ps, k))
}

/// The images of the tiles of a tiled block.
pub open spec fn tile_images(
    f: Stream,
    m: Arith,
    info: InfoView,
    dir: DirView,
    levelid: int,
) -> spec_fn(int) -> Seq<u8> {
    |t: int| tile_image(f, m, info, dir, levelid, t)->Ok_0
}

/// Image in the tiled block at `pos`.
pub open spec fn tiled_of(
    f: Stream,
    m: Arith,
    info: InfoView,
    pos: u64,
    res: Res,
    levelid: int,
) -> Result<Seq<u8>, ErrorView> {
    match dir_of(f, pos, res) {
        Ok(dir) => match first_tile_error(f, m, info, dir, levelid, res, dir.fdh.len()) {
            Some(e) => Err(e),
            None => Ok(
                assembled(
                    tile_images(f, m, info, dir, levelid),
                    res,
                    dir.tile_res,
                    info.pixel_size,
                ),
            ),
        },
        Err(e) => Err(e),
    }
}

/// Image of a face that is stored in a level.
pub open spec fn stored_of(
    f: Stream,
    m: Arith,
    info: InfoView,
    levelid: int,
    facepos: int,
    res: Res,
) -> Result<Seq<u8>, ErrorView> {
    match entry_of(f, info, levelid, facepos) {
        Ok((fdh, pos)) => if fdh.spec_encoding() is Tiled {
            if is_allocatable(info, res) {
                tiled_of(f, m, info, pos, res, levelid)
            } else {
                Err(too_large())
            }
        } else {
            block_of(f, m, info, pos, fdh, res, levelid)
        },
        Err(e) => Err(e),
    }
}

/// What one reduction makes of an image.  A triangle reduction reads as many
/// rows as columns.
pub open spec fn reduced_of(
    m: Arith,
    info: InfoView,
    src: Seq<u8>,
    src_res: Res,
    res: Res,
    kind: ReduceKind,
) -> Result<Seq<u8>, ErrorView> {
    if kind is Tri && src_res.spec_u() > src_res.spec_v() {
        Err(ErrorView::Corrupt("triangle face wider than high"@))
    } else if !is_allocatable(info, res) {
        Err(too_large())
    } else {
        Ok(reduced_image(m, info, src, src_res, res, kind))
    }
}

/// How far a resolution is from that of the face.
pub open spec fn reduction_depth(info: InfoView, faceid: int, res: Res) -> nat {
    let full = info.faces[faceid].res;
    ((if full.ulog2 > res.ulog2 {
        full.ulog2 - res.ulog2
    } else {
        0
    }) + (if full.vlog2 > res.vlog2 {
        full.vlog2 - res.vlog2
    } else {
        0
    })) as nat
}

/// Image of a face at a resolution: interleaved pixels in v-major order.
///
/// A resolution that is not stored is reduced from the next larger one.  What
/// stands in the way of reading the face comes before the size of its image.
pub open spec fn face_of(f: Stream, m: Arith, info: InfoView, faceid: int, res: Res) -> Result<
    Seq<u8>,
    ErrorView,
>
    decreases reduction_depth(info, faceid, res),
{
    match info.source(faceid, res) {
        Ok(FaceSource::Constant) => if is_allocatable(info, res) {
            Ok(solid_image(info.constant_pixel(faceid), res))
        } else {
            Err(too_large())
        },
        Ok(FaceSource::Stored { levelid, facepos }) => stored_of(
            f,
            m,
            info,
            levelid as int,
            facepos as int,
            res,
        ),
        Ok(FaceSource::Reduced) => {
            let (src_res, kind) = info.reduced_from(faceid, res);
            match face_of(f, m, info, faceid, src_res) {
                Ok(src) => reduced_of(m, info, src, src_res, res, kind),
                Err(e) => Err(e),
            }
        },
        Err(e) => Err(e),
    }
}

/// Layout of a tiled face.
pub open spec fn tiled_layout(res: Res, tile_res: Res) -> TileLayout {
    TileLayout {
        res,
        tile_res,
        ntilesu: res.spec_ntilesu(tile_res) as usize,
        ntilesv: res.spec_ntilesv(tile_res) as usize,
        is_tiled: true,
        is_constant: false,
        is_stored: true,
    }
}

/// How a face is laid out at a resolution.
pub open spec fn layout_of(f: Stream, info: InfoView, faceid: int, res: Res) -> Result<
    TileLayout,
    ErrorView,
> {
    match info.source(faceid, res) {
        Ok(FaceSource::Constant) => Ok(TileLayout::spec_untiled(res, true, true)),
        Ok(FaceSource::Reduced) => Ok(TileLayout::spec_untiled(res, false, false)),
        Ok(FaceSource::Stored { levelid, facepos }) => match entry_of(
            f,
            info,
            levelid as int,
            facepos as int,
        ) {
            Ok((fdh, pos)) => if fdh.spec_encoding() is Tiled {
                match dir_of(f, pos, res) {
                    Ok(dir) => Ok(tiled_layout(res, dir.tile_res)),
                    Err(e) => Err(e),
                }
            } else {
                Ok(TileLayout::spec_untiled(res, fdh.spec_encoding() is Constant, true))
            },
            Err(e) => Err(e),
        },
        Err(e) => Err(e),
    }
}

/// Block of a tile: header and position of the tile's own block, or none for
/// a face that has no block at this resolution.
pub open spec fn tile_block_of(
    f: Stream,
    info: InfoView,
    faceid: int,
    res: Res,
    tile: int,
) -> Option<(FaceDataHeader, u64)> {
    match info.source(faceid, res) {
        Ok(FaceSource::Stored { levelid, facepos }) => {
            let (fdh, pos) = entry_of(f, info, levelid as int, facepos as int)->Ok_0;
            if fdh.spec_encoding() is Tiled {
                let dir = dir_of(f, pos, res)->Ok_0;
                Some((dir.fdh[tile], dir.offsets[tile]))
            } else {
                Some((fdh, pos))
            }
        },
        _ => None,
    }
}

/// Error for a tile that a face does not have.
pub open spec fn no_tile(layout: TileLayout, tile: int) -> ErrorView {
    ErrorView::TileOutOfRange { tile: tile as usize, ntiles: layout.spec_ntiles() as usize }
}

/// `n` shifted left by `log2` bits, of which those beyond a word are lost.
pub open spec fn shifted(n: int, log2: i8) -> usize {
    if log2 >= usize::BITS {
        0
    } else {
        ((n * vstd::arithmetic::power2::pow2(log2 as nat)) % (usize::MAX + 1)) as usize
    }
}

/// Texel at the origin of a tile.
pub open spec fn tile_origin_of(layout: TileLayout, tile: int) -> (usize, usize) {
    (
        shifted(tile % layout.ntilesu as int, layout.tile_res.ulog2),
        shifted(tile / layout.ntilesu as int, layout.tile_res.vlog2),
    )
}

/// Facts about a tile.
pub open spec fn tile_info_of(
    f: Stream,
    info: InfoView,
    faceid: int,
    res: Res,
    tile: int,
) -> Result<TileInfo, ErrorView> {
    match layout_of(f, info, faceid, res) {
        Ok(layout) => if tile >= layout.spec_ntiles() {
            Err(no_tile(layout, tile))
        } else {
            let origin = tile_origin_of(layout, tile);
            Ok(
                match tile_block_of(f, info, faceid, res, tile) {
                    Some((fdh, pos)) => TileInfo {
                        res: layout.tile_res,
                        origin,
                        is_constant: fdh.spec_encoding() is Constant,
                        compressed_size: fdh.spec_blocksize() as u64,
                        file_offset: Some(pos),
                    },
                    None => TileInfo {
                        res: layout.tile_res,
                        origin,
                        is_constant: layout.is_constant,
                        compressed_size: 0,
                        file_offset: None,
                    },
                },
            )
        },
        Err(e) => Err(e),
    }
}

/// Image of a tile of a face that is split into tiles.
pub open spec fn stored_tile_of(
    f: Stream,
    m: Arith,
    info: InfoView,
    faceid: int,
    res: Res,
    tile: int,
) -> Result<Seq<u8>, ErrorView> {
    let (levelid, facepos) = info.stored_at(faceid, res)->0;
    let (fdh, pos) = entry_of(f, info, levelid, facepos)->Ok_0;
    tile_image(f, m, info, dir_of(f, pos, res)->Ok_0, levelid, tile)
}

/// Image of a tile: the whole face where it is not split into tiles.
pub open spec fn tile_of(
    f: Stream,
    m: Arith,
    info: InfoView,
    faceid: int,
    res: Res,
    tile: int,
) -> Result<Seq<u8>, ErrorView> {
    match layout_of(f, info, faceid, res) {
        Ok(layout) => if tile >= layout.spec_ntiles() {
            Err(no_tile(layout, tile))
        } else if layout.is_tiled {
            stored_tile_of(f, m, info, faceid, res, tile)
        } else {
            face_of(f, m, info, faceid, res)
        },
        Err(e) => Err(e),
    }
}

/// Bytes of the texel at (`u`, `v`) of an image.
pub open spec fn texel_bytes(img: Seq<u8>, res: Res, ps: nat, u: int, v: int) -> Seq<u8> {
    let off = (v * res.spec_u() + u) * ps;
    img.subrange(off, off + ps)
}

/// Bytes of the texel at (`u`, `v`) of the image in a data block; a constant
/// block is not expanded to an image.
pub open spec fn block_texel_of(
    f: Stream,
    m: Arith,
    info: InfoView,
    pos: u64,
    fdh: FaceDataHeader,
    res: Res,
    levelid: int,
    u: int,
    v: int,
) -> Result<Seq<u8>, ErrorView> {
    if fdh.spec_encoding() is Constant {
        constant_block_of(f, m, info, pos, fdh, levelid)
    } else {
        match block_of(f, m, info, pos, fdh, res, levelid) {
            Ok(img) => Ok(texel_bytes(img, res, info.pixel_size, u, v)),
            Err(e) => Err(e),
        }
    }
}

/// Bytes of the texel at (`u`, `v`) of a face; of a tiled face only the tile
/// that covers the texel is needed.
pub open spec fn texel_of(
    f: Stream,
    m: Arith,
    info: InfoView,
    faceid: int,
    res: Res,
    u: int,
    v: int,
) -> Result<Seq<u8>, ErrorView> {
    if u >= res.spec_u() || v >= res.spec_v() {
        Err(ErrorView::Unsupported("pixel coordinates out of range"@))
    } else {
        match info.source(faceid, res) {
            Ok(FaceSource::Constant) => Ok(info.constant_pixel(faceid)),
            Ok(FaceSource::Stored { levelid, facepos }) => match entry_of(
                f,
                info,
                levelid as int,
                facepos as int,
            ) {
                Ok((fdh, pos)) => if fdh.spec_encoding() is Tiled {
                    match dir_of(f, pos, res) {
                        Ok(dir) => {
                            let tu = dir.tile_res.spec_u() as int;
                            let tv = dir.tile_res.spec_v() as int;
                            let t = (v / tv) * res.spec_ntilesu(dir.tile_res) + u / tu;
                            block_texel_of(
                                f,
                                m,
                                info,
                                dir.offsets[t],
                                dir.fdh[t],
                                dir.tile_res,
                                levelid as int,
                                u % tu,
                                v % tv,
                            )
                        },
                        Err(e) => Err(e),
                    }
                } else {
                    block_texel_of(f, m, info, pos, fdh, res, levelid as int, u, v)
                },
                Err(e) => Err(e),
            },
            Ok(FaceSource::Reduced) => match face_of(f, m, info, faceid, res) {
                Ok(img) => Ok(texel_bytes(img, res, info.pixel_size, u, v)),
                Err(e) => Err(e),
            },
            Err(e) => Err(e),
        }
    }
}

/// Number of channels to return when `n` are asked for from `first` on: those
/// that the file has.
pub open spec fn clipped_channels(info: InfoView, first: nat, n: nat) -> nat {
    let available = if first < info.nchannels() {
        (info.nchannels() - first) as nat
    } else {
        0
    };
    if n < available {
        n
    } else {
        available
    }
}

/// Values of channels of a texel at full resolution.
pub open spec fn pixel_of(
    f: Stream,
    m: Arith,
    info: InfoView,
    faceid: int,
    u: int,
    v: int,
    first_chan: nat,
    nchannels: nat,
) -> Result<Seq<u32>, ErrorView> {
    let n = clipped_channels(info, first_chan, nchannels);
    if n == 0 {
        Ok(Seq::empty())
    } else {
        match info.face(faceid) {
            Ok(face) => match texel_of(f, m, info, faceid, face.res, u, v) {
                Ok(pixel) => Ok(
                    Seq::new(
                        n,
                        |c: int|
                            elem(
                                pixel,
                                (first_chan + c) * info.data_type.spec_size(),
                                info.data_type,
                            ),
                    ),
                ),
                Err(e) => Err(e),
            },
            Err(e) => Err(e),
        }
    }
}

} // verus!
