//! Properties of reading as a whole.

use crate::decode::{image_size, is_allocatable, tiles_cover, tiles_fit, DirView};
use crate::error::ErrorView;
use crate::file_info::{FaceSource, InfoView};
use crate::image::{
    assembled, assembled_byte, block_of, block_texel_of, constant_block_of, dir_of, entry_of,
    face_of, first_tile_error, layout_of, texel_bytes, texel_of, tile_image, tile_images,
    tile_in_face, tile_info_of, tile_inside, tile_of,
};
use crate::format::FaceDataHeader;
use crate::open::info_of;
use crate::paint::{lemma_put_all_len, row_writes};
use crate::place::{
    in_rows, lemma_all_tiles_placed, lemma_checked, lemma_covering_tile_inside,
    lemma_last_tile_outside, lemma_no_tiles_placed, lemma_packed_placed, lemma_solid_rows,
    lemma_solid_texel, lemma_tile_placed, lemma_tile_start, lemma_tiles_span, place,
    spec_check_buffer, tile_start, tiles_placed,
};
use crate::reader::{image_written, PtexReader};
use crate::shared::SharedReader;
use crate::source::{lemma_block_len, lemma_dir_shape, metadata_of};
use crate::stream::{stream, Stream};
use crate::texel::{arith, Arith, PixelOp};
use crate::tile::TileLayout;
use crate::types::Res;
use crate::reduce::reduced_rows;
use crate::utils::{lemma_grid, lemma_grid_end, lemma_rows_fit, lemma_scaled, rows_fit};
use vstd::prelude::*;

verus! {

/// A stream returns as many bytes as it is asked for.
pub open spec fn exact_reads(f: Stream) -> bool {
    forall|p: u64, n: usize| #[trigger] f(p, n) is Some ==> f(p, n)->0.len() == n
}

/// An error among the first tiles is the first error of all of them.
pub proof fn lemma_tile_error(
    f: Stream,
    m: Arith,
    info: InfoView,
    dir: DirView,
    levelid: int,
    res: Res,
    n: nat,
    total: nat,
)
    requires
        n <= total,
        first_tile_error(f, m, info, dir, levelid, res, n) is Some,
    ensures
        first_tile_error(f, m, info, dir, levelid, res, total) == first_tile_error(
            f,
            m,
            info,
            dir,
            levelid,
            res,
            n,
        ),
    decreases total,
{
    if n < total {
        lemma_tile_error(f, m, info, dir, levelid, res, n, (total - 1) as nat);
    }
}

/// Without an error among the tiles, every tile can be read.
pub proof fn lemma_no_tile_error(
    f: Stream,
    m: Arith,
    info: InfoView,
    dir: DirView,
    levelid: int,
    res: Res,
    n: nat,
    t: int,
)
    requires
        first_tile_error(f, m, info, dir, levelid, res, n) is None,
        0 <= t < n,
    ensures
        tile_image(f, m, info, dir, levelid, t) is Ok,
        tile_inside(t, res, dir.tile_res, info.pixel_size),
    decreases n,
{
    if t < n - 1 {
        lemma_no_tile_error(f, m, info, dir, levelid, res, (n - 1) as nat, t);
    }
}

/// Every image has the size of its resolution: `res.v()` rows of `res.u()`
/// pixels.
pub proof fn lemma_face_len(f: Stream, m: Arith, info: InfoView, faceid: int, res: Res)
    requires
        exact_reads(f),
        info.wf(),
        info.pixel_size <= usize::MAX,
        0 <= faceid,
    ensures
        face_of(f, m, info, faceid, res) is Ok ==> face_of(f, m, info, faceid, res)->Ok_0.len()
            == image_size(info, res),
{
    if face_of(f, m, info, faceid, res) is Ok {
        match info.source(faceid, res) {
            Ok(FaceSource::Constant) => {
                let pixel = info.constant_pixel(faceid);
                lemma_grid_end(faceid, info.faces.len() as int, info.pixel_size as int);
                lemma_solid_rows(pixel, res);
                assert(res.spec_v() * (res.spec_u() * pixel.len()) == res.spec_size()
                    * pixel.len()) by (nonlinear_arith)
                    requires
                        res.spec_size() == res.spec_u() * res.spec_v(),
                ;
            },
            Ok(FaceSource::Stored { levelid, facepos }) => {
                let (fdh, pos) = entry_of(f, info, levelid as int, facepos as int)->Ok_0;
                if !(fdh.spec_encoding() is Tiled) {
                    lemma_block_len(f, m, info, pos, fdh, res, levelid as int);
                }
            },
            Ok(FaceSource::Reduced) => {
                let (src_res, kind) = info.reduced_from(faceid, res);
                let src = face_of(f, m, info, faceid, src_res)->Ok_0;
                lemma_put_all_len(
                    crate::decode::zeros(image_size(info, res)),
                    row_writes(
                        reduced_rows(
                            kind.spec_kernel(),
                            m,
                            src,
                            (src_res.spec_u() * info.pixel_size) as int,
                            src_res.spec_u() as int,
                            src_res.spec_v() as int,
                            info.data_type,
                            info.nchannels() as int,
                        ),
                        (res.spec_u() * info.pixel_size) as int,
                    ),
                );
            },
            Err(e) => {},
        }
    }
}

/// The layout of a face that is split into tiles covers the face, and comes
/// from a tiled block.
pub proof fn lemma_layout(f: Stream, info: InfoView, faceid: int, res: Res)
    requires
        layout_of(f, info, faceid, res) is Ok,
        info.wf(),
        0 <= faceid,
    ensures
        ({
            let layout = layout_of(f, info, faceid, res)->Ok_0;
            &&& layout.is_tiled ==> {
                &&& tiles_fit(res, layout.tile_res)
                &&& layout.ntilesu == res.spec_ntilesu(layout.tile_res)
                &&& layout.ntilesv == res.spec_ntilesv(layout.tile_res)
                &&& layout.spec_ntiles() == res.spec_ntiles(layout.tile_res)
                &&& layout.spec_ntiles() <= usize::MAX
                &&& layout.covers_face() ==> tiles_cover(res, layout.tile_res)
                &&& res.ulog2 < 32 && res.vlog2 < 32 ==> layout.covers_face()
                &&& info.stored_at(faceid, res) is Some
                &&& ({
                    let (levelid, facepos) = info.stored_at(faceid, res)->0;
                    info.source(faceid, res) == Ok::<FaceSource, ErrorView>(
                        FaceSource::Stored {
                            levelid: levelid as usize,
                            facepos: facepos as usize,
                        },
                    )
                })
            }
            &&& !layout.is_tiled ==> layout == TileLayout::spec_untiled(
                res,
                layout.is_constant,
                layout.is_stored,
            )
        }),
{
    let layout = layout_of(f, info, faceid, res)->Ok_0;
    if layout.is_tiled {
        match info.source(faceid, res) {
            Ok(FaceSource::Stored { levelid, facepos }) => {
                let (fdh, pos) = entry_of(f, info, levelid as int, facepos as int)->Ok_0;
                lemma_dir_shape(f, pos, res);
                let tile_res = dir_of(f, pos, res)->Ok_0.tile_res;
                lemma_tiles_span(res, tile_res);
            },
            _ => {},
        }
    }
}

/// A grid larger than its face can be read as a whole only if its pixels have
/// no bytes.
pub proof fn lemma_uncovered(
    f: Stream,
    m: Arith,
    info: InfoView,
    dir: DirView,
    levelid: int,
    res: Res,
)
    requires
        tiles_fit(res, dir.tile_res),
        !tiles_cover(res, dir.tile_res),
        dir.fdh.len() == res.spec_ntiles(dir.tile_res),
        first_tile_error(f, m, info, dir, levelid, res, dir.fdh.len()) is None,
    ensures
        info.pixel_size == 0,
{
    if info.pixel_size > 0 {
        lemma_last_tile_outside(res, dir.tile_res, info.pixel_size);
        lemma_no_tile_error(
            f,
            m,
            info,
            dir,
            levelid,
            res,
            dir.fdh.len(),
            dir.fdh.len() - 1,
        );
    }
}

/// The tile that covers a texel is one of the grid.
pub proof fn lemma_texel_tile(res: Res, tile_res: Res, u: int, v: int)
    requires
        tiles_fit(res, tile_res),
        0 <= u < res.spec_u(),
        0 <= v < res.spec_v(),
    ensures
        ({
            let tu = tile_res.spec_u() as int;
            let tv = tile_res.spec_v() as int;
            let ntu = res.spec_ntilesu(tile_res);
            &&& 0 <= u / tu < ntu
            &&& 0 <= v / tv < res.spec_ntilesv(tile_res)
            &&& 0 <= u % tu < tu
            &&& 0 <= v % tv < tv
            &&& 0 <= (v / tv) * ntu
            &&& 0 <= (v / tv) * ntu + u / tu < res.spec_ntiles(tile_res)
        }),
{
    let tu = tile_res.spec_u() as int;
    let tv = tile_res.spec_v() as int;
    let ntu = res.spec_ntilesu(tile_res) as int;
    let ntv = res.spec_ntilesv(tile_res) as int;
    lemma_tiles_span(res, tile_res);
    vstd::arithmetic::div_mod::lemma_mod_bound(u, tu);
    vstd::arithmetic::div_mod::lemma_mod_bound(v, tv);
    assert(0 <= u / tu < ntu) by (nonlinear_arith)
        requires
            0 <= u < ntu * tu,
            0 < tu,
    ;
    assert(0 <= v / tv < ntv) by (nonlinear_arith)
        requires
            0 <= v < ntv * tv,
            0 < tv,
    ;
    lemma_grid(v / tv, u / tu, ntv, ntu);
    assert(ntv * ntu == ntu * ntv) by (nonlinear_arith);
}

/// A texel of an assembled image is that of the tile that covers it.
proof fn lemma_assembled_texel(
    tiles: spec_fn(int) -> Seq<u8>,
    res: Res,
    tile_res: Res,
    ps: nat,
    u: int,
    v: int,
)
    requires
        tiles_cover(res, tile_res),
        0 <= u < res.spec_u(),
        0 <= v < res.spec_v(),
        ({
            let t = (v / tile_res.spec_v() as int) * res.spec_ntilesu(tile_res) + u
                / tile_res.spec_u() as int;
            tiles(t).len() == tile_res.spec_size() * ps
        }),
    ensures
        ({
            let tu = tile_res.spec_u() as int;
            let tv = tile_res.spec_v() as int;
            let t = (v / tv) * res.spec_ntilesu(tile_res) + u / tu;
            texel_bytes(assembled(tiles, res, tile_res, ps), res, ps, u, v) == texel_bytes(
                tiles(t),
                tile_res,
                ps,
                u % tu,
                v % tv,
            )
        }),
{
    let tu = tile_res.spec_u() as int;
    let tv = tile_res.spec_v() as int;
    let uw = res.spec_u() as int;
    let vw = res.spec_v() as int;
    let t = (v / tv) * res.spec_ntilesu(tile_res) + u / tu;
    let img = assembled(tiles, res, tile_res, ps);
    let rowlen = uw * ps;
    let tilerow = tu * ps;
    lemma_texel_tile(res, tile_res, u, v);
    lemma_grid(v, u, vw, uw);
    lemma_grid_end(v * uw + u, vw * uw, ps as int);
    assert(vw * uw == res.spec_size()) by (nonlinear_arith)
        requires
            vw == res.spec_v(),
            uw == res.spec_u(),
            res.spec_size() == res.spec_u() * res.spec_v(),
    ;
    lemma_grid(v % tv, u % tu, tv, tu);
    lemma_grid_end((v % tv) * tu + u % tu, tv * tu, ps as int);
    assert(tv * tu == tile_res.spec_size()) by (nonlinear_arith)
        requires
            tv == tile_res.spec_v(),
            tu == tile_res.spec_u(),
            tile_res.spec_size() == tile_res.spec_u() * tile_res.spec_v(),
    ;
    vstd::arithmetic::div_mod::lemma_fundamental_div_mod(u, tu);
    let a = texel_bytes(img, res, ps, u, v);
    let b = texel_bytes(tiles(t), tile_res, ps, u % tu, v % tv);
    assert(a.len() == ps && b.len() == ps);
    assert forall|k: int| 0 <= k < ps implies a[k] == b[k] by {
        let at = (v * uw + u) * ps + k;
        let x = u * ps + k;
        assert(at == v * rowlen + x) by (nonlinear_arith)
            requires
                at == (v * uw + u) * ps + k,
                x == u * ps + k,
                rowlen == uw * ps,
        ;
        lemma_grid_end(u, uw, ps as int);
        vstd::arithmetic::div_mod::lemma_fundamental_div_mod_converse(at, rowlen, v, x);
        let xr = (u % tu) * ps + k;
        lemma_grid_end(u % tu, tu, ps as int);
        assert(x == (u / tu) * tilerow + xr) by (nonlinear_arith)
            requires
                x == u * ps + k,
                xr == (u % tu) * ps + k,
                tilerow == tu * ps,
                u == tu * (u / tu) + u % tu,
        ;
        vstd::arithmetic::div_mod::lemma_fundamental_div_mod_converse(x, tilerow, u / tu, xr);
        assert(a[k] == img[at]);
        assert(img[at] == assembled_byte(tiles, res, tile_res, ps, at));
        assert((v % tv) * tilerow + xr == ((v % tv) * tu + u % tu) * ps + k) by (nonlinear_arith)
            requires
                tilerow == tu * ps,
                xr == (u % tu) * ps + k,
        ;
    }
    assert(a =~= b);
}

/// Tiles fetched individually make up the whole face: every texel of the face
/// is the texel of the tile that the layout names for it.
pub proof fn tiles_reassemble(
    f: Stream,
    m: Arith,
    info: InfoView,
    faceid: int,
    res: Res,
    u: int,
    v: int,
)
    requires
        exact_reads(f),
        info.wf(),
        info.pixel_size <= usize::MAX,
        0 <= faceid,
        layout_of(f, info, faceid, res) is Ok,
        layout_of(f, info, faceid, res)->Ok_0.is_tiled,
        layout_of(f, info, faceid, res)->Ok_0.covers_face(),
        face_of(f, m, info, faceid, res) is Ok,
        0 <= u < res.spec_u(),
        0 <= v < res.spec_v(),
    ensures
        ({
            let layout = layout_of(f, info, faceid, res)->Ok_0;
            let img = face_of(f, m, info, faceid, res)->Ok_0;
            let t = layout.spec_tile_index(u, v);
            let (ou, ov) = layout.spec_tile_origin(t);
            let tile = tile_of(f, m, info, faceid, res, t);
            &&& 0 <= t < layout.spec_ntiles()
            &&& tile is Ok
            &&& tile->Ok_0.len() == image_size(info, layout.tile_res)
            &&& ou <= u < ou + layout.tile_res.spec_u()
            &&& ov <= v < ov + layout.tile_res.spec_v()
            &&& texel_bytes(img, res, info.pixel_size, u, v) == texel_bytes(
                tile->Ok_0,
                layout.tile_res,
                info.pixel_size,
                u - ou,
                v - ov,
            )
        }),
{
    let layout = layout_of(f, info, faceid, res)->Ok_0;
    lemma_layout(f, info, faceid, res);
    let (levelid, facepos) = info.stored_at(faceid, res)->0;
    let (fdh, pos) = entry_of(f, info, levelid, facepos)->Ok_0;
    let dir = dir_of(f, pos, res)->Ok_0;
    lemma_dir_shape(f, pos, res);
    let tile_res = dir.tile_res;
    let tu = tile_res.spec_u() as int;
    let tv = tile_res.spec_v() as int;
    let ntu = layout.ntilesu as int;
    lemma_texel_tile(res, tile_res, u, v);
    let t = (v / tv) * ntu + u / tu;
    assert(t == layout.spec_tile_index(u, v));
    lemma_no_tile_error(f, m, info, dir, levelid, res, dir.fdh.len(), t);
    lemma_block_len(f, m, info, dir.offsets[t], dir.fdh[t], tile_res, levelid);
    let tiles = tile_images(f, m, info, dir, levelid);
    lemma_assembled_texel(tiles, res, tile_res, info.pixel_size, u, v);
    lemma_grid(v / tv, u / tu, layout.ntilesv as int, ntu);
    vstd::arithmetic::div_mod::lemma_fundamental_div_mod(u, tu);
    vstd::arithmetic::div_mod::lemma_fundamental_div_mod(v, tv);
    assert(tu * (u / tu) == u / tu * tu && tv * (v / tv) == v / tv * tv) by (nonlinear_arith);
}

/// Where a byte of tile `t` lies in an assembled image: byte `x` of row `v` of
/// the tile.
proof fn lemma_assembled_row(
    tiles: spec_fn(int) -> Seq<u8>,
    res: Res,
    tile_res: Res,
    ps: nat,
    t: int,
    v: int,
    x: int,
)
    requires
        tiles_cover(res, tile_res),
        0 <= t < res.spec_ntiles(tile_res),
        0 <= v < tile_res.spec_v(),
        0 <= x < tile_res.spec_u() * ps,
    ensures
        ({
            let ntu = res.spec_ntilesu(tile_res) as int;
            let ou = (t % ntu) * tile_res.spec_u();
            let ov = (t / ntu) * tile_res.spec_v();
            let k = ((ov + v) * res.spec_u() + ou) * ps + x;
            &&& 0 <= k < res.spec_size() * ps
            &&& ((ov + v) * res.spec_u() + ou) * ps + tile_res.spec_u() * ps <= res.spec_size()
                * ps
            &&& 0 <= ((ov + v) * res.spec_u() + ou) * ps
            &&& assembled(tiles, res, tile_res, ps)[k] == tiles(t)[v * (tile_res.spec_u() * ps) + x]
        }),
{
    lemma_tiles_span(res, tile_res);
    let ntu = res.spec_ntilesu(tile_res) as int;
    let ntv = res.spec_ntilesv(tile_res) as int;
    let tu = tile_res.spec_u() as int;
    let tv = tile_res.spec_v() as int;
    let uw = res.spec_u() as int;
    let vw = res.spec_v() as int;
    let tr = tu * ps;
    let rowlen = uw * ps;
    let i = t / ntu;
    let j = t % ntu;
    vstd::arithmetic::div_mod::lemma_fundamental_div_mod(t, ntu);
    vstd::arithmetic::div_mod::lemma_mod_bound(t, ntu);
    assert(0 <= i < ntv) by (nonlinear_arith)
        requires
            0 <= t < ntu * ntv,
            0 < ntu,
            i == t / ntu,
    ;
    let y = i * tv + v;
    let xx = j * tr + x;
    lemma_grid(i, v, ntv, tv);
    lemma_grid(j, x, ntu, tr);
    assert(ntu * tr == rowlen) by (nonlinear_arith)
        requires
            ntu * tu == uw,
            tr == tu * ps,
            rowlen == uw * ps,
    ;
    lemma_grid(y, xx, vw, rowlen);
    let k = (y * uw + j * tu) * ps + x;
    assert(k == y * rowlen + xx) by (nonlinear_arith)
        requires
            k == (y * uw + j * tu) * ps + x,
            xx == j * tr + x,
            tr == tu * ps,
            rowlen == uw * ps,
    ;
    assert(vw * rowlen == res.spec_size() * ps) by (nonlinear_arith)
        requires
            rowlen == uw * ps,
            uw == res.spec_u(),
            vw == res.spec_v(),
            res.spec_size() == res.spec_u() * res.spec_v(),
    ;
    lemma_grid_end(y, vw, rowlen);
    assert((y * uw + j * tu) * ps == y * rowlen + j * tr) by (nonlinear_arith)
        requires
            tr == tu * ps,
            rowlen == uw * ps,
    ;
    assert(i * ntu + j == t) by (nonlinear_arith)
        requires
            t == ntu * i + j,
    ;
    assert(assembled(tiles, res, tile_res, ps)[k] == assembled_byte(tiles, res, tile_res, ps, k));
}

/// The rows that a tile is written to, whatever the stride, are rows of the
/// whole face, and nothing else is written.  A stride or a buffer that is too
/// small is refused, and the buffer left alone.
pub proof fn tile_rows_are_face_rows(
    f: Stream,
    m: Arith,
    info: InfoView,
    faceid: int,
    res: Res,
    tile: int,
    before: Seq<u8>,
    stride: nat,
    returned: Result<(), ErrorView>,
    after: Seq<u8>,
)
    requires
        exact_reads(f),
        info.wf(),
        info.pixel_size <= usize::MAX,
        0 <= faceid,
        layout_of(f, info, faceid, res) is Ok,
        layout_of(f, info, faceid, res)->Ok_0.is_tiled ==> layout_of(
            f,
            info,
            faceid,
            res,
        )->Ok_0.covers_face(),
        face_of(f, m, info, faceid, res) is Ok,
        0 <= tile < layout_of(f, info, faceid, res)->Ok_0.spec_ntiles(),
        stride > 0,
        image_written(
            info.pixel_size,
            layout_of(f, info, faceid, res)->Ok_0.tile_res,
            tile_of(f, m, info, faceid, res, tile),
            before,
            stride,
            returned,
            after,
        ),
    ensures
        ({
            let layout = layout_of(f, info, faceid, res)->Ok_0;
            let face = face_of(f, m, info, faceid, res)->Ok_0;
            let rowlen = (layout.tile_res.spec_u() * info.pixel_size) as int;
            let rows = layout.tile_res.spec_v() as int;
            let (ou, ov) = layout.spec_tile_origin(tile);
            if stride < rowlen || before.len() < stride * (rows - 1) + rowlen {
                returned is Err && after == before
            } else {
                &&& returned == Ok::<(), ErrorView>(())
                &&& after.len() == before.len()
                &&& forall|v: int|
                    #![trigger after.subrange(v * stride, v * stride + rowlen)]
                    0 <= v < rows ==> {
                        let at = ((ov + v) * res.spec_u() + ou) * info.pixel_size;
                        after.subrange(v * stride, v * stride + rowlen) == face.subrange(
                            at,
                            at + rowlen,
                        )
                    }
                &&& forall|k: int|
                    0 <= k < before.len() && !in_rows(k, stride as int, rowlen, rows)
                        ==> #[trigger] after[k] == before[k]
            }
        }),
{
    let layout = layout_of(f, info, faceid, res)->Ok_0;
    let face = face_of(f, m, info, faceid, res)->Ok_0;
    let ps = info.pixel_size;
    let tile_res = layout.tile_res;
    let rowlen = (tile_res.spec_u() * ps) as int;
    let rows = tile_res.spec_v() as int;
    let (ou, ov) = layout.spec_tile_origin(tile);
    lemma_layout(f, info, faceid, res);
    lemma_face_len(f, m, info, faceid, res);
    assert(ps * tile_res.spec_u() == rowlen) by (nonlinear_arith)
        requires
            rowlen == tile_res.spec_u() * ps,
    ;
    if !(stride < rowlen || before.len() < stride * (rows - 1) + rowlen) {
        lemma_tile_of_face(f, m, info, faceid, res, tile);
        lemma_checked(tile_res, ps, before.len(), stride);
        assert forall|v: int|
            #![trigger after.subrange(v * stride, v * stride + rowlen)]
            0 <= v < rows implies {
            let at = ((ov + v) * res.spec_u() + ou) * ps;
            after.subrange(v * stride, v * stride + rowlen) == face.subrange(at, at + rowlen)
        } by {
            lemma_rows_fit(v, rows, stride as int, rowlen, before.len());
            lemma_tile_row(f, m, info, faceid, res, tile, before, stride as int, v);
        }
    }
}

/// A tile of a face that can be read can be read.
proof fn lemma_tile_of_face(
    f: Stream,
    m: Arith,
    info: InfoView,
    faceid: int,
    res: Res,
    tile: int,
)
    requires
        info.wf(),
        0 <= faceid,
        layout_of(f, info, faceid, res) is Ok,
        face_of(f, m, info, faceid, res) is Ok,
        0 <= tile < layout_of(f, info, faceid, res)->Ok_0.spec_ntiles(),
    ensures
        tile_of(f, m, info, faceid, res, tile) is Ok,
{
    let layout = layout_of(f, info, faceid, res)->Ok_0;
    lemma_layout(f, info, faceid, res);
    if layout.is_tiled {
        let (levelid, facepos) = info.stored_at(faceid, res)->0;
        let (fdh, pos) = entry_of(f, info, levelid, facepos)->Ok_0;
        let dir = dir_of(f, pos, res)->Ok_0;
        lemma_dir_shape(f, pos, res);
        lemma_no_tile_error(f, m, info, dir, levelid, res, dir.fdh.len(), tile);
    }
}

/// Byte `x` of row `v` of a tile is a byte of the face.
proof fn lemma_tile_byte(
    f: Stream,
    m: Arith,
    info: InfoView,
    faceid: int,
    res: Res,
    tile: int,
    v: int,
    x: int,
)
    requires
        info.wf(),
        0 <= faceid,
        layout_of(f, info, faceid, res) is Ok,
        layout_of(f, info, faceid, res)->Ok_0.is_tiled ==> layout_of(
            f,
            info,
            faceid,
            res,
        )->Ok_0.covers_face(),
        face_of(f, m, info, faceid, res) is Ok,
        0 <= tile < layout_of(f, info, faceid, res)->Ok_0.spec_ntiles(),
        0 <= v < layout_of(f, info, faceid, res)->Ok_0.tile_res.spec_v(),
        0 <= x < layout_of(f, info, faceid, res)->Ok_0.tile_res.spec_u() * info.pixel_size,
    ensures
        ({
            let layout = layout_of(f, info, faceid, res)->Ok_0;
            let (ou, ov) = layout.spec_tile_origin(tile);
            let at = ((ov + v) * res.spec_u() + ou) * info.pixel_size;
            face_of(f, m, info, faceid, res)->Ok_0[at + x] == tile_of(
                f,
                m,
                info,
                faceid,
                res,
                tile,
            )->Ok_0[v * (layout.tile_res.spec_u() * info.pixel_size) + x]
        }),
{
    let layout = layout_of(f, info, faceid, res)->Ok_0;
    let ps = info.pixel_size;
    lemma_layout(f, info, faceid, res);
    lemma_row_inside(f, m, info, faceid, res, tile, v);
    if layout.is_tiled {
        let (levelid, facepos) = info.stored_at(faceid, res)->0;
        let (fdh, pos) = entry_of(f, info, levelid, facepos)->Ok_0;
        let dir = dir_of(f, pos, res)->Ok_0;
        lemma_dir_shape(f, pos, res);
        let tiles = tile_images(f, m, info, dir, levelid);
        lemma_assembled_row(tiles, res, layout.tile_res, ps, tile, v, x);
        let ntu = res.spec_ntilesu(layout.tile_res) as int;
        assert(layout.spec_tile_origin(tile) == (
            tile % ntu * layout.tile_res.spec_u(),
            tile / ntu * layout.tile_res.spec_v(),
        ));
    } else {
        assert(((0 + v) * res.spec_u() + 0) * ps == v * (res.spec_u() * ps)) by (nonlinear_arith);
    }
}

/// Row `v` of a tile that was written at a stride is a row of the face.
proof fn lemma_tile_row(
    f: Stream,
    m: Arith,
    info: InfoView,
    faceid: int,
    res: Res,
    tile: int,
    before: Seq<u8>,
    stride: int,
    v: int,
)
    requires
        exact_reads(f),
        info.wf(),
        info.pixel_size <= usize::MAX,
        0 <= faceid,
        layout_of(f, info, faceid, res) is Ok,
        layout_of(f, info, faceid, res)->Ok_0.is_tiled ==> layout_of(
            f,
            info,
            faceid,
            res,
        )->Ok_0.covers_face(),
        face_of(f, m, info, faceid, res) is Ok,
        0 <= tile < layout_of(f, info, faceid, res)->Ok_0.spec_ntiles(),
        0 <= v < layout_of(f, info, faceid, res)->Ok_0.tile_res.spec_v(),
        0 <= v * stride,
        ({
            let rowlen = layout_of(f, info, faceid, res)->Ok_0.tile_res.spec_u()
                * info.pixel_size;
            rowlen <= stride && v * stride + rowlen <= before.len()
        }),
    ensures
        ({
            let layout = layout_of(f, info, faceid, res)->Ok_0;
            let rowlen = (layout.tile_res.spec_u() * info.pixel_size) as int;
            let (ou, ov) = layout.spec_tile_origin(tile);
            let at = ((ov + v) * res.spec_u() + ou) * info.pixel_size;
            place(
                before,
                tile_of(f, m, info, faceid, res, tile)->Ok_0,
                stride,
                rowlen,
                layout.tile_res.spec_v() as int,
            ).subrange(v * stride, v * stride + rowlen) == face_of(
                f,
                m,
                info,
                faceid,
                res,
            )->Ok_0.subrange(at, at + rowlen)
        }),
{
    let layout = layout_of(f, info, faceid, res)->Ok_0;
    let face = face_of(f, m, info, faceid, res)->Ok_0;
    let img = tile_of(f, m, info, faceid, res, tile)->Ok_0;
    let ps = info.pixel_size;
    let tile_res = layout.tile_res;
    let rowlen = (tile_res.spec_u() * ps) as int;
    let rows = tile_res.spec_v() as int;
    let (ou, ov) = layout.spec_tile_origin(tile);
    let at = ((ov + v) * res.spec_u() + ou) * ps;
    let got = place(before, img, stride, rowlen, rows).subrange(v * stride, v * stride + rowlen);
    let want = face.subrange(at, at + rowlen);
    lemma_face_len(f, m, info, faceid, res);
    if rowlen == 0 {
        crate::types::lemma_dims(tile_res);
        assert(ps == 0) by (nonlinear_arith)
            requires
                tile_res.spec_u() * ps == 0,
                tile_res.spec_u() > 0,
        ;
        assert(at == 0) by (nonlinear_arith)
            requires
                at == ((ov + v) * res.spec_u() + ou) * ps,
                ps == 0,
        ;
        assert(got =~= want);
    } else {
        lemma_row_inside(f, m, info, faceid, res, tile, v);
        assert forall|x: int| 0 <= x < rowlen implies got[x] == want[x] by {
            placed_rows(before, img, stride, rowlen, rows, v, x);
            lemma_tile_byte(f, m, info, faceid, res, tile, v, x);
        }
        assert(got =~= want);
    }
}

/// Row `v` of a tile lies inside the image of the face.
proof fn lemma_row_inside(
    f: Stream,
    m: Arith,
    info: InfoView,
    faceid: int,
    res: Res,
    tile: int,
    v: int,
)
    requires
        info.wf(),
        0 <= faceid,
        layout_of(f, info, faceid, res) is Ok,
        layout_of(f, info, faceid, res)->Ok_0.is_tiled ==> layout_of(
            f,
            info,
            faceid,
            res,
        )->Ok_0.covers_face(),
        0 <= tile < layout_of(f, info, faceid, res)->Ok_0.spec_ntiles(),
        0 <= v < layout_of(f, info, faceid, res)->Ok_0.tile_res.spec_v(),
        layout_of(f, info, faceid, res)->Ok_0.tile_res.spec_u() * info.pixel_size > 0,
    ensures
        ({
            let layout = layout_of(f, info, faceid, res)->Ok_0;
            let (ou, ov) = layout.spec_tile_origin(tile);
            let at = ((ov + v) * res.spec_u() + ou) * info.pixel_size;
            &&& 0 <= at
            &&& at + layout.tile_res.spec_u() * info.pixel_size <= image_size(info, res)
            &&& !layout.is_tiled ==> ou == 0 && ov == 0
        }),
{
    let layout = layout_of(f, info, faceid, res)->Ok_0;
    let ps = info.pixel_size;
    lemma_layout(f, info, faceid, res);
    if layout.is_tiled {
        let tiles = |t: int| Seq::<u8>::empty();
        lemma_assembled_row(tiles, res, layout.tile_res, ps, tile, v, 0);
        let ntu = res.spec_ntilesu(layout.tile_res) as int;
        assert(layout.spec_tile_origin(tile) == (
            tile % ntu * layout.tile_res.spec_u(),
            tile / ntu * layout.tile_res.spec_v(),
        ));
    } else {
        lemma_untiled_origin(layout, tile);
        let uw = res.spec_u() as int;
        let vw = res.spec_v() as int;
        crate::types::lemma_dims(res);
        lemma_grid_end(v, vw, uw * ps);
        assert((v * uw) * ps == v * (uw * ps)) by (nonlinear_arith);
        assert(vw * (uw * ps) == uw * vw * ps) by (nonlinear_arith);
    }
}

/// The single tile of a face that is not tiled is at its origin.
proof fn lemma_untiled_origin(layout: TileLayout, tile: int)
    requires
        layout.ntilesu == 1,
        layout.ntilesv == 1,
        0 <= tile < layout.spec_ntiles(),
    ensures
        tile == 0,
        layout.spec_ntiles() == 1,
        layout.spec_tile_origin(tile) == (0int, 0int),
{
    assert(layout.spec_ntiles() == 1);
    let a = vstd::arithmetic::power2::pow2(layout.tile_res.ulog2 as nat);
    let b = vstd::arithmetic::power2::pow2(layout.tile_res.vlog2 as nat);
    assert(0 * a == 0 && 0 * b == 0);
}

/// A buffer after the first `n` tiles have been written into it, each from the
/// byte of its origin on.
pub open spec fn tiles_written(
    tiles: spec_fn(int) -> Seq<u8>,
    layout: TileLayout,
    ps: nat,
    buffer: Seq<u8>,
    stride: int,
    n: nat,
) -> Seq<u8>
    decreases n,
{
    if n == 0 {
        buffer
    } else {
        let t = n - 1;
        let cur = tiles_written(tiles, layout, ps, buffer, stride, (n - 1) as nat);
        let (u, v) = layout.spec_tile_origin(t);
        let off = v * stride + u * ps;
        cur.take(off) + place(
            cur.skip(off),
            tiles(t),
            stride,
            (layout.tile_res.spec_u() * ps) as int,
            layout.tile_res.spec_v() as int,
        )
    }
}

/// The images of all tiles of a face.
pub open spec fn all_tiles(
    f: Stream,
    m: Arith,
    info: InfoView,
    faceid: int,
    res: Res,
) -> spec_fn(int) -> Seq<u8> {
    |t: int| tile_of(f, m, info, faceid, res, t)->Ok_0
}

/// The tiles of a face, each written at its origin, are exactly the face: a
/// buffer that takes the tiles one after the other holds what reading the whole
/// face into it gives, at every resolution, stored or computed.  Every tile
/// finds room behind its origin.
pub proof fn tiles_fill_the_buffer(
    f: Stream,
    m: Arith,
    info: InfoView,
    faceid: int,
    res: Res,
    buffer: Seq<u8>,
    stride: nat,
)
    requires
        exact_reads(f),
        info.wf(),
        info.pixel_size <= usize::MAX,
        0 <= faceid,
        is_allocatable(info, res),
        layout_of(f, info, faceid, res) is Ok,
        layout_of(f, info, faceid, res)->Ok_0.is_tiled ==> layout_of(
            f,
            info,
            faceid,
            res,
        )->Ok_0.covers_face(),
        forall|t: int|
            0 <= t < layout_of(f, info, faceid, res)->Ok_0.spec_ntiles() ==> (#[trigger] tile_of(
                f,
                m,
                info,
                faceid,
                res,
                t,
            )) is Ok,
        res.spec_u() * info.pixel_size <= stride,
        rows_fit(
            res.spec_v() as int,
            stride as int,
            (res.spec_u() * info.pixel_size) as int,
            buffer.len(),
        ),
    ensures
        ({
            let layout = layout_of(f, info, faceid, res)->Ok_0;
            let face = face_of(f, m, info, faceid, res);
            let written = tiles_written(
                all_tiles(f, m, info, faceid, res),
                layout,
                info.pixel_size,
                buffer,
                stride as int,
                layout.spec_ntiles(),
            );
            &&& face is Ok
            &&& written == place(
                buffer,
                face->Ok_0,
                stride as int,
                (res.spec_u() * info.pixel_size) as int,
                res.spec_v() as int,
            )
            &&& buffer.len() == image_size(info, res) && stride == res.spec_u() * info.pixel_size
                ==> written == face->Ok_0
            &&& forall|t: int|
                0 <= t < layout.spec_ntiles() ==> {
                    let (u, v) = #[trigger] layout.spec_tile_origin(t);
                    let off = v * stride + u * info.pixel_size;
                    &&& 0 <= off <= buffer.len()
                    &&& spec_check_buffer(
                        layout.tile_res,
                        info.pixel_size,
                        (buffer.len() - off) as nat,
                        stride,
                    ) == Ok::<nat, ErrorView>(stride)
                }
        }),
{
    let layout = layout_of(f, info, faceid, res)->Ok_0;
    let ps = info.pixel_size;
    let tile_res = layout.tile_res;
    let rowlen = (res.spec_u() * ps) as int;
    let vw = res.spec_v() as int;
    let tiles = all_tiles(f, m, info, faceid, res);
    lemma_layout(f, info, faceid, res);
    crate::types::lemma_dims(res);
    if layout.is_tiled {
        face_readable_iff_tiles(f, m, info, faceid, res);
        let (levelid, facepos) = info.stored_at(faceid, res)->0;
        let (fdh, pos) = entry_of(f, info, levelid, facepos)->Ok_0;
        let dir = dir_of(f, pos, res)->Ok_0;
        lemma_dir_shape(f, pos, res);
        let images = tile_images(f, m, info, dir, levelid);
        let face = face_of(f, m, info, faceid, res)->Ok_0;
        assert(face == assembled(images, res, tile_res, ps));
        lemma_tiles_written(
            tiles,
            images,
            layout,
            ps,
            buffer,
            stride as int,
            layout.spec_ntiles(),
        );
        let written = tiles_written(
            tiles,
            layout,
            ps,
            buffer,
            stride as int,
            layout.spec_ntiles(),
        );
        lemma_all_tiles_placed(buffer, written, face, res, tile_res, ps, stride as int);
    } else {
        assert(layout.ntilesu == 1 && layout.ntilesv == 1);
        assert(layout.spec_ntiles() == 1) by (nonlinear_arith)
            requires
                layout.ntilesu == 1,
                layout.ntilesv == 1,
                layout.spec_ntiles() == layout.ntilesu * layout.ntilesv,
        ;
        lemma_untiled_origin(layout, 0);
        assert(tile_of(f, m, info, faceid, res, 0) is Ok);
        assert(0 * stride == 0 && 0 * ps == 0);
        let face = face_of(f, m, info, faceid, res)->Ok_0;
        assert(tiles_written(tiles, layout, ps, buffer, stride as int, 0) == buffer);
        assert(buffer.skip(0) =~= buffer);
        let p = place(buffer, face, stride as int, rowlen, vw);
        assert(buffer.take(0) + p =~= p);
        reveal_with_fuel(tiles_written, 2);
    }
    lemma_face_len(f, m, info, faceid, res);
    let face = face_of(f, m, info, faceid, res)->Ok_0;
    assert(vw * rowlen == image_size(info, res)) by (nonlinear_arith)
        requires
            vw == res.spec_v(),
            rowlen == res.spec_u() * ps,
            image_size(info, res) == res.spec_u() * res.spec_v() * ps,
    ;
    if buffer.len() == image_size(info, res) && stride == rowlen {
        lemma_packed_placed(buffer, face, rowlen, vw);
    }
    assert forall|t: int| 0 <= t < layout.spec_ntiles() implies {
        let (u, v) = #[trigger] layout.spec_tile_origin(t);
        let off = v * stride + u * ps;
        &&& 0 <= off <= buffer.len()
        &&& spec_check_buffer(tile_res, ps, (buffer.len() - off) as nat, stride) == Ok::<
            nat,
            ErrorView,
        >(stride)
    } by {
        let (u, v) = layout.spec_tile_origin(t);
        let off = v * stride + u * ps;
        crate::types::lemma_dims(tile_res);
        if layout.is_tiled {
            lemma_tile_start(t, stride as int, res, tile_res, ps, buffer.len());
            lemma_origin_is_start(layout, t, stride as int, ps);
        } else {
            lemma_untiled_origin(layout, t);
            assert(0 * stride == 0 && 0 * ps == 0);
            assert(off == 0);
            lemma_rows_fit(0, vw, stride as int, rowlen, buffer.len());
        }
        let trow = ps * tile_res.spec_u();
        assert(trow == tile_res.spec_u() * ps) by (nonlinear_arith)
            requires
                trow == ps * tile_res.spec_u(),
        ;
        let tv = tile_res.spec_v() as int;
        assert((tv - 1) * stride == stride * (tv - 1)) by (nonlinear_arith);
    }
}

/// The byte that the origin of a tile names is where the tile starts.
proof fn lemma_origin_is_start(layout: TileLayout, t: int, stride: int, ps: nat)
    requires
        layout.covers_face(),
        layout.ntilesu == layout.res.spec_ntilesu(layout.tile_res),
    ensures
        ({
            let (u, v) = layout.spec_tile_origin(t);
            v * stride + u * ps == tile_start(t, stride, layout.res, layout.tile_res, ps)
        }),
{
    let (u, v) = layout.spec_tile_origin(t);
    let ntu = layout.ntilesu as int;
    let tu = layout.tile_res.spec_u() as int;
    let tv = layout.tile_res.spec_v() as int;
    let i = t / ntu;
    let j = t % ntu;
    assert(u == j * tu && v == i * tv);
    assert((i * tv) * stride + (j * tu) * ps == i * stride * tv + j * (tu * ps))
        by (nonlinear_arith);
}

/// After `n` tiles have been written, they are in their places.
proof fn lemma_tiles_written(
    tiles: spec_fn(int) -> Seq<u8>,
    images: spec_fn(int) -> Seq<u8>,
    layout: TileLayout,
    ps: nat,
    buffer: Seq<u8>,
    stride: int,
    n: nat,
)
    requires
        layout.covers_face(),
        tiles_cover(layout.res, layout.tile_res),
        layout.ntilesu == layout.res.spec_ntilesu(layout.tile_res),
        n <= layout.res.spec_ntiles(layout.tile_res),
        forall|t: int|
            0 <= t < layout.res.spec_ntiles(layout.tile_res) ==> #[trigger] tiles(t) == images(t),
        layout.res.spec_u() * ps <= stride,
        rows_fit(
            layout.res.spec_v() as int,
            stride,
            (layout.res.spec_u() * ps) as int,
            buffer.len(),
        ),
    ensures
        tiles_placed(
            buffer,
            tiles_written(tiles, layout, ps, buffer, stride, n),
            assembled(images, layout.res, layout.tile_res, ps),
            layout.res,
            layout.tile_res,
            ps,
            stride,
            n as int,
        ),
    decreases n,
{
    let img = assembled(images, layout.res, layout.tile_res, ps);
    if n == 0 {
        lemma_no_tiles_placed(buffer, img, layout.res, layout.tile_res, ps, stride);
    } else {
        let t = n - 1;
        lemma_tiles_written(tiles, images, layout, ps, buffer, stride, (n - 1) as nat);
        lemma_origin_is_start(layout, t, stride, ps);
        assert(tiles(t) == images(t));
        lemma_tile_placed(
            buffer,
            tiles_written(tiles, layout, ps, buffer, stride, (n - 1) as nat),
            tiles_written(tiles, layout, ps, buffer, stride, n),
            images,
            layout.res,
            layout.tile_res,
            ps,
            stride,
            t,
        );
    }
}

/// A tiled face can be read as a whole exactly when every one of its tiles can
/// be read.
pub proof fn face_readable_iff_tiles(f: Stream, m: Arith, info: InfoView, faceid: int, res: Res)
    requires
        info.wf(),
        0 <= faceid,
        layout_of(f, info, faceid, res) is Ok,
        layout_of(f, info, faceid, res)->Ok_0.is_tiled,
        layout_of(f, info, faceid, res)->Ok_0.covers_face(),
        is_allocatable(info, res),
    ensures
        face_of(f, m, info, faceid, res) is Ok <==> forall|t: int|
            0 <= t < layout_of(f, info, faceid, res)->Ok_0.spec_ntiles() ==> (#[trigger] tile_of(
                f,
                m,
                info,
                faceid,
                res,
                t,
            )) is Ok,
{
    lemma_layout(f, info, faceid, res);
    let layout = layout_of(f, info, faceid, res)->Ok_0;
    let (levelid, facepos) = info.stored_at(faceid, res)->0;
    let (fdh, pos) = entry_of(f, info, levelid, facepos)->Ok_0;
    let dir = dir_of(f, pos, res)->Ok_0;
    lemma_dir_shape(f, pos, res);
    let n = dir.fdh.len();
    if face_of(f, m, info, faceid, res) is Ok {
        assert forall|t: int| 0 <= t < layout.spec_ntiles() implies (#[trigger] tile_of(
            f,
            m,
            info,
            faceid,
            res,
            t,
        )) is Ok by {
            lemma_no_tile_error(f, m, info, dir, levelid, res, n, t);
        }
    } else {
        let t = lemma_some_tile_error(f, m, info, dir, levelid, res, n);
        lemma_covering_tile_inside(t, res, dir.tile_res, info.pixel_size);
        assert(tile_of(f, m, info, faceid, res, t) is Err);
    }
}

/// The first error among tiles is that of a tile.
proof fn lemma_some_tile_error(
    f: Stream,
    m: Arith,
    info: InfoView,
    dir: DirView,
    levelid: int,
    res: Res,
    n: nat,
) -> (t: int)
    requires
        first_tile_error(f, m, info, dir, levelid, res, n) is Some,
    ensures
        0 <= t < n,
        tile_in_face(f, m, info, dir, levelid, res, t) is Err,
    decreases n,
{
    if first_tile_error(f, m, info, dir, levelid, res, (n - 1) as nat) is Some {
        lemma_some_tile_error(f, m, info, dir, levelid, res, (n - 1) as nat)
    } else {
        n - 1
    }
}

/// A face that is not split into tiles has a single tile, number 0 at the
/// origin, which is the whole face.
pub proof fn untiled_face_is_one_tile(
    f: Stream,
    m: Arith,
    info: InfoView,
    faceid: int,
    res: Res,
)
    requires
        info.wf(),
        0 <= faceid,
        layout_of(f, info, faceid, res) is Ok,
        !layout_of(f, info, faceid, res)->Ok_0.is_tiled,
    ensures
        ({
            let layout = layout_of(f, info, faceid, res)->Ok_0;
            &&& layout.spec_ntiles() == 1
            &&& layout.tile_res == res
            &&& tile_of(f, m, info, faceid, res, 0) == face_of(f, m, info, faceid, res)
            &&& tile_info_of(f, info, faceid, res, 0)->Ok_0.origin == (0usize, 0usize)
        }),
{
    lemma_layout(f, info, faceid, res);
    assert(0 * res.spec_u() == 0 && 0 * res.spec_v() == 0);
}

/// A resolution that has to be computed is a single tile, and a layout that
/// says that the face is stored agrees with the tables of the file.
pub proof fn layout_stored_iff(f: Stream, info: InfoView, faceid: int, res: Res)
    requires
        info.wf(),
        0 <= faceid < info.faces.len(),
        layout_of(f, info, faceid, res) is Ok,
    ensures
        ({
            let layout = layout_of(f, info, faceid, res)->Ok_0;
            &&& info.is_stored(faceid, res) == Ok::<bool, ErrorView>(layout.is_stored)
            &&& !layout.is_stored ==> !layout.is_tiled && !layout.is_constant
        }),
{
}

/// A tile has a block of its own exactly if the face is stored at this
/// resolution and is not a constant face or a single texel.
pub proof fn tile_has_block_iff(f: Stream, info: InfoView, faceid: int, res: Res, tile: int)
    requires
        info.wf(),
        0 <= faceid < info.faces.len(),
        tile_info_of(f, info, faceid, res, tile) is Ok,
    ensures
        ({
            let t = tile_info_of(f, info, faceid, res, tile)->Ok_0;
            &&& t.file_offset is Some <==> info.is_stored(faceid, res) == Ok::<bool, ErrorView>(
                true,
            ) && !info.is_single_pixel(faceid, res)
            &&& t.file_offset is None ==> t.compressed_size == 0
        }),
{
}

/// A texel of a data block is that of the image in it.
pub proof fn lemma_block_texel(
    f: Stream,
    m: Arith,
    info: InfoView,
    pos: u64,
    fdh: FaceDataHeader,
    res: Res,
    levelid: int,
    u: int,
    v: int,
)
    requires
        exact_reads(f),
        info.pixel_size <= usize::MAX,
        block_of(f, m, info, pos, fdh, res, levelid) is Ok,
        0 <= u < res.spec_u(),
        0 <= v < res.spec_v(),
    ensures
        block_texel_of(f, m, info, pos, fdh, res, levelid, u, v) == Ok::<Seq<u8>, ErrorView>(
            texel_bytes(
                block_of(f, m, info, pos, fdh, res, levelid)->Ok_0,
                res,
                info.pixel_size,
                u,
                v,
            ),
        ),
{
    reveal(block_of);
    if fdh.spec_encoding() is Constant {
        let pixel = constant_block_of(f, m, info, pos, fdh, levelid)->Ok_0;
        assert(pixel.len() == info.pixel_size);
        lemma_solid_texel(pixel, res, u, v);
    }
}

/// Reading a single texel gives the bytes that reading the whole face gives.
pub proof fn texel_matches_face(
    f: Stream,
    m: Arith,
    info: InfoView,
    faceid: int,
    res: Res,
    u: int,
    v: int,
)
    requires
        exact_reads(f),
        info.wf(),
        info.pixel_size <= usize::MAX,
        0 <= faceid,
        face_of(f, m, info, faceid, res) is Ok,
        0 <= u < res.spec_u(),
        0 <= v < res.spec_v(),
    ensures
        texel_of(f, m, info, faceid, res, u, v) == Ok::<Seq<u8>, ErrorView>(
            texel_bytes(
                face_of(f, m, info, faceid, res)->Ok_0,
                res,
                info.pixel_size,
                u,
                v,
            ),
        ),
{
    match info.source(faceid, res) {
        Ok(FaceSource::Constant) => {
            lemma_grid_end(faceid, info.faces.len() as int, info.pixel_size as int);
            lemma_solid_texel(info.constant_pixel(faceid), res, u, v);
        },
        Ok(FaceSource::Stored { levelid, facepos }) => {
            let (fdh, pos) = entry_of(f, info, levelid as int, facepos as int)->Ok_0;
            if fdh.spec_encoding() is Tiled {
                let dir = dir_of(f, pos, res)->Ok_0;
                lemma_dir_shape(f, pos, res);
                let tu = dir.tile_res.spec_u() as int;
                let tv = dir.tile_res.spec_v() as int;
                lemma_texel_tile(res, dir.tile_res, u, v);
                let t = (v / tv) * res.spec_ntilesu(dir.tile_res) + u / tu;
                lemma_no_tile_error(f, m, info, dir, levelid as int, res, dir.fdh.len(), t);
                lemma_block_len(
                    f,
                    m,
                    info,
                    dir.offsets[t],
                    dir.fdh[t],
                    dir.tile_res,
                    levelid as int,
                );
                lemma_block_texel(
                    f,
                    m,
                    info,
                    dir.offsets[t],
                    dir.fdh[t],
                    dir.tile_res,
                    levelid as int,
                    u % tu,
                    v % tv,
                );
                let tiles = tile_images(f, m, info, dir, levelid as int);
                if tiles_cover(res, dir.tile_res) {
                    lemma_assembled_texel(tiles, res, dir.tile_res, info.pixel_size, u, v);
                } else {
                    lemma_uncovered(f, m, info, dir, levelid as int, res);
                    let img = assembled(tiles, res, dir.tile_res, 0);
                    assert(res.spec_size() * 0 == 0 && dir.tile_res.spec_size() * 0 == 0);
                    assert((v * res.spec_u() + u) * 0 == 0);
                    assert(((v % tv) * dir.tile_res.spec_u() + u % tu) * 0 == 0);
                    assert(texel_bytes(img, res, 0, u, v) =~= texel_bytes(
                        tiles(t),
                        dir.tile_res,
                        0,
                        u % tu,
                        v % tv,
                    ));
                }
            } else {
                lemma_block_texel(f, m, info, pos, fdh, res, levelid as int, u, v);
            }
        },
        _ => {},
    }
}

/// A constant face is its constant pixel at every texel of every resolution.
pub proof fn constant_face_is_solid(
    f: Stream,
    m: Arith,
    info: InfoView,
    faceid: int,
    res: Res,
    u: int,
    v: int,
)
    requires
        info.wf(),
        0 <= faceid < info.faces.len(),
        info.faces[faceid].spec_is_constant(),
        is_allocatable(info, res),
        0 <= u < res.spec_u(),
        0 <= v < res.spec_v(),
    ensures
        face_of(f, m, info, faceid, res) is Ok,
        texel_bytes(
            face_of(f, m, info, faceid, res)->Ok_0,
            res,
            info.pixel_size,
            u,
            v,
        ) == info.constant_pixel(faceid),
{
    lemma_grid_end(faceid, info.faces.len() as int, info.pixel_size as int);
    lemma_solid_texel(info.constant_pixel(faceid), res, u, v);
}

/// In a buffer whose rows are further apart than they are long, every row of
/// the image is at its stride and the bytes between the rows are untouched.
pub proof fn placed_rows(d: Seq<u8>, img: Seq<u8>, stride: int, rowlen: int, n: int, v: int, x: int)
    requires
        0 < rowlen <= stride,
        0 <= v,
        0 <= x < stride,
        v * stride + x < d.len(),
    ensures
        place(d, img, stride, rowlen, n)[v * stride + x] == if v < n && x < rowlen {
            img[v * rowlen + x]
        } else {
            d[v * stride + x]
        },
{
    lemma_scaled(0, v, stride);
    vstd::arithmetic::div_mod::lemma_fundamental_div_mod_converse(v * stride + x, stride, v, x);
}

/// Premultiplication is applied at level 0 alone: blocks of reduction levels
/// read alike with and without it.
pub proof fn premultiply_only_at_level_zero(
    f: Stream,
    m: Arith,
    info: InfoView,
    pos: u64,
    fdh: FaceDataHeader,
    res: Res,
    levelid: int,
)
    requires
        levelid != 0,
    ensures
        block_of(f, m, (InfoView { premultiply: true, ..info }), pos, fdh, res, levelid)
            == block_of(f, m, (InfoView { premultiply: false, ..info }), pos, fdh, res, levelid),
{
    reveal(block_of);
}

/// Level 0 is the full resolution, every further level halves both dimensions,
/// and the last one reduces the smaller dimension to a single texel.
pub proof fn levels_halve(info: InfoView, faceid: int, level: int)
    requires
        info.wf(),
        0 <= faceid < info.faces.len(),
        0 <= info.faces[faceid].res.ulog2,
        0 <= info.faces[faceid].res.vlog2,
        0 <= level < info.num_levels_of(faceid)->Ok_0,
    ensures
        ({
            let here = info.level_res(faceid, level)->Ok_0;
            let last = info.num_levels_of(faceid)->Ok_0 - 1;
            &&& info.level_res(faceid, level) is Ok
            &&& level == 0 ==> here == info.faces[faceid].res
            &&& level > 0 ==> {
                let larger = info.level_res(faceid, level - 1)->Ok_0;
                larger.ulog2 == here.ulog2 + 1 && larger.vlog2 == here.vlog2 + 1
            }
            &&& level == last <==> here.ulog2 == 0 || here.vlog2 == 0
        }),
{
}

/// A mipmap level that is stored is read from the level of that number.
pub proof fn levels_are_stored_in_order(info: InfoView, faceid: int, level: int)
    requires
        info.wf(),
        0 <= faceid < info.faces.len(),
        0 <= level < info.num_levels_of(faceid)->Ok_0,
    ensures
        match info.source(faceid, info.level_res(faceid, level)->Ok_0) {
            Ok(FaceSource::Stored { levelid, .. }) => levelid == level,
            _ => true,
        },
{
}

/// The shared reader agrees with the plain one: opened on the same stream with
/// the same arithmetic and the same option, they have the same tables, and
/// what they return of images, tiles, layouts, texels and meta data is the
/// same function of stream, arithmetic and tables, whatever the shared reader
/// has in its cache.
pub proof fn readers_agree<
    R: Fn(u64, usize) -> Result<Vec<u8>, std::io::Error>,
    M: Fn(PixelOp) -> u32,
>(
    plain: PtexReader<R, M>,
    shared: SharedReader<R, M>,
    read: R,
    math: M,
    premultiply: bool,
    faceid: int,
    res: Res,
    tile: int,
    u: int,
    v: int,
)
    requires
        plain.file() == stream(read),
        plain.arith() == arith(math),
        info_of(stream(read), arith(math), premultiply) == Ok::<InfoView, ErrorView>(
            plain.tables(),
        ),
        shared.file() == stream(read),
        shared.arith() == arith(math),
        info_of(stream(read), arith(math), premultiply) == Ok::<InfoView, ErrorView>(
            shared.tables(),
        ),
    ensures
        plain.tables() == shared.tables(),
        face_of(plain.file(), plain.arith(), plain.tables(), faceid, res) == face_of(
            shared.file(),
            shared.arith(),
            shared.tables(),
            faceid,
            res,
        ),
        layout_of(plain.file(), plain.tables(), faceid, res) == layout_of(
            shared.file(),
            shared.tables(),
            faceid,
            res,
        ),
        tile_of(plain.file(), plain.arith(), plain.tables(), faceid, res, tile) == tile_of(
            shared.file(),
            shared.arith(),
            shared.tables(),
            faceid,
            res,
            tile,
        ),
        tile_info_of(plain.file(), plain.tables(), faceid, res, tile) == tile_info_of(
            shared.file(),
            shared.tables(),
            faceid,
            res,
            tile,
        ),
        texel_of(plain.file(), plain.arith(), plain.tables(), faceid, res, u, v) == texel_of(
            shared.file(),
            shared.arith(),
            shared.tables(),
            faceid,
            res,
            u,
            v,
        ),
        metadata_of(plain.file(), plain.tables()) == metadata_of(
            shared.file(),
            shared.tables(),
        ),
{
}

} // verus!
