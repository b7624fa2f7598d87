//! Where the image of a face comes from.

use crate::decode::{is_allocatable, DirView};
use crate::element_laws::{channel, lemma_same_number, number_at, signed};
use crate::error::ErrorView;
use crate::file_info::{FaceSource, InfoView};
use crate::image::{
    block_of, dir_of, entry_of, face_of, first_tile_error, layout_of, tile_in_face,
    tile_info_of, tile_of,
};
use crate::laws::{lemma_layout, lemma_tile_error};
use crate::place::lemma_covering_tile_inside;
use crate::opening_laws::constant_flag_is_the_lowest_bit;
use crate::source::lemma_dir_shape;
use crate::stream::Stream;
use crate::texel::Arith;
use crate::tile::tile_at_its_origin;
use crate::types::Res;
use crate::utils::lemma_grid_end;
use vstd::arithmetic::power2::pow2;
use vstd::prelude::*;

verus! {

/// Where the image of a face at a resolution comes from.  A constant face, and
/// a single texel, is the face's pixel in the constant data.  Another
/// resolution is stored if it halves both dimensions of the face equally often
/// and the level of that number holds the face: level 0 has the faces in the
/// order of their ids, the others in the order of the reduction levels.  What
/// is left is computed, if it is smaller than the face, no smaller than a
/// texel, and for a triangle halves both dimensions alike.
pub proof fn where_a_face_comes_from(info: InfoView, faceid: int, res: Res)
    requires
        info.wf(),
        0 <= faceid,
    ensures
        ({
            let r = info.source(faceid, res);
            let face = info.faces[faceid];
            let du = face.res.ulog2 - res.ulog2;
            let dv = face.res.vlog2 - res.vlog2;
            let position = if du == 0 {
                faceid
            } else {
                info.rfaceids[faceid] as int
            };
            let single = face.flags % 2 == 1 || (res.ulog2 == 0 && res.vlog2 == 0);
            let stored = du == dv && 0 <= du < info.levels.len() && position
                < info.levels[du].nfaces;
            let computable = 0 <= res.ulog2 <= face.res.ulog2 && 0 <= res.vlog2 <= face.res.vlog2
                && res != face.res && (info.mesh_type is Quad || du == dv);
            &&& faceid >= info.faces.len() ==> r is Err && r->Err_0 is FaceOutOfRange
            &&& faceid < info.faces.len() ==> {
                &&& single ==> r == Ok::<FaceSource, ErrorView>(FaceSource::Constant)
                &&& !single && stored ==> r == Ok::<FaceSource, ErrorView>(
                    FaceSource::Stored { levelid: du as usize, facepos: position as usize },
                )
                &&& !single && !stored && computable ==> r == Ok::<FaceSource, ErrorView>(
                    FaceSource::Reduced,
                )
                &&& !single && !stored && !computable ==> r is Err
                &&& !single && !stored && res == face.res ==> r->Err_0 is Corrupt
                &&& !single && !stored && !computable && res != face.res
                    ==> r->Err_0 is Unsupported
            }
        }),
{
    if faceid < info.faces.len() {
        constant_flag_is_the_lowest_bit(info.faces[faceid]);
    }
}

/// A face that the file does not have is named in the error, by the low 32 bits
/// of its id, with the number of faces that there are.
pub proof fn missing_face_is_named(info: InfoView, faceid: int)
    requires
        info.wf(),
        info.faces.len() <= faceid,
    ensures
        ({
            let r = info.face(faceid);
            &&& r is Err
            &&& r->Err_0 is FaceOutOfRange
            &&& r->Err_0->faceid == signed((faceid % 0x1_0000_0000) as nat, 32)
            &&& r->Err_0->nfaces == info.faces.len()
        }),
{
    crate::opening_laws::signed_numbers(faceid % 0x1_0000_0000);
}

/// A face that is stored in a single block is the image in that block, at the
/// level that it is stored in; it can be read exactly if the block can.
pub proof fn stored_face_is_its_block(
    f: Stream,
    m: Arith,
    info: InfoView,
    faceid: int,
    res: Res,
    levelid: usize,
    facepos: usize,
)
    requires
        info.source(faceid, res) == Ok::<FaceSource, ErrorView>(
            FaceSource::Stored { levelid, facepos },
        ),
    ensures
        ({
            let entry = entry_of(f, info, levelid as int, facepos as int);
            let (fdh, pos) = entry->Ok_0;
            &&& entry is Err ==> face_of(f, m, info, faceid, res) == Err::<Seq<u8>, ErrorView>(
                entry->Err_0,
            )
            &&& entry is Ok && fdh.data / 0x4000_0000 != 3 ==> face_of(f, m, info, faceid, res)
                == block_of(f, m, info, pos, fdh, res, levelid as int)
        }),
{
}

/// A tile of a face that is split into tiles is the image in the tile's own
/// block, at the level that the face is stored in.
pub proof fn tile_is_its_block(
    f: Stream,
    m: Arith,
    info: InfoView,
    faceid: int,
    res: Res,
    tile: int,
)
    requires
        info.wf(),
        0 <= faceid,
        layout_of(f, info, faceid, res) is Ok,
        layout_of(f, info, faceid, res)->Ok_0.is_tiled,
        0 <= tile < layout_of(f, info, faceid, res)->Ok_0.spec_ntiles(),
    ensures
        ({
            let source = info.source(faceid, res)->Ok_0;
            let entry = entry_of(
                f,
                info,
                source->levelid as int,
                source->facepos as int,
            );
            let (fdh, pos) = entry->Ok_0;
            let dir = dir_of(f, pos, res);
            &&& source is Stored
            &&& entry is Ok
            &&& fdh.data / 0x4000_0000 == 3
            &&& dir is Ok
            &&& tile < dir->Ok_0.fdh.len()
            &&& tile_of(f, m, info, faceid, res, tile) == block_of(
                f,
                m,
                info,
                dir->Ok_0.offsets[tile],
                dir->Ok_0.fdh[tile],
                dir->Ok_0.tile_res,
                source->levelid as int,
            )
        }),
{
    lemma_layout(f, info, faceid, res);
    let source = info.source(faceid, res)->Ok_0;
    let (fdh, pos) = entry_of(f, info, source->levelid as int, source->facepos as int)->Ok_0;
    lemma_dir_shape(f, pos, res);
}

/// How a face is laid out follows from where it comes from: it is split into
/// tiles exactly if its block is a tiled one, the tiles being those of the
/// block's directory; it is constant if its pixel is in the constant data or
/// its block is a constant one; and it is stored unless it is computed.
pub proof fn layout_describes_the_block(f: Stream, info: InfoView, faceid: int, res: Res)
    requires
        info.wf(),
        0 <= faceid,
    ensures
        ({
            let source = info.source(faceid, res);
            let entry = entry_of(
                f,
                info,
                source->Ok_0->levelid as int,
                source->Ok_0->facepos as int,
            );
            let (fdh, pos) = entry->Ok_0;
            let tiled = fdh.data / 0x4000_0000 == 3;
            let dir = dir_of(f, pos, res);
            let layout = layout_of(f, info, faceid, res);
            let l = layout->Ok_0;
            &&& layout is Ok <==> source is Ok && (source->Ok_0 is Stored ==> entry is Ok && (tiled
                ==> dir is Ok))
            &&& layout is Ok ==> l.res == res
            &&& layout is Ok && !(source->Ok_0 is Stored) ==> {
                &&& l.tile_res == res
                &&& l.ntilesu == 1 && l.ntilesv == 1
                &&& !l.is_tiled
                &&& l.is_constant == (source->Ok_0 is Constant)
                &&& l.is_stored == (source->Ok_0 is Constant)
            }
            &&& layout is Ok && source->Ok_0 is Stored && !tiled ==> {
                &&& l.tile_res == res
                &&& l.ntilesu == 1 && l.ntilesv == 1
                &&& !l.is_tiled
                &&& l.is_constant == (fdh.data / 0x4000_0000 == 0)
                &&& l.is_stored
            }
            &&& layout is Ok && source->Ok_0 is Stored && tiled ==> {
                &&& l.tile_res == dir->Ok_0.tile_res
                &&& l.ntilesu == pow2((res.ulog2 - l.tile_res.ulog2) as nat)
                &&& l.ntilesv == pow2((res.vlog2 - l.tile_res.vlog2) as nat)
                &&& l.spec_ntiles() == dir->Ok_0.fdh.len()
                &&& l.is_tiled
                &&& !l.is_constant
                &&& l.is_stored
            }
        }),
{
    let source = info.source(faceid, res);
    if layout_of(f, info, faceid, res) is Ok && source->Ok_0 is Stored {
        lemma_layout(f, info, faceid, res);
        let (fdh, pos) = entry_of(
            f,
            info,
            source->Ok_0->levelid as int,
            source->Ok_0->facepos as int,
        )->Ok_0;
        lemma_dir_shape(f, pos, res);
        if fdh.spec_encoding() is Tiled {
            let tile_res = dir_of(f, pos, res)->Ok_0.tile_res;
            crate::place::lemma_tiles_span(res, tile_res);
        }
    }
}

/// What is told of a tile without reading it is what its block's header says:
/// whether it is constant, how many bytes it has and where they are.  A face
/// that is not split into tiles is described by its own block.  Tiles are
/// numbered row by row, and a tile that the face does not have is refused.
pub proof fn tile_info_describes_the_block(
    f: Stream,
    info: InfoView,
    faceid: int,
    res: Res,
    tile: int,
)
    requires
        info.wf(),
        0 <= faceid,
        0 <= tile <= usize::MAX,
        layout_of(f, info, faceid, res) is Ok,
    ensures
        ({
            let source = info.source(faceid, res)->Ok_0;
            let (fdh, pos) = entry_of(
                f,
                info,
                source->levelid as int,
                source->facepos as int,
            )->Ok_0;
            let dir = dir_of(f, pos, res)->Ok_0;
            let l = layout_of(f, info, faceid, res)->Ok_0;
            let r = tile_info_of(f, info, faceid, res, tile);
            let t = r->Ok_0;
            let (head, at) = if l.is_tiled {
                (dir.fdh[tile], dir.offsets[tile])
            } else {
                (fdh, pos)
            };
            &&& tile >= l.spec_ntiles() ==> r == Err::<crate::tile::TileInfo, ErrorView>(
                ErrorView::TileOutOfRange {
                    tile: tile as usize,
                    ntiles: l.spec_ntiles() as usize,
                },
            )
            &&& tile < l.spec_ntiles() ==> {
                &&& r is Ok
                &&& t.res == l.tile_res
                &&& l.is_tiled && l.covers_face() ==> t.origin.0 == tile % (l.ntilesu as int)
                    * l.tile_res.spec_u() && t.origin.1 == tile / (l.ntilesu as int)
                    * l.tile_res.spec_v()
                &&& !l.is_tiled ==> t.origin == (0usize, 0usize)
                &&& source is Stored ==> {
                    &&& t.is_constant == (head.data / 0x4000_0000 == 0)
                    &&& t.compressed_size == head.data % 0x4000_0000
                    &&& t.file_offset == Some(at)
                }
                &&& !(source is Stored) ==> {
                    &&& t.is_constant == l.is_constant
                    &&& t.compressed_size == 0
                    &&& t.file_offset is None
                }
            }
        }),
{
    lemma_layout(f, info, faceid, res);
    let l = layout_of(f, info, faceid, res)->Ok_0;
    if tile < l.spec_ntiles() {
        if l.is_tiled && l.covers_face() {
            tile_at_its_origin(l, tile);
            let (ou, ov) = l.spec_tile_origin(tile);
            crate::types::lemma_dims(l.res);
            vstd::arithmetic::div_mod::lemma_small_mod(ou as nat, (usize::MAX + 1) as nat);
            vstd::arithmetic::div_mod::lemma_small_mod(ov as nat, (usize::MAX + 1) as nat);
            assert(crate::image::shifted(tile % (l.ntilesu as int), l.tile_res.ulog2) == ou);
            assert(crate::image::shifted(tile / (l.ntilesu as int), l.tile_res.vlog2) == ov);
        } else if !l.is_tiled {
            assert(tile == 0);
            assert(0 * res.spec_u() == 0 && 0 * res.spec_v() == 0);
            crate::laws::untiled_face_is_one_tile(f, |op| 0u32, info, faceid, res);
        }
    }
}

/// Every texel of a constant face, and a face reduced to a single texel, is the
/// pixel of the face in the constant data.
pub proof fn single_pixel_face_is_its_constant(
    f: Stream,
    m: Arith,
    info: InfoView,
    faceid: int,
    res: Res,
    u: int,
    v: int,
    c: int,
)
    requires
        info.wf(),
        0 <= faceid < info.faces.len(),
        info.faces[faceid].flags % 2 == 1 || (res.ulog2 == 0 && res.vlog2 == 0),
        0 <= u < res.spec_u(),
        0 <= v < res.spec_v(),
        0 <= c < info.nchannels(),
    ensures
        ({
            let r = face_of(f, m, info, faceid, res);
            let size = info.data_type.spec_size();
            &&& r is Ok <==> res.spec_size() * info.pixel_size <= isize::MAX
            &&& r is Ok ==> r->Ok_0.len() == res.spec_size() * info.pixel_size
            &&& r is Ok ==> channel(info, r->Ok_0, res, u, v, c) == number_at(
                info.const_data,
                faceid * info.pixel_size + c * size,
                size,
            )
        }),
{
    constant_flag_is_the_lowest_bit(info.faces[faceid]);
    let pixel = info.constant_pixel(faceid);
    let img = crate::image::solid_image(pixel, res);
    let es = info.data_type.spec_size() as int;
    let ps = info.pixel_size as int;
    lemma_grid_end(faceid, info.faces.len() as int, ps);
    crate::place::lemma_solid_rows(pixel, res);
    assert(res.spec_v() * (res.spec_u() * pixel.len()) == res.spec_size() * pixel.len())
        by (nonlinear_arith)
        requires
            res.spec_size() == res.spec_u() * res.spec_v(),
    ;
    crate::block_laws::lemma_solid_channel(info, pixel, res, u, v, c);
    lemma_grid_end(c, info.nchannels() as int, es);
    assert(info.nchannels() * es == ps) by (nonlinear_arith)
        requires
            ps == es * info.nchannels(),
    ;
    assert forall|k: int| 0 <= k < es implies #[trigger] pixel[c * es + k]
        == info.const_data[faceid * ps + c * es + k] by {}
    lemma_same_number(pixel, c * es, info.const_data, faceid * ps + c * es, es as nat);
}

/// A computed resolution can be read exactly if the larger one that it is
/// computed from can be, the result fits in memory, and, for a triangle, the
/// larger one is not wider than high.
pub proof fn computed_face_is_readable_iff(
    f: Stream,
    m: Arith,
    info: InfoView,
    faceid: int,
    res: Res,
)
    requires
        info.wf(),
        0 <= faceid,
        info.source(faceid, res) == Ok::<FaceSource, ErrorView>(FaceSource::Reduced),
    ensures
        ({
            let full = info.faces[faceid].res;
            let far_u = full.ulog2 - res.ulog2;
            let far_v = full.vlog2 - res.vlog2;
            let larger = if info.mesh_type is Triangle {
                Res { ulog2: (res.ulog2 + 1) as i8, vlog2: (res.vlog2 + 1) as i8 }
            } else if far_u > far_v || (far_u == far_v && res.ulog2 as int % 2 == 1) {
                Res { ulog2: (res.ulog2 + 1) as i8, vlog2: res.vlog2 }
            } else {
                Res { ulog2: res.ulog2, vlog2: (res.vlog2 + 1) as i8 }
            };
            let src = face_of(f, m, info, faceid, larger);
            let r = face_of(f, m, info, faceid, res);
            &&& r is Ok <==> src is Ok && res.spec_size() * info.pixel_size <= isize::MAX && (
            info.mesh_type is Triangle ==> larger.spec_u() <= larger.spec_v())
            &&& src is Err ==> r == src
        }),
{
}

/// Level 0 of a face is its full resolution, and every further level halves
/// both dimensions, as long as neither is a single texel; a level beyond that
/// is refused.
pub proof fn levels_of_a_face(info: InfoView, faceid: int, level: int)
    requires
        info.wf(),
        0 <= faceid < info.faces.len(),
        0 <= level,
    ensures
        ({
            let res = info.faces[faceid].res;
            let r = info.level_res(faceid, level);
            let n = info.num_levels_of(faceid);
            &&& n is Ok
            &&& level < n->Ok_0 <==> level == 0 || (level <= res.ulog2 && level <= res.vlog2)
            &&& r is Ok <==> level < n->Ok_0
            &&& r is Ok ==> r->Ok_0.ulog2 == res.ulog2 - level && r->Ok_0.vlog2 == res.vlog2
                - level
            &&& r is Err ==> r->Err_0 is Unsupported
        }),
{
}

/// A resolution counts as stored exactly if its image comes from the constant
/// data or from a block; the stored levels that are counted are those up to the
/// first that is not stored.
pub proof fn stored_levels(info: InfoView, faceid: int, res: Res, n: nat, level: int)
    requires
        info.wf(),
        0 <= faceid < info.faces.len(),
        0 <= level,
    ensures
        ({
            let source = info.source(faceid, res);
            let stored = info.is_stored(faceid, res);
            &&& stored is Ok
            &&& stored->Ok_0 <==> source is Ok && !(source->Ok_0 is Reduced)
        }),
        info.stored_prefix(faceid, n) && level < n ==> info.is_stored(
            faceid,
            info.level_res(faceid, level)->Ok_0,
        ) == Ok::<bool, ErrorView>(true),
        info.stored_prefix(faceid, n) && n < info.num_levels_of(faceid)->Ok_0 ==> info.is_stored(
            faceid,
            info.level_res(faceid, n as int)->Ok_0,
        ) == Ok::<bool, ErrorView>(false),
        info.stored_prefix(faceid, n) ==> n <= info.num_levels_of(faceid)->Ok_0,
{
}

/// A face that is split into tiles fails as the first of its tiles that cannot
/// be read, in the order of their numbers.
pub proof fn tiled_face_fails_as_its_first_bad_tile(
    f: Stream,
    m: Arith,
    info: InfoView,
    faceid: int,
    res: Res,
    tile: int,
)
    requires
        info.wf(),
        0 <= faceid,
        layout_of(f, info, faceid, res) is Ok,
        layout_of(f, info, faceid, res)->Ok_0.is_tiled,
        layout_of(f, info, faceid, res)->Ok_0.covers_face(),
        is_allocatable(info, res),
        0 <= tile < layout_of(f, info, faceid, res)->Ok_0.spec_ntiles(),
        tile_of(f, m, info, faceid, res, tile) is Err,
        forall|t: int|
            0 <= t < tile ==> (#[trigger] tile_of(f, m, info, faceid, res, t)) is Ok,
    ensures
        face_of(f, m, info, faceid, res) == tile_of(f, m, info, faceid, res, tile),
{
    lemma_layout(f, info, faceid, res);
    let (levelid, facepos) = info.stored_at(faceid, res)->0;
    let (fdh, pos) = entry_of(f, info, levelid, facepos)->Ok_0;
    let dir = dir_of(f, pos, res)->Ok_0;
    lemma_dir_shape(f, pos, res);
    assert forall|t: int| 0 <= t < tile implies (#[trigger] tile_in_face(
        f,
        m,
        info,
        dir,
        levelid,
        res,
        t,
    )) is Ok by {
        lemma_covering_tile_inside(t, res, dir.tile_res, info.pixel_size);
        assert(tile_of(f, m, info, faceid, res, t) is Ok);
    }
    lemma_no_error_before(f, m, info, dir, levelid, res, tile as nat);
    lemma_covering_tile_inside(tile, res, dir.tile_res, info.pixel_size);
    lemma_tile_error(f, m, info, dir, levelid, res, (tile + 1) as nat, dir.fdh.len());
}

proof fn lemma_no_error_before(
    f: Stream,
    m: Arith,
    info: InfoView,
    dir: DirView,
    levelid: int,
    res: Res,
    n: nat,
)
    requires
        forall|t: int|
            0 <= t < n ==> (#[trigger] tile_in_face(f, m, info, dir, levelid, res, t)) is Ok,
    ensures
        first_tile_error(f, m, info, dir, levelid, res, n) is None,
    decreases n,
{
    if n > 0 {
        lemma_no_error_before(f, m, info, dir, levelid, res, (n - 1) as nat);
        assert(tile_in_face(f, m, info, dir, levelid, res, n - 1) is Ok);
    }
}

/// A face that is split into tiles is refused as a whole if its image does not
/// fit in memory, though its tiles may be read; otherwise a directory that
/// cannot be read is what it fails with.
pub proof fn tiled_face_must_fit(
    f: Stream,
    m: Arith,
    info: InfoView,
    faceid: int,
    res: Res,
    levelid: usize,
    facepos: usize,
)
    requires
        info.source(faceid, res) == Ok::<FaceSource, ErrorView>(
            FaceSource::Stored { levelid, facepos },
        ),
        entry_of(f, info, levelid as int, facepos as int) is Ok,
        entry_of(f, info, levelid as int, facepos as int)->Ok_0.0.data / 0x4000_0000 == 3,
    ensures
        ({
            let r = face_of(f, m, info, faceid, res);
            let dir = dir_of(f, entry_of(f, info, levelid as int, facepos as int)->Ok_0.1, res);
            &&& res.spec_size() * info.pixel_size > isize::MAX ==> r is Err
                && r->Err_0 is Unsupported
            &&& res.spec_size() * info.pixel_size <= isize::MAX && dir is Err ==> r == Err::<
                Seq<u8>,
                ErrorView,
            >(dir->Err_0)
        }),
{
}

} // verus!
