//! What reading single texels gives.

use crate::decode::image_size;
use crate::element_laws::{
    channel, elements_are_little_endian, lemma_channel_place, lemma_same_number,
};
use crate::error::ErrorView;
use crate::file_info::{FaceSource, InfoView};
use crate::image::{dir_of, entry_of, face_of, layout_of, pixel_of, texel_bytes, texel_of, tile_of};
use crate::laws::{
    exact_reads, lemma_block_texel, lemma_face_len, lemma_layout, lemma_texel_tile,
    texel_matches_face,
};
use crate::source::{lemma_block_len, lemma_dir_shape};
use crate::stream::Stream;
use crate::texel::{elem, Arith};
use crate::tile::texel_lies_in_its_tile;
use crate::types::Res;
use vstd::prelude::*;

verus! {

/// A channel of the bytes of a texel.
proof fn lemma_texel_channel(info: InfoView, img: Seq<u8>, res: Res, u: int, v: int, c: int)
    requires
        info.wf(),
        img.len() == image_size(info, res),
        0 <= u < res.spec_u(),
        0 <= v < res.spec_v(),
        0 <= c < info.nchannels(),
    ensures
        elem(
            texel_bytes(img, res, info.pixel_size, u, v),
            c * info.data_type.spec_size(),
            info.data_type,
        ) == channel(info, img, res, u, v, c),
{
    lemma_channel_place(info, res, u, v, c);
    let es = info.data_type.spec_size() as int;
    let ps = info.pixel_size as int;
    let pixel = texel_bytes(img, res, info.pixel_size, u, v);
    let at = ((v * res.spec_u() + u) * info.nchannels() + c) * es;
    let start = (v * res.spec_u() + u) * ps;
    assert forall|k: int| 0 <= k < es implies #[trigger] pixel[c * es + k] == img[at + k] by {
        assert(img.subrange(start, start + ps)[c * es + k] == img[at + k]);
    }
    lemma_same_number(pixel, c * es, img, at, es as nat);
    elements_are_little_endian(pixel, c * es, info.data_type);
    elements_are_little_endian(img, at, info.data_type);
}

/// The values read at a texel are the channels of that texel in the image of
/// the face at full resolution, from the first channel asked for on, and as
/// many as were asked for or are left.
pub proof fn pixel_is_in_the_face(
    f: Stream,
    m: Arith,
    info: InfoView,
    faceid: int,
    u: int,
    v: int,
    first_chan: nat,
    nchannels: nat,
    i: int,
)
    requires
        exact_reads(f),
        info.wf(),
        info.pixel_size <= usize::MAX,
        0 <= faceid < info.faces.len(),
        face_of(f, m, info, faceid, info.faces[faceid].res) is Ok,
        0 <= u < info.faces[faceid].res.spec_u(),
        0 <= v < info.faces[faceid].res.spec_v(),
        0 <= i < nchannels,
        first_chan + i < info.nchannels(),
    ensures
        ({
            let res = info.faces[faceid].res;
            let img = face_of(f, m, info, faceid, res)->Ok_0;
            let values = pixel_of(f, m, info, faceid, u, v, first_chan, nchannels);
            &&& values is Ok
            &&& values->Ok_0.len() == if first_chan + nchannels <= info.nchannels() {
                nchannels as int
            } else {
                info.nchannels() - first_chan
            }
            &&& values->Ok_0[i] == channel(info, img, res, u, v, first_chan + i)
        }),
{
    let res = info.faces[faceid].res;
    let img = face_of(f, m, info, faceid, res)->Ok_0;
    texel_matches_face(f, m, info, faceid, res, u, v);
    lemma_face_len(f, m, info, faceid, res);
    lemma_texel_channel(info, img, res, u, v, first_chan + i);
}

/// Asking for some channels gives that part of what asking for all of them
/// gives, and fails where that does.  Asking for none that exists gives
/// nothing, of whatever face.
pub proof fn channels_are_a_part(
    f: Stream,
    m: Arith,
    info: InfoView,
    faceid: int,
    u: int,
    v: int,
    first_chan: nat,
    nchannels: nat,
)
    ensures
        ({
            let all = pixel_of(f, m, info, faceid, u, v, 0, info.nchannels());
            let some = pixel_of(f, m, info, faceid, u, v, first_chan, nchannels);
            let end = if first_chan + nchannels <= info.nchannels() {
                first_chan + nchannels
            } else {
                info.nchannels()
            };
            if first_chan >= info.nchannels() || nchannels == 0 {
                some == Ok::<Seq<u32>, ErrorView>(Seq::empty())
            } else {
                &&& all is Err ==> some == all
                &&& all is Ok ==> all->Ok_0.len() == info.nchannels() && some == Ok::<
                    Seq<u32>,
                    ErrorView,
                >(all->Ok_0.subrange(first_chan as int, end as int))
            }
        }),
{
    let all = pixel_of(f, m, info, faceid, u, v, 0, info.nchannels());
    let some = pixel_of(f, m, info, faceid, u, v, first_chan, nchannels);
    let end = if first_chan + nchannels <= info.nchannels() {
        first_chan + nchannels
    } else {
        info.nchannels()
    };
    if !(first_chan >= info.nchannels() || nchannels == 0) && all is Ok {
        assert(some->Ok_0 =~= all->Ok_0.subrange(first_chan as int, end as int));
    }
}

/// A texel outside the face, or of a face that the file does not have, is
/// refused.
pub proof fn texels_outside_are_refused(
    f: Stream,
    m: Arith,
    info: InfoView,
    faceid: int,
    u: int,
    v: int,
    first_chan: nat,
    nchannels: nat,
)
    requires
        first_chan < info.nchannels(),
        nchannels > 0,
        0 <= faceid,
    ensures
        ({
            let values = pixel_of(f, m, info, faceid, u, v, first_chan, nchannels);
            &&& faceid >= info.faces.len() ==> values is Err && values->Err_0 is FaceOutOfRange
            &&& faceid < info.faces.len() && (u >= info.faces[faceid].res.spec_u() || v
                >= info.faces[faceid].res.spec_v()) ==> values is Err
                && values->Err_0 is Unsupported
        }),
{
}

/// A texel of a face that is split into tiles needs its own tile alone: it can
/// be read where that tile can be, and is the texel of the tile.
pub proof fn texel_needs_its_tile_alone(
    f: Stream,
    m: Arith,
    info: InfoView,
    faceid: int,
    res: Res,
    u: int,
    v: int,
    k: int,
)
    requires
        exact_reads(f),
        info.wf(),
        info.pixel_size <= usize::MAX,
        0 <= faceid,
        layout_of(f, info, faceid, res) is Ok,
        layout_of(f, info, faceid, res)->Ok_0.is_tiled,
        layout_of(f, info, faceid, res)->Ok_0.covers_face(),
        0 <= u < res.spec_u(),
        0 <= v < res.spec_v(),
        0 <= k < info.pixel_size,
        ({
            let layout = layout_of(f, info, faceid, res)->Ok_0;
            tile_of(f, m, info, faceid, res, layout.spec_tile_index(u, v)) is Ok
        }),
    ensures
        ({
            let layout = layout_of(f, info, faceid, res)->Ok_0;
            let t = layout.spec_tile_index(u, v);
            let tile = tile_of(f, m, info, faceid, res, t)->Ok_0;
            let (ou, ov) = layout.spec_tile_origin(t);
            let texel = texel_of(f, m, info, faceid, res, u, v);
            &&& texel is Ok
            &&& texel->Ok_0.len() == info.pixel_size
            &&& texel->Ok_0[k] == tile[((v - ov) * layout.tile_res.spec_u() + (u - ou))
                * info.pixel_size + k]
        }),
{
    let layout = layout_of(f, info, faceid, res)->Ok_0;
    lemma_layout(f, info, faceid, res);
    let (levelid, facepos) = info.stored_at(faceid, res)->0;
    let (fdh, pos) = entry_of(f, info, levelid, facepos)->Ok_0;
    let dir = dir_of(f, pos, res)->Ok_0;
    lemma_dir_shape(f, pos, res);
    let tu = dir.tile_res.spec_u() as int;
    let tv = dir.tile_res.spec_v() as int;
    lemma_texel_tile(res, dir.tile_res, u, v);
    texel_lies_in_its_tile(layout, u, v);
    let t = (v / tv) * res.spec_ntilesu(dir.tile_res) + u / tu;
    assert(t == layout.spec_tile_index(u, v));
    let (ou, ov) = layout.spec_tile_origin(t);
    lemma_block_len(f, m, info, dir.offsets[t], dir.fdh[t], dir.tile_res, levelid);
    lemma_block_texel(
        f,
        m,
        info,
        dir.offsets[t],
        dir.fdh[t],
        dir.tile_res,
        levelid,
        u % tu,
        v % tv,
    );
    let ntu = layout.ntilesu as int;
    crate::utils::lemma_grid(v / tv, u / tu, layout.ntilesv as int, ntu);
    vstd::arithmetic::div_mod::lemma_fundamental_div_mod(u, tu);
    vstd::arithmetic::div_mod::lemma_fundamental_div_mod(v, tv);
    assert(ou == tu * (u / tu) && ov == tv * (v / tv)) by {
        assert((u / tu) * tu == tu * (u / tu) && (v / tv) * tv == tv * (v / tv))
            by (nonlinear_arith);
    }
    let n = (v % tv) * tu + u % tu;
    crate::utils::lemma_grid(v % tv, u % tu, tv, tu);
    crate::utils::lemma_grid_end(n, tv * tu, info.pixel_size as int);
    assert(tv * tu == tu * tv) by (nonlinear_arith);
}

/// A texel of a face that is stored in a constant block is the pixel that the
/// block holds, however large the face is.  It can be read exactly if the block
/// is long enough for a pixel and can be read.
pub proof fn texel_of_a_constant_block(
    f: Stream,
    m: Arith,
    info: InfoView,
    faceid: int,
    res: Res,
    u: int,
    v: int,
    levelid: usize,
    facepos: usize,
)
    requires
        exact_reads(f),
        !info.premultiply,
        info.source(faceid, res) == Ok::<FaceSource, ErrorView>(
            FaceSource::Stored { levelid, facepos },
        ),
        entry_of(f, info, levelid as int, facepos as int) is Ok,
        entry_of(f, info, levelid as int, facepos as int)->Ok_0.0.data / 0x4000_0000 == 0,
        info.pixel_size <= usize::MAX,
        0 <= u < res.spec_u(),
        0 <= v < res.spec_v(),
    ensures
        ({
            let (fdh, pos) = entry_of(f, info, levelid as int, facepos as int)->Ok_0;
            let texel = texel_of(f, m, info, faceid, res, u, v);
            let stored = f(pos, info.pixel_size as usize);
            &&& texel is Ok <==> fdh.data % 0x4000_0000 >= info.pixel_size && stored is Some
            &&& texel is Ok ==> texel->Ok_0 == stored->0
        }),
{
    let entry = entry_of(f, info, levelid as int, facepos as int)->Ok_0;
    if let Some(raw) = f(entry.1, info.pixel_size as usize) {
        assert(raw.take(info.pixel_size as int) =~= raw);
    }
}

/// A texel of a constant face is the face's pixel in the constant data.
pub proof fn texel_of_a_constant_face(
    f: Stream,
    m: Arith,
    info: InfoView,
    faceid: int,
    res: Res,
    u: int,
    v: int,
    k: int,
)
    requires
        info.wf(),
        0 <= faceid < info.faces.len(),
        info.faces[faceid].flags % 2 == 1,
        0 <= u < res.spec_u(),
        0 <= v < res.spec_v(),
        0 <= k < info.pixel_size,
    ensures
        ({
            let texel = texel_of(f, m, info, faceid, res, u, v);
            &&& texel is Ok
            &&& texel->Ok_0.len() == info.pixel_size
            &&& texel->Ok_0[k] == info.const_data[faceid * info.pixel_size + k]
        }),
{
    crate::opening_laws::constant_flag_is_the_lowest_bit(info.faces[faceid]);
    crate::utils::lemma_grid_end(
        faceid,
        info.faces.len() as int,
        info.pixel_size as int,
    );
}

/// A texel of a face in a zipped block, or of a computed resolution, can be
/// read exactly if the face can be, and fails as it does.
pub proof fn texel_is_readable_iff(
    f: Stream,
    m: Arith,
    info: InfoView,
    faceid: int,
    res: Res,
    u: int,
    v: int,
)
    requires
        0 <= u < res.spec_u(),
        0 <= v < res.spec_v(),
        info.source(faceid, res) is Ok,
        !(info.source(faceid, res)->Ok_0 is Constant),
        ({
            let source = info.source(faceid, res)->Ok_0;
            let entry = entry_of(f, info, source->levelid as int, source->facepos as int);
            source is Stored && entry is Ok ==> entry->Ok_0.0.data / 0x4000_0000 == 1
                || entry->Ok_0.0.data / 0x4000_0000 == 2
        }),
    ensures
        ({
            let texel = texel_of(f, m, info, faceid, res, u, v);
            let face = face_of(f, m, info, faceid, res);
            &&& texel is Ok <==> face is Ok
            &&& face is Err ==> texel == face
        }),
{
}

} // verus!
