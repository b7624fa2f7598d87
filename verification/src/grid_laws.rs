//! Tiles, rows and buffers.

use crate::decode::image_size;
use crate::element_laws::{
    channel, elements_are_little_endian, lemma_channel_place, lemma_same_number, number_at,
};
use crate::error::ErrorView;
use crate::file_info::InfoView;
use crate::image::{face_of, layout_of, texel_bytes, tile_of};
use crate::laws::{exact_reads, lemma_face_len, lemma_layout, tiles_reassemble};
use crate::paint::{lemma_put_rows_at, put_rows, rows_of};
use crate::reader::image_written;
use crate::reduce::{reduced_elem, Kernel};
use crate::stream::Stream;
use crate::texel::{Arith, PixelOp};
use crate::tile::{texel_lies_in_its_tile, TileLayout};
use crate::types::{DataType, Res};
use crate::utils::{lemma_grid, lemma_scaled, repeated, rows_fit};
use vstd::prelude::*;

verus! {

/// Equal texels have equal channels.
proof fn lemma_same_channel(
    info: InfoView,
    a: Seq<u8>,
    ares: Res,
    au: int,
    av: int,
    b: Seq<u8>,
    bres: Res,
    bu: int,
    bv: int,
    c: int,
)
    requires
        info.wf(),
        a.len() == image_size(info, ares),
        b.len() == image_size(info, bres),
        0 <= au < ares.spec_u(),
        0 <= av < ares.spec_v(),
        0 <= bu < bres.spec_u(),
        0 <= bv < bres.spec_v(),
        0 <= c < info.nchannels(),
        texel_bytes(a, ares, info.pixel_size, au, av) == texel_bytes(
            b,
            bres,
            info.pixel_size,
            bu,
            bv,
        ),
    ensures
        channel(info, a, ares, au, av, c) == channel(info, b, bres, bu, bv, c),
{
    let es = info.data_type.spec_size() as int;
    let nc = info.nchannels() as int;
    let ps = info.pixel_size as int;
    lemma_channel_place(info, ares, au, av, c);
    lemma_channel_place(info, bres, bu, bv, c);
    let i = ((av * ares.spec_u() + au) * nc + c) * es;
    let j = ((bv * bres.spec_u() + bu) * nc + c) * es;
    let ta = texel_bytes(a, ares, info.pixel_size, au, av);
    let tb = texel_bytes(b, bres, info.pixel_size, bu, bv);
    assert forall|k: int| 0 <= k < es implies #[trigger] a[i + k] == b[j + k] by {
        assert(ta[c * es + k] == a[i + k]);
        assert(tb[c * es + k] == b[j + k]);
    }
    lemma_same_number(a, i, b, j, es as nat);
}

/// A face that is split into tiles is made up of them, row by row: texel
/// (`u`, `v`) of the face is texel (`u` mod width, `v` mod height) of the tile
/// that lies `v` / height rows and `u` / width columns into the grid.
pub proof fn tiled_face_is_its_tiles(
    f: Stream,
    m: Arith,
    info: InfoView,
    faceid: int,
    res: Res,
    u: int,
    v: int,
    c: int,
)
    requires
        exact_reads(f),
        info.wf(),
        info.pixel_size <= usize::MAX,
        0 <= faceid,
        layout_of(f, info, faceid, res) is Ok,
        layout_of(f, info, faceid, res)->Ok_0.is_tiled,
        layout_of(f, info, faceid, res)->Ok_0.covers_face(),
        face_of(f, m, info, faceid, res) is Ok,
        0 <= u < res.spec_u(),
        0 <= v < res.spec_v(),
        0 <= c < info.nchannels(),
    ensures
        ({
            let layout = layout_of(f, info, faceid, res)->Ok_0;
            let img = face_of(f, m, info, faceid, res)->Ok_0;
            let tu = layout.tile_res.spec_u() as int;
            let tv = layout.tile_res.spec_v() as int;
            let t = (v / tv) * layout.ntilesu + u / tu;
            let tile = tile_of(f, m, info, faceid, res, t);
            &&& 0 <= t < layout.spec_ntiles()
            &&& tile is Ok
            &&& img.len() == res.spec_size() * info.pixel_size
            &&& tile->Ok_0.len() == layout.tile_res.spec_size() * info.pixel_size
            &&& channel(info, img, res, u, v, c) == channel(
                info,
                tile->Ok_0,
                layout.tile_res,
                u % tu,
                v % tv,
                c,
            )
        }),
{
    let layout = layout_of(f, info, faceid, res)->Ok_0;
    let img = face_of(f, m, info, faceid, res)->Ok_0;
    lemma_layout(f, info, faceid, res);
    lemma_face_len(f, m, info, faceid, res);
    tiles_reassemble(f, m, info, faceid, res, u, v);
    tiles_are_numbered_row_by_row(layout, u, v);
    let tu = layout.tile_res.spec_u() as int;
    let tv = layout.tile_res.spec_v() as int;
    let t = (v / tv) * layout.ntilesu + u / tu;
    let tile = tile_of(f, m, info, faceid, res, t)->Ok_0;
    lemma_same_channel(info, img, res, u, v, tile, layout.tile_res, u % tu, v % tv, c);
}

/// Tiles are numbered row by row: a texel lies in the tile that its coordinates
/// divided by those of a tile give, at the remainders of that division.
pub proof fn tiles_are_numbered_row_by_row(layout: TileLayout, u: int, v: int)
    requires
        layout.covers_face(),
        0 <= u < layout.res.spec_u(),
        0 <= v < layout.res.spec_v(),
    ensures
        ({
            let tu = layout.tile_res.spec_u() as int;
            let tv = layout.tile_res.spec_v() as int;
            let t = (v / tv) * layout.ntilesu + u / tu;
            &&& layout.spec_tile_index(u, v) == t
            &&& 0 <= t < layout.ntilesu * layout.ntilesv
            &&& layout.spec_ntiles() == layout.ntilesu * layout.ntilesv
            &&& layout.spec_tile_origin(t).0 == u - u % tu
            &&& layout.spec_tile_origin(t).1 == v - v % tv
            &&& 0 <= u % tu < tu
            &&& 0 <= v % tv < tv
        }),
{
    let tu = layout.tile_res.spec_u() as int;
    let tv = layout.tile_res.spec_v() as int;
    let ntu = layout.ntilesu as int;
    crate::types::lemma_dims(layout.tile_res);
    texel_lies_in_its_tile(layout, u, v);
    vstd::arithmetic::div_mod::lemma_fundamental_div_mod(u, tu);
    vstd::arithmetic::div_mod::lemma_fundamental_div_mod(v, tv);
    vstd::arithmetic::div_mod::lemma_mod_bound(u, tu);
    vstd::arithmetic::div_mod::lemma_mod_bound(v, tv);
    assert(0 <= u / tu < ntu) by (nonlinear_arith)
        requires
            0 <= u < ntu * tu,
            0 < tu,
    ;
    assert(0 <= v / tv < layout.ntilesv) by (nonlinear_arith)
        requires
            0 <= v < layout.ntilesv * tv,
            0 < tv,
    ;
    lemma_grid(v / tv, u / tu, layout.ntilesv as int, ntu);
    assert((u / tu) * tu == tu * (u / tu) && (v / tv) * tv == tv * (v / tv)) by (nonlinear_arith);
}

/// What reading an image into a buffer does.  Rows are `stride` bytes apart, or
/// packed if it is zero.  A stride shorter than a row, or a buffer in which the
/// rows do not fit, is refused and the buffer left alone.  Otherwise the rows
/// of the image are in the buffer, or the error is that of the image; bytes
/// that belong to no row are left alone either way.
pub proof fn image_is_in_the_buffer(
    ps: nat,
    res: Res,
    img: Result<Seq<u8>, ErrorView>,
    before: Seq<u8>,
    stride: nat,
    returned: Result<(), ErrorView>,
    after: Seq<u8>,
    v: int,
    x: int,
)
    requires
        image_written(ps, res, img, before, stride, returned, after),
        img is Ok ==> img->Ok_0.len() == res.spec_size() * ps,
        0 <= v,
        0 <= x,
        ({
            let row = if stride == 0 {
                res.spec_u() * ps
            } else {
                stride
            };
            x < row && v * row + x < before.len()
        }),
    ensures
        ({
            let rowlen = res.spec_u() * ps;
            let row = if stride == 0 {
                rowlen
            } else {
                stride
            };
            let at = v * row + x;
            let fits = row >= rowlen && before.len() >= (res.spec_v() - 1) * row + rowlen;
            &&& after.len() == before.len()
            &&& !fits ==> returned is Err && returned->Err_0 is Unsupported && after == before
            &&& fits && img is Err ==> returned == Err::<(), ErrorView>(img->Err_0)
            &&& fits && img is Ok ==> returned is Ok
            &&& fits && img is Ok && v < res.spec_v() && x < rowlen ==> after[at]
                == img->Ok_0[v * rowlen + x]
            &&& v >= res.spec_v() || x >= rowlen ==> after[at] == before[at]
        }),
{
    let rowlen = (res.spec_u() * ps) as int;
    let row = if stride == 0 {
        rowlen
    } else {
        stride as int
    };
    assert(ps * res.spec_u() == rowlen) by (nonlinear_arith)
        requires
            rowlen == res.spec_u() * ps,
    ;
    assert(row * (res.spec_v() - 1) == (res.spec_v() - 1) * row) by (nonlinear_arith);
    lemma_scaled(0, v, row);
    vstd::arithmetic::div_mod::lemma_fundamental_div_mod_converse(v * row + x, row, v, x);
}

/// Copying rows puts byte `x` of row `v` of the source at byte `x` of row `v`
/// of the destination, and leaves the bytes between the rows alone.
pub proof fn copied_rows_are_in_place(
    dst: Seq<u8>,
    dstride: int,
    src: Seq<u8>,
    sstride: int,
    rowlen: int,
    n: nat,
    v: int,
    x: int,
)
    requires
        0 < rowlen <= dstride,
        0 <= sstride,
        rows_fit(n as int, sstride, rowlen, src.len()),
        0 <= v,
        0 <= x < dstride,
        v * dstride + x < dst.len(),
    ensures
        put_rows(dst, dstride, rows_of(src, sstride, rowlen, n)).len() == dst.len(),
        put_rows(dst, dstride, rows_of(src, sstride, rowlen, n))[v * dstride + x] == if v < n && x
            < rowlen {
            src[v * sstride + x]
        } else {
            dst[v * dstride + x]
        },
{
    let rows = rows_of(src, sstride, rowlen, n);
    lemma_scaled(0, v, dstride);
    vstd::arithmetic::div_mod::lemma_fundamental_div_mod_converse(v * dstride + x, dstride, v, x);
    assert forall|r: int| 0 <= r < rows.len() implies #[trigger] rows[r].len() == rowlen by {
        crate::utils::lemma_rows_fit(r, n as int, sstride, rowlen, src.len());
    }
    lemma_put_rows_at(dst, dstride, rows, rowlen, v * dstride + x);
    if v < n {
        crate::utils::lemma_rows_fit(v, n as int, sstride, rowlen, src.len());
    }
}

/// A row of copies of a pixel has the pixel at every place.
pub proof fn repeated_pixel_is_everywhere(pixel: Seq<u8>, n: nat, u: int, k: int)
    requires
        0 <= u < n,
        0 <= k < pixel.len(),
    ensures
        repeated(pixel, n).len() == n * pixel.len(),
        0 <= u * pixel.len() + k < n * pixel.len(),
        repeated(pixel, n)[u * pixel.len() + k] == pixel[k],
{
    lemma_grid(u, k, n as int, pixel.len() as int);
}

/// What the kernels blend, element by element: a 2x2 block, two neighbors in u
/// or in v, or three texels of a 2x2 block and the mirror image of its first.
/// Integers are averaged and rounded down; floating point is left to the
/// arithmetic, which is told the type.
pub proof fn kernels_blend_neighbors(
    kernel: Kernel,
    m: Arith,
    src: Seq<u8>,
    sstride: int,
    uw: int,
    vw: int,
    dt: DataType,
    nchan: int,
    v: int,
    u: int,
    c: int,
)
    ensures
        ({
            let es = dt.spec_size();
            let at = |row: int, col: int|
                number_at(src, row * sstride + (col * nchan + c) * es, es) as u32;
            let r = reduced_elem(kernel, m, src, sstride, uw, dt, nchan, v, u, c);
            let (p, q) = if kernel is U {
                (at(v, 2 * u), at(v, 2 * u + 1))
            } else {
                (at(2 * v, u), at(2 * v + 1, u))
            };
            let a = at(2 * v, 2 * u);
            let b = at(2 * v, 2 * u + 1);
            let d = at(2 * v + 1, 2 * u);
            let e = if kernel is Both {
                at(2 * v + 1, 2 * u + 1)
            } else {
                at(uw - 1 - 2 * u, uw - 1 - 2 * v)
            };
            &&& kernel is U || kernel is V ==> r == match dt {
                DataType::UInt8 => (p + q) / 2,
                DataType::UInt16 => (p + q) / 2,
                DataType::Half => m(PixelOp::Halve { dt: DataType::Half, a: p, b: q }) as int,
                DataType::Float => m(PixelOp::Halve { dt: DataType::Float, a: p, b: q }) as int,
            }
            &&& kernel is Both || kernel is Tri ==> r == match dt {
                DataType::UInt8 => (a + b + d + e) / 4,
                DataType::UInt16 => (a + b + d + e) / 4,
                DataType::Half => m(
                    PixelOp::Quarter { dt: DataType::Half, a, b, c: d, d: e },
                ) as int,
                DataType::Float => m(
                    PixelOp::Quarter { dt: DataType::Float, a, b, c: d, d: e },
                ) as int,
            }
            &&& kernel.cols(uw) == if kernel is V {
                uw
            } else {
                uw / 2
            }
            &&& kernel.rows(uw, vw) == if kernel is U {
                vw
            } else if kernel is Tri {
                uw / 2
            } else {
                vw / 2
            }
        }),
{
    let es = dt.spec_size();
    let at = |row: int, col: int| row * sstride + (col * nchan + c) * es;
    match kernel {
        Kernel::U => {
            lemma_element(src, at(v, 2 * u), dt);
            lemma_element(src, at(v, 2 * u + 1), dt);
        },
        Kernel::V => {
            lemma_element(src, at(2 * v, u), dt);
            lemma_element(src, at(2 * v + 1, u), dt);
        },
        Kernel::Both => {
            lemma_element(src, at(2 * v, 2 * u), dt);
            lemma_element(src, at(2 * v, 2 * u + 1), dt);
            lemma_element(src, at(2 * v + 1, 2 * u), dt);
            lemma_element(src, at(2 * v + 1, 2 * u + 1), dt);
        },
        Kernel::Tri => {
            lemma_element(src, at(2 * v, 2 * u), dt);
            lemma_element(src, at(2 * v, 2 * u + 1), dt);
            lemma_element(src, at(2 * v + 1, 2 * u), dt);
            lemma_element(src, at(uw - 1 - 2 * u, uw - 1 - 2 * v), dt);
        },
    }
}

/// An element as a number, with its bound.
proof fn lemma_element(b: Seq<u8>, off: int, dt: DataType)
    ensures
        crate::texel::elem(b, off, dt) == number_at(b, off, dt.spec_size()),
        number_at(b, off, dt.spec_size()) <= u32::MAX,
        dt is UInt8 || dt is UInt16 ==> number_at(b, off, dt.spec_size()) <= 0xffff,
{
    elements_are_little_endian(b, off, dt);
    crate::texel::lemma_elem_bound(b, off, dt);
}

} // verus!
