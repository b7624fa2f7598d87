//! What a computed resolution of a face is.

use crate::decode::{image_size, lemma_rows_in_image, zeros};
use crate::element_laws::{
    channel, lemma_channel_bound, lemma_channel_elem, lemma_channel_place, lemma_same_number,
    stored_element_is_read_back,
};
use crate::error::ErrorView;
use crate::file_info::{FaceSource, InfoView, ReduceKind};
use crate::image::face_of;
use crate::laws::exact_reads;
use crate::paint::{lemma_put_all_len, lemma_put_rows_at, row_writes};
use crate::pixel_laws::reduction_is_exact;
use crate::reduce::{reduced_elem, reduced_row, reduced_rows, Kernel};
use crate::stream::Stream;
use crate::texel::{Arith, PixelOp};
use crate::types::{dim, DataType, Res};
use crate::utils::lemma_scaled;
use vstd::arithmetic::power2::pow2;
use vstd::prelude::*;

verus! {

/// A dimension is twice that of the next smaller logarithm, unless the bits
/// that count are used up.
proof fn lemma_dim_doubles(log2: i8)
    requires
        0 <= log2 < 127,
        log2 as int % 32 != 31,
    ensures
        dim((log2 + 1) as i8) == 2 * dim(log2),
{
    let a = (log2 as int % 32) as nat;
    assert((log2 + 1) % 32 == a + 1);
    vstd::arithmetic::power2::lemma_pow2_unfold(a + 1);
}

/// A texel of an image that was reduced, as the reduction computes it.
proof fn lemma_reduced_channel(
    m: Arith,
    info: InfoView,
    src: Seq<u8>,
    src_res: Res,
    res: Res,
    kind: ReduceKind,
    u: int,
    v: int,
    c: int,
)
    requires
        info.wf(),
        kind.halves(src_res, res),
        0 <= u < res.spec_u(),
        0 <= v < res.spec_v(),
        0 <= c < info.nchannels(),
        !(kind is V) ==> src_res.spec_u() == 2 * res.spec_u(),
        kind is V ==> src_res.spec_v() == 2 * res.spec_v(),
        kind is Tri ==> v < res.spec_u() <= res.spec_v(),
    ensures
        ({
            let img = crate::decode::reduced_image(m, info, src, src_res, res, kind);
            let value = reduced_elem(
                kind.spec_kernel(),
                m,
                src,
                (src_res.spec_u() * info.pixel_size) as int,
                src_res.spec_u() as int,
                info.data_type,
                info.nchannels() as int,
                v,
                u,
                c,
            );
            channel(info, img, res, u, v, c) == match info.data_type {
                DataType::UInt8 => value as int % 0x100,
                DataType::UInt16 => value as int % 0x1_0000,
                DataType::Half => value as int % 0x1_0000,
                DataType::Float => value as int,
            }
        }),
{
    let ps = info.pixel_size as int;
    let es = info.data_type.spec_size() as int;
    let nc = info.nchannels() as int;
    let du = res.spec_u() as int;
    let dv = res.spec_v() as int;
    let su = src_res.spec_u() as int;
    let sv = src_res.spec_v() as int;
    let kernel = kind.spec_kernel();
    let img = crate::decode::reduced_image(m, info, src, src_res, res, kind);
    assert(kernel.cols(su) == du);
    let rows = kernel.rows(su, sv);
    assert(0 <= v < rows <= dv);
    lemma_rows_in_image(du, dv, ps, rows, du);
    assert(du * nc * es == du * ps) by (nonlinear_arith)
        requires
            ps == es * nc,
    ;
    reduction_is_exact(
        kernel,
        m,
        zeros(image_size(info, res)),
        src,
        su * ps,
        su,
        sv,
        du * ps,
        info.data_type,
        nc,
        u,
        v,
        c,
    );
    lemma_channel_place(info, res, u, v, c);
    lemma_put_all_len(
        zeros(image_size(info, res)),
        row_writes(
            reduced_rows(kernel, m, src, su * ps, su, sv, info.data_type, nc),
            du * ps,
        ),
    );
    let off = ((v * du + u) * nc + c) * es;
    let value = reduced_elem(kernel, m, src, su * ps, su, info.data_type, nc, v, u, c);
    stored_element_is_read_back(value, info.data_type);
    let bytes = crate::texel::elem_bytes(value, info.data_type);
    assert(img.subrange(off, off + es) == bytes);
    assert forall|k: int| 0 <= k < es implies #[trigger] img[off + k] == bytes[0 + k] by {
        assert(img.subrange(off, off + es)[k] == img[off + k]);
    }
    lemma_same_number(img, off, bytes, 0, es as nat);
    lemma_channel_elem(info, img, res, u, v, c);
    crate::element_laws::elements_are_little_endian(img, off, info.data_type);
}

/// What a kernel reads is a channel of a texel of the source.
proof fn lemma_source_channel(info: InfoView, src: Seq<u8>, res: Res, u: int, v: int, c: int)
    requires
        info.pixel_size == info.data_type.spec_size() * info.nchannels(),
    ensures
        crate::reduce::texel(
            src,
            (res.spec_u() * info.pixel_size) as int,
            info.data_type,
            info.nchannels() as int,
            v,
            u,
            c,
        ) == channel(info, src, res, u, v, c),
{
    let es = info.data_type.spec_size() as int;
    let nc = info.nchannels() as int;
    let ps = info.pixel_size as int;
    let uw = res.spec_u() as int;
    assert(((v * uw + u) * nc + c) * es == v * (uw * ps) + (u * nc + c) * es)
        by (nonlinear_arith)
        requires
            ps == es * nc,
    ;
    lemma_channel_elem(info, src, res, u, v, c);
}

/// The mean of two texels, as the reduction stores it.
proof fn lemma_halved(
    m: Arith,
    info: InfoView,
    src: Seq<u8>,
    larger: Res,
    res: Res,
    kind: ReduceKind,
    u: int,
    v: int,
    c: int,
)
    requires
        info.wf(),
        kind is U || kind is V,
        kind.halves(larger, res),
        0 <= u < res.spec_u(),
        0 <= v < res.spec_v(),
        0 <= c < info.nchannels(),
        kind is U ==> larger.spec_u() == 2 * res.spec_u(),
        kind is V ==> larger.spec_v() == 2 * res.spec_v(),
    ensures
        ({
            let img = crate::decode::reduced_image(m, info, src, larger, res, kind);
            let (a, b) = if kind is U {
                (
                    channel(info, src, larger, 2 * u, v, c),
                    channel(info, src, larger, 2 * u + 1, v, c),
                )
            } else {
                (
                    channel(info, src, larger, u, 2 * v, c),
                    channel(info, src, larger, u, 2 * v + 1, c),
                )
            };
            channel(info, img, res, u, v, c) == match info.data_type {
                DataType::UInt8 => (a + b) / 2,
                DataType::UInt16 => (a + b) / 2,
                DataType::Half => m(PixelOp::Halve { dt: DataType::Half, a, b }) as int % 0x1_0000,
                DataType::Float => m(PixelOp::Halve { dt: DataType::Float, a, b }) as int,
            }
        }),
{
    if kind is U {
        lemma_source_channel(info, src, larger, 2 * u, v, c);
        lemma_source_channel(info, src, larger, 2 * u + 1, v, c);
        lemma_channel_bound(info, src, larger, 2 * u, v, c);
        lemma_channel_bound(info, src, larger, 2 * u + 1, v, c);
    } else {
        lemma_source_channel(info, src, larger, u, 2 * v, c);
        lemma_source_channel(info, src, larger, u, 2 * v + 1, c);
        lemma_channel_bound(info, src, larger, u, 2 * v, c);
        lemma_channel_bound(info, src, larger, u, 2 * v + 1, c);
    }
    lemma_reduced_channel(m, info, src, larger, res, kind, u, v, c);
    vstd::arithmetic::power2::lemma2_to64();
    assert(pow2(8 * 1) == 0x100 && pow2(8 * 2) == 0x1_0000 && pow2(8 * 4) == 0x1_0000_0000);
}

/// The mean of four elements of integer type is one of that type.
proof fn lemma_quarter_fits(m: Arith, dt: DataType, a: u32, b: u32, d: u32, e: u32)
    requires
        a < pow2(8 * dt.spec_size()),
        b < pow2(8 * dt.spec_size()),
        d < pow2(8 * dt.spec_size()),
        e < pow2(8 * dt.spec_size()),
    ensures
        ({
            let value = crate::texel::quarter(m, dt, a, b, d, e);
            match dt {
                DataType::UInt8 => value == (a + b + d + e) / 4 && value < 0x100,
                DataType::UInt16 => value == (a + b + d + e) / 4 && value < 0x1_0000,
                DataType::Half => value == m(
                    PixelOp::Quarter { dt: DataType::Half, a, b, c: d, d: e },
                ),
                DataType::Float => value == m(
                    PixelOp::Quarter { dt: DataType::Float, a, b, c: d, d: e },
                ),
            }
        }),
{
    vstd::arithmetic::power2::lemma2_to64();
    assert(pow2(8 * 1) == 0x100 && pow2(8 * 2) == 0x1_0000 && pow2(8 * 4) == 0x1_0000_0000);
}

/// The mean of four texels, as the reduction stores it.
proof fn lemma_quartered(
    m: Arith,
    info: InfoView,
    src: Seq<u8>,
    larger: Res,
    res: Res,
    u: int,
    v: int,
    c: int,
)
    requires
        info.wf(),
        ReduceKind::Tri.halves(larger, res),
        0 <= u < res.spec_u(),
        0 <= v < res.spec_u() <= res.spec_v(),
        0 <= c < info.nchannels(),
        larger.spec_u() == 2 * res.spec_u(),
    ensures
        ({
            let img = crate::decode::reduced_image(m, info, src, larger, res, ReduceKind::Tri);
            let w = larger.spec_u() as int;
            let a = channel(info, src, larger, 2 * u, 2 * v, c);
            let b = channel(info, src, larger, 2 * u + 1, 2 * v, c);
            let d = channel(info, src, larger, 2 * u, 2 * v + 1, c);
            let e = channel(info, src, larger, w - 1 - 2 * v, w - 1 - 2 * u, c);
            channel(info, img, res, u, v, c) == match info.data_type {
                DataType::UInt8 => (a + b + d + e) / 4,
                DataType::UInt16 => (a + b + d + e) / 4,
                DataType::Half => m(
                    PixelOp::Quarter { dt: DataType::Half, a, b, c: d, d: e },
                ) as int % 0x1_0000,
                DataType::Float => m(
                    PixelOp::Quarter { dt: DataType::Float, a, b, c: d, d: e },
                ) as int,
            }
        }),
{
    let w = larger.spec_u() as int;
    lemma_source_channel(info, src, larger, 2 * u, 2 * v, c);
    lemma_source_channel(info, src, larger, 2 * u + 1, 2 * v, c);
    lemma_source_channel(info, src, larger, 2 * u, 2 * v + 1, c);
    lemma_source_channel(info, src, larger, w - 1 - 2 * v, w - 1 - 2 * u, c);
    let a = channel(info, src, larger, 2 * u, 2 * v, c);
    let b = channel(info, src, larger, 2 * u + 1, 2 * v, c);
    let d = channel(info, src, larger, 2 * u, 2 * v + 1, c);
    let e = channel(info, src, larger, w - 1 - 2 * v, w - 1 - 2 * u, c);
    let value = reduced_elem(
        Kernel::Tri,
        m,
        src,
        (larger.spec_u() * info.pixel_size) as int,
        w,
        info.data_type,
        info.nchannels() as int,
        v,
        u,
        c,
    );
    assert(value == crate::texel::quarter(m, info.data_type, a, b, d, e));
    lemma_channel_bound(info, src, larger, 2 * u, 2 * v, c);
    lemma_channel_bound(info, src, larger, 2 * u + 1, 2 * v, c);
    lemma_channel_bound(info, src, larger, 2 * u, 2 * v + 1, c);
    lemma_channel_bound(info, src, larger, w - 1 - 2 * v, w - 1 - 2 * u, c);
    lemma_quarter_fits(m, info.data_type, a, b, d, e);
    lemma_reduced_channel(m, info, src, larger, res, ReduceKind::Tri, u, v, c);
}

/// Every texel of a computed resolution of a quad is the mean of two texels of
/// the next larger one, channel by channel: two neighbors in u where u has
/// further to go to the resolution of the face, or as far as v and an odd
/// logarithm; otherwise two neighbors in v.  Integers round down, and floating
/// point is left to the arithmetic, which is told the type.
pub proof fn computed_quad_is_the_mean(
    f: Stream,
    m: Arith,
    info: InfoView,
    faceid: int,
    res: Res,
    u: int,
    v: int,
    c: int,
)
    requires
        exact_reads(f),
        info.wf(),
        info.mesh_type is Quad,
        0 <= faceid,
        info.source(faceid, res) == Ok::<FaceSource, ErrorView>(FaceSource::Reduced),
        face_of(f, m, info, faceid, res) is Ok,
        0 <= u < res.spec_u(),
        0 <= v < res.spec_v(),
        0 <= c < info.nchannels(),
    ensures
        ({
            let full = info.faces[faceid].res;
            let img = face_of(f, m, info, faceid, res)->Ok_0;
            let far_u = full.ulog2 - res.ulog2;
            let far_v = full.vlog2 - res.vlog2;
            let along_u = far_u > far_v || (far_u == far_v && res.ulog2 as int % 2 == 1);
            let larger = if along_u {
                Res { ulog2: (res.ulog2 + 1) as i8, vlog2: res.vlog2 }
            } else {
                Res { ulog2: res.ulog2, vlog2: (res.vlog2 + 1) as i8 }
            };
            let src = face_of(f, m, info, faceid, larger);
            let (a, b) = if along_u {
                (
                    channel(info, src->Ok_0, larger, 2 * u, v, c),
                    channel(info, src->Ok_0, larger, 2 * u + 1, v, c),
                )
            } else {
                (
                    channel(info, src->Ok_0, larger, u, 2 * v, c),
                    channel(info, src->Ok_0, larger, u, 2 * v + 1, c),
                )
            };
            &&& src is Ok
            &&& (if along_u {
                res.ulog2 as int % 32 != 31
            } else {
                res.vlog2 as int % 32 != 31
            }) ==> channel(info, img, res, u, v, c) == match info.data_type {
                DataType::UInt8 => (a + b) / 2,
                DataType::UInt16 => (a + b) / 2,
                DataType::Half => m(PixelOp::Halve { dt: DataType::Half, a, b }) as int % 0x1_0000,
                DataType::Float => m(PixelOp::Halve { dt: DataType::Float, a, b }) as int,
            }
        }),
{
    let (larger, kind) = info.reduced_from(faceid, res);
    let src = face_of(f, m, info, faceid, larger)->Ok_0;
    let along_u = kind is U;
    if if along_u {
        res.ulog2 as int % 32 != 31
    } else {
        res.vlog2 as int % 32 != 31
    } {
        if along_u {
            lemma_dim_doubles(res.ulog2);
        } else {
            lemma_dim_doubles(res.vlog2);
        }
        lemma_halved(m, info, src, larger, res, kind, u, v, c);
    }
}

/// Every texel of a computed resolution of a triangle is the mean of four
/// texels of the next larger one, channel by channel: three of the 2x2 block
/// that it covers, and the mirror image of the block's first texel, which
/// completes the triangle.  Rows past the square are black.
pub proof fn computed_triangle_is_the_mean(
    f: Stream,
    m: Arith,
    info: InfoView,
    faceid: int,
    res: Res,
    u: int,
    v: int,
    c: int,
)
    requires
        exact_reads(f),
        info.wf(),
        info.mesh_type is Triangle,
        0 <= faceid,
        info.source(faceid, res) == Ok::<FaceSource, ErrorView>(FaceSource::Reduced),
        face_of(f, m, info, faceid, res) is Ok,
        res.ulog2 as int % 32 != 31,
        0 <= u < res.spec_u(),
        0 <= v < res.spec_v(),
        0 <= c < info.nchannels(),
    ensures
        ({
            let img = face_of(f, m, info, faceid, res)->Ok_0;
            let larger = Res { ulog2: (res.ulog2 + 1) as i8, vlog2: (res.vlog2 + 1) as i8 };
            let src = face_of(f, m, info, faceid, larger);
            let w = larger.spec_u() as int;
            let a = channel(info, src->Ok_0, larger, 2 * u, 2 * v, c);
            let b = channel(info, src->Ok_0, larger, 2 * u + 1, 2 * v, c);
            let d = channel(info, src->Ok_0, larger, 2 * u, 2 * v + 1, c);
            let e = channel(info, src->Ok_0, larger, w - 1 - 2 * v, w - 1 - 2 * u, c);
            &&& src is Ok
            &&& channel(info, img, res, u, v, c) == if v >= res.spec_u() {
                0
            } else {
                match info.data_type {
                    DataType::UInt8 => (a + b + d + e) / 4,
                    DataType::UInt16 => (a + b + d + e) / 4,
                    DataType::Half => m(
                        PixelOp::Quarter { dt: DataType::Half, a, b, c: d, d: e },
                    ) as int % 0x1_0000,
                    DataType::Float => m(
                        PixelOp::Quarter { dt: DataType::Float, a, b, c: d, d: e },
                    ) as int,
                }
            }
        }),
{
    let (larger, kind) = info.reduced_from(faceid, res);
    let src = face_of(f, m, info, faceid, larger)->Ok_0;
    let img = face_of(f, m, info, faceid, res)->Ok_0;
    let w = larger.spec_u() as int;
    lemma_dim_doubles(res.ulog2);
    if res.vlog2 as int % 32 != 31 {
        lemma_dim_doubles(res.vlog2);
    } else {
        assert((res.vlog2 + 1) % 32 == 0);
        vstd::arithmetic::power2::lemma2_to64();
        assert(larger.spec_v() == 1);
        vstd::arithmetic::power2::lemma_pow2_pos((res.ulog2 as int % 32) as nat);
        assert(false);
    }
    if v < res.spec_u() {
        lemma_quartered(m, info, src, larger, res, u, v, c);
    } else {
        lemma_black_row(m, info, src, larger, res, u, v, c);
    }
}

/// A row that no reduction writes to.
proof fn lemma_black_row(
    m: Arith,
    info: InfoView,
    src: Seq<u8>,
    src_res: Res,
    res: Res,
    u: int,
    v: int,
    c: int,
)
    requires
        info.wf(),
        src_res.spec_u() == 2 * res.spec_u(),
        0 <= u < res.spec_u() <= v < res.spec_v(),
        0 <= c < info.nchannels(),
    ensures
        channel(
            info,
            crate::decode::reduced_image(m, info, src, src_res, res, ReduceKind::Tri),
            res,
            u,
            v,
            c,
        ) == 0,
{
    let ps = info.pixel_size as int;
    let es = info.data_type.spec_size() as int;
    let nc = info.nchannels() as int;
    let du = res.spec_u() as int;
    let su = src_res.spec_u() as int;
    let sv = src_res.spec_v() as int;
    let kernel = ReduceKind::Tri.spec_kernel();
    let rows = reduced_rows(kernel, m, src, su * ps, su, sv, info.data_type, nc);
    let d = zeros(image_size(info, res));
    let img = crate::decode::reduced_image(m, info, src, src_res, res, ReduceKind::Tri);
    let off = ((v * du + u) * nc + c) * es;
    let rowlen = du * ps;
    lemma_channel_place(info, res, u, v, c);
    lemma_scaled(1, du, ps);
    assert(du * nc * es == du * ps) by (nonlinear_arith)
        requires
            ps == es * nc,
    ;
    assert(rows.len() == du);
    assert forall|r: int| 0 <= r < rows.len() implies #[trigger] rows[r].len() == rowlen by {
        assert(rows[r] == reduced_row(kernel, m, src, su * ps, su, info.data_type, nc, r));
    }
    let black = zeros(es as nat);
    assert forall|k: int| 0 <= k < es implies #[trigger] img[off + k] == black[0 + k] by {
        let x = (u * nc + c) * es + k;
        crate::utils::lemma_grid(u, c, du, nc);
        crate::utils::lemma_grid_end(u * nc + c, du * nc, es);
        vstd::arithmetic::div_mod::lemma_fundamental_div_mod_converse(off + k, rowlen, v, x);
        lemma_put_rows_at(d, rowlen, rows, rowlen, off + k);
    }
    lemma_same_number(img, off, black, 0, es as nat);
    reveal_with_fuel(crate::element_laws::number_at, 5);
}

} // verus!
