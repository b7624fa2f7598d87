//! What the data blocks of a file hold.

use crate::decode::{constant_pixel, image_size, interleaved, zeros};
use crate::element_laws::{
    channel, elements_are_little_endian, lemma_channel_elem, lemma_channel_place,
    lemma_same_number, number_at, stored_element_is_read_back,
};
use crate::error::ErrorView;
use crate::file_info::InfoView;
use crate::format::FaceDataHeader;
use crate::image::{block_of, solid_image};
use crate::laws::exact_reads;
use crate::pixel_laws::interleaving_is_exact;
use crate::place::lemma_solid_texel;
use crate::stream::Stream;
use crate::texel::{elem, elem_bytes, elems, lemma_elems_index, Arith, PixelOp};
use crate::types::{DataType, Res};
use crate::utils::{differences_decoded, lemma_grid_end, premultiplied, running_sum};
use crate::zlib::inflated;
use vstd::prelude::*;

verus! {

/// Multiplying by alpha replaces every color channel of a pixel by its product
/// with the alpha channel, which is left to the arithmetic for every type, and
/// keeps the alpha channel and what follows it.  The colors are the channels
/// before alpha, or those behind it if alpha comes first.
pub proof fn premultiplying_scales_colors(
    m: Arith,
    d: Seq<u8>,
    npixels: int,
    dt: DataType,
    nchannels: int,
    alphachan: int,
    p: int,
    c: int,
)
    requires
        0 <= alphachan < nchannels,
        0 <= c < nchannels,
        0 <= p < npixels,
        (p + 1) * (nchannels * dt.spec_size()) <= d.len(),
    ensures
        ({
            let size = dt.spec_size();
            let out = premultiplied(m, d, npixels, dt, nchannels, alphachan);
            let at = p * (nchannels * size) + c * size;
            let value = number_at(d, at, size);
            let alpha = number_at(d, p * (nchannels * size) + alphachan * size, size);
            let product = m(
                PixelOp::Scale { dt, value: value as u32, alpha: alpha as u32 },
            ) as int;
            &&& out.len() == d.len()
            &&& number_at(out, at, size) == if (alphachan == 0 && c > 0) || c < alphachan {
                match dt {
                    DataType::UInt8 => product % 0x100,
                    DataType::UInt16 => product % 0x1_0000,
                    DataType::Half => product % 0x1_0000,
                    DataType::Float => product,
                }
            } else {
                value as int
            }
        }),
{
    let es = dt.spec_size() as int;
    let ps = nchannels * es;
    let out = premultiplied(m, d, npixels, dt, nchannels, alphachan);
    let at = p * ps + c * es;
    let at_alpha = p * ps + alphachan * es;
    elements_are_little_endian(d, at, dt);
    elements_are_little_endian(d, at_alpha, dt);
    lemma_grid_end(c, nchannels, es);
    lemma_grid_end(p, p + 1, ps);
    assert(ps > 0) by (nonlinear_arith)
        requires
            ps == nchannels * es,
            nchannels > 0,
            es > 0,
    ;
    assert(p < d.len() as int / ps) by (nonlinear_arith)
        requires
            (p + 1) * ps <= d.len(),
            ps > 0,
    ;
    let scaled = (alphachan == 0 && c > 0) || c < alphachan;
    let product = m(
        PixelOp::Scale { dt, value: elem(d, at, dt), alpha: elem(d, at_alpha, dt) },
    );
    let want = if scaled {
        elem_bytes(product, dt)
    } else {
        d.subrange(at, at + es)
    };
    assert forall|b: int| 0 <= b < es implies #[trigger] out[at + b] == want[0 + b] by {
        let k = at + b;
        vstd::arithmetic::div_mod::lemma_fundamental_div_mod_converse(k, ps, p, c * es + b);
        vstd::arithmetic::div_mod::lemma_fundamental_div_mod_converse(c * es + b, es, c, b);
    }
    lemma_same_number(out, at, want, 0, es as nat);
    if scaled {
        stored_element_is_read_back(product, dt);
    } else {
        assert forall|b: int| 0 <= b < es implies #[trigger] want[0 + b] == d[at + b] by {}
        lemma_same_number(want, 0, d, at, es as nat);
    }
}

/// Every texel of a block of one color is the pixel that the block holds.
pub proof fn constant_block_repeats_its_pixel(
    f: Stream,
    m: Arith,
    info: InfoView,
    pos: u64,
    fdh: FaceDataHeader,
    res: Res,
    levelid: int,
    u: int,
    v: int,
    c: int,
)
    requires
        exact_reads(f),
        info.wf(),
        info.pixel_size <= usize::MAX,
        !info.premultiply,
        fdh.data / 0x4000_0000 == 0,
        block_of(f, m, info, pos, fdh, res, levelid) is Ok,
        0 <= u < res.spec_u(),
        0 <= v < res.spec_v(),
        0 <= c < info.nchannels(),
    ensures
        ({
            let img = block_of(f, m, info, pos, fdh, res, levelid)->Ok_0;
            let size = info.data_type.spec_size();
            let stored = f(pos, info.pixel_size as usize);
            &&& stored is Some
            &&& img.len() == res.spec_size() * info.pixel_size
            &&& channel(info, img, res, u, v, c) == number_at(stored->0, c * size, size)
        }),
{
    reveal(block_of);
    let stored = f(pos, info.pixel_size as usize)->0;
    assert(stored.take(info.pixel_size as int) =~= stored);
    assert(constant_pixel(m, info, stored, levelid) == stored);
    crate::source::lemma_block_len(f, m, info, pos, fdh, res, levelid);
    lemma_solid_channel(info, stored, res, u, v, c);
}

/// A channel of an image of a single color.
pub proof fn lemma_solid_channel(info: InfoView, pixel: Seq<u8>, res: Res, u: int, v: int, c: int)
    requires
        info.wf(),
        pixel.len() == info.pixel_size,
        0 <= u < res.spec_u(),
        0 <= v < res.spec_v(),
        0 <= c < info.nchannels(),
    ensures
        channel(info, solid_image(pixel, res), res, u, v, c) == number_at(
            pixel,
            c * info.data_type.spec_size(),
            info.data_type.spec_size(),
        ),
{
    let es = info.data_type.spec_size() as int;
    let ps = info.pixel_size as int;
    let img = solid_image(pixel, res);
    let at = ((v * res.spec_u() + u) * info.nchannels() + c) * es;
    let start = (v * res.spec_u() + u) * ps;
    lemma_channel_place(info, res, u, v, c);
    lemma_solid_texel(pixel, res, u, v);
    assert forall|k: int| 0 <= k < es implies #[trigger] img[at + k] == pixel[c * es + k] by {
        assert(img.subrange(start, start + ps)[c * es + k] == img[at + k]);
    }
    lemma_same_number(img, at, pixel, c * es, es as nat);
    elements_are_little_endian(img, at, info.data_type);
}

/// A channel of interleaved planes.
proof fn lemma_interleaved_channel(
    info: InfoView,
    planes: Seq<u8>,
    res: Res,
    u: int,
    v: int,
    c: int,
)
    requires
        info.wf(),
        planes.len() == image_size(info, res),
        0 <= u < res.spec_u(),
        0 <= v < res.spec_v(),
        0 <= c < info.nchannels(),
    ensures
        interleaved(info, planes, res).len() == image_size(info, res),
        channel(info, interleaved(info, planes, res), res, u, v, c) == number_at(
            planes,
            ((c * res.spec_v() + v) * res.spec_u() + u) * info.data_type.spec_size(),
            info.data_type.spec_size(),
        ),
{
    let es = info.data_type.spec_size() as int;
    let nc = info.nchannels() as int;
    let ps = info.pixel_size as int;
    let uw = res.spec_u() as int;
    let vw = res.spec_v() as int;
    let img = interleaved(info, planes, res);
    crate::decode::lemma_rows_in_image(uw, vw, ps, vw, uw);
    assert(uw * nc * es == uw * ps) by (nonlinear_arith)
        requires
            ps == es * nc,
    ;
    assert(nc * vw * uw * es == uw * vw * ps) by (nonlinear_arith)
        requires
            ps == es * nc,
    ;
    interleaving_is_exact(
        zeros(image_size(info, res)),
        planes,
        uw,
        vw,
        uw * ps,
        info.data_type,
        nc,
        u,
        v,
        c,
    );
    crate::paint::lemma_put_all_len(
        zeros(image_size(info, res)),
        crate::utils::interleave_writes(planes, uw, vw, uw * ps, es, nc),
    );
    lemma_channel_place(info, res, u, v, c);
    lemma_channel_elem(info, img, res, u, v, c);
    elements_are_little_endian(planes, ((c * vw + v) * uw + u) * es, info.data_type);
}

/// Every texel of a zipped block comes from the inflated planes of the block,
/// one for every channel: channel `c` of texel (`u`, `v`) is element (`u`, `v`)
/// of plane `c`, planes being stored row by row.
pub proof fn zipped_block_holds_planes(
    f: Stream,
    m: Arith,
    info: InfoView,
    pos: u64,
    fdh: FaceDataHeader,
    res: Res,
    levelid: int,
    u: int,
    v: int,
    c: int,
)
    requires
        exact_reads(f),
        info.wf(),
        !info.premultiply,
        fdh.data / 0x4000_0000 == 1,
        block_of(f, m, info, pos, fdh, res, levelid) is Ok,
        0 <= u < res.spec_u(),
        0 <= v < res.spec_v(),
        0 <= c < info.nchannels(),
    ensures
        ({
            let img = block_of(f, m, info, pos, fdh, res, levelid)->Ok_0;
            let size = info.data_type.spec_size();
            let stored = f(pos, (fdh.data % 0x4000_0000) as usize);
            let planes = inflated(stored->0);
            &&& stored is Some
            &&& planes is Ok
            &&& planes->Ok_0.len() == res.spec_size() * info.pixel_size
            &&& img.len() == res.spec_size() * info.pixel_size
            &&& channel(info, img, res, u, v, c) == number_at(
                planes->Ok_0,
                ((c * res.spec_v() + v) * res.spec_u() + u) * size,
                size,
            )
        }),
{
    reveal(block_of);
    let stored = f(pos, (fdh.data % 0x4000_0000) as usize)->0;
    lemma_interleaved_channel(info, inflated(stored)->Ok_0, res, u, v, c);
}

/// Decoding differences makes every integer the sum of the stored difference and
/// the integer before it, modulo the range of the type.
pub proof fn differences_are_added_up(stored: Seq<u8>, dt: DataType, i: int)
    requires
        dt is UInt8 || dt is UInt16,
        0 <= i < stored.len() as int / dt.spec_size() as int,
    ensures
        ({
            let es = dt.spec_size();
            let out = differences_decoded(stored, dt);
            let before = if i == 0 {
                0
            } else {
                number_at(out, (i - 1) * es, es)
            };
            let sum = before + number_at(stored, i * es, es);
            &&& out.len() == stored.len()
            &&& number_at(out, i * es, es) == if dt is UInt8 {
                sum as int % 0x100
            } else {
                sum as int % 0x1_0000
            }
        }),
{
    let es = dt.spec_size() as int;
    lemma_sum_is_stored(stored, dt, i);
    if i > 0 {
        lemma_sum_is_stored(stored, dt, i - 1);
    }
    elements_are_little_endian(stored, i * es, dt);
    let before = running_sum(stored, dt, i as nat);
    assert(i == 0 ==> before == 0);
    assert(running_sum(stored, dt, (i + 1) as nat) == if dt is UInt8 {
        ((before + elem(stored, i * es, dt)) % 0x100) as u32
    } else {
        ((before + elem(stored, i * es, dt)) % 0x1_0000) as u32
    });
}

/// An element of decoded differences is a sum.
proof fn lemma_sum_is_stored(stored: Seq<u8>, dt: DataType, i: int)
    requires
        dt is UInt8 || dt is UInt16,
        0 <= i < stored.len() as int / dt.spec_size() as int,
    ensures
        number_at(
            differences_decoded(stored, dt),
            i * dt.spec_size(),
            dt.spec_size(),
        ) == running_sum(stored, dt, (i + 1) as nat),
        running_sum(stored, dt, (i + 1) as nat) < 0x1_0000,
        dt is UInt8 ==> running_sum(stored, dt, (i + 1) as nat) < 0x100,
{
    let es = dt.spec_size() as int;
    let n = (stored.len() as int / es) as nat;
    let f = |k: int| running_sum(stored, dt, (k + 1) as nat);
    let out = differences_decoded(stored, dt);
    let row = elems(n, dt, f);
    lemma_elems_index(n, dt, f, i);
    let bytes = elem_bytes(f(i), dt);
    assert(n * es <= stored.len()) by (nonlinear_arith)
        requires
            n == stored.len() as int / es,
            es > 0,
    ;
    lemma_grid_end(i, n as int, es);
    assert forall|b: int| 0 <= b < es implies #[trigger] out[i * es + b] == bytes[0 + b] by {
        assert(row.subrange(i * es, i * es + es)[b] == row[i * es + b]);
    }
    lemma_same_number(out, i * es, bytes, 0, es as nat);
    stored_element_is_read_back(f(i), dt);
}

/// In a difference-zipped block of integers every element of the planes is
/// stored as its difference to the element before it, modulo the range of the
/// type: the first texel of a row continues the row before it, and a plane the
/// plane before it.  Floating-point planes are stored as they are.
pub proof fn differenced_block_holds_sums(
    f: Stream,
    m: Arith,
    info: InfoView,
    pos: u64,
    fdh: FaceDataHeader,
    res: Res,
    levelid: int,
    u: int,
    v: int,
    c: int,
)
    requires
        exact_reads(f),
        info.wf(),
        !info.premultiply,
        fdh.data / 0x4000_0000 == 2,
        block_of(f, m, info, pos, fdh, res, levelid) is Ok,
        0 <= u < res.spec_u(),
        0 <= v < res.spec_v(),
        0 <= c < info.nchannels(),
    ensures
        ({
            let img = block_of(f, m, info, pos, fdh, res, levelid)->Ok_0;
            let size = info.data_type.spec_size();
            let stored = f(pos, (fdh.data % 0x4000_0000) as usize);
            let planes = inflated(stored->0);
            let uw = res.spec_u() as int;
            let vw = res.spec_v() as int;
            let difference = number_at(planes->Ok_0, ((c * vw + v) * uw + u) * size, size);
            let before = if u > 0 {
                channel(info, img, res, u - 1, v, c)
            } else if v > 0 {
                channel(info, img, res, uw - 1, v - 1, c)
            } else if c > 0 {
                channel(info, img, res, uw - 1, vw - 1, c - 1)
            } else {
                0
            };
            &&& stored is Some
            &&& planes is Ok
            &&& planes->Ok_0.len() == res.spec_size() * info.pixel_size
            &&& img.len() == res.spec_size() * info.pixel_size
            &&& channel(info, img, res, u, v, c) == match info.data_type {
                DataType::UInt8 => (before + difference) % 0x100,
                DataType::UInt16 => (before + difference) % 0x1_0000,
                DataType::Half => difference as int,
                DataType::Float => difference as int,
            }
        }),
{
    reveal(block_of);
    let dt = info.data_type;
    let es = dt.spec_size() as int;
    let nc = info.nchannels() as int;
    let uw = res.spec_u() as int;
    let vw = res.spec_v() as int;
    let stored = f(pos, (fdh.data % 0x4000_0000) as usize)->0;
    let planes = inflated(stored)->Ok_0;
    let decoded = differences_decoded(planes, dt);
    lemma_interleaved_channel(info, decoded, res, u, v, c);
    if dt is UInt8 || dt is UInt16 {
        let i = (c * vw + v) * uw + u;
        crate::utils::lemma_planar(c, v, u, nc, vw, uw);
        assert(nc * vw * uw * es == uw * vw * info.pixel_size) by (nonlinear_arith)
            requires
                info.pixel_size == es * nc,
        ;
        lemma_grid_end(i, nc * vw * uw, es);
        assert(i < planes.len() as int / es) by (nonlinear_arith)
            requires
                (i + 1) * es <= planes.len(),
                es > 0,
        ;
        differences_are_added_up(planes, dt, i);
        assert(i == 0 <==> u == 0 && v == 0 && c == 0) by (nonlinear_arith)
            requires
                i == (c * vw + v) * uw + u,
                0 <= u < uw,
                0 <= v < vw,
                0 <= c,
        ;
        if u > 0 {
            lemma_interleaved_channel(info, decoded, res, u - 1, v, c);
        } else if v > 0 {
            lemma_interleaved_channel(info, decoded, res, uw - 1, v - 1, c);
            assert((c * vw + (v - 1)) * uw + (uw - 1) == i - 1) by (nonlinear_arith)
                requires
                    i == (c * vw + v) * uw + 0,
            ;
        } else if c > 0 {
            lemma_interleaved_channel(info, decoded, res, uw - 1, vw - 1, c - 1);
            assert(((c - 1) * vw + (vw - 1)) * uw + (uw - 1) == i - 1) by (nonlinear_arith)
                requires
                    i == (c * vw + 0) * uw + 0,
            ;
        }
    }
}

/// Opened with premultiplication, a file with an alpha channel has every
/// color channel of its level-0 blocks multiplied by alpha, whatever its data
/// type: the block can be read exactly if it can be read without, the color
/// channels are the products of what is read without, and the other channels
/// are the same.  Colors are the channels before alpha, or those behind it if
/// alpha comes first.  Without an alpha channel nothing changes.
pub proof fn premultiplied_block_is_scaled(
    f: Stream,
    m: Arith,
    info: InfoView,
    pos: u64,
    fdh: FaceDataHeader,
    res: Res,
    u: int,
    v: int,
    c: int,
)
    requires
        exact_reads(f),
        info.wf(),
        info.pixel_size <= usize::MAX,
        info.premultiply,
        0 <= u < res.spec_u(),
        0 <= v < res.spec_v(),
        0 <= c < info.nchannels(),
    ensures
        ({
            let plain = InfoView { premultiply: false, ..info };
            let with = block_of(f, m, info, pos, fdh, res, 0);
            let without = block_of(f, m, plain, pos, fdh, res, 0);
            let alphachan = info.header.alphachan as int;
            let dt = info.data_type;
            let value = channel(info, without->Ok_0, res, u, v, c);
            let alpha = channel(info, without->Ok_0, res, u, v, alphachan);
            let product = m(PixelOp::Scale { dt, value, alpha }) as int;
            &&& with is Ok <==> without is Ok
            &&& with is Err ==> with == without
            &&& with is Ok && 0 <= alphachan < info.nchannels() ==> channel(
                info,
                with->Ok_0,
                res,
                u,
                v,
                c,
            ) == if (alphachan == 0 && c > 0) || c < alphachan {
                match dt {
                    DataType::UInt8 => product % 0x100,
                    DataType::UInt16 => product % 0x1_0000,
                    DataType::Half => product % 0x1_0000,
                    DataType::Float => product,
                }
            } else {
                value as int
            }
            &&& !(0 <= alphachan < info.nchannels()) ==> with == without
        }),
{
    reveal(block_of);
    let plain = InfoView { premultiply: false, ..info };
    let with = block_of(f, m, info, pos, fdh, res, 0);
    let without = block_of(f, m, plain, pos, fdh, res, 0);
    let alphachan = info.header.alphachan as int;
    let es = info.data_type.spec_size() as int;
    let nc = info.nchannels() as int;
    let ps = info.pixel_size as int;
    if with is Ok && 0 <= alphachan < nc {
        crate::source::lemma_block_len(f, m, plain, pos, fdh, res, 0);
        lemma_channel_place(info, res, u, v, c);
        lemma_channel_place(info, res, u, v, alphachan);
        assert(nc * es == ps) by (nonlinear_arith)
            requires
                ps == es * nc,
        ;
        if fdh.spec_encoding() is Constant {
            let raw = f(pos, ps as usize)->0;
            let pixel = raw.take(ps);
            assert(constant_pixel(m, plain, raw, 0) == pixel);
            assert(0 * (nc * es) == 0 && 1 * (nc * es) == ps);
            premultiplying_scales_colors(m, pixel, 1, info.data_type, nc, alphachan, 0, c);
            let scaled = constant_pixel(m, info, raw, 0);
            lemma_solid_channel(info, pixel, res, u, v, c);
            lemma_solid_channel(info, pixel, res, u, v, alphachan);
            lemma_solid_channel(info, scaled, res, u, v, c);
        } else {
            let p = v * res.spec_u() + u;
            let img = without->Ok_0;
            lemma_grid_end(p, res.spec_size() as int, ps);
            premultiplying_scales_colors(
                m,
                img,
                res.spec_size() as int,
                info.data_type,
                nc,
                alphachan,
                p,
                c,
            );
            elements_are_little_endian(img, p * ps + c * es, info.data_type);
            elements_are_little_endian(img, p * ps + alphachan * es, info.data_type);
            elements_are_little_endian(with->Ok_0, p * ps + c * es, info.data_type);
        }
    }
}

/// Which blocks can be read.  The two high bits of the header are the encoding
/// and the others the size.  A constant block must hold a pixel; a zipped one
/// must inflate to exactly as many bytes as its image has, and its size must
/// be in its header; a tiled block is no image.  The image must fit in memory,
/// and a read that fails is an I/O error.
pub proof fn readable_blocks(
    f: Stream,
    m: Arith,
    info: InfoView,
    pos: u64,
    fdh: FaceDataHeader,
    res: Res,
    levelid: int,
)
    ensures
        ({
            let r = block_of(f, m, info, pos, fdh, res, levelid);
            let encoding = fdh.data / 0x4000_0000;
            let size = fdh.data % 0x4000_0000;
            let bytes = res.spec_size() * info.pixel_size;
            let pixel = f(pos, info.pixel_size as usize);
            let zipped = f(pos, size as usize);
            &&& r is Ok <==> bytes <= isize::MAX && if encoding == 0 {
                size >= info.pixel_size && pixel is Some
            } else if encoding == 3 {
                false
            } else {
                size != 0x3fff_ffff && zipped is Some && inflated(zipped->0) is Ok && inflated(
                    zipped->0,
                )->Ok_0.len() == bytes
            }
            &&& r == Err::<Seq<u8>, ErrorView>(ErrorView::Io) <==> if encoding == 0 {
                size >= info.pixel_size && pixel is None
            } else if encoding == 3 {
                false
            } else {
                size != 0x3fff_ffff && zipped is None
            }
        }),
{
    reveal(block_of);
}

/// Decoding differences leaves floating-point data alone.
pub proof fn floats_are_not_differences(stored: Seq<u8>, dt: DataType)
    requires
        dt is Half || dt is Float,
    ensures
        differences_decoded(stored, dt) == stored,
{
}

/// Multiplying by alpha leaves alone the pixels past those asked for, and a
/// pixel that is not complete.
pub proof fn premultiplying_keeps_the_rest(
    m: Arith,
    d: Seq<u8>,
    npixels: int,
    dt: DataType,
    nchannels: int,
    alphachan: int,
    k: int,
)
    requires
        0 < nchannels,
        0 <= npixels,
        0 <= k < d.len(),
        ({
            let ps = nchannels * dt.spec_size();
            k >= npixels * ps || k >= (d.len() as int / ps) * ps
        }),
    ensures
        premultiplied(m, d, npixels, dt, nchannels, alphachan)[k] == d[k],
{
    let ps = nchannels * dt.spec_size();
    assert(ps > 0) by (nonlinear_arith)
        requires
            ps == nchannels * dt.spec_size(),
            nchannels > 0,
            dt.spec_size() > 0,
    ;
    let whole = d.len() as int / ps;
    if k >= npixels * ps {
        assert(k / ps >= npixels) by (nonlinear_arith)
            requires
                k >= npixels * ps,
                ps > 0,
        ;
    } else {
        assert(k / ps >= whole) by (nonlinear_arith)
            requires
                k >= whole * ps,
                ps > 0,
        ;
    }
}

} // verus!
