//! Pixel utility functions.
//!
//! All functions operate on raw little-endian byte buffers and are
//! dispatched on [`DataType`].

use crate::paint::{
    lemma_put_all_len, lemma_put_all_step, lemma_put_extend, lemma_put_nothing,
    lemma_put_rows_step, put, put_all, put_rows, put_slice, row_writes, rows_of,
};
pub use crate::ranking::gen_rfaceids;
pub use crate::reduce::{reduce, reduce_tri, reduce_u, reduce_v, reduce_with, Kernel};
use crate::texel::{
    arith, elem, elem_bytes, elems, get_elem, is_arith, lemma_elem_bound, lemma_elems_index,
    put_elem, Arith, PixelOp,
};
use crate::types::DataType;
use vstd::prelude::*;

verus! {

/// `i < n` and `j < m` give a position in a grid of `n` rows of `m` cells.
pub proof fn lemma_grid(i: int, j: int, n: int, m: int)
    requires
        0 <= i < n,
        0 <= j < m,
    ensures
        0 <= i * m + j < n * m,
        (i * m + j) / m == i,
        (i * m + j) % m == j,
        0 <= i * m,
        i * m + m <= n * m,
{
    assert(i * m + m <= n * m) by (nonlinear_arith)
        requires
            0 <= i < n,
            0 < m,
    ;
    assert(0 <= i * m) by (nonlinear_arith)
        requires
            0 <= i,
            0 < m,
    ;
    vstd::arithmetic::div_mod::lemma_fundamental_div_mod_converse(i * m + j, m, i, j);
}

/// Cell `i` of `n` cells of `m` bytes lies between two multiples of `m`.
pub proof fn lemma_grid_end(i: int, n: int, m: int)
    requires
        0 <= i < n,
        0 <= m,
    ensures
        0 <= i * m <= (i + 1) * m <= n * m,
        (i + 1) * m == i * m + m,
        m * n == n * m,
{
    assert(0 <= i * m <= (i + 1) * m <= n * m && (i + 1) * m == i * m + m && m * n == n * m)
        by (nonlinear_arith)
        requires
            0 <= i < n,
            0 <= m,
    ;
}

/// A multiple grows with its factor.
pub proof fn lemma_scaled(a: int, b: int, m: int)
    requires
        a <= b,
        0 <= m,
    ensures
        a * m <= b * m,
{
    assert(a * m <= b * m) by (nonlinear_arith)
        requires
            a <= b,
            0 <= m,
    ;
}

/// The last of `n` rows, one every `stride` bytes, ends inside a buffer of
/// `len` bytes.
pub open spec fn rows_fit(n: int, stride: int, rowlen: int, len: nat) -> bool {
    n > 0 ==> (n - 1) * stride + rowlen <= len
}

pub proof fn lemma_rows_fit(v: int, n: int, stride: int, rowlen: int, len: nat)
    requires
        rows_fit(n, stride, rowlen, len),
        0 <= v < n,
        0 <= stride,
    ensures
        0 <= v * stride,
        v * stride + rowlen <= len,
{
    lemma_scaled(v, n - 1, stride);
    lemma_scaled(0, v, stride);
}

/// Copy `vres` rows of `rowlen` bytes from `src` (rows every `sstride`
/// bytes) to `dst` (rows every `dstride` bytes).
pub fn copy_rows(
    src: &[u8],
    sstride: usize,
    dst: &mut [u8],
    dstride: usize,
    vres: usize,
    rowlen: usize,
)
    requires
        rows_fit(vres as int, sstride as int, rowlen as int, src@.len()),
        rows_fit(vres as int, dstride as int, rowlen as int, old(dst)@.len()),
    ensures
        final(dst)@ == put_rows(
            old(dst)@,
            dstride as int,
            rows_of(src@, sstride as int, rowlen as int, vres as nat),
        ),
{
    let ghost d0 = dst@;
    let ghost rows = rows_of(src@, sstride as int, rowlen as int, vres as nat);
    assert(src@.len() == src.len());
    assert(dst@.len() == dst.len());
    let mut v: usize = 0;
    assert(row_writes(rows.take(0), dstride as int) =~= Seq::empty());
    while v < vres
        invariant
            v <= vres,
            rows == rows_of(src@, sstride as int, rowlen as int, vres as nat),
            rows_fit(vres as int, sstride as int, rowlen as int, src@.len()),
            rows_fit(vres as int, dstride as int, rowlen as int, d0.len()),
            src@.len() <= usize::MAX,
            d0.len() <= usize::MAX,
            dst@.len() == d0.len(),
            dst@ == put_rows(d0, dstride as int, rows.take(v as int)),
        decreases vres - v,
    {
        proof {
            lemma_rows_fit(v as int, vres as int, sstride as int, rowlen as int, src@.len());
            lemma_rows_fit(v as int, vres as int, dstride as int, rowlen as int, d0.len());
            lemma_put_rows_step(d0, dstride as int, rows, v as int);
        }
        put_slice(dst, v * dstride, src, v * sstride, rowlen);
        v = v + 1;
    }
    assert(rows.take(vres as int) =~= rows);
}

/// `n` copies of a pixel, one after the other.
pub open spec fn repeated(pixel: Seq<u8>, n: nat) -> Seq<u8> {
    Seq::new(n * pixel.len(), |x: int| pixel[x % pixel.len() as int])
}

/// Fill a `ures * vres` region of `dst` with a single pixel value.
///
/// The first row is filled even if `vres` is zero.
pub fn fill(
    src_pixel: &[u8],
    dst: &mut [u8],
    dstride: usize,
    ures: usize,
    vres: usize,
    pixelsize: usize,
)
    requires
        pixelsize > 0,
        ures > 0 ==> src_pixel@.len() == pixelsize,
        ures * pixelsize <= old(dst)@.len(),
        rows_fit(vres as int, dstride as int, ures * pixelsize, old(dst)@.len()),
        vres > 1 ==> dstride >= ures * pixelsize,
    ensures
        final(dst)@ == put_rows(
            old(dst)@,
            dstride as int,
            Seq::new(
                if vres == 0 {
                    1
                } else {
                    vres as nat
                },
                |v: int| repeated(src_pixel@, ures as nat),
            ),
        ),
{
    let ghost d0 = dst@;
    let ghost row = repeated(src_pixel@, ures as nat);
    let ghost n = if vres == 0 {
        1
    } else {
        vres as nat
    };
    let ghost rows = Seq::new(n, |v: int| row);
    assert(dst@.len() == dst.len());
    let rowlen: usize = ures * pixelsize;
    let mut u: usize = 0;
    proof {
        lemma_put_nothing(d0, 0, row);
    }
    while u < ures
        invariant
            u <= ures,
            rowlen == ures * pixelsize,
            rowlen <= d0.len(),
            pixelsize > 0,
            ures > 0 ==> src_pixel@.len() == pixelsize,
            row == repeated(src_pixel@, ures as nat),
            d0.len() <= usize::MAX,
            dst@.len() == d0.len(),
            dst@ == put(d0, 0, row.take(u * pixelsize)),
        decreases ures - u,
    {
        proof {
            lemma_grid(u as int, 0, ures as int, pixelsize as int);
            let part = row.subrange(u * pixelsize, u * pixelsize + pixelsize);
            assert forall|x: int| 0 <= x < pixelsize implies part[x] == src_pixel@[x] by {
                lemma_grid(u as int, x, ures as int, pixelsize as int);
            }
            assert(part =~= src_pixel@.subrange(0, pixelsize as int));
            lemma_put_extend(d0, 0, row, u * pixelsize, u * pixelsize + pixelsize);
            assert((u + 1) * pixelsize == u * pixelsize + pixelsize) by (nonlinear_arith);
        }
        put_slice(dst, u * pixelsize, src_pixel, 0, pixelsize);
        u = u + 1;
    }
    assert(row.len() == rowlen) by {
        if ures == 0 {
            assert(0 * src_pixel@.len() == 0 && 0 * pixelsize == 0);
        }
    }
    assert(row.take(rowlen as int) =~= row);
    proof {
        lemma_put_rows_step(d0, dstride as int, rows, 0);
        assert(row_writes(rows.take(0), dstride as int) =~= Seq::empty());
        assert(0 * dstride == 0);
    }
    // fill remaining rows
    let mut v: usize = 1;
    while v < vres
        invariant
            1 <= v <= n,
            n == if vres == 0 {
                1
            } else {
                vres as nat
            },
            rows == Seq::new(n, |v: int| row),
            row == repeated(src_pixel@, ures as nat),
            row.len() == rowlen,
            rowlen <= d0.len(),
            vres > 1 ==> dstride >= rowlen,
            rows_fit(vres as int, dstride as int, rowlen as int, d0.len()),
            d0.len() <= usize::MAX,
            dst@.len() == d0.len(),
            dst@.take(rowlen as int) == row,
            dst@ == put_rows(d0, dstride as int, rows.take(v as int)),
        decreases vres - v,
    {
        proof {
            lemma_rows_fit(v as int, vres as int, dstride as int, rowlen as int, d0.len());
            lemma_scaled(1, v as int, dstride as int);
            lemma_put_rows_step(d0, dstride as int, rows, v as int);
        }
        copy_within(dst, v * dstride, rowlen);
        v = v + 1;
    }
    assert(rows.take(n as int) =~= rows);
}

/// Copy the first `len` bytes of `dst` to `off`, behind them.
fn copy_within(dst: &mut [u8], off: usize, len: usize)
    requires
        len <= off,
        off + len <= old(dst)@.len(),
    ensures
        final(dst)@ == put(old(dst)@, off as int, old(dst)@.take(len as int)),
        final(dst)@.take(len as int) == old(dst)@.take(len as int),
{
    let ghost d0 = dst@;
    let ghost s = dst@.take(len as int);
    let mut i: usize = 0;
    proof {
        lemma_put_nothing(d0, off as int, s);
    }
    while i < len
        invariant
            i <= len,
            len <= off,
            off + len <= d0.len(),
            s == d0.take(len as int),
            dst@ == put(d0, off as int, s.take(i as int)),
        decreases len - i,
    {
        assert(dst@.len() == dst.len());
        let ghost before = dst@;
        dst[off + i] = dst[i];
        proof {
            lemma_put_extend(d0, off as int, s, i as int, i + 1);
            assert(dst@ =~= put(before, off + i, s.subrange(i as int, i + 1)));
        }
        i = i + 1;
    }
    assert(s.take(len as int) =~= s);
    assert(dst@.take(len as int) =~= d0.take(len as int));
}

/// Where element number `i` of planar data goes in interleaved pixels.
pub open spec fn interleaved_offset(
    i: int,
    uw: int,
    vw: int,
    dstride: int,
    es: int,
    nchan: int,
) -> int {
    (i / uw % vw) * dstride + ((i % uw) * nchan + i / uw / vw) * es
}

/// The elements of `nchan` planes of `uw * vw` elements, in the order in
/// which they are stored, each with the offset it goes to.
pub open spec fn interleave_writes(
    src: Seq<u8>,
    uw: int,
    vw: int,
    dstride: int,
    es: int,
    nchan: int,
) -> Seq<(int, Seq<u8>)> {
    Seq::new(
        (nchan * vw * uw) as nat,
        |i: int|
            (
                interleaved_offset(i, uw, vw, dstride, es, nchan),
                src.subrange(i * es, i * es + es),
            ),
    )
}

/// Position of the element at (`u`, `v`) of plane `c`.
pub proof fn lemma_planar(c: int, v: int, u: int, nchan: int, vw: int, uw: int)
    requires
        0 <= c < nchan,
        0 <= v < vw,
        0 <= u < uw,
    ensures
        ({
            let i = (c * vw + v) * uw + u;
            &&& 0 <= i < nchan * vw * uw
            &&& i % uw == u
            &&& i / uw % vw == v
            &&& i / uw / vw == c
        }),
{
    lemma_grid(c, v, nchan, vw);
    lemma_grid(c * vw + v, u, nchan * vw, uw);
}

/// Convert channel-planar data (as stored in the file) to
/// pixel-interleaved data.
///
/// `src` holds `nchan` planes of `uw * vw` elements each; `dst` receives
/// interleaved pixels, one row every `dstride` bytes.
#[verifier::loop_isolation(false)]
pub fn interleave(
    src: &[u8],
    uw: usize,
    vw: usize,
    dst: &mut [u8],
    dstride: usize,
    dt: DataType,
    nchan: usize,
)
    requires
        nchan * vw * uw * dt.spec_size() <= src@.len(),
        nchan > 0 ==> rows_fit(
            vw as int,
            dstride as int,
            uw * nchan * dt.spec_size(),
            old(dst)@.len(),
        ),
    ensures
        final(dst)@ == put_all(
            old(dst)@,
            interleave_writes(
                src@,
                uw as int,
                vw as int,
                dstride as int,
                dt.spec_size() as int,
                nchan as int,
            ),
        ),
{
    let ghost d0 = dst@;
    let es: usize = dt.size();
    let ghost w = interleave_writes(
        src@,
        uw as int,
        vw as int,
        dstride as int,
        es as int,
        nchan as int,
    );
    assert(src@.len() == src.len());
    assert(dst@.len() == dst.len());
    if uw == 0 || vw == 0 {
        assert(nchan * vw * uw == 0) by (nonlinear_arith)
            requires
                uw == 0 || vw == 0,
        ;
        assert(w =~= Seq::empty());
        return ;
    }
    let mut c: usize = 0;
    let mut soff: usize = 0;
    assert(w.take(0) =~= Seq::empty());
    assert((0 * vw + 0) * uw + 0 == 0) by (nonlinear_arith);
    while c < nchan
        invariant
            c <= nchan,
            dst@.len() == d0.len(),
            soff == (c * vw) * uw * es,
            dst@ == put_all(d0, w.take((c * vw) * uw)),
        decreases nchan - c,
    {
        let mut v: usize = 0;
        while v < vw
            invariant
                v <= vw,
                dst@.len() == d0.len(),
                soff == (c * vw + v) * uw * es,
                dst@ == put_all(d0, w.take((c * vw + v) * uw)),
            decreases vw - v,
        {
            proof {
                lemma_rows_fit(v as int, vw as int, dstride as int, uw * nchan * es, d0.len());
                lemma_scaled(0, uw * nchan, es as int);
            }
            let base: usize = v * dstride;
            let mut u: usize = 0;
            while u < uw
                invariant
                    u <= uw,
                    dst@.len() == d0.len(),
                    soff == ((c * vw + v) * uw + u) * es,
                    dst@ == put_all(d0, w.take((c * vw + v) * uw + u)),
                decreases uw - u,
            {
                let ghost i = (c * vw + v) * uw + u;
                proof {
                    lemma_planar(c as int, v as int, u as int, nchan as int, vw as int, uw as int);
                    lemma_grid(i, 0, nchan * vw * uw, es as int);
                    lemma_grid(u as int, c as int, uw as int, nchan as int);
                    lemma_grid(u * nchan + c, 0, uw * nchan, es as int);
                    lemma_put_all_step(d0, w, i);
                    lemma_put_all_len(d0, w.take(i + 1));
                    assert((i + 1) * es == i * es + es) by (nonlinear_arith);
                }
                put_slice(dst, base + (u * nchan + c) * es, src, soff, es);
                soff = soff + es;
                u = u + 1;
            }
            assert((c * vw + v) * uw + uw == (c * vw + (v + 1)) * uw) by (nonlinear_arith);
            v = v + 1;
        }
        assert(c * vw + vw == (c + 1) * vw) by (nonlinear_arith);
        c = c + 1;
    }
    assert(w.take(nchan * vw * uw) =~= w);
}

/// Sum of the first `n` elements of difference-encoded data, modulo the
/// range of the element type.
pub open spec fn running_sum(s: Seq<u8>, dt: DataType, n: nat) -> u32
    decreases n,
{
    if n == 0 {
        0
    } else {
        let limit = if dt is UInt8 {
            0x100
        } else {
            0x1_0000
        };
        let before = running_sum(s, dt, (n - 1) as nat);
        ((before + elem(s, (n - 1) * dt.spec_size(), dt)) % limit) as u32
    }
}

/// Decoded form of difference-encoded data: every element is the sum of the
/// stored elements up to it.  Bytes behind the last whole element, and data
/// of other than integer type, stay as they are.
pub open spec fn differences_decoded(s: Seq<u8>, dt: DataType) -> Seq<u8> {
    match dt {
        DataType::UInt8 | DataType::UInt16 => put(
            s,
            0,
            elems(
                s.len() / dt.spec_size(),
                dt,
                |i: int| running_sum(s, dt, (i + 1) as nat),
            ),
        ),
        DataType::Half | DataType::Float => s,
    }
}

/// Decode difference-encoded data in place (used by the `diffzipped`
/// encoding).  Only applies to `uint8` and `uint16` data.
pub fn decode_difference(data: &mut [u8], dt: DataType)
    ensures
        final(data)@ == differences_decoded(old(data)@, dt),
{
    let limit: u32 = match dt {
        DataType::UInt8 => 0x100,
        DataType::UInt16 => 0x1_0000,
        DataType::Half | DataType::Float => {
            return ;
        },
    };
    let es: usize = dt.size();
    let n: usize = data.len() / es;
    let ghost s = data@;
    let ghost f = |i: int| running_sum(s, dt, (i + 1) as nat);
    let ghost row = elems(n as nat, dt, f);
    let mut prev: u32 = 0;
    let mut i: usize = 0;
    proof {
        lemma_put_nothing(s, 0, row);
        assert(n * es <= s.len()) by (nonlinear_arith)
            requires
                n == s.len() as int / es as int,
                es > 0,
        ;
    }
    while i < n
        invariant
            i <= n,
            n * es <= s.len(),
            s.len() <= usize::MAX,
            es == dt.spec_size(),
            es == 1 || es == 2,
            dt is UInt8 || dt is UInt16,
            limit == if dt is UInt8 {
                0x100u32
            } else {
                0x1_0000u32
            },
            prev == running_sum(s, dt, i as nat),
            prev < limit,
            f == |i: int| running_sum(s, dt, (i + 1) as nat),
            row == elems(n as nat, dt, f),
            data@.len() == s.len(),
            data@ == put(s, 0, row.take(i * es)),
        decreases n - i,
    {
        proof {
            lemma_elems_index(n as nat, dt, f, i as int);
            lemma_grid(i as int, 0, n as int, es as int);
            lemma_elem_bound(s, i * es, dt);
            lemma_put_extend(s, 0, row, i * es, i * es + es);
            assert((i + 1) * es == i * es + es) by (nonlinear_arith);
            assert(elem(data@, i * es, dt) == elem(s, i * es, dt));
        }
        let v: u32 = (prev + get_elem(data, i * es, dt)) % limit;
        assert(v == f(i as int));
        put_elem(data, i * es, v, dt);
        prev = v;
        i = i + 1;
    }
    assert(row.take(n * es) =~= row);
}

/// True if premultiplication scales channel `c`: when alpha is the first
/// channel the remaining ones, otherwise the channels before it.
pub open spec fn is_scaled(c: int, alphachan: int) -> bool {
    if alphachan == 0 {
        c > 0
    } else {
        c < alphachan
    }
}

/// `d` with the color channels of its first `npixels` whole pixels multiplied
/// by alpha.
pub open spec fn premultiplied(
    m: Arith,
    d: Seq<u8>,
    npixels: int,
    dt: DataType,
    nchannels: int,
    alphachan: int,
) -> Seq<u8> {
    let es = dt.spec_size() as int;
    let ps = nchannels * es;
    Seq::new(
        d.len(),
        |k: int|
            {
                let p = k / ps;
                let c = k % ps / es;
                if p < npixels && p < d.len() as int / ps && is_scaled(c, alphachan) {
                    elem_bytes(
                        m(
                            PixelOp::Scale {
                                dt,
                                value: elem(d, p * ps + c * es, dt),
                                alpha: elem(d, p * ps + alphachan * es, dt),
                            },
                        ),
                        dt,
                    )[k % ps % es]
                } else {
                    d[k]
                }
            },
    )
}

/// A byte of a pixel that starts at `base`, after premultiplication.
pub open spec fn scaled_byte(
    m: Arith,
    d: Seq<u8>,
    base: int,
    dt: DataType,
    alphachan: int,
    x: int,
) -> u8 {
    let es = dt.spec_size() as int;
    let c = x / es;
    if is_scaled(c, alphachan) {
        elem_bytes(
            m(
                PixelOp::Scale {
                    dt,
                    value: elem(d, base + c * es, dt),
                    alpha: elem(d, base + alphachan * es, dt),
                },
            ),
            dt,
        )[x % es]
    } else {
        d[base + x]
    }
}

/// Multiply the color channels of the pixel at `base` by alpha.
fn scale_pixel<M: Fn(PixelOp) -> u32>(
    data: &mut [u8],
    base: usize,
    dt: DataType,
    nchannels: usize,
    alphachan: usize,
    math: &M,
)
    requires
        is_arith(*math),
        alphachan < nchannels,
        base + nchannels * dt.spec_size() <= old(data)@.len(),
    ensures
        final(data)@.len() == old(data)@.len(),
        forall|x: int|
            0 <= x < nchannels * dt.spec_size() ==> #[trigger] final(data)@[base + x]
                == scaled_byte(arith(*math), old(data)@, base as int, dt, alphachan as int, x),
        forall|k: int|
            0 <= k < base || base + nchannels * dt.spec_size() <= k < old(data)@.len()
                ==> #[trigger] final(data)@[k] == old(data)@[k],
{
    let ghost d = data@;
    let ghost m = arith(*math);
    let ghost want = |x: int| scaled_byte(m, d, base as int, dt, alphachan as int, x);
    let es: usize = dt.size();
    assert(data@.len() == data.len());
    proof {
        lemma_grid_end(alphachan as int, nchannels as int, es as int);
    }
    let alpha: u32 = get_elem(data, base + alphachan * es, dt);
    let mut c: usize = 0;
    while c < nchannels
        invariant
            c <= nchannels,
            es == dt.spec_size(),
            1 <= es <= 4,
            alphachan < nchannels,
            base + nchannels * es <= d.len(),
            d.len() <= usize::MAX,
            alpha == elem(d, base + alphachan * es, dt),
            is_arith(*math),
            m == arith(*math),
            want == |x: int| scaled_byte(m, d, base as int, dt, alphachan as int, x),
            data@.len() == d.len(),
            forall|x: int| 0 <= x < c * es ==> #[trigger] data@[base + x] == want(x),
            forall|k: int|
                0 <= k < base || base + c * es <= k < d.len() ==> #[trigger] data@[k] == d[k],
        decreases nchannels - c,
    {
        proof {
            lemma_grid_end(c as int, nchannels as int, es as int);
        }
        let off: usize = base + c * es;
        // when alpha is the first channel, multiply the remaining channels;
        // otherwise multiply the channels preceding the alpha channel
        if (alphachan == 0 && c > 0) || c < alphachan {
            let value: u32 = get_elem(data, off, dt);
            assert(value == elem(d, off as int, dt));
            let scaled: u32 = math(PixelOp::Scale { dt, value, alpha });
            put_elem(data, off, scaled, dt);
        }
        proof {
            assert forall|x: int| 0 <= x < (c + 1) * es implies #[trigger] data@[base + x] == want(
                x,
            ) by {
                if x >= c * es {
                    vstd::arithmetic::div_mod::lemma_fundamental_div_mod_converse(
                        x,
                        es as int,
                        c as int,
                        x - c * es,
                    );
                }
            }
        }
        c = c + 1;
    }
}

/// Multiply color channels by the alpha channel, in place.
pub fn multalpha<M: Fn(PixelOp) -> u32>(
    data: &mut [u8],
    npixels: usize,
    dt: DataType,
    nchannels: usize,
    alphachan: usize,
    math: &M,
)
    requires
        is_arith(*math),
        0 < nchannels,
        nchannels * dt.spec_size() <= usize::MAX,
        npixels > 0 && old(data)@.len() >= nchannels * dt.spec_size() ==> alphachan < nchannels,
    ensures
        final(data)@ == premultiplied(
            arith(*math),
            old(data)@,
            npixels as int,
            dt,
            nchannels as int,
            alphachan as int,
        ),
{
    let ghost d = data@;
    let ghost m = arith(*math);
    let es: usize = dt.size();
    assert(0 < nchannels * es) by (nonlinear_arith)
        requires
            0 < nchannels,
            0 < es,
    ;
    let ps: usize = nchannels * es;
    let whole: usize = data.len() / ps;
    let n: usize = if npixels < whole {
        npixels
    } else {
        whole
    };
    let ghost want = premultiplied(
        m,
        d,
        npixels as int,
        dt,
        nchannels as int,
        alphachan as int,
    );
    let mut p: usize = 0;
    assert(whole * ps <= d.len()) by (nonlinear_arith)
        requires
            whole == d.len() as int / ps as int,
            ps > 0,
    ;
    assert(whole > 0 ==> d.len() >= ps) by (nonlinear_arith)
        requires
            whole * ps <= d.len(),
            ps > 0,
    ;
    while p < n
        invariant
            p <= n,
            n <= npixels,
            n <= whole,
            whole == d.len() as int / ps as int,
            whole * ps <= d.len(),
            d.len() <= usize::MAX,
            es == dt.spec_size(),
            0 < es,
            ps == nchannels * es,
            0 < ps,
            0 < nchannels,
            n > 0 ==> alphachan < nchannels,
            is_arith(*math),
            m == arith(*math),
            want == premultiplied(
                m,
                d,
                npixels as int,
                dt,
                nchannels as int,
                alphachan as int,
            ),
            data@.len() == d.len(),
            forall|k: int| 0 <= k < p * ps ==> data@[k] == want[k],
            forall|k: int| p * ps <= k < d.len() ==> data@[k] == d[k],
        decreases n - p,
    {
        proof {
            lemma_grid_end(p as int, whole as int, ps as int);
        }
        let base: usize = p * ps;
        let ghost before = data@;
        scale_pixel(data, base, dt, nchannels, alphachan, math);
        proof {
            assert forall|k: int| base <= k < base + ps implies data@[k] == want[k] by {
                let x = k - base;
                assert(data@[base + x] == scaled_byte(
                    m,
                    before,
                    base as int,
                    dt,
                    alphachan as int,
                    x,
                ));
                lemma_pixel_byte(k, p as int, ps as int, es as int, nchannels as int, whole as int);
                let c = x / es as int;
                lemma_grid_end(c, nchannels as int, es as int);
                lemma_grid_end(alphachan as int, nchannels as int, es as int);
                assert(elem(before, base + c * es, dt) == elem(d, p * ps + c * es, dt));
                assert(elem(before, base + alphachan * es, dt) == elem(
                    d,
                    p * ps + alphachan * es,
                    dt,
                ));
            }
        }
        p = p + 1;
    }
    proof {
        assert forall|k: int| n * ps <= k < d.len() implies data@[k] == want[k] by {
            assert(k / ps as int >= n) by (nonlinear_arith)
                requires
                    k >= n * ps,
                    ps > 0,
            ;
        }
        assert(data@ =~= want);
    }
}

/// Pixel and channel of a byte of pixel `p`.
proof fn lemma_pixel_byte(k: int, p: int, ps: int, es: int, nchannels: int, whole: int)
    requires
        0 <= p < whole,
        0 < es,
        0 < nchannels,
        ps == nchannels * es,
        p * ps <= k < p * ps + ps,
    ensures
        k / ps == p,
        k % ps == k - p * ps,
        0 <= k % ps / es < nchannels,
        k < es + p * ps ==> k % ps / es == 0,
{
    lemma_grid(p, k - p * ps, whole, ps);
    let x = k - p * ps;
    assert(0 <= x / es < nchannels) by (nonlinear_arith)
        requires
            0 <= x < nchannels * es,
            0 < es,
    ;
    if x < es {
        vstd::arithmetic::div_mod::lemma_basic_div(x, es);
    }
}

} // verus!
