//! Properties of the pixel utility functions, element by element.

use crate::paint::{
    covers, lemma_put_all_last, lemma_put_all_len, lemma_put_rows_at, put_all, put_rows,
    row_writes,
};
use crate::texel::{elem, elem_bytes, elems, lemma_elem_bound, lemma_elems_index, Arith};
use crate::types::DataType;
use crate::reduce::{reduced_elem, reduced_row, reduced_rows, texel, Kernel};
use crate::utils::{
    interleave_writes, lemma_grid, lemma_grid_end, lemma_planar, lemma_rows_fit, premultiplied,
    rows_fit, running_sum,
};
use vstd::prelude::*;

verus! {

/// Equal bytes hold equal elements.
proof fn lemma_same_elem(a: Seq<u8>, i: int, b: Seq<u8>, j: int, dt: DataType)
    requires
        forall|k: int| 0 <= k < dt.spec_size() ==> #[trigger] a[i + k] == b[j + k],
    ensures
        elem(a, i, dt) == elem(b, j, dt),
{
    assert(a[i + 0] == b[j + 0]);
    if !(dt is UInt8) {
        assert(a[i + 1] == b[j + 1]);
    }
    if dt is Float {
        assert(a[i + 2] == b[j + 2]);
        assert(a[i + 3] == b[j + 3]);
    }
}

/// Two positions in rows that do not touch each other are alike only if they
/// are in the same row and at the same place in it.
proof fn lemma_same_place(v: int, x: int, w: int, y: int, n: int, stride: int, rowlen: int)
    requires
        0 <= v < n,
        0 <= w < n,
        0 <= x < rowlen,
        0 <= y < rowlen,
        n == 1 || rowlen <= stride,
        v * stride + x == w * stride + y,
    ensures
        v == w,
        x == y,
{
    if n > 1 {
        vstd::arithmetic::div_mod::lemma_fundamental_div_mod_converse(v * stride + x, stride, v, x);
        vstd::arithmetic::div_mod::lemma_fundamental_div_mod_converse(v * stride + x, stride, w, y);
    }
}

/// Interleaving puts every element of every plane at its place in the pixel:
/// channel `c` of texel (`u`, `v`) is element (`u`, `v`) of plane `c`.
pub proof fn interleaving_is_exact(
    d: Seq<u8>,
    src: Seq<u8>,
    uw: int,
    vw: int,
    dstride: int,
    dt: DataType,
    nchan: int,
    u: int,
    v: int,
    c: int,
)
    requires
        0 <= u < uw,
        0 <= v < vw,
        0 <= c < nchan,
        0 <= dstride,
        vw == 1 || uw * nchan * dt.spec_size() <= dstride,
        nchan * vw * uw * dt.spec_size() <= src.len(),
        rows_fit(vw, dstride, uw * nchan * dt.spec_size(), d.len()),
    ensures
        texel(
            put_all(
                d,
                interleave_writes(src, uw, vw, dstride, dt.spec_size() as int, nchan),
            ),
            dstride,
            dt,
            nchan,
            v,
            u,
            c,
        ) == elem(src, ((c * vw + v) * uw + u) * dt.spec_size(), dt),
{
    let es = dt.spec_size() as int;
    let rowlen = uw * nchan * es;
    let w = interleave_writes(src, uw, vw, dstride, es, nchan);
    let out = put_all(d, w);
    let i = (c * vw + v) * uw + u;
    let x = (u * nchan + c) * es;
    lemma_put_all_len(d, w);
    lemma_planar(c, v, u, nchan, vw, uw);
    lemma_grid_end(i, nchan * vw * uw, es);
    lemma_grid(u, c, uw, nchan);
    lemma_grid_end(u * nchan + c, uw * nchan, es);
    lemma_rows_fit(v, vw, dstride, rowlen, d.len());
    assert(w[i] == (v * dstride + x, src.subrange(i * es, i * es + es)));
    assert forall|b: int| 0 <= b < es implies #[trigger] out[v * dstride + x + b] == src[i * es
        + b] by {
        let k = v * dstride + x + b;
        assert forall|j: int| i < j < w.len() implies !covers(#[trigger] w[j], k) by {
            lemma_grid_end(j, nchan * vw * uw, es);
            let vj = j / uw % vw;
            let uj = j % uw;
            let cj = j / uw / vw;
            lemma_unplanar(j, nchan, vw, uw);
            lemma_grid(uj, cj, uw, nchan);
            lemma_grid_end(uj * nchan + cj, uw * nchan, es);
            if covers(w[j], k) {
                let y = k - vj * dstride;
                lemma_same_place(v, x + b, vj, y, vw, dstride, rowlen);
                let n = u * nchan + c;
                let nj = uj * nchan + cj;
                vstd::arithmetic::div_mod::lemma_fundamental_div_mod_converse(x + b, es, n, b);
                vstd::arithmetic::div_mod::lemma_fundamental_div_mod_converse(
                    y,
                    es,
                    nj,
                    y - nj * es,
                );
                assert(n == nj);
                assert(u == uj && c == cj);
                assert(i == j);
            }
        }
        lemma_put_all_last(d, w, k, i);
    }
    lemma_same_elem(out, v * dstride + x, src, i * es, dt);
}

/// Plane, row and column of an element of planar data.
proof fn lemma_unplanar(j: int, nchan: int, vw: int, uw: int)
    requires
        0 <= j < nchan * vw * uw,
        0 < uw,
        0 < vw,
        0 < nchan,
    ensures
        0 <= j % uw < uw,
        0 <= j / uw % vw < vw,
        0 <= j / uw / vw < nchan,
        j == (j / uw / vw * vw + j / uw % vw) * uw + j % uw,
{
    let q = j / uw;
    vstd::arithmetic::div_mod::lemma_fundamental_div_mod(j, uw);
    vstd::arithmetic::div_mod::lemma_mod_bound(j, uw);
    vstd::arithmetic::div_mod::lemma_fundamental_div_mod(q, vw);
    vstd::arithmetic::div_mod::lemma_mod_bound(q, vw);
    assert(0 <= q < nchan * vw) by (nonlinear_arith)
        requires
            0 <= j < (nchan * vw) * uw,
            0 < uw,
            q == j / uw,
    ;
    assert(0 <= q / vw < nchan) by (nonlinear_arith)
        requires
            0 <= q < nchan * vw,
            0 < vw,
    ;
    assert(vw * (q / vw) == q / vw * vw) by (nonlinear_arith);
    assert(uw * q == q * uw) by (nonlinear_arith);
}

/// A reduction stores at every texel of the result the mean of the texels that
/// its kernel blends.
pub proof fn reduction_is_exact(
    kernel: Kernel,
    m: Arith,
    d: Seq<u8>,
    src: Seq<u8>,
    sstride: int,
    uw: int,
    vw: int,
    dstride: int,
    dt: DataType,
    nchan: int,
    u: int,
    v: int,
    c: int,
)
    requires
        0 <= u < kernel.cols(uw),
        0 <= v < kernel.rows(uw, vw),
        0 <= c < nchan,
        0 <= uw,
        kernel.cols(uw) * nchan * dt.spec_size() <= dstride,
        rows_fit(
            kernel.rows(uw, vw),
            dstride,
            kernel.cols(uw) * nchan * dt.spec_size(),
            d.len(),
        ),
    ensures
        ({
            let out = put_rows(
                d,
                dstride,
                reduced_rows(kernel, m, src, sstride, uw, vw, dt, nchan),
            );
            let off = v * dstride + (u * nchan + c) * dt.spec_size();
            out.subrange(off, off + dt.spec_size()) == elem_bytes(
                reduced_elem(kernel, m, src, sstride, uw, dt, nchan, v, u, c),
                dt,
            )
        }),
{
    let es = dt.spec_size() as int;
    let ncols = kernel.cols(uw);
    let nrows = kernel.rows(uw, vw);
    let rowlen = ncols * nchan * es;
    let rows = reduced_rows(kernel, m, src, sstride, uw, vw, dt, nchan);
    let out = put_rows(d, dstride, rows);
    let n = u * nchan + c;
    let off = v * dstride + n * es;
    let value = reduced_elem(kernel, m, src, sstride, uw, dt, nchan, v, u, c);
    let f = |i: int|
        reduced_elem(kernel, m, src, sstride, uw, dt, nchan, v, i / nchan, i % nchan);
    lemma_put_all_len(d, row_writes(rows, dstride));
    lemma_grid(u, c, ncols, nchan);
    lemma_grid_end(n, ncols * nchan, es);
    lemma_rows_fit(v, nrows, dstride, rowlen, d.len());
    let row = reduced_row(kernel, m, src, sstride, uw, dt, nchan, v);
    assert(row =~= elems((ncols * nchan) as nat, dt, f));
    lemma_elems_index((ncols * nchan) as nat, dt, f, n);
    assert(f(n) == value);
    assert forall|r: int| 0 <= r < rows.len() implies #[trigger] rows[r].len() == rowlen by {
        assert(rows[r] == reduced_row(kernel, m, src, sstride, uw, dt, nchan, r));
    }
    let got = out.subrange(off, off + es);
    assert forall|b: int| 0 <= b < es implies got[b] == elem_bytes(value, dt)[b] by {
        let k = off + b;
        let x = n * es + b;
        vstd::arithmetic::div_mod::lemma_fundamental_div_mod_converse(k, dstride, v, x);
        lemma_put_rows_at(d, dstride, rows, rowlen, k);
        assert(rows[v] == row);
        assert(row.subrange(n * es, n * es + es)[b] == row[x]);
    }
    assert(got =~= elem_bytes(value, dt));
}

/// Decoding undoes difference encoding: where every stored element is the
/// difference between an element and the one before it, modulo the range of
/// the type, the sums are the elements.
pub proof fn decoding_undoes_differencing(data: Seq<u8>, stored: Seq<u8>, dt: DataType, n: nat)
    requires
        dt is UInt8 || dt is UInt16,
        ({
            let es = dt.spec_size() as int;
            let limit = if dt is UInt8 {
                0x100int
            } else {
                0x1_0000int
            };
            forall|i: int|
                0 <= i < n ==> #[trigger] elem(stored, i * es, dt) == (elem(data, i * es, dt) - (
                if i == 0 {
                    0
                } else {
                    elem(data, (i - 1) * es, dt) as int
                })) % limit
        }),
        n > 0,
    ensures
        running_sum(stored, dt, n) == elem(data, (n - 1) * dt.spec_size(), dt),
    decreases n,
{
    let es = dt.spec_size() as int;
    lemma_elem_bound(data, (n - 1) * es, dt);
    if n > 1 {
        decoding_undoes_differencing(data, stored, dt, (n - 1) as nat);
        lemma_elem_bound(data, (n - 2) * es, dt);
    }
    let a = elem(data, (n - 1) * es, dt) as int;
    let b = running_sum(stored, dt, (n - 1) as nat) as int;
    let s = elem(stored, (n - 1) * es, dt) as int;
    if dt is UInt8 {
        assert(s == (a - b) % 0x100);
        assert((b + s) % 0x100 == a);
    } else {
        assert(s == (a - b) % 0x1_0000);
        assert((b + s) % 0x1_0000 == a);
    }
}

/// Premultiplication leaves the alpha channel alone.
pub proof fn premultiplying_keeps_alpha(
    m: Arith,
    d: Seq<u8>,
    npixels: int,
    dt: DataType,
    nchannels: int,
    alphachan: int,
    p: int,
)
    requires
        0 <= alphachan < nchannels,
        0 <= p,
        (p + 1) * (nchannels * dt.spec_size()) <= d.len(),
    ensures
        ({
            let off = p * (nchannels * dt.spec_size()) + alphachan * dt.spec_size();
            elem(premultiplied(m, d, npixels, dt, nchannels, alphachan), off, dt) == elem(
                d,
                off,
                dt,
            )
        }),
{
    let es = dt.spec_size() as int;
    let ps = nchannels * es;
    let off = p * ps + alphachan * es;
    let out = premultiplied(m, d, npixels, dt, nchannels, alphachan);
    lemma_grid_end(alphachan, nchannels, es);
    lemma_grid_end(p, p + 1, ps);
    assert forall|b: int| 0 <= b < es implies #[trigger] out[off + b] == d[off + b] by {
        let k = off + b;
        vstd::arithmetic::div_mod::lemma_fundamental_div_mod_converse(k, ps, p, alphachan * es + b);
        vstd::arithmetic::div_mod::lemma_fundamental_div_mod_converse(
            alphachan * es + b,
            es,
            alphachan,
            b,
        );
    }
    lemma_same_elem(out, off, d, off, dt);
}

} // verus!
