//! Images written into strided buffers.

use crate::decode::lemma_rows_in_image;
use crate::error::{unsupported, Error, ErrorView};
use crate::image::{assembled, assembled_byte, solid_image, texel_bytes, tile_inside, too_large};
use crate::paint::{lemma_put_all_len, lemma_put_rows_at, put_rows, row_writes, rows_of};
use crate::types::Res;
use crate::utils::{
    copy_rows, fill, lemma_grid, lemma_grid_end, lemma_rows_fit, lemma_scaled, repeated,
    rows_fit,
};
use vstd::prelude::*;

verus! {

/// Byte `k` of a buffer belongs to the image of `n` rows of `rowlen` bytes
/// that is held in it, one row every `stride` bytes.
pub open spec fn in_rows(k: int, stride: int, rowlen: int, n: int) -> bool {
    rowlen > 0 && 0 <= k && k / stride < n && k % stride < rowlen
}

/// `d` with an image of `n` packed rows of `rowlen` bytes written into it, one
/// row every `stride` bytes.
pub open spec fn place(d: Seq<u8>, img: Seq<u8>, stride: int, rowlen: int, n: int) -> Seq<u8> {
    Seq::new(
        d.len(),
        |k: int|
            if in_rows(k, stride, rowlen, n) {
                img[(k / stride) * rowlen + k % stride]
            } else {
                d[k]
            },
    )
}

/// `a` and `b` differ at most in the bytes of an image held in them.
pub open spec fn same_outside(a: Seq<u8>, b: Seq<u8>, stride: int, rowlen: int, n: int) -> bool {
    &&& a.len() == b.len()
    &&& forall|k: int|
        0 <= k < a.len() && !in_rows(k, stride, rowlen, n) ==> #[trigger] a[k] == b[k]
}

/// Row stride to use for an image in a buffer of `len` bytes: `stride`, or
/// that of packed rows if it is zero.
pub open spec fn spec_check_buffer(res: Res, ps: nat, len: nat, stride: nat) -> Result<
    nat,
    ErrorView,
> {
    let rowlen = ps * res.spec_u();
    let s = if stride == 0 {
        rowlen
    } else {
        stride
    };
    if s < rowlen || len < s * (res.spec_v() - 1) + rowlen {
        Err(too_large())
    } else {
        Ok(s)
    }
}

/// Validate a destination buffer and resolve `stride == 0` to a packed row.
pub fn check_buffer(res: Res, pixel_size: usize, buffer: &[u8], stride: usize) -> (r: Result<
    usize,
    Error,
>)
    requires
        pixel_size <= 0xffff_ffff,
    ensures
        match r {
            Ok(s) => spec_check_buffer(res, pixel_size as nat, buffer@.len(), stride as nat)
                == Ok::<nat, ErrorView>(s as nat),
            Err(e) => spec_check_buffer(res, pixel_size as nat, buffer@.len(), stride as nat)
                == Err::<nat, ErrorView>(e@),
        },
{
    let uw: usize = res.u();
    let vw: usize = res.v();
    let len: usize = buffer.len();
    assert(pixel_size * uw <= 0xffff_ffff * 0x8000_0000) by (nonlinear_arith)
        requires
            pixel_size <= 0xffff_ffff,
            uw <= 0x8000_0000,
    ;
    let rowlen: u128 = pixel_size as u128 * uw as u128;
    let s: u128 = if stride == 0 {
        rowlen
    } else {
        stride as u128
    };
    assert(0 <= s * (vw - 1) <= 0xffff_ffff_ffff_ffff * 0x8000_0000) by (nonlinear_arith)
        requires
            s <= 0xffff_ffff_ffff_ffff,
            1 <= vw <= 0x8000_0000,
    ;
    if s < rowlen || (len as u128) < s * (vw as u128 - 1) + rowlen {
        return Err(unsupported("buffer too small for requested res"));
    }
    assert(s == rowlen || s == stride);
    Ok(s as usize)
}

/// A buffer that passed the check holds all rows of the image.
pub proof fn lemma_checked(res: Res, ps: nat, len: nat, stride: nat)
    requires
        spec_check_buffer(res, ps, len, stride) is Ok,
    ensures
        ({
            let s = spec_check_buffer(res, ps, len, stride)->Ok_0 as int;
            let rowlen = (res.spec_u() * ps) as int;
            &&& 0 <= rowlen <= s
            &&& rows_fit(res.spec_v() as int, s, rowlen, len)
            &&& res.spec_size() * ps <= len
            &&& rowlen <= len
            &&& res.spec_v() > 0
            &&& res.spec_u() > 0
        }),
{
    let s = spec_check_buffer(res, ps, len, stride)->Ok_0 as int;
    let u = res.spec_u() as int;
    let v = res.spec_v() as int;
    crate::types::lemma_dims(res);
    let rowlen = u * ps;
    assert(ps * u == u * ps) by (nonlinear_arith);
    assert(s * (v - 1) == (v - 1) * s) by (nonlinear_arith);
    lemma_scaled(0, u, ps as int);
    lemma_scaled(0, v - 1, s);
    assert((v - 1) * s >= (v - 1) * rowlen) by (nonlinear_arith)
        requires
            s >= rowlen,
            v >= 1,
    ;
    assert((v - 1) * rowlen + rowlen == u * v * ps) by (nonlinear_arith)
        requires
            rowlen == u * ps,
    ;
}

/// Rows that do not touch each other are an image placed in the buffer.
pub proof fn lemma_rows_are_placed(d: Seq<u8>, img: Seq<u8>, stride: int, rowlen: int, n: nat)
    requires
        0 <= rowlen <= stride,
        n * rowlen <= img.len(),
    ensures
        put_rows(d, stride, rows_of(img, rowlen, rowlen, n)) == place(
            d,
            img,
            stride,
            rowlen,
            n as int,
        ),
{
    let rows = rows_of(img, rowlen, rowlen, n);
    let a = put_rows(d, stride, rows);
    let b = place(d, img, stride, rowlen, n as int);
    lemma_put_all_len(d, row_writes(rows, stride));
    assert forall|v: int| 0 <= v < n implies #[trigger] rows[v].len() == rowlen by {
        lemma_grid_end(v, n as int, rowlen);
    }
    assert forall|k: int| 0 <= k < d.len() implies a[k] == b[k] by {
        if rowlen > 0 {
            lemma_put_rows_at(d, stride, rows, rowlen, k);
            if in_rows(k, stride, rowlen, n as int) {
                assert(k / stride >= 0) by (nonlinear_arith)
                    requires
                        k >= 0,
                        stride > 0,
                ;
                vstd::arithmetic::div_mod::lemma_mod_bound(k, stride);
                lemma_grid_end(k / stride, n as int, rowlen);
            }
        } else {
            let w = row_writes(rows, stride);
            assert forall|i: int| 0 <= i < w.len() implies !crate::paint::covers(
                #[trigger] w[i],
                k,
            ) by {
                assert(rows[i].len() == 0);
            }
            crate::paint::lemma_put_all_untouched(d, w, k);
        }
    }
    assert(a =~= b);
}

/// The rows of an image of a single color are alike.
pub proof fn lemma_solid_rows(pixel: Seq<u8>, res: Res)
    ensures
        ({
            let rowlen = (res.spec_u() * pixel.len()) as int;
            rows_of(solid_image(pixel, res), rowlen, rowlen, res.spec_v()) == Seq::new(
                res.spec_v(),
                |v: int| repeated(pixel, res.spec_u()),
            )
        }),
        solid_image(pixel, res).len() == res.spec_v() * (res.spec_u() * pixel.len()),
{
    let ps = pixel.len() as int;
    let u = res.spec_u();
    let n = res.spec_v();
    let rowlen = (u * pixel.len()) as int;
    let img = solid_image(pixel, res);
    assert(u * n * ps == n * (u * ps)) by (nonlinear_arith);
    let rows = rows_of(img, rowlen, rowlen, n);
    lemma_scaled(0, u as int, ps);
    assert forall|v: int| 0 <= v < n implies rows[v] == repeated(pixel, u) by {
        lemma_grid_end(v, n as int, rowlen);
        assert forall|x: int| 0 <= x < rowlen implies #[trigger] rows[v][x] == repeated(
            pixel,
            u,
        )[x] by {
            assert(ps > 0) by (nonlinear_arith)
                requires
                    0 <= x < u * ps,
                    ps >= 0,
            ;
            assert(v * rowlen + x == ps * (v * u) + x) by (nonlinear_arith)
                requires
                    rowlen == u * ps,
            ;
            vstd::arithmetic::div_mod::lemma_mod_multiples_vanish(v * u, x, ps);
        }
        assert(rows[v] =~= repeated(pixel, u));
    }
    assert(rows =~= Seq::new(n, |v: int| repeated(pixel, u)));
}

/// Every texel of an image of a single color is that color.
pub proof fn lemma_solid_texel(pixel: Seq<u8>, res: Res, u: int, v: int)
    requires
        0 <= u < res.spec_u(),
        0 <= v < res.spec_v(),
    ensures
        texel_bytes(solid_image(pixel, res), res, pixel.len(), u, v) == pixel,
{
    let ps = pixel.len() as int;
    let n = v * res.spec_u() + u;
    lemma_grid(v, u, res.spec_v() as int, res.spec_u() as int);
    lemma_grid_end(n, (res.spec_v() * res.spec_u()) as int, ps);
    assert(res.spec_v() * res.spec_u() == res.spec_size()) by (nonlinear_arith)
        requires
            res.spec_size() == res.spec_u() * res.spec_v(),
    ;
    let t = texel_bytes(solid_image(pixel, res), res, pixel.len(), u, v);
    assert(t.len() == ps);
    assert forall|k: int| 0 <= k < ps implies t[k] == pixel[k] by {
        assert(n * ps + k == ps * n + k) by (nonlinear_arith);
        vstd::arithmetic::div_mod::lemma_mod_multiples_vanish(n, k, ps);
        vstd::arithmetic::div_mod::lemma_small_mod(k as nat, ps as nat);
    }
    assert(t =~= pixel);
}

/// An image in a buffer of its own size is the buffer.
pub proof fn lemma_packed_placed(d: Seq<u8>, img: Seq<u8>, rowlen: int, n: int)
    requires
        0 <= rowlen,
        0 <= n,
        d.len() == n * rowlen,
        img.len() == n * rowlen,
    ensures
        place(d, img, rowlen, rowlen, n) == img,
{
    assert forall|k: int| 0 <= k < d.len() implies place(d, img, rowlen, rowlen, n)[k]
        == img[k] by {
        assert(rowlen > 0) by (nonlinear_arith)
            requires
                0 <= k < n * rowlen,
                0 <= n,
                0 <= rowlen,
        ;
        vstd::arithmetic::div_mod::lemma_fundamental_div_mod(k, rowlen);
        vstd::arithmetic::div_mod::lemma_mod_bound(k, rowlen);
        assert(k / rowlen < n) by (nonlinear_arith)
            requires
                0 <= k < n * rowlen,
                0 < rowlen,
        ;
        assert(rowlen * (k / rowlen) == (k / rowlen) * rowlen) by (nonlinear_arith);
    }
    assert(place(d, img, rowlen, rowlen, n) =~= img);
}

/// Write a packed image into a strided buffer.
pub(crate) fn place_image(img: &[u8], dst: &mut [u8], stride: usize, res: Res, pixel_size: usize)
    requires
        img@.len() == res.spec_size() * pixel_size,
        res.spec_u() * pixel_size <= stride,
        rows_fit(
            res.spec_v() as int,
            stride as int,
            (res.spec_u() * pixel_size) as int,
            old(dst)@.len(),
        ),
    ensures
        final(dst)@ == place(
            old(dst)@,
            img@,
            stride as int,
            (res.spec_u() * pixel_size) as int,
            res.spec_v() as int,
        ),
{
    let uw: usize = res.u();
    let vw: usize = res.v();
    proof {
        lemma_rows_in_image(uw as int, vw as int, pixel_size as int, vw as int, uw as int);
        assert(uw * vw * pixel_size == vw * (uw * pixel_size)) by (nonlinear_arith);
        lemma_rows_are_placed(
            dst@,
            img@,
            stride as int,
            uw * pixel_size,
            vw as nat,
        );
    }
    let rowlen: usize = uw * pixel_size;
    copy_rows(img, rowlen, dst, stride, vw, rowlen);
}

/// Write an image of a single color into a strided buffer.
pub(crate) fn place_pixel(pixel: &[u8], dst: &mut [u8], stride: usize, res: Res)
    requires
        res.spec_u() * pixel@.len() <= stride,
        rows_fit(
            res.spec_v() as int,
            stride as int,
            (res.spec_u() * pixel@.len()) as int,
            old(dst)@.len(),
        ),
    ensures
        final(dst)@ == place(
            old(dst)@,
            solid_image(pixel@, res),
            stride as int,
            (res.spec_u() * pixel@.len()) as int,
            res.spec_v() as int,
        ),
{
    let uw: usize = res.u();
    let vw: usize = res.v();
    let ps: usize = pixel.len();
    if ps == 0 {
        assert(uw * 0 == 0);
        assert(dst@ =~= place(dst@, solid_image(pixel@, res), stride as int, 0, vw as int));
        return ;
    }
    proof {
        lemma_solid_rows(pixel@, res);
        lemma_rows_are_placed(
            dst@,
            solid_image(pixel@, res),
            stride as int,
            uw * ps,
            vw as nat,
        );
        lemma_rows_fit(0, vw as int, stride as int, uw * ps, dst@.len());
    }
    fill(pixel, dst, stride, uw, vw, ps);
}

/// Number of the tile that byte `k` of a buffer belongs to.
pub open spec fn tile_at(k: int, stride: int, res: Res, tile_res: Res, ps: nat) -> int {
    (k / stride / tile_res.spec_v() as int) * res.spec_ntilesu(tile_res) + k % stride / (
    tile_res.spec_u() * ps) as int
}

/// The first `n` tiles of an image are in their places in the buffer `cur`,
/// which was `d` before.
pub open spec fn tiles_placed(
    d: Seq<u8>,
    cur: Seq<u8>,
    img: Seq<u8>,
    res: Res,
    tile_res: Res,
    ps: nat,
    stride: int,
    n: int,
) -> bool {
    let rowlen = (res.spec_u() * ps) as int;
    &&& cur.len() == d.len()
    &&& forall|k: int|
        0 <= k < d.len() ==> #[trigger] cur[k] == (if in_rows(
            k,
            stride,
            rowlen,
            res.spec_v() as int,
        ) && tile_at(k, stride, res, tile_res, ps) < n {
            img[(k / stride) * rowlen + k % stride]
        } else {
            d[k]
        })
}

/// A grid of tiles covers at least the face, and has no empty dimension.
pub proof fn lemma_tiles_span(res: Res, tile_res: Res)
    requires
        crate::decode::tiles_fit(res, tile_res),
    ensures
        res.spec_ntilesu(tile_res) * tile_res.spec_u() >= res.spec_u(),
        res.spec_ntilesv(tile_res) * tile_res.spec_v() >= res.spec_v(),
        res.spec_ntilesu(tile_res) > 0,
        res.spec_ntilesv(tile_res) > 0,
        tile_res.spec_u() > 0,
        tile_res.spec_v() > 0,
        res.spec_ntilesu(tile_res) <= usize::MAX,
        res.spec_ntilesv(tile_res) <= usize::MAX,
        res.spec_ntiles(tile_res) <= usize::MAX,
        res.ulog2 < 32 && res.vlog2 < 32 ==> crate::decode::tiles_cover(res, tile_res),
{
    let du = (res.ulog2 - tile_res.ulog2) as nat;
    let dv = (res.vlog2 - tile_res.vlog2) as nat;
    let bu = (tile_res.ulog2 as int % 32) as nat;
    let bv = (tile_res.vlog2 as int % 32) as nat;
    let au = (res.ulog2 as int % 32) as nat;
    let av = (res.vlog2 as int % 32) as nat;
    vstd::arithmetic::power2::lemma_pow2_adds(du, bu);
    vstd::arithmetic::power2::lemma_pow2_adds(dv, bv);
    vstd::arithmetic::power2::lemma_pow2_pos(du);
    vstd::arithmetic::power2::lemma_pow2_pos(dv);
    if au < du + bu {
        vstd::arithmetic::power2::lemma_pow2_strictly_increases(au, du + bu);
    }
    if av < dv + bv {
        vstd::arithmetic::power2::lemma_pow2_strictly_increases(av, dv + bv);
    }
    crate::types::lemma_dims(tile_res);
    crate::types::lemma_pow2_product(du, dv);
    vstd::bits::lemma_usize_pow2_no_overflow(du);
    vstd::bits::lemma_usize_pow2_no_overflow(dv);
}

/// True if the tiles make up the texels of the face.
pub(crate) fn do_tiles_cover(res: Res, tile_res: Res) -> (b: bool)
    requires
        crate::decode::tiles_fit(res, tile_res),
    ensures
        b == crate::decode::tiles_cover(res, tile_res),
{
    let ntu: usize = res.ntilesu(tile_res);
    let ntv: usize = res.ntilesv(tile_res);
    let tu: usize = tile_res.u();
    let tv: usize = tile_res.v();
    assert(ntu * tu <= 0xffff_ffff_ffff_ffff * 0x8000_0000) by (nonlinear_arith)
        requires
            ntu <= 0xffff_ffff_ffff_ffff,
            tu <= 0x8000_0000,
    ;
    assert(ntv * tv <= 0xffff_ffff_ffff_ffff * 0x8000_0000) by (nonlinear_arith)
        requires
            ntv <= 0xffff_ffff_ffff_ffff,
            tv <= 0x8000_0000,
    ;
    ntu as u128 * tu as u128 == res.u() as u128 && ntv as u128 * tv as u128 == res.v() as u128
}

/// True if a tile ends inside the packed image of its face.
pub(crate) fn is_tile_inside(tile: usize, res: Res, tile_res: Res, pixel_size: usize) -> (b: bool)
    requires
        crate::decode::tiles_fit(res, tile_res),
    ensures
        b == tile_inside(tile as int, res, tile_res, pixel_size as nat),
{
    if pixel_size == 0 {
        return true;
    }
    let ntu: usize = res.ntilesu(tile_res);
    let uw: usize = res.u();
    let vw: usize = res.v();
    let tu: usize = tile_res.u();
    let tv: usize = tile_res.v();
    let i: usize = tile / ntu;
    let j: usize = tile % ntu;
    assert(0 <= i * tv <= 0xffff_ffff_ffff_ffff * 0x8000_0000) by (nonlinear_arith)
        requires
            0 <= i <= 0xffff_ffff_ffff_ffff,
            0 <= tv <= 0x8000_0000,
    ;
    assert(0 <= j * tu <= 0xffff_ffff_ffff_ffff * 0x8000_0000) by (nonlinear_arith)
        requires
            0 <= j <= 0xffff_ffff_ffff_ffff,
            0 <= tu <= 0x8000_0000,
    ;
    let y: u128 = i as u128 * tv as u128 + tv as u128 - 1;
    let x: u128 = j as u128 * tu as u128 + tu as u128;
    assert(0 <= y * uw <= 0x1_0000_0000_0000_0000 * 0x8000_0000 * 0x8000_0000)
        by (nonlinear_arith)
        requires
            0 <= y <= 0x1_0000_0000_0000_0000 * 0x8000_0000,
            0 <= uw <= 0x8000_0000,
    ;
    assert(0 <= uw * vw <= 0x8000_0000 * 0x8000_0000) by (nonlinear_arith)
        requires
            0 <= uw <= 0x8000_0000,
            0 <= vw <= 0x8000_0000,
    ;
    y * uw as u128 + x <= uw as u128 * vw as u128
}

/// Every tile of a grid that covers its face lies inside the face.
pub proof fn lemma_covering_tile_inside(t: int, res: Res, tile_res: Res, ps: nat)
    requires
        crate::decode::tiles_cover(res, tile_res),
        0 <= t < res.spec_ntiles(tile_res),
    ensures
        tile_inside(t, res, tile_res, ps),
{
    lemma_tiles_span(res, tile_res);
    let ntu = res.spec_ntilesu(tile_res) as int;
    let ntv = res.spec_ntilesv(tile_res) as int;
    let tu = tile_res.spec_u() as int;
    let tv = tile_res.spec_v() as int;
    let uw = res.spec_u() as int;
    let vw = res.spec_v() as int;
    let i = t / ntu;
    let j = t % ntu;
    vstd::arithmetic::div_mod::lemma_mod_bound(t, ntu);
    assert(0 <= i < ntv) by (nonlinear_arith)
        requires
            0 <= t < ntu * ntv,
            0 < ntu,
            i == t / ntu,
    ;
    lemma_grid_end(i, ntv, tv);
    lemma_grid_end(j, ntu, tu);
    lemma_scaled(i * tv + tv - 1, vw - 1, uw);
    assert((vw - 1) * uw + uw == uw * vw) by (nonlinear_arith);
}

/// The last tile of a grid that is larger than its face lies outside it.
pub proof fn lemma_last_tile_outside(res: Res, tile_res: Res, ps: nat)
    requires
        crate::decode::tiles_fit(res, tile_res),
        !crate::decode::tiles_cover(res, tile_res),
        ps > 0,
    ensures
        res.spec_ntiles(tile_res) > 0,
        !tile_inside(res.spec_ntiles(tile_res) - 1, res, tile_res, ps),
{
    lemma_tiles_span(res, tile_res);
    crate::types::lemma_dims(res);
    let ntu = res.spec_ntilesu(tile_res) as int;
    let ntv = res.spec_ntilesv(tile_res) as int;
    let tu = tile_res.spec_u() as int;
    let tv = tile_res.spec_v() as int;
    let uw = res.spec_u() as int;
    let vw = res.spec_v() as int;
    lemma_grid(ntv - 1, ntu - 1, ntv, ntu);
    let t = (ntv - 1) * ntu + (ntu - 1);
    assert(t == res.spec_ntiles(tile_res) - 1) by (nonlinear_arith)
        requires
            t == (ntv - 1) * ntu + (ntu - 1),
            res.spec_ntiles(tile_res) == ntu * ntv,
    ;
    assert((ntv - 1) * tv + tv - 1 == ntv * tv - 1) by (nonlinear_arith);
    assert((ntu - 1) * tu + tu == ntu * tu) by (nonlinear_arith);
    assert((vw - 1) * uw + uw == uw * vw) by (nonlinear_arith);
    if ntv * tv > vw {
        lemma_scaled(vw, ntv * tv - 1, uw);
        assert(vw * uw == uw * vw) by (nonlinear_arith);
    } else {
        lemma_scaled(vw - 1, ntv * tv - 1, uw);
    }
}

/// Bytes of tile (`i`, `j`), counted from the origin of the tile, and bytes of
/// the whole image, counted from the origin of the face.
proof fn lemma_in_tile(
    k: int,
    stride: int,
    i: int,
    j: int,
    ntv: int,
    ntu: int,
    tv: int,
    tr: int,
)
    requires
        0 <= i < ntv,
        0 <= j < ntu,
        0 < tv,
        0 < tr,
        ntu * tr <= stride,
        0 <= k,
    ensures
        ({
            let off = i * stride * tv + j * tr;
            let inside = in_rows(k, stride, ntu * tr, ntv * tv);
            let t = (k / stride / tv) * ntu + k % stride / tr;
            let here = k >= off && in_rows(k - off, stride, tr, tv);
            &&& here <==> inside && t == i * ntu + j
            &&& here ==> (k - off) / stride == k / stride % tv && (k - off) % stride == k % stride
                % tr
        }),
{
    let off = i * stride * tv + j * tr;
    lemma_grid_end(j, ntu, tr);
    assert(0 < stride);
    let y = k / stride;
    let x = k % stride;
    vstd::arithmetic::div_mod::lemma_fundamental_div_mod(k, stride);
    vstd::arithmetic::div_mod::lemma_mod_bound(k, stride);
    assert(stride * y == y * stride) by (nonlinear_arith);
    assert(0 <= y) by (nonlinear_arith)
        requires
            0 <= k,
            0 < stride,
            y == k / stride,
    ;
    assert(off == (i * tv) * stride + j * tr) by (nonlinear_arith)
        requires
            off == i * stride * tv + j * tr,
    ;
    let inside = in_rows(k, stride, ntu * tr, ntv * tv);
    let t = (y / tv) * ntu + x / tr;
    let here = k >= off && in_rows(k - off, stride, tr, tv);
    if here {
        let a = (k - off) / stride;
        let b = (k - off) % stride;
        vstd::arithmetic::div_mod::lemma_fundamental_div_mod(k - off, stride);
        vstd::arithmetic::div_mod::lemma_mod_bound(k - off, stride);
        assert(stride * a == a * stride) by (nonlinear_arith);
        assert(0 <= a) by (nonlinear_arith)
            requires
                0 <= k - off,
                0 < stride,
                a == (k - off) / stride,
        ;
        assert((i * tv) * stride + a * stride == (i * tv + a) * stride) by (nonlinear_arith);
        vstd::arithmetic::div_mod::lemma_fundamental_div_mod_converse(
            k,
            stride,
            i * tv + a,
            j * tr + b,
        );
        lemma_grid(i, a, ntv, tv);
        lemma_grid(j, b, ntu, tr);
        assert(y / tv == i && x / tr == j);
        assert(inside && t == i * ntu + j);
    }
    if inside && t == i * ntu + j {
        assert(0 <= x / tr < ntu) by (nonlinear_arith)
            requires
                0 <= x < ntu * tr,
                0 < tr,
        ;
        assert(0 <= y / tv < ntv) by (nonlinear_arith)
            requires
                0 <= y < ntv * tv,
                0 < tv,
        ;
        lemma_grid(i, j, ntv, ntu);
        lemma_grid(y / tv, x / tr, ntv, ntu);
        let a = y % tv;
        let b = x % tr;
        vstd::arithmetic::div_mod::lemma_fundamental_div_mod(y, tv);
        vstd::arithmetic::div_mod::lemma_mod_bound(y, tv);
        vstd::arithmetic::div_mod::lemma_fundamental_div_mod(x, tr);
        vstd::arithmetic::div_mod::lemma_mod_bound(x, tr);
        assert(y == i * tv + a) by (nonlinear_arith)
            requires
                y == tv * (y / tv) + a,
                y / tv == i,
        ;
        assert(x == j * tr + b) by (nonlinear_arith)
            requires
                x == tr * (x / tr) + b,
                x / tr == j,
        ;
        assert(y * stride == (i * tv) * stride + a * stride) by (nonlinear_arith)
            requires
                y == i * tv + a,
        ;
        lemma_scaled(0, a, stride);
        lemma_scaled(1, ntu, tr);
        vstd::arithmetic::div_mod::lemma_fundamental_div_mod_converse(k - off, stride, a, b);
        assert(here);
    }
}

/// Before the first tile nothing has changed.
pub proof fn lemma_no_tiles_placed(
    d: Seq<u8>,
    img: Seq<u8>,
    res: Res,
    tile_res: Res,
    ps: nat,
    stride: int,
)
    requires
        crate::decode::tiles_cover(res, tile_res),
        res.spec_u() * ps <= stride,
    ensures
        tiles_placed(d, d, img, res, tile_res, ps, stride, 0),
{
    let rowlen = (res.spec_u() * ps) as int;
    assert forall|k: int| 0 <= k < d.len() && in_rows(k, stride, rowlen, res.spec_v() as int)
        implies tile_at(k, stride, res, tile_res, ps) >= 0 by {
        lemma_tiles_span(res, tile_res);
        assert(tile_res.spec_u() * ps > 0) by (nonlinear_arith)
            requires
                res.spec_u() * ps > 0,
                tile_res.spec_u() > 0,
        ;
        lemma_tile_at_min(k, stride, res, tile_res, ps);
    }
}

/// Tiles are numbered from zero.
pub proof fn lemma_tile_at_min(k: int, stride: int, res: Res, tile_res: Res, ps: nat)
    requires
        0 <= k,
        0 < stride,
        tile_res.spec_u() * ps > 0,
    ensures
        tile_at(k, stride, res, tile_res, ps) >= 0,
{
    crate::types::lemma_dims(tile_res);
    let tv = tile_res.spec_v() as int;
    let tr = (tile_res.spec_u() * ps) as int;
    let ntu = res.spec_ntilesu(tile_res) as int;
    vstd::arithmetic::div_mod::lemma_mod_bound(k, stride);
    vstd::arithmetic::div_mod::lemma_div_pos_is_pos(k, stride);
    vstd::arithmetic::div_mod::lemma_div_pos_is_pos(k / stride, tv);
    vstd::arithmetic::div_mod::lemma_div_pos_is_pos(k % stride, tr);
    lemma_scaled(0, k / stride / tv, ntu);
}

/// A tile is no larger than the face.
pub proof fn lemma_tile_is_smaller(res: Res, tile_res: Res, ps: nat)
    requires
        crate::decode::tiles_cover(res, tile_res),
    ensures
        tile_res.spec_size() * ps <= res.spec_size() * ps,
        tile_res.spec_u() * ps <= res.spec_u() * ps,
{
    lemma_tiles_span(res, tile_res);
    let tu = tile_res.spec_u();
    let tv = tile_res.spec_v();
    let nu = res.spec_ntilesu(tile_res);
    let nv = res.spec_ntilesv(tile_res);
    assert(tu <= nu * tu) by (nonlinear_arith)
        requires
            nu >= 1,
    ;
    assert(tv <= nv * tv) by (nonlinear_arith)
        requires
            nv >= 1,
    ;
    assert(tu * tv <= res.spec_u() * res.spec_v()) by (nonlinear_arith)
        requires
            tu <= res.spec_u(),
            tv <= res.spec_v(),
    ;
    lemma_scaled((tu * tv) as int, res.spec_size() as int, ps as int);
    lemma_scaled(tu as int, res.spec_u() as int, ps as int);
}

/// Where tile `t` starts in a buffer.
pub open spec fn tile_start(t: int, stride: int, res: Res, tile_res: Res, ps: nat) -> int {
    let ntu = res.spec_ntilesu(tile_res) as int;
    (t / ntu) * stride * tile_res.spec_v() + (t % ntu) * (tile_res.spec_u() * ps)
}

/// A tile of an image lies in the rows of the image.
pub proof fn lemma_tile_start(t: int, stride: int, res: Res, tile_res: Res, ps: nat, len: nat)
    requires
        crate::decode::tiles_cover(res, tile_res),
        0 <= t < res.spec_ntiles(tile_res),
        res.spec_u() * ps <= stride,
        rows_fit(res.spec_v() as int, stride, (res.spec_u() * ps) as int, len),
    ensures
        ({
            let off = tile_start(t, stride, res, tile_res, ps);
            let ntu = res.spec_ntilesu(tile_res) as int;
            &&& 0 <= off <= len
            &&& 0 <= t / ntu < res.spec_ntilesv(tile_res)
            &&& 0 <= t % ntu < ntu
            &&& (t / ntu) * ntu + t % ntu == t
            &&& 0 <= (t / ntu) * stride
            &&& 0 <= (t / ntu) * stride * tile_res.spec_v()
            &&& 0 <= (t % ntu) * (tile_res.spec_u() * ps)
            &&& rows_fit(
                tile_res.spec_v() as int,
                stride,
                (tile_res.spec_u() * ps) as int,
                (len - off) as nat,
            )
            &&& tile_res.spec_u() * ps <= stride
        }),
{
    let off = tile_start(t, stride, res, tile_res, ps);
    let ntu = res.spec_ntilesu(tile_res) as int;
    let ntv = res.spec_ntilesv(tile_res) as int;
    let tr = (tile_res.spec_u() * ps) as int;
    let tv = tile_res.spec_v() as int;
    let rowlen = (res.spec_u() * ps) as int;
    lemma_tiles_span(res, tile_res);
    let i = t / ntu;
    let j = t % ntu;
    vstd::arithmetic::div_mod::lemma_fundamental_div_mod(t, ntu);
    vstd::arithmetic::div_mod::lemma_mod_bound(t, ntu);
    assert(ntu * i == i * ntu) by (nonlinear_arith);
    assert(0 <= i < ntv) by (nonlinear_arith)
        requires
            0 <= t < ntu * ntv,
            0 < ntu,
            i == t / ntu,
    ;
    lemma_scaled(0, tile_res.spec_u() as int, ps as int);
    assert(ntu * tr == rowlen) by (nonlinear_arith)
        requires
            ntu * tile_res.spec_u() == res.spec_u(),
            tr == tile_res.spec_u() * ps,
            rowlen == res.spec_u() * ps,
    ;
    lemma_grid_end(j, ntu, tr);
    lemma_grid_end(i, ntv, tv);
    lemma_scaled(0, i, stride);
    lemma_scaled(0, i * stride, tv);
    assert(i * stride * tv + (tv - 1) * stride == (i * tv + tv - 1) * stride) by (nonlinear_arith);
    lemma_scaled(i * tv + tv - 1, res.spec_v() - 1, stride);
    lemma_scaled(0, tv - 1, stride);
    assert(tr <= ntu * tr) by (nonlinear_arith)
        requires
            ntu >= 1,
            tr >= 0,
    ;
}

/// One more tile is in its place.
pub proof fn lemma_tile_placed(
    d: Seq<u8>,
    cur: Seq<u8>,
    next: Seq<u8>,
    tiles: spec_fn(int) -> Seq<u8>,
    res: Res,
    tile_res: Res,
    ps: nat,
    stride: int,
    t: int,
)
    requires
        crate::decode::tiles_cover(res, tile_res),
        0 <= t < res.spec_ntiles(tile_res),
        res.spec_u() * ps <= stride,
        rows_fit(res.spec_v() as int, stride, (res.spec_u() * ps) as int, d.len()),
        tiles_placed(
            d,
            cur,
            assembled(tiles, res, tile_res, ps),
            res,
            tile_res,
            ps,
            stride,
            t,
        ),
        ({
            let off = tile_start(t, stride, res, tile_res, ps);
            next == cur.take(off) + place(
                cur.skip(off),
                tiles(t),
                stride,
                (tile_res.spec_u() * ps) as int,
                tile_res.spec_v() as int,
            )
        }),
    ensures
        tiles_placed(
            d,
            next,
            assembled(tiles, res, tile_res, ps),
            res,
            tile_res,
            ps,
            stride,
            t + 1,
        ),
{
    let img = assembled(tiles, res, tile_res, ps);
    let off = tile_start(t, stride, res, tile_res, ps);
    let ntu = res.spec_ntilesu(tile_res) as int;
    let ntv = res.spec_ntilesv(tile_res) as int;
    let tr = (tile_res.spec_u() * ps) as int;
    let tv = tile_res.spec_v() as int;
    let rowlen = (res.spec_u() * ps) as int;
    let nrows = res.spec_v() as int;
    lemma_tile_start(t, stride, res, tile_res, ps, d.len());
    lemma_tiles_span(res, tile_res);
    assert(ntu * tr == rowlen) by (nonlinear_arith)
        requires
            ntu * tile_res.spec_u() == res.spec_u(),
            tr == tile_res.spec_u() * ps,
            rowlen == res.spec_u() * ps,
    ;
    assert(next.len() == d.len());
    assert forall|k: int| 0 <= k < d.len() implies #[trigger] next[k] == (if in_rows(
        k,
        stride,
        rowlen,
        nrows,
    ) && tile_at(k, stride, res, tile_res, ps) < t + 1 {
        img[(k / stride) * rowlen + k % stride]
    } else {
        d[k]
    }) by {
        assert(cur[k] == (if in_rows(k, stride, rowlen, nrows) && tile_at(
            k,
            stride,
            res,
            tile_res,
            ps,
        ) < t {
            img[(k / stride) * rowlen + k % stride]
        } else {
            d[k]
        }));
        if rowlen > 0 {
            assert(tr > 0) by (nonlinear_arith)
                requires
                    ntu * tr > 0,
                    ntu > 0,
            ;
            lemma_in_tile(k, stride, t / ntu, t % ntu, ntv, ntu, tv, tr);
            let here = k >= off && in_rows(k - off, stride, tr, tv);
            if here {
                let y = k / stride;
                let x = k % stride;
                assert(next[k] == tiles(t)[(k - off) / stride * tr + (k - off) % stride]);
                assert(0 <= y) by (nonlinear_arith)
                    requires
                        0 <= k,
                        0 < stride,
                        y == k / stride,
                ;
                vstd::arithmetic::div_mod::lemma_mod_bound(k, stride);
                lemma_grid(y, x, nrows, rowlen);
                assert(nrows * rowlen == res.spec_size() * ps) by (nonlinear_arith)
                    requires
                        nrows == res.spec_v(),
                        rowlen == res.spec_u() * ps,
                        res.spec_size() == res.spec_u() * res.spec_v(),
                ;
                assert(img[y * rowlen + x] == assembled_byte(
                    tiles,
                    res,
                    tile_res,
                    ps,
                    y * rowlen + x,
                ));
                assert(tile_at(k, stride, res, tile_res, ps) == t);
            } else {
                assert(next[k] == cur[k]);
            }
        } else {
            assert(tr == 0) by (nonlinear_arith)
                requires
                    ntu * tr <= 0,
                    ntu > 0,
                    tr >= 0,
            ;
            assert(next[k] == cur[k]);
        }
    }
}

/// With all tiles in their places, the image is.
pub proof fn lemma_all_tiles_placed(
    d: Seq<u8>,
    cur: Seq<u8>,
    img: Seq<u8>,
    res: Res,
    tile_res: Res,
    ps: nat,
    stride: int,
)
    requires
        crate::decode::tiles_cover(res, tile_res),
        res.spec_u() * ps <= stride,
        tiles_placed(
            d,
            cur,
            img,
            res,
            tile_res,
            ps,
            stride,
            res.spec_ntiles(tile_res) as int,
        ),
    ensures
        cur == place(d, img, stride, (res.spec_u() * ps) as int, res.spec_v() as int),
{
    let ntu = res.spec_ntilesu(tile_res) as int;
    let ntv = res.spec_ntilesv(tile_res) as int;
    let tr = (tile_res.spec_u() * ps) as int;
    let tv = tile_res.spec_v() as int;
    let rowlen = (res.spec_u() * ps) as int;
    lemma_tiles_span(res, tile_res);
    assert(ntu * tr == rowlen) by (nonlinear_arith)
        requires
            ntu * tile_res.spec_u() == res.spec_u(),
            tr == tile_res.spec_u() * ps,
            rowlen == res.spec_u() * ps,
    ;
    assert forall|k: int|
        0 <= k < d.len() && in_rows(k, stride, rowlen, res.spec_v() as int) implies tile_at(
        k,
        stride,
        res,
        tile_res,
        ps,
    ) < res.spec_ntiles(tile_res) by {
        let y = k / stride;
        let x = k % stride;
        vstd::arithmetic::div_mod::lemma_mod_bound(k, stride);
        assert(tr > 0) by (nonlinear_arith)
            requires
                ntu * tr > 0,
                ntu > 0,
        ;
        assert(0 <= y) by (nonlinear_arith)
            requires
                0 <= k,
                0 < stride,
                y == k / stride,
        ;
        assert(0 <= x / tr < ntu) by (nonlinear_arith)
            requires
                0 <= x < ntu * tr,
                0 < tr,
        ;
        assert(0 <= y / tv < ntv) by (nonlinear_arith)
            requires
                0 <= y < ntv * tv,
                0 < tv,
        ;
        lemma_grid(y / tv, x / tr, ntv, ntu);
        assert(ntv * ntu == ntu * ntv) by (nonlinear_arith);
    }
    assert(cur =~= place(d, img, stride, rowlen, res.spec_v() as int));
}

/// Tiles that are in their places have changed nothing outside the image.
pub proof fn lemma_tiles_stay_inside(
    d: Seq<u8>,
    cur: Seq<u8>,
    img: Seq<u8>,
    res: Res,
    tile_res: Res,
    ps: nat,
    stride: int,
    n: int,
)
    requires
        tiles_placed(d, cur, img, res, tile_res, ps, stride, n),
    ensures
        same_outside(d, cur, stride, (res.spec_u() * ps) as int, res.spec_v() as int),
{
    assert forall|k: int|
        0 <= k < d.len() && !in_rows(
            k,
            stride,
            (res.spec_u() * ps) as int,
            res.spec_v() as int,
        ) implies #[trigger] d[k] == cur[k] by {
        assert(cur[k] == cur[k]);
    }
}

} // verus!
