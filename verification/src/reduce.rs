//! Box-filter reductions of images.

use crate::paint::{
    lemma_put_extend, lemma_put_nothing, lemma_put_rows_step, put, put_rows, row_writes,
};
use crate::texel::{
    arith, elem, elems, get_elem, halve, halve_sum, is_arith, lemma_elem_bound,
    lemma_elems_index, put_elem, quarter, quarter_sum, Arith, PixelOp,
};
use crate::types::DataType;
use crate::utils::{lemma_grid, lemma_grid_end, lemma_rows_fit, lemma_scaled, rows_fit};
use vstd::prelude::*;

verus! {

/// A box-filter reduction of an image.
#[derive(Debug, Clone, Copy, PartialEq, Eq, Structural)]
pub enum Kernel {
    /// Blend blocks of 2x2 texels.
    Both,
    /// Blend pairs of texels in u.
    U,
    /// Blend pairs of texels in v.
    V,
    /// Blend the texels of a packed-triangle texture.
    Tri,
}

impl Kernel {
    /// Columns of the result.
    pub open spec fn cols(self, uw: int) -> int {
        match self {
            Kernel::Both | Kernel::U | Kernel::Tri => uw / 2,
            Kernel::V => uw,
        }
    }

    /// Rows of the result.
    pub open spec fn rows(self, uw: int, vw: int) -> int {
        match self {
            Kernel::Both | Kernel::V => vw / 2,
            Kernel::U => vw,
            Kernel::Tri => uw / 2,
        }
    }

    /// Columns of the source that are read.
    pub open spec fn src_cols(self, uw: int) -> int {
        match self {
            Kernel::Both | Kernel::U => 2 * (uw / 2),
            Kernel::V | Kernel::Tri => uw,
        }
    }

    /// Rows of the source that are read.
    pub open spec fn src_rows(self, uw: int, vw: int) -> int {
        match self {
            Kernel::Both | Kernel::V => 2 * (vw / 2),
            Kernel::U => vw,
            Kernel::Tri => uw,
        }
    }

    /// The source holds every texel that is read, and the destination every
    /// texel that is written.
    pub open spec fn fits(
        self,
        src_len: nat,
        sstride: int,
        uw: int,
        vw: int,
        dst_len: nat,
        dstride: int,
        dt: DataType,
        nchan: int,
    ) -> bool {
        let es = dt.spec_size() as int;
        self.rows(uw, vw) > 0 ==> {
            &&& (self.src_rows(uw, vw) - 1) * sstride + self.src_cols(uw) * nchan * es <= src_len
            &&& (self.rows(uw, vw) - 1) * dstride + self.cols(uw) * nchan * es <= dst_len
        }
    }
}

/// Channel `c` of the texel in column `col` of row `row`.
pub open spec fn texel(
    src: Seq<u8>,
    sstride: int,
    dt: DataType,
    nchan: int,
    row: int,
    col: int,
    c: int,
) -> u32 {
    elem(src, row * sstride + (col * nchan + c) * dt.spec_size(), dt)
}

/// Channel `c` of texel (`u`, `v`) of the reduced image.
///
/// A triangle texture of size w x w packs two triangles per quad: texel
/// (u, v) with u + v < w belongs to the "upright" triangle and texel
/// (w-1-v, w-1-u) is its mirrored counterpart.  The reduction averages three
/// texels of a 2x2 block with the one mirrored texel that completes the
/// triangle.
pub open spec fn reduced_elem(
    kernel: Kernel,
    m: Arith,
    src: Seq<u8>,
    sstride: int,
    uw: int,
    dt: DataType,
    nchan: int,
    v: int,
    u: int,
    c: int,
) -> u32 {
    let at = |row: int, col: int| texel(src, sstride, dt, nchan, row, col, c);
    match kernel {
        Kernel::Both => quarter(
            m,
            dt,
            at(2 * v, 2 * u),
            at(2 * v, 2 * u + 1),
            at(2 * v + 1, 2 * u),
            at(2 * v + 1, 2 * u + 1),
        ),
        Kernel::U => halve(m, dt, at(v, 2 * u), at(v, 2 * u + 1)),
        Kernel::V => halve(m, dt, at(2 * v, u), at(2 * v + 1, u)),
        Kernel::Tri => quarter(
            m,
            dt,
            at(2 * v, 2 * u),
            at(2 * v, 2 * u + 1),
            at(2 * v + 1, 2 * u),
            at(uw - 1 - 2 * u, uw - 1 - 2 * v),
        ),
    }
}

/// Row `v` of the reduced image.
pub open spec fn reduced_row(
    kernel: Kernel,
    m: Arith,
    src: Seq<u8>,
    sstride: int,
    uw: int,
    dt: DataType,
    nchan: int,
    v: int,
) -> Seq<u8> {
    elems(
        (kernel.cols(uw) * nchan) as nat,
        dt,
        |i: int| reduced_elem(kernel, m, src, sstride, uw, dt, nchan, v, i / nchan, i % nchan),
    )
}

/// The rows of the reduced image.
pub open spec fn reduced_rows(
    kernel: Kernel,
    m: Arith,
    src: Seq<u8>,
    sstride: int,
    uw: int,
    vw: int,
    dt: DataType,
    nchan: int,
) -> Seq<Seq<u8>> {
    Seq::new(
        kernel.rows(uw, vw) as nat,
        |v: int| reduced_row(kernel, m, src, sstride, uw, dt, nchan, v),
    )
}

proof fn lemma_texel_inside(
    row: int,
    col: int,
    c: int,
    nrows: int,
    ncols: int,
    nchan: int,
    es: int,
    sstride: int,
    len: nat,
)
    requires
        0 <= row < nrows,
        0 <= col < ncols,
        0 <= c < nchan,
        0 < es,
        0 <= sstride,
        (nrows - 1) * sstride + ncols * nchan * es <= len,
    ensures
        0 <= row * sstride,
        0 <= col * nchan,
        0 <= (col * nchan + c) * es,
        row * sstride + (col * nchan + c) * es + es <= len,
{
    lemma_scaled(0, row, sstride);
    lemma_scaled(row, nrows - 1, sstride);
    lemma_grid(col, c, ncols, nchan);
    lemma_grid(col * nchan + c, 0, ncols * nchan, es);
}

fn get_texel(
    src: &[u8],
    sstride: usize,
    dt: DataType,
    nchan: usize,
    row: usize,
    col: usize,
    c: usize,
) -> (r: u32)
    requires
        0 <= row * sstride,
        0 <= col * nchan,
        0 <= (col * nchan + c) * dt.spec_size(),
        row * sstride + (col * nchan + c) * dt.spec_size() + dt.spec_size() <= src@.len(),
    ensures
        r == texel(src@, sstride as int, dt, nchan as int, row as int, col as int, c as int),
        dt is UInt8 || dt is UInt16 ==> r <= 0xffff,
{
    assert(src@.len() == src.len());
    let es: usize = dt.size();
    assert(col * nchan + c <= (col * nchan + c) * es) by (nonlinear_arith)
        requires
            0 <= col * nchan + c,
            1 <= es,
    ;
    let off: usize = row * sstride + (col * nchan + c) * es;
    proof {
        lemma_elem_bound(src@, off as int, dt);
    }
    get_elem(src, off, dt)
}

/// Channel `c` of texel (`u`, `v`) of the reduced image.
fn blend<M: Fn(PixelOp) -> u32>(
    kernel: Kernel,
    src: &[u8],
    sstride: usize,
    uw: usize,
    vw: usize,
    dt: DataType,
    nchan: usize,
    v: usize,
    u: usize,
    c: usize,
    math: &M,
) -> (value: u32)
    requires
        is_arith(*math),
        v < kernel.rows(uw as int, vw as int),
        u < kernel.cols(uw as int),
        c < nchan,
        (kernel.src_rows(uw as int, vw as int) - 1) * sstride + kernel.src_cols(uw as int) * nchan
            * dt.spec_size() <= src@.len(),
    ensures
        value == reduced_elem(
            kernel,
            arith(*math),
            src@,
            sstride as int,
            uw as int,
            dt,
            nchan as int,
            v as int,
            u as int,
            c as int,
        ),
{
    proof {
        lemma_samples(
            kernel,
            v as int,
            u as int,
            c as int,
            uw as int,
            vw as int,
            nchan as int,
            dt.spec_size() as int,
            sstride as int,
            src@.len(),
        );
    }
    match kernel {
        Kernel::Both => quarter_sum(
            math,
            dt,
            get_texel(src, sstride, dt, nchan, 2 * v, 2 * u, c),
            get_texel(src, sstride, dt, nchan, 2 * v, 2 * u + 1, c),
            get_texel(src, sstride, dt, nchan, 2 * v + 1, 2 * u, c),
            get_texel(src, sstride, dt, nchan, 2 * v + 1, 2 * u + 1, c),
        ),
        Kernel::U => halve_sum(
            math,
            dt,
            get_texel(src, sstride, dt, nchan, v, 2 * u, c),
            get_texel(src, sstride, dt, nchan, v, 2 * u + 1, c),
        ),
        Kernel::V => halve_sum(
            math,
            dt,
            get_texel(src, sstride, dt, nchan, 2 * v, u, c),
            get_texel(src, sstride, dt, nchan, 2 * v + 1, u, c),
        ),
        Kernel::Tri => quarter_sum(
            math,
            dt,
            get_texel(src, sstride, dt, nchan, 2 * v, 2 * u, c),
            get_texel(src, sstride, dt, nchan, 2 * v, 2 * u + 1, c),
            get_texel(src, sstride, dt, nchan, 2 * v + 1, 2 * u, c),
            get_texel(src, sstride, dt, nchan, uw - 1 - 2 * u, uw - 1 - 2 * v, c),
        ),
    }
}

/// Write row `v` of the reduced image at `base`.
fn reduce_row<M: Fn(PixelOp) -> u32>(
    kernel: Kernel,
    src: &[u8],
    sstride: usize,
    uw: usize,
    vw: usize,
    dst: &mut [u8],
    base: usize,
    dt: DataType,
    nchan: usize,
    v: usize,
    math: &M,
)
    requires
        is_arith(*math),
        v < kernel.rows(uw as int, vw as int),
        (kernel.src_rows(uw as int, vw as int) - 1) * sstride + kernel.src_cols(uw as int) * nchan
            * dt.spec_size() <= src@.len(),
        base + kernel.cols(uw as int) * nchan * dt.spec_size() <= old(dst)@.len(),
    ensures
        final(dst)@ == put(
            old(dst)@,
            base as int,
            reduced_row(
                kernel,
                arith(*math),
                src@,
                sstride as int,
                uw as int,
                dt,
                nchan as int,
                v as int,
            ),
        ),
{
    let ghost m = arith(*math);
    let ghost d0 = dst@;
    let es: usize = dt.size();
    let ncols: usize = match kernel {
        Kernel::Both | Kernel::U | Kernel::Tri => uw / 2,
        Kernel::V => uw,
    };
    let ghost f = |i: int|
        reduced_elem(
            kernel,
            m,
            src@,
            sstride as int,
            uw as int,
            dt,
            nchan as int,
            v as int,
            i / nchan as int,
            i % nchan as int,
        );
    let ghost count = (ncols * nchan) as nat;
    let ghost row = elems(count, dt, f);
    proof {
        lemma_scaled(0, ncols as int, nchan as int);
        assert(row =~= reduced_row(
            kernel,
            m,
            src@,
            sstride as int,
            uw as int,
            dt,
            nchan as int,
            v as int,
        ));
        lemma_put_nothing(d0, base as int, row);
        assert(0 * nchan * es == 0);
        assert(dst@.len() == dst.len());
    }
    let mut done: usize = 0;
    let mut u: usize = 0;
    while u < ncols
        invariant
            u <= ncols,
            is_arith(*math),
            m == arith(*math),
            es == dt.spec_size(),
            1 <= es <= 4,
            ncols == kernel.cols(uw as int),
            v < kernel.rows(uw as int, vw as int),
            (kernel.src_rows(uw as int, vw as int) - 1) * sstride + kernel.src_cols(uw as int)
                * nchan * es <= src@.len(),
            base + ncols * nchan * es <= d0.len(),
            d0.len() <= usize::MAX,
            dst@.len() == d0.len(),
            count == ncols * nchan,
            f == |i: int|
                reduced_elem(
                    kernel,
                    m,
                    src@,
                    sstride as int,
                    uw as int,
                    dt,
                    nchan as int,
                    v as int,
                    i / nchan as int,
                    i % nchan as int,
                ),
            row == elems(count, dt, f),
            done == u * nchan * es,
            dst@ == put(d0, base as int, row.take(done as int)),
        decreases ncols - u,
    {
        let mut c: usize = 0;
        while c < nchan
            invariant
                c <= nchan,
                u < ncols,
                is_arith(*math),
                m == arith(*math),
                es == dt.spec_size(),
                1 <= es <= 4,
                ncols == kernel.cols(uw as int),
                v < kernel.rows(uw as int, vw as int),
                (kernel.src_rows(uw as int, vw as int) - 1) * sstride + kernel.src_cols(uw as int)
                    * nchan * es <= src@.len(),
                base + ncols * nchan * es <= d0.len(),
                d0.len() <= usize::MAX,
                dst@.len() == d0.len(),
                count == ncols * nchan,
                f == |i: int|
                    reduced_elem(
                        kernel,
                        m,
                        src@,
                        sstride as int,
                        uw as int,
                        dt,
                        nchan as int,
                        v as int,
                        i / nchan as int,
                        i % nchan as int,
                    ),
                row == elems(count, dt, f),
                done == (u * nchan + c) * es,
                dst@ == put(d0, base as int, row.take(done as int)),
            decreases nchan - c,
        {
            let ghost i = u * nchan + c;
            proof {
                lemma_grid(u as int, c as int, ncols as int, nchan as int);
                lemma_grid_end(i, ncols * nchan, es as int);
                lemma_elems_index(count, dt, f, i);
                lemma_put_extend(d0, base as int, row, i * es, i * es + es);
            }
            let value: u32 = blend(kernel, src, sstride, uw, vw, dt, nchan, v, u, c, math);
            assert(value == f(i));
            put_elem(dst, base + done, value, dt);
            done = done + es;
            c = c + 1;
        }
        assert(u * nchan + nchan == (u + 1) * nchan) by (nonlinear_arith);
        u = u + 1;
    }
    assert(row.take(done as int) =~= row);
}

/// Reduce an image with the given kernel.
///
/// `math` does the arithmetic on elements of floating-point type.
pub fn reduce_with<M: Fn(PixelOp) -> u32>(
    kernel: Kernel,
    src: &[u8],
    sstride: usize,
    uw: usize,
    vw: usize,
    dst: &mut [u8],
    dstride: usize,
    dt: DataType,
    nchan: usize,
    math: &M,
)
    requires
        is_arith(*math),
        kernel.fits(
            src@.len(),
            sstride as int,
            uw as int,
            vw as int,
            old(dst)@.len(),
            dstride as int,
            dt,
            nchan as int,
        ),
    ensures
        final(dst)@ == put_rows(
            old(dst)@,
            dstride as int,
            reduced_rows(
                kernel,
                arith(*math),
                src@,
                sstride as int,
                uw as int,
                vw as int,
                dt,
                nchan as int,
            ),
        ),
{
    let ghost d0 = dst@;
    let ghost rows = reduced_rows(
        kernel,
        arith(*math),
        src@,
        sstride as int,
        uw as int,
        vw as int,
        dt,
        nchan as int,
    );
    let ghost rowlen = kernel.cols(uw as int) * nchan * dt.spec_size();
    let nrows: usize = match kernel {
        Kernel::Both | Kernel::V => vw / 2,
        Kernel::U => vw,
        Kernel::Tri => uw / 2,
    };
    assert(dst@.len() == dst.len());
    let mut v: usize = 0;
    assert(row_writes(rows.take(0), dstride as int) =~= Seq::empty());
    while v < nrows
        invariant
            v <= nrows,
            is_arith(*math),
            nrows == kernel.rows(uw as int, vw as int),
            rowlen == kernel.cols(uw as int) * nchan * dt.spec_size(),
            nrows > 0 ==> (kernel.src_rows(uw as int, vw as int) - 1) * sstride + kernel.src_cols(
                uw as int,
            ) * nchan * dt.spec_size() <= src@.len(),
            rows_fit(nrows as int, dstride as int, rowlen, d0.len()),
            rows == reduced_rows(
                kernel,
                arith(*math),
                src@,
                sstride as int,
                uw as int,
                vw as int,
                dt,
                nchan as int,
            ),
            d0.len() <= usize::MAX,
            dst@.len() == d0.len(),
            dst@ == put_rows(d0, dstride as int, rows.take(v as int)),
        decreases nrows - v,
    {
        proof {
            lemma_rows_fit(v as int, nrows as int, dstride as int, rowlen, d0.len());
            lemma_put_rows_step(d0, dstride as int, rows, v as int);
            lemma_scaled(0, kernel.cols(uw as int), nchan as int);
            lemma_scaled(0, kernel.cols(uw as int) * nchan, dt.spec_size() as int);
        }
        reduce_row(kernel, src, sstride, uw, vw, dst, v * dstride, dt, nchan, v, math);
        v = v + 1;
    }
    assert(rows.take(nrows as int) =~= rows);
}

/// Every texel that goes into texel (`u`, `v`) of the result lies inside the
/// source.
proof fn lemma_samples(
    kernel: Kernel,
    v: int,
    u: int,
    c: int,
    uw: int,
    vw: int,
    nchan: int,
    es: int,
    sstride: int,
    len: nat,
)
    requires
        0 <= v < kernel.rows(uw, vw),
        0 <= u < kernel.cols(uw),
        0 <= c < nchan,
        0 < es,
        0 <= sstride,
        (kernel.src_rows(uw, vw) - 1) * sstride + kernel.src_cols(uw) * nchan * es <= len,
    ensures
        forall|row: int, col: int|
            is_sample(kernel, v, u, uw, row, col) ==> {
                &&& 0 <= #[trigger] (row * sstride)
                &&& 0 <= #[trigger] (col * nchan)
                &&& 0 <= (col * nchan + c) * es
                &&& row * sstride + (col * nchan + c) * es + es <= len
            },
{
    assert forall|row: int, col: int| is_sample(kernel, v, u, uw, row, col) implies {
        &&& 0 <= #[trigger] (row * sstride)
        &&& 0 <= #[trigger] (col * nchan)
        &&& 0 <= (col * nchan + c) * es
        &&& row * sstride + (col * nchan + c) * es + es <= len
    } by {
        lemma_texel_inside(
            row,
            col,
            c,
            kernel.src_rows(uw, vw),
            kernel.src_cols(uw),
            nchan,
            es,
            sstride,
            len,
        );
    }
}

/// The texel in column `col` of row `row` goes into texel (`u`, `v`) of the
/// result.
pub open spec fn is_sample(kernel: Kernel, v: int, u: int, uw: int, row: int, col: int) -> bool {
    match kernel {
        Kernel::Both => 2 * v <= row <= 2 * v + 1 && 2 * u <= col <= 2 * u + 1,
        Kernel::U => row == v && 2 * u <= col <= 2 * u + 1,
        Kernel::V => 2 * v <= row <= 2 * v + 1 && col == u,
        Kernel::Tri => (row == 2 * v && 2 * u <= col <= 2 * u + 1) || (row == 2 * v + 1 && col == 2
            * u) || (row == uw - 1 - 2 * u && col == uw - 1 - 2 * v),
    }
}

/// Integer elements are averaged without floating-point arithmetic.
pub proof fn lemma_integer_reduction(
    kernel: Kernel,
    m1: Arith,
    m2: Arith,
    src: Seq<u8>,
    sstride: int,
    uw: int,
    vw: int,
    dt: DataType,
    nchan: int,
)
    requires
        dt is UInt8 || dt is UInt16,
    ensures
        reduced_rows(kernel, m1, src, sstride, uw, vw, dt, nchan) == reduced_rows(
            kernel,
            m2,
            src,
            sstride,
            uw,
            vw,
            dt,
            nchan,
        ),
{
    let a = reduced_rows(kernel, m1, src, sstride, uw, vw, dt, nchan);
    let b = reduced_rows(kernel, m2, src, sstride, uw, vw, dt, nchan);
    assert forall|v: int| 0 <= v < a.len() implies a[v] == b[v] by {
        assert(a[v] =~= b[v]);
    }
    assert(a =~= b);
}

/// Reduce an image of integer elements with the given kernel.
fn reduce_integers(
    kernel: Kernel,
    src: &[u8],
    sstride: usize,
    uw: usize,
    vw: usize,
    dst: &mut [u8],
    dstride: usize,
    dt: DataType,
    nchan: usize,
)
    requires
        dt is UInt8 || dt is UInt16,
        kernel.fits(
            src@.len(),
            sstride as int,
            uw as int,
            vw as int,
            old(dst)@.len(),
            dstride as int,
            dt,
            nchan as int,
        ),
    ensures
        forall|m: Arith|
            final(dst)@ == put_rows(
                old(dst)@,
                dstride as int,
                #[trigger] reduced_rows(
                    kernel,
                    m,
                    src@,
                    sstride as int,
                    uw as int,
                    vw as int,
                    dt,
                    nchan as int,
                ),
            ),
{
    let math = |op: PixelOp| -> (r: u32)
        ensures
            r == 0,
        { 0 };
    let ghost d0 = dst@;
    assert(is_arith(math)) by {
        assert forall|op: PixelOp, r: u32| #[trigger] math.ensures((op,), r) implies r == arith(
            math,
        )(op) by {
            let chosen = choose|r: u32| math.ensures((op,), r);
            assert(math.ensures((op,), chosen));
        }
    }
    reduce_with(kernel, src, sstride, uw, vw, dst, dstride, dt, nchan, &math);
    proof {
        assert forall|m: Arith|
            dst@ == put_rows(
                d0,
                dstride as int,
                #[trigger] reduced_rows(
                    kernel,
                    m,
                    src@,
                    sstride as int,
                    uw as int,
                    vw as int,
                    dt,
                    nchan as int,
                ),
            ) by {
            lemma_integer_reduction(
                kernel,
                m,
                arith(math),
                src@,
                sstride as int,
                uw as int,
                vw as int,
                dt,
                nchan as int,
            );
        }
    }
}

/// 2x2 box-filter reduction of a `uw x vw` image into a `uw/2 x vw/2` image.
///
/// For elements of integer type; [`reduce_with`] takes floating-point ones.
pub fn reduce(
    src: &[u8],
    sstride: usize,
    uw: usize,
    vw: usize,
    dst: &mut [u8],
    dstride: usize,
    dt: DataType,
    nchan: usize,
)
    requires
        dt is UInt8 || dt is UInt16,
        Kernel::Both.fits(
            src@.len(),
            sstride as int,
            uw as int,
            vw as int,
            old(dst)@.len(),
            dstride as int,
            dt,
            nchan as int,
        ),
    ensures
        forall|m: Arith|
            final(dst)@ == put_rows(
                old(dst)@,
                dstride as int,
                #[trigger] reduced_rows(
                    Kernel::Both,
                    m,
                    src@,
                    sstride as int,
                    uw as int,
                    vw as int,
                    dt,
                    nchan as int,
                ),
            ),
{
    reduce_integers(Kernel::Both, src, sstride, uw, vw, dst, dstride, dt, nchan)
}

/// Reduction in the u direction only (`uw x vw` -> `uw/2 x vw`).
///
/// For elements of integer type; [`reduce_with`] takes floating-point ones.
pub fn reduce_u(
    src: &[u8],
    sstride: usize,
    uw: usize,
    vw: usize,
    dst: &mut [u8],
    dstride: usize,
    dt: DataType,
    nchan: usize,
)
    requires
        dt is UInt8 || dt is UInt16,
        Kernel::U.fits(
            src@.len(),
            sstride as int,
            uw as int,
            vw as int,
            old(dst)@.len(),
            dstride as int,
            dt,
            nchan as int,
        ),
    ensures
        forall|m: Arith|
            final(dst)@ == put_rows(
                old(dst)@,
                dstride as int,
                #[trigger] reduced_rows(
                    Kernel::U,
                    m,
                    src@,
                    sstride as int,
                    uw as int,
                    vw as int,
                    dt,
                    nchan as int,
                ),
            ),
{
    reduce_integers(Kernel::U, src, sstride, uw, vw, dst, dstride, dt, nchan)
}

/// Reduction in the v direction only (`uw x vw` -> `uw x vw/2`).
///
/// For elements of integer type; [`reduce_with`] takes floating-point ones.
pub fn reduce_v(
    src: &[u8],
    sstride: usize,
    uw: usize,
    vw: usize,
    dst: &mut [u8],
    dstride: usize,
    dt: DataType,
    nchan: usize,
)
    requires
        dt is UInt8 || dt is UInt16,
        Kernel::V.fits(
            src@.len(),
            sstride as int,
            uw as int,
            vw as int,
            old(dst)@.len(),
            dstride as int,
            dt,
            nchan as int,
        ),
    ensures
        forall|m: Arith|
            final(dst)@ == put_rows(
                old(dst)@,
                dstride as int,
                #[trigger] reduced_rows(
                    Kernel::V,
                    m,
                    src@,
                    sstride as int,
                    uw as int,
                    vw as int,
                    dt,
                    nchan as int,
                ),
            ),
{
    reduce_integers(Kernel::V, src, sstride, uw, vw, dst, dstride, dt, nchan)
}

/// Reduction of a packed-triangle texture (`w x w` -> `w/2 x w/2`).
///
/// For elements of integer type; [`reduce_with`] takes floating-point ones.
pub fn reduce_tri(
    src: &[u8],
    sstride: usize,
    w: usize,
    _vw: usize,
    dst: &mut [u8],
    dstride: usize,
    dt: DataType,
    nchan: usize,
)
    requires
        dt is UInt8 || dt is UInt16,
        Kernel::Tri.fits(
            src@.len(),
            sstride as int,
            w as int,
            _vw as int,
            old(dst)@.len(),
            dstride as int,
            dt,
            nchan as int,
        ),
    ensures
        forall|m: Arith|
            final(dst)@ == put_rows(
                old(dst)@,
                dstride as int,
                #[trigger] reduced_rows(
                    Kernel::Tri,
                    m,
                    src@,
                    sstride as int,
                    w as int,
                    _vw as int,
                    dt,
                    nchan as int,
                ),
            ),
{
    reduce_integers(Kernel::Tri, src, sstride, w, _vw, dst, dstride, dt, nchan)
}

} // verus!
