//! Byte runs written into a buffer at given offsets.

use vstd::prelude::*;

verus! {

/// `d` with the bytes `s` written at `off`.
pub open spec fn put(d: Seq<u8>, off: int, s: Seq<u8>) -> Seq<u8> {
    Seq::new(
        d.len(),
        |k: int|
            if off <= k < off + s.len() {
                s[k - off]
            } else {
                d[k]
            },
    )
}

/// `d` after all of `writes`, each an offset and the bytes written there, one
/// after the other.
pub open spec fn put_all(d: Seq<u8>, writes: Seq<(int, Seq<u8>)>) -> Seq<u8>
    decreases writes.len(),
{
    if writes.len() == 0 {
        d
    } else {
        put(put_all(d, writes.drop_last()), writes.last().0, writes.last().1)
    }
}

/// Rows of bytes to be written every `stride` bytes.
pub open spec fn row_writes(rows: Seq<Seq<u8>>, stride: int) -> Seq<(int, Seq<u8>)> {
    Seq::new(rows.len(), |v: int| (v * stride, rows[v]))
}

/// `d` with `rows` written into it, one every `stride` bytes.
pub open spec fn put_rows(d: Seq<u8>, stride: int, rows: Seq<Seq<u8>>) -> Seq<u8> {
    put_all(d, row_writes(rows, stride))
}

/// The `n` rows of `rowlen` bytes that `src` holds, one every `stride` bytes.
pub open spec fn rows_of(src: Seq<u8>, stride: int, rowlen: int, n: nat) -> Seq<Seq<u8>> {
    Seq::new(n, |v: int| src.subrange(v * stride, v * stride + rowlen))
}

/// `byte` lies in the bytes that the write `w` covers.
pub open spec fn covers(w: (int, Seq<u8>), k: int) -> bool {
    w.0 <= k < w.0 + w.1.len()
}

pub proof fn lemma_put_all_len(d: Seq<u8>, writes: Seq<(int, Seq<u8>)>)
    ensures
        put_all(d, writes).len() == d.len(),
    decreases writes.len(),
{
    if writes.len() > 0 {
        lemma_put_all_len(d, writes.drop_last());
    }
}

/// One more write.
pub proof fn lemma_put_all_step(d: Seq<u8>, writes: Seq<(int, Seq<u8>)>, n: int)
    requires
        0 <= n < writes.len(),
    ensures
        put_all(d, writes.take(n + 1)) == put(
            put_all(d, writes.take(n)),
            writes[n].0,
            writes[n].1,
        ),
{
    let w = writes.take(n + 1);
    assert(w.drop_last() =~= writes.take(n));
    assert(w.last() == writes[n]);
}

/// A byte that no write covers keeps its value.
pub proof fn lemma_put_all_untouched(d: Seq<u8>, writes: Seq<(int, Seq<u8>)>, k: int)
    requires
        0 <= k < d.len(),
        forall|i: int| 0 <= i < writes.len() ==> !covers(#[trigger] writes[i], k),
    ensures
        put_all(d, writes)[k] == d[k],
    decreases writes.len(),
{
    lemma_put_all_len(d, writes);
    if writes.len() > 0 {
        let rest = writes.drop_last();
        assert forall|i: int| 0 <= i < rest.len() implies !covers(#[trigger] rest[i], k) by {
            assert(rest[i] == writes[i]);
        }
        lemma_put_all_len(d, rest);
        lemma_put_all_untouched(d, rest, k);
        assert(!covers(writes[writes.len() - 1], k));
    }
}

/// A byte has the value that the last write to cover it gave it.
pub proof fn lemma_put_all_last(d: Seq<u8>, writes: Seq<(int, Seq<u8>)>, k: int, i: int)
    requires
        0 <= k < d.len(),
        0 <= i < writes.len(),
        covers(writes[i], k),
        forall|j: int| i < j < writes.len() ==> !covers(#[trigger] writes[j], k),
    ensures
        put_all(d, writes)[k] == writes[i].1[k - writes[i].0],
    decreases writes.len(),
{
    lemma_put_all_len(d, writes);
    let rest = writes.drop_last();
    lemma_put_all_len(d, rest);
    if i < writes.len() - 1 {
        assert forall|j: int| i < j < rest.len() implies !covers(#[trigger] rest[j], k) by {
            assert(rest[j] == writes[j]);
        }
        lemma_put_all_last(d, rest, k, i);
        assert(!covers(writes[writes.len() - 1], k));
    }
}

/// Writing the next bytes of a run directly behind the bytes already written.
pub proof fn lemma_put_extend(d: Seq<u8>, off: int, s: Seq<u8>, a: int, b: int)
    requires
        0 <= a <= b <= s.len(),
    ensures
        put(put(d, off, s.take(a)), off + a, s.subrange(a, b)) == put(d, off, s.take(b)),
{
    assert(put(put(d, off, s.take(a)), off + a, s.subrange(a, b)) =~= put(d, off, s.take(b)));
}

/// Writing nothing changes nothing.
pub proof fn lemma_put_nothing(d: Seq<u8>, off: int, s: Seq<u8>)
    ensures
        put(d, off, s.take(0)) == d,
{
    assert(put(d, off, s.take(0)) =~= d);
}

/// Rows of `rowlen` bytes that are at least as far apart as they are long do
/// not touch each other: the buffer afterwards, byte by byte.
pub proof fn lemma_put_rows_at(d: Seq<u8>, stride: int, rows: Seq<Seq<u8>>, rowlen: int, k: int)
    requires
        0 <= k < d.len(),
        0 < rowlen <= stride,
        forall|v: int| 0 <= v < rows.len() ==> #[trigger] rows[v].len() == rowlen,
    ensures
        put_rows(d, stride, rows).len() == d.len(),
        k / stride < rows.len() && k % stride < rowlen ==> put_rows(d, stride, rows)[k]
            == rows[k / stride][k % stride],
        !(k / stride < rows.len() && k % stride < rowlen) ==> put_rows(d, stride, rows)[k] == d[k],
{
    let w = row_writes(rows, stride);
    lemma_put_all_len(d, w);
    vstd::arithmetic::div_mod::lemma_fundamental_div_mod(k, stride);
    vstd::arithmetic::div_mod::lemma_mod_bound(k, stride);
    let q = k / stride;
    let r = k % stride;
    assert(q >= 0) by (nonlinear_arith)
        requires
            k >= 0,
            stride > 0,
            q == k / stride,
    ;
    assert forall|j: int| 0 <= j < w.len() && (j != q || r >= rowlen) implies !covers(
        #[trigger] w[j],
        k,
    ) by {
        assert(w[j] == (j * stride, rows[j]));
        if j < q {
            assert(j * stride + stride <= stride * q) by (nonlinear_arith)
                requires
                    j < q,
                    stride > 0,
            ;
        } else if j > q {
            assert(j * stride >= stride * q + stride) by (nonlinear_arith)
                requires
                    j > q,
                    stride > 0,
            ;
        } else {
            assert(j * stride == stride * q) by (nonlinear_arith)
                requires
                    j == q,
            ;
        }
    }
    if q < rows.len() && r < rowlen {
        assert(w[q] == (q * stride, rows[q]));
        assert(q * stride == stride * q) by (nonlinear_arith);
        assert(covers(w[q], k));
        lemma_put_all_last(d, w, k, q);
    } else {
        lemma_put_all_untouched(d, w, k);
    }
}

/// One more row.
pub proof fn lemma_put_rows_step(d: Seq<u8>, stride: int, rows: Seq<Seq<u8>>, n: int)
    requires
        0 <= n < rows.len(),
    ensures
        put_rows(d, stride, rows.take(n + 1)) == put(
            put_rows(d, stride, rows.take(n)),
            n * stride,
            rows[n],
        ),
{
    let w = row_writes(rows, stride);
    assert(row_writes(rows.take(n + 1), stride) =~= w.take(n + 1));
    assert(row_writes(rows.take(n), stride) =~= w.take(n));
    lemma_put_all_step(d, w, n);
}

/// Copy `len` bytes of `src` from `soff` on to `off` in `dst`.
pub(crate) fn put_slice(dst: &mut [u8], off: usize, src: &[u8], soff: usize, len: usize)
    requires
        off + len <= old(dst)@.len(),
        soff + len <= src@.len(),
    ensures
        final(dst)@ == put(old(dst)@, off as int, src@.subrange(soff as int, soff + len)),
{
    let ghost s = src@.subrange(soff as int, soff + len);
    let ghost d0 = dst@;
    let mut i: usize = 0;
    proof {
        lemma_put_nothing(d0, off as int, s);
    }
    while i < len
        invariant
            i <= len,
            s == src@.subrange(soff as int, soff + len),
            soff + len <= src@.len(),
            off + len <= d0.len(),
            dst@ == put(d0, off as int, s.take(i as int)),
        decreases len - i,
    {
        assert(src@.len() == src.len());
        assert(dst@.len() == dst.len());
        let ghost before = dst@;
        dst[off + i] = src[soff + i];
        proof {
            lemma_put_extend(d0, off as int, s, i as int, i + 1);
            assert(dst@ =~= put(before, off + i, s.subrange(i as int, i + 1)));
        }
        i = i + 1;
    }
    assert(s.take(len as int) =~= s);
}

} // verus!
