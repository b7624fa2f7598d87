//! Order of the faces within a reduction level.

use crate::types::FaceInfo;
use vstd::prelude::*;

verus! {

/// Detail of a face: the log2 of its smaller dimension, where constant faces
/// count as 1.
pub open spec fn detail(f: FaceInfo) -> i8 {
    if f.spec_is_constant() {
        1
    } else if f.res.ulog2 <= f.res.vlog2 {
        f.res.ulog2
    } else {
        f.res.vlog2
    }
}

/// How many of the first `n` faces have more detail than `key`.
pub open spec fn count_above(faces: Seq<FaceInfo>, n: nat, key: int) -> nat
    decreases n,
{
    if n == 0 {
        0
    } else {
        count_above(faces, (n - 1) as nat, key) + if detail(faces[n - 1]) > key {
            1nat
        } else {
            0nat
        }
    }
}

/// How many of the first `n` faces have the detail `key`.
pub open spec fn count_equal(faces: Seq<FaceInfo>, n: nat, key: int) -> nat
    decreases n,
{
    if n == 0 {
        0
    } else {
        count_equal(faces, (n - 1) as nat, key) + if detail(faces[n - 1]) == key {
            1nat
        } else {
            0nat
        }
    }
}

/// Position of a face when the faces are sorted by decreasing detail, faces
/// of equal detail in the order of their ids.
pub open spec fn rank(faces: Seq<FaceInfo>, id: int) -> nat {
    count_above(faces, faces.len(), detail(faces[id]) as int) + count_equal(
        faces,
        id as nat,
        detail(faces[id]) as int,
    )
}

/// The ranks of all faces.
pub open spec fn ranks(faces: Seq<FaceInfo>) -> Seq<u32> {
    Seq::new(faces.len(), |id: int| rank(faces, id) as u32)
}

proof fn lemma_count_split(faces: Seq<FaceInfo>, n: nat, key: int)
    ensures
        count_above(faces, n, key - 1) == count_above(faces, n, key) + count_equal(faces, n, key),
    decreases n,
{
    if n > 0 {
        lemma_count_split(faces, (n - 1) as nat, key);
    }
}

proof fn lemma_count_bound(faces: Seq<FaceInfo>, n: nat, key: int)
    ensures
        count_above(faces, n, key) + count_equal(faces, n, key) <= n,
    decreases n,
{
    if n > 0 {
        lemma_count_bound(faces, (n - 1) as nat, key);
    }
}

proof fn lemma_none_above(faces: Seq<FaceInfo>, n: nat)
    ensures
        count_above(faces, n, 127) == 0,
    decreases n,
{
    if n > 0 {
        lemma_none_above(faces, (n - 1) as nat);
    }
}

proof fn lemma_equal_grows(faces: Seq<FaceInfo>, n: nat, m: nat, key: int)
    requires
        n <= m,
    ensures
        count_equal(faces, n, key) <= count_equal(faces, m, key),
    decreases m,
{
    if n < m {
        lemma_equal_grows(faces, n, (m - 1) as nat, key);
    }
}

proof fn lemma_above_falls(faces: Seq<FaceInfo>, n: nat, low: int, high: int)
    requires
        low < high,
    ensures
        count_above(faces, n, low) >= count_above(faces, n, high) + count_equal(faces, n, high),
    decreases n,
{
    if n > 0 {
        lemma_above_falls(faces, (n - 1) as nat, low, high);
    }
}

/// A face with more detail, or with equal detail and a smaller id, comes
/// first.
pub proof fn ranks_are_sorted(faces: Seq<FaceInfo>, a: int, b: int)
    requires
        0 <= a < faces.len(),
        0 <= b < faces.len(),
        detail(faces[a]) > detail(faces[b]) || (detail(faces[a]) == detail(faces[b]) && a < b),
    ensures
        rank(faces, a) < rank(faces, b),
{
    let n = faces.len();
    let ka = detail(faces[a]) as int;
    let kb = detail(faces[b]) as int;
    // face `a` itself is counted among the faces up to it
    assert(count_equal(faces, (a + 1) as nat, ka) == count_equal(faces, a as nat, ka) + 1);
    if ka > kb {
        lemma_above_falls(faces, n, kb, ka);
        lemma_equal_grows(faces, (a + 1) as nat, n, ka);
    } else {
        lemma_equal_grows(faces, (a + 1) as nat, b as nat, ka);
    }
}

/// The ranks are the positions 0 to the number of faces, each taken once:
/// every rank is in that range, and no two faces share one.
pub proof fn ranks_are_a_permutation(faces: Seq<FaceInfo>)
    ensures
        forall|id: int| 0 <= id < faces.len() ==> #[trigger] rank(faces, id) < faces.len(),
        forall|a: int, b: int|
            0 <= a < faces.len() && 0 <= b < faces.len() && a != b ==> #[trigger] rank(faces, a)
                != #[trigger] rank(faces, b),
{
    assert forall|id: int| 0 <= id < faces.len() implies #[trigger] rank(faces, id)
        < faces.len() by {
        let k = detail(faces[id]) as int;
        lemma_equal_grows(faces, (id + 1) as nat, faces.len(), k);
        lemma_count_bound(faces, faces.len(), k);
    }
    assert forall|a: int, b: int|
        0 <= a < faces.len() && 0 <= b < faces.len() && a != b implies #[trigger] rank(faces, a)
        != #[trigger] rank(faces, b) by {
        let ka = detail(faces[a]);
        let kb = detail(faces[b]);
        if ka > kb || (ka == kb && a < b) {
            ranks_are_sorted(faces, a, b);
        } else {
            ranks_are_sorted(faces, b, a);
        }
    }
}

fn slot(f: &FaceInfo) -> (i: usize)
    ensures
        i == detail(*f) + 128,
        i < 256,
{
    let key: i8 = if f.is_constant() {
        1
    } else if f.res.ulog2 <= f.res.vlog2 {
        f.res.ulog2
    } else {
        f.res.vlog2
    };
    (key as i16 + 128) as usize
}

/// Generate the mapping from face id to "reduction face id".
///
/// Reduction levels in the file store faces sorted by decreasing detail;
/// `rfaceids[faceid]` gives the position of a face within a reduction
/// level.  Constant faces are treated as having a res of 1.
pub fn gen_rfaceids(faces: &[FaceInfo]) -> (rfaceids: Vec<u32>)
    requires
        faces@.len() <= u32::MAX,
    ensures
        rfaceids@ == ranks(faces@),
{
    let ghost fs = faces@;
    let nfaces: usize = faces.len();
    // number of faces of each detail
    let mut counts: Vec<u32> = vec![0u32; 256];
    let mut i: usize = 0;
    while i < nfaces
        invariant
            i <= nfaces,
            nfaces == faces@.len(),
            nfaces <= u32::MAX,
            fs == faces@,
            counts@.len() == 256,
            forall|k: int|
                0 <= k < 256 ==> #[trigger] counts@[k] == count_equal(fs, i as nat, k - 128),
        decreases nfaces - i,
    {
        let s: usize = slot(&faces[i]);
        proof {
            lemma_count_bound(fs, i as nat, s - 128);
        }
        let n: u32 = counts[s];
        counts[s] = n + 1;
        i = i + 1;
    }
    // position of the next face of each detail
    let mut next: Vec<u32> = vec![0u32; 256];
    let mut k: usize = 255;
    proof {
        lemma_none_above(fs, nfaces as nat);
    }
    while k > 0
        invariant
            0 <= k < 256,
            nfaces == fs.len(),
            nfaces <= u32::MAX,
            counts@.len() == 256,
            next@.len() == 256,
            forall|j: int|
                0 <= j < 256 ==> #[trigger] counts@[j] == count_equal(fs, nfaces as nat, j - 128),
            forall|j: int|
                k <= j < 256 ==> #[trigger] next@[j] == count_above(fs, nfaces as nat, j - 128),
        decreases k,
    {
        proof {
            lemma_count_split(fs, nfaces as nat, k - 128);
            lemma_count_bound(fs, nfaces as nat, k - 128);
        }
        let n: u32 = next[k] + counts[k];
        next[k - 1] = n;
        k = k - 1;
    }
    let mut rfaceids: Vec<u32> = Vec::with_capacity(nfaces);
    let mut id: usize = 0;
    while id < nfaces
        invariant
            id <= nfaces,
            nfaces == faces@.len(),
            nfaces <= u32::MAX,
            fs == faces@,
            next@.len() == 256,
            forall|j: int|
                0 <= j < 256 ==> #[trigger] next@[j] == count_above(fs, nfaces as nat, j - 128)
                    + count_equal(fs, id as nat, j - 128),
            rfaceids@ == ranks(fs).take(id as int),
        decreases nfaces - id,
    {
        let s: usize = slot(&faces[id]);
        proof {
            lemma_equal_grows(fs, (id + 1) as nat, nfaces as nat, s - 128);
            lemma_count_bound(fs, nfaces as nat, s - 128);
        }
        let r: u32 = next[s];
        rfaceids.push(r);
        next[s] = r + 1;
        assert(rfaceids@ =~= ranks(fs).take(id + 1));
        id = id + 1;
    }
    assert(ranks(fs).take(nfaces as int) =~= ranks(fs));
    rfaceids
}

} // verus!
