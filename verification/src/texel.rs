//! Texel values: how the elements of a pixel are stored, and the arithmetic
//! that is done on them.

use crate::format::{spec_u16_at, spec_u32_at, u16_at, u32_at};
use crate::paint::put;
use crate::types::DataType;
use vstd::prelude::*;

verus! {

/// One step of floating-point arithmetic on stored element values.
///
/// Operands and results are the bit patterns of elements of type `dt`, in the
/// low bits.
#[derive(Debug, Clone, Copy, PartialEq, Eq, Structural)]
pub enum PixelOp {
    /// The mean of two values.
    Halve {
        /// Type of the elements.
        dt: DataType,
        /// First value.
        a: u32,
        /// Second value.
        b: u32,
    },
    /// The mean of four values.
    Quarter {
        /// Type of the elements.
        dt: DataType,
        /// First value.
        a: u32,
        /// Second value.
        b: u32,
        /// Third value.
        c: u32,
        /// Fourth value.
        d: u32,
    },
    /// A color value multiplied by the normalized alpha value.
    Scale {
        /// Type of the elements.
        dt: DataType,
        /// Color value.
        value: u32,
        /// Alpha value.
        alpha: u32,
    },
}

/// Results of floating-point steps.
pub type Arith = spec_fn(PixelOp) -> u32;

/// The results that `math` computes.
pub open spec fn arith<M: Fn(PixelOp) -> u32>(math: M) -> Arith {
    |op: PixelOp| choose|r: u32| math.ensures((op,), r)
}

/// `math` answers every step, and answers one step always alike.
pub open spec fn is_arith<M: Fn(PixelOp) -> u32>(math: M) -> bool {
    &&& forall|op: PixelOp| #[trigger] math.requires((op,))
    &&& forall|op: PixelOp, r: u32| #[trigger]
        math.ensures((op,), r) ==> r == arith(math)(op)
}

/// Bit pattern of the element stored at `off`.
pub open spec fn elem(b: Seq<u8>, off: int, dt: DataType) -> u32 {
    match dt {
        DataType::UInt8 => b[off] as u32,
        DataType::UInt16 | DataType::Half => spec_u16_at(b, off) as u32,
        DataType::Float => spec_u32_at(b, off),
    }
}

/// Stored form of an element: its low bytes, little-endian.
pub open spec fn elem_bytes(v: u32, dt: DataType) -> Seq<u8> {
    match dt {
        DataType::UInt8 => seq![(v % 0x100) as u8],
        DataType::UInt16 | DataType::Half => seq![(v % 0x100) as u8, (v / 0x100 % 0x100) as u8],
        DataType::Float => seq![
            (v % 0x100) as u8,
            (v / 0x100 % 0x100) as u8,
            (v / 0x1_0000 % 0x100) as u8,
            (v / 0x100_0000) as u8,
        ],
    }
}

/// `n` elements in a row, element `i` having the bit pattern `f(i)`.
pub open spec fn elems(n: nat, dt: DataType, f: spec_fn(int) -> u32) -> Seq<u8> {
    let es = dt.spec_size() as int;
    Seq::new(n * dt.spec_size(), |x: int| elem_bytes(f(x / es), dt)[x % es])
}

/// Mean of two elements; integer types round down.
pub open spec fn halve(m: Arith, dt: DataType, a: u32, b: u32) -> u32 {
    match dt {
        DataType::UInt8 | DataType::UInt16 => ((a + b) / 2) as u32,
        DataType::Half | DataType::Float => m(PixelOp::Halve { dt, a, b }),
    }
}

/// Mean of four elements; integer types round down.
pub open spec fn quarter(m: Arith, dt: DataType, a: u32, b: u32, c: u32, d: u32) -> u32 {
    match dt {
        DataType::UInt8 | DataType::UInt16 => ((a + b + c + d) / 4) as u32,
        DataType::Half | DataType::Float => m(PixelOp::Quarter { dt, a, b, c, d }),
    }
}

/// An integer element stays below its type's limit.
pub proof fn lemma_elem_bound(b: Seq<u8>, off: int, dt: DataType)
    ensures
        dt is UInt8 ==> elem(b, off, dt) <= 0xff,
        dt is UInt16 || dt is Half ==> elem(b, off, dt) <= 0xffff,
{
}

/// Element `i` of a row of elements.
pub proof fn lemma_elems_index(n: nat, dt: DataType, f: spec_fn(int) -> u32, i: int)
    requires
        0 <= i < n,
    ensures
        elems(n, dt, f).len() == n * dt.spec_size(),
        i * dt.spec_size() + dt.spec_size() <= n * dt.spec_size(),
        elems(n, dt, f).subrange(
            i * dt.spec_size(),
            i * dt.spec_size() + dt.spec_size(),
        ) == elem_bytes(f(i), dt),
{
    let es = dt.spec_size() as int;
    assert(i * es + es <= n * es) by (nonlinear_arith)
        requires
            0 <= i < n,
            es > 0,
    ;
    assert(0 <= i * es) by (nonlinear_arith)
        requires
            0 <= i,
            es > 0,
    ;
    let s = elems(n, dt, f).subrange(i * es, i * es + es);
    assert forall|k: int| 0 <= k < es implies s[k] == elem_bytes(f(i), dt)[k] by {
        vstd::arithmetic::div_mod::lemma_fundamental_div_mod_converse(i * es + k, es, i, k);
    }
    assert(s =~= elem_bytes(f(i), dt));
}

/// Read the element at `off`.
pub(crate) fn get_elem(b: &[u8], off: usize, dt: DataType) -> (v: u32)
    requires
        off + dt.spec_size() <= b@.len(),
    ensures
        v == elem(b@, off as int, dt),
{
    match dt {
        DataType::UInt8 => b[off] as u32,
        DataType::UInt16 | DataType::Half => u16_at(b, off) as u32,
        DataType::Float => u32_at(b, off),
    }
}

/// Store an element at `off`.
pub(crate) fn put_elem(b: &mut [u8], off: usize, v: u32, dt: DataType)
    requires
        off + dt.spec_size() <= old(b)@.len(),
    ensures
        final(b)@ == put(old(b)@, off as int, elem_bytes(v, dt)),
{
    b[off] = (v % 0x100) as u8;
    match dt {
        DataType::UInt8 => {},
        DataType::UInt16 | DataType::Half => {
            b[off + 1] = (v / 0x100 % 0x100) as u8;
        },
        DataType::Float => {
            b[off + 1] = (v / 0x100 % 0x100) as u8;
            b[off + 2] = (v / 0x1_0000 % 0x100) as u8;
            b[off + 3] = (v / 0x100_0000) as u8;
        },
    }
    assert(b@ =~= put(old(b)@, off as int, elem_bytes(v, dt)));
}

/// Mean of two elements.
pub(crate) fn halve_sum<M: Fn(PixelOp) -> u32>(math: &M, dt: DataType, a: u32, b: u32) -> (r: u32)
    requires
        is_arith(*math),
        dt is UInt8 || dt is UInt16 ==> a <= 0xffff && b <= 0xffff,
    ensures
        r == halve(arith(*math), dt, a, b),
{
    match dt {
        DataType::UInt8 | DataType::UInt16 => (a + b) / 2,
        DataType::Half | DataType::Float => math(PixelOp::Halve { dt, a, b }),
    }
}

/// Mean of four elements.
pub(crate) fn quarter_sum<M: Fn(PixelOp) -> u32>(
    math: &M,
    dt: DataType,
    a: u32,
    b: u32,
    c: u32,
    d: u32,
) -> (r: u32)
    requires
        is_arith(*math),
        dt is UInt8 || dt is UInt16 ==> a <= 0xffff && b <= 0xffff && c <= 0xffff && d <= 0xffff,
    ensures
        r == quarter(arith(*math), dt, a, b, c, d),
{
    match dt {
        DataType::UInt8 | DataType::UInt16 => (a + b + c + d) / 4,
        DataType::Half | DataType::Float => math(PixelOp::Quarter { dt, a, b, c, d }),
    }
}

} // verus!
