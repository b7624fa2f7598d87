//! How numbers and pixels are laid out in bytes.

use crate::decode::image_size;
use crate::file_info::InfoView;
use crate::format::{spec_u16_at, spec_u32_at, spec_u64_at};
use crate::texel::{elem, elem_bytes};
use crate::types::{DataType, Res};
use crate::utils::{lemma_grid, lemma_grid_end};
use vstd::arithmetic::power2::pow2;
use vstd::prelude::*;

verus! {

/// The number that the `n` bytes at `off` make up, the least significant byte
/// coming first.
pub open spec fn number_at(b: Seq<u8>, off: int, n: nat) -> nat
    decreases n,
{
    if n == 0 {
        0
    } else {
        b[off] as nat + 0x100 * number_at(b, off + 1, (n - 1) as nat)
    }
}

/// The signed number with the given bit pattern of `bits` bits.
pub open spec fn signed(n: nat, bits: nat) -> int {
    if 2 * n < pow2(bits) {
        n as int
    } else {
        n - pow2(bits)
    }
}

/// Channel `c` of texel (`u`, `v`) of an image: texels are stored row by row,
/// the channels of a texel next to each other.
pub open spec fn channel(info: InfoView, img: Seq<u8>, res: Res, u: int, v: int, c: int) -> u32 {
    number_at(
        img,
        ((v * res.spec_u() + u) * info.nchannels() + c) * info.data_type.spec_size(),
        info.data_type.spec_size(),
    ) as u32
}

/// The numbers of a file are stored with the least significant byte first.
pub proof fn numbers_are_little_endian(b: Seq<u8>, off: int)
    ensures
        spec_u16_at(b, off) == number_at(b, off, 2),
        spec_u32_at(b, off) == number_at(b, off, 4),
        spec_u64_at(b, off) == number_at(b, off, 8),
{
    reveal_with_fuel(number_at, 9);
}

/// Elements are stored with the least significant byte first, in as many bytes
/// as their type has.
pub proof fn elements_are_little_endian(b: Seq<u8>, off: int, dt: DataType)
    ensures
        elem(b, off, dt) == number_at(b, off, dt.spec_size()),
        number_at(b, off, dt.spec_size()) < pow2(8 * dt.spec_size()),
{
    reveal_with_fuel(number_at, 5);
    vstd::arithmetic::power2::lemma2_to64();
}

/// An element that is stored is read back, but for bits that its type does not
/// have.
pub proof fn stored_element_is_read_back(value: u32, dt: DataType)
    ensures
        elem_bytes(value, dt).len() == dt.spec_size(),
        number_at(elem_bytes(value, dt), 0, dt.spec_size()) == match dt {
            DataType::UInt8 => value as int % 0x100,
            DataType::UInt16 => value as int % 0x1_0000,
            DataType::Half => value as int % 0x1_0000,
            DataType::Float => value as int,
        },
{
    reveal_with_fuel(number_at, 5);
    vstd::arithmetic::power2::lemma2_to64();
    assert(elem_bytes(value, dt).len() == dt.spec_size());
    let b = elem_bytes(value, dt);
    match dt {
        DataType::UInt8 => {
            assert(b[0] == (value % 0x100) as u8);
            assert(number_at(b, 0, 1) == b[0] as nat);
        },
        DataType::UInt16 | DataType::Half => {
            assert(number_at(b, 0, 2) == b[0] as nat + 0x100 * b[1] as nat);
            assert(value % 0x1_0000 == value % 0x100 + 0x100 * (value / 0x100 % 0x100));
        },
        DataType::Float => {
            assert(number_at(b, 0, 4) == b[0] as nat + 0x100 * (b[1] as nat + 0x100 * (b[2] as nat
                + 0x100 * b[3] as nat)));
            assert(value / 0x1_0000 == value / 0x1_0000 % 0x100 + 0x100 * (value / 0x100_0000));
            assert(value == value % 0x1_0000 + 0x1_0000 * (value / 0x1_0000));
            assert(value % 0x1_0000 == value % 0x100 + 0x100 * (value / 0x100 % 0x100));
        },
    }
}

/// Sizes of the element types: a byte, two bytes for the 16-bit types, four for
/// single-precision numbers.
pub proof fn element_sizes(dt: DataType)
    ensures
        dt.spec_size() == match dt {
            DataType::UInt8 => 1nat,
            DataType::UInt16 => 2nat,
            DataType::Half => 2nat,
            DataType::Float => 4nat,
        },
{
}

/// A resolution is given by the logarithms of its dimensions, of which five bits
/// count.
pub proof fn dimensions_are_powers_of_two(res: Res)
    ensures
        res.spec_u() == pow2((res.ulog2 as int % 32) as nat),
        res.spec_v() == pow2((res.vlog2 as int % 32) as nat),
        0 <= res.ulog2 < 32 ==> res.spec_u() == pow2(res.ulog2 as nat),
        0 <= res.vlog2 < 32 ==> res.spec_v() == pow2(res.vlog2 as nat),
        res.spec_size() == res.spec_u() * res.spec_v(),
        res.spec_u() > 0,
        res.spec_v() > 0,
{
    crate::types::lemma_dims(res);
}

/// Numbers in equal bytes are equal.
pub proof fn lemma_same_number(a: Seq<u8>, i: int, b: Seq<u8>, j: int, n: nat)
    requires
        forall|k: int| 0 <= k < n ==> #[trigger] a[i + k] == b[j + k],
    ensures
        number_at(a, i, n) == number_at(b, j, n),
    decreases n,
{
    if n > 0 {
        assert(a[i + 0] == b[j + 0]);
        assert forall|k: int| 0 <= k < n - 1 implies #[trigger] a[i + 1 + k] == b[j + 1 + k] by {
            assert(a[i + (k + 1)] == b[j + (k + 1)]);
        }
        lemma_same_number(a, i + 1, b, j + 1, (n - 1) as nat);
    }
}

/// Where a channel of a texel is: in its row, and inside the image.
pub proof fn lemma_channel_place(info: InfoView, res: Res, u: int, v: int, c: int)
    requires
        info.pixel_size == info.data_type.spec_size() * info.nchannels(),
        0 <= u < res.spec_u(),
        0 <= v < res.spec_v(),
        0 <= c < info.nchannels(),
    ensures
        ({
            let es = info.data_type.spec_size() as int;
            let nc = info.nchannels() as int;
            let ps = info.pixel_size as int;
            let at = ((v * res.spec_u() + u) * nc + c) * es;
            &&& at == v * (res.spec_u() * ps) + (u * nc + c) * es
            &&& at == (v * res.spec_u() + u) * ps + c * es
            &&& 0 <= at
            &&& at + es <= image_size(info, res)
            &&& 0 <= c * es
            &&& c * es + es <= ps
            &&& 0 <= (v * res.spec_u() + u) * ps
            &&& (v * res.spec_u() + u) * ps + ps <= image_size(info, res)
            &&& 0 <= v * res.spec_u() + u < res.spec_size()
        }),
{
    let es = info.data_type.spec_size() as int;
    let nc = info.nchannels() as int;
    let ps = info.pixel_size as int;
    let uw = res.spec_u() as int;
    let vw = res.spec_v() as int;
    let n = v * uw + u;
    lemma_grid(v, u, vw, uw);
    lemma_grid_end(n, vw * uw, ps);
    lemma_grid_end(c, nc, es);
    assert(vw * uw == uw * vw) by (nonlinear_arith);
    assert((n * nc + c) * es == n * ps + c * es) by (nonlinear_arith)
        requires
            ps == es * nc,
    ;
    assert(n * ps + c * es == v * (uw * ps) + (u * nc + c) * es) by (nonlinear_arith)
        requires
            ps == es * nc,
            n == v * uw + u,
    ;
    assert(nc * es == es * nc) by (nonlinear_arith);
}

/// An integer channel stays below its type's limit.
pub proof fn lemma_channel_bound(
    info: InfoView,
    img: Seq<u8>,
    res: Res,
    u: int,
    v: int,
    c: int,
)
    ensures
        channel(info, img, res, u, v, c) < pow2(8 * info.data_type.spec_size()),
{
    elements_are_little_endian(
        img,
        ((v * res.spec_u() + u) * info.nchannels() + c) * info.data_type.spec_size(),
        info.data_type,
    );
}

/// A channel as an element.
pub proof fn lemma_channel_elem(
    info: InfoView,
    img: Seq<u8>,
    res: Res,
    u: int,
    v: int,
    c: int,
)
    ensures
        channel(info, img, res, u, v, c) == elem(
            img,
            ((v * res.spec_u() + u) * info.nchannels() + c) * info.data_type.spec_size(),
            info.data_type,
        ),
{
    elements_are_little_endian(
        img,
        ((v * res.spec_u() + u) * info.nchannels() + c) * info.data_type.spec_size(),
        info.data_type,
    );
}

} // verus!
