//! Half-precision floating-point numbers, by their bit patterns.

use vstd::arithmetic::power2::pow2;
use vstd::prelude::*;

verus! {

/// Sign bit of a half.
pub open spec fn half_sign(h: u16) -> int {
    h as int / 0x8000
}

/// Exponent field of a half.
pub open spec fn half_exponent(h: u16) -> int {
    h as int / 0x400 % 0x20
}

/// Fraction field of a half.
pub open spec fn half_fraction(h: u16) -> int {
    h as int % 0x400
}

/// Sign bit of a float.
pub open spec fn float_sign(i: u32) -> int {
    i as int / 0x8000_0000
}

/// Exponent field of a float.
pub open spec fn float_exponent(i: u32) -> int {
    i as int / 0x80_0000 % 0x100
}

/// Fraction field of a float.
pub open spec fn float_fraction(i: u32) -> int {
    i as int % 0x80_0000
}

/// Magnitude of a finite half, in units of the smallest float, 2^-149.
pub open spec fn half_magnitude(h: u16) -> int {
    if half_exponent(h) == 0 {
        half_fraction(h) * pow2(125)
    } else {
        (0x400 + half_fraction(h)) * pow2((half_exponent(h) + 124) as nat)
    }
}

/// Magnitude of a finite float, in units of the smallest float, 2^-149.
pub open spec fn float_magnitude(i: u32) -> int {
    if float_exponent(i) == 0 {
        float_fraction(i)
    } else {
        (0x80_0000 + float_fraction(i)) * pow2((float_exponent(i) - 1) as nat)
    }
}

/// A float with the given fields.
fn float_bits(sign: u32, exponent: u32, fraction: u32) -> (i: u32)
    requires
        sign <= 1,
        exponent <= 0xff,
        fraction < 0x80_0000,
    ensures
        float_sign(i) == sign,
        float_exponent(i) == exponent,
        float_fraction(i) == fraction,
{
    sign * 0x8000_0000 + exponent * 0x80_0000 + fraction
}

/// Bits of the float that has the value of a half.
///
/// Infinities and NaNs keep their fraction bits.
pub fn half_to_float_bits(h: u16) -> (i: u32)
    ensures
        float_sign(i) == half_sign(h),
        half_exponent(h) == 31 ==> float_exponent(i) == 255 && float_fraction(i) == half_fraction(
            h,
        ) * 0x2000,
        half_exponent(h) < 31 ==> float_exponent(i) < 255 && float_magnitude(i) == half_magnitude(
            h,
        ),
        0 < half_exponent(h) < 31 ==> float_exponent(i) == half_exponent(h) + 112
            && float_fraction(i) == half_fraction(h) * 0x2000,
{
    let sign: u32 = h as u32 / 0x8000;
    let exp: u32 = h as u32 / 0x400 % 0x20;
    let mant: u32 = h as u32 % 0x400;
    if exp == 31 {
        // inf/nan
        return float_bits(sign, 0xff, mant * 0x2000);
    }
    if exp > 0 {
        proof {
            let e = exp as nat;
            vstd::arithmetic::power2::lemma_pow2_adds(13, (e + 111) as nat);
            lemma_pow2_13();
            assert(pow2(e + 124) == 0x2000 * pow2((e + 111) as nat));
            let p = pow2((e + 111) as nat) as int;
            assert((0x400 + mant) * (0x2000 * p) == (0x80_0000 + mant * 0x2000) * p)
                by (nonlinear_arith);
        }
        return float_bits(sign, exp + 112, mant * 0x2000);
    }
    if mant == 0 {
        // signed zero
        assert(0 * pow2(125) == 0);
        return float_bits(sign, 0, 0);
    }
    // subnormal: normalize it

    let mut e: u32 = 113;
    let mut m: u32 = mant;
    let ghost mut k: nat = 0;
    proof {
        lemma_pow2_13();
    }
    while m < 0x400
        invariant
            0 < m < 0x800,
            k <= 10,
            e == 113 - k,
            m == mant * pow2(k),
            m >= pow2(k),
            mant > 0,
            pow2(10) == 0x400,
        decreases 0x800 - m,
    {
        proof {
            vstd::arithmetic::power2::lemma_pow2_unfold(k + 1);
            assert(2 * (mant * pow2(k)) == mant * (2 * pow2(k))) by (nonlinear_arith);
            if k == 10 {
                assert(false);
            }
        }
        m = m * 2;
        e = e - 1;
        proof {
            k = k + 1;
        }
    }
    proof {
        // m * 2^13 units of 2^(e - 1) are mant * 2^k * 2^13 * 2^(112 - k)
        vstd::arithmetic::power2::lemma_pow2_adds(k, (112 - k) as nat);
        vstd::arithmetic::power2::lemma_pow2_adds(13, 112);
        lemma_pow2_13();
        let p = pow2((112 - k) as nat) as int;
        let q = pow2(k) as int;
        assert((mant * q) * 0x2000 * p == mant * (0x2000 * (q * p))) by (nonlinear_arith);
        assert(0x80_0000 + (m - 0x400) * 0x2000 == m * 0x2000);
    }
    float_bits(sign, e, (m - 0x400) * 0x2000)
}

proof fn lemma_pow2_13()
    ensures
        pow2(0) == 1,
        pow2(10) == 0x400,
        pow2(13) == 0x2000,
{
    vstd::arithmetic::power2::lemma2_to64();
}

/// Bits of a half, given those of a float.
///
/// Rounding is round-half-up, overflow converts to infinity, and both +0.0
/// and -0.0 convert to +0.  `tiny` is the magnitude, in units of the smallest
/// half, of a float that is smaller than every normal half.
pub open spec fn half_from_float(i: u32, tiny: u16) -> u16 {
    let s = float_sign(i) * 0x8000;
    let e = float_exponent(i);
    let m = float_fraction(i);
    if e == 0 && m == 0 {
        0
    } else if 113 <= e <= 142 {
        // a carry out of the mantissa correctly bumps the exponent
        (s + (e - 112) * 0x400 + (m + 0x1000) / 0x2000) as u16
    } else if e <= 112 {
        (s as u16) | tiny
    } else if e == 255 {
        // inf/nan, preserve msb bits of the mantissa for the nan code
        (s + 0x7c00 + m / 0x2000) as u16
    } else {
        (s + 0x7c00) as u16
    }
}

/// Convert the bits of a float to those of a half, where `tiny` is the
/// magnitude of a float that is smaller than every normal half.
pub fn float_to_half_bits(i: u32, tiny: u16) -> (h: u16)
    ensures
        h == half_from_float(i, tiny),
{
    let s: u16 = (i / 0x8000_0000) as u16 * 0x8000;
    let e: u32 = i / 0x80_0000 % 0x100;
    let m: u32 = i % 0x80_0000;
    if e == 0 && m == 0 {
        return 0;
    }
    if 113 <= e && e <= 142 {
        s + ((e - 112) * 0x400 + (m + 0x1000) / 0x2000) as u16
    } else {
        float_to_half_except(s, e, m, tiny)
    }
}

/// Handle exceptional cases for float-to-half conversion.
fn float_to_half_except(s: u16, e: u32, m: u32, tiny: u16) -> (h: u16)
    requires
        s == 0 || s == 0x8000,
        e <= 112 || 142 < e <= 255,
        m < 0x80_0000,
    ensures
        h == if e <= 112 {
            s | tiny
        } else if e == 255 {
            (s + 0x7c00 + m as int / 0x2000) as u16
        } else {
            (s + 0x7c00) as u16
        },
{
    if e <= 112 {
        // denormalized
        s | tiny
    } else if e == 255 {
        s + 0x7c00 + (m / 0x2000) as u16
    } else {
        // overflow - convert to inf
        s + 0x7c00
    }
}

/// A normal half, an infinity or a NaN survives the way to a float and back.
pub proof fn half_round_trip(h: u16, i: u32, tiny: u16)
    requires
        half_exponent(h) > 0,
        float_sign(i) == half_sign(h),
        half_exponent(h) == 31 ==> float_exponent(i) == 255,
        half_exponent(h) < 31 ==> float_exponent(i) == half_exponent(h) + 112,
        float_fraction(i) == half_fraction(h) * 0x2000,
    ensures
        half_from_float(i, tiny) == h,
{
}

/// A half is its sign bit, five bits of exponent and ten of fraction, and a
/// float its sign bit, eight bits of exponent and 23 of fraction.
pub proof fn fields_make_up_the_bits(h: u16, i: u32)
    ensures
        0 <= half_sign(h) <= 1,
        0 <= half_exponent(h) <= 31,
        0 <= half_fraction(h) < 0x400,
        h == half_sign(h) * 0x8000 + half_exponent(h) * 0x400 + half_fraction(h),
        0 <= float_sign(i) <= 1,
        0 <= float_exponent(i) <= 255,
        0 <= float_fraction(i) < 0x80_0000,
        i == float_sign(i) * 0x8000_0000 + float_exponent(i) * 0x80_0000 + float_fraction(i),
{
}

/// Magnitudes start at zero and grow from one bit pattern to the next by the
/// same step within an exponent, which doubles from one exponent to the next;
/// the halves of the two smallest exponents are 2^-24 apart, the floats of the
/// two smallest exponents 2^-149, which is the unit.
pub proof fn magnitudes_grow_step_by_step(h: u16, i: u32)
    ensures
        half_magnitude(0) == 0,
        h < 0x7bff ==> half_magnitude((h + 1) as u16) - half_magnitude(h) == pow2(
            (124 + if half_exponent(h) == 0 {
                1
            } else {
                half_exponent(h)
            }) as nat,
        ),
        float_magnitude(0) == 0,
        i < 0x7f7f_ffff ==> float_magnitude((i + 1) as u32) - float_magnitude(i) == pow2(
            (if float_exponent(i) == 0 {
                1
            } else {
                float_exponent(i)
            } - 1) as nat,
        ),
{
    assert(0 * pow2(125) == 0);
    if h < 0x7bff {
        let e = half_exponent(h);
        let k = (124 + if e == 0 {
            1
        } else {
            e
        }) as nat;
        let n = (h + 1) as u16;
        vstd::arithmetic::power2::lemma_pow2_unfold(k + 1);
        let p = pow2(k) as int;
        let frac = half_fraction(h);
        if frac == 0x3ff {
            assert(half_exponent(n) == e + 1 && half_fraction(n) == 0);
            assert(0x400 * (2 * p) == 0x800 * p && (0x400 + 0x3ff) * p + p == 0x800 * p)
                by (nonlinear_arith);
            assert(0x400 * p == 0x3ff * p + p) by (nonlinear_arith);
        } else {
            assert(half_exponent(n) == e && half_fraction(n) == frac + 1);
            assert((0x400 + (frac + 1)) * p == (0x400 + frac) * p + p) by (nonlinear_arith);
            assert((frac + 1) * p == frac * p + p) by (nonlinear_arith);
        }
    }
    if i < 0x7f7f_ffff {
        let e = float_exponent(i);
        let k = (if e == 0 {
            1
        } else {
            e
        } - 1) as nat;
        let n = (i + 1) as u32;
        vstd::arithmetic::power2::lemma_pow2_unfold(k + 1);
        lemma_pow2_13();
        let p = pow2(k) as int;
        let frac = float_fraction(i);
        if frac == 0x7f_ffff {
            assert(float_exponent(n) == e + 1 && float_fraction(n) == 0);
            assert(0x80_0000 * (2 * p) == 0x100_0000 * p && (0x80_0000 + 0x7f_ffff) * p + p
                == 0x100_0000 * p) by (nonlinear_arith);
            assert(0x80_0000 * p == 0x7f_ffff * p + p) by (nonlinear_arith);
        } else {
            assert(float_exponent(n) == e && float_fraction(n) == frac + 1);
            assert((0x80_0000 + (frac + 1)) * p == (0x80_0000 + frac) * p + p)
                by (nonlinear_arith);
            assert((frac + 1) * p == frac * p + p) by (nonlinear_arith);
        }
    }
}

/// A float in the range of the normal halves becomes the nearest half, the
/// larger of two that are equally near, with the same sign; one that rounds
/// past the largest half becomes infinity.
pub proof fn float_rounds_to_the_nearest_half(i: u32, tiny: u16)
    requires
        113 <= float_exponent(i) <= 142,
    ensures
        ({
            let h = half_from_float(i, tiny);
            let step = 0x1000 * pow2((float_exponent(i) - 1) as nat);
            let gap = half_magnitude(h) - float_magnitude(i);
            &&& half_sign(h) == float_sign(i)
            &&& half_exponent(h) == 31 ==> half_fraction(h) == 0 && float_exponent(i) == 142
                && float_fraction(i) >= 0x7f_f000
            &&& half_exponent(h) < 31 ==> -step < gap <= step
        }),
{
    let e = float_exponent(i);
    let m = float_fraction(i);
    let q = (m + 0x1000) / 0x2000;
    let h = half_from_float(i, tiny);
    assert(0 <= q <= 0x400);
    assert(h == float_sign(i) * 0x8000 + (e - 112) * 0x400 + q);
    let p = pow2((e - 1) as nat) as int;
    vstd::arithmetic::power2::lemma_pow2_pos((e - 1) as nat);
    vstd::arithmetic::power2::lemma_pow2_adds(13, (e - 1) as nat);
    lemma_pow2_13();
    vstd::arithmetic::power2::lemma_pow2_unfold((e + 13) as nat);
    if q == 0x400 {
        assert(half_exponent(h) == e - 111 && half_fraction(h) == 0);
    } else {
        assert(half_exponent(h) == e - 112 && half_fraction(h) == q);
    }
    if half_exponent(h) < 31 {
        assert(pow2((e + 12) as nat) == 0x2000 * p);
        if q == 0x400 {
            assert(pow2((e + 13) as nat) == 2 * (0x2000 * p));
            assert(0x400 * (2 * (0x2000 * p)) == (0x400 + q) * (0x2000 * p)) by (nonlinear_arith)
                requires
                    q == 0x400,
            ;
        }
        assert(half_magnitude(h) == (0x400 + q) * (0x2000 * p));
        assert((0x400 + q) * (0x2000 * p) - (0x80_0000 + m) * p == (0x2000 * q - m) * p)
            by (nonlinear_arith);
        let d = 0x2000 * q - m;
        assert(-0x1000 < d <= 0x1000);
        assert(-0x1000 * p < d * p <= 0x1000 * p) by (nonlinear_arith)
            requires
                -0x1000 < d <= 0x1000,
                p > 0,
        ;
    }
}

/// Both zeros become zero; a float too large for a half becomes infinity, and
/// infinities and NaNs keep the upper bits of their fraction; a float smaller
/// than every normal half is the small half that is given for it, with its
/// sign.
pub proof fn other_floats(i: u32, tiny: u16)
    requires
        !(113 <= float_exponent(i) <= 142),
    ensures
        ({
            let h = half_from_float(i, tiny);
            let e = float_exponent(i);
            &&& e == 0 && float_fraction(i) == 0 ==> h == 0
            &&& 142 < e ==> half_sign(h) == float_sign(i) && half_exponent(h) == 31
            &&& 142 < e < 255 ==> half_fraction(h) == 0
            &&& e == 255 ==> half_fraction(h) == float_fraction(i) / 0x2000
            &&& e <= 112 && tiny < 0x400 && !(e == 0 && float_fraction(i) == 0) ==> h == tiny
                + float_sign(i) * 0x8000
        }),
{
    let h = half_from_float(i, tiny);
    assert(tiny < 0x400 ==> 0x8000u16 | tiny == (0x8000u16 + tiny) as u16) by (bit_vector);
    assert(0u16 | tiny == tiny) by (bit_vector);
    assert(float_sign(i) == 0 || float_sign(i) == 1);
}

} // verus!
