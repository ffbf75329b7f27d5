//! Conversion between single precision and bfloat16, the upper half of a single-precision number.

use crate::float::{F32, mag, magnitude, sign_bit};
use vstd::arithmetic::power2::pow2;
use vstd::prelude::*;

verus! {

/// The upper half is rounded up: the highest dropped bit is set, and so is the lowest dropped bit
/// or the lowest kept bit.
pub open spec fn rounds_up(bits: u32) -> bool {
    (bits / 0x8000) % 2 == 1 && (bits % 2 == 1 || (bits / 0x1_0000) % 2 == 1)
}

/// The bfloat16 bits that stand for a number.
pub open spec fn bf16_of(x: F32) -> u16 {
    let step: int = if rounds_up(x.bits) {
        0x1_0000
    } else {
        0
    };
    (((x.bits + step) % 0x1_0000_0000) / 0x1_0000) as u16
}

/// The number that bfloat16 bits stand for.
pub open spec fn of_bf16(v: u16) -> F32 {
    F32 { bits: (v * 0x1_0000) as u32 }
}

/// Converts one number to bfloat16.
pub fn f32_to_bf16_u16_single(v: F32) -> (r: u16)
    ensures
        r == bf16_of(v),
{
    let bits: u32 = v.bits;
    let up: bool = (bits / 0x8000) % 2 == 1 && (bits % 2 == 1 || (bits / 0x1_0000) % 2 == 1);
    let step: u32 = if up {
        0x1_0000
    } else {
        0
    };
    let sum: u32 = bits.wrapping_add(step);
    (sum / 0x1_0000) as u16
}

/// Converts each number to bfloat16.
pub fn f32_to_bf16_u16(arr: &[F32]) -> (r: Vec<u16>)
    ensures
        r@ == arr@.map_values(|v: F32| bf16_of(v)),
{
    let mut out: Vec<u16> = Vec::with_capacity(arr.len());
    for i in 0..arr.len()
        invariant
            out@ == arr@.take(i as int).map_values(|v: F32| bf16_of(v)),
    {
        out.push(f32_to_bf16_u16_single(arr[i]));
        assert(out@ =~= arr@.take(i + 1).map_values(|v: F32| bf16_of(v)));
    }
    assert(arr@.take(arr@.len() as int) =~= arr@);
    out
}

/// Converts bfloat16 bits to the number they stand for.
pub fn bf16_to_f32(v: u16) -> (r: F32)
    ensures
        r == of_bf16(v),
{
    F32 { bits: (v as u32) * 0x1_0000 }
}

/// A bfloat16 value survives the way to single precision and back.
pub proof fn law_bf16_round_trip(v: u16)
    ensures
        bf16_of(of_bf16(v)) == v,
{
}

/// A finite number keeps its sign on the way to bfloat16 and back, and where it is not subnormal
/// it moves by less than one part in 128.
pub proof fn law_bf16_error(x: F32)
    requires
        0x80_0000 <= mag(x) < 0x7F80_0000,
    ensures
        ({
            let y = of_bf16(bf16_of(x));
            &&& sign_bit(y) == sign_bit(x)
            &&& 128 * (magnitude(x) - magnitude(y)) < magnitude(x)
            &&& 128 * (magnitude(y) - magnitude(x)) < magnitude(x)
        }),
{
    let y = of_bf16(bf16_of(x));
    let (e, m) = (mag(x) / 0x80_0000, mag(x) % 0x80_0000);
    let (f, n) = (mag(y) / 0x80_0000, mag(y) % 0x80_0000);
    assert(mag(x) - 0x1_0000 < mag(y) <= mag(x) + 0x1_0000);
    assert(mag(y) <= mag(x) + 0x8000);
    let p = pow2((e - 1) as nat) as int;
    vstd::arithmetic::power2::lemma_pow2_pos((e - 1) as nat);
    assert(f >= 1);
    // Where rounding carries into the next binade, the fraction becomes zero.
    let d = if f == e {
        n - m
    } else {
        vstd::arithmetic::power2::lemma_pow2_unfold(e as nat);
        0x80_0000 + 2 * n - m
    };
    assert(f == e || f == e + 1);
    assert(magnitude(y) == (0x80_0000 + m + d) * p) by {
        if f != e {
            assert((0x80_0000 + n) * (2 * p) == (0x80_0000 + m + d) * p) by (nonlinear_arith)
                requires
                    d == 0x80_0000 + 2 * n - m,
            ;
        }
    }
    assert(-0x1_0000 < d < 0x1_0000);
    assert(128 * ((0x80_0000 + m) * p - (0x80_0000 + m + d) * p) < (0x80_0000 + m) * p
        && 128 * ((0x80_0000 + m + d) * p - (0x80_0000 + m) * p) < (0x80_0000 + m) * p)
        by (nonlinear_arith)
        requires
            -0x1_0000 < d < 0x1_0000,
            m >= 0,
            p > 0,
    ;
}

/// Rounding to bfloat16: the lower half of the bits is dropped, and the upper half goes up by one
/// exactly where the lower half is at least half of its range and the lowest bit of either half is
/// set.
pub proof fn law_bf16_rounding(x: F32)
    ensures
        ({
            let (low, high) = (x.bits as int % 65536, x.bits as int / 65536);
            let up = low >= 32768 && (low % 2 == 1 || high % 2 == 1);
            let r = bf16_of(x) as int;
            &&& up && high < 65535 ==> r == high + 1
            &&& up && high == 65535 ==> r == 0
            &&& !up ==> r == high
            &&& of_bf16(bf16_of(x)).bits == 65536 * r
        }),
{
}

} // verus!
