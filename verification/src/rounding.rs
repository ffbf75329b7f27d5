//! What single-precision numbers stand for, and arithmetic that rounds as it should.

use crate::float::{
    Arith, F32, fadd, fdiv, ffrom_int, finite, fmul, fneg, fround, fsub, fto_i32, key,
    law_magnitude_increases, mag, magnitude, nan, one, sign_bit,
};
use vstd::arithmetic::power2::{lemma2_to64, lemma_pow2_adds, lemma_pow2_pos, pow2};
use vstd::prelude::*;

verus! {

/// `2^149`: how often the smallest positive number goes into one.
pub open spec fn unit() -> real {
    (pow2(149) as int) as real
}

/// The value of a finite number.
#[verifier::opaque]
pub open spec fn value(x: F32) -> real {
    let m = ((magnitude(x) as int) as real) / unit();
    if sign_bit(x) {
        -m
    } else {
        m
    }
}

/// The absolute value.
pub open spec fn size(x: real) -> real {
    if x < 0real {
        -x
    } else {
        x
    }
}

/// `2^-24`: half of the distance between one and the next number.
pub open spec fn eps() -> real {
    1real / 16777216real
}

/// Half of the smallest positive number.
pub open spec fn dust() -> real {
    1real / (2real * unit())
}

/// The largest number that is finite.
pub open spec fn largest_finite() -> F32 {
    F32 { bits: 0x7F7F_FFFF }
}

/// A number stands for a real number as nearly as single precision can: it is a number, it does
/// not change the sign, and within the range of finite numbers it is off by at most half of the
/// distance between neighbours.
pub open spec fn stands_for(r: F32, x: real) -> bool {
    &&& !nan(r)
    &&& x >= 0real ==> key(r) >= 0
    &&& x <= 0real ==> key(r) <= 0
    &&& size(x) <= value(largest_finite()) ==> {
        &&& finite(r)
        &&& size(value(r) - x) <= size(x) * eps() + dust()
    }
}

/// The operations of `A` that quantization uses round to the nearest number: each result stands
/// for what the operation gives on the values of its operands; small integers are kept; rounding
/// gives a nearest integer; and the conversion to an integer cuts off the fraction.
#[verifier::opaque]
pub open spec fn accurate<A: Arith>() -> bool {
    &&& forall|a: F32, b: F32|
        finite(a) && finite(b) ==> stands_for(#[trigger] fadd::<A>(a, b), value(a) + value(b))
    &&& forall|a: F32, b: F32|
        finite(a) && finite(b) ==> stands_for(#[trigger] fsub::<A>(a, b), value(a) - value(b))
    &&& forall|a: F32, b: F32|
        finite(a) && finite(b) ==> stands_for(#[trigger] fmul::<A>(a, b), value(a) * value(b))
    &&& forall|a: F32, b: F32|
        finite(a) && finite(b) && value(b) != 0real ==> stands_for(
            #[trigger] fdiv::<A>(a, b),
            value(a) / value(b),
        )
    &&& forall|n: i64|
        -16777216 <= n <= 16777216 ==> finite(#[trigger] ffrom_int::<A>(n)) && value(
            ffrom_int::<A>(n),
        ) == (n as int) as real
    &&& forall|a: F32|
        finite(a) ==> finite(#[trigger] fround::<A>(a)) && is_integer(value(fround::<A>(a)))
            && size(value(fround::<A>(a)) - value(a)) <= 1real / 2real
    &&& forall|a: F32|
        finite(a) && size(value(a)) < 2147483648real ==> cuts_off(
            value(a),
            #[trigger] fto_i32::<A>(a) as int,
        )
}

/// Sums and differences of finite numbers.
pub proof fn lemma_sums<A: Arith>(a: F32, b: F32)
    requires
        accurate::<A>(),
        finite(a),
        finite(b),
    ensures
        stands_for(fadd::<A>(a, b), value(a) + value(b)),
        stands_for(fsub::<A>(a, b), value(a) - value(b)),
{
    reveal(accurate);
}

/// The product of finite numbers.
pub proof fn lemma_product<A: Arith>(a: F32, b: F32)
    requires
        accurate::<A>(),
        finite(a),
        finite(b),
    ensures
        stands_for(fmul::<A>(a, b), value(a) * value(b)),
{
    reveal(accurate);
}

/// The quotient of finite numbers.
pub proof fn lemma_quotient<A: Arith>(a: F32, b: F32)
    requires
        accurate::<A>(),
        finite(a),
        finite(b),
        value(b) != 0real,
    ensures
        stands_for(fdiv::<A>(a, b), value(a) / value(b)),
{
    reveal(accurate);
}

/// The number that stands for a small integer.
pub proof fn lemma_from_int<A: Arith>(n: i64)
    requires
        accurate::<A>(),
        -16777216 <= n <= 16777216,
    ensures
        finite(ffrom_int::<A>(n)),
        value(ffrom_int::<A>(n)) == (n as int) as real,
{
    reveal(accurate);
}

/// A finite number, rounded.
pub proof fn lemma_rounded<A: Arith>(a: F32)
    requires
        accurate::<A>(),
        finite(a),
    ensures
        finite(fround::<A>(a)),
        is_integer(value(fround::<A>(a))),
        size(value(fround::<A>(a)) - value(a)) <= 1real / 2real,
{
    reveal(accurate);
}

/// A finite number as an integer.
pub proof fn lemma_to_i32<A: Arith>(a: F32)
    requires
        accurate::<A>(),
        finite(a),
        size(value(a)) < 2147483648real,
    ensures
        cuts_off(value(a), fto_i32::<A>(a) as int),
{
    reveal(accurate);
}

/// An integer as a real number.
pub open spec fn whole(n: int) -> real {
    n as real
}

/// A real number is an integer.
pub open spec fn is_integer(x: real) -> bool {
    exists|n: int| x == #[trigger] whole(n)
}

/// An integer is a real number without its fraction.
pub open spec fn cuts_off(x: real, n: int) -> bool {
    if x >= 0real {
        n as real <= x && x < n as real + 1real
    } else {
        n as real - 1real < x && x <= n as real
    }
}

/// Two numbers that differ in their sign only, or two that are none.
pub open spec fn opposite(a: F32, b: F32) -> bool {
    nan(a) && nan(b) || b == fneg(a)
}

/// The operations of `A` that turn a number into an integer code treat both signs alike: a product
/// changes its sign with a factor, rounding keeps it, and the conversion to an integer gives the
/// negated integer, or the other end of the range where there is none.
pub open spec fn symmetric<A: Arith>() -> bool {
    &&& forall|a: F32, b: F32|
        !nan(a) ==> opposite(#[trigger] fmul::<A>(a, b), fmul::<A>(fneg(a), b))
    &&& forall|a: F32, b: F32|
        opposite(a, b) ==> opposite(#[trigger] fround::<A>(a), #[trigger] fround::<A>(b))
    &&& forall|a: F32, b: F32|
        opposite(a, b) ==> {
            let (m, n) = (#[trigger] fto_i32::<A>(a), #[trigger] fto_i32::<A>(b));
            m + n == 0 || m == i32::MIN && n == i32::MAX || m == i32::MAX && n == i32::MIN
        }
}

/// `2^149` is large.
pub proof fn lemma_unit()
    ensures
        unit() == 713623846352979940529142984724747568191373312real,
        dust() > 0real,
{
    lemma2_to64();
    lemma_pow2_adds(64, 64);
    lemma_pow2_adds(128, 21);
    assert(pow2(149) == 0x10000000000000000 * 0x10000000000000000 * 0x200000);
    assert(unit() == 713623846352979940529142984724747568191373312real);
}

/// The order of numbers is the order of their values.
pub proof fn lemma_value_order(a: F32, b: F32)
    ensures
        key(a) <= key(b) <==> value(a) <= value(b),
        key(a) == 0 <==> value(a) == 0real,
        key(a) >= 0 <==> value(a) >= 0real,
{
    reveal(value);
    lemma_unit();
    lemma_magnitude_order(a, b);
    let (x, y) = (magnitude(a) as int, magnitude(b) as int);
    let u = unit();
    assert(x <= y <==> (x as real) / u <= (y as real) / u) by (nonlinear_arith)
        requires
            u > 0real,
    ;
    assert(x == 0 <==> (x as real) / u == 0real) by (nonlinear_arith)
        requires
            u > 0real,
    ;
    assert(y == 0 <==> (y as real) / u == 0real) by (nonlinear_arith)
        requires
            u > 0real,
    ;
    assert((x as real) / u >= 0real && (y as real) / u >= 0real) by (nonlinear_arith)
        requires
            u > 0real,
            x >= 0,
            y >= 0,
    ;
}

proof fn lemma_magnitude_order(a: F32, b: F32)
    ensures
        mag(a) <= mag(b) <==> magnitude(a) <= magnitude(b),
        mag(b) <= mag(a) <==> magnitude(b) <= magnitude(a),
        mag(a) == 0 <==> magnitude(a) == 0,
        mag(b) == 0 <==> magnitude(b) == 0,
{
    let z = F32 { bits: 0 };
    assert(magnitude(z) == 0);
    if mag(a) < mag(b) {
        law_magnitude_increases(a, b);
    } else if mag(b) < mag(a) {
        law_magnitude_increases(b, a);
    }
    if mag(a) > 0 {
        law_magnitude_increases(z, a);
    }
    if mag(b) > 0 {
        law_magnitude_increases(z, b);
    }
}

/// The product of integers, as real numbers.
proof fn lemma_real_product(a: int, b: int)
    ensures
        (a * b) as real == (a as real) * (b as real),
{
    assert((a * b) as real == (a as real) * (b as real)) by (nonlinear_arith);
}

/// The value of a number that is a whole number of units of `2^-k`.
pub proof fn lemma_value_in_units(x: F32, n: int, k: nat)
    requires
        0 <= k <= 149,
        magnitude(x) == n * pow2((149 - k) as nat),
    ensures
        size(value(x)) * ((pow2(k) as int) as real) == n as real,
{
    reveal(value);
    let p = pow2((149 - k) as nat) as int;
    let q = pow2(k) as int;
    lemma_pow2_pos((149 - k) as nat);
    lemma_pow2_pos(k);
    lemma_pow2_adds(k, (149 - k) as nat);
    lemma_real_product(n, p);
    lemma_real_product(q, p);
    let (rn, rp, rq) = (n as real, p as real, q as real);
    assert(n >= 0) by (nonlinear_arith)
        requires
            n * p >= 0,
            p > 0,
    ;
    assert(rn * rp / (rq * rp) * rq == rn && rn * rp / (rq * rp) >= 0real) by (nonlinear_arith)
        requires
            rp > 0real,
            rq > 0real,
            rn >= 0real,
    ;
}

proof fn lemma_constant(x: F32, n: int, k: nat, p: int)
    requires
        0 <= k <= 63,
        !sign_bit(x),
        0 < mag(x) / 0x80_0000 == 150 - k,
        n == 0x80_0000 + mag(x) % 0x80_0000,
        pow2(k) == p,
    ensures
        value(x) * (p as real) == n as real,
{
    lemma_value_in_units(x, n, k);
    lemma_value_order(x, F32 { bits: 0 });
}

/// The values of the constants that quantization uses.
pub proof fn lemma_constants()
    ensures
        value(F32 { bits: 0 }) == 0real,
        value(F32 { bits: 0x3F00_0000 }) == 1real / 2real,
        value(F32 { bits: 0x3F80_0000 }) == 1real,
        value(F32 { bits: 0x40C0_0000 }) == 6real,
        value(F32 { bits: 0x4170_0000 }) == 15real,
        value(F32 { bits: 0x42FE_0000 }) == 127real,
        value(F32 { bits: 0x4370_0000 }) == 240real,
        1real / 100100000real < value(F32 { bits: 0x322B_CC77 }) < 1real / 100000000real,
{
    lemma2_to64();
    lemma_pow2_adds(32, 18);
    lemma_value_order(F32 { bits: 0 }, F32 { bits: 0 });
    lemma_constant(F32 { bits: 0x3F00_0000 }, 0x80_0000, 24, 0x100_0000);
    lemma_constant(F32 { bits: 0x3F80_0000 }, 0x80_0000, 23, 0x80_0000);
    lemma_constant(F32 { bits: 0x40C0_0000 }, 0xC0_0000, 21, 0x20_0000);
    lemma_constant(F32 { bits: 0x4170_0000 }, 0xF0_0000, 20, 0x10_0000);
    lemma_constant(F32 { bits: 0x42FE_0000 }, 0xFE_0000, 17, 0x2_0000);
    lemma_constant(F32 { bits: 0x4370_0000 }, 0xF0_0000, 16, 0x1_0000);
    lemma_constant(F32 { bits: 0x322B_CC77 }, 0xAB_CC77, 50, 0x4_0000_0000_0000);
}

/// The largest finite number lies between `2^126` and `2^128`.
pub proof fn lemma_largest_finite()
    ensures
        value(largest_finite()) > 85070591730234615865843651857942052864real,
        value(largest_finite()) < 340282366920938463463374607431768211456real,
{
    lemma2_to64();
    lemma_unit();
    lemma_pow2_adds(32, 8);
    lemma_pow2_adds(64, 40);
    lemma_pow2_adds(149, 104);
    let p = pow2(149) as int;
    assert(pow2(104) == 0x10000000000000000 * 0x10000000000);
    assert(0xFF_FFFF * (p * pow2(104)) == (0xFF_FFFF * pow2(104)) * p) by (nonlinear_arith);
    lemma_value_in_units(largest_finite(), (0xFF_FFFF * pow2(104)) as int, 0);
    let (z, one) = (size(value(largest_finite())), (pow2(0) as int) as real);
    assert(z == z * one) by (nonlinear_arith)
        requires
            one == 1real,
    ;
    lemma_value_order(largest_finite(), F32 { bits: 0 });
}

/// What stands for a real number of ordinary size is off by at most two parts in `2^24`.
pub proof fn lemma_relative(r: F32, x: real)
    requires
        stands_for(r, x),
        x != 0real,
        size(x) <= 85070591730234615865843651857942052864real,
        dust() <= size(x) * eps(),
    ensures
        finite(r),
        size(value(r) - x) <= 2real * eps() * size(x),
        x > 0real ==> value(r) > 0real,
        x < 0real ==> value(r) < 0real,
{
    lemma_largest_finite();
    let (y, e, a) = (value(r), eps(), size(x));
    assert(size(y - x) <= a * e + dust());
    assert(a * e + a * e == 2real * e * a) by (nonlinear_arith);
    assert(2real * e * a < a) by (nonlinear_arith)
        requires
            e == 1real / 16777216real,
            a > 0real,
    ;
}

/// A product whose second factor has a bound.
proof fn lemma_product_bound(a: real, b: real, c: real)
    requires
        size(b) <= c,
    ensures
        size(a * b) == size(a) * size(b),
        size(a * b) <= size(a) * c,
{
    assert(size(a * b) == size(a) * size(b)) by (nonlinear_arith);
    let (x, y) = (size(a), size(b));
    assert(x * y <= x * c) by (nonlinear_arith)
        requires
            x >= 0real,
            y <= c,
    ;
}

/// Scaling a number by the inverse of a scale, as quantization does: the scale is the largest
/// number over `k`, and the scaled number is close to the quotient of number and scale.
#[verifier::spinoff_prover]
pub proof fn lemma_scaled<A: Arith>(mx: F32, k: F32, v: F32)
    requires
        accurate::<A>(),
        finite(mx),
        finite(k),
        finite(v),
        1real <= value(k) <= 256real,
        1real / 10000000000000000000000000000000real <= value(mx),
        value(mx) <= value(k) * 80000000000000000000000000000000000000real,
        size(value(v)) <= value(mx) * (1real + 4real * eps()),
    ensures
        ({
            let s = fdiv::<A>(mx, k);
            let inv = fdiv::<A>(one(), s);
            let y = fmul::<A>(v, inv);
            let x = value(v) / value(s);
            &&& finite(s) && finite(inv) && finite(y)
            &&& value(s) > 0real
            &&& value(inv) > 0real
            &&& size(value(s) * value(k) - value(mx)) <= 2real * eps() * value(mx)
            &&& x * value(s) == value(v)
            &&& size(x) <= value(k) * (1real + 8real * eps())
            &&& size(value(y) - x) <= 5real * eps() * value(k)
            &&& value(v) >= 0real ==> value(y) >= 0real
            &&& value(v) <= 0real ==> value(y) <= 0real
        }),
{
    lemma_constants();
    lemma_unit();
    let e = eps();
    let s = fdiv::<A>(mx, k);
    let inv = fdiv::<A>(one(), s);
    let y = fmul::<A>(v, inv);
    let (m, kk, vv) = (value(mx), value(k), value(v));
    // The scale.
    let q = m / kk;
    assert(q * kk == m && m / 256real <= q <= 80000000000000000000000000000000000000real)
        by (nonlinear_arith)
        requires
            q == m / kk,
            1real <= kk <= 256real,
            0real < m <= kk * 80000000000000000000000000000000000000real,
    ;
    lemma_quotient::<A>(mx, k);
    lemma_relative(s, q);
    let sv = value(s);
    assert(size(sv * kk - m) <= 2real * e * m) by (nonlinear_arith)
        requires
            q * kk == m,
            kk >= 1real,
            size(sv - q) <= 2real * e * q,
    ;
    // Its inverse.
    let w = 1real / sv;
    assert(sv >= q * (1real - 2real * e) && sv <= q * (1real + 2real * e)) by (nonlinear_arith)
        requires
            size(sv - q) <= 2real * e * q,
    ;
    assert(sv >= q / 2real && sv <= 1001real / 1000real * q) by (nonlinear_arith)
        requires
            sv >= q * (1real - 2real * e) && sv <= q * (1real + 2real * e),
            q > 0real,
            e == 1real / 16777216real,
    ;
    assert(w * sv == 1real && w > 0real) by (nonlinear_arith)
        requires
            w == 1real / sv,
            sv > 0real,
    ;
    assert(w <= 10000000000000000000000000000000000real) by (nonlinear_arith)
        requires
            w * sv == 1real,
            w > 0real,
            sv >= 1real / 10000000000000000000000000000000000real,
    ;
    assert(w >= 1real / 85070591730234615865843651857942052864real) by (nonlinear_arith)
        requires
            w * sv == 1real,
            w > 0real,
            sv <= 85070591730234615865843651857942052864real,
    ;
    lemma_quotient::<A>(one(), s);
    lemma_relative(inv, w);
    let iv = value(inv);
    // The number in units of the scale.
    let x = vv / sv;
    assert(x * sv == vv && x == vv * w) by (nonlinear_arith)
        requires
            x == vv / sv,
            w == 1real / sv,
            sv > 0real,
    ;
    assert(m * w <= kk * (1real + 3real * e)) by (nonlinear_arith)
        requires
            q * kk == m,
            kk >= 1real,
            w * sv == 1real,
            w > 0real,
            q > 0real,
            sv >= q * (1real - 2real * e),
            e == 1real / 16777216real,
    ;
    lemma_product_bound(w, vv, m * (1real + 4real * e));
    assert(size(x) <= w * (m * (1real + 4real * e))) by {
        assert(w * vv == vv * w) by (nonlinear_arith);
    }
    assert(size(x) <= kk * (1real + 8real * e)) by (nonlinear_arith)
        requires
            size(x) <= w * (m * (1real + 4real * e)),
            m * w <= kk * (1real + 3real * e),
            kk >= 1real,
            e == 1real / 16777216real,
    ;
    let p = vv * iv;
    lemma_product_bound(vv, iv - w, 2real * e * w);
    assert(size(p - x) <= 2real * e * size(x)) by {
        assert(vv * (iv - w) == p - x) by (nonlinear_arith)
            requires
                p == vv * iv,
                x == vv * w,
        ;
        lemma_product_bound(vv, w, w);
        assert(size(vv) * (2real * e * w) == 2real * e * (size(vv) * w)) by (nonlinear_arith);
    }
    let a = size(x);
    assert(2real * e * a <= a && a <= 2real * kk - a * 2real * e) by (nonlinear_arith)
        requires
            0real <= a <= kk * (1real + 8real * e),
            kk >= 1real,
            e == 1real / 16777216real,
    ;
    assert(size(p) <= 2real * kk) by {
        assert(2real * e * a == a * 2real * e) by (nonlinear_arith);
    }
    lemma_largest_finite();
    lemma_product::<A>(v, inv);
    assert(stands_for(y, p));
    assert(size(value(y) - p) <= size(p) * e + dust());
    assert(size(p) * e <= 2real * kk * e) by (nonlinear_arith)
        requires
            size(p) <= 2real * kk,
            e > 0real,
    ;
    assert(2real * e * a <= 5real / 2real * e * kk) by (nonlinear_arith)
        requires
            0real <= a <= kk * (1real + 8real * e),
            kk >= 1real,
            e == 1real / 16777216real,
    ;
    assert(dust() <= 1real / 2real * e * kk);
    assert(size(value(y) - x) <= 2real * kk * e + dust() + 2real * e * a);
    assert(2real * kk * e + 1real / 2real * e * kk + 5real / 2real * e * kk == 5real * e * kk)
        by (nonlinear_arith);
    assert(vv >= 0real ==> p >= 0real) by (nonlinear_arith)
        requires
            p == vv * iv,
            iv > 0real,
    ;
    assert(vv <= 0real ==> p <= 0real) by (nonlinear_arith)
        requires
            p == vv * iv,
            iv > 0real,
    ;
    lemma_value_order(y, F32 { bits: 0 });
    lemma_value_order(F32 { bits: 0 }, y);
}

} // verus!
