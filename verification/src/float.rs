//! Single-precision numbers as bit patterns.
//!
//! A number is held as the 32 bits of its IEEE 754 encoding. Comparison, sign, absolute value,
//! minimum and maximum are decided here, on the bits. The operations that round (`+`, `*`, `exp`
//! and the like) are supplied by the caller through [`Arith`]; a contract that depends on them
//! names the result of each operation, and so fixes which operations are applied, to what, and in
//! which order.

use vstd::arithmetic::power2::pow2;
use vstd::prelude::*;

verus! {

/// A single-precision number, by its bits: sign, eight exponent bits, 23 fraction bits.
#[derive(Clone, Copy, PartialEq, Eq, Structural, Debug)]
pub struct F32 {
    pub bits: u32,
}

/// `+0.0`.
#[verifier::allow_in_spec]
pub fn zero() -> F32
    returns
        (F32 { bits: 0 }),
{
    F32 { bits: 0 }
}

/// `0.5`.
#[verifier::allow_in_spec]
pub fn half() -> F32
    returns
        (F32 { bits: 0x3F00_0000 }),
{
    F32 { bits: 0x3F00_0000 }
}

/// `1.0`.
#[verifier::allow_in_spec]
pub fn one() -> F32
    returns
        (F32 { bits: 0x3F80_0000 }),
{
    F32 { bits: 0x3F80_0000 }
}

/// Minus infinity.
#[verifier::allow_in_spec]
pub fn neg_infinity() -> F32
    returns
        (F32 { bits: 0xFF80_0000 }),
{
    F32 { bits: 0xFF80_0000 }
}

/// Plus infinity.
#[verifier::allow_in_spec]
pub fn infinity() -> F32
    returns
        (F32 { bits: 0x7F80_0000 }),
{
    F32 { bits: 0x7F80_0000 }
}

/// The rounding operations of single-precision arithmetic.
///
/// Nothing is assumed of an implementation. Contracts in this crate speak of the results through
/// the functions `fadd`, `fmul` and so on, under the condition [`deterministic`].
pub trait Arith {
    /// `a + b`
    fn add(a: F32, b: F32) -> F32;

    /// `a - b`
    fn sub(a: F32, b: F32) -> F32;

    /// `a * b`
    fn mul(a: F32, b: F32) -> F32;

    /// `a / b`
    fn div(a: F32, b: F32) -> F32;

    /// The square root.
    fn sqrt(a: F32) -> F32;

    /// The exponential function.
    fn exp(a: F32) -> F32;

    /// The natural logarithm.
    fn ln(a: F32) -> F32;

    /// The nearest integer, as a number; halves away from zero.
    fn round(a: F32) -> F32;

    /// Conversion to an integer: toward zero, saturating, with NaN giving zero.
    fn to_i32(a: F32) -> i32;

    /// Conversion of an integer.
    fn from_int(n: i64) -> F32;

    /// The sum of the numbers, in the order of the implementation.
    fn sum(s: &[F32]) -> F32;

    /// The sum of the products of numbers at equal places, in the order of the implementation.
    fn dot(a: &[F32], b: &[F32]) -> F32;

    /// Cosine and sine of the rotary angle `pos * theta^(-2 d / rotary_dim)`, where `theta` is
    /// given by the bits of a double-precision number.
    fn rotary(pos: usize, d: usize, rotary_dim: usize, theta: u64) -> (F32, F32);
}

/// What [`Arith::add`] returns.
pub open spec fn fadd<A: Arith>(a: F32, b: F32) -> F32 {
    choose|r: F32| call_ensures(A::add, (a, b), r)
}

/// What [`Arith::sub`] returns.
pub open spec fn fsub<A: Arith>(a: F32, b: F32) -> F32 {
    choose|r: F32| call_ensures(A::sub, (a, b), r)
}

/// What [`Arith::mul`] returns.
pub open spec fn fmul<A: Arith>(a: F32, b: F32) -> F32 {
    choose|r: F32| call_ensures(A::mul, (a, b), r)
}

/// What [`Arith::div`] returns.
pub open spec fn fdiv<A: Arith>(a: F32, b: F32) -> F32 {
    choose|r: F32| call_ensures(A::div, (a, b), r)
}

/// What [`Arith::sqrt`] returns.
pub open spec fn fsqrt<A: Arith>(a: F32) -> F32 {
    choose|r: F32| call_ensures(A::sqrt, (a,), r)
}

/// What [`Arith::exp`] returns.
pub open spec fn fexp<A: Arith>(a: F32) -> F32 {
    choose|r: F32| call_ensures(A::exp, (a,), r)
}

/// What [`Arith::ln`] returns.
pub open spec fn fln<A: Arith>(a: F32) -> F32 {
    choose|r: F32| call_ensures(A::ln, (a,), r)
}

/// What [`Arith::round`] returns.
pub open spec fn fround<A: Arith>(a: F32) -> F32 {
    choose|r: F32| call_ensures(A::round, (a,), r)
}

/// What [`Arith::to_i32`] returns.
pub open spec fn fto_i32<A: Arith>(a: F32) -> i32 {
    choose|r: i32| call_ensures(A::to_i32, (a,), r)
}

/// What [`Arith::from_int`] returns.
pub open spec fn ffrom_int<A: Arith>(n: i64) -> F32 {
    choose|r: F32| call_ensures(A::from_int, (n,), r)
}

/// [`Arith::sum`] may return `r` for the numbers `v`.
pub open spec fn may_sum<A: Arith>(v: Seq<F32>, r: F32) -> bool {
    exists|s: &[F32]| s@ == v && #[trigger] call_ensures(A::sum, (s,), r)
}

/// What [`Arith::sum`] returns.
pub open spec fn fsum<A: Arith>(v: Seq<F32>) -> F32 {
    choose|r: F32| may_sum::<A>(v, r)
}

/// [`Arith::dot`] may return `r` for the numbers `v` and `w`.
pub open spec fn may_dot<A: Arith>(v: Seq<F32>, w: Seq<F32>, r: F32) -> bool {
    exists|a: &[F32], b: &[F32]| a@ == v && b@ == w && #[trigger] call_ensures(A::dot, (a, b), r)
}

/// What [`Arith::dot`] returns.
pub open spec fn fdot<A: Arith>(v: Seq<F32>, w: Seq<F32>) -> F32 {
    choose|r: F32| may_dot::<A>(v, w, r)
}

/// What [`Arith::rotary`] returns.
pub open spec fn frotary<A: Arith>(pos: usize, d: usize, rotary_dim: usize, theta: u64) -> (
    F32,
    F32,
) {
    choose|r: (F32, F32)| call_ensures(A::rotary, (pos, d, rotary_dim, theta), r)
}

/// Each operation of `A` gives one result for given operands: the one that `fadd`, `fsub` and so
/// on name.
pub open spec fn deterministic<A: Arith>() -> bool {
    &&& forall|a: F32, b: F32, r: F32| #[trigger]
        call_ensures(A::add, (a, b), r) ==> r == fadd::<A>(a, b)
    &&& forall|a: F32, b: F32, r: F32| #[trigger]
        call_ensures(A::sub, (a, b), r) ==> r == fsub::<A>(a, b)
    &&& forall|a: F32, b: F32, r: F32| #[trigger]
        call_ensures(A::mul, (a, b), r) ==> r == fmul::<A>(a, b)
    &&& forall|a: F32, b: F32, r: F32| #[trigger]
        call_ensures(A::div, (a, b), r) ==> r == fdiv::<A>(a, b)
    &&& forall|a: F32, r: F32| #[trigger] call_ensures(A::sqrt, (a,), r) ==> r == fsqrt::<A>(a)
    &&& forall|a: F32, r: F32| #[trigger] call_ensures(A::exp, (a,), r) ==> r == fexp::<A>(a)
    &&& forall|a: F32, r: F32| #[trigger] call_ensures(A::ln, (a,), r) ==> r == fln::<A>(a)
    &&& forall|a: F32, r: F32| #[trigger] call_ensures(A::round, (a,), r) ==> r == fround::<A>(a)
    &&& forall|a: F32, r: i32| #[trigger] call_ensures(A::to_i32, (a,), r) ==> r == fto_i32::<A>(a)
    &&& forall|n: i64, r: F32| #[trigger]
        call_ensures(A::from_int, (n,), r) ==> r == ffrom_int::<A>(n)
    &&& forall|s: &[F32], r: F32| #[trigger]
        call_ensures(A::sum, (s,), r) ==> r == fsum::<A>(s@)
    &&& forall|a: &[F32], b: &[F32], r: F32| #[trigger]
        call_ensures(A::dot, (a, b), r) ==> r == fdot::<A>(a@, b@)
    &&& forall|pos: usize, d: usize, rotary_dim: usize, theta: u64, r: (F32, F32)| #[trigger]
        call_ensures(A::rotary, (pos, d, rotary_dim, theta), r) ==> r == frotary::<A>(
            pos,
            d,
            rotary_dim,
            theta,
        )
}

/// The bits without the sign.
pub open spec fn mag(x: F32) -> int {
    x.bits as int % 0x8000_0000
}

/// The sign bit is set.
pub open spec fn sign_bit(x: F32) -> bool {
    x.bits >= 0x8000_0000
}

/// Not a number: all exponent bits set and a fraction that is not zero.
pub open spec fn nan(x: F32) -> bool {
    mag(x) > 0x7F80_0000
}

/// Neither infinite nor a NaN.
pub open spec fn finite(x: F32) -> bool {
    mag(x) < 0x7F80_0000
}

/// The place of a number in the order of numbers; both zeros have the same place.
pub open spec fn key(x: F32) -> int {
    if sign_bit(x) {
        -mag(x)
    } else {
        mag(x)
    }
}

/// `a < b`: false where either is not a number.
pub open spec fn flt(a: F32, b: F32) -> bool {
    !nan(a) && !nan(b) && key(a) < key(b)
}

/// `a == b`: false where either is not a number.
pub open spec fn feq(a: F32, b: F32) -> bool {
    !nan(a) && !nan(b) && key(a) == key(b)
}

/// The number without its sign.
pub open spec fn fabs(x: F32) -> F32 {
    F32 { bits: mag(x) as u32 }
}

/// The number with its sign flipped.
pub open spec fn fneg(x: F32) -> F32 {
    F32 {
        bits: (if sign_bit(x) {
            x.bits - 0x8000_0000
        } else {
            x.bits + 0x8000_0000
        }) as u32,
    }
}

/// The larger of two numbers; the other one where one is not a number; the first of two equals.
pub open spec fn fmax(a: F32, b: F32) -> F32 {
    if nan(a) || flt(a, b) {
        b
    } else {
        a
    }
}

/// The smaller of two numbers; the other one where one is not a number; the first of two equals.
pub open spec fn fmin(a: F32, b: F32) -> F32 {
    if nan(a) || flt(b, a) {
        b
    } else {
        a
    }
}

/// The absolute value in units of `2^-149`, the smallest positive number; infinity counts as the
/// number that its bits would stand for otherwise.
pub open spec fn magnitude(x: F32) -> nat {
    let e = mag(x) / 0x80_0000;
    let m = mag(x) % 0x80_0000;
    if e == 0 {
        m as nat
    } else {
        ((0x80_0000 + m) * pow2((e - 1) as nat)) as nat
    }
}

impl F32 {
    /// True where the value is not a number.
    pub fn is_nan(self) -> (r: bool)
        ensures
            r == nan(self),
    {
        self.bits % 0x8000_0000 > 0x7F80_0000
    }

    /// The absolute value.
    pub fn abs(self) -> (r: F32)
        ensures
            r == fabs(self),
    {
        F32 { bits: self.bits % 0x8000_0000 }
    }

    /// The value with its sign flipped.
    pub fn neg(self) -> (r: F32)
        ensures
            r == fneg(self),
    {
        if self.bits >= 0x8000_0000 {
            F32 { bits: self.bits - 0x8000_0000 }
        } else {
            F32 { bits: self.bits + 0x8000_0000 }
        }
    }

    /// The place in the order of numbers.
    fn order(self) -> (r: i64)
        ensures
            r == key(self),
    {
        let m: i64 = (self.bits % 0x8000_0000) as i64;
        if self.bits >= 0x8000_0000 {
            -m
        } else {
            m
        }
    }

    /// `self < other`.
    pub fn less(self, other: F32) -> (r: bool)
        ensures
            r == flt(self, other),
    {
        !self.is_nan() && !other.is_nan() && self.order() < other.order()
    }

    /// `self == other`, as numbers.
    pub fn same(self, other: F32) -> (r: bool)
        ensures
            r == feq(self, other),
    {
        !self.is_nan() && !other.is_nan() && self.order() == other.order()
    }

    /// The larger of two numbers.
    pub fn max(self, other: F32) -> (r: F32)
        ensures
            r == fmax(self, other),
    {
        if self.is_nan() || self.less(other) {
            other
        } else {
            self
        }
    }

    /// The smaller of two numbers.
    pub fn min(self, other: F32) -> (r: F32)
        ensures
            r == fmin(self, other),
    {
        if self.is_nan() || other.less(self) {
            other
        } else {
            self
        }
    }
}

/// The order on absolute values is the order on the bits without the sign: a number with larger
/// bits has the larger magnitude.
pub proof fn law_magnitude_increases(x: F32, y: F32)
    requires
        mag(x) < mag(y),
    ensures
        magnitude(x) < magnitude(y),
{
    let (ex, mx) = (mag(x) / 0x80_0000, mag(x) % 0x80_0000);
    let (ey, my) = (mag(y) / 0x80_0000, mag(y) % 0x80_0000);
    assert(ex <= ey);
    if ey == 0 {
    } else if ex == ey {
        assert(mx < my);
        vstd::arithmetic::power2::lemma_pow2_pos((ex - 1) as nat);
        assert((0x80_0000 + mx) * pow2((ex - 1) as nat) < (0x80_0000 + my) * pow2((ex - 1) as nat))
            by (nonlinear_arith)
            requires
                mx < my,
                pow2((ex - 1) as nat) > 0,
        ;
    } else {
        // The smaller number is below twice the unit of its binade, the larger one is not.
        let py = pow2((ey - 1) as nat) as int;
        vstd::arithmetic::power2::lemma_pow2_pos((ey - 1) as nat);
        assert((0x80_0000 + my) * py >= 0x80_0000 * py) by (nonlinear_arith)
            requires
                my >= 0,
                py > 0,
        ;
        if ex > 0 {
            let px = pow2((ex - 1) as nat) as int;
            vstd::arithmetic::power2::lemma_pow2_unfold(ex as nat);
            assert(2 * px <= py) by {
                if ex < ey - 1 {
                    vstd::arithmetic::power2::lemma_pow2_strictly_increases(
                        ex as nat,
                        (ey - 1) as nat,
                    );
                }
            }
            vstd::arithmetic::power2::lemma_pow2_pos((ex - 1) as nat);
            assert((0x80_0000 + mx) * px < 0x100_0000 * px) by (nonlinear_arith)
                requires
                    mx < 0x80_0000,
                    px > 0,
            ;
        } else {
            assert(0x80_0000 * py >= 0x80_0000) by (nonlinear_arith)
                requires
                    py > 0,
            ;
        }
    }
}

/// Comparison is a strict order on numbers: of two numbers one is smaller or they are equal, and
/// smaller carries over a third.
pub proof fn law_order(a: F32, b: F32, c: F32)
    requires
        !nan(a),
        !nan(b),
        !nan(c),
    ensures
        flt(a, b) || feq(a, b) || flt(b, a),
        !(flt(a, b) && flt(b, a)),
        flt(a, b) && flt(b, c) ==> flt(a, c),
{
}

/// Signs and order: a flipped sign reverses the order and flips back, the absolute value is the
/// number or the number with its sign flipped and is never below zero, numbers above zero are
/// ordered by their magnitudes, and what is not a number is neither smaller than nor equal to
/// anything.
pub proof fn law_signs(a: F32, b: F32)
    ensures
        fneg(fneg(a)) == a,
        flt(a, b) <==> flt(fneg(b), fneg(a)),
        fabs(a) == a || fabs(a) == fneg(a),
        !nan(a) ==> !flt(fabs(a), zero()),
        fabs(fneg(a)) == fabs(a),
        flt(zero(), a) && flt(zero(), b) ==> (flt(a, b) <==> magnitude(a) < magnitude(b)),
        flt(a, zero()) && flt(zero(), b) ==> flt(a, b),
        feq(zero(), fneg(zero())),
        nan(a) ==> !flt(a, b) && !flt(b, a) && !feq(a, b) && !feq(b, a),
{
    if flt(zero(), a) && flt(zero(), b) {
        if mag(a) < mag(b) {
            law_magnitude_increases(a, b);
        } else if mag(b) < mag(a) {
            law_magnitude_increases(b, a);
        }
    }
}

/// The larger and the smaller of two numbers: one of the two, below or above neither; where just
/// one of them is a number, that one.
pub proof fn law_extremes(a: F32, b: F32)
    ensures
        fmax(a, b) == a || fmax(a, b) == b,
        !nan(a) && !nan(b) ==> !flt(fmax(a, b), a) && !flt(fmax(a, b), b),
        fmin(a, b) == a || fmin(a, b) == b,
        !nan(a) && !nan(b) ==> !flt(a, fmin(a, b)) && !flt(b, fmin(a, b)),
        nan(a) ==> fmax(a, b) == b && fmin(a, b) == b,
        nan(b) && !nan(a) ==> fmax(a, b) == a && fmin(a, b) == a,
        feq(a, b) ==> fmax(a, b) == a && fmin(a, b) == a,
{
}

} // verus!
