//! Activations, norms and other operations on vectors.

use crate::bf16::{bf16_to_f32, of_bf16};
use crate::float::{
    Arith, F32, deterministic, fadd, fdiv, fexp, ffrom_int, flt, fmax, fmul, fneg, fsqrt, fsub,
    fsum, nan, neg_infinity, one, zero,
};
use vstd::prelude::*;

verus! {

/// The logistic function: `1 / (1 + exp(-x))`.
pub open spec fn fsigmoid<A: Arith>(x: F32) -> F32 {
    fdiv::<A>(one(), fadd::<A>(one(), fexp::<A>(fneg(x))))
}

/// The logistic function.
pub fn cpu_sigmoid<A: Arith>(x: F32) -> (r: F32)
    ensures
        deterministic::<A>() ==> r == fsigmoid::<A>(x),
{
    A::div(one(), A::add(one(), A::exp(x.neg())))
}

/// The activation `x / (1 + exp(-x))`.
pub open spec fn fsilu<A: Arith>(x: F32) -> F32 {
    fdiv::<A>(x, fadd::<A>(one(), fexp::<A>(fneg(x))))
}

/// The activation of one number.
pub fn silu<A: Arith>(x: F32) -> (r: F32)
    ensures
        deterministic::<A>() ==> r == fsilu::<A>(x),
{
    A::div(x, A::add(one(), A::exp(x.neg())))
}

/// The activation of every number.
pub open spec fn silu_seq<A: Arith>(x: Seq<F32>) -> Seq<F32> {
    Seq::new(x.len(), |i: int| fsilu::<A>(x[i]))
}

/// The activation of every number.
pub fn cpu_silu<A: Arith>(x: &[F32]) -> (r: Vec<F32>)
    ensures
        r@.len() == x@.len(),
        deterministic::<A>() ==> r@ == silu_seq::<A>(x@),
{
    let mut out: Vec<F32> = Vec::new();
    for i in 0..x.len()
        invariant
            out@.len() == i,
            deterministic::<A>() ==> forall|k: int|
                0 <= k < i ==> #[trigger] out@[k] == fsilu::<A>(x@[k]),
    {
        out.push(silu::<A>(x[i]));
    }
    out
}

/// The numbers times one factor.
pub open spec fn scaled<A: Arith>(x: Seq<F32>, c: F32) -> Seq<F32> {
    Seq::new(x.len(), |i: int| fmul::<A>(x[i], c))
}

/// The numbers times one factor.
pub fn scale<A: Arith>(x: &[F32], c: F32) -> (r: Vec<F32>)
    ensures
        r@.len() == x@.len(),
        deterministic::<A>() ==> r@ == scaled::<A>(x@, c),
{
    let mut out: Vec<F32> = Vec::new();
    for i in 0..x.len()
        invariant
            out@.len() == i,
            deterministic::<A>() ==> forall|k: int|
                0 <= k < i ==> #[trigger] out@[k] == fmul::<A>(x@[k], c),
    {
        out.push(A::mul(x[i], c));
    }
    out
}

/// The largest of the first `n` numbers, and minus infinity where there is none.
pub open spec fn top_of(x: Seq<F32>, n: int) -> F32
    decreases n,
{
    if n <= 0 {
        neg_infinity()
    } else {
        fmax(top_of(x, n - 1), x[n - 1])
    }
}

/// The largest of the numbers, and minus infinity where there is none.
pub fn largest(x: &[F32]) -> (r: F32)
    ensures
        r == top_of(x@, x@.len() as int),
{
    let mut acc: F32 = neg_infinity();
    for i in 0..x.len()
        invariant
            acc == top_of(x@, i as int),
    {
        acc = acc.max(x[i]);
    }
    acc
}

/// `exp(x - m)` for every number.
pub open spec fn exp_minus<A: Arith>(x: Seq<F32>, m: F32) -> Seq<F32> {
    Seq::new(x.len(), |i: int| fexp::<A>(fsub::<A>(x[i], m)))
}

/// `exp(x - m)` for every number.
pub fn exps<A: Arith>(x: &[F32], m: F32) -> (r: Vec<F32>)
    ensures
        r@.len() == x@.len(),
        deterministic::<A>() ==> r@ == exp_minus::<A>(x@, m),
{
    let mut out: Vec<F32> = Vec::new();
    for i in 0..x.len()
        invariant
            out@.len() == i,
            deterministic::<A>() ==> forall|k: int|
                0 <= k < i ==> #[trigger] out@[k] == fexp::<A>(fsub::<A>(x@[k], m)),
    {
        out.push(A::exp(A::sub(x[i], m)));
    }
    out
}

/// In which order numbers are summed.
///
/// `LeftToRight`: from zero on, one number after the other. `Supplied`: as [`Arith::sum`] does.
#[derive(Clone, Copy, PartialEq, Eq, Structural, Debug)]
pub enum SumOrder {
    LeftToRight,
    Supplied,
}

/// The first `n` numbers, added one after the other to zero.
pub open spec fn left_sum<A: Arith>(x: Seq<F32>, n: int) -> F32
    decreases n,
{
    if n <= 0 {
        zero()
    } else {
        fadd::<A>(left_sum::<A>(x, n - 1), x[n - 1])
    }
}

/// The sum of the numbers.
pub open spec fn sum_of<A: Arith>(x: Seq<F32>, order: SumOrder) -> F32 {
    match order {
        SumOrder::LeftToRight => left_sum::<A>(x, x.len() as int),
        SumOrder::Supplied => fsum::<A>(x),
    }
}

/// Sums numbers.
pub fn sum<A: Arith>(x: &[F32], order: SumOrder) -> (r: F32)
    ensures
        deterministic::<A>() ==> r == sum_of::<A>(x@, order),
{
    match order {
        SumOrder::LeftToRight => {
            let mut acc: F32 = zero();
            for i in 0..x.len()
                invariant
                    deterministic::<A>() ==> acc == left_sum::<A>(x@, i as int),
            {
                acc = A::add(acc, x[i]);
            }
            acc
        },
        SumOrder::Supplied => A::sum(x),
    }
}

/// The exponentials of the numbers, shifted by the largest, divided by their sum.
pub open spec fn softmax<A: Arith>(x: Seq<F32>, order: SumOrder) -> Seq<F32> {
    let e = exp_minus::<A>(x, top_of(x, x.len() as int));
    scaled::<A>(e, fdiv::<A>(one(), sum_of::<A>(e, order)))
}

/// The exponentials of the numbers, shifted by the largest, divided by their sum.
pub fn cpu_softmax<A: Arith>(x: &[F32], order: SumOrder) -> (r: Vec<F32>)
    ensures
        r@.len() == x@.len(),
        deterministic::<A>() ==> r@ == softmax::<A>(x@, order),
{
    let max_val: F32 = largest(x);
    let e: Vec<F32> = exps::<A>(x, max_val);
    let total: F32 = sum::<A>(e.as_slice(), order);
    let inv: F32 = A::div(one(), total);
    scale::<A>(e.as_slice(), inv)
}

/// The numbers divided by their sum where that is positive.
pub open spec fn normalized<A: Arith>(w: Seq<F32>) -> Seq<F32> {
    let total = sum_of::<A>(w, SumOrder::LeftToRight);
    if flt(zero(), total) {
        scaled::<A>(w, fdiv::<A>(one(), total))
    } else {
        w
    }
}

/// The numbers divided by their sum where that is positive.
pub fn cpu_normalize_weights<A: Arith>(weights: Vec<F32>) -> (r: Vec<F32>)
    ensures
        r@.len() == weights@.len(),
        deterministic::<A>() ==> r@ == normalized::<A>(weights@),
{
    let total: F32 = sum::<A>(weights.as_slice(), SumOrder::LeftToRight);
    if zero().less(total) {
        let inv: F32 = A::div(one(), total);
        scale::<A>(weights.as_slice(), inv)
    } else {
        weights
    }
}

/// The squares of the numbers.
pub open spec fn squares<A: Arith>(x: Seq<F32>) -> Seq<F32> {
    Seq::new(x.len(), |i: int| fmul::<A>(x[i], x[i]))
}

/// `1 / sqrt(sum of squares / dim + eps)`.
pub open spec fn inv_rms_of<A: Arith>(x: Seq<F32>, dim: int, eps: F32, order: SumOrder) -> F32 {
    fdiv::<A>(
        one(),
        fsqrt::<A>(
            fadd::<A>(
                fdiv::<A>(sum_of::<A>(squares::<A>(x), order), ffrom_int::<A>(dim as i64)),
                eps,
            ),
        ),
    )
}

/// `1 / sqrt(sum of squares / dim + eps)`.
pub fn inv_rms<A: Arith>(x: &[F32], dim: usize, eps: F32, order: SumOrder) -> (r: F32)
    requires
        dim <= i64::MAX,
    ensures
        deterministic::<A>() ==> r == inv_rms_of::<A>(x@, dim as int, eps, order),
{
    let mut sq: Vec<F32> = Vec::new();
    for i in 0..x.len()
        invariant
            sq@.len() == i,
            deterministic::<A>() ==> forall|k: int|
                0 <= k < i ==> #[trigger] sq@[k] == fmul::<A>(x@[k], x@[k]),
    {
        sq.push(A::mul(x[i], x[i]));
    }
    assert(deterministic::<A>() ==> sq@ =~= squares::<A>(x@));
    let total: F32 = sum::<A>(sq.as_slice(), order);
    A::div(one(), A::sqrt(A::add(A::div(total, A::from_int(dim as i64)), eps)))
}

/// The numbers over their root mean square.
pub open spec fn rms_norm_bare<A: Arith>(x: Seq<F32>, eps: F32, order: SumOrder) -> Seq<F32> {
    scaled::<A>(x, inv_rms_of::<A>(x, x.len() as int, eps, order))
}

/// The numbers over their root mean square.
pub fn cpu_rms_norm_bare<A: Arith>(x: &[F32], eps: F32, order: SumOrder) -> (r: Vec<F32>)
    requires
        x@.len() <= i64::MAX,
    ensures
        r@.len() == x@.len(),
        deterministic::<A>() ==> r@ == rms_norm_bare::<A>(x@, eps, order),
{
    let inv: F32 = inv_rms::<A>(x, x.len(), eps, order);
    scale::<A>(x, inv)
}

/// The numbers over their root mean square, each times its weight.
pub open spec fn rms_norm<A: Arith>(
    x: Seq<F32>,
    w: Seq<u16>,
    eps: F32,
    order: SumOrder,
) -> Seq<F32> {
    let inv = inv_rms_of::<A>(x, x.len() as int, eps, order);
    Seq::new(x.len(), |i: int| fmul::<A>(fmul::<A>(x[i], inv), of_bf16(w[i])))
}

/// The numbers over their root mean square, each times its weight.
pub fn cpu_rms_norm<A: Arith>(x: &[F32], w: &[u16], eps: F32, order: SumOrder) -> (r: Vec<F32>)
    requires
        x@.len() <= i64::MAX,
        x@.len() <= w@.len(),
    ensures
        r@.len() == x@.len(),
        deterministic::<A>() ==> r@ == rms_norm::<A>(x@, w@, eps, order),
{
    let inv: F32 = inv_rms::<A>(x, x.len(), eps, order);
    let mut out: Vec<F32> = Vec::new();
    for i in 0..x.len()
        invariant
            x@.len() <= w@.len(),
            out@.len() == i,
            deterministic::<A>() ==> forall|k: int|
                0 <= k < i ==> #[trigger] out@[k] == fmul::<A>(
                    fmul::<A>(x@[k], inv),
                    of_bf16(w@[k]),
                ),
    {
        out.push(A::mul(A::mul(x[i], inv), bf16_to_f32(w[i])));
    }
    out
}

/// The numbers over their root mean square, each times its weight and the activation of its gate.
pub open spec fn rms_norm_gated<A: Arith>(
    x: Seq<F32>,
    z: Seq<F32>,
    w: Seq<u16>,
    eps: F32,
) -> Seq<F32> {
    let inv = inv_rms_of::<A>(x, x.len() as int, eps, SumOrder::LeftToRight);
    Seq::new(
        x.len(),
        |i: int|
            fmul::<A>(
                fmul::<A>(fmul::<A>(x[i], inv), of_bf16(w[i])),
                fsilu::<A>(z[i]),
            ),
    )
}

/// The numbers over their root mean square, each times its weight and the activation of its gate.
pub fn cpu_rms_norm_gated<A: Arith>(x: &[F32], z: &[F32], w: &[u16], eps: F32) -> (r: Vec<F32>)
    requires
        x@.len() <= i64::MAX,
        x@.len() <= z@.len(),
        x@.len() <= w@.len(),
    ensures
        r@.len() == x@.len(),
        deterministic::<A>() ==> r@ == rms_norm_gated::<A>(x@, z@, w@, eps),
{
    let inv: F32 = inv_rms::<A>(x, x.len(), eps, SumOrder::LeftToRight);
    let mut out: Vec<F32> = Vec::new();
    for i in 0..x.len()
        invariant
            x@.len() <= z@.len(),
            x@.len() <= w@.len(),
            out@.len() == i,
            deterministic::<A>() ==> forall|k: int|
                0 <= k < i ==> #[trigger] out@[k] == fmul::<A>(
                    fmul::<A>(fmul::<A>(x@[k], inv), of_bf16(w@[k])),
                    fsilu::<A>(z@[k]),
                ),
    {
        let silu_z: F32 = silu::<A>(z[i]);
        out.push(A::mul(A::mul(A::mul(x[i], inv), bf16_to_f32(w[i])), silu_z));
    }
    out
}

/// Sums of numbers at equal places.
pub open spec fn added<A: Arith>(a: Seq<F32>, b: Seq<F32>) -> Seq<F32> {
    Seq::new(a.len(), |i: int| fadd::<A>(a[i], b[i]))
}

/// Sums of numbers at equal places.
pub fn add_vec<A: Arith>(a: &[F32], b: &[F32]) -> (r: Vec<F32>)
    requires
        a@.len() <= b@.len(),
    ensures
        r@.len() == a@.len(),
        deterministic::<A>() ==> r@ == added::<A>(a@, b@),
{
    let mut out: Vec<F32> = Vec::new();
    for i in 0..a.len()
        invariant
            a@.len() <= b@.len(),
            out@.len() == i,
            deterministic::<A>() ==> forall|k: int|
                0 <= k < i ==> #[trigger] out@[k] == fadd::<A>(a@[k], b@[k]),
    {
        out.push(A::add(a[i], b[i]));
    }
    out
}

/// Zeros.
pub open spec fn zero_seq(n: int) -> Seq<F32> {
    Seq::new(n as nat, |i: int| zero())
}

/// Zeros.
pub fn zeros(n: usize) -> (r: Vec<F32>)
    ensures
        r@ == zero_seq(n as int),
{
    let mut out: Vec<F32> = Vec::new();
    for i in 0..n
        invariant
            out@ == zero_seq(i as int),
    {
        out.push(zero());
    }
    out
}

proof fn lemma_left_sum<A: Arith>(x: Seq<F32>, v: F32, n: int)
    requires
        0 <= n <= x.len(),
    ensures
        left_sum::<A>(x.push(v), n) == left_sum::<A>(x, n),
    decreases n,
{
    if n > 0 {
        lemma_left_sum::<A>(x, v, n - 1);
    }
}

/// A sum from left to right: nothing sums to zero, and one more number behind the others is added
/// to their sum. The other order is that of the arithmetic.
pub proof fn law_sum<A: Arith>(x: Seq<F32>, v: F32)
    ensures
        sum_of::<A>(Seq::empty(), SumOrder::LeftToRight) == zero(),
        sum_of::<A>(x.push(v), SumOrder::LeftToRight) == fadd::<A>(
            sum_of::<A>(x, SumOrder::LeftToRight),
            v,
        ),
        sum_of::<A>(x, SumOrder::Supplied) == fsum::<A>(x),
{
    lemma_left_sum::<A>(x, v, x.len() as int);
}

proof fn lemma_top(x: Seq<F32>, n: int) -> (j: int)
    requires
        0 < n <= x.len(),
        forall|i: int| 0 <= i < n ==> !nan(#[trigger] x[i]),
    ensures
        0 <= j < n,
        top_of(x, n) == x[j],
        forall|i: int| 0 <= i < n ==> !flt(x[j], #[trigger] x[i]),
    decreases n,
{
    if n == 1 {
        assert(top_of(x, 0) == neg_infinity());
        assert(!nan(x[0]));
        0
    } else {
        let j = lemma_top(x, n - 1);
        if flt(x[j], x[n - 1]) {
            n - 1
        } else {
            j
        }
    }
}

/// The exponentials over their sum: every number is taken relative to the largest one, and all are
/// divided by the same sum. Numbers stay at their places.
pub proof fn law_softmax<A: Arith>(x: Seq<F32>, order: SumOrder, i: int) -> (top: int)
    requires
        0 <= i < x.len(),
        forall|j: int| 0 <= j < x.len() ==> !nan(#[trigger] x[j]),
    ensures
        0 <= top < x.len(),
        forall|j: int| 0 <= j < x.len() ==> !flt(x[top], #[trigger] x[j]),
        softmax::<A>(x, order).len() == x.len(),
        softmax::<A>(x, order)[i] == fmul::<A>(
            fexp::<A>(fsub::<A>(x[i], x[top])),
            fdiv::<A>(
                one(),
                sum_of::<A>(
                    Seq::new(x.len(), |j: int| fexp::<A>(fsub::<A>(x[j], x[top]))),
                    order,
                ),
            ),
        ),
{
    let top = lemma_top(x, x.len() as int);
    assert(exp_minus::<A>(x, x[top]) =~= Seq::new(
        x.len(),
        |j: int| fexp::<A>(fsub::<A>(x[j], x[top])),
    ));
    top
}

/// The norm of a vector: all numbers are divided by the root of the mean of the squares, and each
/// is weighted by the weight at its place.
pub proof fn law_rms_norm<A: Arith>(
    x: Seq<F32>,
    w: Seq<u16>,
    eps: F32,
    order: SumOrder,
    i: int,
)
    requires
        0 <= i < x.len(),
    ensures
        ({
            let inv = fdiv::<A>(
                one(),
                fsqrt::<A>(
                    fadd::<A>(
                        fdiv::<A>(
                            sum_of::<A>(
                                Seq::new(x.len(), |j: int| fmul::<A>(x[j], x[j])),
                                order,
                            ),
                            ffrom_int::<A>(x.len() as i64),
                        ),
                        eps,
                    ),
                ),
            );
            &&& rms_norm::<A>(x, w, eps, order).len() == x.len()
            &&& rms_norm::<A>(x, w, eps, order)[i] == fmul::<A>(
                fmul::<A>(x[i], inv),
                of_bf16(w[i]),
            )
            &&& rms_norm_bare::<A>(x, eps, order)[i] == fmul::<A>(x[i], inv)
        }),
{
}

/// Weights over their sum: all are divided by the same sum, where that is positive, and stay as
/// they are otherwise.
pub proof fn law_normalized<A: Arith>(w: Seq<F32>, i: int)
    requires
        0 <= i < w.len(),
    ensures
        normalized::<A>(w).len() == w.len(),
        normalized::<A>(w)[i] == if flt(zero(), sum_of::<A>(w, SumOrder::LeftToRight)) {
            fmul::<A>(w[i], fdiv::<A>(one(), sum_of::<A>(w, SumOrder::LeftToRight)))
        } else {
            w[i]
        },
{
}

/// What is computed number by number, at place `i`: the logistic function, the activation function,
/// multiples, and sums; every number stays at its place.
pub proof fn law_number_by_number<A: Arith>(x: Seq<F32>, y: Seq<F32>, c: F32, i: int)
    requires
        0 <= i < x.len(),
    ensures
        fsigmoid::<A>(c) == fdiv::<A>(one(), fadd::<A>(one(), fexp::<A>(fneg(c)))),
        silu_seq::<A>(x).len() == x.len(),
        silu_seq::<A>(x)[i] == fdiv::<A>(x[i], fadd::<A>(one(), fexp::<A>(fneg(x[i])))),
        scaled::<A>(x, c).len() == x.len(),
        scaled::<A>(x, c)[i] == fmul::<A>(x[i], c),
        added::<A>(x, y).len() == x.len(),
        added::<A>(x, y)[i] == fadd::<A>(x[i], y[i]),
{
}

/// The gated norm: each number over the root of the mean square, times its weight, times the
/// activation of its gate.
pub proof fn law_gated_norm<A: Arith>(x: Seq<F32>, z: Seq<F32>, w: Seq<u16>, eps: F32, i: int)
    requires
        0 <= i < x.len(),
    ensures
        ({
            let mean = fdiv::<A>(
                sum_of::<A>(
                    Seq::new(x.len(), |j: int| fmul::<A>(x[j], x[j])),
                    SumOrder::LeftToRight,
                ),
                ffrom_int::<A>(x.len() as i64),
            );
            let inv = fdiv::<A>(one(), fsqrt::<A>(fadd::<A>(mean, eps)));
            let gate = fdiv::<A>(z[i], fadd::<A>(one(), fexp::<A>(fneg(z[i]))));
            let r = rms_norm_gated::<A>(x, z, w, eps);
            &&& r.len() == x.len()
            &&& r[i] == fmul::<A>(fmul::<A>(fmul::<A>(x[i], inv), of_bf16(w[i])), gate)
        }),
{
}

} // verus!
