//! Reading a vector of logits: the best token, and a summary for debugging.

use crate::float::{
    Arith, F32, deterministic, fadd, fdiv, ffrom_int, flt, fmax, fmin, fmul, fsqrt, fsub, infinity,
    nan, neg_infinity, zero,
};
use vstd::prelude::*;

verus! {

/// The place of the largest number, the last one where several are largest; zero for an empty
/// list.
pub fn cpu_argmax(x: &[F32]) -> (r: usize)
    requires
        x@.len() < 2 || forall|i: int| 0 <= i < x@.len() ==> !nan(#[trigger] x@[i]),
    ensures
        x@.len() == 0 ==> r == 0,
        x@.len() > 0 ==> r < x@.len(),
        forall|j: int| 0 <= j < x@.len() ==> !flt(x@[r as int], #[trigger] x@[j]),
        forall|j: int| r < j < x@.len() ==> flt(#[trigger] x@[j], x@[r as int]),
{
    if x.len() == 0 {
        return 0;
    }
    let mut best: usize = 0;
    for i in 1..x.len()
        invariant
            x@.len() < 2 || forall|j: int| 0 <= j < x@.len() ==> !nan(#[trigger] x@[j]),
            best < i <= x@.len(),
            forall|j: int| 0 <= j < i ==> !flt(x@[best as int], #[trigger] x@[j]),
            forall|j: int| best < j < i ==> flt(#[trigger] x@[j], x@[best as int]),
    {
        if !x[i].less(x[best]) {
            best = i;
        }
    }
    best
}

/// The smallest of the first `n` entries that are numbers.
pub open spec fn min_of(x: Seq<F32>, n: int) -> F32
    decreases n,
{
    if n <= 0 {
        infinity()
    } else if nan(x[n - 1]) {
        min_of(x, n - 1)
    } else {
        fmin(min_of(x, n - 1), x[n - 1])
    }
}

/// The largest of the first `n` entries that are numbers.
pub open spec fn max_of(x: Seq<F32>, n: int) -> F32
    decreases n,
{
    if n <= 0 {
        neg_infinity()
    } else if nan(x[n - 1]) {
        max_of(x, n - 1)
    } else {
        fmax(max_of(x, n - 1), x[n - 1])
    }
}

/// The sum of the first `n` entries that are numbers.
pub open spec fn sum_of<A: Arith>(x: Seq<F32>, n: int) -> F32
    decreases n,
{
    if n <= 0 {
        zero()
    } else if nan(x[n - 1]) {
        sum_of::<A>(x, n - 1)
    } else {
        fadd::<A>(sum_of::<A>(x, n - 1), x[n - 1])
    }
}

/// The sum of the squares of the first `n` entries that are numbers.
pub open spec fn squares_of<A: Arith>(x: Seq<F32>, n: int) -> F32
    decreases n,
{
    if n <= 0 {
        zero()
    } else if nan(x[n - 1]) {
        squares_of::<A>(x, n - 1)
    } else {
        fadd::<A>(squares_of::<A>(x, n - 1), fmul::<A>(x[n - 1], x[n - 1]))
    }
}

/// A summary of a vector: smallest, largest, mean and standard deviation of the entries that are
/// numbers, and whether some entry is not. Mean and deviation divide by the number of all entries.
pub fn stats_f32<A: Arith>(x: &[F32]) -> (r: (F32, F32, F32, F32, bool))
    requires
        x@.len() <= i64::MAX,
    ensures
        x@.len() == 0 ==> r == (zero(), zero(), zero(), zero(), false),
        x@.len() > 0 ==> r.0 == min_of(x@, x@.len() as int) && r.1 == max_of(
            x@,
            x@.len() as int,
        ),
        x@.len() > 0 ==> r.4 == exists|i: int| 0 <= i < x@.len() && nan(#[trigger] x@[i]),
        deterministic::<A>() && x@.len() > 0 ==> {
            let n = ffrom_int::<A>(x@.len() as i64);
            let mean = fdiv::<A>(sum_of::<A>(x@, x@.len() as int), n);
            let square = fdiv::<A>(squares_of::<A>(x@, x@.len() as int), n);
            &&& r.2 == mean
            &&& r.3 == fsqrt::<A>(fmax(fsub::<A>(square, fmul::<A>(mean, mean)), zero()))
        },
{
    if x.len() == 0 {
        return (zero(), zero(), zero(), zero(), false);
    }
    let mut has_nan: bool = false;
    let mut min: F32 = infinity();
    let mut max: F32 = neg_infinity();
    let mut sum: F32 = zero();
    let mut sq: F32 = zero();
    for i in 0..x.len()
        invariant
            min == min_of(x@, i as int),
            max == max_of(x@, i as int),
            deterministic::<A>() ==> sum == sum_of::<A>(x@, i as int),
            deterministic::<A>() ==> sq == squares_of::<A>(x@, i as int),
            has_nan == exists|j: int| 0 <= j < i && nan(#[trigger] x@[j]),
    {
        let v: F32 = x[i];
        if v.is_nan() {
            has_nan = true;
        } else {
            min = min.min(v);
            max = max.max(v);
            sum = A::add(sum, v);
            sq = A::add(sq, A::mul(v, v));
        }
    }
    let n: F32 = A::from_int(x.len() as i64);
    let mean: F32 = A::div(sum, n);
    let var: F32 = A::sub(A::div(sq, n), A::mul(mean, mean));
    let std: F32 = A::sqrt(var.max(zero()));
    (min, max, mean, std, has_nan)
}

proof fn lemma_stats_push<A: Arith>(x: Seq<F32>, v: F32, n: int)
    requires
        0 <= n <= x.len(),
    ensures
        min_of(x.push(v), n) == min_of(x, n),
        max_of(x.push(v), n) == max_of(x, n),
        sum_of::<A>(x.push(v), n) == sum_of::<A>(x, n),
        squares_of::<A>(x.push(v), n) == squares_of::<A>(x, n),
        !nan(min_of(x, n)),
        !nan(max_of(x, n)),
    decreases n,
{
    if n > 0 {
        lemma_stats_push::<A>(x, v, n - 1);
    }
}

/// The summary, one number after the other: a number that is none changes nothing; any other takes
/// the place of the smallest or of the largest where it is smaller or larger, and is added to the
/// sum, its square to the sum of squares. Both sums begin at zero.
pub proof fn law_stats<A: Arith>(x: Seq<F32>, v: F32)
    ensures
        ({
            let n = x.len() as int;
            let y = x.push(v);
            let (lo, hi) = (min_of(x, n), max_of(x, n));
            &&& nan(v) ==> min_of(y, n + 1) == lo && max_of(y, n + 1) == hi
            &&& !nan(v) ==> min_of(y, n + 1) == if flt(v, lo) {
                v
            } else {
                lo
            }
            &&& !nan(v) ==> max_of(y, n + 1) == if flt(hi, v) {
                v
            } else {
                hi
            }
            &&& sum_of::<A>(y, n + 1) == if nan(v) {
                sum_of::<A>(x, n)
            } else {
                fadd::<A>(sum_of::<A>(x, n), v)
            }
            &&& squares_of::<A>(y, n + 1) == if nan(v) {
                squares_of::<A>(x, n)
            } else {
                fadd::<A>(squares_of::<A>(x, n), fmul::<A>(v, v))
            }
            &&& min_of(Seq::empty(), 0) == infinity()
            &&& max_of(Seq::empty(), 0) == neg_infinity()
            &&& sum_of::<A>(Seq::empty(), 0) == zero()
            &&& squares_of::<A>(Seq::empty(), 0) == zero()
        }),
{
    lemma_stats_push::<A>(x, v, x.len() as int);
}

} // verus!
