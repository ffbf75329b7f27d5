//! Symmetric eight-bit quantization: one scale for each row.

use crate::float::{
    Arith, F32, deterministic, fabs, fdiv, ffrom_int, flt, fmax, fmul, fround, fto_i32, nan, one,
    zero,
};
use crate::grid::{cells, lemma_cell, lemma_flat};
use vstd::prelude::*;
use vstd::slice::slice_subrange;

verus! {

/// The largest absolute value among the first `n` numbers, and zero where there is none.
pub open spec fn max_abs(s: Seq<F32>, n: int) -> F32
    decreases n,
{
    if n <= 0 {
        zero()
    } else {
        fmax(max_abs(s, n - 1), fabs(s[n - 1]))
    }
}

/// The largest absolute value of the numbers, and zero where there is none.
pub fn largest_abs(s: &[F32]) -> (r: F32)
    ensures
        r == max_abs(s@, s@.len() as int),
{
    let mut acc: F32 = zero();
    for i in 0..s.len()
        invariant
            acc == max_abs(s@, i as int),
    {
        acc = acc.max(s[i].abs());
    }
    acc
}

/// The largest absolute value is a number, has no sign, and no number among the values exceeds it.
pub proof fn law_max_abs(s: Seq<F32>, n: int)
    requires
        0 <= n <= s.len(),
    ensures
        !nan(max_abs(s, n)),
        max_abs(s, n).bits < 0x8000_0000,
        forall|i: int| 0 <= i < n ==> !flt(max_abs(s, n), fabs(#[trigger] s[i])),
    decreases n,
{
    if n > 0 {
        law_max_abs(s, n - 1);
    }
}

/// `127.0`, the largest code.
pub open spec fn top_code() -> F32 {
    F32 { bits: 0x42FE_0000 }
}

/// The step between neighbouring codes of a row: the largest absolute value maps to 127, or one
/// where all numbers are zero.
pub open spec fn int8_scale<A: Arith>(row: Seq<F32>) -> F32 {
    let m = max_abs(row, row.len() as int);
    if flt(zero(), m) {
        fdiv::<A>(m, top_code())
    } else {
        fdiv::<A>(one(), top_code())
    }
}

/// An integer held between -127 and 127.
pub open spec fn clamp127(q: int) -> i8 {
    (if q < -127 {
        -127
    } else if q > 127 {
        127
    } else {
        q
    }) as i8
}

/// The code of a number of a row: the number in steps, rounded and held between -127 and 127.
pub open spec fn int8_code<A: Arith>(row: Seq<F32>, v: F32) -> i8 {
    let inv = fdiv::<A>(one(), int8_scale::<A>(row));
    clamp127(fto_i32::<A>(fround::<A>(fmul::<A>(v, inv))) as int)
}

/// Row `row` of a table with `in_dim` columns.
pub open spec fn table_row(vals: Seq<F32>, in_dim: int, row: int) -> Seq<F32> {
    cells(vals, in_dim, row, 0, in_dim)
}

/// Codes and scales are the encoding of a table of `out_dim` rows of `in_dim` numbers.
pub open spec fn int8_encodes<A: Arith>(
    vals: Seq<F32>,
    out_dim: int,
    in_dim: int,
    packed: Seq<i8>,
    scales: Seq<F32>,
) -> bool {
    &&& packed.len() == out_dim * in_dim
    &&& scales.len() == out_dim
    &&& forall|k: int|
        0 <= k < packed.len() ==> #[trigger] packed[k] == int8_code::<A>(
            table_row(vals, in_dim, k / in_dim),
            vals[k],
        )
    &&& forall|row: int|
        0 <= row < out_dim ==> #[trigger] scales[row] == int8_scale::<A>(
            table_row(vals, in_dim, row),
        )
}

/// Quantizes a table of `out_dim` rows of `in_dim` numbers: the codes and the scale of each row.
pub fn quant_f32_to_int8<A: Arith>(f32_vals: &[F32], out_dim: usize, in_dim: usize) -> (r: (
    Vec<i8>,
    Vec<F32>,
))
    requires
        out_dim * in_dim <= f32_vals@.len(),
    ensures
        r.0@.len() == out_dim * in_dim,
        r.1@.len() == out_dim,
        forall|k: int| 0 <= k < r.0@.len() ==> -127 <= #[trigger] r.0@[k] <= 127,
        deterministic::<A>() ==> int8_encodes::<A>(
            f32_vals@,
            out_dim as int,
            in_dim as int,
            r.0@,
            r.1@,
        ),
{
    let mut packed: Vec<i8> = Vec::new();
    let mut scales: Vec<F32> = Vec::new();
    assert(0 * (in_dim as int) == 0);
    assert(f32_vals.len() == f32_vals@.len());
    for row in 0..out_dim
        invariant
            out_dim * in_dim <= f32_vals@.len() <= usize::MAX,
            packed@.len() == row * in_dim,
            scales@.len() == row,
            forall|k: int| 0 <= k < packed@.len() ==> -127 <= #[trigger] packed@[k] <= 127,
            deterministic::<A>() ==> forall|k: int|
                0 <= k < packed@.len() ==> #[trigger] packed@[k] == int8_code::<A>(
                    table_row(f32_vals@, in_dim as int, k / in_dim as int),
                    f32_vals@[k],
                ),
            deterministic::<A>() ==> forall|i: int|
                0 <= i < row ==> #[trigger] scales@[i] == int8_scale::<A>(
                    table_row(f32_vals@, in_dim as int, i),
                ),
    {
        proof {
            lemma_cell(row as int, out_dim as int, in_dim as int);
        }
        let base: usize = row * in_dim;
        let slice: &[F32] = slice_subrange(f32_vals, base, base + in_dim);
        let largest: F32 = largest_abs(slice);
        let numerator: F32 = if zero().less(largest) {
            largest
        } else {
            one()
        };
        let scale: F32 = A::div(numerator, F32 { bits: 0x42FE_0000 });
        scales.push(scale);
        let inv: F32 = A::div(one(), scale);
        for j in 0..in_dim
            invariant
                row < out_dim,
                base == row * in_dim,
                slice@.len() == in_dim,
                base + in_dim <= f32_vals@.len(),
                slice@ == table_row(f32_vals@, in_dim as int, row as int),
                deterministic::<A>() ==> inv == fdiv::<A>(one(), int8_scale::<A>(slice@)),
                packed@.len() == row * in_dim + j,
                forall|k: int| 0 <= k < packed@.len() ==> -127 <= #[trigger] packed@[k] <= 127,
                deterministic::<A>() ==> forall|k: int|
                    0 <= k < packed@.len() ==> #[trigger] packed@[k] == int8_code::<A>(
                        table_row(f32_vals@, in_dim as int, k / in_dim as int),
                        f32_vals@[k],
                    ),
        {
            proof {
                lemma_flat(row as int, j as int, in_dim as int);
            }
            let q: i32 = A::to_i32(A::round(A::mul(slice[j], inv)));
            let code: i8 = if q < -127 {
                -127
            } else if q > 127 {
                127
            } else {
                q as i8
            };
            packed.push(code);
        }
    }
    (packed, scales)
}

/// The number at flat index `k` of a decoded table: its code times the scale of its row.
pub open spec fn int8_entry<A: Arith>(
    packed: Seq<i8>,
    scales: Seq<F32>,
    in_dim: int,
    k: int,
) -> F32 {
    fmul::<A>(ffrom_int::<A>(packed[k] as i64), scales[k / in_dim])
}

/// Decodes a table of eight-bit codes: each code times the scale of its row.
pub fn int8_to_f32<A: Arith>(packed: &[i8], scales: &[F32], out_dim: usize, in_dim: usize) -> (r:
    Vec<F32>)
    requires
        out_dim * in_dim <= packed@.len(),
        out_dim <= scales@.len(),
    ensures
        r@.len() == out_dim * in_dim,
        deterministic::<A>() ==> forall|k: int|
            0 <= k < r@.len() ==> #[trigger] r@[k] == int8_entry::<A>(packed@, scales@, in_dim as int, k),
{
    let mut out: Vec<F32> = Vec::new();
    assert(0 * (in_dim as int) == 0);
    assert(packed.len() == packed@.len());
    for row in 0..out_dim
        invariant
            out_dim * in_dim <= packed@.len() <= usize::MAX,
            out_dim <= scales@.len(),
            out@.len() == row * in_dim,
            deterministic::<A>() ==> forall|k: int|
                0 <= k < out@.len() ==> #[trigger] out@[k] == int8_entry::<A>(packed@, scales@, in_dim as int, k),
    {
        proof {
            lemma_cell(row as int, out_dim as int, in_dim as int);
        }
        let scale: F32 = scales[row];
        let base: usize = row * in_dim;
        for j in 0..in_dim
            invariant
                row < out_dim <= scales@.len(),
                scale == scales@[row as int],
                base == row * in_dim,
                base + in_dim <= packed@.len() <= usize::MAX,
                out@.len() == row * in_dim + j,
                deterministic::<A>() ==> forall|k: int|
                    0 <= k < out@.len() ==> #[trigger] out@[k] == int8_entry::<A>(packed@, scales@, in_dim as int, k),
        {
            proof {
                lemma_flat(row as int, j as int, in_dim as int);
            }
            out.push(A::mul(A::from_int(packed[base + j] as i64), scale));
        }
    }
    out
}

/// What a read gives back of a write: the code of a number times the scale of its row.
pub proof fn law_int8_round_trip<A: Arith>(
    vals: Seq<F32>,
    out_dim: int,
    in_dim: int,
    packed: Seq<i8>,
    scales: Seq<F32>,
    k: int,
)
    requires
        0 <= k < out_dim * in_dim,
        0 < in_dim,
        out_dim * in_dim <= vals.len(),
        int8_encodes::<A>(vals, out_dim, in_dim, packed, scales),
    ensures
        ({
            let row = table_row(vals, in_dim, k / in_dim);
            int8_entry::<A>(packed, scales, in_dim, k) == fmul::<A>(
                ffrom_int::<A>(int8_code::<A>(row, vals[k]) as i64),
                int8_scale::<A>(row),
            )
        }),
{
    assert(0 <= k / in_dim < out_dim) by {
        vstd::arithmetic::div_mod::lemma_div_pos_is_pos(k, in_dim);
        vstd::arithmetic::mul::lemma_mul_is_commutative(out_dim, in_dim);
        vstd::arithmetic::div_mod::lemma_multiply_divide_lt(k, in_dim, out_dim);
    }
}

/// The largest absolute value is that of one of the numbers, or zero.
pub proof fn law_max_abs_attained(s: Seq<F32>, n: int)
    requires
        0 <= n <= s.len(),
    ensures
        max_abs(s, n) == zero() || exists|i: int|
            0 <= i < n && max_abs(s, n) == fabs(#[trigger] s[i]),
    decreases n,
{
    if n > 0 {
        law_max_abs_attained(s, n - 1);
        law_max_abs(s, n - 1);
        if max_abs(s, n) == max_abs(s, n - 1) {
            if max_abs(s, n) != zero() {
                let i = choose|i: int|
                    0 <= i < n - 1 && max_abs(s, n - 1) == fabs(#[trigger] s[i]);
                assert(max_abs(s, n) == fabs(s[i]));
            }
        } else {
            assert(max_abs(s, n) == fabs(s[n - 1]));
        }
    }
}

/// The step and the codes of a row, where `m` is its largest absolute value: the step is a part in
/// 127 of it, or of one where all numbers are zero, and a code counts steps, rounded, from -127 to
/// 127.
pub proof fn law_int8_steps<A: Arith>(row: Seq<F32>, v: F32)
    ensures
        ({
            let m = max_abs(row, row.len() as int);
            let step = fdiv::<A>(
                if flt(zero(), m) {
                    m
                } else {
                    one()
                },
                (F32 { bits: 0x42FE_0000 }),
            );
            let steps = fto_i32::<A>(fround::<A>(fmul::<A>(v, fdiv::<A>(one(), step))));
            &&& int8_scale::<A>(row) == step
            &&& -127 <= steps <= 127 ==> int8_code::<A>(row, v) == steps
            &&& steps < -127 ==> int8_code::<A>(row, v) == -127
            &&& steps > 127 ==> int8_code::<A>(row, v) == 127
        }),
{
}

} // verus!
